//! The model catalog: models, their quantized variants, and how a sync fills it.

use vstd::arithmetic::power2::{lemma2_to64, lemma2_to64_rest, pow2};
use vstd::prelude::*;

use crate::catalog::dates::{alphanumeric, is_alphanumeric};
use crate::double::{nearest, nearest_scaled, sum};
use crate::estimate::{bits_of, Figures, ModelVariant, BIT};
use crate::numeral::round_half_even;
use crate::rounding::{large_number_rounds, small_ratio_rounds};
use crate::score::figures_of;
use crate::text::{
    chars_of, contains, contains_chars, find_from, first_at, lemma_first_at, matches_at, occurs_at,
    part, same_chars, starts_with, string_of, to_uppercase, uppercase,
};

pub mod curated;
pub mod dates;
pub mod db;
pub mod gguf;
pub mod hf;
pub mod http;
pub mod ollama_registry;
pub mod sync;

pub use sync::{SyncOptions, SyncReport};

verus! {

/// Where a model comes from.
#[derive(Debug, Clone, Copy, PartialEq, Eq, Structural)]
pub enum Source {
    HuggingFace,
    Ollama,
    Mlx,
}

/// The programs that run models.
#[derive(Debug, Clone, Copy, PartialEq, Eq, Structural)]
pub enum RuntimeKind {
    Ollama,
    LlamaCpp,
    MlxLm,
}

/// One quantization of a model.
#[derive(Debug)]
pub struct CatalogVariant {
    pub quant: String,
    /// Effective bits per weight, in units of 10^-16.
    pub bpw: u64,
    pub file_size_bytes: Option<u64>,
    pub layers: u32,
    pub kv_heads: u32,
    pub head_dim: u32,
    pub embedding_dim: u32,
    pub runtime_compat: Vec<RuntimeKind>,
    /// Exact Ollama library tag (`8b-instruct-q4_K_M`); `None` for variants
    /// that the library does not list.
    pub source_tag: Option<String>,
}

#[derive(Debug)]
pub struct CatalogModel {
    pub id: i64,
    pub name: String,
    pub family: Option<String>,
    pub source: Source,
    /// Hugging Face repository, where there is one.
    pub repo: Option<String>,
    pub params_total: u64,
    pub params_active: u64,
    pub architecture: Option<String>,
    pub context_max: u32,
    /// Release date in epoch seconds, when known.
    pub released_at: Option<i64>,
    /// The date is only a bound on the release date.
    pub released_approx: bool,
    pub variants: Vec<CatalogVariant>,
}

/// `CatalogVariant` without its storage.
pub ghost struct Variant {
    pub quant: Seq<char>,
    pub bpw: u64,
    pub file_size_bytes: Option<u64>,
    pub layers: u32,
    pub kv_heads: u32,
    pub head_dim: u32,
    pub embedding_dim: u32,
    pub runtime_compat: Seq<RuntimeKind>,
    pub source_tag: Option<Seq<char>>,
}

/// `CatalogModel` without its storage.
pub ghost struct Model {
    pub id: i64,
    pub name: Seq<char>,
    pub family: Option<Seq<char>>,
    pub source: Source,
    pub repo: Option<Seq<char>>,
    pub params_total: u64,
    pub params_active: u64,
    pub architecture: Option<Seq<char>>,
    pub context_max: u32,
    pub released_at: Option<i64>,
    pub released_approx: bool,
    pub variants: Seq<Variant>,
}

impl View for CatalogVariant {
    type V = Variant;

    open spec fn view(&self) -> Variant {
        Variant {
            quant: self.quant@,
            bpw: self.bpw,
            file_size_bytes: self.file_size_bytes,
            layers: self.layers,
            kv_heads: self.kv_heads,
            head_dim: self.head_dim,
            embedding_dim: self.embedding_dim,
            runtime_compat: self.runtime_compat@,
            source_tag: self.source_tag.deep_view(),
        }
    }
}

impl DeepView for CatalogVariant {
    type V = Variant;

    open spec fn deep_view(&self) -> Variant {
        self@
    }
}

impl View for CatalogModel {
    type V = Model;

    open spec fn view(&self) -> Model {
        Model {
            id: self.id,
            name: self.name@,
            family: self.family.deep_view(),
            source: self.source,
            repo: self.repo.deep_view(),
            params_total: self.params_total,
            params_active: self.params_active,
            architecture: self.architecture.deep_view(),
            context_max: self.context_max,
            released_at: self.released_at,
            released_approx: self.released_approx,
            variants: self.variants.deep_view(),
        }
    }
}

impl DeepView for CatalogModel {
    type V = Model;

    open spec fn deep_view(&self) -> Model {
        self@
    }
}

/// A copy of an optional text.
pub fn clone_text(s: &Option<String>) -> (r: Option<String>)
    ensures
        r.deep_view() == s.deep_view(),
{
    match s {
        Some(t) => Some(t.clone()),
        None => None,
    }
}

fn clone_runtimes(v: &Vec<RuntimeKind>) -> (r: Vec<RuntimeKind>)
    ensures
        r@ == v@,
{
    let mut out: Vec<RuntimeKind> = Vec::new();
    for i in 0..v.len()
        invariant
            out@ == v@.take(i as int),
    {
        out.push(v[i]);
        assert(out@ =~= v@.take(i as int + 1));
    }
    assert(v@.take(v@.len() as int) =~= v@);
    out
}

impl Clone for CatalogVariant {
    fn clone(&self) -> (r: CatalogVariant)
        ensures
            r@ == self@,
    {
        CatalogVariant {
            quant: self.quant.clone(),
            bpw: self.bpw,
            file_size_bytes: self.file_size_bytes,
            layers: self.layers,
            kv_heads: self.kv_heads,
            head_dim: self.head_dim,
            embedding_dim: self.embedding_dim,
            runtime_compat: clone_runtimes(&self.runtime_compat),
            source_tag: clone_text(&self.source_tag),
        }
    }
}

pub fn clone_variants(v: &Vec<CatalogVariant>) -> (r: Vec<CatalogVariant>)
    ensures
        r.deep_view() == v.deep_view(),
{
    let mut out: Vec<CatalogVariant> = Vec::new();
    for i in 0..v.len()
        invariant
            out@.len() == i,
            forall|j: int| 0 <= j < i ==> (#[trigger] out@[j])@ == v@[j]@,
    {
        out.push(v[i].clone());
    }
    assert(out.deep_view() =~= v.deep_view());
    out
}

impl Clone for CatalogModel {
    fn clone(&self) -> (r: CatalogModel)
        ensures
            r@ == self@,
    {
        CatalogModel {
            id: self.id,
            name: self.name.clone(),
            family: clone_text(&self.family),
            source: self.source,
            repo: clone_text(&self.repo),
            params_total: self.params_total,
            params_active: self.params_active,
            architecture: clone_text(&self.architecture),
            context_max: self.context_max,
            released_at: self.released_at,
            released_approx: self.released_approx,
            variants: clone_variants(&self.variants),
        }
    }
}

/// A variant of a model as far as the estimates go.
pub open spec fn figures(m: Model, v: Variant) -> Figures {
    Figures {
        model_name: m.name,
        quant: v.quant,
        bpw: v.bpw,
        params_total: m.params_total,
        params_active: m.params_active,
        layers: v.layers,
        kv_heads: v.kv_heads,
        head_dim: v.head_dim,
        embedding_dim: v.embedding_dim,
        context_max: m.context_max,
    }
}

/// The variants of a model as far as the estimates go.
pub open spec fn model_figures(m: Model) -> Seq<Figures> {
    Seq::new(m.variants.len(), |i: int| figures(m, m.variants[i]))
}

impl CatalogModel {
    /// The variant `v` as far as the estimates go.
    pub fn to_model_variant(&self, v: &CatalogVariant) -> (r: ModelVariant)
        ensures
            r@ == figures(self@, v@),
    {
        ModelVariant {
            model_name: self.name.clone(),
            quant: v.quant.clone(),
            bpw: v.bpw,
            params_total: self.params_total,
            params_active: self.params_active,
            layers: v.layers,
            kv_heads: v.kv_heads,
            head_dim: v.head_dim,
            embedding_dim: v.embedding_dim,
            context_max: self.context_max,
        }
    }

    /// Every variant as far as the estimates go, in order.
    pub fn model_variants(&self) -> (r: Vec<ModelVariant>)
        ensures
            figures_of(r@) == model_figures(self@),
    {
        let mut out: Vec<ModelVariant> = Vec::new();
        for i in 0..self.variants.len()
            invariant
                out@.len() == i,
                forall|j: int|
                    0 <= j < i ==> (#[trigger] out@[j])@ == figures(self@, self.variants@[j]@),
        {
            out.push(self.to_model_variant(&self.variants[i]));
        }
        assert(figures_of(out@) =~= model_figures(self@));
        out
    }
}

// ---------------------------------------------------------------------------
// Quantizations
// ---------------------------------------------------------------------------

/// Bits per weight of the quantizations without prefix.
pub open spec fn plain_bpw(q: Seq<char>) -> Option<u64> {
    if q == "Q8_0"@ {
        Some(85_000_000_000_000_000)
    } else if q == "Q6_K"@ {
        Some(65_900_000_000_000_000)
    } else if q == "Q5_K_M"@ {
        Some(56_900_000_000_000_000)
    } else if q == "Q4_K_M"@ {
        Some(48_300_000_000_000_000)
    } else if q == "Q4_0"@ {
        Some(45_500_000_000_000_000)
    } else if q == "Q3_K_M"@ {
        Some(39_100_000_000_000_000)
    } else if q == "Q2_K"@ {
        Some(33_500_000_000_000_000)
    } else if q == "IQ4_XS"@ {
        Some(42_500_000_000_000_000)
    } else if q == "F16"@ || q == "BF16"@ {
        Some(160_000_000_000_000_000)
    } else if q == "MLX_4BIT"@ {
        Some(45_000_000_000_000_000)
    } else if q == "MLX_8BIT"@ {
        Some(85_000_000_000_000_000)
    } else {
        None
    }
}

/// The `_XL` builds upcast the important layers: 0.35 bits more than the
/// closest plain quantization, added in double precision.
pub open spec fn xl_bpw(q: Seq<char>) -> Option<u64> {
    if q == "Q2_K_XL"@ {
        Some(37_000_000_000_000_000)
    } else if q == "Q3_K_XL"@ {
        Some(42_600_000_000_000_000)
    } else if q == "Q4_K_XL"@ {
        Some(51_800_000_000_000_000)
    } else if q == "Q5_K_XL"@ {
        Some(60_400_000_000_000_000)
    } else if q == "Q6_K_XL"@ {
        Some(69_399_999_999_999_995)
    } else if q == "Q8_K_XL"@ {
        Some(88_500_000_000_000_000)
    } else {
        None
    }
}

/// Bits per weight of a quantization. `UD-` marks a build with the layout of
/// what follows it.
pub open spec fn bpw_of(q: Seq<char>) -> Option<u64>
    decreases q.len(),
{
    if q.len() >= 3 && q.take(3) == "UD-"@ {
        match xl_bpw(q.skip(3)) {
            Some(b) => Some(b),
            None => bpw_of(q.skip(3)),
        }
    } else {
        plain_bpw(q)
    }
}

/// The bits that the name of a plain quantization speaks of: sixteen for the
/// half-precision floats, else the digit in the name.
pub open spec fn named_bits(q: Seq<char>) -> int {
    if q == "F16"@ || q == "BF16"@ {
        16
    } else if q == "IQ4_XS"@ {
        q[2] as int - '0' as int
    } else if q == "MLX_4BIT"@ || q == "MLX_8BIT"@ {
        q[4] as int - '0' as int
    } else {
        q[1] as int - '0' as int
    }
}

/// The names of the plain quantizations differ in their letters.
pub proof fn lemma_plain_names()
    ensures
        "Q8_0"@.len() == 4 && "Q8_0"@[0] == 'Q' && "Q8_0"@[1] == '8',
        "Q6_K"@.len() == 4 && "Q6_K"@[0] == 'Q' && "Q6_K"@[1] == '6',
        "Q5_K_M"@.len() == 6 && "Q5_K_M"@[0] == 'Q' && "Q5_K_M"@[1] == '5',
        "Q4_K_M"@.len() == 6 && "Q4_K_M"@[0] == 'Q' && "Q4_K_M"@[1] == '4',
        "Q4_0"@.len() == 4 && "Q4_0"@[0] == 'Q' && "Q4_0"@[1] == '4',
        "Q3_K_M"@.len() == 6 && "Q3_K_M"@[0] == 'Q' && "Q3_K_M"@[1] == '3',
        "Q2_K"@.len() == 4 && "Q2_K"@[0] == 'Q' && "Q2_K"@[1] == '2',
        "IQ4_XS"@.len() == 6 && "IQ4_XS"@[0] == 'I' && "IQ4_XS"@[2] == '4',
        "F16"@.len() == 3 && "F16"@[0] == 'F',
        "BF16"@.len() == 4 && "BF16"@[0] == 'B',
        "MLX_4BIT"@.len() == 8 && "MLX_4BIT"@[0] == 'M' && "MLX_4BIT"@[4] == '4',
        "MLX_8BIT"@.len() == 8 && "MLX_8BIT"@[0] == 'M' && "MLX_8BIT"@[4] == '8',
        "UD-"@.len() == 3 && "UD-"@[0] == 'U',
{
    reveal_strlit("UD-");
    reveal_strlit("Q8_0");
    reveal_strlit("Q6_K");
    reveal_strlit("Q5_K_M");
    reveal_strlit("Q4_K_M");
    reveal_strlit("Q4_0");
    reveal_strlit("Q3_K_M");
    reveal_strlit("Q2_K");
    reveal_strlit("IQ4_XS");
    reveal_strlit("F16");
    reveal_strlit("BF16");
    reveal_strlit("MLX_4BIT");
    reveal_strlit("MLX_8BIT");
}

/// A plain quantization has no fewer bits per weight than its name says, and
/// less than one and a half more. Unquantized floats have just these bits.
pub proof fn bits_go_by_the_name(q: Seq<char>)
    requires
        plain_bpw(q) is Some,
    ensures
        named_bits(q) * BIT <= plain_bpw(q)->Some_0,
        2 * plain_bpw(q)->Some_0 < (2 * named_bits(q) + 3) * BIT,
        named_bits(q) == 16 ==> plain_bpw(q)->Some_0 == 16 * BIT,
{
    lemma_plain_names();
}

/// More bits in the name are more bits per weight.
pub proof fn bits_grow_with_the_name(q: Seq<char>, r: Seq<char>)
    requires
        plain_bpw(q) is Some,
        plain_bpw(r) is Some,
        named_bits(q) < named_bits(r),
    ensures
        plain_bpw(q)->Some_0 < plain_bpw(r)->Some_0,
{
    lemma_plain_names();
}

/// A build that `UD-` marks has the bits of what it marks, or of the `_XL`
/// build of that name; never fewer than the plain quantization.
pub proof fn marked_build_keeps_the_bits(q: Seq<char>)
    ensures
        xl_bpw(q) is None ==> bpw_of("UD-"@ + q) == bpw_of(q),
        xl_bpw(q) is Some ==> bpw_of("UD-"@ + q) == xl_bpw(q),
{
    reveal_strlit("UD-");
    let u = "UD-"@ + q;
    assert(u.take(3) =~= "UD-"@);
    assert(u.skip(3) =~= q);
}

/// The plain quantization that an `_XL` build is closest to.
pub open spec fn xl_base(q: Seq<char>) -> Option<Seq<char>> {
    if q == "Q2_K_XL"@ {
        Some("Q2_K"@)
    } else if q == "Q3_K_XL"@ {
        Some("Q3_K_M"@)
    } else if q == "Q4_K_XL"@ {
        Some("Q4_K_M"@)
    } else if q == "Q5_K_XL"@ {
        Some("Q5_K_M"@)
    } else if q == "Q6_K_XL"@ {
        Some("Q6_K"@)
    } else if q == "Q8_K_XL"@ {
        Some("Q8_0"@)
    } else {
        None
    }
}

/// `n` units are `m * 2^-j` bits in double precision.
proof fn lemma_bits(n: u64, j: nat, p: nat, m: nat)
    requires
        p == pow2(j),
        0x10_0000_0000_0000 * BIT <= n * p < 0x20_0000_0000_0000 * BIT,
        m == round_half_even((n * p) as nat, BIT as nat),
        m != 0x20_0000_0000_0000,
    ensures
        bits_of(n) == (m, -(j as int)),
{
    small_ratio_rounds(n as nat, BIT as nat, 0, j);
}

/// The bits of an `_XL` build are those of the plain quantization and 0.35, in
/// double precision.
pub proof fn xl_adds_to_its_base(q: Seq<char>)
    requires
        xl_bpw(q) is Some,
    ensures
        xl_base(q) is Some,
        plain_bpw(xl_base(q)->Some_0) is Some,
        bits_of(xl_bpw(q)->Some_0) == sum(
            bits_of(plain_bpw(xl_base(q)->Some_0)->Some_0),
            nearest(35, 100),
        ),
{
    reveal_strlit("Q8_0");
    reveal_strlit("Q6_K");
    reveal_strlit("Q5_K_M");
    reveal_strlit("Q4_K_M");
    reveal_strlit("Q3_K_M");
    reveal_strlit("Q2_K");
    reveal_strlit("Q4_0");
    assert("Q8_0"@[1] == '8' && "Q6_K"@[1] == '6' && "Q5_K_M"@[1] == '5' && "Q4_K_M"@[1] == '4'
        && "Q3_K_M"@[1] == '3' && "Q2_K"@[1] == '2' && "Q4_0"@[1] == '4');
    lemma2_to64();
    lemma2_to64_rest();
    let part = nearest(35, 100);
    small_ratio_rounds(35, 100, 0, 54);
    assert(part == (6_305_039_478_318_694nat, -54int));
    if q == "Q2_K_XL"@ {
        assert(plain_bpw("Q2_K"@) == Some(33_500_000_000_000_000u64));
        lemma_bits(33_500_000_000_000_000, 51, 2_251_799_813_685_248, 7_543_529_375_845_581);
        lemma_bits(37_000_000_000_000_000, 51, 2_251_799_813_685_248, 8_331_659_310_635_418);
        large_number_rounds(66_653_274_485_083_342, -54, 3);
        assert(sum((7_543_529_375_845_581nat, -51int), part) == nearest_scaled(66_653_274_485_083_342, 1, -54));
    } else if q == "Q3_K_XL"@ {
        assert(plain_bpw("Q3_K_M"@) == Some(39_100_000_000_000_000u64));
        lemma_bits(39_100_000_000_000_000, 51, 2_251_799_813_685_248, 8_804_537_271_509_320);
        lemma_bits(42_600_000_000_000_000, 50, 1_125_899_906_842_624, 4_796_333_603_149_578);
        large_number_rounds(76_741_337_650_393_254, -54, 4);
        assert(sum((8_804_537_271_509_320nat, -51int), part) == nearest_scaled(76_741_337_650_393_254, 1, -54));
    } else if q == "Q4_K_XL"@ {
        assert(plain_bpw("Q4_K_M"@) == Some(48_300_000_000_000_000u64));
        lemma_bits(48_300_000_000_000_000, 50, 1_125_899_906_842_624, 5_438_096_550_049_874);
        lemma_bits(51_800_000_000_000_000, 50, 1_125_899_906_842_624, 5_832_161_517_444_792);
        large_number_rounds(93_314_584_279_116_678, -54, 4);
        assert(sum((5_438_096_550_049_874nat, -50int), part) == nearest_scaled(93_314_584_279_116_678, 1, -54));
    } else if q == "Q5_K_XL"@ {
        assert(plain_bpw("Q5_K_M"@) == Some(56_900_000_000_000_000u64));
        lemma_bits(56_900_000_000_000_000, 50, 1_125_899_906_842_624, 6_406_370_469_934_531);
        lemma_bits(60_400_000_000_000_000, 50, 1_125_899_906_842_624, 6_800_435_437_329_449);
        large_number_rounds(108_806_966_997_271_190, -54, 4);
        assert(sum((6_406_370_469_934_531nat, -50int), part) == nearest_scaled(108_806_966_997_271_190, 1, -54));
    } else if q == "Q6_K_XL"@ {
        assert(plain_bpw("Q6_K"@) == Some(65_900_000_000_000_000u64));
        lemma_bits(65_900_000_000_000_000, 50, 1_125_899_906_842_624, 7_419_680_386_092_892);
        lemma_bits(69_399_999_999_999_995, 50, 1_125_899_906_842_624, 7_813_745_353_487_810);
        large_number_rounds(125_019_925_655_804_966, -54, 4);
        assert(sum((7_419_680_386_092_892nat, -50int), part) == nearest_scaled(125_019_925_655_804_966, 1, -54));
    } else {
        assert(plain_bpw("Q8_0"@) == Some(85_000_000_000_000_000u64));
        lemma_bits(85_000_000_000_000_000, 49, 562_949_953_421_312, 4_785_074_604_081_152);
        lemma_bits(88_500_000_000_000_000, 49, 562_949_953_421_312, 4_982_107_087_778_611);
        large_number_rounds(159_427_426_808_915_558, -54, 5);
        assert(sum((4_785_074_604_081_152nat, -49int), part) == nearest_scaled(159_427_426_808_915_558, 1, -54));
    }
}

fn plain_quant_bpw(q: &[char]) -> (r: Option<u64>)
    ensures
        r == plain_bpw(q@),
{
    if same_chars(q, &chars_of("Q8_0")) {
        Some(85_000_000_000_000_000)
    } else if same_chars(q, &chars_of("Q6_K")) {
        Some(65_900_000_000_000_000)
    } else if same_chars(q, &chars_of("Q5_K_M")) {
        Some(56_900_000_000_000_000)
    } else if same_chars(q, &chars_of("Q4_K_M")) {
        Some(48_300_000_000_000_000)
    } else if same_chars(q, &chars_of("Q4_0")) {
        Some(45_500_000_000_000_000)
    } else if same_chars(q, &chars_of("Q3_K_M")) {
        Some(39_100_000_000_000_000)
    } else if same_chars(q, &chars_of("Q2_K")) {
        Some(33_500_000_000_000_000)
    } else if same_chars(q, &chars_of("IQ4_XS")) {
        Some(42_500_000_000_000_000)
    } else if same_chars(q, &chars_of("F16")) || same_chars(q, &chars_of("BF16")) {
        Some(160_000_000_000_000_000)
    } else if same_chars(q, &chars_of("MLX_4BIT")) {
        Some(45_000_000_000_000_000)
    } else if same_chars(q, &chars_of("MLX_8BIT")) {
        Some(85_000_000_000_000_000)
    } else {
        None
    }
}

fn xl_quant_bpw(q: &[char]) -> (r: Option<u64>)
    ensures
        r == xl_bpw(q@),
{
    if same_chars(q, &chars_of("Q2_K_XL")) {
        Some(37_000_000_000_000_000)
    } else if same_chars(q, &chars_of("Q3_K_XL")) {
        Some(42_600_000_000_000_000)
    } else if same_chars(q, &chars_of("Q4_K_XL")) {
        Some(51_800_000_000_000_000)
    } else if same_chars(q, &chars_of("Q5_K_XL")) {
        Some(60_400_000_000_000_000)
    } else if same_chars(q, &chars_of("Q6_K_XL")) {
        Some(69_399_999_999_999_995)
    } else if same_chars(q, &chars_of("Q8_K_XL")) {
        Some(88_500_000_000_000_000)
    } else {
        None
    }
}

fn chars_bpw(q: &[char]) -> (r: Option<u64>)
    ensures
        r == bpw_of(q@),
    decreases q@.len(),
{
    proof {
        reveal_strlit("UD-");
    }
    let ud = chars_of("UD-");
    if starts_with(q, &ud) {
        assert(q@.take(3) =~= q@.subrange(0, 3));
        let base = part(q, 3, q.len());
        assert(base@ =~= q@.skip(3));
        match xl_quant_bpw(&base) {
            Some(b) => Some(b),
            None => chars_bpw(&base),
        }
    } else {
        assert(q@.len() >= 3 ==> q@.take(3) =~= q@.subrange(0, 3));
        plain_quant_bpw(q)
    }
}

/// Effective bits per weight of a quantization, in units of 10^-16.
pub fn quant_bpw(quant: &str) -> (r: Option<u64>)
    ensures
        r == bpw_of(quant@),
{
    chars_bpw(&chars_of(quant))
}

/// The quantizations looked for in file names, in order.
pub open spec fn known_quants() -> Seq<Seq<char>> {
    seq![
        "Q8_0"@,
        "Q6_K"@,
        "Q5_K_M"@,
        "Q4_K_M"@,
        "Q4_0"@,
        "Q3_K_M"@,
        "Q2_K"@,
        "IQ4_XS"@,
        "BF16"@,
        "F16"@,
    ]
}

/// The `_XL` builds looked for before them, some of which hold a plain
/// quantization's name.
pub open spec fn known_xl() -> Seq<Seq<char>> {
    seq![
        "UD-Q2_K_XL"@,
        "UD-Q3_K_XL"@,
        "UD-Q4_K_XL"@,
        "UD-Q5_K_XL"@,
        "UD-Q6_K_XL"@,
        "UD-Q8_K_XL"@,
    ]
}

/// The first of `list`, from `k` on, that stands in `s`.
pub open spec fn first_contained(list: Seq<Seq<char>>, k: int, s: Seq<char>) -> Option<Seq<char>>
    decreases list.len() - k,
{
    if k < 0 || k >= list.len() {
        None
    } else if contains(s, list[k]) {
        Some(list[k])
    } else {
        first_contained(list, k + 1, s)
    }
}

/// `q` stands at position `i` and begins a word there: no letter or digit goes
/// right before it.
pub open spec fn begins_word_at(s: Seq<char>, q: Seq<char>, i: int) -> bool {
    occurs_at(s, q, i) && (i == 0 || !is_alphanumeric(s[i - 1]))
}

/// `q` begins a word somewhere in `s`.
pub open spec fn begins_word(s: Seq<char>, q: Seq<char>) -> bool {
    exists|i: int| begins_word_at(s, q, i)
}

/// The first of `list`, from `k` on, that begins a word in `s`.
pub open spec fn first_word(list: Seq<Seq<char>>, k: int, s: Seq<char>) -> Option<Seq<char>>
    decreases list.len() - k,
{
    if k < 0 || k >= list.len() {
        None
    } else if begins_word(s, list[k]) {
        Some(list[k])
    } else {
        first_word(list, k + 1, s)
    }
}

/// `q` as it stands first in `s`: with `UD-` if that goes right before it and
/// begins a word.
pub open spec fn with_ud(s: Seq<char>, q: Seq<char>) -> Seq<char> {
    match first_at(s, q, 0) {
        Some(i) => if i >= 3 && s.subrange(i - 3, i) == "UD-"@ && (i == 3 || !is_alphanumeric(
            s[i - 4],
        )) {
            "UD-"@ + q
        } else {
            q
        },
        None => q,
    }
}

/// The quantization that a file name in upper case tells. `UD-` counts only
/// where it begins a word.
pub open spec fn quant_in(upper: Seq<char>) -> Option<Seq<char>> {
    match first_word(known_xl(), 0, upper) {
        Some(q) => Some(q),
        None => match first_contained(known_quants(), 0, upper) {
            Some(q) => Some(with_ud(upper, q)),
            None => None,
        },
    }
}

proof fn lemma_first_contained(list: Seq<Seq<char>>, k: int, s: Seq<char>)
    requires
        0 <= k,
    ensures
        first_contained(list, k, s) matches Some(q) ==> list.contains(q),
    decreases list.len() - k,
{
    if k < list.len() && !contains(s, list[k]) {
        lemma_first_contained(list, k + 1, s);
    }
}

proof fn lemma_first_word(list: Seq<Seq<char>>, k: int, s: Seq<char>)
    requires
        0 <= k,
    ensures
        first_word(list, k, s) matches Some(q) ==> list.contains(q),
    decreases list.len() - k,
{
    if k < list.len() && !begins_word(s, list[k]) {
        lemma_first_word(list, k + 1, s);
    }
}

/// `UD-` before a name that does not begin with it.
proof fn lemma_ud(q: Seq<char>)
    requires
        q.len() > 0,
        q[0] != 'U',
    ensures
        plain_bpw(q) is Some ==> bpw_of(q) is Some,
        xl_bpw(q) is Some || plain_bpw(q) is Some ==> bpw_of("UD-"@ + q) is Some,
{
    reveal_strlit("UD-");
    let u = "UD-"@ + q;
    assert(u.take(3) =~= "UD-"@);
    assert(u.skip(3) =~= q);
    assert(q.len() >= 3 ==> q.take(3)[0] != "UD-"@[0]);
    assert(bpw_of(q) == plain_bpw(q));
}

/// A quantization that a file name tells is always one whose bits per weight
/// are known.
pub proof fn told_quant_is_known(upper: Seq<char>)
    ensures
        quant_in(upper) matches Some(q) ==> bpw_of(q) is Some,
{
    reveal_strlit("UD-");
    if let Some(q) = first_word(known_xl(), 0, upper) {
        lemma_first_word(known_xl(), 0, upper);
        reveal_strlit("UD-Q2_K_XL");
        reveal_strlit("UD-Q3_K_XL");
        reveal_strlit("UD-Q4_K_XL");
        reveal_strlit("UD-Q5_K_XL");
        reveal_strlit("UD-Q6_K_XL");
        reveal_strlit("UD-Q8_K_XL");
        reveal_strlit("Q2_K_XL");
        reveal_strlit("Q3_K_XL");
        reveal_strlit("Q4_K_XL");
        reveal_strlit("Q5_K_XL");
        reveal_strlit("Q6_K_XL");
        reveal_strlit("Q8_K_XL");
        let k = choose|k: int| 0 <= k < known_xl().len() && known_xl()[k] == q;
        let rest = q.skip(3);
        assert("UD-"@ + rest =~= q);
        assert(rest =~= "Q2_K_XL"@ || rest =~= "Q3_K_XL"@ || rest =~= "Q4_K_XL"@ || rest
            =~= "Q5_K_XL"@ || rest =~= "Q6_K_XL"@ || rest =~= "Q8_K_XL"@);
        assert(xl_bpw(rest) is Some);
        lemma_ud(rest);
    } else if let Some(q) = first_contained(known_quants(), 0, upper) {
        lemma_first_contained(known_quants(), 0, upper);
        reveal_strlit("Q8_0");
        reveal_strlit("Q6_K");
        reveal_strlit("Q5_K_M");
        reveal_strlit("Q4_K_M");
        reveal_strlit("Q4_0");
        reveal_strlit("Q3_K_M");
        reveal_strlit("Q2_K");
        reveal_strlit("IQ4_XS");
        reveal_strlit("BF16");
        reveal_strlit("F16");
        let k = choose|k: int| 0 <= k < known_quants().len() && known_quants()[k] == q;
        assert(plain_bpw(q) is Some);
        lemma_ud(q);
    }
}

proof fn lemma_first_contained_stands(list: Seq<Seq<char>>, k: int, s: Seq<char>)
    requires
        0 <= k,
    ensures
        match first_contained(list, k, s) {
            Some(q) => contains(s, q),
            None => forall|i: int| k <= i < list.len() ==> !contains(s, #[trigger] list[i]),
        },
    decreases list.len() - k,
{
    if k < list.len() && !contains(s, list[k]) {
        lemma_first_contained_stands(list, k + 1, s);
    }
}

proof fn lemma_first_word_stands(list: Seq<Seq<char>>, k: int, s: Seq<char>)
    requires
        0 <= k,
    ensures
        first_word(list, k, s) matches Some(q) ==> contains(s, q),
    decreases list.len() - k,
{
    if k < list.len() {
        if begins_word(s, list[k]) {
            let i = choose|i: int| begins_word_at(s, list[k], i);
            assert(occurs_at(s, list[k], i));
        } else {
            lemma_first_word_stands(list, k + 1, s);
        }
    }
}

/// The quantization that a file name tells stands in it, and none is told only
/// where none of the known ones does.
pub proof fn told_quant_stands_in_the_name(upper: Seq<char>, k: int)
    requires
        0 <= k < known_quants().len(),
    ensures
        quant_in(upper) matches Some(q) ==> contains(upper, q),
        quant_in(upper) is None ==> !contains(upper, known_quants()[k]),
{
    lemma_first_word_stands(known_xl(), 0, upper);
    lemma_first_contained_stands(known_quants(), 0, upper);
    if first_word(known_xl(), 0, upper) is None {
        if let Some(q) = first_contained(known_quants(), 0, upper) {
            lemma_first_at(upper, q, 0);
            reveal_strlit("UD-");
            if let Some(i) = first_at(upper, q, 0) {
                if with_ud(upper, q) != q {
                    assert(upper.subrange(i - 3, i + q.len()) =~= "UD-"@ + q);
                    assert(occurs_at(upper, "UD-"@ + q, i - 3));
                }
            }
        }
    }
}

fn find_listed(list: &[&str], s: &[char]) -> (r: Option<Vec<char>>)
    ensures
        ({
            let names = Seq::new(list@.len(), |i: int| list@[i]@);
            match r {
                Some(q) => first_contained(names, 0, s@) == Some(q@) && contains(s@, q@),
                None => first_contained(names, 0, s@) is None,
            }
        }),
{
    let ghost names = Seq::new(list@.len(), |i: int| list@[i]@);
    let mut k: usize = 0;
    while k < list.len()
        invariant
            k <= list@.len(),
            names == Seq::new(list@.len(), |i: int| list@[i]@),
            first_contained(names, 0, s@) == first_contained(names, k as int, s@),
        decreases list@.len() - k,
    {
        let q = chars_of(list[k]);
        if contains_chars(s, &q) {
            return Some(q);
        }
        k = k + 1;
    }
    None
}

fn has_word(s: &[char], q: &[char]) -> (r: bool)
    ensures
        r == begins_word(s@, q@),
{
    let mut from: usize = 0;
    while from < s.len()
        invariant
            from <= s@.len(),
            forall|j: int| 0 <= j < from ==> !begins_word_at(s@, q@, j),
        decreases s@.len() - from,
    {
        if matches_at(s, q, from) && (from == 0 || !alphanumeric(s[from - 1])) {
            assert(begins_word_at(s@, q@, from as int));
            return true;
        }
        from = from + 1;
    }
    if q.len() == 0 && (s.len() == 0 || !alphanumeric(s[s.len() - 1])) {
        assert(s@.subrange(s@.len() as int, s@.len() as int) =~= q@);
        assert(begins_word_at(s@, q@, s@.len() as int));
        return true;
    }
    false
}

fn find_word(list: &[&str], s: &[char]) -> (r: Option<Vec<char>>)
    ensures
        ({
            let names = Seq::new(list@.len(), |i: int| list@[i]@);
            match r {
                Some(q) => first_word(names, 0, s@) == Some(q@),
                None => first_word(names, 0, s@) is None,
            }
        }),
{
    let ghost names = Seq::new(list@.len(), |i: int| list@[i]@);
    let mut k: usize = 0;
    while k < list.len()
        invariant
            k <= list@.len(),
            names == Seq::new(list@.len(), |i: int| list@[i]@),
            first_word(names, 0, s@) == first_word(names, k as int, s@),
        decreases list@.len() - k,
    {
        let q = chars_of(list[k]);
        if has_word(s, &q) {
            return Some(q);
        }
        k = k + 1;
    }
    None
}

/// The quantization that a file name in upper case tells.
pub fn quant_in_upper(upper: &str) -> (r: Option<String>)
    ensures
        r.deep_view() == quant_in(upper@),
{
    let s = chars_of(upper);
    let xl = [
        "UD-Q2_K_XL",
        "UD-Q3_K_XL",
        "UD-Q4_K_XL",
        "UD-Q5_K_XL",
        "UD-Q6_K_XL",
        "UD-Q8_K_XL",
    ];
    assert(Seq::new(xl@.len(), |i: int| xl@[i]@) =~= known_xl());
    match find_word(&xl, &s) {
        Some(q) => {
            return Some(string_of(&q));
        },
        None => {},
    }
    let known = [
        "Q8_0",
        "Q6_K",
        "Q5_K_M",
        "Q4_K_M",
        "Q4_0",
        "Q3_K_M",
        "Q2_K",
        "IQ4_XS",
        "BF16",
        "F16",
    ];
    assert(Seq::new(known@.len(), |i: int| known@[i]@) =~= known_quants());
    let q = match find_listed(&known, &s) {
        Some(q) => q,
        None => {
            return None;
        },
    };
    proof {
        lemma_first_at(s@, q@, 0);
        reveal_strlit("UD-");
    }
    match find_from(&s, &q, 0) {
        Some(i) => {
            if i >= 3 && same_chars(&part(&s, i - 3, i), &chars_of("UD-")) && (i == 3
                || !alphanumeric(s[i - 4])) {
                let mut r = "UD-".to_owned();
                r.append(string_of(&q).as_str());
                return Some(r);
            }
        },
        None => {},
    }
    Some(string_of(&q))
}

/// The quantization that a GGUF file name tells, exactly as it is published:
/// the tag also selects the file in its repository.
pub fn quant_from_filename(name: &str) -> (r: Option<String>)
    ensures
        r.deep_view() == quant_in(uppercase(name@)),
{
    quant_in_upper(to_uppercase(name).as_str())
}

} // verus!

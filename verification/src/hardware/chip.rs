//! Apple Silicon chips and their memory bandwidth.

use vstd::prelude::*;

use crate::text::{contains, contains_text};

verus! {

#[derive(Debug, Clone, Copy, PartialEq, Eq, Structural)]
pub enum ChipFamily {
    M1,
    M2,
    M3,
    M4,
    M5,
    Unknown,
}

#[derive(Debug, Clone, Copy, PartialEq, Eq, Structural)]
pub enum ChipVariant {
    Base,
    Pro,
    Max,
    Ultra,
}

/// The family that a brand string names; of several the newest.
pub open spec fn family_in(s: Seq<char>) -> ChipFamily {
    if contains(s, "M5"@) {
        ChipFamily::M5
    } else if contains(s, "M4"@) {
        ChipFamily::M4
    } else if contains(s, "M3"@) {
        ChipFamily::M3
    } else if contains(s, "M2"@) {
        ChipFamily::M2
    } else if contains(s, "M1"@) {
        ChipFamily::M1
    } else {
        ChipFamily::Unknown
    }
}

/// The variant that a brand string names; of several the largest.
pub open spec fn variant_in(s: Seq<char>) -> ChipVariant {
    if contains(s, "Ultra"@) {
        ChipVariant::Ultra
    } else if contains(s, "Max"@) {
        ChipVariant::Max
    } else if contains(s, "Pro"@) {
        ChipVariant::Pro
    } else {
        ChipVariant::Base
    }
}

/// Reads a brand string such as "Apple M2 Max".
pub fn parse_brand_string(s: &str) -> (r: (ChipFamily, ChipVariant))
    ensures
        r == (family_in(s@), variant_in(s@)),
{
    let family = if contains_text(s, "M5") {
        ChipFamily::M5
    } else if contains_text(s, "M4") {
        ChipFamily::M4
    } else if contains_text(s, "M3") {
        ChipFamily::M3
    } else if contains_text(s, "M2") {
        ChipFamily::M2
    } else if contains_text(s, "M1") {
        ChipFamily::M1
    } else {
        ChipFamily::Unknown
    };
    let variant = if contains_text(s, "Ultra") {
        ChipVariant::Ultra
    } else if contains_text(s, "Max") {
        ChipVariant::Max
    } else if contains_text(s, "Pro") {
        ChipVariant::Pro
    } else {
        ChipVariant::Base
    };
    (family, variant)
}

/// Published bandwidth in hundredths of a gigabyte per second. The larger
/// chips from the third generation on come with two memory layouts, which the
/// number of performance cores tells apart.
pub open spec fn published_bandwidth(f: ChipFamily, v: ChipVariant, perf_cores: u32) -> Option<u32> {
    match (f, v) {
        (ChipFamily::M1, ChipVariant::Base) => Some(6_825),
        (ChipFamily::M1, ChipVariant::Pro) => Some(20_000),
        (ChipFamily::M1, ChipVariant::Max) => Some(40_000),
        (ChipFamily::M1, ChipVariant::Ultra) => Some(80_000),
        (ChipFamily::M2, ChipVariant::Base) => Some(10_000),
        (ChipFamily::M2, ChipVariant::Pro) => Some(20_000),
        (ChipFamily::M2, ChipVariant::Max) => Some(40_000),
        (ChipFamily::M2, ChipVariant::Ultra) => Some(80_000),
        (ChipFamily::M3, ChipVariant::Base) => Some(10_240),
        (ChipFamily::M3, ChipVariant::Pro) => Some(15_000),
        (ChipFamily::M3, ChipVariant::Max) => Some(
            if perf_cores >= 12 {
                40_000
            } else {
                30_000
            },
        ),
        (ChipFamily::M3, ChipVariant::Ultra) => Some(81_920),
        (ChipFamily::M4, ChipVariant::Base) => Some(12_000),
        (ChipFamily::M4, ChipVariant::Pro) => Some(27_300),
        (ChipFamily::M4, ChipVariant::Max) => Some(
            if perf_cores >= 12 {
                54_600
            } else {
                41_000
            },
        ),
        (ChipFamily::M4, ChipVariant::Ultra) => None,
        (ChipFamily::M5, ChipVariant::Base) => Some(15_360),
        (ChipFamily::M5, ChipVariant::Pro) => Some(30_700),
        (ChipFamily::M5, ChipVariant::Max) => Some(
            if perf_cores >= 12 {
                61_400
            } else {
                46_000
            },
        ),
        (ChipFamily::M5, ChipVariant::Ultra) => None,
        (ChipFamily::Unknown, _) => None,
    }
}

/// A careful guess for chips without a published bandwidth.
pub open spec fn guessed_bandwidth(f: ChipFamily, v: ChipVariant) -> u32 {
    match v {
        ChipVariant::Base => if f == ChipFamily::Unknown {
            6_825
        } else {
            10_000
        },
        ChipVariant::Pro => 20_000,
        ChipVariant::Max => 40_000,
        ChipVariant::Ultra => 80_000,
    }
}

/// Memory bandwidth in hundredths of a gigabyte per second, and whether it is
/// a guess.
pub fn bandwidth_gbps(family: ChipFamily, variant: ChipVariant, perf_cores: u32) -> (r: (u32, bool))
    ensures
        r == match published_bandwidth(family, variant, perf_cores) {
            Some(b) => (b, false),
            None => (guessed_bandwidth(family, variant), true),
        },
{
    let known: Option<u32> = match family {
        ChipFamily::M1 => match variant {
            ChipVariant::Base => Some(6_825),
            ChipVariant::Pro => Some(20_000),
            ChipVariant::Max => Some(40_000),
            ChipVariant::Ultra => Some(80_000),
        },
        ChipFamily::M2 => match variant {
            ChipVariant::Base => Some(10_000),
            ChipVariant::Pro => Some(20_000),
            ChipVariant::Max => Some(40_000),
            ChipVariant::Ultra => Some(80_000),
        },
        ChipFamily::M3 => match variant {
            ChipVariant::Base => Some(10_240),
            ChipVariant::Pro => Some(15_000),
            ChipVariant::Max => if perf_cores >= 12 {
                Some(40_000)
            } else {
                Some(30_000)
            },
            ChipVariant::Ultra => Some(81_920),
        },
        ChipFamily::M4 => match variant {
            ChipVariant::Base => Some(12_000),
            ChipVariant::Pro => Some(27_300),
            ChipVariant::Max => if perf_cores >= 12 {
                Some(54_600)
            } else {
                Some(41_000)
            },
            ChipVariant::Ultra => None,
        },
        ChipFamily::M5 => match variant {
            ChipVariant::Base => Some(15_360),
            ChipVariant::Pro => Some(30_700),
            ChipVariant::Max => if perf_cores >= 12 {
                Some(61_400)
            } else {
                Some(46_000)
            },
            ChipVariant::Ultra => None,
        },
        ChipFamily::Unknown => None,
    };
    match known {
        Some(b) => (b, false),
        None => {
            let guess: u32 = match variant {
                ChipVariant::Base => match family {
                    ChipFamily::Unknown => 6_825,
                    _ => 10_000,
                },
                ChipVariant::Pro => 20_000,
                ChipVariant::Max => 40_000,
                ChipVariant::Ultra => 80_000,
            };
            (guess, true)
        },
    }
}

/// The bandwidth that a chip is taken to have.
pub open spec fn bandwidth_of(f: ChipFamily, v: ChipVariant, perf_cores: u32) -> u32 {
    match published_bandwidth(f, v, perf_cores) {
        Some(b) => b,
        None => guessed_bandwidth(f, v),
    }
}

/// How large a variant is.
pub open spec fn variant_size(v: ChipVariant) -> int {
    match v {
        ChipVariant::Base => 0,
        ChipVariant::Pro => 1,
        ChipVariant::Max => 2,
        ChipVariant::Ultra => 3,
    }
}

/// How new a family is; a family that no brand string named is older than any.
pub open spec fn generation(f: ChipFamily) -> int {
    match f {
        ChipFamily::Unknown => 0,
        ChipFamily::M1 => 1,
        ChipFamily::M2 => 2,
        ChipFamily::M3 => 3,
        ChipFamily::M4 => 4,
        ChipFamily::M5 => 5,
    }
}

/// In one family a larger variant always has more bandwidth.
pub proof fn larger_variants_are_faster(
    f: ChipFamily,
    v: ChipVariant,
    w: ChipVariant,
    perf_cores: u32,
)
    requires
        variant_size(v) < variant_size(w),
    ensures
        bandwidth_of(f, v, perf_cores) < bandwidth_of(f, w, perf_cores),
{
}

/// Each generation of base chips has more bandwidth than the one before, and
/// none of the chips with most cores has less; the third generation of Pro
/// chips is the one that has.
pub proof fn newer_chips_are_no_slower(f: ChipFamily, g: ChipFamily, perf_cores: u32)
    requires
        generation(f) < generation(g),
        perf_cores >= 12,
    ensures
        f != ChipFamily::Unknown ==> bandwidth_of(f, ChipVariant::Base, perf_cores) < bandwidth_of(
            g,
            ChipVariant::Base,
            perf_cores,
        ),
        bandwidth_of(f, ChipVariant::Max, perf_cores) <= bandwidth_of(
            g,
            ChipVariant::Max,
            perf_cores,
        ),
        g != ChipFamily::M3 ==> bandwidth_of(f, ChipVariant::Pro, perf_cores) <= bandwidth_of(
            g,
            ChipVariant::Pro,
            perf_cores,
        ),
{
}

/// A Max chip has twice the bandwidth of the Pro chip, and where there is an
/// Ultra chip in the first two generations that has twice the bandwidth of the
/// Max chip. The third generation, whose Pro chip was cut back, is apart.
pub proof fn bandwidth_doubles_with_the_size(f: ChipFamily, perf_cores: u32)
    requires
        f != ChipFamily::M3,
        f != ChipFamily::Unknown,
        perf_cores >= 12,
    ensures
        bandwidth_of(f, ChipVariant::Max, perf_cores) == 2 * bandwidth_of(
            f,
            ChipVariant::Pro,
            perf_cores,
        ),
        generation(f) <= 2 ==> bandwidth_of(f, ChipVariant::Ultra, perf_cores) == 2 * bandwidth_of(
            f,
            ChipVariant::Max,
            perf_cores,
        ),
{
}

/// The number of cores counts for Max chips from the third generation on and
/// for no other, and there only whether it is twelve at least: with fewer cores
/// a chip has three quarters of the bandwidth, within half a percent.
pub proof fn fewer_cores_have_three_quarters(f: ChipFamily, v: ChipVariant, few: u32, many: u32)
    requires
        few < 12,
        many >= 12,
    ensures
        ({
            let (less, more) = (bandwidth_of(f, v, few), bandwidth_of(f, v, many));
            &&& if v == ChipVariant::Max && generation(f) >= 3 {
                -200 <= 4 * less - 3 * more <= 200
            } else {
                less == more
            }
            &&& forall|c: u32| c < 12 ==> #[trigger] bandwidth_of(f, v, c) == less
            &&& forall|c: u32| c >= 12 ==> #[trigger] bandwidth_of(f, v, c) == more
        }),
{
}

/// Only a chip of no known family and an Ultra chip of the newest two are
/// guessed at.
pub proof fn guesses_are_few(f: ChipFamily, v: ChipVariant, perf_cores: u32)
    ensures
        published_bandwidth(f, v, perf_cores) is None <==> f == ChipFamily::Unknown || (v
            == ChipVariant::Ultra && generation(f) >= 4),
{
}

/// The text that stands for a family in a brand string.
pub open spec fn family_mark(f: ChipFamily) -> Seq<char> {
    match f {
        ChipFamily::M1 => "M1"@,
        ChipFamily::M2 => "M2"@,
        ChipFamily::M3 => "M3"@,
        ChipFamily::M4 => "M4"@,
        ChipFamily::M5 => "M5"@,
        ChipFamily::Unknown => ""@,
    }
}

/// The text that stands for a variant in a brand string.
pub open spec fn variant_mark(v: ChipVariant) -> Seq<char> {
    match v {
        ChipVariant::Base => ""@,
        ChipVariant::Pro => "Pro"@,
        ChipVariant::Max => "Max"@,
        ChipVariant::Ultra => "Ultra"@,
    }
}

/// The family read from a brand string stands in it, and no newer one does;
/// none is read only where none stands.
pub proof fn brand_names_its_family(s: Seq<char>, f: ChipFamily)
    requires
        f != ChipFamily::Unknown,
        contains(s, family_mark(f)),
    ensures
        family_in(s) != ChipFamily::Unknown,
        contains(s, family_mark(family_in(s))),
        generation(f) <= generation(family_in(s)),
{
}

/// The variant read from a brand string stands in it, and no larger one does;
/// a chip is a base chip only where the string names no variant.
pub proof fn brand_names_its_variant(s: Seq<char>, v: ChipVariant)
    requires
        v != ChipVariant::Base,
        contains(s, variant_mark(v)),
    ensures
        family_in(s) == ChipFamily::Unknown || contains(s, family_mark(family_in(s))),
        variant_in(s) != ChipVariant::Base,
        contains(s, variant_mark(variant_in(s))),
        variant_size(v) <= variant_size(variant_in(s)),
{
}

/// What a brand string does not name is not read from it.
pub proof fn unnamed_is_not_read(s: Seq<char>)
    ensures
        family_in(s) != ChipFamily::Unknown ==> contains(s, family_mark(family_in(s))),
        variant_in(s) != ChipVariant::Base ==> contains(s, variant_mark(variant_in(s))),
{
}

/// A chip of no known family is taken for one of the first generation, and so is
/// every Ultra chip whose bandwidth is not published.
pub proof fn unknown_chips_are_taken_for_the_first(v: ChipVariant, f: ChipFamily, perf_cores: u32)
    ensures
        bandwidth_of(ChipFamily::Unknown, v, perf_cores) == bandwidth_of(
            ChipFamily::M1,
            v,
            perf_cores,
        ),
        published_bandwidth(f, ChipVariant::Ultra, perf_cores) is None ==> bandwidth_of(
            f,
            ChipVariant::Ultra,
            perf_cores,
        ) == bandwidth_of(ChipFamily::M1, ChipVariant::Ultra, perf_cores),
        bandwidth_of(ChipFamily::M1, ChipVariant::Pro, perf_cores) == bandwidth_of(
            ChipFamily::M2,
            ChipVariant::Pro,
            perf_cores,
        ),
{
}

/// No chip is guessed to be faster than a published one of its variant from
/// the first generation on, and the least guess is the slowest chip.
pub proof fn guesses_are_careful(f: ChipFamily, v: ChipVariant, perf_cores: u32)
    ensures
        published_bandwidth(f, v, perf_cores) matches Some(b) ==> b >= guessed_bandwidth(
            ChipFamily::Unknown,
            ChipVariant::Base,
        ),
        guessed_bandwidth(f, v) >= guessed_bandwidth(ChipFamily::Unknown, ChipVariant::Base),
{
}

} // verus!

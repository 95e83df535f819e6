//! GGUF header parser: just enough metadata to estimate memory and speed
//! without downloading the model. Layout: github.com/ggml-org/ggml/docs/gguf.md

use vstd::arithmetic::power2::{
    lemma2_to64, lemma2_to64_rest, lemma_pow2_adds, lemma_pow2_pos, lemma_pow2_unfold, pow2,
};
use vstd::prelude::*;
use vstd::slice::slice_subrange;
use vstd::utf8::{decode_utf8, valid_utf8};

use crate::error::{Failure, PaddockError};
use crate::text::{chars_of, ends_with, same_chars};

verus! {

pub const MAX_KV_COUNT: u64 = 65_536;

pub const MAX_STRING_LEN: u64 = 1_048_576;

pub const MAX_ARRAY_LEN: u64 = 16_777_216;

/// The metadata that a header yields.
#[derive(Debug)]
pub struct GgufMeta {
    pub architecture: Option<String>,
    pub name: Option<String>,
    pub block_count: Option<u64>,
    pub head_count: Option<u64>,
    pub head_count_kv: Option<u64>,
    pub embedding_length: Option<u64>,
    pub context_length: Option<u64>,
    /// `general.parameter_count`: total weight count, when published.
    pub parameter_count: Option<u64>,
    /// `{arch}.expert_count`: total experts of a mixture-of-experts model.
    pub expert_count: Option<u64>,
    /// `{arch}.expert_used_count`: experts active per token.
    pub expert_used_count: Option<u64>,
    /// `{arch}.expert_feed_forward_length`: hidden size of one expert.
    pub expert_feed_forward_length: Option<u64>,
}

/// `GgufMeta` without its storage.
pub ghost struct Meta {
    pub architecture: Option<Seq<char>>,
    pub name: Option<Seq<char>>,
    pub block_count: Option<u64>,
    pub head_count: Option<u64>,
    pub head_count_kv: Option<u64>,
    pub embedding_length: Option<u64>,
    pub context_length: Option<u64>,
    pub parameter_count: Option<u64>,
    pub expert_count: Option<u64>,
    pub expert_used_count: Option<u64>,
    pub expert_feed_forward_length: Option<u64>,
}

impl View for GgufMeta {
    type V = Meta;

    open spec fn view(&self) -> Meta {
        Meta {
            architecture: self.architecture.deep_view(),
            name: self.name.deep_view(),
            block_count: self.block_count,
            head_count: self.head_count,
            head_count_kv: self.head_count_kv,
            embedding_length: self.embedding_length,
            context_length: self.context_length,
            parameter_count: self.parameter_count,
            expert_count: self.expert_count,
            expert_used_count: self.expert_used_count,
            expert_feed_forward_length: self.expert_feed_forward_length,
        }
    }
}

/// Nothing known yet.
pub open spec fn no_meta() -> Meta {
    Meta {
        architecture: None,
        name: None,
        block_count: None,
        head_count: None,
        head_count_kv: None,
        embedding_length: None,
        context_length: None,
        parameter_count: None,
        expert_count: None,
        expert_used_count: None,
        expert_feed_forward_length: None,
    }
}

impl Default for GgufMeta {
    fn default() -> (r: GgufMeta)
        ensures
            r@ == no_meta(),
    {
        GgufMeta {
            architecture: None,
            name: None,
            block_count: None,
            head_count: None,
            head_count_kv: None,
            embedding_length: None,
            context_length: None,
            parameter_count: None,
            expert_count: None,
            expert_used_count: None,
            expert_feed_forward_length: None,
        }
    }
}

impl GgufMeta {
    /// Width of one attention head: the embedding divided among the heads.
    pub fn head_dim(&self) -> (r: Option<u64>)
        ensures
            r == match (self.embedding_length, self.head_count) {
                (Some(e), Some(h)) if h > 0 => Some((e / h) as u64),
                _ => None::<u64>,
            },
    {
        match (self.embedding_length, self.head_count) {
            (Some(e), Some(h)) => if h > 0 {
                Some(e / h)
            } else {
                None
            },
            _ => None,
        }
    }
}

// ---------------------------------------------------------------------------
// What a header says
// ---------------------------------------------------------------------------

/// Why a header was not read.
#[derive(Debug, Clone, Copy, PartialEq, Eq, Structural)]
pub enum Fault {
    OffsetOverflow,
    Truncated,
    StringLength,
    ValueType,
    ArrayLength,
    ArraySize,
    Magic,
    Version,
    KvCount,
}

pub open spec fn fault_text(f: Fault) -> Seq<char> {
    match f {
        Fault::OffsetOverflow => "offset overflow"@,
        Fault::Truncated => "truncated header"@,
        Fault::StringLength => "string length out of bounds"@,
        Fault::ValueType => "unknown value type"@,
        Fault::ArrayLength => "array length out of bounds"@,
        Fault::ArraySize => "array size overflow"@,
        Fault::Magic => "bad magic, not a GGUF file"@,
        Fault::Version => "unsupported GGUF version"@,
        Fault::KvCount => "kv count out of bounds"@,
    }
}

/// The number whose little-endian bytes are `b`.
pub open spec fn le(b: Seq<u8>) -> nat
    decreases b.len(),
{
    if b.len() == 0 {
        0
    } else {
        b[0] as nat + 256 * le(b.skip(1))
    }
}

/// `n` bytes at `pos`, and the position behind them.
pub open spec fn bytes_at(b: Seq<u8>, pos: int, n: int) -> Result<(Seq<u8>, int), Fault> {
    if pos + n > usize::MAX {
        Err(Fault::OffsetOverflow)
    } else if pos + n > b.len() {
        Err(Fault::Truncated)
    } else {
        Ok((b.subrange(pos, pos + n), pos + n))
    }
}

/// An unsigned integer of `n` bytes at `pos`.
pub open spec fn uint_at(b: Seq<u8>, pos: int, n: int) -> Result<(nat, int), Fault> {
    match bytes_at(b, pos, n) {
        Ok((raw, p)) => Ok((le(raw), p)),
        Err(f) => Err(f),
    }
}

/// What `String::from_utf8_lossy` makes of bytes that are not UTF-8.
pub uninterp spec fn repaired(b: Seq<u8>) -> Seq<char>;

/// Every byte is below 128.
pub open spec fn ascii_bytes(b: Seq<u8>) -> bool {
    forall|i: int| 0 <= i < b.len() ==> (#[trigger] b[i]) < 128
}

/// The characters of ASCII bytes.
pub open spec fn ascii_text(b: Seq<u8>) -> Seq<char> {
    b.map_values(|x: u8| x as char)
}

/// The text of bytes: ASCII and other UTF-8 as it is, anything else repaired.
pub open spec fn lossy_text(b: Seq<u8>) -> Seq<char> {
    if ascii_bytes(b) {
        ascii_text(b)
    } else if valid_utf8(b) {
        decode_utf8(b)
    } else {
        repaired(b)
    }
}

/// A string at `pos`: its length in eight bytes, then its bytes.
pub open spec fn string_at(b: Seq<u8>, pos: int) -> Result<(Seq<char>, int), Fault> {
    match uint_at(b, pos, 8) {
        Err(f) => Err(f),
        Ok((len, p)) => if len > MAX_STRING_LEN {
            Err(Fault::StringLength)
        } else {
            match bytes_at(b, p, len as int) {
                Ok((raw, q)) => Ok((lossy_text(raw), q)),
                Err(f) => Err(f),
            }
        },
    }
}

/// The position behind `n` strings at `pos`.
pub open spec fn skip_strings(b: Seq<u8>, pos: int, n: nat) -> Result<int, Fault>
    decreases n,
{
    if n == 0 {
        Ok(pos)
    } else {
        match string_at(b, pos) {
            Ok((_, p)) => skip_strings(b, p, (n - 1) as nat),
            Err(f) => Err(f),
        }
    }
}

/// Bytes in a scalar of type `ty`.
pub open spec fn scalar_len(ty: nat) -> Option<int> {
    if ty == 0 || ty == 1 || ty == 7 {
        Some(1)
    } else if ty == 2 || ty == 3 {
        Some(2)
    } else if 4 <= ty <= 6 {
        Some(4)
    } else if 10 <= ty <= 12 {
        Some(8)
    } else {
        None
    }
}

/// `n` if it is not negative, read from a two's complement number of `bits` bits.
pub open spec fn signed_count(n: nat, bits: nat) -> Option<u64> {
    if n < pow2((bits - 1) as nat) {
        Some(n as u64)
    } else {
        None
    }
}

/// `m * 2^e`, if that is a whole number.
pub open spec fn whole(m: nat, e: int) -> Option<nat> {
    if e >= 0 {
        Some(m * pow2(e as nat))
    } else if m % pow2((-e) as nat) == 0 {
        Some(m / pow2((-e) as nat))
    } else {
        None
    }
}

/// A count from the binary floating-point number `m * 2^e` (negative if
/// `negative`): a whole number from zero to 2^64, of which the last counts as
/// the greatest `u64`.
pub open spec fn float_count(negative: bool, m: nat, e: int) -> Option<u64> {
    if negative && m != 0 {
        None
    } else {
        match whole(m, e) {
            Some(n) => if n > 0x1_0000_0000_0000_0000 {
                None
            } else if n == 0x1_0000_0000_0000_0000 {
                Some(u64::MAX)
            } else {
                Some(n as u64)
            },
            None => None,
        }
    }
}

/// A count from the bits of an IEEE 754 number with `eb` exponent bits and
/// `fb` fraction bits.
pub open spec fn ieee_count(n: nat, eb: nat, fb: nat) -> Option<u64> {
    let fraction = n % pow2(fb);
    let exponent = n / pow2(fb) % pow2(eb);
    let negative = n / pow2(fb) / pow2(eb) != 0;
    let bias = pow2((eb - 1) as nat) - 1;
    if exponent == pow2(eb) - 1 {
        None
    } else if exponent == 0 {
        float_count(negative, fraction, 1 - bias - fb)
    } else {
        float_count(negative, pow2(fb) + fraction, exponent - bias - fb)
    }
}

/// A scalar of type `ty` as a count. `None` for what no count can be: a
/// negative number, a fraction, something that is no number.
pub open spec fn count_of(ty: nat, raw: Seq<u8>) -> Option<u64> {
    let n = le(raw);
    if ty == 0 || ty == 2 || ty == 4 || ty == 10 {
        Some(n as u64)
    } else if ty == 1 || ty == 3 || ty == 5 || ty == 11 {
        signed_count(n, 8 * raw.len())
    } else if ty == 6 {
        ieee_count(n, 8, 23)
    } else if ty == 7 {
        Some(
            if n != 0 {
                1
            } else {
                0
            },
        )
    } else if ty == 12 {
        ieee_count(n, 11, 52)
    } else {
        None
    }
}

/// The value of a key.
pub ghost enum Datum {
    Text(Seq<char>),
    Scalar(Option<u64>),
    Array,
}

/// The value of type `ty` at `pos`.
pub open spec fn value_at(b: Seq<u8>, pos: int, ty: nat) -> Result<(Datum, int), Fault> {
    if ty == 8 {
        match string_at(b, pos) {
            Ok((s, p)) => Ok((Datum::Text(s), p)),
            Err(f) => Err(f),
        }
    } else if ty == 9 {
        match uint_at(b, pos, 4) {
            Err(f) => Err(f),
            Ok((elem, p)) => match uint_at(b, p, 8) {
                Err(f) => Err(f),
                Ok((len, q)) => if len > MAX_ARRAY_LEN {
                    Err(Fault::ArrayLength)
                } else if elem == 8 {
                    match skip_strings(b, q, len) {
                        Ok(z) => Ok((Datum::Array, z)),
                        Err(f) => Err(f),
                    }
                } else {
                    match scalar_len(elem) {
                        None => Err(Fault::ValueType),
                        Some(size) => if len * size > usize::MAX {
                            Err(Fault::ArraySize)
                        } else {
                            match bytes_at(b, q, len * size) {
                                Ok((_, z)) => Ok((Datum::Array, z)),
                                Err(f) => Err(f),
                            }
                        },
                    }
                },
            },
        }
    } else {
        match scalar_len(ty) {
            None => Err(Fault::ValueType),
            Some(size) => match bytes_at(b, pos, size) {
                Ok((raw, p)) => Ok((Datum::Scalar(count_of(ty, raw)), p)),
                Err(f) => Err(f),
            },
        }
    }
}

/// The key at `pos`, its value, and the position behind them.
pub open spec fn entry_at(b: Seq<u8>, pos: int) -> Result<(Seq<char>, Datum, int), Fault> {
    match string_at(b, pos) {
        Err(f) => Err(f),
        Ok((key, p)) => match uint_at(b, p, 4) {
            Err(f) => Err(f),
            Ok((ty, q)) => match value_at(b, q, ty) {
                Err(f) => Err(f),
                Ok((v, z)) => Ok((key, v, z)),
            },
        },
    }
}

pub open spec fn value_text(v: Datum) -> Option<Seq<char>> {
    match v {
        Datum::Text(s) => Some(s),
        _ => None,
    }
}

pub open spec fn value_count(v: Datum) -> Option<u64> {
    match v {
        Datum::Scalar(n) => n,
        _ => None,
    }
}

/// `m` with what `key` says.
pub open spec fn noted(m: Meta, key: Seq<char>, v: Datum) -> Meta {
    let text = value_text(v);
    let count = value_count(v);
    if key == "general.architecture"@ {
        Meta { architecture: text, ..m }
    } else if key == "general.name"@ {
        Meta { name: text, ..m }
    } else if ".block_count"@.is_suffix_of(key) {
        Meta { block_count: count, ..m }
    } else if ".attention.head_count"@.is_suffix_of(key) {
        Meta { head_count: count, ..m }
    } else if ".attention.head_count_kv"@.is_suffix_of(key) {
        Meta { head_count_kv: count, ..m }
    } else if ".embedding_length"@.is_suffix_of(key) {
        Meta { embedding_length: count, ..m }
    } else if ".context_length"@.is_suffix_of(key) {
        Meta { context_length: count, ..m }
    } else if key == "general.parameter_count"@ {
        Meta { parameter_count: count, ..m }
    } else if ".expert_used_count"@.is_suffix_of(key) {
        Meta { expert_used_count: count, ..m }
    } else if ".expert_feed_forward_length"@.is_suffix_of(key) {
        Meta { expert_feed_forward_length: count, ..m }
    } else if ".expert_count"@.is_suffix_of(key) {
        Meta { expert_count: count, ..m }
    } else {
        m
    }
}

/// Every tracked field is known.
pub open spec fn complete(m: Meta) -> bool {
    &&& m.architecture is Some
    &&& m.name is Some
    &&& m.block_count is Some
    &&& m.head_count is Some
    &&& m.head_count_kv is Some
    &&& m.embedding_length is Some
    &&& m.context_length is Some
    &&& m.parameter_count is Some
    &&& m.expert_count is Some
    &&& m.expert_used_count is Some
    &&& m.expert_feed_forward_length is Some
}

/// What `n` entries at `pos` add to `m`. Reading ends early once every tracked
/// field is known. A header cut short still yields what was read, if the
/// architecture or the block count was.
pub open spec fn entries(b: Seq<u8>, pos: int, n: nat, m: Meta) -> Result<Meta, Fault>
    decreases n,
{
    if n == 0 {
        Ok(m)
    } else {
        match entry_at(b, pos) {
            Err(f) => if f == Fault::Truncated && (m.architecture is Some || m.block_count is Some) {
                Ok(m)
            } else {
                Err(f)
            },
            Ok((key, v, p)) => {
                let m2 = noted(m, key, v);
                if complete(m2) {
                    Ok(m2)
                } else {
                    entries(b, p, (n - 1) as nat, m2)
                }
            },
        }
    }
}

/// The four bytes that a GGUF file begins with.
pub open spec fn magic() -> Seq<u8> {
    seq![71u8, 71u8, 85u8, 70u8]
}

/// What a header says: the magic, a version (2 or 3), the number of tensors,
/// the number of entries, the entries.
pub open spec fn header(b: Seq<u8>) -> Result<Meta, Fault> {
    match bytes_at(b, 0, 4) {
        Err(f) => Err(f),
        Ok((m, _)) => if m != magic() {
            Err(Fault::Magic)
        } else {
            match uint_at(b, 4, 4) {
                Err(f) => Err(f),
                Ok((version, _)) => if version < 2 || version > 3 {
                    Err(Fault::Version)
                } else {
                    match uint_at(b, 8, 8) {
                        Err(f) => Err(f),
                        Ok(_) => match uint_at(b, 16, 8) {
                            Err(f) => Err(f),
                            Ok((n, _)) => if n > MAX_KV_COUNT {
                                Err(Fault::KvCount)
                            } else {
                                entries(b, 24, n, no_meta())
                            },
                        },
                    }
                },
            }
        },
    }
}

// ---------------------------------------------------------------------------
// What is not read
// ---------------------------------------------------------------------------

/// The bytes from `from` to `to` are the same.
pub open spec fn agree(b: Seq<u8>, c: Seq<u8>, from: int, to: int) -> bool {
    &&& 0 <= from
    &&& to <= b.len()
    &&& to <= c.len()
    &&& forall|i: int| from <= i < to ==> b[i] == c[i]
}

/// Where the reading of `n` entries at `pos` ends; `None` if the header is cut
/// short or broken before that.
pub open spec fn entries_end(b: Seq<u8>, pos: int, n: nat, m: Meta) -> Option<int>
    decreases n,
{
    if n == 0 {
        Some(pos)
    } else {
        match entry_at(b, pos) {
            Err(_) => None,
            Ok((key, v, p)) => {
                let m2 = noted(m, key, v);
                if complete(m2) {
                    Some(p)
                } else {
                    entries_end(b, p, (n - 1) as nat, m2)
                }
            },
        }
    }
}

/// Where the reading of a header ends.
pub open spec fn header_end(b: Seq<u8>) -> Option<int> {
    match uint_at(b, 16, 8) {
        Ok((n, _)) => entries_end(b, 24, n, no_meta()),
        Err(_) => None,
    }
}

proof fn lemma_bytes_agree(b: Seq<u8>, c: Seq<u8>, pos: int, n: int, e: int)
    requires
        0 <= n,
        agree(b, c, pos, e),
        bytes_at(b, pos, n) matches Ok(r) && r.1 <= e,
    ensures
        bytes_at(c, pos, n) == bytes_at(b, pos, n),
        uint_at(c, pos, n) == uint_at(b, pos, n),
        bytes_at(b, pos, n)->Ok_0.1 == pos + n,
{
    assert(c.subrange(pos, pos + n) =~= b.subrange(pos, pos + n));
}

proof fn lemma_string_agrees(b: Seq<u8>, c: Seq<u8>, pos: int, e: int)
    requires
        agree(b, c, pos, e),
        string_at(b, pos) matches Ok(r) && r.1 <= e,
    ensures
        string_at(c, pos) == string_at(b, pos),
        string_at(b, pos)->Ok_0.1 >= pos + 8,
{
    let (len, p) = uint_at(b, pos, 8)->Ok_0;
    assert(bytes_at(b, pos, 8) is Ok);
    assert(p == pos + 8);
    lemma_bytes_agree(b, c, p, len as int, e);
    lemma_bytes_agree(b, c, pos, 8, e);
}

proof fn lemma_strings_agree(b: Seq<u8>, c: Seq<u8>, pos: int, n: nat, e: int)
    requires
        agree(b, c, pos, e),
        skip_strings(b, pos, n) matches Ok(r) && r <= e,
    ensures
        skip_strings(c, pos, n) == skip_strings(b, pos, n),
        skip_strings(b, pos, n)->Ok_0 >= pos,
    decreases n,
{
    if n > 0 {
        let (t, p) = string_at(b, pos)->Ok_0;
        lemma_string_ends(b, pos);
        lemma_strings_agree(b, c, p, (n - 1) as nat, e);
        lemma_string_agrees(b, c, pos, e);
    }
}

proof fn lemma_string_ends(b: Seq<u8>, pos: int)
    requires
        0 <= pos,
        string_at(b, pos) is Ok,
    ensures
        pos + 8 <= string_at(b, pos)->Ok_0.1 <= b.len(),
{
    assert(uint_at(b, pos, 8) is Ok);
}

proof fn lemma_value_agrees(b: Seq<u8>, c: Seq<u8>, pos: int, ty: nat, e: int)
    requires
        agree(b, c, pos, e),
        value_at(b, pos, ty) matches Ok(r) && r.1 <= e,
    ensures
        value_at(c, pos, ty) == value_at(b, pos, ty),
        value_at(b, pos, ty)->Ok_0.1 >= pos,
{
    if ty == 8 {
        lemma_string_agrees(b, c, pos, e);
    } else if ty == 9 {
        let (elem, p) = uint_at(b, pos, 4)->Ok_0;
        let (len, q) = uint_at(b, p, 8)->Ok_0;
        if elem == 8 {
            lemma_strings_agree(b, c, q, len, e);
        } else {
            let size = scalar_len(elem)->Some_0;
            assert(len * size >= 0) by (nonlinear_arith)
                requires
                    len >= 0,
                    size >= 0,
            ;
            lemma_bytes_agree(b, c, q, len * size, e);
        }
        lemma_bytes_agree(b, c, p, 8, e);
        lemma_bytes_agree(b, c, pos, 4, e);
    } else {
        lemma_bytes_agree(b, c, pos, scalar_len(ty)->Some_0, e);
    }
}

proof fn lemma_entry_agrees(b: Seq<u8>, c: Seq<u8>, pos: int, e: int)
    requires
        agree(b, c, pos, e),
        entry_at(b, pos) matches Ok(r) && r.2 <= e,
    ensures
        entry_at(c, pos) == entry_at(b, pos),
        entry_at(b, pos)->Ok_0.2 >= pos,
{
    let (key, p) = string_at(b, pos)->Ok_0;
    lemma_string_ends(b, pos);
    let (ty, q) = uint_at(b, p, 4)->Ok_0;
    assert(q == p + 4);
    lemma_value_agrees(b, c, q, ty, e);
    lemma_bytes_agree(b, c, p, 4, e);
    lemma_string_agrees(b, c, pos, e);
}

proof fn lemma_entry_ends(b: Seq<u8>, pos: int)
    requires
        0 <= pos,
        entry_at(b, pos) is Ok,
    ensures
        pos <= entry_at(b, pos)->Ok_0.2 <= b.len(),
{
    let (key, p) = string_at(b, pos)->Ok_0;
    lemma_string_ends(b, pos);
    let (ty, q) = uint_at(b, p, 4)->Ok_0;
    lemma_value_ends(b, q, ty);
}

proof fn lemma_value_ends(b: Seq<u8>, pos: int, ty: nat)
    requires
        0 <= pos <= b.len(),
        value_at(b, pos, ty) is Ok,
    ensures
        pos <= value_at(b, pos, ty)->Ok_0.1 <= b.len(),
{
    if ty == 8 {
        lemma_string_ends(b, pos);
    } else if ty == 9 {
        let (elem, p) = uint_at(b, pos, 4)->Ok_0;
        let (len, q) = uint_at(b, p, 8)->Ok_0;
        if elem == 8 {
            lemma_strings_end(b, q, len);
        } else {
            let size = scalar_len(elem)->Some_0;
            assert(len * size >= 0) by (nonlinear_arith)
                requires
                    len >= 0,
                    size >= 0,
            ;
        }
    }
}

proof fn lemma_strings_end(b: Seq<u8>, pos: int, n: nat)
    requires
        0 <= pos <= b.len(),
        skip_strings(b, pos, n) is Ok,
    ensures
        pos <= skip_strings(b, pos, n)->Ok_0 <= b.len(),
    decreases n,
{
    if n > 0 {
        lemma_string_ends(b, pos);
        lemma_strings_end(b, string_at(b, pos)->Ok_0.1, (n - 1) as nat);
    }
}

proof fn lemma_entries_agree(b: Seq<u8>, c: Seq<u8>, pos: int, n: nat, m: Meta, e: int)
    requires
        agree(b, c, pos, e),
        entries_end(b, pos, n, m) matches Some(r) && r <= e,
    ensures
        entries(c, pos, n, m) == entries(b, pos, n, m),
        entries(b, pos, n, m) is Ok,
        entries_end(b, pos, n, m)->Some_0 >= pos,
    decreases n,
{
    if n > 0 {
        let (key, v, p) = entry_at(b, pos)->Ok_0;
        lemma_entry_ends(b, pos);
        let m2 = noted(m, key, v);
        if !complete(m2) {
            lemma_entries_agree(b, c, p, (n - 1) as nat, m2, e);
        }
        lemma_entry_agrees(b, c, pos, e);
    }
}

/// What stands behind the place where the reading of a header ends does not
/// matter: neither the entries behind the last tracked one nor the tensors.
pub proof fn rest_of_the_file_does_not_matter(b: Seq<u8>, c: Seq<u8>)
    requires
        header(b) is Ok,
        header_end(b) matches Some(e) && agree(b, c, 0, e),
    ensures
        header(c) == header(b),
{
    let e = header_end(b)->Some_0;
    let n = uint_at(b, 16, 8)->Ok_0.0;
    lemma_entries_agree(b, c, 24, n, no_meta(), e);
    lemma_bytes_agree(b, c, 0, 4, e);
    lemma_bytes_agree(b, c, 4, 4, e);
    lemma_bytes_agree(b, c, 8, 8, e);
    lemma_bytes_agree(b, c, 16, 8, e);
}

// ---------------------------------------------------------------------------
// A header cut short
// ---------------------------------------------------------------------------

/// The first entries of a header: how many, what they say, where they end.
pub ghost struct Entries {
    pub count: nat,
    pub meta: Meta,
    pub end: int,
}

/// Those of the `n` entries at `pos` that are read and end by `cut`.
pub open spec fn whole_entries(b: Seq<u8>, pos: int, n: nat, m: Meta, cut: int) -> Entries
    decreases n,
{
    let none = Entries { count: 0, meta: m, end: pos };
    if n == 0 {
        none
    } else {
        match entry_at(b, pos) {
            Err(_) => none,
            Ok((key, v, p)) => {
                let m2 = noted(m, key, v);
                if p > cut {
                    none
                } else if complete(m2) {
                    Entries { count: 1, meta: m2, end: p }
                } else {
                    let more = whole_entries(b, p, (n - 1) as nat, m2, cut);
                    Entries { count: more.count + 1, ..more }
                }
            },
        }
    }
}

/// `n` in `k` little-endian bytes.
pub open spec fn le_bytes(n: nat, k: nat) -> Seq<u8>
    decreases k,
{
    if k == 0 {
        Seq::empty()
    } else {
        seq![(n % 256) as u8] + le_bytes(n / 256, (k - 1) as nat)
    }
}

/// A header with the entries `w` of the header `b` and no others.
pub open spec fn header_of(b: Seq<u8>, w: Entries) -> Seq<u8> {
    b.take(16) + le_bytes(w.count, 8) + b.subrange(24, w.end)
}

/// What becomes of a header that is cut behind what is known by then.
pub open spec fn cut_short(m: Meta) -> Result<Meta, Fault> {
    if m.architecture is Some || m.block_count is Some {
        Ok(m)
    } else {
        Err(Fault::Truncated)
    }
}

proof fn lemma_le_bytes(n: nat, k: nat)
    requires
        n < pow2(8 * k),
    ensures
        le_bytes(n, k).len() == k,
        le(le_bytes(n, k)) == n,
    decreases k,
{
    lemma2_to64();
    if k > 0 {
        let rest = (k - 1) as nat;
        lemma_pow2_adds(8, 8 * rest);
        assert(n / 256 < pow2(8 * rest)) by (nonlinear_arith)
            requires
                n < 256 * pow2(8 * rest),
        ;
        lemma_le_bytes(n / 256, rest);
        assert(le_bytes(n, k).skip(1) =~= le_bytes(n / 256, rest));
    }
}

proof fn lemma_cut_bytes(b: Seq<u8>, cut: int, pos: int, n: int)
    requires
        0 <= pos,
        0 <= n,
        0 <= cut <= b.len(),
        bytes_at(b, pos, n) is Ok,
    ensures
        pos + n <= cut ==> bytes_at(b.take(cut), pos, n) == bytes_at(b, pos, n),
        pos + n <= cut ==> uint_at(b.take(cut), pos, n) == uint_at(b, pos, n),
        pos + n > cut ==> bytes_at(b.take(cut), pos, n) == Err::<(Seq<u8>, int), Fault>(
            Fault::Truncated,
        ),
        pos + n > cut ==> uint_at(b.take(cut), pos, n) == Err::<(nat, int), Fault>(
            Fault::Truncated,
        ),
        bytes_at(b, pos, n)->Ok_0.1 == pos + n,
{
    if pos + n <= cut {
        lemma_bytes_agree(b, b.take(cut), pos, n, cut);
    }
}

proof fn lemma_cut_string(b: Seq<u8>, cut: int, pos: int)
    requires
        0 <= pos,
        0 <= cut <= b.len(),
        string_at(b, pos) is Ok,
    ensures
        string_at(b, pos)->Ok_0.1 <= cut ==> string_at(b.take(cut), pos) == string_at(b, pos),
        string_at(b, pos)->Ok_0.1 > cut ==> string_at(b.take(cut), pos) == Err::<
            (Seq<char>, int),
            Fault,
        >(Fault::Truncated),
        string_at(b, pos)->Ok_0.1 >= pos + 8,
{
    let (len, p) = uint_at(b, pos, 8)->Ok_0;
    assert(bytes_at(b, pos, 8) is Ok);
    lemma_cut_bytes(b, cut, pos, 8);
    lemma_cut_bytes(b, cut, p, len as int);
}

proof fn lemma_cut_strings(b: Seq<u8>, cut: int, pos: int, n: nat)
    requires
        0 <= pos <= cut <= b.len(),
        skip_strings(b, pos, n) is Ok,
    ensures
        skip_strings(b, pos, n)->Ok_0 <= cut ==> skip_strings(b.take(cut), pos, n) == skip_strings(
            b,
            pos,
            n,
        ),
        skip_strings(b, pos, n)->Ok_0 > cut ==> skip_strings(b.take(cut), pos, n) == Err::<
            int,
            Fault,
        >(Fault::Truncated),
    decreases n,
{
    if n > 0 {
        let p = string_at(b, pos)->Ok_0.1;
        lemma_cut_string(b, cut, pos);
        lemma_string_ends(b, pos);
        lemma_strings_end(b, p, (n - 1) as nat);
        if p <= cut {
            lemma_cut_strings(b, cut, p, (n - 1) as nat);
        }
    }
}

proof fn lemma_cut_value(b: Seq<u8>, cut: int, pos: int, ty: nat)
    requires
        0 <= pos <= cut <= b.len(),
        value_at(b, pos, ty) is Ok,
    ensures
        value_at(b, pos, ty)->Ok_0.1 <= cut ==> value_at(b.take(cut), pos, ty) == value_at(
            b,
            pos,
            ty,
        ),
        value_at(b, pos, ty)->Ok_0.1 > cut ==> value_at(b.take(cut), pos, ty) == Err::<
            (Datum, int),
            Fault,
        >(Fault::Truncated),
{
    if ty == 8 {
        lemma_cut_string(b, cut, pos);
    } else if ty == 9 {
        let (elem, p) = uint_at(b, pos, 4)->Ok_0;
        assert(bytes_at(b, pos, 4) is Ok);
        lemma_cut_bytes(b, cut, pos, 4);
        let (len, q) = uint_at(b, p, 8)->Ok_0;
        assert(bytes_at(b, p, 8) is Ok);
        lemma_cut_bytes(b, cut, p, 8);
        if elem == 8 {
            lemma_strings_end(b, q, len);
            if q <= cut {
                lemma_cut_strings(b, cut, q, len);
            }
        } else {
            let size = scalar_len(elem)->Some_0;
            assert(len * size >= 0) by (nonlinear_arith)
                requires
                    len >= 0,
                    size >= 0,
            ;
            lemma_cut_bytes(b, cut, q, len * size);
        }
    } else {
        lemma_cut_bytes(b, cut, pos, scalar_len(ty)->Some_0);
    }
}

proof fn lemma_cut_entry(b: Seq<u8>, cut: int, pos: int)
    requires
        0 <= pos <= cut <= b.len(),
        entry_at(b, pos) is Ok,
    ensures
        entry_at(b, pos)->Ok_0.2 <= cut ==> entry_at(b.take(cut), pos) == entry_at(b, pos),
        entry_at(b, pos)->Ok_0.2 > cut ==> entry_at(b.take(cut), pos) == Err::<
            (Seq<char>, Datum, int),
            Fault,
        >(Fault::Truncated),
{
    let p = string_at(b, pos)->Ok_0.1;
    lemma_cut_string(b, cut, pos);
    lemma_string_ends(b, pos);
    let (ty, q) = uint_at(b, p, 4)->Ok_0;
    assert(bytes_at(b, p, 4) is Ok);
    lemma_cut_bytes(b, cut, p, 4);
    lemma_value_ends(b, q, ty);
    if q <= cut {
        lemma_cut_value(b, cut, q, ty);
    }
}

proof fn lemma_entries_end(b: Seq<u8>, pos: int, n: nat, m: Meta)
    requires
        0 <= pos,
        entries_end(b, pos, n, m) is Some,
    ensures
        pos <= entries_end(b, pos, n, m)->Some_0,
    decreases n,
{
    if n > 0 {
        let (key, v, p) = entry_at(b, pos)->Ok_0;
        lemma_entry_ends(b, pos);
        if !complete(noted(m, key, v)) {
            lemma_entries_end(b, p, (n - 1) as nat, noted(m, key, v));
        }
    }
}

proof fn lemma_cut_entries(b: Seq<u8>, cut: int, pos: int, n: nat, m: Meta)
    requires
        0 <= pos <= cut <= b.len(),
        entries_end(b, pos, n, m) is Some,
    ensures
        ({
            let w = whole_entries(b, pos, n, m, cut);
            let e = entries_end(b, pos, n, m)->Some_0;
            &&& pos <= w.end <= cut
            &&& w.count <= n
            &&& e <= cut ==> entries(b.take(cut), pos, n, m) == Ok::<Meta, Fault>(w.meta)
            &&& e <= cut ==> entries(b, pos, n, m) == Ok::<Meta, Fault>(w.meta)
            &&& e > cut ==> entries(b.take(cut), pos, n, m) == cut_short(w.meta)
        }),
    decreases n,
{
    if n > 0 {
        let (key, v, p) = entry_at(b, pos)->Ok_0;
        let m2 = noted(m, key, v);
        lemma_entry_ends(b, pos);
        lemma_cut_entry(b, cut, pos);
        if !complete(m2) {
            lemma_entries_end(b, p, (n - 1) as nat, m2);
            if p <= cut {
                lemma_cut_entries(b, cut, p, (n - 1) as nat, m2);
            }
        }
    }
}

proof fn lemma_whole_entries_alone(
    b: Seq<u8>,
    c: Seq<u8>,
    cut: int,
    pos: int,
    n: nat,
    m: Meta,
    e: int,
)
    requires
        agree(b, c, pos, e),
        whole_entries(b, pos, n, m, cut).end <= e,
    ensures
        entries(c, pos, whole_entries(b, pos, n, m, cut).count, m) == Ok::<Meta, Fault>(
            whole_entries(b, pos, n, m, cut).meta,
        ),
        whole_entries(b, pos, n, m, cut).end >= pos,
    decreases n,
{
    if n > 0 {
        if let Ok((key, v, p)) = entry_at(b, pos) {
            if p <= cut {
                let m2 = noted(m, key, v);
                lemma_entry_ends(b, pos);
                if !complete(m2) {
                    lemma_whole_entries_alone(b, c, cut, p, (n - 1) as nat, m2, e);
                }
                lemma_entry_agrees(b, c, pos, e);
            }
        }
    }
}

/// A header that is cut gives what its whole entries give: what a header with
/// these entries and no others says, if the architecture or the block count is
/// among it, and else the fault that it is truncated. Cut behind the last entry
/// that is read, it says all that the whole header says.
pub proof fn cut_header_says_what_its_whole_entries_say(b: Seq<u8>, cut: int)
    requires
        header(b) is Ok,
        header_end(b) is Some,
        0 <= cut <= b.len(),
    ensures
        cut < 24 ==> header(b.take(cut)) == Err::<Meta, Fault>(Fault::Truncated),
        cut >= 24 ==> ({
            let w = whole_entries(b, 24, le(b.subrange(16, 24)), no_meta(), cut);
            &&& 24 <= w.end <= cut
            &&& header(header_of(b, w)) == Ok::<Meta, Fault>(w.meta)
            &&& header_end(b)->Some_0 > cut ==> header(b.take(cut)) == cut_short(w.meta)
            &&& header_end(b)->Some_0 <= cut ==> header(b.take(cut)) == header(b) && header(b)
                == Ok::<Meta, Fault>(w.meta)
        }),
{
    let c = b.take(cut);
    let n = le(b.subrange(16, 24));
    assert(bytes_at(b, 0, 4) is Ok && bytes_at(b, 4, 4) is Ok && bytes_at(b, 8, 8) is Ok
        && bytes_at(b, 16, 8) is Ok);
    lemma_cut_bytes(b, cut, 0, 4);
    lemma_cut_bytes(b, cut, 4, 4);
    lemma_cut_bytes(b, cut, 8, 8);
    lemma_cut_bytes(b, cut, 16, 8);
    if cut >= 24 {
        lemma_cut_entries(b, cut, 24, n, no_meta());
        let w = whole_entries(b, 24, n, no_meta(), cut);
        let d = header_of(b, w);
        lemma2_to64();
        lemma2_to64_rest();
        lemma_le_bytes(w.count, 8);
        assert(agree(b, d, 0, 16));
        assert(agree(b, d, 24, w.end));
        lemma_bytes_agree(b, d, 0, 4, 16);
        lemma_bytes_agree(b, d, 4, 4, 16);
        lemma_bytes_agree(b, d, 8, 8, 16);
        assert(d.subrange(16, 24) =~= le_bytes(w.count, 8));
        lemma_whole_entries_alone(b, d, cut, 24, n, no_meta(), w.end);
    }
}

// ---------------------------------------------------------------------------
// Reading it
// ---------------------------------------------------------------------------

/// `String::from_utf8_lossy`. Bytes below 128 give the characters of the same
/// numbers, and bytes that are UTF-8 the text they encode; of any others the
/// result depends on the bytes alone.
#[verifier::external_body]
fn from_utf8_lossy(b: &[u8]) -> (r: String)
    ensures
        ascii_bytes(b@) ==> r@ == ascii_text(b@),
        valid_utf8(b@) ==> r@ == decode_utf8(b@),
        !valid_utf8(b@) ==> r@ == repaired(b@),
{
    String::from_utf8_lossy(b).into_owned()
}

/// The error that a fault is reported as.
fn err(f: Fault) -> (r: PaddockError)
    ensures
        r@ == Failure::Gguf(fault_text(f)),
{
    let m = match f {
        Fault::OffsetOverflow => "offset overflow",
        Fault::Truncated => "truncated header",
        Fault::StringLength => "string length out of bounds",
        Fault::ValueType => "unknown value type",
        Fault::ArrayLength => "array length out of bounds",
        Fault::ArraySize => "array size overflow",
        Fault::Magic => "bad magic, not a GGUF file",
        Fault::Version => "unsupported GGUF version",
        Fault::KvCount => "kv count out of bounds",
    };
    PaddockError::Gguf(m.to_owned())
}

proof fn lemma_le_bound(b: Seq<u8>)
    ensures
        le(b) < pow2(8 * b.len()),
    decreases b.len(),
{
    if b.len() == 0 {
        lemma2_to64();
    } else {
        lemma_le_bound(b.skip(1));
        lemma_pow2_adds(8, 8 * b.skip(1).len());
        lemma2_to64();
    }
}

/// The number whose little-endian bytes are `b`.
fn le_value(b: &[u8]) -> (r: u64)
    requires
        b@.len() <= 8,
    ensures
        r == le(b@),
{
    let mut n: u64 = 0;
    let mut i: usize = b.len();
    assert(b@.skip(b@.len() as int) =~= Seq::<u8>::empty());
    while i > 0
        invariant
            i <= b@.len() <= 8,
            n == le(b@.skip(i as int)),
        decreases i,
    {
        proof {
            lemma_le_bound(b@.skip(i as int));
            lemma2_to64();
            lemma2_to64_rest();
            let k = 8 * (b@.len() - i) as nat;
            assert(k == 0 || k == 8 || k == 16 || k == 24 || k == 32 || k == 40 || k == 48 || k
                == 56);
            assert(b@.skip(i - 1).skip(1) =~= b@.skip(i as int));
        }
        i = i - 1;
        n = b[i] as u64 + 256 * n;
    }
    assert(b@.skip(0) =~= b@);
    n
}

struct Reader<'a> {
    buf: &'a [u8],
    pos: usize,
}

impl<'a> Reader<'a> {
    spec fn wf(&self) -> bool {
        self.pos <= self.buf@.len()
    }

    fn take(&mut self, n: usize) -> (r: Result<&'a [u8], Fault>)
        requires
            old(self).wf(),
        ensures
            final(self).wf(),
            final(self).buf@ == old(self).buf@,
            match r {
                Ok(raw) => bytes_at(old(self).buf@, old(self).pos as int, n as int) == Ok::<
                    (Seq<u8>, int),
                    Fault,
                >((raw@, final(self).pos as int)),
                Err(f) => bytes_at(old(self).buf@, old(self).pos as int, n as int) == Err::<
                    (Seq<u8>, int),
                    Fault,
                >(f),
            },
    {
        let end: usize = match self.pos.checked_add(n) {
            Some(end) => end,
            None => {
                return Err(Fault::OffsetOverflow);
            },
        };
        if end > self.buf.len() {
            return Err(Fault::Truncated);
        }
        let raw = slice_subrange(self.buf, self.pos, end);
        self.pos = end;
        Ok(raw)
    }

    fn u32(&mut self) -> (r: Result<u32, Fault>)
        requires
            old(self).wf(),
        ensures
            final(self).wf(),
            final(self).buf@ == old(self).buf@,
            match r {
                Ok(n) => uint_at(old(self).buf@, old(self).pos as int, 4) == Ok::<
                    (nat, int),
                    Fault,
                >((n as nat, final(self).pos as int)),
                Err(f) => uint_at(old(self).buf@, old(self).pos as int, 4) == Err::<
                    (nat, int),
                    Fault,
                >(f),
            },
    {
        match self.take(4) {
            Ok(raw) => {
                proof {
                    lemma_le_bound(raw@);
                    lemma2_to64();
                }
                Ok(le_value(raw) as u32)
            },
            Err(f) => Err(f),
        }
    }

    fn u64(&mut self) -> (r: Result<u64, Fault>)
        requires
            old(self).wf(),
        ensures
            final(self).wf(),
            final(self).buf@ == old(self).buf@,
            match r {
                Ok(n) => uint_at(old(self).buf@, old(self).pos as int, 8) == Ok::<
                    (nat, int),
                    Fault,
                >((n as nat, final(self).pos as int)),
                Err(f) => uint_at(old(self).buf@, old(self).pos as int, 8) == Err::<
                    (nat, int),
                    Fault,
                >(f),
            },
    {
        match self.take(8) {
            Ok(raw) => Ok(le_value(raw)),
            Err(f) => Err(f),
        }
    }

    fn string(&mut self) -> (r: Result<String, Fault>)
        requires
            old(self).wf(),
        ensures
            final(self).wf(),
            final(self).buf@ == old(self).buf@,
            match r {
                Ok(s) => string_at(old(self).buf@, old(self).pos as int) == Ok::<
                    (Seq<char>, int),
                    Fault,
                >((s@, final(self).pos as int)),
                Err(f) => string_at(old(self).buf@, old(self).pos as int) == Err::<
                    (Seq<char>, int),
                    Fault,
                >(f),
            },
    {
        let len: u64 = match self.u64() {
            Ok(n) => n,
            Err(f) => {
                return Err(f);
            },
        };
        if len > MAX_STRING_LEN {
            return Err(Fault::StringLength);
        }
        match self.take(len as usize) {
            Ok(raw) => Ok(from_utf8_lossy(raw)),
            Err(f) => Err(f),
        }
    }
}

/// Bytes in a scalar of type `ty`.
fn scalar_size(ty: u32) -> (r: Result<usize, Fault>)
    ensures
        match r {
            Ok(n) => scalar_len(ty as nat) == Some(n as int) && 1 <= n <= 8,
            Err(f) => scalar_len(ty as nat) is None && f == Fault::ValueType,
        },
{
    if ty == 0 || ty == 1 || ty == 7 {
        Ok(1)
    } else if ty == 2 || ty == 3 {
        Ok(2)
    } else if 4 <= ty && ty <= 6 {
        Ok(4)
    } else if 10 <= ty && ty <= 12 {
        Ok(8)
    } else {
        Err(Fault::ValueType)
    }
}

proof fn lemma_whole_even(m: nat, k: nat)
    requires
        m > 0,
        k > 0,
    ensures
        m % 2 != 0 ==> m % pow2(k) != 0,
        m % 2 == 0 ==> whole(m, -(k as int)) == whole(m / 2, -(k - 1)),
{
    lemma_pow2_unfold(k);
    lemma_pow2_pos((k - 1) as nat);
    let p = pow2((k - 1) as nat) as int;
    assert(pow2(k) == 2 * p);
    vstd::arithmetic::div_mod::lemma_mod_breakdown(m as int, 2, p);
    vstd::arithmetic::div_mod::lemma_div_denominator(m as int, 2, p);
    assert(2 * p == p * 2) by (nonlinear_arith);
    if k == 1 {
        lemma2_to64();
        assert(whole(m / 2, 0) == Some(m / 2 * 1));
    }
}

/// A count from the binary floating-point number `m * 2^e`.
fn whole_count(negative: bool, m: u64, e: i32) -> (r: Option<u64>)
    requires
        -2000 <= e <= 2000,
    ensures
        r == float_count(negative, m as nat, e as int),
{
    if m == 0 {
        proof {
            if e < 0 {
                lemma_pow2_pos((-e) as nat);
            }
            assert(whole(0, e as int) == Some(0nat)) by {
                if e >= 0 {
                    assert(0 * pow2(e as nat) == 0) by (nonlinear_arith);
                } else {
                    vstd::arithmetic::div_mod::lemma_small_mod(0, pow2((-e) as nat));
                    vstd::arithmetic::div_mod::lemma_basic_div(0, pow2((-e) as nat) as int);
                }
            }
        }
        return Some(0);
    }
    if negative {
        return None;
    }
    let limit: u128 = 0x1_0000_0000_0000_0000;
    if e >= 0 {
        let mut n: u128 = m as u128;
        let mut k: i32 = e;
        while k > 0
            invariant
                0 <= k <= 2000,
                0 < n <= limit,
                limit == 0x1_0000_0000_0000_0000,
                whole(m as nat, e as int) == whole(n as nat, k as int),
            decreases k,
        {
            proof {
                lemma_pow2_unfold(k as nat);
                lemma_pow2_pos((k - 1) as nat);
                let p = pow2((k - 1) as nat);
                assert(n * (2 * p) == (2 * n) * p) by (nonlinear_arith);
                assert(2 * n <= (2 * n) * p) by (nonlinear_arith)
                    requires
                        p >= 1,
                ;
            }
            n = 2 * n;
            k = k - 1;
            if n > limit {
                return None;
            }
        }
        proof {
            lemma2_to64();
            assert(whole(n as nat, 0) == Some((n * 1) as nat));
        }
        if n == limit {
            Some(u64::MAX)
        } else {
            Some(n as u64)
        }
    } else {
        let mut n: u64 = m;
        let mut k: i32 = -e;
        while k > 0
            invariant
                0 <= k <= 2000,
                0 < n,
                whole(m as nat, e as int) == whole(n as nat, -(k as int)),
            decreases k,
        {
            proof {
                lemma_whole_even(n as nat, k as nat);
            }
            if n % 2 != 0 {
                return None;
            }
            n = n / 2;
            k = k - 1;
        }
        proof {
            lemma2_to64();
            assert(whole(n as nat, 0) == Some((n * 1) as nat));
        }
        Some(n)
    }
}

/// A scalar of type `ty` as a count.
fn decode_scalar_u64(ty: u32, raw: &[u8]) -> (r: Option<u64>)
    requires
        scalar_len(ty as nat) == Some(raw@.len() as int),
    ensures
        r == count_of(ty as nat, raw@),
{
    let n: u64 = le_value(raw);
    proof {
        lemma_le_bound(raw@);
        lemma2_to64();
        lemma2_to64_rest();
    }
    if ty == 0 || ty == 2 || ty == 4 || ty == 10 {
        Some(n)
    } else if ty == 1 {
        if n < 0x80 {
            Some(n)
        } else {
            None
        }
    } else if ty == 3 {
        if n < 0x8000 {
            Some(n)
        } else {
            None
        }
    } else if ty == 5 {
        if n < 0x8000_0000 {
            Some(n)
        } else {
            None
        }
    } else if ty == 11 {
        if n < 0x8000_0000_0000_0000 {
            Some(n)
        } else {
            None
        }
    } else if ty == 7 {
        if n != 0 {
            Some(1)
        } else {
            Some(0)
        }
    } else if ty == 6 {
        let fraction: u64 = n % 0x80_0000;
        let exponent: u64 = n / 0x80_0000 % 0x100;
        let negative = n / 0x80_0000 / 0x100 != 0;
        if exponent == 0xff {
            None
        } else if exponent == 0 {
            whole_count(negative, fraction, -149)
        } else {
            whole_count(negative, 0x80_0000 + fraction, exponent as i32 - 150)
        }
    } else {
        let fraction: u64 = n % 0x10_0000_0000_0000;
        let exponent: u64 = n / 0x10_0000_0000_0000 % 0x800;
        let negative = n / 0x10_0000_0000_0000 / 0x800 != 0;
        if exponent == 0x7ff {
            None
        } else if exponent == 0 {
            whole_count(negative, fraction, -1074)
        } else {
            whole_count(negative, 0x10_0000_0000_0000 + fraction, exponent as i32 - 1075)
        }
    }
}

/// Whether every tracked field is known.
fn all_tracked_filled(m: &GgufMeta) -> (r: bool)
    ensures
        r == complete(m@),
{
    m.architecture.is_some() && m.name.is_some() && m.block_count.is_some()
        && m.head_count.is_some() && m.head_count_kv.is_some() && m.embedding_length.is_some()
        && m.context_length.is_some() && m.parameter_count.is_some() && m.expert_count.is_some()
        && m.expert_used_count.is_some() && m.expert_feed_forward_length.is_some()
}

/// A value as far as it is of use.
#[derive(Debug)]
pub enum Read {
    Text(String),
    Scalar(Option<u64>),
    Array,
}

impl Read {
    pub open spec fn model(&self) -> Datum {
        match *self {
            Read::Text(s) => Datum::Text(s@),
            Read::Scalar(n) => Datum::Scalar(n),
            Read::Array => Datum::Array,
        }
    }
}

/// Reads past an array of `len` elements of type `elem`.
fn skip_array(r: &mut Reader, elem: u32, len: u64) -> (res: Result<(), Fault>)
    requires
        old(r).wf(),
        len <= MAX_ARRAY_LEN,
    ensures
        final(r).wf(),
        final(r).buf@ == old(r).buf@,
        ({
            let b = old(r).buf@;
            let pos = old(r).pos as int;
            let all = if elem == 8 {
                skip_strings(b, pos, len as nat)
            } else {
                match scalar_len(elem as nat) {
                    None => Err(Fault::ValueType),
                    Some(size) => if len * size > usize::MAX {
                        Err(Fault::ArraySize)
                    } else {
                        match bytes_at(b, pos, len * size) {
                            Ok((_, z)) => Ok(z),
                            Err(f) => Err(f),
                        }
                    },
                }
            };
            match res {
                Ok(_) => all == Ok::<int, Fault>(final(r).pos as int),
                Err(f) => all == Err::<int, Fault>(f),
            }
        }),
{
    if elem == 8 {
        let ghost b = r.buf@;
        let ghost pos = r.pos as int;
        let mut i: u64 = 0;
        while i < len
            invariant
                r.wf(),
                r.buf@ == b,
                b == old(r).buf@,
                pos == old(r).pos,
                elem == 8,
                i <= len,
                skip_strings(b, pos, len as nat) == skip_strings(
                    b,
                    r.pos as int,
                    (len - i) as nat,
                ),
            decreases len - i,
        {
            match r.string() {
                Ok(_) => {},
                Err(f) => {
                    return Err(f);
                },
            }
            i = i + 1;
        }
        Ok(())
    } else {
        let size: usize = match scalar_size(elem) {
            Ok(n) => n,
            Err(f) => {
                return Err(f);
            },
        };
        match (len as usize).checked_mul(size) {
            Some(n) => match r.take(n) {
                Ok(_) => Ok(()),
                Err(f) => Err(f),
            },
            None => Err(Fault::ArraySize),
        }
    }
}

/// Reads a value of type `ty`.
fn read_value(r: &mut Reader, ty: u32) -> (res: Result<Read, Fault>)
    requires
        old(r).wf(),
    ensures
        final(r).wf(),
        final(r).buf@ == old(r).buf@,
        match res {
            Ok(v) => value_at(old(r).buf@, old(r).pos as int, ty as nat) == Ok::<
                (Datum, int),
                Fault,
            >((v.model(), final(r).pos as int)),
            Err(f) => value_at(old(r).buf@, old(r).pos as int, ty as nat) == Err::<
                (Datum, int),
                Fault,
            >(f),
        },
{
    if ty == 8 {
        match r.string() {
            Ok(s) => Ok(Read::Text(s)),
            Err(f) => Err(f),
        }
    } else if ty == 9 {
        let elem: u32 = match r.u32() {
            Ok(n) => n,
            Err(f) => {
                return Err(f);
            },
        };
        let len: u64 = match r.u64() {
            Ok(n) => n,
            Err(f) => {
                return Err(f);
            },
        };
        if len > MAX_ARRAY_LEN {
            return Err(Fault::ArrayLength);
        }
        match skip_array(r, elem, len) {
            Ok(_) => Ok(Read::Array),
            Err(f) => Err(f),
        }
    } else {
        let size: usize = match scalar_size(ty) {
            Ok(n) => n,
            Err(f) => {
                return Err(f);
            },
        };
        match r.take(size) {
            Ok(raw) => Ok(Read::Scalar(decode_scalar_u64(ty, raw))),
            Err(f) => Err(f),
        }
    }
}

/// Notes what `key` says.
pub fn note_entry(meta: &mut GgufMeta, key: &[char], v: Read)
    ensures
        final(meta)@ == noted(old(meta)@, key@, v.model()),
{
    let count: Option<u64> = match &v {
        Read::Scalar(n) => *n,
        _ => None,
    };
    let text: Option<String> = match v {
        Read::Text(s) => Some(s),
        _ => None,
    };
    if same_chars(key, &chars_of("general.architecture")) {
        meta.architecture = text;
    } else if same_chars(key, &chars_of("general.name")) {
        meta.name = text;
    } else if ends_with(key, &chars_of(".block_count")) {
        meta.block_count = count;
    } else if ends_with(key, &chars_of(".attention.head_count")) {
        meta.head_count = count;
    } else if ends_with(key, &chars_of(".attention.head_count_kv")) {
        meta.head_count_kv = count;
    } else if ends_with(key, &chars_of(".embedding_length")) {
        meta.embedding_length = count;
    } else if ends_with(key, &chars_of(".context_length")) {
        meta.context_length = count;
    } else if same_chars(key, &chars_of("general.parameter_count")) {
        meta.parameter_count = count;
    } else if ends_with(key, &chars_of(".expert_used_count")) {
        meta.expert_used_count = count;
    } else if ends_with(key, &chars_of(".expert_feed_forward_length")) {
        meta.expert_feed_forward_length = count;
    } else if ends_with(key, &chars_of(".expert_count")) {
        meta.expert_count = count;
    }
}

/// Reads one key with its value and notes what it says.
fn parse_kv(r: &mut Reader, meta: &mut GgufMeta) -> (res: Result<(), Fault>)
    requires
        old(r).wf(),
    ensures
        final(r).wf(),
        final(r).buf@ == old(r).buf@,
        match entry_at(old(r).buf@, old(r).pos as int) {
            Ok((key, v, p)) => res is Ok && p == final(r).pos && final(meta)@ == noted(
                old(meta)@,
                key,
                v,
            ),
            Err(f) => res == Err::<(), Fault>(f) && final(meta)@ == old(meta)@,
        },
{
    let key = match r.string() {
        Ok(s) => chars_of(s.as_str()),
        Err(f) => {
            return Err(f);
        },
    };
    let ty: u32 = match r.u32() {
        Ok(n) => n,
        Err(f) => {
            return Err(f);
        },
    };
    match read_value(r, ty) {
        Ok(v) => {
            note_entry(meta, &key, v);
            Ok(())
        },
        Err(f) => Err(f),
    }
}

/// What the header says, or the fault that keeps it from being read.
fn read_header(bytes: &[u8]) -> (res: Result<GgufMeta, Fault>)
    ensures
        match res {
            Ok(m) => header(bytes@) == Ok::<Meta, Fault>(m@),
            Err(f) => header(bytes@) == Err::<Meta, Fault>(f),
        },
{
    let mut r = Reader { buf: bytes, pos: 0 };
    match r.take(4) {
        Ok(m) => {
            if m[0] != 71 || m[1] != 71 || m[2] != 85 || m[3] != 70 {
                return Err(Fault::Magic);
            }
            assert(m@ =~= magic());
        },
        Err(f) => {
            return Err(f);
        },
    }
    let version: u32 = match r.u32() {
        Ok(n) => n,
        Err(f) => {
            return Err(f);
        },
    };
    // Version 1 has narrower counts: with this layout it would be misread.
    if version < 2 || version > 3 {
        return Err(Fault::Version);
    }
    match r.u64() {
        Ok(_) => {},
        Err(f) => {
            return Err(f);
        },
    }
    let kv_count: u64 = match r.u64() {
        Ok(n) => n,
        Err(f) => {
            return Err(f);
        },
    };
    if kv_count > MAX_KV_COUNT {
        return Err(Fault::KvCount);
    }
    let mut meta = GgufMeta::default();
    let mut i: u64 = 0;
    while i < kv_count
        invariant
            r.wf(),
            r.buf@ == bytes@,
            i <= kv_count,
            header(bytes@) == entries(bytes@, r.pos as int, (kv_count - i) as nat, meta@),
        decreases kv_count - i,
    {
        match parse_kv(&mut r, &mut meta) {
            Ok(_) => {},
            Err(f) => {
                // A probe fetches the first megabytes only: real headers place
                // huge tokenizer arrays behind the architecture keys.
                if f == Fault::Truncated && (meta.architecture.is_some()
                    || meta.block_count.is_some()) {
                    return Ok(meta);
                }
                return Err(f);
            },
        }
        if all_tracked_filled(&meta) {
            return Ok(meta);
        }
        i = i + 1;
    }
    Ok(meta)
}

/// Reads the header of a GGUF file, given the first bytes of the file.
pub fn parse_gguf_header(bytes: &[u8]) -> (res: Result<GgufMeta, PaddockError>)
    ensures
        match header(bytes@) {
            Ok(m) => res is Ok && res->Ok_0@ == m,
            Err(f) => res is Err && res->Err_0@ == Failure::Gguf(fault_text(f)),
        },
{
    match read_header(bytes) {
        Ok(m) => Ok(m),
        Err(f) => Err(err(f)),
    }
}

/// A text that ends a longer one agrees with it from the end.
proof fn lemma_from_the_end(p: Seq<char>, s: Seq<char>, t: Seq<char>, k: int)
    requires
        t.is_suffix_of(p + s) || t == p + s,
        0 <= k < t.len(),
        k < s.len(),
    ensures
        s[s.len() - 1 - k] == t[t.len() - 1 - k],
{
    let key = p + s;
    assert(key[key.len() - 1 - k] == s[s.len() - 1 - k]);
    if t.is_suffix_of(key) {
        assert(key.subrange(key.len() - t.len(), key.len() as int)[t.len() - 1 - k] == key[key.len()
            - 1 - k]);
    }
}

proof fn lemma_key_letters()
    ensures
        ".block_count"@.len() == 12 && ".block_count"@[11] == 't' && ".block_count"@[5] == 'k' && ".block_count"@[4] == 'c',
        ".attention.head_count"@.len() == 21 && ".attention.head_count"@[20] == 't' && ".attention.head_count"@[14] == 'd' && ".attention.head_count"@[13] == 'a',
        ".attention.head_count_kv"@.len() == 24 && ".attention.head_count_kv"@[23] == 'v' && ".attention.head_count_kv"@[17] == 'o' && ".attention.head_count_kv"@[16] == 'c',
        ".embedding_length"@.len() == 17 && ".embedding_length"@[16] == 'h' && ".embedding_length"@[10] == '_' && ".embedding_length"@[9] == 'g',
        ".context_length"@.len() == 15 && ".context_length"@[14] == 'h' && ".context_length"@[8] == '_' && ".context_length"@[7] == 't',
        ".expert_used_count"@.len() == 18 && ".expert_used_count"@[17] == 't' && ".expert_used_count"@[11] == 'd' && ".expert_used_count"@[10] == 'e',
        ".expert_feed_forward_length"@.len() == 27 && ".expert_feed_forward_length"@[26] == 'h' && ".expert_feed_forward_length"@[20] == '_' && ".expert_feed_forward_length"@[19] == 'd',
        ".expert_count"@.len() == 13 && ".expert_count"@[12] == 't' && ".expert_count"@[6] == 't' && ".expert_count"@[5] == 'r',
        "general.architecture"@.len() == 20 && "general.architecture"@[19] == 'e' && "general.architecture"@[13] == 't' && "general.architecture"@[12] == 'i',
        "general.name"@.len() == 12 && "general.name"@[11] == 'e' && "general.name"@[5] == 'a' && "general.name"@[4] == 'r',
        "general.parameter_count"@.len() == 23 && "general.parameter_count"@[22] == 't' && "general.parameter_count"@[16] == 'r' && "general.parameter_count"@[15] == 'e',
{
    reveal_strlit(".block_count");
    reveal_strlit(".attention.head_count");
    reveal_strlit(".attention.head_count_kv");
    reveal_strlit(".embedding_length");
    reveal_strlit(".context_length");
    reveal_strlit(".expert_used_count");
    reveal_strlit(".expert_feed_forward_length");
    reveal_strlit(".expert_count");
    reveal_strlit("general.architecture");
    reveal_strlit("general.name");
    reveal_strlit("general.parameter_count");
}

/// Each count is taken from the key that ends in its name, whatever the
/// architecture before it; the architecture, the name and the number of
/// parameters from the general keys.
pub proof fn entries_fill_the_field_they_name(m: Meta, p: Seq<char>, v: Datum)
    ensures
        noted(m, p + ".block_count"@, v) == (Meta { block_count: value_count(v), ..m }),
        noted(m, p + ".attention.head_count"@, v) == (Meta { head_count: value_count(v), ..m }),
        noted(m, p + ".attention.head_count_kv"@, v) == (Meta { head_count_kv: value_count(v), ..m }),
        noted(m, p + ".embedding_length"@, v) == (Meta { embedding_length: value_count(v), ..m }),
        noted(m, p + ".context_length"@, v) == (Meta { context_length: value_count(v), ..m }),
        noted(m, p + ".expert_used_count"@, v) == (Meta { expert_used_count: value_count(v), ..m }),
        noted(m, p + ".expert_feed_forward_length"@, v) == (Meta { expert_feed_forward_length: value_count(v), ..m }),
        noted(m, p + ".expert_count"@, v) == (Meta { expert_count: value_count(v), ..m }),
        noted(m, "general.architecture"@, v) == (Meta { architecture: value_text(v), ..m }),
        noted(m, "general.name"@, v) == (Meta { name: value_text(v), ..m }),
        noted(m, "general.parameter_count"@, v) == (Meta { parameter_count: value_count(v), ..m }),
{
    lemma_key_letters();
    {
        let key = p + ".block_count"@;
        if key == "general.architecture"@ {
            lemma_from_the_end(p, ".block_count"@, "general.architecture"@, 0);
        }
        if key == "general.name"@ {
            lemma_from_the_end(p, ".block_count"@, "general.name"@, 0);
        }
        assert(".block_count"@.is_suffix_of(key)) by {
            assert(key.subrange(p.len() as int, key.len() as int) =~= ".block_count"@);
        }
    }
    {
        let key = p + ".attention.head_count"@;
        if key == "general.architecture"@ {
            lemma_from_the_end(p, ".attention.head_count"@, "general.architecture"@, 0);
        }
        if key == "general.name"@ {
            lemma_from_the_end(p, ".attention.head_count"@, "general.name"@, 0);
        }
        if ".block_count"@.is_suffix_of(key) {
            lemma_from_the_end(p, ".attention.head_count"@, ".block_count"@, 6);
        }
        assert(".attention.head_count"@.is_suffix_of(key)) by {
            assert(key.subrange(p.len() as int, key.len() as int) =~= ".attention.head_count"@);
        }
    }
    {
        let key = p + ".attention.head_count_kv"@;
        if key == "general.architecture"@ {
            lemma_from_the_end(p, ".attention.head_count_kv"@, "general.architecture"@, 0);
        }
        if key == "general.name"@ {
            lemma_from_the_end(p, ".attention.head_count_kv"@, "general.name"@, 0);
        }
        if ".block_count"@.is_suffix_of(key) {
            lemma_from_the_end(p, ".attention.head_count_kv"@, ".block_count"@, 0);
        }
        if ".attention.head_count"@.is_suffix_of(key) {
            lemma_from_the_end(p, ".attention.head_count_kv"@, ".attention.head_count"@, 0);
        }
        assert(".attention.head_count_kv"@.is_suffix_of(key)) by {
            assert(key.subrange(p.len() as int, key.len() as int) =~= ".attention.head_count_kv"@);
        }
    }
    {
        let key = p + ".embedding_length"@;
        if key == "general.architecture"@ {
            lemma_from_the_end(p, ".embedding_length"@, "general.architecture"@, 0);
        }
        if key == "general.name"@ {
            lemma_from_the_end(p, ".embedding_length"@, "general.name"@, 0);
        }
        if ".block_count"@.is_suffix_of(key) {
            lemma_from_the_end(p, ".embedding_length"@, ".block_count"@, 0);
        }
        if ".attention.head_count"@.is_suffix_of(key) {
            lemma_from_the_end(p, ".embedding_length"@, ".attention.head_count"@, 0);
        }
        if ".attention.head_count_kv"@.is_suffix_of(key) {
            lemma_from_the_end(p, ".embedding_length"@, ".attention.head_count_kv"@, 0);
        }
        assert(".embedding_length"@.is_suffix_of(key)) by {
            assert(key.subrange(p.len() as int, key.len() as int) =~= ".embedding_length"@);
        }
    }
    {
        let key = p + ".context_length"@;
        if key == "general.architecture"@ {
            lemma_from_the_end(p, ".context_length"@, "general.architecture"@, 0);
        }
        if key == "general.name"@ {
            lemma_from_the_end(p, ".context_length"@, "general.name"@, 0);
        }
        if ".block_count"@.is_suffix_of(key) {
            lemma_from_the_end(p, ".context_length"@, ".block_count"@, 0);
        }
        if ".attention.head_count"@.is_suffix_of(key) {
            lemma_from_the_end(p, ".context_length"@, ".attention.head_count"@, 0);
        }
        if ".attention.head_count_kv"@.is_suffix_of(key) {
            lemma_from_the_end(p, ".context_length"@, ".attention.head_count_kv"@, 0);
        }
        if ".embedding_length"@.is_suffix_of(key) {
            lemma_from_the_end(p, ".context_length"@, ".embedding_length"@, 7);
        }
        assert(".context_length"@.is_suffix_of(key)) by {
            assert(key.subrange(p.len() as int, key.len() as int) =~= ".context_length"@);
        }
    }
    {
        let key = p + ".expert_used_count"@;
        if key == "general.architecture"@ {
            lemma_from_the_end(p, ".expert_used_count"@, "general.architecture"@, 0);
        }
        if key == "general.name"@ {
            lemma_from_the_end(p, ".expert_used_count"@, "general.name"@, 0);
        }
        if ".block_count"@.is_suffix_of(key) {
            lemma_from_the_end(p, ".expert_used_count"@, ".block_count"@, 6);
        }
        if ".attention.head_count"@.is_suffix_of(key) {
            lemma_from_the_end(p, ".expert_used_count"@, ".attention.head_count"@, 7);
        }
        if ".attention.head_count_kv"@.is_suffix_of(key) {
            lemma_from_the_end(p, ".expert_used_count"@, ".attention.head_count_kv"@, 0);
        }
        if ".embedding_length"@.is_suffix_of(key) {
            lemma_from_the_end(p, ".expert_used_count"@, ".embedding_length"@, 0);
        }
        if ".context_length"@.is_suffix_of(key) {
            lemma_from_the_end(p, ".expert_used_count"@, ".context_length"@, 0);
        }
        if key == "general.parameter_count"@ {
            lemma_from_the_end(p, ".expert_used_count"@, "general.parameter_count"@, 6);
        }
        assert(".expert_used_count"@.is_suffix_of(key)) by {
            assert(key.subrange(p.len() as int, key.len() as int) =~= ".expert_used_count"@);
        }
    }
    {
        let key = p + ".expert_feed_forward_length"@;
        if key == "general.architecture"@ {
            lemma_from_the_end(p, ".expert_feed_forward_length"@, "general.architecture"@, 0);
        }
        if key == "general.name"@ {
            lemma_from_the_end(p, ".expert_feed_forward_length"@, "general.name"@, 0);
        }
        if ".block_count"@.is_suffix_of(key) {
            lemma_from_the_end(p, ".expert_feed_forward_length"@, ".block_count"@, 0);
        }
        if ".attention.head_count"@.is_suffix_of(key) {
            lemma_from_the_end(p, ".expert_feed_forward_length"@, ".attention.head_count"@, 0);
        }
        if ".attention.head_count_kv"@.is_suffix_of(key) {
            lemma_from_the_end(p, ".expert_feed_forward_length"@, ".attention.head_count_kv"@, 0);
        }
        if ".embedding_length"@.is_suffix_of(key) {
            lemma_from_the_end(p, ".expert_feed_forward_length"@, ".embedding_length"@, 7);
        }
        if ".context_length"@.is_suffix_of(key) {
            lemma_from_the_end(p, ".expert_feed_forward_length"@, ".context_length"@, 7);
        }
        if key == "general.parameter_count"@ {
            lemma_from_the_end(p, ".expert_feed_forward_length"@, "general.parameter_count"@, 0);
        }
        if ".expert_used_count"@.is_suffix_of(key) {
            lemma_from_the_end(p, ".expert_feed_forward_length"@, ".expert_used_count"@, 0);
        }
        assert(".expert_feed_forward_length"@.is_suffix_of(key)) by {
            assert(key.subrange(p.len() as int, key.len() as int) =~= ".expert_feed_forward_length"@);
        }
    }
    {
        let key = p + ".expert_count"@;
        if key == "general.architecture"@ {
            lemma_from_the_end(p, ".expert_count"@, "general.architecture"@, 0);
        }
        if key == "general.name"@ {
            lemma_from_the_end(p, ".expert_count"@, "general.name"@, 0);
        }
        if ".block_count"@.is_suffix_of(key) {
            lemma_from_the_end(p, ".expert_count"@, ".block_count"@, 6);
        }
        if ".attention.head_count"@.is_suffix_of(key) {
            lemma_from_the_end(p, ".expert_count"@, ".attention.head_count"@, 6);
        }
        if ".attention.head_count_kv"@.is_suffix_of(key) {
            lemma_from_the_end(p, ".expert_count"@, ".attention.head_count_kv"@, 0);
        }
        if ".embedding_length"@.is_suffix_of(key) {
            lemma_from_the_end(p, ".expert_count"@, ".embedding_length"@, 0);
        }
        if ".context_length"@.is_suffix_of(key) {
            lemma_from_the_end(p, ".expert_count"@, ".context_length"@, 0);
        }
        if key == "general.parameter_count"@ {
            lemma_from_the_end(p, ".expert_count"@, "general.parameter_count"@, 6);
        }
        if ".expert_used_count"@.is_suffix_of(key) {
            lemma_from_the_end(p, ".expert_count"@, ".expert_used_count"@, 6);
        }
        if ".expert_feed_forward_length"@.is_suffix_of(key) {
            lemma_from_the_end(p, ".expert_count"@, ".expert_feed_forward_length"@, 0);
        }
        assert(".expert_count"@.is_suffix_of(key)) by {
            assert(key.subrange(p.len() as int, key.len() as int) =~= ".expert_count"@);
        }
    }
    assert(Seq::<char>::empty() + "general.parameter_count"@ =~= "general.parameter_count"@);
    assert("general.parameter_count"@ != "general.architecture"@);
    assert("general.parameter_count"@ != "general.name"@);
    if ".block_count"@.is_suffix_of("general.parameter_count"@) {
        lemma_from_the_end(Seq::empty(), "general.parameter_count"@, ".block_count"@, 6);
    }
    if ".attention.head_count"@.is_suffix_of("general.parameter_count"@) {
        lemma_from_the_end(Seq::empty(), "general.parameter_count"@, ".attention.head_count"@, 6);
    }
    if ".attention.head_count_kv"@.is_suffix_of("general.parameter_count"@) {
        lemma_from_the_end(Seq::empty(), "general.parameter_count"@, ".attention.head_count_kv"@, 0);
    }
    if ".embedding_length"@.is_suffix_of("general.parameter_count"@) {
        lemma_from_the_end(Seq::empty(), "general.parameter_count"@, ".embedding_length"@, 0);
    }
    if ".context_length"@.is_suffix_of("general.parameter_count"@) {
        lemma_from_the_end(Seq::empty(), "general.parameter_count"@, ".context_length"@, 0);
    }
}

/// A float that is a power of two, of single or of double precision, counts as
/// that power; the same number with the sign set counts as nothing.
pub proof fn powers_of_two_read_from_floats(k: nat)
    requires
        k < 64,
    ensures
        ieee_count((k + 127) * 0x80_0000, 8, 23) == Some(pow2(k) as u64),
        ieee_count((k + 1023) * 0x10_0000_0000_0000, 11, 52) == Some(pow2(k) as u64),
        ieee_count((256 + k + 127) * 0x80_0000, 8, 23) is None,
        ieee_count((2048 + k + 1023) * 0x10_0000_0000_0000, 11, 52) is None,
        pow2(k) <= u64::MAX,
{
    lemma2_to64();
    lemma2_to64_rest();
    assert(pow2(23) == 0x80_0000 && pow2(8) == 256 && pow2(7) == 128);
    assert(pow2(52) == 0x10_0000_0000_0000 && pow2(11) == 2048 && pow2(10) == 1024);
    lemma_power_as_whole(k, 23);
    lemma_power_as_whole(k, 52);
    lemma_pow2_below_64(k);
    let a = (k + 127) * 0x80_0000;
    assert(a % 0x80_0000 == 0 && a / 0x80_0000 == k + 127);
    assert((k + 127) % 256 == k + 127 && (k + 127) / 256 == 0);
    let b = (k + 1023) * 0x10_0000_0000_0000;
    assert(b % 0x10_0000_0000_0000 == 0 && b / 0x10_0000_0000_0000 == k + 1023);
    assert((k + 1023) % 2048 == k + 1023 && (k + 1023) / 2048 == 0);
    let c = (256 + k + 127) * 0x80_0000;
    assert(c % 0x80_0000 == 0 && c / 0x80_0000 == 256 + k + 127);
    assert((256 + k + 127) % 256 == k + 127 && (256 + k + 127) / 256 == 1);
    let d = (2048 + k + 1023) * 0x10_0000_0000_0000;
    assert(d % 0x10_0000_0000_0000 == 0 && d / 0x10_0000_0000_0000 == 2048 + k + 1023);
    assert((2048 + k + 1023) % 2048 == k + 1023 && (2048 + k + 1023) / 2048 == 1);
}

proof fn lemma_pow2_below_64(k: nat)
    requires
        k < 64,
    ensures
        pow2(k) <= 0x8000_0000_0000_0000,
{
    lemma2_to64();
    lemma2_to64_rest();
    if k < 63 {
        vstd::arithmetic::power2::lemma_pow2_strictly_increases(k, 63);
    }
}

proof fn lemma_power_as_whole(k: nat, f: nat)
    ensures
        whole(pow2(f), k - f) == Some(pow2(k)),
{
    if k >= f {
        lemma_pow2_adds(f, (k - f) as nat);
    } else {
        let d = (f - k) as nat;
        lemma_pow2_adds(k, d);
        lemma_pow2_pos(d);
        vstd::arithmetic::div_mod::lemma_div_by_multiple(pow2(k) as int, pow2(d) as int);
        vstd::arithmetic::div_mod::lemma_mod_multiples_basic(pow2(k) as int, pow2(d) as int);
    }
}

/// Scalars are as wide as their kind: a signed number as the unsigned one, each
/// kind of number twice as wide as the one before, the floats as the numbers of
/// their width, and a truth value as a byte.
pub proof fn scalars_are_as_wide_as_their_kind()
    ensures
        scalar_len(0) == Some(1int),
        scalar_len(1) == scalar_len(0) && scalar_len(7) == scalar_len(0),
        scalar_len(2) == Some(2 * scalar_len(0)->Some_0) && scalar_len(3) == scalar_len(2),
        scalar_len(4) == Some(2 * scalar_len(2)->Some_0) && scalar_len(5) == scalar_len(4),
        scalar_len(6) == scalar_len(4),
        scalar_len(10) == Some(2 * scalar_len(4)->Some_0) && scalar_len(11) == scalar_len(10),
        scalar_len(12) == scalar_len(10),
        forall|ty: nat| #[trigger] scalar_len(ty) is Some <==> ty <= 7 || 10 <= ty <= 12,
{
}

/// A whole number reads the same from an unsigned scalar of every width that it
/// fits, and from a signed one where its sign is plus.
pub proof fn whole_numbers_read_alike(n: nat, ty: nat)
    requires
        scalar_len(ty) is Some,
        n < pow2((8 * scalar_len(ty)->Some_0) as nat),
    ensures
        ({
            let raw = le_bytes(n, scalar_len(ty)->Some_0 as nat);
            &&& ty == 0 || ty == 2 || ty == 4 || ty == 10 ==> count_of(ty, raw) == Some(n as u64)
                && n <= u64::MAX
            &&& ty == 1 || ty == 3 || ty == 5 || ty == 11 ==> count_of(ty, raw) == if n < pow2(
                (8 * scalar_len(ty)->Some_0 - 1) as nat,
            ) {
                Some(n as u64)
            } else {
                None
            }
            &&& ty == 7 ==> count_of(ty, raw) == Some(
                if n == 0 {
                    0u64
                } else {
                    1
                },
            )
        }),
{
    lemma_le_bytes(n, scalar_len(ty)->Some_0 as nat);
    lemma2_to64();
    lemma2_to64_rest();
}

/// One entry changes at most one field, and an entry for one of the expert
/// fields leaves the other expert fields as they are.
pub proof fn an_entry_fills_one_field(m: Meta, key: Seq<char>, v: Datum)
    ensures
        ({
            let n = noted(m, key, v);
            let text = value_text(v);
            let count = value_count(v);
            ||| n == m
            ||| n == (Meta { architecture: text, ..m })
            ||| n == (Meta { name: text, ..m })
            ||| n == (Meta { block_count: count, ..m })
            ||| n == (Meta { head_count: count, ..m })
            ||| n == (Meta { head_count_kv: count, ..m })
            ||| n == (Meta { embedding_length: count, ..m })
            ||| n == (Meta { context_length: count, ..m })
            ||| n == (Meta { parameter_count: count, ..m })
            ||| n == (Meta { expert_count: count, ..m })
            ||| n == (Meta { expert_used_count: count, ..m })
            ||| n == (Meta { expert_feed_forward_length: count, ..m })
        }),
{
}

/// An entry that cannot be read ends the header: it is accepted only where the
/// header is cut short, only with the architecture or the block count known,
/// and then with what was read before.
pub proof fn truncation_needs_a_useful_key(b: Seq<u8>, pos: int, n: nat, m: Meta)
    requires
        n > 0,
        entry_at(b, pos) is Err,
    ensures
        entries(b, pos, n, m) is Ok ==> entry_at(b, pos)->Err_0 == Fault::Truncated && entries(
            b,
            pos,
            n,
            m,
        ) == Ok::<Meta, Fault>(m),
        entries(b, pos, n, m) is Ok ==> m.architecture is Some || m.block_count is Some,
{
}

} // verus!

//! Reading this machine: what is asked of it, and how its answers are read.

use vstd::prelude::*;

use crate::numeral::{digits, parse_unsigned, push_decimal, read_unsigned};
use crate::text::{
    chars_of, contains, contains_text, find_char, find_from, first_at, lemma_first_at, lowercase,
    matches_at, occurs_at, part, starts_with, string_of, to_lowercase, trim, trimmed,
};

verus! {

// ---------------------------------------------------------------------------
// HTTP over a socket
// ---------------------------------------------------------------------------

/// Bytes of a character in UTF-8.
pub open spec fn utf8_len(c: char) -> nat {
    let n = c as u32;
    if n < 0x80 {
        1
    } else if n < 0x800 {
        2
    } else if n < 0x1_0000 {
        3
    } else {
        4
    }
}

/// Bytes of a text in UTF-8.
pub open spec fn utf8_size(s: Seq<char>) -> nat
    decreases s.len(),
{
    if s.len() == 0 {
        0
    } else {
        utf8_len(s[0]) + utf8_size(s.skip(1))
    }
}

/// How many characters the first `n` bytes of a text hold; `None` if there are
/// fewer, or if they end inside a character.
pub open spec fn chars_in_bytes(s: Seq<char>, n: nat) -> Option<int>
    decreases s.len(),
{
    if n == 0 {
        Some(0)
    } else if s.len() == 0 || utf8_len(s[0]) > n {
        None
    } else {
        match chars_in_bytes(s.skip(1), (n - utf8_len(s[0])) as nat) {
            Some(k) => Some(k + 1),
            None => None,
        }
    }
}

pub open spec fn is_hex(c: char) -> bool {
    ('0' <= c && c <= '9') || ('a' <= c && c <= 'f') || ('A' <= c && c <= 'F')
}

pub open spec fn hex_digit(c: char) -> nat {
    if '0' <= c && c <= '9' {
        (c as u32 - 48) as nat
    } else if 'a' <= c && c <= 'f' {
        (c as u32 - 87) as nat
    } else {
        (c as u32 - 55) as nat
    }
}

pub open spec fn hex_value(s: Seq<char>) -> nat
    decreases s.len(),
{
    if s.len() == 0 {
        0
    } else {
        16 * hex_value(s.drop_last()) + hex_digit(s.last())
    }
}

pub open spec fn all_hex(s: Seq<char>) -> bool {
    forall|i: int| 0 <= i < s.len() ==> is_hex(#[trigger] s[i])
}

/// What a number in base sixteen says: one or more digits and nothing else, no
/// greater than the greatest `usize`.
pub open spec fn parse_hex(s: Seq<char>) -> Option<nat> {
    if s.len() > 0 && all_hex(s) && hex_value(s) <= usize::MAX {
        Some(hex_value(s))
    } else {
        None
    }
}

/// Hexadecimal digits count from nought to fifteen in their order, letters
/// after numerals, and small letters as capitals.
pub proof fn hex_digits_count_up(c: char, d: char)
    requires
        is_hex(c),
        is_hex(d),
    ensures
        hex_digit(c) < 16,
        c < d && !('A' <= c && c <= 'F' && 'a' <= d) ==> hex_digit(c) < hex_digit(d),
        c as u32 + 32 == d as u32 && 'A' <= c ==> hex_digit(c) == hex_digit(d),
{
}

/// A numeral without its last digit stands for a sixteenth of the number, and
/// that digit for what is left.
pub proof fn hex_counts_in_sixteens(s: Seq<char>)
    requires
        s.len() > 0,
        all_hex(s),
    ensures
        hex_value(s) / 16 == hex_value(s.drop_last()),
        hex_value(s) % 16 == hex_digit(s.last()),
{
    assert(is_hex(s[s.len() - 1]));
}

/// The bytes that a text is counted to have are those of its encoding.
pub proof fn size_is_that_of_the_encoding(s: Seq<char>)
    ensures
        utf8_size(s) == vstd::utf8::encode_utf8(s).len(),
    decreases s.len(),
{
    if s.len() > 0 {
        size_is_that_of_the_encoding(s.skip(1));
        assert(s.skip(1) =~= s.drop_first());
        vstd::utf8::char_is_scalar(s[0]);
        assert(vstd::utf8::encode_scalar(s[0] as u32).len() == utf8_len(s[0]));
    } else {
        assert(vstd::utf8::encode_utf8(s).len() == 0);
    }
}

/// The characters that fill a number of bytes are as many as have that size.
pub proof fn counted_characters_fill_the_bytes(s: Seq<char>, n: nat)
    ensures
        chars_in_bytes(s, n) matches Some(k) ==> 0 <= k <= s.len() && utf8_size(s.take(k)) == n,
    decreases s.len(),
{
    if n == 0 {
        assert(s.take(0).len() == 0);
    } else if s.len() > 0 && utf8_len(s[0]) <= n {
        let m = (n - utf8_len(s[0])) as nat;
        counted_characters_fill_the_bytes(s.skip(1), m);
        if let Some(k) = chars_in_bytes(s.skip(1), m) {
            assert(s.take(k + 1).skip(1) =~= s.skip(1).take(k));
            assert(s.take(k + 1)[0] == s[0]);
        }
    }
}

/// The data of a body in chunks: each chunk is its size in base sixteen on a
/// line, then that many bytes, then a line end. A chunk of size zero ends it.
/// `None` if the body is not of that form.
pub open spec fn dechunked(s: Seq<char>) -> Option<Seq<char>>
    decreases s.len(),
{
    match first_at(s, "\r\n"@, 0) {
        None => None,
        Some(i) => match parse_hex(trim(s.take(i))) {
            None => None,
            Some(n) => if n == 0 {
                Some(Seq::empty())
            } else {
                let rest = s.skip(i + 2);
                proof {
                    reveal_strlit("\r\n");
                    lemma_first_at(s, "\r\n"@, 0);
                }
                match chars_in_bytes(rest, n) {
                    Some(k) => if occurs_at(rest, "\r\n"@, k) {
                        match dechunked(rest.skip(k + 2)) {
                            Some(t) => Some(rest.take(k) + t),
                            None => None,
                        }
                    } else {
                        None
                    },
                    None => None,
                }
            },
        },
    }
}

fn char_bytes(c: char) -> (r: usize)
    ensures
        r == utf8_len(c),
        1 <= r <= 4,
{
    let n: u32 = c as u32;
    if n < 0x80 {
        1
    } else if n < 0x800 {
        2
    } else if n < 0x1_0000 {
        3
    } else {
        4
    }
}

proof fn lemma_chars_in_bytes(s: Seq<char>, n: nat)
    ensures
        chars_in_bytes(s, n) matches Some(k) ==> 0 <= k <= s.len() && utf8_size(s.take(k)) == n,
    decreases s.len(),
{
    if n == 0 {
        assert(s.take(0) =~= Seq::<char>::empty());
    } else if s.len() > 0 && utf8_len(s[0]) <= n {
        lemma_chars_in_bytes(s.skip(1), (n - utf8_len(s[0])) as nat);
        if let Some(k) = chars_in_bytes(s.skip(1), (n - utf8_len(s[0])) as nat) {
            assert(s.take(k + 1).skip(1) =~= s.skip(1).take(k));
        }
    }
}

/// The position behind `n` bytes from `from` on.
fn skip_bytes(s: &[char], from: usize, n: usize) -> (r: Option<usize>)
    requires
        from <= s@.len(),
    ensures
        match r {
            Some(k) => from <= k <= s@.len() && chars_in_bytes(s@.skip(from as int), n as nat)
                == Some(k - from),
            None => chars_in_bytes(s@.skip(from as int), n as nat) is None,
        },
{
    let mut i: usize = from;
    let mut left: usize = n;
    while left > 0
        invariant
            from <= i <= s@.len(),
            match chars_in_bytes(s@.skip(i as int), left as nat) {
                Some(k) => chars_in_bytes(s@.skip(from as int), n as nat) == Some(k + (i - from)),
                None => chars_in_bytes(s@.skip(from as int), n as nat) is None,
            },
        decreases left,
    {
        if i == s.len() {
            return None;
        }
        let b: usize = char_bytes(s[i]);
        if b > left {
            return None;
        }
        assert(s@.skip(i as int).skip(1) =~= s@.skip(i as int + 1));
        left = left - b;
        i = i + 1;
    }
    Some(i)
}

fn hex_of(c: char) -> (r: Option<usize>)
    ensures
        match r {
            Some(d) => is_hex(c) && d == hex_digit(c) && d < 16,
            None => !is_hex(c),
        },
{
    if '0' <= c && c <= '9' {
        Some(c as usize - 48)
    } else if 'a' <= c && c <= 'f' {
        Some(c as usize - 87)
    } else if 'A' <= c && c <= 'F' {
        Some(c as usize - 55)
    } else {
        None
    }
}

fn read_hex(s: &[char]) -> (r: Option<usize>)
    ensures
        match r {
            Some(n) => parse_hex(s@) == Some(n as nat),
            None => parse_hex(s@) is None,
        },
{
    if s.len() == 0 {
        return None;
    }
    let mut n: usize = 0;
    let mut over: bool = false;
    let mut i: usize = 0;
    while i < s.len()
        invariant
            i <= s@.len(),
            forall|j: int| 0 <= j < i ==> is_hex(#[trigger] s@[j]),
            !over ==> n == hex_value(s@.take(i as int)),
            over ==> hex_value(s@.take(i as int)) > usize::MAX,
        decreases s@.len() - i,
    {
        let d: usize = match hex_of(s[i]) {
            Some(d) => d,
            None => {
                assert(!is_hex(s@[i as int]));
                return None;
            },
        };
        assert(s@.take(i as int + 1).drop_last() =~= s@.take(i as int));
        assert(s@.take(i as int + 1).last() == s@[i as int]);
        if !over {
            if n > (usize::MAX - d) / 16 {
                over = true;
            } else {
                n = n * 16 + d;
            }
        }
        i = i + 1;
    }
    assert(s@.take(s@.len() as int) =~= s@);
    if over {
        None
    } else {
        Some(n)
    }
}

/// Decodes a body in chunks.
pub fn dechunk(s: &str) -> (r: Option<String>)
    ensures
        r.deep_view() == dechunked(s@),
{
    let cs = chars_of(s);
    let end = chars_of("\r\n");
    proof {
        reveal_strlit("\r\n");
    }
    let mut out = String::new();
    let mut from: usize = 0;
    let size: usize = cs.len();
    assert(cs@.skip(0) =~= cs@);
    loop
        invariant
            size == cs@.len(),
            cs@ == s@,
            end@ == "\r\n"@,
            end@.len() == 2,
            from <= cs@.len(),
            match dechunked(cs@.skip(from as int)) {
                Some(t) => dechunked(s@) == Some(out@ + t),
                None => dechunked(s@) is None,
            },
        decreases cs@.len() - from,
    {
        let ghost cur = cs@.skip(from as int);
        proof {
            lemma_first_at_skip(cs@, end@, from as int);
            lemma_first_at(cur, end@, 0);
        }
        let i: usize = match find_from(&cs, &end, from) {
            Some(i) => i,
            None => {
                return None;
            },
        };
        assert(cs@.subrange(from as int, i as int) =~= cur.take(i - from));
        let line = trimmed(&part(&cs, from, i));
        let n: usize = match read_hex(&line) {
            Some(n) => n,
            None => {
                return None;
            },
        };
        if n == 0 {
            assert(out@ + Seq::<char>::empty() =~= out@);
            return Some(out);
        }
        let start: usize = i + 2;
        let ghost rest = cur.skip(i - from + 2);
        assert(cs@.skip(start as int) =~= rest);
        let k: usize = match skip_bytes(&cs, start, n) {
            Some(k) => k,
            None => {
                return None;
            },
        };
        proof {
            lemma_chars_in_bytes(rest, n as nat);
            if k + 2 <= cs@.len() {
                assert(rest.subrange(k - start, k - start + 2) =~= cs@.subrange(k as int, k + 2));
            }
            assert(occurs_at(cs@, end@, k as int) == occurs_at(rest, end@, k - start));
        }
        if !matches_at(&cs, &end, k) {
            return None;
        }
        let next: usize = k + 2;
        let ghost before = out@;
        let data = string_of(&part(&cs, start, k));
        out.append(data.as_str());
        proof {
            assert(rest.take(k - start) =~= data@);
            assert(rest.skip(next - start) =~= cs@.skip(next as int));
            if let Some(t) = dechunked(cs@.skip(next as int)) {
                assert(before + (data@ + t) =~= out@ + t);
            }
        }
        from = next;
    }
}

/// Searching from a position is searching in what follows it.
proof fn lemma_first_at_skip(s: Seq<char>, p: Seq<char>, from: int)
    requires
        0 <= from <= s.len(),
    ensures
        match first_at(s, p, from) {
            Some(i) => first_at(s.skip(from), p, 0) == Some(i - from),
            None => first_at(s.skip(from), p, 0) is None,
        },
{
    let t = s.skip(from);
    lemma_first_at(s, p, from);
    lemma_first_at(t, p, 0);
    assert forall|j: int| 0 <= j implies (occurs_at(t, p, j) <==> occurs_at(s, p, from + j)) by {
        if j + p.len() <= t.len() {
            assert(t.subrange(j, j + p.len()) =~= s.subrange(from + j, from + j + p.len()));
        }
    }
    match first_at(s, p, from) {
        Some(i) => {
            assert(occurs_at(t, p, i - from));
            let k = first_at(t, p, 0)->Some_0;
            assert(occurs_at(s, p, from + k));
            if k < i - from {
                assert(!occurs_at(s, p, from + k));
            }
            if k > i - from {
                assert(!occurs_at(t, p, i - from));
            }
        },
        None => {
            if let Some(k) = first_at(t, p, 0) {
                assert(occurs_at(s, p, from + k));
            }
        },
    }
}

/// The first line end stands behind a line that holds none.
proof fn lemma_line_ends(line: Seq<char>, more: Seq<char>)
    requires
        !contains(line, "\r"@),
    ensures
        first_at(line + "\r\n"@ + more, "\r\n"@, 0) == Some(line.len() as int),
        (line + "\r\n"@ + more).take(line.len() as int) == line,
        (line + "\r\n"@ + more).skip(line.len() as int + 2) == more,
{
    reveal_strlit("\r\n");
    reveal_strlit("\r");
    let end = "\r\n"@;
    let s = line + end + more;
    lemma_first_at(s, end, 0);
    assert(s.subrange(line.len() as int, line.len() as int + 2) =~= end);
    assert(occurs_at(s, end, line.len() as int));
    assert forall|j: int| 0 <= j < line.len() implies !occurs_at(s, end, j) by {
        if occurs_at(s, end, j) {
            assert(s.subrange(j, j + 2)[0] == end[0]);
            assert(line[j] == '\r');
            assert(line.subrange(j, j + 1) =~= "\r"@);
            assert(occurs_at(line, "\r"@, j));
        }
    }
    assert(s.take(line.len() as int) =~= line);
    assert(s.skip(line.len() as int + 2) =~= more);
}

/// A chunk in front of a body adds its data in front of the body's: the line
/// holds the size of the data and no line end.
pub proof fn chunk_adds_its_data(line: Seq<char>, data: Seq<char>, body: Seq<char>)
    requires
        parse_hex(trim(line)) == Some(utf8_size(data)),
        data.len() > 0,
        !contains(line, "\r"@),
    ensures
        dechunked(line + "\r\n"@ + data + "\r\n"@ + body) == match dechunked(body) {
            Some(t) => Some(data + t),
            None => None::<Seq<char>>,
        },
{
    reveal_strlit("\r\n");
    let end = "\r\n"@;
    let rest = data + end + body;
    assert(line + end + data + end + body =~= line + end + rest);
    lemma_line_ends(line, rest);
    lemma_bytes_of_prefix(data, end + body);
    assert(data + (end + body) =~= rest);
    assert(rest.subrange(data.len() as int, data.len() as int + 2) =~= end);
    assert(rest.skip(data.len() as int + 2) =~= body);
    assert(rest.take(data.len() as int) =~= data);
}

/// A chunk whose data is not followed by a line end is malformed, whatever
/// stands in its place.
pub proof fn chunk_needs_its_line_end(line: Seq<char>, data: Seq<char>, more: Seq<char>)
    requires
        parse_hex(trim(line)) == Some(utf8_size(data)),
        data.len() > 0,
        !contains(line, "\r"@),
        !"\r\n"@.is_prefix_of(more),
    ensures
        dechunked(line + "\r\n"@ + data + more) is None,
{
    reveal_strlit("\r\n");
    let end = "\r\n"@;
    let rest = data + more;
    assert(line + end + data + more =~= line + end + rest);
    lemma_line_ends(line, rest);
    lemma_bytes_of_prefix(data, more);
    if occurs_at(rest, end, data.len() as int) {
        assert(rest.subrange(data.len() as int, data.len() as int + 2) =~= more.take(2));
        assert(end.is_prefix_of(more));
    }
}

proof fn lemma_bytes_of_prefix(a: Seq<char>, b: Seq<char>)
    ensures
        chars_in_bytes(a + b, utf8_size(a)) == Some(a.len() as int),
        a.len() > 0 ==> utf8_size(a) > 0,
    decreases a.len(),
{
    if a.len() > 0 {
        lemma_bytes_of_prefix(a.skip(1), b);
        assert((a + b).skip(1) =~= a.skip(1) + b);
        assert((a + b)[0] == a[0]);
    } else {
        assert(utf8_size(a) == 0);
    }
}

/// A chunk of size zero ends a body.
pub proof fn empty_chunk_ends_body(line: Seq<char>, more: Seq<char>)
    requires
        parse_hex(trim(line)) == Some(0nat),
        !contains(line, "\r"@),
    ensures
        dechunked(line + "\r\n"@ + more) == Some(Seq::<char>::empty()),
{
    lemma_line_ends(line, more);
}

/// The header and the body of a response, parted at the first empty line.
pub open spec fn response_parts(raw: Seq<char>) -> Option<(Seq<char>, Seq<char>)> {
    match first_at(raw, "\r\n\r\n"@, 0) {
        Some(i) => Some((raw.take(i), raw.skip(i + 4))),
        None => None,
    }
}

/// An answer is its header, an empty line and its body; the header holds no
/// empty line.
pub proof fn answer_is_header_and_body(raw: Seq<char>)
    ensures
        response_parts(raw) matches Some((header, body)) ==> raw == header + "\r\n\r\n"@ + body
            && !contains(header, "\r\n\r\n"@),
        response_parts(raw) is None ==> !contains(raw, "\r\n\r\n"@),
{
    let gap = "\r\n\r\n"@;
    reveal_strlit("\r\n\r\n");
    lemma_first_at(raw, gap, 0);
    if let Some(i) = first_at(raw, gap, 0) {
        let header = raw.take(i);
        assert(raw.subrange(i, i + 4) =~= gap);
        assert(raw =~= header + gap + raw.skip(i + 4));
        if contains(header, gap) {
            let k = choose|k: int| occurs_at(header, gap, k);
            assert(raw.subrange(k, k + 4) =~= header.subrange(k, k + 4));
            assert(occurs_at(raw, gap, k));
        }
    }
}

/// The body of a response with a status from 200 to 299, given the header in
/// lower case: out of its chunks if the header says so.
pub open spec fn response_body(raw: Seq<char>, header_low: Seq<char>) -> Option<Seq<char>> {
    if !"HTTP/1.1 2"@.is_prefix_of(raw) && !"HTTP/1.0 2"@.is_prefix_of(raw) {
        None
    } else {
        match response_parts(raw) {
            None => None,
            Some((_, body)) => if contains(header_low, "transfer-encoding: chunked"@) {
                dechunked(body)
            } else {
                Some(body)
            },
        }
    }
}

/// Only an answer that says it went well has a body, and that is what follows
/// its header, or the chunks that follow it put together.
pub proof fn only_good_answers_have_a_body(raw: Seq<char>, low: Seq<char>)
    ensures
        response_body(raw, low) is Some ==> raw.len() > 9 && raw[9] == '2' && response_parts(
            raw,
        ) is Some,
        response_body(raw, low) is Some && !contains(low, "transfer-encoding: chunked"@)
            ==> response_body(raw, low)->Some_0 == response_parts(raw)->Some_0.1,
        response_body(raw, low) is Some && contains(low, "transfer-encoding: chunked"@)
            ==> dechunked(response_parts(raw)->Some_0.1) == response_body(raw, low),
{
    reveal_strlit("HTTP/1.1 2");
    reveal_strlit("HTTP/1.0 2");
    assert("HTTP/1.1 2"@.len() == 10 && "HTTP/1.1 2"@[9] == '2');
    assert("HTTP/1.0 2"@.len() == 10 && "HTTP/1.0 2"@[9] == '2');
    if "HTTP/1.1 2"@.is_prefix_of(raw) {
        assert(raw.subrange(0, 10)[9] == raw[9]);
    }
    if "HTTP/1.0 2"@.is_prefix_of(raw) {
        assert(raw.subrange(0, 10)[9] == raw[9]);
    }
}

/// The header of a response, in lower case.
pub open spec fn header_low(raw: Seq<char>) -> Seq<char> {
    match response_parts(raw) {
        Some((header, _)) => lowercase(header),
        None => Seq::empty(),
    }
}

fn split_response(raw: &[char]) -> (r: Option<(Vec<char>, Vec<char>)>)
    ensures
        match r {
            Some((h, b)) => response_parts(raw@) == Some((h@, b@)),
            None => response_parts(raw@) is None,
        },
{
    let gap = chars_of("\r\n\r\n");
    let n: usize = raw.len();
    proof {
        reveal_strlit("\r\n\r\n");
    }
    match find_from(raw, &gap, 0) {
        Some(i) => {
            proof {
                lemma_first_at(raw@, gap@, 0);
            }
            assert(raw@.subrange(0, i as int) =~= raw@.take(i as int));
            assert(raw@.subrange(i + 4, n as int) =~= raw@.skip(i + 4));
            Some((part(raw, 0, i), part(raw, i + 4, n)))
        },
        None => None,
    }
}

/// The body of a response, given its header in lower case.
pub fn body_by_header(raw: &str, header_low: &str) -> (r: Option<String>)
    ensures
        r.deep_view() == response_body(raw@, header_low@),
{
    let cs = chars_of(raw);
    if !starts_with(&cs, &chars_of("HTTP/1.1 2")) && !starts_with(&cs, &chars_of("HTTP/1.0 2")) {
        return None;
    }
    match split_response(&cs) {
        Some((_, body)) => {
            let body_text = string_of(&body);
            if contains_text(header_low, "transfer-encoding: chunked") {
                dechunk(body_text.as_str())
            } else {
                Some(body_text)
            }
        },
        None => None,
    }
}

/// The body of a raw HTTP/1.x response; `None` unless its status is 200 to 299
/// and it is well formed.
pub fn http_body(raw: &str) -> (r: Option<String>)
    ensures
        r.deep_view() == response_body(raw@, header_low(raw@)),
{
    let low = match split_response(&chars_of(raw)) {
        Some((header, _)) => to_lowercase(string_of(&header).as_str()),
        None => String::new(),
    };
    body_by_header(raw, low.as_str())
}

/// The address and the path of a local URL: `http://`, the address up to the
/// first slash, the rest.
pub open spec fn url_parts(url: Seq<char>) -> Option<(Seq<char>, Seq<char>)> {
    if !"http://"@.is_prefix_of(url) {
        None
    } else {
        let rest = url.skip(7);
        match rest.index_of_first('/') {
            Some(i) => Some((rest.take(i), rest.skip(i + 1))),
            None => Some((rest, Seq::empty())),
        }
    }
}

/// An address is its scheme, its host and, where there is one, a slash and its
/// path; the host holds no slash.
pub proof fn address_is_host_and_path(url: Seq<char>)
    ensures
        url_parts(url) matches Some((host, path)) ==> {
            &&& !host.contains('/')
            &&& url == "http://"@ + host + "/"@ + path || (url == "http://"@ + host && path.len() == 0)
        },
        url_parts(url) is None <==> !"http://"@.is_prefix_of(url),
{
    reveal_strlit("http://");
    reveal_strlit("/");
    if "http://"@.is_prefix_of(url) {
        let rest = url.skip(7);
        assert(url =~= "http://"@ + rest);
        rest.index_of_first_ensures('/');
        if let Some(i) = rest.index_of_first('/') {
            assert(rest =~= rest.take(i) + "/"@ + rest.skip(i + 1));
            assert(url =~= "http://"@ + rest.take(i) + "/"@ + rest.skip(i + 1));
            if rest.take(i).contains('/') {
                let k = choose|k: int| 0 <= k < rest.take(i).len() && rest.take(i)[k] == '/';
                assert(rest[k] == '/');
            }
        }
    }
}

/// The address and the path of a local URL.
pub fn split_url(url: &str) -> (r: Option<(String, String)>)
    ensures
        match r {
            Some((host, path)) => url_parts(url@) == Some((host@, path@)),
            None => url_parts(url@) is None,
        },
{
    let cs = chars_of(url);
    proof {
        reveal_strlit("http://");
    }
    if !starts_with(&cs, &chars_of("http://")) {
        return None;
    }
    let rest = part(&cs, 7, cs.len());
    assert(rest@ =~= cs@.skip(7));
    let n: usize = rest.len();
    match find_char(&rest, '/') {
        Some(i) => {
            assert(i < n);
            assert(rest@.subrange(0, i as int) =~= rest@.take(i as int));
            assert(rest@.subrange(i as int + 1, n as int) =~= rest@.skip(i as int + 1));
            Some((string_of(&part(&rest, 0, i)), string_of(&part(&rest, i + 1, n))))
        },
        None => Some((string_of(&rest), String::new())),
    }
}

/// The request for a page.
pub fn get_request(host: &str, path: &str) -> (r: String)
    ensures
        r@ == "GET /"@ + path@ + " HTTP/1.1\r\nHost: "@ + host@
            + "\r\nConnection: close\r\n\r\n"@,
{
    let mut s = "GET /".to_owned();
    s.append(path);
    s.append(" HTTP/1.1\r\nHost: ");
    s.append(host);
    s.append("\r\nConnection: close\r\n\r\n");
    s
}

/// The request that posts a JSON text; its length is given in bytes.
pub fn post_request(host: &str, path: &str, json_body: &str) -> (r: String)
    ensures
        r@ == "POST /"@ + path@ + " HTTP/1.1\r\nHost: "@ + host@
            + "\r\nContent-Type: application/json\r\nContent-Length: "@ + digits(
            vstd::utf8::encode_utf8(json_body@).len(),
        ) + "\r\nConnection: close\r\n\r\n"@ + json_body@,
{
    let mut s = "POST /".to_owned();
    s.append(path);
    s.append(" HTTP/1.1\r\nHost: ");
    s.append(host);
    s.append("\r\nContent-Type: application/json\r\nContent-Length: ");
    let n: usize = json_body.as_bytes().len();
    push_decimal(&mut s, n as u128);
    s.append("\r\nConnection: close\r\n\r\n");
    s.append(json_body);
    s
}

// ---------------------------------------------------------------------------
// System values
// ---------------------------------------------------------------------------

/// A system value, given what the command that prints it put out.
pub open spec fn printed_value(output: Seq<char>) -> Option<Seq<char>> {
    if trim(output).len() > 0 {
        Some(trim(output))
    } else {
        None
    }
}

/// A system value, given what the command that prints it put out.
pub fn sysctl_value(output: &str) -> (r: Option<String>)
    ensures
        r.deep_view() == printed_value(output@),
{
    let t = trimmed(&chars_of(output));
    if t.len() > 0 {
        Some(string_of(&t))
    } else {
        None
    }
}

/// A number among the system values.
pub fn sysctl_number(value: &str) -> (r: Option<u64>)
    ensures
        match r {
            Some(n) => parse_unsigned(value@, u64::MAX as nat) == Some(n as nat),
            None => parse_unsigned(value@, u64::MAX as nat) is None,
        },
{
    read_unsigned(&chars_of(value), u64::MAX)
}

/// Everything that is read from the operating system. Each question comes with
/// what may be answered: a machine gives one of these answers. A machine that
/// does not say so may give any.
pub trait SystemProbe {
    /// `answer` may be told for the system value `name`.
    open spec fn tells_text(&self, name: Seq<char>, answer: Option<Seq<char>>) -> bool {
        true
    }

    /// `answer` may be told for the number among the system values `name`.
    open spec fn tells_number(&self, name: Seq<char>, answer: Option<u64>) -> bool {
        true
    }

    /// `answer` may be told for the GPU's working set.
    open spec fn tells_working_set(&self, answer: Option<u64>) -> bool {
        true
    }

    /// `answer` may be told for the place of a program.
    open spec fn tells_place(&self, program: Seq<char>, answer: Option<Seq<char>>) -> bool {
        true
    }

    /// `answer` may be put out by a command.
    open spec fn tells_output(
        &self,
        program: Seq<char>,
        args: Seq<Seq<char>>,
        answer: Option<Seq<char>>,
    ) -> bool {
        true
    }

    /// `answer` may be the body behind a local URL.
    open spec fn tells_page(&self, url: Seq<char>, answer: Option<Seq<char>>) -> bool {
        true
    }

    /// `answer` may be the body returned for a JSON text posted to a local URL.
    open spec fn tells_reply(&self, url: Seq<char>, body: Seq<char>, answer: Option<Seq<char>>) -> bool {
        true
    }

    fn sysctl_string(&self, name: &str) -> (r: Option<String>)
        ensures
            self.tells_text(name@, r.deep_view()),
    ;

    fn sysctl_u64(&self, name: &str) -> (r: Option<u64>)
        ensures
            self.tells_number(name@, r),
    ;

    /// The GPU's recommended working set in bytes, `None` without a GPU.
    fn gpu_recommended_working_set(&self) -> (r: Option<u64>)
        ensures
            self.tells_working_set(r),
    ;

    /// The path of a program, `None` if there is no such program.
    fn which(&self, binary: &str) -> (r: Option<String>)
        ensures
            self.tells_place(binary@, r.deep_view()),
    ;

    /// What a command puts out if it succeeds.
    fn run_command(&self, program: &str, args: &[&str]) -> (r: Option<String>)
        ensures
            self.tells_output(
                program@,
                Seq::new(args@.len(), |i: int| args@[i]@),
                r.deep_view(),
            ),
    ;

    /// The body behind a local URL if the status is 200 to 299.
    fn http_get_local(&self, url: &str) -> (r: Option<String>)
        ensures
            self.tells_page(url@, r.deep_view()),
    ;

    /// The body returned for a JSON text posted to a local URL if the status
    /// is 200 to 299.
    fn http_post_local(&self, url: &str, json_body: &str) -> (r: Option<String>)
        ensures
            self.tells_reply(url@, json_body@, r.deep_view()),
    ;
}

/// A machine made of fixed answers: each list pairs a question with its
/// answer, and the first pair counts. Commands are asked for by their words
/// with a blank between.
#[derive(Debug, Default)]
pub struct MockProbe {
    pub strings: Vec<(String, String)>,
    pub u64s: Vec<(String, u64)>,
    pub gpu_working_set: Option<u64>,
    pub binaries: Vec<(String, String)>,
    pub commands: Vec<(String, String)>,
    pub http: Vec<(String, String)>,
    pub posts: Vec<(String, String)>,
}

/// The answer to `question`, from pair `k` on.
pub open spec fn answer_in(pairs: Seq<(String, String)>, question: Seq<char>, k: int) -> Option<
    Seq<char>,
>
    decreases pairs.len() - k,
{
    if k < 0 || k >= pairs.len() {
        None
    } else if pairs[k].0@ == question {
        Some(pairs[k].1@)
    } else {
        answer_in(pairs, question, k + 1)
    }
}

/// The number that answers `question`, from pair `k` on.
pub open spec fn number_in(pairs: Seq<(String, u64)>, question: Seq<char>, k: int) -> Option<u64>
    decreases pairs.len() - k,
{
    if k < 0 || k >= pairs.len() {
        None
    } else if pairs[k].0@ == question {
        Some(pairs[k].1)
    } else {
        number_in(pairs, question, k + 1)
    }
}

pub(crate) fn look_up(pairs: &Vec<(String, String)>, question: &str) -> (r: Option<String>)
    ensures
        r.deep_view() == answer_in(pairs@, question@, 0),
{
    let mut k: usize = 0;
    while k < pairs.len()
        invariant
            k <= pairs@.len(),
            answer_in(pairs@, question@, 0) == answer_in(pairs@, question@, k as int),
        decreases pairs@.len() - k,
    {
        if crate::text::same(pairs[k].0.as_str(), question) {
            return Some(pairs[k].1.clone());
        }
        k = k + 1;
    }
    None
}

/// The words of a command with a blank between.
pub open spec fn command_line(program: Seq<char>, args: Seq<Seq<char>>) -> Seq<char>
    decreases args.len(),
{
    if args.len() == 0 {
        program + " "@
    } else if args.len() == 1 {
        program + " "@ + args[0]
    } else {
        command_line(program, args.drop_last()) + " "@ + args.last()
    }
}

impl SystemProbe for MockProbe {
    open spec fn tells_text(&self, name: Seq<char>, answer: Option<Seq<char>>) -> bool {
        answer == answer_in(self.strings@, name, 0)
    }

    open spec fn tells_number(&self, name: Seq<char>, answer: Option<u64>) -> bool {
        answer == number_in(self.u64s@, name, 0)
    }

    open spec fn tells_working_set(&self, answer: Option<u64>) -> bool {
        answer == self.gpu_working_set
    }

    open spec fn tells_place(&self, program: Seq<char>, answer: Option<Seq<char>>) -> bool {
        answer == answer_in(self.binaries@, program, 0)
    }

    open spec fn tells_output(
        &self,
        program: Seq<char>,
        args: Seq<Seq<char>>,
        answer: Option<Seq<char>>,
    ) -> bool {
        answer == answer_in(self.commands@, command_line(program, args), 0)
    }

    open spec fn tells_page(&self, url: Seq<char>, answer: Option<Seq<char>>) -> bool {
        answer == answer_in(self.http@, url, 0)
    }

    open spec fn tells_reply(&self, url: Seq<char>, body: Seq<char>, answer: Option<Seq<char>>) -> bool {
        answer == answer_in(self.posts@, url, 0)
    }

    fn sysctl_string(&self, name: &str) -> Option<String> {
        look_up(&self.strings, name)
    }

    fn sysctl_u64(&self, name: &str) -> Option<u64> {
        let mut k: usize = 0;
        while k < self.u64s.len()
            invariant
                k <= self.u64s@.len(),
                number_in(self.u64s@, name@, 0) == number_in(self.u64s@, name@, k as int),
            decreases self.u64s@.len() - k,
        {
            if crate::text::same(self.u64s[k].0.as_str(), name) {
                return Some(self.u64s[k].1);
            }
            k = k + 1;
        }
        None
    }

    fn gpu_recommended_working_set(&self) -> Option<u64> {
        self.gpu_working_set
    }

    fn which(&self, binary: &str) -> Option<String> {
        look_up(&self.binaries, binary)
    }

    fn run_command(&self, program: &str, args: &[&str]) -> Option<String> {
        let ghost words = Seq::new(args@.len(), |i: int| args@[i]@);
        let mut line = program.to_owned();
        line.append(" ");
        let mut i: usize = 0;
        assert(words.take(0) =~= Seq::<Seq<char>>::empty());
        while i < args.len()
            invariant
                i <= args@.len(),
                words == Seq::new(args@.len(), |i: int| args@[i]@),
                line@ == command_line(program@, words.take(i as int)),
            decreases args@.len() - i,
        {
            assert(words.take(i as int + 1).drop_last() =~= words.take(i as int));
            assert(words.take(i as int + 1).last() == args@[i as int]@);
            if i > 0 {
                line.append(" ");
            }
            line.append(args[i]);
            i = i + 1;
        }
        assert(words.take(words.len() as int) =~= words);
        look_up(&self.commands, line.as_str())
    }

    fn http_get_local(&self, url: &str) -> Option<String> {
        look_up(&self.http, url)
    }

    fn http_post_local(&self, url: &str, json_body: &str) -> Option<String> {
        look_up(&self.posts, url)
    }
}

} // verus!

//! Byte-level scanning shared by the line-oriented formats.
use vstd::prelude::*;
use vstd::utf8::*;

verus! {

/// ASCII whitespace: tab, line feed, vertical tab, form feed, carriage
/// return, space.
pub open spec fn is_ws(b: u8) -> bool {
    (9 <= b <= 13) || b == 32
}

/// The UTF-8 encodings of the three-byte whitespace characters: U+1680,
/// U+2000 to U+200A, U+2028, U+2029, U+202F, U+205F and U+3000.
pub open spec fn is_ws3(a: u8, b: u8, c: u8) -> bool {
    (a == 0xE1 && b == 0x9A && c == 0x80) || (a == 0xE2 && b == 0x80 && ((0x80 <= c <= 0x8A) || c
        == 0xA8 || c == 0xA9 || c == 0xAF)) || (a == 0xE2 && b == 0x81 && c == 0x9F) || (a == 0xE3
        && b == 0x80 && c == 0x80)
}

/// The UTF-8 encodings of the two-byte whitespace characters U+0085 and U+00A0.
pub open spec fn is_ws2(a: u8, b: u8) -> bool {
    a == 0xC2 && (b == 0x85 || b == 0xA0)
}

/// Length of the whitespace character that `s` starts with, or 0: the
/// characters that Unicode calls White_Space, as `char::is_whitespace` does.
pub open spec fn ws_prefix(s: Seq<u8>) -> nat {
    if s.len() >= 1 && is_ws(s[0]) {
        1
    } else if s.len() >= 2 && is_ws2(s[0], s[1]) {
        2
    } else if s.len() >= 3 && is_ws3(s[0], s[1], s[2]) {
        3
    } else {
        0
    }
}

/// Length of the whitespace character that `s` ends with, or 0.
pub open spec fn ws_suffix(s: Seq<u8>) -> nat {
    let n = s.len() as int;
    if n >= 1 && is_ws(s[n - 1]) {
        1
    } else if n >= 2 && is_ws2(s[n - 2], s[n - 1]) {
        2
    } else if n >= 3 && is_ws3(s[n - 3], s[n - 2], s[n - 1]) {
        3
    } else {
        0
    }
}

pub open spec fn trim_start(s: Seq<u8>) -> Seq<u8>
    decreases s.len(),
{
    if ws_prefix(s) > 0 {
        trim_start(s.skip(ws_prefix(s) as int))
    } else {
        s
    }
}

pub open spec fn trim_end(s: Seq<u8>) -> Seq<u8>
    decreases s.len(),
{
    if ws_suffix(s) > 0 {
        trim_end(s.take(s.len() - ws_suffix(s)))
    } else {
        s
    }
}

/// `s` without leading and trailing whitespace.
pub open spec fn trim(s: Seq<u8>) -> Seq<u8> {
    trim_end(trim_start(s))
}

/// A sequence that starts with an ASCII byte other than whitespace starts
/// with no whitespace.
pub proof fn lemma_ascii_first(s: Seq<u8>)
    requires
        s.len() > 0,
        s[0] < 128,
        !is_ws(s[0]),
    ensures
        ws_prefix(s) == 0,
{
}

/// A sequence that ends with an ASCII byte other than whitespace ends with no
/// whitespace.
pub proof fn lemma_ascii_last(s: Seq<u8>)
    requires
        s.len() > 0,
        s.last() < 128,
        !is_ws(s.last()),
    ensures
        ws_suffix(s) == 0,
{
}

/// After an ASCII byte, the whitespace that ends a non-empty piece is its own.
pub proof fn lemma_ws_suffix_after_ascii(x: Seq<u8>, d: Seq<u8>)
    requires
        x.len() > 0,
        x.last() < 128,
        d.len() > 0,
    ensures
        ws_suffix(x + d) == ws_suffix(d),
{
    let s = x + d;
    let n = s.len() as int;
    let m = d.len() as int;
    assert(s[n - 1] == d[m - 1]);
    if m >= 2 {
        assert(s[n - 2] == d[m - 2]);
    } else {
        assert(s[n - 2] == x.last());
    }
    if m >= 3 {
        assert(s[n - 3] == d[m - 3]);
    } else if m == 2 {
        assert(s[n - 3] == x.last());
    } else {
        assert(s[n - 2] == x.last());
    }
}

/// Index of the first `b` in `s`, or `s.len()` when there is none.
pub open spec fn find(s: Seq<u8>, b: u8) -> nat
    decreases s.len(),
{
    if s.len() == 0 {
        0
    } else if s[0] == b {
        0
    } else {
        1 + find(s.drop_first(), b)
    }
}

/// The pieces of `s` between occurrences of `b`.
pub open spec fn split(s: Seq<u8>, b: u8) -> Seq<Seq<u8>>
    decreases s.len(),
{
    let i = find(s, b);
    if i >= s.len() {
        seq![s]
    } else {
        seq![s.take(i as int)] + split(s.skip((i + 1) as int), b)
    }
}

pub proof fn lemma_find_bounds(s: Seq<u8>, b: u8)
    ensures
        find(s, b) <= s.len(),
        find(s, b) < s.len() ==> s[find(s, b) as int] == b,
        forall|k: int| 0 <= k < find(s, b) ==> s[k] != b,
    decreases s.len(),
{
    if s.len() > 0 && s[0] != b {
        lemma_find_bounds(s.drop_first(), b);
        assert forall|k: int| 0 <= k < find(s, b) implies s[k] != b by {
            if k > 0 {
                assert(s[k] == s.drop_first()[k - 1]);
            }
        }
    }
}

/// `find` is pinned down by the first occurrence.
pub proof fn lemma_find_is(s: Seq<u8>, b: u8, i: int)
    requires
        0 <= i <= s.len(),
        forall|k: int| 0 <= k < i ==> s[k] != b,
        i == s.len() || s[i] == b,
    ensures
        find(s, b) == i,
    decreases s.len(),
{
    if s.len() > 0 && i > 0 {
        assert forall|k: int| 0 <= k < i - 1 implies s.drop_first()[k] != b by {
            assert(s.drop_first()[k] == s[k + 1]);
        }
        lemma_find_is(s.drop_first(), b, i - 1);
    }
}

/// A piece without `b`, followed by `b`, is found whole.
pub proof fn lemma_find_concat(x: Seq<u8>, b: u8, rest: Seq<u8>)
    requires
        forall|k: int| 0 <= k < x.len() ==> x[k] != b,
    ensures
        find(x + seq![b] + rest, b) == x.len(),
        (x + seq![b] + rest).take(x.len() as int) == x,
        (x + seq![b] + rest).skip((x.len() + 1) as int) == rest,
        find(x, b) == x.len(),
{
    let s = x + seq![b] + rest;
    assert forall|k: int| 0 <= k < x.len() implies s[k] != b by {
        assert(s[k] == x[k]);
    }
    assert(s[x.len() as int] == b);
    lemma_find_is(s, b, x.len() as int);
    lemma_find_is(x, b, x.len() as int);
    assert(s.take(x.len() as int) =~= x);
    assert(s.skip((x.len() + 1) as int) =~= rest);
}

/// A piece without `b`, then `b`, then the rest, splits into the piece and the
/// pieces of the rest.
pub proof fn lemma_split_cons(x: Seq<u8>, b: u8, rest: Seq<u8>)
    requires
        forall|k: int| 0 <= k < x.len() ==> x[k] != b,
    ensures
        split(x + seq![b] + rest, b) == seq![x] + split(rest, b),
{
    lemma_find_concat(x, b, rest);
}

/// A piece without `b` is one piece.
pub proof fn lemma_split_one(x: Seq<u8>, b: u8)
    requires
        forall|k: int| 0 <= k < x.len() ==> x[k] != b,
    ensures
        split(x, b) == seq![x],
{
    lemma_find_is(x, b, x.len() as int);
}

/// A sequence that neither starts nor ends with whitespace is its own trim.
pub proof fn lemma_trim_clean(s: Seq<u8>)
    requires
        ws_prefix(s) == 0,
        ws_suffix(s) == 0,
    ensures
        trim(s) == s,
{
}

/// Position of the first `b` in `s[from..to]`, or `to`.
pub fn find_byte(s: &[u8], from: usize, to: usize, b: u8) -> (r: usize)
    requires
        from <= to <= s@.len(),
    ensures
        from <= r <= to,
        r - from == find(s@.subrange(from as int, to as int), b),
{
    let mut i = from;
    while i < to && s[i] != b
        invariant
            from <= i <= to <= s@.len(),
            forall|k: int| from <= k < i ==> s@[k] != b,
        decreases to - i,
    {
        i = i + 1;
    }
    proof {
        let sub = s@.subrange(from as int, to as int);
        assert forall|k: int| 0 <= k < i - from implies sub[k] != b by {
            assert(sub[k] == s@[from + k]);
        }
        lemma_find_is(sub, b, i - from);
    }
    i
}

/// Length of the whitespace character at the start of `s[from..to]`, or 0.
fn ws_prefix_at(s: &[u8], from: usize, to: usize) -> (r: usize)
    requires
        from <= to <= s@.len(),
    ensures
        r == ws_prefix(s@.subrange(from as int, to as int)),
        r <= to - from,
{
    let n = to - from;
    if n >= 1 && ((9 <= s[from] && s[from] <= 13) || s[from] == 32) {
        1
    } else if n >= 2 && s[from] == 0xC2 && (s[from + 1] == 0x85 || s[from + 1] == 0xA0) {
        2
    } else if n >= 3 && ((s[from] == 0xE1 && s[from + 1] == 0x9A && s[from + 2] == 0x80) || (
    s[from] == 0xE2 && s[from + 1] == 0x80 && ((0x80 <= s[from + 2] && s[from + 2] <= 0x8A)
        || s[from + 2] == 0xA8 || s[from + 2] == 0xA9 || s[from + 2] == 0xAF)) || (s[from]
        == 0xE2 && s[from + 1] == 0x81 && s[from + 2] == 0x9F) || (s[from] == 0xE3 && s[from + 1]
        == 0x80 && s[from + 2] == 0x80)) {
        3
    } else {
        0
    }
}

/// Length of the whitespace character at the end of `s[from..to]`, or 0.
fn ws_suffix_at(s: &[u8], from: usize, to: usize) -> (r: usize)
    requires
        from <= to <= s@.len(),
    ensures
        r == ws_suffix(s@.subrange(from as int, to as int)),
        r <= to - from,
{
    let n = to - from;
    if n >= 1 && ((9 <= s[to - 1] && s[to - 1] <= 13) || s[to - 1] == 32) {
        1
    } else if n >= 2 && s[to - 2] == 0xC2 && (s[to - 1] == 0x85 || s[to - 1] == 0xA0) {
        2
    } else if n >= 3 && ((s[to - 3] == 0xE1 && s[to - 2] == 0x9A && s[to - 1] == 0x80) || (s[to
        - 3] == 0xE2 && s[to - 2] == 0x80 && ((0x80 <= s[to - 1] && s[to - 1] <= 0x8A) || s[to
        - 1] == 0xA8 || s[to - 1] == 0xA9 || s[to - 1] == 0xAF)) || (s[to - 3] == 0xE2 && s[to
        - 2] == 0x81 && s[to - 1] == 0x9F) || (s[to - 3] == 0xE3 && s[to - 2] == 0x80 && s[to
        - 1] == 0x80)) {
        3
    } else {
        0
    }
}

/// Bounds of `trim(s[from..to])` within `s`.
pub fn trim_range(s: &[u8], from: usize, to: usize) -> (r: (usize, usize))
    requires
        from <= to <= s@.len(),
    ensures
        from <= r.0 <= r.1 <= to,
        s@.subrange(r.0 as int, r.1 as int) == trim(s@.subrange(from as int, to as int)),
{
    let mut a = from;
    let mut k = ws_prefix_at(s, a, to);
    while k > 0
        invariant
            from <= a <= to <= s@.len(),
            k == ws_prefix(s@.subrange(a as int, to as int)),
            k <= to - a,
            trim_start(s@.subrange(from as int, to as int)) == trim_start(s@.subrange(a as int, to as int)),
        decreases to - a,
    {
        assert(s@.subrange(a as int, to as int).skip(k as int) =~= s@.subrange(a + k, to as int));
        a = a + k;
        k = ws_prefix_at(s, a, to);
    }
    let mut b = to;
    let mut k = ws_suffix_at(s, a, b);
    while k > 0
        invariant
            from <= a <= b <= to <= s@.len(),
            k == ws_suffix(s@.subrange(a as int, b as int)),
            k <= b - a,
            trim_end(s@.subrange(a as int, to as int)) == trim_end(s@.subrange(a as int, b as int)),
        decreases b - a,
    {
        assert(s@.subrange(a as int, b as int).take(b - a - k) =~= s@.subrange(a as int, b - k));
        b = b - k;
        k = ws_suffix_at(s, a, b);
    }
    (a, b)
}

/// Byte-wise equality of two slices.
pub fn bytes_eq(x: &[u8], y: &[u8]) -> (r: bool)
    ensures
        r == (x@ == y@),
{
    if x.len() != y.len() {
        return false;
    }
    let mut i: usize = 0;
    while i < x.len()
        invariant
            x@.len() == y@.len(),
            i <= x@.len(),
            forall|k: int| 0 <= k < i ==> x@[k] == y@[k],
        decreases x@.len() - i,
    {
        if x[i] != y[i] {
            return false;
        }
        i = i + 1;
    }
    assert(x@ =~= y@);
    true
}

/// Equality of two strings, compared through their UTF-8 encodings.
pub fn str_eq(x: &str, y: &str) -> (r: bool)
    ensures
        r == (x@ == y@),
{
    proof {
        encode_utf8_decode_utf8(x@);
        encode_utf8_decode_utf8(y@);
    }
    bytes_eq(x.as_bytes(), y.as_bytes())
}

/// A copy of `s[from..to]`.
pub fn copy_range(s: &[u8], from: usize, to: usize) -> (r: Vec<u8>)
    requires
        from <= to <= s@.len(),
    ensures
        r@ == s@.subrange(from as int, to as int),
{
    let mut out: Vec<u8> = Vec::new();
    let mut i = from;
    while i < to
        invariant
            from <= i <= to <= s@.len(),
            out@ == s@.subrange(from as int, i as int),
        decreases to - i,
    {
        out.push(s[i]);
        assert(out@ =~= s@.subrange(from as int, i + 1));
        i = i + 1;
    }
    out
}

/// Appends `bytes` to `out`.
pub fn push_bytes(out: &mut Vec<u8>, bytes: &[u8])
    ensures
        final(out)@ == old(out)@ + bytes@,
{
    let mut i: usize = 0;
    while i < bytes.len()
        invariant
            i <= bytes@.len(),
            out@ == old(out)@ + bytes@.take(i as int),
        decreases bytes@.len() - i,
    {
        out.push(bytes[i]);
        assert(bytes@.take(i + 1) =~= bytes@.take(i as int).push(bytes@[i as int]));
        i = i + 1;
    }
    assert(bytes@.take(i as int) =~= bytes@);
}

/// Relies on `String::from_utf8`: the bytes become a string exactly when they
/// are valid UTF-8, and the string holds the characters they encode.
#[verifier::external_body]
pub(crate) fn string_from_utf8(bytes: Vec<u8>) -> (r: Result<String, std::string::FromUtf8Error>)
    ensures
        r is Ok <==> valid_utf8(bytes@),
        r matches Ok(s) ==> s@ == decode_utf8(bytes@),
{
    String::from_utf8(bytes)
}

} // verus!

//! UTF-8 byte-level facts and string slicing helpers shared by the text modules.

use vstd::prelude::*;
use vstd::string::StringSliceAdditionalSpecFns;
use vstd::utf8::*;

verus! {

broadcast use {
    vstd::utf8::encode_utf8_valid_utf8,
    vstd::utf8::is_char_boundary_start_end_of_seq,
    vstd::utf8::is_char_boundary_iff_not_is_continuation_byte,
    vstd::utf8::valid_utf8_split,
};

/// Encoding a concatenation of characters concatenates the encodings.
pub proof fn lemma_encode_concat(a: Seq<char>, b: Seq<char>)
    ensures
        encode_utf8(a + b) == encode_utf8(a) + encode_utf8(b),
    decreases a.len(),
{
    if a.len() == 0 {
        assert(a + b =~= b);
        assert(encode_utf8(a) =~= Seq::<u8>::empty());
        assert(encode_utf8(a) + encode_utf8(b) =~= encode_utf8(b));
    } else {
        lemma_encode_concat(a.drop_first(), b);
        assert((a + b).drop_first() =~= a.drop_first() + b);
        assert((a + b)[0] == a[0]);
        assert(encode_utf8(a + b) =~= encode_scalar(a[0] as u32) + encode_utf8(a.drop_first() + b));
        assert(encode_utf8(a) + encode_utf8(b) =~= encode_scalar(a[0] as u32) + (encode_utf8(
            a.drop_first(),
        ) + encode_utf8(b)));
    }
}

/// The bytes of a string given by its characters.
pub open spec fn bytes_of(chars: Seq<char>) -> Seq<u8> {
    encode_utf8(chars)
}

/// A character boundary of a valid encoding stays a boundary, relative to the
/// start, in any suffix that begins at a boundary.
pub proof fn lemma_boundary_in_suffix(b: Seq<u8>, c: int, s: int)
    requires
        valid_utf8(b),
        is_char_boundary(b, c),
        is_char_boundary(b, s),
        0 <= c <= s <= b.len(),
    ensures
        valid_utf8(b.subrange(c, b.len() as int)),
        is_char_boundary(b.subrange(c, b.len() as int), s - c),
{
    let t = b.subrange(c, b.len() as int);
    assert(valid_utf8(t));
    if s < b.len() {
        assert(t[s - c] == b[s]);
        is_char_boundary_iff_not_is_continuation_byte(b, s);
        is_char_boundary_iff_not_is_continuation_byte(t, s - c);
    } else {
        assert(t.len() == s - c);
        is_char_boundary_start_end_of_seq(t);
    }
}

/// A character boundary of a valid encoding is a boundary of any prefix that contains it.
pub proof fn lemma_boundary_in_prefix(b: Seq<u8>, e: int, s: int)
    requires
        valid_utf8(b),
        is_char_boundary(b, e),
        is_char_boundary(b, s),
        0 <= s <= e <= b.len(),
    ensures
        valid_utf8(b.subrange(0, e)),
        is_char_boundary(b.subrange(0, e), s),
{
    let t = b.subrange(0, e);
    assert(valid_utf8(t));
    if s < e {
        assert(t[s] == b[s]);
        is_char_boundary_iff_not_is_continuation_byte(b, s);
        is_char_boundary_iff_not_is_continuation_byte(t, s);
    } else {
        assert(t.len() == s);
        is_char_boundary_start_end_of_seq(t);
    }
}

/// The slice of `s` between two character boundaries.
pub fn substr(s: &str, start: usize, end: usize) -> (r: &str)
    requires
        start <= end <= s.spec_bytes().len(),
        is_char_boundary(s.spec_bytes(), start as int),
        is_char_boundary(s.spec_bytes(), end as int),
    ensures
        r.spec_bytes() == s.spec_bytes().subrange(start as int, end as int),
{
    proof {
        lemma_boundary_in_prefix(s.spec_bytes(), end as int, start as int);
    }
    let (head, _) = s.split_at(end);
    let (_, mid) = head.split_at(start);
    assert(mid.spec_bytes() =~= s.spec_bytes().subrange(start as int, end as int));
    mid
}

/// Appends `piece` to `out`, tracking the resulting bytes.
pub fn push_str(out: &mut String, piece: &str)
    ensures
        bytes_of(final(out)@) == bytes_of(old(out)@) + piece.spec_bytes(),
{
    proof {
        lemma_encode_concat(old(out)@, piece@);
    }
    out.append(piece);
}

/// A fresh empty string.
pub fn empty_string() -> (r: String)
    ensures
        bytes_of(r@) == Seq::<u8>::empty(),
{
    let r = String::new();
    assert(bytes_of(r@) =~= Seq::<u8>::empty());
    r
}

/// Every string's bytes are valid UTF-8 and its boundaries include both ends.
pub proof fn lemma_str_valid(s: &str)
    ensures
        valid_utf8(s.spec_bytes()),
        is_char_boundary(s.spec_bytes(), 0),
        is_char_boundary(s.spec_bytes(), s.spec_bytes().len() as int),
{
}

/// Length of the encoding of a Unicode white-space character (U+0009..U+000D,
/// U+0020, U+0085, U+00A0, U+1680, U+2000..U+200A, U+2028, U+2029, U+202F,
/// U+205F, U+3000) starting at byte `i`, or 0 when none starts there.
pub open spec fn ws_len(b: Seq<u8>, i: int) -> int {
    if i < 0 || i >= b.len() {
        0
    } else if (9 <= b[i] <= 13) || b[i] == 32 {
        1
    } else if i + 1 < b.len() && b[i] == 0xC2 && (b[i + 1] == 0x85 || b[i + 1] == 0xA0) {
        2
    } else if i + 2 < b.len() && b[i] == 0xE1 && b[i + 1] == 0x9A && b[i + 2] == 0x80 {
        3
    } else if i + 2 < b.len() && b[i] == 0xE2 && b[i + 1] == 0x80 && ((0x80 <= b[i + 2] <= 0x8A)
        || b[i + 2] == 0xA8 || b[i + 2] == 0xA9 || b[i + 2] == 0xAF) {
        3
    } else if i + 2 < b.len() && b[i] == 0xE2 && b[i + 1] == 0x81 && b[i + 2] == 0x9F {
        3
    } else if i + 2 < b.len() && b[i] == 0xE3 && b[i + 1] == 0x80 && b[i + 2] == 0x80 {
        3
    } else {
        0
    }
}

/// The byte after an ASCII byte at a character boundary is a boundary too.
pub proof fn lemma_ascii_boundary(b: Seq<u8>, i: int)
    requires
        valid_utf8(b),
        0 <= i < b.len(),
        b[i] < 0x80,
    ensures
        is_char_boundary(b, i + 1),
{
    is_char_boundary_iff_not_is_continuation_byte(b, i);
    let t = b.subrange(i, b.len() as int);
    valid_utf8_split(b, i);
    assert(t[0] == b[i]);
    assert(length_of_first_scalar(t) == 1);
    assert(is_char_boundary(t, 1)) by {
        reveal_with_fuel(is_char_boundary, 2);
    }
    lemma_boundary_from_suffix(b, i, i + 1);
}

/// The end of a white-space character that starts at a boundary is a
/// boundary too.
pub proof fn lemma_ws_char_boundary(b: Seq<u8>, i: int)
    requires
        valid_utf8(b),
        0 <= i < b.len(),
        is_char_boundary(b, i),
        ws_len(b, i) > 0,
    ensures
        is_char_boundary(b, i + ws_len(b, i)),
{
    let w = ws_len(b, i);
    let t = b.subrange(i, b.len() as int);
    valid_utf8_split(b, i);
    assert(t[0] == b[i]);
    if w > 1 {
        assert(t[1] == b[i + 1]);
    }
    assert(length_of_first_scalar(t) == w);
    assert(is_char_boundary(t, w)) by {
        reveal_with_fuel(is_char_boundary, 2);
    }
    lemma_boundary_from_suffix(b, i, i + w);
}

/// Byte length of the white-space character at `i` of `b`, or 0.
pub fn whitespace_len_at(b: &[u8], i: usize) -> (r: usize)
    ensures
        r == ws_len(b@, i as int),
{
    let n = b.len();
    if i >= n {
        return 0;
    }
    let c = b[i];
    if (9 <= c && c <= 13) || c == 32 {
        return 1;
    }
    if i + 1 < n && c == 0xC2 && (b[i + 1] == 0x85 || b[i + 1] == 0xA0) {
        return 2;
    }
    if n - i > 2 {
        let c1 = b[i + 1];
        let c2 = b[i + 2];
        if c == 0xE1 && c1 == 0x9A && c2 == 0x80 {
            return 3;
        }
        if c == 0xE2 && c1 == 0x80 && ((0x80 <= c2 && c2 <= 0x8A) || c2 == 0xA8 || c2 == 0xA9
            || c2 == 0xAF) {
            return 3;
        }
        if c == 0xE2 && c1 == 0x81 && c2 == 0x9F {
            return 3;
        }
        if c == 0xE3 && c1 == 0x80 && c2 == 0x80 {
            return 3;
        }
    }
    0
}

/// First index at or after `from` where `needle` occurs in `hay`.
pub open spec fn find_from(hay: Seq<u8>, needle: Seq<u8>, from: int) -> Option<int>
    decreases hay.len() + 1 - from,
{
    if from < 0 || from + needle.len() > hay.len() {
        None
    } else if hay.subrange(from, from + needle.len()) == needle {
        Some(from)
    } else {
        find_from(hay, needle, from + 1)
    }
}

pub proof fn lemma_find_from_range(hay: Seq<u8>, needle: Seq<u8>, from: int)
    ensures
        find_from(hay, needle, from) matches Some(i) ==> from <= i && i + needle.len() <= hay.len()
            && hay.subrange(i, i + needle.len()) == needle,
    decreases hay.len() + 1 - from,
{
    if !(from < 0 || from + needle.len() > hay.len()) && hay.subrange(from, from + needle.len())
        != needle {
        lemma_find_from_range(hay, needle, from + 1);
    }
}

/// Search `hay` for `needle` from byte `from` on.
pub fn find_bytes(hay: &[u8], needle: &[u8], from: usize) -> (r: Option<usize>)
    ensures
        r == (match find_from(hay@, needle@, from as int) {
            Some(i) => Some(i as usize),
            None => None::<usize>,
        }),
        r matches Some(i) ==> from <= i && i + needle@.len() <= hay@.len()
            && hay@.subrange(i as int, i + needle@.len()) == needle@,
{
    proof {
        lemma_find_from_range(hay@, needle@, from as int);
    }
    let n = hay.len();
    let m = needle.len();
    if m > n {
        return None;
    }
    let mut i = from;
    while i <= n - m
        invariant
            n == hay@.len(),
            m == needle@.len(),
            m <= n,
            from <= i,
            find_from(hay@, needle@, from as int) == find_from(hay@, needle@, i as int),
        decreases n - i,
    {
        let mut j: usize = 0;
        while j < m && hay[i + j] == needle[j]
            invariant
                n == hay@.len(),
                m == needle@.len(),
                i + m <= n,
                0 <= j <= m,
                forall|t: int| 0 <= t < j ==> hay@[i + t] == needle@[t],
            decreases m - j,
        {
            j = j + 1;
        }
        if j == m {
            assert(hay@.subrange(i as int, i + m) =~= needle@);
            return Some(i);
        }
        assert(hay@.subrange(i as int, i + m)[j as int] != needle@[j as int]);
        i = i + 1;
    }
    None
}

/// Appends one character to `s` (std's `String::push`).
#[verifier::external_body]
pub fn push_char(s: &mut String, c: char)
    ensures
        final(s)@ == old(s)@.push(c),
{
    s.push(c);
}

/// Bytes of `b` from `start` to the end.
pub open spec fn suffix_from(b: Seq<u8>, start: int) -> Seq<u8> {
    b.subrange(start, b.len() as int)
}

/// `b` begins with the bytes `p`.
pub open spec fn has_prefix(b: Seq<u8>, p: Seq<u8>) -> bool {
    p.len() <= b.len() && b.subrange(0, p.len() as int) == p
}

/// `b` ends with the bytes `p`.
pub open spec fn has_suffix(b: Seq<u8>, p: Seq<u8>) -> bool {
    p.len() <= b.len() && b.subrange(b.len() - p.len(), b.len() as int) == p
}

/// Whether `b` begins with the bytes `p`.
pub fn starts_with_bytes(b: &[u8], p: &[u8]) -> (r: bool)
    ensures
        r == has_prefix(b@, p@),
{
    if p.len() > b.len() {
        return false;
    }
    let mut i: usize = 0;
    while i < p.len()
        invariant
            p@.len() <= b@.len(),
            0 <= i <= p@.len(),
            forall|t: int| 0 <= t < i ==> b@[t] == p@[t],
        decreases p@.len() - i,
    {
        if b[i] != p[i] {
            assert(b@.subrange(0, p@.len() as int)[i as int] != p@[i as int]);
            return false;
        }
        i = i + 1;
    }
    assert(b@.subrange(0, p@.len() as int) =~= p@);
    true
}

/// Whether `b` ends with the bytes `p`.
pub fn ends_with_bytes(b: &[u8], p: &[u8]) -> (r: bool)
    ensures
        r == has_suffix(b@, p@),
{
    if p.len() > b.len() {
        return false;
    }
    let off = b.len() - p.len();
    let mut i: usize = 0;
    while i < p.len()
        invariant
            p@.len() <= b@.len(),
            b@.len() == b.len(),
            off == b@.len() - p@.len(),
            0 <= i <= p@.len(),
            forall|t: int| 0 <= t < i ==> b@[off + t] == p@[t],
        decreases p@.len() - i,
    {
        if b[off + i] != p[i] {
            assert(b@.subrange(off as int, b@.len() as int)[i as int] != p@[i as int]);
            return false;
        }
        i = i + 1;
    }
    assert(b@.subrange(off as int, b@.len() as int) =~= p@);
    true
}

/// Whether two byte strings are equal.
pub fn bytes_eq(a: &[u8], b: &[u8]) -> (r: bool)
    ensures
        r == (a@ == b@),
{
    if a.len() != b.len() {
        return false;
    }
    let mut i: usize = 0;
    while i < a.len()
        invariant
            a@.len() == b@.len(),
            0 <= i <= a@.len(),
            forall|t: int| 0 <= t < i ==> a@[t] == b@[t],
        decreases a@.len() - i,
    {
        if a[i] != b[i] {
            return false;
        }
        i = i + 1;
    }
    assert(a@ =~= b@);
    true
}

/// Two strings with the same bytes have the same characters.
pub proof fn lemma_bytes_determine_chars(a: &str, b: &str)
    requires
        a.spec_bytes() == b.spec_bytes(),
    ensures
        a@ == b@,
{
    vstd::utf8::encode_utf8_decode_utf8(a@);
    vstd::utf8::encode_utf8_decode_utf8(b@);
}

/// The UTF-8 encoding of one character.
pub open spec fn char_bytes(c: char) -> Seq<u8> {
    bytes_of(seq![c])
}

/// An ASCII character encodes to its own code as a single byte.
pub proof fn lemma_ascii_char_bytes(c: char)
    requires
        (c as u32) < 0x80,
    ensures
        char_bytes(c) == seq![c as u8],
{
    let s = seq![c];
    encode_utf8_first_scalar(s);
    assert(s.drop_first() =~= Seq::<char>::empty());
    assert(encode_utf8(s) =~= encode_scalar(s[0] as u32) + encode_utf8(s.drop_first()));
    assert(encode_utf8(s.drop_first()) =~= Seq::<u8>::empty());
    let v = c as u32;
    assert(leading_byte_width_1(v) == v as u8) by (bit_vector)
        requires
            v < 0x80u32,
    ;
    assert(encode_scalar(v) =~= seq![c as u8]);
}

/// A character encodes to one to four bytes that begin with a leading byte.
pub proof fn lemma_char_bytes(c: char)
    ensures
        1 <= char_bytes(c).len() <= 4,
        !is_continuation_byte(char_bytes(c)[0]),
        length_of_first_scalar(char_bytes(c)) == char_bytes(c).len(),
{
    let s = seq![c];
    encode_utf8_first_scalar(s);
    assert(s.drop_first() =~= Seq::<char>::empty());
    assert(encode_utf8(s) =~= encode_scalar(s[0] as u32) + encode_utf8(s.drop_first()));
    assert(encode_utf8(s.drop_first()) =~= Seq::<u8>::empty());
    assert(encode_utf8(s) =~= encode_scalar(c as u32));
}

/// In a valid encoding that begins with a character's bytes, the end of those bytes is a boundary.
pub proof fn lemma_prefix_char_boundary(b: Seq<u8>, c: char)
    requires
        valid_utf8(b),
        has_prefix(b, char_bytes(c)),
    ensures
        is_char_boundary(b, char_bytes(c).len() as int),
{
    lemma_char_bytes(c);
    let cb = char_bytes(c);
    assert(b[0] == cb[0]);
    assert(length_of_first_scalar(b) == cb.len());
    reveal_with_fuel(is_char_boundary, 2);
    is_char_boundary_start_end_of_seq(pop_first_scalar(b));
}

/// In a valid encoding that ends with a character's bytes, the start of those bytes is a boundary.
pub proof fn lemma_suffix_char_boundary(b: Seq<u8>, c: char)
    requires
        valid_utf8(b),
        has_suffix(b, char_bytes(c)),
    ensures
        is_char_boundary(b, b.len() - char_bytes(c).len()),
{
    lemma_char_bytes(c);
    let cb = char_bytes(c);
    let i = b.len() - cb.len();
    assert(b[i] == b.subrange(i, b.len() as int)[0]);
    is_char_boundary_iff_not_is_continuation_byte(b, i);
}

/// The bytes of a one-character string.
pub fn char_string(c: char) -> (r: String)
    ensures
        bytes_of(r@) == char_bytes(c),
        r@ == seq![c],
{
    let mut s = String::new();
    push_char(&mut s, c);
    assert(s@ =~= seq![c]);
    s
}

/// A boundary of a suffix that begins at a boundary is a boundary of the whole.
pub proof fn lemma_boundary_from_suffix(b: Seq<u8>, c: int, s: int)
    requires
        valid_utf8(b),
        is_char_boundary(b, c),
        0 <= c <= s <= b.len(),
        is_char_boundary(b.subrange(c, b.len() as int), s - c),
    ensures
        is_char_boundary(b, s),
{
    let t = b.subrange(c, b.len() as int);
    assert(valid_utf8(t));
    if s < b.len() {
        assert(t[s - c] == b[s]);
        is_char_boundary_iff_not_is_continuation_byte(b, s);
        is_char_boundary_iff_not_is_continuation_byte(t, s - c);
    }
}

/// A boundary of a prefix that ends at a boundary is a boundary of the whole.
pub proof fn lemma_boundary_from_prefix(b: Seq<u8>, e: int, s: int)
    requires
        valid_utf8(b),
        is_char_boundary(b, e),
        0 <= s <= e <= b.len(),
        is_char_boundary(b.subrange(0, e), s),
    ensures
        is_char_boundary(b, s),
{
    let t = b.subrange(0, e);
    assert(valid_utf8(t));
    if s < e {
        assert(t[s] == b[s]);
        is_char_boundary_iff_not_is_continuation_byte(b, s);
        is_char_boundary_iff_not_is_continuation_byte(t, s);
    }
}

/// Whether `b[..end]` ends with `p`.
pub fn ends_with_at(b: &[u8], end: usize, p: &[u8]) -> (r: bool)
    requires
        end <= b@.len(),
    ensures
        r == has_suffix(b@.subrange(0, end as int), p@),
{
    if p.len() > end {
        return false;
    }
    let off = end - p.len();
    let mut i: usize = 0;
    while i < p.len()
        invariant
            p@.len() <= end <= b@.len(),
            off == end - p@.len(),
            0 <= i <= p@.len(),
            forall|t: int| 0 <= t < i ==> b@[off + t] == p@[t],
        decreases p@.len() - i,
    {
        if b[off + i] != p[i] {
            assert(b@.subrange(0, end as int).subrange(off as int, end as int)[i as int] != p@[i as int]);
            return false;
        }
        i = i + 1;
    }
    assert(b@.subrange(0, end as int).subrange(off as int, end as int) =~= p@);
    true
}

/// Whether `b[start..]` begins with `p`.
pub fn starts_with_at(b: &[u8], start: usize, p: &[u8]) -> (r: bool)
    requires
        start <= b@.len(),
    ensures
        r == has_prefix(suffix_from(b@, start as int), p@),
{
    if p.len() > b.len() - start {
        return false;
    }
    let mut i: usize = 0;
    while i < p.len()
        invariant
            start + p@.len() <= b@.len(),
            b@.len() == b.len(),
            0 <= i <= p@.len(),
            forall|t: int| 0 <= t < i ==> b@[start + t] == p@[t],
        decreases p@.len() - i,
    {
        if b[start + i] != p[i] {
            assert(suffix_from(b@, start as int).subrange(0, p@.len() as int)[i as int] != p@[i as int]);
            return false;
        }
        i = i + 1;
    }
    assert(suffix_from(b@, start as int).subrange(0, p@.len() as int) =~= p@);
    true
}

/// The end of a valid prefix of a valid encoding is a boundary.
pub proof fn lemma_valid_prefix_boundary(b: Seq<u8>, k: int)
    requires
        valid_utf8(b),
        0 <= k <= b.len(),
        valid_utf8(b.subrange(0, k)),
    ensures
        is_char_boundary(b, k),
    decreases k,
{
    if k > 0 {
        let p = b.subrange(0, k);
        let l = length_of_first_scalar(p);
        assert(p[0] == b[0]);
        assert(length_of_first_scalar(b) == l);
        let pb = pop_first_scalar(b);
        let pp = pop_first_scalar(p);
        assert(pp =~= pb.subrange(0, k - l));
        lemma_valid_prefix_boundary(pb, k - l);
    }
}

/// The decimal digit character of `d < 10`.
pub open spec fn digit_char(d: nat) -> char {
    (48 + d) as char
}

/// The decimal representation of `n`, without leading zeros.
pub open spec fn decimal(n: nat) -> Seq<char>
    decreases n,
{
    if n < 10 {
        seq![digit_char(n)]
    } else {
        decimal(n / 10).push(digit_char(n % 10))
    }
}

/// Formats `n` in decimal.
pub fn decimal_string(n: u64) -> (r: String)
    ensures
        r@ == decimal(n as nat),
{
    let mut out = String::new();
    push_decimal(&mut out, n);
    out
}

/// Formats `n` in decimal onto the end of `out`.
pub fn push_decimal(out: &mut String, n: u64)
    ensures
        final(out)@ == old(out)@ + decimal(n as nat),
    decreases n,
{
    if n >= 10 {
        push_decimal(out, n / 10);
    }
    let d: u8 = (n % 10) as u8;
    let c: char = (48u8 + d) as char;
    assert(c == digit_char((n % 10) as nat));
    push_char(out, c);
    assert(old(out)@ + decimal(n as nat) =~= if n >= 10 {
        old(out)@ + decimal((n / 10) as nat)
    } else {
        old(out)@
    }.push(c));
}

/// The text std's `Debug` gives for a string: the string in double quotes,
/// with quotes, backslashes and unprintable characters escaped.
pub uninterp spec fn str_debug(s: Seq<char>) -> Seq<char>;

/// Renders `s` as std's `Debug` for `str` does.
#[verifier::external_body]
pub(crate) fn debug_str(s: &str) -> (r: String)
    ensures
        r@ == str_debug(s@),
{
    format!("{s:?}")
}

/// Appends `piece` to `out`, tracking characters.
pub fn push_chars(out: &mut String, piece: &str)
    ensures
        final(out)@ == old(out)@ + piece@,
{
    out.append(piece);
}

/// Byte length of the UTF-8 encoding of `ch`.
pub fn utf8_len(ch: char) -> (r: usize)
    ensures
        r == char_bytes(ch).len(),
        1 <= r <= 4,
{
    proof {
        lemma_char_len(ch);
    }
    let c = ch as u32;
    if c < 0x80 {
        1
    } else if c < 0x800 {
        2
    } else if c < 0x10000 {
        3
    } else {
        4
    }
}

/// The length of a character's encoding by the range of its code.
pub proof fn lemma_char_len(ch: char)
    ensures
        char_bytes(ch).len() == if (ch as u32) < 0x80 {
            1int
        } else if (ch as u32) < 0x800 {
            2int
        } else if (ch as u32) < 0x10000 {
            3int
        } else {
            4int
        },
{
    lemma_char_bytes(ch);
    let s = seq![ch];
    assert(s.drop_first() =~= Seq::<char>::empty());
    assert(encode_utf8(s) =~= encode_scalar(s[0] as u32) + encode_utf8(s.drop_first()));
    assert(encode_utf8(s.drop_first()) =~= Seq::<u8>::empty());
    assert(char_bytes(ch) =~= encode_scalar(ch as u32));
}

/// The encoding of the first `i` characters is a prefix of the whole
/// encoding, ends at a character boundary, and grows by one character's bytes.
pub proof fn lemma_take_bytes(s: Seq<char>, i: int)
    requires
        0 <= i <= s.len(),
    ensures
        bytes_of(s.take(i)) == bytes_of(s).subrange(0, bytes_of(s.take(i)).len() as int),
        bytes_of(s.take(i)).len() <= bytes_of(s).len(),
        is_char_boundary(bytes_of(s), bytes_of(s.take(i)).len() as int),
        decode_utf8(bytes_of(s).subrange(0, bytes_of(s.take(i)).len() as int)) == s.take(i),
        decode_utf8(bytes_of(s).subrange(bytes_of(s.take(i)).len() as int, bytes_of(s).len() as int))
            == s.skip(i),
        i < s.len() ==> bytes_of(s.take(i + 1)).len() == bytes_of(s.take(i)).len() + char_bytes(s[i]).len(),
{
    assert(s.take(i) + s.skip(i) =~= s);
    lemma_encode_concat(s.take(i), s.skip(i));
    let k = bytes_of(s.take(i)).len() as int;
    assert(bytes_of(s).subrange(0, k) =~= bytes_of(s.take(i)));
    assert(bytes_of(s).subrange(k, bytes_of(s).len() as int) =~= bytes_of(s.skip(i)));
    encode_utf8_decode_utf8(s.take(i));
    encode_utf8_decode_utf8(s.skip(i));
    lemma_valid_prefix_boundary(bytes_of(s), k);
    if i < s.len() {
        assert(s.take(i + 1) =~= s.take(i) + seq![s[i]]);
        lemma_encode_concat(s.take(i), seq![s[i]]);
    }
}

/// The characters of `text` whose bytes lie before byte `off`.
pub open spec fn chars_before(text: Seq<char>, off: int) -> Seq<char> {
    decode_utf8(bytes_of(text).subrange(0, off))
}

/// The characters of `text` whose bytes lie at or after byte `off`.
pub open spec fn chars_after(text: Seq<char>, off: int) -> Seq<char> {
    decode_utf8(bytes_of(text).subrange(off, bytes_of(text).len() as int))
}

/// Splitting a string at a boundary splits its characters.
proof fn lemma_split_chars(s: &str, mid: int, head: &str, tail: &str)
    requires
        0 <= mid <= s.spec_bytes().len(),
        head.spec_bytes() == s.spec_bytes().subrange(0, mid),
        tail.spec_bytes() == s.spec_bytes().subrange(mid, s.spec_bytes().len() as int),
    ensures
        head@ == chars_before(s@, mid),
        tail@ == chars_after(s@, mid),
        s@ == head@ + tail@,
{
    encode_utf8_decode_utf8(head@);
    encode_utf8_decode_utf8(tail@);
    encode_utf8_decode_utf8(s@);
    lemma_encode_concat(head@, tail@);
    assert(s.spec_bytes() =~= head.spec_bytes() + tail.spec_bytes());
    encode_utf8_decode_utf8(head@ + tail@);
}

/// The last character before byte `off`, a character boundary inside `text`.
pub fn char_before(text: &str, off: usize) -> (r: char)
    requires
        0 < off <= text.spec_bytes().len(),
        is_char_boundary(text.spec_bytes(), off as int),
    ensures
        chars_before(text@, off as int).len() > 0,
        r == chars_before(text@, off as int).last(),
{
    let (left, _) = text.split_at(off);
    proof {
        lemma_str_valid(left);
    }
    let mut k: usize = off - 1;
    while !left.is_char_boundary(k)
        invariant
            k < off,
            left.spec_bytes().len() == off,
            is_char_boundary(left.spec_bytes(), 0),
        decreases k,
    {
        k = k - 1;
    }
    let (head, tail) = left.split_at(k);
    proof {
        lemma_split_chars(left, k as int, head, tail);
        let lb = text.spec_bytes().subrange(0, off as int);
        assert(left.spec_bytes() =~= lb);
        encode_utf8_decode_utf8(left@);
        if tail@.len() == 0 {
            assert(tail.spec_bytes() =~= Seq::<u8>::empty());
        }
    }
    let ghost ts = tail@;
    let mut it = tail.chars();
    let ghost mut i: int = 0;
    let mut last: char = ' ';
    loop
        invariant
            0 <= i <= ts.len(),
            ts.len() > 0,
            vstd::std_specs::iter::IteratorSpec::remaining(&it) == ts.skip(i),
            i > 0 ==> last == ts[i - 1],
        ensures
            last == ts.last(),
        decreases ts.len() - i,
    {
        match it.next() {
            Some(c) => {
                proof {
                    assert(ts.skip(i)[0] == ts[i]);
                    assert(ts.skip(i).drop_first() =~= ts.skip(i + 1));
                    i = i + 1;
                }
                last = c;
            },
            None => {
                assert(i == ts.len());
                break;
            },
        }
    }
    proof {
        assert(left@.last() == tail@.last());
    }
    last
}

/// The first character at or after byte `off`, a character boundary inside `text`.
pub fn char_after(text: &str, off: usize) -> (r: char)
    requires
        off < text.spec_bytes().len(),
        is_char_boundary(text.spec_bytes(), off as int),
    ensures
        chars_after(text@, off as int).len() > 0,
        r == chars_after(text@, off as int)[0],
{
    let (head, right) = text.split_at(off);
    proof {
        lemma_split_chars(text, off as int, head, right);
        if right@.len() == 0 {
            assert(right.spec_bytes() =~= Seq::<u8>::empty());
        }
    }
    let mut it = right.chars();
    match it.next() {
        Some(c) => c,
        None => {
            assert(false);
            ' '
        },
    }
}

/// Unicode white space (the `White_Space` property).
pub open spec fn is_white_space(c: char) -> bool {
    let u = c as u32;
    (0x9 <= u <= 0xD) || u == 0x20 || u == 0x85 || u == 0xA0 || u == 0x1680 || (0x2000 <= u
        <= 0x200A) || u == 0x2028 || u == 0x2029 || u == 0x202F || u == 0x205F || u == 0x3000
}

/// Whether `c` is Unicode white space.
pub fn char_is_white_space(c: char) -> (r: bool)
    ensures
        r == is_white_space(c),
{
    let u = c as u32;
    (0x9 <= u && u <= 0xD) || u == 0x20 || u == 0x85 || u == 0xA0 || u == 0x1680 || (0x2000 <= u
        && u <= 0x200A) || u == 0x2028 || u == 0x2029 || u == 0x202F || u == 0x205F || u == 0x3000
}

} // verus!

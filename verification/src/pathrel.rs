//! String-based path relation helpers: subtree membership, parent lookup,
//! joining, and rename remapping under an explicit separator and case policy.

use vstd::prelude::*;
use vstd::string::StringSliceAdditionalSpecFns;
use vstd::utf8::*;
use crate::strutil::{lemma_valid_prefix_boundary, ends_with_at, starts_with_at, lemma_boundary_from_prefix, lemma_boundary_from_suffix, 
    bytes_of, char_bytes, char_string, ends_with_bytes, bytes_eq, has_prefix, has_suffix,
    lemma_char_bytes, lemma_prefix_char_boundary, lemma_str_valid, lemma_suffix_char_boundary,
    push_str, starts_with_bytes, substr, suffix_from, empty_string,
};

verus! {

/// Case handling used when comparing path segments.
#[derive(Debug, Clone, Copy, PartialEq, Eq)]
pub enum PathCaseSensitivity {
    Sensitive,
    Insensitive,
}

/// Path comparison policy shared by relation helpers.
#[derive(Debug, Clone, Copy, PartialEq, Eq)]
pub struct PathPolicy {
    pub separator: char,
    pub case_sensitivity: PathCaseSensitivity,
}

impl PathPolicy {
    pub fn new(separator: char, case_sensitivity: PathCaseSensitivity) -> (p: Self)
        ensures
            p.separator == separator,
            p.case_sensitivity == case_sensitivity,
    {
        Self { separator, case_sensitivity }
    }

    pub fn posix() -> (p: Self)
        ensures
            p.separator == '/',
            p.case_sensitivity == PathCaseSensitivity::Sensitive,
    {
        Self::new('/', PathCaseSensitivity::Sensitive)
    }
}

// ---------------------------------------------------------------------------
// Lowercasing (std's `str::to_lowercase`)
// ---------------------------------------------------------------------------

/// Unicode lowercase mapping of a character sequence, as `str::to_lowercase` computes it.
pub uninterp spec fn lowercase(s: Seq<char>) -> Seq<char>;

/// Calls `str::to_lowercase`; its result is named by `lowercase`, a function of
/// the characters alone.
#[verifier::external_body]
fn to_lowercase(s: &str) -> (r: String)
    ensures
        r@ == lowercase(s@),
{
    s.to_lowercase()
}

// ---------------------------------------------------------------------------
// Specifications over the UTF-8 bytes of paths
// ---------------------------------------------------------------------------

/// `b` with every trailing copy of the separator bytes `sb` removed.
pub open spec fn trim_end_sep(b: Seq<u8>, sb: Seq<u8>) -> Seq<u8>
    decreases b.len(),
{
    if sb.len() > 0 && has_suffix(b, sb) {
        trim_end_sep(b.subrange(0, b.len() - sb.len()), sb)
    } else {
        b
    }
}

/// `b` with every leading copy of the separator bytes `sb` removed.
pub open spec fn trim_start_sep(b: Seq<u8>, sb: Seq<u8>) -> Seq<u8>
    decreases b.len(),
{
    if sb.len() > 0 && has_prefix(b, sb) {
        trim_start_sep(b.subrange(sb.len() as int, b.len() as int), sb)
    } else {
        b
    }
}

/// The leading separator of `b`, or nothing.
pub open spec fn root_of(b: Seq<u8>, sb: Seq<u8>) -> Seq<u8> {
    if has_prefix(b, sb) {
        b.subrange(0, sb.len() as int)
    } else {
        Seq::empty()
    }
}

/// `b` without trailing separators, keeping a lone root separator.
pub open spec fn trim_trailing(b: Seq<u8>, sb: Seq<u8>) -> Seq<u8> {
    if b.len() == 0 {
        b
    } else {
        let t = trim_end_sep(b, sb);
        if t.len() == 0 && has_prefix(b, sb) {
            root_of(b, sb)
        } else {
            t
        }
    }
}

/// The form of a path used for comparisons.
pub open spec fn normalized(b: Seq<u8>, sb: Seq<u8>) -> Seq<u8> {
    let t = trim_trailing(b, sb);
    if t.len() == 0 && has_prefix(b, sb) {
        root_of(b, sb)
    } else {
        t
    }
}

/// Path equality under the policy.
pub open spec fn same_path(l: Seq<u8>, r: Seq<u8>, policy: PathPolicy) -> bool {
    match policy.case_sensitivity {
        PathCaseSensitivity::Sensitive => l == r,
        PathCaseSensitivity::Insensitive => lowercase(decode_utf8(l)) == lowercase(decode_utf8(r)),
    }
}

/// The rest of `path` after `prefix` under the policy, if it begins with it.
pub open spec fn strip_prefix_policy(path: Seq<u8>, prefix: Seq<u8>, policy: PathPolicy) -> Option<
    Seq<u8>,
> {
    match policy.case_sensitivity {
        PathCaseSensitivity::Sensitive => if has_prefix(path, prefix) {
            Some(suffix_from(path, prefix.len() as int))
        } else {
            None
        },
        PathCaseSensitivity::Insensitive => if prefix.len() > path.len() || !is_char_boundary(
            path,
            prefix.len() as int,
        ) {
            None
        } else if lowercase(decode_utf8(path.subrange(0, prefix.len() as int))) == lowercase(
            decode_utf8(prefix),
        ) {
            Some(suffix_from(path, prefix.len() as int))
        } else {
            None
        },
    }
}

/// `path` is `target` or lies under it: every absolute path lies under the
/// root, and otherwise what follows `target` in `path` begins with a
/// separator.
pub open spec fn spec_matches_or_contains(path: Seq<u8>, target: Seq<u8>, policy: PathPolicy) -> bool {
    let sb = char_bytes(policy.separator);
    let np = normalized(path, sb);
    let nt = normalized(target, sb);
    same_path(np, nt, policy) || if nt == sb {
        has_prefix(np, sb)
    } else {
        match strip_prefix_policy(np, nt, policy) {
            Some(rem) => has_prefix(rem, sb),
            None => false,
        }
    }
}

/// Last byte index at which the separator bytes occur in `b`, searching below `end`.
pub open spec fn rfind_from(b: Seq<u8>, sb: Seq<u8>, end: int) -> Option<int>
    decreases end,
{
    if end <= 0 {
        None
    } else if end - 1 + sb.len() <= b.len() && b.subrange(end - 1, end - 1 + sb.len()) == sb {
        Some(end - 1)
    } else {
        rfind_from(b, sb, end - 1)
    }
}

proof fn lemma_trim_end_sep_len(b: Seq<u8>, sb: Seq<u8>)
    ensures
        trim_end_sep(b, sb).len() <= b.len(),
    decreases b.len(),
{
    if sb.len() > 0 && has_suffix(b, sb) {
        lemma_trim_end_sep_len(b.subrange(0, b.len() - sb.len()), sb);
    }
}

proof fn lemma_rfind_from_range(b: Seq<u8>, sb: Seq<u8>, end: int)
    ensures
        rfind_from(b, sb, end) matches Some(i) ==> 0 <= i < end && i + sb.len() <= b.len()
            && b.subrange(i, i + sb.len()) == sb,
    decreases end,
{
    if end > 0 && !(end - 1 + sb.len() <= b.len() && b.subrange(end - 1, end - 1 + sb.len())
        == sb) {
        lemma_rfind_from_range(b, sb, end - 1);
    }
}

/// A parent path is strictly shorter than the path.
pub proof fn lemma_parent_shorter(path: Seq<u8>, policy: PathPolicy)
    ensures
        spec_parent(path, policy) matches Some(p) ==> p.len() < path.len(),
{
    let sb = char_bytes(policy.separator);
    lemma_char_bytes(policy.separator);
    lemma_trim_end_sep_len(path, sb);
    let n = trim_trailing(path, sb);
    assert(n.len() <= path.len());
    lemma_rfind_from_range(n, sb, n.len() as int);
    if n.len() > 0 && n != sb {
        if let Some(i) = rfind_from(n, sb, n.len() as int) {
            if i == 0 {
                if n.len() <= 1 {
                    assert(n.subrange(0, sb.len() as int) =~= n);
                }
            }
        }
    }
}

/// The parent of a path: everything before its last separator, the root when
/// that separator is the first byte, and nothing for roots and single segments.
pub open spec fn spec_parent(path: Seq<u8>, policy: PathPolicy) -> Option<Seq<u8>> {
    let sb = char_bytes(policy.separator);
    let n = trim_trailing(path, sb);
    if n.len() == 0 || n == sb {
        None
    } else {
        match rfind_from(n, sb, n.len() as int) {
            None => None,
            Some(i) => if i == 0 {
                Some(n.subrange(0, 1))
            } else {
                Some(n.subrange(0, i))
            },
        }
    }
}

/// `base` and `name` joined by one separator.
pub open spec fn spec_join(base: Seq<u8>, name: Seq<u8>, policy: PathPolicy) -> Seq<u8> {
    let sb = char_bytes(policy.separator);
    let nb = trim_trailing(base, sb);
    let nn = trim_start_sep(name, sb);
    if nb.len() == 0 {
        nn
    } else if nn.len() == 0 {
        nb
    } else if nb == sb {
        sb + nn
    } else {
        nb + sb + nn
    }
}

/// Where `path` lands when the subtree `source` is renamed to `target`.
pub open spec fn spec_remap(path: Seq<u8>, source: Seq<u8>, target: Seq<u8>, policy: PathPolicy) -> Option<
    Seq<u8>,
> {
    let sb = char_bytes(policy.separator);
    let np = normalized(path, sb);
    let ns = normalized(source, sb);
    let nt = normalized(target, sb);
    if same_path(np, ns, policy) {
        Some(nt)
    } else if ns == sb {
        if has_prefix(np, sb) {
            Some(spec_join(nt, trim_start_sep(np, sb), policy))
        } else {
            None
        }
    } else {
        match strip_prefix_policy(np, ns, policy) {
            None => None,
            Some(rem) => if !has_prefix(rem, sb) {
                None
            } else {
                Some(spec_join(nt, trim_start_sep(rem, sb), policy))
            },
        }
    }
}

/// The separator bytes `sb` occur in `b` at byte `i`.
pub open spec fn sep_at(b: Seq<u8>, sb: Seq<u8>, i: int) -> bool {
    0 <= i && i + sb.len() <= b.len() && b.subrange(i, i + sb.len()) == sb
}

proof fn lemma_rfind_from_last(b: Seq<u8>, sb: Seq<u8>, end: int)
    requires
        end <= b.len(),
    ensures
        rfind_from(b, sb, end) is None ==> forall|j: int| 0 <= j < end ==> !sep_at(b, sb, j),
        rfind_from(b, sb, end) matches Some(i) ==> sep_at(b, sb, i) && i < end && forall|j: int|
            i < j < end ==> !sep_at(b, sb, j),
    decreases end,
{
    lemma_rfind_from_range(b, sb, end);
    if end > 0 && !(end - 1 + sb.len() <= b.len() && b.subrange(end - 1, end - 1 + sb.len()) == sb) {
        lemma_rfind_from_last(b, sb, end - 1);
    }
}

/// The parent of a path, compared without its trailing separators: there is
/// one exactly when the path is neither empty nor the root and holds a
/// separator, and it is everything before the last separator, or the root
/// separator itself when that last separator opens the path.
pub proof fn lemma_parent_law(path: Seq<u8>, policy: PathPolicy)
    requires
        parent_path_defined(path, policy),
    ensures
        ({
            let sb = char_bytes(policy.separator);
            let n = trim_trailing(path, sb);
            &&& spec_parent(path, policy) is Some <==> (n.len() > 0 && n != sb && exists|i: int|
                #[trigger] sep_at(n, sb, i))
            &&& spec_parent(path, policy) matches Some(p) ==> exists|i: int|
                #![trigger sep_at(n, sb, i)]
                {
                    &&& sep_at(n, sb, i)
                    &&& forall|j: int| i < j ==> !sep_at(n, sb, j)
                    &&& (i > 0 ==> p == n.subrange(0, i))
                    &&& (i == 0 ==> p == sb)
                }
        }),
{
    let sb = char_bytes(policy.separator);
    let n = trim_trailing(path, sb);
    lemma_rfind_from_last(n, sb, n.len() as int);
    lemma_char_bytes(policy.separator);
    if n.len() > 0 && n != sb {
        match rfind_from(n, sb, n.len() as int) {
            Some(i) => {
                assert(sep_at(n, sb, i));
                assert forall|j: int| i < j implies !sep_at(n, sb, j) by {
                    if j < n.len() {
                    }
                }
                if i == 0 {
                    assert(sb.len() == 1);
                    assert(n.subrange(0, 1) =~= sb);
                }
            },
            None => {
                assert forall|j: int| !#[trigger] sep_at(n, sb, j) by {
                    if 0 <= j < n.len() {
                    }
                }
            },
        }
    }
}

/// Joining a single path segment onto a path and taking the parent gives
/// back the path (without its trailing separators): for a one-byte
/// separator, a non-empty base and a non-empty name without separators.
pub proof fn lemma_parent_of_join(base: Seq<u8>, name: Seq<u8>, policy: PathPolicy)
    requires
        char_bytes(policy.separator).len() == 1,
        trim_trailing(base, char_bytes(policy.separator)).len() > 0,
        trim_start_sep(name, char_bytes(policy.separator)).len() > 0,
        forall|j: int| !sep_at(trim_start_sep(name, char_bytes(policy.separator)), char_bytes(policy.separator), j),
    ensures
        spec_parent(spec_join(base, name, policy), policy) == Some(trim_trailing(base, char_bytes(policy.separator))),
{
    let sb = char_bytes(policy.separator);
    let nb = trim_trailing(base, sb);
    let nn = trim_start_sep(name, sb);
    let x = spec_join(base, name, policy);
    let at = if nb == sb { 0int } else { nb.len() as int };
    assert(x == (if nb == sb { sb + nn } else { nb + sb + nn }));
    assert(x.len() == at + 1 + nn.len());
    assert forall|j: int| at < j implies !sep_at(x, sb, j) by {
        if sep_at(x, sb, j) {
            assert(x[j] == sb[0]);
            assert(x[j] == nn[j - at - 1]);
            assert(nn.subrange(j - at - 1, j - at) =~= sb);
            assert(sep_at(nn, sb, j - at - 1));
        }
    }
    assert(x.subrange(at, at + 1) =~= sb) by {
        assert(x[at] == sb[0]);
    }
    assert(sep_at(x, sb, at));
    assert(!has_suffix(x, sb)) by {
        assert(!sep_at(x, sb, x.len() - 1));
    }
    assert(trim_end_sep(x, sb) == x);
    assert(trim_trailing(x, sb) == x);
    lemma_rfind_from_last(x, sb, x.len() as int);
    let i = rfind_from(x, sb, x.len() as int)->0;
    assert(i == at);
    assert(x != sb);
    if nb == sb {
        assert(x.subrange(0, 1) =~= sb);
    } else {
        assert(x.subrange(0, at) =~= nb);
    }
}

/// Every path matches itself, and a single segment joined onto a path lies
/// under that path (for a one-byte separator and case-sensitive comparison).
pub proof fn lemma_join_lies_under(base: Seq<u8>, name: Seq<u8>, policy: PathPolicy)
    requires
        char_bytes(policy.separator).len() == 1,
        policy.case_sensitivity == PathCaseSensitivity::Sensitive,
        trim_trailing(base, char_bytes(policy.separator)).len() > 0,
        trim_start_sep(name, char_bytes(policy.separator)).len() > 0,
        forall|j: int| !sep_at(trim_start_sep(name, char_bytes(policy.separator)), char_bytes(policy.separator), j),
    ensures
        spec_matches_or_contains(base, base, policy),
        spec_matches_or_contains(spec_join(base, name, policy), base, policy),
        !spec_matches_or_contains(base, spec_join(base, name, policy), policy),
{
    let sb = char_bytes(policy.separator);
    let nb = trim_trailing(base, sb);
    let nn = trim_start_sep(name, sb);
    let x = spec_join(base, name, policy);
    assert(x == (if nb == sb { sb + nn } else { nb + sb + nn }));
    let at = if nb == sb { 0int } else { nb.len() as int };
    assert(x[at] == sb[0]);
    assert(!has_suffix(x, sb)) by {
        assert(x[x.len() - 1] == nn[nn.len() - 1]);
        if has_suffix(x, sb) {
            assert(nn.subrange(nn.len() - 1, nn.len() as int) =~= sb);
            assert(sep_at(nn, sb, nn.len() - 1));
        }
    }
    assert(trim_end_sep(x, sb) == x);
    assert(normalized(x, sb) == x);
    assert(normalized(base, sb) == nb);
    if nb == sb {
        assert(x.subrange(0, 1) =~= sb);
    } else {
        assert(x.subrange(0, nb.len() as int) =~= nb);
        let rem = x.subrange(nb.len() as int, x.len() as int);
        assert(rem.subrange(0, 1) =~= sb);
    }
    assert(x.len() > nb.len());
}

/// A rename remaps exactly the paths that equal or lie under its source.
pub proof fn lemma_remap_iff_contains(path: Seq<u8>, source: Seq<u8>, target: Seq<u8>, policy: PathPolicy)
    ensures
        spec_remap(path, source, target, policy) is Some <==> spec_matches_or_contains(path, source, policy),
{
}

// ---------------------------------------------------------------------------
// Helpers
// ---------------------------------------------------------------------------

proof fn lemma_bytes_chars(s: &str)
    ensures
        decode_utf8(s.spec_bytes()) == s@,
{
    encode_utf8_decode_utf8(s@);
}

fn trim_trailing_seps<'a>(path: &'a str, separator: char, sb: &[u8]) -> (r: &'a str)
    requires
        sb@ == char_bytes(separator),
    ensures
        r.spec_bytes() == trim_end_sep(path.spec_bytes(), sb@),
{
    let b = path.as_bytes();
    let mut end = b.len();
    proof {
        lemma_str_valid(path);
        lemma_char_bytes(separator);
        assert(b@.subrange(0, end as int) =~= b@);
    }
    while ends_with_at(b, end, sb)
        invariant
            b@ == path.spec_bytes(),
            sb@ == char_bytes(separator),
            sb@.len() >= 1,
            valid_utf8(b@),
            end <= b@.len(),
            is_char_boundary(b@, end as int),
            trim_end_sep(b@.subrange(0, end as int), sb@) == trim_end_sep(b@, sb@),
        decreases end,
    {
        proof {
            let pre = b@.subrange(0, end as int);
            valid_utf8_split(b@, end as int);
            lemma_suffix_char_boundary(pre, separator);
            lemma_boundary_from_prefix(b@, end as int, end - sb@.len());
            assert(pre.subrange(0, pre.len() - sb@.len()) =~= b@.subrange(0, end - sb@.len()));
        }
        end = end - sb.len();
    }
    substr(path, 0, end)
}

fn trim_leading_separators<'a>(path: &'a str, separator: char, sb: &[u8]) -> (r: &'a str)
    requires
        sb@ == char_bytes(separator),
    ensures
        r.spec_bytes() == trim_start_sep(path.spec_bytes(), sb@),
{
    let b = path.as_bytes();
    let mut start: usize = 0;
    proof {
        lemma_str_valid(path);
        lemma_char_bytes(separator);
        assert(suffix_from(b@, 0) =~= b@);
    }
    while starts_with_at(b, start, sb)
        invariant
            b@ == path.spec_bytes(),
            sb@ == char_bytes(separator),
            sb@.len() >= 1,
            valid_utf8(b@),
            start <= b@.len(),
            b@.len() == b.len(),
            sb@.len() == sb.len(),
            is_char_boundary(b@, start as int),
            trim_start_sep(suffix_from(b@, start as int), sb@) == trim_start_sep(b@, sb@),
        decreases b@.len() - start,
    {
        proof {
            let suf = suffix_from(b@, start as int);
            valid_utf8_split(b@, start as int);
            assert(start + sb@.len() <= b@.len());
            lemma_prefix_char_boundary(suf, separator);
            lemma_boundary_from_suffix(b@, start as int, start + sb@.len());
            assert(suf.subrange(sb@.len() as int, suf.len() as int) =~= suffix_from(
                b@,
                start + sb@.len(),
            ));
        }
        start = start + sb.len();
    }
    substr(path, start, b.len())
}

fn root_slice<'a>(path: &'a str, separator: char, sb: &[u8]) -> (r: &'a str)
    requires
        sb@ == char_bytes(separator),
    ensures
        r.spec_bytes() == root_of(path.spec_bytes(), sb@),
{
    let b = path.as_bytes();
    proof {
        lemma_str_valid(path);
    }
    if starts_with_bytes(b, sb) {
        proof {
            lemma_prefix_char_boundary(b@, separator);
        }
        substr(path, 0, sb.len())
    } else {
        let r = substr(path, 0, 0);
        assert(r.spec_bytes() =~= Seq::<u8>::empty());
        r
    }
}

fn trim_trailing_separators<'a>(path: &'a str, separator: char, sb: &[u8]) -> (r: &'a str)
    requires
        sb@ == char_bytes(separator),
    ensures
        r.spec_bytes() == trim_trailing(path.spec_bytes(), sb@),
{
    if path.as_bytes().len() == 0 {
        return path;
    }
    let trimmed = trim_trailing_seps(path, separator, sb);
    if trimmed.as_bytes().len() == 0 && starts_with_bytes(path.as_bytes(), sb) {
        root_slice(path, separator, sb)
    } else {
        trimmed
    }
}

fn normalized_for_compare<'a>(path: &'a str, separator: char, sb: &[u8]) -> (r: &'a str)
    requires
        sb@ == char_bytes(separator),
    ensures
        r.spec_bytes() == normalized(path.spec_bytes(), sb@),
{
    let trimmed = trim_trailing_separators(path, separator, sb);
    if trimmed.as_bytes().len() == 0 && starts_with_bytes(path.as_bytes(), sb) {
        root_slice(path, separator, sb)
    } else {
        trimmed
    }
}

fn compare_with_policy(left: &str, right: &str, policy: &PathPolicy) -> (r: bool)
    ensures
        r == same_path(left.spec_bytes(), right.spec_bytes(), *policy),
{
    match policy.case_sensitivity {
        PathCaseSensitivity::Sensitive => bytes_eq(left.as_bytes(), right.as_bytes()),
        PathCaseSensitivity::Insensitive => {
            proof {
                lemma_bytes_chars(left);
                lemma_bytes_chars(right);
            }
            let l = to_lowercase(left);
            let r = to_lowercase(right);
            l == r
        },
    }
}

fn strip_prefix_with_policy<'a>(path: &'a str, prefix: &str, policy: &PathPolicy) -> (r: Option<
    &'a str,
>)
    ensures
        match strip_prefix_policy(path.spec_bytes(), prefix.spec_bytes(), *policy) {
            Some(rem) => r matches Some(s) && s.spec_bytes() == rem,
            None => r is None,
        },
{
    let b = path.as_bytes();
    let p = prefix.as_bytes();
    proof {
        lemma_str_valid(path);
        lemma_str_valid(prefix);
    }
    match policy.case_sensitivity {
        PathCaseSensitivity::Sensitive => {
            if starts_with_bytes(b, p) {
                proof {
                    assert(b@.subrange(0, p@.len() as int) == p@);
                    lemma_valid_prefix_boundary(b@, p@.len() as int);
                }
                Some(substr(path, p.len(), b.len()))
            } else {
                None
            }
        },
        PathCaseSensitivity::Insensitive => {
            let prefix_len = p.len();
            if prefix_len > b.len() {
                return None;
            }
            if !path.is_char_boundary(prefix_len) {
                return None;
            }
            let head = substr(path, 0, prefix_len);
            proof {
                lemma_bytes_chars(head);
                lemma_bytes_chars(prefix);
            }
            let lh = to_lowercase(head);
            let lp = to_lowercase(prefix);
            if lh == lp {
                Some(substr(path, prefix_len, b.len()))
            } else {
                None
            }
        },
    }
}

fn separator_string(separator: char) -> (r: String)
    ensures
        bytes_of(r@) == char_bytes(separator),
        r@ == seq![separator],
{
    char_string(separator)
}

/// Return whether `path` is equal to `target` or lies under `target`.
pub fn path_matches_or_contains(path: &str, target: &str, policy: &PathPolicy) -> (r: bool)
    ensures
        r == spec_matches_or_contains(path.spec_bytes(), target.spec_bytes(), *policy),
{
    let sep = separator_string(policy.separator);
    let sb = sep.as_str().as_bytes();
    let normalized_path = normalized_for_compare(path, policy.separator, sb);
    let normalized_target = normalized_for_compare(target, policy.separator, sb);
    if compare_with_policy(normalized_path, normalized_target, policy) {
        return true;
    }
    if bytes_eq(normalized_target.as_bytes(), sb) {
        return starts_with_bytes(normalized_path.as_bytes(), sb);
    }
    match strip_prefix_with_policy(normalized_path, normalized_target, policy) {
        Some(remainder) => starts_with_bytes(remainder.as_bytes(), sb),
        None => false,
    }
}

fn rfind_separator(b: &[u8], sb: &[u8]) -> (r: Option<usize>)
    ensures
        match rfind_from(b@, sb@, b@.len() as int) {
            Some(i) => r == Some(i as usize) && 0 <= i < b@.len() && i + sb@.len() <= b@.len()
                && b@.subrange(i, i + sb@.len()) == sb@,
            None => r is None,
        },
{
    let mut end = b.len();
    while end > 0
        invariant
            end <= b@.len(),
            b@.len() == b.len(),
            rfind_from(b@, sb@, b@.len() as int) == rfind_from(b@, sb@, end as int),
        decreases end,
    {
        if starts_with_at(b, end - 1, sb) {
            assert(suffix_from(b@, end - 1).subrange(0, sb@.len() as int) =~= b@.subrange(
                end - 1,
                end - 1 + sb@.len(),
            ));
            return Some(end - 1);
        }
        proof {
            if end - 1 + sb@.len() <= b@.len() {
                assert(suffix_from(b@, end - 1).subrange(0, sb@.len() as int) =~= b@.subrange(
                    end - 1,
                    end - 1 + sb@.len(),
                ));
            }
        }
        end = end - 1;
    }
    None
}

/// The slicing that `parent_path` performs stays on character boundaries: a
/// parent that is the root is one byte long only for one-byte separators.
pub open spec fn parent_path_defined(path: Seq<u8>, policy: PathPolicy) -> bool {
    let sb = char_bytes(policy.separator);
    let n = trim_trailing(path, sb);
    n.len() == 0 || n == sb || rfind_from(n, sb, n.len() as int) != Some(0int) || sb.len() == 1
}

/// Return the direct parent slice when one exists under the given policy.
pub fn parent_path<'a>(path: &'a str, policy: &PathPolicy) -> (r: Option<&'a str>)
    requires
        parent_path_defined(path.spec_bytes(), *policy),
    ensures
        match spec_parent(path.spec_bytes(), *policy) {
            Some(p) => r matches Some(s) && s.spec_bytes() == p,
            None => r is None,
        },
{
    let sep = separator_string(policy.separator);
    let sb = sep.as_str().as_bytes();
    let normalized = trim_trailing_separators(path, policy.separator, sb);
    let nb = normalized.as_bytes();
    if nb.len() == 0 {
        return None;
    }
    if bytes_eq(nb, sb) {
        return None;
    }
    let last_index = match rfind_separator(nb, sb) {
        Some(i) => i,
        None => {
            return None;
        },
    };
    proof {
        lemma_str_valid(normalized);
        lemma_char_bytes(policy.separator);
    }
    if last_index == 0 {
        proof {
            assert(nb@.subrange(0, sb@.len() as int) =~= sb@);
            lemma_prefix_char_boundary(nb@, policy.separator);
        }
        return Some(substr(normalized, 0, 1));
    }
    proof {
        let t = nb@.subrange(last_index as int, nb@.len() as int);
        vstd::utf8::valid_utf8_split(nb@, 0);
        assert(t.subrange(0, sb@.len() as int) =~= sb@);
        assert(t[0] == sb@[0]);
        vstd::utf8::is_char_boundary_iff_not_is_continuation_byte(nb@, last_index as int);
    }
    Some(substr(normalized, 0, last_index))
}

/// Join `base` and `name` using the policy separator.
pub fn join_path(base: &str, name: &str, policy: &PathPolicy) -> (r: String)
    ensures
        bytes_of(r@) == spec_join(base.spec_bytes(), name.spec_bytes(), *policy),
{
    let sep = separator_string(policy.separator);
    let sb = sep.as_str().as_bytes();
    let normalized_base = trim_trailing_separators(base, policy.separator, sb);
    let normalized_name = trim_leading_separators(name, policy.separator, sb);
    if normalized_base.as_bytes().len() == 0 {
        let mut out = empty_string();
        push_str(&mut out, normalized_name);
        assert(bytes_of(out@) =~= normalized_name.spec_bytes());
        return out;
    }
    if normalized_name.as_bytes().len() == 0 {
        let mut out = empty_string();
        push_str(&mut out, normalized_base);
        assert(bytes_of(out@) =~= normalized_base.spec_bytes());
        return out;
    }
    let mut out = empty_string();
    if bytes_eq(normalized_base.as_bytes(), sb) {
        push_str(&mut out, sep.as_str());
        push_str(&mut out, normalized_name);
        assert(bytes_of(out@) =~= sb@ + normalized_name.spec_bytes());
        return out;
    }
    push_str(&mut out, normalized_base);
    push_str(&mut out, sep.as_str());
    push_str(&mut out, normalized_name);
    assert(bytes_of(out@) =~= normalized_base.spec_bytes() + sb@ + normalized_name.spec_bytes());
    out
}

/// Remap `path` from the renamed `source` subtree into `target`.
pub fn remap_path_for_rename(path: &str, source: &str, target: &str, policy: &PathPolicy) -> (r:
    Option<String>)
    ensures
        match spec_remap(path.spec_bytes(), source.spec_bytes(), target.spec_bytes(), *policy) {
            Some(p) => r matches Some(s) && bytes_of(s@) == p,
            None => r is None,
        },
{
    let sep = separator_string(policy.separator);
    let sb = sep.as_str().as_bytes();
    let normalized_path = normalized_for_compare(path, policy.separator, sb);
    let normalized_source = normalized_for_compare(source, policy.separator, sb);
    let normalized_target = normalized_for_compare(target, policy.separator, sb);
    if compare_with_policy(normalized_path, normalized_source, policy) {
        let mut out = empty_string();
        push_str(&mut out, normalized_target);
        assert(bytes_of(out@) =~= normalized_target.spec_bytes());
        return Some(out);
    }
    if bytes_eq(normalized_source.as_bytes(), sb) {
        if starts_with_bytes(normalized_path.as_bytes(), sb) {
            let stripped = trim_leading_separators(normalized_path, policy.separator, sb);
            return Some(join_path(normalized_target, stripped, policy));
        }
        return None;
    }
    let remainder = match strip_prefix_with_policy(normalized_path, normalized_source, policy) {
        Some(rem) => rem,
        None => {
            return None;
        },
    };
    if !starts_with_bytes(remainder.as_bytes(), sb) {
        return None;
    }
    let stripped_remainder = trim_leading_separators(remainder, policy.separator, sb);
    Some(join_path(normalized_target, stripped_remainder, policy))
}

} // verus!

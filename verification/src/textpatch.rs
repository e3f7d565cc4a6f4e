//! Deterministic byte-range text patches and small named-block rewriting.

use vstd::prelude::*;
use vstd::string::StringSliceAdditionalSpecFns;
use vstd::utf8::*;
use crate::strutil::{decimal, str_debug, debug_str, push_chars, push_decimal, lemma_ascii_char_bytes, bytes_eq, lemma_ascii_boundary, lemma_ws_char_boundary, lemma_find_from_range, find_bytes, find_from, whitespace_len_at, ws_len, bytes_of, empty_string, lemma_boundary_in_prefix, lemma_boundary_in_suffix, lemma_str_valid, push_str, substr};

verus! {

/// One validated byte-range replacement.
#[derive(Debug, PartialEq, Eq)]
pub struct TextPatch {
    start: usize,
    end: usize,
    replacement: String,
}

/// Two patches whose ranges overlap.
#[derive(Debug, Clone, PartialEq, Eq)]
pub struct PatchConflict {
    pub first_index: usize,
    pub second_index: usize,
    pub first_start: usize,
    pub first_end: usize,
    pub second_start: usize,
    pub second_end: usize,
}

/// Errors returned by patch validation, application and block rewriting.
#[derive(Debug, Clone, PartialEq, Eq)]
pub enum TextPatchError {
    InvalidRange { start: usize, end: usize },
    OffsetOutOfBounds { offset: usize, len: usize },
    InvalidUtf8Boundary { offset: usize },
    Conflict(PatchConflict),
    BlockNotFound { block_name: String },
    UnclosedBlock { block_name: String },
    AmbiguousEntry { block_name: String, key: String },
}

/// The text of a patch error as its derived `Debug` gives it: the variant,
/// then its fields by name (numbers in decimal, strings as `Debug` renders
/// them).
pub open spec fn spec_debug_text(e: TextPatchError) -> Seq<char> {
    match e {
        TextPatchError::InvalidRange { start, end } => "InvalidRange { start: "@ + decimal(
            start as nat,
        ) + ", end: "@ + decimal(end as nat) + " }"@,
        TextPatchError::OffsetOutOfBounds { offset, len } => "OffsetOutOfBounds { offset: "@
            + decimal(offset as nat) + ", len: "@ + decimal(len as nat) + " }"@,
        TextPatchError::InvalidUtf8Boundary { offset } => "InvalidUtf8Boundary { offset: "@
            + decimal(offset as nat) + " }"@,
        TextPatchError::Conflict(c) => "Conflict(PatchConflict { first_index: "@ + decimal(
            c.first_index as nat,
        ) + ", second_index: "@ + decimal(c.second_index as nat) + ", first_start: "@ + decimal(
            c.first_start as nat,
        ) + ", first_end: "@ + decimal(c.first_end as nat) + ", second_start: "@ + decimal(
            c.second_start as nat,
        ) + ", second_end: "@ + decimal(c.second_end as nat) + " })"@,
        TextPatchError::BlockNotFound { block_name } => "BlockNotFound { block_name: "@ + str_debug(
            block_name@,
        ) + " }"@,
        TextPatchError::UnclosedBlock { block_name } => "UnclosedBlock { block_name: "@ + str_debug(
            block_name@,
        ) + " }"@,
        TextPatchError::AmbiguousEntry { block_name, key } => "AmbiguousEntry { block_name: "@
            + str_debug(block_name@) + ", key: "@ + str_debug(key@) + " }"@,
    }
}

fn push_usize(out: &mut String, n: usize)
    ensures
        final(out)@ == old(out)@ + decimal(n as nat),
{
    push_decimal(out, n as u64);
}

fn push_debug_str(out: &mut String, s: &String)
    ensures
        final(out)@ == old(out)@ + str_debug(s@),
{
    let d = debug_str(s.as_str());
    push_chars(out, d.as_str());
}

impl TextPatchError {
    /// The error as its derived `Debug` renders it, such as
    /// `InvalidRange { start: 5, end: 2 }`.
    pub fn debug_text(&self) -> (r: String)
        ensures
            r@ == spec_debug_text(*self),
    {
        let mut out = String::new();
        match self {
            TextPatchError::InvalidRange { start, end } => {
                push_chars(&mut out, "InvalidRange { start: ");
                push_usize(&mut out, *start);
                push_chars(&mut out, ", end: ");
                push_usize(&mut out, *end);
                push_chars(&mut out, " }");
            },
            TextPatchError::OffsetOutOfBounds { offset, len } => {
                push_chars(&mut out, "OffsetOutOfBounds { offset: ");
                push_usize(&mut out, *offset);
                push_chars(&mut out, ", len: ");
                push_usize(&mut out, *len);
                push_chars(&mut out, " }");
            },
            TextPatchError::InvalidUtf8Boundary { offset } => {
                push_chars(&mut out, "InvalidUtf8Boundary { offset: ");
                push_usize(&mut out, *offset);
                push_chars(&mut out, " }");
            },
            TextPatchError::Conflict(c) => {
                push_chars(&mut out, "Conflict(PatchConflict { first_index: ");
                push_usize(&mut out, c.first_index);
                push_chars(&mut out, ", second_index: ");
                push_usize(&mut out, c.second_index);
                push_chars(&mut out, ", first_start: ");
                push_usize(&mut out, c.first_start);
                push_chars(&mut out, ", first_end: ");
                push_usize(&mut out, c.first_end);
                push_chars(&mut out, ", second_start: ");
                push_usize(&mut out, c.second_start);
                push_chars(&mut out, ", second_end: ");
                push_usize(&mut out, c.second_end);
                push_chars(&mut out, " })");
            },
            TextPatchError::BlockNotFound { block_name } => {
                push_chars(&mut out, "BlockNotFound { block_name: ");
                push_debug_str(&mut out, block_name);
                push_chars(&mut out, " }");
            },
            TextPatchError::UnclosedBlock { block_name } => {
                push_chars(&mut out, "UnclosedBlock { block_name: ");
                push_debug_str(&mut out, block_name);
                push_chars(&mut out, " }");
            },
            TextPatchError::AmbiguousEntry { block_name, key } => {
                push_chars(&mut out, "AmbiguousEntry { block_name: ");
                push_debug_str(&mut out, block_name);
                push_chars(&mut out, ", key: ");
                push_debug_str(&mut out, key);
                push_chars(&mut out, " }");
            },
        }
        out
    }
}

/// Byte offsets of a named brace block: its name, the byte after `{`, and one past `}`.
#[derive(Debug, Clone, Copy, PartialEq, Eq)]
pub struct BlockRange {
    pub start: usize,
    pub content_start: usize,
    pub end: usize,
}

/// A keyed entry to merge into a block.
#[derive(Debug, Clone, Copy, PartialEq, Eq)]
pub struct KnownEntry<'a> {
    pub key: &'a str,
    pub replacement: &'a str,
}

/// Abstract value of a patch: its byte range and the characters put in its place.
pub struct PatchView {
    pub start: usize,
    pub end: usize,
    pub replacement: Seq<char>,
}

impl PatchView {
    /// Bytes of the replacement text.
    pub open spec fn replacement_bytes(self) -> Seq<u8> {
        bytes_of(self.replacement)
    }

    pub open spec fn is_insert(self) -> bool {
        self.start == self.end
    }
}

impl View for TextPatch {
    type V = PatchView;

    closed spec fn view(&self) -> PatchView {
        PatchView { start: self.start, end: self.end, replacement: self.replacement@ }
    }
}

/// Abstract values of a sequence of patches.
pub open spec fn patch_views(ps: Seq<TextPatch>) -> Seq<PatchView> {
    ps.map_values(|p: TextPatch| p@)
}

impl TextPatch {
    pub open spec fn spec_start(self) -> usize {
        self@.start
    }

    pub open spec fn spec_end(self) -> usize {
        self@.end
    }

    /// Characters of the replacement text.
    pub open spec fn spec_replacement(self) -> Seq<char> {
        self@.replacement
    }

    pub open spec fn is_insert_spec(self) -> bool {
        self@.is_insert()
    }

    pub fn new(start: usize, end: usize, replacement: &str) -> (r: Result<Self, TextPatchError>)
        ensures
            start <= end <==> r is Ok,
            r matches Ok(p) ==> p.spec_start() == start && p.spec_end() == end
                && p.spec_replacement() == replacement@,
            r matches Err(e) ==> e == (TextPatchError::InvalidRange { start, end }),
    {
        if start > end {
            return Err(TextPatchError::InvalidRange { start, end });
        }
        Ok(Self { start, end, replacement: replacement.to_owned() })
    }

    pub fn insert(offset: usize, replacement: &str) -> (p: Self)
        ensures
            p.spec_start() == offset,
            p.spec_end() == offset,
            p.spec_replacement() == replacement@,
    {
        Self { start: offset, end: offset, replacement: replacement.to_owned() }
    }

    pub fn delete(start: usize, end: usize) -> (r: Result<Self, TextPatchError>)
        ensures
            start <= end <==> r is Ok,
            r matches Ok(p) ==> p.spec_start() == start && p.spec_end() == end
                && p.spec_replacement() == Seq::<char>::empty(),
            r matches Err(e) ==> e == (TextPatchError::InvalidRange { start, end }),
    {
        if start > end {
            return Err(TextPatchError::InvalidRange { start, end });
        }
        Ok(Self { start, end, replacement: String::new() })
    }

    pub fn replace(start: usize, end: usize, replacement: &str) -> (r: Result<
        Self,
        TextPatchError,
    >)
        ensures
            start <= end <==> r is Ok,
            r matches Ok(p) ==> p.spec_start() == start && p.spec_end() == end
                && p.spec_replacement() == replacement@,
            r matches Err(e) ==> e == (TextPatchError::InvalidRange { start, end }),
    {
        Self::new(start, end, replacement)
    }

    /// A patch never ends before it starts.
    #[verifier::type_invariant]
    closed spec fn inv(self) -> bool {
        self.start <= self.end
    }

    pub fn start(&self) -> (r: usize)
        ensures
            r == self.spec_start(),
            r <= self.spec_end(),
    {
        proof {
            use_type_invariant(self);
        }
        self.start
    }

    pub fn end(&self) -> (r: usize)
        ensures
            r == self.spec_end(),
    {
        self.end
    }

    pub fn replacement(&self) -> (r: &str)
        ensures
            r@ == self.spec_replacement(),
    {
        self.replacement.as_str()
    }

    fn is_insert(&self) -> (r: bool)
        ensures
            r == self.is_insert_spec(),
    {
        self.start == self.end
    }
}

impl Clone for TextPatch {
    fn clone(&self) -> (r: Self)
        ensures
            r.spec_start() == self.spec_start(),
            r.spec_end() == self.spec_end(),
            r.spec_replacement() == self.spec_replacement(),
    {
        proof {
            use_type_invariant(self);
        }
        TextPatch { start: self.start, end: self.end, replacement: self.replacement.clone() }
    }
}

// ---------------------------------------------------------------------------
// Ordering of patches
// ---------------------------------------------------------------------------

/// Patch `i` comes before patch `j`: by start, non-empty ranges before inserts
/// at the same start, then by end, then by position in the input.
pub open spec fn key_lt(ps: Seq<PatchView>, i: int, j: int) -> bool {
    let a = ps[i];
    let b = ps[j];
    ||| a.start < b.start
    ||| a.start == b.start && !a.is_insert() && b.is_insert()
    ||| a.start == b.start && a.is_insert() == b.is_insert()
        && a.end < b.end
    ||| a.start == b.start && a.is_insert() == b.is_insert()
        && a.end == b.end && i < j
}

/// `o` lists every patch index exactly once, in `key_lt` order.
pub open spec fn is_patch_order(ps: Seq<PatchView>, o: Seq<int>) -> bool {
    &&& o.len() == ps.len()
    &&& forall|x: int| 0 <= x < o.len() ==> 0 <= #[trigger] o[x] < ps.len()
    &&& forall|i: int| 0 <= i < ps.len() ==> #[trigger] o.contains(i)
    &&& forall|x: int, y: int| 0 <= x < y < o.len() ==> key_lt(ps, #[trigger] o[x], #[trigger] o[y])
}

/// The patch indices in processing order.
pub open spec fn patch_order(ps: Seq<PatchView>) -> Seq<int> {
    choose|o: Seq<int>| is_patch_order(ps, o)
}

proof fn lemma_order_prefix_eq(ps: Seq<PatchView>, o1: Seq<int>, o2: Seq<int>, x: int)
    requires
        is_patch_order(ps, o1),
        is_patch_order(ps, o2),
        0 <= x < o1.len(),
    ensures
        forall|y: int| 0 <= y <= x ==> o1[y] == o2[y],
    decreases x,
{
    if x > 0 {
        lemma_order_prefix_eq(ps, o1, o2, x - 1);
    }
    let a = o1[x];
    assert(o2.contains(a));
    let k = choose|k: int| 0 <= k < o2.len() && o2[k] == a;
    if k < x {
        assert(o1[k] == o2[k]);
        assert(key_lt(ps, o1[k], o1[x]));
    } else if k > x {
        let b = o2[x];
        assert(o1.contains(b));
        let m = choose|m: int| 0 <= m < o1.len() && o1[m] == b;
        assert(key_lt(ps, o2[x], o2[k]));
        if m < x {
            assert(o1[m] == o2[m]);
            assert(key_lt(ps, o2[m], o2[x]));
        } else if m > x {
            assert(key_lt(ps, o1[x], o1[m]));
        }
    }
}

/// There is at most one processing order.
pub proof fn lemma_order_unique(ps: Seq<PatchView>, o1: Seq<int>, o2: Seq<int>)
    requires
        is_patch_order(ps, o1),
        is_patch_order(ps, o2),
    ensures
        o1 == o2,
{
    if o1.len() > 0 {
        lemma_order_prefix_eq(ps, o1, o2, o1.len() - 1);
    }
    assert(o1 =~= o2);
}

fn key_less(patches: &[TextPatch], i: usize, j: usize) -> (r: bool)
    requires
        i < patches@.len(),
        j < patches@.len(),
    ensures
        r == key_lt(patch_views(patches@), i as int, j as int),
{
    let a = &patches[i];
    let b = &patches[j];
    if a.start != b.start {
        return a.start < b.start;
    }
    let ai = a.is_insert();
    let bi = b.is_insert();
    if ai != bi {
        return !ai;
    }
    if a.end != b.end {
        return a.end < b.end;
    }
    i < j
}

spec fn as_ints(v: Seq<usize>) -> Seq<int> {
    v.map_values(|x: usize| x as int)
}

/// `j` inserted into `o` before the first index it comes before.
spec fn insert_index(ps: Seq<PatchView>, o: Seq<int>, j: int) -> Seq<int>
    decreases o.len(),
{
    if o.len() == 0 {
        seq![j]
    } else if key_lt(ps, j, o[0]) {
        seq![j] + o
    } else {
        seq![o[0]] + insert_index(ps, o.drop_first(), j)
    }
}

/// The indices `0..n` sorted by insertion.
spec fn insertion_order(ps: Seq<PatchView>, n: int) -> Seq<int>
    decreases n,
{
    if n <= 0 {
        Seq::empty()
    } else {
        insert_index(ps, insertion_order(ps, n - 1), n - 1)
    }
}

/// `o` lists the indices `0..n` once each, in `key_lt` order.
spec fn sorted_prefix(ps: Seq<PatchView>, o: Seq<int>, n: int) -> bool {
    &&& o.len() == n
    &&& forall|x: int| 0 <= x < o.len() ==> 0 <= #[trigger] o[x] < n
    &&& forall|i: int| 0 <= i < n ==> #[trigger] o.contains(i)
    &&& forall|x: int, y: int| 0 <= x < y < o.len() ==> key_lt(ps, #[trigger] o[x], #[trigger] o[y])
}

proof fn lemma_key_lt_order(ps: Seq<PatchView>, i: int, j: int, k: int)
    ensures
        i != j ==> key_lt(ps, i, j) || key_lt(ps, j, i),
        !(key_lt(ps, i, j) && key_lt(ps, j, i)),
        key_lt(ps, i, j) && key_lt(ps, j, k) ==> key_lt(ps, i, k),
        !key_lt(ps, i, i),
{
}

proof fn lemma_insert_index(ps: Seq<PatchView>, o: Seq<int>, j: int, n: int)
    requires
        forall|x: int, y: int| 0 <= x < y < o.len() ==> key_lt(ps, #[trigger] o[x], #[trigger] o[y]),
        forall|x: int| 0 <= x < o.len() ==> #[trigger] o[x] != j,
    ensures
        insert_index(ps, o, j).len() == o.len() + 1,
        forall|x: int, y: int|
            0 <= x < y < insert_index(ps, o, j).len() ==> key_lt(
                ps,
                #[trigger] insert_index(ps, o, j)[x],
                #[trigger] insert_index(ps, o, j)[y],
            ),
        forall|v: int| #[trigger] insert_index(ps, o, j).contains(v) <==> (v == j || o.contains(v)),
    decreases o.len(),
{
    let r = insert_index(ps, o, j);
    if o.len() == 0 {
        assert(r =~= seq![j]);
        assert forall|v: int| #[trigger] r.contains(v) <==> (v == j || o.contains(v)) by {
            if v == j {
                assert(r[0] == j);
            }
        }
    } else if key_lt(ps, j, o[0]) {
        assert forall|x: int, y: int| 0 <= x < y < r.len() implies key_lt(ps, #[trigger] r[x], #[trigger] r[y]) by {
            if x == 0 {
                assert(r[y] == o[y - 1]);
                if y > 1 {
                    assert(key_lt(ps, o[0], o[y - 1]));
                    lemma_key_lt_order(ps, j, o[0], o[y - 1]);
                }
            } else {
                assert(r[x] == o[x - 1] && r[y] == o[y - 1]);
            }
        }
        assert forall|v: int| #[trigger] r.contains(v) <==> (v == j || o.contains(v)) by {
            if v == j {
                assert(r[0] == j);
            }
            if o.contains(v) {
                let x = choose|x: int| 0 <= x < o.len() && o[x] == v;
                assert(r[x + 1] == v);
            }
            if r.contains(v) {
                let x = choose|x: int| 0 <= x < r.len() && r[x] == v;
                if x > 0 {
                    assert(o[x - 1] == v);
                }
            }
        }
    } else {
        let t = o.drop_first();
        assert forall|x: int, y: int| 0 <= x < y < t.len() implies key_lt(ps, #[trigger] t[x], #[trigger] t[y]) by {
            assert(t[x] == o[x + 1] && t[y] == o[y + 1]);
        }
        assert forall|x: int| 0 <= x < t.len() implies #[trigger] t[x] != j by {
            assert(t[x] == o[x + 1]);
        }
        lemma_insert_index(ps, t, j, n);
        let it = insert_index(ps, t, j);
        assert(r == seq![o[0]] + it);
        assert(o[0] != j);
        lemma_key_lt_order(ps, j, o[0], o[0]);
        assert(key_lt(ps, o[0], j));
        assert forall|x: int, y: int| 0 <= x < y < r.len() implies key_lt(ps, #[trigger] r[x], #[trigger] r[y]) by {
            if x == 0 {
                assert(r[y] == it[y - 1]);
                assert(it.contains(it[y - 1]));
                if it[y - 1] != j {
                    assert(t.contains(it[y - 1]));
                    let z = choose|z: int| 0 <= z < t.len() && t[z] == it[y - 1];
                    assert(o[z + 1] == it[y - 1]);
                }
            } else {
                assert(r[x] == it[x - 1] && r[y] == it[y - 1]);
            }
        }
        assert forall|v: int| #[trigger] r.contains(v) <==> (v == j || o.contains(v)) by {
            if r.contains(v) {
                let x = choose|x: int| 0 <= x < r.len() && r[x] == v;
                if x == 0 {
                    assert(o[0] == v);
                } else {
                    assert(it[x - 1] == v);
                    assert(it.contains(v));
                    if v != j {
                        assert(t.contains(v));
                        let z = choose|z: int| 0 <= z < t.len() && t[z] == v;
                        assert(o[z + 1] == v);
                    }
                }
            }
            if v == j || o.contains(v) {
                if v == j {
                    assert(it.contains(v));
                } else {
                    let x = choose|x: int| 0 <= x < o.len() && o[x] == v;
                    if x == 0 {
                        assert(r[0] == v);
                    } else {
                        assert(t[x - 1] == v);
                        assert(t.contains(v));
                        assert(it.contains(v));
                    }
                }
                if it.contains(v) {
                    let z = choose|z: int| 0 <= z < it.len() && it[z] == v;
                    assert(r[z + 1] == v);
                }
            }
        }
    }
}

proof fn lemma_insertion_order(ps: Seq<PatchView>, n: int)
    requires
        0 <= n,
    ensures
        sorted_prefix(ps, insertion_order(ps, n), n),
    decreases n,
{
    if n > 0 {
        let o = insertion_order(ps, n - 1);
        lemma_insertion_order(ps, n - 1);
        assert forall|x: int| 0 <= x < o.len() implies #[trigger] o[x] != n - 1 by {}
        lemma_insert_index(ps, o, n - 1, n);
        let r = insertion_order(ps, n);
        assert forall|x: int| 0 <= x < r.len() implies 0 <= #[trigger] r[x] < n by {
            assert(r.contains(r[x]));
            if r[x] != n - 1 {
                assert(o.contains(r[x]));
                let z = choose|z: int| 0 <= z < o.len() && o[z] == r[x];
            }
        }
        assert forall|i: int| 0 <= i < n implies #[trigger] r.contains(i) by {
            if i < n - 1 {
                assert(o.contains(i));
            }
        }
    }
}

/// Every set of patches has a processing order.
pub proof fn lemma_patch_order_exists(ps: Seq<PatchView>)
    ensures
        is_patch_order(ps, patch_order(ps)),
{
    lemma_insertion_order(ps, ps.len() as int);
    assert(is_patch_order(ps, insertion_order(ps, ps.len() as int)));
}

/// Sorts the patch indices into processing order.
fn sorted_patch_order(patches: &[TextPatch]) -> (o: Vec<usize>)
    ensures
        is_patch_order(patch_views(patches@), as_ints(o@)),
        as_ints(o@) == patch_order(patch_views(patches@)),
{
    let n = patches.len();
    let mut o: Vec<usize> = Vec::new();
    let mut i: usize = 0;
    while i < n
        invariant
            n == patches@.len(),
            0 <= i <= n,
            o@.len() == i,
            forall|x: int| 0 <= x < o@.len() ==> #[trigger] o@[x] < i,
            forall|j: int| 0 <= j < i ==> #[trigger] as_ints(o@).contains(j),
            forall|x: int, y: int|
                0 <= x < y < o@.len() ==> key_lt(patch_views(patches@), #[trigger] o@[x] as int, #[trigger] o@[y] as int),
        decreases n - i,
    {
        let mut pos = o.len();
        while pos > 0 && key_less(patches, i, o[pos - 1])
            invariant
                n == patches@.len(),
                i < n,
                0 <= pos <= o@.len(),
                forall|x: int| 0 <= x < o@.len() ==> #[trigger] o@[x] < i,
                forall|x: int| pos <= x < o@.len() ==> key_lt(patch_views(patches@), i as int, #[trigger] o@[x] as int),
            decreases pos,
        {
            pos = pos - 1;
        }
        let ghost old_o = o@;
        proof {
            if pos > 0 {
                assert(!key_lt(patch_views(patches@), i as int, old_o[pos - 1] as int));
                assert(key_lt(patch_views(patches@), old_o[pos - 1] as int, i as int));
            }
        }
        o.insert(pos, i);
        proof {
            assert forall|x: int, y: int| 0 <= x < y < o@.len() implies key_lt(
                patch_views(patches@),
                #[trigger] o@[x] as int,
                #[trigger] o@[y] as int,
            ) by {
                if y < pos {
                    assert(o@[x] == old_o[x] && o@[y] == old_o[y]);
                } else if y == pos {
                    if x < pos - 1 {
                        assert(key_lt(patch_views(patches@), old_o[x] as int, old_o[pos - 1] as int));
                    }
                } else if x == pos {
                    assert(o@[y] == old_o[y - 1]);
                } else if x < pos {
                    assert(o@[y] == old_o[y - 1]);
                    assert(o@[x] == old_o[x]);
                } else {
                    assert(o@[y] == old_o[y - 1]);
                    assert(o@[x] == old_o[x - 1]);
                }
            }
            assert forall|j: int| 0 <= j < i + 1 implies #[trigger] as_ints(o@).contains(j) by {
                if j == i {
                    assert(as_ints(o@)[pos as int] == j);
                } else {
                    assert(as_ints(old_o).contains(j));
                    let x = choose|x: int| 0 <= x < old_o.len() && as_ints(old_o)[x] == j;
                    if x < pos {
                        assert(as_ints(o@)[x] == j);
                    } else {
                        assert(as_ints(o@)[x + 1] == j);
                    }
                }
            }
        }
        i = i + 1;
    }
    proof {
        assert(is_patch_order(patch_views(patches@), as_ints(o@)));
        lemma_order_unique(patch_views(patches@), as_ints(o@), patch_order(patch_views(patches@)));
    }
    o
}

// ---------------------------------------------------------------------------
// Validation and application
// ---------------------------------------------------------------------------

/// The bounds error of one patch against a source of the given bytes, if any.
pub open spec fn bounds_error(src: Seq<u8>, p: PatchView) -> Option<TextPatchError> {
    let len = src.len();
    if p.start > len {
        Some(TextPatchError::OffsetOutOfBounds { offset: p.start, len: len as usize })
    } else if p.end > len {
        Some(TextPatchError::OffsetOutOfBounds { offset: p.end, len: len as usize })
    } else if !is_char_boundary(src, p.start as int) {
        Some(TextPatchError::InvalidUtf8Boundary { offset: p.start })
    } else if !is_char_boundary(src, p.end as int) {
        Some(TextPatchError::InvalidUtf8Boundary { offset: p.end })
    } else {
        None
    }
}

/// The conflict reported between an earlier non-empty patch and a later patch.
pub open spec fn conflict_of(ps: Seq<PatchView>, first: int, second: int) -> TextPatchError {
    TextPatchError::Conflict(
        PatchConflict {
            first_index: first as usize,
            second_index: second as usize,
            first_start: ps[first].start,
            first_end: ps[first].end,
            second_start: ps[second].start,
            second_end: ps[second].end,
        },
    )
}

/// Checks the patches in processing order from position `k`: each patch must be
/// in bounds on character boundaries, and must not start before the end of the
/// latest non-empty patch `prev`.
pub open spec fn validate_from(
    src: Seq<u8>,
    ps: Seq<PatchView>,
    o: Seq<int>,
    k: int,
    prev: Option<int>,
) -> Result<(), TextPatchError>
    decreases o.len() - k,
{
    if k < 0 || k >= o.len() {
        Ok(())
    } else {
        let i = o[k];
        let p = ps[i];
        match bounds_error(src, p) {
            Some(e) => Err(e),
            None => {
                match prev {
                    Some(q) if p.start < ps[q].end => Err(conflict_of(ps, q, i)),
                    _ => {
                        if p.is_insert() {
                            validate_from(src, ps, o, k + 1, prev)
                        } else {
                            validate_from(src, ps, o, k + 1, Some(i))
                        }
                    },
                }
            },
        }
    }
}

/// Result of validating `ps` against a source with bytes `src`.
pub open spec fn spec_validate(src: Seq<u8>, ps: Seq<PatchView>) -> Result<(), TextPatchError> {
    validate_from(src, ps, patch_order(ps), 0, None)
}

/// The text obtained from `src` by copying it from `cursor` on and putting each
/// patch of the processing order, from position `k`, in place of its range.
pub open spec fn assemble(
    src: Seq<u8>,
    ps: Seq<PatchView>,
    o: Seq<int>,
    k: int,
    cursor: int,
) -> Seq<u8>
    decreases o.len() - k,
{
    if k < 0 || k >= o.len() {
        src.subrange(cursor, src.len() as int)
    } else {
        let p = ps[o[k]];
        src.subrange(cursor, p.start as int) + p.replacement_bytes() + assemble(
            src,
            ps,
            o,
            k + 1,
            p.end as int,
        )
    }
}

/// The bytes of the result of applying valid patches `ps` to `src`.
pub open spec fn spec_apply(src: Seq<u8>, ps: Seq<PatchView>) -> Seq<u8> {
    assemble(src, ps, patch_order(ps), 0, 0)
}

// ---------------------------------------------------------------------------
// Facts about valid patch sets
// ---------------------------------------------------------------------------

/// Net change of length made by one patch.
pub open spec fn length_delta(p: PatchView) -> int {
    p.replacement_bytes().len() - (p.end - p.start)
}

/// Sum of the length changes of the patches listed first `k` in `o`.
pub open spec fn delta_sum(ps: Seq<PatchView>, o: Seq<int>, k: int) -> int
    decreases k,
{
    if k <= 0 {
        0
    } else {
        delta_sum(ps, o, k - 1) + length_delta(ps[o[k - 1]])
    }
}

/// The indices `0..n` in increasing order.
pub open spec fn index_order(n: int) -> Seq<int> {
    Seq::new(n as nat, |i: int| i)
}

/// The net length change of all patches.
pub open spec fn total_delta(ps: Seq<PatchView>) -> int {
    delta_sum(ps, index_order(ps.len() as int), ps.len() as int)
}

/// `o` lists every index below its length exactly once.
pub open spec fn is_permutation(o: Seq<int>) -> bool {
    &&& forall|x: int| 0 <= x < o.len() ==> 0 <= #[trigger] o[x] < o.len()
    &&& forall|i: int| 0 <= i < o.len() ==> #[trigger] o.contains(i)
    &&& forall|x: int, y: int| 0 <= x < y < o.len() ==> #[trigger] o[x] != #[trigger] o[y]
}

proof fn lemma_delta_sum_prefix(ps: Seq<PatchView>, o1: Seq<int>, o2: Seq<int>, k: int)
    requires
        0 <= k <= o1.len(),
        k <= o2.len(),
        forall|x: int| 0 <= x < k ==> o1[x] == o2[x],
    ensures
        delta_sum(ps, o1, k) == delta_sum(ps, o2, k),
    decreases k,
{
    if k > 0 {
        lemma_delta_sum_prefix(ps, o1, o2, k - 1);
    }
}

proof fn lemma_delta_sum_remove(ps: Seq<PatchView>, o: Seq<int>, p: int)
    requires
        0 <= p < o.len(),
    ensures
        delta_sum(ps, o, o.len() as int) == delta_sum(ps, o.remove(p), o.len() - 1) + length_delta(
            ps[o[p]],
        ),
    decreases o.len(),
{
    let n = o.len() as int;
    if p == n - 1 {
        lemma_delta_sum_prefix(ps, o, o.remove(p), n - 1);
    } else {
        let o2 = o.drop_last();
        lemma_delta_sum_remove(ps, o2, p);
        lemma_delta_sum_prefix(ps, o, o2, n - 1);
        lemma_delta_sum_prefix(ps, o.remove(p), o2.remove(p), n - 2);
        assert(o.remove(p)[n - 2] == o[n - 1]);
    }
}

/// The net length change does not depend on the order in which the patches
/// are listed.
pub proof fn lemma_delta_sum_permutation(ps: Seq<PatchView>, o: Seq<int>)
    requires
        is_permutation(o),
    ensures
        delta_sum(ps, o, o.len() as int) == delta_sum(ps, index_order(o.len() as int), o.len() as int),
    decreases o.len(),
{
    let n = o.len() as int;
    if n > 0 {
        assert(o.contains(n - 1));
        let p = choose|p: int| 0 <= p < n && o[p] == n - 1;
        let o2 = o.remove(p);
        assert forall|x: int| 0 <= x < o2.len() implies 0 <= #[trigger] o2[x] < o2.len() by {
            if x < p {
                assert(o2[x] == o[x]);
            } else {
                assert(o2[x] == o[x + 1]);
            }
        }
        assert forall|i: int| 0 <= i < o2.len() implies #[trigger] o2.contains(i) by {
            assert(o.contains(i));
            let q = choose|q: int| 0 <= q < n && o[q] == i;
            if q < p {
                assert(o2[q] == i);
            } else {
                assert(q != p);
                assert(o2[q - 1] == i);
            }
        }
        assert forall|x: int, y: int| 0 <= x < y < o2.len() implies #[trigger] o2[x] != #[trigger] o2[y] by {
            let xx = if x < p { x } else { x + 1 };
            let yy = if y < p { y } else { y + 1 };
            assert(o2[x] == o[xx] && o2[y] == o[yy]);
        }
        lemma_delta_sum_remove(ps, o, p);
        lemma_delta_sum_permutation(ps, o2);
        lemma_delta_sum_prefix(ps, index_order(n), index_order(n - 1), n - 1);
    }
}

/// Walking the processing order from position `k` with a last non-empty patch
/// `prev`, validation passing means every later patch is in bounds and starts
/// no earlier than the end of every non-empty patch processed before it.
proof fn lemma_validate_chain(src: Seq<u8>, ps: Seq<PatchView>, o: Seq<int>, k: int, prev: Option<int>)
    requires
        is_patch_order(ps, o),
        0 <= k <= o.len(),
        validate_from(src, ps, o, k, prev) is Ok,
        forall|i: int| 0 <= i < ps.len() ==> #[trigger] ps[i].start <= ps[i].end,
        prev matches Some(q) ==> 0 <= q < ps.len(),
    ensures
        forall|x: int| k <= x < o.len() ==> bounds_error(src, #[trigger] ps[o[x]]) is None,
        forall|x: int|
            k <= x < o.len() ==> (prev matches Some(q) ==> #[trigger] ps[o[x]].start >= ps[q].end),
        forall|x: int, y: int|
            k <= x < y < o.len() && !ps[o[x]].is_insert() ==> #[trigger] ps[o[y]].start
                >= #[trigger] ps[o[x]].end,
    decreases o.len() - k,
{
    if k < o.len() {
        let i = o[k];
        let next = if ps[i].is_insert() {
            prev
        } else {
            Some(i)
        };
        lemma_validate_chain(src, ps, o, k + 1, next);
        assert forall|x: int| k <= x < o.len() implies (prev matches Some(q) ==> #[trigger] ps[o[x]].start
            >= ps[q].end) by {
            if x > k && !ps[i].is_insert() {
                assert(ps[o[x]].start >= ps[i].end);
            }
        }
    }
}

/// Valid patches lie within the source and do not overlap: no patch starts
/// inside or at the start of a non-empty patch unless it lies wholly before it.
pub proof fn lemma_valid_disjoint(src: Seq<u8>, ps: Seq<PatchView>)
    requires
        spec_validate(src, ps) is Ok,
        forall|i: int| 0 <= i < ps.len() ==> #[trigger] ps[i].start <= ps[i].end,
    ensures
        forall|i: int| 0 <= i < ps.len() ==> #[trigger] ps[i].end <= src.len(),
        forall|i: int, j: int|
            0 <= i < ps.len() && 0 <= j < ps.len() && i != j && !ps[i].is_insert() ==> #[trigger] ps[j].start
                >= #[trigger] ps[i].end || (ps[j].end <= ps[i].start && ps[j].start < ps[i].start),
{
    lemma_patch_order_exists(ps);
    let o = patch_order(ps);
    lemma_validate_chain(src, ps, o, 0, None);
    assert forall|i: int| 0 <= i < ps.len() implies #[trigger] ps[i].end <= src.len() by {
        assert(o.contains(i));
        let x = choose|x: int| 0 <= x < o.len() && o[x] == i;
        assert(bounds_error(src, ps[o[x]]) is None);
    }
    assert forall|i: int, j: int|
        0 <= i < ps.len() && 0 <= j < ps.len() && i != j && !ps[i].is_insert() implies #[trigger] ps[j].start
            >= #[trigger] ps[i].end || (ps[j].end <= ps[i].start && ps[j].start < ps[i].start) by {
        assert(o.contains(i));
        assert(o.contains(j));
        let x = choose|x: int| 0 <= x < o.len() && o[x] == i;
        let y = choose|y: int| 0 <= y < o.len() && o[y] == j;
        if x < y {
            assert(ps[o[y]].start >= ps[o[x]].end);
        } else {
            assert(key_lt(ps, o[y], o[x]));
            if !ps[j].is_insert() {
                assert(ps[o[x]].start >= ps[o[y]].end);
            }
        }
    }
}

/// In the processing order of valid patches, each patch ends no later than
/// the next one starts.
proof fn lemma_valid_order_sorted(src: Seq<u8>, ps: Seq<PatchView>)
    requires
        spec_validate(src, ps) is Ok,
        is_patch_order(ps, patch_order(ps)),
        forall|i: int| 0 <= i < ps.len() ==> #[trigger] ps[i].start <= ps[i].end,
    ensures
        forall|x: int, y: int|
            0 <= x < y < patch_order(ps).len() ==> #[trigger] ps[patch_order(ps)[x]].end
                <= #[trigger] ps[patch_order(ps)[y]].start,
{
    let o = patch_order(ps);
    lemma_validate_chain(src, ps, o, 0, None);
    assert forall|x: int, y: int| 0 <= x < y < o.len() implies #[trigger] ps[o[x]].end
        <= #[trigger] ps[o[y]].start by {
        assert(key_lt(ps, o[x], o[y]));
    }
}

proof fn lemma_assemble_len(src: Seq<u8>, ps: Seq<PatchView>, o: Seq<int>, k: int, cursor: int)
    requires
        0 <= k <= o.len(),
        forall|x: int| 0 <= x < o.len() ==> 0 <= #[trigger] o[x] < ps.len(),
        forall|i: int| 0 <= i < ps.len() ==> #[trigger] ps[i].start <= ps[i].end <= src.len(),
        forall|x: int, y: int|
            0 <= x < y < o.len() ==> #[trigger] ps[o[x]].end <= #[trigger] ps[o[y]].start,
        0 <= cursor <= src.len(),
        k < o.len() ==> cursor <= ps[o[k]].start,
    ensures
        assemble(src, ps, o, k, cursor).len() == src.len() - cursor + delta_sum(ps, o, o.len() as int)
            - delta_sum(ps, o, k),
    decreases o.len() - k,
{
    if k < o.len() {
        let p = ps[o[k]];
        if k + 1 < o.len() {
            assert(ps[o[k]].end <= ps[o[k + 1]].start);
        }
        lemma_assemble_len(src, ps, o, k + 1, p.end as int);
        assert(delta_sum(ps, o, k + 1) == delta_sum(ps, o, k) + length_delta(p));
    }
}

/// Applying valid patches changes the length of the text by the sum of the
/// patches' own length changes.
pub proof fn lemma_apply_len(src: Seq<u8>, ps: Seq<PatchView>)
    requires
        spec_validate(src, ps) is Ok,
        forall|i: int| 0 <= i < ps.len() ==> #[trigger] ps[i].start <= ps[i].end,
    ensures
        spec_apply(src, ps).len() == src.len() + total_delta(ps),
{
    lemma_patch_order_exists(ps);
    let o = patch_order(ps);
    lemma_valid_disjoint(src, ps);
    lemma_valid_order_sorted(src, ps);
    lemma_assemble_len(src, ps, o, 0, 0);
    assert forall|x: int, y: int| 0 <= x < y < o.len() implies #[trigger] o[x] != #[trigger] o[y] by {
        assert(key_lt(ps, o[x], o[y]));
    }
    lemma_delta_sum_permutation(ps, o);
}

fn validate_patch_bounds(source: &str, patch: &TextPatch) -> (r: Result<(), TextPatchError>)
    ensures
        r is Ok <==> bounds_error(source.spec_bytes(), patch@) is None,
        r matches Err(e) ==> bounds_error(source.spec_bytes(), patch@) == Some(e),
{
    let len = source.as_bytes().len();
    if patch.start > len {
        return Err(TextPatchError::OffsetOutOfBounds { offset: patch.start, len });
    }
    if patch.end > len {
        return Err(TextPatchError::OffsetOutOfBounds { offset: patch.end, len });
    }
    if !source.is_char_boundary(patch.start) {
        return Err(TextPatchError::InvalidUtf8Boundary { offset: patch.start });
    }
    if !source.is_char_boundary(patch.end) {
        return Err(TextPatchError::InvalidUtf8Boundary { offset: patch.end });
    }
    Ok(())
}

fn make_conflict(patches: &[TextPatch], first: usize, second: usize) -> (e: TextPatchError)
    requires
        first < patches@.len(),
        second < patches@.len(),
    ensures
        e == conflict_of(patch_views(patches@), first as int, second as int),
{
    TextPatchError::Conflict(
        PatchConflict {
            first_index: first,
            second_index: second,
            first_start: patches[first].start,
            first_end: patches[first].end,
            second_start: patches[second].start,
            second_end: patches[second].end,
        },
    )
}

/// Check that every patch lies on character boundaries within `source` and that
/// no patch overlaps a non-empty patch before it.
pub fn validate_patches(source: &str, patches: &[TextPatch]) -> (r: Result<(), TextPatchError>)
    ensures
        r == spec_validate(source.spec_bytes(), patch_views(patches@)),
        is_patch_order(patch_views(patches@), patch_order(patch_views(patches@))),
{
    let order = sorted_patch_order(patches);
    let ghost o = as_ints(order@);
    let mut previous_non_empty: Option<usize> = None;
    let mut k: usize = 0;
    while k < order.len()
        invariant
            is_patch_order(patch_views(patches@), o),
            o == as_ints(order@),
            o == patch_order(patch_views(patches@)),
            0 <= k <= order@.len(),
            previous_non_empty matches Some(q) ==> q < patches@.len(),
            spec_validate(source.spec_bytes(), patch_views(patches@)) == validate_from(
                source.spec_bytes(),
                patch_views(patches@),
                o,
                k as int,
                match previous_non_empty {
                    Some(q) => Some(q as int),
                    None => None,
                },
            ),
        decreases order@.len() - k,
    {
        let current = order[k];
        assert(o[k as int] == current as int);
        validate_patch_bounds(source, &patches[current])?;
        if let Some(previous) = previous_non_empty {
            if patches[current].start < patches[previous].end {
                return Err(make_conflict(patches, previous, current));
            }
        }
        if !patches[current].is_insert() {
            previous_non_empty = Some(current);
        }
        k = k + 1;
    }
    Ok(())
}

/// Apply one patch to `source`.
pub fn apply_patch(source: &str, patch: &TextPatch) -> (r: Result<String, TextPatchError>)
    ensures
        r is Ok <==> spec_validate(source.spec_bytes(), seq![patch@]) is Ok,
        r matches Err(e) ==> spec_validate(source.spec_bytes(), seq![patch@]) == Err::<
            (),
            TextPatchError,
        >(e),
        r matches Ok(s) ==> bytes_of(s@) == spec_apply(source.spec_bytes(), seq![patch@]),
{
    let patches = vec![patch.clone()];
    proof {
        assert(patch_views(patches@) =~= seq![patch@]);
    }
    apply_patches(source, patches.as_slice())
}

/// Apply all patches to `source`, each against the original offsets.
pub fn apply_patches(source: &str, patches: &[TextPatch]) -> (r: Result<String, TextPatchError>)
    ensures
        r is Ok <==> spec_validate(source.spec_bytes(), patch_views(patches@)) is Ok,
        r matches Err(e) ==> spec_validate(source.spec_bytes(), patch_views(patches@)) == Err::<
            (),
            TextPatchError,
        >(e),
        r matches Ok(s) ==> bytes_of(s@) == spec_apply(source.spec_bytes(), patch_views(patches@)),
        is_patch_order(patch_views(patches@), patch_order(patch_views(patches@))),
{
    validate_patches(source, patches)?;
    let order = sorted_patch_order(patches);
    let ghost o = as_ints(order@);
    let ghost src = source.spec_bytes();
    let len = source.as_bytes().len();
    proof {
        lemma_str_valid(source);
    }
    let mut output = empty_string();
    let mut cursor: usize = 0;
    let mut prev: Option<usize> = None;
    let mut k: usize = 0;
    while k < order.len()
        invariant
            is_patch_order(patch_views(patches@), o),
            o == as_ints(order@),
            o == patch_order(patch_views(patches@)),
            src == source.spec_bytes(),
            len == src.len(),
            valid_utf8(src),
            0 <= k <= order@.len(),
            prev matches Some(q) ==> q < patches@.len(),
            validate_from(
                src,
                patch_views(patches@),
                o,
                k as int,
                match prev {
                    Some(q) => Some(q as int),
                    None => None,
                },
            ) is Ok,
            cursor <= len,
            is_char_boundary(src, cursor as int),
            k < order@.len() ==> cursor <= patch_views(patches@)[o[k as int]].start,
            bytes_of(output@) + assemble(src, patch_views(patches@), o, k as int, cursor as int) == spec_apply(
                src,
                patch_views(patches@),
            ),
        decreases order@.len() - k,
    {
        let current = order[k];
        assert(o[k as int] == current as int);
        let p = &patches[current];
        let ghost before = bytes_of(output@);
        let piece = substr(source, cursor, p.start);
        push_str(&mut output, piece);
        push_str(&mut output, p.replacement.as_str());
        assert(bytes_of(output@) + assemble(src, patch_views(patches@), o, k + 1, p.end as int) =~= before
            + assemble(src, patch_views(patches@), o, k as int, cursor as int));
        cursor = p.end;
        if !p.is_insert() {
            prev = Some(current);
        }
        k = k + 1;
        proof {
            if k < order@.len() {
                let nxt = o[k as int];
                assert(key_lt(patch_views(patches@), o[k - 1], o[k as int]));
            }
        }
    }
    let tail = substr(source, cursor, len);
    push_str(&mut output, tail);
    assert(bytes_of(output@) =~= spec_apply(src, patch_views(patches@)));
    Ok(output)
}

// ---------------------------------------------------------------------------
// Inverse patches
// ---------------------------------------------------------------------------

/// The patch that puts the source bytes `gs..ge` back in place of the patched
/// text that occupies `ns..ne` after the edit.
pub open spec fn restore_patch(src: Seq<u8>, gs: int, ge: int, ns: int, ne: int) -> PatchView {
    PatchView { start: ns as usize, end: ne as usize, replacement: decode_utf8(src.subrange(gs, ge)) }
}

/// Inverse patches of the processing order from position `k`. `last` is the
/// source offset where the previous patch ended and `new_last` the offset of
/// that point in the patched text; `open` holds the source and patched start
/// of the run of touching patches not yet closed. Patches that touch (one
/// starts where the previous ended) are undone together by one patch.
pub open spec fn inverse_from(
    src: Seq<u8>,
    ps: Seq<PatchView>,
    o: Seq<int>,
    k: int,
    last: int,
    new_last: int,
    open: Option<(int, int)>,
) -> Seq<PatchView>
    decreases o.len() - k,
{
    if k < 0 || k >= o.len() {
        match open {
            Some((gs, ns)) => seq![restore_patch(src, gs, last, ns, new_last)],
            None => Seq::empty(),
        }
    } else {
        let p = ps[o[k]];
        let new_start = new_last + (p.start - last);
        let new_end = new_start + p.replacement_bytes().len();
        match open {
            Some((gs, ns)) if p.start == last => inverse_from(
                src,
                ps,
                o,
                k + 1,
                p.end as int,
                new_end,
                Some((gs, ns)),
            ),
            Some((gs, ns)) => seq![restore_patch(src, gs, last, ns, new_last)] + inverse_from(
                src,
                ps,
                o,
                k + 1,
                p.end as int,
                new_end,
                Some((p.start as int, new_start)),
            ),
            None => inverse_from(
                src,
                ps,
                o,
                k + 1,
                p.end as int,
                new_end,
                Some((p.start as int, new_start)),
            ),
        }
    }
}

/// The patches that turn the result of applying `ps` to `src` back into `src`.
pub open spec fn spec_inverse(src: Seq<u8>, ps: Seq<PatchView>) -> Seq<PatchView> {
    inverse_from(src, ps, patch_order(ps), 0, 0, 0, None)
}

/// The text obtained by putting patches `ps`, taken in sequence, in place of
/// their ranges of `t`, copying `t` from `cursor` on.
pub open spec fn apply_seq(t: Seq<u8>, ps: Seq<PatchView>, cursor: int) -> Seq<u8>
    decreases ps.len(),
{
    if ps.len() == 0 {
        t.subrange(cursor, t.len() as int)
    } else {
        t.subrange(cursor, ps[0].start as int) + ps[0].replacement_bytes() + apply_seq(
            t,
            ps.drop_first(),
            ps[0].end as int,
        )
    }
}

/// Patches that are in bounds of `t`, on its character boundaries, and each
/// end strictly before the next one starts.
pub open spec fn spaced_in(t: Seq<u8>, ps: Seq<PatchView>) -> bool {
    &&& forall|i: int|
        0 <= i < ps.len() ==> #[trigger] ps[i].start <= ps[i].end <= t.len() && is_char_boundary(
            t,
            ps[i].start as int,
        ) && is_char_boundary(t, ps[i].end as int)
    &&& forall|i: int, j: int| 0 <= i < j < ps.len() ==> #[trigger] ps[i].end < #[trigger] ps[j].start
}

/// A boundary of a valid encoding is wherever a valid encoding starts.
proof fn lemma_boundary_before_valid(t: Seq<u8>, x: int)
    requires
        valid_utf8(t),
        0 <= x <= t.len(),
        valid_utf8(t.subrange(x, t.len() as int)),
    ensures
        is_char_boundary(t, x),
{
    if x == t.len() {
        vstd::utf8::is_char_boundary_start_end_of_seq(t);
    } else {
        let s = t.subrange(x, t.len() as int);
        vstd::utf8::is_char_boundary_start_end_of_seq(s);
        vstd::utf8::is_char_boundary_iff_not_is_continuation_byte(s, 0);
        vstd::utf8::is_char_boundary_iff_not_is_continuation_byte(t, x);
        assert(s[0] == t[x]);
    }
}

/// The bytes between two boundaries of a valid encoding are a valid encoding.
pub proof fn lemma_valid_slice(b: Seq<u8>, s: int, e: int)
    requires
        valid_utf8(b),
        0 <= s <= e <= b.len(),
        is_char_boundary(b, s),
        is_char_boundary(b, e),
    ensures
        valid_utf8(b.subrange(s, e)),
{
    lemma_boundary_in_suffix(b, s, e);
    let t = b.subrange(s, b.len() as int);
    vstd::utf8::valid_utf8_split(t, e - s);
    assert(t.subrange(0, e - s) =~= b.subrange(s, e));
}

/// Putting valid patches in place of their ranges of a valid encoding gives a
/// valid encoding.
#[verifier::spinoff_prover]
proof fn lemma_assemble_valid(src: Seq<u8>, ps: Seq<PatchView>, o: Seq<int>, k: int, cursor: int)
    requires
        valid_utf8(src),
        0 <= k <= o.len(),
        forall|x: int| 0 <= x < o.len() ==> 0 <= #[trigger] o[x] < ps.len(),
        forall|x: int| 0 <= x < o.len() ==> bounds_error(src, #[trigger] ps[o[x]]) is None,
        forall|i: int| 0 <= i < ps.len() ==> #[trigger] ps[i].start <= ps[i].end,
        forall|x: int, y: int|
            0 <= x < y < o.len() ==> #[trigger] ps[o[x]].end <= #[trigger] ps[o[y]].start,
        0 <= cursor <= src.len(),
        is_char_boundary(src, cursor),
        k < o.len() ==> cursor <= ps[o[k]].start,
    ensures
        valid_utf8(assemble(src, ps, o, k, cursor)),
    decreases o.len() - k,
{
    broadcast use vstd::utf8::valid_utf8_concat, vstd::utf8::encode_utf8_valid_utf8;

    if k < o.len() {
        let p = ps[o[k]];
        assert(bounds_error(src, ps[o[k]]) is None);
        lemma_valid_slice(src, cursor, p.start as int);
        if k + 1 < o.len() {
            assert(ps[o[k]].end <= ps[o[k + 1]].start);
        }
        lemma_assemble_valid(src, ps, o, k + 1, p.end as int);
        let a = src.subrange(cursor, p.start as int);
        let b = p.replacement_bytes();
        let c = assemble(src, ps, o, k + 1, p.end as int);
        assert(valid_utf8(a));
        assert(valid_utf8(b));
        assert(valid_utf8(c));
        vstd::utf8::valid_utf8_concat(a, b);
        vstd::utf8::valid_utf8_concat(a + b, c);
        assert(assemble(src, ps, o, k, cursor) == a + b + c);
    } else {
        vstd::utf8::is_char_boundary_start_end_of_seq(src);
        lemma_valid_slice(src, cursor, src.len() as int);
    }
}

/// Taking the patches in index order is the same as taking them in sequence.
proof fn lemma_assemble_seq(t: Seq<u8>, ps: Seq<PatchView>, j: int, cursor: int)
    requires
        0 <= j <= ps.len(),
    ensures
        assemble(t, ps, index_order(ps.len() as int), j, cursor) == apply_seq(
            t,
            ps.subrange(j, ps.len() as int),
            cursor,
        ),
    decreases ps.len() - j,
{
    if j < ps.len() {
        lemma_assemble_seq(t, ps, j + 1, ps[j].end as int);
        assert(ps.subrange(j, ps.len() as int).drop_first() =~= ps.subrange(j + 1, ps.len() as int));
    }
}

/// Spaced patches pass validation when taken in index order.
proof fn lemma_spaced_validate(t: Seq<u8>, ps: Seq<PatchView>, k: int, prev: Option<int>)
    requires
        spaced_in(t, ps),
        0 <= k <= ps.len(),
        prev matches Some(q) ==> 0 <= q < k,
    ensures
        validate_from(t, ps, index_order(ps.len() as int), k, prev) is Ok,
    decreases ps.len() - k,
{
    if k < ps.len() {
        let p = ps[k];
        assert(index_order(ps.len() as int)[k] == k);
        if let Some(q) = prev {
            assert(ps[q].end < ps[k].start);
        }
        lemma_spaced_validate(t, ps, k + 1, if p.is_insert() { prev } else { Some(k) });
    }
}

/// Spaced patches are processed in index order.
proof fn lemma_spaced_order(t: Seq<u8>, ps: Seq<PatchView>)
    requires
        spaced_in(t, ps),
    ensures
        patch_order(ps) == index_order(ps.len() as int),
        is_patch_order(ps, patch_order(ps)),
{
    let o = index_order(ps.len() as int);
    assert forall|i: int| 0 <= i < ps.len() implies #[trigger] o.contains(i) by {
        assert(o[i] == i);
    }
    assert forall|x: int, y: int| 0 <= x < y < o.len() implies key_lt(ps, #[trigger] o[x], #[trigger] o[y]) by {
        assert(ps[x].end < ps[y].start);
    }
    assert(is_patch_order(ps, o));
    lemma_order_unique(ps, patch_order(ps), o);
}

/// The inverse patches of an open run, from position `k` of the processing
/// order, are spaced in the patched text `new`, start at the run's patched
/// start `ns`, and put back the source from the run's start `gs` on.
proof fn lemma_inverse_from(
    src: Seq<u8>,
    ps: Seq<PatchView>,
    o: Seq<int>,
    new: Seq<u8>,
    k: int,
    last: int,
    new_last: int,
    gs: int,
    ns: int,
)
    requires
        valid_utf8(src),
        valid_utf8(new),
        new.len() <= usize::MAX,
        0 <= k <= o.len(),
        forall|x: int| 0 <= x < o.len() ==> 0 <= #[trigger] o[x] < ps.len(),
        forall|x: int| 0 <= x < o.len() ==> bounds_error(src, #[trigger] ps[o[x]]) is None,
        forall|i: int| 0 <= i < ps.len() ==> #[trigger] ps[i].start <= ps[i].end,
        forall|x: int, y: int|
            0 <= x < y < o.len() ==> #[trigger] ps[o[x]].end <= #[trigger] ps[o[y]].start,
        0 <= last <= src.len(),
        is_char_boundary(src, last),
        k < o.len() ==> last <= ps[o[k]].start,
        0 <= new_last <= new.len(),
        new.subrange(new_last, new.len() as int) == assemble(src, ps, o, k, last),
        is_char_boundary(new, new_last),
        0 <= gs <= last,
        is_char_boundary(src, gs),
        0 <= ns <= new_last,
        is_char_boundary(new, ns),
    ensures
        ({
            let inv = inverse_from(src, ps, o, k, last, new_last, Some((gs, ns)));
            &&& inv.len() >= 1
            &&& inv[0].start == ns
            &&& spaced_in(new, inv)
            &&& forall|i: int| 0 <= i < inv.len() ==> ns <= #[trigger] inv[i].start
            &&& forall|c: int|
                0 <= c <= ns ==> #[trigger] apply_seq(new, inv, c) == new.subrange(c, ns) + src.subrange(
                    gs,
                    src.len() as int,
                )
        }),
    decreases o.len() - k,
{
    broadcast use vstd::utf8::valid_utf8_concat, vstd::utf8::encode_utf8_valid_utf8;

    let inv = inverse_from(src, ps, o, k, last, new_last, Some((gs, ns)));
    let r = restore_patch(src, gs, last, ns, new_last);
    lemma_valid_slice(src, gs, last);
    vstd::utf8::decode_utf8_encode_utf8(src.subrange(gs, last));
    assert(r.replacement_bytes() == src.subrange(gs, last));
    if k >= o.len() {
        assert(inv =~= seq![r]);
        assert forall|c: int| 0 <= c <= ns implies #[trigger] apply_seq(new, inv, c) == new.subrange(c, ns)
            + src.subrange(gs, src.len() as int) by {
            assert(inv.drop_first() =~= Seq::<PatchView>::empty());
            assert(inv[0] == r);
            assert(apply_seq(new, inv.drop_first(), new_last) == new.subrange(new_last, new.len() as int));
            assert(assemble(src, ps, o, k, last) == src.subrange(last, src.len() as int));
            assert(apply_seq(new, inv, c) == new.subrange(c, ns) + r.replacement_bytes() + apply_seq(
                new,
                inv.drop_first(),
                new_last,
            ));
            assert(src.subrange(gs, last) + src.subrange(last, src.len() as int) =~= src.subrange(
                gs,
                src.len() as int,
            ));
            assert(new.subrange(c, ns) + src.subrange(gs, last) + src.subrange(last, src.len() as int)
                =~= new.subrange(c, ns) + (src.subrange(gs, last) + src.subrange(last, src.len() as int)));
        }
    } else {
        let p = ps[o[k]];
        assert(bounds_error(src, ps[o[k]]) is None);
        let rb = p.replacement_bytes();
        let new_start = new_last + (p.start - last);
        let new_end = new_start + rb.len();
        let rest = assemble(src, ps, o, k + 1, p.end as int);
        assert(assemble(src, ps, o, k, last) == src.subrange(last, p.start as int) + rb + rest);
        let tail = new.subrange(new_last, new.len() as int);
        assert(new.subrange(new_end, new.len() as int) =~= tail.subrange(new_end - new_last, tail.len() as int));
        assert(tail.subrange(new_end - new_last, tail.len() as int) =~= rest);
        assert(new.subrange(new_last, new_start) =~= tail.subrange(0, new_start - new_last));
        assert(tail.subrange(0, new_start - new_last) =~= src.subrange(last, p.start as int));
        assert(new.subrange(new_start, new.len() as int) =~= tail.subrange(new_start - new_last, tail.len() as int));
        assert(tail.subrange(new_start - new_last, tail.len() as int) =~= rb + rest);
        if k + 1 < o.len() {
            assert(ps[o[k]].end <= ps[o[k + 1]].start);
        }
        lemma_assemble_valid(src, ps, o, k + 1, p.end as int);
        lemma_boundary_before_valid(new, new_end);
        lemma_boundary_before_valid(new, new_start);
        if p.start == last {
            assert(inv == inverse_from(src, ps, o, k + 1, p.end as int, new_end, Some((gs, ns))));
            lemma_inverse_from(src, ps, o, new, k + 1, p.end as int, new_end, gs, ns);
        } else {
            let inv2 = inverse_from(
                src,
                ps,
                o,
                k + 1,
                p.end as int,
                new_end,
                Some((p.start as int, new_start)),
            );
            assert(inv == seq![r] + inv2);
            lemma_inverse_from(src, ps, o, new, k + 1, p.end as int, new_end, p.start as int, new_start);
            assert(inv.drop_first() =~= inv2);
            assert forall|i: int| 0 <= i < inv.len() implies ns <= #[trigger] inv[i].start by {
                if i > 0 {
                    assert(inv[i] == inv2[i - 1]);
                }
            }
            assert forall|i: int|
                0 <= i < inv.len() implies #[trigger] inv[i].start <= inv[i].end <= new.len()
                    && is_char_boundary(new, inv[i].start as int) && is_char_boundary(
                    new,
                    inv[i].end as int,
                ) by {
                if i > 0 {
                    assert(inv[i] == inv2[i - 1]);
                }
            }
            assert forall|i: int, j: int| 0 <= i < j < inv.len() implies #[trigger] inv[i].end
                < #[trigger] inv[j].start by {
                assert(inv[j] == inv2[j - 1]);
                if i > 0 {
                    assert(inv[i] == inv2[i - 1]);
                }
            }
            assert forall|c: int| 0 <= c <= ns implies #[trigger] apply_seq(new, inv, c) == new.subrange(
                c,
                ns,
            ) + src.subrange(gs, src.len() as int) by {
                assert(apply_seq(new, inv2, new_last) == new.subrange(new_last, new_start) + src.subrange(
                    p.start as int,
                    src.len() as int,
                ));
                assert(src.subrange(gs, last) + (src.subrange(last, p.start as int) + src.subrange(
                    p.start as int,
                    src.len() as int,
                )) =~= src.subrange(gs, src.len() as int));
                assert(new.subrange(c, ns) + src.subrange(gs, last) + apply_seq(new, inv2, new_last)
                    =~= new.subrange(c, ns) + src.subrange(gs, src.len() as int));
            }
        }
    }
}

/// Applying the inverse patches to the result of applying valid patches gives
/// back the source, and the inverse patches pass validation there.
pub proof fn lemma_inverse_roundtrip(src: Seq<u8>, ps: Seq<PatchView>)
    requires
        valid_utf8(src),
        spec_validate(src, ps) is Ok,
        forall|i: int| 0 <= i < ps.len() ==> #[trigger] ps[i].start <= ps[i].end,
        spec_apply(src, ps).len() <= usize::MAX,
    ensures
        spec_validate(spec_apply(src, ps), spec_inverse(src, ps)) is Ok,
        spec_apply(spec_apply(src, ps), spec_inverse(src, ps)) == src,
{
    lemma_patch_order_exists(ps);
    broadcast use vstd::utf8::valid_utf8_concat, vstd::utf8::encode_utf8_valid_utf8;

    let o = patch_order(ps);
    let new = spec_apply(src, ps);
    let inv = spec_inverse(src, ps);
    lemma_validate_chain(src, ps, o, 0, None);
    lemma_valid_disjoint(src, ps);
    lemma_valid_order_sorted(src, ps);
    vstd::utf8::is_char_boundary_start_end_of_seq(src);
    lemma_assemble_valid(src, ps, o, 0, 0);
    vstd::utf8::is_char_boundary_start_end_of_seq(new);
    if o.len() == 0 {
        assert(inv =~= Seq::<PatchView>::empty());
        assert(new =~= src);
    } else {
        let p = ps[o[0]];
        assert(bounds_error(src, ps[o[0]]) is None);
        let rb = p.replacement_bytes();
        let new_start = p.start as int;
        let new_end = new_start + rb.len();
        let rest = assemble(src, ps, o, 1, p.end as int);
        assert(new == src.subrange(0, p.start as int) + rb + rest);
        assert(new.subrange(new_end, new.len() as int) =~= rest);
        assert(new.subrange(new_start, new.len() as int) =~= rb + rest);
        assert(new.subrange(0, new_start) =~= src.subrange(0, p.start as int));
        if 1 < o.len() {
            assert(ps[o[0]].end <= ps[o[1]].start);
        }
        lemma_assemble_valid(src, ps, o, 1, p.end as int);
        lemma_boundary_before_valid(new, new_end);
        lemma_boundary_before_valid(new, new_start);
        assert(inv == inverse_from(src, ps, o, 1, p.end as int, new_end, Some((p.start as int, new_start))));
        lemma_inverse_from(src, ps, o, new, 1, p.end as int, new_end, p.start as int, new_start);
        assert(apply_seq(new, inv, 0) == new.subrange(0, new_start) + src.subrange(
            p.start as int,
            src.len() as int,
        ));
        assert(src.subrange(0, p.start as int) + src.subrange(p.start as int, src.len() as int) =~= src);
    }
    lemma_spaced_order(new, inv);
    lemma_spaced_validate(new, inv, 0, None);
    lemma_assemble_seq(new, inv, 0, 0);
    assert(inv.subrange(0, inv.len() as int) =~= inv);
}

/// Every patch of the slice starts no later than it ends (the type's invariant,
/// gathered over the slice).
pub(crate) fn ranges_in_order(patches: &[TextPatch])
    ensures
        forall|i: int| 0 <= i < patches@.len() ==> #[trigger] patches@[i]@.start <= patches@[i]@.end,
{
    let mut i: usize = 0;
    while i < patches.len()
        invariant
            0 <= i <= patches@.len(),
            forall|j: int| 0 <= j < i ==> #[trigger] patches@[j]@.start <= patches@[j]@.end,
        decreases patches@.len() - i,
    {
        let p = &patches[i];
        proof {
            use_type_invariant(p);
        }
        i = i + 1;
    }
}

/// Build the patches that undo `patches` once they have been applied to
/// `source`, with offsets into the patched text.
pub fn inverse_patches(source: &str, patches: &[TextPatch]) -> (r: Vec<TextPatch>)
    requires
        spec_validate(source.spec_bytes(), patch_views(patches@)) is Ok,
        spec_apply(source.spec_bytes(), patch_views(patches@)).len() <= usize::MAX,
    ensures
        patch_views(r@) == spec_inverse(source.spec_bytes(), patch_views(patches@)),
        spec_validate(spec_apply(source.spec_bytes(), patch_views(patches@)), patch_views(r@)) is Ok,
        spec_apply(spec_apply(source.spec_bytes(), patch_views(patches@)), patch_views(r@))
            == source.spec_bytes(),
{
    let ghost src = source.spec_bytes();
    let ghost ps = patch_views(patches@);
    let order = sorted_patch_order(patches);
    let ghost o = as_ints(order@);
    ranges_in_order(patches);
    proof {
        lemma_str_valid(source);
        lemma_validate_chain(src, ps, o, 0, None);
        lemma_valid_disjoint(src, ps);
        lemma_valid_order_sorted(src, ps);
        lemma_apply_len(src, ps);
        lemma_assemble_len(src, ps, o, 0, 0);
        assert forall|x: int, y: int| 0 <= x < y < o.len() implies #[trigger] o[x] != #[trigger] o[y] by {
            assert(key_lt(ps, o[x], o[y]));
        }
        lemma_delta_sum_permutation(ps, o);
    }
    let mut out: Vec<TextPatch> = Vec::new();
    let mut last: usize = 0;
    let mut new_last: usize = 0;
    let mut open: Option<(usize, usize)> = None;
    let mut k: usize = 0;
    while k < order.len()
        invariant
            src == source.spec_bytes(),
            ps == patch_views(patches@),
            is_patch_order(ps, o),
            o == as_ints(order@),
            o == patch_order(ps),
            0 <= k <= o.len(),
            forall|i: int| 0 <= i < ps.len() ==> #[trigger] ps[i].start <= ps[i].end <= src.len(),
            forall|x: int| 0 <= x < o.len() ==> bounds_error(src, #[trigger] ps[o[x]]) is None,
            forall|x: int, y: int|
                0 <= x < y < o.len() ==> #[trigger] ps[o[x]].end <= #[trigger] ps[o[y]].start,
            spec_apply(src, ps).len() <= usize::MAX,
            spec_apply(src, ps).len() == src.len() + delta_sum(ps, o, o.len() as int),
            valid_utf8(src),
            last <= src.len(),
            is_char_boundary(src, last as int),
            k < o.len() ==> last <= ps[o[k as int]].start,
            new_last == last + delta_sum(ps, o, k as int),
            open matches Some((gs, ns)) ==> gs <= last && ns <= new_last && is_char_boundary(src, gs as int),
            patch_views(out@) + inverse_from(
                src,
                ps,
                o,
                k as int,
                last as int,
                new_last as int,
                match open {
                    Some((gs, ns)) => Some((gs as int, ns as int)),
                    None => None,
                },
            ) == spec_inverse(src, ps),
        decreases o.len() - k,
    {
        let current = order[k];
        assert(o[k as int] == current as int);
        let p = &patches[current];
        let ghost pv = ps[o[k as int]];
        assert(pv == p@);
        proof {
            lemma_assemble_len(src, ps, o, k as int, pv.start as int);
            assert(delta_sum(ps, o, k + 1) == delta_sum(ps, o, k as int) + length_delta(pv));
            if k + 1 < o.len() {
                assert(ps[o[k as int]].end <= ps[o[k + 1]].start);
                lemma_assemble_len(src, ps, o, k + 1, pv.end as int);
            } else {
                lemma_assemble_len(src, ps, o, k + 1, pv.end as int);
            }
        }
        let new_start = new_last + (p.start - last);
        let new_end = new_start + p.replacement.as_str().as_bytes().len();
        let ghost before = patch_views(out@);
        match open {
            Some((gs, ns)) => {
                if p.start != last {
                    let piece = substr(source, gs, last);
                    let restored = TextPatch { start: ns, end: new_last, replacement: piece.to_owned() };
                    proof {
                        vstd::utf8::encode_utf8_decode_utf8(piece@);
                    }
                    out.push(restored);
                    assert(patch_views(out@) =~= before.push(restored@));
                    open = Some((p.start, new_start));
                }
            },
            None => {
                open = Some((p.start, new_start));
            },
        }
        last = p.end;
        new_last = new_end;
        k = k + 1;
        proof {
            if k < o.len() {
                assert(ps[o[k - 1]].end <= ps[o[k as int]].start);
            }
        }
    }
    if let Some((gs, ns)) = open {
        let ghost before = patch_views(out@);
        let piece = substr(source, gs, last);
        let restored = TextPatch { start: ns, end: new_last, replacement: piece.to_owned() };
        proof {
            vstd::utf8::encode_utf8_decode_utf8(piece@);
        }
        out.push(restored);
        assert(patch_views(out@) =~= before.push(restored@));
    }
    assert(patch_views(out@) =~= spec_inverse(src, ps));
    proof {
        lemma_inverse_roundtrip(src, ps);
    }
    out
}

// ---------------------------------------------------------------------------
// Named brace blocks
// ---------------------------------------------------------------------------

/// ASCII letters, digits, `_` and `-` make up identifiers.
pub open spec fn is_ident_byte(c: u8) -> bool {
    (48 <= c <= 57) || (65 <= c <= 90) || (97 <= c <= 122) || c == 95 || c == 45
}

/// The bytes `[s, e)` are not glued to identifier characters on either side.
pub open spec fn is_ident_boundary(b: Seq<u8>, s: int, e: int) -> bool {
    (s == 0 || !is_ident_byte(b[s - 1])) && (e == b.len() || !is_ident_byte(b[e]))
}

/// First byte at or after `c` that does not start a white-space character.
pub open spec fn skip_ws(b: Seq<u8>, c: int) -> int
    decreases b.len() - c,
{
    if c < 0 || c >= b.len() || ws_len(b, c) == 0 {
        c
    } else {
        skip_ws(b, c + ws_len(b, c))
    }
}

/// Scanning for `name` from byte `from`: the first occurrence that stands alone
/// as an identifier and is followed, after optional white space, by `{`, as the
/// pair (start of the name, offset of the brace). Each occurrence that does not
/// qualify resumes the search after its end. An empty name occurs at the
/// start of the text and qualifies when a brace follows there after optional
/// white space (it occurs nowhere else: the search never moves past it).
pub open spec fn block_start_from(b: Seq<u8>, name: Seq<u8>, from: int) -> Option<(int, int)>
    decreases b.len() + 1 - from,
{
    if name.len() == 0 {
        if from == 0 && brace_leads(b) {
            Some((0, skip_ws(b, 0)))
        } else {
            None
        }
    } else if from < 0 || from > b.len() {
        None
    } else {
        match find_from(b, name, from) {
            None => None,
            Some(s) => {
                let e = s + name.len();
                proof {
                    lemma_find_from_range(b, name, from);
                }
                if s < from {
                    None
                } else if !is_ident_boundary(b, s, e) {
                    block_start_from(b, name, e)
                } else {
                    let c = skip_ws(b, e);
                    if 0 <= c < b.len() && b[c] == 123u8 {
                        Some((s, c))
                    } else {
                        block_start_from(b, name, e)
                    }
                }
            },
        }
    }
}

/// After optional white space the text begins with `{`.
pub open spec fn brace_leads(b: Seq<u8>) -> bool {
    0 <= skip_ws(b, 0) < b.len() && b[skip_ws(b, 0)] == 123u8
}

/// The block search for `name` ends: the name is not empty, or, for the
/// empty name, a brace leads the text (otherwise the search never moves on).
pub open spec fn block_search_ends(b: Seq<u8>, name: Seq<u8>) -> bool {
    name.len() > 0 || brace_leads(b)
}

/// Scanning braces from `pos` with nesting `depth`: the offset of the `}` that
/// closes the outermost open brace.
pub open spec fn close_from(b: Seq<u8>, pos: int, depth: int) -> Option<int>
    decreases b.len() - pos,
{
    if pos < 0 || pos >= b.len() {
        None
    } else if b[pos] == 123u8 {
        close_from(b, pos + 1, depth + 1)
    } else if b[pos] == 125u8 {
        if depth - 1 == 0 {
            Some(pos)
        } else {
            close_from(b, pos + 1, depth - 1)
        }
    } else {
        close_from(b, pos + 1, depth)
    }
}

/// The block range named `name` in `b`, if the block exists and is closed.
pub open spec fn spec_block_range(b: Seq<u8>, name: Seq<u8>) -> Option<BlockRange> {
    match block_start_from(b, name, 0) {
        None => None,
        Some((s, brace)) => match close_from(b, brace, 0) {
            None => None,
            Some(close) => Some(
                BlockRange {
                    start: s as usize,
                    content_start: (brace + 1) as usize,
                    end: (close + 1) as usize,
                },
            ),
        },
    }
}

proof fn lemma_skip_ws_range(b: Seq<u8>, c: int)
    requires
        0 <= c <= b.len(),
    ensures
        c <= skip_ws(b, c) <= b.len(),
    decreases b.len() - c,
{
    if !(c < 0 || c >= b.len() || ws_len(b, c) == 0) {
        lemma_skip_ws_range(b, c + ws_len(b, c));
    }
}

proof fn lemma_close_from_range(b: Seq<u8>, pos: int, depth: int)
    requires
        0 <= pos,
    ensures
        close_from(b, pos, depth) matches Some(c) ==> pos <= c < b.len() && b[c] == 125u8,
    decreases b.len() - pos,
{
    if !(pos < 0 || pos >= b.len()) {
        if b[pos] == 123u8 {
            lemma_close_from_range(b, pos + 1, depth + 1);
        } else if b[pos] == 125u8 {
            if depth - 1 != 0 {
                lemma_close_from_range(b, pos + 1, depth - 1);
            }
        } else {
            lemma_close_from_range(b, pos + 1, depth);
        }
    }
}

fn is_identifier_byte(c: u8) -> (r: bool)
    ensures
        r == is_ident_byte(c),
{
    (48 <= c && c <= 57) || (65 <= c && c <= 90) || (97 <= c && c <= 122) || c == 95 || c == 45
}

fn is_identifier_boundary(b: &[u8], start: usize, end: usize) -> (r: bool)
    requires
        start <= end <= b@.len(),
    ensures
        r == is_ident_boundary(b@, start as int, end as int),
{
    let previous_ok = start == 0 || !is_identifier_byte(b[start - 1]);
    let next_ok = end == b.len() || !is_identifier_byte(b[end]);
    previous_ok && next_ok
}

fn skip_white(b: &[u8], from: usize) -> (r: usize)
    requires
        from <= b@.len(),
    ensures
        r == skip_ws(b@, from as int),
{
    let len = b.len();
    let mut cursor = from;
    loop
        invariant
            from <= cursor <= len,
            len == b@.len(),
            skip_ws(b@, from as int) == skip_ws(b@, cursor as int),
        ensures
            cursor == skip_ws(b@, from as int),
        decreases len - cursor,
    {
        let w = whitespace_len_at(b, cursor);
        if w == 0 {
            return cursor;
        }
        proof {
            lemma_skip_ws_range(b@, cursor as int);
        }
        cursor = cursor + w;
    }
}

fn find_named_block_start(source: &str, block_name: &str) -> (r: Option<(usize, usize)>)
    requires
        block_search_ends(source.spec_bytes(), block_name.spec_bytes()),
    ensures
        r is None <==> block_start_from(source.spec_bytes(), block_name.spec_bytes(), 0) is None,
        r matches Some((s, c)) ==> block_start_from(source.spec_bytes(), block_name.spec_bytes(), 0)
            == Some((s as int, c as int)),
        r matches Some((s, c)) ==> s <= c < source.spec_bytes().len()
            && source.spec_bytes()[c as int] == 123u8,
{
    let b = source.as_bytes();
    let name = block_name.as_bytes();
    let len = b.len();
    if name.len() == 0 {
        let cursor = skip_white(b, 0);
        proof {
            lemma_skip_ws_range(b@, 0);
        }
        return Some((0, cursor));
    }
    let mut search_from: usize = 0;
    while search_from <= len
        invariant
            b@ == source.spec_bytes(),
            name@ == block_name.spec_bytes(),
            name@.len() > 0,
            len == b@.len(),
            block_start_from(b@, name@, 0) == block_start_from(b@, name@, search_from as int),
        decreases len + 1 - search_from,
    {
        proof {
            lemma_find_from_range(b@, name@, search_from as int);
        }
        let name_start = match find_bytes(b, name, search_from) {
            Some(s) => s,
            None => {
                return None;
            },
        };
        assert(find_from(b@, name@, search_from as int) == Some(name_start as int));
        let name_end = name_start + name.len();
        if !is_identifier_boundary(b, name_start, name_end) {
            search_from = name_end;
            continue;
        }
        let mut cursor = name_end;
        loop
            invariant
                b@ == source.spec_bytes(),
                len == b@.len(),
                name_end <= cursor <= len,
                skip_ws(b@, name_end as int) == skip_ws(b@, cursor as int),
            ensures
                name_end <= cursor <= len,
                skip_ws(b@, name_end as int) == skip_ws(b@, cursor as int),
                ws_len(b@, cursor as int) == 0,
            decreases len - cursor,
        {
            let w = whitespace_len_at(b, cursor);
            if w == 0 {
                break;
            }
            cursor = cursor + w;
        }
        proof {
            lemma_skip_ws_range(b@, name_end as int);
            assert(skip_ws(b@, cursor as int) == cursor as int);
        }
        if cursor < len && b[cursor] == 123u8 {
            return Some((name_start, cursor));
        }
        search_from = name_end;
    }
    None
}

/// Locate the brace block introduced by `block_name`.
pub fn find_block_range(source: &str, block_name: &str) -> (r: Result<
    BlockRange,
    TextPatchError,
>)
    requires
        block_search_ends(source.spec_bytes(), block_name.spec_bytes()),
    ensures
        r matches Ok(range) ==> spec_block_range(source.spec_bytes(), block_name.spec_bytes())
            == Some(range),
        r is Err <==> spec_block_range(source.spec_bytes(), block_name.spec_bytes()) is None,
        r matches Err(e) ==> (if block_start_from(
            source.spec_bytes(),
            block_name.spec_bytes(),
            0,
        ) is None {
            e matches TextPatchError::BlockNotFound { block_name: n } && n@ == block_name@
        } else {
            e matches TextPatchError::UnclosedBlock { block_name: n } && n@ == block_name@
        }),
        r matches Ok(range) ==> range.start < range.content_start < range.end
            <= source.spec_bytes().len() && source.spec_bytes()[range.end - 1] == 125u8
            && source.spec_bytes()[range.content_start - 1] == 123u8,
{
    let (block_start, open_brace) = match find_named_block_start(source, block_name) {
        Some(found) => found,
        None => {
            return Err(TextPatchError::BlockNotFound { block_name: block_name.to_string() });
        },
    };
    let b = source.as_bytes();
    let len = b.len();
    let mut depth: usize = 0;
    let mut pos = open_brace;
    proof {
        lemma_close_from_range(b@, open_brace as int, 0);
    }
    while pos < len
        invariant
            b@ == source.spec_bytes(),
            len == b@.len(),
            open_brace <= pos <= len,
            pos > open_brace ==> depth >= 1,
            pos == open_brace ==> depth == 0,
            b@[open_brace as int] == 123u8,
            block_start <= open_brace < len,
            block_start_from(b@, block_name.spec_bytes(), 0) == Some(
                (block_start as int, open_brace as int),
            ),
            depth <= pos - open_brace,
            close_from(b@, open_brace as int, 0) == close_from(b@, pos as int, depth as int),
        decreases len - pos,
    {
        let c = b[pos];
        if c == 123u8 {
            depth = depth + 1;
        } else if c == 125u8 {
            depth = depth - 1;
            if depth == 0 {
                assert(close_from(b@, pos as int, 1) == Some(pos as int));
                assert(close_from(b@, open_brace as int, 0) == Some(pos as int));
                let range = BlockRange { start: block_start, content_start: open_brace + 1, end: pos + 1 };
                assert(spec_block_range(b@, block_name.spec_bytes()) == Some(range));
                return Ok(BlockRange { start: block_start, content_start: open_brace + 1, end: pos + 1 });
            }
        }
        pos = pos + 1;
    }
    Err(TextPatchError::UnclosedBlock { block_name: block_name.to_string() })
}

/// A patch that replaces the content of the named block with `replacement`.
pub fn replace_block(source: &str, block_name: &str, replacement: &str) -> (r: Result<
    TextPatch,
    TextPatchError,
>)
    requires
        block_search_ends(source.spec_bytes(), block_name.spec_bytes()),
    ensures
        r is Ok <==> spec_block_range(source.spec_bytes(), block_name.spec_bytes()) is Some,
        r matches Ok(p) ==> {
            let range = spec_block_range(source.spec_bytes(), block_name.spec_bytes())->0;
            p@ == PatchView {
                start: range.content_start,
                end: (range.end - 1) as usize,
                replacement: replacement@,
            }
        },
        r matches Err(e) ==> (if block_start_from(
            source.spec_bytes(),
            block_name.spec_bytes(),
            0,
        ) is None {
            e matches TextPatchError::BlockNotFound { block_name: n } && n@ == block_name@
        } else {
            e matches TextPatchError::UnclosedBlock { block_name: n } && n@ == block_name@
        }),
{
    let range = find_block_range(source, block_name)?;
    TextPatch::replace(range.content_start, range.end - 1, replacement)
}


// ---------------------------------------------------------------------------
// Keyed entries of a block
// ---------------------------------------------------------------------------

/// Byte spans of the top-level entries of block content `c`, scanning from
/// byte `i` with brace nesting `depth` while the current entry starts at
/// `seg_start`: an entry ends after each newline outside braces, and a
/// non-empty rest forms the last entry.
pub open spec fn entry_spans_from(c: Seq<u8>, i: int, depth: int, seg_start: int) -> Seq<(int, int)>
    decreases c.len() - i,
{
    if i < 0 || i >= c.len() {
        if seg_start < c.len() {
            seq![(seg_start, c.len() as int)]
        } else {
            Seq::empty()
        }
    } else if c[i] == 123u8 {
        entry_spans_from(c, i + 1, depth + 1, seg_start)
    } else if c[i] == 125u8 {
        entry_spans_from(
            c,
            i + 1,
            if depth > 0 {
                depth - 1
            } else {
                0
            },
            seg_start,
        )
    } else if c[i] == 10u8 && depth == 0 {
        seq![(seg_start, i + 1)] + entry_spans_from(c, i + 1, 0, i + 1)
    } else {
        entry_spans_from(c, i + 1, depth, seg_start)
    }
}

/// The top-level entries of block content `c`.
pub open spec fn entry_segments(c: Seq<u8>) -> Seq<Seq<u8>> {
    entry_spans_from(c, 0, 0, 0).map_values(|sp: (int, int)| c.subrange(sp.0, sp.1))
}

/// An entry made of white space only.
pub open spec fn is_blank(seg: Seq<u8>) -> bool {
    skip_ws(seg, 0) == seg.len()
}

/// End of the run of identifier bytes starting at `i`.
pub open spec fn ident_end(b: Seq<u8>, i: int) -> int
    decreases b.len() - i,
{
    if i < 0 || i >= b.len() || !is_ident_byte(b[i]) {
        i
    } else {
        ident_end(b, i + 1)
    }
}

/// The key of an entry: the identifier it starts with after leading white
/// space, if any.
pub open spec fn entry_key(seg: Seq<u8>) -> Option<Seq<u8>> {
    let t = skip_ws(seg, 0);
    if t >= seg.len() {
        None
    } else {
        let e = ident_end(seg, t);
        if e > t {
            Some(seg.subrange(t, e))
        } else {
            None
        }
    }
}

/// Entry spans lie within the content, after `seg_start`, and start and end
/// on character boundaries.
pub open spec fn spans_within(c: Seq<u8>, spans: Seq<(int, int)>, lo: int) -> bool {
    forall|k: int|
        0 <= k < spans.len() ==> {
            let sp = #[trigger] spans[k];
            &&& lo <= sp.0 < sp.1 <= c.len()
            &&& is_char_boundary(c, sp.0)
            &&& is_char_boundary(c, sp.1)
        }
}

proof fn lemma_entry_spans(c: Seq<u8>, i: int, depth: int, seg_start: int)
    requires
        0 <= seg_start <= i <= c.len(),
        valid_utf8(c),
        is_char_boundary(c, seg_start),
    ensures
        spans_within(c, entry_spans_from(c, i, depth, seg_start), seg_start),
    decreases c.len() - i,
{
    if i < c.len() {
        if c[i] == 123u8 {
            lemma_entry_spans(c, i + 1, depth + 1, seg_start);
        } else if c[i] == 125u8 {
            lemma_entry_spans(c, i + 1, if depth > 0 { depth - 1 } else { 0 }, seg_start);
        } else if c[i] == 10u8 && depth == 0 {
            lemma_ascii_boundary(c, i);
            lemma_entry_spans(c, i + 1, 0, i + 1);
            let rest = entry_spans_from(c, i + 1, 0, i + 1);
            let all = entry_spans_from(c, i, depth, seg_start);
            assert(all == seq![(seg_start, i + 1)] + rest);
            assert forall|k: int| 0 <= k < all.len() implies {
                let sp = #[trigger] all[k];
                &&& seg_start <= sp.0 < sp.1 <= c.len()
                &&& is_char_boundary(c, sp.0)
                &&& is_char_boundary(c, sp.1)
            } by {
                if k > 0 {
                    assert(all[k] == rest[k - 1]);
                }
            }
        } else {
            lemma_entry_spans(c, i + 1, depth, seg_start);
        }
    } else {
        is_char_boundary_start_end_of_seq(c);
    }
}

/// Splits block content into its top-level entries.
fn split_top_level_entries(source: &str) -> (r: Vec<&str>)
    ensures
        r@.len() == entry_spans_from(source.spec_bytes(), 0, 0, 0).len(),
        forall|k: int|
            0 <= k < r@.len() ==> (#[trigger] r@[k]).spec_bytes() == entry_segments(
                source.spec_bytes(),
            )[k],
{
    let b = source.as_bytes();
    let len = b.len();
    let ghost c = b@;
    proof {
        lemma_str_valid(source);
        lemma_entry_spans(c, 0, 0, 0);
    }
    let mut segments: Vec<&str> = Vec::new();
    let mut depth: usize = 0;
    let mut segment_start: usize = 0;
    let mut i: usize = 0;
    let ghost mut done: Seq<(int, int)> = Seq::empty();
    while i < len
        invariant
            c == source.spec_bytes(),
            c == b@,
            len == c.len(),
            valid_utf8(c),
            0 <= segment_start <= i <= len,
            depth <= i,
            is_char_boundary(c, segment_start as int),
            done + entry_spans_from(c, i as int, depth as int, segment_start as int)
                == entry_spans_from(c, 0, 0, 0),
            segments@.len() == done.len(),
            forall|k: int|
                0 <= k < done.len() ==> (#[trigger] segments@[k]).spec_bytes() == c.subrange(
                    done[k].0,
                    done[k].1,
                ),
        decreases len - i,
    {
        let ch = b[i];
        if ch == 123u8 {
            depth = depth + 1;
        } else if ch == 125u8 {
            if depth > 0 {
                depth = depth - 1;
            }
        } else if ch == 10u8 && depth == 0 {
            proof {
                lemma_ascii_boundary(c, i as int);
                assert(entry_spans_from(c, i as int, 0, segment_start as int) == seq![
                    (segment_start as int, i + 1),
                ] + entry_spans_from(c, i + 1, 0, i + 1));
                assert(done + entry_spans_from(c, i as int, 0, segment_start as int) =~= done.push(
                    (segment_start as int, i + 1),
                ) + entry_spans_from(c, i + 1, 0, i + 1));
            }
            segments.push(substr(source, segment_start, i + 1));
            proof {
                done = done.push((segment_start as int, i + 1));
            }
            segment_start = i + 1;
        }
        i = i + 1;
    }
    if segment_start < len {
        proof {
            is_char_boundary_start_end_of_seq(c);
            assert(done + seq![(segment_start as int, len as int)] =~= done.push(
                (segment_start as int, len as int),
            ));
        }
        segments.push(substr(source, segment_start, len));
        proof {
            done = done.push((segment_start as int, len as int));
        }
    } else {
        assert(done + Seq::<(int, int)>::empty() =~= done);
    }
    assert(done == entry_spans_from(c, 0, 0, 0));
    segments
}

/// Whether an entry holds only white space.
fn is_blank_segment(segment: &str) -> (r: bool)
    ensures
        r == is_blank(segment.spec_bytes()),
{
    let b = segment.as_bytes();
    let mut i: usize = 0;
    proof {
        lemma_skip_ws_range(b@, 0);
    }
    while i < b.len()
        invariant
            b@ == segment.spec_bytes(),
            0 <= i <= b@.len(),
            skip_ws(b@, 0) == skip_ws(b@, i as int),
        decreases b@.len() - i,
    {
        let w = whitespace_len_at(b, i);
        if w == 0 {
            return false;
        }
        i = i + w;
    }
    true
}

/// The key an entry starts with, as a slice of the entry.
fn identify_entry_key(entry: &str) -> (r: Option<&str>)
    ensures
        match r {
            Some(k) => entry_key(entry.spec_bytes()) == Some(k.spec_bytes()),
            None => entry_key(entry.spec_bytes()) is None,
        },
{
    let b = entry.as_bytes();
    let len = b.len();
    proof {
        lemma_str_valid(entry);
    }
    let mut t: usize = 0;
    while t < len
        invariant
            b@ == entry.spec_bytes(),
            len == b@.len(),
            valid_utf8(b@),
            0 <= t <= len,
            is_char_boundary(b@, t as int),
            skip_ws(b@, 0) == skip_ws(b@, t as int),
        ensures
            t >= len || ws_len(b@, t as int) == 0,
        decreases len - t,
    {
        let w = whitespace_len_at(b, t);
        if w == 0 {
            break;
        }
        proof {
            lemma_ws_char_boundary(b@, t as int);
        }
        t = t + w;
    }
    if t >= len {
        return None;
    }
    let mut e = t;
    while e < len && is_ident(b[e])
        invariant
            b@ == entry.spec_bytes(),
            len == b@.len(),
            valid_utf8(b@),
            t <= e <= len,
            is_char_boundary(b@, e as int),
            ident_end(b@, t as int) == ident_end(b@, e as int),
        decreases len - e,
    {
        proof {
            lemma_ascii_boundary(b@, e as int);
        }
        e = e + 1;
    }
    if e > t {
        Some(substr(entry, t, e))
    } else {
        None
    }
}

fn is_ident(c: u8) -> (r: bool)
    ensures
        r == is_ident_byte(c),
{
    (48 <= c && c <= 57) || (65 <= c && c <= 90) || (97 <= c && c <= 122) || c == 95 || c == 45
}

/// The first known entry at or after index `i` whose key equals the key of an
/// earlier one.
pub open spec fn first_repeated_key<'a>(es: Seq<KnownEntry<'a>>, i: int) -> Option<int>
    decreases es.len() - i,
{
    if i < 0 || i >= es.len() {
        None
    } else if exists|j: int| 0 <= j < i && #[trigger] es[j].key.spec_bytes() == es[i].key.spec_bytes() {
        Some(i)
    } else {
        first_repeated_key(es, i + 1)
    }
}

/// Number of the first `n` block entries whose key is `k`.
pub open spec fn key_count(segs: Seq<Seq<u8>>, k: Seq<u8>, n: int) -> int
    decreases n,
{
    if n <= 0 {
        0
    } else {
        key_count(segs, k, n - 1) + if entry_key(segs[n - 1]) == Some(k) {
            1int
        } else {
            0int
        }
    }
}

/// The first known entry at or after index `i` whose key starts more than one
/// block entry.
pub open spec fn first_crowded_key<'a>(segs: Seq<Seq<u8>>, es: Seq<KnownEntry<'a>>, i: int) -> Option<
    int,
>
    decreases es.len() - i,
{
    if i < 0 || i >= es.len() {
        None
    } else if key_count(segs, es[i].key.spec_bytes(), segs.len() as int) > 1 {
        Some(i)
    } else {
        first_crowded_key(segs, es, i + 1)
    }
}

/// The first known entry at or after index `i` with key `k`.
pub open spec fn entry_with_key<'a>(es: Seq<KnownEntry<'a>>, k: Seq<u8>, i: int) -> Option<int>
    decreases es.len() - i,
{
    if i < 0 || i >= es.len() {
        None
    } else if es[i].key.spec_bytes() == k {
        Some(i)
    } else {
        entry_with_key(es, k, i + 1)
    }
}

/// A block entry, replaced by the known entry with its key when there is one.
pub open spec fn merged_entry<'a>(seg: Seq<u8>, es: Seq<KnownEntry<'a>>) -> Seq<u8> {
    match entry_key(seg) {
        Some(k) => match entry_with_key(es, k, 0) {
            Some(i) => es[i].replacement.spec_bytes(),
            None => seg,
        },
        None => seg,
    }
}

/// Some block entry has key `k`.
pub open spec fn has_entry_with_key(segs: Seq<Seq<u8>>, k: Seq<u8>) -> bool {
    exists|m: int| 0 <= m < segs.len() && #[trigger] entry_key(segs[m]) == Some(k)
}

/// Replacements of the first `n` known entries whose key starts no block entry.
pub open spec fn missing_entries<'a>(segs: Seq<Seq<u8>>, es: Seq<KnownEntry<'a>>, n: int) -> Seq<
    Seq<u8>,
>
    decreases n,
{
    if n <= 0 {
        Seq::empty()
    } else {
        missing_entries(segs, es, n - 1) + if has_entry_with_key(segs, es[n - 1].key.spec_bytes()) {
            Seq::empty()
        } else {
            seq![es[n - 1].replacement.spec_bytes()]
        }
    }
}

/// `m` without its trailing blank entries.
pub open spec fn trim_blank_tail(m: Seq<Seq<u8>>) -> Seq<Seq<u8>>
    decreases m.len(),
{
    if m.len() > 0 && is_blank(m.last()) {
        trim_blank_tail(m.drop_last())
    } else {
        m
    }
}

/// The entries of `m` from index `i` on, dropping each blank entry that
/// follows a kept blank entry; `prev_blank` tells whether the last kept entry
/// was blank.
pub open spec fn compact_blank_from(m: Seq<Seq<u8>>, i: int, prev_blank: bool) -> Seq<Seq<u8>>
    decreases m.len() - i,
{
    if i < 0 || i >= m.len() {
        Seq::empty()
    } else if is_blank(m[i]) && prev_blank {
        compact_blank_from(m, i + 1, prev_blank)
    } else {
        seq![m[i]] + compact_blank_from(m, i + 1, is_blank(m[i]))
    }
}

/// The entries of `m` joined together.
pub open spec fn concat_all(m: Seq<Seq<u8>>) -> Seq<u8>
    decreases m.len(),
{
    if m.len() == 0 {
        Seq::empty()
    } else {
        concat_all(m.drop_last()) + m.last()
    }
}

/// Each block entry, replaced by the known entry with its key when there is one.
pub open spec fn merged_entries<'a>(segs: Seq<Seq<u8>>, es: Seq<KnownEntry<'a>>) -> Seq<Seq<u8>> {
    segs.map_values(|seg: Seq<u8>| merged_entry(seg, es))
}

/// The new content of a block with entries `segs` once the known entries are
/// merged in: known keys replaced in place, trailing blank entries dropped,
/// runs of blank entries shortened to one, missing entries appended, and the
/// result framed by newlines.
pub open spec fn merged_content<'a>(segs: Seq<Seq<u8>>, es: Seq<KnownEntry<'a>>) -> Seq<u8> {
    let kept = compact_blank_from(trim_blank_tail(merged_entries(segs, es)), 0, false);
    let all = kept + missing_entries(segs, es, es.len() as int);
    if all.len() == 0 {
        Seq::empty()
    } else {
        let t = concat_all(all);
        let t1 = if t.len() > 0 && t[0] == 10u8 {
            t
        } else {
            seq![10u8] + t
        };
        if t1.last() == 10u8 {
            t1
        } else {
            t1.push(10u8)
        }
    }
}

/// The bytes of each string.
pub open spec fn strs_bytes(v: Seq<&str>) -> Seq<Seq<u8>> {
    v.map_values(|s: &str| s.spec_bytes())
}

proof fn lemma_no_repeated_key<'a>(es: Seq<KnownEntry<'a>>, i: int)
    requires
        0 <= i <= es.len(),
        first_repeated_key(es, i) is None,
    ensures
        forall|a: int, b: int|
            0 <= a < b < es.len() && i <= b ==> #[trigger] es[a].key.spec_bytes()
                != #[trigger] es[b].key.spec_bytes(),
    decreases es.len() - i,
{
    if i < es.len() {
        lemma_no_repeated_key(es, i + 1);
    }
}

proof fn lemma_not_crowded<'a>(segs: Seq<Seq<u8>>, es: Seq<KnownEntry<'a>>, i: int)
    requires
        0 <= i <= es.len(),
        first_crowded_key(segs, es, i) is None,
    ensures
        forall|b: int|
            i <= b < es.len() ==> key_count(segs, #[trigger] es[b].key.spec_bytes(), segs.len() as int) <= 1,
    decreases es.len() - i,
{
    if i < es.len() {
        lemma_not_crowded(segs, es, i + 1);
    }
}

proof fn lemma_key_count_two(segs: Seq<Seq<u8>>, k: Seq<u8>, m1: int, m2: int, n: int)
    requires
        0 <= m1 < m2 < n <= segs.len(),
        entry_key(segs[m1]) == Some(k),
        entry_key(segs[m2]) == Some(k),
    ensures
        key_count(segs, k, n) >= 2,
    decreases n,
{
    lemma_key_count_nonneg(segs, k, n - 1);
    if m2 < n - 1 {
        lemma_key_count_two(segs, k, m1, m2, n - 1);
    } else {
        lemma_key_count_one(segs, k, m1, n - 1);
    }
}

proof fn lemma_key_count_one(segs: Seq<Seq<u8>>, k: Seq<u8>, m1: int, n: int)
    requires
        0 <= m1 < n <= segs.len(),
        entry_key(segs[m1]) == Some(k),
    ensures
        key_count(segs, k, n) >= 1,
    decreases n,
{
    lemma_key_count_nonneg(segs, k, n - 1);
    if m1 < n - 1 {
        lemma_key_count_one(segs, k, m1, n - 1);
    }
}

proof fn lemma_key_count_nonneg(segs: Seq<Seq<u8>>, k: Seq<u8>, n: int)
    ensures
        key_count(segs, k, n) >= 0,
    decreases n,
{
    if n > 0 {
        lemma_key_count_nonneg(segs, k, n - 1);
    }
}

proof fn lemma_entry_with_key<'a>(es: Seq<KnownEntry<'a>>, k: Seq<u8>, i: int)
    requires
        0 <= i,
    ensures
        entry_with_key(es, k, i) matches Some(x) ==> i <= x < es.len() && es[x].key.spec_bytes() == k,
        entry_with_key(es, k, i) is None ==> forall|x: int| i <= x < es.len() ==> #[trigger] es[x].key.spec_bytes() != k,
    decreases es.len() - i,
{
    if i < es.len() && es[i].key.spec_bytes() != k {
        lemma_entry_with_key(es, k, i + 1);
    }
}

proof fn lemma_entry_with_own_key<'a>(es: Seq<KnownEntry<'a>>, x: int)
    requires
        0 <= x < es.len(),
        first_repeated_key(es, 0) is None,
    ensures
        entry_with_key(es, es[x].key.spec_bytes(), 0) == Some(x),
{
    lemma_no_repeated_key(es, 0);
    lemma_entry_with_key(es, es[x].key.spec_bytes(), 0);
    let found = entry_with_key(es, es[x].key.spec_bytes(), 0);
    if let Some(y) = found {
        if y < x {
            assert(es[y].key.spec_bytes() != es[x].key.spec_bytes());
        } else if y > x {
            assert(es[x].key.spec_bytes() != es[y].key.spec_bytes());
        }
    }
}

/// Index of the first known entry from `i` on whose key is `k`.
fn find_entry(entries: &[KnownEntry<'_>], k: &str) -> (r: Option<usize>)
    ensures
        match r {
            Some(x) => entry_with_key(entries@, k.spec_bytes(), 0) == Some(x as int),
            None => entry_with_key(entries@, k.spec_bytes(), 0) is None,
        },
{
    let mut i: usize = 0;
    while i < entries.len()
        invariant
            0 <= i <= entries@.len(),
            entry_with_key(entries@, k.spec_bytes(), 0) == entry_with_key(
                entries@,
                k.spec_bytes(),
                i as int,
            ),
        decreases entries@.len() - i,
    {
        if bytes_eq(entries[i].key.as_bytes(), k.as_bytes()) {
            return Some(i);
        }
        i = i + 1;
    }
    None
}

fn ambiguous(block_name: &str, key: &str) -> (e: TextPatchError)
    ensures
        e matches TextPatchError::AmbiguousEntry { block_name: n, key: k } && n@ == block_name@
            && k@ == key@,
{
    TextPatchError::AmbiguousEntry { block_name: block_name.to_string(), key: key.to_string() }
}

/// Merge keyed entries into the named block: each known entry replaces the
/// block entry with the same key, or is appended when there is none.
///
/// Fails when two known entries share a key, or when a known key starts more
/// than one entry of the block.
#[verifier::rlimit(80)]
#[verifier::spinoff_prover]
pub fn merge_known_entries(source: &str, block_name: &str, entries: &[KnownEntry<'_>]) -> (r: Result<
    TextPatch,
    TextPatchError,
>)
    requires
        block_search_ends(source.spec_bytes(), block_name.spec_bytes()),
    ensures
        spec_block_range(source.spec_bytes(), block_name.spec_bytes()) is None ==> (if block_start_from(
            source.spec_bytes(),
            block_name.spec_bytes(),
            0,
        ) is None {
            r matches Err(TextPatchError::BlockNotFound { block_name: n }) && n@ == block_name@
        } else {
            r matches Err(TextPatchError::UnclosedBlock { block_name: n }) && n@ == block_name@
        }),
        spec_block_range(source.spec_bytes(), block_name.spec_bytes()) matches Some(range) ==> {
            let segs = entry_segments(
                source.spec_bytes().subrange(range.content_start as int, range.end - 1),
            );
            match first_repeated_key(entries@, 0) {
                Some(i) => r matches Err(TextPatchError::AmbiguousEntry { block_name: n, key: k })
                    && n@ == block_name@ && k@ == entries@[i].key@,
                None => match first_crowded_key(segs, entries@, 0) {
                    Some(i) => r matches Err(TextPatchError::AmbiguousEntry { block_name: n, key: k })
                        && n@ == block_name@ && k@ == entries@[i].key@,
                    None => r matches Ok(p) && p@.start == range.content_start && p@.end == range.end
                        - 1 && bytes_of(p@.replacement) == merged_content(segs, entries@),
                },
            }
        },
{
    let range = find_block_range(source, block_name)?;
    let ghost src = source.spec_bytes();
    let ghost es = entries@;
    proof {
        lemma_str_valid(source);
        is_char_boundary_iff_not_is_continuation_byte(src, range.end - 1);
        lemma_ascii_boundary(src, range.content_start - 1);
    }
    let block_content = substr(source, range.content_start, range.end - 1);
    let ghost c = block_content.spec_bytes();

    // Two known entries with the same key.
    let mut index: usize = 0;
    while index < entries.len()
        invariant
            spec_block_range(source.spec_bytes(), block_name.spec_bytes()) == Some(range),
            c == source.spec_bytes().subrange(range.content_start as int, range.end - 1),
            es == entries@,
            0 <= index <= es.len(),
            first_repeated_key(es, 0) == first_repeated_key(es, index as int),
        decreases es.len() - index,
    {
        let mut j: usize = 0;
        while j < index
            invariant
                spec_block_range(source.spec_bytes(), block_name.spec_bytes()) == Some(range),
                c == source.spec_bytes().subrange(range.content_start as int, range.end - 1),
                es == entries@,
                0 <= j <= index < es.len(),
                first_repeated_key(es, 0) == first_repeated_key(es, index as int),
                forall|jj: int| 0 <= jj < j ==> #[trigger] es[jj].key.spec_bytes() != es[index as int].key.spec_bytes(),
            decreases index - j,
        {
            if bytes_eq(entries[j].key.as_bytes(), entries[index].key.as_bytes()) {
                assert(first_repeated_key(es, index as int) == Some(index as int));
                return Err(ambiguous(block_name, entries[index].key));
            }
            j = j + 1;
        }
        index = index + 1;
    }
    proof {
        lemma_no_repeated_key(es, 0);
    }

    let segments = split_top_level_entries(block_content);
    let ghost segs = entry_segments(c);
    assert(strs_bytes(segments@) =~= segs);
    let mut keys: Vec<Option<&str>> = Vec::new();
    let mut m: usize = 0;
    while m < segments.len()
        invariant
            spec_block_range(source.spec_bytes(), block_name.spec_bytes()) == Some(range),
            c == source.spec_bytes().subrange(range.content_start as int, range.end - 1),
            strs_bytes(segments@) == segs,
            0 <= m <= segments@.len(),
            keys@.len() == m,
            forall|x: int|
                0 <= x < m ==> match #[trigger] keys@[x] {
                    Some(k) => entry_key(segs[x]) == Some(k.spec_bytes()),
                    None => entry_key(segs[x]) is None,
                },
        decreases segments@.len() - m,
    {
        assert(segments@[m as int].spec_bytes() == segs[m as int]);
        keys.push(identify_entry_key(segments[m]));
        m = m + 1;
    }

    // A known key that starts several block entries.
    let mut index: usize = 0;
    while index < entries.len()
        invariant
            spec_block_range(source.spec_bytes(), block_name.spec_bytes()) == Some(range),
            c == source.spec_bytes().subrange(range.content_start as int, range.end - 1),
            es == entries@,
            strs_bytes(segments@) == segs,
            keys@.len() == segs.len(),
            forall|x: int|
                0 <= x < keys@.len() ==> match #[trigger] keys@[x] {
                    Some(k) => entry_key(segs[x]) == Some(k.spec_bytes()),
                    None => entry_key(segs[x]) is None,
                },
            0 <= index <= es.len(),
            first_crowded_key(segs, es, 0) == first_crowded_key(segs, es, index as int),
            first_repeated_key(es, 0) is None,
            segs == entry_segments(c),
        decreases es.len() - index,
    {
        let key = entries[index].key;
        let mut count: usize = 0;
        let mut x: usize = 0;
        while x < keys.len()
            invariant
                spec_block_range(source.spec_bytes(), block_name.spec_bytes()) == Some(range),
                c == source.spec_bytes().subrange(range.content_start as int, range.end - 1),
                keys@.len() == segs.len(),
                forall|y: int|
                    0 <= y < keys@.len() ==> match #[trigger] keys@[y] {
                        Some(k) => entry_key(segs[y]) == Some(k.spec_bytes()),
                        None => entry_key(segs[y]) is None,
                    },
                0 <= x <= keys@.len(),
                count == key_count(segs, key.spec_bytes(), x as int),
                first_crowded_key(segs, es, 0) == first_crowded_key(segs, es, index as int),
                first_repeated_key(es, 0) is None,
                segs == entry_segments(c),
                es == entries@,
                index < es.len(),
                key.spec_bytes() == es[index as int].key.spec_bytes(),
                key@ == es[index as int].key@,
                count <= x,
            decreases keys@.len() - x,
        {
            let hit = match keys[x] {
                Some(k) => bytes_eq(k.as_bytes(), key.as_bytes()),
                None => false,
            };
            assert(hit == (entry_key(segs[x as int]) == Some(key.spec_bytes())));
            if hit {
                count = count + 1;
            }
            x = x + 1;
        }
        if count > 1 {
            return Err(ambiguous(block_name, key));
        }
        index = index + 1;
    }
    proof {
        lemma_not_crowded(segs, es, 0);
    }

    // Known keys replaced in place.
    let mut seen: Vec<bool> = Vec::new();
    let mut i: usize = 0;
    while i < entries.len()
        invariant
            spec_block_range(source.spec_bytes(), block_name.spec_bytes()) == Some(range),
            c == source.spec_bytes().subrange(range.content_start as int, range.end - 1),
            es == entries@,
            0 <= i <= es.len(),
            seen@.len() == i,
            forall|y: int| 0 <= y < i ==> !#[trigger] seen@[y],
        decreases es.len() - i,
    {
        seen.push(false);
        i = i + 1;
    }
    let ghost all_merged = merged_entries(segs, es);
    let mut merged: Vec<&str> = Vec::new();
    let mut m: usize = 0;
    while m < segments.len()
        invariant
            spec_block_range(source.spec_bytes(), block_name.spec_bytes()) == Some(range),
            c == source.spec_bytes().subrange(range.content_start as int, range.end - 1),
            es == entries@,
            strs_bytes(segments@) == segs,
            keys@.len() == segs.len(),
            forall|x: int|
                0 <= x < keys@.len() ==> match #[trigger] keys@[x] {
                    Some(k) => entry_key(segs[x]) == Some(k.spec_bytes()),
                    None => entry_key(segs[x]) is None,
                },
            forall|a: int, b: int|
                0 <= a < b < es.len() ==> #[trigger] es[a].key.spec_bytes()
                    != #[trigger] es[b].key.spec_bytes(),
            forall|b: int|
                0 <= b < es.len() ==> key_count(segs, #[trigger] es[b].key.spec_bytes(), segs.len() as int) <= 1,
            first_repeated_key(es, 0) is None,
            all_merged == merged_entries(segs, es),
            0 <= m <= segs.len(),
            seen@.len() == es.len(),
            forall|y: int|
                0 <= y < es.len() ==> (#[trigger] seen@[y] <==> exists|z: int|
                    0 <= z < m && #[trigger] entry_key(segs[z]) == Some(es[y].key.spec_bytes())),
            strs_bytes(merged@) == all_merged.take(m as int),
        decreases segs.len() - m,
    {
        let ghost before = strs_bytes(merged@);
        assert(segments@[m as int].spec_bytes() == segs[m as int]);
        let mut replaced = false;
        if let Some(k) = keys[m] {
            if let Some(e) = find_entry(entries, k) {
                proof {
                    lemma_entry_with_key(es, k.spec_bytes(), 0);
                    if seen@[e as int] {
                        let z = choose|z: int|
                            0 <= z < m && #[trigger] entry_key(segs[z]) == Some(es[e as int].key.spec_bytes());
                        lemma_key_count_two(segs, k.spec_bytes(), z, m as int, segs.len() as int);
                        assert(false);
                    }
                }
                assert(merged_entry(segs[m as int], es) == es[e as int].replacement.spec_bytes());
                merged.push(entries[e].replacement);
                seen.set(e, true);
                replaced = true;
            }
        }
        if !replaced {
            merged.push(segments[m]);
        }
        proof {
            assert forall|y: int|
                0 <= y < es.len() implies (#[trigger] seen@[y] <==> exists|z: int|
                    0 <= z < m + 1 && #[trigger] entry_key(segs[z]) == Some(es[y].key.spec_bytes())) by {
                if entry_key(segs[m as int]) == Some(es[y].key.spec_bytes()) {
                    lemma_entry_with_own_key(es, y);
                }
            }
            assert(strs_bytes(merged@) =~= before.push(merged_entry(segs[m as int], es)));
            assert(strs_bytes(merged@) =~= all_merged.take(m + 1));
        }
        m = m + 1;
    }
    assert(all_merged.take(segs.len() as int) =~= all_merged);

    // Trailing blank entries dropped.
    let ghost trimmed = trim_blank_tail(all_merged);
    while merged.len() > 0 && is_blank_segment(merged[merged.len() - 1])
        invariant
            spec_block_range(source.spec_bytes(), block_name.spec_bytes()) == Some(range),
            c == source.spec_bytes().subrange(range.content_start as int, range.end - 1),
            trim_blank_tail(strs_bytes(merged@)) == trimmed,
        decreases merged@.len(),
    {
        let ghost before = strs_bytes(merged@);
        merged.pop();
        assert(strs_bytes(merged@) =~= before.drop_last());
    }
    assert(trim_blank_tail(strs_bytes(merged@)) == strs_bytes(merged@));

    // Runs of blank entries shortened.
    let ghost kept = compact_blank_from(trimmed, 0, false);
    let mut compacted: Vec<&str> = Vec::new();
    let mut previous_blank = false;
    let mut x: usize = 0;
    while x < merged.len()
        invariant
            spec_block_range(source.spec_bytes(), block_name.spec_bytes()) == Some(range),
            c == source.spec_bytes().subrange(range.content_start as int, range.end - 1),
            strs_bytes(merged@) == trimmed,
            0 <= x <= merged@.len(),
            strs_bytes(compacted@) + compact_blank_from(trimmed, x as int, previous_blank) == kept,
        decreases merged@.len() - x,
    {
        let segment = merged[x];
        assert(segment.spec_bytes() == trimmed[x as int]);
        let blank = is_blank_segment(segment);
        if blank && previous_blank {
            x = x + 1;
        } else {
            let ghost before = strs_bytes(compacted@);
            compacted.push(segment);
            proof {
                assert(strs_bytes(compacted@) =~= before.push(trimmed[x as int]));
                assert(before + compact_blank_from(trimmed, x as int, previous_blank) =~= strs_bytes(
                    compacted@,
                ) + compact_blank_from(trimmed, x + 1, blank));
            }
            previous_blank = blank;
            x = x + 1;
        }
    }
    assert(strs_bytes(compacted@) =~= kept);

    // Missing entries appended.
    let mut y: usize = 0;
    while y < entries.len()
        invariant
            spec_block_range(source.spec_bytes(), block_name.spec_bytes()) == Some(range),
            c == source.spec_bytes().subrange(range.content_start as int, range.end - 1),
            es == entries@,
            seen@.len() == es.len(),
            forall|z: int|
                0 <= z < es.len() ==> (#[trigger] seen@[z] <==> has_entry_with_key(
                    segs,
                    es[z].key.spec_bytes(),
                )),
            0 <= y <= es.len(),
            strs_bytes(compacted@) == kept + missing_entries(segs, es, y as int),
        decreases es.len() - y,
    {
        if !seen[y] {
            let ghost before = strs_bytes(compacted@);
            compacted.push(entries[y].replacement);
            assert(strs_bytes(compacted@) =~= before.push(es[y as int].replacement.spec_bytes()));
        }
        assert(kept + missing_entries(segs, es, y + 1) =~= kept + missing_entries(segs, es, y as int)
            + if has_entry_with_key(segs, es[y as int].key.spec_bytes()) {
            Seq::<Seq<u8>>::empty()
        } else {
            seq![es[y as int].replacement.spec_bytes()]
        });
        y = y + 1;
    }

    // Joined and framed by newlines.
    let ghost all = strs_bytes(compacted@);
    let mut replacement = empty_string();
    if compacted.len() > 0 {
        let mut text = empty_string();
        let mut z: usize = 0;
        while z < compacted.len()
            invariant
                spec_block_range(source.spec_bytes(), block_name.spec_bytes()) == Some(range),
                c == source.spec_bytes().subrange(range.content_start as int, range.end - 1),
                all == strs_bytes(compacted@),
                0 <= z <= all.len(),
                bytes_of(text@) == concat_all(all.take(z as int)),
            decreases all.len() - z,
        {
            push_str(&mut text, compacted[z]);
            assert(all.take(z + 1).drop_last() =~= all.take(z as int));
            z = z + 1;
        }
        assert(all.take(all.len() as int) =~= all);
        let ghost t = bytes_of(text@);
        proof {
            reveal_strlit("\n");
            lemma_ascii_char_bytes('\n');
            assert("\n"@ =~= seq!['\n']);
            assert(('\n' as u8) == 10u8);
            assert("\n".spec_bytes() == seq![10u8]);
        }
        let tb = text.as_str().as_bytes();
        if tb.len() == 0 || tb[0] != 10u8 {
            push_str(&mut replacement, "\n");
        }
        push_str(&mut replacement, text.as_str());
        let ghost t1 = if t.len() > 0 && t[0] == 10u8 {
            t
        } else {
            seq![10u8] + t
        };
        assert(bytes_of(replacement@) =~= t1);
        let rb = replacement.as_str().as_bytes();
        if rb[rb.len() - 1] != 10u8 {
            push_str(&mut replacement, "\n");
        }
        assert(bytes_of(replacement@) =~= (if t1.last() == 10u8 {
            t1
        } else {
            t1.push(10u8)
        }));
    }
    assert(first_repeated_key(es, 0) is None);
    assert(first_crowded_key(segs, es, 0) is None);
    assert(all == kept + missing_entries(segs, es, es.len() as int));
    assert(bytes_of(replacement@) == merged_content(segs, es));
    TextPatch::replace(range.content_start, range.end - 1, replacement.as_str())
}

} // verus!

//! A text buffer that keeps its line index in step with every edit, and
//! editing helpers: indentation detection, bracket matching, auto-indent and
//! auto-close.

use vstd::prelude::*;
use vstd::string::StringSliceAdditionalSpecFns;
use vstd::utf8::*;
use crate::strutil::{bytes_of, lemma_ascii_boundary, lemma_str_valid, substr};
use crate::textview::{is_line_of, line_starts_of, starts_wf, LineIndex, RangeChange, TextRange};
use crate::textpatch::{ranges_in_order, assemble, TextPatchError, delta_sum, is_patch_order, is_permutation, lemma_apply_len, lemma_delta_sum_permutation, lemma_valid_disjoint, length_delta, patch_order, patch_views, spec_apply, spec_validate, PatchView, TextPatch};
use crate::diffcore::{lemma_newline_from, lemma_spans_from, newline_from, spans_from};
use crate::wrap::{BreakRule, CharWidth, WrapMap, WrapPolicy, wrap_spec, wrappable, wrapped_lines};
use crate::decor::{DecorationSet, map_entries_through};
use crate::history::{EditHistory, edit_recorded};

verus! {

// ---------------------------------------------------------------------------
// Indentation detection
// ---------------------------------------------------------------------------

/// Detected indentation style of a text buffer.
#[derive(Debug, Clone, Copy, PartialEq, Eq, Structural)]
pub enum IndentStyle {
    Tabs,
    Spaces(u32),
}

/// Greatest common divisor by Euclid's algorithm.
pub open spec fn spec_gcd(a: nat, b: nat) -> nat
    decreases b,
{
    if b == 0 {
        a
    } else {
        spec_gcd(b, a % b)
    }
}

fn gcd_u32(a: u32, b: u32) -> (r: u32)
    ensures
        r == spec_gcd(a as nat, b as nat),
    decreases b,
{
    if b == 0 {
        a
    } else {
        gcd_u32(b, a % b)
    }
}

/// End of the content of the line spanning `[s, e)`: without its trailing
/// `\n`, and without a `\r` just before that `\n`.
pub open spec fn content_end(b: Seq<u8>, s: int, e: int) -> int {
    if e > s && b[e - 1] == 10u8 {
        if e - 1 > s && b[e - 2] == 13u8 {
            e - 2
        } else {
            e - 1
        }
    } else {
        e
    }
}

/// Width of the leading run of spaces and tabs of the line spanning `[s, e)`.
pub open spec fn lead_width(b: Seq<u8>, s: int, e: int) -> int {
    indent_run(b, s, content_end(b, s, e))
}

/// The line spanning `[s, e)` starts with spaces or tabs and holds something
/// else after them.
pub open spec fn is_indented(b: Seq<u8>, s: int, e: int) -> bool {
    0 < lead_width(b, s, e) < content_end(b, s, e) - s
}

/// Number of indented lines among the first `n` spans that start with a tab.
pub open spec fn tab_lines(b: Seq<u8>, spans: Seq<(int, int)>, n: int) -> int
    decreases n,
{
    if n <= 0 {
        0
    } else {
        let (s, e) = spans[n - 1];
        tab_lines(b, spans, n - 1) + if is_indented(b, s, e) && b[s] == 9u8 {
            1int
        } else {
            0int
        }
    }
}

/// Number of indented lines among the first `n` spans that start with a space.
pub open spec fn space_lines(b: Seq<u8>, spans: Seq<(int, int)>, n: int) -> int
    decreases n,
{
    if n <= 0 {
        0
    } else {
        let (s, e) = spans[n - 1];
        space_lines(b, spans, n - 1) + if is_indented(b, s, e) && b[s] == 32u8 {
            1int
        } else {
            0int
        }
    }
}

/// The greatest common divisor of the indentation widths of the lines among
/// the first `n` spans that start with a space (0 when there are none).
pub open spec fn space_gcd(b: Seq<u8>, spans: Seq<(int, int)>, n: int) -> nat
    decreases n,
{
    if n <= 0 {
        0
    } else {
        let (s, e) = spans[n - 1];
        let g = space_gcd(b, spans, n - 1);
        if is_indented(b, s, e) && b[s] == 32u8 {
            spec_gcd(g, lead_width(b, s, e) as nat)
        } else {
            g
        }
    }
}

/// The indentation style of the first `sample` lines of the text `b`: tabs
/// when at least as many indented lines start with a tab as with a space,
/// else spaces of the common width; four spaces when nothing is indented.
pub open spec fn spec_detect_indent(b: Seq<u8>, sample: int) -> IndentStyle {
    let spans = spans_from(b, 0);
    let n = if sample < spans.len() {
        sample
    } else {
        spans.len() as int
    };
    let tabs = tab_lines(b, spans, n);
    let spaces = space_lines(b, spans, n);
    if tabs == 0 && spaces == 0 {
        IndentStyle::Spaces(4)
    } else if tabs >= spaces {
        IndentStyle::Tabs
    } else {
        let g = space_gcd(b, spans, n);
        if g == 0 {
            IndentStyle::Spaces(4)
        } else {
            IndentStyle::Spaces(g as u32)
        }
    }
}

// ---------------------------------------------------------------------------
// Editor buffer
// ---------------------------------------------------------------------------

/// A text together with its line index, kept in step with every edit.
pub struct EditorBuffer {
    text: String,
    line_index: LineIndex,
}

impl EditorBuffer {
    /// The characters of the buffer's text.
    pub closed spec fn spec_text(self) -> Seq<char> {
        self.text@
    }

    #[verifier::type_invariant]
    closed spec fn inv(self) -> bool {
        &&& self.line_index.starts() == line_starts_of(bytes_of(self.text@))
        &&& self.line_index.spec_len() == bytes_of(self.text@).len()
        &&& bytes_of(self.text@).len() < u32::MAX
    }

    pub fn new(text: String) -> (buffer: Self)
        requires
            bytes_of(text@).len() < u32::MAX,
        ensures
            buffer.spec_text() == text@,
    {
        let line_index = LineIndex::new(text.as_str());
        Self { text, line_index }
    }

    pub fn text(&self) -> (r: &str)
        ensures
            r@ == self.spec_text(),
            bytes_of(r@).len() < u32::MAX,
    {
        proof {
            use_type_invariant(self);
        }
        self.text.as_str()
    }

    pub fn line_index(&self) -> (r: &LineIndex)
        ensures
            r.starts() == line_starts_of(bytes_of(self.spec_text())),
            r.spec_len() == bytes_of(self.spec_text()).len(),
    {
        proof {
            use_type_invariant(self);
        }
        &self.line_index
    }

    /// Detects the predominant indentation style by analyzing the first
    /// `sample_lines` lines. Returns `Spaces(4)` as default when detection is
    /// inconclusive.
    #[verifier::rlimit(40)]
    pub fn detect_indent(&self, sample_lines: usize) -> (r: IndentStyle)
        ensures
            r == spec_detect_indent(bytes_of(self.spec_text()), sample_lines as int),
    {
        proof {
            use_type_invariant(self);
        }
        let t = self.text.as_str();
        let b = t.as_bytes();
        let len = b.len();
        let ghost spans = spans_from(b@, 0);
        proof {
            lemma_str_valid(t);
            lemma_spans_from(b@, 0);
            assert(spans.skip(0) =~= spans);
        }
        let mut tab_count: usize = 0;
        let mut space_count: usize = 0;
        let mut gcd: u32 = 0;
        let mut pos: usize = 0;
        let mut count: usize = 0;
        while pos < len && count < sample_lines
            invariant
                b@ == bytes_of(self.text@),
                spans == spans_from(b@, 0),
                len == b@.len(),
                len < u32::MAX,
                0 <= pos <= len,
                count <= pos,
                count <= sample_lines,
                count <= spans.len(),
                spans_from(b@, pos as int) == spans.skip(count as int),
                tab_count == tab_lines(b@, spans, count as int),
                space_count == space_lines(b@, spans, count as int),
                gcd == space_gcd(b@, spans, count as int),
                tab_count <= count,
                space_count <= count,
            decreases len - pos,
        {
            let mut e = pos;
            while e < len && b[e] != 10u8
                invariant
                    b@ == bytes_of(self.text@),
                    len == b@.len(),
                    pos <= e <= len,
                    forall|t: int| pos <= t < e ==> b@[t] != 10u8,
                decreases len - e,
            {
                e = e + 1;
            }
            let line_end = if e < len {
                e + 1
            } else {
                len
            };
            proof {
                lemma_newline_from(b@, pos as int);
                if e < len {
                    assert(newline_from(b@, pos as int) == Some(e as int));
                } else {
                    assert(newline_from(b@, pos as int) is None);
                }
                assert(spans_from(b@, pos as int) == seq![(pos as int, line_end as int)] + spans_from(
                    b@,
                    line_end as int,
                ));
                assert(spans.skip(count as int)[0] == spans[count as int]);
                let rest = spans_from(b@, line_end as int);
                assert((seq![(pos as int, line_end as int)] + rest).skip(1) =~= rest);
                assert(spans.skip(count as int).skip(1) =~= spans.skip(count + 1));
                assert(rest == spans.skip(count + 1));
            }
            let mut ce = line_end;
            if line_end > pos && b[line_end - 1] == 10u8 {
                ce = line_end - 1;
                if ce > pos && b[ce - 1] == 13u8 {
                    ce = ce - 1;
                }
            }
            assert(ce == content_end(b@, pos as int, line_end as int));
            let mut w = pos;
            while w < ce && (b[w] == 32u8 || b[w] == 9u8)
                invariant
                    b@ == bytes_of(self.text@),
                    len == b@.len(),
                    pos <= w <= ce <= len,
                    indent_run(b@, pos as int, ce as int) == (w - pos) + indent_run(
                        b@,
                        w as int,
                        ce as int,
                    ),
                decreases ce - w,
            {
                w = w + 1;
            }
            assert(indent_run(b@, w as int, ce as int) == 0);
            let width = w - pos;
            assert(width == lead_width(b@, pos as int, line_end as int));
            if width > 0 && w < ce {
                if b[pos] == 9u8 {
                    tab_count = tab_count + 1;
                } else {
                    space_count = space_count + 1;
                    gcd = gcd_u32(gcd, width as u32);
                }
            }
            pos = line_end;
            count = count + 1;
        }
        proof {
            if pos == len {
                assert(spans_from(b@, len as int).len() == 0);
                assert(count == spans.len());
            }
        }
        if tab_count == 0 && space_count == 0 {
            return IndentStyle::Spaces(4);
        }
        if tab_count >= space_count {
            IndentStyle::Tabs
        } else if gcd == 0 {
            IndentStyle::Spaces(4)
        } else {
            IndentStyle::Spaces(gcd)
        }
    }

    /// Apply patches, update the text and its line index, and return the
    /// range changes for downstream consumers.
    ///
    /// On error the buffer is left as it was.
    pub fn apply_patches(&mut self, patches: &[TextPatch]) -> (r: Result<
        Vec<RangeChange>,
        TextPatchError,
    >)
        requires
            spec_validate(bytes_of(old(self).spec_text()), patch_views(patches@)) is Ok ==> spec_apply(
                bytes_of(old(self).spec_text()),
                patch_views(patches@),
            ).len() < u32::MAX,
            spec_validate(bytes_of(old(self).spec_text()), patch_views(patches@)) is Ok ==> forall|
                k: int,
            |
                0 <= k < patches@.len() ==> #[trigger] spec_range_changes(patch_views(patches@))[k].1
                    <= usize::MAX,
        ensures
            r is Ok <==> spec_validate(bytes_of(old(self).spec_text()), patch_views(patches@)) is Ok,
            r matches Err(e) ==> spec_validate(bytes_of(old(self).spec_text()), patch_views(patches@))
                == Err::<(), TextPatchError>(e) && final(self).spec_text() == old(self).spec_text(),
            r matches Ok(changes) ==> bytes_of(final(self).spec_text()) == spec_apply(
                bytes_of(old(self).spec_text()),
                patch_views(patches@),
            ) && changes_view(changes@) == spec_range_changes(patch_views(patches@))
                && changes@.len() == patches@.len() && forall|k: int|
                0 <= k < changes@.len() ==> #[trigger] spec_range_changes(patch_views(patches@))[k].2
                    <= bytes_of(final(self).spec_text()).len(),
            r matches Ok(changes) ==> is_change_order(
                patch_views(patches@),
                change_order(patch_views(patches@)),
            ),
            is_patch_order(patch_views(patches@), patch_order(patch_views(patches@))),
    {
        proof {
            use_type_invariant(&*self);
        }
        let new_text = match crate::textpatch::apply_patches(self.text.as_str(), patches) {
            Ok(t) => t,
            Err(e) => return Err(e),
        };
        let range_changes = build_range_changes(patches, Ghost(bytes_of(self.text@)));
        let line_index = LineIndex::new(new_text.as_str());
        *self = EditorBuffer { text: new_text, line_index };
        Ok(range_changes)
    }

    /// Apply patches and carry the edit to the systems that follow the text:
    /// record it in `history` (labelled `label`, or with an empty label) before
    /// the text changes, shift `decorations` through the range changes, and
    /// rewrap the touched lines of `wrap_map` when a policy is given.
    ///
    /// On error nothing changes.
    pub fn apply_patches_with<W: CharWidth, B: BreakRule>(
        &mut self,
        patches: &[TextPatch],
        decorations: &mut DecorationSet,
        wrap_map: Option<&mut WrapMap>,
        wrap_policy: Option<&WrapPolicy<W, B>>,
        history: Option<&mut EditHistory>,
        label: Option<&str>,
    ) -> (r: Result<(), TextPatchError>)
        requires
            spec_validate(bytes_of(old(self).spec_text()), patch_views(patches@)) is Ok ==> spec_apply(
                bytes_of(old(self).spec_text()),
                patch_views(patches@),
            ).len() < u32::MAX,
            spec_validate(bytes_of(old(self).spec_text()), patch_views(patches@)) is Ok ==> forall|
                k: int,
            |
                0 <= k < patches@.len() ==> #[trigger] spec_range_changes(patch_views(patches@))[k].1
                    <= usize::MAX,
            history matches Some(h) ==> h.wf() && spec_validate(
                bytes_of(old(self).spec_text()),
                patch_views(patches@),
            ) is Ok,
            spec_validate(bytes_of(old(self).spec_text()), patch_views(patches@)) is Ok ==> (
            wrap_map matches Some(w) ==> (wrap_policy matches Some(pol) ==> w.spec_lines().len()
                == line_starts_of(bytes_of(old(self).spec_text())).len() && lines_wrappable(
                spec_apply(bytes_of(old(self).spec_text()), patch_views(patches@)),
                w.spec_max_width() as int,
                *pol,
            ))),
        ensures
            r is Ok <==> spec_validate(bytes_of(old(self).spec_text()), patch_views(patches@)) is Ok,
            r matches Err(e) ==> {
                &&& spec_validate(bytes_of(old(self).spec_text()), patch_views(patches@)) == Err::<
                    (),
                    TextPatchError,
                >(e)
                &&& final(self).spec_text() == old(self).spec_text()
                &&& final(decorations).spec_entries() == old(decorations).spec_entries()
                &&& wrap_map matches Some(w) ==> final(w).spec_lines() == w.spec_lines()
            },
            final(decorations).spec_next_id() == old(decorations).spec_next_id(),
            wrap_map matches Some(w) ==> final(w).spec_max_width() == w.spec_max_width(),
            r is Ok ==> bytes_of(final(self).spec_text()) == spec_apply(
                bytes_of(old(self).spec_text()),
                patch_views(patches@),
            ),
            r is Ok ==> exists|cs: Seq<RangeChange>|
                #![trigger map_entries_through(old(decorations).spec_entries(), cs)]
                changes_view(cs) == spec_range_changes(patch_views(patches@))
                    && final(decorations).spec_entries() == map_entries_through(
                    old(decorations).spec_entries(),
                    cs,
                ),
            r is Ok ==> (wrap_map matches Some(w) ==> (wrap_policy matches Some(pol) ==> (patches@.len()
                > 0 ==> wrap_updated(
                w.spec_lines(),
                final(w).spec_lines(),
                line_starts_of(bytes_of(old(self).spec_text())),
                bytes_of(final(self).spec_text()),
                patch_views(patches@),
                spec_range_changes(patch_views(patches@)),
                w.spec_max_width() as int,
                *pol,
            )) && (patches@.len() == 0 ==> final(w).spec_lines() == w.spec_lines())) && (
            wrap_policy is None ==> final(w).spec_lines() == w.spec_lines())),
            history matches Some(h) ==> exists|id: u64|
                #[trigger] edit_recorded(
                    *h,
                    *final(h),
                    id,
                    label_chars(label),
                    bytes_of(old(self).spec_text()),
                    patch_views(patches@),
                ),
    {
        proof {
            use_type_invariant(&*self);
        }
        let ghost src = bytes_of(self.text@);
        let ghost ps = patch_views(patches@);
        let old_line_index = match &wrap_map {
            Some(_) => Some(self.line_index.clone()),
            None => None,
        };
        match history {
            Some(history) => {
                let ghost old_h = *history;
                let name = match label {
                    Some(l) => l,
                    None => "",
                };
                proof {
                    reveal_strlit("");
                }
                let forward = copy_patches(patches);
                let id = history.push_edit(name, self.text.as_str(), forward);
                assert(name@ == label_chars(label));
                assert(edit_recorded(old_h, *history, id, label_chars(label), src, ps));
            },
            None => {},
        }
        let range_changes = match self.apply_patches(patches) {
            Ok(c) => c,
            Err(e) => {
                return Err(e);
            },
        };
        let ghost entries0 = decorations.spec_entries();
        decorations.map_through_changes(range_changes.as_slice());
        match (wrap_map, wrap_policy) {
            (Some(wrap_map), Some(wrap_policy)) => {
                let old_index = match &old_line_index {
                    Some(i) => i,
                    None => {
                        proof {
                            assert(false);
                        }
                        return Ok(());
                    },
                };
                ranges_in_order(patches);
                proof {
                    use_type_invariant(&*self);
                    lemma_wrap_update_ready(src, ps, bytes_of(self.text@), range_changes@);
                    crate::textview::lemma_line_starts_wf(src);
                    assert forall|i: int| 0 <= i < patches@.len() implies #[trigger] patches@[i]@.start
                        <= patches@[i]@.end <= old_index.spec_len() by {
                        assert(ps[i] == patches@[i]@);
                    }
                    assert forall|i: int| 0 <= i < range_changes@.len() implies #[trigger] range_changes@[i].spec_new_end()
                        <= bytes_of(self.text@).len() by {
                        assert(changes_view(range_changes@)[i].2 == range_changes@[i].spec_new_end());
                    }
                }
                update_wrap_map(
                    wrap_map,
                    wrap_policy,
                    old_index,
                    self.text.as_str(),
                    &self.line_index,
                    patches,
                    range_changes.as_slice(),
                );
            },
            _ => {},
        }
        Ok(())
    }
}

// ---------------------------------------------------------------------------
// Range changes of a patch set
// ---------------------------------------------------------------------------

/// Patch `i` comes before patch `j` among range changes: by start, then by
/// end, then by position in the input.
pub open spec fn change_lt(ps: Seq<PatchView>, i: int, j: int) -> bool {
    ||| ps[i].start < ps[j].start
    ||| ps[i].start == ps[j].start && ps[i].end < ps[j].end
    ||| ps[i].start == ps[j].start && ps[i].end == ps[j].end && i < j
}

/// `o` lists every patch index exactly once, in `change_lt` order.
pub open spec fn is_change_order(ps: Seq<PatchView>, o: Seq<int>) -> bool {
    &&& o.len() == ps.len()
    &&& forall|x: int| 0 <= x < o.len() ==> 0 <= #[trigger] o[x] < ps.len()
    &&& forall|i: int| 0 <= i < ps.len() ==> #[trigger] o.contains(i)
    &&& forall|x: int, y: int|
        0 <= x < y < o.len() ==> change_lt(ps, #[trigger] o[x], #[trigger] o[y])
}

/// The patch indices in the order their range changes are reported.
pub open spec fn change_order(ps: Seq<PatchView>) -> Seq<int> {
    choose|o: Seq<int>| is_change_order(ps, o)
}

/// One range change per patch, in change order: the patch's range shifted by
/// the net length change of the patches reported before it, and the end of
/// its replacement.
pub open spec fn spec_range_changes(ps: Seq<PatchView>) -> Seq<(int, int, int)> {
    let o = change_order(ps);
    Seq::new(
        o.len(),
        |k: int|
            {
                let p = ps[o[k]];
                let d = delta_sum(ps, o, k);
                (p.start + d, p.end + d, p.start + d + p.replacement_bytes().len())
            },
    )
}

/// The abstract values of range changes.
pub open spec fn changes_view(cs: Seq<RangeChange>) -> Seq<(int, int, int)> {
    cs.map_values(
        |c: RangeChange| (c.spec_start() as int, c.spec_old_end() as int, c.spec_new_end() as int),
    )
}

proof fn lemma_change_order_prefix_eq(ps: Seq<PatchView>, o1: Seq<int>, o2: Seq<int>, x: int)
    requires
        is_change_order(ps, o1),
        is_change_order(ps, o2),
        0 <= x < o1.len(),
    ensures
        forall|y: int| 0 <= y <= x ==> o1[y] == o2[y],
    decreases x,
{
    if x > 0 {
        lemma_change_order_prefix_eq(ps, o1, o2, x - 1);
    }
    let a = o1[x];
    assert(o2.contains(a));
    let k = choose|k: int| 0 <= k < o2.len() && o2[k] == a;
    if k < x {
        assert(o1[k] == o2[k]);
        assert(change_lt(ps, o1[k], o1[x]));
    } else if k > x {
        let b = o2[x];
        assert(o1.contains(b));
        let m = choose|m: int| 0 <= m < o1.len() && o1[m] == b;
        assert(change_lt(ps, o2[x], o2[k]));
        if m < x {
            assert(o1[m] == o2[m]);
            assert(change_lt(ps, o2[m], o2[x]));
        } else if m > x {
            assert(change_lt(ps, o1[x], o1[m]));
        }
    }
}

/// There is at most one change order.
pub proof fn lemma_change_order_unique(ps: Seq<PatchView>, o1: Seq<int>, o2: Seq<int>)
    requires
        is_change_order(ps, o1),
        is_change_order(ps, o2),
    ensures
        o1 == o2,
{
    if o1.len() > 0 {
        lemma_change_order_prefix_eq(ps, o1, o2, o1.len() - 1);
    }
    assert(o1 =~= o2);
}

spec fn as_ints(v: Seq<usize>) -> Seq<int> {
    v.map_values(|x: usize| x as int)
}

/// The start and end of every patch.
fn patch_keys(patches: &[TextPatch]) -> (keys: Vec<(usize, usize)>)
    ensures
        keys@.len() == patches@.len(),
        forall|i: int|
            0 <= i < keys@.len() ==> #[trigger] keys@[i].0 == patches@[i]@.start && keys@[i].1
                == patches@[i]@.end && keys@[i].0 <= keys@[i].1,
{
    let mut keys: Vec<(usize, usize)> = Vec::new();
    let mut i: usize = 0;
    while i < patches.len()
        invariant
            0 <= i <= patches@.len(),
            keys@.len() == i,
            forall|j: int|
                0 <= j < i ==> #[trigger] keys@[j].0 == patches@[j]@.start && keys@[j].1
                    == patches@[j]@.end && keys@[j].0 <= keys@[j].1,
        decreases patches@.len() - i,
    {
        keys.push((patches[i].start(), patches[i].end()));
        i = i + 1;
    }
    keys
}

/// `keys` holds the start and end of every patch of `ps`.
spec fn keys_match(keys: Seq<(usize, usize)>, ps: Seq<PatchView>) -> bool {
    &&& keys.len() == ps.len()
    &&& forall|m: int|
        0 <= m < keys.len() ==> #[trigger] keys[m].0 == ps[m].start && keys[m].1 == ps[m].end
}

/// Whether the patch with key `keys[i]` comes before the one with `keys[j]`.
fn key_before(keys: &Vec<(usize, usize)>, i: usize, j: usize) -> (r: bool)
    requires
        i < keys@.len(),
        j < keys@.len(),
    ensures
        r == (keys@[i as int].0 < keys@[j as int].0 || (keys@[i as int].0 == keys@[j as int].0
            && keys@[i as int].1 < keys@[j as int].1) || (keys@[i as int].0 == keys@[j as int].0
            && keys@[i as int].1 == keys@[j as int].1 && i < j)),
{
    let (si, ei) = keys[i];
    let (sj, ej) = keys[j];
    if si != sj {
        return si < sj;
    }
    if ei != ej {
        return ei < ej;
    }
    i < j
}

/// Sorts the patch indices into change order.
fn sorted_change_order(patches: &[TextPatch], keys: &Vec<(usize, usize)>) -> (o: Vec<usize>)
    requires
        keys@.len() == patches@.len(),
        forall|i: int|
            0 <= i < keys@.len() ==> #[trigger] keys@[i].0 == patches@[i]@.start && keys@[i].1
                == patches@[i]@.end,
    ensures
        is_change_order(patch_views(patches@), as_ints(o@)),
        as_ints(o@) == change_order(patch_views(patches@)),
{
    let ghost ps = patch_views(patches@);
    let n = keys.len();
    let mut o: Vec<usize> = Vec::new();
    let mut i: usize = 0;
    while i < n
        invariant
            n == keys@.len(),
            n == ps.len(),
            ps == patch_views(patches@),
            keys_match(keys@, ps),
            0 <= i <= n,
            o@.len() == i,
            forall|x: int| 0 <= x < o@.len() ==> #[trigger] o@[x] < i,
            forall|j: int| 0 <= j < i ==> #[trigger] as_ints(o@).contains(j),
            forall|x: int, y: int|
                0 <= x < y < o@.len() ==> change_lt(ps, #[trigger] o@[x] as int, #[trigger] o@[y] as int),
        decreases n - i,
    {
        let mut pos = o.len();
        while pos > 0 && key_before(keys, i, o[pos - 1])
            invariant
                n == keys@.len(),
                n == ps.len(),
                keys_match(keys@, ps),
                i < n,
                0 <= pos <= o@.len(),
                forall|x: int| 0 <= x < o@.len() ==> #[trigger] o@[x] < i,
                forall|x: int| pos <= x < o@.len() ==> change_lt(ps, i as int, #[trigger] o@[x] as int),
            decreases pos,
        {
            pos = pos - 1;
        }
        let ghost old_o = o@;
        proof {
            if pos > 0 {
                assert(!change_lt(ps, i as int, old_o[pos - 1] as int));
                assert(change_lt(ps, old_o[pos - 1] as int, i as int));
            }
        }
        o.insert(pos, i);
        proof {
            assert forall|x: int, y: int| 0 <= x < y < o@.len() implies change_lt(
                ps,
                #[trigger] o@[x] as int,
                #[trigger] o@[y] as int,
            ) by {
                if y < pos {
                    assert(o@[x] == old_o[x] && o@[y] == old_o[y]);
                } else if y == pos {
                    if x < pos - 1 {
                        assert(change_lt(ps, old_o[x] as int, old_o[pos - 1] as int));
                    }
                } else if x == pos {
                    assert(o@[y] == old_o[y - 1]);
                } else if x < pos {
                    assert(o@[y] == old_o[y - 1]);
                    assert(o@[x] == old_o[x]);
                } else {
                    assert(o@[y] == old_o[y - 1]);
                    assert(o@[x] == old_o[x - 1]);
                }
            }
            assert forall|j: int| 0 <= j < i + 1 implies #[trigger] as_ints(o@).contains(j) by {
                if j == i {
                    assert(as_ints(o@)[pos as int] == j);
                } else {
                    assert(as_ints(old_o).contains(j));
                    let x = choose|x: int| 0 <= x < old_o.len() && as_ints(old_o)[x] == j;
                    if x < pos {
                        assert(as_ints(o@)[x] == j);
                    } else {
                        assert(as_ints(o@)[x + 1] == j);
                    }
                }
            }
        }
        i = i + 1;
    }
    proof {
        assert(is_change_order(ps, as_ints(o@)));
        lemma_change_order_unique(ps, as_ints(o@), change_order(ps));
    }
    o
}

/// Sum of the range lengths of the patches listed first `k` in `o`.
spec fn range_sum(ps: Seq<PatchView>, o: Seq<int>, k: int) -> int
    decreases k,
{
    if k <= 0 {
        0
    } else {
        range_sum(ps, o, k - 1) + (ps[o[k - 1]].end - ps[o[k - 1]].start)
    }
}

/// The end of the patch listed before position `i` of `o`, or 0 at the front.
spec fn lower_edge(ps: Seq<PatchView>, o: Seq<int>, i: int) -> int {
    if i == 0 {
        0
    } else {
        ps[o[i - 1]].end as int
    }
}

/// The start of the patch listed at position `j` of `o`, or `len` past the end.
spec fn upper_edge(ps: Seq<PatchView>, o: Seq<int>, j: int, len: int) -> int {
    if j < o.len() {
        ps[o[j]].start as int
    } else {
        len
    }
}

/// In change order, each patch of a valid set ends no later than any later
/// one starts.
proof fn lemma_change_order_sorted(ps: Seq<PatchView>, o: Seq<int>)
    requires
        is_change_order(ps, o),
        forall|i: int| 0 <= i < ps.len() ==> #[trigger] ps[i].start <= ps[i].end,
        forall|i: int, j: int|
            0 <= i < ps.len() && 0 <= j < ps.len() && i != j && !ps[i].is_insert() ==> #[trigger] ps[j].start
                >= #[trigger] ps[i].end || (ps[j].end <= ps[i].start && ps[j].start < ps[i].start),
    ensures
        forall|x: int, y: int|
            0 <= x < y < o.len() ==> #[trigger] ps[o[x]].end <= #[trigger] ps[o[y]].start,
{
    assert forall|x: int, y: int| 0 <= x < y < o.len() implies #[trigger] ps[o[x]].end
        <= #[trigger] ps[o[y]].start by {
        let i = o[x];
        let j = o[y];
        assert(change_lt(ps, i, j));
        assert(ps[i].start <= ps[i].end);
    }
}

/// Ranges listed in order between positions `i` and `j` fit in the gap
/// between the patch before `i` and the patch at `j`.
proof fn lemma_range_sum_gap(ps: Seq<PatchView>, o: Seq<int>, len: int, i: int, j: int)
    requires
        forall|x: int| 0 <= x < o.len() ==> 0 <= #[trigger] o[x] < ps.len(),
        forall|m: int| 0 <= m < ps.len() ==> #[trigger] ps[m].start <= ps[m].end <= len,
        forall|x: int, y: int|
            0 <= x < y < o.len() ==> #[trigger] ps[o[x]].end <= #[trigger] ps[o[y]].start,
        0 <= i <= j <= o.len(),
        0 <= len,
    ensures
        range_sum(ps, o, j) - range_sum(ps, o, i) <= upper_edge(ps, o, j, len) - lower_edge(ps, o, i),
    decreases j - i,
{
    if j > i {
        lemma_range_sum_gap(ps, o, len, i, j - 1);
        if j < o.len() {
            assert(ps[o[j - 1]].end <= ps[o[j]].start);
        }
        assert(ps[o[j - 1]].start <= ps[o[j - 1]].end);
    } else {
        if 0 < i < o.len() {
            assert(ps[o[i - 1]].end <= ps[o[i]].start);
        }
        if i > 0 {
            assert(ps[o[i - 1]].start <= ps[o[i - 1]].end);
        }
        if i < o.len() {
            assert(ps[o[i]].start <= ps[o[i]].end);
        }
    }
}

/// A net length change never removes more than the ranges it replaces.
proof fn lemma_delta_range_sum(ps: Seq<PatchView>, o: Seq<int>, i: int, j: int)
    requires
        0 <= i <= j,
    ensures
        delta_sum(ps, o, j) - delta_sum(ps, o, i) + range_sum(ps, o, j) - range_sum(ps, o, i) >= 0,
    decreases j - i,
{
    if j > i {
        lemma_delta_range_sum(ps, o, i, j - 1);
        assert(length_delta(ps[o[j - 1]]) + (ps[o[j - 1]].end - ps[o[j - 1]].start) >= 0);
    }
}

/// The range changes of valid patches, in change order, each shifted by the
/// net length change of the patches before it.
#[verifier::rlimit(60)]
#[verifier::spinoff_prover]
fn build_range_changes(patches: &[TextPatch], Ghost(src): Ghost<Seq<u8>>) -> (changes: Vec<
    RangeChange,
>)
    requires
        spec_validate(src, patch_views(patches@)) is Ok,
        is_patch_order(patch_views(patches@), patch_order(patch_views(patches@))),
        src.len() < u32::MAX,
        spec_apply(src, patch_views(patches@)).len() < u32::MAX,
        forall|k: int|
            0 <= k < patches@.len() ==> #[trigger] spec_range_changes(patch_views(patches@))[k].1
                <= usize::MAX,
    ensures
        changes_view(changes@) == spec_range_changes(patch_views(patches@)),
        changes@.len() == patches@.len(),
        forall|k: int|
            0 <= k < changes@.len() ==> #[trigger] spec_range_changes(patch_views(patches@))[k].2
                <= spec_apply(src, patch_views(patches@)).len(),
        is_change_order(patch_views(patches@), change_order(patch_views(patches@))),
{
    let ghost ps = patch_views(patches@);
    let keys = patch_keys(patches);
    let order = sorted_change_order(patches, &keys);
    let ghost o = as_ints(order@);
    let ghost n = ps.len() as int;
    let ghost new_len = spec_apply(src, ps).len() as int;
    proof {
        assert forall|i: int| 0 <= i < n implies #[trigger] ps[i].start <= ps[i].end by {
            assert(keys@[i].0 <= keys@[i].1);
        }
        lemma_valid_disjoint(src, ps);
        lemma_apply_len(src, ps);
        lemma_change_order_sorted(ps, o);
        assert forall|x: int, y: int| 0 <= x < y < o.len() implies #[trigger] o[x] != #[trigger] o[y] by {
            assert(change_lt(ps, o[x], o[y]));
        }
        assert(is_permutation(o));
        lemma_delta_sum_permutation(ps, o);
    }
    let mut cumulative_delta: i64 = 0;
    let mut changes: Vec<RangeChange> = Vec::new();
    let mut k: usize = 0;
    while k < order.len()
        invariant
            ps == patch_views(patches@),
            o == as_ints(order@),
            o == change_order(ps),
            is_change_order(ps, o),
            n == ps.len(),
            n == patches@.len(),
            order@.len() == n,
            forall|m: int| 0 <= m < n ==> #[trigger] ps[m].start <= ps[m].end <= src.len(),
            forall|x: int, y: int|
                0 <= x < y < o.len() ==> #[trigger] ps[o[x]].end <= #[trigger] ps[o[y]].start,
            src.len() < u32::MAX,
            new_len < u32::MAX,
            new_len == src.len() + delta_sum(ps, o, n),
            forall|m: int| 0 <= m < n ==> #[trigger] spec_range_changes(ps)[m].1 <= usize::MAX,
            0 <= k <= n,
            cumulative_delta == delta_sum(ps, o, k as int),
            changes_view(changes@) == spec_range_changes(ps).take(k as int),
            forall|m: int| 0 <= m < k ==> #[trigger] spec_range_changes(ps)[m].2 <= new_len,
        decreases n - k,
    {
        let idx = order[k];
        assert(o[k as int] == idx as int);
        assert(0 <= o[k as int] < n);
        let patch = &patches[idx];
        let ghost p = ps[o[k as int]];
        proof {
            assert(o[k as int] == idx as int);
            lemma_range_sum_gap(ps, o, src.len() as int, 0, k as int);
            lemma_range_sum_gap(ps, o, src.len() as int, k + 1, n);
            lemma_delta_range_sum(ps, o, 0, k as int);
            lemma_delta_range_sum(ps, o, k + 1, n);
            assert(delta_sum(ps, o, k + 1) == delta_sum(ps, o, k as int) + length_delta(p));
            assert(range_sum(ps, o, k + 1) == range_sum(ps, o, k as int) + (p.end - p.start));
            assert(spec_range_changes(ps)[k as int].1 <= usize::MAX);
            assert(spec_range_changes(ps)[k as int].2 <= new_len);
        }
        let start = patch.start();
        let end = patch.end();
        let replacement_len = patch.replacement().len();
        assert(replacement_len == p.replacement_bytes().len());
        let patch_start = start as i64;
        let patch_end = end as i64;
        let rep = replacement_len as i64;
        let adjusted_start = (patch_start + cumulative_delta) as usize;
        let adjusted_old_end = (patch_end + cumulative_delta) as usize;
        let adjusted_new_end = adjusted_start + replacement_len;
        assert(adjusted_start == spec_range_changes(ps)[k as int].0);
        assert(adjusted_old_end == spec_range_changes(ps)[k as int].1);
        assert(adjusted_new_end == spec_range_changes(ps)[k as int].2);
        let ghost old_changes = changes@;
        changes.push(RangeChange::new(adjusted_start, adjusted_old_end, adjusted_new_end));
        cumulative_delta = cumulative_delta + rep - (patch_end - patch_start);
        k = k + 1;
        proof {
            assert(changes_view(changes@) =~= changes_view(old_changes).push(
                spec_range_changes(ps)[k - 1],
            ));
            assert(changes_view(changes@) =~= spec_range_changes(ps).take(k as int));
        }
    }
    assert(changes_view(changes@) =~= spec_range_changes(ps));
    changes
}


// ---------------------------------------------------------------------------
// Edits that update decorations, wrapping and history
// ---------------------------------------------------------------------------

/// End of line `l`, without its newline, of a text of length `len` whose
/// lines start at `starts`.
pub open spec fn text_line_end(starts: Seq<int>, len: int, l: int) -> int {
    let e = if l + 1 < starts.len() {
        starts[l + 1]
    } else {
        len
    };
    if e > starts[l] && l + 1 < starts.len() {
        e - 1
    } else {
        e
    }
}

/// The characters of line `l` of the text with bytes `b`.
pub open spec fn line_chars(b: Seq<u8>, l: int) -> Seq<char> {
    let s = line_starts_of(b);
    decode_utf8(b.subrange(s[l], text_line_end(s, b.len() as int, l)))
}

/// A line of these characters can be wrapped against `max` columns.
pub open spec fn chars_wrappable<W: CharWidth, B: BreakRule>(
    chars: Seq<char>,
    max: int,
    policy: WrapPolicy<W, B>,
) -> bool {
    max == 0 || (bytes_of(chars).len() <= u32::MAX && policy.spec_width_policy().spec_text_width(chars)
        <= u32::MAX)
}

/// Every line of the text with bytes `b` can be wrapped.
pub open spec fn lines_wrappable<W: CharWidth, B: BreakRule>(
    b: Seq<u8>,
    max: int,
    policy: WrapPolicy<W, B>,
) -> bool {
    forall|l: int| 0 <= l < line_starts_of(b).len() ==> #[trigger] chars_wrappable(line_chars(b, l), max, policy)
}

/// The smallest of the values (0 for none).
pub open spec fn seq_min(s: Seq<int>) -> int
    decreases s.len(),
{
    if s.len() == 0 {
        0
    } else if s.len() == 1 {
        s[0]
    } else {
        let m = seq_min(s.drop_last());
        if s.last() < m {
            s.last()
        } else {
            m
        }
    }
}

/// The largest of the values (0 for none).
pub open spec fn seq_max(s: Seq<int>) -> int
    decreases s.len(),
{
    if s.len() == 0 {
        0
    } else if s.len() == 1 {
        s[0]
    } else {
        let m = seq_max(s.drop_last());
        if s.last() > m {
            s.last()
        } else {
            m
        }
    }
}

proof fn lemma_seq_min_max(s: Seq<int>)
    requires
        s.len() > 0,
    ensures
        forall|i: int| 0 <= i < s.len() ==> seq_min(s) <= #[trigger] s[i] <= seq_max(s),
        exists|i: int| 0 <= i < s.len() && s[i] == seq_min(s),
        exists|i: int| 0 <= i < s.len() && s[i] == seq_max(s),
    decreases s.len(),
{
    if s.len() > 1 {
        lemma_seq_min_max(s.drop_last());
        let i = choose|i: int| 0 <= i < s.drop_last().len() && s.drop_last()[i] == seq_min(s.drop_last());
        let j = choose|j: int| 0 <= j < s.drop_last().len() && s.drop_last()[j] == seq_max(s.drop_last());
        assert(s[i] == s.drop_last()[i]);
        assert(s[j] == s.drop_last()[j]);
        assert(s[s.len() - 1] == s.last());
        assert forall|k: int| 0 <= k < s.len() implies seq_min(s) <= #[trigger] s[k] <= seq_max(s) by {
            if k < s.len() - 1 {
                assert(s[k] == s.drop_last()[k]);
            }
        }
    } else {
        assert(s[0] == seq_min(s));
    }
}

/// Starts of the patches.
pub open spec fn starts_of(ps: Seq<PatchView>) -> Seq<int> {
    ps.map_values(|p: PatchView| p.start as int)
}

/// Ends of the patches.
pub open spec fn ends_of(ps: Seq<PatchView>) -> Seq<int> {
    ps.map_values(|p: PatchView| p.end as int)
}

/// Ends of the replacements of the range changes.
pub open spec fn new_ends_of(cs: Seq<(int, int, int)>) -> Seq<int> {
    cs.map_values(|c: (int, int, int)| c.2)
}

/// The line starts found before byte `n` depend only on the bytes before it.
proof fn lemma_starts_prefix_same(a: Seq<u8>, b: Seq<u8>, n: int)
    requires
        0 <= n <= a.len(),
        n <= b.len(),
        forall|i: int| 0 <= i < n ==> a[i] == b[i],
    ensures
        crate::textview::line_starts_prefix(a, n) == crate::textview::line_starts_prefix(b, n),
    decreases n,
{
    if n > 0 {
        lemma_starts_prefix_same(a, b, n - 1);
    }
}

/// The line starts found before byte `n` begin the list of those found
/// before a later byte `m`, and the rest lie after `n`.
proof fn lemma_starts_prefix_extends(b: Seq<u8>, n: int, m: int)
    requires
        0 <= n <= m <= b.len(),
    ensures
        crate::textview::line_starts_prefix(b, n).len() <= crate::textview::line_starts_prefix(b, m).len(),
        forall|i: int|
            0 <= i < crate::textview::line_starts_prefix(b, n).len() ==> #[trigger] crate::textview::line_starts_prefix(
                b,
                m,
            )[i] == crate::textview::line_starts_prefix(b, n)[i],
        forall|i: int|
            crate::textview::line_starts_prefix(b, n).len() <= i < crate::textview::line_starts_prefix(
                b,
                m,
            ).len() ==> #[trigger] crate::textview::line_starts_prefix(b, m)[i] > n,
    decreases m - n,
{
    if m > n {
        lemma_starts_prefix_extends(b, n, m - 1);
    }
}

/// Where two texts agree before byte `s`, their lines that start at or
/// before `s` start at the same offsets.
proof fn lemma_starts_agree(a: Seq<u8>, b: Seq<u8>, s: int)
    requires
        0 <= s <= a.len(),
        s <= b.len(),
        forall|i: int| 0 <= i < s ==> a[i] == b[i],
    ensures
        forall|l: int|
            0 <= l < line_starts_of(a).len() && #[trigger] line_starts_of(a)[l] <= s ==> l < line_starts_of(
                b,
            ).len() && line_starts_of(b)[l] == line_starts_of(a)[l],
{
    lemma_starts_prefix_same(a, b, s);
    lemma_starts_prefix_extends(a, s, a.len() as int);
    lemma_starts_prefix_extends(b, s, b.len() as int);
}

/// Number of newline bytes among the first `n` bytes.
pub open spec fn newlines_before(b: Seq<u8>, n: int) -> int
    decreases n,
{
    if n <= 0 {
        0
    } else {
        newlines_before(b, n - 1) + if b[n - 1] == 10u8 {
            1int
        } else {
            0int
        }
    }
}

proof fn lemma_prefix_count(b: Seq<u8>, n: int)
    requires
        0 <= n <= b.len(),
    ensures
        crate::textview::line_starts_prefix(b, n).len() == 1 + newlines_before(b, n),
    decreases n,
{
    if n > 0 {
        lemma_prefix_count(b, n - 1);
    }
}

/// The line that holds offset `x` is the number of newlines before it.
proof fn lemma_line_at_count(b: Seq<u8>, x: int)
    requires
        0 <= x <= b.len(),
    ensures
        crate::textview::line_at(line_starts_of(b), x) == newlines_before(b, x),
        is_line_of(line_starts_of(b), newlines_before(b, x), x),
        line_starts_of(b).len() == 1 + newlines_before(b, b.len() as int),
{
    let s = line_starts_of(b);
    let p = crate::textview::line_starts_prefix(b, x);
    lemma_prefix_count(b, x);
    lemma_prefix_count(b, b.len() as int);
    crate::textview::lemma_line_starts_prefix_wf(b, x);
    lemma_starts_prefix_extends(b, x, b.len() as int);
    crate::textview::lemma_line_starts_wf(b);
    let l = newlines_before(b, x);
    assert(s[l] == p[l]);
    assert(is_line_of(s, l, x));
    let w = crate::textview::line_at(s, x);
    assert(is_line_of(s, w, x));
    crate::textview::lemma_line_of_unique(s, b.len() as int, l, w, x);
}

proof fn lemma_count_nonneg(b: Seq<u8>, n: int)
    ensures
        newlines_before(b, n) >= 0,
    decreases n,
{
    if n > 0 {
        lemma_count_nonneg(b, n - 1);
    }
}

/// Newlines counted from byte `x` on are the newlines of the bytes from `x` on.
proof fn lemma_count_from(b: Seq<u8>, x: int, k: int)
    requires
        0 <= x,
        0 <= k,
        x + k <= b.len(),
    ensures
        newlines_before(b, x + k) - newlines_before(b, x) == newlines_before(b.subrange(x, b.len() as int), k),
    decreases k,
{
    if k > 0 {
        lemma_count_from(b, x, k - 1);
        assert(b.subrange(x, b.len() as int)[k - 1] == b[x + k - 1]);
    }
}

/// Replacing `p.start..p.end` of a text keeps the lines after the edit: the
/// line count grows by the line of the end of the replacement in the new
/// text less the line of the patch end in the old one.
pub proof fn lemma_edit_line_count(src: Seq<u8>, p: PatchView)
    requires
        spec_validate(src, seq![p]) is Ok,
        p.start <= p.end,
    ensures
        ({
            let new = spec_apply(src, seq![p]);
            let ne = p.start + p.replacement_bytes().len();
            &&& ne <= new.len()
            &&& is_line_of(line_starts_of(new), crate::textview::line_at(line_starts_of(new), ne), ne)
            &&& is_line_of(line_starts_of(src), crate::textview::line_at(line_starts_of(src), p.end as int), p.end as int)
            &&& is_line_of(line_starts_of(src), crate::textview::line_at(line_starts_of(src), p.start as int), p.start as int)
            &&& crate::textview::line_at(line_starts_of(src), p.start as int) <= crate::textview::line_at(
                line_starts_of(src),
                p.end as int,
            )
            &&& line_starts_of(new).len() == crate::textview::line_at(line_starts_of(new), ne) + line_starts_of(
                src,
            ).len() - crate::textview::line_at(line_starts_of(src), p.end as int)
        }),
{
    crate::textpatch::lemma_patch_order_exists(seq![p]);
    let ps = seq![p];
    let new = spec_apply(src, ps);
    let o = patch_order(ps);
    crate::textpatch::lemma_valid_disjoint(src, ps);
    assert(ps[0] == p);
    assert(o.len() == 1);
    assert(0 <= o[0] < 1);
    let rb = p.replacement_bytes();
    let ne = p.start + rb.len();
    assert(assemble(src, ps, o, 1, p.end as int) == src.subrange(p.end as int, src.len() as int));
    assert(new == src.subrange(0, p.start as int) + rb + src.subrange(p.end as int, src.len() as int));
    assert(new.subrange(ne, new.len() as int) =~= src.subrange(p.end as int, src.len() as int));
    lemma_line_at_count(new, ne);
    lemma_line_at_count(src, p.end as int);
    lemma_line_at_count(src, p.start as int);
    lemma_count_from(src, p.start as int, p.end - p.start);
    lemma_count_nonneg(src.subrange(p.start as int, src.len() as int), p.end - p.start);
    lemma_count_from(new, ne, new.len() - ne);
    lemma_count_from(src, p.end as int, src.len() - p.end);
}

/// Both ends of a line are character boundaries of a valid text.
proof fn lemma_line_bounds(b: Seq<u8>, l: int)
    requires
        valid_utf8(b),
        0 <= l < line_starts_of(b).len(),
    ensures
        0 <= line_starts_of(b)[l] <= text_line_end(line_starts_of(b), b.len() as int, l) <= b.len(),
        is_char_boundary(b, line_starts_of(b)[l]),
        is_char_boundary(b, text_line_end(line_starts_of(b), b.len() as int, l)),
{
    let s = line_starts_of(b);
    crate::textview::lemma_line_starts_wf(b);
    lemma_line_start_boundary(b, s, l);
    is_char_boundary_start_end_of_seq(b);
    let e = text_line_end(s, b.len() as int, l);
    if l + 1 < s.len() {
        lemma_line_start_boundary(b, s, l + 1);
        if s[l + 1] > s[l] {
            assert(b[s[l + 1] - 1] == 10u8);
            is_char_boundary_iff_not_is_continuation_byte(b, e);
        }
    }
}

/// A line of a valid text has no more bytes than the text.
pub proof fn lemma_line_chars_len(b: Seq<u8>, l: int)
    requires
        valid_utf8(b),
        0 <= l < line_starts_of(b).len(),
    ensures
        bytes_of(line_chars(b, l)).len() <= b.len(),
{
    lemma_line_bounds(b, l);
    let s = line_starts_of(b);
    let e = text_line_end(s, b.len() as int, l);
    crate::textpatch::lemma_valid_slice(b, s[l], e);
    decode_utf8_encode_utf8(b.subrange(s[l], e));
}

/// Wrap points lie strictly increasing after the start of the line, so a
/// line has no more of them than bytes.
pub proof fn lemma_wrap_count<W: CharWidth, B: BreakRule>(text: &str, max: int, policy: WrapPolicy<W, B>)
    requires
        max >= 0,
    ensures
        wrap_spec(text, max, policy).len() <= bytes_of(text@).len(),
{
    crate::wrap::lemma_wrap_points_placed(text, max, policy);
    let ws = wrap_spec(text, max, policy);
    if ws.len() > 0 {
        assert forall|i: int| 0 <= i < ws.len() implies #[trigger] ws[i].0 >= i + 1 by {
            lemma_points_grow(ws, i);
        }
        assert(ws[ws.len() - 1].0 <= bytes_of(text@).len());
    }
}

proof fn lemma_points_grow(ws: Seq<(int, int)>, i: int)
    requires
        crate::wrap::points_ordered(ws),
        0 <= i < ws.len(),
    ensures
        ws[i].0 >= i + 1,
    decreases i,
{
    if i > 0 {
        lemma_points_grow(ws, i - 1);
        assert(ws[i - 1].0 < ws[i].0);
    }
}

/// The wrap points of lines of a text shorter than `u32::MAX` bytes number
/// fewer than `u32::MAX` per line.
pub proof fn lemma_wrapped_short<W: CharWidth, B: BreakRule>(
    texts: Seq<&str>,
    b: Seq<u8>,
    first: int,
    max: int,
    policy: WrapPolicy<W, B>,
)
    requires
        valid_utf8(b),
        b.len() < u32::MAX,
        max >= 0,
        0 <= first,
        first + texts.len() <= line_starts_of(b).len(),
        forall|k: int| 0 <= k < texts.len() ==> (#[trigger] texts[k])@ == line_chars(b, first + k),
    ensures
        forall|k: int| 0 <= k < texts.len() ==> #[trigger] wrapped_lines(texts, max, policy)[k].len() < u32::MAX,
{
    assert forall|k: int| 0 <= k < texts.len() implies #[trigger] wrapped_lines(texts, max, policy)[k].len() < u32::MAX by {
        lemma_wrap_count(texts[k], max, policy);
        lemma_line_chars_len(b, first + k);
    }
}

/// The text of line `line` of `text`.
pub(crate) fn line_text<'a>(text: &'a str, line_index: &LineIndex, line: u32) -> (r: &'a str)
    requires
        line_index.starts() == line_starts_of(text.spec_bytes()),
        line_index.spec_len() == text.spec_bytes().len(),
        line < line_index.starts().len(),
    ensures
        r@ == line_chars(text.spec_bytes(), line as int),
{
    proof {
        lemma_str_valid(text);
        lemma_line_bounds(text.spec_bytes(), line as int);
    }
    let range = match line_index.line_range(line) {
        Ok(r) => r,
        Err(_) => {
            proof {
                assert(false);
            }
            return text;
        },
    };
    let piece = substr(text, range.start(), range.end());
    proof {
        encode_utf8_decode_utf8(piece@);
    }
    piece
}

/// The texts of `line_count` lines of `text` from `start_line` on.
pub(crate) fn collect_line_texts<'a>(
    text: &'a str,
    line_index: &LineIndex,
    start_line: u32,
    line_count: u32,
) -> (r: Vec<&'a str>)
    requires
        line_index.starts() == line_starts_of(text.spec_bytes()),
        line_index.spec_len() == text.spec_bytes().len(),
        start_line + line_count <= line_index.starts().len(),
        start_line + line_count <= u32::MAX,
    ensures
        r@.len() == line_count,
        forall|k: int| 0 <= k < line_count ==> (#[trigger] r@[k])@ == line_chars(text.spec_bytes(), start_line + k),
{
    let mut out: Vec<&'a str> = Vec::new();
    let mut k: u32 = 0;
    while k < line_count
        invariant
            line_index.starts() == line_starts_of(text.spec_bytes()),
            line_index.spec_len() == text.spec_bytes().len(),
            start_line + line_count <= line_index.starts().len(),
            start_line + line_count <= u32::MAX,
            k <= line_count,
            out@.len() == k,
            forall|j: int| 0 <= j < k ==> (#[trigger] out@[j])@ == line_chars(text.spec_bytes(), start_line + j),
        decreases line_count - k,
    {
        out.push(line_text(text, line_index, start_line + k));
        k = k + 1;
    }
    out
}

/// The wrap lines after an edit: the logical lines `start..start + old_count`
/// replaced by the wrap points of `texts`.
pub open spec fn rewrapped<W: CharWidth, B: BreakRule>(
    lines: Seq<Seq<(int, int)>>,
    start: int,
    old_count: int,
    texts: Seq<&str>,
    max: int,
    policy: WrapPolicy<W, B>,
) -> Seq<Seq<(int, int)>> {
    lines.subrange(0, start) + wrapped_lines(texts, max, policy) + lines.subrange(start + old_count, lines.len() as int)
}

/// The wrap map after an edit of the lines from the one that holds the
/// earliest patch start to the one that held the latest patch end: those lines
/// are wrapped again from the new text, up to the line that holds the latest
/// end of a replacement.
pub open spec fn wrap_updated<W: CharWidth, B: BreakRule>(
    lines0: Seq<Seq<(int, int)>>,
    lines1: Seq<Seq<(int, int)>>,
    old_starts: Seq<int>,
    new_bytes: Seq<u8>,
    ps: Seq<PatchView>,
    cs: Seq<(int, int, int)>,
    max: int,
    policy: WrapPolicy<W, B>,
) -> bool {
    let sl = crate::textview::line_at(old_starts, seq_min(starts_of(ps)));
    let oel = crate::textview::line_at(old_starts, seq_max(ends_of(ps)));
    let nel = crate::textview::line_at(line_starts_of(new_bytes), seq_max(new_ends_of(cs)));
    exists|texts: Seq<&str>|
        #![trigger rewrapped(lines0, sl, oel - sl + 1, texts, max, policy)]
        texts.len() == nel - sl + 1 && (forall|k: int|
            0 <= k < texts.len() ==> (#[trigger] texts[k])@ == line_chars(new_bytes, sl + k)) && lines1
            == rewrapped(lines0, sl, oel - sl + 1, texts, max, policy)
}

/// The characters of an optional label; none for no label.
pub open spec fn label_chars(label: Option<&str>) -> Seq<char> {
    match label {
        Some(l) => l@,
        None => Seq::<char>::empty(),
    }
}

/// The range change of a single patch is its own range and the end of its
/// replacement.
pub proof fn lemma_single_change(src: Seq<u8>, p: PatchView)
    ensures
        spec_range_changes(seq![p]) == seq![(p.start as int, p.end as int, p.start + p.replacement_bytes().len())],
{
    let ps = seq![p];
    let o = seq![0int];
    assert(o[0] == 0);
    assert(o.contains(0));
    assert(is_change_order(ps, o));
    let co = change_order(ps);
    assert(is_change_order(ps, co));
    lemma_change_order_unique(ps, co, o);
    assert(delta_sum(ps, o, 0) == 0);
    assert(spec_range_changes(ps) =~= seq![(p.start as int, p.end as int, p.start + p.replacement_bytes().len())]);
}

/// A copy of the patches.
fn copy_patches(patches: &[TextPatch]) -> (r: Vec<TextPatch>)
    ensures
        patch_views(r@) == patch_views(patches@),
{
    let mut out: Vec<TextPatch> = Vec::new();
    let mut i: usize = 0;
    while i < patches.len()
        invariant
            0 <= i <= patches@.len(),
            patch_views(out@) == patch_views(patches@.take(i as int)),
        decreases patches@.len() - i,
    {
        let ghost before = out@;
        let c = patches[i].clone();
        out.push(c);
        assert(out@ == before.push(c));
        assert(patch_views(out@) =~= patch_views(before).push(c@));
        assert(patches@.take(i + 1) =~= patches@.take(i as int).push(patches@[i as int]));
        assert(patch_views(patches@.take(i + 1)) =~= patch_views(patches@.take(i as int)).push(patches@[i as int]@));
        i = i + 1;
    }
    assert(patches@.take(i as int) =~= patches@);
    out
}

/// What rewrapping after an edit relies on: the patches lie in the source,
/// some replacement ends at or after the earliest patch start, and the lines
/// that start at or before that start are where they were.
proof fn lemma_wrap_update_ready(src: Seq<u8>, ps: Seq<PatchView>, new: Seq<u8>, cs: Seq<RangeChange>)
    requires
        spec_validate(src, ps) is Ok,
        is_patch_order(ps, patch_order(ps)),
        is_change_order(ps, change_order(ps)),
        forall|i: int| 0 <= i < ps.len() ==> #[trigger] ps[i].start <= ps[i].end,
        new == spec_apply(src, ps),
        changes_view(cs) == spec_range_changes(ps),
        cs.len() == ps.len(),
    ensures
        forall|i: int| 0 <= i < ps.len() ==> #[trigger] ps[i].end <= src.len(),
        ps.len() > 0 ==> seq_max(new_ends_of(changes_view(cs))) >= seq_min(starts_of(ps)),
        forall|l: int|
            0 <= l < line_starts_of(src).len() && #[trigger] line_starts_of(src)[l] <= seq_min(starts_of(ps))
                ==> l < line_starts_of(new).len() && line_starts_of(new)[l] == line_starts_of(src)[l],
{
    lemma_valid_disjoint(src, ps);
    if ps.len() > 0 {
        lemma_seq_min_max(starts_of(ps));
        let o = patch_order(ps);
        let co = change_order(ps);
        let ncs = new_ends_of(changes_view(cs));
        lemma_seq_min_max(ncs);
        assert(starts_of(ps)[co[0]] == ps[co[0]].start);
        assert(ncs[0] == spec_range_changes(ps)[0].2);
        assert(spec_range_changes(ps)[0].0 == ps[co[0]].start);
        assert(starts_of(ps)[o[0]] == ps[o[0]].start);
        let m = seq_min(starts_of(ps));
        let p0 = ps[o[0]];
        assert(new == src.subrange(0, p0.start as int) + p0.replacement_bytes() + assemble(src, ps, o, 1, p0.end as int));
        assert forall|i: int| 0 <= i < m implies src[i] == new[i] by {
            assert(new[i] == src.subrange(0, p0.start as int)[i]);
        }
        crate::textpatch::lemma_apply_len(src, ps);
        lemma_starts_agree(src, new, m);
    } else {
        assert(seq_min(starts_of(ps)) == 0);
        crate::textview::lemma_line_starts_wf(src);
        crate::textview::lemma_line_starts_wf(new);
        assert forall|l: int|
            0 <= l < line_starts_of(src).len() && #[trigger] line_starts_of(src)[l] <= seq_min(starts_of(ps))
                implies l < line_starts_of(new).len() && line_starts_of(new)[l] == line_starts_of(src)[l] by {
            if l > 0 {
                assert(line_starts_of(src)[0] < line_starts_of(src)[l]);
            }
        }
    }
}

/// Rewrap the lines an edit touched.
#[verifier::rlimit(40)]
fn update_wrap_map<W: CharWidth, B: BreakRule>(
    wrap_map: &mut WrapMap,
    wrap_policy: &WrapPolicy<W, B>,
    old_line_index: &LineIndex,
    new_text: &str,
    new_line_index: &LineIndex,
    patches: &[TextPatch],
    range_changes: &[RangeChange],
)
    requires
        starts_wf(old_line_index.starts(), old_line_index.spec_len()),
        old_line_index.starts().len() <= u32::MAX,
        old(wrap_map).spec_lines().len() == old_line_index.starts().len(),
        new_line_index.starts() == line_starts_of(new_text.spec_bytes()),
        new_line_index.spec_len() == new_text.spec_bytes().len(),
        new_text.spec_bytes().len() < u32::MAX,
        lines_wrappable(new_text.spec_bytes(), old(wrap_map).spec_max_width() as int, *wrap_policy),
        forall|i: int| 0 <= i < patches@.len() ==> #[trigger] patches@[i]@.start <= patches@[i]@.end
            <= old_line_index.spec_len(),
        range_changes@.len() == patches@.len(),
        forall|i: int| 0 <= i < range_changes@.len() ==> #[trigger] range_changes@[i].spec_new_end()
            <= new_text.spec_bytes().len(),
        patches@.len() > 0 ==> seq_max(new_ends_of(changes_view(range_changes@))) >= seq_min(
            starts_of(patch_views(patches@)),
        ),
        forall|l: int|
            0 <= l < old_line_index.starts().len() && #[trigger] old_line_index.starts()[l] <= seq_min(
                starts_of(patch_views(patches@)),
            ) ==> l < new_line_index.starts().len() && new_line_index.starts()[l]
                == old_line_index.starts()[l],
    ensures
        final(wrap_map).spec_max_width() == old(wrap_map).spec_max_width(),
        patches@.len() == 0 ==> final(wrap_map).spec_lines() == old(wrap_map).spec_lines(),
        patches@.len() > 0 ==> wrap_updated(
            old(wrap_map).spec_lines(),
            final(wrap_map).spec_lines(),
            old_line_index.starts(),
            new_text.spec_bytes(),
            patch_views(patches@),
            changes_view(range_changes@),
            old(wrap_map).spec_max_width() as int,
            *wrap_policy,
        ),
{
    if patches.len() == 0 {
        return;
    }
    let ghost ps = patch_views(patches@);
    let ghost cs = changes_view(range_changes@);
    let ghost lines0 = wrap_map.spec_lines();
    let ghost max = wrap_map.spec_max_width() as int;
    proof {
        lemma_seq_min_max(starts_of(ps));
        lemma_seq_min_max(ends_of(ps));
        lemma_seq_min_max(new_ends_of(cs));
    }
    let mut start_offset = patches[0].start();
    let mut old_end_offset = patches[0].end();
    let mut new_end_offset = range_changes[0].new_end();
    let mut i: usize = 1;
    while i < patches.len()
        invariant
            ps == patch_views(patches@),
            cs == changes_view(range_changes@),
            range_changes@.len() == patches@.len(),
            1 <= i <= patches@.len(),
            start_offset == seq_min(starts_of(ps).take(i as int)),
            old_end_offset == seq_max(ends_of(ps).take(i as int)),
            new_end_offset == seq_max(new_ends_of(cs).take(i as int)),
        decreases patches@.len() - i,
    {
        assert(starts_of(ps).take(i + 1).drop_last() =~= starts_of(ps).take(i as int));
        assert(ends_of(ps).take(i + 1).drop_last() =~= ends_of(ps).take(i as int));
        assert(new_ends_of(cs).take(i + 1).drop_last() =~= new_ends_of(cs).take(i as int));
        let s = patches[i].start();
        if s < start_offset {
            start_offset = s;
        }
        let e = patches[i].end();
        if e > old_end_offset {
            old_end_offset = e;
        }
        let ne = range_changes[i].new_end();
        if ne > new_end_offset {
            new_end_offset = ne;
        }
        i = i + 1;
    }
    proof {
        assert(starts_of(ps).take(i as int) =~= starts_of(ps));
        assert(ends_of(ps).take(i as int) =~= ends_of(ps));
        assert(new_ends_of(cs).take(i as int) =~= new_ends_of(cs));
        let j = choose|j: int| 0 <= j < ps.len() && starts_of(ps)[j] == seq_min(starts_of(ps));
        assert(ends_of(ps)[j] <= seq_max(ends_of(ps)));
        assert(ps[j] == patches@[j]@);
        assert(starts_of(ps)[j] == ps[j].start && ends_of(ps)[j] == ps[j].end);
        let j2 = choose|j: int| 0 <= j < ps.len() && ends_of(ps)[j] == seq_max(ends_of(ps));
        assert(ps[j2] == patches@[j2]@);
        assert(ends_of(ps)[j2] == ps[j2].end);
        assert(patches@[j2]@.start <= patches@[j2]@.end);
        assert(patches@[j]@.start <= patches@[j]@.end);
        let k = choose|k: int| 0 <= k < cs.len() && new_ends_of(cs)[k] == seq_max(new_ends_of(cs));
        assert(cs[k].2 == range_changes@[k].spec_new_end());
        assert(new_ends_of(cs)[k] == cs[k].2);
        crate::textview::lemma_line_starts_wf(new_text.spec_bytes());
    }
    let start_line = match old_line_index.line_of_offset(start_offset) {
        Ok(l) => l,
        Err(_) => {
            proof {
                assert(false);
            }
            return;
        },
    };
    let old_end_line = match old_line_index.line_of_offset(old_end_offset) {
        Ok(l) => l,
        Err(_) => {
            proof {
                assert(false);
            }
            return;
        },
    };
    let new_end_line = match new_line_index.line_of_offset(new_end_offset) {
        Ok(l) => l,
        Err(_) => {
            proof {
                assert(false);
            }
            return;
        },
    };
    let ghost os = old_line_index.starts();
    let ghost ns = new_line_index.starts();
    proof {
        crate::textview::lemma_line_of_unique(os, old_line_index.spec_len(), start_line as int, crate::textview::line_at(os, start_offset as int), start_offset as int);
        crate::textview::lemma_line_of_unique(os, old_line_index.spec_len(), old_end_line as int, crate::textview::line_at(os, old_end_offset as int), old_end_offset as int);
        crate::textview::lemma_line_of_unique(ns, new_line_index.spec_len(), new_end_line as int, crate::textview::line_at(ns, new_end_offset as int), new_end_offset as int);
        if old_end_line < start_line {
            assert(os[old_end_line + 1] <= os[start_line as int]);
        }
        assert(os[start_line as int] <= start_offset);
        assert(start_line < ns.len() && ns[start_line as int] == os[start_line as int]);
        if new_end_line < start_line {
            assert(ns[new_end_line + 1] <= ns[start_line as int]);
        }
    }
    let old_line_count = old_end_line - start_line + 1;
    let new_line_count = new_end_line - start_line + 1;
    if old_line_count == new_line_count {
        let ghost mut texts: Seq<&str> = Seq::empty();
        let mut line = start_line;
        let end_line = new_end_line + 1;
        while line < end_line
            invariant
                end_line == new_end_line + 1,
                start_line <= line <= new_end_line + 1,
                new_end_line < ns.len(),
                ns.len() <= u32::MAX,
                old_end_line == new_end_line,
                ns == new_line_index.starts(),
                new_line_index.starts() == line_starts_of(new_text.spec_bytes()),
                new_line_index.spec_len() == new_text.spec_bytes().len(),
                lines_wrappable(new_text.spec_bytes(), max, *wrap_policy),
                wrap_map.spec_max_width() == max,
                lines0.len() == os.len(),
                old_end_line < os.len(),
                texts.len() == line - start_line,
                forall|k: int| 0 <= k < texts.len() ==> (#[trigger] texts[k])@ == line_chars(new_text.spec_bytes(), start_line + k),
                wrap_map.spec_lines() == rewrapped(lines0, start_line as int, texts.len() as int, texts, max, *wrap_policy),
            decreases new_end_line + 1 - line,
        {
            let text_of_line = line_text(new_text, new_line_index, line);
            proof {
                assert(chars_wrappable(line_chars(new_text.spec_bytes(), line as int), max, *wrap_policy));
            }
            wrap_map.rewrap_line(line, text_of_line, wrap_policy);
            proof {
                let t2 = texts.push(text_of_line);
                assert(wrapped_lines(t2, max, *wrap_policy) =~= wrapped_lines(texts, max, *wrap_policy).push(
                    wrap_spec(text_of_line, max, *wrap_policy),
                ));
                assert(wrap_map.spec_lines() =~= rewrapped(lines0, start_line as int, t2.len() as int, t2, max, *wrap_policy));
                texts = t2;
            }
            line = line + 1;
        }
        assert(wrap_map.spec_lines() == rewrapped(lines0, start_line as int, old_end_line - start_line + 1, texts, max, *wrap_policy));
        return;
    }
    let new_lines = collect_line_texts(new_text, new_line_index, start_line, new_line_count);
    proof {
        assert forall|k: int| 0 <= k < new_lines@.len() implies #[trigger] wrappable(new_lines@[k], max, *wrap_policy) by {
            assert(chars_wrappable(line_chars(new_text.spec_bytes(), start_line + k), max, *wrap_policy));
        }
    }
    wrap_map.splice_lines(start_line, old_line_count, new_lines.as_slice(), wrap_policy);
    assert(wrap_map.spec_lines() == rewrapped(lines0, start_line as int, old_line_count as int, new_lines@, max, *wrap_policy));
}

// ---------------------------------------------------------------------------
// Bracket matching
// ---------------------------------------------------------------------------

/// A matched pair of brackets at byte offsets.
#[derive(Debug, Clone, Copy, PartialEq, Eq, Structural)]
pub struct BracketPair {
    open: usize,
    close: usize,
}

impl View for BracketPair {
    type V = (int, int);

    closed spec fn view(&self) -> (int, int) {
        (self.open as int, self.close as int)
    }
}

impl BracketPair {
    pub fn open(&self) -> (r: usize)
        ensures
            r == self@.0,
    {
        self.open
    }

    pub fn close(&self) -> (r: usize)
        ensures
            r == self@.1,
    {
        self.close
    }
}

/// The byte of the bracket that matches bracket byte `c`, if `c` is one.
pub open spec fn matching_byte(c: u8) -> Option<u8> {
    if c == 40u8 {
        Some(41u8)
    } else if c == 41u8 {
        Some(40u8)
    } else if c == 91u8 {
        Some(93u8)
    } else if c == 93u8 {
        Some(91u8)
    } else if c == 123u8 {
        Some(125u8)
    } else if c == 125u8 {
        Some(123u8)
    } else {
        None
    }
}

/// `(`, `[` and `{` open.
pub open spec fn is_opening_byte(c: u8) -> bool {
    c == 40u8 || c == 91u8 || c == 123u8
}

/// Scanning forward from `p` with `depth` brackets open: the position where
/// the depth returns to 0.
pub open spec fn scan_forward(b: Seq<u8>, open: u8, close: u8, p: int, depth: int) -> Option<int>
    decreases b.len() - p,
{
    if p < 0 || p >= b.len() {
        None
    } else if b[p] == open {
        scan_forward(b, open, close, p + 1, depth + 1)
    } else if b[p] == close {
        if depth - 1 == 0 {
            Some(p)
        } else {
            scan_forward(b, open, close, p + 1, depth - 1)
        }
    } else {
        scan_forward(b, open, close, p + 1, depth)
    }
}

/// Scanning backward from `p` with `depth` brackets closed: the position where
/// the depth returns to 0.
pub open spec fn scan_backward(b: Seq<u8>, close: u8, open: u8, p: int, depth: int) -> Option<int>
    decreases p + 1,
{
    if p < 0 || p >= b.len() {
        None
    } else if b[p] == close {
        scan_backward(b, close, open, p - 1, depth + 1)
    } else if b[p] == open {
        if depth - 1 == 0 {
            Some(p)
        } else {
            scan_backward(b, close, open, p - 1, depth - 1)
        }
    } else {
        scan_backward(b, close, open, p - 1, depth)
    }
}

/// The bracket pair of the bracket at byte `offset`: for an opening bracket,
/// the first later position where as many brackets of its kind closed as
/// opened; for a closing one, the same scanning backward.
pub open spec fn spec_matching_bracket(b: Seq<u8>, offset: int) -> Option<(int, int)> {
    if offset < 0 || offset >= b.len() {
        None
    } else {
        match matching_byte(b[offset]) {
            None => None,
            Some(target) => if is_opening_byte(b[offset]) {
                match scan_forward(b, b[offset], target, offset, 0) {
                    Some(p) => Some((offset, p)),
                    None => None,
                }
            } else {
                match scan_backward(b, b[offset], target, offset, 0) {
                    Some(p) => Some((p, offset)),
                    None => None,
                }
            },
        }
    }
}

fn matching_bracket_byte(c: u8) -> (r: Option<u8>)
    ensures
        r == matching_byte(c),
{
    if c == 40u8 {
        Some(41u8)
    } else if c == 41u8 {
        Some(40u8)
    } else if c == 91u8 {
        Some(93u8)
    } else if c == 93u8 {
        Some(91u8)
    } else if c == 123u8 {
        Some(125u8)
    } else if c == 125u8 {
        Some(123u8)
    } else {
        None
    }
}

/// The opening minus the closing brackets among bytes `i..j` of `b`.
pub open spec fn bracket_balance(b: Seq<u8>, open: u8, close: u8, i: int, j: int) -> int
    decreases j - i,
{
    if j <= i {
        0
    } else {
        bracket_balance(b, open, close, i, j - 1) + if b[j - 1] == open {
            1int
        } else if b[j - 1] == close {
            -1int
        } else {
            0int
        }
    }
}

proof fn lemma_balance_split(b: Seq<u8>, open: u8, close: u8, i: int, j: int, k: int)
    requires
        i <= j <= k,
    ensures
        bracket_balance(b, open, close, i, k) == bracket_balance(b, open, close, i, j)
            + bracket_balance(b, open, close, j, k),
    decreases k - j,
{
    if j < k {
        lemma_balance_split(b, open, close, i, j, k - 1);
    }
}

proof fn lemma_scan_forward(b: Seq<u8>, open: u8, close: u8, p: int, d: int, c: int)
    requires
        open != close,
        d >= 1,
        0 <= p,
        scan_forward(b, open, close, p, d) == Some(c),
    ensures
        p <= c < b.len(),
        b[c] == close,
        d + bracket_balance(b, open, close, p, c + 1) == 0,
        forall|k: int| p < k <= c ==> d + #[trigger] bracket_balance(b, open, close, p, k) >= 1,
    decreases b.len() - p,
{
    lemma_balance_split(b, open, close, p, p, p + 1);
    if b[p] == close && d - 1 == 0 {
    } else {
        let d2 = if b[p] == open {
            d + 1
        } else if b[p] == close {
            d - 1
        } else {
            d
        };
        lemma_scan_forward(b, open, close, p + 1, d2, c);
        lemma_balance_split(b, open, close, p, p + 1, c + 1);
        assert forall|k: int| p < k <= c implies d + #[trigger] bracket_balance(b, open, close, p, k) >= 1 by {
            lemma_balance_split(b, open, close, p, p + 1, k);
        }
    }
}

proof fn lemma_forward_hits(b: Seq<u8>, open: u8, close: u8, o: int, c: int, p: int)
    requires
        open != close,
        0 <= o < p <= c < b.len(),
        b[c] == close,
        bracket_balance(b, open, close, o, c + 1) == 0,
        forall|k: int| o < k <= c ==> #[trigger] bracket_balance(b, open, close, o, k) >= 1,
    ensures
        scan_forward(b, open, close, p, bracket_balance(b, open, close, o, p)) == Some(c),
    decreases c - p,
{
    lemma_balance_split(b, open, close, o, p, p + 1);
    if p < c {
        assert(bracket_balance(b, open, close, o, p + 1) >= 1);
        lemma_forward_hits(b, open, close, o, c, p + 1);
    }
}

proof fn lemma_scan_backward(b: Seq<u8>, close: u8, open: u8, p: int, d: int, o: int)
    requires
        open != close,
        d >= 1,
        p < b.len(),
        scan_backward(b, close, open, p, d) == Some(o),
    ensures
        0 <= o <= p,
        b[o] == open,
        d == bracket_balance(b, open, close, o, p + 1),
        forall|k: int| o < k <= p + 1 ==> #[trigger] bracket_balance(b, open, close, k, p + 1) <= d - 1,
    decreases p + 1,
{
    if b[p] == open && d - 1 == 0 {
        lemma_balance_split(b, open, close, p, p, p + 1);
    } else {
        let d2 = if b[p] == close {
            d + 1
        } else if b[p] == open {
            d - 1
        } else {
            d
        };
        lemma_scan_backward(b, close, open, p - 1, d2, o);
        assert forall|k: int| o < k <= p + 1 implies #[trigger] bracket_balance(b, open, close, k, p + 1)
            <= d - 1 by {
            if k <= p {
                lemma_balance_split(b, open, close, k, p, p + 1);
            }
        }
    }
}

proof fn lemma_backward_hits(b: Seq<u8>, open: u8, close: u8, o: int, c: int, p: int)
    requires
        open != close,
        0 <= o <= p < c < b.len(),
        b[o] == open,
        b[c] == close,
        bracket_balance(b, open, close, o, c + 1) == 0,
        forall|k: int| o < k <= c ==> #[trigger] bracket_balance(b, open, close, o, k) >= 1,
    ensures
        scan_backward(b, close, open, p, 1 - bracket_balance(b, open, close, p + 1, c)) == Some(o),
    decreases p - o,
{
    lemma_balance_split(b, open, close, o, c, c + 1);
    lemma_balance_split(b, open, close, p, p + 1, c);
    lemma_balance_split(b, open, close, o, p + 1, c);
    if p > o {
        lemma_balance_split(b, open, close, o, p, p + 1);
        assert(bracket_balance(b, open, close, o, p) >= 1);
        lemma_backward_hits(b, open, close, o, c, p - 1);
    } else {
        lemma_balance_split(b, open, close, o, o, o + 1);
    }
}

/// A found bracket pair is an opening bracket before the closing bracket of
/// its kind, one of them at `offset`, the brackets of that kind between them
/// balance (every prefix after the opening one leaves it open, the whole
/// closes it), and the bracket at either end finds the same pair. Nothing is found away from a bracket or past the text.
pub proof fn lemma_matching_bracket_pair(b: Seq<u8>, offset: int)
    ensures
        (offset < 0 || offset >= b.len() || matching_byte(b[offset]) is None) ==> spec_matching_bracket(b, offset) is None,
        spec_matching_bracket(b, offset) matches Some(pair) ==> {
            &&& 0 <= pair.0 < pair.1 < b.len()
            &&& offset == pair.0 || offset == pair.1
            &&& is_opening_byte(b[pair.0])
            &&& matching_byte(b[pair.0]) == Some(b[pair.1])
            &&& spec_matching_bracket(b, pair.0) == Some(pair)
            &&& spec_matching_bracket(b, pair.1) == Some(pair)
            &&& bracket_balance(b, b[pair.0], b[pair.1], pair.0, pair.1 + 1) == 0
            &&& forall|k: int| pair.0 < k <= pair.1 ==> #[trigger] bracket_balance(b, b[pair.0], b[pair.1], pair.0, k) >= 1
        },
{
    if 0 <= offset < b.len() {
        if let Some(target) = matching_byte(b[offset]) {
            let c0 = b[offset];
            if is_opening_byte(c0) {
                if let Some(c) = scan_forward(b, c0, target, offset, 0) {
                    let o = offset;
                    assert(scan_forward(b, c0, target, o, 0) == scan_forward(b, c0, target, o + 1, 1));
                    lemma_scan_forward(b, c0, target, o + 1, 1, c);
                    assert(bracket_balance(b, c0, target, o, o) == 0);
                    assert(bracket_balance(b, c0, target, o, o + 1) == 1);
                    lemma_balance_split(b, c0, target, o, o + 1, c + 1);
                    assert forall|k: int| o < k <= c implies #[trigger] bracket_balance(b, c0, target, o, k) >= 1 by {
                        lemma_balance_split(b, c0, target, o, o + 1, k);
                    }
                    lemma_backward_hits(b, c0, target, o, c, c - 1);
                    assert(matching_byte(target) == Some(c0));
                }
            } else {
                if let Some(o) = scan_backward(b, c0, target, offset, 0) {
                    let c = offset;
                    assert(scan_backward(b, c0, target, c, 0) == scan_backward(b, c0, target, c - 1, 1));
                    lemma_scan_backward(b, c0, target, c - 1, 1, o);
                    lemma_balance_split(b, target, c0, o, c, c + 1);
                    assert forall|k: int| o < k <= c implies #[trigger] bracket_balance(b, target, c0, o, k) >= 1 by {
                        lemma_balance_split(b, target, c0, o, k, c);
                    }
                    lemma_forward_hits(b, target, c0, o, c, o + 1);
                    lemma_balance_split(b, target, c0, o, o, o + 1);
                    assert(matching_byte(target) == Some(c0));
                }
            }
        }
    }
}

/// Finds the matching bracket for the bracket character at `offset`.
///
/// Supports `()`, `[]`, `{}`. Returns `None` if `offset` is not on a
/// bracket character, or no matching bracket is found. Brackets are ASCII,
/// so they are recognised byte by byte: a byte equal to a bracket is always
/// that character.
pub fn find_matching_bracket(text: &str, offset: usize) -> (r: Option<BracketPair>)
    ensures
        match r {
            Some(pair) => spec_matching_bracket(text.spec_bytes(), offset as int) == Some(pair@),
            None => spec_matching_bracket(text.spec_bytes(), offset as int) is None,
        },
{
    let b = text.as_bytes();
    if offset >= b.len() {
        return None;
    }
    let ch = b[offset];
    let target = match matching_bracket_byte(ch) {
        Some(t) => t,
        None => return None,
    };
    if ch == 40u8 || ch == 91u8 || ch == 123u8 {
        let mut depth: usize = 0;
        let mut pos: usize = offset;
        while pos < b.len()
            invariant
                b@ == text.spec_bytes(),
                offset <= pos <= b@.len(),
                depth <= pos - offset,
                pos > offset ==> depth >= 1,
                ch == b@[offset as int],
                is_opening_byte(ch),
                matching_byte(ch) == Some(target),
                target != ch,
                scan_forward(b@, ch, target, offset as int, 0) == scan_forward(
                    b@,
                    ch,
                    target,
                    pos as int,
                    depth as int,
                ),
            decreases b@.len() - pos,
        {
            let c = b[pos];
            if c == ch {
                depth = depth + 1;
            } else if c == target {
                if depth - 1 == 0 {
                    return Some(BracketPair { open: offset, close: pos });
                }
                depth = depth - 1;
            }
            pos = pos + 1;
        }
        None
    } else {
        let mut depth: usize = 0;
        let mut pos: usize = offset + 1;
        while pos > 0
            invariant
                b@ == text.spec_bytes(),
                0 <= pos <= offset + 1,
                offset < b@.len(),
                depth <= offset + 1 - pos,
                pos <= offset ==> depth >= 1,
                ch == b@[offset as int],
                !is_opening_byte(ch),
                matching_byte(ch) == Some(target),
                target != ch,
                scan_backward(b@, ch, target, offset as int, 0) == scan_backward(
                    b@,
                    ch,
                    target,
                    pos - 1,
                    depth as int,
                ),
            decreases pos,
        {
            let p = pos - 1;
            let c = b[p];
            if c == ch {
                depth = depth + 1;
            } else if c == target {
                if depth - 1 == 0 {
                    assert(scan_backward(b@, ch, target, p as int, depth as int) == Some(p as int));
                    assert(matching_byte(b@[offset as int]) == Some(target));
                    return Some(BracketPair { open: p, close: offset });
                }
                depth = depth - 1;
            }
            pos = p;
        }
        None
    }
}

// ---------------------------------------------------------------------------
// Auto close bracket
// ---------------------------------------------------------------------------

/// The closing counterpart of an opening bracket or quote.
pub open spec fn spec_auto_close(ch: char) -> Option<char> {
    if ch == '(' {
        Some(')')
    } else if ch == '[' {
        Some(']')
    } else if ch == '{' {
        Some('}')
    } else if ch == '"' {
        Some('"')
    } else if ch == '\'' {
        Some('\'')
    } else {
        None
    }
}

/// Returns the closing counterpart for an opening bracket or quote character.
///
/// Supports `()`, `[]`, `{}`, `""`, `''`.
pub fn auto_close_bracket(ch: char) -> (r: Option<char>)
    ensures
        r == spec_auto_close(ch),
{
    match ch {
        '(' => Some(')'),
        '[' => Some(']'),
        '{' => Some('}'),
        '"' => Some('"'),
        '\'' => Some('\''),
        _ => None,
    }
}

// ---------------------------------------------------------------------------
// Auto-indent
// ---------------------------------------------------------------------------

/// Number of space and tab bytes from `p` on, before `end`.
pub open spec fn indent_run(b: Seq<u8>, p: int, end: int) -> int
    decreases end - p,
{
    if p < 0 || p >= end || p >= b.len() {
        0
    } else if b[p] == 32u8 || b[p] == 9u8 {
        1 + indent_run(b, p + 1, end)
    } else {
        0
    }
}

/// The start of a line of an index built over `b` is a character boundary.
proof fn lemma_line_start_boundary(b: Seq<u8>, starts: Seq<int>, line: int)
    requires
        valid_utf8(b),
        starts == line_starts_of(b),
        0 <= line < starts.len(),
    ensures
        is_char_boundary(b, starts[line]),
        0 <= starts[line] <= b.len(),
{
    crate::textview::lemma_line_starts_wf(b);
    if line == 0 {
        is_char_boundary_start_end_of_seq(b);
    } else {
        let p = starts[line] - 1;
        assert(b[p] == 10u8);
        lemma_ascii_boundary(b, p);
    }
}

/// The leading run of spaces and tabs of the line that holds `offset`, as
/// bytes of `b` indexed by `starts` (which ends at `end`); empty when
/// `offset` lies past the text.
pub open spec fn indent_of_line(b: Seq<u8>, starts: Seq<int>, line: int, end: int) -> Seq<u8> {
    b.subrange(starts[line], starts[line] + indent_run(b, starts[line], end))
}

/// Returns the leading whitespace of the line containing `offset`.
///
/// Used by the UI layer to replicate the current line's indentation on Enter.
/// `line_index` must be the index of `text`.
pub fn auto_indent(text: &str, line_index: &LineIndex, offset: usize) -> (r: String)
    requires
        line_index.starts() == line_starts_of(text.spec_bytes()),
        line_index.spec_len() == text.spec_bytes().len(),
    ensures
        offset > text.spec_bytes().len() ==> r@.len() == 0,
        offset <= text.spec_bytes().len() ==> exists|line: int|
            is_line_of(line_index.starts(), line, offset as int) && bytes_of(r@) == indent_of_line(
                text.spec_bytes(),
                line_index.starts(),
                line,
                line_index.line_end(line),
            ),
{
    let line = match line_index.line_of_offset(offset) {
        Ok(l) => l,
        Err(_) => return String::new(),
    };
    let range = match line_index.line_range(line) {
        Ok(r) => r,
        Err(_) => return String::new(),
    };
    let start = range.start();
    let end = range.end();
    let b = text.as_bytes();
    let ghost starts = line_index.starts();
    proof {
        lemma_str_valid(text);
        lemma_line_start_boundary(b@, starts, line as int);
        crate::textview::lemma_line_starts_wf(b@);
        assert(line_index.line_end(line as int) <= b@.len());
    }
    let mut i: usize = start;
    while i < end && (b[i] == 32u8 || b[i] == 9u8)
        invariant
            b@ == text.spec_bytes(),
            start <= i <= end <= b@.len(),
            valid_utf8(b@),
            is_char_boundary(b@, i as int),
            indent_run(b@, start as int, end as int) == (i - start) + indent_run(
                b@,
                i as int,
                end as int,
            ),
        decreases end - i,
    {
        proof {
            lemma_ascii_boundary(b@, i as int);
        }
        i = i + 1;
    }
    assert(indent_run(b@, i as int, end as int) == 0);
    let piece = substr(text, start, i);
    let r = piece.to_owned();
    assert(bytes_of(r@) == piece.spec_bytes());
    r
}

} // verus!

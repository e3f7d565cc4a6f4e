//! Line-level viewport geometry: which visual line a caret falls on, the
//! byte range each visual line covers, and the pieces of a selection per
//! visual line. Pixel measures are left to the host.

use vstd::prelude::*;
use crate::strutil::push_chars;
use crate::textview::{
    is_line_of, lemma_line_of_unique, line_at, message_text, LineIndex, Selection,
    TextViewError,
};
use crate::wrap::{
    leading_at_most, lemma_leading_bounded, lemma_logical_position_round_trip,
    lemma_visual_before_monotone, locate, visual_before, WrapMap,
};

verus! {

/// Errors returned by viewport operations.
#[non_exhaustive]
#[derive(Debug)]
pub enum ViewportError {
    TextView(TextViewError),
}

impl ViewportError {
    /// Human-readable description of the error.
    pub fn message(&self) -> (r: String)
        ensures
            match self {
                ViewportError::TextView(e) => r@ == "text view error: "@ + message_text(*e),
            },
    {
        match self {
            ViewportError::TextView(e) => {
                let mut out = String::new();
                push_chars(&mut out, "text view error: ");
                let m = e.message();
                push_chars(&mut out, m.as_str());
                out
            },
        }
    }

    /// The text view error this error wraps.
    pub fn source(&self) -> (r: &TextViewError)
        ensures
            self matches ViewportError::TextView(e) && r == e,
    {
        match self {
            ViewportError::TextView(e) => e,
        }
    }
}

impl From<TextViewError> for ViewportError {
    fn from(e: TextViewError) -> (r: Self) {
        ViewportError::TextView(e)
    }
}

impl vstd::std_specs::convert::FromSpecImpl<TextViewError> for ViewportError {
    open spec fn obeys_from_spec() -> bool {
        true
    }

    open spec fn from_spec(v: TextViewError) -> Self {
        ViewportError::TextView(v)
    }
}

// ---------------------------------------------------------------------------
// Visual lines of a wrapped document
// ---------------------------------------------------------------------------

/// The wrap map covers every line of the index, its visual lines can be
/// counted in `u32`, and line starts plus wrap offsets fit in `usize`.
pub open spec fn layout_fits(li: LineIndex, wm: WrapMap) -> bool {
    let lines = wm.spec_lines();
    &&& li.starts().len() <= lines.len()
    &&& visual_before(lines, lines.len() as int) <= u32::MAX
    &&& forall|k: int| 0 <= k < lines.len() ==> #[trigger] lines[k].len() < u32::MAX
    &&& forall|k: int, j: int|
        0 <= k < li.starts().len() && 0 <= j < lines[k].len() ==> li.starts()[k]
            + #[trigger] lines[k][j].0 <= usize::MAX
}

/// Number of visual lines of the wrapped document.
pub open spec fn total_visual(wm: WrapMap) -> int {
    visual_before(wm.spec_lines(), wm.spec_lines().len() as int)
}

/// The visual line of a caret at `offset`, and the byte offset at which that
/// visual line starts.
pub open spec fn spec_caret_line(li: LineIndex, wm: WrapMap, offset: int) -> (int, int) {
    let lines = wm.spec_lines();
    let l = line_at(li.starts(), offset);
    let lead = leading_at_most(lines[l], offset - li.starts()[l], 0);
    (
        visual_before(lines, l) + lead,
        li.starts()[l] + if lead == 0 {
            0
        } else {
            lines[l][lead - 1].0
        },
    )
}

/// The byte range `[start, end)` of visual line `vl`, or the error of its
/// logical line lying past the index.
pub open spec fn spec_visual_line_bounds(li: LineIndex, wm: WrapMap, vl: int) -> Result<
    (int, int),
    TextViewError,
> {
    let lines = wm.spec_lines();
    let (log, s) = locate(lines, vl, 0);
    if log >= li.starts().len() {
        Err(
            TextViewError::LineOutOfBounds {
                line: log as u32,
                line_count: li.starts().len() as u32,
            },
        )
    } else {
        let start = li.starts()[log] + s;
        let end = if vl + 1 < total_visual(wm) && locate(lines, vl + 1, 0).0 == log {
            li.starts()[log] + locate(lines, vl + 1, 0).1
        } else {
            li.line_end(log)
        };
        Ok((start, end))
    }
}

/// The pieces of the byte range `[start, end)` on visual lines `vl` to
/// `last`: for each visual line that the range overlaps, the visual line, the
/// byte offset where it starts, and the overlap.
pub open spec fn spec_selection_segments(
    li: LineIndex,
    wm: WrapMap,
    start: int,
    end: int,
    vl: int,
    last: int,
) -> Result<Seq<(int, int, int, int)>, TextViewError>
    decreases last + 1 - vl,
{
    if vl > last {
        Ok(Seq::empty())
    } else {
        match spec_visual_line_bounds(li, wm, vl) {
            Err(e) => Err(e),
            Ok((vs, ve)) => {
                let ss = if start > vs {
                    start
                } else {
                    vs
                };
                let se = if end < ve {
                    end
                } else {
                    ve
                };
                match spec_selection_segments(li, wm, start, end, vl + 1, last) {
                    Err(e) => Err(e),
                    Ok(rest) => Ok(
                        if ss < se {
                            seq![(vl, vs, ss, se)] + rest
                        } else {
                            rest
                        },
                    ),
                }
            },
        }
    }
}

/// The visual line of the caret at `offset`, and the byte offset at which
/// that visual line starts.
pub fn caret_visual_line(offset: usize, line_index: &LineIndex, wrap_map: &WrapMap) -> (r: Result<
    (u32, usize),
    TextViewError,
>)
    requires
        layout_fits(*line_index, *wrap_map),
    ensures
        offset > line_index.spec_len() ==> r == Err::<(u32, usize), TextViewError>(
            TextViewError::OffsetOutOfBounds { offset, len: line_index.spec_len() as usize },
        ),
        offset <= line_index.spec_len() ==> (r matches Ok((vl, start)) && (vl as int, start as int)
            == spec_caret_line(*line_index, *wrap_map, offset as int) && vl < total_visual(
            *wrap_map,
        )),
{
    let line = match line_index.line_of_offset(offset) {
        Ok(l) => l,
        Err(e) => return Err(e),
    };
    let ghost starts = line_index.starts();
    let ghost lines = wrap_map.spec_lines();
    proof {
        let l = line_at(starts, offset as int);
        assert(is_line_of(starts, line as int, offset as int));
        lemma_line_of_unique(starts, line_index.spec_len(), l, line as int, offset as int);
    }
    let range = match line_index.line_range(line) {
        Ok(r) => r,
        Err(e) => return Err(e),
    };
    let byte_in_line = (offset - range.start()) as u32;
    proof {
        lemma_visual_before_monotone(lines, line + 1, lines.len() as int);
        lemma_leading_bounded(lines[line as int], byte_in_line as int, 0);
        lemma_logical_position_round_trip(lines, line as int, byte_in_line as int);
    }
    let vl = wrap_map.to_visual_line(line, byte_in_line);
    let (_, in_line) = wrap_map.from_visual_line(vl);
    proof {
        let lead = leading_at_most(lines[line as int], byte_in_line as int, 0);
        if lead > 0 {
            assert(starts[line as int] + lines[line as int][lead - 1].0 <= usize::MAX);
        }
    }
    Ok((vl, range.start() + in_line as usize))
}

/// The byte range `[start, end)` covered by visual line `visual_line`.
pub fn visual_line_bounds(visual_line: u32, line_index: &LineIndex, wrap_map: &WrapMap) -> (r: Result<
    (usize, usize),
    TextViewError,
>)
    requires
        layout_fits(*line_index, *wrap_map),
        visual_line < total_visual(*wrap_map),
    ensures
        match r {
            Ok((s, e)) => spec_visual_line_bounds(*line_index, *wrap_map, visual_line as int) == Ok::<
                (int, int),
                TextViewError,
            >((s as int, e as int)),
            Err(e) => spec_visual_line_bounds(*line_index, *wrap_map, visual_line as int) == Err::<
                (int, int),
                TextViewError,
            >(e),
        },
{
    let ghost lines = wrap_map.spec_lines();
    let ghost starts = line_index.starts();
    let total = wrap_map.total_visual_lines();
    let (log_line, in_line) = wrap_map.from_visual_line(visual_line);
    let lr = match line_index.line_range(log_line) {
        Ok(r) => r,
        Err(e) => return Err(e),
    };
    proof {
        if in_line > 0 {
            let j = choose|j: int|
                0 <= j < lines[log_line as int].len() && #[trigger] lines[log_line as int][j].0
                    == in_line;
            assert(starts[log_line as int] + lines[log_line as int][j].0 <= usize::MAX);
        }
    }
    let start = lr.start() + in_line as usize;
    let end = if visual_line + 1 < total {
        let (next_log, next_in_line) = wrap_map.from_visual_line(visual_line + 1);
        if next_log == log_line {
            proof {
                if next_in_line > 0 {
                    let j = choose|j: int|
                        0 <= j < lines[log_line as int].len()
                            && #[trigger] lines[log_line as int][j].0 == next_in_line;
                    assert(starts[log_line as int] + lines[log_line as int][j].0 <= usize::MAX);
                }
            }
            lr.start() + next_in_line as usize
        } else {
            lr.end()
        }
    } else {
        lr.end()
    };
    Ok((start, end))
}

/// The pieces of a selection per visual line: the visual line, the byte
/// offset where it starts, and the selected bytes on it. Empty for an empty
/// selection.
pub fn selection_segments(selection: &Selection, line_index: &LineIndex, wrap_map: &WrapMap) -> (r:
    Result<Vec<(u32, usize, usize, usize)>, TextViewError>)
    requires
        layout_fits(*line_index, *wrap_map),
    ensures
        ({
            let range = if selection.spec_anchor() <= selection.spec_head() {
                (selection.spec_anchor() as int, selection.spec_head() as int)
            } else {
                (selection.spec_head() as int, selection.spec_anchor() as int)
            };
            let len = line_index.spec_len();
            if range.0 == range.1 {
                (r matches Ok(v) && v@.len() == 0)
            } else if range.0 > len {
                r == Err::<Vec<(u32, usize, usize, usize)>, TextViewError>(
                    TextViewError::OffsetOutOfBounds { offset: range.0 as usize, len: len as usize },
                )
            } else if range.1 > len {
                r == Err::<Vec<(u32, usize, usize, usize)>, TextViewError>(
                    TextViewError::OffsetOutOfBounds { offset: range.1 as usize, len: len as usize },
                )
            } else {
                match spec_selection_segments(
                    *line_index,
                    *wrap_map,
                    range.0,
                    range.1,
                    spec_caret_line(*line_index, *wrap_map, range.0).0,
                    spec_caret_line(*line_index, *wrap_map, range.1).0,
                ) {
                    Ok(segs) => (r matches Ok(v) && segs_view(v@) == segs),
                    Err(e) => r == Err::<Vec<(u32, usize, usize, usize)>, TextViewError>(e),
                }
            }
        }),
{
    let range = selection.range();
    if range.is_empty() {
        return Ok(Vec::new());
    }
    let start_offset = range.start();
    let end_offset = range.end();
    let (first_vl, _) = match caret_visual_line(start_offset, line_index, wrap_map) {
        Ok(p) => p,
        Err(e) => return Err(e),
    };
    let (last_vl, _) = match caret_visual_line(end_offset, line_index, wrap_map) {
        Ok(p) => p,
        Err(e) => return Err(e),
    };
    let ghost goal = spec_selection_segments(
        *line_index,
        *wrap_map,
        start_offset as int,
        end_offset as int,
        first_vl as int,
        last_vl as int,
    );
    let mut segments: Vec<(u32, usize, usize, usize)> = Vec::new();
    let mut vl = first_vl;
    while vl <= last_vl
        invariant
            layout_fits(*line_index, *wrap_map),
            last_vl < total_visual(*wrap_map),
            total_visual(*wrap_map) <= u32::MAX,
            first_vl <= vl,
            vl <= last_vl + 1 || vl == first_vl,
            start_offset as int == (if selection.spec_anchor() <= selection.spec_head() {
                selection.spec_anchor() as int
            } else {
                selection.spec_head() as int
            }),
            end_offset as int == (if selection.spec_anchor() <= selection.spec_head() {
                selection.spec_head() as int
            } else {
                selection.spec_anchor() as int
            }),
            start_offset != end_offset,
            start_offset <= line_index.spec_len(),
            end_offset <= line_index.spec_len(),
            first_vl as int == spec_caret_line(*line_index, *wrap_map, start_offset as int).0,
            last_vl as int == spec_caret_line(*line_index, *wrap_map, end_offset as int).0,
            goal == spec_selection_segments(
                *line_index,
                *wrap_map,
                start_offset as int,
                end_offset as int,
                first_vl as int,
                last_vl as int,
            ),
            goal == match spec_selection_segments(
                *line_index,
                *wrap_map,
                start_offset as int,
                end_offset as int,
                vl as int,
                last_vl as int,
            ) {
                Ok(rest) => Ok(segs_view(segments@) + rest),
                Err(e) => Err(e),
            },
        decreases last_vl + 1 - vl,
    {
        let (vs, ve) = match visual_line_bounds(vl, line_index, wrap_map) {
            Ok(b) => b,
            Err(e) => {
                return Err(e);
            },
        };
        let sel_start = if start_offset > vs {
            start_offset
        } else {
            vs
        };
        let sel_end = if end_offset < ve {
            end_offset
        } else {
            ve
        };
        let ghost before = segs_view(segments@);
        if sel_start < sel_end {
            segments.push((vl, vs, sel_start, sel_end));
            assert(segs_view(segments@) =~= before.push((vl as int, vs as int, sel_start as int, sel_end as int)));
        }
        proof {
            let rest = spec_selection_segments(
                *line_index,
                *wrap_map,
                start_offset as int,
                end_offset as int,
                vl + 1,
                last_vl as int,
            );
            if rest is Ok {
                let tail = rest->Ok_0;
                if sel_start < sel_end {
                    assert(before + (seq![(vl as int, vs as int, sel_start as int, sel_end as int)]
                        + tail) =~= segs_view(segments@) + tail);
                } else {
                    assert(before == segs_view(segments@));
                }
            }
        }
        vl = vl + 1;
    }
    assert(segs_view(segments@) + Seq::<(int, int, int, int)>::empty() =~= segs_view(segments@));
    Ok(segments)
}

/// The abstract values of selection pieces.
pub open spec fn segs_view(v: Seq<(u32, usize, usize, usize)>) -> Seq<(int, int, int, int)> {
    v.map_values(|t: (u32, usize, usize, usize)| (t.0 as int, t.1 as int, t.2 as int, t.3 as int))
}

} // verus!

//! An editing session: a buffer with its decorations, soft wrapping, edit
//! history, syntax highlighter and search results, driven by plain calls.
//! Pixel geometry is left to the caller.

use vstd::prelude::*;
use vstd::string::StringSliceAdditionalSpecFns;
use crate::decor::{DecorationSet, Decoration, DecorationId, map_entries_through};
use crate::editor::{auto_close_bracket, auto_indent, find_matching_bracket, indent_of_line, spec_auto_close, spec_detect_indent, spec_matching_bracket, BracketPair, IndentStyle, EditorBuffer, spec_range_changes, lines_wrappable, wrap_updated, label_chars, collect_line_texts, line_chars, line_text, changes_view};
use crate::history::{EditHistory, EntryKind, RedoResult, UndoResult, edit_recorded, opt_chars, opt_vec_views, redo_reports, undo_reports};
use crate::search::{find_all, SearchError, SearchMatch, SearchQuery, describes, pattern_for, regex_find_iter, regex_new_error};
use crate::strutil::bytes_of;
use crate::syntax::{GrammarSet, SyntaxHighlighter, TokenSpan, TokenKind, spans_view, spans_well_formed, spans_tile, line_tokenized, lines_tokenized, tokenized_from, is_reset_of};
use crate::textpatch::{spec_inverse, TextPatch, TextPatchError, spec_debug_text, PatchView, spec_apply, spec_validate, validate_patches, patch_views};
use crate::textview::{is_line_of, line_starts_of, spec_byte_to_utf16, spec_utf16_to_byte, RangeChange, TextViewError, Utf16Mapping};
use crate::viewport::ViewportError;
use crate::wrap::{CjkGridWidth, CodeBreaks, LineLayoutPolicy, PreserveInlineWidth, WidthPolicy, WrapMap, WrapPolicy, wrapped_lines};

verus! {


/// The step an undo report asks for.
pub open spec fn undo_step(u: UndoResult) -> (EntryKind, Option<Seq<PatchView>>, Option<Seq<char>>) {
    (u.kind, opt_vec_views(u.inverse_patches), opt_chars(u.snapshot))
}

/// The step a redo report asks for.
pub open spec fn redo_step(r: RedoResult) -> (EntryKind, Option<Seq<PatchView>>, Option<Seq<char>>) {
    (r.kind, opt_vec_views(r.forward_patches), opt_chars(r.snapshot))
}

/// The text after one step: reversible steps apply their patches, snapshot
/// steps restore their text, and a step with nothing to apply leaves the text.
pub open spec fn step_result(
    text: Seq<u8>,
    step: (EntryKind, Option<Seq<PatchView>>, Option<Seq<char>>),
) -> Result<Seq<u8>, TextPatchError> {
    match step.0 {
        EntryKind::Reversible => match step.1 {
            Some(ps) => match spec_validate(text, ps) {
                Ok(_) => Ok(spec_apply(text, ps)),
                Err(e) => Err(e),
            },
            None => Ok(text),
        },
        EntryKind::Snapshot => match step.2 {
            Some(s) => Ok(bytes_of(s)),
            None => Ok(text),
        },
    }
}

/// The text after the steps from `i` on, or the first patch error.
pub open spec fn replay(
    text: Seq<u8>,
    steps: Seq<(EntryKind, Option<Seq<PatchView>>, Option<Seq<char>>)>,
    i: int,
) -> Result<Seq<u8>, TextPatchError>
    decreases steps.len() - i,
{
    if i < 0 || i >= steps.len() {
        Ok(text)
    } else {
        match step_result(text, steps[i]) {
            Ok(t) => replay(t, steps, i + 1),
            Err(e) => Err(e),
        }
    }
}

/// A text the session can hold: it fits the line index and every line can
/// be wrapped.
pub open spec fn text_fits(t: Seq<u8>, max: int, pol: WrapPolicy<CjkGridWidth, CodeBreaks>) -> bool {
    t.len() < u32::MAX && lines_wrappable(t, max, pol)
}

/// Every text the steps from `i` on produce fits, and so do the range changes
/// of the patches they apply.
pub open spec fn replay_fits(
    text: Seq<u8>,
    steps: Seq<(EntryKind, Option<Seq<PatchView>>, Option<Seq<char>>)>,
    i: int,
    max: int,
    pol: WrapPolicy<CjkGridWidth, CodeBreaks>,
) -> bool
    decreases steps.len() - i,
{
    if i < 0 || i >= steps.len() {
        true
    } else {
        let step = steps[i];
        &&& step.0 == EntryKind::Reversible ==> (step.1 matches Some(ps) ==> (spec_validate(text, ps) is Ok
            ==> forall|k: int| 0 <= k < ps.len() ==> #[trigger] spec_range_changes(ps)[k].1 <= usize::MAX))
        &&& match step_result(text, step) {
            Ok(t) => text_fits(t, max, pol) && replay_fits(t, steps, i + 1, max, pol),
            Err(_) => true,
        }
    }
}

/// A line to render: its number counted from one, its text and its tokens.
#[derive(Debug)]
pub struct RenderLine {
    pub line_number: u32,
    pub text: String,
    pub tokens: Vec<TokenSpan>,
}

/// An error reported by a session operation: the subsystem, a short code and
/// a message.
#[derive(Debug, Clone, PartialEq, Eq)]
pub struct SessionError {
    pub domain: &'static str,
    pub code: &'static str,
    pub message: String,
}

/// The line that tokenizing resumes at for a range starting at line
/// `first`: the first line not yet tokenized, when the range starts at or
/// after it, else the first line of the text.
pub open spec fn resume_line(valid_through: u32, first: int) -> int {
    if valid_through > 0 && first >= valid_through {
        valid_through as int
    } else {
        0
    }
}

/// `err` reports the patch error `e`.
pub open spec fn is_patch_failure(err: SessionError, e: TextPatchError) -> bool {
    &&& err.domain@ == "editor"@
    &&& err.code@ == "patch_failed"@
    &&& err.message@ == spec_debug_text(e)
}

/// The session error for a patch error.
pub fn map_textpatch_error(e: TextPatchError) -> (r: SessionError)
    ensures
        is_patch_failure(r, e),
{
    let message = e.debug_text();
    SessionError { domain: "editor", code: "patch_failed", message }
}

/// The session error for a search error.
pub fn map_search_error(e: SearchError) -> (r: SessionError)
    ensures
        r.domain@ == "search"@,
        r.code@ == "search_error"@,
        match e {
            SearchError::InvalidRegex(msg) => r.message@ == "invalid regex: "@ + msg@,
        },
{
    let message = e.message();
    proof {
        reveal_strlit("invalid regex: ");
    }
    SessionError { domain: "search", code: "search_error", message }
}

/// The session error for a viewport error.
pub fn map_viewport_error(e: ViewportError) -> (r: SessionError)
    ensures
        r.domain@ == "viewport"@,
        r.code@ == "viewport_error"@,
        match e {
            ViewportError::TextView(t) => r.message@ == "text view error: "@ + crate::textview::message_text(t),
        },
{
    let message = e.message();
    SessionError { domain: "viewport", code: "viewport_error", message }
}

/// The session error for a failed UTF-16 offset conversion.
pub fn map_text_error(e: TextViewError) -> (r: SessionError)
    ensures
        r.domain@ == "text"@,
        r.code@ == "utf16_mapping_error"@,
        r.message@ == crate::textview::message_text(e),
{
    let message = e.message();
    SessionError { domain: "text", code: "utf16_mapping_error", message }
}

/// The error of an edit attempted on a read-only buffer.
pub open spec fn is_read_only_error(err: SessionError) -> bool {
    &&& err.domain@ == "editor"@
    &&& err.code@ == "read_only"@
    &&& err.message@ == "buffer is read-only"@
}

/// The patch that replaces `start..end` with `new_text`.
pub open spec fn edit_view(start: u32, end: u32, new_text: Seq<char>) -> PatchView {
    PatchView { start: start as usize, end: end as usize, replacement: new_text }
}

/// Every line of the text can be wrapped by a code policy with tab width
/// `tab_width` against any column limit.
pub open spec fn fits_code_policy(b: Seq<u8>, tab_width: u32) -> bool {
    forall|p: WrapPolicy<CjkGridWidth, CodeBreaks>, max: int|
        p.spec_width_policy().spec_tab_width() == Some(tab_width) ==> #[trigger] lines_wrappable(b, max, p)
}

/// A buffer with what follows its text: decorations, soft wrapping, history,
/// highlighting and search results, and the counters of a document's state.
pub struct EditorSession {
    buffer: EditorBuffer,
    decorations: DecorationSet,
    line_layout_policy: LineLayoutPolicy<PreserveInlineWidth>,
    width_policy: WidthPolicy<CjkGridWidth>,
    wrap_map: WrapMap,
    wrap_policy: WrapPolicy<CjkGridWidth, CodeBreaks>,
    history: EditHistory,
    highlighter: Option<SyntaxHighlighter>,
    search_matches: Vec<SearchMatch>,
    edit_count: u64,
    saved_edit_count: u64,
    highlight_valid_through: u32,
    read_only: bool,
}

impl EditorSession {
    pub closed spec fn spec_text(self) -> Seq<char> {
        self.buffer.spec_text()
    }

    pub closed spec fn spec_history(self) -> EditHistory {
        self.history
    }

    pub closed spec fn spec_decorations(self) -> Seq<(DecorationId, Decoration)> {
        self.decorations.spec_entries()
    }

    pub closed spec fn spec_wrap_lines(self) -> Seq<Seq<(int, int)>> {
        self.wrap_map.spec_lines()
    }

    pub closed spec fn spec_wrap_max(self) -> u32 {
        self.wrap_map.spec_max_width()
    }

    pub closed spec fn spec_wrap_policy(self) -> WrapPolicy<CjkGridWidth, CodeBreaks> {
        self.wrap_policy
    }

    pub closed spec fn spec_width_policy(self) -> WidthPolicy<CjkGridWidth> {
        self.width_policy
    }

    pub closed spec fn spec_line_layout_policy(self) -> LineLayoutPolicy<PreserveInlineWidth> {
        self.line_layout_policy
    }

    pub closed spec fn spec_search_matches(self) -> Seq<SearchMatch> {
        self.search_matches@
    }

    pub closed spec fn spec_edit_count(self) -> u64 {
        self.edit_count
    }

    pub closed spec fn spec_saved_edit_count(self) -> u64 {
        self.saved_edit_count
    }

    pub closed spec fn spec_highlight_valid_through(self) -> u32 {
        self.highlight_valid_through
    }

    pub closed spec fn spec_read_only(self) -> bool {
        self.read_only
    }

    /// The syntax highlighter, when a grammar was found for the language.
    pub closed spec fn spec_highlighter(self) -> Option<SyntaxHighlighter> {
        self.highlighter
    }

    /// Whether a grammar was found for the session's language.
    pub closed spec fn spec_has_highlighter(self) -> bool {
        self.highlighter is Some
    }

    /// The history is well formed and the wrap map has one entry per line.
    pub open spec fn wf(self) -> bool {
        &&& self.spec_history().wf()
        &&& self.spec_wrap_lines().len() == line_starts_of(bytes_of(self.spec_text())).len()
        &&& forall|k: int| 0 <= k < self.spec_wrap_lines().len() ==> #[trigger] self.spec_wrap_lines()[k].len() < u32::MAX
    }

    /// Open a session on `text`, highlighted as `language` when a grammar
    /// for it is known, wrapped with no column limit and tabs `tab_width`
    /// columns wide.
    pub fn new(text: &str, language: &str, tab_width: u32) -> (s: Self)
        requires
            text.spec_bytes().len() < u32::MAX,
            fits_code_policy(text.spec_bytes(), tab_width),
        ensures
            s.wf(),
            s.spec_text() == text@,
            s.spec_wrap_max() == u32::MAX,
            s.spec_wrap_policy().spec_width_policy().spec_tab_width() == Some(tab_width),
            s.spec_wrap_policy().spec_width_policy() == s.spec_width_policy(),
            s.spec_width_policy().spec_tab_width() == Some(tab_width),
            s.spec_line_layout_policy().spec_layout_mode() == crate::wrap::LayoutMode::HorizontalLtr,
            s.spec_wrap_lines().len() == line_starts_of(text.spec_bytes()).len(),
            s.spec_history().spec_cursor() == Seq::<usize>::empty(),
            s.spec_history().spec_current().spec_snapshot() == Some(text@),
            s.spec_decorations().len() == 0,
            s.spec_search_matches().len() == 0,
            s.spec_edit_count() == 0,
            s.spec_saved_edit_count() == 0,
            s.spec_highlight_valid_through() == 0,
            !s.spec_read_only(),
    {
        let buffer = EditorBuffer::new(text.to_owned());
        let line_layout_policy = LineLayoutPolicy::horizontal_ltr();
        let width_policy = WidthPolicy::cjk_grid(tab_width);
        let wrap_policy = WrapPolicy::code_with_width_policy(width_policy);
        let lines = collect_line_texts(text, buffer.line_index(), 0, buffer.line_index().line_count());
        proof {
            assert(lines_wrappable(text.spec_bytes(), u32::MAX as int, wrap_policy));
            assert forall|k: int| 0 <= k < lines@.len() implies #[trigger] crate::wrap::wrappable(
                lines@[k],
                u32::MAX as int,
                wrap_policy,
            ) by {
                assert(crate::editor::chars_wrappable(line_chars(text.spec_bytes(), k), u32::MAX as int, wrap_policy));
            }
        }
        let wrap_map = WrapMap::new(lines.as_slice(), u32::MAX, &wrap_policy);
        proof {
            crate::strutil::lemma_str_valid(text);
            crate::editor::lemma_wrapped_short(lines@, text.spec_bytes(), 0, u32::MAX as int, wrap_policy);
        }
        let history = EditHistory::new(text);
        let decorations = DecorationSet::new();
        let grammar_set = GrammarSet::default_set();
        let highlighter = SyntaxHighlighter::new(&grammar_set, language);
        EditorSession {
            buffer,
            decorations,
            line_layout_policy,
            width_policy,
            wrap_map,
            wrap_policy,
            history,
            highlighter,
            search_matches: Vec::new(),
            edit_count: 0,
            saved_edit_count: 0,
            highlight_valid_through: 0,
            read_only: false,
        }
    }

    /// The buffer.
    pub fn buffer(&self) -> (r: &EditorBuffer)
        ensures
            r.spec_text() == self.spec_text(),
    {
        &self.buffer
    }

    /// The wrap map.
    pub fn wrap_map(&self) -> (r: &WrapMap)
        ensures
            r.spec_lines() == self.spec_wrap_lines(),
            r.spec_max_width() == self.spec_wrap_max(),
    {
        &self.wrap_map
    }

    /// The width policy.
    pub fn width_policy(&self) -> (r: &WidthPolicy<CjkGridWidth>)
        ensures
            *r == self.spec_width_policy(),
    {
        &self.width_policy
    }

    /// The line layout policy.
    pub fn line_layout_policy(&self) -> (r: &LineLayoutPolicy<PreserveInlineWidth>)
        ensures
            *r == self.spec_line_layout_policy(),
    {
        &self.line_layout_policy
    }

    /// The edit history.
    pub fn history(&self) -> (r: &EditHistory)
        ensures
            *r == self.spec_history(),
    {
        &self.history
    }

    /// The decorations.
    pub fn decorations(&self) -> (r: &DecorationSet)
        ensures
            r.spec_entries() == self.spec_decorations(),
    {
        &self.decorations
    }

    /// The text of the buffer.
    pub fn get_text(&self) -> (r: String)
        ensures
            r@ == self.spec_text(),
    {
        self.buffer.text().to_owned()
    }

    /// The byte length of the text.
    pub fn get_text_byte_length(&self) -> (r: usize)
        ensures
            r == bytes_of(self.spec_text()).len(),
    {
        self.buffer.text().as_bytes().len()
    }

    /// Whether the text changed since it was last marked clean.
    pub fn is_dirty(&self) -> (r: bool)
        ensures
            r == (self.spec_edit_count() != self.spec_saved_edit_count()),
    {
        self.edit_count != self.saved_edit_count
    }

    /// Mark the current state as clean (after saving, say).
    pub fn mark_clean(&mut self)
        ensures
            final(self).spec_saved_edit_count() == old(self).spec_edit_count(),
            final(self).spec_edit_count() == old(self).spec_edit_count(),
            final(self).spec_text() == old(self).spec_text(),
            final(self).spec_history() == old(self).spec_history(),
            final(self).spec_wrap_lines() == old(self).spec_wrap_lines(),
    {
        self.saved_edit_count = self.edit_count;
    }

    /// Make the buffer read-only or editable.
    pub fn set_read_only(&mut self, value: bool)
        ensures
            final(self).spec_read_only() == value,
            final(self).spec_text() == old(self).spec_text(),
            final(self).spec_history() == old(self).spec_history(),
            final(self).spec_wrap_lines() == old(self).spec_wrap_lines(),
            final(self).spec_edit_count() == old(self).spec_edit_count(),
    {
        self.read_only = value;
    }

    /// Whether the buffer is read-only.
    pub fn is_read_only(&self) -> (r: bool)
        ensures
            r == self.spec_read_only(),
    {
        self.read_only
    }

    /// Replace `start..end` with `new_text` and record the edit, labelled
    /// `label`, in the history; decorations and wrapping follow the edit.
    /// Returns the edit's range change.
    #[verifier::spinoff_prover]
    pub fn apply_edit(&mut self, start: u32, end: u32, new_text: &str, label: &str) -> (r: Result<
        Vec<RangeChange>,
        SessionError,
    >)
        requires
            old(self).wf(),
            old(self).spec_edit_count() < u64::MAX,
            !old(self).spec_read_only() && start <= end && spec_validate(
                bytes_of(old(self).spec_text()),
                seq![edit_view(start, end, new_text@)],
            ) is Ok ==> {
                let new_bytes = spec_apply(bytes_of(old(self).spec_text()), seq![edit_view(start, end, new_text@)]);
                &&& new_bytes.len() < u32::MAX
                &&& lines_wrappable(new_bytes, old(self).spec_wrap_max() as int, old(self).spec_wrap_policy())
            },
        ensures
            old(self).spec_read_only() ==> (r matches Err(e) && is_read_only_error(e) && *final(self) == *old(self)),
            !old(self).spec_read_only() && start > end ==> (r matches Err(e) && is_patch_failure(
                e,
                TextPatchError::InvalidRange { start: start as usize, end: end as usize },
            ) && *final(self) == *old(self)),
            !old(self).spec_read_only() && start <= end ==> match spec_validate(
                bytes_of(old(self).spec_text()),
                seq![edit_view(start, end, new_text@)],
            ) {
                Err(pe) => r matches Err(e) && is_patch_failure(e, pe) && *final(self) == *old(self),
                Ok(_) => r matches Ok(changes) && edit_applied(
                    *old(self),
                    *final(self),
                    start,
                    end,
                    new_text@,
                    label@,
                ) && changes_view(changes@) == seq![
                    (start as int, end as int, start + bytes_of(new_text@).len()),
                ],
            },
    {
        if self.read_only {
            proof {
                reveal_strlit("editor");
                reveal_strlit("read_only");
                reveal_strlit("buffer is read-only");
            }
            return Err(
                SessionError {
                    domain: "editor",
                    code: "read_only",
                    message: "buffer is read-only".to_owned(),
                },
            );
        }
        let len = new_text.as_bytes().len();
        let patch = if start == end && len != 0 {
            TextPatch::insert(start as usize, new_text)
        } else if len == 0 {
            proof {
                vstd::utf8::encode_utf8_decode_utf8(new_text@);
                assert(new_text.spec_bytes() =~= Seq::<u8>::empty());
                assert(new_text@ =~= Seq::<char>::empty());
            }
            match TextPatch::delete(start as usize, end as usize) {
                Ok(p) => p,
                Err(e) => {
                    return Err(map_textpatch_error(e));
                },
            }
        } else {
            match TextPatch::replace(start as usize, end as usize, new_text) {
                Ok(p) => p,
                Err(e) => {
                    return Err(map_textpatch_error(e));
                },
            }
        };
        let patches = vec![patch];
        proof {
            assert(patch_views(patches@) =~= seq![edit_view(start, end, new_text@)]);
        }
        match validate_patches(self.buffer.text(), patches.as_slice()) {
            Ok(()) => {},
            Err(e) => {
                return Err(map_textpatch_error(e));
            },
        }
        proof {
            crate::editor::lemma_single_change(bytes_of(self.buffer.spec_text()), edit_view(start, end, new_text@));
        }
        match self.buffer.apply_patches_with(
            patches.as_slice(),
            &mut self.decorations,
            Some(&mut self.wrap_map),
            Some(&self.wrap_policy),
            Some(&mut self.history),
            Some(label),
        ) {
            Ok(()) => {},
            Err(e) => {
                return Err(map_textpatch_error(e));
            },
        }
        proof {
            let src = bytes_of(old(self).spec_text());
            let ps = seq![edit_view(start, end, new_text@)];
            assert(self.spec_history().wf());
            assert(bytes_of(self.spec_text()) == spec_apply(src, ps));
            assert(exists|id: u64| #[trigger] edit_recorded(old(self).spec_history(), self.spec_history(), id, label@, src, ps));
            let pv = edit_view(start, end, new_text@);
            crate::editor::lemma_edit_line_count(src, pv);
            let ne = start + bytes_of(new_text@).len();
            assert(crate::editor::starts_of(ps) =~= seq![start as int]);
            assert(crate::editor::ends_of(ps) =~= seq![end as int]);
            assert(crate::editor::new_ends_of(seq![(start as int, end as int, ne)]) =~= seq![ne]);
            let os = line_starts_of(src);
            let nb = bytes_of(self.spec_text());
            let sl = crate::textview::line_at(os, start as int);
            let oel = crate::textview::line_at(os, end as int);
            let nel = crate::textview::line_at(line_starts_of(nb), ne);
            let lines0 = old(self).spec_wrap_lines();
            let max = old(self).spec_wrap_max() as int;
            let pol = old(self).spec_wrap_policy();
            assert(crate::editor::seq_min(crate::editor::starts_of(ps)) == start);
            assert(crate::editor::seq_max(crate::editor::ends_of(ps)) == end);
            assert(crate::editor::seq_max(crate::editor::new_ends_of(seq![(start as int, end as int, ne)])) == ne);
            assert(spec_range_changes(ps) == seq![(start as int, end as int, ne)]);
            assert(wrap_updated(lines0, self.spec_wrap_lines(), os, nb, ps, seq![(start as int, end as int, ne)], max, pol));
            let texts = choose|texts: Seq<&str>|
                #![trigger crate::editor::rewrapped(lines0, sl, oel - sl + 1, texts, max, pol)]
                texts.len() == nel - sl + 1 && (forall|k: int|
                    0 <= k < texts.len() ==> (#[trigger] texts[k])@ == line_chars(nb, sl + k)) && self.spec_wrap_lines()
                    == crate::editor::rewrapped(lines0, sl, oel - sl + 1, texts, max, pol);
            assert(texts.len() == nel - sl + 1);
            assert(lines0.len() == os.len());
            assert(oel < os.len());
            assert(wrapped_lines(texts, max, pol).len() == texts.len());
            assert(0 <= sl <= oel);
            assert(line_starts_of(nb).len() == nel + os.len() - oel);
            vstd::utf8::encode_utf8_valid_utf8(self.spec_text());
            crate::editor::lemma_wrapped_short(texts, nb, sl, max, pol);
            let l1 = self.spec_wrap_lines();
            assert forall|k: int| 0 <= k < l1.len() implies #[trigger] l1[k].len() < u32::MAX by {
                if k < sl {
                    assert(l1[k] == lines0[k]);
                } else if k < sl + texts.len() {
                    assert(l1[k] == wrapped_lines(texts, max, pol)[k - sl]);
                } else {
                    assert(l1[k] == lines0[k - texts.len() + (oel - sl + 1)]);
                }
            }
            assert(self.spec_wrap_lines().len() == line_starts_of(bytes_of(self.spec_text())).len());
        }
        let mut range_changes: Vec<RangeChange> = Vec::new();
        let p = &patches[0];
        let new_end = p.start() + p.replacement().as_bytes().len();
        range_changes.push(RangeChange::new(p.start(), p.end(), new_end));
        self.edit_count = self.edit_count + 1;
        self.highlight_valid_through = 0;
        proof {
            assert(changes_view(range_changes@) =~= seq![
                (start as int, end as int, start + bytes_of(new_text@).len()),
            ]);
            let src = bytes_of(old(self).spec_text());
            let ps = seq![edit_view(start, end, new_text@)];
            assert(ps == patch_views(patches@));
            let cs = choose|cs: Seq<RangeChange>|
                #![trigger map_entries_through(old(self).spec_decorations(), cs)]
                changes_view(cs) == spec_range_changes(patch_views(patches@))
                    && self.spec_decorations() == map_entries_through(old(self).spec_decorations(), cs);
            assert(changes_view(cs) == seq![(start as int, end as int, start + bytes_of(new_text@).len())]);
            assert(self.spec_decorations() == map_entries_through(old(self).spec_decorations(), cs));
            let id = choose|id: u64| #[trigger] edit_recorded(old(self).spec_history(), self.spec_history(), id, label_chars(Some(label)), src, patch_views(patches@));
            assert(label_chars(Some(label)) == label@);
            assert(edit_recorded(old(self).spec_history(), self.spec_history(), id, label@, src, ps));
            assert(exists|cs: Seq<RangeChange>|
                #![trigger map_entries_through(old(self).spec_decorations(), cs)]
                changes_view(cs) == seq![(start as int, end as int, start + bytes_of(new_text@).len())]
                    && self.spec_decorations() == map_entries_through(old(self).spec_decorations(), cs));
            assert(exists|id: u64| #[trigger] edit_recorded(old(self).spec_history(), self.spec_history(), id, label@, src, ps));
            assert(self.wf());
        }
        Ok(range_changes)
    }

    /// Apply one undo or redo step to the buffer and rewrap every line.
    fn apply_step(
        &mut self,
        kind: EntryKind,
        patches: &Option<Vec<TextPatch>>,
        snapshot: &Option<String>,
    ) -> (r: Result<(), SessionError>)
        requires
            old(self).wf(),
            ({
                let step = (kind, opt_vec_views(*patches), opt_chars(*snapshot));
                &&& kind == EntryKind::Reversible ==> (step.1 matches Some(ps) ==> (spec_validate(
                    bytes_of(old(self).spec_text()),
                    ps,
                ) is Ok ==> forall|k: int| 0 <= k < ps.len() ==> #[trigger] spec_range_changes(ps)[k].1 <= usize::MAX))
                &&& step_result(bytes_of(old(self).spec_text()), step) matches Ok(t) ==> text_fits(
                    t,
                    old(self).spec_wrap_max() as int,
                    old(self).spec_wrap_policy(),
                )
            }),
        ensures
            final(self).wf(),
            final(self).spec_history() == old(self).spec_history(),
            final(self).spec_wrap_max() == old(self).spec_wrap_max(),
            final(self).spec_wrap_policy() == old(self).spec_wrap_policy(),
            final(self).spec_edit_count() == old(self).spec_edit_count(),
            final(self).spec_saved_edit_count() == old(self).spec_saved_edit_count(),
            final(self).spec_read_only() == old(self).spec_read_only(),
            match step_result(bytes_of(old(self).spec_text()), (kind, opt_vec_views(*patches), opt_chars(*snapshot))) {
                Ok(t) => r is Ok && bytes_of(final(self).spec_text()) == t,
                Err(e) => r matches Err(err) && is_patch_failure(err, e) && final(self).spec_text() == old(self).spec_text(),
            },
    {
        match kind {
            EntryKind::Reversible => {
                match patches {
                    Some(ps) => {
                        match self.buffer.apply_patches(ps.as_slice()) {
                            Ok(_) => {},
                            Err(e) => {
                                return Err(map_textpatch_error(e));
                            },
                        }
                    },
                    None => {
                        return Ok(());
                    },
                }
            },
            EntryKind::Snapshot => {
                match snapshot {
                    Some(s) => {
                        self.buffer = EditorBuffer::new(s.clone());
                    },
                    None => {
                        return Ok(());
                    },
                }
            },
        }
        self.rewrap_all();
        Ok(())
    }

    /// Wrap every line of the buffer again, keeping the column limit.
    fn rewrap_all(&mut self)
        requires
            lines_wrappable(bytes_of(old(self).spec_text()), old(self).spec_wrap_max() as int, old(self).spec_wrap_policy()),
        ensures
            final(self).spec_wrap_lines().len() == line_starts_of(bytes_of(old(self).spec_text())).len(),
            forall|k: int| 0 <= k < final(self).spec_wrap_lines().len() ==> #[trigger] final(self).spec_wrap_lines()[k].len() < u32::MAX,
            final(self).spec_text() == old(self).spec_text(),
            final(self).spec_history() == old(self).spec_history(),
            final(self).spec_wrap_max() == old(self).spec_wrap_max(),
            final(self).spec_wrap_policy() == old(self).spec_wrap_policy(),
            final(self).spec_edit_count() == old(self).spec_edit_count(),
            final(self).spec_saved_edit_count() == old(self).spec_saved_edit_count(),
            final(self).spec_read_only() == old(self).spec_read_only(),
            final(self).spec_decorations() == old(self).spec_decorations(),
            final(self).spec_search_matches() == old(self).spec_search_matches(),
            final(self).spec_has_highlighter() == old(self).spec_has_highlighter(),
            final(self).spec_highlight_valid_through() == old(self).spec_highlight_valid_through(),
    {
        let text = self.buffer.text();
        let index = self.buffer.line_index();
        let max = self.wrap_map.max_width();
        proof {
            crate::textview::lemma_line_starts_wf(text.spec_bytes());
        }
        let lines = collect_line_texts(text, index, 0, index.line_count());
        proof {
            assert forall|k: int| 0 <= k < lines@.len() implies #[trigger] crate::wrap::wrappable(
                lines@[k],
                max as int,
                self.wrap_policy,
            ) by {
                assert(crate::editor::chars_wrappable(line_chars(text.spec_bytes(), k), max as int, self.wrap_policy));
            }
        }
        self.wrap_map = WrapMap::new(lines.as_slice(), max, &self.wrap_policy);
        proof {
            crate::strutil::lemma_str_valid(text);
            crate::editor::lemma_wrapped_short(lines@, text.spec_bytes(), 0, max as int, self.wrap_policy);
        }
    }

    /// Undo the last edit, or the last group of edits, and put the text back
    /// as it was. Returns the label of the last edit undone, or `None` when
    /// there is nothing to undo.
    #[verifier::spinoff_prover]
    pub fn undo(&mut self) -> (r: Result<Option<String>, SessionError>)
        requires
            old(self).wf(),
            old(self).spec_edit_count() < u64::MAX,
            forall|v: Seq<UndoResult>|
                #[trigger] undo_reports(old(self).spec_history().spec_nodes(), old(self).spec_history().spec_cursor(), v)
                    ==> replay_fits(
                    bytes_of(old(self).spec_text()),
                    v.map_values(|u: UndoResult| undo_step(u)),
                    0,
                    old(self).spec_wrap_max() as int,
                    old(self).spec_wrap_policy(),
                ),
        ensures
            final(self).wf(),
            old(self).spec_history().spec_cursor().len() == 0 ==> r == Ok::<Option<String>, SessionError>(None)
                && *final(self) == *old(self),
            old(self).spec_history().spec_cursor().len() > 0 ==> exists|v: Seq<UndoResult>|
                #![trigger undo_reports(old(self).spec_history().spec_nodes(), old(self).spec_history().spec_cursor(), v)]
                {
                    &&& undo_reports(old(self).spec_history().spec_nodes(), old(self).spec_history().spec_cursor(), v)
                    &&& final(self).spec_history().spec_nodes() == old(self).spec_history().spec_nodes()
                    &&& final(self).spec_history().spec_cursor() == old(self).spec_history().spec_cursor().take(
                        old(self).spec_history().spec_cursor().len() - v.len(),
                    )
                    &&& match replay(bytes_of(old(self).spec_text()), v.map_values(|u: UndoResult| undo_step(u)), 0) {
                        Ok(t) => r matches Ok(Some(label)) && label@ == v[0].label@ && bytes_of(final(self).spec_text()) == t
                            && final(self).spec_edit_count() == old(self).spec_edit_count() + 1
                            && final(self).spec_highlight_valid_through() == 0,
                        Err(e) => r matches Err(err) && is_patch_failure(err, e),
                    }
                },
    {
        let ghost n = self.history.spec_nodes();
        let ghost c = self.history.spec_cursor();
        let ghost text0 = bytes_of(self.spec_text());
        let results = match self.history.undo() {
            Some(v) => v,
            None => {
                return Ok(None);
            },
        };
        let ghost steps = results@.map_values(|u: UndoResult| undo_step(u));
        proof {
            assert(undo_reports(n, c, results@));
        }
        let mut i: usize = 0;
        while i < results.len()
            invariant
                self.wf(),
                0 <= i <= results@.len(),
                steps == results@.map_values(|u: UndoResult| undo_step(u)),
                replay(text0, steps, 0) == replay(bytes_of(self.spec_text()), steps, i as int),
                replay_fits(bytes_of(self.spec_text()), steps, i as int, self.spec_wrap_max() as int, self.spec_wrap_policy()),
                self.spec_history().spec_nodes() == n,
                n == old(self).spec_history().spec_nodes(),
                c == old(self).spec_history().spec_cursor(),
                text0 == bytes_of(old(self).spec_text()),
                undo_reports(n, c, results@),
                c.len() >= 1,
                self.spec_history().spec_cursor() == c.take(c.len() - results@.len()),
                self.spec_edit_count() == old(self).spec_edit_count(),
                self.spec_edit_count() < u64::MAX,
            decreases results@.len() - i,
        {
            let u = &results[i];
            assert(steps[i as int] == undo_step(*u));
            match self.apply_step(u.kind, &u.inverse_patches, &u.snapshot) {
                Ok(()) => {},
                Err(e) => {
                    return Err(e);
                },
            }
            i = i + 1;
        }
        self.edit_count = self.edit_count + 1;
        self.highlight_valid_through = 0;
        Ok(Some(results[0].label.clone()))
    }

    /// Redo the next edit, or the next group of edits, along the newest
    /// branch. Returns the label of the last edit redone, or `None` when
    /// there is nothing to redo.
    #[verifier::spinoff_prover]
    pub fn redo(&mut self) -> (r: Result<Option<String>, SessionError>)
        requires
            old(self).wf(),
            old(self).spec_edit_count() < u64::MAX,
            forall|c1: Seq<usize>, v: Seq<RedoResult>|
                #[trigger] redo_reports(old(self).spec_history().spec_nodes(), old(self).spec_history().spec_cursor(), c1, v)
                    ==> replay_fits(
                    bytes_of(old(self).spec_text()),
                    v.map_values(|x: RedoResult| redo_step(x)),
                    0,
                    old(self).spec_wrap_max() as int,
                    old(self).spec_wrap_policy(),
                ),
        ensures
            final(self).wf(),
            !old(self).spec_history().spec_nodes().dom().contains(old(self).spec_history().spec_cursor().push(0))
                ==> r == Ok::<Option<String>, SessionError>(None) && *final(self) == *old(self),
            old(self).spec_history().spec_nodes().dom().contains(old(self).spec_history().spec_cursor().push(0))
                ==> exists|v: Seq<RedoResult>|
                #![trigger redo_reports(old(self).spec_history().spec_nodes(), old(self).spec_history().spec_cursor(), final(self).spec_history().spec_cursor(), v)]
                {
                    &&& redo_reports(
                        old(self).spec_history().spec_nodes(),
                        old(self).spec_history().spec_cursor(),
                        final(self).spec_history().spec_cursor(),
                        v,
                    )
                    &&& final(self).spec_history().spec_nodes() == old(self).spec_history().spec_nodes()
                    &&& match replay(bytes_of(old(self).spec_text()), v.map_values(|x: RedoResult| redo_step(x)), 0) {
                        Ok(t) => r matches Ok(Some(label)) && label@ == v[0].label@ && bytes_of(final(self).spec_text()) == t
                            && final(self).spec_edit_count() == old(self).spec_edit_count() + 1
                            && final(self).spec_highlight_valid_through() == 0,
                        Err(e) => r matches Err(err) && is_patch_failure(err, e),
                    }
                },
    {
        let ghost n = self.history.spec_nodes();
        let ghost c = self.history.spec_cursor();
        let ghost text0 = bytes_of(self.spec_text());
        let results = match self.history.redo() {
            Some(v) => v,
            None => {
                return Ok(None);
            },
        };
        let ghost c1 = self.history.spec_cursor();
        let ghost steps = results@.map_values(|x: RedoResult| redo_step(x));
        proof {
            assert(redo_reports(n, c, c1, results@));
        }
        let mut i: usize = 0;
        while i < results.len()
            invariant
                self.wf(),
                0 <= i <= results@.len(),
                steps == results@.map_values(|x: RedoResult| redo_step(x)),
                replay(text0, steps, 0) == replay(bytes_of(self.spec_text()), steps, i as int),
                replay_fits(bytes_of(self.spec_text()), steps, i as int, self.spec_wrap_max() as int, self.spec_wrap_policy()),
                self.spec_history().spec_nodes() == n,
                n == old(self).spec_history().spec_nodes(),
                c == old(self).spec_history().spec_cursor(),
                text0 == bytes_of(old(self).spec_text()),
                redo_reports(n, c, c1, results@),
                n.dom().contains(c.push(0)),
                self.spec_history().spec_cursor() == c1,
                self.spec_edit_count() == old(self).spec_edit_count(),
                self.spec_edit_count() < u64::MAX,
            decreases results@.len() - i,
        {
            let x = &results[i];
            assert(steps[i as int] == redo_step(*x));
            match self.apply_step(x.kind, &x.forward_patches, &x.snapshot) {
                Ok(()) => {},
                Err(e) => {
                    return Err(e);
                },
            }
            i = i + 1;
        }
        self.edit_count = self.edit_count + 1;
        self.highlight_valid_through = 0;
        Ok(Some(results[0].label.clone()))
    }

    /// The indentation style of the text, judged from up to `sample_lines` lines.
    pub fn detect_indent(&self, sample_lines: u32) -> (r: IndentStyle)
        ensures
            r == spec_detect_indent(bytes_of(self.spec_text()), sample_lines as int),
    {
        self.buffer.detect_indent(sample_lines as usize)
    }

    /// The leading white space of the line that holds `offset`.
    pub fn auto_indent(&self, offset: u32) -> (r: String)
        ensures
            offset > bytes_of(self.spec_text()).len() ==> r@.len() == 0,
            offset <= bytes_of(self.spec_text()).len() ==> exists|line: int|
                is_line_of(line_starts_of(bytes_of(self.spec_text())), line, offset as int) && bytes_of(r@)
                    == indent_of_line(
                    bytes_of(self.spec_text()),
                    line_starts_of(bytes_of(self.spec_text())),
                    line,
                    crate::editor::text_line_end(
                        line_starts_of(bytes_of(self.spec_text())),
                        bytes_of(self.spec_text()).len() as int,
                        line,
                    ),
                ),
    {
        auto_indent(self.buffer.text(), self.buffer.line_index(), offset as usize)
    }

    /// The closing character an opening bracket or quote gets, if any.
    pub fn auto_close_bracket(&self, ch: char) -> (r: Option<char>)
        ensures
            r == spec_auto_close(ch),
    {
        auto_close_bracket(ch)
    }

    /// Pasted text, adjusted to the indentation at `offset`; for now the text
    /// as it was given.
    pub fn adjust_paste_indent(&self, text: &str, _offset: u32) -> (r: String)
        ensures
            r@ == text@,
    {
        text.to_owned()
    }

    /// The bracket pair that the bracket at `offset` belongs to, if any.
    pub fn find_matching_bracket(&self, offset: u32) -> (r: Option<BracketPair>)
        ensures
            match r {
                Some(pair) => spec_matching_bracket(bytes_of(self.spec_text()), offset as int) == Some(pair@),
                None => spec_matching_bracket(bytes_of(self.spec_text()), offset as int) is None,
            },
    {
        find_matching_bracket(self.buffer.text(), offset as usize)
    }

    /// The lines from the one that holds visual line `first_visual` to the
    /// one that holds `last_visual`, with their texts and tokens. Tokenizing
    /// resumes after the lines tokenized by the previous call when the range
    /// starts at or after them, and starts over from the first line otherwise;
    /// it stops one line past the range.
    #[verifier::spinoff_prover]
    pub fn visible_lines(&mut self, first_visual: u32, last_visual: u32) -> (r: Vec<RenderLine>)
        requires
            old(self).wf(),
            first_visual < crate::wrap::visual_before(old(self).spec_wrap_lines(), old(self).spec_wrap_lines().len() as int),
            last_visual < crate::wrap::visual_before(old(self).spec_wrap_lines(), old(self).spec_wrap_lines().len() as int),
        ensures
            final(self).wf(),
            final(self).spec_text() == old(self).spec_text(),
            final(self).spec_history() == old(self).spec_history(),
            final(self).spec_wrap_lines() == old(self).spec_wrap_lines(),
            final(self).spec_wrap_max() == old(self).spec_wrap_max(),
            final(self).spec_wrap_policy() == old(self).spec_wrap_policy(),
            final(self).spec_edit_count() == old(self).spec_edit_count(),
            final(self).spec_saved_edit_count() == old(self).spec_saved_edit_count(),
            final(self).spec_read_only() == old(self).spec_read_only(),
            final(self).spec_has_highlighter() == old(self).spec_has_highlighter(),
            ({
                let first = crate::wrap::locate(old(self).spec_wrap_lines(), first_visual as int, 0).0;
                let last = crate::wrap::locate(old(self).spec_wrap_lines(), last_visual as int, 0).0;
                &&& final(self).spec_highlight_valid_through() == last + 1
                &&& r@.len() == if last >= first { last - first + 1 } else { 0 }
                &&& forall|k: int| 0 <= k < r@.len() ==> {
                    let line = #[trigger] r@[k];
                    &&& line.line_number == first + k + 1
                    &&& line.text@ == line_chars(bytes_of(old(self).spec_text()), first + k)
                    &&& !old(self).spec_has_highlighter() ==> line.tokens@.len() == 0
                }
            }),
            old(self).spec_highlighter() is None ==> final(self).spec_highlighter() is None,
            old(self).spec_highlighter() matches Some(h0) ==> exists|
                hs: Seq<SyntaxHighlighter>,
                toks: Seq<Seq<TokenSpan>>,
            |
                {
                    let first = crate::wrap::locate(old(self).spec_wrap_lines(), first_visual as int, 0).0;
                    let resumed = old(self).spec_highlight_valid_through() > 0 && first
                        >= old(self).spec_highlight_valid_through();
                    let from = resume_line(old(self).spec_highlight_valid_through(), first);
                    &&& #[trigger] tokenized_from(
                        hs,
                        toks,
                        bytes_of(old(self).spec_text()),
                        resume_line(
                            old(self).spec_highlight_valid_through(),
                            crate::wrap::locate(old(self).spec_wrap_lines(), first_visual as int, 0).0,
                        ),
                    )
                    &&& if resumed {
                        hs[0] == h0
                    } else {
                        is_reset_of(hs[0], h0)
                    }
                    &&& final(self).spec_highlighter() == Some(hs.last())
                    &&& r@.len() > 0 ==> first - from + r@.len() <= toks.len()
                    &&& forall|k: int| 0 <= k < r@.len() ==> (#[trigger] r@[k]).tokens@ == toks[first - from + k]
                },
    {
        let (first_log, _) = self.wrap_map.from_visual_line(first_visual);
        let (last_log, _) = self.wrap_map.from_visual_line(last_visual);
        let tokenize_from = if self.highlight_valid_through > 0 && first_log >= self.highlight_valid_through {
            self.highlight_valid_through
        } else {
            match &mut self.highlighter {
                Some(hl) => hl.reset(),
                None => {},
            }
            0
        };
        let text = self.buffer.text();
        let index = self.buffer.line_index();
        let line_count = index.line_count();
        proof {
            crate::textview::lemma_line_starts_wf(text.spec_bytes());
        }
        let ghost start_h = self.spec_highlighter();
        proof {
            if let Some(h0) = old(self).spec_highlighter() {
                if old(self).spec_highlight_valid_through() > 0 && first_log >= old(self).spec_highlight_valid_through() {
                    assert(start_h == Some(h0));
                } else {
                    assert(start_h matches Some(h) && is_reset_of(h, h0));
                }
            }
        }
        let ghost mut hs: Seq<SyntaxHighlighter> = match start_h {
            Some(h) => seq![h],
            None => Seq::empty(),
        };
        let ghost mut toks: Seq<Seq<TokenSpan>> = Seq::empty();
        proof {
            if let Some(h) = start_h {
                assert(tokenized_from(hs, toks, text.spec_bytes(), tokenize_from as int)) by {
                    assert(Seq::new(0, |i: int| line_chars(text.spec_bytes(), tokenize_from + i)) =~= Seq::<Seq<char>>::empty());
                }
            }
        }
        let mut out: Vec<RenderLine> = Vec::new();
        let mut log_line = tokenize_from;
        while log_line < line_count
            invariant_except_break
                start_h is Some ==> toks.len() == log_line - tokenize_from,
            invariant
                text@ == self.spec_text(),
                index.starts() == line_starts_of(text.spec_bytes()),
                index.spec_len() == text.spec_bytes().len(),
                line_count == index.starts().len(),
                line_count <= u32::MAX,
                first_log < line_count,
                last_log < line_count,
                tokenize_from <= first_log,
                tokenize_from <= log_line,
                log_line <= last_log + 1 || log_line == tokenize_from,
                first_log <= last_log ==> log_line <= last_log + 1,
                out@.len() == if log_line > first_log && first_log <= last_log { log_line - first_log } else { 0 },
                self.spec_has_highlighter() == old(self).spec_has_highlighter(),
                old(self).wf(),
                self.spec_text() == old(self).spec_text(),
                self.spec_history() == old(self).spec_history(),
                self.spec_wrap_lines() == old(self).spec_wrap_lines(),
                self.spec_wrap_max() == old(self).spec_wrap_max(),
                self.spec_wrap_policy() == old(self).spec_wrap_policy(),
                self.spec_edit_count() == old(self).spec_edit_count(),
                self.spec_saved_edit_count() == old(self).spec_saved_edit_count(),
                self.spec_read_only() == old(self).spec_read_only(),
                forall|k: int| 0 <= k < out@.len() ==> {
                    let line = #[trigger] out@[k];
                    &&& line.line_number == first_log + k + 1
                    &&& line.text@ == line_chars(text.spec_bytes(), first_log + k)
                    &&& !self.spec_has_highlighter() ==> line.tokens@.len() == 0
                },
                start_h is Some <==> self.spec_highlighter() is Some,
                start_h matches Some(h) ==> {
                    &&& tokenized_from(hs, toks, text.spec_bytes(), tokenize_from as int)
                    &&& hs[0] == h
                    &&& self.spec_highlighter() == Some(hs.last())
                    &&& out@.len() > 0 ==> first_log - tokenize_from + out@.len() <= toks.len()
                    &&& forall|k: int| 0 <= k < out@.len() ==> (#[trigger] out@[k]).tokens@ == toks[first_log - tokenize_from + k]
                },
            ensures
                out@.len() == if last_log >= first_log { last_log - first_log + 1 } else { 0 },
                forall|k: int| 0 <= k < out@.len() ==> {
                    let line = #[trigger] out@[k];
                    &&& line.line_number == first_log + k + 1
                    &&& line.text@ == line_chars(text.spec_bytes(), first_log + k)
                    &&& !self.spec_has_highlighter() ==> line.tokens@.len() == 0
                },
                start_h is Some <==> self.spec_highlighter() is Some,
                start_h matches Some(h) ==> {
                    &&& tokenized_from(hs, toks, text.spec_bytes(), tokenize_from as int)
                    &&& hs[0] == h
                    &&& self.spec_highlighter() == Some(hs.last())
                    &&& out@.len() > 0 ==> first_log - tokenize_from + out@.len() <= toks.len()
                    &&& forall|k: int| 0 <= k < out@.len() ==> (#[trigger] out@[k]).tokens@ == toks[first_log - tokenize_from + k]
                },
                self.spec_has_highlighter() == old(self).spec_has_highlighter(),
                self.spec_text() == old(self).spec_text(),
                self.spec_history() == old(self).spec_history(),
                self.spec_wrap_lines() == old(self).spec_wrap_lines(),
                self.spec_wrap_max() == old(self).spec_wrap_max(),
                self.spec_wrap_policy() == old(self).spec_wrap_policy(),
                self.spec_edit_count() == old(self).spec_edit_count(),
                self.spec_saved_edit_count() == old(self).spec_saved_edit_count(),
                self.spec_read_only() == old(self).spec_read_only(),
            decreases line_count - log_line,
        {
            let line = line_text(text, index, log_line);
            let ghost h_before = self.spec_highlighter();
            let tokens = match &mut self.highlighter {
                Some(hl) => hl.tokenize_line(line),
                None => Vec::new(),
            };
            proof {
                if let Some(h) = start_h {
                    let hs2 = hs.push(self.spec_highlighter()->0);
                    let toks2 = toks.push(tokens@);
                    let lines1 = Seq::new(toks.len(), |i: int| line_chars(text.spec_bytes(), tokenize_from + i));
                    let lines2 = Seq::new(toks2.len(), |i: int| line_chars(text.spec_bytes(), tokenize_from + i));
                    assert(lines_tokenized(hs, lines1, toks));
                    assert forall|i: int| 0 <= i < lines2.len() implies #[trigger] line_tokenized(
                        hs2[i],
                        hs2[i + 1],
                        lines2[i],
                        toks2[i],
                    ) by {
                        if i < toks.len() {
                            assert(line_tokenized(hs[i], hs[i + 1], lines1[i], toks[i]));
                            assert(hs2[i] == hs[i] && hs2[i + 1] == hs[i + 1]);
                        } else {
                            assert(hs2[i] == h_before->0);
                            assert(lines2[i] == line@);
                        }
                    }
                    hs = hs2;
                    toks = toks2;
                }
            }
            if log_line >= first_log && log_line <= last_log {
                out.push(RenderLine { line_number: log_line + 1, text: line.to_owned(), tokens });
            }
            if log_line > last_log {
                break;
            }
            log_line = log_line + 1;
        }
        self.highlight_valid_through = last_log + 1;
        proof {
            if let Some(h0) = old(self).spec_highlighter() {
                let first = crate::wrap::locate(old(self).spec_wrap_lines(), first_visual as int, 0).0;
                assert(first == first_log);
                let from = resume_line(old(self).spec_highlight_valid_through(), first);
                assert(from == tokenize_from);
                assert(tokenized_from(hs, toks, bytes_of(old(self).spec_text()), from));
                assert(self.spec_highlighter() == Some(hs.last()));
            }
        }
        out
    }

    /// Search the text and keep the matches. On a refused pattern the
    /// previous matches stay.
    pub fn search(&mut self, pattern: &str, is_regex: bool, case_sensitive: bool, whole_word: bool) -> (r:
        Result<(), SessionError>)
        ensures
            final(self).spec_text() == old(self).spec_text(),
            final(self).spec_history() == old(self).spec_history(),
            final(self).spec_wrap_lines() == old(self).spec_wrap_lines(),
            final(self).spec_edit_count() == old(self).spec_edit_count(),
            r is Ok <==> regex_new_error(pattern_for(pattern@, is_regex, case_sensitive, whole_word)) is None,
            r matches Err(e) ==> e.domain@ == "search"@ && e.code@ == "search_error"@ && e.message@
                == "invalid regex: "@ + regex_new_error(pattern_for(pattern@, is_regex, case_sensitive, whole_word))->0
                && final(self).spec_search_matches() == old(self).spec_search_matches(),
            r is Ok ==> {
                let spans = regex_find_iter(pattern_for(pattern@, is_regex, case_sensitive, whole_word), old(self).spec_text());
                &&& final(self).spec_search_matches().len() == spans.len()
                &&& forall|k: int| 0 <= k < spans.len() ==> describes(
                    #[trigger] final(self).spec_search_matches()[k],
                    line_starts_of(bytes_of(old(self).spec_text())),
                    spans[k],
                )
            },
    {
        let query = SearchQuery {
            pattern: pattern.to_owned(),
            is_regex,
            case_sensitive,
            whole_word,
        };
        let matches = match find_all(self.buffer.text(), self.buffer.line_index(), &query) {
            Ok(m) => m,
            Err(e) => {
                return Err(map_search_error(e));
            },
        };
        self.search_matches = matches;
        Ok(())
    }

    /// The matches of the last successful search.
    pub fn search_matches(&self) -> (r: &[SearchMatch])
        ensures
            r@ == self.spec_search_matches(),
    {
        self.search_matches.as_slice()
    }

    /// The UTF-16 offset of byte offset `offset` of the text.
    pub fn byte_offset_to_utf16(&self, offset: u32) -> (r: Result<usize, SessionError>)
        ensures
            match spec_byte_to_utf16(self.spec_text(), offset as int) {
                Ok(v) => r == Ok::<usize, SessionError>(v),
                Err(e) => r matches Err(err) && err.domain@ == "text"@ && err.message@ == crate::textview::message_text(e),
            },
    {
        let mapping = Utf16Mapping::new(self.buffer.text());
        match mapping.byte_to_utf16(offset as usize) {
            Ok(v) => Ok(v),
            Err(e) => Err(map_text_error(e)),
        }
    }

    /// The byte offset of UTF-16 offset `offset` of the text.
    pub fn utf16_offset_to_byte(&self, offset: u32) -> (r: Result<usize, SessionError>)
        ensures
            match spec_utf16_to_byte(self.spec_text(), offset as int) {
                Ok(v) => r == Ok::<usize, SessionError>(v),
                Err(e) => r matches Err(err) && err.domain@ == "text"@ && err.message@ == crate::textview::message_text(e),
            },
    {
        let mapping = Utf16Mapping::new(self.buffer.text());
        match mapping.utf16_to_byte(offset as usize) {
            Ok(v) => Ok(v),
            Err(e) => Err(map_text_error(e)),
        }
    }

    /// Tokenize one line with the session's highlighter, continuing from the
    /// lines tokenized before; no spans without a highlighter.
    pub fn tokenize_line(&mut self, line: &str) -> (r: Vec<TokenSpan>)
        ensures
            old(self).spec_highlighter() is None ==> r@.len() == 0 && final(self).spec_highlighter() is None,
            old(self).spec_highlighter() matches Some(h0) ==> (final(self).spec_highlighter() matches Some(h1)
                && line_tokenized(h0, h1, line@, r@)),
            final(self).spec_text() == old(self).spec_text(),
            final(self).spec_history() == old(self).spec_history(),
            final(self).spec_wrap_lines() == old(self).spec_wrap_lines(),
            final(self).spec_edit_count() == old(self).spec_edit_count(),
            final(self).spec_has_highlighter() == old(self).spec_has_highlighter(),
    {
        match &mut self.highlighter {
            Some(hl) => hl.tokenize_line(line),
            None => Vec::new(),
        }
    }

    /// Set the tab width and rewrap every line with it, keeping the column limit.
    pub fn set_tab_width(&mut self, tab_width: u32)
        requires
            old(self).wf(),
            fits_code_policy(bytes_of(old(self).spec_text()), tab_width),
        ensures
            final(self).wf(),
            final(self).spec_text() == old(self).spec_text(),
            final(self).spec_history() == old(self).spec_history(),
            final(self).spec_edit_count() == old(self).spec_edit_count(),
            final(self).spec_wrap_max() == old(self).spec_wrap_max(),
            final(self).spec_wrap_policy().spec_width_policy().spec_tab_width() == Some(tab_width),
            final(self).spec_wrap_policy().spec_width_policy() == final(self).spec_width_policy(),
            exists|texts: Seq<&str>|
                #![trigger wrapped_lines(texts, old(self).spec_wrap_max() as int, final(self).spec_wrap_policy())]
                texts.len() == line_starts_of(bytes_of(old(self).spec_text())).len() && (forall|k: int|
                    0 <= k < texts.len() ==> (#[trigger] texts[k])@ == line_chars(bytes_of(old(self).spec_text()), k))
                    && final(self).spec_wrap_lines() == wrapped_lines(
                    texts,
                    old(self).spec_wrap_max() as int,
                    final(self).spec_wrap_policy(),
                ),
    {
        self.width_policy = WidthPolicy::cjk_grid(tab_width);
        self.wrap_policy = WrapPolicy::code_with_width_policy(self.width_policy);
        let text = self.buffer.text();
        let index = self.buffer.line_index();
        let max = self.wrap_map.max_width();
        proof {
            crate::textview::lemma_line_starts_wf(text.spec_bytes());
        }
        let lines = collect_line_texts(text, index, 0, index.line_count());
        proof {
            assert(lines_wrappable(text.spec_bytes(), max as int, self.wrap_policy));
            assert forall|k: int| 0 <= k < lines@.len() implies #[trigger] crate::wrap::wrappable(
                lines@[k],
                max as int,
                self.wrap_policy,
            ) by {
                assert(crate::editor::chars_wrappable(line_chars(text.spec_bytes(), k), max as int, self.wrap_policy));
            }
        }
        self.wrap_map = WrapMap::new(lines.as_slice(), max, &self.wrap_policy);
        proof {
            crate::strutil::lemma_str_valid(text);
            crate::editor::lemma_wrapped_short(lines@, text.spec_bytes(), 0, max as int, self.wrap_policy);
            let texts = lines@;
            assert(texts.len() == line_starts_of(bytes_of(self.spec_text())).len());
            assert(forall|k: int|
                0 <= k < texts.len() ==> (#[trigger] texts[k])@ == line_chars(bytes_of(self.spec_text()), k));
            assert(self.spec_wrap_lines() == wrapped_lines(texts, max as int, self.spec_wrap_policy()));
        }
    }
}

/// `s1` is `s0` after replacing `start..end` by `new_text` as an edit
/// labelled `label`: the text is patched, the edit is recorded in the
/// history, decorations are shifted through the change, the touched lines
/// are rewrapped, the edit counter advances and highlighting starts over.
pub open spec fn edit_applied(
    s0: EditorSession,
    s1: EditorSession,
    start: u32,
    end: u32,
    new_text: Seq<char>,
    label: Seq<char>,
) -> bool {
    let src = bytes_of(s0.spec_text());
    let ps = seq![edit_view(start, end, new_text)];
    &&& s1.wf()
    &&& bytes_of(s1.spec_text()) == spec_apply(src, ps)
    &&& exists|id: u64| #[trigger] edit_recorded(s0.spec_history(), s1.spec_history(), id, label, src, ps)
    &&& exists|cs: Seq<RangeChange>|
        #![trigger map_entries_through(s0.spec_decorations(), cs)]
        changes_view(cs) == seq![(start as int, end as int, start + bytes_of(new_text).len())]
            && s1.spec_decorations() == map_entries_through(s0.spec_decorations(), cs)
    &&& wrap_updated(
        s0.spec_wrap_lines(),
        s1.spec_wrap_lines(),
        line_starts_of(src),
        bytes_of(s1.spec_text()),
        ps,
        seq![(start as int, end as int, start + bytes_of(new_text).len())],
        s0.spec_wrap_max() as int,
        s0.spec_wrap_policy(),
    )
    &&& s1.spec_wrap_max() == s0.spec_wrap_max()
    &&& s1.spec_wrap_policy() == s0.spec_wrap_policy()
    &&& s1.spec_edit_count() == s0.spec_edit_count() + 1
    &&& s1.spec_saved_edit_count() == s0.spec_saved_edit_count()
    &&& s1.spec_highlight_valid_through() == 0
    &&& s1.spec_read_only() == s0.spec_read_only()
    &&& s1.spec_search_matches() == s0.spec_search_matches()
    &&& s1.spec_has_highlighter() == s0.spec_has_highlighter()
}


/// Undoing an edit made outside a group takes exactly that edit back: the
/// undo reports one step, and replaying it on the edited text gives the text
/// as it was before the edit.
pub proof fn lemma_undo_restores_edit(
    s0: EditorSession,
    s1: EditorSession,
    start: u32,
    end: u32,
    new_text: Seq<char>,
    label: Seq<char>,
    v: Seq<UndoResult>,
)
    requires
        s0.wf(),
        bytes_of(s1.spec_text()).len() < u32::MAX,
        s0.spec_history().spec_active_group() is None,
        start <= end,
        spec_validate(bytes_of(s0.spec_text()), seq![edit_view(start, end, new_text)]) is Ok,
        edit_applied(s0, s1, start, end, new_text, label),
        undo_reports(s1.spec_history().spec_nodes(), s1.spec_history().spec_cursor(), v),
    ensures
        v.len() == 1,
        s1.spec_history().spec_cursor().take(s1.spec_history().spec_cursor().len() - 1)
            == s0.spec_history().spec_cursor(),
        replay(bytes_of(s1.spec_text()), v.map_values(|u: UndoResult| undo_step(u)), 0) == Ok::<
            Seq<u8>,
            TextPatchError,
        >(bytes_of(s0.spec_text())),
{
    let src = bytes_of(s0.spec_text());
    let p = edit_view(start, end, new_text);
    let ps = seq![p];
    let h0 = s0.spec_history();
    let h1 = s1.spec_history();
    let id = choose|id: u64| #[trigger] edit_recorded(h0, h1, id, label, src, ps);
    let n1 = h1.spec_nodes();
    let c1 = h1.spec_cursor();
    crate::history::lemma_undo_after_push(
        h0.spec_nodes(),
        h0.spec_cursor(),
        n1,
        c1,
        id,
        h1.spec_current(),
        v.len() as int,
    );
    assert(c1.take(c1.len() - 0) =~= c1);
    let steps = v.map_values(|u: UndoResult| undo_step(u));
    assert(steps[0] == undo_step(v[0]));
    lemma_single_patch_order(p);
    vstd::utf8::encode_utf8_valid_utf8(s0.spec_text());
    crate::textpatch::lemma_inverse_roundtrip(src, ps);
    let inv = spec_inverse(src, ps);
    assert(step_result(bytes_of(s1.spec_text()), steps[0]) == Ok::<Seq<u8>, TextPatchError>(src));
    assert(replay(src, steps, 1) == Ok::<Seq<u8>, TextPatchError>(src));
}

/// After an edit made outside a group is undone, redo replays exactly that
/// edit: it goes back to the edit's node, and replaying the step on the text
/// before the edit gives the edited text.
pub proof fn lemma_redo_reapplies_edit(
    s0: EditorSession,
    s1: EditorSession,
    start: u32,
    end: u32,
    new_text: Seq<char>,
    label: Seq<char>,
    c2: Seq<usize>,
    v: Seq<RedoResult>,
)
    requires
        s0.wf(),
        s0.spec_history().spec_active_group() is None,
        start <= end,
        spec_validate(bytes_of(s0.spec_text()), seq![edit_view(start, end, new_text)]) is Ok,
        edit_applied(s0, s1, start, end, new_text, label),
        redo_reports(s1.spec_history().spec_nodes(), s0.spec_history().spec_cursor(), c2, v),
    ensures
        v.len() == 1,
        c2 == s1.spec_history().spec_cursor(),
        replay(bytes_of(s0.spec_text()), v.map_values(|x: RedoResult| redo_step(x)), 0) == Ok::<
            Seq<u8>,
            TextPatchError,
        >(bytes_of(s1.spec_text())),
{
    let src = bytes_of(s0.spec_text());
    let p = edit_view(start, end, new_text);
    let ps = seq![p];
    let h0 = s0.spec_history();
    let h1 = s1.spec_history();
    let id = choose|id: u64| #[trigger] edit_recorded(h0, h1, id, label, src, ps);
    let n1 = h1.spec_nodes();
    let c0 = h0.spec_cursor();
    let c1 = h1.spec_cursor();
    crate::history::lemma_redo_after_undo(h0.spec_nodes(), c0, n1, c1, id, h1.spec_current(), c2, v.len() as int);
    assert(c2.take(c0.len() + 1int) =~= c2);
    let steps = v.map_values(|x: RedoResult| redo_step(x));
    assert(steps[0] == redo_step(v[0]));
    assert(step_result(src, steps[0]) == Ok::<Seq<u8>, TextPatchError>(bytes_of(s1.spec_text())));
    assert(steps.len() == 1);
    assert(replay(bytes_of(s1.spec_text()), steps, 1) == Ok::<Seq<u8>, TextPatchError>(bytes_of(s1.spec_text())));
}

/// A single patch is its own processing order.
proof fn lemma_single_patch_order(p: PatchView)
    ensures
        crate::textpatch::is_patch_order(seq![p], crate::textpatch::patch_order(seq![p])),
{
    let o = seq![0int];
    assert(o[0] == 0);
    assert(o.contains(0));
    assert(crate::textpatch::is_patch_order(seq![p], o));
}

} // verus!

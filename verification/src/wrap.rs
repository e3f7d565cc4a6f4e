//! Word wrap engine for splitting logical lines into visual lines, with
//! pluggable character-width, line-breaking and inline-layout rules.

use vstd::prelude::*;
use vstd::string::StringSliceAdditionalSpecFns;
use vstd::utf8::*;
use crate::strutil::{
    substr, bytes_of, char_after, char_before, char_bytes, char_is_white_space, chars_after,
    chars_before, is_white_space, lemma_str_valid, lemma_take_bytes, utf8_len,
};

verus! {

/// Break classification at a byte offset.
#[derive(Debug, Clone, Copy, PartialEq, Eq, Structural)]
pub enum BreakOpportunity {
    Allowed,
    Forbidden,
    Mandatory,
}

/// Writing direction of visual lines.
#[derive(Debug, Clone, Copy, PartialEq, Eq, Structural)]
pub enum LayoutMode {
    HorizontalLtr,
    VerticalRl,
    VerticalLr,
}

// ---------------------------------------------------------------------------
// Pluggable rules
// ---------------------------------------------------------------------------

/// The visual width of a character. An implementation gives the width both
/// as a specification (`spec_char_width`) and as code that meets it.
pub trait CharWidth: Copy {
    spec fn spec_char_width(&self, ch: char) -> u32;

    fn char_width(&self, ch: char) -> (r: u32)
        ensures
            r == self.spec_char_width(ch),
    ;
}

/// Whether a line may, must or must not break at a byte offset, both as a
/// specification and as code that meets it.
pub trait BreakRule: Copy {
    spec fn spec_break_opportunity(&self, line_text: &str, byte_offset: usize) -> BreakOpportunity;

    fn break_opportunity(&self, line_text: &str, byte_offset: usize) -> (r: BreakOpportunity)
        requires
            byte_offset == 0 || byte_offset >= line_text.spec_bytes().len() || is_char_boundary(
                line_text.spec_bytes(),
                byte_offset as int,
            ),
        ensures
            r == self.spec_break_opportunity(line_text, byte_offset),
    ;
}

/// How the inline width of a visual line is laid out against the column
/// limit, both as a specification and as code that meets it.
pub trait InlineWidth: Copy {
    spec fn spec_redistribute(&self, line_width: u32, max_width: u32) -> u32;

    fn redistribute(&self, line_width: u32, max_width: u32) -> (r: u32)
        ensures
            r == self.spec_redistribute(line_width, max_width),
    ;
}

/// Every character is one column wide.
#[derive(Debug, Clone, Copy, PartialEq, Eq)]
pub struct MonospaceAsciiWidth;

/// ASCII is one column wide; other characters take their East Asian width.
#[derive(Debug, Clone, Copy, PartialEq, Eq)]
pub struct CjkGridWidth;

/// Keeps a visual line's own width.
#[derive(Debug, Clone, Copy, PartialEq, Eq)]
pub struct PreserveInlineWidth;

/// Breaks after ASCII or Unicode white space and common code operators.
#[derive(Debug, Clone, Copy, PartialEq, Eq)]
pub struct CodeBreaks;

/// Breaks between wide characters, with kinsoku shaping rules.
#[derive(Debug, Clone, Copy, PartialEq, Eq)]
pub struct JapaneseBreaks;

/// Code points drawn two columns wide.
pub open spec fn is_east_asian_wide(u: u32) -> bool {
    (0x1100 <= u <= 0x115F) || (0x2329 <= u <= 0x232A) || (0x2E80 <= u <= 0x303E) || (0x3040 <= u
        <= 0x30FF) || (0x3100 <= u <= 0x312F) || (0x3130 <= u <= 0x318F) || (0x3190 <= u <= 0x31EF)
        || (0x31F0 <= u <= 0x31FF) || (0x3200 <= u <= 0xA4CF) || (0xAC00 <= u <= 0xD7A3) || (0xF900
        <= u <= 0xFAFF) || (0xFE10 <= u <= 0xFE19) || (0xFE30 <= u <= 0xFE6F) || (0xFF01 <= u
        <= 0xFF60) || (0xFFE0 <= u <= 0xFFE6) || (0x1F300 <= u <= 0x1FAFF) || (0x20000 <= u
        <= 0x3FFFD)
}

/// East Asian width in columns: 2 for wide characters, 1 otherwise.
pub open spec fn spec_east_asian_width(ch: char) -> u32 {
    if is_east_asian_wide(ch as u32) {
        2
    } else {
        1
    }
}

fn east_asian_width(ch: char) -> (r: u32)
    ensures
        r == spec_east_asian_width(ch),
{
    let u = ch as u32;
    if (0x1100 <= u && u <= 0x115F) || (0x2329 <= u && u <= 0x232A) || (0x2E80 <= u && u <= 0x303E)
        || (0x3040 <= u && u <= 0x30FF) || (0x3100 <= u && u <= 0x312F) || (0x3130 <= u && u
        <= 0x318F) || (0x3190 <= u && u <= 0x31EF) || (0x31F0 <= u && u <= 0x31FF) || (0x3200 <= u
        && u <= 0xA4CF) || (0xAC00 <= u && u <= 0xD7A3) || (0xF900 <= u && u <= 0xFAFF) || (0xFE10
        <= u && u <= 0xFE19) || (0xFE30 <= u && u <= 0xFE6F) || (0xFF01 <= u && u <= 0xFF60) || (
    0xFFE0 <= u && u <= 0xFFE6) || (0x1F300 <= u && u <= 0x1FAFF) || (0x20000 <= u && u
        <= 0x3FFFD) {
        2
    } else {
        1
    }
}

impl CharWidth for MonospaceAsciiWidth {
    open spec fn spec_char_width(&self, ch: char) -> u32 {
        1
    }

    fn char_width(&self, ch: char) -> (r: u32) {
        1
    }
}

impl CharWidth for CjkGridWidth {
    open spec fn spec_char_width(&self, ch: char) -> u32 {
        if (ch as u32) < 0x80 {
            1
        } else {
            spec_east_asian_width(ch)
        }
    }

    fn char_width(&self, ch: char) -> (r: u32) {
        if (ch as u32) < 0x80 {
            1
        } else {
            east_asian_width(ch)
        }
    }
}

impl InlineWidth for PreserveInlineWidth {
    open spec fn spec_redistribute(&self, line_width: u32, max_width: u32) -> u32 {
        line_width
    }

    fn redistribute(&self, line_width: u32, max_width: u32) -> (r: u32) {
        line_width
    }
}

/// Operators after which code may break.
pub open spec fn is_code_operator(ch: char) -> bool {
    ch == '+' || ch == '-' || ch == '*' || ch == '/' || ch == '%' || ch == '=' || ch == '!' || ch
        == '?' || ch == '&' || ch == '|' || ch == '^' || ch == '~' || ch == ':' || ch == ';' || ch
        == ',' || ch == '.'
}

fn code_operator(ch: char) -> (r: bool)
    ensures
        r == is_code_operator(ch),
{
    ch == '+' || ch == '-' || ch == '*' || ch == '/' || ch == '%' || ch == '=' || ch == '!' || ch
        == '?' || ch == '&' || ch == '|' || ch == '^' || ch == '~' || ch == ':' || ch == ';' || ch
        == ',' || ch == '.'
}

/// Characters that may not begin a line.
pub open spec fn is_line_start_kinsoku(ch: char) -> bool {
    ch == '。' || ch == '、' || ch == '．' || ch == '，' || ch == '：' || ch == '；' || ch == '？'
        || ch == '！' || ch == '）' || ch == '」' || ch == '』' || ch == '】' || ch == '〉' || ch
        == '》' || ch == '〕' || ch == '｝' || ch == '―' || ch == '…'
}

fn line_start_kinsoku(ch: char) -> (r: bool)
    ensures
        r == is_line_start_kinsoku(ch),
{
    ch == '。' || ch == '、' || ch == '．' || ch == '，' || ch == '：' || ch == '；' || ch == '？'
        || ch == '！' || ch == '）' || ch == '」' || ch == '』' || ch == '】' || ch == '〉' || ch
        == '》' || ch == '〕' || ch == '｝' || ch == '―' || ch == '…'
}

/// Characters that may not end a line.
pub open spec fn is_line_end_kinsoku(ch: char) -> bool {
    ch == '（' || ch == '「' || ch == '『' || ch == '【' || ch == '〈' || ch == '《' || ch == '〔'
        || ch == '｛'
}

fn line_end_kinsoku(ch: char) -> (r: bool)
    ensures
        r == is_line_end_kinsoku(ch),
{
    ch == '（' || ch == '「' || ch == '『' || ch == '【' || ch == '〈' || ch == '《' || ch == '〔'
        || ch == '｛'
}

/// The code rule: inside the line, a break is allowed right after white space
/// or an operator.
pub open spec fn code_break_spec(text: Seq<char>, off: int) -> BreakOpportunity {
    if off == 0 || off >= bytes_of(text).len() {
        BreakOpportunity::Forbidden
    } else {
        let prev = chars_before(text, off).last();
        if is_white_space(prev) || is_code_operator(prev) {
            BreakOpportunity::Allowed
        } else {
            BreakOpportunity::Forbidden
        }
    }
}

/// The Japanese rule: inside the line, a break is allowed between two wide
/// characters unless the next may not start a line or the previous may not end one.
pub open spec fn japanese_break_spec(text: Seq<char>, off: int) -> BreakOpportunity {
    if off == 0 || off >= bytes_of(text).len() {
        BreakOpportunity::Forbidden
    } else {
        let prev = chars_before(text, off).last();
        let next = chars_after(text, off)[0];
        if is_line_start_kinsoku(next) || is_line_end_kinsoku(prev) {
            BreakOpportunity::Forbidden
        } else if spec_east_asian_width(prev) == 2 && spec_east_asian_width(next) == 2 {
            BreakOpportunity::Allowed
        } else {
            BreakOpportunity::Forbidden
        }
    }
}

impl BreakRule for CodeBreaks {
    open spec fn spec_break_opportunity(&self, line_text: &str, byte_offset: usize) -> BreakOpportunity {
        code_break_spec(line_text@, byte_offset as int)
    }

    fn break_opportunity(&self, line_text: &str, byte_offset: usize) -> (r: BreakOpportunity) {
        if byte_offset == 0 || byte_offset >= line_text.as_bytes().len() {
            return BreakOpportunity::Forbidden;
        }
        let prev = char_before(line_text, byte_offset);
        if char_is_white_space(prev) || code_operator(prev) {
            BreakOpportunity::Allowed
        } else {
            BreakOpportunity::Forbidden
        }
    }
}

impl BreakRule for JapaneseBreaks {
    open spec fn spec_break_opportunity(&self, line_text: &str, byte_offset: usize) -> BreakOpportunity {
        japanese_break_spec(line_text@, byte_offset as int)
    }

    fn break_opportunity(&self, line_text: &str, byte_offset: usize) -> (r: BreakOpportunity) {
        if byte_offset == 0 || byte_offset >= line_text.as_bytes().len() {
            return BreakOpportunity::Forbidden;
        }
        let prev = char_before(line_text, byte_offset);
        let next = char_after(line_text, byte_offset);
        if line_start_kinsoku(next) || line_end_kinsoku(prev) {
            return BreakOpportunity::Forbidden;
        }
        if east_asian_width(prev) == 2 && east_asian_width(next) == 2 {
            BreakOpportunity::Allowed
        } else {
            BreakOpportunity::Forbidden
        }
    }
}

// ---------------------------------------------------------------------------
// Policies
// ---------------------------------------------------------------------------

/// Character advances: a width rule, and optionally a fixed advance for tabs.
#[derive(Debug, Clone, Copy)]
pub struct WidthPolicy<W> {
    char_width: W,
    tab_width: Option<u32>,
}

impl<W: CharWidth> WidthPolicy<W> {
    /// The width rule.
    pub closed spec fn spec_rule(self) -> W {
        self.char_width
    }

    /// The fixed tab advance, if any.
    pub closed spec fn spec_tab_width(self) -> Option<u32> {
        self.tab_width
    }

    /// The advance of one character: the tab advance for a tab when one is
    /// set, the rule's width otherwise.
    pub open spec fn spec_advance(self, ch: char) -> u32 {
        if ch == '\t' && self.spec_tab_width() is Some {
            self.spec_tab_width().unwrap()
        } else {
            self.spec_rule().spec_char_width(ch)
        }
    }

    /// The sum of the advances of `s`.
    pub open spec fn spec_text_width(self, s: Seq<char>) -> int
        decreases s.len(),
    {
        if s.len() == 0 {
            0
        } else {
            self.spec_text_width(s.drop_last()) + self.spec_advance(s.last())
        }
    }

    /// A policy from a width rule alone; tabs take the rule's width.
    pub fn new(char_width: W) -> (r: Self)
        ensures
            r.spec_rule() == char_width,
            r.spec_tab_width() == None::<u32>,
    {
        WidthPolicy { char_width, tab_width: None }
    }

    /// A policy from a width rule and a fixed tab advance.
    pub fn with_tab_width(char_width: W, tab_width: u32) -> (r: Self)
        ensures
            r.spec_rule() == char_width,
            r.spec_tab_width() == Some(tab_width),
    {
        WidthPolicy { char_width, tab_width: Some(tab_width) }
    }

    /// The fixed tab advance, if any.
    pub fn tab_width(&self) -> (r: Option<u32>)
        ensures
            r == self.spec_tab_width(),
    {
        self.tab_width
    }

    /// The width rule.
    pub fn char_width(&self) -> (r: W)
        ensures
            r == self.spec_rule(),
    {
        self.char_width
    }

    /// The advance of one character.
    pub fn advance_of(&self, ch: char) -> (r: u32)
        ensures
            r == self.spec_advance(ch),
    {
        if ch == '\t' {
            match self.tab_width {
                Some(t) => t,
                None => self.char_width.char_width(ch),
            }
        } else {
            self.char_width.char_width(ch)
        }
    }

    /// The total advance of `text`.
    pub fn text_width(&self, text: &str) -> (r: u32)
        requires
            self.spec_text_width(text@) <= u32::MAX,
        ensures
            r == self.spec_text_width(text@),
    {
        let ghost s = text@;
        let mut total: u32 = 0;
        let mut it = text.chars();
        let ghost mut i: int = 0;
        loop
            invariant
                0 <= i <= s.len(),
                vstd::std_specs::iter::IteratorSpec::remaining(&it) == s.skip(i),
                total == self.spec_text_width(s.take(i)),
                self.spec_text_width(s) <= u32::MAX,
            ensures
                total == self.spec_text_width(s),
            decreases s.len() - i,
        {
            match it.next() {
                Some(ch) => {
                    proof {
                        assert(s.skip(i)[0] == s[i]);
                        assert(s.skip(i).drop_first() =~= s.skip(i + 1));
                        assert(s.take(i + 1).drop_last() =~= s.take(i));
                        self.lemma_text_width_prefix(s, i + 1);
                    }
                    total = total + self.advance_of(ch);
                    proof {
                        i = i + 1;
                    }
                },
                None => {
                    assert(s.take(i) =~= s);
                    break;
                },
            }
        }
        total
    }

    /// A prefix is no wider than the whole.
    pub proof fn lemma_text_width_prefix(self, s: Seq<char>, k: int)
        requires
            0 <= k <= s.len(),
        ensures
            0 <= self.spec_text_width(s.take(k)) <= self.spec_text_width(s),
        decreases s.len(),
    {
        if k == s.len() {
            assert(s.take(k) =~= s);
            self.lemma_text_width_nonneg(s);
        } else {
            assert(s.drop_last().take(k) =~= s.take(k));
            self.lemma_text_width_prefix(s.drop_last(), k);
        }
    }

    proof fn lemma_text_width_nonneg(self, s: Seq<char>)
        ensures
            0 <= self.spec_text_width(s),
        decreases s.len(),
    {
        if s.len() > 0 {
            self.lemma_text_width_nonneg(s.drop_last());
        }
    }
}

impl WidthPolicy<MonospaceAsciiWidth> {
    /// Every character one column wide, with a fixed tab advance.
    pub fn monospace_ascii(tab_width: u32) -> (r: Self)
        ensures
            r.spec_tab_width() == Some(tab_width),
    {
        Self::with_tab_width(MonospaceAsciiWidth, tab_width)
    }
}

impl WidthPolicy<CjkGridWidth> {
    /// ASCII one column, wide East Asian characters two, with a fixed tab advance.
    pub fn cjk_grid(tab_width: u32) -> (r: Self)
        ensures
            r.spec_tab_width() == Some(tab_width),
    {
        Self::with_tab_width(CjkGridWidth, tab_width)
    }
}

/// The writing direction and the inline-width rule of visual lines.
#[derive(Debug, Clone, Copy)]
pub struct LineLayoutPolicy<R> {
    layout_mode: LayoutMode,
    redistribute_inline_width: R,
}

impl<R: InlineWidth> LineLayoutPolicy<R> {
    pub closed spec fn spec_layout_mode(self) -> LayoutMode {
        self.layout_mode
    }

    pub closed spec fn spec_rule(self) -> R {
        self.redistribute_inline_width
    }

    pub fn new(layout_mode: LayoutMode, redistribute_inline_width: R) -> (r: Self)
        ensures
            r.spec_layout_mode() == layout_mode,
            r.spec_rule() == redistribute_inline_width,
    {
        LineLayoutPolicy { layout_mode, redistribute_inline_width }
    }

    pub fn layout_mode(&self) -> (r: LayoutMode)
        ensures
            r == self.spec_layout_mode(),
    {
        self.layout_mode
    }

    /// The inline advance given to a visual line of width `line_width`.
    pub fn redistributed_inline_width(&self, line_width: u32, max_width: u32) -> (r: u32)
        ensures
            r == self.spec_rule().spec_redistribute(line_width, max_width),
    {
        self.redistribute_inline_width.redistribute(line_width, max_width)
    }
}

impl LineLayoutPolicy<PreserveInlineWidth> {
    /// Left-to-right horizontal lines that keep their own width.
    pub fn horizontal_ltr() -> (r: Self)
        ensures
            r.spec_layout_mode() == LayoutMode::HorizontalLtr,
    {
        Self::new(LayoutMode::HorizontalLtr, PreserveInlineWidth)
    }
}

/// A width policy and a break rule.
#[derive(Debug, Clone, Copy)]
pub struct WrapPolicy<W, B> {
    width_policy: WidthPolicy<W>,
    break_opportunity: B,
}

impl<W: CharWidth, B: BreakRule> WrapPolicy<W, B> {
    pub closed spec fn spec_width_policy(self) -> WidthPolicy<W> {
        self.width_policy
    }

    pub closed spec fn spec_break_rule(self) -> B {
        self.break_opportunity
    }

    /// A policy from a width rule (tabs take the rule's width) and a break rule.
    pub fn new(char_width: W, break_opportunity: B) -> (r: Self)
        ensures
            r.spec_width_policy().spec_rule() == char_width,
            r.spec_width_policy().spec_tab_width() == None::<u32>,
            r.spec_break_rule() == break_opportunity,
    {
        Self::with_width_policy(WidthPolicy::new(char_width), break_opportunity)
    }

    pub fn with_width_policy(width_policy: WidthPolicy<W>, break_opportunity: B) -> (r: Self)
        ensures
            r.spec_width_policy() == width_policy,
            r.spec_break_rule() == break_opportunity,
    {
        WrapPolicy { width_policy, break_opportunity }
    }

    pub fn width_policy(&self) -> (r: WidthPolicy<W>)
        ensures
            r == self.spec_width_policy(),
    {
        self.width_policy
    }

    pub fn char_width(&self) -> (r: W)
        ensures
            r == self.spec_width_policy().spec_rule(),
    {
        self.width_policy.char_width()
    }

    pub fn break_opportunity(&self) -> (r: B)
        ensures
            r == self.spec_break_rule(),
    {
        self.break_opportunity
    }
}

impl<W: CharWidth> WrapPolicy<W, CodeBreaks> {
    /// The code break rule with the given width policy.
    pub fn code_with_width_policy(width_policy: WidthPolicy<W>) -> (r: Self)
        ensures
            r.spec_width_policy() == width_policy,
    {
        Self::with_width_policy(width_policy, CodeBreaks)
    }
}

impl WrapPolicy<CjkGridWidth, CodeBreaks> {
    /// The code break rule on a CJK grid with four-column tabs.
    pub fn code() -> (r: Self)
        ensures
            r.spec_width_policy().spec_tab_width() == Some(4u32),
    {
        Self::code_with_width_policy(WidthPolicy::cjk_grid(4))
    }
}

impl WrapPolicy<CjkGridWidth, JapaneseBreaks> {
    /// The Japanese break rule on a CJK grid with four-column tabs.
    pub fn japanese_basic() -> (r: Self)
        ensures
            r.spec_width_policy().spec_tab_width() == Some(4u32),
    {
        Self::with_width_policy(WidthPolicy::cjk_grid(4), JapaneseBreaks)
    }
}

// ---------------------------------------------------------------------------
// Wrap points and visual lines
// ---------------------------------------------------------------------------

/// Where a visual line ends: a byte offset in the logical line and the
/// cumulative visual width up to it.
#[derive(Debug, Clone, Copy, PartialEq, Eq, Structural)]
pub struct WrapPoint {
    byte_offset: u32,
    visual_width: u32,
}

impl View for WrapPoint {
    type V = (int, int);

    closed spec fn view(&self) -> (int, int) {
        (self.byte_offset as int, self.visual_width as int)
    }
}

impl WrapPoint {
    pub fn byte_offset(&self) -> (r: u32)
        ensures
            r == self@.0,
    {
        self.byte_offset
    }

    pub fn visual_width(&self) -> (r: u32)
        ensures
            r == self@.1,
    {
        self.visual_width
    }
}

/// The abstract values of wrap points.
pub open spec fn points_view(ps: Seq<WrapPoint>) -> Seq<(int, int)> {
    ps.map_values(|p: WrapPoint| p@)
}

/// The `[start, end)` byte range of one visual line.
#[derive(Debug, Clone, Copy, PartialEq, Eq, Structural)]
pub struct VisualLine {
    start: u32,
    end: u32,
}

impl View for VisualLine {
    type V = (int, int);

    closed spec fn view(&self) -> (int, int) {
        (self.start as int, self.end as int)
    }
}

impl VisualLine {
    pub fn start(&self) -> (r: u32)
        ensures
            r == self@.0,
    {
        self.start
    }

    pub fn end(&self) -> (r: u32)
        ensures
            r == self@.1,
    {
        self.end
    }

    /// Byte length; the start must not lie after the end.
    pub fn len(&self) -> (r: u32)
        requires
            self@.0 <= self@.1,
        ensures
            r == self@.1 - self@.0,
    {
        self.end - self.start
    }

    pub fn is_empty(&self) -> (r: bool)
        ensures
            r == (self@.0 == self@.1),
    {
        self.start == self.end
    }
}

/// Placement of one visual line: its logical and visual line, its inline and
/// block advances, and the writing direction.
#[derive(Debug, Clone, Copy, PartialEq, Eq, Structural)]
pub struct VisualLayoutSpace {
    logical_line: u32,
    visual_line: u32,
    inline_advance: u32,
    block_advance: u32,
    layout_mode: LayoutMode,
}

impl VisualLayoutSpace {
    pub closed spec fn spec_logical_line(self) -> u32 {
        self.logical_line
    }

    pub closed spec fn spec_visual_line(self) -> u32 {
        self.visual_line
    }

    pub closed spec fn spec_inline_advance(self) -> u32 {
        self.inline_advance
    }

    pub closed spec fn spec_block_advance(self) -> u32 {
        self.block_advance
    }

    pub closed spec fn spec_layout_mode(self) -> LayoutMode {
        self.layout_mode
    }

    pub fn logical_line(&self) -> (r: u32)
        ensures
            r == self.spec_logical_line(),
    {
        self.logical_line
    }

    pub fn visual_line(&self) -> (r: u32)
        ensures
            r == self.spec_visual_line(),
    {
        self.visual_line
    }

    pub fn inline_advance(&self) -> (r: u32)
        ensures
            r == self.spec_inline_advance(),
    {
        self.inline_advance
    }

    pub fn block_advance(&self) -> (r: u32)
        ensures
            r == self.spec_block_advance(),
    {
        self.block_advance
    }

    pub fn layout_mode(&self) -> (r: LayoutMode)
        ensures
            r == self.spec_layout_mode(),
    {
        self.layout_mode
    }
}

// ---------------------------------------------------------------------------
// Wrapping one line
// ---------------------------------------------------------------------------

/// Progress of the greedy wrap over a line: the wrap points so far, the total
/// width, where the current visual line starts (bytes and width), and the
/// last allowed break in it.
pub struct WrapState {
    pub wraps: Seq<(int, int)>,
    pub total: int,
    pub seg_off: int,
    pub seg_width: int,
    pub last: Option<(int, int)>,
}

/// When the current visual line has grown past `max`, it ends at the last
/// allowed break if that lies after its start; the candidate is used up either way.
pub open spec fn settle(st: WrapState, max: int) -> WrapState {
    if st.total > st.seg_width + max {
        match st.last {
            Some(c) => if c.0 > st.seg_off {
                WrapState {
                    wraps: st.wraps.push(c),
                    total: st.total,
                    seg_off: c.0,
                    seg_width: c.1,
                    last: None,
                }
            } else {
                WrapState { last: None, ..st }
            },
            None => st,
        }
    } else {
        st
    }
}

/// Consuming character `i`: its advance is added; at the byte after it an
/// allowed break becomes the candidate, a mandatory one inside the line ends
/// a non-empty visual line there; then, except after a mandatory break, the
/// line is settled against `max`.
pub open spec fn wrap_step<W: CharWidth, B: BreakRule>(
    st: WrapState,
    text: &str,
    i: int,
    max: int,
    policy: WrapPolicy<W, B>,
) -> WrapState {
    let total = st.total + policy.spec_width_policy().spec_advance(text@[i]);
    let next = bytes_of(text@.take(i + 1)).len() as int;
    match policy.spec_break_rule().spec_break_opportunity(text, next as usize) {
        BreakOpportunity::Mandatory => if next < bytes_of(text@).len() && next > st.seg_off {
            WrapState {
                wraps: st.wraps.push((next, total)),
                total,
                seg_off: next,
                seg_width: total,
                last: None,
            }
        } else {
            WrapState { total, last: None, ..st }
        },
        BreakOpportunity::Allowed => settle(WrapState { total, last: Some((next, total)), ..st }, max),
        BreakOpportunity::Forbidden => settle(WrapState { total, ..st }, max),
    }
}

/// The state after the first `n` characters.
pub open spec fn wrap_prefix<W: CharWidth, B: BreakRule>(
    text: &str,
    n: int,
    max: int,
    policy: WrapPolicy<W, B>,
) -> WrapState
    decreases n,
{
    if n <= 0 {
        WrapState { wraps: Seq::empty(), total: 0, seg_off: 0, seg_width: 0, last: None }
    } else {
        wrap_step(wrap_prefix(text, n - 1, max, policy), text, n - 1, max, policy)
    }
}

/// The wrap points of a line; a zero column limit disables wrapping.
pub open spec fn wrap_spec<W: CharWidth, B: BreakRule>(
    text: &str,
    max: int,
    policy: WrapPolicy<W, B>,
) -> Seq<(int, int)> {
    if max == 0 {
        Seq::empty()
    } else {
        wrap_prefix(text, text@.len() as int, max, policy).wraps
    }
}

/// A line can be wrapped when its byte length and its total advance fit in `u32`.
pub open spec fn wrappable<W: CharWidth, B: BreakRule>(
    text: &str,
    max: int,
    policy: WrapPolicy<W, B>,
) -> bool {
    max == 0 || (bytes_of(text@).len() <= u32::MAX && policy.spec_width_policy().spec_text_width(text@)
        <= u32::MAX)
}

spec fn exec_state(
    wraps: Seq<WrapPoint>,
    total: u32,
    seg_off: u32,
    seg_width: u32,
    last: Option<WrapPoint>,
) -> WrapState {
    WrapState {
        wraps: points_view(wraps),
        total: total as int,
        seg_off: seg_off as int,
        seg_width: seg_width as int,
        last: match last {
            Some(p) => Some(p@),
            None => None,
        },
    }
}

/// Wrap one line: the byte offsets (and cumulative widths) where its visual
/// lines end, computed greedily with `policy` against `max_width` columns.
pub fn wrap_line<W: CharWidth, B: BreakRule>(
    line_text: &str,
    max_width: u32,
    policy: &WrapPolicy<W, B>,
) -> (r: Vec<WrapPoint>)
    requires
        wrappable(line_text, max_width as int, *policy),
    ensures
        points_view(r@) == wrap_spec(line_text, max_width as int, *policy),
{
    if max_width == 0 {
        let r: Vec<WrapPoint> = Vec::new();
        assert(points_view(r@) =~= Seq::<(int, int)>::empty());
        return r;
    }
    let width_policy = policy.width_policy();
    let rule = policy.break_opportunity();
    let ghost s = line_text@;
    let mut wraps: Vec<WrapPoint> = Vec::new();
    let mut total: u32 = 0;
    let mut segment_start_offset: u32 = 0;
    let mut segment_start_width: u32 = 0;
    let mut last_allowed: Option<WrapPoint> = None;
    let mut byte_offset: usize = 0;
    let mut it = line_text.chars();
    let ghost mut i: int = 0;
    proof {
        lemma_str_valid(line_text);
        assert(points_view(wraps@) =~= Seq::<(int, int)>::empty());
        assert(s.take(0) =~= Seq::<char>::empty());
    }
    loop
        invariant
            0 <= i <= s.len(),
            s == line_text@,
            max_width > 0,
            width_policy == policy.spec_width_policy(),
            rule == policy.spec_break_rule(),
            vstd::std_specs::iter::IteratorSpec::remaining(&it) == s.skip(i),
            byte_offset == bytes_of(s.take(i)).len(),
            bytes_of(s).len() <= u32::MAX,
            width_policy.spec_text_width(s) <= u32::MAX,
            total == width_policy.spec_text_width(s.take(i)),
            exec_state(wraps@, total, segment_start_offset, segment_start_width, last_allowed)
                == wrap_prefix(line_text, i, max_width as int, *policy),
        ensures
            points_view(wraps@) == wrap_prefix(line_text, s.len() as int, max_width as int, *policy).wraps,
        decreases s.len() - i,
    {
        let ch = match it.next() {
            Some(c) => c,
            None => {
                assert(i == s.len());
                break;
            },
        };
        proof {
            assert(s.skip(i)[0] == s[i]);
            assert(s.skip(i).drop_first() =~= s.skip(i + 1));
            assert(s.take(i + 1).drop_last() =~= s.take(i));
            width_policy.lemma_text_width_prefix(s, i + 1);
            lemma_take_bytes(s, i);
            lemma_take_bytes(s, i + 1);
        }
        total = total + width_policy.advance_of(ch);
        let next_offset = byte_offset + utf8_len(ch);
        let next_u32 = next_offset as u32;
        let wrap_point = WrapPoint { byte_offset: next_u32, visual_width: total };
        let ghost prev = exec_state(wraps@, total, segment_start_offset, segment_start_width, last_allowed);
        match rule.break_opportunity(line_text, next_offset) {
            BreakOpportunity::Mandatory => {
                if next_offset < line_text.as_bytes().len() && next_u32 > segment_start_offset {
                    wraps.push(wrap_point);
                    segment_start_offset = next_u32;
                    segment_start_width = total;
                }
                last_allowed = None;
            },
            other => {
                if other == BreakOpportunity::Allowed {
                    last_allowed = Some(wrap_point);
                }
                if total > segment_start_width && total - segment_start_width > max_width {
                    if let Some(candidate) = last_allowed {
                        if candidate.byte_offset > segment_start_offset {
                            wraps.push(candidate);
                            segment_start_offset = candidate.byte_offset;
                            segment_start_width = candidate.visual_width;
                        }
                    }
                    last_allowed = None;
                }
            },
        }
        byte_offset = next_offset;
        proof {
            assert(points_view(wraps@) =~= wrap_prefix(line_text, i + 1, max_width as int, *policy).wraps);
            i = i + 1;
        }
    }
    wraps
}

/// Wrap points strictly increase in byte offset, starting after offset 0.
pub open spec fn points_ordered(ws: Seq<(int, int)>) -> bool {
    &&& forall|a: int, b: int| #![trigger ws[a], ws[b]] 0 <= a < b < ws.len() ==> ws[a].0 < ws[b].0
    &&& ws.len() > 0 ==> ws[0].0 > 0
}

/// Every wrap point lies at a character boundary of `text`, within the line.
pub open spec fn points_on_boundaries(ws: Seq<(int, int)>, text: Seq<char>) -> bool {
    forall|a: int|
        0 <= a < ws.len() ==> #[trigger] ws[a].0 <= bytes_of(text).len() && is_char_boundary(
            bytes_of(text),
            ws[a].0,
        )
}

spec fn state_ok(st: WrapState, text: Seq<char>) -> bool {
    &&& points_ordered(st.wraps)
    &&& points_on_boundaries(st.wraps, text)
    &&& st.wraps.len() == 0 ==> st.seg_off == 0
    &&& st.wraps.len() > 0 ==> st.wraps.last().0 == st.seg_off
    &&& st.last matches Some(c) ==> c.0 <= bytes_of(text).len() && is_char_boundary(
        bytes_of(text),
        c.0,
    )
}

proof fn lemma_push_ok(st: WrapState, text: Seq<char>, p: (int, int))
    requires
        state_ok(st, text),
        p.0 > st.seg_off,
        p.0 <= bytes_of(text).len(),
        is_char_boundary(bytes_of(text), p.0),
    ensures
        points_ordered(st.wraps.push(p)),
        points_on_boundaries(st.wraps.push(p), text),
{
    let w = st.wraps.push(p);
    assert forall|a: int, b: int| #![trigger w[a], w[b]] 0 <= a < b < w.len() implies w[a].0 < w[b].0 by {
        if b == w.len() - 1 {
            if a < b - 1 {
                assert(st.wraps[a] == w[a] && st.wraps[b - 1] == w[b - 1]);
            }
        } else {
            assert(st.wraps[a] == w[a] && st.wraps[b] == w[b]);
        }
    }
    assert forall|a: int| 0 <= a < w.len() implies #[trigger] w[a].0 <= bytes_of(text).len()
        && is_char_boundary(bytes_of(text), w[a].0) by {
        if a < w.len() - 1 {
            assert(st.wraps[a] == w[a]);
        }
    }
}

proof fn lemma_wrap_prefix_ok<W: CharWidth, B: BreakRule>(
    text: &str,
    n: int,
    max: int,
    policy: WrapPolicy<W, B>,
)
    requires
        0 <= n <= text@.len(),
        max >= 0,
    ensures
        state_ok(wrap_prefix(text, n, max, policy), text@),
    decreases n,
{
    if n > 0 {
        lemma_wrap_prefix_ok(text, n - 1, max, policy);
        let st = wrap_prefix(text, n - 1, max, policy);
        let i = n - 1;
        lemma_take_bytes(text@, i + 1);
        let total = st.total + policy.spec_width_policy().spec_advance(text@[i]);
        let next = bytes_of(text@.take(i + 1)).len() as int;
        match policy.spec_break_rule().spec_break_opportunity(text, next as usize) {
            BreakOpportunity::Mandatory => {
                if next < bytes_of(text@).len() && next > st.seg_off {
                    lemma_push_ok(st, text@, (next, total));
                }
            },
            BreakOpportunity::Allowed => {
                let s1 = WrapState { total, last: Some((next, total)), ..st };
                if s1.total > s1.seg_width + max && next > st.seg_off {
                    lemma_push_ok(st, text@, (next, total));
                }
            },
            BreakOpportunity::Forbidden => {
                let s1 = WrapState { total, ..st };
                if s1.total > s1.seg_width + max {
                    if let Some(c) = st.last {
                        if c.0 > st.seg_off {
                            lemma_push_ok(st, text@, c);
                        }
                    }
                }
            },
        }
    }
}

/// Wrap points never split a character and never repeat: their byte offsets
/// strictly increase, start after 0, end within the line, and each lies at a
/// character boundary.
pub proof fn lemma_wrap_points_placed<W: CharWidth, B: BreakRule>(
    text: &str,
    max: int,
    policy: WrapPolicy<W, B>,
)
    requires
        max >= 0,
    ensures
        points_ordered(wrap_spec(text, max, policy)),
        points_on_boundaries(wrap_spec(text, max, policy), text@),
{
    if max != 0 {
        lemma_wrap_prefix_ok(text, text@.len() as int, max, policy);
    }
}

// ---------------------------------------------------------------------------
// Whole documents
// ---------------------------------------------------------------------------

/// Per-document wrap state: the wrap points of every logical line and the
/// column limit they were computed with.
#[derive(Debug)]
pub struct WrapMap {
    line_wraps: Vec<Vec<WrapPoint>>,
    max_width: u32,
}

/// The wrap points of each of `texts`.
pub open spec fn wrapped_lines<W: CharWidth, B: BreakRule>(
    texts: Seq<&str>,
    max: int,
    policy: WrapPolicy<W, B>,
) -> Seq<Seq<(int, int)>> {
    Seq::new(texts.len(), |k: int| wrap_spec(texts[k], max, policy))
}

/// Every one of `texts` can be wrapped.
pub open spec fn all_wrappable<W: CharWidth, B: BreakRule>(
    texts: Seq<&str>,
    max: int,
    policy: WrapPolicy<W, B>,
) -> bool {
    forall|k: int| 0 <= k < texts.len() ==> #[trigger] wrappable(texts[k], max, policy)
}

/// The wrap points of every line are ordered.
pub open spec fn lines_ordered(lines: Seq<Seq<(int, int)>>) -> bool {
    forall|k: int| 0 <= k < lines.len() ==> #[trigger] points_ordered(lines[k])
}

/// Visual lines of the first `n` logical lines: one per line plus one per wrap point.
pub open spec fn visual_before(lines: Seq<Seq<(int, int)>>, n: int) -> int
    decreases n,
{
    if n <= 0 {
        0
    } else {
        visual_before(lines, n - 1) + lines[n - 1].len() + 1
    }
}

/// Number of leading wrap points, from index `k` on, whose offset is at most `off`.
pub open spec fn leading_at_most(ws: Seq<(int, int)>, off: int, k: int) -> int
    decreases ws.len() - k,
{
    if k < 0 || k >= ws.len() || ws[k].0 > off {
        0
    } else {
        1 + leading_at_most(ws, off, k + 1)
    }
}

/// The logical line and start offset of absolute visual line `v`, searching
/// from logical line `k`.
pub open spec fn locate(lines: Seq<Seq<(int, int)>>, v: int, k: int) -> (int, int)
    decreases lines.len() - k,
{
    if k < 0 || k >= lines.len() {
        (k, 0)
    } else if v < lines[k].len() + 1 {
        (k, if v == 0 {
            0
        } else {
            lines[k][v - 1].0
        })
    } else {
        locate(lines, v - (lines[k].len() + 1), k + 1)
    }
}

/// The characters of `text` whose bytes lie in `[start, end)`.
pub open spec fn chars_between(text: Seq<char>, start: int, end: int) -> Seq<char> {
    decode_utf8(bytes_of(text).subrange(start, end))
}

/// The visual lines of a logical line of `line_len` bytes with wrap points `ws`.
pub open spec fn visual_segments(ws: Seq<(int, int)>, line_len: int) -> Seq<(int, int)> {
    Seq::new(
        ws.len() + 1,
        |k: int|
            (if k == 0 {
                0
            } else {
                ws[k - 1].0
            }, if k < ws.len() {
                ws[k].0
            } else {
                line_len
            }),
    )
}

impl WrapMap {
    #[verifier::type_invariant]
    spec fn ordered(self) -> bool {
        forall|k: int|
            0 <= k < self.line_wraps@.len() ==> #[trigger] points_ordered(
                points_view(self.line_wraps@[k]@),
            )
    }

    proof fn lemma_ordered(self)
        requires
            self.ordered(),
        ensures
            lines_ordered(self.spec_lines()),
    {
        assert forall|k: int| 0 <= k < self.spec_lines().len() implies #[trigger] points_ordered(
            self.spec_lines()[k],
        ) by {
            assert(self.spec_lines()[k] == points_view(self.line_wraps@[k]@));
        }
    }

    /// The wrap points of every logical line.
    pub closed spec fn spec_lines(self) -> Seq<Seq<(int, int)>> {
        self.line_wraps@.map_values(|v: Vec<WrapPoint>| points_view(v@))
    }

    /// The column limit.
    pub closed spec fn spec_max_width(self) -> u32 {
        self.max_width
    }

    fn wrap_all<W: CharWidth, B: BreakRule>(
        lines: &[&str],
        max_width: u32,
        policy: &WrapPolicy<W, B>,
    ) -> (r: Vec<Vec<WrapPoint>>)
        requires
            all_wrappable(lines@, max_width as int, *policy),
        ensures
            r@.map_values(|v: Vec<WrapPoint>| points_view(v@)) == wrapped_lines(
                lines@,
                max_width as int,
                *policy,
            ),
            forall|k: int| 0 <= k < r@.len() ==> #[trigger] points_ordered(points_view(r@[k]@)),
    {
        let mut out: Vec<Vec<WrapPoint>> = Vec::new();
        let mut k: usize = 0;
        while k < lines.len()
            invariant
                0 <= k <= lines@.len(),
                all_wrappable(lines@, max_width as int, *policy),
                out@.len() == k,
                forall|j: int|
                    0 <= j < k ==> points_view(#[trigger] out@[j]@) == wrap_spec(
                        lines@[j],
                        max_width as int,
                        *policy,
                    ),
                forall|j: int| 0 <= j < k ==> #[trigger] points_ordered(points_view(out@[j]@)),
            decreases lines@.len() - k,
        {
            assert(wrappable(lines@[k as int], max_width as int, *policy));
            let w = wrap_line(lines[k], max_width, policy);
            proof {
                lemma_wrap_points_placed(lines@[k as int], max_width as int, *policy);
            }
            out.push(w);
            k = k + 1;
        }
        assert(out@.map_values(|v: Vec<WrapPoint>| points_view(v@)) =~= wrapped_lines(
            lines@,
            max_width as int,
            *policy,
        ));
        out
    }

    /// Wrap every line of a document with `max_width` columns.
    pub fn new<W: CharWidth, B: BreakRule>(
        lines: &[&str],
        max_width: u32,
        policy: &WrapPolicy<W, B>,
    ) -> (r: Self)
        requires
            all_wrappable(lines@, max_width as int, *policy),
        ensures
            r.spec_lines() == wrapped_lines(lines@, max_width as int, *policy),
            r.spec_max_width() == max_width,
            lines_ordered(r.spec_lines()),
    {
        let line_wraps = Self::wrap_all(lines, max_width, policy);
        let r = WrapMap { line_wraps, max_width };
        proof {
            r.lemma_ordered();
        }
        r
    }

    /// The column limit used for wrapping.
    pub fn max_width(&self) -> (r: u32)
        ensures
            r == self.spec_max_width(),
    {
        self.max_width
    }

    /// Number of logical lines.
    pub fn line_count(&self) -> (r: u32)
        requires
            self.spec_lines().len() <= u32::MAX,
        ensures
            r == self.spec_lines().len(),
    {
        self.line_wraps.len() as u32
    }

    /// Number of visual lines of logical line `line`.
    pub fn visual_line_count(&self, line: u32) -> (r: u32)
        requires
            line < self.spec_lines().len(),
            self.spec_lines()[line as int].len() < u32::MAX,
        ensures
            r == self.spec_lines()[line as int].len() + 1,
    {
        let wraps = &self.line_wraps[line as usize];
        assert(points_view(wraps@).len() == wraps@.len());
        wraps.len() as u32 + 1
    }

    /// Total number of visual lines of the document.
    pub fn total_visual_lines(&self) -> (r: u32)
        requires
            visual_before(self.spec_lines(), self.spec_lines().len() as int) <= u32::MAX,
        ensures
            r == visual_before(self.spec_lines(), self.spec_lines().len() as int),
    {
        let ghost lines = self.spec_lines();
        let mut acc: u32 = 0;
        let mut k: usize = 0;
        while k < self.line_wraps.len()
            invariant
                0 <= k <= self.line_wraps@.len(),
                lines == self.spec_lines(),
                lines.len() == self.line_wraps@.len(),
                acc == visual_before(lines, k as int),
                visual_before(lines, lines.len() as int) <= u32::MAX,
            decreases self.line_wraps@.len() - k,
        {
            proof {
                lemma_visual_before_monotone(lines, k + 1, lines.len() as int);
                assert(lines[k as int] == points_view(self.line_wraps@[k as int]@));
            }
            acc = acc + self.line_wraps[k].len() as u32 + 1;
            k = k + 1;
        }
        acc
    }

    /// The wrap points of logical line `line`.
    pub fn wrap_points(&self, line: u32) -> (r: &[WrapPoint])
        requires
            line < self.spec_lines().len(),
        ensures
            points_view(r@) == self.spec_lines()[line as int],
    {
        self.line_wraps[line as usize].as_slice()
    }

    /// The visual lines of logical line `line`, whose length is `line_len` bytes.
    pub fn visual_lines(&self, line: u32, line_len: u32) -> (r: Vec<VisualLine>)
        requires
            line < self.spec_lines().len(),
        ensures
            r@.map_values(|v: VisualLine| v@) == visual_segments(
                self.spec_lines()[line as int],
                line_len as int,
            ),
    {
        let wraps = self.wrap_points(line);
        let ghost ws = self.spec_lines()[line as int];
        let mut out: Vec<VisualLine> = Vec::new();
        let mut start: u32 = 0;
        let mut k: usize = 0;
        while k < wraps.len()
            invariant
                0 <= k <= wraps@.len(),
                points_view(wraps@) == ws,
                out@.len() == k,
                forall|j: int|
                    0 <= j < k ==> (#[trigger] out@[j])@ == visual_segments(ws, line_len as int)[j],
                start == (if k == 0 {
                    0
                } else {
                    ws[k - 1].0
                }),
            decreases wraps@.len() - k,
        {
            let end = wraps[k].byte_offset;
            out.push(VisualLine { start, end });
            start = end;
            k = k + 1;
        }
        out.push(VisualLine { start, end: line_len });
        assert(out@.map_values(|v: VisualLine| v@) =~= visual_segments(ws, line_len as int));
        out
    }

    /// Placement of visual line `local_visual_line` of logical line `line`,
    /// whose text is `line_text`: its inline advance is the width of its
    /// bytes, redistributed by `line_layout_policy`; its block advance is its
    /// index within the logical line.
    pub fn visual_layout_space<W: CharWidth, B: BreakRule, R: InlineWidth>(
        &self,
        line: u32,
        local_visual_line: u32,
        line_text: &str,
        policy: &WrapPolicy<W, B>,
        line_layout_policy: &LineLayoutPolicy<R>,
    ) -> (r: VisualLayoutSpace)
        requires
            line < self.spec_lines().len(),
            bytes_of(line_text@).len() <= u32::MAX,
            local_visual_line < self.spec_lines()[line as int].len() + 1,
            ({
                let seg = visual_segments(
                    self.spec_lines()[line as int],
                    bytes_of(line_text@).len() as int,
                )[local_visual_line as int];
                &&& 0 <= seg.0 <= seg.1 <= bytes_of(line_text@).len()
                &&& is_char_boundary(bytes_of(line_text@), seg.0)
                &&& is_char_boundary(bytes_of(line_text@), seg.1)
                &&& policy.spec_width_policy().spec_text_width(
                    chars_between(line_text@, seg.0, seg.1),
                ) <= u32::MAX
            }),
        ensures
            r.spec_logical_line() == line,
            r.spec_visual_line() == local_visual_line,
            r.spec_block_advance() == local_visual_line,
            r.spec_layout_mode() == line_layout_policy.spec_layout_mode(),
            ({
                let seg = visual_segments(
                    self.spec_lines()[line as int],
                    bytes_of(line_text@).len() as int,
                )[local_visual_line as int];
                r.spec_inline_advance() == line_layout_policy.spec_rule().spec_redistribute(
                    policy.spec_width_policy().spec_text_width(
                        chars_between(line_text@, seg.0, seg.1),
                    ) as u32,
                    self.spec_max_width(),
                )
            }),
    {
        let line_len = line_text.as_bytes().len() as u32;
        assert(line_len == bytes_of(line_text@).len());
        let visual_lines = self.visual_lines(line, line_len);
        assert(visual_lines@.map_values(|v: VisualLine| v@).len() == visual_lines@.len());
        let visual_line = visual_lines[local_visual_line as usize];
        assert(visual_line@ == visual_lines@.map_values(|v: VisualLine| v@)[local_visual_line as int]);
        let piece = substr(line_text, visual_line.start as usize, visual_line.end as usize);
        proof {
            vstd::utf8::encode_utf8_decode_utf8(piece@);
        }
        let width = policy.width_policy().text_width(piece);
        let inline_advance = line_layout_policy.redistributed_inline_width(width, self.max_width);
        VisualLayoutSpace {
            logical_line: line,
            visual_line: local_visual_line,
            inline_advance,
            block_advance: local_visual_line,
            layout_mode: line_layout_policy.layout_mode(),
        }
    }

    /// The absolute visual line of byte `byte_offset_in_line` of logical line `line`.
    pub fn to_visual_line(&self, line: u32, byte_offset_in_line: u32) -> (r: u32)
        requires
            line < self.spec_lines().len(),
            visual_before(self.spec_lines(), line + 1) <= u32::MAX,
        ensures
            r == visual_before(self.spec_lines(), line as int) + leading_at_most(
                self.spec_lines()[line as int],
                byte_offset_in_line as int,
                0,
            ),
    {
        let ghost lines = self.spec_lines();
        let mut prior: u32 = 0;
        let mut k: u32 = 0;
        while k < line
            invariant
                0 <= k <= line,
                line < lines.len(),
                lines == self.spec_lines(),
                lines.len() == self.line_wraps@.len(),
                prior == visual_before(lines, k as int),
                visual_before(lines, line + 1) <= u32::MAX,
            decreases line - k,
        {
            proof {
                lemma_visual_before_monotone(lines, k + 1, line + 1);
                assert(lines[k as int] == points_view(self.line_wraps@[k as int]@));
            }
            prior = prior + self.line_wraps[k as usize].len() as u32 + 1;
            k = k + 1;
        }
        let wraps = self.wrap_points(line);
        let ghost ws = lines[line as int];
        let mut local: usize = 0;
        while local < wraps.len() && wraps[local].byte_offset <= byte_offset_in_line
            invariant
                0 <= local <= wraps@.len(),
                points_view(wraps@) == ws,
                leading_at_most(ws, byte_offset_in_line as int, 0) == local + leading_at_most(
                    ws,
                    byte_offset_in_line as int,
                    local as int,
                ),
            decreases wraps@.len() - local,
        {
            local = local + 1;
        }
        assert(leading_at_most(ws, byte_offset_in_line as int, local as int) == 0);
        assert(prior + ws.len() + 1 == visual_before(lines, line + 1));
        prior + local as u32
    }

    /// The logical line and start byte offset of absolute visual line `visual_line`.
    pub fn from_visual_line(&self, visual_line: u32) -> (r: (u32, u32))
        requires
            visual_line < visual_before(self.spec_lines(), self.spec_lines().len() as int),
            forall|k: int|
                0 <= k < self.spec_lines().len() ==> #[trigger] self.spec_lines()[k].len() < u32::MAX,
        ensures
            (r.0 as int, r.1 as int) == locate(self.spec_lines(), visual_line as int, 0),
            r.0 < self.spec_lines().len(),
            r.1 == 0 || exists|j: int|
                0 <= j < self.spec_lines()[r.0 as int].len() && #[trigger] self.spec_lines()[r.0 as int][j].0
                    == r.1,
    {
        let ghost lines = self.spec_lines();
        let mut remaining: u32 = visual_line;
        let mut k: usize = 0;
        while k < self.line_wraps.len()
            invariant
                0 <= k <= self.line_wraps@.len(),
                lines == self.spec_lines(),
                lines.len() == self.line_wraps@.len(),
                forall|j: int| 0 <= j < lines.len() ==> #[trigger] lines[j].len() < u32::MAX,
                remaining + visual_before(lines, k as int) == visual_line,
                locate(lines, visual_line as int, 0) == locate(lines, remaining as int, k as int),
                visual_line < visual_before(lines, lines.len() as int),
            decreases self.line_wraps@.len() - k,
        {
            let wraps = &self.line_wraps[k];
            proof {
                assert(lines[k as int] == points_view(wraps@));
                assert(lines[k as int].len() == wraps@.len());
            }
            let count = wraps.len() as u32 + 1;
            if remaining < count {
                let start = if remaining == 0 {
                    0
                } else {
                    wraps[(remaining - 1) as usize].byte_offset
                };
                proof {
                    if remaining > 0 {
                        assert(lines[k as int][remaining - 1] == wraps@[remaining - 1]@);
                        assert(lines[k as int][remaining - 1].0 == start);
                    }
                    assert(k <= visual_before(lines, k as int)) by {
                        lemma_visual_before_at_least(lines, k as int);
                    }
                }
                return (k as u32, start);
            }
            remaining = remaining - count;
            k = k + 1;
        }
        proof {
            assert(false);
        }
        (0, 0)
    }

    /// Recompute the wrap points of logical line `line` from its new text.
    pub fn rewrap_line<W: CharWidth, B: BreakRule>(
        &mut self,
        line: u32,
        line_text: &str,
        policy: &WrapPolicy<W, B>,
    )
        requires
            line < old(self).spec_lines().len(),
            wrappable(line_text, old(self).spec_max_width() as int, *policy),
        ensures
            final(self).spec_lines() == old(self).spec_lines().update(
                line as int,
                wrap_spec(line_text, old(self).spec_max_width() as int, *policy),
            ),
            final(self).spec_max_width() == old(self).spec_max_width(),
            lines_ordered(final(self).spec_lines()),
    {
        proof {
            use_type_invariant(&*self);
        }
        let w = wrap_line(line_text, self.max_width, policy);
        proof {
            lemma_wrap_points_placed(line_text, self.max_width as int, *policy);
        }
        let mut line_wraps: Vec<Vec<WrapPoint>> = Vec::new();
        std::mem::swap(&mut line_wraps, &mut self.line_wraps);
        let ghost before = line_wraps@;
        line_wraps.set(line as usize, w);
        self.line_wraps = line_wraps;
        proof {
            use_type_invariant(&*self);
            self.lemma_ordered();
        }
        assert(self.spec_lines() =~= old(self).spec_lines().update(
            line as int,
            wrap_spec(line_text, old(self).spec_max_width() as int, *policy),
        ));
    }

    /// Change the column limit and rewrap every line.
    pub fn set_max_width<W: CharWidth, B: BreakRule>(
        &mut self,
        max_width: u32,
        lines: &[&str],
        policy: &WrapPolicy<W, B>,
    )
        requires
            all_wrappable(lines@, max_width as int, *policy),
        ensures
            final(self).spec_lines() == wrapped_lines(lines@, max_width as int, *policy),
            final(self).spec_max_width() == max_width,
            lines_ordered(final(self).spec_lines()),
    {
        let line_wraps = Self::wrap_all(lines, max_width, policy);
        self.line_wraps = line_wraps;
        self.max_width = max_width;
        proof {
            use_type_invariant(&*self);
            self.lemma_ordered();
        }
    }

    /// Replace `removed_count` logical lines from `start_line` on by `new_lines`.
    pub fn splice_lines<W: CharWidth, B: BreakRule>(
        &mut self,
        start_line: u32,
        removed_count: u32,
        new_lines: &[&str],
        policy: &WrapPolicy<W, B>,
    )
        requires
            start_line + removed_count <= old(self).spec_lines().len(),
            all_wrappable(new_lines@, old(self).spec_max_width() as int, *policy),
        ensures
            final(self).spec_lines() == old(self).spec_lines().subrange(0, start_line as int)
                + wrapped_lines(new_lines@, old(self).spec_max_width() as int, *policy)
                + old(self).spec_lines().subrange(
                start_line + removed_count,
                old(self).spec_lines().len() as int,
            ),
            final(self).spec_max_width() == old(self).spec_max_width(),
            lines_ordered(final(self).spec_lines()),
    {
        proof {
            use_type_invariant(&*self);
        }
        assert(self.spec_lines().len() == self.line_wraps@.len());
        let start = start_line as usize;
        let removed = removed_count as usize;
        assert(start == start_line && removed == removed_count);
        let n = self.line_wraps.len();
        assert(start + removed <= n);
        let end = start + removed;
        let replacement = Self::wrap_all(new_lines, self.max_width, policy);
        let mut old_wraps: Vec<Vec<WrapPoint>> = Vec::new();
        std::mem::swap(&mut old_wraps, &mut self.line_wraps);
        let ghost ow = old_wraps@;
        let mut out: Vec<Vec<WrapPoint>> = Vec::new();
        let mut tail = old_wraps.split_off(end);
        let mut mid = old_wraps.split_off(start);
        let mut rep = replacement;
        out.append(&mut old_wraps);
        out.append(&mut rep);
        out.append(&mut tail);
        proof {
            assert(out@ =~= ow.subrange(0, start as int) + replacement@ + ow.subrange(end as int, ow.len() as int));
            assert forall|k: int| 0 <= k < out@.len() implies #[trigger] points_ordered(points_view(out@[k]@)) by {
                if k < start {
                    assert(out@[k] == ow[k]);
                } else if k < start + replacement@.len() {
                    assert(out@[k] == replacement@[k - start]);
                } else {
                    assert(out@[k] == ow[k - start - replacement@.len() + end]);
                }
            }
        }
        self.line_wraps = out;
        proof {
            use_type_invariant(&*self);
            self.lemma_ordered();
        }
        assert(self.spec_lines() =~= old(self).spec_lines().subrange(0, start_line as int)
            + wrapped_lines(new_lines@, old(self).spec_max_width() as int, *policy)
            + old(self).spec_lines().subrange(start_line + removed_count, old(self).spec_lines().len() as int));
    }
}

/// Earlier logical lines start no later on the visual axis.
pub proof fn lemma_visual_before_monotone(lines: Seq<Seq<(int, int)>>, a: int, b: int)
    requires
        0 <= a <= b <= lines.len(),
    ensures
        visual_before(lines, a) <= visual_before(lines, b),
    decreases b - a,
{
    if a < b {
        lemma_visual_before_monotone(lines, a, b - 1);
    }
}

proof fn lemma_visual_before_at_least(lines: Seq<Seq<(int, int)>>, n: int)
    requires
        0 <= n <= lines.len(),
    ensures
        visual_before(lines, n) >= n,
    decreases n,
{
    if n > 0 {
        lemma_visual_before_at_least(lines, n - 1);
    }
}

impl Clone for WrapMap {
    fn clone(&self) -> (r: Self)
        ensures
            r.spec_lines() == self.spec_lines(),
            r.spec_max_width() == self.spec_max_width(),
    {
        proof {
            use_type_invariant(self);
        }
        let mut line_wraps: Vec<Vec<WrapPoint>> = Vec::new();
        let mut k: usize = 0;
        while k < self.line_wraps.len()
            invariant
                0 <= k <= self.line_wraps@.len(),
                self.ordered(),
                line_wraps@.len() == k,
                forall|j: int| 0 <= j < k ==> points_view(#[trigger] line_wraps@[j]@) == points_view(self.line_wraps@[j]@),
            decreases self.line_wraps@.len() - k,
        {
            let src = &self.line_wraps[k];
            let mut copy: Vec<WrapPoint> = Vec::new();
            let mut j: usize = 0;
            while j < src.len()
                invariant
                    0 <= j <= src@.len(),
                    copy@.len() == j,
                    forall|t: int| 0 <= t < j ==> copy@[t] == src@[t],
                decreases src@.len() - j,
            {
                copy.push(src[j]);
                j = j + 1;
            }
            assert(copy@ =~= src@);
            line_wraps.push(copy);
            k = k + 1;
        }
        let r = WrapMap { line_wraps, max_width: self.max_width };
        assert(r.spec_lines() =~= self.spec_lines());
        r
    }
}

// ---------------------------------------------------------------------------
// Coordinate translation laws
// ---------------------------------------------------------------------------

proof fn lemma_leading_count(ws: Seq<(int, int)>, off: int, j: int, m: int)
    requires
        points_ordered(ws),
        0 <= j <= m <= ws.len(),
        forall|t: int| j <= t < m ==> #[trigger] ws[t].0 <= off,
        m == ws.len() || ws[m].0 > off,
    ensures
        leading_at_most(ws, off, j) == m - j,
    decreases m - j,
{
    if j < m {
        lemma_leading_count(ws, off, j + 1, m);
    }
}

/// The count of leading wrap points is bounded by the points left.
pub proof fn lemma_leading_bounded(ws: Seq<(int, int)>, off: int, j: int)
    requires
        0 <= j <= ws.len(),
    ensures
        0 <= leading_at_most(ws, off, j) <= ws.len() - j,
    decreases ws.len() - j,
{
    if j < ws.len() {
        lemma_leading_bounded(ws, off, j + 1);
    }
}

proof fn lemma_locate_from(lines: Seq<Seq<(int, int)>>, v: int, r: int, k: int)
    requires
        lines_ordered(lines),
        0 <= k <= lines.len(),
        r >= 0,
        r + visual_before(lines, k) == v,
        v < visual_before(lines, lines.len() as int),
    ensures
        ({
            let (l, s) = locate(lines, r, k);
            &&& k <= l < lines.len()
            &&& visual_before(lines, l) + leading_at_most(lines[l], s, 0) == v
        }),
    decreases lines.len() - k,
{
    if k == lines.len() {
        assert(false);
    } else if r < lines[k].len() + 1 {
        let ws = lines[k];
        assert(points_ordered(ws));
        if r == 0 {
            lemma_leading_count(ws, 0, 0, 0);
        } else {
            let s = ws[r - 1].0;
            assert forall|t: int| 0 <= t < r implies #[trigger] ws[t].0 <= s by {
                if t < r - 1 {
                    assert(ws[t].0 < ws[r - 1].0);
                }
            }
            if r < ws.len() {
                assert(ws[r - 1].0 < ws[r].0);
            }
            lemma_leading_count(ws, s, 0, r);
        }
    } else {
        lemma_locate_from(lines, v, r - (lines[k].len() + 1), k + 1);
    }
}

/// From a visual line to a logical position and back: every absolute visual
/// line `v` of a document is found at a logical line and start offset, and
/// translating that position back gives `v` again.
pub proof fn lemma_visual_line_round_trip(lines: Seq<Seq<(int, int)>>, v: int)
    requires
        lines_ordered(lines),
        0 <= v < visual_before(lines, lines.len() as int),
    ensures
        ({
            let (l, s) = locate(lines, v, 0);
            &&& 0 <= l < lines.len()
            &&& visual_before(lines, l) + leading_at_most(lines[l], s, 0) == v
        }),
{
    lemma_locate_from(lines, v, v, 0);
}

proof fn lemma_locate_to(lines: Seq<Seq<(int, int)>>, line: int, lead: int, k: int)
    requires
        0 <= k <= line < lines.len(),
        0 <= lead <= lines[line].len(),
    ensures
        locate(lines, visual_before(lines, line) - visual_before(lines, k) + lead, k) == (
            line,
            if lead == 0 {
                0
            } else {
                lines[line][lead - 1].0
            },
        ),
    decreases line - k,
{
    if k < line {
        lemma_visual_before_monotone(lines, k + 1, line);
        lemma_locate_to(lines, line, lead, k + 1);
    }
}

/// From a logical position to a visual line and back: the visual line of byte
/// `off` of logical line `line` is found again at `line`, starting at the
/// last wrap point at or before `off` (or at 0 when there is none).
pub proof fn lemma_logical_position_round_trip(lines: Seq<Seq<(int, int)>>, line: int, off: int)
    requires
        0 <= line < lines.len(),
    ensures
        ({
            let lead = leading_at_most(lines[line], off, 0);
            locate(lines, visual_before(lines, line) + lead, 0) == (
                line,
                if lead == 0 {
                    0
                } else {
                    lines[line][lead - 1].0
                },
            )
        }),
{
    let lead = leading_at_most(lines[line], off, 0);
    lemma_leading_bounded(lines[line], off, 0);
    lemma_locate_to(lines, line, lead, 0);
}

} // verus!

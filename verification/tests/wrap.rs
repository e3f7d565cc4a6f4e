use neco_editor::wrap::{
    wrap_line, BreakOpportunity, BreakRule, CharWidth, CodeBreaks, InlineWidth, LayoutMode,
    LineLayoutPolicy, WidthPolicy, WrapMap, WrapPoint, WrapPolicy,
};

fn points(wraps: &[WrapPoint]) -> Vec<(u32, u32)> {
    wraps
        .iter()
        .map(|w| (w.byte_offset(), w.visual_width()))
        .collect()
}

#[test]
fn wrap_line_basic_wrapping() {
    let wraps = wrap_line("ab cd ef", 4, &WrapPolicy::code());
    assert_eq!(points(&wraps), vec![(3, 3), (6, 6)]);
}

#[test]
fn wrap_line_no_wrap_needed() {
    let wraps = wrap_line("abc", 10, &WrapPolicy::code());
    assert!(wraps.is_empty());
}

#[test]
fn wrap_line_zero_width_disables_wrapping() {
    let wraps = wrap_line("ab cd", 0, &WrapPolicy::code());
    assert!(wraps.is_empty());
}

#[test]
fn wrap_line_cjk_width_is_two() {
    let wraps = wrap_line("あい うえ", 4, &WrapPolicy::code());
    assert_eq!(wraps.len(), 1);
    assert_eq!(wraps[0].byte_offset(), "あい ".len() as u32);
    assert_eq!(wraps[0].visual_width(), 5);
}

#[test]
fn width_policy_can_customize_tab_advance() {
    let width_policy = WidthPolicy::cjk_grid(2);
    assert_eq!(width_policy.text_width("a\tb"), 4);

    let wraps = wrap_line(
        "a\tb c",
        4,
        &WrapPolicy::code_with_width_policy(width_policy),
    );
    assert_eq!(wraps.len(), 1);
    assert_eq!(wraps[0].byte_offset(), "a\tb ".len() as u32);
}

#[derive(Clone, Copy)]
struct LegacyWidth;

impl CharWidth for LegacyWidth {
    fn spec_char_width(&self, ch: char) -> u32 {
        self.char_width(ch)
    }

    fn char_width(&self, ch: char) -> u32 {
        if ch == '\t' {
            7
        } else {
            1
        }
    }
}

#[test]
fn legacy_wrap_policy_new_keeps_tab_width_in_char_width_callback() {
    let policy = WrapPolicy::new(LegacyWidth, CodeBreaks);
    assert_eq!(policy.char_width().char_width('\t'), 7);
    assert_eq!(policy.width_policy().advance_of('\t'), 7);
}

#[test]
fn visual_layout_space_tracks_inline_and_block_advances() {
    let text = "ab cd";
    let map = WrapMap::new(&[text], 3, &WrapPolicy::code());
    let layout = map.visual_layout_space(
        0,
        1,
        text,
        &WrapPolicy::code(),
        &LineLayoutPolicy::horizontal_ltr(),
    );

    assert_eq!(layout.logical_line(), 0);
    assert_eq!(layout.visual_line(), 1);
    assert_eq!(layout.inline_advance(), 2);
    assert_eq!(layout.block_advance(), 1);
    assert_eq!(layout.layout_mode(), LayoutMode::HorizontalLtr);
}

#[derive(Clone, Copy)]
struct JustifyToMax;

impl InlineWidth for JustifyToMax {
    fn spec_redistribute(&self, line_width: u32, max_width: u32) -> u32 {
        self.redistribute(line_width, max_width)
    }

    fn redistribute(&self, _line_width: u32, max_width: u32) -> u32 {
        max_width
    }
}

#[test]
fn line_layout_policy_can_redistribute_inline_width() {
    let text = "ab cd";
    let map = WrapMap::new(&[text], 6, &WrapPolicy::code());
    let layout = map.visual_layout_space(
        0,
        0,
        text,
        &WrapPolicy::code(),
        &LineLayoutPolicy::new(LayoutMode::HorizontalLtr, JustifyToMax),
    );

    assert_eq!(layout.inline_advance(), 6);
    assert_eq!(layout.layout_mode(), LayoutMode::HorizontalLtr);
}

#[test]
fn code_policy_breaks_after_space_and_operator() {
    let policy = WrapPolicy::code();
    let break_opportunity = policy.break_opportunity();

    assert_eq!(break_opportunity.break_opportunity("a + b", 2), BreakOpportunity::Allowed);
    assert_eq!(break_opportunity.break_opportunity("a+b", 2), BreakOpportunity::Allowed);
    assert_eq!(break_opportunity.break_opportunity("ab", 1), BreakOpportunity::Forbidden);
    assert_eq!(break_opportunity.break_opportunity("ab", 0), BreakOpportunity::Forbidden);
}

#[test]
fn japanese_basic_applies_kinsoku() {
    let policy = WrapPolicy::japanese_basic();
    let break_opportunity = policy.break_opportunity();

    assert_eq!(
        break_opportunity.break_opportunity("あい", "あ".len()),
        BreakOpportunity::Allowed
    );
    assert_eq!(
        break_opportunity.break_opportunity("あ。", "あ".len()),
        BreakOpportunity::Forbidden
    );
    assert_eq!(
        break_opportunity.break_opportunity("（あ", "（".len()),
        BreakOpportunity::Forbidden
    );
}

#[test]
fn wrap_map_construction_and_round_trip() {
    let lines = ["ab cd ef", "xyz"];
    let map = WrapMap::new(&lines, 4, &WrapPolicy::code());

    assert_eq!(map.max_width(), 4);
    assert_eq!(map.line_count(), 2);
    assert_eq!(map.visual_line_count(0), 3);
    assert_eq!(map.visual_line_count(1), 1);
    assert_eq!(map.total_visual_lines(), 4);
    assert_eq!(map.to_visual_line(0, 0), 0);
    assert_eq!(map.to_visual_line(0, 3), 1);
    assert_eq!(map.to_visual_line(1, 0), 3);
    assert_eq!(map.from_visual_line(0), (0, 0));
    assert_eq!(map.from_visual_line(1), (0, 3));
    assert_eq!(map.from_visual_line(3), (1, 0));
    let segments: Vec<(u32, u32)> = map
        .visual_lines(0, lines[0].len() as u32)
        .iter()
        .map(|v| (v.start(), v.end()))
        .collect();
    assert_eq!(segments, vec![(0, 3), (3, 6), (6, lines[0].len() as u32)]);
}

#[test]
fn wrap_map_rewrap_line_updates_points() {
    let lines = ["ab cd", "xy z"];
    let mut map = WrapMap::new(&lines, 3, &WrapPolicy::code());
    assert_eq!(map.visual_line_count(0), 2);

    map.rewrap_line(0, "abcd", &WrapPolicy::code());
    assert_eq!(map.wrap_points(0), &[]);
    assert_eq!(map.visual_line_count(0), 1);
}

#[test]
fn wrap_map_splice_lines_replaces_range() {
    let lines = ["ab cd", "xy z"];
    let mut map = WrapMap::new(&lines, 3, &WrapPolicy::code());

    map.splice_lines(1, 1, &["12 34", "p q"], &WrapPolicy::code());

    assert_eq!(map.line_count(), 3);
    assert_eq!(map.visual_line_count(1), 2);
    assert_eq!(map.visual_line_count(2), 1);
}

#[test]
fn wrap_map_set_max_width_recomputes_all_lines() {
    let lines = ["ab cd", "xy z"];
    let mut map = WrapMap::new(&lines, 10, &WrapPolicy::code());
    assert_eq!(map.total_visual_lines(), 2);

    map.set_max_width(3, &lines, &WrapPolicy::code());
    assert_eq!(map.max_width(), 3);
    assert_eq!(map.total_visual_lines(), 4);
}

#[test]
fn wrap_points_are_increasing_char_boundaries() {
    let text = "あいうえお かきくけこ さしすせそ";
    let wraps = wrap_line(text, 5, &WrapPolicy::japanese_basic());
    let mut prev = 0u32;
    for w in &wraps {
        assert!(w.byte_offset() > prev);
        assert!(text.is_char_boundary(w.byte_offset() as usize));
        prev = w.byte_offset();
    }
    assert!(!wraps.is_empty());
}

#[test]
fn visual_line_round_trip_over_document() {
    let lines = ["ab cd ef gh", "x", "12 34 56"];
    let map = WrapMap::new(&lines, 3, &WrapPolicy::code());
    for v in 0..map.total_visual_lines() {
        let (line, start) = map.from_visual_line(v);
        assert_eq!(map.to_visual_line(line, start), v);
    }
}

#[test]
fn monospace_policy_counts_every_char_once() {
    let width = WidthPolicy::monospace_ascii(8);
    assert_eq!(width.text_width("あい"), 2);
    assert_eq!(width.text_width("\t"), 8);
    assert_eq!(width.tab_width(), Some(8));
}

#[derive(Clone, Copy)]
struct EveryComma;

impl BreakRule for EveryComma {
    fn spec_break_opportunity(&self, line_text: &str, byte_offset: usize) -> BreakOpportunity {
        self.break_opportunity(line_text, byte_offset)
    }

    fn break_opportunity(&self, line_text: &str, byte_offset: usize) -> BreakOpportunity {
        if byte_offset > 0
            && byte_offset < line_text.len()
            && &line_text[byte_offset - 1..byte_offset] == ","
        {
            BreakOpportunity::Mandatory
        } else {
            BreakOpportunity::Forbidden
        }
    }
}

#[test]
fn mandatory_break_rule_forces_wrap() {
    let policy = WrapPolicy::with_width_policy(WidthPolicy::monospace_ascii(4), EveryComma);
    let wraps = wrap_line("a,b,c", 100, &policy);
    assert_eq!(points(&wraps), vec![(2, 2), (4, 4)]);
}

#[test]
fn visual_line_len_and_emptiness() {
    let map = WrapMap::new(&["ab cd"], 3, &WrapPolicy::code());
    let segments = map.visual_lines(0, 5);
    assert_eq!(segments.len(), 2);
    assert_eq!(segments[0].len(), 3);
    assert!(!segments[0].is_empty());
    let tail = map.visual_lines(0, 3);
    assert!(tail[1].is_empty());
}

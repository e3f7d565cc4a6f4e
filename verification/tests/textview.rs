use neco_editor::textview::{
    LineIndex, Position, RangeChange, Selection, TextRange, TextViewError, Utf16Mapping,
};

#[test]
fn position_new() {
    let p = Position::new(3, 7);
    assert_eq!(p.line(), 3);
    assert_eq!(p.column(), 7);
}

#[test]
fn text_range_new_ok() {
    let r = TextRange::new(2, 5).unwrap();
    assert_eq!(r.start(), 2);
    assert_eq!(r.end(), 5);
    assert_eq!(r.len(), 3);
    assert!(!r.is_empty());
}

#[test]
fn text_range_new_reversed() {
    let err = TextRange::new(5, 2).unwrap_err();
    assert_eq!(err, TextViewError::InvalidRange { start: 5, end: 2 });
}

#[test]
fn text_range_empty() {
    let r = TextRange::empty(10);
    assert_eq!(r.start(), 10);
    assert_eq!(r.end(), 10);
    assert!(r.is_empty());
    assert_eq!(r.len(), 0);
}

#[test]
fn text_range_contains() {
    let r = TextRange::new(2, 5).unwrap();
    assert!(r.contains(2));
    assert!(r.contains(4));
    assert!(!r.contains(5));
    assert!(!r.contains(1));
}

#[test]
fn text_range_intersects() {
    let a = TextRange::new(2, 5).unwrap();
    let b = TextRange::new(4, 8).unwrap();
    let c = TextRange::new(5, 8).unwrap();
    assert!(a.intersects(&b));
    assert!(!a.intersects(&c));
    let e1 = TextRange::empty(3);
    let e2 = TextRange::empty(3);
    assert!(!e1.intersects(&e2));
}

#[test]
fn range_change_new() {
    let change = RangeChange::new(2, 5, 8);
    assert_eq!(change.start(), 2);
    assert_eq!(change.old_end(), 5);
    assert_eq!(change.new_end(), 8);
}

#[test]
fn range_change_start() {
    let change = RangeChange::new(3, 7, 9);
    assert_eq!(change.start(), 3);
}

#[test]
fn range_change_old_end() {
    let change = RangeChange::new(3, 7, 9);
    assert_eq!(change.old_end(), 7);
}

#[test]
fn range_change_new_end() {
    let change = RangeChange::new(3, 7, 9);
    assert_eq!(change.new_end(), 9);
}

#[test]
fn selection_cursor() {
    let s = Selection::cursor(5);
    assert!(s.is_cursor());
    assert_eq!(s.anchor(), 5);
    assert_eq!(s.head(), 5);
    assert!(s.is_forward());
    let r = s.range();
    assert!(r.is_empty());
}

#[test]
fn selection_forward() {
    let s = Selection::new(2, 8);
    assert!(!s.is_cursor());
    assert!(s.is_forward());
    let r = s.range();
    assert_eq!(r.start(), 2);
    assert_eq!(r.end(), 8);
}

#[test]
fn selection_backward() {
    let s = Selection::new(8, 2);
    assert!(!s.is_cursor());
    assert!(!s.is_forward());
    let r = s.range();
    assert_eq!(r.start(), 2);
    assert_eq!(r.end(), 8);
}

#[test]
fn line_index_empty_text() {
    let text = "";
    let idx = LineIndex::new(text);
    assert_eq!(idx.line_count(), 1);
    assert_eq!(idx.text_len(), 0);

    let pos = idx.offset_to_position(text, 0).unwrap();
    assert_eq!(pos, Position::new(0, 0));

    let off = idx.position_to_offset(text, Position::new(0, 0)).unwrap();
    assert_eq!(off, 0);
}

#[test]
fn line_index_single_line() {
    let text = "hello";
    let idx = LineIndex::new(text);
    assert_eq!(idx.line_count(), 1);
    assert_eq!(idx.text_len(), 5);

    let pos = idx.offset_to_position(text, 3).unwrap();
    assert_eq!(pos, Position::new(0, 3));

    let off = idx.position_to_offset(text, pos).unwrap();
    assert_eq!(off, 3);

    let pos_end = idx.offset_to_position(text, 5).unwrap();
    assert_eq!(pos_end, Position::new(0, 5));
}

#[test]
fn line_index_multi_line() {
    let text = "abc\ndef\nghi";
    let idx = LineIndex::new(text);
    assert_eq!(idx.line_count(), 3);
    assert_eq!(idx.text_len(), 11);

    let pos = idx.offset_to_position(text, 4).unwrap();
    assert_eq!(pos, Position::new(1, 0));
    let off = idx.position_to_offset(text, pos).unwrap();
    assert_eq!(off, 4);

    let pos2 = idx.offset_to_position(text, 9).unwrap();
    assert_eq!(pos2, Position::new(2, 1));
    let off2 = idx.position_to_offset(text, pos2).unwrap();
    assert_eq!(off2, 9);
}

#[test]
fn line_index_multibyte() {
    let text = "あいう\nえお";
    let idx = LineIndex::new(text);
    assert_eq!(idx.line_count(), 2);

    let pos = idx.offset_to_position(text, 10).unwrap();
    assert_eq!(pos, Position::new(1, 0));
    let off = idx.position_to_offset(text, pos).unwrap();
    assert_eq!(off, 10);

    let pos2 = idx.offset_to_position(text, 3).unwrap();
    assert_eq!(pos2, Position::new(0, 3));
    let off2 = idx.position_to_offset(text, pos2).unwrap();
    assert_eq!(off2, 3);
}

#[test]
fn line_index_roundtrip() {
    let text = "hello\nworld\n";
    let idx = LineIndex::new(text);

    for offset in 0..=text.len() {
        if text.is_char_boundary(offset) {
            let pos = idx.offset_to_position(text, offset).unwrap();
            let back = idx.position_to_offset(text, pos).unwrap();
            assert_eq!(back, offset, "roundtrip failed at offset {offset}");
        }
    }
}

#[test]
fn line_index_offset_out_of_bounds() {
    let text = "abc";
    let idx = LineIndex::new(text);
    let err = idx.offset_to_position(text, 10).unwrap_err();
    assert_eq!(err, TextViewError::OffsetOutOfBounds { offset: 10, len: 3 });
}

#[test]
fn line_index_line_out_of_bounds() {
    let text = "abc\ndef";
    let idx = LineIndex::new(text);
    let err = idx.line_range(5).unwrap_err();
    assert_eq!(
        err,
        TextViewError::LineOutOfBounds {
            line: 5,
            line_count: 2
        }
    );
}

#[test]
fn line_index_invalid_utf8_boundary() {
    let text = "あ";
    let idx = LineIndex::new(text);
    let err = idx.offset_to_position(text, 1).unwrap_err();
    assert_eq!(err, TextViewError::InvalidUtf8Boundary { offset: 1 });
}

#[test]
fn line_index_line_range() {
    let text = "abc\ndef\n";
    let idx = LineIndex::new(text);

    let r0 = idx.line_range(0).unwrap();
    assert_eq!(r0.start(), 0);
    assert_eq!(r0.end(), 3);

    let r1 = idx.line_range(1).unwrap();
    assert_eq!(r1.start(), 4);
    assert_eq!(r1.end(), 7);

    let r2 = idx.line_range(2).unwrap();
    assert_eq!(r2.start(), 8);
    assert_eq!(r2.end(), 8);

    let rn0 = idx.line_range_with_newline(0).unwrap();
    assert_eq!(rn0.start(), 0);
    assert_eq!(rn0.end(), 4);

    let rn1 = idx.line_range_with_newline(1).unwrap();
    assert_eq!(rn1.start(), 4);
    assert_eq!(rn1.end(), 8);
}

#[test]
fn line_index_line_of_offset() {
    let text = "abc\ndef\nghi";
    let idx = LineIndex::new(text);
    assert_eq!(idx.line_of_offset(0).unwrap(), 0);
    assert_eq!(idx.line_of_offset(3).unwrap(), 0);
    assert_eq!(idx.line_of_offset(4).unwrap(), 1);
    assert_eq!(idx.line_of_offset(8).unwrap(), 2);
    assert_eq!(idx.line_of_offset(11).unwrap(), 2);
}

#[test]
fn utf16_mapping_ascii() {
    let text = "hello world";
    let m = Utf16Mapping::new(text);

    for i in 0..=text.len() {
        assert_eq!(m.byte_to_utf16(i).unwrap(), i);
        assert_eq!(m.utf16_to_byte(i).unwrap(), i);
    }
}

#[test]
fn utf16_mapping_japanese() {
    let text = "aあb";
    let m = Utf16Mapping::new(text);

    assert_eq!(m.byte_to_utf16(0).unwrap(), 0);
    assert_eq!(m.byte_to_utf16(1).unwrap(), 1);
    assert!(m.byte_to_utf16(2).is_err());
    assert!(m.byte_to_utf16(3).is_err());
    assert_eq!(m.byte_to_utf16(4).unwrap(), 2);
    assert_eq!(m.byte_to_utf16(5).unwrap(), 3);

    assert_eq!(m.utf16_to_byte(0).unwrap(), 0);
    assert_eq!(m.utf16_to_byte(1).unwrap(), 1);
    assert_eq!(m.utf16_to_byte(2).unwrap(), 4);
    assert_eq!(m.utf16_to_byte(3).unwrap(), 5);
}

#[test]
fn utf16_mapping_surrogate_pair() {
    let text = "a😀b";
    let m = Utf16Mapping::new(text);

    assert_eq!(m.byte_to_utf16(0).unwrap(), 0);
    assert_eq!(m.byte_to_utf16(1).unwrap(), 1);
    assert!(m.byte_to_utf16(2).is_err());
    assert!(m.byte_to_utf16(3).is_err());
    assert!(m.byte_to_utf16(4).is_err());
    assert_eq!(m.byte_to_utf16(5).unwrap(), 3);
    assert_eq!(m.byte_to_utf16(6).unwrap(), 4);

    assert_eq!(m.utf16_to_byte(0).unwrap(), 0);
    assert_eq!(m.utf16_to_byte(1).unwrap(), 1);
    assert!(m.utf16_to_byte(2).is_err());
    assert_eq!(m.utf16_to_byte(3).unwrap(), 5);
    assert_eq!(m.utf16_to_byte(4).unwrap(), 6);
}

#[test]
fn utf16_mapping_roundtrip() {
    let text = "Hello あいう 😀🎉 world";
    let m = Utf16Mapping::new(text);

    let mut byte_off = 0;
    for ch in text.chars() {
        let u16_off = m.byte_to_utf16(byte_off).unwrap();
        let back = m.utf16_to_byte(u16_off).unwrap();
        assert_eq!(back, byte_off, "roundtrip failed at byte {byte_off}");
        byte_off += ch.len_utf8();
    }
    let u16_end = m.byte_to_utf16(byte_off).unwrap();
    let back_end = m.utf16_to_byte(u16_end).unwrap();
    assert_eq!(back_end, byte_off);
}

#[test]
fn utf16_mapping_out_of_bounds() {
    let text = "abc";
    let m = Utf16Mapping::new(text);

    assert!(m.byte_to_utf16(10).is_err());
    assert!(m.utf16_to_byte(10).is_err());
}

#[test]
fn error_display() {
    let e = TextViewError::InvalidRange { start: 5, end: 2 };
    let s = e.message();
    assert!(s.contains("5"));
    assert!(s.contains("2"));
}

#[test]
fn utf16_mapping_empty_text() {
    let m = Utf16Mapping::new("");
    assert_eq!(m.byte_to_utf16(0).unwrap(), 0);
    assert_eq!(m.utf16_to_byte(0).unwrap(), 0);
    assert_eq!(
        m.byte_to_utf16(1),
        Err(TextViewError::OffsetOutOfBounds { offset: 1, len: 0 })
    );
    assert_eq!(
        m.utf16_to_byte(1),
        Err(TextViewError::Utf16OffsetOutOfBounds { offset: 1, total: 0 })
    );
}

#[test]
fn utf16_mapping_errors_name_the_offset() {
    let m = Utf16Mapping::new("é😀");
    assert_eq!(
        m.byte_to_utf16(1),
        Err(TextViewError::InvalidUtf8Boundary { offset: 1 })
    );
    assert_eq!(m.byte_to_utf16(2).unwrap(), 1);
    assert_eq!(m.byte_to_utf16(6).unwrap(), 3);
    assert_eq!(
        m.utf16_to_byte(2),
        Err(TextViewError::Utf16OffsetOutOfBounds { offset: 2, total: 3 })
    );
    assert_eq!(m.utf16_to_byte(3).unwrap(), 6);
}

#[test]
fn error_messages_are_exact() {
    assert_eq!(
        TextViewError::InvalidRange { start: 5, end: 2 }.message(),
        "invalid range: start 5 > end 2"
    );
    assert_eq!(
        TextViewError::OffsetOutOfBounds { offset: 9, len: 3 }.message(),
        "offset 9 out of bounds (len 3)"
    );
    assert_eq!(
        TextViewError::InvalidUtf8Boundary { offset: 1 }.message(),
        "offset 1 is not on a UTF-8 char boundary"
    );
    assert_eq!(
        TextViewError::LineOutOfBounds { line: 4, line_count: 2 }.message(),
        "line 4 out of bounds (line_count 2)"
    );
    assert_eq!(
        TextViewError::Utf16OffsetOutOfBounds { offset: 7, total: 6 }.message(),
        "UTF-16 offset 7 out of bounds (total 6)"
    );
}

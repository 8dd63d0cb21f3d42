use code_forge::rope::{RopeBridge, TextDirection};

fn bridge(text: &str) -> RopeBridge {
    RopeBridge::create(text.to_string())
}

#[test]
fn create_holds_text_and_empty_selection() {
    let b = bridge("hello\nworld");
    assert_eq!(b.get_text(), "hello\nworld");
    assert_eq!(b.len_chars(), 11);
    let s = b.selection();
    assert_eq!((s.base_offset, s.extent_offset), (0, 0));
}

#[test]
fn set_selection_clamps_to_text() {
    let mut b = bridge("abc");
    b.set_selection(2, 10);
    let s = b.selection();
    assert_eq!((s.base_offset, s.extent_offset), (2, 3));
}

#[test]
fn replace_collapses_selection_after_replacement() {
    let mut b = bridge("hello world");
    let s = b.replace_range_and_update_selection(6, 11, "there".to_string(), false, 0, 0);
    assert_eq!(b.get_text(), "hello there");
    assert_eq!((s.base_offset, s.extent_offset), (11, 11));
    let stored = b.selection();
    assert_eq!((stored.base_offset, stored.extent_offset), (11, 11));
}

#[test]
fn replace_measures_replacement_in_bytes() {
    let mut b = bridge("abc");
    let s = b.replace_range_and_update_selection(1, 1, "é".to_string(), false, 0, 0);
    assert_eq!(b.get_text(), "aébc");
    assert_eq!((s.base_offset, s.extent_offset), (3, 3));
}

#[test]
fn replace_preserving_cursor_maps_old_offsets() {
    let mut b = bridge("abcdef");
    let s = b.replace_range_and_update_selection(1, 3, "XYZW".to_string(), true, 5, 2);
    assert_eq!(b.get_text(), "aXYZWdef");
    assert_eq!((s.base_offset, s.extent_offset), (7, 2));
}

#[test]
fn replace_preserving_cursor_keeps_offsets_before_edit() {
    let mut b = bridge("abcdef");
    let s = b.replace_range_and_update_selection(3, 5, "".to_string(), true, 1, 6);
    assert_eq!(b.get_text(), "abcf");
    assert_eq!((s.base_offset, s.extent_offset), (1, 4));
}

#[test]
fn replace_clamps_out_of_range_edits() {
    let mut b = bridge("abc");
    let s = b.replace_range_and_update_selection(10, 2, "!".to_string(), false, 0, 0);
    assert_eq!(b.get_text(), "abc!");
    assert_eq!((s.base_offset, s.extent_offset), (4, 4));
}

#[test]
fn insert_then_remove_restores_text() {
    let mut b = bridge("hello");
    b.insert(2, "XY".to_string());
    assert_eq!(b.get_text(), "heXYllo");
    assert_eq!(b.slice(2, 4), "XY");
    b.remove(2, 4);
    assert_eq!(b.get_text(), "hello");
}

#[test]
fn slice_clamps_its_range() {
    let b = bridge("hello");
    assert_eq!(b.slice(1, 3), "el");
    assert_eq!(b.slice(3, 100), "lo");
    assert_eq!(b.slice(4, 1), "");
    assert_eq!(b.slice(9, 12), "");
}

#[test]
fn lines_follow_rope_line_breaks() {
    let b = bridge("a\r\nbc\nd");
    assert_eq!(b.len_lines(), 3);
    assert_eq!(b.line(0), "a");
    assert_eq!(b.line(1), "bc");
    assert_eq!(b.line(2), "d");
    assert_eq!(b.line(7), "d");
    assert_eq!(b.line_to_char(1), 3);
    assert_eq!(b.line_to_char(2), 6);
    assert_eq!(b.line_to_char(99), 6);
    assert_eq!(b.char_to_line(0), 0);
    assert_eq!(b.char_to_line(2), 0);
    assert_eq!(b.char_to_line(3), 1);
    assert_eq!(b.char_to_line(100), 2);
}

#[test]
fn trailing_line_break_makes_an_empty_last_line() {
    let b = bridge("x\n");
    assert_eq!(b.len_lines(), 2);
    assert_eq!(b.line(1), "");
    assert_eq!(b.cached_lines(), vec!["x".to_string(), "".to_string()]);
}

#[test]
fn lone_carriage_return_ends_a_line_but_is_kept() {
    let b = bridge("a\rb");
    assert_eq!(b.len_lines(), 2);
    assert_eq!(b.line(0), "a\r");
}

#[test]
fn char_at_gives_one_character_or_nothing() {
    let b = bridge("añb");
    assert_eq!(b.char_at(1), "ñ");
    assert_eq!(b.char_at(3), "");
}

#[test]
fn copy_is_independent() {
    let mut b = bridge("abc");
    b.set_selection(1, 2);
    let c = b.copy();
    b.insert(0, "zz".to_string());
    assert_eq!(c.get_text(), "abc");
    let s = c.selection();
    assert_eq!((s.base_offset, s.extent_offset), (1, 2));
}

#[test]
fn cached_lines_range_clamps() {
    let b = bridge("l0\nl1\nl2\nl3");
    assert_eq!(b.cached_lines_range(1, 3), vec!["l1".to_string(), "l2".to_string()]);
    assert_eq!(b.cached_lines_range(3, 10), vec!["l3".to_string()]);
    assert_eq!(b.cached_lines_range(3, 1), Vec::<String>::new());
}

#[test]
fn find_line_start_and_end() {
    let b = bridge("ab\r\ncd\nef");
    assert_eq!(b.find_line_start(1), 0);
    assert_eq!(b.find_line_end(1), 2);
    assert_eq!(b.find_line_start(5), 4);
    assert_eq!(b.find_line_end(5), 6);
    assert_eq!(b.find_line_start(100), 7);
    assert_eq!(b.find_line_end(100), 9);
    // the LF of a CR LF belongs to the line that it ends
    assert_eq!(b.find_line_end(3), 2);
}

#[test]
fn directions_of_the_text() {
    assert_eq!(bridge("hello").primary_direction(), TextDirection::Ltr);
    assert_eq!(bridge("שלום a").primary_direction(), TextDirection::Rtl);
    assert_eq!(bridge("ab שלום cd").primary_direction(), TextDirection::Ltr);
    assert_eq!(bridge("123 !").primary_direction(), TextDirection::Ltr);
    assert_eq!(bridge("hello").text_direction(), TextDirection::Ltr);
    assert_eq!(bridge("مرحبا").text_direction(), TextDirection::Rtl);
    assert_eq!(bridge("hi مرحبا").text_direction(), TextDirection::Mixed);
    assert_eq!(bridge("42").text_direction(), TextDirection::Ltr);
}

#[test]
fn bidi_segments_split_on_direction_changes() {
    let b = bridge("abc אבג def");
    let segs = b.get_bidi_segments_in_range(0, 100);
    let got: Vec<(usize, usize, TextDirection)> =
        segs.iter().map(|s| (s.start, s.end, s.direction)).collect();
    assert_eq!(
        got,
        vec![
            (0, 4, TextDirection::Ltr),
            (4, 8, TextDirection::Rtl),
            (8, 11, TextDirection::Ltr)
        ]
    );
}

#[test]
fn bidi_segments_skip_leading_neutrals_and_empty_ranges() {
    let b = bridge("  12 ab");
    let segs = b.get_bidi_segments_in_range(0, 7);
    assert_eq!(segs.len(), 1);
    assert_eq!((segs[0].start, segs[0].end, segs[0].direction), (5, 7, TextDirection::Ltr));
    assert!(b.get_bidi_segments_in_range(4, 2).is_empty());
    assert!(bridge("123").get_bidi_segments_in_range(0, 3).is_empty());
}

#[test]
fn bidi_segments_for_a_line_include_its_break() {
    let b = bridge("ab\nאב\n");
    let segs = b.get_bidi_segments_for_line(1);
    assert_eq!(segs.len(), 1);
    assert_eq!((segs[0].start, segs[0].end, segs[0].direction), (3, 6, TextDirection::Rtl));
    let last = b.get_bidi_segments_for_line(50);
    assert!(last.is_empty());
}

#[test]
fn unicode_line_breaks_end_lines() {
    let b = bridge("a\u{2028}b\u{0B}c\u{85}d");
    assert_eq!(b.len_lines(), 4);
    assert_eq!(b.line(0), "a\u{2028}");
    assert_eq!(b.line_to_char(3), 6);
    assert_eq!(b.char_to_line(2), 1);
    assert_eq!(b.find_line_end(0), 2);
}

#[test]
fn set_selection_does_not_touch_text_and_insert_keeps_selection() {
    let mut b = bridge("abc");
    b.set_selection(1, 1);
    b.insert(3, "d".to_string());
    let s = b.selection();
    assert_eq!((s.base_offset, s.extent_offset), (1, 1));
    assert_eq!(b.get_text(), "abcd");
}

#[test]
fn replacing_back_undoes_a_replacement() {
    let original = "hello wide world";
    let mut b = bridge(original);
    let removed = b.slice(6, 10);
    b.replace_range_and_update_selection(6, 10, "narrow".to_string(), false, 0, 0);
    assert_eq!(b.get_text(), "hello narrow world");
    b.replace_range_and_update_selection(6, 6 + "narrow".chars().count(), removed, true, 3, 3);
    assert_eq!(b.get_text(), original);
}

#[test]
fn bidi_runs_start_at_the_first_directed_character_and_hold_one_direction() {
    let b = bridge("12, אב 3 cd");
    let segs = b.get_bidi_segments_in_range(0, 100);
    let got: Vec<(usize, usize, TextDirection)> =
        segs.iter().map(|s| (s.start, s.end, s.direction)).collect();
    assert_eq!(got, vec![(4, 9, TextDirection::Rtl), (9, 11, TextDirection::Ltr)]);
}

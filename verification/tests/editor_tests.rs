use code_forge::direction::{is_ltr_char, is_rtl_char};
use code_forge::editor::{
    folds_compute_all, folds_find_matching_bracket, guides_compute_viewport, words_extract,
};
use code_forge::markup::{
    contains_same_tag_closing, contains_same_tag_opening, extract_opening_tag_name,
};
use code_forge::rope::RopeBridge;

fn bridge(text: &str) -> RopeBridge {
    RopeBridge::create(text.to_string())
}

fn guides(text: &str, first: usize, last: usize, tab: usize) -> Vec<(i32, i32, i32, i32)> {
    guides_compute_viewport(&bridge(text), first, last, tab)
        .iter()
        .map(|g| (g.start_line, g.end_line, g.indent_level, g.leading_spaces))
        .collect()
}

#[test]
fn folds_pair_brackets_on_different_lines() {
    let b = bridge("fn a() {\n  let v = [\n    1,\n  ];\n}\n");
    let folds: Vec<(i32, i32)> =
        folds_compute_all(&b).iter().map(|f| (f.start_line, f.end_line)).collect();
    assert_eq!(folds, vec![(1, 3), (0, 4)]);
}

#[test]
fn folds_ignore_mismatched_brackets() {
    let b = bridge("(\n]\n");
    assert!(folds_compute_all(&b).is_empty());
    let b = bridge("}\n{\n}");
    let folds: Vec<(i32, i32)> =
        folds_compute_all(&b).iter().map(|f| (f.start_line, f.end_line)).collect();
    assert_eq!(folds, vec![(1, 2)]);
}

#[test]
fn matching_bracket_both_ways() {
    let b = bridge("f(a[1], {x})");
    assert_eq!(folds_find_matching_bracket(&b, 1), 11);
    assert_eq!(folds_find_matching_bracket(&b, 11), 1);
    assert_eq!(folds_find_matching_bracket(&b, 3), 5);
    assert_eq!(folds_find_matching_bracket(&b, 8), 10);
    assert_eq!(folds_find_matching_bracket(&b, 0), -1);
    assert_eq!(folds_find_matching_bracket(&b, -3), -1);
    assert_eq!(folds_find_matching_bracket(&b, 100), -1);
    assert_eq!(folds_find_matching_bracket(&bridge("((x)"), 0), -1);
}

#[test]
fn guide_for_a_braced_block() {
    assert_eq!(guides("fn a() {\n    x\n}\n", 0, 10, 4), vec![(0, 3, 0, 0)]);
}

#[test]
fn guide_for_an_indented_block_after_a_colon() {
    assert_eq!(guides("if x:\n    a\n\n    b\nc\n", 0, 10, 4), vec![(0, 4, 0, 0)]);
}

#[test]
fn guide_for_a_markup_tag() {
    assert_eq!(guides("<div>\n  <p>x</p>\n</div>\n", 0, 10, 2), vec![(0, 3, 0, 0)]);
}

#[test]
fn guide_counts_tabs_and_nests() {
    let text = "a {\n\tb {\n\t\tc\n\t}\n}\n";
    assert_eq!(guides(text, 0, 10, 4), vec![(0, 5, 0, 0), (1, 4, 1, 4)]);
}

#[test]
fn guides_skip_blocks_of_one_line() {
    assert!(guides("a {}\nb\n", 0, 10, 4).is_empty());
    assert!(guides("x:\ny\n", 0, 10, 4).is_empty());
}

#[test]
fn guides_respect_the_viewport() {
    let text = "a {\n  b\n}\nc {\n  d\n}\n";
    assert_eq!(guides(text, 3, 5, 2), vec![(0, 3, 0, 0), (3, 6, 0, 0)]);
    assert_eq!(guides(text, 0, 1, 2), vec![(0, 3, 0, 0)]);
    assert_eq!(guides(text, 5, 1, 2), vec![(0, 3, 0, 0)]);
}

#[test]
fn opening_tag_names() {
    assert_eq!(extract_opening_tag_name("<div class=\"a\">"), Some("div".to_string()));
    assert_eq!(extract_opening_tag_name("  <my-tag:x>  "), Some("my-tag:x".to_string()));
    assert_eq!(extract_opening_tag_name("<br/>"), None);
    assert_eq!(extract_opening_tag_name("<!-- note -->"), None);
    assert_eq!(extract_opening_tag_name("<1>"), None);
    assert_eq!(extract_opening_tag_name("a > b"), None);
    assert_eq!(extract_opening_tag_name("<"), None);
    assert_eq!(extract_opening_tag_name("<a>"), Some("a".to_string()));
}

#[test]
fn tag_openings_and_closings() {
    assert!(contains_same_tag_opening("<div>", "div"));
    assert!(!contains_same_tag_opening("<div></div>", "div"));
    assert!(!contains_same_tag_opening("<div/>", "div"));
    assert!(!contains_same_tag_opening("<span>", "div"));
    assert!(contains_same_tag_closing("</div>", "div"));
    assert!(!contains_same_tag_closing("<div>", "div"));
}

#[test]
fn direction_classes() {
    assert!(is_rtl_char('א'));
    assert!(is_rtl_char('م'));
    assert!(is_rtl_char('\u{200F}'));
    assert!(!is_rtl_char('a'));
    assert!(is_ltr_char('a'));
    assert!(is_ltr_char('Z'));
    assert!(is_ltr_char('Ж'));
    assert!(is_ltr_char('\u{200E}'));
    assert!(!is_ltr_char('1'));
    assert!(!is_ltr_char(' '));
}

#[test]
fn words_are_listed_once() {
    let b = bridge("foo bar foo_1 bar\nfoo(baz)");
    let mut words = words_extract(&b);
    words.sort();
    assert_eq!(
        words,
        vec!["bar".to_string(), "baz".to_string(), "foo".to_string(), "foo_1".to_string()]
    );
}

#[test]
fn words_include_unicode_letters() {
    let b = bridge("ñandú, x");
    let mut words = words_extract(&b);
    words.sort();
    assert_eq!(words, vec!["x".to_string(), "ñandú".to_string()]);
    assert!(words_extract(&bridge("  ,; ")).is_empty());
}

#[test]
fn matching_bracket_answers_round_trip() {
    let b = bridge("a(b(c)[d]{e(f)})g");
    for target in 0..17 {
        let q = folds_find_matching_bracket(&b, target);
        if q >= 0 {
            assert_eq!(folds_find_matching_bracket(&b, q as i32), target as i64);
        }
    }
    assert_eq!(folds_find_matching_bracket(&b, 1), 15);
    assert_eq!(folds_find_matching_bracket(&b, 3), 5);
    assert_eq!(folds_find_matching_bracket(&b, 9), 14);
}

#[test]
fn folds_run_between_the_lines_of_their_brackets() {
    let b = bridge("(\n[\n]\n\n)\n{ }\n");
    let folds: Vec<(i32, i32)> =
        folds_compute_all(&b).iter().map(|f| (f.start_line, f.end_line)).collect();
    assert_eq!(folds, vec![(1, 2), (0, 4)]);
}

#[test]
fn unicode_white_space_is_trimmed() {
    assert_eq!(guides("f {\u{00A0}\u{3000}\n    x\n}\n", 0, 10, 4), vec![(0, 3, 0, 0)]);
    assert_eq!(extract_opening_tag_name("\u{2003}<p>\u{205F}"), Some("p".to_string()));
    assert!(guides("f {\u{00A0}x\n    y\n}\n", 0, 10, 4).is_empty());
}

#[test]
fn nested_tags_of_one_name_close_in_order() {
    let text = "<div>\n  <div>\n    x\n  </div>\n</div>\n";
    assert_eq!(guides(text, 0, 10, 2), vec![(0, 5, 0, 0), (1, 4, 1, 2)]);
}

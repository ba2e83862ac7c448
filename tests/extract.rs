use mdbook_webinclude::{take_anchored_lines, take_lines, LineRange};

#[test]
fn full_range_keeps_text() {
    let t = "one\ntwo\nthree";
    assert_eq!(take_lines(t, LineRange::Full), t);
}

#[test]
fn full_range_drops_final_newline() {
    assert_eq!(take_lines("one\ntwo\n", LineRange::Full), "one\ntwo");
}

#[test]
fn full_range_of_empty_text() {
    assert_eq!(take_lines("", LineRange::Full), "");
}

#[test]
fn inverted_range_is_empty() {
    assert_eq!(take_lines("a\nb\nc\nd", LineRange::Bounded(3, 1)), "");
    assert_eq!(take_lines("a\nb\nc\nd", LineRange::Bounded(2, 2)), "");
}

#[test]
fn bounded_range_selects_lines() {
    assert_eq!(take_lines("a\nb\nc\nd", LineRange::Bounded(1, 3)), "b\nc");
}

#[test]
fn range_clamped_to_text() {
    assert_eq!(take_lines("a\nb\nc", LineRange::Bounded(1, 40)), "b\nc");
    assert_eq!(take_lines("a\nb\nc", LineRange::From(7)), "");
    assert_eq!(take_lines("a\nb\nc", LineRange::From(2)), "c");
    assert_eq!(take_lines("a\nb\nc", LineRange::To(2)), "a\nb");
}

#[test]
fn carriage_returns_before_newlines_dropped() {
    assert_eq!(take_lines("a\r\nb\r\n", LineRange::Full), "a\nb");
}

#[test]
fn anchor_block_taken() {
    let t = "x\nANCHOR: foo\nA\nB\nANCHOR_END: foo\ny";
    assert_eq!(take_anchored_lines(t, "foo"), "A\nB");
}

#[test]
fn anchor_missing_gives_empty() {
    assert_eq!(take_anchored_lines("x\nANCHOR: foo\nA\nANCHOR_END: foo", "bar"), "");
}

#[test]
fn anchor_without_end_runs_to_end() {
    assert_eq!(take_anchored_lines("ANCHOR: foo\nA\nB", "foo"), "A\nB");
}

#[test]
fn nested_markers_inside_block() {
    let t = "// ANCHOR: all\na\n// ANCHOR: inner\nb\n// ANCHOR_END: inner\nc\n// ANCHOR_END: all\nd";
    assert_eq!(take_anchored_lines(t, "all"), "a\nb\n// ANCHOR_END: inner\nc");
}

#[test]
fn anchor_names_with_dashes_and_unicode() {
    let t = "ANCHOR:my-part\nx\nANCHOR_END:  my-part\nANCHOR: grüße\ny\nANCHOR_END: grüße";
    assert_eq!(take_anchored_lines(t, "my-part"), "x");
    assert_eq!(take_anchored_lines(t, "grüße"), "y");
}

//! The text merge used when git cannot be run.
use tscn::line_merge;

#[test]
fn an_unchanged_side_yields_the_other_whole() {
    let r = line_merge("a\nb\n", "a\nb\n", "a\nc\n", 7, "ours", "theirs");
    assert_eq!((r.text.as_str(), r.conflicts), ("a\nc\n", 0));
    let r = line_merge("a\nb\n", "x\nb\n", "a\nb\n", 7, "ours", "theirs");
    assert_eq!((r.text.as_str(), r.conflicts), ("x\nb\n", 0));
    let r = line_merge("a\n", "same\n", "same\n", 7, "ours", "theirs");
    assert_eq!((r.text.as_str(), r.conflicts), ("same\n", 0));
}

#[test]
fn a_missing_final_line_feed_is_a_change() {
    // The last line of ours gained a line feed, which the line diff sees.
    let r = line_merge("a\nb", "a\nb\n", "a\nc\n", 7, "ours", "theirs");
    assert_eq!(r.conflicts, 1);
}

#[test]
fn both_sides_changed_is_one_conflict_with_both_texts() {
    let r = line_merge("a\nb\n", "a\nx\n", "a\ny", 3, "mine", "yours");
    assert_eq!(r.conflicts, 1);
    assert_eq!(r.text, "<<< mine\na\nx\n===\na\ny\n>>> yours\n");
}

use nv::parser::comment_text;
use nv::parser::reorder::reorder_region;

fn reorder(lines: &[&str], order: &[&str]) -> Vec<String> {
    let lines: Vec<String> = lines.iter().map(|s| s.to_string()).collect();
    let order: Vec<String> = order.iter().map(|s| s.to_string()).collect();
    let keys: Vec<Option<String>> = lines
        .iter()
        .map(|l| l.split_once('=').map(|(k, _)| k.trim().to_string()))
        .collect();
    let attaches: Vec<bool> = lines.iter().map(|_| true).collect();
    let commented_out: Vec<bool> = lines
        .iter()
        .map(|l| comment_text(&l.chars().collect()).contains(&'='))
        .collect();
    reorder_region(&lines, &keys, &attaches, &commented_out, &order)
}

fn s(items: &[&str]) -> Vec<String> {
    items.iter().map(|s| s.to_string()).collect()
}

#[test]
fn reorders_variable_height_units() {
    let out = reorder(&["# doc C", "C=1", "B=2", "A=3"], &["A", "B", "C"]);
    assert_eq!(out, s(&["A=3", "B=2", "# doc C", "C=1"]));
}

#[test]
fn extras_move_to_bottom_keeping_relative_order() {
    let out = reorder(&["X=1", "C=2", "A=3", "B=4", "Y=5"], &["A", "B", "C"]);
    assert_eq!(out, s(&["A=3", "B=4", "C=2", "X=1", "Y=5"]));
}

#[test]
fn blank_separated_header_stays_pinned() {
    let out = reorder(&["# header", "", "C=3", "", "A=1"], &["A", "C"]);
    assert_eq!(out, s(&["# header", "", "A=1", "C=3", ""]));
}

#[test]
fn commented_out_assignment_breaks_block_and_stays() {
    let out = reorder(&["# doc B", "# KEY=old", "B=2", "A=1"], &["A", "B"]);
    assert_eq!(out, s(&["# doc B", "# KEY=old", "A=1", "B=2"]));
}

#[test]
fn already_in_target_order_is_unchanged() {
    let out = reorder(&["A=1", "B=2", "C=3"], &["A", "B", "C"]);
    assert_eq!(out, s(&["A=1", "B=2", "C=3"]));
}

#[test]
fn trailing_blanks_travel_with_the_unit() {
    let out = reorder(&["C=3", "", "B=2", "", "A=1"], &["A", "B", "C"]);
    assert_eq!(out, s(&["A=1", "B=2", "", "C=3", ""]));
}

#[test]
fn empty_order_leaves_units_unchanged() {
    let out = reorder(&["B=2", "A=1"], &[]);
    assert_eq!(out, s(&["B=2", "A=1"]));
}

#[test]
fn duplicate_keys_use_first_occurrence() {
    let out = reorder(&["C=1", "A=2", "B=3", "B=4"], &["A", "B", "C"]);
    assert_eq!(out, s(&["A=2", "B=3", "B=4", "C=1"]));
}

#[test]
fn unit_lines_may_interleave_around_pinned_lines() {
    let out = reorder(&["# doc B", "B=2", "# KEY=old", "A=1"], &["A", "B"]);
    assert_eq!(out, s(&["A=1", "# doc B", "# KEY=old", "B=2"]));
}

#[test]
fn line_count_and_pinned_lines_are_kept() {
    let input = ["---", "B=2", "# note", "", "A=1"];
    let out = reorder(&input, &["A", "B"]);
    assert_eq!(out.len(), input.len());
    assert_eq!(out[0], "---");
}

#[test]
fn order_with_repeated_key_ranks_by_first_position() {
    let out = reorder(&["B=1", "A=2"], &["A", "B", "A"]);
    assert_eq!(out, s(&["A=2", "B=1"]));
}

#[test]
fn reordering_moves_lines_without_losing_or_duplicating_any() {
    let input = ["# top", "", "# about B", "B=2", "", "#A=0", "A=1", "C=3", "A=4"];
    let out = reorder(&input, &["C", "A", "B"]);
    let mut before: Vec<String> = s(&input);
    let mut after = out.clone();
    before.sort();
    after.sort();
    assert_eq!(before, after);
    assert_eq!(out.len(), input.len());
}

#[test]
fn trailing_comment_block_stays_pinned() {
    assert_eq!(reorder(&["A=1", "# trailing"], &["A"]), s(&["A=1", "# trailing"]));
    let out = reorder(&["B=2", "A=1", "# about nothing", "# yet"], &["A", "B"]);
    assert_eq!(out, s(&["A=1", "B=2", "# about nothing", "# yet"]));
}

#[test]
fn empty_order_changes_nothing() {
    let lines = ["# header", "", "B=2", "# about A", "A=1", "", "not a key", "# tail"];
    assert_eq!(reorder(&lines, &[]), s(&lines));
}

#[test]
fn lines_that_are_not_keys_keep_their_place() {
    let out = reorder(&["B=2", "not a key", "A=1", "#A=commented"], &["A", "B"]);
    assert_eq!(out[1], "not a key");
    assert_eq!(out[3], "#A=commented");
    assert_eq!(out, s(&["A=1", "not a key", "B=2", "#A=commented"]));
}

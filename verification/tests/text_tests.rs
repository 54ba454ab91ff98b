use dff::diff::difference;
use dff::text::extract_text;

fn strings(xs: &[&str]) -> Vec<String> {
    xs.iter().map(|s| s.to_string()).collect()
}

#[test]
fn lines_become_values_duplicates_collapse() {
    let vs = extract_text("a\nb\na\nc\n");
    assert_eq!(vs.values().clone(), strings(&["a", "b", "c"]));
}

#[test]
fn crlf_line_endings_are_normalized() {
    let vs = extract_text("a\r\nb\r\n");
    assert_eq!(vs.values().clone(), strings(&["a", "b"]));
}

#[test]
fn final_line_without_terminator_counts() {
    let vs = extract_text("a\nb");
    assert_eq!(vs.values().clone(), strings(&["a", "b"]));
}

#[test]
fn empty_input_yields_empty_set() {
    let vs = extract_text("");
    assert_eq!(vs.len(), 0);
}

#[test]
fn blank_line_is_a_value() {
    let vs = extract_text("a\n\nb\n");
    assert_eq!(vs.values().clone(), strings(&["a", "", "b"]));
}

#[test]
fn unique_lines_of_primary() {
    // Lines unique to the primary survive; duplicates appear once.
    let primary = extract_text("x\ny\nx\nz\ny\n");
    let secondary = extract_text("y\nw\n");
    let d = difference(&primary, &secondary);
    assert_eq!(d, strings(&["x", "z"]));
}

#[test]
fn two_text_sources_scenario() {
    let primary = extract_text("a\nb\na\nc\n");
    let secondary = extract_text("b\n");
    let d = difference(&primary, &secondary);
    assert_eq!(d, strings(&["a", "c"]));
}

#[test]
fn same_source_twice_yields_empty_difference() {
    let a = "a\nb\nc\n";
    let d = difference(&extract_text(a), &extract_text(a));
    assert!(d.is_empty());
}

#[test]
fn difference_is_deterministic_either_way_round() {
    let a = extract_text("a\nb\nc\n");
    let b = extract_text("b\nd\n");
    assert_eq!(difference(&a, &b), difference(&a, &b));
    assert_eq!(difference(&b, &a), difference(&b, &a));
    assert_eq!(difference(&a, &b), strings(&["a", "c"]));
    assert_eq!(difference(&b, &a), strings(&["d"]));
}

#[test]
fn empty_primary_yields_empty_difference() {
    let primary = extract_text("");
    let secondary = extract_text("a\nb\n");
    assert!(difference(&primary, &secondary).is_empty());
}

#[test]
fn empty_secondary_keeps_all_primary_values() {
    let primary = extract_text("a\nb\na\n");
    let secondary = extract_text("");
    assert_eq!(difference(&primary, &secondary), strings(&["a", "b"]));
}

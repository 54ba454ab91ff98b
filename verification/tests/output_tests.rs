use dff::error::DffError;
use dff::output::{concat_values, plan_output, OutputPlan};
use dff::values::ValueSet;

fn strings(xs: &[&str]) -> Vec<String> {
    xs.iter().map(|s| s.to_string()).collect()
}

#[test]
fn empty_difference_is_silent() {
    let none: Vec<String> = Vec::new();
    assert_eq!(plan_output(&none, None), Ok(OutputPlan::Silent));
    // Silence is decided before the target is even classified.
    let bad = "out.json".to_string();
    assert_eq!(plan_output(&none, Some(&bad)), Ok(OutputPlan::Silent));
}

#[test]
fn no_target_prints_to_stdout() {
    assert_eq!(plan_output(&strings(&["a"]), None), Ok(OutputPlan::Stdout));
}

#[test]
fn text_target_is_written() {
    let target = "out.txt".to_string();
    assert_eq!(plan_output(&strings(&["a"]), Some(&target)), Ok(OutputPlan::WriteFile));
}

#[test]
fn csv_target_falls_back_to_stdout() {
    let target = "out.csv".to_string();
    assert_eq!(plan_output(&strings(&["a"]), Some(&target)), Ok(OutputPlan::Stdout));
}

#[test]
fn unsupported_target_is_rejected() {
    let target = "out.json".to_string();
    assert_eq!(
        plan_output(&strings(&["a"]), Some(&target)),
        Err(DffError::UnsupportedExtension)
    );
}

#[test]
fn file_form_concatenates_without_separator() {
    assert_eq!(concat_values(&strings(&["a", "b", "c"])), "abc");
    assert_eq!(concat_values(&strings(&["x\n", "y"])), "x\ny");
    let none: Vec<String> = Vec::new();
    assert_eq!(concat_values(&none), "");
}

#[test]
fn value_set_basics() {
    let mut vs = ValueSet::new();
    assert_eq!(vs.len(), 0);
    vs.insert("a".to_string());
    vs.insert("b".to_string());
    vs.insert("a".to_string());
    assert_eq!(vs.len(), 2);
    assert!(vs.contains(&"a".to_string()));
    assert!(vs.contains(&"b".to_string()));
    assert!(!vs.contains(&"c".to_string()));
    assert_eq!(vs.values().clone(), strings(&["a", "b"]));
}

use dff::csvdata::{read_csv, select_values};
use dff::diff::difference;
use dff::error::DffError;
use dff::text::extract_text;

fn strings(xs: &[&str]) -> Vec<String> {
    xs.iter().map(|s| s.to_string()).collect()
}

#[test]
fn select_by_header_two_files_scenario() {
    let primary = read_csv(b"name,age\nalice,30\nbob,25\n", &Some("name".to_string())).unwrap();
    let secondary = read_csv(b"name\nalice\n", &Some("name".to_string())).unwrap();
    let d = difference(&primary, &secondary);
    assert_eq!(d, strings(&["bob"]));
}

#[test]
fn headerless_takes_column_zero() {
    let vs = read_csv(b"a,1\nb,2\na,3\n", &None).unwrap();
    assert_eq!(vs.values().clone(), strings(&["a", "b"]));
}

#[test]
fn header_selects_its_column() {
    let vs = read_csv(b"name,age\nalice,30\nbob,25\n", &Some("age".to_string())).unwrap();
    assert_eq!(vs.values().clone(), strings(&["30", "25"]));
}

#[test]
fn header_at_zero_matches_headerless_on_data_rows() {
    let by_header = read_csv(b"name\nx\ny\n", &Some("name".to_string())).unwrap();
    let headerless = read_csv(b"x\ny\n", &None).unwrap();
    assert_eq!(by_header.values().clone(), headerless.values().clone());
}

#[test]
fn unknown_header_falls_back_to_column_zero() {
    let vs = read_csv(b"name,age\nalice,30\nbob,25\n", &Some("missing".to_string())).unwrap();
    assert_eq!(vs.values().clone(), strings(&["alice", "bob"]));
}

#[test]
fn ragged_row_is_malformed() {
    let r = read_csv(b"name,age\nsolo\n", &Some("age".to_string()));
    assert_eq!(r.unwrap_err(), DffError::MalformedRecord);
}

#[test]
fn missing_header_row_is_malformed() {
    let r = read_csv(b"", &Some("name".to_string()));
    assert_eq!(r.unwrap_err(), DffError::MalformedRecord);
}

#[test]
fn empty_headerless_source_is_empty() {
    let vs = read_csv(b"", &None).unwrap();
    assert_eq!(vs.len(), 0);
}

#[test]
fn quoted_fields_are_parsed() {
    // A quoted comma stays inside the field: real CSV parsing, not line
    // splitting, decides the columns.
    let vs = read_csv(b"\"x,y\",2\nplain,3\n", &None).unwrap();
    assert_eq!(vs.values().clone(), strings(&["x,y", "plain"]));
}

#[test]
fn undecodable_bytes_are_malformed() {
    let r = read_csv(&[0xff, 0xfe, 0x0a], &None);
    assert_eq!(r.unwrap_err(), DffError::MalformedRecord);
}

#[test]
fn select_values_on_parsed_records() {
    let records = vec![
        strings(&["name", "age"]),
        strings(&["alice", "30"]),
        strings(&["alice", "31"]),
    ];
    let vs = select_values(&records, &Some("name".to_string())).unwrap();
    assert_eq!(vs.values().clone(), strings(&["alice"]));
}

#[test]
fn select_values_rejects_short_record() {
    let records = vec![strings(&["a", "b"]), strings(&["only"])];
    let r = select_values(&records, &Some("b".to_string()));
    assert_eq!(r.unwrap_err(), DffError::MalformedRecord);
}

#[test]
fn mixed_text_and_csv_sources() {
    let primary = extract_text("alice\nbob\ncarol\n");
    let secondary = read_csv(b"name\nbob\n", &Some("name".to_string())).unwrap();
    assert_eq!(difference(&primary, &secondary), strings(&["alice", "carol"]));
}

use dff::error::DffError;
use dff::format::{get_filetype, FileType};

#[test]
fn from_str_known_extensions() {
    assert_eq!(FileType::from_str("txt"), Ok(FileType::Text));
    assert_eq!(FileType::from_str("csv"), Ok(FileType::Csv));
}

#[test]
fn from_str_unknown_extension() {
    assert_eq!(FileType::from_str("json"), Err(DffError::UnsupportedExtension));
    assert_eq!(FileType::from_str(""), Err(DffError::UnsupportedExtension));
    // The bare table lookup is exact; case folding happens on paths.
    assert_eq!(FileType::from_str("TXT"), Err(DffError::UnsupportedExtension));
}

#[test]
fn get_filetype_text_and_csv() {
    assert_eq!(get_filetype("notes.txt"), Ok(FileType::Text));
    assert_eq!(get_filetype("data.csv"), Ok(FileType::Csv));
    assert_eq!(get_filetype("dir/sub/data.csv"), Ok(FileType::Csv));
}

#[test]
fn get_filetype_is_case_insensitive() {
    assert_eq!(get_filetype("notes.TXT"), Ok(FileType::Text));
    assert_eq!(get_filetype("DATA.Csv"), Ok(FileType::Csv));
}

#[test]
fn get_filetype_rejects_other_extensions() {
    assert_eq!(get_filetype("secondary.json"), Err(DffError::UnsupportedExtension));
    assert_eq!(get_filetype("archive.tar.gz"), Err(DffError::UnsupportedExtension));
}

#[test]
fn get_filetype_rejects_missing_extension() {
    assert_eq!(get_filetype("noext"), Err(DffError::UnsupportedExtension));
    assert_eq!(get_filetype(""), Err(DffError::UnsupportedExtension));
    assert_eq!(get_filetype("dir.d/file"), Err(DffError::UnsupportedExtension));
}

#[test]
fn get_filetype_rejects_hidden_files() {
    assert_eq!(get_filetype(".txt"), Err(DffError::UnsupportedExtension));
    assert_eq!(get_filetype("dir/.csv"), Err(DffError::UnsupportedExtension));
    // A hidden file with a real extension still has one.
    assert_eq!(get_filetype(".config.txt"), Ok(FileType::Text));
}

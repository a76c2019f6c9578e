use ghostwriter::notebook::{
    detect_open_document, detect_open_document_in, metadata_uuid, parse_number, DirectoryEntry,
    Metadata,
};

/// A listing of a data directory, with metadata in the form that the files have.
struct Fixture {
    entries: Vec<DirectoryEntry>,
}

impl Fixture {
    fn new() -> Self {
        Fixture { entries: Vec::new() }
    }

    fn write_metadata(&mut self, uuid: &str, last_opened_ms: Option<u64>) {
        let body = match last_opened_ms {
            Some(ts) => format!(r#"{{"lastOpened": "{}", "visibleName": "test"}}"#, ts),
            None => r#"{"visibleName": "folder, no lastOpened"}"#.to_string(),
        };
        self.write(&format!("{}.metadata", uuid), &body);
    }

    fn write(&mut self, file_name: &str, body: &str) {
        let metadata = match serde_json::from_str::<serde_json::Value>(body) {
            Ok(value) => Some(Metadata {
                last_opened: value.get("lastOpened").and_then(|v| v.as_str()).map(String::from),
            }),
            Err(_) => None,
        };
        self.entries.push(DirectoryEntry { file_name: Some(file_name.to_string()), metadata });
    }
}

#[test]
fn detects_the_most_recently_opened_document() {
    let mut fixture = Fixture::new();
    fixture.write_metadata("older-doc", Some(1_000_000));
    fixture.write_metadata("newest-doc", Some(2_000_000));
    fixture.write_metadata("oldest-doc", Some(500_000));

    let result = detect_open_document_in(&fixture.entries);
    assert_eq!(result, Some("newest-doc".to_string()));
}

#[test]
fn ignores_entries_without_a_last_opened_field() {
    let mut fixture = Fixture::new();
    fixture.write_metadata("a-folder", None);
    fixture.write_metadata("a-document", Some(1_000_000));

    let result = detect_open_document_in(&fixture.entries);
    assert_eq!(result, Some("a-document".to_string()));
}

#[test]
fn returns_none_when_directory_is_empty() {
    let fixture = Fixture::new();
    let result = detect_open_document_in(&fixture.entries);
    assert_eq!(result, None);
}

#[test]
fn returns_none_when_directory_does_not_exist() {
    let result = detect_open_document(&None);
    assert_eq!(result, None);
}

#[test]
fn ignores_non_metadata_files() {
    let mut fixture = Fixture::new();
    fixture.write_metadata("a-document", Some(1_000_000));
    fixture.write("a-document.content", "{}");
    fixture.write("random.txt", "not metadata");

    let result = detect_open_document_in(&fixture.entries);
    assert_eq!(result, Some("a-document".to_string()));
}

#[test]
fn detects_the_document_of_a_listing() {
    let mut fixture = Fixture::new();
    fixture.write_metadata("a-document", Some(7));
    assert_eq!(detect_open_document(&Some(fixture.entries)), Some("a-document".to_string()));
}

#[test]
fn of_two_opened_at_once_the_first_is_detected() {
    let mut fixture = Fixture::new();
    fixture.write_metadata("first", Some(5));
    fixture.write_metadata("second", Some(5));
    assert_eq!(detect_open_document_in(&fixture.entries), Some("first".to_string()));
}

#[test]
fn ignores_a_newer_time_in_another_kind_of_file() {
    let mut fixture = Fixture::new();
    fixture.write_metadata("a-document", Some(1));
    fixture.write("other.content", r#"{"lastOpened": "9"}"#);
    assert_eq!(detect_open_document_in(&fixture.entries), Some("a-document".to_string()));
}

#[test]
fn ignores_times_that_are_no_numbers() {
    let mut fixture = Fixture::new();
    fixture.write("a.metadata", r#"{"lastOpened": "soon"}"#);
    fixture.write("b.metadata", r#"{"lastOpened": ""}"#);
    fixture.write("c.metadata", r#"{"lastOpened": "18446744073709551616"}"#);
    assert_eq!(detect_open_document_in(&fixture.entries), None);
    fixture.write("d.metadata", r#"{"lastOpened": "0"}"#);
    assert_eq!(detect_open_document_in(&fixture.entries), Some("d".to_string()));
}

#[test]
fn ignores_unreadable_files_and_names() {
    let entries = vec![
        DirectoryEntry { file_name: Some("x.metadata".to_string()), metadata: None },
        DirectoryEntry {
            file_name: None,
            metadata: Some(Metadata { last_opened: Some("3".to_string()) }),
        },
    ];
    assert_eq!(detect_open_document_in(&entries), None);
}

#[test]
fn numbers_are_read_as_the_standard_library_reads_them() {
    for text in [
        "0", "1", "42", "007", "+7", "+", "-", "-0", "-1", "", " 1", "1 ", "1.5", "1_000", "++1",
        "18446744073709551615", "18446744073709551616", "18446744073709551620",
        "99999999999999999999999999", "+18446744073709551615", "١", "12a", "a12",
        "00000000000000000000000000000001",
    ] {
        assert_eq!(parse_number(text), text.parse::<u64>().ok(), "{:?}", text);
    }
}

#[test]
fn names_are_split_as_the_standard_library_splits_them() {
    for name in [
        "a.metadata", ".metadata", "..metadata", "a.b.metadata", "metadata", "a.metadata2",
        "a.Metadata", "xmetadata", "a.metadata.bak", "é.metadata", "a..metadata", ".a.metadata",
    ] {
        let path = std::path::Path::new(name);
        let expected = if path.extension().and_then(|e| e.to_str()) == Some("metadata") {
            path.file_stem().and_then(|s| s.to_str()).map(String::from)
        } else {
            None
        };
        assert_eq!(metadata_uuid(name), expected, "{:?}", name);
    }
}

use std::collections::HashSet;
use vat::tombstone::{append_text, read, TombstoneError};

fn set_of(items: &[&str]) -> HashSet<String> {
    items.iter().map(|s| (*s).to_string()).collect()
}

fn ids(items: &[&str]) -> Vec<String> {
    items.iter().map(|s| (*s).to_string()).collect()
}

#[test]
fn append_empty_batch_to_missing_file_is_noop() {
    assert_eq!(append_text("", &ids(&[])).unwrap(), "");
}

#[test]
fn append_rejects_malformed_id() {
    assert_eq!(
        append_text("", &ids(&["bar-7k2", "not-an-id-shape"])).unwrap_err(),
        TombstoneError::MalformedLine {
            line_no: 2,
            content: "not-an-id-shape".to_string(),
        }
    );
}

#[test]
fn append_rejects_id_with_embedded_newline() {
    assert_eq!(
        append_text("", &ids(&["foo\nbar-7k2"])).unwrap_err(),
        TombstoneError::MalformedLine {
            line_no: 1,
            content: "foo\nbar-7k2".to_string(),
        }
    );
}

#[test]
fn round_trip_write_then_read() {
    let mut file = String::new();
    file.push_str(&append_text(&file, &ids(&["bar-7k2", "bar-9p3"])).unwrap());
    let more = append_text(&file, &ids(&["bar-abc"])).unwrap();
    file.push_str(&more);
    let got: HashSet<String> = read(&file).unwrap().into_iter().collect();
    assert_eq!(got, set_of(&["bar-7k2", "bar-9p3", "bar-abc"]));
}

#[test]
fn read_empty_text_is_empty() {
    assert!(read("").unwrap().is_empty());
}

#[test]
fn read_lowercases_trims_and_dedups() {
    let got = read("  BAR-7K2 \nbar-7k2\n\tbar-9p3\n").unwrap();
    assert_eq!(got.len(), 2);
    let got: HashSet<String> = got.into_iter().collect();
    assert_eq!(got, set_of(&["bar-7k2", "bar-9p3"]));
}

#[test]
fn read_reports_first_malformed_line() {
    assert_eq!(
        read("bar-7k2\n  nope  \nalso bad\n").unwrap_err(),
        TombstoneError::MalformedLine {
            line_no: 2,
            content: "nope".to_string(),
        }
    );
}

#[test]
fn malformed_line_message_names_line_and_content() {
    let err = read("bar-7k2\nnope\n").unwrap_err();
    assert_eq!(err.message(), "malformed line 2 in .used-ids: \"nope\"");
}

#[test]
fn append_after_text_without_trailing_newline_starts_a_new_line() {
    assert_eq!(
        append_text("bar-7k2", &ids(&["bar-9p3"])).unwrap(),
        "\nbar-9p3\n"
    );
    assert_eq!(append_text("bar-7k2\n", &ids(&["bar-9p3"])).unwrap(), "bar-9p3\n");
}

#[test]
fn append_after_unterminated_line_then_read_adds_exactly_the_new_ids() {
    let existing = "bar-7k2\nBAR-9P3";
    let text = append_text(existing, &ids(&["BAR-ABC", "bar-7k2"])).unwrap();
    assert_eq!(text, "\nBAR-ABC\nbar-7k2\n");
    let after = format!("{existing}{text}");
    let got: HashSet<String> = read(&after).unwrap().into_iter().collect();
    assert_eq!(got, set_of(&["bar-7k2", "bar-9p3", "bar-abc"]));
}

#[test]
fn read_trims_only_ascii_whitespace() {
    assert_eq!(
        read("bar-7k2\n\u{3000}bar-9p3\n").unwrap_err(),
        TombstoneError::MalformedLine {
            line_no: 2,
            content: "\u{3000}bar-9p3".to_string(),
        }
    );
}

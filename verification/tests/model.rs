//! Tests for the note model: creation, titles, slugs, markdown form and
//! substring search.

use notes::note::{Note, parse_markdown};

fn fixed_note(title: &str, body: &str) -> Note {
    Note {
        datetime: String::from("2024-01-02 03:04:05 +00:00"),
        directory: String::from("/tmp/notes"),
        title: String::from(title),
        note: String::from(body),
    }
}

#[test]
fn create_keeps_body_and_directory() {
    let n = Note::create(String::from("/tmp/notes"), String::from("hello world"));
    assert_eq!(n.body(), "hello world");
    assert_eq!(n.directory(), "/tmp/notes");
    assert!(!n.datetime().is_empty());
    assert!(!n.datetime().contains('\n'));
}

#[test]
fn title_is_first_line() {
    let n = Note::create(String::from("d"), String::from("Plain title\nand more text"));
    assert_eq!(n.title(), "Plain title");
}

#[test]
fn title_strips_leading_heading_marker() {
    let n = Note::create(String::from("d"), String::from("# My Title\nrest of note"));
    assert_eq!(n.title(), "My Title");
}

#[test]
fn title_strips_only_the_leading_marker() {
    let n = Note::create(String::from("d"), String::from("# A # B\nx"));
    assert_eq!(n.title(), "A # B");
}

#[test]
fn title_keeps_double_hash() {
    let n = Note::create(String::from("d"), String::from("## Sub\nx"));
    assert_eq!(n.title(), "## Sub");
}

#[test]
fn contains_is_substring_of_body() {
    let n = Note::create(String::from("d"), String::from("hello world"));
    assert!(n.contains("lo w"));
    assert!(n.contains("hello world"));
    assert!(n.contains(""));
    assert!(!n.contains("xyz"));
    assert!(!n.contains("hello world!"));
}

#[test]
fn contains_is_case_sensitive() {
    let n = Note::create(String::from("d"), String::from("Hello"));
    assert!(n.contains("Hello"));
    assert!(!n.contains("hello"));
}

#[test]
fn slug_joins_words_with_underscores() {
    let n = fixed_note("My Great Note", "x");
    assert_eq!(n.slug(), "My_Great_Note");
}

#[test]
fn slug_collapses_runs_of_whitespace() {
    let n = fixed_note("  spaced \t  out ", "x");
    assert_eq!(n.slug(), "spaced_out");
}

#[test]
fn slug_of_empty_title_is_empty() {
    let n = fixed_note("", "x");
    assert_eq!(n.slug(), "");
}

#[test]
fn file_name_is_slug_with_extension() {
    let n = fixed_note("a b", "x");
    assert_eq!(n.file_name(), "a_b.md");
}

#[test]
fn make_markdown_exact_form() {
    let n = fixed_note("T", "B");
    assert_eq!(
        n.make_markdown(),
        "---\ntitle: T\ndate: 2024-01-02 03:04:05 +00:00\n\n---\n\nB"
    );
}

#[test]
fn render_appends_created_at_line() {
    let n = fixed_note("T", "B");
    assert_eq!(
        n.render(),
        "---\ntitle: T\ndate: 2024-01-02 03:04:05 +00:00\n\n---\n\nB\n\nCreated at: 2024-01-02 03:04:05 +00:00"
    );
}

#[test]
fn parse_markdown_round_trip() {
    let n = fixed_note("My Title", "line one\nline two");
    let doc = n.make_markdown();
    let parsed = parse_markdown(&doc).unwrap();
    assert_eq!(parsed.0, "My Title");
    assert_eq!(parsed.1, "2024-01-02 03:04:05 +00:00");
    assert_eq!(parsed.2, "line one\nline two");
}

#[test]
fn parse_markdown_round_trip_with_separator_in_body() {
    let n = fixed_note("T", "a\n\n---\n\nb");
    let doc = n.make_markdown();
    let parsed = parse_markdown(&doc).unwrap();
    assert_eq!(parsed.2, "a\n\n---\n\nb");
}

#[test]
fn parse_markdown_rejects_other_text() {
    assert!(parse_markdown("not a note document").is_none());
    assert!(parse_markdown("").is_none());
    assert!(parse_markdown("---\ntitle: T\nno date here").is_none());
}

#[test]
fn update_summary_appends_link_line() {
    let n = fixed_note("My Note", "x");
    let updated = n.update_summary(Some(String::from("# Summary"))).unwrap();
    assert_eq!(updated, "# Summary\n- [My Note](My_Note.md)");
}

#[test]
fn update_summary_skipped_without_index() {
    let n = fixed_note("My Note", "x");
    assert!(n.update_summary(None).is_none());
}

//! Tests for the aggregate codec, listing, searching, and the store
//! decisions.

use notes::codec::{decode, encode};
use notes::collection::{list, list_notes, search, search_texts};
use notes::note::Note;
use notes::store::{accept_editor_text, clear_content, init_local_content, locate};

fn fixed_note(datetime: &str, body: &str) -> Note {
    Note {
        datetime: String::from(datetime),
        directory: String::new(),
        title: String::new(),
        note: String::from(body),
    }
}

const SEP: &str = "\n===================================\n\n";

#[test]
fn encode_decode_round_trip() {
    let original = vec![
        Note::create(String::from("d"), String::from("first note")),
        Note::create(String::from("d"), String::from("second\nwith lines")),
        Note::create(String::from("d"), String::from("back\\slash \\n tricky")),
    ];
    let text = encode(&original);
    let loaded = decode(&text).unwrap();
    assert_eq!(loaded.len(), original.len());
    for (a, b) in original.iter().zip(loaded.iter()) {
        assert_eq!(a.body(), b.body());
        assert_eq!(a.datetime(), b.datetime());
    }
}

#[test]
fn decode_of_empty_text_is_empty_collection() {
    let loaded = decode("").unwrap();
    assert_eq!(loaded.len(), 0);
}

#[test]
fn clear_then_load_is_empty() {
    let cleared = clear_content();
    let loaded = decode(&cleared).unwrap();
    assert_eq!(loaded.len(), 0);
}

#[test]
fn encode_exact_form() {
    let ns = vec![fixed_note("2024-01-02 03:04:05 +00:00", "a\nb")];
    assert_eq!(encode(&ns), "2024-01-02 03:04:05 +00:00\na\\nb\n");
}

#[test]
fn decode_rejects_truncated_record() {
    assert!(decode("2024-01-02\nbody without newline").is_err());
    assert!(decode("2024-01-02").is_err());
    assert!(decode("2024-01-02\nbody\nleftover").is_err());
}

#[test]
fn decode_rejects_empty_timestamp() {
    assert!(decode("\nbody\n").is_err());
}

#[test]
fn decode_rejects_bad_escape() {
    assert!(decode("2024-01-02\nbad\\q escape\n").is_err());
    assert!(decode("2024-01-02\ndangling\\\n").is_err());
}

#[test]
fn decode_rebuilds_titles() {
    let ns = vec![fixed_note("2024", "# A Title\nbody")];
    let text = encode(&ns);
    let loaded = decode(&text).unwrap();
    assert_eq!(loaded[0].title(), "A Title");
}

#[test]
fn list_returns_last_entries_newest_first() {
    let texts = vec![
        String::from("one"),
        String::from("two"),
        String::from("three"),
    ];
    let picked = list(&texts, 2);
    assert_eq!(picked, vec![String::from("three"), String::from("two")]);
}

#[test]
fn list_caps_at_collection_size() {
    let texts = vec![String::from("one"), String::from("two")];
    let picked = list(&texts, 10);
    assert_eq!(picked.len(), 2);
    assert_eq!(picked, vec![String::from("two"), String::from("one")]);
}

#[test]
fn list_on_empty_store_renders_nothing() {
    let texts: Vec<String> = Vec::new();
    assert_eq!(list(&texts, 5).len(), 0);
    assert_eq!(list_notes(&texts, 5), "");
}

#[test]
fn list_notes_joins_with_separator() {
    let texts = vec![String::from("a"), String::from("b"), String::from("c")];
    assert_eq!(list_notes(&texts, 2), format!("c{}b", SEP));
    assert_eq!(list_notes(&texts, 1), "c");
}

#[test]
fn search_keeps_matches_in_order() {
    let ns = vec![
        Note::create(String::from("d"), String::from("a")),
        Note::create(String::from("d"), String::from("b")),
        Note::create(String::from("d"), String::from("ab")),
    ];
    let found = search(ns, "a");
    assert_eq!(found.len(), 2);
    assert_eq!(found[0].body(), "a");
    assert_eq!(found[1].body(), "ab");
}

#[test]
fn search_misses_give_empty_result() {
    let ns = vec![
        Note::create(String::from("d"), String::from("a")),
        Note::create(String::from("d"), String::from("b")),
        Note::create(String::from("d"), String::from("ab")),
    ];
    let found = search(ns, "z");
    assert_eq!(found.len(), 0);
}

#[test]
fn search_texts_filters_raw_entries() {
    let texts = vec![
        String::from("alpha"),
        String::from("beta"),
        String::from("gamma"),
    ];
    let found = search_texts(texts, "ma");
    assert_eq!(found, vec![String::from("gamma")]);
}

#[test]
fn locate_prefers_existing_local_file() {
    let r = locate(
        String::from(".notes.json"),
        true,
        Some(String::from("/override")),
        true,
        String::from("/home/.notes.json"),
        true,
    );
    assert_eq!(r, ".notes.json");
}

#[test]
fn locate_falls_back_in_order() {
    let over = Some(String::from("/override"));
    let r = locate(
        String::from(".notes.json"),
        false,
        over.clone(),
        true,
        String::from("/home/.notes.json"),
        true,
    );
    assert_eq!(r, "/override");
    let r = locate(
        String::from(".notes.json"),
        false,
        over.clone(),
        false,
        String::from("/home/.notes.json"),
        true,
    );
    assert_eq!(r, "/home/.notes.json");
    let r = locate(
        String::from(".notes.json"),
        false,
        None,
        false,
        String::from("/home/.notes.json"),
        false,
    );
    assert_eq!(r, ".notes.json");
}

#[test]
fn init_local_writes_only_when_missing() {
    assert_eq!(init_local_content(false), Some(String::new()));
    assert_eq!(init_local_content(true), None);
}

#[test]
fn editor_cancel_or_empty_saves_nothing() {
    assert!(accept_editor_text(None).is_none());
    assert!(accept_editor_text(Some(String::new())).is_none());
    assert_eq!(
        accept_editor_text(Some(String::from("kept"))),
        Some(String::from("kept"))
    );
}

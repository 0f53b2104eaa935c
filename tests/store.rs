use notia::{FileEntry, PhotoManager};

fn tags(m: &PhotoManager, path: &str) -> Vec<String> {
    m.get_tags(path)
}

fn note_text(m: &PhotoManager, path: &str) -> Option<String> {
    m.get_note(path).map(|n| n.note.clone())
}

#[test]
fn fresh_store_is_empty() {
    let m = PhotoManager::new();
    assert!(m.get_note("/pics/x.jpg").is_none());
    assert!(m.get_tags("/pics/x.jpg").is_empty());
    assert!(m.photos().is_empty());
}

#[test]
fn note_then_remove_scenario() {
    let mut m = PhotoManager::new();
    let before = chrono::Utc::now();
    m.add_note("/pics/x.jpg", "great sunset".to_string());
    let n = m.get_note("/pics/x.jpg").expect("note present");
    assert_eq!(n.note, "great sunset");
    assert_eq!(n.path, "/pics/x.jpg");
    let stamp = chrono::DateTime::parse_from_rfc3339(&n.timestamp).expect("RFC 3339 timestamp");
    let age = chrono::Utc::now().signed_duration_since(stamp);
    assert!(age.num_seconds() >= 0 && age.num_seconds() < 5);
    assert!(stamp.timestamp() >= before.timestamp());
    m.remove_note("/pics/x.jpg");
    assert!(m.get_note("/pics/x.jpg").is_none());
}

#[test]
fn add_note_at_sets_all_fields() {
    let mut m = PhotoManager::new();
    m.add_note_at("/a.jpg", "first".to_string(), "2024-01-01T00:00:00+00:00".to_string());
    let n = m.get_note("/a.jpg").unwrap();
    assert_eq!(n.note, "first");
    assert_eq!(n.timestamp, "2024-01-01T00:00:00+00:00");
    assert!(n.tags.is_empty());
}

#[test]
fn note_update_keeps_tags() {
    let mut m = PhotoManager::new();
    m.add_tag("/a.jpg", "beach".to_string());
    m.add_note_at("/a.jpg", "one".to_string(), "t1".to_string());
    m.add_note_at("/a.jpg", "two".to_string(), "t2".to_string());
    let n = m.get_note("/a.jpg").unwrap();
    assert_eq!(n.note, "two");
    assert_eq!(n.timestamp, "t2");
    assert_eq!(n.tags, vec!["beach".to_string()]);
}

#[test]
fn add_tag_twice_keeps_one() {
    let mut m = PhotoManager::new();
    m.add_tag("p.jpg", "x".to_string());
    m.add_tag("p.jpg", "x".to_string());
    assert_eq!(tags(&m, "p.jpg"), vec!["x".to_string()]);
    m.remove_tag("p.jpg", "x");
    assert!(tags(&m, "p.jpg").is_empty());
}

#[test]
fn add_tag_creates_blank_record() {
    let mut m = PhotoManager::new();
    m.add_tag("p.jpg", "x".to_string());
    let n = m.get_note("p.jpg").unwrap();
    assert_eq!(n.note, "");
    assert_eq!(n.timestamp, "");
    assert_eq!(n.path, "p.jpg");
}

#[test]
fn tags_keep_insertion_order() {
    let mut m = PhotoManager::new();
    m.add_tag("p.jpg", "b".to_string());
    m.add_tag("p.jpg", "a".to_string());
    m.add_tag("p.jpg", "c".to_string());
    m.add_tag("p.jpg", "a".to_string());
    assert_eq!(tags(&m, "p.jpg"), vec!["b".to_string(), "a".to_string(), "c".to_string()]);
    m.remove_tag("p.jpg", "a");
    assert_eq!(tags(&m, "p.jpg"), vec!["b".to_string(), "c".to_string()]);
}

#[test]
fn remove_tag_without_record_is_no_op() {
    let mut m = PhotoManager::new();
    m.remove_tag("nothing.jpg", "x");
    assert!(m.get_note("nothing.jpg").is_none());
    m.add_tag("p.jpg", "x".to_string());
    m.remove_tag("p.jpg", "y");
    assert_eq!(tags(&m, "p.jpg"), vec!["x".to_string()]);
}

#[test]
fn remove_missing_note_is_no_op() {
    let mut m = PhotoManager::new();
    m.add_note_at("a.jpg", "hi".to_string(), "t".to_string());
    m.remove_note("b.jpg");
    assert_eq!(note_text(&m, "a.jpg"), Some("hi".to_string()));
}

#[test]
fn clear_removes_every_note() {
    let mut m = PhotoManager::new();
    m.add_note("a.jpg", "hi".to_string());
    m.add_note("b.jpg", "yo".to_string());
    m.clear_notes();
    assert!(m.get_note("a.jpg").is_none());
    assert!(m.get_note("b.jpg").is_none());
}

#[test]
fn save_then_load_round_trip() {
    let mut m = PhotoManager::new();
    m.add_note_at("/p/a.jpg", "hi \"there\"\nline".to_string(), "2024-05-01T10:00:00+00:00".to_string());
    m.add_tag("/p/a.jpg", "red".to_string());
    m.add_tag("/p/a.jpg", "blue".to_string());
    m.add_note_at("/p/b.png", "".to_string(), "2024-05-02T10:00:00+00:00".to_string());
    m.add_tag("/p/c.gif", "\u{e7}i\u{e7}ek".to_string());
    let text = m.save_notes();
    let mut fresh = PhotoManager::new();
    fresh.load_notes(Some(&text));
    for path in ["/p/a.jpg", "/p/b.png", "/p/c.gif"] {
        let a = m.get_note(path).unwrap();
        let b = fresh.get_note(path).unwrap();
        assert_eq!(a.path, b.path);
        assert_eq!(a.note, b.note);
        assert_eq!(a.timestamp, b.timestamp);
        assert_eq!(a.tags, b.tags);
    }
    assert!(fresh.get_note("/p/d.jpg").is_none());
    assert_eq!(fresh.save_notes(), text);
}

#[test]
fn save_twice_gives_same_text() {
    let mut m = PhotoManager::new();
    m.add_note_at("a.jpg", "hi".to_string(), "t".to_string());
    m.add_tag("b.jpg", "x".to_string());
    let first = m.save_notes();
    let second = m.save_notes();
    assert_eq!(first, second);
}

#[test]
fn empty_store_saves_empty_list() {
    let m = PhotoManager::new();
    let text = m.save_notes();
    assert_eq!(text.trim(), "[]");
}

#[test]
fn saved_text_is_a_list_of_records() {
    let mut m = PhotoManager::new();
    m.add_note_at("a.jpg", "hi".to_string(), "t".to_string());
    let text = m.save_notes();
    let v: serde_json::Value = serde_json::from_str(&text).unwrap();
    let items = v.as_array().unwrap();
    assert_eq!(items.len(), 1);
    assert_eq!(items[0]["path"], "a.jpg");
    assert_eq!(items[0]["note"], "hi");
    assert_eq!(items[0]["timestamp"], "t");
    assert_eq!(items[0]["tags"].as_array().unwrap().len(), 0);
}

#[test]
fn load_missing_file_gives_empty_store() {
    let mut m = PhotoManager::new();
    m.load_notes(None);
    assert!(m.get_note("a.jpg").is_none());
    assert_eq!(m.save_notes().trim(), "[]");
}

#[test]
fn load_corrupt_text_gives_empty_store() {
    for text in ["not json at all", "{\"path\": \"a.jpg\"}", "[{\"path\": \"a.jpg\"}]", "[1, 2]", ""] {
        let mut m = PhotoManager::new();
        m.load_notes(Some(text));
        assert!(m.get_note("a.jpg").is_none());
        assert_eq!(m.save_notes().trim(), "[]");
    }
}

#[test]
fn load_corrupt_text_keeps_existing_records() {
    let mut m = PhotoManager::new();
    m.add_note_at("a.jpg", "hi".to_string(), "t".to_string());
    m.load_notes(Some("[{\"path\": 5}]"));
    assert_eq!(note_text(&m, "a.jpg"), Some("hi".to_string()));
}

#[test]
fn load_record_without_tags() {
    let mut m = PhotoManager::new();
    m.load_notes(Some(
        "[{\"path\": \"/a.jpg\", \"note\": \"old\", \"timestamp\": \"2023-01-01T00:00:00+00:00\"}]",
    ));
    let n = m.get_note("/a.jpg").unwrap();
    assert_eq!(n.note, "old");
    assert_eq!(n.timestamp, "2023-01-01T00:00:00+00:00");
    assert!(n.tags.is_empty());
}

#[test]
fn load_bad_tags_rejects_document() {
    let mut m = PhotoManager::new();
    m.load_notes(Some(
        "[{\"path\": \"/a.jpg\", \"note\": \"n\", \"timestamp\": \"t\", \"tags\": [1]}]",
    ));
    assert!(m.get_note("/a.jpg").is_none());
}

#[test]
fn load_duplicate_paths_last_wins() {
    let mut m = PhotoManager::new();
    m.load_notes(Some(
        "[{\"path\": \"/a.jpg\", \"note\": \"first\", \"timestamp\": \"t1\", \"tags\": [\"x\"]},\
          {\"path\": \"/a.jpg\", \"note\": \"second\", \"timestamp\": \"t2\"}]",
    ));
    let n = m.get_note("/a.jpg").unwrap();
    assert_eq!(n.note, "second");
    assert_eq!(n.timestamp, "t2");
    assert!(n.tags.is_empty());
    assert_eq!(serde_json::from_str::<serde_json::Value>(&m.save_notes()).unwrap().as_array().unwrap().len(), 1);
}

#[test]
fn load_merges_into_existing_records() {
    let mut m = PhotoManager::new();
    m.add_note_at("/a.jpg", "mine".to_string(), "t0".to_string());
    m.add_note_at("/b.jpg", "keep".to_string(), "t0".to_string());
    m.load_notes(Some("[{\"path\": \"/a.jpg\", \"note\": \"theirs\", \"timestamp\": \"t1\", \"extra\": 3}]"));
    assert_eq!(note_text(&m, "/a.jpg"), Some("theirs".to_string()));
    assert_eq!(note_text(&m, "/b.jpg"), Some("keep".to_string()));
}

fn entry(path: &str, ext: Option<&str>, is_file: bool) -> FileEntry {
    FileEntry { path: path.to_string(), extension: ext.map(|e| e.to_string()), is_file }
}

#[test]
fn scan_keeps_photo_files_only() {
    let mut m = PhotoManager::new();
    let entries = vec![
        entry("/d/a.jpg", Some("jpg"), true),
        entry("/d/b.txt", Some("txt"), true),
        entry("/d/c.PNG", Some("PNG"), true),
    ];
    m.scan_photos(&entries);
    assert_eq!(m.photos(), &vec!["/d/a.jpg".to_string(), "/d/c.PNG".to_string()]);
}

#[test]
fn scan_skips_directories_and_extensionless_files() {
    let mut m = PhotoManager::new();
    let entries = vec![
        entry("/d/album.jpg", Some("jpg"), false),
        entry("/d/README", None, true),
        entry("/d/x.WebP", Some("WebP"), true),
        entry("/d/y.jpeg", Some("jpeg"), true),
    ];
    m.scan_photos(&entries);
    assert_eq!(m.photos(), &vec!["/d/x.WebP".to_string(), "/d/y.jpeg".to_string()]);
    m.scan_photos(&Vec::new());
    assert!(m.photos().is_empty());
}

#[test]
fn scan_leaves_notes_alone() {
    let mut m = PhotoManager::new();
    m.add_note_at("/d/a.jpg", "hi".to_string(), "t".to_string());
    m.scan_photos(&vec![entry("/d/a.jpg", Some("jpg"), true)]);
    assert_eq!(note_text(&m, "/d/a.jpg"), Some("hi".to_string()));
}

#[test]
fn default_store_is_empty() {
    let m = PhotoManager::default();
    assert!(m.get_note("a.jpg").is_none());
    assert!(m.photos().is_empty());
    assert_eq!(m.save_notes().trim(), "[]");
}

#[test]
fn load_drops_repeated_tags() {
    let mut m = PhotoManager::new();
    m.load_notes(Some(
        "[{\"path\": \"/a.jpg\", \"note\": \"n\", \"timestamp\": \"t\", \"tags\": [\"x\", \"y\", \"x\", \"y\", \"z\"]}]",
    ));
    assert_eq!(tags(&m, "/a.jpg"), vec!["x".to_string(), "y".to_string(), "z".to_string()]);
    m.remove_tag("/a.jpg", "x");
    assert_eq!(tags(&m, "/a.jpg"), vec!["y".to_string(), "z".to_string()]);
}

#[test]
fn saved_records_appear_once_each() {
    let mut m = PhotoManager::new();
    m.add_note_at("/a.jpg", "one".to_string(), "t".to_string());
    m.add_note_at("/b.jpg", "two".to_string(), "t".to_string());
    m.add_note_at("/a.jpg", "three".to_string(), "t".to_string());
    m.add_tag("/a.jpg", "x".to_string());
    let v: serde_json::Value = serde_json::from_str(&m.save_notes()).unwrap();
    let items = v.as_array().unwrap();
    assert_eq!(items.len(), 2);
    let mut paths: Vec<&str> = items.iter().map(|i| i["path"].as_str().unwrap()).collect();
    paths.sort();
    assert_eq!(paths, vec!["/a.jpg", "/b.jpg"]);
    let a = m.get_note("/a.jpg").unwrap();
    assert_eq!(a.path, "/a.jpg");
    assert_eq!(a.note, "three");
}

use find_ext::cache::Cache;

#[test]
fn add_replaces_entry_for_same_path() {
    let mut c = Cache::new();
    c.add("/a", "rs");
    c.add("/b", "py");
    c.add("/a", "go");
    assert_eq!(c.lookup("/a").as_deref(), Some("go"));
    assert_eq!(c.lookup("/b").as_deref(), Some("py"));
    assert_eq!(c.lookup("/c"), None);
    assert_eq!(c.to_text(), "/a;go\n/b;py");
}

#[test]
fn stored_form_round_trips() {
    let mut c = Cache::new();
    c.add("/x/y", "ts");
    c.add("/semi;colon", "kt");
    let text = c.to_text();
    assert_eq!(text, "/x/y;ts\n/semi;colon;kt");
    let back = Cache::from_text(&text).unwrap();
    assert_eq!(back.lookup("/x/y").as_deref(), Some("ts"));
    assert_eq!(back.lookup("/semi;colon").as_deref(), Some("kt"));
    assert_eq!(back.to_text(), text);
}

#[test]
fn empty_cache_has_empty_stored_form() {
    let c = Cache::new();
    assert_eq!(c.to_text(), "");
    let back = Cache::from_text("").unwrap();
    assert_eq!(back.to_text(), "");
}

#[test]
fn empty_lines_are_passed_over_and_later_lines_win() {
    let c = Cache::from_text("/a;rs\n\n/a;py\n").unwrap();
    assert_eq!(c.lookup("/a").as_deref(), Some("py"));
    assert_eq!(c.to_text(), "/a;py");
}

#[test]
fn malformed_line_discards_the_cache() {
    assert!(Cache::from_text("/a;rs\nbroken").is_none());
    let c = Cache::load_or_new(Some("/a;rs\nbroken".to_string()));
    assert_eq!(c.lookup("/a"), None);
}

#[test]
fn missing_storage_loads_empty() {
    let c = Cache::load_or_new(None);
    assert_eq!(c.to_text(), "");
    let d = Cache::load_or_new(Some("/p;go".to_string()));
    assert_eq!(d.lookup("/p").as_deref(), Some("go"));
}

#[test]
fn clear_forgets_everything() {
    let mut c = Cache::new();
    c.add("/a", "rs");
    c.clear();
    assert_eq!(c.lookup("/a"), None);
    assert_eq!(c.to_text(), "");
}

#[test]
fn single_entry_saves_as_one_line() {
    let mut c = Cache::new();
    c.add("/a", "rs");
    assert_eq!(c.to_text(), "/a;rs");
}

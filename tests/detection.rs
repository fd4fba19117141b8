use find_ext::cache::Cache;
use find_ext::detect::{find_extension, find_without_walk, first_marker, marker, marker_shortcut, MARKER_COUNT};
use find_ext::text::{chars_of, contains_chars, extension_start};
use find_ext::walk::{is_disallowed, scan_entries, Tally, WalkEntry, WalkRules};

fn strings(v: &[&str]) -> Vec<String> {
    v.iter().map(|s| s.to_string()).collect()
}

fn rules(look_for: &[&str], disallowed: &[&str], threshold: u32) -> WalkRules {
    WalkRules {
        look_for: strings(look_for),
        disallowed: strings(disallowed),
        confidence_threshold: threshold,
        max_depth: 2,
    }
}

fn file(path: &str, depth: usize) -> WalkEntry {
    WalkEntry { path: path.to_string(), depth, is_file: true }
}

fn dir(path: &str, depth: usize) -> WalkEntry {
    WalkEntry { path: path.to_string(), depth, is_file: false }
}

fn no_markers() -> Vec<bool> {
    vec![false; MARKER_COUNT]
}

fn files(root: &str, names: &[&str]) -> Vec<WalkEntry> {
    let mut v = vec![dir(root, 0)];
    for n in names {
        v.push(file(&format!("{root}/{n}"), 1));
    }
    v
}

#[test]
fn marker_precedence_takes_first_in_list() {
    let r = rules(&["js", "rs"], &[], 5);
    let mut present = no_markers();
    present[0] = true;
    present[1] = true;
    let entries = files("/p", &["a.rs", "b.rs", "c.rs"]);
    let mut cache = Some(Cache::new());
    let (found, walked) = find_extension("/p", &r, &mut cache, &present, &entries);
    assert_eq!(found.as_deref(), Some("js"));
    assert_eq!(walked, 0);
    assert_eq!(cache.unwrap().lookup("/p").as_deref(), Some("js"));
}

#[test]
fn marker_not_looked_for_falls_through_to_walk() {
    let r = rules(&["rs"], &[], 5);
    let mut present = no_markers();
    present[0] = true;
    let entries = files("/p", &["a.rs", "b.txt"]);
    let mut cache = None;
    let (found, walked) = find_extension("/p", &r, &mut cache, &present, &entries);
    assert_eq!(found.as_deref(), Some("rs"));
    assert_eq!(walked, 3);
}

#[test]
fn early_exit_stops_at_fifth_match() {
    let r = rules(&["py", "ts"], &[], 5);
    let entries = files(
        "/p",
        &["a.py", "b.py", "c.py", "d.py", "e.py", "f.py", "g.ts", "h.ts", "i.ts"],
    );
    let mut cache = None;
    let (found, walked) = find_extension("/p", &r, &mut cache, &no_markers(), &entries);
    assert_eq!(found.as_deref(), Some("py"));
    assert_eq!(walked, 6);
    assert!(walked < entries.len());
}

#[test]
fn below_threshold_takes_highest_count() {
    let r = rules(&["py", "ts"], &[], 5);
    let entries = files("/p", &["a.py", "b.py", "c.ts", "d.ts", "e.ts"]);
    let mut cache = None;
    let (found, walked) = find_extension("/p", &r, &mut cache, &no_markers(), &entries);
    assert_eq!(found.as_deref(), Some("ts"));
    assert_eq!(walked, entries.len());
}

#[test]
fn matches_under_disallowed_folder_give_nothing() {
    let r = rules(&["js"], &["node_modules"], 5);
    let entries = vec![
        dir("/p", 0),
        file("/p/readme.md", 1),
        dir("/p/node_modules", 1),
        file("/p/node_modules/a.js", 2),
        file("/p/node_modules/b.js", 2),
    ];
    let mut cache = Some(Cache::new());
    let (found, _) = find_extension("/p", &r, &mut cache, &no_markers(), &entries);
    assert_eq!(found, None);
    assert_eq!(cache.unwrap().lookup("/p"), None);
}

#[test]
fn cache_hit_needs_no_walk() {
    let r = rules(&["rs", "py"], &[], 5);
    let mut cache = Some(Cache::new());
    let first = files("/p", &["a.rs", "b.rs"]);
    let (found, walked) = find_extension("/p", &r, &mut cache, &no_markers(), &first);
    assert_eq!(found.as_deref(), Some("rs"));
    assert_eq!(walked, 3);
    let changed = files("/p", &["a.py", "b.py", "c.py"]);
    let (again, walked_again) = find_extension("/p", &r, &mut cache, &no_markers(), &changed);
    assert_eq!(again.as_deref(), Some("rs"));
    assert_eq!(walked_again, 0);
}

#[test]
fn clear_makes_the_next_call_walk_again() {
    let r = rules(&["rs", "py"], &[], 5);
    let mut cache = Some(Cache::new());
    let first = files("/p", &["a.rs", "b.rs"]);
    let _ = find_extension("/p", &r, &mut cache, &no_markers(), &first);
    cache.as_mut().unwrap().clear();
    let changed = files("/p", &["a.py", "b.py", "c.py"]);
    let (found, walked) = find_extension("/p", &r, &mut cache, &no_markers(), &changed);
    assert_eq!(found.as_deref(), Some("py"));
    assert_eq!(walked, 4);
}

#[test]
fn tie_keeps_the_extension_that_reached_it_first() {
    let r = rules(&["py", "ts"], &[], 10);
    let entries = files("/p", &["a.py", "b.ts", "c.ts", "d.py"]);
    let (found, _) = scan_entries(&r, &entries);
    assert_eq!(found.as_deref(), Some("ts"));
}

#[test]
fn entries_below_max_depth_and_directories_are_not_counted() {
    let r = rules(&["py", "rs"], &[], 5);
    let entries = vec![
        dir("/p", 0),
        file("/p/a.rs", 1),
        dir("/p/x.py", 1),
        file("/p/x/y/z/b.py", 3),
        file("/p/x/y/z/c.py", 3),
    ];
    let (found, _) = scan_entries(&r, &entries);
    assert_eq!(found.as_deref(), Some("rs"));
}

#[test]
fn threshold_zero_stops_at_first_match() {
    let r = rules(&["py"], &[], 0);
    let entries = files("/p", &["a.txt", "b.py", "c.py"]);
    let (found, walked) = scan_entries(&r, &entries);
    assert_eq!(found.as_deref(), Some("py"));
    assert_eq!(walked, 3);
    let (none, walked_none) = scan_entries(&r, &files("/q", &["a.txt"]));
    assert_eq!(none, None);
    assert_eq!(walked_none, 2);
}

#[test]
fn empty_walk_finds_nothing() {
    let r = rules(&["py"], &[], 5);
    let (found, walked) = scan_entries(&r, &Vec::new());
    assert_eq!(found, None);
    assert_eq!(walked, 0);
}

#[test]
fn tally_reports_confidence_when_reached() {
    let r = rules(&["py"], &[], 2);
    let mut t = Tally::new(&r);
    assert!(!t.observe(&file("/p/a.py", 1)));
    assert_eq!(t.leading_extension().as_deref(), Some("py"));
    assert!(t.observe(&file("/p/b.py", 1)));
}

#[test]
fn extension_is_text_after_last_dot_of_file_name() {
    let p = chars_of("/a.b/archive.tar.gz");
    let start = extension_start(&p).unwrap();
    assert_eq!(p[start..].iter().collect::<String>(), "gz");
    assert_eq!(extension_start(&chars_of("/a.b/Makefile")), None);
    assert_eq!(extension_start(&chars_of("Makefile")), None);
    let q = chars_of("notes.");
    assert_eq!(extension_start(&q), Some(6));
}

#[test]
fn substring_search() {
    assert!(contains_chars(&chars_of("/p/node_modules/x"), &chars_of("node_modules")));
    assert!(!contains_chars(&chars_of("/p/node/x"), &chars_of("node_modules")));
    assert!(contains_chars(&chars_of("abc"), &chars_of("")));
    assert!(is_disallowed("/p/target/debug", &strings(&["node_modules", "target"])));
    assert!(!is_disallowed("/p/src", &strings(&["node_modules", "target"])));
}

#[test]
fn marker_table_order() {
    assert_eq!(marker(0), ("package.json", "js"));
    assert_eq!(marker(1), ("Cargo.toml", "rs"));
    assert_eq!(marker(3), ("setup.py", "py"));
    assert_eq!(marker(MARKER_COUNT - 1), ("Gemfile", "rb"));
    let mut present = no_markers();
    present[4] = true;
    present[8] = true;
    assert_eq!(first_marker(&present).as_deref(), Some("go"));
    assert_eq!(marker_shortcut(&present, &strings(&["rb"])), None);
    assert_eq!(marker_shortcut(&present, &strings(&["go"])).as_deref(), Some("go"));
    assert_eq!(first_marker(&no_markers()), None);
}

#[test]
fn shortcut_without_cache_or_marker_is_none() {
    let r = rules(&["rs"], &[], 5);
    let mut cache = Some(Cache::new());
    assert_eq!(find_without_walk("/p", &r, &mut cache, &no_markers()), None);
}

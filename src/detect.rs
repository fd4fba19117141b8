use vstd::prelude::*;
use crate::cache::Cache;
use crate::walk::{leader, hits, opt_view, scan_entries, stops_after, WalkEntry, WalkRules};

verus! {

/// How many marker files there are.
pub const MARKER_COUNT: usize = 9;

/// The file name of the marker tried at position `i`.
pub open spec fn marker_file_spec(i: int) -> Seq<char> {
    if i == 0 { "package.json"@ }
    else if i == 1 { "Cargo.toml"@ }
    else if i == 2 { "requirements.txt"@ }
    else if i == 3 { "setup.py"@ }
    else if i == 4 { "go.mod"@ }
    else if i == 5 { "composer.json"@ }
    else if i == 6 { "build.gradle"@ }
    else if i == 7 { "pom.xml"@ }
    else { "Gemfile"@ }
}

/// The extension that the marker at position `i` stands for.
pub open spec fn marker_extension_spec(i: int) -> Seq<char> {
    if i == 0 { "js"@ }
    else if i == 1 { "rs"@ }
    else if i == 2 || i == 3 { "py"@ }
    else if i == 4 { "go"@ }
    else if i == 5 { "php"@ }
    else if i == 6 { "kt"@ }
    else if i == 7 { "java"@ }
    else { "rb"@ }
}

/// The marker files, in the order in which they are tried, each with the extension it
/// stands for.
pub fn marker(i: usize) -> (r: (&'static str, &'static str))
    requires
        i < MARKER_COUNT,
    ensures
        r.0@ == marker_file_spec(i as int),
        r.1@ == marker_extension_spec(i as int),
{
    if i == 0 { ("package.json", "js") }
    else if i == 1 { ("Cargo.toml", "rs") }
    else if i == 2 { ("requirements.txt", "py") }
    else if i == 3 { ("setup.py", "py") }
    else if i == 4 { ("go.mod", "go") }
    else if i == 5 { ("composer.json", "php") }
    else if i == 6 { ("build.gradle", "kt") }
    else if i == 7 { ("pom.xml", "java") }
    else { ("Gemfile", "rb") }
}

/// Position of the first marker, at or after `i`, that `present` marks as found; -1 if none.
pub open spec fn first_present_from(present: Seq<bool>, i: int) -> int
    decreases MARKER_COUNT - i,
{
    if i < 0 || i >= MARKER_COUNT || i >= present.len() {
        -1
    } else if present[i] {
        i
    } else {
        first_present_from(present, i + 1)
    }
}

/// The shortcut that the markers give: the extension of the first marker found, if it is
/// one that is looked for. `present[i]` tells whether marker `i` stands in the directory.
pub open spec fn marker_result(present: Seq<bool>, look_for: Seq<Seq<char>>) -> Option<Seq<char>> {
    let i = first_present_from(present, 0);
    if i >= 0 && look_for.contains(marker_extension_spec(i)) {
        Some(marker_extension_spec(i))
    } else {
        None
    }
}

/// The extension of the first marker found, whether looked for or not.
pub fn first_marker(present: &Vec<bool>) -> (r: Option<String>)
    ensures
        match r {
            Some(x) => first_present_from(present@, 0) >= 0
                && x@ == marker_extension_spec(first_present_from(present@, 0)),
            None => first_present_from(present@, 0) == -1,
        },
{
    let mut i: usize = 0;
    while i < MARKER_COUNT && i < present.len()
        invariant
            i <= MARKER_COUNT,
            first_present_from(present@, 0) == first_present_from(present@, i as int),
        decreases MARKER_COUNT - i,
    {
        if present[i] {
            return Some(marker(i).1.to_owned());
        }
        i = i + 1;
    }
    None
}

/// Whether `x` is one of `v`.
pub fn contains_string(v: &Vec<String>, x: &String) -> (r: bool)
    ensures
        r == crate::walk::views(v@).contains(x@),
{
    let ghost vs = crate::walk::views(v@);
    let mut i: usize = 0;
    while i < v.len()
        invariant
            vs == crate::walk::views(v@),
            i <= v@.len(),
            forall|k: int| 0 <= k < i ==> vs[k] != x@,
        decreases v.len() - i,
    {
        assert(vs[i as int] == v@[i as int]@);
        if v[i] == *x {
            return true;
        }
        i = i + 1;
    }
    proof {
        if vs.contains(x@) {
            let k = choose|k: int| 0 <= k < vs.len() && vs[k] == x@;
            assert(vs[k] != x@);
        }
    }
    false
}

/// The marker shortcut: the first marker found, if its extension is looked for.
pub fn marker_shortcut(present: &Vec<bool>, look_for: &Vec<String>) -> (r: Option<String>)
    ensures
        opt_view(r) == marker_result(present@, crate::walk::views(look_for@)),
{
    match first_marker(present) {
        Some(x) => {
            if contains_string(look_for, &x) {
                Some(x)
            } else {
                None
            }
        },
        None => None,
    }
}

pub open spec fn cache_view(c: Option<Cache>) -> Option<Map<Seq<char>, Seq<char>>> {
    match c {
        Some(c) => Some(c@),
        None => None,
    }
}

pub open spec fn cache_wf(c: Option<Cache>) -> bool {
    match c {
        Some(c) => c.wf(),
        None => true,
    }
}

/// The cache after a result is recorded: a found extension is remembered for the path.
pub open spec fn recorded(
    before: Option<Map<Seq<char>, Seq<char>>>,
    path: Seq<char>,
    result: Option<Seq<char>>,
) -> Option<Map<Seq<char>, Seq<char>>> {
    match (before, result) {
        (Some(m), Some(x)) => Some(m.insert(path, x)),
        _ => before,
    }
}

/// One detection for `path`: a remembered result comes first and takes no walk; then
/// the marker shortcut, which takes no walk either; else the walk over `entries`, which
/// takes in `walked` of them. What is found, by marker or walk, is remembered.
pub open spec fn detects(
    path: Seq<char>,
    rules: WalkRules,
    before: Option<Map<Seq<char>, Seq<char>>>,
    present: Seq<bool>,
    entries: Seq<WalkEntry>,
    result: Option<Seq<char>>,
    walked: int,
    after: Option<Map<Seq<char>, Seq<char>>>,
) -> bool {
    if before is Some && before->0.contains_key(path) {
        &&& result == Some(before->0[path])
        &&& walked == 0
        &&& after == before
    } else if marker_result(present, rules.look_for_view()) is Some {
        &&& result == marker_result(present, rules.look_for_view())
        &&& walked == 0
        &&& after == recorded(before, path, result)
    } else {
        &&& stops_after(entries, rules, walked)
        &&& result == leader(hits(entries.take(walked), rules))
        &&& after == recorded(before, path, result)
    }
}

/// What is known before any walk: the extension remembered for the path, else the marker
/// shortcut.
pub open spec fn shortcut(
    path: Seq<char>,
    rules: WalkRules,
    before: Option<Map<Seq<char>, Seq<char>>>,
    present: Seq<bool>,
) -> Option<Seq<char>> {
    if before is Some && before->0.contains_key(path) {
        Some(before->0[path])
    } else {
        marker_result(present, rules.look_for_view())
    }
}

/// The answer that needs no walk, if there is one: the remembered extension, else the
/// marker shortcut, which is then remembered.
pub fn find_without_walk(
    path: &str,
    rules: &WalkRules,
    cache_opt: &mut Option<Cache>,
    present: &Vec<bool>,
) -> (r: Option<String>)
    requires
        cache_wf(*old(cache_opt)),
    ensures
        cache_wf(*final(cache_opt)),
        opt_view(r) == shortcut(path@, *rules, cache_view(*old(cache_opt)), present@),
        cache_view(*final(cache_opt)) == if cache_view(*old(cache_opt)) is Some
            && cache_view(*old(cache_opt))->0.contains_key(path@) {
            cache_view(*old(cache_opt))
        } else {
            recorded(cache_view(*old(cache_opt)), path@, opt_view(r))
        },
{
    if let Some(cache) = cache_opt {
        if let Some(ext) = cache.lookup(path) {
            return Some(ext);
        }
    }
    let found = marker_shortcut(present, &rules.look_for);
    record_found(path, cache_opt, &found);
    found
}

/// Remembers what was found for `path`, if anything was and there is a cache.
pub fn record_found(path: &str, cache_opt: &mut Option<Cache>, found: &Option<String>)
    requires
        cache_wf(*old(cache_opt)),
    ensures
        cache_wf(*final(cache_opt)),
        cache_view(*final(cache_opt)) == recorded(cache_view(*old(cache_opt)), path@, opt_view(*found)),
{
    if let Some(ext) = found {
        if let Some(cache) = cache_opt {
            cache.add(path, ext.as_str());
        }
    }
}

/// Finds the dominant extension of the directory `path`. `present[i]` tells whether the
/// marker file `i` stands directly in it; `entries` is its walk, in walk order. Returns
/// the extension, or none, and how many entries were taken in. A result of a walk that
/// stopped early is remembered like any other.
pub fn find_extension(
    path: &str,
    rules: &WalkRules,
    cache_opt: &mut Option<Cache>,
    present: &Vec<bool>,
    entries: &Vec<WalkEntry>,
) -> (r: (Option<String>, usize))
    requires
        cache_wf(*old(cache_opt)),
    ensures
        cache_wf(*final(cache_opt)),
        detects(path@, *rules, cache_view(*old(cache_opt)), present@, entries@, opt_view(r.0),
            r.1 as int, cache_view(*final(cache_opt))),
{
    if let Some(ext) = find_without_walk(path, rules, cache_opt, present) {
        return (Some(ext), 0);
    }
    let (found, walked) = scan_entries(rules, entries);
    record_found(path, cache_opt, &found);
    (found, walked)
}

} // verus!

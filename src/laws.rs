use vstd::prelude::*;
use crate::detect::{detects, marker_result};
use crate::text::extension;
use crate::walk::{
    hits, is_confident, is_counted, is_excluded, law_leader_has_highest_count, leader, occurrences,
    stops_after, WalkEntry, WalkRules,
};

verus! {

proof fn lemma_no_hits(entries: Seq<WalkEntry>, rules: WalkRules)
    requires
        forall|i: int| 0 <= i < entries.len()
            && rules.look_for_view().contains(extension(#[trigger] entries[i].path@))
            ==> is_excluded(entries[i].path@, rules.disallowed_view()),
    ensures
        hits(entries, rules).len() == 0,
    decreases entries.len(),
{
    if entries.len() > 0 {
        let init = entries.drop_last();
        assert forall|i: int| 0 <= i < init.len()
            && rules.look_for_view().contains(extension(#[trigger] init[i].path@))
            implies is_excluded(init[i].path@, rules.disallowed_view()) by {
            assert(init[i] == entries[i]);
        }
        lemma_no_hits(init, rules);
        assert(entries.last() == entries[entries.len() - 1]);
    }
}

/// When every entry whose extension is looked for lies beneath a disallowed path, and
/// neither a remembered result nor a marker decides, nothing is found and nothing is
/// remembered.
pub proof fn law_excluded_matches_find_nothing(
    path: Seq<char>,
    rules: WalkRules,
    before: Option<Map<Seq<char>, Seq<char>>>,
    present: Seq<bool>,
    entries: Seq<WalkEntry>,
    result: Option<Seq<char>>,
    walked: int,
    after: Option<Map<Seq<char>, Seq<char>>>,
)
    requires
        detects(path, rules, before, present, entries, result, walked, after),
        !(before is Some && before->0.contains_key(path)),
        marker_result(present, rules.look_for_view()) is None,
        forall|i: int| 0 <= i < entries.len()
            && rules.look_for_view().contains(extension(#[trigger] entries[i].path@))
            ==> is_excluded(entries[i].path@, rules.disallowed_view()),
    ensures
        result is None,
        after == before,
{
    let taken = entries.take(walked);
    assert forall|i: int| 0 <= i < taken.len()
        && rules.look_for_view().contains(extension(#[trigger] taken[i].path@))
        implies is_excluded(taken[i].path@, rules.disallowed_view()) by {
        assert(taken[i] == entries[i]);
    }
    lemma_no_hits(taken, rules);
}

/// Once a found extension is remembered for a path, the next detection for that path
/// gives the same extension without walking, whatever the directory holds by then, and
/// leaves the cache as it was.
pub proof fn law_cache_hit_skips_walk(
    path: Seq<char>,
    rules: WalkRules,
    before: Option<Map<Seq<char>, Seq<char>>>,
    present: Seq<bool>,
    entries: Seq<WalkEntry>,
    result: Option<Seq<char>>,
    walked: int,
    after: Option<Map<Seq<char>, Seq<char>>>,
    present2: Seq<bool>,
    entries2: Seq<WalkEntry>,
    result2: Option<Seq<char>>,
    walked2: int,
    after2: Option<Map<Seq<char>, Seq<char>>>,
)
    requires
        detects(path, rules, before, present, entries, result, walked, after),
        before is Some,
        result is Some,
        detects(path, rules, after, present2, entries2, result2, walked2, after2),
    ensures
        result2 == result,
        walked2 == 0,
        after2 == after,
{
}

/// After the cache is cleared, a detection for a path that was remembered walks again and
/// reports what the directory holds now.
pub proof fn law_clear_forces_walk(
    path: Seq<char>,
    rules: WalkRules,
    before: Option<Map<Seq<char>, Seq<char>>>,
    present: Seq<bool>,
    entries: Seq<WalkEntry>,
    result: Option<Seq<char>>,
    walked: int,
    after: Option<Map<Seq<char>, Seq<char>>>,
    present2: Seq<bool>,
    entries2: Seq<WalkEntry>,
    result2: Option<Seq<char>>,
    walked2: int,
    after2: Option<Map<Seq<char>, Seq<char>>>,
)
    requires
        detects(path, rules, before, present, entries, result, walked, after),
        before is Some,
        result is Some,
        marker_result(present2, rules.look_for_view()) is None,
        detects(path, rules, Some(Map::empty()), present2, entries2, result2, walked2, after2),
    ensures
        after->0.contains_key(path),
        stops_after(entries2, rules, walked2),
        result2 == leader(hits(entries2.take(walked2), rules)),
{
}

proof fn lemma_occurrences_step(entries: Seq<WalkEntry>, rules: WalkRules, j: int, y: Seq<char>)
    requires
        0 <= j < entries.len(),
    ensures
        occurrences(hits(entries.take(j + 1), rules), y) == occurrences(hits(entries.take(j), rules), y)
            + if is_counted(entries[j], rules) && extension(entries[j].path@) == y { 1nat } else { 0nat },
{
    let a = entries.take(j + 1);
    assert(a.drop_last() =~= entries.take(j));
    assert(a.last() == entries[j]);
    let h = hits(entries.take(j), rules);
    if is_counted(entries[j], rules) {
        let e = extension(entries[j].path@);
        assert(h.push(e).drop_last() =~= h);
    }
}

proof fn lemma_occurrences_grow(entries: Seq<WalkEntry>, rules: WalkRules, j: int, k: int, y: Seq<char>)
    requires
        0 <= j <= k <= entries.len(),
    ensures
        occurrences(hits(entries.take(j), rules), y) <= occurrences(hits(entries.take(k), rules), y),
    decreases k - j,
{
    if j < k {
        lemma_occurrences_grow(entries, rules, j, k - 1, y);
        lemma_occurrences_step(entries, rules, k - 1, y);
    }
}

proof fn lemma_occurrences_nonempty(h: Seq<Seq<char>>, y: Seq<char>)
    requires
        occurrences(h, y) > 0,
    ensures
        h.len() > 0,
{
}

/// When one extension is counted at least `confidence_threshold` times over the whole walk
/// and every other one fewer times, the walk stops at the very entry at which that
/// extension's count reaches the threshold, and returns it.
pub proof fn law_early_exit(entries: Seq<WalkEntry>, rules: WalkRules, x: Seq<char>, n: int)
    requires
        occurrences(hits(entries, rules), x) >= rules.confidence_threshold,
        forall|y: Seq<char>| y != x ==> #[trigger] occurrences(hits(entries, rules), y)
            < rules.confidence_threshold,
        stops_after(entries, rules, n),
    ensures
        leader(hits(entries.take(n), rules)) == Some(x),
        occurrences(hits(entries.take(n), rules), x) == rules.confidence_threshold,
        0 < n,
        is_counted(entries[n - 1], rules),
        extension(entries[n - 1].path@) == x,
{
    let t = rules.confidence_threshold;
    let full = hits(entries, rules);
    assert(x.push('.').len() != x.len());
    assert(occurrences(full, x.push('.')) < t);
    assert(entries.take(entries.len() as int) =~= entries);
    // A prefix is confident exactly when `x` has reached the threshold in it; its leader is then `x`.
    assert forall|j: int| 0 <= j <= entries.len() implies
        (#[trigger] is_confident(hits(entries.take(j), rules), t)
            <==> occurrences(hits(entries.take(j), rules), x) >= t)
        && (is_confident(hits(entries.take(j), rules), t) ==> leader(hits(entries.take(j), rules)) == Some(x)) by {
        let h = hits(entries.take(j), rules);
        law_leader_has_highest_count(h);
        if occurrences(h, x) >= t {
            lemma_occurrences_nonempty(h, x);
        }
        if leader(h) is Some {
            let l = leader(h)->0;
            lemma_occurrences_grow(entries, rules, j, entries.len() as int, l);
            if l != x {
                assert(occurrences(full, l) < t);
            }
        }
    }
    assert(is_confident(hits(entries.take(n), rules), t));
    if n == 0 {
        assert(hits(entries.take(0), rules) =~= Seq::<Seq<char>>::empty()) by {
            assert(entries.take(0) =~= Seq::<WalkEntry>::empty());
        }
    }
    assert(!is_confident(hits(entries.take(n - 1), rules), t));
    lemma_occurrences_step(entries, rules, n - 1, x);
}

/// When no extension is counted `confidence_threshold` times over the whole walk, every
/// entry is taken in, and an extension counted more often than any other is returned.
pub proof fn law_below_threshold(entries: Seq<WalkEntry>, rules: WalkRules, x: Seq<char>, n: int)
    requires
        forall|y: Seq<char>| #[trigger] occurrences(hits(entries, rules), y) < rules.confidence_threshold,
        forall|y: Seq<char>| y != x ==> #[trigger] occurrences(hits(entries, rules), y)
            < occurrences(hits(entries, rules), x),
        stops_after(entries, rules, n),
    ensures
        n == entries.len(),
        leader(hits(entries.take(n), rules)) == Some(x),
{
    let t = rules.confidence_threshold;
    let full = hits(entries, rules);
    assert(entries.take(entries.len() as int) =~= entries);
    if n < entries.len() {
        let h = hits(entries.take(n), rules);
        let l = leader(h)->0;
        lemma_occurrences_grow(entries, rules, n, entries.len() as int, l);
        assert(occurrences(full, l) < t);
    }
    assert(x.push('.').len() != x.len());
    assert(occurrences(full, x.push('.')) < occurrences(full, x));
    lemma_occurrences_nonempty(full, x);
    law_leader_has_highest_count(full);
    let l = leader(full)->0;
    if l != x {
        assert(occurrences(full, l) < occurrences(full, x));
    }
}

} // verus!

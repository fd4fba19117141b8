use vstd::prelude::*;
use crate::text::{
    chars_of, contains_chars, contains_seq, extension, extension_start, tail_equals,
};

verus! {

/// One entry that a directory walk reached: its full path, its depth below the
/// root of the walk (the root is at depth 0), and whether it is a regular file.
pub struct WalkEntry {
    pub path: String,
    pub depth: usize,
    pub is_file: bool,
}

/// What a walk counts, and when it stops.
pub struct WalkRules {
    /// Extensions that are counted and may be returned.
    pub look_for: Vec<String>,
    /// Substrings of a path that exclude the entry and everything beneath it.
    pub disallowed: Vec<String>,
    /// Count at which the leading extension is taken without looking further.
    pub confidence_threshold: u32,
    /// Deepest level below the root that is looked at.
    pub max_depth: usize,
}

pub open spec fn views(v: Seq<String>) -> Seq<Seq<char>> {
    v.map_values(|s: String| s@)
}

impl WalkRules {
    pub open spec fn look_for_view(&self) -> Seq<Seq<char>> {
        views(self.look_for@)
    }

    pub open spec fn disallowed_view(&self) -> Seq<Seq<char>> {
        views(self.disallowed@)
    }
}

/// Some disallowed substring occurs in the path.
pub open spec fn is_excluded(path: Seq<char>, disallowed: Seq<Seq<char>>) -> bool {
    exists|i: int| 0 <= i < disallowed.len() && contains_seq(path, #[trigger] disallowed[i])
}

/// The entry is a file within reach, outside every excluded subtree, whose non-empty
/// extension is one that is looked for.
pub open spec fn is_counted(e: WalkEntry, rules: WalkRules) -> bool {
    &&& e.is_file
    &&& e.depth <= rules.max_depth
    &&& !is_excluded(e.path@, rules.disallowed_view())
    &&& extension(e.path@).len() > 0
    &&& rules.look_for_view().contains(extension(e.path@))
}

/// The extensions of the counted entries, in walk order.
pub open spec fn hits(entries: Seq<WalkEntry>, rules: WalkRules) -> Seq<Seq<char>>
    decreases entries.len(),
{
    if entries.len() == 0 {
        Seq::empty()
    } else {
        let before = hits(entries.drop_last(), rules);
        if is_counted(entries.last(), rules) {
            before.push(extension(entries.last().path@))
        } else {
            before
        }
    }
}

/// How often `x` occurs in `h`.
pub open spec fn occurrences(h: Seq<Seq<char>>, x: Seq<char>) -> nat
    decreases h.len(),
{
    if h.len() == 0 {
        0
    } else {
        occurrences(h.drop_last(), x) + if h.last() == x { 1nat } else { 0nat }
    }
}

/// The leading extension after the hits `h`: the first extension to reach the highest
/// count; one that only ties the leader does not take the lead.
pub open spec fn leader(h: Seq<Seq<char>>) -> Option<Seq<char>>
    decreases h.len(),
{
    if h.len() == 0 {
        None
    } else {
        match leader(h.drop_last()) {
            None => Some(h.last()),
            Some(l) => if occurrences(h, h.last()) > occurrences(h.drop_last(), l) {
                Some(h.last())
            } else {
                Some(l)
            },
        }
    }
}

/// The leader's count has reached the threshold.
pub open spec fn is_confident(h: Seq<Seq<char>>, threshold: u32) -> bool {
    match leader(h) {
        Some(l) => occurrences(h, l) >= threshold,
        None => false,
    }
}

/// The number of entries that a walk takes in: up to and including the first one after
/// which the leader is confident, or all of them.
pub open spec fn stops_after(entries: Seq<WalkEntry>, rules: WalkRules, n: int) -> bool {
    &&& 0 <= n <= entries.len()
    &&& forall|k: int| 0 <= k < n ==> !is_confident(#[trigger] hits(entries.take(k), rules), rules.confidence_threshold)
    &&& (n == entries.len() || is_confident(hits(entries.take(n), rules), rules.confidence_threshold))
}

pub open spec fn opt_view(o: Option<String>) -> Option<Seq<char>> {
    match o {
        Some(s) => Some(s@),
        None => None,
    }
}

pub proof fn lemma_occurrences_push(h: Seq<Seq<char>>, x: Seq<char>, y: Seq<char>)
    ensures
        occurrences(h.push(x), y) == occurrences(h, y) + if x == y { 1nat } else { 0nat },
{
    assert(h.push(x).drop_last() =~= h);
}

/// There is a leader exactly when something was counted, and no extension was counted
/// more often than the leader.
pub proof fn law_leader_has_highest_count(h: Seq<Seq<char>>)
    ensures
        h.len() > 0 <==> leader(h) is Some,
        leader(h) is Some ==> occurrences(h, leader(h)->0) > 0,
        leader(h) is Some ==> forall|x: Seq<char>| #[trigger] occurrences(h, x) <= occurrences(h, leader(h)->0),
    decreases h.len(),
{
    if h.len() > 0 {
        let p = h.drop_last();
        law_leader_has_highest_count(p);
        assert(h =~= p.push(h.last()));
        assert forall|x: Seq<char>| #[trigger] occurrences(h, x) <= occurrences(h, leader(h)->0) by {
            lemma_occurrences_push(p, h.last(), x);
            lemma_occurrences_push(p, h.last(), leader(h)->0);
            if leader(p) is Some {
                lemma_occurrences_push(p, h.last(), leader(p)->0);
            }
        }
        lemma_occurrences_push(p, h.last(), leader(h)->0);
    }
}

/// The walk's running tally: how often each looked-for extension has been seen, and
/// which one leads.
pub struct Tally {
    rules: Ghost<WalkRules>,
    look_for: Vec<String>,
    confidence_threshold: u32,
    max_depth: usize,
    look_for_chars: Vec<Vec<char>>,
    disallowed_chars: Vec<Vec<char>>,
    /// (index into `look_for` of the first equal extension, count)
    counts: Vec<(usize, u32)>,
    leading: Option<usize>,
    max_count: u32,
    seen: Ghost<Seq<WalkEntry>>,
}

impl Tally {
    /// The entries taken in so far.
    pub closed spec fn entries(&self) -> Seq<WalkEntry> {
        self.seen@
    }

    pub closed spec fn rules(&self) -> WalkRules {
        self.rules@
    }

    pub open spec fn hits(&self) -> Seq<Seq<char>> {
        hits(self.entries(), self.rules())
    }

    pub open spec fn is_done(&self) -> bool {
        is_confident(self.hits(), self.rules().confidence_threshold)
    }

    pub closed spec fn wf(&self) -> bool {
        let lf = self.rules@.look_for_view();
        let h = self.hits();
        &&& views(self.look_for@) == lf
        &&& self.confidence_threshold == self.rules@.confidence_threshold
        &&& self.max_depth == self.rules@.max_depth
        &&& self.look_for_chars@.len() == lf.len()
        &&& forall|j: int| 0 <= j < lf.len() ==> #[trigger] self.look_for_chars@[j]@ == lf[j]
        &&& self.disallowed_chars@.len() == self.rules@.disallowed_view().len()
        &&& forall|j: int| 0 <= j < self.disallowed_chars@.len() ==>
                #[trigger] self.disallowed_chars@[j]@ == self.rules@.disallowed_view()[j]
        &&& forall|i: int| 0 <= i < self.counts@.len() ==> {
                let (j, c) = #[trigger] self.counts@[i];
                &&& j < lf.len()
                &&& c == occurrences(h, lf[j as int])
                &&& forall|j2: int| 0 <= j2 < j ==> lf[j2] != lf[j as int]
            }
        &&& forall|i1: int, i2: int| 0 <= i1 < i2 < self.counts@.len() ==>
                (#[trigger] self.counts@[i1]).0 != (#[trigger] self.counts@[i2]).0
        &&& forall|x: Seq<char>| occurrences(h, x) > 0 ==>
                exists|i: int| 0 <= i < self.counts@.len() && lf[(#[trigger] self.counts@[i]).0 as int] == x
        &&& match self.leading {
                None => leader(h) is None && self.max_count == 0,
                Some(j) => j < lf.len() && leader(h) == Some(lf[j as int])
                    && self.max_count == occurrences(h, lf[j as int]),
            }
    }

    /// A tally before the first entry.
    pub fn new(rules: &WalkRules) -> (t: Tally)
        ensures
            t.wf(),
            t.rules() == *rules,
            t.entries() == Seq::<WalkEntry>::empty(),
    {
        let mut look_for: Vec<String> = Vec::new();
        let mut look_for_chars: Vec<Vec<char>> = Vec::new();
        let mut i: usize = 0;
        while i < rules.look_for.len()
            invariant
                i <= rules.look_for.len(),
                look_for_chars@.len() == i,
                look_for@.len() == i,
                forall|j: int| 0 <= j < i ==> #[trigger] look_for_chars@[j]@ == rules.look_for_view()[j],
                forall|j: int| 0 <= j < i ==> #[trigger] look_for@[j]@ == rules.look_for_view()[j],
            decreases rules.look_for.len() - i,
        {
            look_for_chars.push(chars_of(rules.look_for[i].as_str()));
            look_for.push(rules.look_for[i].clone());
            i = i + 1;
        }
        assert(views(look_for@) =~= rules.look_for_view());
        let mut disallowed_chars: Vec<Vec<char>> = Vec::new();
        let mut i: usize = 0;
        while i < rules.disallowed.len()
            invariant
                i <= rules.disallowed.len(),
                disallowed_chars@.len() == i,
                forall|j: int| 0 <= j < i ==> #[trigger] disallowed_chars@[j]@ == rules.disallowed_view()[j],
            decreases rules.disallowed.len() - i,
        {
            disallowed_chars.push(chars_of(rules.disallowed[i].as_str()));
            i = i + 1;
        }
        Tally {
            rules: Ghost(*rules),
            look_for,
            confidence_threshold: rules.confidence_threshold,
            max_depth: rules.max_depth,
            look_for_chars,
            disallowed_chars,
            counts: Vec::new(),
            leading: None,
            max_count: 0,
            seen: Ghost(Seq::empty()),
        }
    }

    /// Whether a disallowed substring occurs in `path`.
    fn excludes(&self, path: &Vec<char>) -> (r: bool)
        requires
            self.wf(),
        ensures
            r == is_excluded(path@, self.rules().disallowed_view()),
    {
        let mut i: usize = 0;
        while i < self.disallowed_chars.len()
            invariant
                self.wf(),
                i <= self.disallowed_chars@.len(),
                forall|k: int| 0 <= k < i ==> !contains_seq(path@, #[trigger] self.rules().disallowed_view()[k]),
            decreases self.disallowed_chars.len() - i,
        {
            if contains_chars(path, &self.disallowed_chars[i]) {
                assert(contains_seq(path@, self.rules().disallowed_view()[i as int]));
                return true;
            }
            i = i + 1;
        }
        false
    }

    /// The first index in `look_for` whose extension is `path[start..]`.
    fn look_for_index(&self, path: &Vec<char>, start: usize) -> (r: Option<usize>)
        requires
            self.wf(),
            start <= path@.len(),
        ensures
            match r {
                Some(j) => j < self.rules().look_for_view().len()
                    && self.rules().look_for_view()[j as int] == path@.subrange(start as int, path@.len() as int)
                    && forall|j2: int| 0 <= j2 < j ==> self.rules().look_for_view()[j2] != self.rules().look_for_view()[j as int],
                None => !self.rules().look_for_view().contains(path@.subrange(start as int, path@.len() as int)),
            },
    {
        let ghost x = path@.subrange(start as int, path@.len() as int);
        let ghost lf = self.rules().look_for_view();
        let mut j: usize = 0;
        while j < self.look_for_chars.len()
            invariant
                self.wf(),
                start <= path@.len(),
                x == path@.subrange(start as int, path@.len() as int),
                lf == self.rules().look_for_view(),
                j <= lf.len(),
                forall|k: int| 0 <= k < j ==> lf[k] != x,
            decreases self.look_for_chars.len() - j,
        {
            if tail_equals(path, start, &self.look_for_chars[j]) {
                return Some(j);
            }
            j = j + 1;
        }
        proof {
            if lf.contains(x) {
                let k = choose|k: int| 0 <= k < lf.len() && lf[k] == x;
                assert(lf[k] != x);
            }
        }
        None
    }

    /// Takes in the next entry of the walk; says whether the leader is now confident.
    #[verifier::spinoff_prover]
    #[verifier::rlimit(40)]
    pub fn observe(&mut self, e: &WalkEntry) -> (done: bool)
        requires
            old(self).wf(),
            !old(self).is_done(),
        ensures
            final(self).wf(),
            final(self).rules() == old(self).rules(),
            final(self).entries() == old(self).entries().push(*e),
            done == final(self).is_done(),
    {
        let ghost old_entries = self.seen@;
        let ghost h = self.hits();
        let ghost lf = self.rules@.look_for_view();
        proof {
            assert(old_entries.push(*e).drop_last() =~= old_entries);
            law_leader_has_highest_count(h);
        }
        let mut hit: Option<usize> = None;
        if e.is_file && e.depth <= self.max_depth {
            let path = chars_of(e.path.as_str());
            if !self.excludes(&path) {
                if let Some(start) = extension_start(&path) {
                    if start < path.len() {
                        hit = self.look_for_index(&path, start);
                    } else {
                        proof {
                            assert(extension(e.path@).len() == 0);
                        }
                    }
                }
            }
        }
        self.seen = Ghost(old_entries.push(*e));
        assert(hit is Some <==> is_counted(*e, self.rules@));
        match hit {
            None => {
                assert(self.hits() == h);
                assert(self.wf());
            },
            Some(j) => {
                let ghost x = lf[j as int];
                assert(x == extension(e.path@));
                assert(self.hits() == h.push(x));
                proof {
                    assert forall|y: Seq<char>| #[trigger] occurrences(h.push(x), y)
                        == occurrences(h, y) + if x == y { 1nat } else { 0nat } by {
                        lemma_occurrences_push(h, x, y);
                    }
                }
                let mut i: usize = 0;
                while i < self.counts.len() && self.counts[i].0 != j
                    invariant
                        i <= self.counts@.len(),
                        forall|k: int| 0 <= k < i ==> (#[trigger] self.counts@[k]).0 != j,
                    decreases self.counts.len() - i,
                {
                    i = i + 1;
                }
                let ghost old_counts = self.counts@;
                let count: u32;
                if i < self.counts.len() {
                    assert(self.counts@[i as int].1 == occurrences(h, x));
                    assert(occurrences(h, x) <= self.max_count);
                    count = self.counts[i].1 + 1;
                    self.counts.set(i, (j, count));
                } else {
                    proof {
                        if occurrences(h, x) > 0 {
                            let k = choose|k: int| 0 <= k < old_counts.len() && lf[(#[trigger] old_counts[k]).0 as int] == x;
                            let jk = old_counts[k].0;
                            if jk < j {
                                assert(lf[jk as int] != lf[j as int]);
                            } else {
                                assert(lf[j as int] != lf[jk as int]);
                            }
                        }
                    }
                    count = 1;
                    self.counts.push((j, 1));
                }
                proof {
                    let nc = self.counts@;
                    let h2 = self.hits();
                    if i < old_counts.len() {
                        assert(nc == old_counts.update(i as int, (j, count)));
                    } else {
                        assert(nc == old_counts.push((j, count)));
                    }
                    assert forall|k: int| 0 <= k < nc.len() implies
                        (#[trigger] nc[k]).1 == occurrences(h2, lf[nc[k].0 as int]) by {
                        if k < old_counts.len() && nc[k].0 != j {
                            let jk = nc[k].0;
                            if jk < j {
                                assert(lf[jk as int] != lf[j as int]);
                            } else {
                                assert(lf[j as int] != lf[jk as int]);
                            }
                        }
                    }
                    assert forall|y: Seq<char>| occurrences(h2, y) > 0 implies
                        exists|k: int| 0 <= k < nc.len() && lf[(#[trigger] nc[k]).0 as int] == y by {
                        if y == x {
                            if i < old_counts.len() {
                                assert(lf[nc[i as int].0 as int] == y);
                            } else {
                                assert(lf[nc[old_counts.len() as int].0 as int] == y);
                            }
                        } else {
                            let k = choose|k: int| 0 <= k < old_counts.len() && lf[(#[trigger] old_counts[k]).0 as int] == y;
                            assert(lf[nc[k].0 as int] == y);
                        }
                    }
                    assert(h2.drop_last() =~= h);
                }
                assert(count == occurrences(self.hits(), x));
                if count > self.max_count {
                    self.max_count = count;
                    self.leading = Some(j);
                } else {
                    proof {
                        let l = leader(h)->0;
                        assert(l != x);
                        assert(occurrences(self.hits(), l) == occurrences(h, l));
                    }
                }
                assert(self.wf());
            },
        }
        self.leading.is_some() && self.max_count >= self.confidence_threshold
    }

    /// The leading extension so far, if any entry has been counted.
    pub fn leading_extension(&self) -> (r: Option<String>)
        requires
            self.wf(),
        ensures
            opt_view(r) == leader(self.hits()),
    {
        match self.leading {
            Some(j) => {
                assert(views(self.look_for@)[j as int] == self.look_for@[j as int]@);
                Some(self.look_for[j].clone())
            },
            None => None,
        }
    }
}

/// Whether a disallowed substring occurs in `path`: the entry there, and everything
/// beneath it, is left out of the walk.
pub fn is_disallowed(path: &str, disallowed: &Vec<String>) -> (r: bool)
    ensures
        r == is_excluded(path@, views(disallowed@)),
{
    let p = chars_of(path);
    let ghost dv = views(disallowed@);
    let mut i: usize = 0;
    while i < disallowed.len()
        invariant
            p@ == path@,
            dv == views(disallowed@),
            i <= disallowed@.len(),
            forall|k: int| 0 <= k < i ==> !contains_seq(p@, #[trigger] dv[k]),
        decreases disallowed.len() - i,
    {
        let d = chars_of(disallowed[i].as_str());
        if contains_chars(&p, &d) {
            assert(contains_seq(p@, dv[i as int]));
            return true;
        }
        i = i + 1;
    }
    false
}

/// Tallies the entries in walk order and stops as soon as the leader is confident.
/// Returns the leading extension and how many entries were taken in.
pub fn scan_entries(rules: &WalkRules, entries: &Vec<WalkEntry>) -> (r: (Option<String>, usize))
    ensures
        stops_after(entries@, *rules, r.1 as int),
        opt_view(r.0) == leader(hits(entries@.take(r.1 as int), *rules)),
{
    let ghost rv = *rules;
    let mut tally = Tally::new(rules);
    let mut i: usize = 0;
    let mut done = false;
    assert(entries@.take(0) =~= Seq::<WalkEntry>::empty());
    while i < entries.len() && !done
        invariant
            tally.wf(),
            tally.rules() == rv,
            i <= entries@.len(),
            tally.entries() == entries@.take(i as int),
            done == tally.is_done(),
            forall|k: int| 0 <= k < i ==> !is_confident(#[trigger] hits(entries@.take(k), rv), rv.confidence_threshold),
        decreases entries.len() - i,
    {
        done = tally.observe(&entries[i]);
        assert(entries@.take(i as int).push(entries@[i as int]) =~= entries@.take(i + 1));
        i = i + 1;
    }
    (tally.leading_extension(), i)
}

} // verus!

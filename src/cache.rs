use vstd::prelude::*;
use vstd::string::*;
use crate::text::{
    chars_of, find_first_from, find_last_in, first_index_of, last_index_of,
    lemma_first_index_absent, lemma_first_index_at, lemma_first_index_bounds,
    lemma_last_index_at,
};

verus! {

/// Remembered results: for each directory path, the extension found there.
/// Each path has at most one entry; a later `add` for a path replaces the earlier one.
pub struct Cache {
    folders: Vec<(String, String)>,
    model: Ghost<Map<Seq<char>, Seq<char>>>,
}

/// The path and extension of each pair, as character sequences.
pub open spec fn pair_views(v: Seq<(String, String)>) -> Seq<(Seq<char>, Seq<char>)> {
    v.map_values(|p: (String, String)| (p.0@, p.1@))
}

/// The map that results from inserting the pairs in order: a later pair for a path wins.
pub open spec fn map_of(ps: Seq<(Seq<char>, Seq<char>)>) -> Map<Seq<char>, Seq<char>>
    decreases ps.len(),
{
    if ps.len() == 0 {
        Map::empty()
    } else {
        map_of(ps.drop_last()).insert(ps.last().0, ps.last().1)
    }
}

/// A stored line: the path, `;`, the extension.
pub open spec fn line_of(p: (Seq<char>, Seq<char>)) -> Seq<char> {
    p.0 + seq![';'] + p.1
}

/// The stored form of the pairs: their lines, joined by `\n`.
pub open spec fn text_of(ps: Seq<(Seq<char>, Seq<char>)>) -> Seq<char>
    decreases ps.len(),
{
    if ps.len() == 0 {
        Seq::empty()
    } else if ps.len() == 1 {
        line_of(ps[0])
    } else {
        line_of(ps[0]) + seq!['\n'] + text_of(ps.drop_first())
    }
}

/// A stored line, read back: the path is what stands before the last `;`, the extension
/// what follows it. A line without `;` is malformed.
pub open spec fn parse_line(l: Seq<char>) -> Option<(Seq<char>, Seq<char>)> {
    let i = last_index_of(l, ';');
    if i < 0 {
        None
    } else {
        Some((l.subrange(0, i), l.subrange(i + 1, l.len() as int)))
    }
}

/// The stored form, read back line by line; empty lines are passed over, and one
/// malformed line makes the whole text malformed.
pub open spec fn parse_text(t: Seq<char>) -> Option<Seq<(Seq<char>, Seq<char>)>>
    decreases t.len() via parse_text_decreases
{
    let i = first_index_of(t, '\n');
    let line = if i < 0 { t } else { t.subrange(0, i) };
    let rest = if i < 0 { Some(Seq::empty()) } else { parse_text(t.subrange(i + 1, t.len() as int)) };
    if line.len() == 0 {
        rest
    } else {
        match (parse_line(line), rest) {
            (Some(p), Some(r)) => Some(seq![p] + r),
            _ => None,
        }
    }
}

#[via_fn]
proof fn parse_text_decreases(t: Seq<char>) {
    lemma_first_index_bounds(t, '\n');
}

pub proof fn lemma_text_of_push(ps: Seq<(Seq<char>, Seq<char>)>, p: (Seq<char>, Seq<char>))
    requires
        ps.len() >= 1,
    ensures
        text_of(ps.push(p)) == text_of(ps) + seq!['\n'] + line_of(p),
    decreases ps.len(),
{
    assert(ps.push(p).drop_first() =~= ps.drop_first().push(p));
    if ps.len() == 1 {
        assert(ps.push(p).drop_first() =~= seq![p]);
        assert(text_of(seq![p]) == line_of(p));
        assert(ps.push(p)[0] == ps[0]);
        assert(text_of(ps.push(p)) =~= text_of(ps) + seq!['\n'] + line_of(p));
    } else {
        lemma_text_of_push(ps.drop_first(), p);
        assert(ps.push(p)[0] == ps[0]);
        assert(text_of(ps.push(p)) =~= text_of(ps) + seq!['\n'] + line_of(p));
    }
}

/// Neither separator occurs where it would break the stored form: no `\n` in a path, and
/// neither `\n` nor `;` in an extension.
pub open spec fn storable(ps: Seq<(Seq<char>, Seq<char>)>) -> bool {
    &&& forall|i: int, k: int| 0 <= i < ps.len() && 0 <= k < ps[i].0.len() ==> #[trigger] ps[i].0[k] != '\n'
    &&& forall|i: int, k: int| 0 <= i < ps.len() && 0 <= k < ps[i].1.len() ==>
            #[trigger] ps[i].1[k] != '\n' && ps[i].1[k] != ';'
}

/// Reading back the stored form of pairs that hold no separator gives the same pairs.
pub proof fn law_text_round_trip(ps: Seq<(Seq<char>, Seq<char>)>)
    requires
        storable(ps),
    ensures
        parse_text(text_of(ps)) == Some(ps),
    decreases ps.len(),
{
    if ps.len() == 0 {
        lemma_first_index_absent(text_of(ps), '\n');
        assert(Seq::<(Seq<char>, Seq<char>)>::empty() =~= ps);
    } else {
        let p0 = ps[0];
        let l = line_of(p0);
        let t = text_of(ps);
        let n0: int = p0.0.len() as int;
        assert(l[n0 as int] == ';');
        assert forall|k: int| n0 < k < l.len() implies l[k] != ';' by {
            assert(l[k] == p0.1[k - n0 - 1]);
            assert(ps[0].1[k - n0 - 1] != ';');
        }
        lemma_last_index_at(l, ';', n0 as int);
        assert(l.subrange(0, n0 as int) =~= p0.0);
        assert(l.subrange(n0 + 1, l.len() as int) =~= p0.1);
        assert forall|k: int| 0 <= k < l.len() implies l[k] != '\n' by {
            if k < n0 {
                assert(l[k] == p0.0[k]);
                assert(ps[0].0[k] != '\n');
            } else if k > n0 {
                assert(l[k] == p0.1[k - n0 - 1]);
                assert(ps[0].1[k - n0 - 1] != '\n');
            }
        }
        let rest = ps.drop_first();
        assert(storable(rest)) by {
            assert forall|i: int, k: int| 0 <= i < rest.len() && 0 <= k < rest[i].0.len()
                implies #[trigger] rest[i].0[k] != '\n' by {
                assert(rest[i] == ps[i + 1]);
                assert(ps[i + 1].0[k] != '\n');
            }
            assert forall|i: int, k: int| 0 <= i < rest.len() && 0 <= k < rest[i].1.len()
                implies #[trigger] rest[i].1[k] != '\n' && rest[i].1[k] != ';' by {
                assert(rest[i] == ps[i + 1]);
                assert(ps[i + 1].1[k] != '\n');
            }
        }
        law_text_round_trip(rest);
        if ps.len() == 1 {
            lemma_first_index_absent(t, '\n');
            assert(seq![p0] + Seq::<(Seq<char>, Seq<char>)>::empty() =~= ps);
        } else {
            assert(t[l.len() as int] == '\n');
            assert forall|k: int| 0 <= k < l.len() implies t[k] != '\n' by {
                assert(t[k] == l[k]);
            }
            lemma_first_index_at(t, '\n', l.len() as int);
            assert(t.subrange(0, l.len() as int) =~= l);
            assert(t.subrange(l.len() as int + 1, t.len() as int) =~= text_of(rest));
            assert(seq![p0] + rest =~= ps);
        }
    }
}

/// `ps` lists the entries of `m`, each exactly once, as (path, extension).
pub open spec fn lists(ps: Seq<(Seq<char>, Seq<char>)>, m: Map<Seq<char>, Seq<char>>) -> bool {
    &&& m.dom().finite()
    &&& ps.len() == m.len()
    &&& forall|i: int, j: int| 0 <= i < j < ps.len() ==> (#[trigger] ps[i]).0 != (#[trigger] ps[j]).0
    &&& forall|i: int| 0 <= i < ps.len() ==> m.contains_key(#[trigger] ps[i].0) && m[ps[i].0] == ps[i].1
    &&& forall|k: Seq<char>| #[trigger] m.contains_key(k) ==> exists|i: int| 0 <= i < ps.len() && (#[trigger] ps[i]).0 == k
}

/// No path of `m` holds a `\n`, and no extension a `\n` or `;`.
pub open spec fn storable_map(m: Map<Seq<char>, Seq<char>>) -> bool {
    &&& forall|k: Seq<char>, i: int| #![trigger m.contains_key(k), k[i]]
            m.contains_key(k) && 0 <= i < k.len() ==> k[i] != '\n'
    &&& forall|k: Seq<char>, i: int| #![trigger m[k][i]]
            m.contains_key(k) && 0 <= i < m[k].len() ==> m[k][i] != '\n' && m[k][i] != ';'
}

impl View for Cache {
    type V = Map<Seq<char>, Seq<char>>;

    closed spec fn view(&self) -> Map<Seq<char>, Seq<char>> {
        self.model@
    }
}

impl Default for Cache {
    fn default() -> (c: Cache)
        ensures
            c.wf(),
            c@ == Map::<Seq<char>, Seq<char>>::empty(),
    {
        Cache::new()
    }
}

impl Cache {
    /// The entries in the order in which they are kept (and written out).
    pub closed spec fn pairs(&self) -> Seq<(Seq<char>, Seq<char>)> {
        pair_views(self.folders@)
    }

    pub closed spec fn wf(&self) -> bool {
        let ps = self.pairs();
        &&& forall|i: int, j: int| 0 <= i < j < ps.len() ==> (#[trigger] ps[i]).0 != (#[trigger] ps[j]).0
        &&& forall|i: int| 0 <= i < ps.len() ==> self.model@.contains_key(#[trigger] ps[i].0)
                && self.model@[ps[i].0] == ps[i].1
        &&& forall|k: Seq<char>| #[trigger] self.model@.contains_key(k) ==>
                exists|i: int| 0 <= i < ps.len() && (#[trigger] ps[i]).0 == k
    }

    /// An empty cache.
    pub fn new() -> (c: Cache)
        ensures
            c.wf(),
            c@ == Map::<Seq<char>, Seq<char>>::empty(),
    {
        Cache { folders: Vec::new(), model: Ghost(Map::empty()) }
    }

    /// The extension remembered for `path`, if any.
    pub fn lookup(&self, path: &str) -> (r: Option<String>)
        requires
            self.wf(),
        ensures
            match r {
                Some(e) => self@.contains_key(path@) && e@ == self@[path@],
                None => !self@.contains_key(path@),
            },
    {
        let ghost ps = self.pairs();
        let key = path.to_owned();
        let mut i: usize = 0;
        while i < self.folders.len()
            invariant
                self.wf(),
                ps == self.pairs(),
                key@ == path@,
                i <= self.folders@.len(),
                forall|k: int| 0 <= k < i ==> (#[trigger] ps[k]).0 != path@,
            decreases self.folders.len() - i,
        {
            assert(ps[i as int].0 == self.folders@[i as int].0@);
            if self.folders[i].0 == key {
                return Some(self.folders[i].1.clone());
            }
            i = i + 1;
        }
        None
    }

    /// Remembers `extension` for `path`, replacing what was remembered for it.
    pub fn add(&mut self, path: &str, extension: &str)
        requires
            old(self).wf(),
        ensures
            final(self).wf(),
            final(self)@ == old(self)@.insert(path@, extension@),
    {
        let ghost ps = self.pairs();
        let key = path.to_owned();
        let value = extension.to_owned();
        let mut i: usize = 0;
        while i < self.folders.len() && self.folders[i].0 != key
            invariant
                self.wf(),
                ps == self.pairs(),
                key@ == path@,
                i <= self.folders@.len(),
                forall|k: int| 0 <= k < i ==> (#[trigger] ps[k]).0 != path@,
            decreases self.folders.len() - i,
        {
            assert(ps[i as int].0 == self.folders@[i as int].0@);
            i = i + 1;
        }
        let ghost m = self.model@.insert(path@, extension@);
        if i < self.folders.len() {
            assert(ps[i as int].0 == path@);
            self.folders.set(i, (key, value));
            assert(self.pairs() == ps.update(i as int, (path@, extension@)));
        } else {
            self.folders.push((key, value));
            assert(self.pairs() == ps.push((path@, extension@)));
        }
        self.model = Ghost(m);
        proof {
            let ps2 = self.pairs();
            assert forall|k: Seq<char>| #[trigger] m.contains_key(k) implies
                exists|j: int| 0 <= j < ps2.len() && (#[trigger] ps2[j]).0 == k by {
                if k == path@ {
                    assert(ps2[i as int].0 == k);
                } else {
                    let j = choose|j: int| 0 <= j < ps.len() && (#[trigger] ps[j]).0 == k;
                    assert(ps2[j].0 == k);
                }
            }
        }
    }

    /// Forgets every entry.
    pub fn clear(&mut self)
        ensures
            final(self).wf(),
            final(self)@ == Map::<Seq<char>, Seq<char>>::empty(),
    {
        self.folders = Vec::new();
        self.model = Ghost(Map::empty());
        assert(self.pairs() =~= Seq::empty());
    }

    /// The stored form of the cache: one line `path;extension` per entry, joined by `\n`.
    pub fn to_text(&self) -> (r: String)
        requires
            self.wf(),
        ensures
            r@ == text_of(self.pairs()),
            lists(self.pairs(), self@),
    {
        proof {
            lemma_pairs_list_view(self);
        }
        let ghost ps = self.pairs();
        let mut out = String::new();
        let mut i: usize = 0;
        while i < self.folders.len()
            invariant
                ps == self.pairs(),
                i <= ps.len(),
                out@ == text_of(ps.take(i as int)),
            decreases self.folders.len() - i,
        {
            let ghost before = out@;
            if i > 0 {
                out.append("\n");
            }
            out.append(self.folders[i].0.as_str());
            out.append(";");
            out.append(self.folders[i].1.as_str());
            proof {
                reveal_strlit("\n");
                reveal_strlit(";");
                let p = ps[i as int];
                assert(ps.take(i + 1) =~= ps.take(i as int).push(p));
                if i == 0 {
                    assert(ps.take(1) =~= seq![p]);
                    assert(out@ =~= line_of(p));
                } else {
                    lemma_text_of_push(ps.take(i as int), p);
                    assert(out@ =~= before + seq!['\n'] + line_of(p));
                }
            }
            i = i + 1;
        }
        assert(ps.take(ps.len() as int) =~= ps);
        out
    }

    /// Reads the stored form back; none when a line is malformed.
    pub fn from_text(text: &str) -> (r: Option<Cache>)
        ensures
            match r {
                Some(c) => c.wf() && parse_text(text@) is Some && c@ == map_of(parse_text(text@)->0),
                None => parse_text(text@) is None,
            },
    {
        let t = chars_of(text);
        let mut cache = Cache::new();
        let ghost mut acc: Seq<(Seq<char>, Seq<char>)> = Seq::empty();
        let mut start: usize = 0;
        proof {
            assert(t@.subrange(0, t@.len() as int) =~= t@);
            if let Some(r) = parse_text(t@) {
                assert(acc + r =~= r);
            }
        }
        loop
            invariant
                t@ == text@,
                start <= t@.len(),
                cache.wf(),
                cache@ == map_of(acc),
                parse_text(t@) == match parse_text(t@.subrange(start as int, t@.len() as int)) {
                    Some(r) => Some(acc + r),
                    None => None,
                },
            decreases t@.len() - start,
        {
            let ghost rest = t@.subrange(start as int, t@.len() as int);
            let nl = find_first_from(&t, start, '\n');
            let end: usize = match nl {
                Some(i) => i,
                None => t.len(),
            };
            let ghost line = rest.subrange(0, end - start);
            assert(line =~= t@.subrange(start as int, end as int));
            let ghost next: Option<Seq<(Seq<char>, Seq<char>)>> = match nl {
                Some(i) => parse_text(t@.subrange(i + 1, t@.len() as int)),
                None => Some(Seq::empty()),
            };
            proof {
                if let Some(i) = nl {
                    assert(rest.subrange(i - start + 1, rest.len() as int) =~= t@.subrange(i + 1, t@.len() as int));
                } else {
                    assert(rest.subrange(0, rest.len() as int) =~= rest);
                }
            }
            let ghost mut delta: Seq<(Seq<char>, Seq<char>)> = Seq::empty();
            if end > start {
                match find_last_in(&t, start, end, ';') {
                    None => {
                        return None;
                    },
                    Some(sc) => {
                        let path = text.substring_char(start, sc).to_owned();
                        let ext = text.substring_char(sc + 1, end).to_owned();
                        proof {
                            assert(line.subrange(0, sc - start) =~= path@);
                            assert(line.subrange(sc - start + 1, line.len() as int) =~= ext@);
                            delta = seq![(path@, ext@)];
                        }
                        cache.add(path.as_str(), ext.as_str());
                        proof {
                            assert((acc + delta).drop_last() =~= acc);
                        }
                    },
                }
            }
            proof {
                assert(parse_text(rest) == match next {
                    Some(r) => Some(delta + r),
                    None => None,
                });
                match next {
                    Some(r) => {
                        assert(acc + (delta + r) =~= (acc + delta) + r);
                    },
                    None => {},
                }
                acc = acc + delta;
            }
            match nl {
                None => {
                    assert(acc + Seq::<(Seq<char>, Seq<char>)>::empty() =~= acc);
                    return Some(cache);
                },
                Some(i) => {
                    assert(i < t.len());
                    start = i + 1;
                },
            }
        }
    }

    /// The cache read from its stored form, or an empty one when there is none or it is
    /// malformed.
    pub fn load_or_new(text: Option<String>) -> (c: Cache)
        ensures
            c.wf(),
            c@ == match text {
                Some(t) => match parse_text(t@) {
                    Some(ps) => map_of(ps),
                    None => Map::empty(),
                },
                None => Map::empty(),
            },
    {
        match text {
            Some(t) => match Cache::from_text(t.as_str()) {
                Some(c) => c,
                None => Cache::new(),
            },
            None => Cache::new(),
        }
    }
}

proof fn lemma_map_of_distinct(ps: Seq<(Seq<char>, Seq<char>)>)
    requires
        forall|i: int, j: int| 0 <= i < j < ps.len() ==> (#[trigger] ps[i]).0 != (#[trigger] ps[j]).0,
    ensures
        forall|i: int| 0 <= i < ps.len() ==> map_of(ps).contains_key(#[trigger] ps[i].0)
            && map_of(ps)[ps[i].0] == ps[i].1,
        forall|k: Seq<char>| #[trigger] map_of(ps).contains_key(k) ==>
            exists|i: int| 0 <= i < ps.len() && (#[trigger] ps[i]).0 == k,
    decreases ps.len(),
{
    if ps.len() > 0 {
        let init = ps.drop_last();
        assert forall|i: int, j: int| 0 <= i < j < init.len() implies
            (#[trigger] init[i]).0 != (#[trigger] init[j]).0 by {
            assert(init[i] == ps[i] && init[j] == ps[j]);
        }
        lemma_map_of_distinct(init);
        assert forall|i: int| 0 <= i < ps.len() implies map_of(ps).contains_key(#[trigger] ps[i].0)
            && map_of(ps)[ps[i].0] == ps[i].1 by {
            if i < ps.len() - 1 {
                assert(init[i] == ps[i]);
                assert(ps[i].0 != ps[ps.len() - 1].0);
            }
        }
        assert forall|k: Seq<char>| #[trigger] map_of(ps).contains_key(k) implies
            exists|i: int| 0 <= i < ps.len() && (#[trigger] ps[i]).0 == k by {
            if k != ps.last().0 {
                assert(map_of(init).contains_key(k));
                let i = choose|i: int| 0 <= i < init.len() && (#[trigger] init[i]).0 == k;
                assert(ps[i] == init[i]);
            } else {
                assert(ps[ps.len() - 1].0 == k);
            }
        }
    }
}

proof fn lemma_map_of_len(ps: Seq<(Seq<char>, Seq<char>)>)
    requires
        forall|i: int, j: int| 0 <= i < j < ps.len() ==> (#[trigger] ps[i]).0 != (#[trigger] ps[j]).0,
    ensures
        map_of(ps).dom().finite(),
        map_of(ps).len() == ps.len(),
    decreases ps.len(),
{
    if ps.len() > 0 {
        let init = ps.drop_last();
        assert forall|i: int, j: int| 0 <= i < j < init.len() implies
            (#[trigger] init[i]).0 != (#[trigger] init[j]).0 by {
            assert(init[i] == ps[i] && init[j] == ps[j]);
        }
        lemma_map_of_len(init);
        lemma_map_of_distinct(init);
        let k = ps.last().0;
        if map_of(init).contains_key(k) {
            let i = choose|i: int| 0 <= i < init.len() && (#[trigger] init[i]).0 == k;
            assert(ps[i] == init[i]);
            assert(ps[i].0 != ps[ps.len() - 1].0);
        }
        assert(map_of(ps).dom() =~= map_of(init).dom().insert(k));
    }
}

/// The entries of a well-formed cache, in the order in which they are kept, list its map.
pub proof fn lemma_pairs_list_view(c: &Cache)
    requires
        c.wf(),
    ensures
        lists(c.pairs(), c@),
        map_of(c.pairs()) == c@,
{
    lemma_map_of_distinct(c.pairs());
    lemma_map_of_len(c.pairs());
    assert(map_of(c.pairs()) =~= c@);
}

/// Writing a cache out and reading the text back gives the same entries, in the same
/// order, and so the same map, when no path holds a `\n` and no extension a `\n` or `;`.
pub proof fn law_save_then_load(c: Cache)
    requires
        c.wf(),
        storable_map(c@),
    ensures
        parse_text(text_of(c.pairs())) == Some(c.pairs()),
        map_of(c.pairs()) == c@,
        lists(c.pairs(), c@),
{
    let ps = c.pairs();
    lemma_pairs_list_view(&c);
    assert forall|i: int, k: int| 0 <= i < ps.len() && 0 <= k < ps[i].0.len()
        implies #[trigger] ps[i].0[k] != '\n' by {
        assert(c@.contains_key(ps[i].0));
    }
    assert forall|i: int, k: int| 0 <= i < ps.len() && 0 <= k < ps[i].1.len()
        implies #[trigger] ps[i].1[k] != '\n' && ps[i].1[k] != ';' by {
        assert(c@.contains_key(ps[i].0));
        assert(c@[ps[i].0][k] == ps[i].1[k]);
    }
    law_text_round_trip(ps);
}

} // verus!

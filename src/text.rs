use vstd::prelude::*;
use vstd::std_specs::iter::IteratorSpec;

verus! {

broadcast use vstd::string::axiom_spec_iter;

/// Index of the last occurrence of `c` in `s`, or -1 when `c` does not occur.
pub open spec fn last_index_of(s: Seq<char>, c: char) -> int
    decreases s.len(),
{
    if s.len() == 0 {
        -1
    } else if s.last() == c {
        s.len() - 1
    } else {
        last_index_of(s.drop_last(), c)
    }
}

/// The part of a path after its last `/`.
pub open spec fn file_name(p: Seq<char>) -> Seq<char> {
    p.subrange(last_index_of(p, '/') + 1, p.len() as int)
}

/// The extension of a path: what follows the last `.` of its file name, empty when the
/// file name holds no `.`.
pub open spec fn extension(p: Seq<char>) -> Seq<char> {
    let n = file_name(p);
    let i = last_index_of(n, '.');
    if i < 0 {
        Seq::empty()
    } else {
        n.subrange(i + 1, n.len() as int)
    }
}

/// `t` occurs in `s` as a contiguous run.
pub open spec fn contains_seq(s: Seq<char>, t: Seq<char>) -> bool {
    exists|i: int| 0 <= i <= s.len() - t.len() && #[trigger] s.subrange(i, i + t.len()) == t
}

pub proof fn lemma_last_index_bounds(s: Seq<char>, c: char)
    ensures
        -1 <= last_index_of(s, c) < s.len(),
        last_index_of(s, c) >= 0 ==> s[last_index_of(s, c)] == c,
        forall|k: int| last_index_of(s, c) < k < s.len() ==> s[k] != c,
    decreases s.len(),
{
    if s.len() > 0 && s.last() != c {
        lemma_last_index_bounds(s.drop_last(), c);
        assert forall|k: int| last_index_of(s, c) < k < s.len() implies s[k] != c by {
            if k < s.len() - 1 {
                assert(s.drop_last()[k] == s[k]);
            }
        }
    }
}

pub proof fn lemma_last_index_absent(s: Seq<char>, c: char)
    requires
        forall|k: int| 0 <= k < s.len() ==> s[k] != c,
    ensures
        last_index_of(s, c) == -1,
    decreases s.len(),
{
    if s.len() > 0 {
        lemma_last_index_absent(s.drop_last(), c);
    }
}

/// The characters of `s`, one per element.
pub fn chars_of(s: &str) -> (r: Vec<char>)
    ensures
        r@ == s@,
{
    let mut r: Vec<char> = Vec::new();
    for c in it: s.chars()
        invariant
            it.seq() == s@,
            r@ == it.seq().take(it.index() as int),
    {
        r.push(c);
    }
    r
}

/// Position of the last `c` in `s`, searching backwards from the end.
pub fn find_last(s: &Vec<char>, c: char) -> (r: Option<usize>)
    ensures
        match r {
            Some(i) => i as int == last_index_of(s@, c),
            None => last_index_of(s@, c) == -1,
        },
{
    let mut k: usize = s.len();
    assert(s@.take(k as int) =~= s@);
    while k > 0
        invariant
            k <= s.len(),
            last_index_of(s@, c) == last_index_of(s@.take(k as int), c),
        decreases k,
    {
        if s[k - 1] == c {
            assert(s@.take(k as int).last() == c);
            return Some(k - 1);
        }
        assert(s@.take(k as int).drop_last() =~= s@.take(k - 1));
        k = k - 1;
    }
    None
}

/// Where the extension of the path `p` starts, if its file name holds a `.`;
/// the extension is then `p[start..]`.
pub fn extension_start(p: &Vec<char>) -> (r: Option<usize>)
    ensures
        match r {
            Some(start) => start <= p@.len() && extension(p@) == p@.subrange(start as int, p@.len() as int),
            None => extension(p@) == Seq::<char>::empty(),
        },
{
    proof {
        lemma_last_index_bounds(p@, '/');
    }
    let name_start: usize = match find_last(p, '/') {
        Some(i) => {
            assert(i < p.len());
            i + 1
        },
        None => 0,
    };
    assert(name_start as int == last_index_of(p@, '/') + 1);
    let ghost name = file_name(p@);
    let mut k: usize = p.len();
    while k > name_start
        invariant
            name_start <= k <= p.len(),
            name == p@.subrange(name_start as int, p@.len() as int),
            name == file_name(p@),
            forall|j: int| k <= j < p.len() ==> p@[j] != '.',
        decreases k,
    {
        if p[k - 1] == '.' {
            proof {
                lemma_last_index_bounds(name, '.');
                assert(name[k - 1 - name_start] == '.');
                let li = last_index_of(name, '.');
                if li > k - 1 - name_start {
                    assert(name[li] == p@[li + name_start]);
                }
                assert(li == k - 1 - name_start);
                assert(extension(p@) == name.subrange(li + 1, name.len() as int));
                assert(name.subrange(k - name_start, name.len() as int) =~= p@.subrange(k as int, p@.len() as int));
            }
            return Some(k);
        }
        k = k - 1;
    }
    proof {
        assert forall|j: int| 0 <= j < name.len() implies name[j] != '.' by {
            assert(name[j] == p@[j + name_start]);
        }
        lemma_last_index_absent(name, '.');
    }
    None
}

/// Whether `p[from..]` holds exactly the characters of `t`.
pub fn tail_equals(p: &Vec<char>, from: usize, t: &Vec<char>) -> (r: bool)
    requires
        from <= p@.len(),
    ensures
        r == (p@.subrange(from as int, p@.len() as int) == t@),
{
    let n: usize = p.len();
    if n - from != t.len() {
        return false;
    }
    let mut i: usize = 0;
    while i < t.len()
        invariant
            from <= p@.len(),
            p@.len() == from + t@.len(),
            n == p@.len(),
            i <= t.len(),
            forall|j: int| 0 <= j < i ==> p@[from + j] == t@[j],
        decreases t.len() - i,
    {
        if p[from + i] != t[i] {
            assert(p@.subrange(from as int, p@.len() as int)[i as int] != t@[i as int]);
            return false;
        }
        i = i + 1;
    }
    assert(p@.subrange(from as int, p@.len() as int) =~= t@);
    true
}

/// Whether `t` occurs in `s` as a contiguous run.
pub fn contains_chars(s: &Vec<char>, t: &Vec<char>) -> (r: bool)
    ensures
        r == contains_seq(s@, t@),
{
    if t.len() > s.len() {
        return false;
    }
    let mut i: usize = 0;
    while i <= s.len() - t.len()
        invariant
            t.len() <= s.len(),
            i <= s.len() - t.len(),
            forall|k: int| 0 <= k < i ==> #[trigger] s@.subrange(k, k + t@.len()) != t@,
        decreases s.len() - t.len() + 1 - i,
    {
        let mut j: usize = 0;
        let mut same = true;
        while j < t.len() && same
            invariant
                t.len() <= s.len(),
                i <= s.len() - t.len(),
                j <= t.len(),
                same ==> forall|m: int| 0 <= m < j ==> s@[i + m] == t@[m],
                !same ==> s@.subrange(i as int, i + t@.len()) != t@,
            decreases (if same { t.len() - j + 1 } else { 0 }),
        {
            if s[i + j] != t[j] {
                assert(s@.subrange(i as int, i + t@.len())[j as int] != t@[j as int]);
                same = false;
            } else {
                j = j + 1;
            }
        }
        if same {
            assert(s@.subrange(i as int, i + t@.len()) =~= t@);
            return true;
        }
        if i == s.len() - t.len() {
            return false;
        }
        i = i + 1;
    }
    false
}

/// Index of the first occurrence of `c` in `s`, or -1 when `c` does not occur.
pub open spec fn first_index_of(s: Seq<char>, c: char) -> int
    decreases s.len(),
{
    if s.len() == 0 {
        -1
    } else if s[0] == c {
        0
    } else {
        let r = first_index_of(s.drop_first(), c);
        if r < 0 { -1 } else { r + 1 }
    }
}

pub proof fn lemma_first_index_bounds(s: Seq<char>, c: char)
    ensures
        -1 <= first_index_of(s, c) < s.len(),
        first_index_of(s, c) >= 0 ==> s[first_index_of(s, c)] == c,
        forall|k: int| 0 <= k < s.len() && (first_index_of(s, c) < 0 || k < first_index_of(s, c))
            ==> s[k] != c,
    decreases s.len(),
{
    if s.len() > 0 && s[0] != c {
        lemma_first_index_bounds(s.drop_first(), c);
        assert forall|k: int| 0 <= k < s.len() && (first_index_of(s, c) < 0 || k < first_index_of(s, c))
            implies s[k] != c by {
            if k > 0 {
                assert(s.drop_first()[k - 1] == s[k]);
            }
        }
    }
}

pub proof fn lemma_first_index_at(s: Seq<char>, c: char, i: int)
    requires
        0 <= i < s.len(),
        s[i] == c,
        forall|k: int| 0 <= k < i ==> s[k] != c,
    ensures
        first_index_of(s, c) == i,
    decreases s.len(),
{
    lemma_first_index_bounds(s, c);
}

pub proof fn lemma_first_index_absent(s: Seq<char>, c: char)
    requires
        forall|k: int| 0 <= k < s.len() ==> s[k] != c,
    ensures
        first_index_of(s, c) == -1,
{
    lemma_first_index_bounds(s, c);
}

pub proof fn lemma_last_index_at(s: Seq<char>, c: char, i: int)
    requires
        0 <= i < s.len(),
        s[i] == c,
        forall|k: int| i < k < s.len() ==> s[k] != c,
    ensures
        last_index_of(s, c) == i,
{
    lemma_last_index_bounds(s, c);
}

/// Position of the first `c` in `s[from..]`, counted from the start of `s`.
pub fn find_first_from(s: &Vec<char>, from: usize, c: char) -> (r: Option<usize>)
    requires
        from <= s@.len(),
    ensures
        match r {
            Some(i) => from <= i < s@.len()
                && first_index_of(s@.subrange(from as int, s@.len() as int), c) == i - from,
            None => first_index_of(s@.subrange(from as int, s@.len() as int), c) == -1,
        },
{
    let ghost t = s@.subrange(from as int, s@.len() as int);
    let mut k: usize = from;
    while k < s.len()
        invariant
            from <= k <= s@.len(),
            t == s@.subrange(from as int, s@.len() as int),
            forall|j: int| from <= j < k ==> s@[j] != c,
        decreases s.len() - k,
    {
        if s[k] == c {
            proof {
                assert forall|j: int| 0 <= j < k - from implies t[j] != c by {
                    assert(t[j] == s@[j + from]);
                }
                lemma_first_index_at(t, c, k - from);
            }
            return Some(k);
        }
        k = k + 1;
    }
    proof {
        assert forall|j: int| 0 <= j < t.len() implies t[j] != c by {
            assert(t[j] == s@[j + from]);
        }
        lemma_first_index_absent(t, c);
    }
    None
}

/// Position of the last `c` in `s[lo..hi]`, counted from the start of `s`.
pub fn find_last_in(s: &Vec<char>, lo: usize, hi: usize, c: char) -> (r: Option<usize>)
    requires
        lo <= hi <= s@.len(),
    ensures
        match r {
            Some(i) => lo <= i < hi && last_index_of(s@.subrange(lo as int, hi as int), c) == i - lo,
            None => last_index_of(s@.subrange(lo as int, hi as int), c) == -1,
        },
{
    let ghost t = s@.subrange(lo as int, hi as int);
    let mut k: usize = hi;
    while k > lo
        invariant
            lo <= k <= hi,
            hi <= s@.len(),
            t == s@.subrange(lo as int, hi as int),
            forall|j: int| k <= j < hi ==> s@[j] != c,
        decreases k,
    {
        if s[k - 1] == c {
            proof {
                assert forall|j: int| k - 1 - lo < j < t.len() implies t[j] != c by {
                    assert(t[j] == s@[j + lo]);
                }
                lemma_last_index_at(t, c, k - 1 - lo);
            }
            return Some(k - 1);
        }
        k = k - 1;
    }
    proof {
        assert forall|j: int| 0 <= j < t.len() implies t[j] != c by {
            assert(t[j] == s@[j + lo]);
        }
        lemma_last_index_absent(t, c);
    }
    None
}

} // verus!

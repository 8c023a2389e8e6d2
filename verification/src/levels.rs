//! The `(contributor, skill) -> level` map, kept as an association list with
//! pairwise-distinct keys so that its binary image is canonical.
use vstd::prelude::*;

verus! {

/// The key of a level entry `(contributor id, skill id, level)`.
pub open spec fn lkey(e: (usize, usize, usize)) -> (int, int) {
    (e.0 as int, e.1 as int)
}

/// No two entries share a key.
pub open spec fn distinct_keys(s: Seq<(usize, usize, usize)>) -> bool {
    forall|i: int, j: int| 0 <= i < j < s.len() ==> lkey(s[i]) != lkey(s[j])
}

/// The mapping that an entry list denotes (later entries win).
pub open spec fn entries_map(s: Seq<(usize, usize, usize)>) -> Map<(int, int), usize>
    decreases s.len(),
{
    if s.len() == 0 {
        Map::empty()
    } else {
        entries_map(s.drop_last()).insert(lkey(s.last()), s.last().2)
    }
}

/// Update the entry holding `(c, k)`, or append one.
pub open spec fn assoc_set(
    s: Seq<(usize, usize, usize)>,
    c: usize,
    k: usize,
    v: usize,
) -> Seq<(usize, usize, usize)> {
    if exists|i: int| 0 <= i < s.len() && lkey(s[i]) == (c as int, k as int) {
        let i = choose|i: int| 0 <= i < s.len() && lkey(s[i]) == (c as int, k as int);
        s.update(i, (c, k, v))
    } else {
        s.push((c, k, v))
    }
}

/// A level as seen by the engine: absent means zero.
pub open spec fn level_of(m: Map<(int, int), usize>, c: int, k: int) -> usize {
    if m.contains_key((c, k)) {
        m[(c, k)]
    } else {
        0
    }
}

pub proof fn lemma_entries_map(s: Seq<(usize, usize, usize)>)
    requires
        distinct_keys(s),
    ensures
        forall|i: int|
            0 <= i < s.len() ==> entries_map(s).contains_key(#[trigger] lkey(s[i]))
                && entries_map(s)[lkey(s[i])] == s[i].2,
        forall|k: (int, int)|
            #[trigger] entries_map(s).contains_key(k) ==> exists|i: int|
                0 <= i < s.len() && lkey(s[i]) == k,
    decreases s.len(),
{
    if s.len() > 0 {
        lemma_entries_map(s.drop_last());
        assert forall|i: int| 0 <= i < s.len() implies entries_map(s).contains_key(
            #[trigger] lkey(s[i]),
        ) && entries_map(s)[lkey(s[i])] == s[i].2 by {
            if i < s.len() - 1 {
                assert(s.drop_last()[i] == s[i]);
                assert(lkey(s[i]) != lkey(s.last()));
            }
        }
        assert forall|k: (int, int)| #[trigger]
            entries_map(s).contains_key(k) implies exists|i: int|
            0 <= i < s.len() && lkey(s[i]) == k by {
            if k != lkey(s.last()) {
                assert(entries_map(s.drop_last()).contains_key(k));
                let i = choose|i: int|
                    0 <= i < s.drop_last().len() && lkey(s.drop_last()[i]) == k;
                assert(s.drop_last()[i] == s[i]);
                assert(lkey(s[i]) == k);
            } else {
                assert(lkey(s[s.len() - 1]) == k);
            }
        }
    }
}

pub proof fn lemma_assoc_set(s: Seq<(usize, usize, usize)>, c: usize, k: usize, v: usize)
    requires
        distinct_keys(s),
    ensures
        distinct_keys(assoc_set(s, c, k, v)),
        entries_map(assoc_set(s, c, k, v)) == entries_map(s).insert((c as int, k as int), v),
    decreases s.len(),
{
    let key = (c as int, k as int);
    let r = assoc_set(s, c, k, v);
    if exists|i: int| 0 <= i < s.len() && lkey(s[i]) == key {
        let i = choose|i: int| 0 <= i < s.len() && lkey(s[i]) == key;
        if i == s.len() - 1 {
            assert(r.drop_last() =~= s.drop_last());
            assert(r.last() == (c, k, v));
            assert(entries_map(r) == entries_map(s.drop_last()).insert(key, v));
            lemma_entries_map(s.drop_last());
            assert(!entries_map(s.drop_last()).contains_key(key)) by {
                if entries_map(s.drop_last()).contains_key(key) {
                    let j = choose|j: int|
                        0 <= j < s.drop_last().len() && lkey(s.drop_last()[j]) == key;
                    assert(lkey(s[j]) == key);
                }
            }
            assert(entries_map(s).insert(key, v) =~= entries_map(s.drop_last()).insert(key, v));
        } else {
            assert(s.drop_last()[i] == s[i]);
            lemma_assoc_set(s.drop_last(), c, k, v);
            assert(assoc_set(s.drop_last(), c, k, v) == s.drop_last().update(i, (c, k, v))) by {
                let j = choose|j: int|
                    0 <= j < s.drop_last().len() && lkey(s.drop_last()[j]) == key;
                assert(j == i);
            }
            assert(r.drop_last() =~= s.drop_last().update(i, (c, k, v)));
            assert(r.last() == s.last());
            assert(lkey(s.last()) != key);
            assert(entries_map(r) == entries_map(s.drop_last().update(i, (c, k, v))).insert(
                lkey(s.last()),
                s.last().2,
            ));
            assert(entries_map(r) =~= entries_map(s).insert(key, v));
        }
    } else {
        assert(r.drop_last() =~= s);
        assert(r.last() == (c, k, v));
        assert forall|i: int, j: int| 0 <= i < j < r.len() implies lkey(r[i]) != lkey(r[j]) by {
            if j == r.len() - 1 {
                assert(lkey(r[i]) != key);
            }
        }
    }
}

/// The association list holding every recorded `(contributor, skill) -> level`.
#[derive(Debug, Clone, PartialEq)]
pub struct LevelMap {
    pub entries: Vec<(usize, usize, usize)>,
}

impl View for LevelMap {
    type V = Seq<(usize, usize, usize)>;

    open spec fn view(&self) -> Seq<(usize, usize, usize)> {
        self.entries@
    }
}

impl LevelMap {
    /// Keys are pairwise distinct.
    pub open spec fn wf(&self) -> bool {
        distinct_keys(self@)
    }

    /// The mapping this list denotes.
    pub open spec fn map_view(&self) -> Map<(int, int), usize> {
        entries_map(self@)
    }

    pub fn new() -> (r: LevelMap)
        ensures
            r@ == Seq::<(usize, usize, usize)>::empty(),
            r.wf(),
    {
        LevelMap { entries: Vec::new() }
    }

    /// The recorded level of contributor `c` in skill `k`, or zero.
    pub fn get_or_zero(&self, c: usize, k: usize) -> (r: usize)
        requires
            self.wf(),
        ensures
            r == level_of(self.map_view(), c as int, k as int),
    {
        proof {
            lemma_entries_map(self@);
        }
        let n = self.entries.len();
        for i in 0..n
            invariant
                n == self@.len(),
                self.wf(),
                forall|j: int| 0 <= j < i ==> lkey(self@[j]) != (c as int, k as int),
                forall|jj: int|
                    0 <= jj < self@.len() ==> entries_map(self@).contains_key(
                        #[trigger] lkey(self@[jj]),
                    ) && entries_map(self@)[lkey(self@[jj])] == self@[jj].2,
                forall|key: (int, int)|
                    #[trigger] entries_map(self@).contains_key(key) ==> exists|jj: int|
                        0 <= jj < self@.len() && lkey(self@[jj]) == key,
        {
            let e = self.entries[i];
            if e.0 == c && e.1 == k {
                return e.2;
            }
        }
        proof {
            if self.map_view().contains_key((c as int, k as int)) {
                let j = choose|j: int|
                    0 <= j < self@.len() && lkey(self@[j]) == (c as int, k as int);
            }
        }
        0
    }

    /// Record level `v` for contributor `c` in skill `k`.
    pub fn set(&mut self, c: usize, k: usize, v: usize)
        requires
            old(self).wf(),
        ensures
            final(self).wf(),
            final(self)@ == assoc_set(old(self)@, c, k, v),
            final(self).map_view() == old(self).map_view().insert((c as int, k as int), v),
    {
        let n = self.entries.len();
        for i in 0..n
            invariant
                n == self@.len(),
                self.wf(),
                self@ == old(self)@,
                forall|j: int| 0 <= j < i ==> lkey(self@[j]) != (c as int, k as int),
        {
            let e = self.entries[i];
            if e.0 == c && e.1 == k {
                proof {
                    lemma_assoc_set(old(self)@, c, k, v);
                    assert(lkey(self@[i as int]) == (c as int, k as int));
                    assert(exists|w: int|
                        0 <= w < old(self)@.len() && lkey(old(self)@[w]) == (c as int, k as int));
                }
                self.entries[i] = (c, k, v);
                proof {
                    let w = choose|w: int|
                        0 <= w < old(self)@.len() && lkey(old(self)@[w]) == (c as int, k as int);
                    assert(w == i);
                    assert(self@ == assoc_set(old(self)@, c, k, v));
                    assert(entries_map(self@) == entries_map(old(self)@).insert(
                        (c as int, k as int),
                        v,
                    ));
                }
                return ;
            }
        }
        proof {
            lemma_assoc_set(old(self)@, c, k, v);
            assert(!exists|i: int|
                0 <= i < old(self)@.len() && lkey(old(self)@[i]) == (c as int, k as int));
        }
        self.entries.push((c, k, v));
    }

    /// An independent copy, so one scoring run cannot leak state into another.
    pub fn duplicate(&self) -> (r: LevelMap)
        ensures
            r@ == self@,
    {
        let mut entries: Vec<(usize, usize, usize)> = Vec::new();
        let n = self.entries.len();
        for i in 0..n
            invariant
                n == self@.len(),
                entries@ == self@.take(i as int),
        {
            entries.push(self.entries[i]);
            proof {
                assert(self@.take(i + 1) =~= self@.take(i as int).push(self@[i as int]));
            }
        }
        proof {
            assert(self@.take(n as int) =~= self@);
        }
        LevelMap { entries }
    }

    /// Number of recorded entries.
    pub fn len(&self) -> (r: usize)
        ensures
            r == self@.len(),
    {
        self.entries.len()
    }
}

} // verus!

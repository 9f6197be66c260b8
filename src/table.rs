//! A small association table keyed by strings, with unique keys.
use vstd::prelude::*;

verus! {

/// The map that a list of `(key, value)` pairs denotes, later pairs overriding earlier ones.
pub open spec fn map_of<V: DeepView>(s: Seq<(String, V)>) -> Map<Seq<char>, V::V>
    decreases s.len(),
{
    if s.len() == 0 {
        Map::empty()
    } else {
        map_of(s.drop_last()).insert(s.last().0@, s.last().1.deep_view())
    }
}

/// No key occurs twice.
pub open spec fn keys_unique<V>(s: Seq<(String, V)>) -> bool {
    forall|i: int, j: int| 0 <= i < s.len() && 0 <= j < s.len() && i != j ==> s[i].0@ != s[j].0@
}

proof fn lemma_unique_prefix<V>(s: Seq<(String, V)>)
    requires
        keys_unique(s),
        s.len() > 0,
    ensures
        keys_unique(s.drop_last()),
{
    let p = s.drop_last();
    assert forall|a: int, b: int|
        0 <= a < p.len() && 0 <= b < p.len() && a != b implies p[a].0@ != p[b].0@ by {
        assert(p[a] == s[a] && p[b] == s[b]);
    }
}

proof fn lemma_map_of_index<V: DeepView>(s: Seq<(String, V)>)
    requires
        keys_unique(s),
    ensures
        forall|k: Seq<char>| #[trigger]
            map_of(s).contains_key(k) <==> exists|i: int| 0 <= i < s.len() && s[i].0@ == k,
        forall|i: int| 0 <= i < s.len() ==> map_of(s)[#[trigger] s[i].0@] == s[i].1.deep_view(),
    decreases s.len(),
{
    if s.len() > 0 {
        let p = s.drop_last();
        lemma_unique_prefix(s);
        lemma_map_of_index(p);
        let m = map_of(p);
        let last = s.len() - 1;
        assert(map_of(s) == m.insert(s[last].0@, s[last].1.deep_view()));
        assert forall|k: Seq<char>| #[trigger]
            map_of(s).contains_key(k) <==> exists|i: int| 0 <= i < s.len() && s[i].0@ == k by {
            if m.contains_key(k) {
                let i = choose|i: int| 0 <= i < p.len() && p[i].0@ == k;
                assert(s[i] == p[i]);
            }
            if k == s[last].0@ {
                assert(s[last].0@ == k);
            }
            if exists|i: int| 0 <= i < s.len() && s[i].0@ == k {
                let i = choose|i: int| 0 <= i < s.len() && s[i].0@ == k;
                if i < p.len() {
                    assert(p[i] == s[i]);
                    assert(m.contains_key(k));
                }
            }
        }
        assert forall|i: int| 0 <= i < s.len() implies map_of(s)[#[trigger] s[i].0@]
            == s[i].1.deep_view() by {
            if i < p.len() {
                assert(p[i] == s[i]);
                assert(s[i].0@ != s[s.len() - 1].0@);
            }
        }
    }
}

/// A table from names to values; each name occurs at most once.
pub struct Table<V> {
    entries: Vec<(String, V)>,
}

impl<V: DeepView> View for Table<V> {
    type V = Map<Seq<char>, V::V>;

    open spec fn view(&self) -> Map<Seq<char>, V::V> {
        map_of(self.pairs())
    }
}

impl<V: DeepView> Table<V> {
    /// The table's names are unique.
    pub closed spec fn wf(&self) -> bool {
        keys_unique(self.entries@)
    }

    /// The pairs of the table, in the order in which their names first came.
    pub closed spec fn pairs(&self) -> Seq<(String, V)> {
        self.entries@
    }

    /// Every pair of the table is in its map.
    pub proof fn lemma_pairs(&self)
        requires
            self.wf(),
        ensures
            forall|i: int|
                0 <= i < self.pairs().len() ==> self@.contains_key(#[trigger] self.pairs()[i].0@)
                    && self@[self.pairs()[i].0@] == self.pairs()[i].1.deep_view(),
    {
        lemma_map_of_index(self.entries@);
        assert forall|i: int| 0 <= i < self.pairs().len() implies self@.contains_key(
            #[trigger] self.pairs()[i].0@,
        ) by {
            assert(self.entries@[i].0@ == self.pairs()[i].0@);
        }
    }

    /// The pair at position `i`.
    pub fn pair_at(&self, i: usize) -> (r: &(String, V))
        requires
            i < self.pairs().len(),
        ensures
            *r == self.pairs()[i as int],
    {
        &self.entries[i]
    }

    /// An empty table.
    pub fn new() -> (r: Self)
        ensures
            r.wf(),
            r@ == Map::<Seq<char>, V::V>::empty(),
    {
        Table { entries: Vec::new() }
    }

    /// Position of the pair named `k`, if there is one.
    fn position(&self, k: &String) -> (r: Option<usize>)
        requires
            self.wf(),
        ensures
            match r {
                Some(i) => i < self.entries@.len() && self.entries@[i as int].0@ == k@,
                None => !self@.contains_key(k@),
            },
    {
        proof {
            lemma_map_of_index(self.entries@);
        }
        let mut i: usize = 0;
        while i < self.entries.len()
            invariant
                i <= self.entries@.len(),
                forall|j: int| 0 <= j < i ==> self.entries@[j].0@ != k@,
            decreases self.entries@.len() - i,
        {
            if self.entries[i].0 == *k {
                return Some(i);
            }
            i += 1;
        }
        None
    }

    /// Associates `v` with `k`, replacing any earlier value of `k`.
    pub fn insert(&mut self, k: String, v: V)
        requires
            old(self).wf(),
        ensures
            final(self).wf(),
            final(self)@ == old(self)@.insert(k@, v.deep_view()),
    {
        let ghost kv = k@;
        let ghost vv = v.deep_view();
        let ghost before = self@;
        match self.position(&k) {
            Some(i) => {
                let ghost s0 = self.entries@;
                self.entries.set(i, (k, v));
                proof {
                    let s1 = self.entries@;
                    assert(keys_unique(s1)) by {
                        assert forall|a: int, b: int|
                            0 <= a < s1.len() && 0 <= b < s1.len() && a != b implies s1[a].0@
                            != s1[b].0@ by {
                            if a != i && b != i {
                                assert(s1[a] == s0[a] && s1[b] == s0[b]);
                            } else if a == i {
                                assert(s1[b] == s0[b]);
                            } else {
                                assert(s1[a] == s0[a]);
                            }
                        }
                    }
                    lemma_map_of_index(s0);
                    lemma_map_of_index(s1);
                    assert forall|q: Seq<char>| #[trigger] map_of(s1).contains_key(q)
                        == before.insert(kv, vv).contains_key(q) by {
                        if q == kv {
                            assert(s1[i as int].0@ == q);
                        }
                        if exists|j: int| 0 <= j < s0.len() && s0[j].0@ == q {
                            let j = choose|j: int| 0 <= j < s0.len() && s0[j].0@ == q;
                            if j != i {
                                assert(s1[j] == s0[j]);
                            }
                        }
                        if exists|j: int| 0 <= j < s1.len() && s1[j].0@ == q {
                            let j = choose|j: int| 0 <= j < s1.len() && s1[j].0@ == q;
                            if j != i {
                                assert(s1[j] == s0[j]);
                            }
                        }
                    }
                    assert forall|q: Seq<char>| #[trigger] map_of(s1).contains_key(q) implies map_of(
                        s1,
                    )[q] == before.insert(kv, vv)[q] by {
                        let j = choose|j: int| 0 <= j < s1.len() && s1[j].0@ == q;
                        if j != i {
                            assert(s1[j] == s0[j]);
                        }
                    }
                    assert(map_of(s1) =~= before.insert(kv, vv));
                }
            },
            None => {
                let ghost s0 = self.entries@;
                self.entries.push((k, v));
                proof {
                    let s1 = self.entries@;
                    lemma_map_of_index(s0);
                    assert(s1.drop_last() =~= s0);
                    assert forall|a: int, b: int|
                        0 <= a < s1.len() && 0 <= b < s1.len() && a != b implies s1[a].0@
                        != s1[b].0@ by {
                        if a < s0.len() && b < s0.len() {
                            assert(s1[a] == s0[a] && s1[b] == s0[b]);
                        } else if a < s0.len() {
                            assert(s1[a] == s0[a]);
                        } else {
                            assert(s1[b] == s0[b]);
                        }
                    }
                }
            },
        }
    }

    /// Removes the pair named `k`, if there is one.
    pub fn remove(&mut self, k: &String)
        requires
            old(self).wf(),
        ensures
            final(self).wf(),
            final(self)@ == old(self)@.remove(k@),
    {
        let ghost before = self@;
        match self.position(k) {
            Some(i) => {
                let ghost s0 = self.entries@;
                let _ = self.entries.remove(i);
                proof {
                    let s1 = self.entries@;
                    assert(s1 =~= s0.remove(i as int));
                    assert forall|a: int, b: int|
                        0 <= a < s1.len() && 0 <= b < s1.len() && a != b implies s1[a].0@
                        != s1[b].0@ by {
                        let a0 = if a < i { a } else { a + 1 };
                        let b0 = if b < i { b } else { b + 1 };
                        assert(s1[a] == s0[a0] && s1[b] == s0[b0]);
                    }
                    lemma_map_of_index(s0);
                    lemma_map_of_index(s1);
                    assert forall|q: Seq<char>| #[trigger] map_of(s1).contains_key(q)
                        == before.remove(k@).contains_key(q) by {
                        if exists|j: int| 0 <= j < s0.len() && s0[j].0@ == q {
                            let j = choose|j: int| 0 <= j < s0.len() && s0[j].0@ == q;
                            if j < i {
                                assert(s1[j] == s0[j]);
                            } else if j > i {
                                assert(s1[j - 1] == s0[j]);
                            }
                        }
                        if exists|j: int| 0 <= j < s1.len() && s1[j].0@ == q {
                            let j = choose|j: int| 0 <= j < s1.len() && s1[j].0@ == q;
                            let j0 = if j < i { j } else { j + 1 };
                            assert(s1[j] == s0[j0]);
                        }
                    }
                    assert forall|q: Seq<char>| #[trigger] map_of(s1).contains_key(q) implies map_of(
                        s1,
                    )[q] == before.remove(k@)[q] by {
                        let j = choose|j: int| 0 <= j < s1.len() && s1[j].0@ == q;
                        let j0 = if j < i { j } else { j + 1 };
                        assert(s1[j] == s0[j0]);
                    }
                    assert(map_of(s1) =~= before.remove(k@));
                }
            },
            None => {
                assert(before.remove(k@) =~= before);
            },
        }
    }

    /// The value associated with `k`, if any.
    pub fn get(&self, k: &str) -> (r: Option<&V>)
        requires
            self.wf(),
        ensures
            r.is_some() == self@.contains_key(k@),
            r.is_some() ==> r.unwrap().deep_view() == self@[k@],
    {
        let key = k.to_owned();
        match self.position(&key) {
            Some(i) => {
                proof {
                    lemma_map_of_index(self.entries@);
                }
                Some(&self.entries[i].1)
            },
            None => None,
        }
    }

    /// The number of names in the table.
    pub fn len(&self) -> (r: usize)
        requires
            self.wf(),
        ensures
            r == self@.len(),
            r == self.pairs().len(),
    {
        proof {
            lemma_map_of_index(self.entries@);
            lemma_len(self.entries@);
        }
        self.entries.len()
    }
}

proof fn lemma_len<V: DeepView>(s: Seq<(String, V)>)
    requires
        keys_unique(s),
    ensures
        map_of(s).dom().finite(),
        map_of(s).len() == s.len(),
    decreases s.len(),
{
    if s.len() > 0 {
        let p = s.drop_last();
        lemma_unique_prefix(s);
        lemma_len(p);
        lemma_map_of_index(p);
        assert(!map_of(p).contains_key(s.last().0@)) by {
            if map_of(p).contains_key(s.last().0@) {
                let i = choose|i: int| 0 <= i < p.len() && p[i].0@ == s.last().0@;
                assert(p[i] == s[i]);
            }
        }
    }
}

} // verus!

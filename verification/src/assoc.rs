//! An association map from `u64` keys to values, stored as a vector of
//! entries with pairwise-distinct keys and viewed as a mathematical
//! `Map<u64, V>`.

use vstd::prelude::*;

verus! {

/// The mathematical map denoted by a sequence of key/value entries;
/// later entries win, which is irrelevant once keys are distinct.
pub open spec fn map_of<V>(s: Seq<(u64, V)>) -> Map<u64, V>
    decreases s.len(),
{
    if s.len() == 0 {
        Map::empty()
    } else {
        map_of(s.drop_last()).insert(s.last().0, s.last().1)
    }
}

/// The keys of an entry sequence, in order.
pub open spec fn keys_of<V>(s: Seq<(u64, V)>) -> Seq<u64> {
    s.map_values(|p: (u64, V)| p.0)
}

pub proof fn lemma_map_of_contains<V>(s: Seq<(u64, V)>, k: u64)
    ensures
        map_of(s).contains_key(k) <==> (exists|i: int|
            0 <= i < s.len() && (#[trigger] s[i]).0 == k),
    decreases s.len(),
{
    if s.len() > 0 {
        lemma_map_of_contains(s.drop_last(), k);
        if s.last().0 == k {
            assert(s[s.len() - 1].0 == k);
        } else {
            if map_of(s).contains_key(k) {
                let i = choose|i: int|
                    0 <= i < s.drop_last().len() && (#[trigger] s.drop_last()[i]).0 == k;
                assert(s[i].0 == k);
            }
            if exists|i: int| 0 <= i < s.len() && (#[trigger] s[i]).0 == k {
                let i = choose|i: int| 0 <= i < s.len() && (#[trigger] s[i]).0 == k;
                assert(i < s.len() - 1);
                assert(s.drop_last()[i].0 == k);
            }
        }
    }
}

pub proof fn lemma_map_of_get<V>(s: Seq<(u64, V)>, i: int)
    requires
        keys_of(s).no_duplicates(),
        0 <= i < s.len(),
    ensures
        map_of(s).contains_key(s[i].0),
        map_of(s)[s[i].0] == s[i].1,
    decreases s.len(),
{
    assert(keys_of(s)[i] == s[i].0);
    if i < s.len() - 1 {
        assert(keys_of(s.drop_last()) =~= keys_of(s).drop_last());
        assert(keys_of(s.drop_last()).no_duplicates()) by {
            assert(forall|a: int, b: int|
                0 <= a < b < keys_of(s.drop_last()).len() ==> keys_of(s.drop_last())[a]
                    == keys_of(s)[a] && keys_of(s.drop_last())[b] == keys_of(s)[b]);
        }
        lemma_map_of_get(s.drop_last(), i);
        assert(keys_of(s)[s.len() - 1] == s.last().0);
        assert(s[i].0 != s.last().0);
        assert(s.drop_last()[i] == s[i]);
    }
}

pub proof fn lemma_map_of_remove<V>(s: Seq<(u64, V)>, i: int)
    requires
        keys_of(s).no_duplicates(),
        0 <= i < s.len(),
    ensures
        map_of(s.remove(i)) == map_of(s).remove(s[i].0),
    decreases s.len(),
{
    let k = s[i].0;
    if i == s.len() - 1 {
        assert(s.remove(i) =~= s.drop_last());
        lemma_map_of_contains(s.drop_last(), k);
        if map_of(s.drop_last()).contains_key(k) {
            let j = choose|j: int|
                0 <= j < s.drop_last().len() && (#[trigger] s.drop_last()[j]).0 == k;
            assert(keys_of(s)[j] == k && keys_of(s)[i] == k);
            assert(false);
        }
        assert(map_of(s.drop_last()).insert(s.last().0, s.last().1).remove(k) =~= map_of(
            s.drop_last(),
        ));
    } else {
        assert(keys_of(s.drop_last()) =~= keys_of(s).drop_last());
        assert(keys_of(s.drop_last()).no_duplicates()) by {
            assert(forall|a: int, b: int|
                0 <= a < b < keys_of(s.drop_last()).len() ==> keys_of(s.drop_last())[a]
                    == keys_of(s)[a] && keys_of(s.drop_last())[b] == keys_of(s)[b]);
        }
        lemma_map_of_remove(s.drop_last(), i);
        assert(s.remove(i).drop_last() =~= s.drop_last().remove(i));
        assert(s.remove(i).last() == s.last());
        assert(s.remove(i).len() == s.len() - 1);
        // the removed key differs from the last key
        assert(keys_of(s)[i] == k && keys_of(s)[s.len() - 1] == s.last().0);
        assert(k != s.last().0);
        assert(map_of(s.remove(i)) == map_of(s.drop_last().remove(i)).insert(
            s.last().0,
            s.last().1,
        ));
        assert(map_of(s.drop_last()).remove(k).insert(s.last().0, s.last().1) =~= map_of(
            s.drop_last(),
        ).insert(s.last().0, s.last().1).remove(k));
    }
}

/// Removing an entry keeps keys pairwise distinct and drops exactly the
/// key at the removed position.
pub proof fn lemma_keys_remove(ks: Seq<u64>, i: int)
    requires
        ks.no_duplicates(),
        0 <= i < ks.len(),
    ensures
        ks.remove(i).no_duplicates(),
        forall|x: u64| ks.remove(i).contains(x) <==> (ks.contains(x) && x != ks[i]),
{
    let r = ks.remove(i);
    assert forall|a: int, b: int| 0 <= a < b < r.len() implies r[a] != r[b] by {
        let aa: int = if a < i {
            a
        } else {
            a + 1
        };
        let bb: int = if b < i {
            b
        } else {
            b + 1
        };
        assert(r[a] == ks[aa] && r[b] == ks[bb]);
        assert(aa < bb);
        assert(ks[aa] != ks[bb]);
    }
    assert forall|x: u64| r.contains(x) <==> (ks.contains(x) && x != ks[i]) by {
        if r.contains(x) {
            let j = choose|j: int| 0 <= j < r.len() && r[j] == x;
            let jj: int = if j < i {
                j
            } else {
                j + 1
            };
            assert(ks[jj] == x);
            assert(jj != i && ks[jj] != ks[i]);
        }
        if ks.contains(x) && x != ks[i] {
            let j = choose|j: int| 0 <= j < ks.len() && ks[j] == x;
            assert(j != i);
            if j < i {
                assert(r[j] == x);
            } else {
                assert(r[j - 1] == x);
            }
        }
    }
}

/// An association map with pairwise-distinct `u64` keys.
pub struct AssocMap<V> {
    pub entries: Vec<(u64, V)>,
}

impl<V> View for AssocMap<V> {
    type V = Map<u64, V>;

    open spec fn view(&self) -> Map<u64, V> {
        map_of(self.entries@)
    }
}

impl<V> AssocMap<V> {
    /// Representation invariant: no key occurs twice.
    pub open spec fn wf(&self) -> bool {
        keys_of(self.entries@).no_duplicates()
    }

    pub fn new() -> (r: AssocMap<V>)
        ensures
            r.wf(),
            r@ == Map::<u64, V>::empty(),
            r.entries@.len() == 0,
    {
        let r = AssocMap { entries: Vec::new() };
        proof {
            assert(keys_of(r.entries@) =~= Seq::<u64>::empty());
        }
        r
    }

    #[verifier::loop_isolation(false)]
    fn index_of(&self, k: u64) -> (r: Option<usize>)
        requires
            self.wf(),
        ensures
            match r {
                Some(i) => i < self.entries@.len() && self.entries@[i as int].0 == k
                    && self@.contains_key(k) && self@[k] == self.entries@[i as int].1,
                None => !self@.contains_key(k),
            },
    {
        let mut i: usize = 0;
        while i < self.entries.len()
            invariant
                i <= self.entries.len(),
                forall|j: int| 0 <= j < i ==> (#[trigger] self.entries@[j]).0 != k,
            decreases self.entries.len() - i,
        {
            if self.entries[i].0 == k {
                proof {
                    lemma_map_of_get(self.entries@, i as int);
                }
                return Some(i);
            }
            i += 1;
        }
        proof {
            lemma_map_of_contains(self.entries@, k);
        }
        None
    }

    pub fn contains_key(&self, k: u64) -> (r: bool)
        requires
            self.wf(),
        ensures
            r == self@.contains_key(k),
    {
        self.index_of(k).is_some()
    }

    pub fn get(&self, k: u64) -> (r: Option<&V>)
        requires
            self.wf(),
        ensures
            match r {
                Some(v) => self@.contains_key(k) && *v == self@[k],
                None => !self@.contains_key(k),
            },
    {
        match self.index_of(k) {
            Some(i) => Some(&self.entries[i].1),
            None => None,
        }
    }

    /// Inserts or replaces the value under `k`.
    pub fn insert(&mut self, k: u64, v: V)
        requires
            old(self).wf(),
        ensures
            final(self).wf(),
            final(self)@ == old(self)@.insert(k, v),
    {
        let ghost s = self.entries@;
        match self.index_of(k) {
            Some(i) => {
                self.entries.remove(i);
                proof {
                    lemma_map_of_remove(s, i as int);
                    lemma_keys_remove(keys_of(s), i as int);
                    assert(keys_of(s.remove(i as int)) =~= keys_of(s).remove(i as int));
                }
                let ghost s2 = self.entries@;
                self.entries.push((k, v));
                proof {
                    assert(self.entries@.drop_last() =~= s2);
                    assert(map_of(self.entries@) == map_of(s2).insert(k, v));
                    assert(map_of(s).remove(k).insert(k, v) =~= map_of(s).insert(k, v));
                    assert(keys_of(self.entries@) =~= keys_of(s2).push(k));
                    assert(keys_of(s)[i as int] == k);
                    assert(!keys_of(s).remove(i as int).contains(k));
                    assert(!keys_of(s2).contains(k));
                    assert forall|a: int, b: int|
                        0 <= a < b < keys_of(self.entries@).len() implies keys_of(
                        self.entries@,
                    )[a] != keys_of(self.entries@)[b] by {
                        if b < keys_of(self.entries@).len() - 1 {
                            assert(keys_of(s2)[a] != keys_of(s2)[b]);
                        } else {
                            assert(keys_of(s2).contains(keys_of(s2)[a]));
                        }
                    }
                }
            },
            None => {
                self.entries.push((k, v));
                proof {
                    assert(self.entries@.drop_last() =~= s);
                    assert(map_of(self.entries@) == map_of(s).insert(k, v));
                    lemma_map_of_contains(s, k);
                    assert(keys_of(self.entries@) =~= keys_of(s).push(k));
                    assert forall|a: int, b: int|
                        0 <= a < b < keys_of(self.entries@).len() implies keys_of(
                        self.entries@,
                    )[a] != keys_of(self.entries@)[b] by {
                        if b < keys_of(self.entries@).len() - 1 {
                            assert(keys_of(s)[a] != keys_of(s)[b]);
                        } else {
                            assert(keys_of(s).contains(keys_of(s)[a]));
                            assert(s[a].0 == keys_of(s)[a]);
                        }
                    }
                }
            },
        }
    }

    /// Removes the entry under `k`, returning its value; a missing key is
    /// a no-op.
    pub fn take_entry(&mut self, k: u64) -> (r: Option<V>)
        requires
            old(self).wf(),
        ensures
            final(self).wf(),
            match r {
                Some(v) => old(self)@.contains_key(k) && v == old(self)@[k] && final(self)@
                    == old(self)@.remove(k),
                None => !old(self)@.contains_key(k) && *final(self) == *old(self),
            },
    {
        let ghost s = self.entries@;
        match self.index_of(k) {
            Some(i) => {
                let (_, v) = self.entries.remove(i);
                proof {
                    lemma_map_of_remove(s, i as int);
                    lemma_keys_remove(keys_of(s), i as int);
                    assert(keys_of(s.remove(i as int)) =~= keys_of(s).remove(i as int));
                }
                Some(v)
            },
            None => None,
        }
    }

    /// The keys, as a duplicate-free vector.
    #[verifier::loop_isolation(false)]
    pub fn keys_vec(&self) -> (r: Vec<u64>)
        requires
            self.wf(),
        ensures
            r@ == keys_of(self.entries@),
            r@.no_duplicates(),
            forall|j: int| 0 <= j < r@.len() ==> self@.contains_key(#[trigger] r@[j]),
            forall|k: u64| #[trigger] self@.contains_key(k) ==> r@.contains(k),
    {
        let mut r: Vec<u64> = Vec::new();
        let mut i: usize = 0;
        while i < self.entries.len()
            invariant
                i <= self.entries.len(),
                r@ == keys_of(self.entries@).take(i as int),
            decreases self.entries.len() - i,
        {
            r.push(self.entries[i].0);
            proof {
                assert(r@ =~= keys_of(self.entries@).take(i + 1));
            }
            i += 1;
        }
        proof {
            assert(keys_of(self.entries@).take(self.entries@.len() as int) =~= keys_of(
                self.entries@,
            ));
            assert forall|j: int|
                0 <= j < r@.len() implies self@.contains_key(#[trigger] r@[j]) by {
                lemma_map_of_get(self.entries@, j);
            }
            assert forall|k: u64| #[trigger] self@.contains_key(k) implies r@.contains(k) by {
                lemma_map_of_contains(self.entries@, k);
                let j = choose|j: int| 0 <= j < self.entries@.len() && (#[trigger] self.entries@[j]).0 == k;
                assert(r@[j] == k);
            }
        }
        r
    }

    pub fn is_empty(&self) -> (r: bool)
        requires
            self.wf(),
        ensures
            r <==> self@ == Map::<u64, V>::empty(),
    {
        let r = self.entries.len() == 0;
        proof {
            if self.entries@.len() == 0 {
                assert(self@ =~= Map::<u64, V>::empty());
            } else {
                lemma_map_of_get(self.entries@, 0);
                assert(self@.contains_key(self.entries@[0].0));
                assert(self@ != Map::<u64, V>::empty());
            }
        }
        r
    }
}

} // verus!

//! A finite set of identifiers (entities or actions), stored as a
//! duplicate-free vector and viewed as a mathematical `Set<u64>`.

use vstd::prelude::*;

verus! {

/// One step of a prefix scan: the members of a prefix one longer are the
/// members of the shorter prefix plus the element at its end.
pub proof fn lemma_take_succ(s: Seq<u64>, i: int)
    requires
        0 <= i < s.len(),
    ensures
        forall|x: u64| s.take(i + 1).contains(x) <==> (s.take(i).contains(x) || x == s[i]),
{
    assert forall|x: u64| s.take(i + 1).contains(x) <==> (s.take(i).contains(x) || x == s[i]) by {
        if s.take(i + 1).contains(x) && x != s[i] {
            let j = choose|j: int| 0 <= j < i + 1 && #[trigger] s.take(i + 1)[j] == x;
            assert(s.take(i + 1)[i] == s[i]);
            assert(j < i);
            assert(s.take(i)[j] == x);
        }
        if s.take(i).contains(x) {
            let j = choose|j: int| 0 <= j < i && #[trigger] s.take(i)[j] == x;
            assert(s.take(i + 1)[j] == x);
        }
        if x == s[i] {
            assert(s.take(i + 1)[i] == x);
        }
    }
}

/// A set of identifiers with a duplicate-free vector representation.
pub struct IdSet {
    pub ids: Vec<u64>,
}

impl View for IdSet {
    type V = Set<u64>;

    open spec fn view(&self) -> Set<u64> {
        self.ids@.to_set()
    }
}

impl IdSet {
    /// Representation invariant: no identifier is stored twice.
    pub open spec fn wf(&self) -> bool {
        self.ids@.no_duplicates()
    }

    pub fn new() -> (r: IdSet)
        ensures
            r.wf(),
            r@ == Set::<u64>::empty(),
    {
        let r = IdSet { ids: Vec::new() };
        proof {
            assert(r@ =~= Set::<u64>::empty());
        }
        r
    }

    #[verifier::loop_isolation(false)]
    pub fn contains(&self, x: u64) -> (r: bool)
        ensures
            r == self@.contains(x),
    {
        let mut i: usize = 0;
        while i < self.ids.len()
            invariant
                i <= self.ids.len(),
                forall|j: int| 0 <= j < i ==> self.ids@[j] != x,
            decreases self.ids.len() - i,
        {
            if self.ids[i] == x {
                return true;
            }
            i += 1;
        }
        proof {
            assert(!self.ids@.contains(x));
        }
        false
    }

    pub fn insert(&mut self, x: u64)
        requires
            old(self).wf(),
        ensures
            final(self).wf(),
            final(self)@ == old(self)@.insert(x),
    {
        if !self.contains(x) {
            self.ids.push(x);
            proof {
                assert forall|a: u64| self.ids@.contains(a)
                    <==> (old(self).ids@.contains(a) || a == x) by {
                    if self.ids@.contains(a) {
                        let j = choose|j: int| 0 <= j < self.ids@.len() && self.ids@[j] == a;
                        if j < old(self).ids@.len() {
                            assert(old(self).ids@[j] == a);
                        }
                    }
                    if old(self).ids@.contains(a) {
                        let j = choose|j: int|
                            0 <= j < old(self).ids@.len() && old(self).ids@[j] == a;
                        assert(self.ids@[j] == a);
                    }
                    if a == x {
                        assert(self.ids@[self.ids@.len() - 1] == x);
                    }
                }
                assert(self@ =~= old(self)@.insert(x));
            }
        } else {
            proof {
                assert(self@ =~= old(self)@.insert(x));
            }
        }
    }

    #[verifier::loop_isolation(false)]
    pub fn remove(&mut self, x: u64)
        requires
            old(self).wf(),
        ensures
            final(self).wf(),
            final(self)@ == old(self)@.remove(x),
    {
        let mut i: usize = 0;
        while i < self.ids.len()
            invariant
                i <= self.ids.len(),
                self.ids@ == old(self).ids@,
                forall|j: int| 0 <= j < i ==> self.ids@[j] != x,
            decreases self.ids.len() - i,
        {
            if self.ids[i] == x {
                let ghost s = self.ids@;
                self.ids.remove(i);
                proof {
                    assert(s.no_duplicates());
                    assert(s[i as int] == x);
                    assert(self.ids@ == s.remove(i as int));
                    assert(self.ids@.len() == s.len() - 1);
                    assert forall|a: u64| self.ids@.contains(a)
                        <==> (s.contains(a) && a != x) by {
                        if self.ids@.contains(a) {
                            let j = choose|j: int|
                                0 <= j < self.ids@.len() && self.ids@[j] == a;
                            assert(s[i as int] == x);
                            if j < i {
                                assert(s[j] == a);
                                assert(j != i && s[j] != s[i as int]);
                            } else {
                                assert(s[j + 1] == a);
                                assert(j + 1 != i && s[j + 1] != s[i as int]);
                            }
                            assert(a != x);
                        }
                        if s.contains(a) && a != x {
                            let j = choose|j: int| 0 <= j < s.len() && s[j] == a;
                            if j < i {
                                assert(self.ids@[j] == a);
                            } else {
                                assert(j != i);
                                assert(self.ids@[j - 1] == a);
                            }
                        }
                    }
                    assert(self@ =~= old(self)@.remove(x));
                    assert forall|j: int, k: int|
                        0 <= j < k < self.ids@.len() implies self.ids@[j] != self.ids@[k] by {
                        let s0 = s;
                        let jj: int = if j < i { j } else { j + 1 };
                        let kk: int = if k < i { k } else { k + 1 };
                        assert(self.ids@[j] == s0[jj]);
                        assert(self.ids@[k] == s0[kk]);
                        assert(jj < kk);
                        assert(s0[jj] != s0[kk]);
                    }
                }
                return ;
            }
            i += 1;
        }
        proof {
            assert(!self.ids@.contains(x));
            assert(self@ =~= old(self)@.remove(x));
        }
    }

    pub fn is_empty(&self) -> (r: bool)
        ensures
            r == self@.is_empty(),
    {
        let r = self.ids.len() == 0;
        proof {
            if self.ids@.len() == 0 {
                assert(self@ =~= Set::<u64>::empty());
            } else {
                assert(self@.contains(self.ids@[0]));
            }
        }
        r
    }

    /// Adds every member of `other` to this set (set union).
    #[verifier::loop_isolation(false)]
    pub fn add_all(&mut self, other: &IdSet)
        requires
            old(self).wf(),
        ensures
            final(self).wf(),
            final(self)@ == old(self)@ + other@,
    {
        let mut i: usize = 0;
        while i < other.ids.len()
            invariant
                i <= other.ids.len(),
                self.wf(),
                self@ == old(self)@ + other.ids@.take(i as int).to_set(),
            decreases other.ids.len() - i,
        {
            let ghost pre = self@;
            self.insert(other.ids[i]);
            proof {
                assert(other.ids@.take(i + 1).drop_last() =~= other.ids@.take(i as int));
                assert(other.ids@.take(i + 1).contains(other.ids@[i as int])) by {
                    assert(other.ids@.take(i + 1)[i as int] == other.ids@[i as int]);
                }
                assert forall|a: u64| other.ids@.take(i + 1).contains(a)
                    <==> (other.ids@.take(i as int).contains(a) || a == other.ids@[i as int]) by {
                    if other.ids@.take(i + 1).contains(a) && a != other.ids@[i as int] {
                        let j = choose|j: int|
                            0 <= j < i + 1 && #[trigger] other.ids@.take(i + 1)[j] == a;
                        assert(other.ids@.take(i as int)[j] == a);
                    }
                }
                assert(self@ =~= old(self)@ + other.ids@.take(i + 1).to_set());
            }
            i += 1;
        }
        proof {
            assert(other.ids@.take(other.ids@.len() as int) =~= other.ids@);
            assert(self@ =~= old(self)@ + other@);
        }
    }

    /// The members as a duplicate-free vector.
    #[verifier::loop_isolation(false)]
    pub fn to_vec(&self) -> (r: Vec<u64>)
        requires
            self.wf(),
        ensures
            r@ == self.ids@,
            r@.to_set() == self@,
            r@.no_duplicates(),
    {
        let mut r: Vec<u64> = Vec::new();
        let mut i: usize = 0;
        while i < self.ids.len()
            invariant
                i <= self.ids.len(),
                r@ == self.ids@.take(i as int),
            decreases self.ids.len() - i,
        {
            r.push(self.ids[i]);
            proof {
                assert(r@ =~= self.ids@.take(i + 1));
            }
            i += 1;
        }
        proof {
            assert(self.ids@.take(self.ids@.len() as int) =~= self.ids@);
        }
        r
    }

    /// Builds a set from a vector; duplicates collapse, so disabling an
    /// action twice has the same effect as disabling it once.
    #[verifier::loop_isolation(false)]
    pub fn from_vec(v: &Vec<u64>) -> (r: IdSet)
        ensures
            r.wf(),
            r@ == v@.to_set(),
    {
        let mut r = IdSet::new();
        let mut i: usize = 0;
        while i < v.len()
            invariant
                i <= v.len(),
                r.wf(),
                r@ == v@.take(i as int).to_set(),
            decreases v.len() - i,
        {
            r.insert(v[i]);
            proof {
                assert forall|a: u64| r@.contains(a) <==> v@.take(i + 1).to_set().contains(a) by {
                    assert(r@.contains(a) <==> (v@.take(i as int).contains(a)
                        || a == v@[i as int]));
                    assert(v@.take(i + 1).to_set().contains(a) == v@.take(i + 1).contains(a));
                    if v@.take(i + 1).contains(a) && a != v@[i as int] {
                        let j = choose|j: int| 0 <= j < i + 1 && #[trigger] v@.take(i + 1)[j] == a;
                        assert(v@.take(i + 1)[i as int] == v@[i as int]);
                        assert(j < i);
                        assert(v@.take(i as int)[j] == a);
                    }
                    if v@.take(i as int).contains(a) {
                        let j = choose|j: int| 0 <= j < i && #[trigger] v@.take(i as int)[j] == a;
                        assert(v@.take(i + 1)[j] == a);
                    }
                    if a == v@[i as int] {
                        assert(v@.take(i + 1)[i as int] == a);
                    }
                }
                assert(r@ =~= v@.take(i + 1).to_set());
                assert(r@ == v@.take(i + 1).to_set());
            }
            i += 1;
        }
        proof {
            assert(v@.take(v@.len() as int) =~= v@);
        }
        r
    }
}

} // verus!

//! An association from `u32` identifiers to values, kept as a vector of
//! entries with strictly increasing keys.  Iteration by index therefore
//! visits entries in ascending key order, which keeps broadcasts, snapshots
//! and persisted documents deterministic.

use vstd::prelude::*;

verus! {

/// Keys strictly increase along an entry sequence.
pub open spec fn strictly_sorted<V>(s: Seq<(u32, V)>) -> bool {
    forall|i: int, j: int| 0 <= i < j < s.len() ==> s[i].0 < s[j].0
}

/// Well-formedness depends only on the keys: a sequence whose keys match an
/// ordered one entry for entry is ordered too.
pub proof fn lemma_wf_same_keys<V, W>(a: Seq<(u32, V)>, b: Seq<(u32, W)>)
    requires
        strictly_sorted(a),
        b.len() == a.len(),
        forall|i: int| 0 <= i < b.len() ==> (#[trigger] b[i]).0 == a[i].0,
    ensures
        strictly_sorted(b),
{
    assert forall|i: int, j: int| 0 <= i < j < b.len() implies b[i].0 < b[j].0 by {
        assert(a[i].0 < a[j].0);
    }
}

/// Two well-formed maps of possibly different value types with pointwise
/// equal keys agree on membership, and each lookup lands at the same index
/// in both.
pub proof fn lemma_same_keys_index<V, W>(a: IdMap<V>, b: IdMap<W>)
    requires
        a.wf(),
        b.wf(),
        b@.len() == a@.len(),
        forall|i: int| 0 <= i < b@.len() ==> (#[trigger] b@[i]).0 == a@[i].0,
    ensures
        forall|k: u32| #[trigger] b.spec_contains(k) <==> a.spec_contains(k),
        forall|k: u32| #[trigger] a.spec_contains(k) ==> (b.spec_index_of(k) == a.spec_index_of(
            k,
        ) && b.spec_get(k) == Some(b@[a.spec_index_of(k)].1)),
{
    assert forall|k: u32| #[trigger] b.spec_contains(k) <==> a.spec_contains(k) by {
        if a.spec_contains(k) {
            let i = a.spec_index_of(k);
            a.lemma_at(i);
            assert(b@[i].0 == k);
        }
        if b.spec_contains(k) {
            let i = b.spec_index_of(k);
            b.lemma_at(i);
            assert(a@[i].0 == k);
        }
    }
    assert forall|k: u32| #[trigger] a.spec_contains(k) implies (b.spec_index_of(k)
        == a.spec_index_of(k) && b.spec_get(k) == Some(b@[a.spec_index_of(k)].1)) by {
        let i = a.spec_index_of(k);
        a.lemma_at(i);
        assert(b@[i].0 == k);
        b.lemma_at(i);
    }
}

#[derive(Debug)]
pub struct IdMap<V> {
    entries: Vec<(u32, V)>,
}

impl<V> View for IdMap<V> {
    type V = Seq<(u32, V)>;

    closed spec fn view(&self) -> Seq<(u32, V)> {
        self.entries@
    }
}

impl<V> IdMap<V> {
    pub open spec fn wf(self) -> bool {
        strictly_sorted(self@)
    }

    pub open spec fn spec_contains(self, k: u32) -> bool {
        exists|i: int| 0 <= i < self@.len() && self@[i].0 == k
    }

    pub open spec fn spec_index_of(self, k: u32) -> int {
        choose|i: int| 0 <= i < self@.len() && self@[i].0 == k
    }

    pub open spec fn spec_get(self, k: u32) -> Option<V> {
        if self.spec_contains(k) {
            Some(self@[self.spec_index_of(k)].1)
        } else {
            None
        }
    }

    /// In a well-formed map each key occurs at most once, so an entry at
    /// index `i` is what lookup of its key finds.
    pub proof fn lemma_at(self, i: int)
        requires
            self.wf(),
            0 <= i < self@.len(),
        ensures
            self.spec_contains(self@[i].0),
            self.spec_index_of(self@[i].0) == i,
            self.spec_get(self@[i].0) == Some(self@[i].1),
    {
        assert(self.spec_contains(self@[i].0));
        let j = self.spec_index_of(self@[i].0);
        if i < j {
            assert(self@[i].0 < self@[j].0);
        } else if j < i {
            assert(self@[j].0 < self@[i].0);
        }
    }

    pub fn new() -> (r: Self)
        ensures
            r@ == Seq::<(u32, V)>::empty(),
            r.wf(),
    {
        IdMap { entries: Vec::new() }
    }

    pub fn len(&self) -> (r: usize)
        ensures
            r == self@.len(),
    {
        self.entries.len()
    }

    pub fn is_empty(&self) -> (r: bool)
        ensures
            r == (self@.len() == 0),
    {
        self.entries.is_empty()
    }

    pub fn key_at(&self, i: usize) -> (r: u32)
        requires
            i < self@.len(),
        ensures
            r == self@[i as int].0,
    {
        self.entries[i].0
    }

    pub fn value_at(&self, i: usize) -> (r: &V)
        requires
            i < self@.len(),
        ensures
            *r == self@[i as int].1,
    {
        &self.entries[i].1
    }

    /// Removes and returns the entry with the smallest key.
    pub fn pop_first(&mut self) -> (r: Option<(u32, V)>)
        ensures
            old(self)@.len() == 0 ==> (r is None && *final(self) == *old(self)),
            old(self)@.len() > 0 ==> (r == Some(old(self)@[0]) && final(self)@ == old(
                self,
            )@.drop_first()),
            old(self).wf() ==> final(self).wf(),
    {
        if self.entries.len() == 0 {
            return None;
        }
        let pair = self.entries.remove(0);
        proof {
            assert(self@ =~= old(self)@.drop_first());
            if old(self).wf() {
                assert forall|a: int, b: int| 0 <= a < b < self@.len() implies self@[a].0
                    < self@[b].0 by {
                    assert(old(self)@[a + 1].0 < old(self)@[b + 1].0);
                }
            }
        }
        Some(pair)
    }

    /// Two well-formed maps with pointwise equal keys agree on membership,
    /// and each lookup lands at the same index in both.
    pub proof fn lemma_same_index_get(a: Self, b: Self)
        requires
            a.wf(),
            b.wf(),
            b@.len() == a@.len(),
            forall|i: int| 0 <= i < b@.len() ==> (#[trigger] b@[i]).0 == a@[i].0,
        ensures
            forall|k: u32| #[trigger] b.spec_contains(k) <==> a.spec_contains(k),
            forall|k: u32| #[trigger] a.spec_contains(k) ==> (b.spec_index_of(k)
                == a.spec_index_of(k) && b.spec_get(k) == Some(b@[a.spec_index_of(k)].1)),
    {
        assert forall|k: u32| #[trigger] b.spec_contains(k) <==> a.spec_contains(k) by {
            if a.spec_contains(k) {
                let i = a.spec_index_of(k);
                a.lemma_at(i);
                assert(b@[i].0 == k);
            }
            if b.spec_contains(k) {
                let i = b.spec_index_of(k);
                b.lemma_at(i);
                assert(a@[i].0 == k);
            }
        }
        assert forall|k: u32| #[trigger] a.spec_contains(k) implies (b.spec_index_of(k)
            == a.spec_index_of(k) && b.spec_get(k) == Some(b@[a.spec_index_of(k)].1)) by {
            let i = a.spec_index_of(k);
            a.lemma_at(i);
            assert(b@[i].0 == k);
            b.lemma_at(i);
        }
    }

    /// Lookups in a map extended by one entry with a fresh, largest key.
    pub proof fn lemma_append_get(a: Self, b: Self, k0: u32, v0: V)
        requires
            a.wf(),
            b.wf(),
            b@ == a@.push((k0, v0)),
        ensures
            forall|k: u32| k != k0 ==> b.spec_get(k) == a.spec_get(k),
            b.spec_get(k0) == Some(v0),
            forall|k: u32| #[trigger] b.spec_contains(k) <==> (a.spec_contains(k) || k == k0),
    {
        b.lemma_at(a@.len() as int);
        assert forall|k: u32| k != k0 implies b.spec_get(k) == a.spec_get(k) by {
            if a.spec_contains(k) {
                let i = a.spec_index_of(k);
                a.lemma_at(i);
                assert(b@[i].0 == k);
                b.lemma_at(i);
            } else {
                if b.spec_contains(k) {
                    let i = b.spec_index_of(k);
                    if i < a@.len() {
                        assert(a@[i].0 == k);
                    }
                }
            }
        }
        assert forall|k: u32| #[trigger] b.spec_contains(k) implies (a.spec_contains(k) || k
            == k0) by {
            let i = b.spec_index_of(k);
            b.lemma_at(i);
            if i < a@.len() {
                assert(a@[i].0 == k);
            }
        }
        assert forall|k: u32| (a.spec_contains(k) || k == k0) implies b.spec_contains(k) by {
            if a.spec_contains(k) {
                let i = a.spec_index_of(k);
                a.lemma_at(i);
                assert(b@[i].0 == k);
            }
        }
    }

    /// The index at which key `k` is stored, if it is present.
    pub fn find_index(&self, k: u32) -> (r: Option<usize>)
        requires
            self.wf(),
        ensures
            match r {
                Some(i) => i < self@.len() && self@[i as int].0 == k,
                None => !self.spec_contains(k),
            },
    {
        let p = self.lower_bound(k);
        if p < self.entries.len() && self.entries[p].0 == k {
            Some(p)
        } else {
            proof {
                if self.spec_contains(k) {
                    let i = self.spec_index_of(k);
                    if i < p as int {
                        assert(self@[i].0 < k);
                    } else if p < self@.len() && (p as int) < i {
                        assert(self@[p as int].0 < self@[i].0);
                    }
                }
            }
            None
        }
    }

    /// A mutable borrow of the value stored at index `i`; the key stays.
    pub fn value_at_mut(&mut self, i: usize) -> (r: &mut V)
        requires
            i < old(self)@.len(),
        ensures
            *r == old(self)@[i as int].1,
            final(self)@ == old(self)@.update(i as int, (old(self)@[i as int].0, *final(r))),
    {
        &mut self.entries[i].1
    }

    /// Replaces the value stored at index `i`, keeping its key.
    pub fn set_value_at(&mut self, i: usize, v: V)
        requires
            old(self).wf(),
            i < old(self)@.len(),
        ensures
            final(self).wf(),
            final(self)@ == old(self)@.update(i as int, (old(self)@[i as int].0, v)),
            final(self)@.len() == old(self)@.len(),
    {
        let k = self.entries[i].0;
        let slot = &mut self.entries[i];
        *slot = (k, v);
        proof {
            assert forall|a: int, b: int| 0 <= a < b < self@.len() implies self@[a].0
                < self@[b].0 by {
                assert(old(self)@[a].0 < old(self)@[b].0);
            }
        }
    }

    /// If each adjacent pair of keys increases, the whole sequence does.
    proof fn lemma_adjacent_sorted(s: Seq<(u32, V)>, a: int, b: int)
        requires
            forall|j: int| 0 <= j < s.len() - 1 ==> (#[trigger] s[j]).0 < s[j + 1].0,
            0 <= a < b < s.len(),
        ensures
            s[a].0 < s[b].0,
        decreases b - a,
    {
        if a + 1 < b {
            Self::lemma_adjacent_sorted(s, a, b - 1);
        }
    }

    /// Decides well-formedness at run time, for a map that crossed the
    /// unverified boundary.
    pub fn is_sorted(&self) -> (r: bool)
        ensures
            r == self.wf(),
    {
        let n = self.entries.len();
        if n == 0 {
            return true;
        }
        let mut i: usize = 0;
        while i + 1 < n
            invariant
                n == self@.len(),
                i < n,
                forall|j: int| 0 <= j < i ==> (#[trigger] self@[j]).0 < self@[j + 1].0,
            decreases n - i,
        {
            if self.entries[i].0 >= self.entries[i + 1].0 {
                assert(!strictly_sorted(self@)) by {
                    assert(self@[i as int].0 >= self@[i as int + 1].0);
                }
                return false;
            }
            i = i + 1;
        }
        proof {
            assert forall|a: int, b: int| 0 <= a < b < self@.len() implies self@[a].0
                < self@[b].0 by {
                Self::lemma_adjacent_sorted(self@, a, b);
            }
        }
        true
    }

    /// Index of the first entry whose key is not below `k`; all entries
    /// before it have keys below `k`.
    fn lower_bound(&self, k: u32) -> (r: usize)
        requires
            self.wf(),
        ensures
            r <= self@.len(),
            forall|i: int| 0 <= i < r ==> self@[i].0 < k,
            r < self@.len() ==> self@[r as int].0 >= k,
    {
        let n = self.entries.len();
        let mut i: usize = 0;
        while i < n
            invariant
                i <= n,
                n == self@.len(),
                self.wf(),
                forall|j: int| 0 <= j < i ==> self@[j].0 < k,
            decreases n - i,
        {
            if self.entries[i].0 >= k {
                return i;
            }
            i = i + 1;
        }
        i
    }

    pub fn contains_key(&self, k: u32) -> (r: bool)
        requires
            self.wf(),
        ensures
            r == self.spec_contains(k),
    {
        let p = self.lower_bound(k);
        if p < self.entries.len() && self.entries[p].0 == k {
            proof {
                self.lemma_at(p as int);
            }
            true
        } else {
            proof {
                if self.spec_contains(k) {
                    let i = self.spec_index_of(k);
                    assert(0 <= i < self@.len() && self@[i].0 == k);
                    if i < p as int {
                        assert(self@[i].0 < k);
                    } else if p < self@.len() && (p as int) < i {
                        assert(self@[p as int].0 < self@[i].0);
                    }
                }
            }
            false
        }
    }

    pub fn get(&self, k: u32) -> (r: Option<&V>)
        requires
            self.wf(),
        ensures
            match r {
                Some(v) => self.spec_get(k) == Some(*v),
                None => !self.spec_contains(k),
            },
    {
        let p = self.lower_bound(k);
        if p < self.entries.len() && self.entries[p].0 == k {
            proof {
                self.lemma_at(p as int);
            }
            Some(&self.entries[p].1)
        } else {
            proof {
                if self.spec_contains(k) {
                    let i = self.spec_index_of(k);
                    if i < p as int {
                        assert(self@[i].0 < k);
                    } else if p < self@.len() && (p as int) < i {
                        assert(self@[p as int].0 < self@[i].0);
                    }
                }
            }
            None
        }
    }

    /// Inserts `v` under key `k`, replacing any previous value.
    #[verifier::rlimit(50)]
    pub fn insert(&mut self, k: u32, v: V)
        requires
            old(self).wf(),
        ensures
            final(self).wf(),
            final(self).spec_get(k) == Some(v),
            final(self).spec_contains(k),
            forall|j: u32| j != k ==> final(self).spec_get(j) == old(self).spec_get(j),
            forall|j: u32| #[trigger] final(self).spec_contains(j)
                <==> (old(self).spec_contains(j) || j == k),
            final(self)@.len() == old(self)@.len() + (if old(self).spec_contains(k) {
                0int
            } else {
                1int
            }),
            (forall|i: int| 0 <= i < old(self)@.len() ==> (#[trigger] old(self)@[i]).0 < k)
                ==> final(self)@ == old(self)@.push((k, v)),
    {
        let ghost old_self = *old(self);
        let p = self.lower_bound(k);
        if p < self.entries.len() && self.entries[p].0 == k {
            proof {
                assert(old_self@[p as int].0 == k);
            }
            let slot = &mut self.entries[p];
            *slot = (k, v);
            proof {
                let s_old = old_self@;
                let s_new = self@;
                assert(s_new == s_old.update(p as int, (k, v)));
                assert forall|a: int, b: int| 0 <= a < b < s_new.len() implies s_new[a].0
                    < s_new[b].0 by {
                    assert(s_old[a].0 < s_old[b].0);
                }
                old_self.lemma_at(p as int);
                self.lemma_at(p as int);
                assert forall|j: u32| j != k implies final(self).spec_get(j)
                    == old_self.spec_get(j) by {
                    if old_self.spec_contains(j) {
                        let i = old_self.spec_index_of(j);
                        assert(s_new[i].0 == j);
                        self.lemma_at(i);
                    } else {
                        if self.spec_contains(j) {
                            let i = self.spec_index_of(j);
                            assert(s_old[i].0 == j);
                        }
                    }
                }
                assert forall|j: u32| #[trigger] final(self).spec_contains(j)
                    <==> (old_self.spec_contains(j) || j == k) by {
                    if self.spec_contains(j) && j != k {
                        let i = self.spec_index_of(j);
                        assert(s_old[i].0 == j);
                    }
                    if old_self.spec_contains(j) {
                        let i = old_self.spec_index_of(j);
                        assert(s_new[i].0 == j);
                    }
                }
            }
        } else {
            proof {
                if old_self.spec_contains(k) {
                    let i = old_self.spec_index_of(k);
                    if i < p as int {
                        assert(old_self@[i].0 < k);
                    } else if p < old_self@.len() && (p as int) < i {
                        assert(old_self@[p as int].0 < old_self@[i].0);
                    }
                }
            }
            self.entries.insert(p, (k, v));
            proof {
                let s_old = old_self@;
                let s_new = self@;
                assert(s_new == s_old.insert(p as int, (k, v)));
                if forall|i: int| 0 <= i < s_old.len() ==> (#[trigger] s_old[i]).0 < k {
                    assert(p == s_old.len()) by {
                        if (p as int) < s_old.len() {
                            assert(s_old[p as int].0 < k);
                        }
                    }
                    assert(s_new =~= s_old.push((k, v)));
                }
                assert forall|a: int, b: int| 0 <= a < b < s_new.len() implies s_new[a].0
                    < s_new[b].0 by {
                    if b < p as int {
                        assert(s_old[a].0 < s_old[b].0);
                    } else if a > p as int {
                        assert(s_old[a - 1].0 < s_old[b - 1].0);
                    } else if a == p as int {
                        assert(s_new[b] == s_old[b - 1]);
                        assert(s_old[b - 1].0 >= k || b - 1 < p);
                    } else if b == p as int {
                        assert(s_new[a] == s_old[a]);
                    } else {
                        assert(s_old[a].0 < s_old[b - 1].0);
                    }
                }
                self.lemma_at(p as int);
                assert forall|j: u32| j != k implies final(self).spec_get(j)
                    == old_self.spec_get(j) by {
                    if old_self.spec_contains(j) {
                        let i = old_self.spec_index_of(j);
                        if i < p as int {
                            assert(s_new[i].0 == j);
                            self.lemma_at(i);
                        } else {
                            assert(s_new[i + 1].0 == j);
                            self.lemma_at(i + 1);
                        }
                    } else {
                        if self.spec_contains(j) {
                            let i = self.spec_index_of(j);
                            assert(s_new[i].0 == j);
                            if i < p as int {
                                assert(s_old[i].0 == j);
                            } else if i > p as int {
                                assert(s_old[i - 1].0 == j);
                            }
                        }
                    }
                }
                assert forall|j: u32| #[trigger] final(self).spec_contains(j)
                    <==> (old_self.spec_contains(j) || j == k) by {
                    if self.spec_contains(j) && j != k {
                        let i = self.spec_index_of(j);
                        if i < p as int {
                            assert(s_old[i].0 == j);
                        } else if i > p as int {
                            assert(s_old[i - 1].0 == j);
                        }
                    }
                    if old_self.spec_contains(j) {
                        let i = old_self.spec_index_of(j);
                        if i < p as int {
                            assert(s_new[i].0 == j);
                        } else {
                            assert(s_new[i + 1].0 == j);
                        }
                    }
                }
            }
        }
    }

    /// Removes the entry under key `k`, returning its value if present.
    pub fn remove(&mut self, k: u32) -> (r: Option<V>)
        requires
            old(self).wf(),
        ensures
            final(self).wf(),
            r == old(self).spec_get(k),
            !final(self).spec_contains(k),
            forall|j: u32| j != k ==> final(self).spec_get(j) == old(self).spec_get(j),
            forall|j: u32| #[trigger] final(self).spec_contains(j)
                <==> (old(self).spec_contains(j) && j != k),
            final(self)@.len() == old(self)@.len() - (if old(self).spec_contains(k) {
                1int
            } else {
                0int
            }),
    {
        let ghost old_self = *old(self);
        let p = self.lower_bound(k);
        if p < self.entries.len() && self.entries[p].0 == k {
            proof {
                old_self.lemma_at(p as int);
            }
            let pair = self.entries.remove(p);
            proof {
                let s_old = old_self@;
                let s_new = self@;
                assert(s_new == s_old.remove(p as int));
                assert forall|a: int, b: int| 0 <= a < b < s_new.len() implies s_new[a].0
                    < s_new[b].0 by {
                    if b < p as int {
                        assert(s_old[a].0 < s_old[b].0);
                    } else if a >= p as int {
                        assert(s_old[a + 1].0 < s_old[b + 1].0);
                    } else {
                        assert(s_old[a].0 < s_old[b + 1].0);
                    }
                }
                assert forall|j: u32| j != k implies final(self).spec_get(j)
                    == old_self.spec_get(j) by {
                    if old_self.spec_contains(j) {
                        let i = old_self.spec_index_of(j);
                        assert(s_old[i].0 == j);
                        if i < p as int {
                            assert(s_new[i].0 == j);
                            self.lemma_at(i);
                        } else {
                            assert(i != p as int);
                            assert(s_new[i - 1].0 == j);
                            self.lemma_at(i - 1);
                        }
                    } else {
                        if self.spec_contains(j) {
                            let i = self.spec_index_of(j);
                            if i < p as int {
                                assert(s_old[i].0 == j);
                            } else {
                                assert(s_old[i + 1].0 == j);
                            }
                        }
                    }
                }
                assert forall|j: u32| #[trigger] final(self).spec_contains(j)
                    <==> (old_self.spec_contains(j) && j != k) by {
                    if self.spec_contains(j) {
                        let i = self.spec_index_of(j);
                        if i < p as int {
                            assert(s_old[i].0 == j);
                        } else {
                            assert(s_old[i + 1].0 == j);
                        }
                        if j == k {
                            if i < p as int {
                                assert(s_old[i].0 < k);
                            } else {
                                assert(s_old[p as int].0 < s_old[i + 1].0);
                            }
                        }
                    }
                    if old_self.spec_contains(j) && j != k {
                        let i = old_self.spec_index_of(j);
                        if i < p as int {
                            assert(s_new[i].0 == j);
                        } else {
                            assert(i != p as int);
                            assert(s_new[i - 1].0 == j);
                        }
                    }
                }
            }
            Some(pair.1)
        } else {
            proof {
                if old_self.spec_contains(k) {
                    let i = old_self.spec_index_of(k);
                    if i < p as int {
                        assert(old_self@[i].0 < k);
                    } else if p < old_self@.len() && (p as int) < i {
                        assert(old_self@[p as int].0 < old_self@[i].0);
                    }
                }
            }
            None
        }
    }
}

} // verus!

//! A small keyed table whose entries carry an absolute expiry deadline, the
//! building block of the squad store's key-value namespace.
use vstd::prelude::*;

verus! {

/// Keys that the table can compare at run time.
pub trait TableKey: Copy + Sized {
    fn same(&self, other: &Self) -> (r: bool)
        ensures
            r == (*self == *other),
    ;
}

impl TableKey for u64 {
    fn same(&self, other: &u64) -> (r: bool) {
        *self == *other
    }
}

/// Key of a member record: the squad it belongs to and the user it names.
#[derive(Clone, Copy, PartialEq, Eq, Structural)]
pub struct MemberKey {
    pub squad: u64,
    pub user: u64,
}

impl TableKey for MemberKey {
    fn same(&self, other: &MemberKey) -> (r: bool) {
        self.squad == other.squad && self.user == other.user
    }
}

/// A stored value together with the second at which it stops existing.
pub struct Timed<V> {
    pub value: V,
    pub deadline: u64,
}

/// An entry is alive at `now` while its deadline lies strictly ahead.
pub open spec fn alive<V>(t: Timed<V>, now: u64) -> bool {
    now < t.deadline
}

/// The entries of `m` that are still alive at `now`.
pub open spec fn live_part<K, V>(m: Map<K, Timed<V>>, now: u64) -> Map<K, Timed<V>> {
    Map::new(|k: K| m.contains_key(k) && alive(m[k], now), |k: K| m[k])
}

struct Slot<K, V> {
    key: K,
    item: Timed<V>,
}

#[verifier::reject_recursive_types(K)]
pub struct TtlTable<K, V> {
    slots: Vec<Slot<K, V>>,
    contents: Ghost<Map<K, Timed<V>>>,
}

impl<K, V> View for TtlTable<K, V> {
    type V = Map<K, Timed<V>>;

    closed spec fn view(&self) -> Map<K, Timed<V>> {
        self.contents@
    }
}

impl<K: TableKey, V> TtlTable<K, V> {
    /// Slots hold distinct keys, and the slots and the contents describe the
    /// same entries.
    pub closed spec fn wf(&self) -> bool {
        &&& forall|i: int, j: int|
            0 <= i < j < self.slots@.len() ==> self.slots@[i].key != self.slots@[j].key
        &&& forall|i: int|
            #![trigger self.slots@[i]]
            0 <= i < self.slots@.len() ==> self.contents@.contains_key(self.slots@[i].key)
                && self.contents@[self.slots@[i].key] == self.slots@[i].item
        &&& forall|k: K|
            #![trigger self.contents@.contains_key(k)]
            self.contents@.contains_key(k) ==> exists|i: int|
                0 <= i < self.slots@.len() && self.slots@[i].key == k
    }

    pub fn new() -> (r: Self)
        ensures
            r.wf(),
            r@ == Map::<K, Timed<V>>::empty(),
    {
        TtlTable { slots: Vec::new(), contents: Ghost(Map::empty()) }
    }

    fn locate(&self, k: &K) -> (r: Option<usize>)
        requires
            self.wf(),
        ensures
            match r {
                Some(i) => i < self.slots@.len() && self.slots@[i as int].key == *k
                    && self@.contains_key(*k),
                None => !self@.contains_key(*k),
            },
    {
        let mut i: usize = 0;
        while i < self.slots.len()
            invariant
                self.wf(),
                i <= self.slots@.len(),
                forall|j: int| 0 <= j < i ==> self.slots@[j].key != *k,
            decreases self.slots@.len() - i,
        {
            if self.slots[i].key.same(k) {
                assert(self.slots@[i as int].key == *k);
                return Some(i);
            }
            i = i + 1;
        }
        proof {
            if self.contents@.contains_key(*k) {
                let w = choose|w: int| 0 <= w < self.slots@.len() && self.slots@[w].key == *k;
                assert(self.slots@[w].key != *k);
            }
        }
        None
    }

    pub fn get(&self, k: &K) -> (r: Option<&Timed<V>>)
        requires
            self.wf(),
        ensures
            match r {
                Some(t) => self@.contains_key(*k) && *t == self@[*k],
                None => !self@.contains_key(*k),
            },
    {
        match self.locate(k) {
            Some(i) => Some(&self.slots[i].item),
            None => None,
        }
    }

    pub fn insert(&mut self, k: K, value: V, deadline: u64)
        requires
            old(self).wf(),
        ensures
            final(self).wf(),
            final(self)@ == old(self)@.insert(k, (Timed { value, deadline })),
    {
        let ghost target = self.contents@.insert(k, Timed { value, deadline });
        match self.locate(&k) {
            Some(i) => {
                self.slots.set(i, Slot { key: k, item: Timed { value, deadline } });
                self.contents = Ghost(target);
                assert forall|q: K| #[trigger] self.contents@.contains_key(q) implies exists|j: int|
                    0 <= j < self.slots@.len() && self.slots@[j].key == q by {
                    if q != k {
                        let w = choose|w: int|
                            0 <= w < self.slots@.len() && old(self).slots@[w].key == q;
                        assert(self.slots@[w].key == q);
                    } else {
                        assert(self.slots@[i as int].key == q);
                    }
                }
            },
            None => {
                let ghost n = self.slots@.len() as int;
                self.slots.push(Slot { key: k, item: Timed { value, deadline } });
                self.contents = Ghost(target);
                assert forall|q: K| #[trigger] self.contents@.contains_key(q) implies exists|j: int|
                    0 <= j < self.slots@.len() && self.slots@[j].key == q by {
                    if q != k {
                        let w = choose|w: int|
                            0 <= w < old(self).slots@.len() && old(self).slots@[w].key == q;
                        assert(self.slots@[w].key == q);
                    } else {
                        assert(self.slots@[n].key == q);
                    }
                }
            },
        }
    }

    pub fn remove(&mut self, k: &K) -> (r: Option<Timed<V>>)
        requires
            old(self).wf(),
        ensures
            final(self).wf(),
            final(self)@ == old(self)@.remove(*k),
            r == (if old(self)@.contains_key(*k) {
                Some(old(self)@[*k])
            } else {
                None
            }),
    {
        match self.locate(k) {
            Some(i) => {
                let ghost before = self.slots@;
                let slot = self.slots.remove(i);
                self.contents = Ghost(self.contents@.remove(*k));
                assert forall|q: K| #[trigger] self.contents@.contains_key(q) implies exists|j: int|
                    0 <= j < self.slots@.len() && self.slots@[j].key == q by {
                    let w = choose|w: int| 0 <= w < before.len() && before[w].key == q;
                    if w < i {
                        assert(self.slots@[w].key == q);
                    } else {
                        assert(self.slots@[w - 1].key == q);
                    }
                }
                Some(slot.item)
            },
            None => {
                assert(self.contents@.remove(*k) =~= self.contents@);
                None
            },
        }
    }

    /// Drops every entry whose deadline has come by `now`.
    pub fn purge(&mut self, now: u64)
        requires
            old(self).wf(),
        ensures
            final(self).wf(),
            final(self)@ == live_part(old(self)@, now),
    {
        let ghost m = self.contents@;
        let ghost target = live_part(m, now);
        self.contents = Ghost(target);
        assert forall|q: K| #[trigger] target.contains_key(q) implies exists|j: int|
            0 <= j < self.slots@.len() && self.slots@[j].key == q by {
            assert(old(self).contents@.contains_key(q));
            let w = choose|w: int|
                0 <= w < old(self).slots@.len() && old(self).slots@[w].key == q;
            assert(self.slots@[w].key == q);
        }
        let mut i: usize = 0;
        while i < self.slots.len()
            invariant
                i <= self.slots@.len(),
                self.contents@ == target,
                target == live_part(m, now),
                forall|a: int, b: int|
                    0 <= a < b < self.slots@.len() ==> self.slots@[a].key != self.slots@[b].key,
                forall|a: int|
                    #![trigger self.slots@[a]]
                    0 <= a < self.slots@.len() ==> m.contains_key(self.slots@[a].key)
                        && m[self.slots@[a].key] == self.slots@[a].item,
                forall|q: K|
                    #![trigger target.contains_key(q)]
                    target.contains_key(q) ==> exists|j: int|
                        0 <= j < self.slots@.len() && self.slots@[j].key == q,
                forall|a: int| 0 <= a < i ==> alive(#[trigger] self.slots@[a].item, now),
            decreases self.slots@.len() - i,
        {
            if self.slots[i].item.deadline <= now {
                let ghost before = self.slots@;
                let _gone = self.slots.remove(i);
                assert forall|q: K| #[trigger] target.contains_key(q) implies exists|j: int|
                    0 <= j < self.slots@.len() && self.slots@[j].key == q by {
                    let w = choose|w: int| 0 <= w < before.len() && before[w].key == q;
                    assert(m[before[w].key] == before[w].item);
                    assert(w != i);
                    if w < i {
                        assert(self.slots@[w].key == q);
                    } else {
                        assert(self.slots@[w - 1].key == q);
                    }
                }
                assert forall|a: int| 0 <= a < i implies alive(#[trigger] self.slots@[a].item, now) by {
                    assert(self.slots@[a] == before[a]);
                }
            } else {
                i = i + 1;
            }
        }
        assert forall|a: int| #![trigger self.slots@[a]] 0 <= a < self.slots@.len() implies
            target.contains_key(self.slots@[a].key) && target[self.slots@[a].key]
                == self.slots@[a].item by {
            assert(alive(self.slots@[a].item, now));
        }
    }

    /// Every key in the table, each once.
    pub fn keys(&self) -> (r: Vec<K>)
        requires
            self.wf(),
        ensures
            r@.no_duplicates(),
            forall|i: int| 0 <= i < r@.len() ==> self@.contains_key(#[trigger] r@[i]),
            forall|k: K| #[trigger] self@.contains_key(k) ==> r@.contains(k),
    {
        let mut r: Vec<K> = Vec::new();
        let mut i: usize = 0;
        while i < self.slots.len()
            invariant
                self.wf(),
                i <= self.slots@.len(),
                r@.len() == i,
                forall|a: int| 0 <= a < i ==> r@[a] == self.slots@[a].key,
            decreases self.slots@.len() - i,
        {
            r.push(self.slots[i].key);
            i = i + 1;
        }
        assert forall|k: K| #[trigger] self@.contains_key(k) implies r@.contains(k) by {
            let w = choose|w: int| 0 <= w < self.slots@.len() && self.slots@[w].key == k;
            assert(r@[w] == k);
        }
        r
    }
}

} // verus!

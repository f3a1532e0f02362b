use vstd::prelude::*;

use crate::transaction::Address;

verus! {

/// A map keyed by account address, kept as a list of entries in which no
/// address occurs twice.
#[derive(Debug)]
pub struct AddressMap<V> {
    entries: Vec<(Address, V)>,
}

impl<V> AddressMap<V> {
    /// The entries, in the order they were first inserted.
    pub closed spec fn entries(&self) -> Seq<(Address, V)> {
        self.entries@
    }

    /// The address of the `i`-th entry.
    pub open spec fn key_at(&self, i: int) -> Seq<char> {
        self.entries()[i].0@
    }

    /// Whether some entry has address `k`.
    pub open spec fn has_key(&self, k: Seq<char>) -> bool {
        exists|i: int| 0 <= i < self.entries().len() && (#[trigger] self.entries()[i]).0@ == k
    }

    /// The value stored for address `k`.
    pub open spec fn value_for(&self, k: Seq<char>) -> V {
        self.entries()[choose|i: int| 0 <= i < self.entries().len() && (#[trigger] self.entries()[i]).0@ == k].1
    }

    /// No address occurs twice.
    pub open spec fn wf(&self) -> bool {
        forall|i: int, j: int|
            0 <= i < self.entries().len() && 0 <= j < self.entries().len() && i != j ==> (
            #[trigger] self.entries()[i]).0@ != (#[trigger] self.entries()[j]).0@
    }
}

impl<V> View for AddressMap<V> {
    type V = Map<Seq<char>, V>;

    open spec fn view(&self) -> Map<Seq<char>, V> {
        Map::new(|k: Seq<char>| self.has_key(k), |k: Seq<char>| self.value_for(k))
    }
}

impl<V> AddressMap<V> {
    /// The value of an entry is what the map holds for its address.
    proof fn lemma_entry(&self, i: int)
        requires
            self.wf(),
            0 <= i < self.entries().len(),
        ensures
            self@.contains_key(self.key_at(i)),
            self@[self.key_at(i)] == self.entries()[i].1,
    {
        let k = self.key_at(i);
        assert(self.has_key(k));
        let j = choose|j: int| 0 <= j < self.entries().len() && (#[trigger] self.entries()[j]).0@ == k;
        assert(j == i);
    }

    /// An empty map.
    pub fn new() -> (r: Self)
        ensures
            r.wf(),
            r@ == Map::<Seq<char>, V>::empty(),
    {
        let r = AddressMap { entries: Vec::new() };
        assert(r@ =~= Map::<Seq<char>, V>::empty());
        r
    }

    /// The position of the entry for `k`, if there is one.
    fn find(&self, k: &Address) -> (r: Option<usize>)
        requires
            self.wf(),
        ensures
            r is None <==> !self@.contains_key(k@),
            r matches Some(i) ==> i < self.entries().len() && self.key_at(i as int) == k@,
    {
        let n = self.entries.len();
        let mut i: usize = 0;
        while i < n
            invariant
                n == self.entries().len(),
                i <= n,
                forall|j: int| 0 <= j < i ==> (#[trigger] self.entries()[j]).0@ != k@,
            decreases n - i,
        {
            if self.entries[i].0 == *k {
                proof {
                    assert(self.key_at(i as int) == k@);
                    assert(self.has_key(k@));
                }
                return Some(i);
            }
            i += 1;
        }
        None
    }

    /// The value stored for `k`, if any.
    pub fn get(&self, k: &Address) -> (r: Option<&V>)
        requires
            self.wf(),
        ensures
            r is None <==> !self@.contains_key(k@),
            r matches Some(v) ==> *v == self@[k@],
    {
        match self.find(k) {
            Some(i) => {
                proof {
                    self.lemma_entry(i as int);
                }
                Some(&self.entries[i].1)
            },
            None => None,
        }
    }

    /// Stores `v` for `k`, in place of any value stored for it before.
    pub fn insert(&mut self, k: Address, v: V)
        requires
            old(self).wf(),
        ensures
            final(self).wf(),
            final(self)@ == old(self)@.insert(k@, v),
    {
        let ghost old_map = self@;
        let ghost old_entries = self.entries();
        let ghost kv = k@;
        match self.find(&k) {
            Some(i) => {
                self.entries.set(i, (k, v));
                proof {
                    assert(self.entries() == old_entries.update(i as int, self.entries()[i as int]));
                    assert forall|a: int, b: int|
                        0 <= a < self.entries().len() && 0 <= b < self.entries().len() && a != b implies (#[trigger] self.entries()[a]).0@
                            != (#[trigger] self.entries()[b]).0@ by {
                        if a != i && b != i {
                            assert(old_entries[a].0@ != old_entries[b].0@);
                        } else if a == i {
                            assert(old_entries[b].0@ != old_entries[a].0@);
                        } else {
                            assert(old_entries[a].0@ != old_entries[b].0@);
                        }
                    }
                    assert forall|key: Seq<char>| #[trigger] self@.contains_key(key) == old_map.insert(kv, v).contains_key(key) by {
                        if key != kv && old_map.contains_key(key) {
                            let j = choose|j: int| 0 <= j < old_entries.len() && (#[trigger] old_entries[j]).0@ == key;
                            assert(self.key_at(j) == key);
                        }
                        if key != kv && self@.contains_key(key) {
                            let j = choose|j: int| 0 <= j < self.entries().len() && (#[trigger] self.entries()[j]).0@ == key;
                            assert(old_entries[j].0@ == key);
                        }
                        if key == kv {
                            assert(self.key_at(i as int) == kv);
                        }
                    }
                    assert forall|key: Seq<char>| #[trigger] self@.contains_key(key) implies self@[key] == old_map.insert(kv, v)[key] by {
                        let j = choose|j: int| 0 <= j < self.entries().len() && (#[trigger] self.entries()[j]).0@ == key;
                        self.lemma_entry(j);
                        if j != i {
                            assert(old_entries[j].0@ == key);
                            assert(old_map.contains_key(key)) by {
                                assert(old_entries[j].0@ == key);
                            }
                            let ghost oldv = old_entries[j].1;
                            assert(old_map[key] == oldv) by {
                                let jj = choose|jj: int| 0 <= jj < old_entries.len() && (#[trigger] old_entries[jj]).0@ == key;
                                assert(old_entries[jj].0@ == old_entries[j].0@);
                                assert(jj == j);
                            }
                        }
                    }
                    assert(self@ =~= old_map.insert(kv, v));
                }
            },
            None => {
                self.entries.push((k, v));
                proof {
                    let n = old_entries.len() as int;
                    assert(self.entries() == old_entries.push(self.entries()[n]));
                    assert forall|a: int, b: int|
                        0 <= a < self.entries().len() && 0 <= b < self.entries().len() && a != b implies (#[trigger] self.entries()[a]).0@
                            != (#[trigger] self.entries()[b]).0@ by {
                        if a < n && b < n {
                            assert(old_entries[a].0@ != old_entries[b].0@);
                        } else if a == n {
                            assert(!old_map.contains_key(kv));
                            assert(old_entries[b].0@ != kv);
                        } else {
                            assert(!old_map.contains_key(kv));
                            assert(old_entries[a].0@ != kv);
                        }
                    }
                    assert forall|key: Seq<char>| #[trigger] self@.contains_key(key) == old_map.insert(kv, v).contains_key(key) by {
                        if key != kv && old_map.contains_key(key) {
                            let j = choose|j: int| 0 <= j < old_entries.len() && (#[trigger] old_entries[j]).0@ == key;
                            assert(self.key_at(j) == key);
                        }
                        if key != kv && self@.contains_key(key) {
                            let j = choose|j: int| 0 <= j < self.entries().len() && (#[trigger] self.entries()[j]).0@ == key;
                            assert(old_entries[j].0@ == key);
                        }
                        if key == kv {
                            assert(self.key_at(n) == kv);
                        }
                    }
                    assert forall|key: Seq<char>| #[trigger] self@.contains_key(key) implies self@[key] == old_map.insert(kv, v)[key] by {
                        let j = choose|j: int| 0 <= j < self.entries().len() && (#[trigger] self.entries()[j]).0@ == key;
                        self.lemma_entry(j);
                        if j != n {
                            assert(old_entries[j].0@ == key);
                            let ghost oldv = old_entries[j].1;
                            assert(old_map[key] == oldv) by {
                                let jj = choose|jj: int| 0 <= jj < old_entries.len() && (#[trigger] old_entries[jj]).0@ == key;
                                assert(old_entries[jj].0@ == old_entries[j].0@);
                                assert(jj == j);
                            }
                        }
                    }
                    assert(self@ =~= old_map.insert(kv, v));
                }
            },
        }
    }

    /// Drops the entry for `k`, if there is one.
    pub fn remove(&mut self, k: &Address)
        requires
            old(self).wf(),
        ensures
            final(self).wf(),
            final(self)@ == old(self)@.remove(k@),
    {
        let ghost old_map = self@;
        let ghost old_entries = self.entries();
        match self.find(k) {
            Some(i) => {
                let _ = self.entries.remove(i);
                proof {
                    let ii = i as int;
                    assert(self.entries() == old_entries.remove(ii));
                    assert forall|a: int| 0 <= a < self.entries().len() implies #[trigger] self.key_at(a)
                        == old_entries[if a < ii { a } else { a + 1 }].0@ by {}
                    assert forall|a: int, b: int|
                        0 <= a < self.entries().len() && 0 <= b < self.entries().len() && a != b implies (#[trigger] self.entries()[a]).0@
                            != (#[trigger] self.entries()[b]).0@ by {
                        let oa = if a < ii { a } else { a + 1 };
                        let ob = if b < ii { b } else { b + 1 };
                        assert(old_entries[oa].0@ != old_entries[ob].0@);
                    }
                    assert forall|key: Seq<char>| #[trigger] self@.contains_key(key) == old_map.remove(k@).contains_key(key) by {
                        if key != k@ && old_map.contains_key(key) {
                            let j = choose|j: int| 0 <= j < old_entries.len() && (#[trigger] old_entries[j]).0@ == key;
                            assert(j != ii);
                            let nj = if j < ii { j } else { j - 1 };
                            assert(self.key_at(nj) == key);
                        }
                        if self@.contains_key(key) {
                            let j = choose|j: int| 0 <= j < self.entries().len() && (#[trigger] self.entries()[j]).0@ == key;
                            let oj = if j < ii { j } else { j + 1 };
                            assert(old_entries[oj].0@ == key);
                            assert(oj != ii);
                            assert(old_entries[ii].0@ != old_entries[oj].0@);
                        }
                    }
                    assert forall|key: Seq<char>| #[trigger] self@.contains_key(key) implies self@[key] == old_map.remove(k@)[key] by {
                        let j = choose|j: int| 0 <= j < self.entries().len() && (#[trigger] self.entries()[j]).0@ == key;
                        self.lemma_entry(j);
                        let oj = if j < ii { j } else { j + 1 };
                        assert(old_entries[oj].0@ == key);
                        let ghost oldv = old_entries[oj].1;
                        assert(self.entries()[j].1 == oldv);
                        assert(old_map[key] == oldv) by {
                            let jj = choose|jj: int| 0 <= jj < old_entries.len() && (#[trigger] old_entries[jj]).0@ == key;
                            assert(old_entries[jj].0@ == old_entries[oj].0@);
                            assert(jj == oj);
                        }
                    }
                    assert(self@ =~= old_map.remove(k@));
                }
            },
            None => {
                assert(self@ =~= old_map.remove(k@));
            },
        }
    }
}

} // verus!

//! A map from names to values, walked in name order.

use crate::names::ascending;
use crate::names::before;
use crate::names::is_before;
use crate::names::lemma_before_asymmetric;
use crate::names::lemma_before_total;
use crate::names::lemma_before_transitive;
use vstd::prelude::*;

verus! {

/// A map keyed by names. The entries stand in ascending order of their names.
pub struct NameMap<V> {
    pub entries: Vec<(String, V)>,
}

/// The names of a run of entries.
pub open spec fn entry_names<V>(e: Seq<(String, V)>) -> Seq<Seq<char>> {
    e.map_values(|p: (String, V)| p.0@)
}

/// What a run of entries maps each name to.
pub open spec fn entry_map<V>(e: Seq<(String, V)>) -> Map<Seq<char>, V> {
    Map::new(
        |k: Seq<char>| entry_names(e).contains(k),
        |k: Seq<char>| e[entry_names(e).index_of(k)].1,
    )
}

impl<V> View for NameMap<V> {
    type V = Map<Seq<char>, V>;

    open spec fn view(&self) -> Map<Seq<char>, V> {
        entry_map(self.entries@)
    }
}

proof fn lemma_entry<V>(e: Seq<(String, V)>, i: int)
    requires
        ascending(entry_names(e)),
        0 <= i < e.len(),
    ensures
        entry_map(e).contains_key(e[i].0@),
        entry_map(e)[e[i].0@] == e[i].1,
{
    let n = entry_names(e);
    assert(n[i] == e[i].0@);
    assert(n.contains(n[i]));
    let j = n.index_of(n[i]);
    assert(0 <= j < n.len() && n[j] == n[i]);
    lemma_before_asymmetric(n[i], n[j]);
}

impl<V> NameMap<V> {
    /// The entries are in strictly ascending order of their names.
    pub open spec fn wf(&self) -> bool {
        ascending(entry_names(self.entries@))
    }

    /// The names, in order.
    pub open spec fn names(&self) -> Seq<Seq<char>> {
        entry_names(self.entries@)
    }

    /// The entry at a place is what the map holds for its name.
    pub proof fn lemma_at(&self, i: int)
        requires
            self.wf(),
            0 <= i < self.entries@.len(),
        ensures
            self@.contains_key(self.entries@[i].0@),
            self@[self.entries@[i].0@] == self.entries@[i].1,
            self.names()[i] == self.entries@[i].0@,
    {
        lemma_entry(self.entries@, i);
    }

    /// A map without entries.
    pub fn empty() -> (r: Self)
        ensures
            r.wf(),
            r@ == Map::<Seq<char>, V>::empty(),
            r.entries@.len() == 0,
    {
        let r = NameMap { entries: Vec::new() };
        assert(r@ =~= Map::<Seq<char>, V>::empty());
        r
    }

    /// Where a name stands, or where it would have to be put.
    pub fn position(&self, name: &str) -> (r: (usize, bool))
        requires
            self.wf(),
        ensures
            r.0 <= self.entries@.len(),
            r.1 == self@.contains_key(name@),
            r.1 ==> r.0 < self.entries@.len() && self.entries@[r.0 as int].0@ == name@
                && self.entries@[r.0 as int].1 == self@[name@],
            forall|k: int| 0 <= k < r.0 ==> before(#[trigger] self.names()[k], name@),
            !r.1 ==> forall|k: int|
                r.0 <= k < self.entries@.len() ==> before(name@, #[trigger] self.names()[k]),
    {
        let mut i: usize = 0;
        while i < self.entries.len() && is_before(self.entries[i].0.as_str(), name)
            invariant
                i <= self.entries@.len(),
                forall|k: int| 0 <= k < i ==> before(#[trigger] self.names()[k], name@),
            decreases self.entries@.len() - i,
        {
            i += 1;
        }
        let ghost t = self.names();
        if i < self.entries.len() && !is_before(name, self.entries[i].0.as_str()) {
            proof {
                lemma_before_total(t[i as int], name@);
                assert(t[i as int] == name@);
                self.lemma_at(i as int);
            }
            (i, true)
        } else {
            proof {
                assert forall|k: int| i <= k < t.len() implies before(name@, #[trigger] t[k]) by {
                    if k > i {
                        lemma_before_transitive(name@, t[i as int], t[k]);
                    }
                }
                if t.contains(name@) {
                    let k = choose|k: int| 0 <= k < t.len() && t[k] == name@;
                    lemma_before_asymmetric(name@, name@);
                }
            }
            (i, false)
        }
    }

    /// Is there a value for this name?
    pub fn contains_key(&self, name: &str) -> (r: bool)
        requires
            self.wf(),
        ensures
            r == self@.contains_key(name@),
    {
        self.position(name).1
    }

    /// The value for this name.
    pub fn get(&self, name: &str) -> (r: Option<&V>)
        requires
            self.wf(),
        ensures
            match r {
                Some(v) => self@.contains_key(name@) && *v == self@[name@],
                None => !self@.contains_key(name@),
            },
    {
        let (i, found) = self.position(name);
        if found {
            Some(&self.entries[i].1)
        } else {
            None
        }
    }

    /// Set the value for a name.
    pub fn insert(&mut self, name: String, value: V)
        requires
            old(self).wf(),
        ensures
            final(self).wf(),
            final(self)@ == old(self)@.insert(name@, value),
    {
        let (i, found) = self.position(name.as_str());
        let ghost e0 = self.entries@;
        let ghost n = name@;
        let ghost n0 = entry_names(e0);
        assert(n0 == self.names());
        if found {
            let _ = self.entries.remove(i);
            self.entries.insert(i, (name, value));
            proof {
                let e = self.entries@;
                assert(e =~= e0.update(i as int, (name, value)));
                assert(entry_names(e) =~= n0);
                let m = entry_map(e);
                assert forall|k: Seq<char>| #[trigger] m.contains_key(k) implies m[k]
                    == entry_map(e0).insert(n, value)[k] by {
                    let j = choose|j: int| 0 <= j < n0.len() && n0[j] == k;
                    lemma_entry(e, j);
                    lemma_entry(e0, j);
                    if j != i {
                        lemma_before_asymmetric(n0[i as int], n0[j]);
                    }
                }
                assert(m =~= entry_map(e0).insert(n, value));
            }
        } else {
            assert(forall|k: int| 0 <= k < i ==> before(#[trigger] n0[k], n));
            assert(forall|k: int| i <= k < n0.len() ==> before(n, #[trigger] n0[k]));
            self.entries.insert(i, (name, value));
            proof {
                let e = self.entries@;
                assert(e =~= e0.insert(i as int, (name, value)));
                let t = entry_names(e);
                assert(t =~= n0.insert(i as int, n));
                assert forall|a: int, b: int| 0 <= a < b < t.len() implies before(
                    #[trigger] t[a],
                    #[trigger] t[b],
                ) by {
                    let a0 = if a < i { a } else { a - 1 };
                    let b0 = if b < i { b } else { b - 1 };
                    if a == i {
                        assert(t[b] == n0[b0]);
                        assert(t[a] == n);
                    } else if b == i {
                        assert(t[a] == n0[a0]);
                        assert(t[b] == n);
                    } else {
                        assert(t[a] == n0[a0]);
                        assert(t[b] == n0[b0]);
                    }
                }
                let m = entry_map(e);
                let m1 = entry_map(e0).insert(n, value);
                assert forall|k: Seq<char>| m.contains_key(k) <==> m1.contains_key(k) by {
                    if m.contains_key(k) {
                        let j = choose|j: int| 0 <= j < t.len() && t[j] == k;
                        if j < i {
                            assert(n0[j] == k);
                        } else if j > i {
                            assert(n0[j - 1] == k);
                        }
                    }
                    if n0.contains(k) {
                        let j = choose|j: int| 0 <= j < n0.len() && n0[j] == k;
                        if j < i {
                            assert(t[j] == k);
                        } else {
                            assert(t[j + 1] == k);
                        }
                    }
                    if k == n {
                        assert(t[i as int] == k);
                    }
                }
                assert forall|k: Seq<char>| #[trigger] m.contains_key(k) implies m[k] == m1[k] by {
                    let j = choose|j: int| 0 <= j < t.len() && t[j] == k;
                    lemma_entry(e, j);
                    if j < i {
                        lemma_entry(e0, j);
                        assert(n0[j] == k);
                    } else if j > i {
                        lemma_entry(e0, j - 1);
                        assert(n0[j - 1] == k);
                    }
                }
                assert(m =~= m1);
            }
        }
    }

    /// Take the value for a name out of the map.
    pub fn remove(&mut self, name: &str) -> (r: Option<V>)
        requires
            old(self).wf(),
        ensures
            final(self).wf(),
            final(self)@ == old(self)@.remove(name@),
            match r {
                Some(v) => old(self)@.contains_key(name@) && v == old(self)@[name@],
                None => !old(self)@.contains_key(name@) && final(self)@ == old(self)@,
            },
    {
        let (i, found) = self.position(name);
        let ghost e0 = self.entries@;
        let ghost n0 = entry_names(e0);
        if !found {
            assert(self@.remove(name@) =~= self@);
            return None;
        }
        let (_, v) = self.entries.remove(i);
        proof {
            let e = self.entries@;
            assert(e =~= e0.remove(i as int));
            let t = entry_names(e);
            assert(t =~= n0.remove(i as int));
            assert forall|a: int, b: int| 0 <= a < b < t.len() implies before(
                #[trigger] t[a],
                #[trigger] t[b],
            ) by {
                let a0 = if a < i { a } else { a + 1 };
                let b0 = if b < i { b } else { b + 1 };
                assert(t[a] == n0[a0]);
                assert(t[b] == n0[b0]);
            }
            let m = entry_map(e);
            let m1 = entry_map(e0).remove(name@);
            assert forall|k: Seq<char>| m.contains_key(k) <==> m1.contains_key(k) by {
                if m.contains_key(k) {
                    let j = choose|j: int| 0 <= j < t.len() && t[j] == k;
                    let j0 = if j < i { j } else { j + 1 };
                    assert(n0[j0] == k);
                    lemma_before_asymmetric(n0[j0], n0[i as int]);
                    lemma_before_asymmetric(n0[i as int], n0[j0]);
                }
                if m1.contains_key(k) {
                    let j = choose|j: int| 0 <= j < n0.len() && n0[j] == k;
                    if j < i {
                        assert(t[j] == k);
                    } else {
                        assert(t[j - 1] == k);
                    }
                }
            }
            assert forall|k: Seq<char>| #[trigger] m.contains_key(k) implies m[k] == m1[k] by {
                let j = choose|j: int| 0 <= j < t.len() && t[j] == k;
                lemma_entry(e, j);
                let j0 = if j < i { j } else { j + 1 };
                lemma_entry(e0, j0);
                assert(n0[j0] == k);
            }
            assert(m =~= m1);
        }
        Some(v)
    }
}

} // verus!

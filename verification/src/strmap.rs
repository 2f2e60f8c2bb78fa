//! A string-keyed map with insert-or-overwrite semantics, kept as a
//! vector of pairs with pairwise-distinct keys.  Its view is the
//! mathematical `Map` from key to value; the pair order is what the
//! scrape pass iterates in.

use vstd::prelude::*;
use crate::text::str_eq;

verus! {

broadcast use vstd::map::group_map_axioms, vstd::set::group_set_axioms;

/// The binding an association list denotes: each key bound to the value
/// at its (unique) index.
pub open spec fn as_map<V>(kv: Seq<(Seq<char>, V)>) -> Map<Seq<char>, V> {
    Map::new(
        |k: Seq<char>| exists|i: int| 0 <= i < kv.len() && kv[i].0 == k,
        |k: Seq<char>| kv[choose|i: int| 0 <= i < kv.len() && kv[i].0 == k].1,
    )
}

pub open spec fn unique_keys<V>(kv: Seq<(Seq<char>, V)>) -> bool {
    forall|i: int, j: int| 0 <= i < j < kv.len() ==> kv[i].0 != kv[j].0
}

/// With unique keys, the binding at each index is the one the map holds.
pub proof fn lemma_as_map_index<V>(kv: Seq<(Seq<char>, V)>, i: int)
    requires
        unique_keys(kv),
        0 <= i < kv.len(),
    ensures
        as_map(kv).dom().contains(kv[i].0),
        as_map(kv)[kv[i].0] == kv[i].1,
{
    let k = kv[i].0;
    assert(exists|j: int| 0 <= j < kv.len() && kv[j].0 == k);
    let j = choose|j: int| 0 <= j < kv.len() && kv[j].0 == k;
    if j < i {
        assert(kv[j].0 != kv[i].0);
    }
    if i < j {
        assert(kv[i].0 != kv[j].0);
    }
}

/// Overwriting the value at a key's index updates the map at that key.
pub proof fn lemma_as_map_update<V>(kv: Seq<(Seq<char>, V)>, i: int, k: Seq<char>, v: V)
    requires
        unique_keys(kv),
        0 <= i < kv.len(),
        kv[i].0 == k,
    ensures
        unique_keys(kv.update(i, (k, v))),
        as_map(kv.update(i, (k, v))) == as_map(kv).insert(k, v),
{
    let kv2 = kv.update(i, (k, v));
    assert(forall|x: int| 0 <= x < kv.len() ==> kv2[x].0 == kv[x].0);
    assert(unique_keys(kv2));
    assert forall|key: Seq<char>|
        as_map(kv2).dom().contains(key) == as_map(kv).insert(k, v).dom().contains(key) by {
        assert((exists|j: int| 0 <= j < kv2.len() && kv2[j].0 == key) == (exists|j: int|
            0 <= j < kv.len() && kv[j].0 == key));
    }
    assert forall|key: Seq<char>| as_map(kv2).dom().contains(key) implies as_map(kv2)[key]
        == as_map(kv).insert(k, v)[key] by {
        let j = choose|j: int| 0 <= j < kv2.len() && kv2[j].0 == key;
        lemma_as_map_index(kv2, j);
        if key == k {
            if j < i {
                assert(kv2[j].0 != kv2[i].0);
            }
            if i < j {
                assert(kv2[i].0 != kv2[j].0);
            }
            assert(j == i);
        } else {
            assert(j != i);
            lemma_as_map_index(kv, j);
        }
    }
    assert(as_map(kv2) =~= as_map(kv).insert(k, v));
}

/// Appending a fresh key binds it and leaves the rest alone.
pub proof fn lemma_as_map_push<V>(kv: Seq<(Seq<char>, V)>, k: Seq<char>, v: V)
    requires
        unique_keys(kv),
        forall|i: int| 0 <= i < kv.len() ==> kv[i].0 != k,
    ensures
        unique_keys(kv.push((k, v))),
        as_map(kv.push((k, v))) == as_map(kv).insert(k, v),
{
    let kv2 = kv.push((k, v));
    assert(forall|x: int| 0 <= x < kv.len() ==> kv2[x] == kv[x]);
    assert(kv2[kv.len() as int] == (k, v));
    assert(unique_keys(kv2));
    assert forall|key: Seq<char>|
        as_map(kv2).dom().contains(key) == as_map(kv).insert(k, v).dom().contains(key) by {
        if key == k {
            assert(kv2[kv.len() as int].0 == key);
        } else {
            assert((exists|j: int| 0 <= j < kv2.len() && kv2[j].0 == key) == (exists|j: int|
                0 <= j < kv.len() && kv[j].0 == key));
        }
    }
    assert forall|key: Seq<char>| as_map(kv2).dom().contains(key) implies as_map(kv2)[key]
        == as_map(kv).insert(k, v)[key] by {
        let j = choose|j: int| 0 <= j < kv2.len() && kv2[j].0 == key;
        lemma_as_map_index(kv2, j);
        if key == k {
            if j < kv.len() {
                assert(kv[j].0 != k);
            }
            assert(j == kv.len());
        } else {
            assert(j < kv.len());
            lemma_as_map_index(kv, j);
        }
    }
    assert(as_map(kv2) =~= as_map(kv).insert(k, v));
}

/// A string-keyed map: later insertions overwrite earlier bindings of
/// the same key.
pub struct StrMap<V> {
    pairs: Vec<(String, V)>,
}

impl<V> View for StrMap<V> {
    type V = Map<Seq<char>, V>;

    open spec fn view(&self) -> Map<Seq<char>, V> {
        as_map(self.kv())
    }
}

impl<V> StrMap<V> {
    /// The bindings in insertion order, keys as character sequences.
    pub closed spec fn kv(&self) -> Seq<(Seq<char>, V)> {
        self.pairs@.map_values(|p: (String, V)| (p.0@, p.1))
    }

    pub open spec fn wf(&self) -> bool {
        unique_keys(self.kv())
    }

    /// Every listed binding is in the map.
    pub proof fn lemma_kv_in_view(&self, i: int)
        requires
            self.wf(),
            0 <= i < self.kv().len(),
        ensures
            self@.dom().contains(self.kv()[i].0),
            self@[self.kv()[i].0] == self.kv()[i].1,
    {
        lemma_as_map_index(self.kv(), i);
    }

    pub fn new() -> (r: Self)
        ensures
            r.wf(),
            r@ == Map::<Seq<char>, V>::empty(),
            r.kv() == Seq::<(Seq<char>, V)>::empty(),
    {
        let r = StrMap { pairs: Vec::new() };
        proof {
            assert(r.kv() =~= Seq::<(Seq<char>, V)>::empty());
            assert(r@ =~= Map::<Seq<char>, V>::empty());
        }
        r
    }

    pub fn len(&self) -> (r: usize)
        ensures
            r == self.kv().len(),
    {
        self.pairs.len()
    }

    pub fn key_at(&self, i: usize) -> (r: &String)
        requires
            i < self.kv().len(),
        ensures
            r@ == self.kv()[i as int].0,
    {
        &self.pairs[i].0
    }

    pub fn val_at(&self, i: usize) -> (r: &V)
        requires
            i < self.kv().len(),
        ensures
            *r == self.kv()[i as int].1,
    {
        &self.pairs[i].1
    }

    fn index_of(&self, k: &str) -> (r: Option<usize>)
        ensures
            match r {
                Some(i) => i < self.kv().len() && self.kv()[i as int].0 == k@,
                None => forall|i: int| 0 <= i < self.kv().len() ==> self.kv()[i].0 != k@,
            },
    {
        let n = self.pairs.len();
        let mut i: usize = 0;
        loop
            invariant
                0 <= i <= n,
                n == self.kv().len(),
                n == self.pairs.len(),
                forall|j: int| 0 <= j < i ==> self.kv()[j].0 != k@,
            decreases n - i,
        {
            if i == n {
                return None;
            }
            if str_eq(self.pairs[i].0.as_str(), k) {
                return Some(i);
            }
            i += 1;
        }
    }

    pub fn contains_key(&self, k: &str) -> (r: bool)
        requires
            self.wf(),
        ensures
            r == self@.dom().contains(k@),
    {
        match self.index_of(k) {
            Some(i) => {
                proof {
                    lemma_as_map_index(self.kv(), i as int);
                }
                true
            },
            None => false,
        }
    }

    pub fn get(&self, k: &str) -> (r: Option<&V>)
        requires
            self.wf(),
        ensures
            match r {
                Some(v) => self@.dom().contains(k@) && self@[k@] == *v,
                None => !self@.dom().contains(k@),
            },
    {
        match self.index_of(k) {
            Some(i) => {
                proof {
                    lemma_as_map_index(self.kv(), i as int);
                }
                Some(&self.pairs[i].1)
            },
            None => None,
        }
    }

    /// Insert-or-overwrite: afterwards `k` is bound to `v` and every
    /// other binding is unchanged.
    pub fn insert(&mut self, k: String, v: V)
        requires
            old(self).wf(),
        ensures
            final(self).wf(),
            final(self)@ == old(self)@.insert(k@, v),
            final(self).kv().len() <= old(self).kv().len() + 1,
    {
        let found = self.index_of(k.as_str());
        match found {
            Some(i) => {
                let ghost oldkv = self.kv();
                self.pairs.remove(i);
                self.pairs.insert(i, (k, v));
                proof {
                    assert(self.kv() =~= oldkv.update(i as int, (k@, v)));
                    lemma_as_map_update(oldkv, i as int, k@, v);
                }
            },
            None => {
                let ghost oldkv = self.kv();
                self.pairs.push((k, v));
                proof {
                    assert(self.kv() =~= oldkv.push((k@, v)));
                    lemma_as_map_push(oldkv, k@, v);
                }
            },
        }
    }
}

} // verus!

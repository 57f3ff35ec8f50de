//! Small association containers with mathematical `Map` and `Set` views.
//!
//! The engine keys its tables by content digests and file ids.  These
//! containers store their entries in a vector with pairwise-distinct keys,
//! which keeps every operation fully verified.

use vstd::prelude::*;

verus! {

/// A key type with a decidable equality that agrees with spec equality.
pub trait EqKey: Sized {
    fn eq_key(&self, other: &Self) -> (r: bool)
        ensures
            r == (self == other);
}

/// The keys of a pair sequence, in order.
pub open spec fn keys_of<K, V>(s: Seq<(K, V)>) -> Seq<K> {
    s.map_values(|p: (K, V)| p.0)
}

/// The map folded from a pair sequence, later entries winning.
pub open spec fn map_of<K, V>(s: Seq<(K, V)>) -> Map<K, V>
    decreases s.len(),
{
    if s.len() == 0 {
        Map::empty()
    } else {
        map_of(s.drop_last()).insert(s.last().0, s.last().1)
    }
}

/// The domain of the folded map is exactly the set of listed keys.
pub proof fn lemma_map_of_dom<K, V>(s: Seq<(K, V)>)
    ensures
        map_of(s).dom() =~= keys_of(s).to_set(),
    decreases s.len(),
{
    if s.len() == 0 {
    } else {
        lemma_map_of_dom(s.drop_last());
        assert(keys_of(s).drop_last() =~= keys_of(s.drop_last()));
        assert forall|k: K| keys_of(s).to_set().contains(k) implies map_of(s).dom().contains(
            k,
        ) by {
            let i = choose|i: int| 0 <= i < keys_of(s).len() && keys_of(s)[i] == k;
            if i < s.len() - 1 {
                assert(keys_of(s.drop_last())[i] == k);
                assert(keys_of(s.drop_last()).to_set().contains(k));
            }
        }
        assert forall|k: K| map_of(s).dom().contains(k) implies keys_of(s).to_set().contains(
            k,
        ) by {
            if k == s.last().0 {
                assert(keys_of(s)[s.len() - 1] == k);
            } else {
                let i = choose|i: int|
                    0 <= i < keys_of(s.drop_last()).len() && keys_of(s.drop_last())[i] == k;
                assert(keys_of(s)[i] == k);
            }
        }
    }
}

/// With distinct keys, each listed pair is in the folded map.
pub proof fn lemma_map_of_index<K, V>(s: Seq<(K, V)>, i: int)
    requires
        keys_of(s).no_duplicates(),
        0 <= i < s.len(),
    ensures
        map_of(s).dom().contains(s[i].0),
        map_of(s)[s[i].0] == s[i].1,
    decreases s.len(),
{
    lemma_map_of_dom(s);
    assert(keys_of(s)[i] == s[i].0);
    if i == s.len() - 1 {
    } else {
        assert(keys_of(s).drop_last() =~= keys_of(s.drop_last()));
        lemma_map_of_index(s.drop_last(), i);
        assert(keys_of(s)[s.len() - 1] == s.last().0);
        assert(s[i].0 != s.last().0);
    }
}

/// A finite map held as a vector of pairs with pairwise-distinct keys.
pub struct AssocMap<K, V> {
    pairs: Vec<(K, V)>,
}

impl<K: EqKey + Copy, V> AssocMap<K, V> {
    /// The pair sequence behind the map.
    pub closed spec fn pairs_seq(self) -> Seq<(K, V)> {
        self.pairs@
    }

    /// The mathematical map this container holds.
    pub closed spec fn view_map(self) -> Map<K, V> {
        map_of(self.pairs@)
    }

    /// Keys are pairwise distinct.
    pub closed spec fn wf(self) -> bool {
        keys_of(self.pairs@).no_duplicates()
    }

    pub proof fn lemma_view(self)
        requires
            self.wf(),
        ensures
            keys_of(self.pairs_seq()).no_duplicates(),
            self.view_map().dom() =~= keys_of(self.pairs_seq()).to_set(),
            self.view_map().dom().finite(),
            self.view_map().dom().len() == self.pairs_seq().len(),
            forall|i: int|
                0 <= i < self.pairs_seq().len() ==> {
                    &&& self.view_map().dom().contains(#[trigger] self.pairs_seq()[i].0)
                    &&& self.view_map()[self.pairs_seq()[i].0] == self.pairs_seq()[i].1
                },
    {
        lemma_map_of_dom(self.pairs@);
        assert(keys_of(self.pairs@).len() == self.pairs@.len());
        keys_of(self.pairs@).unique_seq_to_set();
        assert forall|i: int| 0 <= i < self.pairs_seq().len() implies {
            &&& self.view_map().dom().contains(#[trigger] self.pairs_seq()[i].0)
            &&& self.view_map()[self.pairs_seq()[i].0] == self.pairs_seq()[i].1
        } by {
            lemma_map_of_index(self.pairs@, i);
        }
    }

    pub fn new() -> (r: Self)
        ensures
            r.wf(),
            r.view_map() =~= Map::<K, V>::empty(),
            r.pairs_seq().len() == 0,
    {
        let r = AssocMap { pairs: Vec::new() };
        proof {
            assert(keys_of(r.pairs@) =~= Seq::<K>::empty());
        }
        r
    }

    /// The number of entries, which equals the cardinality of the map's domain.
    pub fn len(&self) -> (n: usize)
        requires
            self.wf(),
        ensures
            n == self.pairs_seq().len(),
            n == self.view_map().dom().len(),
    {
        proof {
            self.lemma_view();
        }
        self.pairs.len()
    }

    /// The index of the entry holding `key`, if any.
    fn find(&self, key: &K) -> (r: Option<usize>)
        ensures
            match r {
                Some(i) => i < self.pairs_seq().len() && self.pairs_seq()[i as int].0 == *key,
                None => forall|i: int|
                    0 <= i < self.pairs_seq().len() ==> (#[trigger] self.pairs_seq()[i]).0 != *key,
            },
    {
        let n = self.pairs.len();
        let mut i: usize = 0;
        while i < n
            invariant
                i <= n,
                n == self.pairs@.len(),
                forall|j: int| 0 <= j < i ==> (#[trigger] self.pairs@[j]).0 != *key,
            decreases n - i,
        {
            if self.pairs[i].0.eq_key(key) {
                return Some(i);
            }
            i = i + 1;
        }
        None
    }

    pub fn contains_key(&self, key: &K) -> (r: bool)
        requires
            self.wf(),
        ensures
            r == self.view_map().dom().contains(*key),
    {
        proof {
            self.lemma_view();
            lemma_map_of_dom(self.pairs@);
        }
        match self.find(key) {
            Some(_) => true,
            None => {
                proof {
                    if self.view_map().dom().contains(*key) {
                        let i = choose|i: int|
                            0 <= i < keys_of(self.pairs@).len() && keys_of(self.pairs@)[i] == *key;
                        assert(self.pairs@[i].0 == *key);
                    }
                }
                false
            },
        }
    }

    pub fn get(&self, key: &K) -> (r: Option<&V>)
        requires
            self.wf(),
        ensures
            match r {
                Some(v) => self.view_map().dom().contains(*key) && *v == self.view_map()[*key],
                None => !self.view_map().dom().contains(*key),
            },
    {
        proof {
            self.lemma_view();
            lemma_map_of_dom(self.pairs@);
        }
        match self.find(key) {
            Some(i) => {
                proof {
                    lemma_map_of_index(self.pairs@, i as int);
                }
                Some(&self.pairs[i].1)
            },
            None => {
                proof {
                    if self.view_map().dom().contains(*key) {
                        let i = choose|i: int|
                            0 <= i < keys_of(self.pairs@).len() && keys_of(self.pairs@)[i] == *key;
                        assert(self.pairs@[i].0 == *key);
                    }
                }
                None
            },
        }
    }

    /// Binds `key` to `value`, replacing any earlier binding.
    pub fn insert(&mut self, key: K, value: V)
        requires
            old(self).wf(),
        ensures
            final(self).wf(),
            final(self).view_map() =~= old(self).view_map().insert(key, value),
            final(self).pairs_seq().len() == if old(self).view_map().dom().contains(key) {
                old(self).pairs_seq().len()
            } else {
                old(self).pairs_seq().len() + 1
            },
    {
        proof {
            self.lemma_view();
            lemma_map_of_dom(self.pairs@);
        }
        match self.find(&key) {
            Some(i) => {
                let ghost before = self.pairs@;
                self.pairs[i] = (key, value);
                proof {
                    assert(keys_of(self.pairs@) =~= keys_of(before).update(i as int, key));
                    assert(keys_of(before)[i as int] == key);
                    assert(keys_of(self.pairs@) =~= keys_of(before));
                    lemma_map_of_update(before, i as int, key, value);
                }
            },
            None => {
                let ghost before = self.pairs@;
                self.pairs.push((key, value));
                proof {
                    assert(self.pairs@.drop_last() =~= before);
                    assert(keys_of(self.pairs@).drop_last() =~= keys_of(before));
                    let knew = keys_of(self.pairs@);
                    let kold = keys_of(before);
                    assert forall|a: int, b: int|
                        0 <= a < b < knew.len() implies knew[a] != knew[b] by {
                        if b < kold.len() {
                            assert(knew[a] == kold[a] && knew[b] == kold[b]);
                        } else {
                            assert(knew[b] == key);
                            assert(knew[a] == before[a].0);
                            assert(before[a].0 != key);
                        }
                    }
                    assert(keys_of(self.pairs@).no_duplicates());
                }
            },
        }
    }

    /// A reference to the entries, for iteration by callers.
    pub fn entries(&self) -> (r: &Vec<(K, V)>)
        ensures
            r@ == self.pairs_seq(),
    {
        &self.pairs
    }

    /// Removes and returns the value bound to `key`, if any.
    pub fn take(&mut self, key: &K) -> (r: Option<V>)
        requires
            old(self).wf(),
        ensures
            final(self).wf(),
            match r {
                Some(v) => old(self).view_map().dom().contains(*key) && v == old(
                    self,
                ).view_map()[*key] && final(self).view_map() =~= old(self).view_map().remove(*key),
                None => !old(self).view_map().dom().contains(*key) && final(self).view_map()
                    =~= old(self).view_map(),
            },
    {
        proof {
            self.lemma_view();
            lemma_map_of_dom(self.pairs@);
        }
        match self.find(key) {
            Some(i) => {
                let ghost before = self.pairs@;
                proof {
                    lemma_map_of_index(before, i as int);
                    lemma_map_of_remove(before, i as int);
                }
                let (_, v) = self.pairs.remove(i);
                proof {
                    assert(keys_of(self.pairs@) =~= keys_of(before).remove(i as int));
                    let kr = keys_of(before).remove(i as int);
                    assert forall|a: int, b: int|
                        0 <= a < b < kr.len() implies kr[a] != kr[b] by {
                        let a0 = if a < i { a } else { a + 1 };
                        let b0 = if b < i { b } else { b + 1 };
                        assert(kr[a] == keys_of(before)[a0]);
                        assert(kr[b] == keys_of(before)[b0]);
                    }
                    assert(kr.no_duplicates());
                }
                Some(v)
            },
            None => {
                proof {
                    if self.view_map().dom().contains(*key) {
                        let i = choose|i: int|
                            0 <= i < keys_of(self.pairs@).len() && keys_of(self.pairs@)[i] == *key;
                        assert(self.pairs@[i].0 == *key);
                    }
                }
                None
            },
        }
    }
}

/// Removing a listed pair removes its key from the folded map, provided
/// keys are distinct.
pub proof fn lemma_map_of_remove<K, V>(s: Seq<(K, V)>, i: int)
    requires
        keys_of(s).no_duplicates(),
        0 <= i < s.len(),
    ensures
        map_of(s.remove(i)) =~= map_of(s).remove(s[i].0),
    decreases s.len(),
{
    lemma_map_of_dom(s);
    lemma_map_of_dom(s.remove(i));
    if i == s.len() - 1 {
        assert(s.remove(i) =~= s.drop_last());
        lemma_map_of_dom(s.drop_last());
        assert(keys_of(s.drop_last()) =~= keys_of(s).drop_last());
        assert(keys_of(s)[s.len() - 1] == s[i].0);
        assert forall|k: K|
            #![auto]
            map_of(s.drop_last()).dom().contains(k) implies map_of(s).dom().contains(k) && k
            != s[i].0 && map_of(s.drop_last())[k] == map_of(s)[k] by {
            let t = choose|t: int|
                0 <= t < keys_of(s.drop_last()).len() && keys_of(s.drop_last())[t] == k;
            assert(keys_of(s)[t] == k);
            assert(keys_of(s)[t] != keys_of(s)[s.len() - 1]);
            lemma_map_of_index(s.drop_last(), t);
            lemma_map_of_index(s, t);
            assert(s.drop_last()[t] == s[t]);
        }
        assert forall|k: K|
            #![auto]
            map_of(s).dom().contains(k) && k != s[i].0 implies map_of(s.drop_last()).dom().contains(
            k,
        ) by {
            let t = choose|t: int| 0 <= t < keys_of(s).len() && keys_of(s)[t] == k;
            assert(t != s.len() - 1);
            assert(keys_of(s.drop_last())[t] == k);
        }
    } else {
        assert(s.remove(i).drop_last() =~= s.drop_last().remove(i));
        assert(keys_of(s.drop_last()) =~= keys_of(s).drop_last());
        lemma_map_of_remove(s.drop_last(), i);
        assert(s.remove(i).last() == s.last());
        assert(keys_of(s)[i] == s[i].0);
        assert(keys_of(s)[s.len() - 1] == s.last().0);
        assert(s.last().0 != s[i].0);
        assert(map_of(s.remove(i)) =~= map_of(s.drop_last()).remove(s[i].0).insert(
            s.last().0,
            s.last().1,
        ));
        assert(map_of(s.drop_last()).remove(s[i].0).insert(s.last().0, s.last().1) =~= map_of(
            s.drop_last(),
        ).insert(s.last().0, s.last().1).remove(s[i].0));
        assert(s.drop_last()[i] == s[i]);
    }
}

/// Updating a pair in place updates the folded map, provided keys stay put.
pub proof fn lemma_map_of_update<K, V>(s: Seq<(K, V)>, i: int, key: K, value: V)
    requires
        keys_of(s).no_duplicates(),
        0 <= i < s.len(),
        s[i].0 == key,
    ensures
        map_of(s.update(i, (key, value))) =~= map_of(s).insert(key, value),
    decreases s.len(),
{
    lemma_map_of_dom(s);
    if i == s.len() - 1 {
        assert(s.update(i, (key, value)).drop_last() =~= s.drop_last());
    } else {
        assert(s.update(i, (key, value)).drop_last() =~= s.drop_last().update(i, (key, value)));
        assert(keys_of(s).drop_last() =~= keys_of(s.drop_last()));
        lemma_map_of_update(s.drop_last(), i, key, value);
        assert(keys_of(s)[i] == key);
        assert(keys_of(s)[s.len() - 1] == s.last().0);
        assert(s.last().0 != key);
        assert(map_of(s.update(i, (key, value))) =~= map_of(s.drop_last()).insert(
            key,
            value,
        ).insert(s.last().0, s.last().1));
        assert(map_of(s.drop_last()).insert(key, value).insert(s.last().0, s.last().1) =~= map_of(
            s.drop_last(),
        ).insert(s.last().0, s.last().1).insert(key, value));
    }
}

/// A finite set held as a vector of pairwise-distinct items.
pub struct AssocSet<K> {
    items: Vec<K>,
}

impl<K: EqKey + Copy> AssocSet<K> {
    /// The item sequence behind the set.
    pub closed spec fn items_seq(self) -> Seq<K> {
        self.items@
    }

    /// The mathematical set this container holds.
    pub closed spec fn view_set(self) -> Set<K> {
        self.items@.to_set()
    }

    /// Items are pairwise distinct.
    pub closed spec fn wf(self) -> bool {
        self.items@.no_duplicates()
    }

    pub proof fn lemma_view(self)
        requires
            self.wf(),
        ensures
            self.items_seq().no_duplicates(),
            self.view_set().finite(),
            self.view_set().len() == self.items_seq().len(),
            forall|i: int|
                0 <= i < self.items_seq().len() ==> self.view_set().contains(
                    #[trigger] self.items_seq()[i],
                ),
            forall|k: K|
                self.view_set().contains(k) ==> exists|i: int|
                    0 <= i < self.items_seq().len() && self.items_seq()[i] == k,
    {
        self.items@.unique_seq_to_set();
        assert forall|k: K| self.view_set().contains(k) implies exists|i: int|
            0 <= i < self.items_seq().len() && self.items_seq()[i] == k by {
            assert(self.items@.contains(k));
            let i = choose|i: int| 0 <= i < self.items@.len() && self.items@[i] == k;
            assert(self.items_seq()[i] == k);
        }
    }

    pub fn new() -> (r: Self)
        ensures
            r.wf(),
            r.view_set() =~= Set::<K>::empty(),
            r.items_seq().len() == 0,
    {
        AssocSet { items: Vec::new() }
    }

    pub fn len(&self) -> (n: usize)
        requires
            self.wf(),
        ensures
            n == self.items_seq().len(),
            n == self.view_set().len(),
    {
        proof {
            self.lemma_view();
        }
        self.items.len()
    }

    pub fn contains(&self, key: &K) -> (r: bool)
        requires
            self.wf(),
        ensures
            r == self.view_set().contains(*key),
    {
        proof {
            self.lemma_view();
        }
        let n = self.items.len();
        let mut i: usize = 0;
        while i < n
            invariant
                i <= n,
                n == self.items@.len(),
                forall|j: int| 0 <= j < i ==> self.items@[j] != *key,
            decreases n - i,
        {
            if self.items[i].eq_key(key) {
                return true;
            }
            i = i + 1;
        }
        false
    }

    /// Adds `key`; a no-op when it is already present.
    pub fn insert(&mut self, key: K)
        requires
            old(self).wf(),
        ensures
            final(self).wf(),
            final(self).view_set() =~= old(self).view_set().insert(key),
            final(self).items_seq().len() == if old(self).view_set().contains(key) {
                old(self).items_seq().len()
            } else {
                old(self).items_seq().len() + 1
            },
    {
        if !self.contains(&key) {
            let ghost before = self.items@;
            self.items.push(key);
            proof {
                assert(self.items@.drop_last() =~= before);
                before.unique_seq_to_set();
                before.lemma_push_to_set_commute(key);
                assert(self.items@ =~= before.push(key));
            }
        } else {
            proof {
                assert(self.items@.to_set() =~= self.items@.to_set().insert(key));
            }
        }
    }

    /// A reference to the items, for iteration by callers.
    pub fn items(&self) -> (r: &Vec<K>)
        ensures
            r@ == self.items_seq(),
    {
        &self.items
    }
}

} // verus!

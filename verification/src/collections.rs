//! Small sets and maps kept in vectors, keyed by values that can be compared by their views.
//!
//! The catalog indexes its packs, item IDs and normalized texts with these; they behave as
//! `HashSet` and `HashMap` do (an insert of a present key replaces, a remove of an absent key
//! does nothing) and their views are mathematical sets and maps.
use vstd::prelude::*;

verus! {

/// A key whose equality can be decided by comparing views.
pub trait KeyEq: View + Sized {
    fn key_eq(&self, other: &Self) -> (r: bool)
        ensures
            r == (self@ == other@),
    ;

    fn key_clone(&self) -> (r: Self)
        ensures
            r@ == self@,
    ;
}

impl KeyEq for String {
    fn key_eq(&self, other: &Self) -> (r: bool) {
        String::eq(self, other)
    }

    fn key_clone(&self) -> (r: Self) {
        self.clone()
    }
}

/// The views of a list of keys.
pub open spec fn key_views<K: View>(v: Seq<K>) -> Seq<K::V> {
    v.map_values(|k: K| k@)
}

/// In a sequence without repetition, the index of the element at `i` is `i`.
pub proof fn lemma_index_of_unique<A>(s: Seq<A>, i: int)
    requires
        s.no_duplicates(),
        0 <= i < s.len(),
    ensures
        s.index_of(s[i]) == i,
{
    assert(s.contains(s[i]));
    let j = s.index_of(s[i]);
    assert(0 <= j < s.len() && s[j] == s[i]);
}

/// A finite set of keys, compared by view, held without repetition.
pub struct ViewSet<K> {
    elems: Vec<K>,
}

impl<K: KeyEq> ViewSet<K> {
    /// The keys in insertion order.
    pub closed spec fn keys(&self) -> Seq<K::V> {
        key_views(self.elems@)
    }

    /// No key is held twice.
    pub closed spec fn wf(&self) -> bool {
        self.keys().no_duplicates()
    }

    /// The set of keys.
    pub closed spec fn set(&self) -> Set<K::V> {
        self.keys().to_set()
    }

    /// An empty set.
    pub fn new() -> (r: Self)
        ensures
            r.wf(),
            r.set() == Set::<K::V>::empty(),
    {
        let r = ViewSet { elems: Vec::new() };
        assert(r.keys() =~= Seq::<K::V>::empty());
        assert(r.set() =~= Set::<K::V>::empty());
        r
    }

    /// The position of a key, if it is held.
    fn position(&self, k: &K) -> (r: Option<usize>)
        ensures
            match r {
                Some(i) => i < self.elems@.len() && self.keys()[i as int] == k@,
                None => !self.keys().contains(k@),
            },
    {
        let mut i: usize = 0;
        while i < self.elems.len()
            invariant
                i <= self.elems@.len(),
                forall|j: int| 0 <= j < i ==> #[trigger] self.keys()[j] != k@,
            decreases self.elems@.len() - i,
        {
            if self.elems[i].key_eq(k) {
                return Some(i);
            }
            i += 1;
        }
        None
    }

    /// Whether a key is held.
    pub fn contains(&self, k: &K) -> (r: bool)
        ensures
            r == self.set().contains(k@),
    {
        self.position(k).is_some()
    }

    /// Adds a key; nothing changes when it is already held.
    pub fn insert(&mut self, k: K)
        requires
            old(self).wf(),
        ensures
            final(self).wf(),
            final(self).set() == old(self).set().insert(k@),
    {
        match self.position(&k) {
            Some(_) => {
                assert(self.set() =~= old(self).set().insert(k@));
            },
            None => {
                let ghost kv = k@;
                self.elems.push(k);
                assert(self.keys() =~= old(self).keys().push(kv));
                proof {
                    old(self).keys().lemma_push_to_set_commute(kv);
                }
                assert(self.set() =~= old(self).set().insert(kv));
            },
        }
    }

    /// Removes a key; nothing changes when it is not held.
    pub fn remove(&mut self, k: &K)
        requires
            old(self).wf(),
        ensures
            final(self).wf(),
            final(self).set() == old(self).set().remove(k@),
    {
        match self.position(k) {
            Some(i) => {
                let ghost before = self.keys();
                self.elems.remove(i);
                assert(self.keys() =~= before.remove(i as int));
                assert(self.set() =~= old(self).set().remove(k@)) by {
                    assert forall|x: K::V| #[trigger] self.set().contains(x) implies old(
                        self,
                    ).set().remove(k@).contains(x) by {
                        let j = choose|j: int| 0 <= j < self.keys().len() && self.keys()[j] == x;
                        if j < i {
                            assert(before[j] == x);
                        } else {
                            assert(before[j + 1] == x);
                        }
                    }
                    assert forall|x: K::V| #[trigger] old(self).set().remove(k@).contains(
                        x,
                    ) implies self.set().contains(x) by {
                        let j = choose|j: int| 0 <= j < before.len() && before[j] == x;
                        if j < i {
                            assert(self.keys()[j] == x);
                        } else {
                            assert(self.keys()[j - 1] == x);
                        }
                    }
                }
            },
            None => {
                assert(self.set() =~= old(self).set().remove(k@));
            },
        }
    }
}

/// A finite map from keys, compared by view, to values, with each key held once.
pub struct ViewMap<K, V> {
    entries: Vec<(K, V)>,
}

impl<K: KeyEq, V> ViewMap<K, V> {
    /// The keys in insertion order.
    pub closed spec fn keys(&self) -> Seq<K::V> {
        self.entries@.map_values(|e: (K, V)| e.0@)
    }

    /// No key is held twice.
    pub closed spec fn wf(&self) -> bool {
        self.keys().no_duplicates()
    }

    /// The map from key views to values.
    pub closed spec fn map(&self) -> Map<K::V, V> {
        Map::new(
            |k: K::V| self.keys().contains(k),
            |k: K::V| self.entries@[self.keys().index_of(k)].1,
        )
    }

    /// An empty map.
    pub fn new() -> (r: Self)
        ensures
            r.wf(),
            r.map() == Map::<K::V, V>::empty(),
    {
        let r = ViewMap { entries: Vec::new() };
        assert(r.keys() =~= Seq::<K::V>::empty());
        assert(r.map() =~= Map::<K::V, V>::empty());
        r
    }

    /// The position of a key, if it is held.
    fn position(&self, k: &K) -> (r: Option<usize>)
        ensures
            match r {
                Some(i) => i < self.entries@.len() && self.keys()[i as int] == k@,
                None => !self.keys().contains(k@),
            },
    {
        let mut i: usize = 0;
        while i < self.entries.len()
            invariant
                i <= self.entries@.len(),
                forall|j: int| 0 <= j < i ==> #[trigger] self.keys()[j] != k@,
            decreases self.entries@.len() - i,
        {
            if self.entries[i].0.key_eq(k) {
                return Some(i);
            }
            i += 1;
        }
        None
    }

    /// The value held for a key, if any.
    pub fn get(&self, k: &K) -> (r: Option<&V>)
        requires
            self.wf(),
        ensures
            match r {
                Some(v) => self.map().contains_key(k@) && self.map()[k@] == *v,
                None => !self.map().contains_key(k@),
            },
    {
        match self.position(k) {
            Some(i) => {
                proof {
                    self.keys().index_of_first_ensures(k@);
                    assert(self.keys().index_of(k@) == i as int);
                }
                Some(&self.entries[i].1)
            },
            None => None,
        }
    }

    /// Sets the value for a key, replacing any value it had.
    pub fn insert(&mut self, k: K, v: V)
        requires
            old(self).wf(),
        ensures
            final(self).wf(),
            final(self).map() == old(self).map().insert(k@, v),
    {
        let ghost kv = k@;
        match self.position(&k) {
            Some(i) => {
                let ghost before = self.keys();
                self.entries.set(i, (k, v));
                assert(self.keys() =~= before);
                assert(self.map() =~= old(self).map().insert(kv, v)) by {
                    assert forall|x: K::V| #[trigger] self.keys().contains(x) implies self.map()[x]
                        == old(self).map().insert(kv, v)[x] by {
                        let j = choose|j: int| 0 <= j < before.len() && before[j] == x;
                        lemma_index_of_unique(before, j);
                        if x == kv {
                            lemma_index_of_unique(before, i as int);
                        }
                    }
                }
            },
            None => {
                self.entries.push((k, v));
                assert(self.keys() =~= old(self).keys().push(kv));
                assert(self.keys().no_duplicates()) by {
                    assert forall|a: int, b: int|
                        0 <= a < self.keys().len() && 0 <= b < self.keys().len() && a != b implies self.keys()[a]
                        != self.keys()[b] by {
                        if a == old(self).keys().len() as int {
                            assert(old(self).keys()[b] == self.keys()[b]);
                        } else if b == old(self).keys().len() as int {
                            assert(old(self).keys()[a] == self.keys()[a]);
                        }
                    }
                }
                proof {
                    old(self).keys().lemma_push_to_set_commute(kv);
                    assert forall|x: K::V| self.keys().contains(x) <==> (old(self).keys().contains(x) || x == kv) by {
                        assert(self.keys().to_set().contains(x) == self.keys().contains(x));
                        assert(old(self).keys().to_set().contains(x) == old(self).keys().contains(x));
                    }
                }
                assert(self.map() =~= old(self).map().insert(kv, v)) by {
                    assert forall|x: K::V| #[trigger] self.keys().contains(x) implies self.map()[x]
                        == old(self).map().insert(kv, v)[x] by {
                        let j = choose|j: int| 0 <= j < self.keys().len() && self.keys()[j] == x;
                        lemma_index_of_unique(self.keys(), j);
                        if j < old(self).keys().len() {
                            assert(old(self).keys()[j] == x);
                            lemma_index_of_unique(old(self).keys(), j);
                        }
                    }
                }
            },
        }
    }

    /// Removes a key and its value; nothing changes when it is not held.
    pub fn remove(&mut self, k: &K)
        requires
            old(self).wf(),
        ensures
            final(self).wf(),
            final(self).map() == old(self).map().remove(k@),
    {
        match self.position(k) {
            Some(i) => {
                let ghost before = self.keys();
                self.entries.remove(i);
                assert(self.keys() =~= before.remove(i as int));
                assert(self.map() =~= old(self).map().remove(k@)) by {
                    assert forall|x: K::V| #[trigger] self.keys().contains(x) <==> old(
                        self,
                    ).map().remove(k@).contains_key(x) by {
                        if self.keys().contains(x) {
                            let j = choose|j: int| 0 <= j < self.keys().len() && self.keys()[j] == x;
                            if j < i {
                                assert(before[j] == x);
                            } else {
                                assert(before[j + 1] == x);
                            }
                        }
                        if old(self).map().remove(k@).contains_key(x) {
                            let j = choose|j: int| 0 <= j < before.len() && before[j] == x;
                            if j < i {
                                assert(self.keys()[j] == x);
                            } else {
                                assert(self.keys()[j - 1] == x);
                            }
                        }
                    }
                    assert forall|x: K::V| #[trigger] self.keys().contains(x) implies self.map()[x]
                        == old(self).map()[x] by {
                        let j = choose|j: int| 0 <= j < self.keys().len() && self.keys()[j] == x;
                        lemma_index_of_unique(self.keys(), j);
                        if j < i {
                            assert(before[j] == x);
                            lemma_index_of_unique(before, j);
                        } else {
                            assert(before[j + 1] == x);
                            lemma_index_of_unique(before, j + 1);
                        }
                    }
                }
            },
            None => {
                assert(self.map() =~= old(self).map().remove(k@));
            },
        }
    }
}

} // verus!

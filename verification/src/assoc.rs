//! Association list: a small map whose keys are compared one by one.

use vstd::prelude::*;

verus! {

/// A key that can be compared for equality.
pub trait KeyEq: Sized {
    /// What the key stands for.
    type Model;

    /// What this key stands for.
    spec fn model(&self) -> Self::Model;

    /// Whether two keys stand for the same thing.
    fn same(&self, other: &Self) -> (r: bool)
        ensures
            r == (self.model() == other.model()),
    ;
}

/// A map kept as a list of pairs, no two of which have the same key.
pub struct AssocMap<K: KeyEq, V> {
    items: Vec<(K, V)>,
}

/// No two pairs have the same key.
spec fn distinct<K: KeyEq, V>(s: Seq<(K, V)>) -> bool {
    forall|i: int, j: int|
        #![trigger s[i], s[j]]
        0 <= i < j < s.len() ==> s[i].0.model() != s[j].0.model()
}

/// Pair `i` has key `k`.
spec fn at<K: KeyEq, V>(s: Seq<(K, V)>, k: K::Model, i: int) -> bool {
    0 <= i < s.len() && s[i].0.model() == k
}

spec fn as_map<K: KeyEq, V>(s: Seq<(K, V)>) -> Map<K::Model, V> {
    Map::new(
        |k: K::Model| exists|i: int| at(s, k, i),
        |k: K::Model| s[choose|i: int| at(s, k, i)].1,
    )
}

proof fn lemma_at<K: KeyEq, V>(s: Seq<(K, V)>, k: K::Model, i: int)
    requires
        distinct(s),
        at(s, k, i),
    ensures
        as_map(s).contains_key(k),
        as_map(s)[k] == s[i].1,
{
    let j = choose|j: int| at(s, k, j);
    assert(at(s, k, j));
    assert(s[i].0.model() == s[j].0.model());
    assert(i == j);
}

proof fn lemma_absent<K: KeyEq, V>(s: Seq<(K, V)>, k: K::Model)
    requires
        forall|i: int| !at(s, k, i),
    ensures
        !as_map(s).contains_key(k),
{
}

proof fn lemma_push<K: KeyEq, V>(s: Seq<(K, V)>, item: (K, V))
    requires
        distinct(s),
        forall|i: int| !at(s, item.0.model(), i),
    ensures
        distinct(s.push(item)),
        as_map(s.push(item)) == as_map(s).insert(item.0.model(), item.1),
{
    let t = s.push(item);
    let k = item.0.model();
    let n = s.len() as int;
    assert forall|a: int, b: int| #![trigger t[a], t[b]] 0 <= a < b < t.len() implies t[a].0.model()
        != t[b].0.model() by {
        if b == n {
            assert(!at(s, k, a));
        } else {
            assert(s[a].0.model() != s[b].0.model());
        }
    }
    let m = as_map(s).insert(k, item.1);
    assert forall|q: K::Model| #![trigger m.contains_key(q)]
        as_map(t).contains_key(q) == m.contains_key(q) && (m.contains_key(q) ==> as_map(t)[q]
            == m[q]) by {
        if q == k {
            assert(at(t, q, n));
            lemma_at(t, q, n);
        } else if exists|a: int| at(s, q, a) {
            let a = choose|a: int| at(s, q, a);
            assert(at(t, q, a));
            lemma_at(s, q, a);
            lemma_at(t, q, a);
        } else {
            assert forall|a: int| !at(t, q, a) by {
                assert(!at(s, q, a));
            }
        }
    }
    assert(as_map(t) =~= m);
}

proof fn lemma_update<K: KeyEq, V>(s: Seq<(K, V)>, i: int, item: (K, V))
    requires
        distinct(s),
        at(s, item.0.model(), i),
    ensures
        distinct(s.update(i, item)),
        as_map(s.update(i, item)) == as_map(s).insert(item.0.model(), item.1),
{
    let t = s.update(i, item);
    let k = item.0.model();
    assert forall|a: int| 0 <= a < s.len() implies (#[trigger] t[a]).0.model() == s[a].0.model() by {
    }
    assert forall|a: int, b: int| #![trigger t[a], t[b]] 0 <= a < b < t.len() implies t[a].0.model()
        != t[b].0.model() by {
        assert(s[a].0.model() != s[b].0.model());
    }
    let m = as_map(s).insert(k, item.1);
    assert forall|q: K::Model| #![trigger m.contains_key(q)]
        as_map(t).contains_key(q) == m.contains_key(q) && (m.contains_key(q) ==> as_map(t)[q]
            == m[q]) by {
        if q == k {
            assert(at(t, q, i));
            lemma_at(t, q, i);
        } else if exists|a: int| at(s, q, a) {
            let a = choose|a: int| at(s, q, a);
            assert(a != i);
            assert(at(t, q, a));
            lemma_at(s, q, a);
            lemma_at(t, q, a);
        } else {
            assert forall|a: int| !at(t, q, a) by {
                assert(!at(s, q, a));
                if 0 <= a < t.len() {
                    assert(t[a].0.model() == s[a].0.model());
                }
            }
        }
    }
    assert(as_map(t) =~= m);
}

proof fn lemma_remove<K: KeyEq, V>(s: Seq<(K, V)>, i: int)
    requires
        distinct(s),
        0 <= i < s.len(),
    ensures
        distinct(s.remove(i)),
        as_map(s.remove(i)) == as_map(s).remove(s[i].0.model()),
{
    let t = s.remove(i);
    let k = s[i].0.model();
    assert forall|a: int, b: int| #![trigger t[a], t[b]] 0 <= a < b < t.len() implies t[a].0.model()
        != t[b].0.model() by {
        let x = if a < i {
            a
        } else {
            a + 1
        };
        let y = if b < i {
            b
        } else {
            b + 1
        };
        assert(t[a] == s[x] && t[b] == s[y]);
    }
    let m = as_map(s).remove(k);
    assert forall|q: K::Model| #![trigger m.contains_key(q)]
        as_map(t).contains_key(q) == m.contains_key(q) && (m.contains_key(q) ==> as_map(t)[q]
            == m[q]) by {
        if q == k {
            assert forall|a: int| !at(t, q, a) by {
                if 0 <= a < t.len() {
                    let x = if a < i {
                        a
                    } else {
                        a + 1
                    };
                    assert(t[a] == s[x]);
                    assert(s[x].0.model() != s[i].0.model());
                }
            }
        } else if exists|a: int| at(s, q, a) {
            let a = choose|a: int| at(s, q, a);
            let x = if a < i {
                a
            } else {
                a - 1
            };
            assert(t[x] == s[a]);
            assert(at(t, q, x));
            lemma_at(s, q, a);
            lemma_at(t, q, x);
        } else {
            assert forall|a: int| !at(t, q, a) by {
                if 0 <= a < t.len() {
                    let x = if a < i {
                        a
                    } else {
                        a + 1
                    };
                    assert(t[a] == s[x]);
                    assert(!at(s, q, x));
                }
            }
        }
    }
    assert(as_map(t) =~= m);
}

proof fn lemma_len<K: KeyEq, V>(s: Seq<(K, V)>)
    requires
        distinct(s),
    ensures
        as_map(s).dom().finite(),
        as_map(s).dom().len() == s.len(),
    decreases s.len(),
{
    if s.len() == 0 {
        assert(as_map(s).dom() =~= Set::<K::Model>::empty());
    } else {
        let t = s.drop_last();
        assert(distinct(t));
        lemma_len(t);
        let k = s.last().0.model();
        assert forall|i: int| !at(t, k, i) by {
            if 0 <= i < t.len() {
                assert(s[i].0.model() != s[s.len() - 1].0.model());
            }
        }
        lemma_push(t, s.last());
        assert(t.push(s.last()) =~= s);
        assert(as_map(s).dom() =~= as_map(t).dom().insert(k));
    }
}

impl<K: KeyEq, V> AssocMap<K, V> {
    #[verifier::type_invariant]
    spec fn well_formed(self) -> bool {
        distinct(self.items@)
    }

    /// The map that this list stands for.
    pub closed spec fn view(&self) -> Map<K::Model, V> {
        as_map(self.items@)
    }

    /// An empty map.
    pub fn new() -> (r: Self)
        ensures
            r@ == Map::<K::Model, V>::empty(),
    {
        let r = AssocMap { items: Vec::new() };
        assert(r@ =~= Map::<K::Model, V>::empty());
        r
    }

    fn find(&self, key: &K) -> (r: Option<usize>)
        ensures
            match r {
                Some(i) => at(self.items@, key.model(), i as int),
                None => forall|i: int| !at(self.items@, key.model(), i),
            },
    {
        let mut i: usize = 0;
        while i < self.items.len()
            invariant
                i <= self.items@.len(),
                forall|j: int| 0 <= j < i ==> !at(self.items@, key.model(), j),
            decreases self.items@.len() - i,
        {
            if self.items[i].0.same(key) {
                return Some(i);
            }
            i += 1;
        }
        None
    }

    /// Looks a key up.
    pub fn get(&self, key: &K) -> (r: Option<&V>)
        ensures
            match r {
                Some(v) => self@.contains_pair(key.model(), *v),
                None => !self@.contains_key(key.model()),
            },
    {
        proof {
            use_type_invariant(self);
        }
        match self.find(key) {
            Some(i) => {
                proof {
                    lemma_at(self.items@, key.model(), i as int);
                }
                Some(&self.items[i].1)
            },
            None => {
                proof {
                    lemma_absent(self.items@, key.model());
                }
                None
            },
        }
    }

    /// Whether a key is bound.
    pub fn contains_key(&self, key: &K) -> (r: bool)
        ensures
            r == self@.contains_key(key.model()),
    {
        self.get(key).is_some()
    }

    /// Binds a key, in place of what it was bound to.
    pub fn insert(&mut self, key: K, value: V)
        ensures
            final(self)@ == old(self)@.insert(key.model(), value),
    {
        proof {
            use_type_invariant(&*self);
        }
        let found = self.find(&key);
        let mut items: Vec<(K, V)> = Vec::new();
        std::mem::swap(&mut items, &mut self.items);
        match found {
            Some(i) => {
                proof {
                    lemma_update(items@, i as int, (key, value));
                }
                items[i] = (key, value);
            },
            None => {
                proof {
                    lemma_push(items@, (key, value));
                }
                items.push((key, value));
            },
        }
        self.items = items;
    }

    /// Unbinds a key and returns what it was bound to.
    pub fn remove(&mut self, key: &K) -> (r: Option<V>)
        ensures
            final(self)@ == old(self)@.remove(key.model()),
            match r {
                Some(v) => old(self)@.contains_pair(key.model(), v),
                None => !old(self)@.contains_key(key.model()),
            },
    {
        proof {
            use_type_invariant(&*self);
        }
        match self.find(key) {
            Some(i) => {
                let mut items: Vec<(K, V)> = Vec::new();
                std::mem::swap(&mut items, &mut self.items);
                proof {
                    lemma_at(items@, key.model(), i as int);
                    lemma_remove(items@, i as int);
                }
                let item = items.remove(i);
                self.items = items;
                Some(item.1)
            },
            None => {
                proof {
                    lemma_absent(self.items@, key.model());
                    assert(self@.remove(key.model()) =~= self@);
                }
                None
            },
        }
    }

    /// Number of keys bound.
    pub fn len(&self) -> (r: usize)
        ensures
            self@.dom().finite(),
            r == self@.len(),
            r == self.size(),
            forall|i: int, j: int|
                #![trigger self.nth(i), self.nth(j)]
                0 <= i < j < r ==> self.nth(i).model() != self.nth(j).model(),
            forall|k: K::Model|
                #![trigger self@.contains_key(k)]
                self@.contains_key(k) ==> exists|i: int| 0 <= i < r && self.nth(i).model() == k,
    {
        proof {
            use_type_invariant(self);
            lemma_len(self.items@);
            let s = self.items@;
            assert forall|k: K::Model| #![trigger self@.contains_key(k)]
                self@.contains_key(k) implies exists|i: int|
                0 <= i < s.len() && self.nth(i).model() == k by {
                let a = choose|a: int| at(s, k, a);
                assert(self.nth(a).model() == k);
            }
        }
        self.items.len()
    }

    /// Whether no key is bound.
    pub fn is_empty(&self) -> (r: bool)
        ensures
            r == (self@ == Map::<K::Model, V>::empty()),
    {
        proof {
            use_type_invariant(self);
            if self.items@.len() == 0 {
                assert(self@ =~= Map::<K::Model, V>::empty());
            } else {
                assert(at(self.items@, self.items@[0].0.model(), 0));
                assert(self@.contains_key(self.items@[0].0.model()));
            }
        }
        self.items.len() == 0
    }

    /// The key and value of pair `i`.
    pub fn pair(&self, i: usize) -> (r: (&K, &V))
        requires
            i < self.size(),
        ensures
            *r.0 == self.nth(i as int),
            self@.contains_pair(r.0.model(), *r.1),
    {
        proof {
            use_type_invariant(self);
            assert(at(self.items@, self.items@[i as int].0.model(), i as int));
            lemma_at(self.items@, self.items@[i as int].0.model(), i as int);
        }
        (&self.items[i].0, &self.items[i].1)
    }

    /// Number of pairs.
    pub closed spec fn size(&self) -> nat {
        self.items@.len()
    }

    /// The key of pair `i`.
    pub closed spec fn nth(&self, i: int) -> K {
        self.items@[i].0
    }
}

} // verus!

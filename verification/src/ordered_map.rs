//! A map kept as two parallel vectors with the keys in ascending order.

use vstd::prelude::*;
use vstd::laws_cmp::{obeys_cmp, obeys_cmp_ord, obeys_cmp_partial_ord, obeys_partial_cmp_spec_properties};
use vstd::laws_eq::{obeys_concrete_eq, obeys_eq_spec_properties};
use vstd::std_specs::cmp::{PartialEqSpec, PartialOrdSpec, OrdSpec};
use core::cmp::Ordering;

verus! {

/// Whether the key type's `==` and `<` behave as a strict total order on
/// values (true of the integer types, for instance).
pub open spec fn lawful_keys<K: Ord>() -> bool {
    &&& obeys_cmp::<K>()
    &&& obeys_concrete_eq::<K>()
}

/// `a` comes strictly before `b` in the key type's order.
pub open spec fn key_lt<K: PartialOrd>(a: K, b: K) -> bool {
    a.partial_cmp_spec(&b) == Some(Ordering::Less)
}

/// `a` comes at or after `b` in the key type's order.
pub open spec fn key_ge<K: PartialOrd>(a: K, b: K) -> bool {
    a.partial_cmp_spec(&b) matches Some(Ordering::Greater | Ordering::Equal)
}

/// The order of lawful keys is a strict total order.
pub proof fn lemma_key_order<K: Ord>()
    requires
        lawful_keys::<K>(),
    ensures
        K::obeys_eq_spec(),
        K::obeys_partial_cmp_spec(),
        forall|x: K, y: K| #[trigger] x.eq_spec(&y) <==> x == y,
        forall|x: K| !key_lt(x, x),
        forall|x: K, y: K| x != y ==> key_lt(x, y) || key_lt(y, x),
        forall|x: K, y: K| #[trigger] key_lt(x, y) ==> !key_lt(y, x),
        forall|x: K, y: K, z: K| #[trigger] key_lt(x, y) && #[trigger] key_lt(y, z) ==> key_lt(x, z),
        forall|x: K, y: K| #[trigger] key_ge(x, y) == !key_lt(x, y),
{
    reveal(obeys_cmp_ord);
    reveal(obeys_cmp_partial_ord);
    reveal(obeys_partial_cmp_spec_properties);
    reveal(obeys_concrete_eq);
    reveal(obeys_eq_spec_properties);
    assert forall|x: K, y: K| x != y implies key_lt(x, y) || key_lt(y, x) by {
        assert(x.partial_cmp_spec(&y) == Some(x.cmp_spec(&y)));
        assert(!x.eq_spec(&y));
        if x.partial_cmp_spec(&y) == Some(Ordering::Greater) {
            assert(y.partial_cmp_spec(&x) == Some(Ordering::Less));
        }
    }
    assert forall|x: K, y: K| #[trigger] key_lt(x, y) implies !key_lt(y, x) by {
        assert(y.partial_cmp_spec(&x) == Some(Ordering::Greater));
    }
    assert forall|x: K| !key_lt(x, x) by {
        assert(x.eq_spec(&x));
    }
    assert forall|x: K, y: K| #[trigger] key_ge(x, y) == !key_lt(x, y) by {
        assert(x.partial_cmp_spec(&y) == Some(x.cmp_spec(&y)));
        if x == y {
            assert(x.eq_spec(&y));
        }
    }
}


/// Keys in strictly ascending order.
pub open spec fn keys_ascending<K: PartialOrd>(keys: Seq<K>) -> bool {
    forall|i: int, j: int| 0 <= i < j < keys.len() ==> key_lt(#[trigger] keys[i], #[trigger] keys[j])
}

/// A map from keys to values held as a vector of keys in ascending order
/// and the vector of their values in the same order.
#[derive(Debug, Clone, PartialEq, Eq, Hash)]
pub struct OrderedMap<K: Ord, V> {
    keys: Vec<K>,
    values: Vec<V>,
}

impl<K: Ord, V> OrderedMap<K, V> {
    /// The keys, in the order in which they are held.
    pub closed spec fn key_seq(&self) -> Seq<K> {
        self.keys@
    }

    /// The values, in the order of their keys.
    pub closed spec fn value_seq(&self) -> Seq<V> {
        self.values@
    }

    /// Each key has one value, and lawful keys are held in ascending order.
    pub open spec fn wf(&self) -> bool {
        &&& self.key_seq().len() == self.value_seq().len()
        &&& lawful_keys::<K>() ==> keys_ascending(self.key_seq())
    }

    /// The value held for `k`, if any.
    pub open spec fn spec_get(&self, k: K) -> Option<V> {
        if self.key_seq().contains(k) {
            Some(self.value_seq()[self.key_seq().index_of(k)])
        } else {
            None
        }
    }
}

impl<K: Ord, V> View for OrderedMap<K, V> {
    type V = Map<K, V>;

    /// The map from each held key to its value.
    open spec fn view(&self) -> Map<K, V> {
        Map::new(|k: K| self.key_seq().contains(k), |k: K| self.spec_get(k).unwrap())
    }
}

/// In an ascending sequence the position of a key is the only one.
proof fn lemma_index_unique<K: Ord>(keys: Seq<K>, i: int)
    requires
        lawful_keys::<K>(),
        keys_ascending(keys),
        0 <= i < keys.len(),
    ensures
        keys.contains(keys[i]),
        keys.index_of(keys[i]) == i,
{
    lemma_key_order::<K>();
    assert(keys[i] == keys[i]);
    let j = keys.index_of(keys[i]);
    if j != i {
        if j < i {
            assert(key_lt(keys[j], keys[i]));
        } else {
            assert(key_lt(keys[i], keys[j]));
        }
    }
}

impl<K: Ord, V> Default for OrderedMap<K, V> {
    /// An empty map.
    fn default() -> (r: Self)
        ensures
            r.wf(),
            r.key_seq().len() == 0,
            r@ == Map::<K, V>::empty(),
    {
        let r = OrderedMap { keys: Vec::new(), values: Vec::new() };
        assert(r@ =~= Map::<K, V>::empty());
        r
    }
}

impl<K: Ord, V> OrderedMap<K, V> {
    /// The number of items in this map.
    pub fn len(&self) -> (r: usize)
        ensures
            r == self.key_seq().len(),
    {
        self.keys.len()
    }

    /// Whether the map holds no items.
    pub fn is_empty(&self) -> (r: bool)
        ensures
            r == (self.key_seq().len() == 0),
    {
        self.keys.len() == 0
    }

    /// Looks `key` up: `Ok` with its position when it is held, otherwise
    /// `Err` with the position at which it would have to be inserted.
    fn search(&self, key: &K) -> (r: Result<usize, usize>)
        requires
            self.wf(),
        ensures
            r matches Ok(i) ==> i < self.key_seq().len(),
            r matches Err(i) ==> i <= self.key_seq().len(),
            self.key_seq().len() == 0 ==> r == Err::<usize, usize>(0),
            lawful_keys::<K>() ==> match r {
                Ok(i) => self.key_seq()[i as int] == *key,
                Err(i) => {
                    &&& forall|j: int| 0 <= j < i ==> key_lt(#[trigger] self.key_seq()[j], *key)
                    &&& forall|j: int| i <= j < self.key_seq().len() ==> key_lt(*key, #[trigger] self.key_seq()[j])
                },
            },
    {
        let mut lo: usize = 0;
        let mut hi: usize = self.keys.len();
        while lo < hi
            invariant
                self.wf(),
                lo <= hi <= self.key_seq().len(),
                lawful_keys::<K>() ==> forall|j: int| 0 <= j < lo ==> key_lt(#[trigger] self.key_seq()[j], *key),
                lawful_keys::<K>() ==> forall|j: int| hi <= j < self.key_seq().len() ==> key_lt(*key, #[trigger] self.key_seq()[j]),
            decreases hi - lo,
        {
            let mid = lo + (hi - lo) / 2;
            if key.eq(&self.keys[mid]) {
                proof {
                    if lawful_keys::<K>() {
                        lemma_key_order::<K>();
                    }
                }
                return Ok(mid);
            }
            if key.lt(&self.keys[mid]) {
                proof {
                    if lawful_keys::<K>() {
                        lemma_key_order::<K>();
                        assert forall|j: int| mid <= j < self.key_seq().len() implies key_lt(*key, #[trigger] self.key_seq()[j]) by {
                            if j > mid {
                                assert(key_lt(self.key_seq()[mid as int], self.key_seq()[j]));
                            }
                        }
                    }
                }
                hi = mid;
            } else {
                proof {
                    if lawful_keys::<K>() {
                        lemma_key_order::<K>();
                        assert(key_lt(self.key_seq()[mid as int], *key));
                        assert forall|j: int| 0 <= j < mid + 1 implies key_lt(#[trigger] self.key_seq()[j], *key) by {
                            if j < mid {
                                assert(key_lt(self.key_seq()[j], self.key_seq()[mid as int]));
                            }
                        }
                    }
                }
                lo = mid + 1;
            }
        }
        Err(lo)
    }
}


impl<K: Ord, V> OrderedMap<K, V> {
    /// Whether the map holds an entry for `key`.
    pub fn contains_key(&self, key: &K) -> (r: bool)
        requires
            self.wf(),
        ensures
            lawful_keys::<K>() ==> r == self@.dom().contains(*key),
            self.key_seq().len() == 0 ==> !r,
    {
        match self.search(key) {
            Ok(_) => true,
            Err(_) => {
                proof {
                    if lawful_keys::<K>() {
                        lemma_key_order::<K>();
                        if self.key_seq().contains(*key) {
                            let j = choose|j: int| 0 <= j < self.key_seq().len() && self.key_seq()[j] == *key;
                            assert(self.key_seq()[j] == *key);
                        }
                    }
                }
                false
            },
        }
    }

    /// The keys, in ascending order.
    pub fn keys(&self) -> (r: &[K])
        ensures
            r@ == self.key_seq(),
            self.wf() && lawful_keys::<K>() ==> keys_ascending(r@),
    {
        self.keys.as_slice()
    }

    /// The values, in the ascending order of their keys.
    pub fn values(&self) -> (r: Values<'_, V>)
        ensures
            r.remaining() == self.value_seq(),
    {
        Values::new(self.values.as_slice())
    }

    /// The value held for `key`, if any.
    pub fn get(&self, key: &K) -> (r: Option<&V>)
        requires
            self.wf(),
        ensures
            lawful_keys::<K>() ==> match r {
                Some(v) => self@.dom().contains(*key) && *v == self@[*key],
                None => !self@.dom().contains(*key),
            },
            r matches Some(v) ==> self.value_seq().contains(*v),
            self.key_seq().len() == 0 ==> r is None,
    {
        match self.search(key) {
            Ok(index) => {
                proof {
                    if lawful_keys::<K>() {
                        lemma_index_unique(self.key_seq(), index as int);
                    }
                }
                Some(&self.values[index])
            },
            Err(_) => {
                proof {
                    if lawful_keys::<K>() {
                        lemma_key_order::<K>();
                        if self.key_seq().contains(*key) {
                            let j = choose|j: int| 0 <= j < self.key_seq().len() && self.key_seq()[j] == *key;
                            assert(self.key_seq()[j] == *key);
                        }
                    }
                }
                None
            },
        }
    }

    /// A mutable reference to the value held for `key`, if any.
    pub fn get_mut(&mut self, key: &K) -> (r: Option<&mut V>)
        requires
            old(self).wf(),
        ensures
            final(self).key_seq() == old(self).key_seq(),
            final(self).wf(),
            r is None ==> final(self).value_seq() == old(self).value_seq(),
            old(self).key_seq().len() == 0 ==> r is None,
            lawful_keys::<K>() ==> match r {
                Some(v) => {
                    &&& old(self)@.dom().contains(*key)
                    &&& *v == old(self)@[*key]
                    &&& final(self)@ == old(self)@.insert(*key, *final(v))
                },
                None => !old(self)@.dom().contains(*key),
            },
    {
        match self.search(key) {
            Ok(index) => {
                proof {
                    if lawful_keys::<K>() {
                        lemma_index_unique(self.key_seq(), index as int);
                    }
                }
                let ghost keys = self.key_seq();
                let ghost old_map = self@;
                let r = &mut self.values[index];
                proof {
                    if lawful_keys::<K>() {
                        lemma_key_order::<K>();
                        let new_vals = old(self).value_seq().update(index as int, *final(r));
                        assert forall|k: K| #[trigger] keys.contains(k) implies (if k == *key {
                            new_vals[keys.index_of(k)] == *final(r)
                        } else {
                            new_vals[keys.index_of(k)] == old(self).value_seq()[keys.index_of(k)]
                        }) by {
                            let j = choose|j: int| 0 <= j < keys.len() && keys[j] == k;
                            lemma_index_unique(keys, j);
                        }
                    }
                }
                Some(r)
            },
            Err(_) => {
                proof {
                    if lawful_keys::<K>() {
                        lemma_key_order::<K>();
                        if self.key_seq().contains(*key) {
                            let j = choose|j: int| 0 <= j < self.key_seq().len() && self.key_seq()[j] == *key;
                            assert(self.key_seq()[j] == *key);
                        }
                    }
                }
                None
            },
        }
    }
}

impl<K: Ord, V> OrderedMap<K, V> {
    /// Inserts `value` for `key`, handing back the value that `key` had,
    /// if any.
    pub fn insert(&mut self, key: K, value: V) -> (r: Option<V>)
        requires
            old(self).wf(),
        ensures
            final(self).wf(),
            r is Some ==> final(self).key_seq() == old(self).key_seq(),
            r is None ==> final(self).key_seq().len() == old(self).key_seq().len() + 1,
            r matches Some(v) ==> exists|i: int| 0 <= i < old(self).key_seq().len()
                && old(self).value_seq()[i] == v
                && #[trigger] final(self).value_seq() == old(self).value_seq().update(i, value),
            r is None ==> exists|i: int| 0 <= i <= old(self).key_seq().len()
                && #[trigger] final(self).key_seq() == old(self).key_seq().insert(i, key)
                && final(self).value_seq() == old(self).value_seq().insert(i, value),
            old(self).key_seq().len() == 0 ==> r is None,
            lawful_keys::<K>() ==> {
                &&& r == old(self).spec_get(key)
                &&& final(self)@ == old(self)@.insert(key, value)
            },
    {
        let ghost old_keys = self.key_seq();
        let ghost old_vals = self.value_seq();
        match self.search(&key) {
            Ok(index) => {
                self.values.push(value);
                let old_value = self.values.swap_remove(index);
                proof {
                    assert(self.key_seq() == old_keys);
                    assert(self.value_seq() =~= old_vals.update(index as int, value));
                    if lawful_keys::<K>() {
                        lemma_key_order::<K>();
                        lemma_index_unique(old_keys, index as int);
                        assert forall|k: K| #[trigger] old_keys.contains(k) && k != key implies
                            self.value_seq()[old_keys.index_of(k)] == old_vals[old_keys.index_of(k)] by {
                            let j = choose|j: int| 0 <= j < old_keys.len() && old_keys[j] == k;
                            lemma_index_unique(old_keys, j);
                        }
                        assert(self@ =~= old(self)@.insert(key, value));
                    }
                }
                Some(old_value)
            },
            Err(index) => {
                let ghost k2 = key;
                self.keys.insert(index, key);
                self.values.insert(index, value);
                proof {
                    assert(self.key_seq() == old_keys.insert(index as int, k2));
                    assert(self.value_seq() == old_vals.insert(index as int, value));
                    if lawful_keys::<K>() {
                        lemma_key_order::<K>();
                        let nk = self.key_seq();
                        assert(keys_ascending(nk)) by {
                            assert forall|i: int, j: int| 0 <= i < j < nk.len() implies key_lt(#[trigger] nk[i], #[trigger] nk[j]) by {
                                if j < index {
                                } else if i < index && j == index {
                                    assert(nk[i] == old_keys[i]);
                                } else if i < index {
                                    assert(nk[j] == old_keys[j - 1]);
                                    assert(key_lt(old_keys[i], k2));
                                } else if i == index {
                                    assert(nk[j] == old_keys[j - 1]);
                                } else {
                                    assert(nk[i] == old_keys[i - 1]);
                                    assert(nk[j] == old_keys[j - 1]);
                                }
                            }
                        }
                        assert(!old_keys.contains(k2)) by {
                            if old_keys.contains(k2) {
                                let j = choose|j: int| 0 <= j < old_keys.len() && old_keys[j] == k2;
                                if j < index {
                                    assert(key_lt(old_keys[j], k2));
                                } else {
                                    assert(key_lt(k2, old_keys[j]));
                                }
                            }
                        }
                        lemma_index_unique(nk, index as int);
                        assert forall|k: K| #[trigger] old_keys.contains(k) implies
                            nk.contains(k) && self.value_seq()[nk.index_of(k)] == old_vals[old_keys.index_of(k)] by {
                            let j = choose|j: int| 0 <= j < old_keys.len() && old_keys[j] == k;
                            lemma_index_unique(old_keys, j);
                            if j < index {
                                assert(nk[j] == k);
                                lemma_index_unique(nk, j);
                            } else {
                                assert(nk[j + 1] == k);
                                lemma_index_unique(nk, j + 1);
                            }
                        }
                        assert forall|k: K| #[trigger] nk.contains(k) implies old_keys.contains(k) || k == k2 by {
                            let j = choose|j: int| 0 <= j < nk.len() && nk[j] == k;
                            if j < index {
                                assert(old_keys[j] == k);
                            } else if j > index {
                                assert(old_keys[j - 1] == k);
                            }
                        }
                        assert(self@ =~= old(self)@.insert(k2, value));
                    }
                }
                None
            },
        }
    }
}

impl<K: Ord, V> OrderedMap<K, V> {
    /// Checks the representation: keys strictly ascending and one value
    /// per key.
    pub fn is_valid(&self) -> (r: bool)
        ensures
            lawful_keys::<K>() ==> r == (keys_ascending(self.key_seq())
                && self.key_seq().len() == self.value_seq().len()),
    {
        let n = self.keys.len();
        let mut i: usize = 1;
        proof {
            if lawful_keys::<K>() {
                lemma_key_order::<K>();
            }
        }
        while i < n
            invariant
                n == self.key_seq().len(),
                1 <= i,
                lawful_keys::<K>() ==> forall|a: int, b: int|
                    0 <= a < b < i && b < n ==> key_lt(#[trigger] self.key_seq()[a], #[trigger] self.key_seq()[b]),
            decreases n - i,
        {
            if self.keys[i - 1].ge(&self.keys[i]) {
                proof {
                    if lawful_keys::<K>() {
                        lemma_key_order::<K>();
                        assert(key_ge(self.key_seq()[i - 1], self.key_seq()[i as int]));
                        assert(!key_lt(self.key_seq()[i - 1], self.key_seq()[i as int]));
                    }
                }
                return false;
            }
            proof {
                if lawful_keys::<K>() {
                    lemma_key_order::<K>();
                    let ks = self.key_seq();
                    assert(!key_ge(ks[i - 1], ks[i as int]));
                    assert(key_lt(ks[i - 1], ks[i as int]));
                    assert forall|a: int, b: int| 0 <= a < b < i + 1 && b < n implies key_lt(#[trigger] ks[a], #[trigger] ks[b]) by {
                        if b == i && a < i - 1 {
                            assert(key_lt(ks[a], ks[i - 1]));
                        }
                    }
                }
            }
            i = i + 1;
        }
        self.keys.len() == self.values.len()
    }
}

/// For lawful keys the number of items is the size of the map.
pub proof fn lemma_len_is_map_size<K: Ord, V>(m: OrderedMap<K, V>)
    requires
        m.wf(),
        lawful_keys::<K>(),
    ensures
        m.key_seq().len() == m@.dom().len(),
        m@.dom().finite(),
{
    lemma_key_order::<K>();
    assert(m.key_seq().no_duplicates()) by {
        assert forall|i: int, j: int| 0 <= i < m.key_seq().len() && 0 <= j < m.key_seq().len() && i != j
            implies m.key_seq()[i] != m.key_seq()[j] by {
            if i < j {
                assert(key_lt(m.key_seq()[i], m.key_seq()[j]));
            } else {
                assert(key_lt(m.key_seq()[j], m.key_seq()[i]));
            }
        }
    }
    m.key_seq().unique_seq_to_set();
    vstd::seq_lib::seq_to_set_is_finite(m.key_seq());
    assert(m@.dom() =~= m.key_seq().to_set());
}

/// A read after a write: after `insert(k, v)` the map holds `v` for `k`
/// and every other key keeps its value.
pub proof fn law_get_after_insert<K: Ord, V>(m: Map<K, V>, k: K, v: V, other: K)
    requires
        other != k,
    ensures
        m.insert(k, v).dom().contains(k),
        m.insert(k, v)[k] == v,
        m.insert(k, v).dom().contains(other) == m.dom().contains(other),
        m.dom().contains(other) ==> m.insert(k, v)[other] == m[other],
{
}

/// Inserting a key that is already held replaces its value and keeps the
/// number of items; inserting a new key adds one item.
pub proof fn law_insert_size<K: Ord, V>(m: OrderedMap<K, V>, k: K, v: V, after: OrderedMap<K, V>)
    requires
        m.wf(),
        after.wf(),
        lawful_keys::<K>(),
        after@ == m@.insert(k, v),
    ensures
        m@.dom().contains(k) ==> after.key_seq().len() == m.key_seq().len(),
        !m@.dom().contains(k) ==> after.key_seq().len() == m.key_seq().len() + 1,
{
    lemma_len_is_map_size(m);
    lemma_len_is_map_size(after);
    if !m@.dom().contains(k) {
        assert(after@.dom() =~= m@.dom().insert(k));
    } else {
        assert(after@.dom() =~= m@.dom());
    }
}

/// The values come in the order of their keys: the value at each position
/// is the value held for the key at that position, as `keys` and `values`
/// hand them out.
pub proof fn law_values_follow_keys<K: Ord, V>(m: OrderedMap<K, V>, i: int)
    requires
        m.wf(),
        lawful_keys::<K>(),
        0 <= i < m.key_seq().len(),
    ensures
        m@.dom().contains(m.key_seq()[i]),
        m@[m.key_seq()[i]] == m.value_seq()[i],
{
    lemma_index_unique(m.key_seq(), i);
}

/// The values of an ordered map, handed out one at a time in key order.
pub struct Values<'a, V> {
    values: &'a [V],
    index: usize,
}

impl<'a, V> Values<'a, V> {
    /// The values not yet handed out.
    pub closed spec fn remaining(&self) -> Seq<V> {
        self.values@.subrange(self.index as int, self.values@.len() as int)
    }

    pub closed spec fn valid(&self) -> bool {
        self.index <= self.values@.len()
    }

    /// Starts at the first of `values`.
    pub(crate) fn new(values: &'a [V]) -> (r: Self)
        ensures
            r.remaining() == values@,
            r.valid(),
    {
        let r = Values { values, index: 0 };
        assert(r.remaining() =~= values@);
        r
    }

    /// The next value, if any remain.
    pub fn next(&mut self) -> (r: Option<&'a V>)
        requires
            old(self).valid(),
        ensures
            final(self).valid(),
            match r {
                Some(v) => old(self).remaining().len() > 0 && *v == old(self).remaining()[0]
                    && final(self).remaining() == old(self).remaining().drop_first(),
                None => old(self).remaining().len() == 0 && final(self).remaining() == old(self).remaining(),
            },
    {
        if self.index < self.values.len() {
            let v = &self.values[self.index];
            self.index = self.index + 1;
            assert(self.remaining() =~= old(self).remaining().drop_first());
            Some(v)
        } else {
            None
        }
    }
}

} // verus!

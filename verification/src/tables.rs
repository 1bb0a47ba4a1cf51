//! An insertion-order-preserving association table.  Inserting under an
//! existing key replaces the value in place; a new key is appended.

use vstd::prelude::*;

use crate::model::distinct_keys;
use crate::model::has_key;
use crate::model::invert_tbl;
use crate::model::key_index;
use crate::model::lemma_insert_distinct;
use crate::model::lemma_key_index;
use crate::model::lookup;
use crate::model::tbl_insert;
use crate::descriptor::FieldData;
use crate::descriptor::MethodData;
use crate::types::ReferenceType;
use crate::utils::str_eq;

verus! {

/// An item a table can hold: comparable and duplicable through its view.
pub trait TableItem: View + Sized {
    /// The item's own well-formedness.
    spec fn item_wf(&self) -> bool;

    /// View equality, decided executably.
    fn eq_view(&self, other: &Self) -> (r: bool)
        ensures
            r == (self@ == other@),
    ;

    /// A copy with the same view and well-formedness.
    fn dup(&self) -> (r: Self)
        ensures
            r@ == self@,
            r.item_wf() == self.item_wf(),
    ;
}

impl TableItem for String {
    open spec fn item_wf(&self) -> bool {
        true
    }

    fn eq_view(&self, other: &Self) -> (r: bool) {
        str_eq(self.as_str(), other.as_str())
    }

    fn dup(&self) -> (r: Self) {
        self.clone()
    }
}

impl TableItem for ReferenceType {
    open spec fn item_wf(&self) -> bool {
        self.wf()
    }

    fn eq_view(&self, other: &Self) -> (r: bool) {
        str_eq(self.descriptor_as_str(), other.descriptor_as_str())
    }

    fn dup(&self) -> (r: Self) {
        self.clone()
    }
}

impl TableItem for FieldData {
    open spec fn item_wf(&self) -> bool {
        self.wf()
    }

    fn eq_view(&self, other: &Self) -> (r: bool) {
        let names_equal = {
            let a = self.name();
            let b = other.name();
            str_eq(a, b)
        };
        names_equal && str_eq(
            self.declaring_type().descriptor_as_str(),
            other.declaring_type().descriptor_as_str(),
        )
    }

    fn dup(&self) -> (r: Self) {
        self.clone()
    }
}

impl TableItem for MethodData {
    open spec fn item_wf(&self) -> bool {
        self.wf()
    }

    fn eq_view(&self, other: &Self) -> (r: bool) {
        let names_equal = {
            let a = self.name();
            let b = other.name();
            str_eq(a, b)
        };
        names_equal && str_eq(
            self.declaring_type().descriptor_as_str(),
            other.declaring_type().descriptor_as_str(),
        ) && str_eq(self.signature().descriptor_as_str(), other.signature().descriptor_as_str())
    }

    fn dup(&self) -> (r: Self) {
        self.clone()
    }
}

/// The association table itself.
#[derive(Debug)]
pub struct Table<K, V> {
    entries: Vec<(K, V)>,
}

impl<K: TableItem, V: TableItem> Table<K, V> {
    /// The stored pairs.
    pub closed spec fn entries_s(&self) -> Seq<(K, V)> {
        self.entries@
    }

    /// The pairs, as views.
    pub open spec fn map_v(&self) -> Seq<(K::V, V::V)> {
        self.entries_s().map_values(|e: (K, V)| (e.0@, e.1@))
    }

    /// No two entries share a key view.
    pub open spec fn distinct(&self) -> bool {
        distinct_keys(self.map_v())
    }

    /// Every stored key and value is well formed.
    pub open spec fn all_wf(&self) -> bool {
        forall|i: int|
            0 <= i < self.entries_s().len() ==> ((#[trigger] self.entries_s()[i]).0.item_wf()
                && self.entries_s()[i].1.item_wf())
    }

    pub fn new() -> (r: Table<K, V>)
        ensures
            r.map_v() == Seq::<(K::V, V::V)>::empty(),
            r.entries_s() == Seq::<(K, V)>::empty(),
            r.all_wf(),
            r.distinct(),
    {
        let r = Table { entries: Vec::new() };
        proof {
            assert(r.map_v() =~= Seq::<(K::V, V::V)>::empty());
        }
        r
    }

    pub fn len(&self) -> (r: usize)
        ensures
            r == self.map_v().len(),
            r == self.entries_s().len(),
    {
        self.entries.len()
    }

    pub fn is_empty(&self) -> (r: bool)
        ensures
            r == (self.map_v().len() == 0),
    {
        self.entries.len() == 0
    }

    /// The pair at a position, in insertion order.
    pub fn index(&self, i: usize) -> (r: &(K, V))
        requires
            i < self.entries_s().len(),
        ensures
            *r == self.entries_s()[i as int],
            r.0@ == self.map_v()[i as int].0,
            r.1@ == self.map_v()[i as int].1,
            self.all_wf() ==> r.0.item_wf() && r.1.item_wf(),
    {
        &self.entries[i]
    }

    /// First position whose key has this view, if any.
    pub fn find(&self, k: &K) -> (r: Option<usize>)
        ensures
            r matches Some(i) ==> i == key_index(self.map_v(), k@) && i < self.entries_s().len(),
            r is Some <==> has_key(self.map_v(), k@),
    {
        let ghost m = self.map_v();
        let n = self.entries.len();
        let mut i: usize = 0;
        while i < n
            invariant
                n == self.entries_s().len(),
                m == self.map_v(),
                0 <= i <= n,
                forall|j: int| 0 <= j < i ==> m[j].0 != k@,
            decreases n - i,
        {
            if self.entries[i].0.eq_view(k) {
                proof {
                    lemma_key_index(m, k@);
                    if key_index(m, k@) != i {
                        assert(m[i as int].0 == k@);
                    }
                }
                return Some(i);
            }
            i = i + 1;
        }
        proof {
            lemma_key_index(m, k@);
        }
        None
    }

    /// The value stored under a key, if any.
    pub fn get(&self, k: &K) -> (r: Option<&V>)
        ensures
            r matches Some(v) ==> lookup(self.map_v(), k@) == Some(v@),
            r is Some <==> has_key(self.map_v(), k@),
            self.all_wf() ==> (r matches Some(v) ==> v.item_wf()),
    {
        match self.find(k) {
            Some(i) => {
                proof {
                    lemma_key_index(self.map_v(), k@);
                }
                Some(&self.entries[i].1)
            },
            None => None,
        }
    }

    /// Inserts a pair: an existing key keeps its place and its key object
    /// and only the value changes; a new key is appended.
    pub fn insert(&mut self, k: K, v: V)
        ensures
            final(self).map_v() == tbl_insert(old(self).map_v(), k@, v@),
            old(self).distinct() ==> final(self).distinct(),
            old(self).all_wf() && k.item_wf() && v.item_wf() ==> final(self).all_wf(),
    {
        let ghost m = old(self).map_v();
        proof {
            if distinct_keys(m) {
                lemma_insert_distinct(m, k@, v@);
            }
        }
        match self.find(&k) {
            Some(i) => {
                let (k0, _) = self.entries.remove(i);
                self.entries.insert(i, (k0, v));
                proof {
                    lemma_key_index(m, k@);
                    assert(final(self).map_v() =~= tbl_insert(m, k@, v@));
                }
            },
            None => {
                self.entries.push((k, v));
                proof {
                    assert(final(self).map_v() =~= tbl_insert(m, k@, v@));
                }
            },
        }
    }

    pub fn clear(&mut self)
        ensures
            final(self).map_v() == Seq::<(K::V, V::V)>::empty(),
            final(self).entries_s() == Seq::<(K, V)>::empty(),
            final(self).all_wf(),
            final(self).distinct(),
    {
        self.entries.clear();
        proof {
            assert(final(self).map_v() =~= Seq::<(K::V, V::V)>::empty());
        }
    }

    /// Keeps only the entries the predicate approves, in their order.
    pub fn retain<F: Fn(&K, &V) -> bool>(&mut self, f: F)
        requires
            forall|k: &K, v: &V| #[trigger] f.requires((k, v)),
        ensures
            exists|idx: Seq<int>|
                {
                    &&& idx.len() == final(self).entries_s().len()
                    &&& (forall|a: int, b: int| 0 <= a < b < idx.len() ==> idx[a] < idx[b])
                    &&& (forall|a: int|
                        0 <= a < idx.len() ==> 0 <= #[trigger] idx[a] < old(
                            self,
                        ).entries_s().len() && final(self).entries_s()[a] == old(
                            self,
                        ).entries_s()[idx[a]])
                    &&& (forall|a: int|
                        0 <= a < idx.len() ==> f.ensures(
                            (
                                &old(self).entries_s()[#[trigger] idx[a]].0,
                                &old(self).entries_s()[idx[a]].1,
                            ),
                            true,
                        ))
                    &&& (forall|j: int|
                        0 <= j < old(self).entries_s().len() && !idx.contains(j)
                            ==> f.ensures(
                            (&(#[trigger] old(self).entries_s()[j]).0, &old(self).entries_s()[j].1),
                            false,
                        ))
                },
            old(self).distinct() ==> final(self).distinct(),
            old(self).all_wf() ==> final(self).all_wf(),
    {
        let ghost src = old(self).entries_s();
        let mut kept: Vec<(K, V)> = Vec::new();
        let ghost mut idx: Seq<int> = Seq::<int>::empty();
        let ghost mut i: int = 0;
        while self.entries.len() > 0
            invariant
                0 <= i <= src.len(),
                self.entries_s() == src.skip(i),
                forall|k: &K, v: &V| #[trigger] f.requires((k, v)),
                idx.len() == kept@.len(),
                forall|a: int, b: int| 0 <= a < b < idx.len() ==> idx[a] < idx[b],
                forall|a: int| 0 <= a < idx.len() ==> #[trigger] idx[a] < i,
                forall|a: int|
                    0 <= a < idx.len() ==> 0 <= #[trigger] idx[a] < src.len() && kept@[a]
                        == src[idx[a]],
                forall|a: int|
                    0 <= a < idx.len() ==> f.ensures(
                        (&src[#[trigger] idx[a]].0, &src[idx[a]].1),
                        true,
                    ),
                forall|j: int|
                    0 <= j < i && !idx.contains(j) ==> f.ensures(
                        (&(#[trigger] src[j]).0, &src[j].1),
                        false,
                    ),
            decreases self.entries_s().len(),
        {
            let e = self.entries.remove(0);
            proof {
                assert(e == src.skip(i)[0]);
                assert(src.skip(i)[0] == src[i]);
                assert(src.skip(i).remove(0) =~= src.skip(i + 1));
            }
            if f(&e.0, &e.1) {
                proof {
                    assert(f.ensures((&src[i].0, &src[i].1), true)) by {
                        assert(e.0 == src[i].0);
                        assert(e.1 == src[i].1);
                    }
                    let prev = idx;
                    idx = idx.push(i);
                    assert(idx[idx.len() - 1] == i);
                    assert forall|j: int| prev.contains(j) implies idx.contains(j) by {
                        let a = choose|a: int| 0 <= a < prev.len() && prev[a] == j;
                        assert(idx[a] == j);
                    }
                    assert forall|j: int|
                        0 <= j < i + 1 && !idx.contains(j) implies f.ensures(
                        (&(#[trigger] src[j]).0, &src[j].1),
                        false,
                    ) by {
                        if j < i {
                            assert(!prev.contains(j));
                        }
                    }
                }
                kept.push(e);
            } else {
                proof {
                    if idx.contains(i) {
                        let a = choose|a: int| 0 <= a < idx.len() && idx[a] == i;
                        assert(idx[a] < i);
                    }
                    assert(f.ensures((&src[i].0, &src[i].1), false)) by {
                        assert(e.0 == src[i].0);
                        assert(e.1 == src[i].1);
                    }
                }
            }
            proof {
                i = i + 1;
            }
        }
        proof {
            assert(i == src.len());
        }
        self.entries = kept;
        proof {
            if old(self).all_wf() {
                assert forall|a: int|
                    0 <= a < self.entries_s().len() implies ((
                #[trigger] self.entries_s()[a]).0.item_wf() && self.entries_s()[a].1.item_wf()) by {
                    assert(self.entries_s()[a] == src[idx[a]]);
                    assert(old(self).entries_s()[idx[a]].0.item_wf());
                }
            }
            if distinct_keys(old(self).map_v()) {
                assert forall|a: int, b: int|
                    0 <= a < b < self.map_v().len() implies self.map_v()[a].0 != self.map_v()[b].0
                    by {
                    assert(self.entries_s()[a] == src[idx[a]]);
                    assert(self.entries_s()[b] == src[idx[b]]);
                    assert(old(self).map_v()[idx[a]].0 == src[idx[a]].0@);
                    assert(old(self).map_v()[idx[b]].0 == src[idx[b]].0@);
                }
            }
        }
    }

    /// Truncates the table to its first `n` entries.
    pub fn keep_first(&mut self, n: usize)
        requires
            n <= old(self).entries_s().len(),
        ensures
            final(self).map_v() == old(self).map_v().take(n as int),
            final(self).entries_s() == old(self).entries_s().take(n as int),
            old(self).distinct() ==> final(self).distinct(),
            old(self).all_wf() ==> final(self).all_wf(),
    {
        self.entries.truncate(n);
        proof {
            assert(final(self).entries_s() =~= old(self).entries_s().take(n as int));
            assert(final(self).map_v() =~= old(self).map_v().take(n as int));
        }
    }

    /// A copy of the table, entry views preserved.
    pub fn dup(&self) -> (r: Table<K, V>)
        ensures
            r.map_v() == self.map_v(),
            self.all_wf() ==> r.all_wf(),
    {
        let ghost m = self.map_v();
        let n = self.entries.len();
        let mut entries: Vec<(K, V)> = Vec::new();
        let mut i: usize = 0;
        while i < n
            invariant
                n == self.entries_s().len(),
                m == self.map_v(),
                0 <= i <= n,
                entries@.len() == i,
                forall|j: int|
                    0 <= j < i ==> ((#[trigger] entries@[j]).0@ == m[j].0 && entries@[j].1@
                        == m[j].1),
                self.all_wf() ==> forall|j: int|
                    0 <= j < i ==> ((#[trigger] entries@[j]).0.item_wf()
                        && entries@[j].1.item_wf()),
            decreases n - i,
        {
            let k = self.entries[i].0.dup();
            let v = self.entries[i].1.dup();
            entries.push((k, v));
            i = i + 1;
        }
        let r = Table { entries };
        proof {
            assert(r.map_v() =~= m);
        }
        r
    }

    /// The table with every pair swapped, a later pair winning when two
    /// pairs share a value.
    pub fn inverted_tbl(&self) -> (r: Table<V, K>)
        ensures
            r.map_v() == invert_tbl(self.map_v()),
            r.distinct(),
            self.all_wf() ==> r.all_wf(),
    {
        let ghost m = self.map_v();
        let n = self.entries.len();
        let mut r: Table<V, K> = Table::new();
        proof {
            lemma_invert_distinct(m.take(0));
        }
        let mut i: usize = 0;
        while i < n
            invariant
                n == self.entries_s().len(),
                m == self.map_v(),
                0 <= i <= n,
                r.map_v() == invert_tbl(m.take(i as int)),
                r.distinct(),
                self.all_wf() ==> r.all_wf(),
            decreases n - i,
        {
            let k = self.entries[i].1.dup();
            let v = self.entries[i].0.dup();
            proof {
                assert(m.take(i + 1).drop_last() =~= m.take(i as int));
                assert(m.take(i + 1).last() == m[i as int]);
                lemma_invert_distinct(m.take(i as int));
            }
            r.insert(k, v);
            i = i + 1;
        }
        proof {
            assert(m.take(n as int) =~= m);
        }
        r
    }

    /// Whether two tables hold the same associations, in any order.
    pub fn same_mappings(&self, other: &Table<K, V>) -> (r: bool)
        ensures
            r == crate::model::tbl_equiv(self.map_v(), other.map_v()),
    {
        let n = self.entries.len();
        if n != other.entries.len() {
            proof {
                assert(self.map_v().len() != other.map_v().len());
            }
            return false;
        }
        let mut i: usize = 0;
        while i < n
            invariant
                n == self.entries_s().len(),
                n == other.entries_s().len(),
                0 <= i <= n,
                forall|j: int|
                    0 <= j < i ==> lookup(other.map_v(), (#[trigger] self.map_v()[j]).0) == Some(
                        self.map_v()[j].1,
                    ),
            decreases n - i,
        {
            let e = self.index(i);
            match other.get(&e.0) {
                Some(v) => {
                    if !v.eq_view(&e.1) {
                        proof {
                            assert(lookup(other.map_v(), self.map_v()[i as int].0) != Some(
                                self.map_v()[i as int].1,
                            ));
                        }
                        return false;
                    }
                },
                None => {
                    return false;
                },
            }
            i = i + 1;
        }
        true
    }

}

/// A capacity-bounded, insertion-ordered cache.  Overwriting an existing
/// key keeps its place; a fresh insertion that reaches the capacity
/// shrinks the cache to its oldest entries beyond the capacity.
#[derive(Debug)]
pub struct LruCache<K, V> {
    capacity: usize,
    map: Table<K, V>,
}

impl<K: TableItem, V: TableItem> LruCache<K, V> {
    /// The configured capacity.
    pub closed spec fn cap(&self) -> int {
        self.capacity as int
    }

    /// The cached pairs, as views.
    pub closed spec fn map_v(&self) -> Seq<(K::V, V::V)> {
        self.map.map_v()
    }

    pub closed spec fn wf(&self) -> bool {
        self.map.distinct() && self.map.all_wf()
    }

    pub fn new(capacity: usize) -> (r: LruCache<K, V>)
        ensures
            r.wf(),
            r.cap() == capacity,
            r.map_v() == Seq::<(K::V, V::V)>::empty(),
    {
        LruCache { capacity, map: Table::new() }
    }

    /// The number of cached entries.
    pub fn len(&self) -> (r: usize)
        ensures
            r == self.map_v().len(),
    {
        self.map.len()
    }

    /// The cached value for a key, if any.
    pub fn get(&self, k: &K) -> (r: Option<&V>)
        ensures
            r matches Some(v) ==> lookup(self.map_v(), k@) == Some(v@),
            r is Some <==> has_key(self.map_v(), k@),
    {
        self.map.get(k)
    }

    /// Shrinks an over-full cache to its entries beyond the capacity.
    fn cleanup(&mut self)
        requires
            old(self).wf(),
            old(self).map_v().len() >= old(self).cap(),
        ensures
            final(self).wf(),
            final(self).cap() == old(self).cap(),
            final(self).map_v() == old(self).map_v().take(
                old(self).map_v().len() - old(self).cap(),
            ),
    {
        let needed_removed = self.map.len() - self.capacity;
        self.map.keep_first(needed_removed);
    }

    /// Caches a value, returning the value an existing key held before.
    pub fn insert(&mut self, key: K, value: V) -> (r: Option<V>)
        requires
            old(self).wf(),
            key.item_wf(),
            value.item_wf(),
        ensures
            final(self).wf(),
            final(self).cap() == old(self).cap(),
            r is Some <==> has_key(old(self).map_v(), key@),
            r matches Some(v) ==> Some(v@) == lookup(old(self).map_v(), key@) && final(self).map_v()
                == tbl_insert(old(self).map_v(), key@, value@),
            r is None ==> ({
                let grown = tbl_insert(old(self).map_v(), key@, value@);
                if grown.len() >= old(self).cap() {
                    final(self).map_v() == grown.take(grown.len() - old(self).cap())
                } else {
                    final(self).map_v() == grown
                }
            }),
    {
        match self.map.find(&key) {
            Some(i) => {
                let old_value = self.map.index(i).1.dup();
                proof {
                    lemma_key_index(self.map.map_v(), key@);
                }
                self.map.insert(key, value);
                Some(old_value)
            },
            None => {
                self.map.insert(key, value);
                if self.map.len() >= self.capacity {
                    self.cleanup();
                }
                None
            },
        }
    }

    /// The cached value for a key, or the value the supplied producer
    /// makes, cached under the key.  No capacity check runs here.
    pub fn get_or_insert_with<F: FnOnce() -> V>(&mut self, key: K, func: F) -> (r: V)
        requires
            old(self).wf(),
            key.item_wf(),
            func.requires(()),
        ensures
            final(self).cap() == old(self).cap(),
            has_key(old(self).map_v(), key@) ==> final(self).map_v() == old(self).map_v() && Some(
                r@,
            ) == lookup(old(self).map_v(), key@) && final(self).wf(),
            !has_key(old(self).map_v(), key@) ==> exists|v: V|
                {
                    &&& #[trigger] func.ensures((), v)
                    &&& (v.item_wf() ==> final(self).wf())
                    &&& final(self).map_v() == tbl_insert(old(self).map_v(), key@, v@)
                    &&& r@ == v@
                },
    {
        match self.map.find(&key) {
            Some(i) => {
                proof {
                    lemma_key_index(self.map.map_v(), key@);
                }
                self.map.index(i).1.dup()
            },
            None => {
                let value = func();
                let r = value.dup();
                self.map.insert(key, value);
                r
            },
        }
    }
}

/// An inverted table has distinct keys by construction.
pub proof fn lemma_invert_distinct<KV, VV>(s: Seq<(KV, VV)>)
    ensures
        distinct_keys(invert_tbl(s)),
    decreases s.len(),
{
    if s.len() > 0 {
        lemma_invert_distinct(s.drop_last());
        lemma_insert_distinct(invert_tbl(s.drop_last()), s.last().1, s.last().0);
    }
}

} // verus!

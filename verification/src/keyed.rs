//! Association maps and sets over keys compared by their view.
//!
//! Transaction hashes and outpoints are byte strings; the maps and sets of the
//! mempool are kept as vectors of entries whose keys are pairwise distinct.

use vstd::prelude::*;
use crate::bytes::{bytes_eq, copy_bytes};

verus! {

/// A key that can be compared and copied, with equality given by its view.
pub trait KeyOps: View + Sized {
    fn key_eq(&self, other: &Self) -> (b: bool)
        ensures
            b == (self@ == other@);

    fn key_clone(&self) -> (c: Self)
        ensures
            c@ == self@;
}

impl KeyOps for Vec<u8> {
    fn key_eq(&self, other: &Self) -> (b: bool) {
        bytes_eq(self.as_slice(), other.as_slice())
    }

    fn key_clone(&self) -> (c: Self) {
        copy_bytes(self.as_slice())
    }
}

impl KeyOps for u64 {
    fn key_eq(&self, other: &Self) -> (b: bool) {
        *self == *other
    }

    fn key_clone(&self) -> (c: Self) {
        *self
    }
}

impl KeyOps for String {
    fn key_eq(&self, other: &Self) -> (b: bool) {
        *self == *other
    }

    fn key_clone(&self) -> (c: Self) {
        self.clone()
    }
}

/// Views of a sequence of keys.
pub open spec fn key_views<K: View>(s: Seq<K>) -> Seq<K::V> {
    s.map_values(|k: K| k@)
}

/// Map from keys to values; the entries hold each key once.
#[derive(Clone, Debug)]
pub struct KeyMap<K, V> {
    entries: Vec<(K, V)>,
}

impl<K: KeyOps, V> KeyMap<K, V> {
    /// The keys in the order the entries are held.
    pub closed spec fn key_seq(&self) -> Seq<K::V> {
        Seq::new(self.entries@.len(), |i: int| self.entries@[i].0@)
    }

    /// The values in the order the entries are held.
    pub closed spec fn value_seq(&self) -> Seq<V> {
        Seq::new(self.entries@.len(), |i: int| self.entries@[i].1)
    }

    pub closed spec fn wf(&self) -> bool {
        self.key_seq().no_duplicates()
    }

    pub closed spec fn view(&self) -> Map<K::V, V> {
        Map::new(
            |k: K::V| self.key_seq().contains(k),
            |k: K::V| self.value_seq()[self.key_seq().index_of(k)],
        )
    }

    pub proof fn lemma_view(&self)
        requires
            self.wf(),
        ensures
            self.key_seq().len() == self.value_seq().len(),
            self.key_seq().no_duplicates(),
            self.key_seq().to_set() == self@.dom(),
            self@.dom().finite(),
            self@.len() == self.key_seq().len(),
            forall|i: int| 0 <= i < self.key_seq().len() ==> #[trigger] self@[self.key_seq()[i]] == self.value_seq()[i],
            forall|i: int| 0 <= i < self.key_seq().len() ==> self@.contains_key(#[trigger] self.key_seq()[i]),
    {
        let ks = self.key_seq();
        assert(ks.to_set() =~= self@.dom());
        ks.unique_seq_to_set();
        assert forall|i: int| 0 <= i < ks.len() implies #[trigger] self@[ks[i]] == self.value_seq()[i] by {
            assert(ks.contains(ks[i]));
            ks.index_of_first_ensures(ks[i]);
        }
        vstd::seq_lib::seq_to_set_is_finite(ks);
    }

    pub fn new() -> (m: Self)
        ensures
            m.wf(),
            m@ == Map::<K::V, V>::empty(),
            m.key_seq() == Seq::<K::V>::empty(),
    {
        let m = KeyMap { entries: Vec::new() };
        assert(m@ =~= Map::<K::V, V>::empty());
        m
    }

    pub fn len(&self) -> (n: usize)
        requires
            self.wf(),
        ensures
            n == self@.len(),
            n == self.key_seq().len(),
    {
        proof {
            self.lemma_view();
        }
        self.entries.len()
    }

    pub fn is_empty(&self) -> (b: bool)
        requires
            self.wf(),
        ensures
            b == (self@.len() == 0),
            b == (self@ == Map::<K::V, V>::empty()),
    {
        proof {
            self.lemma_view();
            if self.entries.len() > 0 {
                assert(self@.contains_key(self.key_seq()[0]));
            } else {
                assert(self@ =~= Map::<K::V, V>::empty());
            }
        }
        self.entries.len() == 0
    }

    /// Position of the entry with key `k`.
    pub fn find(&self, k: &K) -> (r: Option<usize>)
        requires
            self.wf(),
        ensures
            match r {
                Some(i) => i < self.key_seq().len() && self.key_seq()[i as int] == k@,
                None => !self@.contains_key(k@),
            },
            r is Some <==> self@.contains_key(k@),
    {
        let mut i: usize = 0;
        while i < self.entries.len()
            invariant
                i <= self.entries@.len(),
                forall|j: int| 0 <= j < i ==> self.key_seq()[j] != k@,
            decreases self.entries@.len() - i,
        {
            if self.entries[i].0.key_eq(k) {
                proof {
                    assert(self.key_seq()[i as int] == k@);
                    assert(self.key_seq().contains(k@));
                }
                return Some(i);
            }
            i = i + 1;
        }
        None
    }

    pub fn contains_key(&self, k: &K) -> (b: bool)
        requires
            self.wf(),
        ensures
            b == self@.contains_key(k@),
    {
        self.find(k).is_some()
    }

    pub fn get(&self, k: &K) -> (r: Option<&V>)
        requires
            self.wf(),
        ensures
            match r {
                Some(v) => self@.contains_key(k@) && *v == self@[k@],
                None => !self@.contains_key(k@),
            },
    {
        match self.find(k) {
            Some(i) => {
                proof {
                    self.lemma_view();
                }
                Some(&self.entries[i].1)
            },
            None => None,
        }
    }

    /// Key of the entry at position `i`.
    pub fn key_at(&self, i: usize) -> (k: &K)
        requires
            i < self.key_seq().len(),
        ensures
            k@ == self.key_seq()[i as int],
    {
        &self.entries[i].0
    }

    /// Value of the entry at position `i`.
    pub fn value_at(&self, i: usize) -> (v: &V)
        requires
            self.wf(),
            i < self.key_seq().len(),
        ensures
            *v == self@[self.key_seq()[i as int]],
            *v == self.value_seq()[i as int],
    {
        proof {
            self.lemma_view();
        }
        &self.entries[i].1
    }

    /// Sets `k` to `v`; returns the value it replaced.
    pub fn insert(&mut self, k: K, v: V) -> (old_v: Option<V>)
        requires
            old(self).wf(),
        ensures
            final(self).wf(),
            final(self)@ == old(self)@.insert(k@, v),
            old(self)@.contains_key(k@) ==> old_v == Some(old(self)@[k@]),
            !old(self)@.contains_key(k@) ==> old_v is None,
            old(self)@.contains_key(k@) ==> final(self).key_seq() == old(self).key_seq(),
            !old(self)@.contains_key(k@) ==> final(self).key_seq() == old(self).key_seq().push(k@),
    {
        proof {
            self.lemma_view();
        }
        let ghost old_self = *self;
        match self.find(&k) {
            Some(i) => {
                let ghost kv = k@;
                let (_, old_value) = self.entries.remove(i);
                self.entries.insert(i, (k, v));
                proof {
                    assert(self.key_seq() =~= old_self.key_seq());
                    assert(self.value_seq() =~= old_self.value_seq().update(i as int, v));
                    assert forall|x: K::V| #[trigger] self@.contains_key(x) || old_self@.insert(kv, v).contains_key(x)
                        implies self@.contains_key(x) == old_self@.insert(kv, v).contains_key(x)
                        && self@[x] == old_self@.insert(kv, v)[x] by {
                        if x == kv {
                            old_self.key_seq().index_of_first_ensures(kv);
                            let ks = old_self.key_seq();
                            assert(ks.contains(kv));
                            assert(ks.index_of(kv) == i) by {
                                assert(ks[i as int] == kv);
                            }
                        } else if old_self.key_seq().contains(x) {
                            let ks = old_self.key_seq();
                            assert(ks[ks.index_of(x)] == x);
                            assert(ks.index_of(x) != i);
                        }
                    }
                    assert(self@ =~= old_self@.insert(kv, v));
                }
                Some(old_value)
            },
            None => {
                let ghost kv = k@;
                self.entries.push((k, v));
                proof {
                    assert(self.key_seq() =~= old_self.key_seq().push(kv));
                    assert(self.value_seq() =~= old_self.value_seq().push(v));
                    let ks = self.key_seq();
                    assert forall|x: K::V| #[trigger] self@.contains_key(x) || old_self@.insert(kv, v).contains_key(x)
                        implies self@.contains_key(x) == old_self@.insert(kv, v).contains_key(x)
                        && self@[x] == old_self@.insert(kv, v)[x] by {
                        if x == kv {
                            assert(ks[ks.len() - 1] == kv);
                            assert(ks.index_of(kv) == ks.len() - 1);
                        } else if old_self.key_seq().contains(x) {
                            let oks = old_self.key_seq();
                            assert(oks[oks.index_of(x)] == x);
                            assert(ks[oks.index_of(x)] == x);
                            assert(ks.index_of(x) == oks.index_of(x));
                        } else {
                            if ks.contains(x) {
                                let j = ks.index_of(x);
                                assert(j < ks.len() - 1);
                                assert(old_self.key_seq()[j] == x);
                            }
                        }
                    }
                    assert(self@ =~= old_self@.insert(kv, v));
                }
                None
            },
        }
    }

    /// Removes the entry for `k`; returns its value.
    pub fn remove(&mut self, k: &K) -> (old_v: Option<V>)
        requires
            old(self).wf(),
        ensures
            final(self).wf(),
            final(self)@ == old(self)@.remove(k@),
            old(self)@.contains_key(k@) ==> old_v == Some(old(self)@[k@]),
            !old(self)@.contains_key(k@) ==> old_v is None,
            old(self)@.contains_key(k@) ==> final(self).key_seq() == old(self).key_seq().remove(old(self).key_seq().index_of(k@)),
            !old(self)@.contains_key(k@) ==> final(self).key_seq() == old(self).key_seq(),
    {
        proof {
            self.lemma_view();
        }
        let ghost old_self = *self;
        match self.find(k) {
            Some(i) => {
                let (_, old_value) = self.entries.remove(i);
                proof {
                    let oks = old_self.key_seq();
                    let ks = self.key_seq();
                    assert(ks =~= oks.remove(i as int));
                    assert(self.value_seq() =~= old_self.value_seq().remove(i as int));
                    assert(ks.no_duplicates()) by {
                        assert forall|a: int, b: int| 0 <= a < ks.len() && 0 <= b < ks.len() && a != b implies ks[a] != ks[b] by {
                            let a2 = if a < i { a } else { a + 1 };
                            let b2 = if b < i { b } else { b + 1 };
                            assert(ks[a] == oks[a2]);
                            assert(ks[b] == oks[b2]);
                        }
                    }
                    assert forall|x: K::V| #[trigger] self@.contains_key(x) || old_self@.remove(k@).contains_key(x)
                        implies self@.contains_key(x) == old_self@.remove(k@).contains_key(x)
                        && self@[x] == old_self@.remove(k@)[x] by {
                        if ks.contains(x) {
                            let j = ks.index_of(x);
                            let j2 = if j < i { j } else { j + 1 };
                            assert(oks[j2] == x);
                            assert(oks.contains(x));
                            assert(x != k@) by {
                                assert(oks[i as int] == k@);
                            }
                            assert(oks.index_of(x) == j2) by {
                                oks.index_of_first_ensures(x);
                            }
                        } else if oks.contains(x) && x != k@ {
                            let j2 = oks.index_of(x);
                            assert(j2 != i);
                            let j = if j2 < i { j2 } else { j2 - 1 };
                            assert(ks[j] == x);
                        }
                    }
                    assert(self@ =~= old_self@.remove(k@));
                    assert(oks.index_of(k@) == i) by {
                        oks.index_of_first_ensures(k@);
                    }
                }
                Some(old_value)
            },
            None => {
                proof {
                    assert(self@ =~= old_self@.remove(k@));
                }
                None
            },
        }
    }

    /// Removes every entry.
    pub fn clear(&mut self)
        ensures
            final(self).wf(),
            final(self)@ == Map::<K::V, V>::empty(),
    {
        self.entries = Vec::new();
        proof {
            assert(self@ =~= Map::<K::V, V>::empty());
        }
    }
}

impl<K: KeyOps, V: Copy> KeyMap<K, V> {
    /// A copy of the map, entry by entry.
    pub fn duplicate(&self) -> (c: Self)
        requires
            self.wf(),
        ensures
            c.wf(),
            c@ == self@,
            c.key_seq() == self.key_seq(),
    {
        let mut entries: Vec<(K, V)> = Vec::new();
        let mut i: usize = 0;
        while i < self.entries.len()
            invariant
                i <= self.entries@.len(),
                entries@.len() == i,
                forall|j: int| 0 <= j < i ==> (#[trigger] entries@[j]).0@ == self.entries@[j].0@ && entries@[j].1 == self.entries@[j].1,
            decreases self.entries@.len() - i,
        {
            let k = self.entries[i].0.key_clone();
            let v = self.entries[i].1;
            entries.push((k, v));
            i = i + 1;
        }
        let c = KeyMap { entries };
        proof {
            assert(c.key_seq() =~= self.key_seq());
            assert(c.value_seq() =~= self.value_seq());
            assert(c@ =~= self@);
        }
        c
    }
}

/// Set of keys, held once each.
#[derive(Clone, Debug)]
pub struct KeySet<K> {
    map: KeyMap<K, ()>,
}

impl<K: KeyOps> KeySet<K> {
    /// The elements in the order they are held.
    pub closed spec fn elem_seq(&self) -> Seq<K::V> {
        self.map.key_seq()
    }

    pub closed spec fn wf(&self) -> bool {
        self.map.wf()
    }

    pub closed spec fn view(&self) -> Set<K::V> {
        self.map@.dom()
    }

    pub proof fn lemma_view(&self)
        requires
            self.wf(),
        ensures
            self.elem_seq().to_set() == self@,
            self.elem_seq().no_duplicates(),
            self@.finite(),
            self@.len() == self.elem_seq().len(),
    {
        self.map.lemma_view();
    }

    pub fn new() -> (s: Self)
        ensures
            s.wf(),
            s@ == Set::<K::V>::empty(),
            s.elem_seq() == Seq::<K::V>::empty(),
    {
        let s = KeySet { map: KeyMap::new() };
        assert(s@ =~= Set::<K::V>::empty());
        s
    }

    pub fn len(&self) -> (n: usize)
        requires
            self.wf(),
        ensures
            n == self@.len(),
            n == self.elem_seq().len(),
    {
        proof {
            self.map.lemma_view();
        }
        self.map.len()
    }

    pub fn is_empty(&self) -> (b: bool)
        requires
            self.wf(),
        ensures
            b == (self@.len() == 0),
            b == (self@ == Set::<K::V>::empty()),
    {
        proof {
            self.map.lemma_view();
            if self.map@.len() == 0 {
                assert(self.map@ == Map::<K::V, ()>::empty());
                assert(self@ =~= Set::<K::V>::empty());
            }
        }
        self.map.is_empty()
    }

    pub fn contains(&self, k: &K) -> (b: bool)
        requires
            self.wf(),
        ensures
            b == self@.contains(k@),
    {
        self.map.contains_key(k)
    }

    /// Adds `k`; returns whether it was absent.
    pub fn insert(&mut self, k: K) -> (added: bool)
        requires
            old(self).wf(),
        ensures
            final(self).wf(),
            final(self)@ == old(self)@.insert(k@),
            added == !old(self)@.contains(k@),
            old(self)@.contains(k@) ==> final(self).elem_seq() == old(self).elem_seq(),
            !old(self)@.contains(k@) ==> final(self).elem_seq() == old(self).elem_seq().push(k@),
    {
        let r = self.map.insert(k, ());
        proof {
            assert(self@ =~= old(self)@.insert(k@));
        }
        r.is_none()
    }

    /// Removes `k`; returns whether it was present.
    pub fn remove(&mut self, k: &K) -> (removed: bool)
        requires
            old(self).wf(),
        ensures
            final(self).wf(),
            final(self)@ == old(self)@.remove(k@),
            removed == old(self)@.contains(k@),
    {
        let r = self.map.remove(k);
        proof {
            assert(self@ =~= old(self)@.remove(k@));
        }
        r.is_some()
    }

    /// Element at position `i`.
    pub fn elem_at(&self, i: usize) -> (k: &K)
        requires
            i < self.elem_seq().len(),
        ensures
            k@ == self.elem_seq()[i as int],
    {
        self.map.key_at(i)
    }

    /// Copies of the elements, in the order they are held.
    pub fn to_vec(&self) -> (v: Vec<K>)
        requires
            self.wf(),
        ensures
            key_views(v@) == self.elem_seq(),
            key_views(v@).to_set() == self@,
            key_views(v@).no_duplicates(),
    {
        let mut v: Vec<K> = Vec::new();
        let mut i: usize = 0;
        let n = self.map.len();
        while i < n
            invariant
                n == self.elem_seq().len(),
                i <= n,
                key_views(v@) == self.elem_seq().subrange(0, i as int),
            decreases n - i,
        {
            let k = self.map.key_at(i).key_clone();
            let ghost prev = v@;
            let ghost kv = k@;
            v.push(k);
            proof {
                assert(key_views(v@) =~= key_views(prev).push(kv));
            }
            i = i + 1;
            proof {
                assert(key_views(v@) =~= self.elem_seq().subrange(0, i as int));
            }
        }
        proof {
            assert(key_views(v@) =~= self.elem_seq());
            self.map.lemma_view();
        }
        v
    }

    /// A copy of the set, element by element.
    pub fn duplicate(&self) -> (c: Self)
        requires
            self.wf(),
        ensures
            c.wf(),
            c@ == self@,
            c.elem_seq() == self.elem_seq(),
    {
        KeySet { map: self.map.duplicate() }
    }

    pub fn clear(&mut self)
        ensures
            final(self).wf(),
            final(self)@ == Set::<K::V>::empty(),
    {
        self.map.clear();
        proof {
            assert(self@ =~= Set::<K::V>::empty());
        }
    }
}


/// Views of the list under `k`, or the empty sequence when `k` is absent.
pub open spec fn list_at<K: View, T: View>(m: Map<K::V, Vec<T>>, k: K::V) -> Seq<T::V> {
    if m.contains_key(k) {
        key_views(m[k]@)
    } else {
        Seq::empty()
    }
}

/// Whether a list of byte strings holds `k`.
pub fn list_contains(v: &Vec<Vec<u8>>, k: &[u8]) -> (b: bool)
    ensures
        b == key_views(v@).contains(k@),
{
    let mut i: usize = 0;
    while i < v.len()
        invariant
            i <= v@.len(),
            forall|j: int| 0 <= j < i ==> v@[j]@ != k@,
        decreases v@.len() - i,
    {
        if bytes_eq(v[i].as_slice(), k) {
            proof {
                assert(key_views(v@)[i as int] == k@);
            }
            return true;
        }
        i = i + 1;
    }
    proof {
        if key_views(v@).contains(k@) {
            let j = key_views(v@).index_of(k@);
            assert(v@[j]@ == k@);
        }
    }
    false
}

/// Copies of a list of byte strings.
pub fn copy_list(v: &Vec<Vec<u8>>) -> (r: Vec<Vec<u8>>)
    ensures
        key_views(r@) == key_views(v@),
{
    let mut r: Vec<Vec<u8>> = Vec::new();
    let mut i: usize = 0;
    while i < v.len()
        invariant
            i <= v@.len(),
            key_views(r@) == key_views(v@).subrange(0, i as int),
        decreases v@.len() - i,
    {
        let ghost prev = r@;
        let item = copy_bytes(v[i].as_slice());
        r.push(item);
        proof {
            assert(key_views(r@) =~= key_views(prev).push(v@[i as int]@));
        }
        i = i + 1;
        proof {
            assert(key_views(r@) =~= key_views(v@).subrange(0, i as int));
        }
    }
    proof {
        assert(key_views(v@).subrange(0, v@.len() as int) =~= key_views(v@));
    }
    r
}

/// Copies of a list of keys.
pub fn copy_keys<K: KeyOps>(v: &Vec<K>) -> (r: Vec<K>)
    ensures
        key_views(r@) == key_views(v@),
{
    let mut r: Vec<K> = Vec::new();
    let mut i: usize = 0;
    while i < v.len()
        invariant
            i <= v@.len(),
            key_views(r@) == key_views(v@).subrange(0, i as int),
        decreases v@.len() - i,
    {
        let ghost prev = r@;
        let item = v[i].key_clone();
        r.push(item);
        proof {
            assert(key_views(r@) =~= key_views(prev).push(v@[i as int]@));
        }
        i = i + 1;
        proof {
            assert(key_views(r@) =~= key_views(v@).subrange(0, i as int));
        }
    }
    proof {
        assert(key_views(v@).subrange(0, v@.len() as int) =~= key_views(v@));
    }
    r
}

/// The list without the elements of `drop`, in order.
pub fn retain_keys_not_in<K: KeyOps>(list: &Vec<K>, drop: &KeySet<K>) -> (r: Vec<K>)
    requires
        drop.wf(),
    ensures
        key_views(r@) == key_views(list@).filter(|x: K::V| !drop@.contains(x)),
{
    let ghost pred = |x: K::V| !drop@.contains(x);
    let mut r: Vec<K> = Vec::new();
    let mut i: usize = 0;
    while i < list.len()
        invariant
            drop.wf(),
            i <= list@.len(),
            pred == (|x: K::V| !drop@.contains(x)),
            key_views(r@) == key_views(list@).take(i as int).filter(pred),
        decreases list@.len() - i,
    {
        let ghost prev = key_views(r@);
        let ghost lv = key_views(list@);
        proof {
            assert(lv.take(i + 1).drop_last() =~= lv.take(i as int));
            assert(lv.take(i + 1).last() == list@[i as int]@);
        }
        let keep = !drop.contains(&list[i]);
        proof {
            assert(keep == pred(lv[i as int]));
            assert(lv.take(i + 1) =~= lv.take(i as int).push(lv[i as int]));
            lv.take(i as int).lemma_filter_push(lv[i as int], pred);
        }
        if keep {
            r.push(list[i].key_clone());
            proof {
                assert(key_views(r@) =~= prev.push(list@[i as int]@));
            }
        }
        i = i + 1;
    }
    proof {
        assert(key_views(list@).take(list@.len() as int) =~= key_views(list@));
    }
    r
}

/// Adds every element of `from` to `set`.
pub fn insert_all<K: KeyOps>(set: &mut KeySet<K>, from: &KeySet<K>)
    requires
        old(set).wf(),
        from.wf(),
    ensures
        final(set).wf(),
        final(set)@ == old(set)@ + from@,
{
    proof {
        from.lemma_view();
    }
    let n = from.len();
    let mut i: usize = 0;
    while i < n
        invariant
            set.wf(),
            from.wf(),
            n == from.elem_seq().len(),
            from.elem_seq().to_set() == from@,
            i <= n,
            set@ == old(set)@ + from.elem_seq().take(i as int).to_set(),
        decreases n - i,
    {
        proof {
            assert(from.elem_seq().take(i + 1) =~= from.elem_seq().take(i as int).push(from.elem_seq()[i as int]));
            from.elem_seq().take(i as int).lemma_push_to_set_commute(from.elem_seq()[i as int]);
        }
        set.insert(from.elem_at(i).key_clone());
        i = i + 1;
        proof {
            assert(set@ =~= old(set)@ + from.elem_seq().take(i as int).to_set());
        }
    }
    proof {
        assert(from.elem_seq().take(n as int) =~= from.elem_seq());
    }
}

/// The set of the keys of a list.
pub fn key_set_of<K: KeyOps>(v: &Vec<K>) -> (s: KeySet<K>)
    ensures
        s.wf(),
        s@ == key_views(v@).to_set(),
{
    let mut s: KeySet<K> = KeySet::new();
    let mut i: usize = 0;
    while i < v.len()
        invariant
            s.wf(),
            i <= v@.len(),
            s@ == key_views(v@).take(i as int).to_set(),
        decreases v@.len() - i,
    {
        proof {
            assert(key_views(v@).take(i + 1) =~= key_views(v@).take(i as int).push(v@[i as int]@));
            key_views(v@).take(i as int).lemma_push_to_set_commute(v@[i as int]@);
        }
        s.insert(v[i].key_clone());
        i = i + 1;
    }
    proof {
        assert(key_views(v@).take(v@.len() as int) =~= key_views(v@));
    }
    s
}

/// Appends `item` to the list kept under `k`, creating the list if needed.
pub fn push_to_list<K: KeyOps, T: View>(m: &mut KeyMap<K, Vec<T>>, k: K, item: T)
    requires
        old(m).wf(),
    ensures
        final(m).wf(),
        final(m)@.dom() == old(m)@.dom().insert(k@),
        forall|x: K::V| x != k@ ==> #[trigger] final(m)@.contains_key(x) == old(m)@.contains_key(x)
            && (old(m)@.contains_key(x) ==> final(m)@[x] == old(m)@[x]),
        key_views(final(m)@[k@]@) == list_at::<K, T>(old(m)@, k@).push(item@),
{
    let ghost old_list = list_at::<K, T>(m@, k@);
    let ghost iv = item@;
    let ghost kv = k@;
    let existing = m.remove(&k);
    let mut list: Vec<T> = match existing {
        Some(l) => l,
        None => Vec::new(),
    };
    let ghost before = list@;
    list.push(item);
    proof {
        assert(key_views(list@) =~= key_views(before).push(iv));
        assert(key_views(before) == old_list);
    }
    m.insert(k, list);
    proof {
        assert(m@.dom() =~= old(m)@.dom().insert(kv));
    }
}

/// Distinct positions of a filter of a sequence without repeats hold
/// distinct elements.
pub proof fn lemma_filter_distinct<A>(s: Seq<A>, p: spec_fn(A) -> bool, a: int, b: int)
    requires
        s.no_duplicates(),
        0 <= a < s.filter(p).len(),
        0 <= b < s.filter(p).len(),
        a != b,
    ensures
        s.filter(p)[a] != s.filter(p)[b],
    decreases s.len(),
{
    reveal(Seq::filter);
    let f = s.filter(p);
    let sub = s.drop_last().filter(p);
    assert(s.drop_last().no_duplicates()) by {
        assert forall|x: int, y: int| 0 <= x < s.drop_last().len() && 0 <= y < s.drop_last().len() && x != y implies s.drop_last()[x] != s.drop_last()[y] by {
            assert(s.drop_last()[x] == s[x] && s.drop_last()[y] == s[y]);
        }
    }
    if p(s.last()) && (a == f.len() - 1 || b == f.len() - 1) {
        let other = if a == f.len() - 1 { b } else { a };
        assert(f[other] == sub[other]);
        lemma_filter_member(s.drop_last(), p, other);
        let k = choose|k: int| 0 <= k < s.drop_last().len() && s.drop_last()[k] == sub[other];
        assert(s[k] == s.drop_last()[k]);
        assert(s[s.len() - 1] == s.last());
    } else {
        lemma_filter_distinct(s.drop_last(), p, a, b);
    }
}

/// Each element of a filter comes from the sequence.
pub proof fn lemma_filter_member<A>(s: Seq<A>, p: spec_fn(A) -> bool, i: int)
    requires
        0 <= i < s.filter(p).len(),
    ensures
        exists|k: int| 0 <= k < s.len() && s[k] == s.filter(p)[i],
        s.contains(s.filter(p)[i]),
    decreases s.len(),
{
    reveal(Seq::filter);
    let sub = s.drop_last().filter(p);
    if p(s.last()) && i == s.filter(p).len() - 1 {
        assert(s[s.len() - 1] == s.filter(p)[i]);
    } else {
        assert(s.filter(p)[i] == sub[i]);
        lemma_filter_member(s.drop_last(), p, i);
        let k = choose|k: int| 0 <= k < s.drop_last().len() && s.drop_last()[k] == sub[i];
        assert(s[k] == s.drop_last()[k]);
    }
}

/// A filter of a sequence without repeats holds, once each, exactly the
/// elements of the sequence that the predicate picks.
pub proof fn lemma_filter_exact<A>(s: Seq<A>, p: spec_fn(A) -> bool)
    requires
        s.no_duplicates(),
    ensures
        s.filter(p).no_duplicates(),
        forall|x: A| #[trigger] s.filter(p).contains(x) <==> (s.contains(x) && p(x)),
{
    let f = s.filter(p);
    assert forall|a: int, b: int| 0 <= a < f.len() && 0 <= b < f.len() && a != b implies f[a] != f[b] by {
        lemma_filter_distinct(s, p, a, b);
    }
    assert forall|x: A| f.contains(x) <==> (s.contains(x) && p(x)) by {
        if f.contains(x) {
            let j = f.index_of(x);
            s.lemma_filter_pred(p, j);
            lemma_filter_member(s, p, j);
        }
        if s.contains(x) && p(x) {
            let j = s.index_of(x);
            s.lemma_filter_contains(p, j);
        }
    }
}

/// Taking one element out of a sequence without repeats leaves a sequence
/// without repeats that holds all the others.
pub proof fn lemma_remove_exact<A>(s: Seq<A>, i: int)
    requires
        s.no_duplicates(),
        0 <= i < s.len(),
    ensures
        s.remove(i).no_duplicates(),
        forall|x: A| #[trigger] s.remove(i).contains(x) <==> (s.contains(x) && x != s[i]),
{
    let r = s.remove(i);
    s.remove_ensures(i);
    assert forall|a: int, b: int| 0 <= a < r.len() && 0 <= b < r.len() && a != b implies r[a] != r[b] by {
        let sa = if a < i { a } else { a + 1 };
        let sb = if b < i { b } else { b + 1 };
        assert(r[a] == s[sa] && r[b] == s[sb]);
    }
    assert forall|x: A| r.contains(x) <==> (s.contains(x) && x != s[i]) by {
        if r.contains(x) {
            let a = r.index_of(x);
            let sa = if a < i { a } else { a + 1 };
            assert(r[a] == s[sa]);
        }
        if s.contains(x) && x != s[i] {
            let j = s.index_of(x);
            let a = if j < i { j } else { j - 1 };
            assert(r[a] == x);
        }
    }
}

} // verus!

//! Transactions indexed along three dimensions for range and top-n queries:
//! fee rate (highest first), arrival time (oldest first) and number of
//! dependents (most first), each kept as a list sorted by its key, the key
//! being the dimension's value and then the hash.

use vstd::prelude::*;
use crate::bytes::{bytes_eq, bytes_lt, copy_bytes, seq_lt, lemma_seq_lt_total, lemma_seq_lt_transitive};
use crate::keyed::{KeyMap, KeyOps};
use crate::storage_error::StorageError;

verus! {

/// A transaction with the values it is indexed by.
#[derive(Clone, Debug)]
pub struct IndexedTransaction {
    pub tx_hash: Vec<u8>,
    /// Fee per byte
    pub fee_rate: u64,
    /// Arrival, in UNIX seconds
    pub arrival_time: u64,
    /// Number of immediate dependents
    pub dependency_count: u32,
    pub size_bytes: usize,
    pub total_fee: u64,
}

/// An indexed transaction as a value.
pub struct IndexedTxView {
    pub tx_hash: Seq<u8>,
    pub fee_rate: u64,
    pub arrival_time: u64,
    pub dependency_count: u32,
    pub size_bytes: usize,
    pub total_fee: u64,
}

impl View for IndexedTransaction {
    type V = IndexedTxView;

    open spec fn view(&self) -> IndexedTxView {
        IndexedTxView {
            tx_hash: self.tx_hash@,
            fee_rate: self.fee_rate,
            arrival_time: self.arrival_time,
            dependency_count: self.dependency_count,
            size_bytes: self.size_bytes,
            total_fee: self.total_fee,
        }
    }
}

impl IndexedTransaction {
    pub fn new(tx_hash: Vec<u8>, fee_rate: u64, arrival_time: u64, dependency_count: u32, size_bytes: usize, total_fee: u64) -> (t: Self)
        ensures
            t@ == (IndexedTxView { tx_hash: tx_hash@, fee_rate, arrival_time, dependency_count, size_bytes, total_fee }),
    {
        Self { tx_hash, fee_rate, arrival_time, dependency_count, size_bytes, total_fee }
    }

    /// A copy of the transaction.
    pub fn duplicate(&self) -> (c: Self)
        ensures
            c@ == self@,
    {
        Self {
            tx_hash: copy_bytes(self.tx_hash.as_slice()),
            fee_rate: self.fee_rate,
            arrival_time: self.arrival_time,
            dependency_count: self.dependency_count,
            size_bytes: self.size_bytes,
            total_fee: self.total_fee,
        }
    }
}

/// Counters of the index.
#[derive(Clone, Copy, Debug)]
pub struct MultiDimensionalIndexStats {
    pub total_transactions: u64,
    pub insertions: u64,
    pub removals: u64,
    pub updates: u64,
    pub economic_queries: u64,
    pub temporal_queries: u64,
    pub structural_queries: u64,
}

impl MultiDimensionalIndexStats {
    pub open spec fn spec_zero() -> Self {
        MultiDimensionalIndexStats {
            total_transactions: 0,
            insertions: 0,
            removals: 0,
            updates: 0,
            economic_queries: 0,
            temporal_queries: 0,
            structural_queries: 0,
        }
    }
}

impl Default for MultiDimensionalIndexStats {
    fn default() -> (s: Self)
        ensures
            s == Self::spec_zero(),
    {
        MultiDimensionalIndexStats {
            total_transactions: 0,
            insertions: 0,
            removals: 0,
            updates: 0,
            economic_queries: 0,
            temporal_queries: 0,
            structural_queries: 0,
        }
    }
}

/// One of the three orders.
#[derive(Clone, Copy, Debug, PartialEq, Eq, Structural)]
pub enum Dimension {
    /// Fee rate, highest first
    Economic,
    /// Arrival time, oldest first
    Temporal,
    /// Number of dependents, most first
    Dependents,
}

/// The value ordered by in dimension `d`, smallest first.
pub open spec fn dim_value(d: Dimension, e: IndexedTxView) -> int {
    match d {
        Dimension::Economic => -(e.fee_rate as int),
        Dimension::Temporal => e.arrival_time as int,
        Dimension::Dependents => -(e.dependency_count as int),
    }
}

/// `a` comes before `b` in dimension `d`: by value, then by hash.
pub open spec fn before(d: Dimension, a: IndexedTxView, b: IndexedTxView) -> bool {
    dim_value(d, a) < dim_value(d, b) || (dim_value(d, a) == dim_value(d, b) && seq_lt(a.tx_hash, b.tx_hash))
}

/// `a` and `b` have the same key in dimension `d`.
pub open spec fn same_key(d: Dimension, a: IndexedTxView, b: IndexedTxView) -> bool {
    dim_value(d, a) == dim_value(d, b) && a.tx_hash == b.tx_hash
}

/// `s` is strictly sorted by the keys of dimension `d`.
pub open spec fn sorted_in(d: Dimension, s: Seq<IndexedTxView>) -> bool {
    forall|i: int, j: int| 0 <= i < j < s.len() ==> before(d, #[trigger] s[i], #[trigger] s[j])
}

/// How many leading entries of `s` come before `e`.
pub open spec fn put_pos(d: Dimension, s: Seq<IndexedTxView>, e: IndexedTxView) -> nat
    decreases s.len(),
{
    if s.len() == 0 {
        0
    } else if before(d, s[0], e) {
        1 + put_pos(d, s.drop_first(), e)
    } else {
        0
    }
}

/// `s` with `e` put in its place: in place of the entry with its key, if
/// there is one, else inserted before the first entry after it.
pub open spec fn sorted_put(d: Dimension, s: Seq<IndexedTxView>, e: IndexedTxView) -> Seq<IndexedTxView> {
    let p = put_pos(d, s, e) as int;
    if p < s.len() && same_key(d, s[p], e) {
        s.update(p, e)
    } else {
        s.insert(p, e)
    }
}

/// `s` without the entry with `e`'s key, if there is one.
pub open spec fn sorted_del(d: Dimension, s: Seq<IndexedTxView>, e: IndexedTxView) -> Seq<IndexedTxView> {
    let p = put_pos(d, s, e) as int;
    if p < s.len() && same_key(d, s[p], e) {
        s.remove(p)
    } else {
        s
    }
}

/// Views of indexed transactions.
pub open spec fn tx_views(v: Seq<IndexedTransaction>) -> Seq<IndexedTxView> {
    v.map_values(|t: IndexedTransaction| t@)
}

proof fn lemma_before_order(d: Dimension, a: IndexedTxView, b: IndexedTxView, c: IndexedTxView)
    ensures
        !before(d, a, a),
        before(d, a, b) ==> !before(d, b, a) && !same_key(d, a, b),
        !before(d, a, b) && !same_key(d, a, b) ==> before(d, b, a),
        before(d, a, b) && before(d, b, c) ==> before(d, a, c),
        same_key(d, a, b) ==> (before(d, c, a) == before(d, c, b)) && (before(d, a, c) == before(d, b, c)),
{
    lemma_seq_lt_total(a.tx_hash, b.tx_hash);
    lemma_seq_lt_total(b.tx_hash, c.tx_hash);
    lemma_seq_lt_total(a.tx_hash, c.tx_hash);
    if seq_lt(a.tx_hash, b.tx_hash) && seq_lt(b.tx_hash, c.tx_hash) {
        lemma_seq_lt_transitive(a.tx_hash, b.tx_hash, c.tx_hash);
    }
}

proof fn lemma_put_pos(d: Dimension, s: Seq<IndexedTxView>, e: IndexedTxView)
    ensures
        put_pos(d, s, e) <= s.len(),
        forall|i: int| 0 <= i < put_pos(d, s, e) ==> before(d, #[trigger] s[i], e),
        put_pos(d, s, e) < s.len() ==> !before(d, s[put_pos(d, s, e) as int], e),
    decreases s.len(),
{
    if s.len() > 0 && before(d, s[0], e) {
        lemma_put_pos(d, s.drop_first(), e);
        assert forall|i: int| 0 <= i < put_pos(d, s, e) implies before(d, #[trigger] s[i], e) by {
            if i > 0 {
                assert(s[i] == s.drop_first()[i - 1]);
            }
        }
        if put_pos(d, s, e) < s.len() {
            assert(s[put_pos(d, s, e) as int] == s.drop_first()[put_pos(d, s.drop_first(), e) as int]);
        }
    }
}

proof fn lemma_sorted_put(d: Dimension, s: Seq<IndexedTxView>, e: IndexedTxView)
    requires
        sorted_in(d, s),
    ensures
        sorted_in(d, sorted_put(d, s, e)),
{
    lemma_put_pos(d, s, e);
    let p = put_pos(d, s, e) as int;
    let r = sorted_put(d, s, e);
    if p < s.len() && same_key(d, s[p], e) {
        assert forall|i: int, j: int| 0 <= i < j < r.len() implies before(d, #[trigger] r[i], #[trigger] r[j]) by {
            lemma_before_order(d, s[p], e, s[i]);
            lemma_before_order(d, s[p], e, s[j]);
            assert(before(d, s[i], s[j]));
        }
    } else {
        assert forall|i: int, j: int| 0 <= i < j < r.len() implies before(d, #[trigger] r[i], #[trigger] r[j]) by {
            if j < p {
                assert(r[i] == s[i] && r[j] == s[j]);
            } else if j == p {
                assert(r[i] == s[i]);
            } else if i == p {
                assert(r[j] == s[j - 1]);
                lemma_before_order(d, s[p], e, s[j - 1]);
                if j - 1 > p {
                    assert(before(d, s[p], s[j - 1]));
                    lemma_before_order(d, e, s[p], s[j - 1]);
                }
            } else if i < p {
                assert(r[i] == s[i] && r[j] == s[j - 1]);
                assert(before(d, s[i], s[j - 1]));
            } else {
                assert(r[i] == s[i - 1] && r[j] == s[j - 1]);
                assert(before(d, s[i - 1], s[j - 1]));
            }
        }
    }
}

proof fn lemma_sorted_del(d: Dimension, s: Seq<IndexedTxView>, e: IndexedTxView)
    requires
        sorted_in(d, s),
    ensures
        sorted_in(d, sorted_del(d, s, e)),
{
    let p = put_pos(d, s, e) as int;
    let r = sorted_del(d, s, e);
    lemma_put_pos(d, s, e);
    if p < s.len() && same_key(d, s[p], e) {
        assert forall|i: int, j: int| 0 <= i < j < r.len() implies before(d, #[trigger] r[i], #[trigger] r[j]) by {
            let si = if i < p { i } else { i + 1 };
            let sj = if j < p { j } else { j + 1 };
            assert(r[i] == s[si] && r[j] == s[sj]);
            assert(before(d, s[si], s[sj]));
        }
    }
}

/// Whether `a` comes before `b` in dimension `d`.
fn goes_before(d: Dimension, a: &IndexedTransaction, b: &IndexedTransaction) -> (r: bool)
    ensures
        r == before(d, a@, b@),
{
    let (va, vb): (u64, u64) = match d {
        Dimension::Economic => (b.fee_rate, a.fee_rate),
        Dimension::Temporal => (a.arrival_time, b.arrival_time),
        Dimension::Dependents => (b.dependency_count as u64, a.dependency_count as u64),
    };
    va < vb || (va == vb && bytes_lt(a.tx_hash.as_slice(), b.tx_hash.as_slice()))
}

/// Whether `a` and `b` have the same key in dimension `d`.
fn has_same_key(d: Dimension, a: &IndexedTransaction, b: &IndexedTransaction) -> (r: bool)
    ensures
        r == same_key(d, a@, b@),
{
    let same_value = match d {
        Dimension::Economic => a.fee_rate == b.fee_rate,
        Dimension::Temporal => a.arrival_time == b.arrival_time,
        Dimension::Dependents => a.dependency_count == b.dependency_count,
    };
    same_value && bytes_eq(a.tx_hash.as_slice(), b.tx_hash.as_slice())
}

/// How many leading entries of `v` come before `e`.
fn find_pos(d: Dimension, v: &Vec<IndexedTransaction>, e: &IndexedTransaction) -> (p: usize)
    ensures
        p == put_pos(d, tx_views(v@), e@),
{
    let ghost s = tx_views(v@);
    let mut i: usize = 0;
    proof {
        assert(s.skip(0) =~= s);
    }
    while i < v.len() && goes_before(d, &v[i], e)
        invariant
            s == tx_views(v@),
            i <= v@.len(),
            put_pos(d, s, e@) == i + put_pos(d, s.skip(i as int), e@),
        decreases v@.len() - i,
    {
        proof {
            assert(s.skip(i as int)[0] == s[i as int]);
            assert(s.skip(i as int).drop_first() =~= s.skip(i + 1));
        }
        i = i + 1;
    }
    proof {
        if i < v.len() {
            assert(s.skip(i as int)[0] == s[i as int]);
        } else {
            assert(s.skip(i as int).len() == 0);
        }
    }
    i
}

/// Puts `e` in its place in the sorted list `v`.
fn put_sorted(d: Dimension, v: &mut Vec<IndexedTransaction>, e: IndexedTransaction)
    requires
        sorted_in(d, tx_views(old(v)@)),
    ensures
        tx_views(final(v)@) == sorted_put(d, tx_views(old(v)@), e@),
        sorted_in(d, tx_views(final(v)@)),
{
    let ghost s = tx_views(v@);
    let ghost ev = e@;
    let p = find_pos(d, v, &e);
    proof {
        lemma_put_pos(d, s, ev);
        lemma_sorted_put(d, s, ev);
    }
    if p < v.len() && has_same_key(d, &v[p], &e) {
        v.set(p, e);
        proof {
            assert(tx_views(v@) =~= s.update(p as int, ev));
        }
    } else {
        v.insert(p, e);
        proof {
            assert(tx_views(v@) =~= s.insert(p as int, ev));
        }
    }
}

/// Takes the entry with `e`'s key out of the sorted list `v`, if there.
fn del_sorted(d: Dimension, v: &mut Vec<IndexedTransaction>, e: &IndexedTransaction)
    requires
        sorted_in(d, tx_views(old(v)@)),
    ensures
        tx_views(final(v)@) == sorted_del(d, tx_views(old(v)@), e@),
        sorted_in(d, tx_views(final(v)@)),
{
    let ghost s = tx_views(v@);
    let p = find_pos(d, v, e);
    proof {
        lemma_put_pos(d, s, e@);
        lemma_sorted_del(d, s, e@);
    }
    if p < v.len() && has_same_key(d, &v[p], e) {
        v.remove(p);
        proof {
            assert(tx_views(v@) =~= s.remove(p as int));
        }
    }
}

/// A condition a query selects by.
#[derive(Clone, Copy, Debug)]
pub enum IndexQuery {
    /// Fee rate within the bounds, both included
    FeeRange(u64, u64),
    /// Arrival at or before the time
    ArrivedBy(u64),
    /// Arrival after the time
    ArrivedAfter(u64),
    /// Arrival within the bounds, both included
    ArrivalRange(u64, u64),
    /// At least that many dependents
    MinDependents(u32),
}

/// Whether `q` selects `e`.
pub open spec fn selects(q: IndexQuery, e: IndexedTxView) -> bool {
    match q {
        IndexQuery::FeeRange(lo, hi) => lo <= e.fee_rate <= hi,
        IndexQuery::ArrivedBy(t) => e.arrival_time <= t,
        IndexQuery::ArrivedAfter(t) => e.arrival_time > t,
        IndexQuery::ArrivalRange(lo, hi) => lo <= e.arrival_time <= hi,
        IndexQuery::MinDependents(m) => e.dependency_count >= m,
    }
}

/// The selection of `q` as a predicate.
pub open spec fn selector(q: IndexQuery) -> spec_fn(IndexedTxView) -> bool {
    |e: IndexedTxView| selects(q, e)
}

/// Whether the combined query selects `e`.
pub open spec fn combined_selects(
    e: IndexedTxView, min_fee: u64, max_fee: u64, start: u64, end: u64, min_deps: u32,
) -> bool {
    &&& min_fee <= e.fee_rate <= max_fee
    &&& start <= e.arrival_time <= end
    &&& e.dependency_count >= min_deps
}

/// The combined query as a predicate over the entries of the fee order
/// that are the current record of their hash.
pub open spec fn combined_selector(
    current: Map<Seq<u8>, IndexedTxView>, min_fee: u64, max_fee: u64, start: u64, end: u64, min_deps: u32,
) -> spec_fn(IndexedTxView) -> bool {
    |e: IndexedTxView| combined_selects(e, min_fee, max_fee, start, end, min_deps)
        && current.contains_key(e.tx_hash) && current[e.tx_hash] == e
}

fn query_selects(q: IndexQuery, e: &IndexedTransaction) -> (b: bool)
    ensures
        b == selects(q, e@),
{
    match q {
        IndexQuery::FeeRange(lo, hi) => lo <= e.fee_rate && e.fee_rate <= hi,
        IndexQuery::ArrivedBy(t) => e.arrival_time <= t,
        IndexQuery::ArrivedAfter(t) => e.arrival_time > t,
        IndexQuery::ArrivalRange(lo, hi) => lo <= e.arrival_time && e.arrival_time <= hi,
        IndexQuery::MinDependents(m) => e.dependency_count >= m,
    }
}

/// The entries of `v` that `q` selects, in order.
fn select_from(v: &Vec<IndexedTransaction>, q: IndexQuery) -> (r: Vec<IndexedTransaction>)
    ensures
        tx_views(r@) == tx_views(v@).filter(selector(q)),
{
    let ghost s = tx_views(v@);
    let ghost f = selector(q);
    let mut r: Vec<IndexedTransaction> = Vec::new();
    let mut i: usize = 0;
    proof {
        assert(s.take(0).filter(f) =~= Seq::<IndexedTxView>::empty()) by {
            assert(s.take(0) =~= Seq::<IndexedTxView>::empty());
            reveal(Seq::filter);
        }
        assert(tx_views(r@) =~= Seq::<IndexedTxView>::empty());
    }
    while i < v.len()
        invariant
            s == tx_views(v@),
            f == selector(q),
            i <= v@.len(),
            tx_views(r@) == s.take(i as int).filter(f),
        decreases v@.len() - i,
    {
        let ghost r0 = tx_views(r@);
        proof {
            assert(s.take(i + 1) =~= s.take(i as int).push(s[i as int]));
            s.take(i as int).lemma_filter_push(s[i as int], f);
        }
        if query_selects(q, &v[i]) {
            r.push(v[i].duplicate());
            proof {
                assert(tx_views(r@) =~= r0.push(s[i as int]));
            }
        }
        i = i + 1;
    }
    proof {
        assert(s.take(v@.len() as int) =~= s);
    }
    r
}

/// The first `limit` entries of `v`.
fn first_of(v: &Vec<IndexedTransaction>, limit: usize) -> (r: Vec<IndexedTransaction>)
    ensures
        tx_views(r@) == tx_views(v@).take(if limit < v@.len() { limit as int } else { v@.len() as int }),
{
    let n = if limit < v.len() { limit } else { v.len() };
    let mut r: Vec<IndexedTransaction> = Vec::new();
    let mut i: usize = 0;
    while i < n
        invariant
            n <= v@.len(),
            i <= n,
            tx_views(r@) == tx_views(v@).take(i as int),
        decreases n - i,
    {
        let ghost r0 = tx_views(r@);
        r.push(v[i].duplicate());
        proof {
            assert(tx_views(v@).take(i + 1) =~= tx_views(v@).take(i as int).push(tx_views(v@)[i as int]));
            assert(tx_views(r@) =~= r0.push(v@[i as int]@));
            assert(tx_views(r@) =~= tx_views(v@).take(i + 1));
        }
        i = i + 1;
    }
    r
}

/// Transactions indexed by hash and along three sorted dimensions.
pub struct MultiDimensionalIndex {
    by_hash: KeyMap<Vec<u8>, IndexedTransaction>,
    economic_index: Vec<IndexedTransaction>,
    temporal_index: Vec<IndexedTransaction>,
    structural_index: Vec<IndexedTransaction>,
    stats: MultiDimensionalIndexStats,
}

impl MultiDimensionalIndex {
    /// The records by hash.
    pub closed spec fn hash_view(&self) -> Map<Seq<u8>, IndexedTxView> {
        Map::new(|k: Seq<u8>| self.by_hash@.contains_key(k), |k: Seq<u8>| self.by_hash@[k]@)
    }

    /// The entries of dimension `d`, in its order.
    pub closed spec fn dim_view(&self, d: Dimension) -> Seq<IndexedTxView> {
        match d {
            Dimension::Economic => tx_views(self.economic_index@),
            Dimension::Temporal => tx_views(self.temporal_index@),
            Dimension::Dependents => tx_views(self.structural_index@),
        }
    }

    pub closed spec fn stats_view(&self) -> MultiDimensionalIndexStats {
        self.stats
    }

    pub closed spec fn wf(&self) -> bool {
        &&& self.by_hash.wf()
        &&& forall|k: Seq<u8>| #[trigger] self.by_hash@.contains_key(k) ==> self.by_hash@[k]@.tx_hash == k
        &&& sorted_in(Dimension::Economic, tx_views(self.economic_index@))
        &&& sorted_in(Dimension::Temporal, tx_views(self.temporal_index@))
        &&& sorted_in(Dimension::Dependents, tx_views(self.structural_index@))
    }

    pub fn new() -> (x: Self)
        ensures
            x.wf(),
            x.hash_view() == Map::<Seq<u8>, IndexedTxView>::empty(),
            forall|d: Dimension| #[trigger] x.dim_view(d) == Seq::<IndexedTxView>::empty(),
            x.stats_view() == MultiDimensionalIndexStats::spec_zero(),
    {
        let x = Self {
            by_hash: KeyMap::new(),
            economic_index: Vec::new(),
            temporal_index: Vec::new(),
            structural_index: Vec::new(),
            stats: MultiDimensionalIndexStats::default(),
        };
        proof {
            assert(x.hash_view() =~= Map::<Seq<u8>, IndexedTxView>::empty());
            assert(tx_views(x.economic_index@) =~= Seq::<IndexedTxView>::empty());
            assert(tx_views(x.temporal_index@) =~= Seq::<IndexedTxView>::empty());
            assert(tx_views(x.structural_index@) =~= Seq::<IndexedTxView>::empty());
        }
        x
    }

    /// Dimension `d` without the entry of the record held under `h`, if any.
    pub open spec fn dim_without(&self, d: Dimension, h: Seq<u8>) -> Seq<IndexedTxView> {
        if self.hash_view().contains_key(h) {
            sorted_del(d, self.dim_view(d), self.hash_view()[h])
        } else {
            self.dim_view(d)
        }
    }

    /// Records `tx` under its hash, replacing the record held there: the old
    /// record's entries leave every dimension and `tx` is put in each under
    /// its keys there. Counts an insertion, and one more transaction when the
    /// hash was not held.
    pub fn insert(&mut self, tx: IndexedTransaction) -> (r: Result<(), StorageError>)
        requires
            old(self).wf(),
        ensures
            final(self).wf(),
            r is Ok,
            final(self).hash_view() == old(self).hash_view().insert(tx@.tx_hash, tx@),
            forall|d: Dimension| #[trigger] final(self).dim_view(d) == sorted_put(d, old(self).dim_without(d, tx@.tx_hash), tx@),
            final(self).stats_view() == (MultiDimensionalIndexStats {
                insertions: old(self).stats_view().insertions.wrapping_add(1),
                total_transactions: if old(self).hash_view().contains_key(tx@.tx_hash) {
                    old(self).stats_view().total_transactions
                } else {
                    old(self).stats_view().total_transactions.wrapping_add(1)
                },
                ..old(self).stats_view()
            }),
    {
        let ghost tv = tx@;
        let held = match self.by_hash.get(&tx.tx_hash) {
            Some(o) => Some(o.duplicate()),
            None => None,
        };
        let was_held = held.is_some();
        match held {
            Some(o) => {
                proof {
                    assert(self.hash_view()[tv.tx_hash] == o@);
                }
                del_sorted(Dimension::Economic, &mut self.economic_index, &o);
                del_sorted(Dimension::Temporal, &mut self.temporal_index, &o);
                del_sorted(Dimension::Dependents, &mut self.structural_index, &o);
            },
            None => {},
        }
        let ghost mid = *self;
        proof {
            assert forall|d: Dimension| #[trigger] mid.dim_view(d) == old(self).dim_without(d, tv.tx_hash) by {
                match d {
                    Dimension::Economic => {},
                    Dimension::Temporal => {},
                    Dimension::Dependents => {},
                }
            }
        }
        self.by_hash.insert(copy_bytes(tx.tx_hash.as_slice()), tx.duplicate());
        put_sorted(Dimension::Economic, &mut self.economic_index, tx.duplicate());
        put_sorted(Dimension::Temporal, &mut self.temporal_index, tx.duplicate());
        put_sorted(Dimension::Dependents, &mut self.structural_index, tx);
        self.stats.insertions = self.stats.insertions.wrapping_add(1);
        if !was_held {
            self.stats.total_transactions = self.stats.total_transactions.wrapping_add(1);
        }
        proof {
            assert(self.hash_view() =~= old(self).hash_view().insert(tv.tx_hash, tv));
            assert forall|d: Dimension| #[trigger] self.dim_view(d) == sorted_put(d, old(self).dim_without(d, tv.tx_hash), tv) by {
                assert(mid.dim_view(d) == old(self).dim_without(d, tv.tx_hash));
                match d {
                    Dimension::Economic => {},
                    Dimension::Temporal => {},
                    Dimension::Dependents => {},
                }
            }
        }
        Ok(())
    }

    /// Forgets the record under `tx_hash` and takes its entries out of the
    /// dimensions; returns the record, or `None` when there is none.
    pub fn remove(&mut self, tx_hash: &Vec<u8>) -> (r: Result<Option<IndexedTransaction>, StorageError>)
        requires
            old(self).wf(),
        ensures
            final(self).wf(),
            r is Ok,
            match r->Ok_0 {
                Some(t) => {
                    &&& old(self).hash_view().contains_key(tx_hash@)
                    &&& t@ == old(self).hash_view()[tx_hash@]
                    &&& final(self).hash_view() == old(self).hash_view().remove(tx_hash@)
                    &&& forall|d: Dimension| #[trigger] final(self).dim_view(d) == sorted_del(d, old(self).dim_view(d), t@)
                    &&& final(self).stats_view() == (MultiDimensionalIndexStats {
                        removals: old(self).stats_view().removals.wrapping_add(1),
                        total_transactions: if old(self).stats_view().total_transactions > 0 {
                            (old(self).stats_view().total_transactions - 1) as u64
                        } else {
                            0
                        },
                        ..old(self).stats_view()
                    })
                },
                None => {
                    &&& !old(self).hash_view().contains_key(tx_hash@)
                    &&& final(self).hash_view() == old(self).hash_view()
                    &&& forall|d: Dimension| #[trigger] final(self).dim_view(d) == old(self).dim_view(d)
                    &&& final(self).stats_view() == old(self).stats_view()
                },
            },
    {
        proof {
            self.by_hash.lemma_view();
        }
        let removed = self.by_hash.remove(tx_hash);
        match removed {
            Some(t) => {
                let ghost tv = t@;
                del_sorted(Dimension::Economic, &mut self.economic_index, &t);
                del_sorted(Dimension::Temporal, &mut self.temporal_index, &t);
                del_sorted(Dimension::Dependents, &mut self.structural_index, &t);
                self.stats.removals = self.stats.removals.wrapping_add(1);
                self.stats.total_transactions = self.stats.total_transactions.saturating_sub(1);
                proof {
                    assert(self.hash_view() =~= old(self).hash_view().remove(tx_hash@));
                    assert forall|d: Dimension| #[trigger] self.dim_view(d) == sorted_del(d, old(self).dim_view(d), tv) by {
                        match d {
                            Dimension::Economic => {},
                            Dimension::Temporal => {},
                            Dimension::Dependents => {},
                        }
                    }
                }
                Ok(Some(t))
            },
            None => {
                proof {
                    assert(self.hash_view() =~= old(self).hash_view());
                }
                Ok(None)
            },
        }
    }

    /// Replaces the record of `tx`'s hash: removes it, then inserts `tx`.
    pub fn update(&mut self, tx: IndexedTransaction) -> (r: Result<(), StorageError>)
        requires
            old(self).wf(),
        ensures
            final(self).wf(),
            r is Ok,
            final(self).hash_view() == old(self).hash_view().insert(tx@.tx_hash, tx@),
            forall|d: Dimension| #[trigger] final(self).dim_view(d) == sorted_put(d, if old(self).hash_view().contains_key(tx@.tx_hash) {
                sorted_del(d, old(self).dim_view(d), old(self).hash_view()[tx@.tx_hash])
            } else {
                old(self).dim_view(d)
            }, tx@),
            final(self).stats_view().updates == old(self).stats_view().updates.wrapping_add(1),
    {
        let ghost tv = tx@;
        let h = copy_bytes(tx.tx_hash.as_slice());
        let rm = self.remove(&h);
        let ghost mid = *self;
        proof {
            assert forall|d: Dimension| #[trigger] mid.dim_view(d) == (if old(self).hash_view().contains_key(tv.tx_hash) {
                sorted_del(d, old(self).dim_view(d), old(self).hash_view()[tv.tx_hash])
            } else {
                old(self).dim_view(d)
            }) by {
                match rm {
                    Ok(Some(t)) => {
                        assert(mid.dim_view(d) == sorted_del(d, old(self).dim_view(d), t@));
                    },
                    _ => {},
                }
            }
        }
        let _ = self.insert(tx);
        let ghost after = *self;
        self.stats.updates = self.stats.updates.wrapping_add(1);
        proof {
            assert(self.hash_view() =~= old(self).hash_view().insert(tv.tx_hash, tv));
            assert forall|d: Dimension| #[trigger] self.dim_view(d) == sorted_put(d, if old(self).hash_view().contains_key(tv.tx_hash) {
                sorted_del(d, old(self).dim_view(d), old(self).hash_view()[tv.tx_hash])
            } else {
                old(self).dim_view(d)
            }, tv) by {
                assert(!mid.hash_view().contains_key(tv.tx_hash));
                assert(after.dim_view(d) == sorted_put(d, mid.dim_without(d, tv.tx_hash), tv));
                match d {
                    Dimension::Economic => {},
                    Dimension::Temporal => {},
                    Dimension::Dependents => {},
                }
            }
        }
        Ok(())
    }

    /// The record under `tx_hash`, if any.
    pub fn get_by_hash(&self, tx_hash: &Vec<u8>) -> (r: Result<Option<IndexedTransaction>, StorageError>)
        requires
            self.wf(),
        ensures
            r is Ok,
            match r->Ok_0 {
                Some(t) => self.hash_view().contains_key(tx_hash@) && t@ == self.hash_view()[tx_hash@],
                None => !self.hash_view().contains_key(tx_hash@),
            },
    {
        match self.by_hash.get(tx_hash) {
            Some(t) => Ok(Some(t.duplicate())),
            None => Ok(None),
        }
    }

    /// The entries with fee rate in `[min_fee, max_fee]`, highest rate first.
    pub fn query_economic_range(&mut self, min_fee: u64, max_fee: u64) -> (r: Result<Vec<IndexedTransaction>, StorageError>)
        requires
            old(self).wf(),
        ensures
            final(self).wf(),
            r is Ok,
            tx_views(r->Ok_0@) == old(self).dim_view(Dimension::Economic).filter(selector(IndexQuery::FeeRange(min_fee, max_fee))),
            final(self).hash_view() == old(self).hash_view(),
            forall|d: Dimension| #[trigger] final(self).dim_view(d) == old(self).dim_view(d),
            final(self).stats_view() == (MultiDimensionalIndexStats {
                economic_queries: old(self).stats_view().economic_queries.wrapping_add(1),
                ..old(self).stats_view()
            }),
    {
        let r = select_from(&self.economic_index, IndexQuery::FeeRange(min_fee, max_fee));
        self.stats.economic_queries = self.stats.economic_queries.wrapping_add(1);
        proof {
            assert(self.hash_view() =~= old(self).hash_view());
        }
        Ok(r)
    }

    /// The `limit` entries with the highest fee rates, highest first.
    pub fn query_economic_top_n(&mut self, limit: usize) -> (r: Result<Vec<IndexedTransaction>, StorageError>)
        requires
            old(self).wf(),
        ensures
            final(self).wf(),
            r is Ok,
            tx_views(r->Ok_0@) == old(self).dim_view(Dimension::Economic).take(
                if limit < old(self).dim_view(Dimension::Economic).len() { limit as int } else { old(self).dim_view(Dimension::Economic).len() as int }),
            final(self).hash_view() == old(self).hash_view(),
            forall|d: Dimension| #[trigger] final(self).dim_view(d) == old(self).dim_view(d),
            final(self).stats_view() == (MultiDimensionalIndexStats {
                economic_queries: old(self).stats_view().economic_queries.wrapping_add(1),
                ..old(self).stats_view()
            }),
    {
        let r = first_of(&self.economic_index, limit);
        self.stats.economic_queries = self.stats.economic_queries.wrapping_add(1);
        proof {
            assert(self.hash_view() =~= old(self).hash_view());
        }
        Ok(r)
    }

    /// The entries that arrived at or before `timestamp`, oldest first.
    pub fn query_temporal_before(&mut self, timestamp: u64) -> (r: Result<Vec<IndexedTransaction>, StorageError>)
        requires
            old(self).wf(),
        ensures
            final(self).wf(),
            r is Ok,
            tx_views(r->Ok_0@) == old(self).dim_view(Dimension::Temporal).filter(selector(IndexQuery::ArrivedBy(timestamp))),
            final(self).hash_view() == old(self).hash_view(),
            forall|d: Dimension| #[trigger] final(self).dim_view(d) == old(self).dim_view(d),
            final(self).stats_view() == (MultiDimensionalIndexStats {
                temporal_queries: old(self).stats_view().temporal_queries.wrapping_add(1),
                ..old(self).stats_view()
            }),
    {
        let r = select_from(&self.temporal_index, IndexQuery::ArrivedBy(timestamp));
        self.stats.temporal_queries = self.stats.temporal_queries.wrapping_add(1);
        proof {
            assert(self.hash_view() =~= old(self).hash_view());
        }
        Ok(r)
    }

    /// The entries that arrived after `timestamp`, oldest first.
    pub fn query_temporal_after(&mut self, timestamp: u64) -> (r: Result<Vec<IndexedTransaction>, StorageError>)
        requires
            old(self).wf(),
        ensures
            final(self).wf(),
            r is Ok,
            tx_views(r->Ok_0@) == old(self).dim_view(Dimension::Temporal).filter(selector(IndexQuery::ArrivedAfter(timestamp))),
            final(self).hash_view() == old(self).hash_view(),
            forall|d: Dimension| #[trigger] final(self).dim_view(d) == old(self).dim_view(d),
            final(self).stats_view() == (MultiDimensionalIndexStats {
                temporal_queries: old(self).stats_view().temporal_queries.wrapping_add(1),
                ..old(self).stats_view()
            }),
    {
        let r = select_from(&self.temporal_index, IndexQuery::ArrivedAfter(timestamp));
        self.stats.temporal_queries = self.stats.temporal_queries.wrapping_add(1);
        proof {
            assert(self.hash_view() =~= old(self).hash_view());
        }
        Ok(r)
    }

    /// The entries that arrived within `[start_time, end_time]`, oldest first.
    pub fn query_temporal_range(&mut self, start_time: u64, end_time: u64) -> (r: Result<Vec<IndexedTransaction>, StorageError>)
        requires
            old(self).wf(),
        ensures
            final(self).wf(),
            r is Ok,
            tx_views(r->Ok_0@) == old(self).dim_view(Dimension::Temporal).filter(selector(IndexQuery::ArrivalRange(start_time, end_time))),
            final(self).hash_view() == old(self).hash_view(),
            forall|d: Dimension| #[trigger] final(self).dim_view(d) == old(self).dim_view(d),
            final(self).stats_view() == (MultiDimensionalIndexStats {
                temporal_queries: old(self).stats_view().temporal_queries.wrapping_add(1),
                ..old(self).stats_view()
            }),
    {
        let r = select_from(&self.temporal_index, IndexQuery::ArrivalRange(start_time, end_time));
        self.stats.temporal_queries = self.stats.temporal_queries.wrapping_add(1);
        proof {
            assert(self.hash_view() =~= old(self).hash_view());
        }
        Ok(r)
    }

    /// The entries with at least `min_dependencies` dependents, most first.
    pub fn query_structural_min_dependents(&mut self, min_dependencies: u32) -> (r: Result<Vec<IndexedTransaction>, StorageError>)
        requires
            old(self).wf(),
        ensures
            final(self).wf(),
            r is Ok,
            tx_views(r->Ok_0@) == old(self).dim_view(Dimension::Dependents).filter(selector(IndexQuery::MinDependents(min_dependencies))),
            final(self).hash_view() == old(self).hash_view(),
            forall|d: Dimension| #[trigger] final(self).dim_view(d) == old(self).dim_view(d),
            final(self).stats_view() == (MultiDimensionalIndexStats {
                structural_queries: old(self).stats_view().structural_queries.wrapping_add(1),
                ..old(self).stats_view()
            }),
    {
        let r = select_from(&self.structural_index, IndexQuery::MinDependents(min_dependencies));
        self.stats.structural_queries = self.stats.structural_queries.wrapping_add(1);
        proof {
            assert(self.hash_view() =~= old(self).hash_view());
        }
        Ok(r)
    }

    /// The `limit` entries with the most dependents, most first.
    pub fn query_structural_top_hubs(&mut self, limit: usize) -> (r: Result<Vec<IndexedTransaction>, StorageError>)
        requires
            old(self).wf(),
        ensures
            final(self).wf(),
            r is Ok,
            tx_views(r->Ok_0@) == old(self).dim_view(Dimension::Dependents).take(
                if limit < old(self).dim_view(Dimension::Dependents).len() { limit as int } else { old(self).dim_view(Dimension::Dependents).len() as int }),
            final(self).hash_view() == old(self).hash_view(),
            forall|d: Dimension| #[trigger] final(self).dim_view(d) == old(self).dim_view(d),
            final(self).stats_view() == (MultiDimensionalIndexStats {
                structural_queries: old(self).stats_view().structural_queries.wrapping_add(1),
                ..old(self).stats_view()
            }),
    {
        let r = first_of(&self.structural_index, limit);
        self.stats.structural_queries = self.stats.structural_queries.wrapping_add(1);
        proof {
            assert(self.hash_view() =~= old(self).hash_view());
        }
        Ok(r)
    }

    /// The current records that meet every bound, highest fee rate first
    /// (a lower hash first among equal rates).
    pub fn query_combined(&mut self, min_fee: u64, max_fee: u64, start_time: u64, end_time: u64, min_dependencies: u32)
        -> (r: Result<Vec<IndexedTransaction>, StorageError>)
        requires
            old(self).wf(),
        ensures
            final(self).wf(),
            r is Ok,
            tx_views(r->Ok_0@) == old(self).dim_view(Dimension::Economic).filter(
                combined_selector(old(self).hash_view(), min_fee, max_fee, start_time, end_time, min_dependencies)),
            final(self).hash_view() == old(self).hash_view(),
            forall|d: Dimension| #[trigger] final(self).dim_view(d) == old(self).dim_view(d),
            final(self).stats_view() == (MultiDimensionalIndexStats {
                economic_queries: old(self).stats_view().economic_queries.wrapping_add(1),
                temporal_queries: old(self).stats_view().temporal_queries.wrapping_add(1),
                structural_queries: old(self).stats_view().structural_queries.wrapping_add(1),
                ..old(self).stats_view()
            }),
    {
        let ghost s = tx_views(self.economic_index@);
        let ghost hv = self.hash_view();
        let ghost f = combined_selector(hv, min_fee, max_fee, start_time, end_time, min_dependencies);
        let mut r: Vec<IndexedTransaction> = Vec::new();
        let mut i: usize = 0;
        proof {
            assert(s.take(0).filter(f) =~= Seq::<IndexedTxView>::empty()) by {
                assert(s.take(0) =~= Seq::<IndexedTxView>::empty());
                reveal(Seq::filter);
            }
            assert(tx_views(r@) =~= Seq::<IndexedTxView>::empty());
        }
        while i < self.economic_index.len()
            invariant
                self.wf(),
                s == tx_views(self.economic_index@),
                hv == self.hash_view(),
                f == combined_selector(hv, min_fee, max_fee, start_time, end_time, min_dependencies),
                i <= s.len(),
                tx_views(r@) == s.take(i as int).filter(f),
            decreases s.len() - i,
        {
            let e = &self.economic_index[i];
            let ghost r0 = tx_views(r@);
            proof {
                assert(s[i as int] == e@);
                assert(s.take(i + 1) =~= s.take(i as int).push(e@));
                s.take(i as int).lemma_filter_push(e@, f);
            }
            if min_fee <= e.fee_rate && e.fee_rate <= max_fee && start_time <= e.arrival_time && e.arrival_time <= end_time
                && e.dependency_count >= min_dependencies
            {
                let current = match self.by_hash.get(&e.tx_hash) {
                    Some(c) => c.fee_rate == e.fee_rate && c.arrival_time == e.arrival_time
                        && c.dependency_count == e.dependency_count && c.size_bytes == e.size_bytes
                        && c.total_fee == e.total_fee && bytes_eq(c.tx_hash.as_slice(), e.tx_hash.as_slice()),
                    None => false,
                };
                proof {
                    if self.by_hash@.contains_key(e.tx_hash@) {
                        assert(hv[e.tx_hash@] == self.by_hash@[e.tx_hash@]@);
                    }
                    assert(current == (hv.contains_key(e@.tx_hash) && hv[e@.tx_hash] == e@));
                }
                if current {
                    r.push(e.duplicate());
                    proof {
                        assert(tx_views(r@) =~= r0.push(e@));
                    }
                }
            }
            i = i + 1;
        }
        self.stats.economic_queries = self.stats.economic_queries.wrapping_add(1);
        self.stats.temporal_queries = self.stats.temporal_queries.wrapping_add(1);
        self.stats.structural_queries = self.stats.structural_queries.wrapping_add(1);
        proof {
            assert(s.take(s.len() as int) =~= s);
            assert(self.hash_view() =~= old(self).hash_view());
        }
        Ok(r)
    }

    /// Number of records.
    pub fn all_count(&self) -> (r: Result<usize, StorageError>)
        requires
            self.wf(),
        ensures
            r matches Ok(n) && n == self.hash_view().len(),
    {
        proof {
            self.by_hash.lemma_view();
            assert(self.hash_view().dom() =~= self.by_hash@.dom());
        }
        Ok(self.by_hash.len())
    }

    /// Every record, each once.
    pub fn all_transactions(&self) -> (r: Result<Vec<IndexedTransaction>, StorageError>)
        requires
            self.wf(),
        ensures
            r is Ok,
            r->Ok_0@.len() == self.hash_view().len(),
            forall|i: int| 0 <= i < r->Ok_0@.len() ==> self.hash_view().contains_key(#[trigger] r->Ok_0@[i]@.tx_hash)
                && self.hash_view()[r->Ok_0@[i]@.tx_hash] == r->Ok_0@[i]@,
            forall|i: int, j: int| 0 <= i < j < r->Ok_0@.len() ==> (#[trigger] r->Ok_0@[i])@.tx_hash != (#[trigger] r->Ok_0@[j])@.tx_hash,
    {
        proof {
            self.by_hash.lemma_view();
            assert(self.hash_view().dom() =~= self.by_hash@.dom());
        }
        let n = self.by_hash.len();
        let mut r: Vec<IndexedTransaction> = Vec::new();
        let mut i: usize = 0;
        while i < n
            invariant
                self.wf(),
                n == self.by_hash.key_seq().len(),
                i <= n,
                r@.len() == i,
                forall|j: int| 0 <= j < i ==> self.hash_view().contains_key(#[trigger] r@[j]@.tx_hash)
                    && self.hash_view()[r@[j]@.tx_hash] == r@[j]@,
                forall|j: int| 0 <= j < i ==> (#[trigger] r@[j])@.tx_hash == self.by_hash.key_seq()[j],
                self.by_hash.key_seq().no_duplicates(),
            decreases n - i,
        {
            proof {
                self.by_hash.lemma_view();
            }
            let t = self.by_hash.value_at(i);
            proof {
                assert(self.by_hash@.contains_key(self.by_hash.key_seq()[i as int]));
            }
            r.push(t.duplicate());
            i = i + 1;
        }
        proof {
            assert forall|a: int, b: int| 0 <= a < b < r@.len() implies (#[trigger] r@[a])@.tx_hash != (#[trigger] r@[b])@.tx_hash by {
                assert(r@[a]@.tx_hash == self.by_hash.key_seq()[a]);
                assert(r@[b]@.tx_hash == self.by_hash.key_seq()[b]);
            }
        }
        Ok(r)
    }

    /// The counters.
    pub fn get_stats(&self) -> (r: Result<MultiDimensionalIndexStats, StorageError>)
        ensures
            r matches Ok(s) && s == self.stats_view(),
    {
        Ok(self.stats)
    }

    /// Forgets everything and resets the counters.
    pub fn reset(&mut self) -> (r: Result<(), StorageError>)
        ensures
            final(self).wf(),
            r is Ok,
            final(self).hash_view() == Map::<Seq<u8>, IndexedTxView>::empty(),
            forall|d: Dimension| #[trigger] final(self).dim_view(d) == Seq::<IndexedTxView>::empty(),
            final(self).stats_view() == MultiDimensionalIndexStats::spec_zero(),
    {
        *self = Self::new();
        Ok(())
    }
}

/// Each dimension of an index lists its entries strictly in its order, so
/// every query over a dimension returns its results in that order.
pub proof fn lemma_dimensions_sorted(x: &MultiDimensionalIndex, d: Dimension)
    requires
        x.wf(),
    ensures
        sorted_in(d, x.dim_view(d)),
{
    match d {
        Dimension::Economic => {},
        Dimension::Temporal => {},
        Dimension::Dependents => {},
    }
}

/// Keeping the entries a predicate picks keeps a sorted list sorted.
pub proof fn lemma_filter_sorted(d: Dimension, s: Seq<IndexedTxView>, f: spec_fn(IndexedTxView) -> bool)
    requires
        sorted_in(d, s),
    ensures
        sorted_in(d, s.filter(f)),
    decreases s.len(),
{
    reveal(Seq::filter);
    if s.len() > 0 {
        let p = s.drop_last();
        assert(sorted_in(d, p)) by {
            assert forall|i: int, j: int| 0 <= i < j < p.len() implies before(d, #[trigger] p[i], #[trigger] p[j]) by {
                assert(p[i] == s[i] && p[j] == s[j]);
            }
        }
        lemma_filter_sorted(d, p, f);
        let fp = p.filter(f);
        if f(s.last()) {
            let r = s.filter(f);
            assert(r == fp.push(s.last()));
            assert forall|i: int, j: int| 0 <= i < j < r.len() implies before(d, #[trigger] r[i], #[trigger] r[j]) by {
                if j == r.len() - 1 {
                    assert(r[i] == fp[i]);
                    crate::keyed::lemma_filter_member(p, f, i);
                    let k = choose|k: int| 0 <= k < p.len() && p[k] == fp[i];
                    assert(s[k] == p[k]);
                    assert(before(d, s[k], s[s.len() - 1]));
                } else {
                    assert(r[i] == fp[i] && r[j] == fp[j]);
                }
            }
        }
    }
}

impl Default for MultiDimensionalIndex {
    fn default() -> (x: Self)
        ensures
            x.wf(),
            x.hash_view() == Map::<Seq<u8>, IndexedTxView>::empty(),
            x.stats_view() == MultiDimensionalIndexStats::spec_zero(),
    {
        Self::new()
    }
}

/// Membership in a filtered sequence: exactly the members that pass.
proof fn lemma_filter_membership(s: Seq<IndexedTxView>, f: spec_fn(IndexedTxView) -> bool)
    ensures
        forall|e: IndexedTxView| #[trigger] s.filter(f).contains(e) <==> s.contains(e) && f(e),
{
    assert forall|e: IndexedTxView| #[trigger] s.filter(f).contains(e) <==> s.contains(e) && f(e) by {
        if s.filter(f).contains(e) {
            let i = s.filter(f).index_of(e);
            s.filter_lemma(f);
            assert(f(s.filter(f)[i]));
            crate::keyed::lemma_filter_member(s, f, i);
        }
        if s.contains(e) && f(e) {
            s.lemma_filter_contains_rev(f, e);
        }
    }
}

/// The range queries return exactly the indexed entries within their
/// bounds, both bounds included, in the order of their dimension: a fee
/// range query the entries with `lo <= fee_rate <= hi` in fee order, an
/// arrival range query those with `lo <= arrival_time <= hi` in arrival
/// order, a dependents query those with at least `m` dependents.
pub proof fn lemma_range_queries_include_bounds(x: &MultiDimensionalIndex, lo: u64, hi: u64, m: u32,
    fees: Seq<IndexedTxView>, arrivals: Seq<IndexedTxView>, deps: Seq<IndexedTxView>)
    requires
        x.wf(),
        fees == x.dim_view(Dimension::Economic).filter(selector(IndexQuery::FeeRange(lo, hi))),
        arrivals == x.dim_view(Dimension::Temporal).filter(selector(IndexQuery::ArrivalRange(lo, hi))),
        deps == x.dim_view(Dimension::Dependents).filter(selector(IndexQuery::MinDependents(m))),
    ensures
        forall|e: IndexedTxView| #[trigger] fees.contains(e)
            <==> x.dim_view(Dimension::Economic).contains(e) && lo <= e.fee_rate && e.fee_rate <= hi,
        forall|e: IndexedTxView| #[trigger] arrivals.contains(e)
            <==> x.dim_view(Dimension::Temporal).contains(e) && lo <= e.arrival_time && e.arrival_time <= hi,
        forall|e: IndexedTxView| #[trigger] deps.contains(e)
            <==> x.dim_view(Dimension::Dependents).contains(e) && e.dependency_count >= m,
        sorted_in(Dimension::Economic, fees),
        sorted_in(Dimension::Temporal, arrivals),
        sorted_in(Dimension::Dependents, deps),
{
    lemma_filter_membership(x.dim_view(Dimension::Economic), selector(IndexQuery::FeeRange(lo, hi)));
    lemma_filter_membership(x.dim_view(Dimension::Temporal), selector(IndexQuery::ArrivalRange(lo, hi)));
    lemma_filter_membership(x.dim_view(Dimension::Dependents), selector(IndexQuery::MinDependents(m)));
    lemma_dimensions_sorted(x, Dimension::Economic);
    lemma_dimensions_sorted(x, Dimension::Temporal);
    lemma_dimensions_sorted(x, Dimension::Dependents);
    lemma_filter_sorted(Dimension::Economic, x.dim_view(Dimension::Economic), selector(IndexQuery::FeeRange(lo, hi)));
    lemma_filter_sorted(Dimension::Temporal, x.dim_view(Dimension::Temporal), selector(IndexQuery::ArrivalRange(lo, hi)));
    lemma_filter_sorted(Dimension::Dependents, x.dim_view(Dimension::Dependents), selector(IndexQuery::MinDependents(m)));
}

/// The top-`limit` queries return the `limit` entries (or all, when fewer)
/// with the highest fee rates, or with the most dependents: each returned
/// entry is indexed and ranks at or above every indexed entry left out.
pub proof fn lemma_top_queries_take_the_highest(x: &MultiDimensionalIndex, limit: usize,
    top_fees: Seq<IndexedTxView>, hubs: Seq<IndexedTxView>)
    requires
        x.wf(),
        top_fees == x.dim_view(Dimension::Economic).take(
            if limit < x.dim_view(Dimension::Economic).len() { limit as int } else { x.dim_view(Dimension::Economic).len() as int }),
        hubs == x.dim_view(Dimension::Dependents).take(
            if limit < x.dim_view(Dimension::Dependents).len() { limit as int } else { x.dim_view(Dimension::Dependents).len() as int }),
    ensures
        top_fees.len() == if limit < x.dim_view(Dimension::Economic).len() { limit as int } else { x.dim_view(Dimension::Economic).len() as int },
        forall|i: int| 0 <= i < top_fees.len() ==> x.dim_view(Dimension::Economic).contains(#[trigger] top_fees[i]),
        forall|i: int, j: int| 0 <= i < top_fees.len() && top_fees.len() <= j < x.dim_view(Dimension::Economic).len()
            ==> (#[trigger] top_fees[i]).fee_rate >= (#[trigger] x.dim_view(Dimension::Economic)[j]).fee_rate,
        hubs.len() == if limit < x.dim_view(Dimension::Dependents).len() { limit as int } else { x.dim_view(Dimension::Dependents).len() as int },
        forall|i: int| 0 <= i < hubs.len() ==> x.dim_view(Dimension::Dependents).contains(#[trigger] hubs[i]),
        forall|i: int, j: int| 0 <= i < hubs.len() && hubs.len() <= j < x.dim_view(Dimension::Dependents).len()
            ==> (#[trigger] hubs[i]).dependency_count >= (#[trigger] x.dim_view(Dimension::Dependents)[j]).dependency_count,
{
    lemma_dimensions_sorted(x, Dimension::Economic);
    lemma_dimensions_sorted(x, Dimension::Dependents);
    let ev = x.dim_view(Dimension::Economic);
    let dv = x.dim_view(Dimension::Dependents);
    assert forall|i: int| 0 <= i < top_fees.len() implies ev.contains(#[trigger] top_fees[i]) by {
        assert(top_fees[i] == ev[i]);
    }
    assert forall|i: int, j: int| 0 <= i < top_fees.len() && top_fees.len() <= j < ev.len()
        implies (#[trigger] top_fees[i]).fee_rate >= (#[trigger] ev[j]).fee_rate by {
        assert(top_fees[i] == ev[i]);
        assert(before(Dimension::Economic, ev[i], ev[j]));
    }
    assert forall|i: int| 0 <= i < hubs.len() implies dv.contains(#[trigger] hubs[i]) by {
        assert(hubs[i] == dv[i]);
    }
    assert forall|i: int, j: int| 0 <= i < hubs.len() && hubs.len() <= j < dv.len()
        implies (#[trigger] hubs[i]).dependency_count >= (#[trigger] dv[j]).dependency_count by {
        assert(hubs[i] == dv[i]);
        assert(before(Dimension::Dependents, dv[i], dv[j]));
    }
}

/// The combined query returns exactly the current records within every
/// bound (fee rate, arrival time, dependents; bounds included).
pub proof fn lemma_combined_query_within_bounds(x: &MultiDimensionalIndex, min_fee: u64, max_fee: u64, start: u64,
    end: u64, min_deps: u32, res: Seq<IndexedTxView>)
    requires
        res == x.dim_view(Dimension::Economic).filter(
            combined_selector(x.hash_view(), min_fee, max_fee, start, end, min_deps)),
    ensures
        forall|e: IndexedTxView| #[trigger] res.contains(e) <==> {
            &&& x.dim_view(Dimension::Economic).contains(e)
            &&& x.hash_view().contains_key(e.tx_hash) && x.hash_view()[e.tx_hash] == e
            &&& min_fee <= e.fee_rate && e.fee_rate <= max_fee
            &&& start <= e.arrival_time && e.arrival_time <= end
            &&& e.dependency_count >= min_deps
        },
{
    lemma_filter_membership(x.dim_view(Dimension::Economic),
        combined_selector(x.hash_view(), min_fee, max_fee, start, end, min_deps));
}

} // verus!

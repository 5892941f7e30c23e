//! Conflict graph over pending transactions: which transactions claim the
//! same output, which depend on which, and what a removal takes with it.

use vstd::prelude::*;
use crate::bytes::{bytes_eq, copy_bytes};
use crate::counter::{wrap_add, lemma_wrap_add_zero, lemma_wrap_add_step, lemma_wrap_add_once};
use crate::keyed::{KeyMap, KeySet, KeyOps, key_views, push_to_list, copy_keys, insert_all, key_set_of, retain_keys_not_in};
use crate::reach::{edge, strict_descendants, lemma_no_successors, lemma_descendants_closed};
use crate::walk::{ChildLinks, link_graph, reach_order};
use crate::text::{hex_encode, hex_string, dec_string, push_decimal};
use crate::transaction::{Transaction, TransactionView, hash_key, hash_key_spec};

verus! {

/// An output of a transaction, referenced by the encoded hash of that
/// transaction and the output's position.
#[derive(Clone, Debug, Hash, PartialEq, Eq, PartialOrd, Ord)]
pub struct OutPoint {
    pub tx_hash: Vec<u8>,
    pub output_index: u32,
}

impl View for OutPoint {
    type V = (Seq<u8>, u32);

    open spec fn view(&self) -> (Seq<u8>, u32) {
        (self.tx_hash@, self.output_index)
    }
}

impl KeyOps for OutPoint {
    fn key_eq(&self, other: &Self) -> (b: bool) {
        self.output_index == other.output_index && bytes_eq(self.tx_hash.as_slice(), other.tx_hash.as_slice())
    }

    fn key_clone(&self) -> (c: Self) {
        OutPoint { tx_hash: copy_bytes(self.tx_hash.as_slice()), output_index: self.output_index }
    }
}

impl OutPoint {
    pub fn new(tx_hash: Vec<u8>, output_index: u32) -> (o: Self)
        ensures
            o.tx_hash == tx_hash,
            o.output_index == output_index,
    {
        Self { tx_hash, output_index }
    }

    /// The outpoint at `index` of the transaction with hash `hash`, which is
    /// referenced by the hash's encoding.
    pub fn from_hash(hash: &crate::transaction::Hash, index: u32) -> (o: Self)
        ensures
            o@ == (hash_key_spec(*hash), index),
    {
        Self { tx_hash: hash_key(hash), output_index: index }
    }

    /// The key `<hex of tx_hash>:<output_index>`.
    pub fn to_key(&self) -> (k: String)
        ensures
            k@ == hex_string(self.tx_hash@) + seq![':'] + dec_string(self.output_index as nat),
    {
        let mut k = hex_encode(self.tx_hash.as_slice());
        k.append(":");
        proof {
            reveal_strlit(":");
        }
        push_decimal(&mut k, self.output_index as u64);
        k
    }
}

/// Hash of a transaction in the conflict graph.
#[derive(Clone, Debug, Hash, PartialEq, Eq, PartialOrd, Ord)]
pub struct TxHash(pub Vec<u8>);

impl View for TxHash {
    type V = Seq<u8>;

    open spec fn view(&self) -> Seq<u8> {
        self.0@
    }
}

impl KeyOps for TxHash {
    fn key_eq(&self, other: &Self) -> (b: bool) {
        bytes_eq(self.0.as_slice(), other.0.as_slice())
    }

    fn key_clone(&self) -> (c: Self) {
        TxHash(copy_bytes(self.0.as_slice()))
    }
}

impl TxHash {
    pub fn new(hash: Vec<u8>) -> (h: Self)
        ensures
            h.0 == hash,
    {
        Self(hash)
    }

    /// The hash as its encoding.
    pub fn from_hash(h: &crate::transaction::Hash) -> (t: Self)
        ensures
            t@ == hash_key_spec(*h),
    {
        Self(hash_key(h))
    }

    pub fn as_bytes(&self) -> (b: &[u8])
        ensures
            b@ == self.0@,
    {
        self.0.as_slice()
    }
}

/// A transaction in the conflict graph with its relations.
#[derive(Clone, Debug)]
pub struct ConflictNode {
    pub tx_hash: TxHash,
    pub conflicting_with: KeySet<TxHash>,
    pub parents: KeySet<TxHash>,
    pub children: KeySet<TxHash>,
    pub total_fee: u64,
    pub size_bytes: usize,
    pub is_high_risk: bool,
}

/// A conflict node as a value.
#[verifier::ext_equal]
pub struct NodeView {
    pub tx_hash: Seq<u8>,
    pub conflicting_with: Set<Seq<u8>>,
    pub parents: Set<Seq<u8>>,
    pub children: Set<Seq<u8>>,
    pub total_fee: u64,
    pub size_bytes: usize,
    pub is_high_risk: bool,
}

impl View for ConflictNode {
    type V = NodeView;

    open spec fn view(&self) -> NodeView {
        NodeView {
            tx_hash: self.tx_hash@,
            conflicting_with: self.conflicting_with@,
            parents: self.parents@,
            children: self.children@,
            total_fee: self.total_fee,
            size_bytes: self.size_bytes,
            is_high_risk: self.is_high_risk,
        }
    }
}

/// A node just registered: no links yet, not high-risk.
pub open spec fn fresh_node(h: Seq<u8>, conflicts: Set<Seq<u8>>, fee: u64, size: usize) -> NodeView {
    NodeView {
        tx_hash: h,
        conflicting_with: conflicts,
        parents: Set::empty(),
        children: Set::empty(),
        total_fee: fee,
        size_bytes: size,
        is_high_risk: false,
    }
}

/// `n` with `other` among the transactions it conflicts with.
pub open spec fn with_conflict(n: NodeView, other: Seq<u8>) -> NodeView {
    NodeView { conflicting_with: n.conflicting_with.insert(other), ..n }
}

/// `n` with `p` among its parents.
pub open spec fn with_parent(n: NodeView, p: Seq<u8>) -> NodeView {
    NodeView { parents: n.parents.insert(p), ..n }
}

/// `n` with `c` among its children.
pub open spec fn with_child(n: NodeView, c: Seq<u8>) -> NodeView {
    NodeView { children: n.children.insert(c), ..n }
}

/// `n` without the children in `gone`.
pub open spec fn without_children(n: NodeView, gone: Set<Seq<u8>>) -> NodeView {
    NodeView { children: n.children.difference(gone), ..n }
}

/// `n` without the parents in `gone`.
pub open spec fn without_parents(n: NodeView, gone: Set<Seq<u8>>) -> NodeView {
    NodeView { parents: n.parents.difference(gone), ..n }
}

/// `n` marked high-risk.
pub open spec fn marked(n: NodeView) -> NodeView {
    NodeView { is_high_risk: true, ..n }
}

impl ConflictNode {
    pub open spec fn wf(&self) -> bool {
        self.conflicting_with.wf() && self.parents.wf() && self.children.wf()
    }

    pub fn new(tx_hash: TxHash, fee: u64, size: usize) -> (n: Self)
        ensures
            n.wf(),
            n.tx_hash == tx_hash,
            n@ == fresh_node(tx_hash@, Set::empty(), fee, size),
    {
        let n = Self {
            tx_hash,
            conflicting_with: KeySet::new(),
            parents: KeySet::new(),
            children: KeySet::new(),
            total_fee: fee,
            size_bytes: size,
            is_high_risk: false,
        };
        assert(n@ =~~= fresh_node(n.tx_hash@, Set::empty(), fee, size));
        n
    }

    /// A copy of the node.
    pub fn duplicate(&self) -> (c: Self)
        requires
            self.wf(),
        ensures
            c.wf(),
            c@ == self@,
    {
        let c = Self {
            tx_hash: self.tx_hash.key_clone(),
            conflicting_with: self.conflicting_with.duplicate(),
            parents: self.parents.duplicate(),
            children: self.children.duplicate(),
            total_fee: self.total_fee,
            size_bytes: self.size_bytes,
            is_high_risk: self.is_high_risk,
        };
        assert(c@ =~~= self@);
        c
    }
}

impl ChildLinks<TxHash> for ConflictNode {
    open spec fn links(&self) -> Set<Seq<u8>> {
        self.children@
    }

    open spec fn links_ok(&self) -> bool {
        self.children.wf()
    }

    proof fn lemma_links_finite(&self) {
        self.children.lemma_view();
    }

    fn child_links(&self) -> (r: &KeySet<TxHash>) {
        &self.children
    }
}

/// Counters of conflict graph operations.
#[derive(Clone, Copy, Debug)]
pub struct ConflictGraphStats {
    pub total_nodes: u64,
    pub total_conflicts: u64,
    pub transitive_conflicts: u64,
    pub high_risk_transactions: u64,
    pub rbf_evaluations: u64,
    pub rbf_replacements: u64,
}

impl ConflictGraphStats {
    /// All counters at zero.
    pub open spec fn spec_zero() -> Self {
        ConflictGraphStats {
            total_nodes: 0,
            total_conflicts: 0,
            transitive_conflicts: 0,
            high_risk_transactions: 0,
            rbf_evaluations: 0,
            rbf_replacements: 0,
        }
    }
}

impl Default for ConflictGraphStats {
    fn default() -> (s: Self)
        ensures
            s == Self::spec_zero(),
    {
        ConflictGraphStats {
            total_nodes: 0,
            total_conflicts: 0,
            transitive_conflicts: 0,
            high_risk_transactions: 0,
            rbf_evaluations: 0,
            rbf_replacements: 0,
        }
    }
}

/// The nodes after `parent` is recorded as a parent of `child` (present) and,
/// when `parent` is present, `child` as one of its children.
pub open spec fn linked(m: Map<Seq<u8>, NodeView>, child: Seq<u8>, parent: Seq<u8>) -> Map<Seq<u8>, NodeView> {
    let m1 = m.insert(child, with_parent(m[child], parent));
    if m1.contains_key(parent) {
        m1.insert(parent, with_child(m1[parent], child))
    } else {
        m1
    }
}

/// The outpoint that input `i` of `tx` claims: the encoded hash of the
/// transaction it spends, and the input's position.
pub open spec fn input_outpoint(tx: TransactionView, i: int) -> (Seq<u8>, u32) {
    (hash_key_spec(tx.inputs[i].prev_tx), i as u32)
}

/// The claimants of `op`, none when it is unclaimed.
pub open spec fn claimants_in(c: Map<(Seq<u8>, u32), Seq<Seq<u8>>>, op: (Seq<u8>, u32)) -> Seq<Seq<u8>> {
    if c.contains_key(op) {
        c[op]
    } else {
        Seq::empty()
    }
}

/// The claims after `h` has claimed the outpoints of the first `n` inputs of
/// `tx`, one after the other.
pub open spec fn claims_after(c: Map<(Seq<u8>, u32), Seq<Seq<u8>>>, tx: TransactionView, h: Seq<u8>, n: nat) -> Map<(Seq<u8>, u32), Seq<Seq<u8>>>
    decreases n,
{
    if n == 0 {
        c
    } else {
        let prev = claims_after(c, tx, h, (n - 1) as nat);
        let op = input_outpoint(tx, n - 1);
        prev.insert(op, claimants_in(prev, op).push(h))
    }
}

/// The earlier claimants that `h` meets while claiming those outpoints, in
/// the order it meets them.
pub open spec fn met_claimants(c: Map<(Seq<u8>, u32), Seq<Seq<u8>>>, tx: TransactionView, h: Seq<u8>, n: nat) -> Seq<Seq<u8>>
    decreases n,
{
    if n == 0 {
        Seq::empty()
    } else {
        met_claimants(c, tx, h, (n - 1) as nat)
            + claimants_in(claims_after(c, tx, h, (n - 1) as nat), input_outpoint(tx, n - 1))
    }
}

/// The nodes after `h` is registered with the conflicts `d`: a fresh node for
/// `h`, and `h` among the conflicts of every other node in `d`.
pub open spec fn registered(m: Map<Seq<u8>, NodeView>, h: Seq<u8>, d: Set<Seq<u8>>, fee: u64, size: usize) -> Map<Seq<u8>, NodeView> {
    Map::new(
        |k: Seq<u8>| m.contains_key(k) || k == h,
        |k: Seq<u8>| if k == h {
            fresh_node(h, d, fee, size)
        } else if d.contains(k) {
            with_conflict(m[k], h)
        } else {
            m[k]
        },
    )
}

/// `d` is in the graph and conflicts with some transaction.
pub open spec fn has_conflict_in(m: Map<Seq<u8>, NodeView>, d: Seq<u8>) -> bool {
    m.contains_key(d) && m[d].conflicting_with != Set::<Seq<u8>>::empty()
}

/// What the members of `s` that are in the graph conflict with.
pub open spec fn conflicts_of(m: Map<Seq<u8>, NodeView>, s: Set<Seq<u8>>) -> Set<Seq<u8>> {
    Set::new(|x: Seq<u8>| exists|y: Seq<u8>| s.contains(y) && m.contains_key(y) && #[trigger] m[y].conflicting_with.contains(x))
}

/// The conflict set of `h`: `h` itself and, when it is in the graph, what it
/// conflicts with, its descendants and what each of them conflicts with.
pub open spec fn conflict_closure(m: Map<Seq<u8>, NodeView>, g: Map<Seq<u8>, Set<Seq<u8>>>, h: Seq<u8>) -> Set<Seq<u8>> {
    if m.contains_key(h) {
        let d = strict_descendants(g, h);
        set![h] + m[h].conflicting_with + d + conflicts_of(m, d)
    } else {
        set![h]
    }
}

/// `x` is in the graph and not yet high-risk.
pub open spec fn unmarked(m: Map<Seq<u8>, NodeView>, x: Seq<u8>) -> bool {
    m.contains_key(x) && !m[x].is_high_risk
}

/// The nodes with every member of `s` marked high-risk.
pub open spec fn marked_all(m: Map<Seq<u8>, NodeView>, s: Set<Seq<u8>>) -> Map<Seq<u8>, NodeView> {
    Map::new(|k: Seq<u8>| m.contains_key(k), |k: Seq<u8>| if s.contains(k) { marked(m[k]) } else { m[k] })
}

/// The members of `s` that marking makes high-risk.
pub open spec fn newly_marked(m: Map<Seq<u8>, NodeView>, s: Set<Seq<u8>>) -> Set<Seq<u8>> {
    Set::new(|x: Seq<u8>| s.contains(x) && unmarked(m, x))
}

/// The removed transactions that held `k` as a parent: they leave the
/// children of `k`.
pub open spec fn cut_children(m: Map<Seq<u8>, NodeView>, r: Set<Seq<u8>>, k: Seq<u8>) -> Set<Seq<u8>> {
    Set::new(|t: Seq<u8>| r.contains(t) && m.contains_key(t) && m[t].parents.contains(k))
}

/// The nodes after the members of `r` are removed and unlinked from the
/// children of the nodes they named as parents.
pub open spec fn after_cascade(m: Map<Seq<u8>, NodeView>, r: Set<Seq<u8>>) -> Map<Seq<u8>, NodeView> {
    Map::new(
        |k: Seq<u8>| m.contains_key(k) && !r.contains(k),
        |k: Seq<u8>| without_children(m[k], cut_children(m, r, k)),
    )
}

/// The claims without the members of `r`; outpoints left unclaimed go.
pub open spec fn claims_without(c: Map<(Seq<u8>, u32), Seq<Seq<u8>>>, r: Set<Seq<u8>>) -> Map<(Seq<u8>, u32), Seq<Seq<u8>>> {
    Map::new(
        |op: (Seq<u8>, u32)| c.contains_key(op) && c[op].filter(|t: Seq<u8>| !r.contains(t)).len() > 0,
        |op: (Seq<u8>, u32)| c[op].filter(|t: Seq<u8>| !r.contains(t)),
    )
}

/// The first `i + 1` elements hold what the first `i` hold, and `s[i]`.
proof fn lemma_take_one_more<A>(s: Seq<A>, i: int)
    requires
        0 <= i < s.len(),
    ensures
        forall|x: A| #[trigger] s.take(i + 1).contains(x) == (s.take(i).contains(x) || x == s[i]),
{
    assert forall|x: A| #[trigger] s.take(i + 1).contains(x) == (s.take(i).contains(x) || x == s[i]) by {
        if s.take(i).contains(x) {
            let j = s.take(i).index_of(x);
            assert(s.take(i + 1)[j] == x);
        }
        if x == s[i] {
            assert(s.take(i + 1)[i] == x);
        }
        if s.take(i + 1).contains(x) {
            let j = s.take(i + 1).index_of(x);
            if j < i {
                assert(s.take(i)[j] == x);
            }
        }
    }
}

/// A transaction just registered has no descendants, so the transitive
/// conflicts counted at registration are none and removing it at once takes
/// it alone.
pub proof fn lemma_registered_has_no_descendants(m: Map<Seq<u8>, NodeView>, h: Seq<u8>, d: Set<Seq<u8>>, fee: u64, size: usize)
    ensures
        strict_descendants(
            Map::new(|k: Seq<u8>| registered(m, h, d, fee, size).contains_key(k), |k: Seq<u8>| registered(m, h, d, fee, size)[k].children),
            h,
        ) == Set::<Seq<u8>>::empty(),
{
    let g = Map::new(|k: Seq<u8>| registered(m, h, d, fee, size).contains_key(k), |k: Seq<u8>| registered(m, h, d, fee, size)[k].children);
    assert forall|b: Seq<u8>| !#[trigger] edge(g, h, b) by {}
    lemma_no_successors(g, h);
}

/// The graph of conflicts and dependencies among pending transactions.
pub struct ConflictGraph {
    /// Outpoint to the transactions claiming it, in the order they came
    outpoint_index: KeyMap<OutPoint, Vec<TxHash>>,
    /// Transaction nodes
    nodes: KeyMap<TxHash, ConflictNode>,
    /// Conflict sets computed so far
    conflict_sets: KeyMap<TxHash, KeySet<TxHash>>,
    stats: ConflictGraphStats,
}

impl ConflictGraph {
    pub closed spec fn wf(&self) -> bool {
        &&& self.outpoint_index.wf()
        &&& self.nodes.wf()
        &&& self.conflict_sets.wf()
        &&& forall|k: Seq<u8>| #[trigger] self.nodes@.contains_key(k) ==> self.nodes@[k].wf() && self.nodes@[k].tx_hash@ == k
        &&& forall|k: Seq<u8>| #[trigger] self.conflict_sets@.contains_key(k) ==> self.conflict_sets@[k].wf()
    }

    /// The transaction nodes by hash.
    pub closed spec fn nodes_view(&self) -> Map<Seq<u8>, NodeView> {
        Map::new(|k: Seq<u8>| self.nodes@.contains_key(k), |k: Seq<u8>| self.nodes@[k]@)
    }

    /// The claimants of each outpoint, in the order they came.
    pub closed spec fn claims_view(&self) -> Map<(Seq<u8>, u32), Seq<Seq<u8>>> {
        Map::new(
            |op: (Seq<u8>, u32)| self.outpoint_index@.contains_key(op),
            |op: (Seq<u8>, u32)| key_views(self.outpoint_index@[op]@),
        )
    }

    /// The conflict sets computed so far.
    pub closed spec fn cached_sets(&self) -> Map<Seq<u8>, Set<Seq<u8>>> {
        Map::new(|k: Seq<u8>| self.conflict_sets@.contains_key(k), |k: Seq<u8>| self.conflict_sets@[k]@)
    }

    /// Every kept conflict set is the conflict set of the graph as it is.
    pub closed spec fn cache_fresh(&self) -> bool {
        forall|k: Seq<u8>| #[trigger] self.cached_sets().contains_key(k)
            ==> self.cached_sets()[k] == conflict_closure(self.nodes_view(), self.child_graph(), k)
    }

    /// Forgets the kept conflict sets after the graph changed.
    fn drop_cached_sets(&mut self)
        requires
            old(self).wf(),
        ensures
            final(self).wf(),
            final(self).cached_sets() == Map::<Seq<u8>, Set<Seq<u8>>>::empty(),
            final(self).cache_fresh(),
            final(self).nodes_view() == old(self).nodes_view(),
            final(self).claims_view() == old(self).claims_view(),
            final(self).stats_view() == old(self).stats_view(),
    {
        self.conflict_sets.clear();
        proof {
            assert(self.cached_sets() =~= Map::<Seq<u8>, Set<Seq<u8>>>::empty());
        }
    }

    pub closed spec fn stats_view(&self) -> ConflictGraphStats {
        self.stats
    }

    /// Each transaction's children.
    pub open spec fn child_graph(&self) -> Map<Seq<u8>, Set<Seq<u8>>> {
        Map::new(|k: Seq<u8>| self.nodes_view().contains_key(k), |k: Seq<u8>| self.nodes_view()[k].children)
    }

    pub fn new() -> (g: Self)
        ensures
            g.wf(),
            g.nodes_view() == Map::<Seq<u8>, NodeView>::empty(),
            g.claims_view() == Map::<(Seq<u8>, u32), Seq<Seq<u8>>>::empty(),
            g.cached_sets() == Map::<Seq<u8>, Set<Seq<u8>>>::empty(),
            g.cache_fresh(),
            g.stats_view() == ConflictGraphStats::spec_zero(),
    {
        let g = Self {
            outpoint_index: KeyMap::new(),
            nodes: KeyMap::new(),
            conflict_sets: KeyMap::new(),
            stats: ConflictGraphStats::default(),
        };
        proof {
            assert(g.nodes_view() =~= Map::<Seq<u8>, NodeView>::empty());
            assert(g.claims_view() =~= Map::<(Seq<u8>, u32), Seq<Seq<u8>>>::empty());
            assert(g.cached_sets() =~= Map::<Seq<u8>, Set<Seq<u8>>>::empty());
        }
        g
    }

    /// Puts `n` under `k`, in place of the node there if any.
    fn put_node(&mut self, k: &TxHash, n: ConflictNode)
        requires
            old(self).wf(),
            n.wf(),
            n.tx_hash@ == k@,
        ensures
            final(self).wf(),
            final(self).nodes_view() == old(self).nodes_view().insert(k@, n@),
            final(self).claims_view() == old(self).claims_view(),
            final(self).cached_sets() == old(self).cached_sets(),
            final(self).stats == old(self).stats,
    {
        let ghost nv = n@;
        self.nodes.insert(k.key_clone(), n);
        proof {
            assert(self.nodes_view() =~= old(self).nodes_view().insert(k@, nv));
            assert(self.claims_view() =~= old(self).claims_view());
            assert(self.cached_sets() =~= old(self).cached_sets());
        }
    }

    /// A copy of the node of `tx_hash`, if it is in the graph.
    pub fn get_node(&self, tx_hash: &TxHash) -> (r: Option<ConflictNode>)
        requires
            self.wf(),
        ensures
            match r {
                Some(n) => self.nodes_view().contains_key(tx_hash@) && n@ == self.nodes_view()[tx_hash@] && n.wf(),
                None => !self.nodes_view().contains_key(tx_hash@),
            },
    {
        match self.nodes.get(tx_hash) {
            Some(n) => Some(n.duplicate()),
            None => None,
        }
    }

    /// Whether `tx_hash` is in the graph and conflicts with some transaction.
    pub fn has_conflicts(&self, tx_hash: &TxHash) -> (b: bool)
        requires
            self.wf(),
        ensures
            b == (self.nodes_view().contains_key(tx_hash@)
                && self.nodes_view()[tx_hash@].conflicting_with != Set::<Seq<u8>>::empty()),
    {
        match self.nodes.get(tx_hash) {
            Some(n) => !n.conflicting_with.is_empty(),
            None => false,
        }
    }

    /// The transactions that `tx_hash` conflicts with, each once; none when
    /// it is not in the graph.
    pub fn get_conflicting_transactions(&self, tx_hash: &TxHash) -> (r: Vec<TxHash>)
        requires
            self.wf(),
        ensures
            key_views(r@).no_duplicates(),
            self.nodes_view().contains_key(tx_hash@) ==> key_views(r@).to_set() == self.nodes_view()[tx_hash@].conflicting_with,
            !self.nodes_view().contains_key(tx_hash@) ==> r@.len() == 0,
    {
        match self.nodes.get(tx_hash) {
            Some(n) => n.conflicting_with.to_vec(),
            None => Vec::new(),
        }
    }

    /// Records `parent` as a parent of `child` and, when the parent is in the
    /// graph, `child` as its child. Fails when `child` is not in the graph.
    pub fn add_dependency(&mut self, child: &TxHash, parent: &TxHash) -> (r: Result<(), String>)
        requires
            old(self).wf(),
        ensures
            final(self).wf(),
            r is Ok <==> old(self).nodes_view().contains_key(child@),
            r matches Err(e) ==> e@ == "Child transaction not found"@,
            r is Err ==> final(self).nodes_view() == old(self).nodes_view(),
            r is Ok ==> final(self).nodes_view() == linked(old(self).nodes_view(), child@, parent@),
            final(self).claims_view() == old(self).claims_view(),
            r is Err ==> final(self).cached_sets() == old(self).cached_sets(),
            r is Ok ==> final(self).cached_sets() == Map::<Seq<u8>, Set<Seq<u8>>>::empty() && final(self).cache_fresh(),
            old(self).cache_fresh() ==> final(self).cache_fresh(),
            final(self).stats_view() == old(self).stats_view(),
    {
        let cn = self.get_node(child);
        match cn {
            None => {
                return Err("Child transaction not found".to_string());
            },
            Some(mut n) => {
                n.parents.insert(parent.key_clone());
                self.put_node(child, n);
            },
        }
        let ghost mid = self.nodes_view();
        let pn = self.get_node(parent);
        match pn {
            Some(mut n) => {
                n.children.insert(child.key_clone());
                self.put_node(parent, n);
            },
            None => {},
        }
        proof {
            assert(self.nodes_view() =~~= linked(old(self).nodes_view(), child@, parent@));
        }
        self.drop_cached_sets();
        Ok(())
    }

    /// Descendants of `tx_hash` that have conflicts of their own, counted
    /// when `tx_hash` itself has conflicts.
    pub open spec fn transitive_count(&self, tx: Seq<u8>) -> nat {
        if has_conflict_in(self.nodes_view(), tx) {
            strict_descendants(self.child_graph(), tx).filter(|d: Seq<u8>| has_conflict_in(self.nodes_view(), d)).len()
        } else {
            0
        }
    }

    /// Adds `other` to the conflicts of the node of `k`, if present.
    fn add_conflict(&mut self, k: &TxHash, other: &TxHash)
        requires
            old(self).wf(),
        ensures
            final(self).wf(),
            old(self).nodes_view().contains_key(k@) ==> final(self).nodes_view()
                == old(self).nodes_view().insert(k@, with_conflict(old(self).nodes_view()[k@], other@)),
            !old(self).nodes_view().contains_key(k@) ==> final(self).nodes_view() == old(self).nodes_view(),
            final(self).claims_view() == old(self).claims_view(),
            final(self).cached_sets() == old(self).cached_sets(),
            final(self).stats == old(self).stats,
    {
        match self.get_node(k) {
            Some(mut n) => {
                let ghost before = n@;
                n.conflicting_with.insert(other.key_clone());
                proof {
                    assert(n@ =~~= with_conflict(before, other@));
                }
                self.put_node(k, n);
            },
            None => {},
        }
    }

    /// Adds to the transitive-conflict counter the descendants of `tx_hash`
    /// that have conflicts of their own, when `tx_hash` has conflicts.
    fn detect_transitive_conflicts(&mut self, tx_hash: &TxHash) -> (r: Result<(), String>)
        requires
            old(self).wf(),
        ensures
            final(self).wf(),
            r is Ok,
            final(self).nodes_view() == old(self).nodes_view(),
            final(self).claims_view() == old(self).claims_view(),
            final(self).cached_sets() == old(self).cached_sets(),
            final(self).stats == (ConflictGraphStats {
                transitive_conflicts: wrap_add(old(self).stats.transitive_conflicts, old(self).transitive_count(tx_hash@)),
                ..old(self).stats
            }),
    {
        let ghost m = self.nodes_view();
        let ghost p = |d: Seq<u8>| has_conflict_in(m, d);
        let ghost dset = strict_descendants(self.child_graph(), tx_hash@);
        let mut count: u64 = 0;
        if self.has_conflicts(tx_hash) {
            let desc = self.find_descendants(tx_hash);
            let ghost dv = key_views(desc@);
            proof {
                assert(dv.take(0) =~= Seq::<Seq<u8>>::empty());
                assert(dv.take(0).to_set().filter(p) =~= Set::<Seq<u8>>::empty());
            }
            let mut i: usize = 0;
            while i < desc.len()
                invariant
                    self.wf(),
                    m == self.nodes_view(),
                    p == (|d: Seq<u8>| has_conflict_in(m, d)),
                    dv == key_views(desc@),
                    dv.no_duplicates(),
                    i <= desc@.len(),
                    count <= i,
                    count == dv.take(i as int).to_set().filter(p).len(),
                decreases desc@.len() - i,
            {
                let ghost before = dv.take(i as int).to_set().filter(p);
                proof {
                    assert(dv.take(i + 1) =~= dv.take(i as int).push(dv[i as int]));
                    dv.take(i as int).lemma_push_to_set_commute(dv[i as int]);
                    assert(!dv.take(i as int).contains(dv[i as int])) by {
                        if dv.take(i as int).contains(dv[i as int]) {
                            let j = dv.take(i as int).index_of(dv[i as int]);
                            assert(dv[j] == dv[i as int]);
                        }
                    }
                    vstd::seq_lib::seq_to_set_is_finite(dv.take(i as int));
                }
                if self.has_conflicts(&desc[i]) {
                    proof {
                        assert(dv.take(i + 1).to_set().filter(p) =~= before.insert(dv[i as int]));
                    }
                    count = count + 1;
                } else {
                    proof {
                        assert(dv.take(i + 1).to_set().filter(p) =~= before);
                    }
                }
                i = i + 1;
            }
            proof {
                assert(dv.take(desc@.len() as int) =~= dv);
                assert(dset.filter(p) =~= dset.filter(|d: Seq<u8>| has_conflict_in(self.nodes_view(), d)));
            }
        } else {
            proof {
                assert(self.transitive_count(tx_hash@) == 0);
            }
        }
        proof {
            lemma_wrap_add_once(self.stats.transitive_conflicts, count);
        }
        self.stats.transitive_conflicts = self.stats.transitive_conflicts.wrapping_add(count);
        Ok(())
    }

    /// Registers `tx` under `tx_hash` with its fee and size, in place of any
    /// node already under that hash. Each input claims the outpoint given by
    /// the transaction it spends and its own position; every earlier claimant
    /// of such an outpoint is reported, in the order met, and recorded as in
    /// conflict with `tx_hash` both ways.
    pub fn register_transaction(&mut self, tx: &Transaction, tx_hash: &TxHash, fee: u64, size_bytes: usize) -> (r: Result<Vec<TxHash>, String>)
        requires
            old(self).wf(),
        ensures
            final(self).wf(),
            (r matches Ok(found) && key_views(found@) == met_claimants(old(self).claims_view(), tx@, tx_hash@, tx@.inputs.len())),
            final(self).claims_view() == claims_after(old(self).claims_view(), tx@, tx_hash@, tx@.inputs.len()),
            final(self).nodes_view() == registered(
                old(self).nodes_view(),
                tx_hash@,
                met_claimants(old(self).claims_view(), tx@, tx_hash@, tx@.inputs.len()).to_set(),
                fee,
                size_bytes,
            ),
            final(self).cached_sets() == Map::<Seq<u8>, Set<Seq<u8>>>::empty(),
            final(self).cache_fresh(),
            final(self).stats_view() == (ConflictGraphStats {
                total_nodes: wrap_add(old(self).stats_view().total_nodes, 1),
                total_conflicts: wrap_add(
                    old(self).stats_view().total_conflicts,
                    met_claimants(old(self).claims_view(), tx@, tx_hash@, tx@.inputs.len()).len(),
                ),
                ..old(self).stats_view()
            }),
    {
        let ghost c0 = self.claims_view();
        let ghost m0 = self.nodes_view();
        let ghost s0 = self.stats;
        let ghost txv = tx@;
        let ghost hv = tx_hash@;
        let node = ConflictNode::new(tx_hash.key_clone(), fee, size_bytes);
        self.put_node(tx_hash, node);
        proof {
            lemma_wrap_add_once(self.stats.total_nodes, 1);
            lemma_wrap_add_zero(self.stats.total_conflicts);
            assert(self.nodes_view() =~~= registered(m0, hv, Set::empty(), fee, size_bytes));
        }
        self.stats.total_nodes = self.stats.total_nodes.wrapping_add(1);
        let mut found: Vec<TxHash> = Vec::new();
        proof {
            assert(key_views(found@) =~= Seq::<Seq<u8>>::empty());
            assert(key_views(found@).to_set() =~= Set::<Seq<u8>>::empty());
        }
        let n = tx.inputs.len();
        let mut idx: usize = 0;
        while idx < n
            invariant
                self.wf(),
                txv == tx@,
                hv == tx_hash@,
                n == txv.inputs.len(),
                idx <= n,
                self.claims_view() == claims_after(c0, txv, hv, idx as nat),
                key_views(found@) == met_claimants(c0, txv, hv, idx as nat),
                self.nodes_view() == registered(m0, hv, key_views(found@).to_set(), fee, size_bytes),
                self.cached_sets() == old(self).cached_sets(),
                self.stats == (ConflictGraphStats {
                    total_nodes: wrap_add(s0.total_nodes, 1),
                    total_conflicts: wrap_add(s0.total_conflicts, found@.len()),
                    ..s0
                }),
            decreases n - idx,
        {
            let op = OutPoint::from_hash(&tx.inputs[idx].prev_tx, idx as u32);
            proof {
                assert(txv.inputs[idx as int] == tx.inputs@[idx as int]@);
                assert(op@ == input_outpoint(txv, idx as int));
            }
            let existing: Vec<TxHash> = match self.outpoint_index.get(&op) {
                Some(l) => copy_keys(l),
                None => Vec::new(),
            };
            let ghost ev = key_views(existing@);
            let ghost met0 = key_views(found@);
            proof {
                assert(ev == claimants_in(self.claims_view(), op@));
            }
            let mut j: usize = 0;
            while j < existing.len()
                invariant
                    self.wf(),
                    hv == tx_hash@,
                    ev == key_views(existing@),
                    j <= existing@.len(),
                    key_views(found@) == met0 + ev.take(j as int),
                    self.claims_view() == claims_after(c0, txv, hv, idx as nat),
                    self.nodes_view() == registered(m0, hv, key_views(found@).to_set(), fee, size_bytes),
                    self.cached_sets() == old(self).cached_sets(),
                    self.stats == (ConflictGraphStats {
                        total_nodes: wrap_add(s0.total_nodes, 1),
                        total_conflicts: wrap_add(s0.total_conflicts, found@.len()),
                        ..s0
                    }),
                decreases existing@.len() - j,
            {
                let ghost d = key_views(found@).to_set();
                let ghost e = existing@[j as int]@;
                let ghost flen = found@.len();
                found.push(existing[j].key_clone());
                proof {
                    assert(key_views(found@) =~= key_views(found@).drop_last().push(e));
                    assert(key_views(found@).drop_last() =~= met0 + ev.take(j as int));
                    assert(ev.take(j + 1) =~= ev.take(j as int).push(e));
                    assert(key_views(found@) =~= met0 + ev.take(j + 1));
                    key_views(found@).drop_last().lemma_push_to_set_commute(e);
                    assert(key_views(found@).to_set() =~= d.insert(e));
                }
                self.add_conflict(tx_hash, &existing[j]);
                self.add_conflict(&existing[j], tx_hash);
                proof {
                    assert(self.nodes_view() =~~= registered(m0, hv, d.insert(e), fee, size_bytes));
                    lemma_wrap_add_step(s0.total_conflicts, flen as nat);
                }
                self.stats.total_conflicts = self.stats.total_conflicts.wrapping_add(1);
                j = j + 1;
            }
            proof {
                assert(ev.take(existing@.len() as int) =~= ev);
            }
            let ghost cl = self.claims_view();
            push_to_list(&mut self.outpoint_index, op, tx_hash.key_clone());
            idx = idx + 1;
            proof {
                assert(self.claims_view() =~= cl.insert(input_outpoint(txv, idx - 1), claimants_in(cl, input_outpoint(txv, idx - 1)).push(hv)));
            }
        }
        proof {
            let g = self.child_graph();
            assert forall|b: Seq<u8>| !#[trigger] edge(g, hv, b) by {}
            lemma_no_successors(g, hv);
            assert(strict_descendants(g, hv).filter(|d: Seq<u8>| has_conflict_in(self.nodes_view(), d)) =~= Set::<Seq<u8>>::empty());
            lemma_wrap_add_zero(self.stats.transitive_conflicts);
        }
        let t = self.detect_transitive_conflicts(tx_hash);
        self.drop_cached_sets();
        match t {
            Ok(()) => Ok(found),
            Err(e) => Err(e),
        }
    }

    /// The conflict set of `tx_hash`: itself, its conflicts, its
    /// descendants and their conflicts. It is kept until the graph changes;
    /// every change forgets the kept sets, so the set always reflects the
    /// graph as it is.
    pub fn get_conflict_set(&mut self, tx_hash: &TxHash) -> (r: Result<KeySet<TxHash>, String>)
        requires
            old(self).wf(),
        ensures
            final(self).wf(),
            old(self).cache_fresh() ==> (r matches Ok(set)
                && set@ == conflict_closure(old(self).nodes_view(), old(self).child_graph(), tx_hash@)),
            old(self).cache_fresh() ==> final(self).cache_fresh(),
            (r matches Ok(set) && set.wf() && set@ == (if old(self).cached_sets().contains_key(tx_hash@) {
                old(self).cached_sets()[tx_hash@]
            } else {
                conflict_closure(old(self).nodes_view(), old(self).child_graph(), tx_hash@)
            })),
            final(self).cached_sets() == old(self).cached_sets().insert(tx_hash@, if old(self).cached_sets().contains_key(tx_hash@) {
                old(self).cached_sets()[tx_hash@]
            } else {
                conflict_closure(old(self).nodes_view(), old(self).child_graph(), tx_hash@)
            }),
            final(self).nodes_view() == old(self).nodes_view(),
            final(self).claims_view() == old(self).claims_view(),
            final(self).stats_view() == old(self).stats_view(),
    {
        match self.conflict_sets.get(tx_hash) {
            Some(c) => {
                let kept = c.duplicate();
                proof {
                    assert(self.cached_sets() =~= old(self).cached_sets().insert(tx_hash@, kept@));
                    assert(old(self).cached_sets().contains_key(tx_hash@));
                    assert(kept@ == old(self).cached_sets()[tx_hash@]);
                }
                return Ok(kept);
            },
            None => {},
        }
        let ghost m = self.nodes_view();
        let ghost hv = tx_hash@;
        let mut set: KeySet<TxHash> = KeySet::new();
        set.insert(tx_hash.key_clone());
        match self.nodes.get(tx_hash) {
            Some(node) => {
                insert_all(&mut set, &node.conflicting_with);
                let desc = self.find_descendants(tx_hash);
                let ghost dv = key_views(desc@);
                let ghost base = set![hv] + m[hv].conflicting_with;
                proof {
                    assert(dv.take(0).to_set() =~= Set::<Seq<u8>>::empty());
                    assert(conflicts_of(m, Set::empty()) =~= Set::<Seq<u8>>::empty());
                    assert(set@ =~= base + dv.take(0).to_set() + conflicts_of(m, dv.take(0).to_set()));
                }
                let mut i: usize = 0;
                while i < desc.len()
                    invariant
                        self.wf(),
                        m == self.nodes_view(),
                        set.wf(),
                        dv == key_views(desc@),
                        i <= desc@.len(),
                        set@ == base + dv.take(i as int).to_set() + conflicts_of(m, dv.take(i as int).to_set()),
                    decreases desc@.len() - i,
                {
                    let ghost s0 = dv.take(i as int).to_set();
                    let ghost y = dv[i as int];
                    proof {
                        assert(dv.take(i + 1) =~= dv.take(i as int).push(y));
                        dv.take(i as int).lemma_push_to_set_commute(y);
                    }
                    set.insert(desc[i].key_clone());
                    match self.nodes.get(&desc[i]) {
                        Some(dn) => {
                            insert_all(&mut set, &dn.conflicting_with);
                            proof {
                                assert(conflicts_of(m, s0.insert(y)) =~= conflicts_of(m, s0) + m[y].conflicting_with);
                            }
                        },
                        None => {
                            proof {
                                assert(conflicts_of(m, s0.insert(y)) =~= conflicts_of(m, s0));
                            }
                        },
                    }
                    i = i + 1;
                    proof {
                        assert(set@ =~= base + dv.take(i as int).to_set() + conflicts_of(m, dv.take(i as int).to_set()));
                    }
                }
                proof {
                    assert(dv.take(desc@.len() as int) =~= dv);
                }
            },
            None => {
                proof {
                    assert(set@ =~= set![hv]);
                }
            },
        }
        let kept = set.duplicate();
        let ghost sv = set@;
        self.conflict_sets.insert(tx_hash.key_clone(), kept);
        proof {
            assert(sv == conflict_closure(old(self).nodes_view(), old(self).child_graph(), hv));
            assert(self.cached_sets() =~= old(self).cached_sets().insert(hv, sv));
            assert(self.nodes_view() =~= old(self).nodes_view());
            assert(self.claims_view() =~= old(self).claims_view());
        }
        Ok(set)
    }

    /// Marks `tx_hash` and its descendants high-risk; reports those that were
    /// in the graph and not yet high-risk, each once, `tx_hash` first.
    pub fn mark_high_risk(&mut self, tx_hash: &TxHash) -> (r: Result<Vec<TxHash>, String>)
        requires
            old(self).wf(),
        ensures
            final(self).wf(),
            (r matches Ok(list) && key_views(list@).no_duplicates()
                && key_views(list@).to_set() == newly_marked(
                    old(self).nodes_view(), strict_descendants(old(self).child_graph(), tx_hash@).insert(tx_hash@))
                && (unmarked(old(self).nodes_view(), tx_hash@) ==> key_views(list@)[0] == tx_hash@)),
            final(self).nodes_view() == marked_all(
                old(self).nodes_view(), strict_descendants(old(self).child_graph(), tx_hash@).insert(tx_hash@)),
            final(self).claims_view() == old(self).claims_view(),
            final(self).cached_sets() == Map::<Seq<u8>, Set<Seq<u8>>>::empty(),
            final(self).cache_fresh(),
            final(self).stats_view() == (ConflictGraphStats {
                high_risk_transactions: wrap_add(
                    old(self).stats_view().high_risk_transactions,
                    newly_marked(old(self).nodes_view(), strict_descendants(old(self).child_graph(), tx_hash@).insert(tx_hash@)).len(),
                ),
                ..old(self).stats_view()
            }),
    {
        let ghost m0 = self.nodes_view();
        let ghost g0 = self.child_graph();
        let ghost hv = tx_hash@;
        let ghost s0 = self.stats;
        let mut list: Vec<TxHash> = Vec::new();
        match self.get_node(tx_hash) {
            Some(mut n) => {
                if !n.is_high_risk {
                    n.is_high_risk = true;
                    self.put_node(tx_hash, n);
                    list.push(tx_hash.key_clone());
                    proof {
                        assert(key_views(list@) =~= seq![hv]);
                        assert(key_views(list@)[0] == hv);
                        assert(key_views(list@).to_set() =~= set![hv]);
                        lemma_wrap_add_step(s0.high_risk_transactions, 0);
                        lemma_wrap_add_zero(s0.high_risk_transactions);
                    }
                    self.stats.high_risk_transactions = self.stats.high_risk_transactions.wrapping_add(1);
                } else {
                    proof {
                        lemma_wrap_add_zero(s0.high_risk_transactions);
                    }
                }
            },
            None => {
                proof {
                    lemma_wrap_add_zero(s0.high_risk_transactions);
                }
            },
        }
        proof {
            assert(self.nodes_view() =~~= marked_all(m0, set![hv]));
            assert(self.child_graph() =~= g0);
            if list@.len() == 0 {
                assert(key_views(list@) =~= Seq::<Seq<u8>>::empty());
            }
            assert(key_views(list@).to_set() =~= newly_marked(m0, set![hv]));
        }
        let desc = self.find_descendants(tx_hash);
        let ghost dv = key_views(desc@);
        proof {
            assert(dv.take(0).to_set() =~= Set::<Seq<u8>>::empty());
            assert(set![hv] + dv.take(0).to_set() =~= set![hv]);
        }
        let mut i: usize = 0;
        while i < desc.len()
            invariant
                self.wf(),
                hv == tx_hash@,
                dv == key_views(desc@),
                dv.no_duplicates(),
                dv.to_set() == strict_descendants(g0, hv),
                i <= desc@.len(),
                self.nodes_view() == marked_all(m0, set![hv] + dv.take(i as int).to_set()),
                key_views(list@).no_duplicates(),
                key_views(list@).to_set() == newly_marked(m0, set![hv] + dv.take(i as int).to_set()),
                unmarked(m0, hv) ==> list@.len() >= 1 && key_views(list@)[0] == hv,
                self.claims_view() == old(self).claims_view(),
                self.cached_sets() == old(self).cached_sets(),
                self.stats == (ConflictGraphStats {
                    high_risk_transactions: wrap_add(s0.high_risk_transactions, list@.len() as nat),
                    ..s0
                }),
            decreases desc@.len() - i,
        {
            let ghost t0 = set![hv] + dv.take(i as int).to_set();
            let ghost y = dv[i as int];
            let ghost lv = key_views(list@);
            let ghost llen = list@.len();
            proof {
                assert(dv.take(i + 1) =~= dv.take(i as int).push(y));
                dv.take(i as int).lemma_push_to_set_commute(y);
                assert(set![hv] + dv.take(i + 1).to_set() =~= t0.insert(y));
                assert(dv.to_set().contains(y));
                assert(y != hv);
                assert(!dv.take(i as int).contains(y)) by {
                    if dv.take(i as int).contains(y) {
                        let j = dv.take(i as int).index_of(y);
                        assert(dv[j] == y);
                    }
                }
                assert(!t0.contains(y));
            }
            match self.get_node(&desc[i]) {
                Some(mut dn) => {
                    if !dn.is_high_risk {
                        dn.is_high_risk = true;
                        self.put_node(&desc[i], dn);
                        list.push(desc[i].key_clone());
                        proof {
                            assert(key_views(list@) =~= lv.push(y));
                            lv.lemma_push_to_set_commute(y);
                            assert(!lv.contains(y)) by {
                                if lv.contains(y) {
                                    assert(lv.to_set().contains(y));
                                }
                            }
                            assert(key_views(list@).no_duplicates()) by {
                                let nv = key_views(list@);
                                assert forall|a: int, b: int| 0 <= a < nv.len() && 0 <= b < nv.len() && a != b implies nv[a] != nv[b] by {
                                    if a < lv.len() && b < lv.len() {
                                        assert(nv[a] == lv[a] && nv[b] == lv[b]);
                                    } else if a < lv.len() {
                                        assert(nv[a] == lv[a]);
                                        assert(lv.contains(lv[a]));
                                    } else if b < lv.len() {
                                        assert(nv[b] == lv[b]);
                                        assert(lv.contains(lv[b]));
                                    }
                                }
                            }
                            assert(key_views(list@).to_set() =~= newly_marked(m0, t0.insert(y)));
                            assert(self.nodes_view() =~~= marked_all(m0, t0.insert(y)));
                            lemma_wrap_add_step(s0.high_risk_transactions, llen as nat);
                            if unmarked(m0, hv) {
                                assert(key_views(list@)[0] == lv[0]);
                            }
                        }
                        self.stats.high_risk_transactions = self.stats.high_risk_transactions.wrapping_add(1);
                    } else {
                        proof {
                            assert(key_views(list@).to_set() =~= newly_marked(m0, t0.insert(y)));
                            assert(self.nodes_view() =~~= marked_all(m0, t0.insert(y)));
                        }
                    }
                },
                None => {
                    proof {
                        assert(key_views(list@).to_set() =~= newly_marked(m0, t0.insert(y)));
                        assert(self.nodes_view() =~~= marked_all(m0, t0.insert(y)));
                    }
                },
            }
            i = i + 1;
        }
        proof {
            assert(dv.take(desc@.len() as int) =~= dv);
            assert(set![hv] + dv.to_set() =~= strict_descendants(g0, hv).insert(hv));
            key_views(list@).unique_seq_to_set();
        }
        self.drop_cached_sets();
        Ok(list)
    }

    /// Removes `t` from the children of each listed node in the graph.
    fn drop_child_links(&mut self, owners: &Vec<TxHash>, t: &TxHash)
        requires
            old(self).wf(),
        ensures
            final(self).wf(),
            final(self).nodes_view() == Map::new(
                |k: Seq<u8>| old(self).nodes_view().contains_key(k),
                |k: Seq<u8>| if key_views(owners@).contains(k) {
                    without_children(old(self).nodes_view()[k], set![t@])
                } else {
                    old(self).nodes_view()[k]
                },
            ),
            final(self).claims_view() == old(self).claims_view(),
            final(self).cached_sets() == old(self).cached_sets(),
            final(self).stats == old(self).stats,
    {
        let ghost m0 = self.nodes_view();
        let ghost ov = key_views(owners@);
        let mut i: usize = 0;
        proof {
            assert(self.nodes_view() =~~= Map::new(
                |k: Seq<u8>| m0.contains_key(k),
                |k: Seq<u8>| if ov.take(0).contains(k) { without_children(m0[k], set![t@]) } else { m0[k] },
            ));
        }
        while i < owners.len()
            invariant
                self.wf(),
                ov == key_views(owners@),
                i <= owners@.len(),
                self.nodes_view() == Map::new(
                    |k: Seq<u8>| m0.contains_key(k),
                    |k: Seq<u8>| if ov.take(i as int).contains(k) { without_children(m0[k], set![t@]) } else { m0[k] },
                ),
                self.claims_view() == old(self).claims_view(),
                self.cached_sets() == old(self).cached_sets(),
                self.stats == old(self).stats,
            decreases owners@.len() - i,
        {
            let ghost y = ov[i as int];
            proof {
                lemma_take_one_more(ov, i as int);
            }
            match self.get_node(&owners[i]) {
                Some(mut n) => {
                    let ghost before = n@;
                    n.children.remove(t);
                    proof {
                        assert(n@ =~~= without_children(before, set![t@]));
                        assert(without_children(without_children(m0[y], set![t@]), set![t@]) =~~= without_children(m0[y], set![t@]));
                    }
                    self.put_node(&owners[i], n);
                },
                None => {},
            }
            i = i + 1;
            proof {
                assert(self.nodes_view() =~~= Map::new(
                    |k: Seq<u8>| m0.contains_key(k),
                    |k: Seq<u8>| if ov.take(i as int).contains(k) { without_children(m0[k], set![t@]) } else { m0[k] },
                ));
            }
        }
        proof {
            assert(ov.take(owners@.len() as int) =~= ov);
        }
    }

    /// Removes `t` from the parents of each listed node in the graph.
    fn drop_parent_links(&mut self, owners: &Vec<TxHash>, t: &TxHash)
        requires
            old(self).wf(),
        ensures
            final(self).wf(),
            final(self).nodes_view() == Map::new(
                |k: Seq<u8>| old(self).nodes_view().contains_key(k),
                |k: Seq<u8>| if key_views(owners@).contains(k) {
                    without_parents(old(self).nodes_view()[k], set![t@])
                } else {
                    old(self).nodes_view()[k]
                },
            ),
            final(self).claims_view() == old(self).claims_view(),
            final(self).cached_sets() == old(self).cached_sets(),
            final(self).stats == old(self).stats,
    {
        let ghost m0 = self.nodes_view();
        let ghost ov = key_views(owners@);
        let mut i: usize = 0;
        proof {
            assert(self.nodes_view() =~~= Map::new(
                |k: Seq<u8>| m0.contains_key(k),
                |k: Seq<u8>| if ov.take(0).contains(k) { without_parents(m0[k], set![t@]) } else { m0[k] },
            ));
        }
        while i < owners.len()
            invariant
                self.wf(),
                ov == key_views(owners@),
                i <= owners@.len(),
                self.nodes_view() == Map::new(
                    |k: Seq<u8>| m0.contains_key(k),
                    |k: Seq<u8>| if ov.take(i as int).contains(k) { without_parents(m0[k], set![t@]) } else { m0[k] },
                ),
                self.claims_view() == old(self).claims_view(),
                self.cached_sets() == old(self).cached_sets(),
                self.stats == old(self).stats,
            decreases owners@.len() - i,
        {
            let ghost y = ov[i as int];
            proof {
                lemma_take_one_more(ov, i as int);
            }
            match self.get_node(&owners[i]) {
                Some(mut n) => {
                    let ghost before = n@;
                    n.parents.remove(t);
                    proof {
                        assert(n@ =~~= without_parents(before, set![t@]));
                        assert(without_parents(without_parents(m0[y], set![t@]), set![t@]) =~~= without_parents(m0[y], set![t@]));
                    }
                    self.put_node(&owners[i], n);
                },
                None => {},
            }
            i = i + 1;
            proof {
                assert(self.nodes_view() =~~= Map::new(
                    |k: Seq<u8>| m0.contains_key(k),
                    |k: Seq<u8>| if ov.take(i as int).contains(k) { without_parents(m0[k], set![t@]) } else { m0[k] },
                ));
            }
        }
        proof {
            assert(ov.take(owners@.len() as int) =~= ov);
        }
    }

    /// Drops the members of `gone` from every claimant list, and the
    /// outpoints left without claimants.
    fn prune_claims(&mut self, gone: &KeySet<TxHash>)
        requires
            old(self).wf(),
            gone.wf(),
        ensures
            final(self).wf(),
            final(self).claims_view() == claims_without(old(self).claims_view(), gone@),
            final(self).nodes_view() == old(self).nodes_view(),
            final(self).cached_sets() == old(self).cached_sets(),
            final(self).stats == old(self).stats,
    {
        let ghost c0 = self.claims_view();
        let ghost ks = self.outpoint_index.key_seq();
        let ghost keep = |t: Seq<u8>| !gone@.contains(t);
        proof {
            self.outpoint_index.lemma_view();
        }
        let mut fresh: KeyMap<OutPoint, Vec<TxHash>> = KeyMap::new();
        let n = self.outpoint_index.len();
        let mut i: usize = 0;
        while i < n
            invariant
                self.wf(),
                gone.wf(),
                c0 == self.claims_view(),
                ks == self.outpoint_index.key_seq(),
                ks.no_duplicates(),
                ks.to_set() == self.outpoint_index@.dom(),
                n == ks.len(),
                i <= n,
                keep == (|t: Seq<u8>| !gone@.contains(t)),
                fresh.wf(),
                fresh@.dom() == Set::new(|op: (Seq<u8>, u32)| ks.take(i as int).contains(op) && c0[op].filter(keep).len() > 0),
                forall|op: (Seq<u8>, u32)| #[trigger] fresh@.contains_key(op) ==> key_views(fresh@[op]@) == c0[op].filter(keep),
            decreases n - i,
        {
            let ghost op = ks[i as int];
            proof {
                lemma_take_one_more(ks, i as int);
                assert(self.outpoint_index@.contains_key(op));
                assert(!ks.take(i as int).contains(op)) by {
                    if ks.take(i as int).contains(op) {
                        let j = ks.take(i as int).index_of(op);
                        assert(ks[j] == op);
                    }
                }
            }
            let kept = retain_keys_not_in(self.outpoint_index.value_at(i), gone);
            proof {
                assert(key_views(kept@) == c0[op].filter(keep));
            }
            if kept.len() > 0 {
                let k = self.outpoint_index.key_at(i).key_clone();
                fresh.insert(k, kept);
            }
            i = i + 1;
            proof {
                assert(fresh@.dom() =~= Set::new(|op: (Seq<u8>, u32)| ks.take(i as int).contains(op) && c0[op].filter(keep).len() > 0));
            }
        }
        self.outpoint_index = fresh;
        proof {
            assert(ks.take(n as int) =~= ks);
            assert(self.claims_view() =~= claims_without(c0, gone@));
            assert(self.nodes_view() =~= old(self).nodes_view());
        }
    }

    /// Removes `tx_hash` and all its descendants, `tx_hash` first; unlinks
    /// them from the children of the nodes they named as parents, drops them
    /// from every claimant list and from the kept conflict sets.
    pub fn remove_and_cascade(&mut self, tx_hash: &TxHash) -> (r: Result<Vec<TxHash>, String>)
        requires
            old(self).wf(),
        ensures
            final(self).wf(),
            (r matches Ok(removed) && key_views(removed@).len() >= 1 && key_views(removed@)[0] == tx_hash@
                && key_views(removed@).no_duplicates()
                && key_views(removed@).to_set() == strict_descendants(old(self).child_graph(), tx_hash@).insert(tx_hash@)),
            final(self).nodes_view() == after_cascade(
                old(self).nodes_view(), strict_descendants(old(self).child_graph(), tx_hash@).insert(tx_hash@)),
            final(self).claims_view() == claims_without(
                old(self).claims_view(), strict_descendants(old(self).child_graph(), tx_hash@).insert(tx_hash@)),
            final(self).cached_sets() == Map::<Seq<u8>, Set<Seq<u8>>>::empty(),
            final(self).cache_fresh(),
            final(self).stats_view() == (ConflictGraphStats {
                total_nodes: if old(self).stats_view().total_nodes >= strict_descendants(old(self).child_graph(), tx_hash@).insert(tx_hash@).len() {
                    (old(self).stats_view().total_nodes - strict_descendants(old(self).child_graph(), tx_hash@).insert(tx_hash@).len()) as u64
                } else {
                    0
                },
                ..old(self).stats_view()
            }),
    {
        let ghost m0 = self.nodes_view();
        let ghost g0 = self.child_graph();
        let ghost hv = tx_hash@;
        let ghost cascade = strict_descendants(g0, hv).insert(hv);
        let desc = self.find_descendants(tx_hash);
        let ghost dv = key_views(desc@);
        let mut removed: Vec<TxHash> = Vec::new();
        removed.push(tx_hash.key_clone());
        let mut i: usize = 0;
        while i < desc.len()
            invariant
                dv == key_views(desc@),
                i <= desc@.len(),
                key_views(removed@) == seq![hv] + dv.take(i as int),
            decreases desc@.len() - i,
        {
            let ghost before = key_views(removed@);
            removed.push(desc[i].key_clone());
            proof {
                assert(key_views(removed@) =~= before.push(dv[i as int]));
                assert(dv.take(i + 1) =~= dv.take(i as int).push(dv[i as int]));
            }
            i = i + 1;
            proof {
                assert(key_views(removed@) =~= seq![hv] + dv.take(i as int));
            }
        }
        let ghost rv = key_views(removed@);
        proof {
            assert(dv.take(desc@.len() as int) =~= dv);
            assert(rv =~= seq![hv] + dv);
            assert(rv[0] == hv);
            assert(!dv.contains(hv)) by {
                if dv.contains(hv) {
                    assert(dv.to_set().contains(hv));
                }
            }
            assert(rv.no_duplicates()) by {
                assert forall|a: int, b: int| 0 <= a < rv.len() && 0 <= b < rv.len() && a != b implies rv[a] != rv[b] by {
                    if a > 0 && b > 0 {
                        assert(rv[a] == dv[a - 1] && rv[b] == dv[b - 1]);
                    } else if a == 0 {
                        assert(rv[b] == dv[b - 1]);
                        assert(dv.contains(dv[b - 1]));
                    } else {
                        assert(rv[a] == dv[a - 1]);
                        assert(dv.contains(dv[a - 1]));
                    }
                }
            }
            assert(rv.to_set() =~= cascade) by {
                assert forall|x: Seq<u8>| rv.to_set().contains(x) implies cascade.contains(x) by {
                    let j = rv.index_of(x);
                    if j > 0 {
                        assert(dv[j - 1] == x);
                        assert(dv.to_set().contains(x));
                    }
                }
                assert forall|x: Seq<u8>| cascade.contains(x) implies rv.to_set().contains(x) by {
                    if x == hv {
                        assert(rv[0] == x);
                    } else {
                        assert(dv.to_set().contains(x));
                        let j = dv.index_of(x);
                        assert(rv[j + 1] == x);
                    }
                }
            }
        }

        // What each removed node was linked to, taken before any removal.
        let mut rel_tx: Vec<TxHash> = Vec::new();
        let mut rel_parents: Vec<Vec<TxHash>> = Vec::new();
        let mut rel_children: Vec<Vec<TxHash>> = Vec::new();
        let mut i: usize = 0;
        proof {
            assert(key_views(rel_tx@).to_set() =~= Set::new(|t: Seq<u8>| rv.take(0).contains(t) && m0.contains_key(t)));
        }
        while i < removed.len()
            invariant
                self.wf(),
                m0 == self.nodes_view(),
                rv == key_views(removed@),
                i <= removed@.len(),
                rel_tx@.len() == rel_parents@.len(),
                rel_tx@.len() == rel_children@.len(),
                forall|j: int| 0 <= j < rel_tx@.len() ==> m0.contains_key(#[trigger] rel_tx@[j]@)
                    && key_views(rel_parents@[j]@).to_set() == m0[rel_tx@[j]@].parents
                    && key_views(rel_children@[j]@).to_set() == m0[rel_tx@[j]@].children,
                key_views(rel_tx@).to_set() == Set::new(|t: Seq<u8>| rv.take(i as int).contains(t) && m0.contains_key(t)),
            decreases removed@.len() - i,
        {
            proof {
                lemma_take_one_more(rv, i as int);
            }
            let ghost before = key_views(rel_tx@);
            match self.nodes.get(&removed[i]) {
                Some(n) => {
                    rel_tx.push(removed[i].key_clone());
                    rel_parents.push(n.parents.to_vec());
                    rel_children.push(n.children.to_vec());
                    proof {
                        assert(key_views(rel_tx@) =~= before.push(rv[i as int]));
                        before.lemma_push_to_set_commute(rv[i as int]);
                        assert(rel_tx@[rel_tx@.len() - 1]@ == rv[i as int]);
                    }
                },
                None => {},
            }
            i = i + 1;
            proof {
                assert(key_views(rel_tx@).to_set() =~= Set::new(|t: Seq<u8>| rv.take(i as int).contains(t) && m0.contains_key(t)));
            }
        }
        let ghost rtv = key_views(rel_tx@);
        proof {
            assert(rv.take(removed@.len() as int) =~= rv);
            assert forall|j: int, c: Seq<u8>| 0 <= j < rel_tx@.len() && #[trigger] key_views(rel_children@[j]@).contains(c)
                implies cascade.contains(c) by {
                let t = rel_tx@[j]@;
                assert(rtv[j] == t);
                assert(rtv.to_set().contains(t));
                assert(rv.contains(t));
                assert(key_views(rel_children@[j]@).to_set().contains(c));
                assert(edge(g0, t, c));
                lemma_descendants_closed(g0, hv, t, c);
            }
        }

        // Take the removed transactions out.
        let mut i: usize = 0;
        proof {
            assert(rv.take(0).to_set() =~= Set::<Seq<u8>>::empty());
            assert(self.nodes_view() =~= m0.remove_keys(rv.take(0).to_set()));
        }
        while i < removed.len()
            invariant
                self.wf(),
                rv == key_views(removed@),
                i <= removed@.len(),
                self.nodes_view() == m0.remove_keys(rv.take(i as int).to_set()),
                self.claims_view() == old(self).claims_view(),
                self.stats == old(self).stats,
            decreases removed@.len() - i,
        {
            proof {
                assert(rv.take(i + 1) =~= rv.take(i as int).push(rv[i as int]));
                rv.take(i as int).lemma_push_to_set_commute(rv[i as int]);
            }
            let ghost bn = self.nodes_view();
            let ghost x = rv[i as int];
            self.nodes.remove(&removed[i]);
            proof {
                assert(self.nodes_view() =~= bn.remove(x));
            }
            i = i + 1;
            proof {
                assert(rv.take(i as int).to_set() == rv.take(i - 1).to_set().insert(x));
                assert(self.nodes_view() =~= m0.remove_keys(rv.take(i as int).to_set()));
                assert(self.claims_view() =~= old(self).claims_view());
            }
        }
        proof {
            assert(rv.take(removed@.len() as int) =~= rv);
            assert(self.nodes_view() =~~= Map::new(
                |k: Seq<u8>| m0.contains_key(k) && !cascade.contains(k),
                |k: Seq<u8>| without_children(m0[k], Set::new(|t: Seq<u8>| rtv.take(0).contains(t) && m0.contains_key(t) && m0[t].parents.contains(k))),
            ));
        }

        // Unlink them from the nodes that stay.
        let mut j: usize = 0;
        while j < rel_tx.len()
            invariant
                self.wf(),
                rtv == key_views(rel_tx@),
                rel_tx@.len() == rel_parents@.len(),
                rel_tx@.len() == rel_children@.len(),
                forall|q: int| 0 <= q < rel_tx@.len() ==> m0.contains_key(#[trigger] rel_tx@[q]@)
                    && key_views(rel_parents@[q]@).to_set() == m0[rel_tx@[q]@].parents
                    && key_views(rel_children@[q]@).to_set() == m0[rel_tx@[q]@].children,
                forall|q: int, c: Seq<u8>| 0 <= q < rel_tx@.len() && #[trigger] key_views(rel_children@[q]@).contains(c)
                    ==> cascade.contains(c),
                j <= rel_tx@.len(),
                self.nodes_view() == Map::new(
                    |k: Seq<u8>| m0.contains_key(k) && !cascade.contains(k),
                    |k: Seq<u8>| without_children(m0[k], Set::new(|t: Seq<u8>| rtv.take(j as int).contains(t) && m0.contains_key(t) && m0[t].parents.contains(k))),
                ),
                self.claims_view() == old(self).claims_view(),
                self.stats == old(self).stats,
            decreases rel_tx@.len() - j,
        {
            let ghost t = rtv[j as int];
            let ghost pv = key_views(rel_parents@[j as int]@);
            proof {
                lemma_take_one_more(rtv, j as int);
                assert(rel_tx@[j as int]@ == t);
                assert forall|k: Seq<u8>| #![auto] pv.contains(k) <==> m0[t].parents.contains(k) by {
                    assert(pv.to_set().contains(k) == pv.contains(k));
                }
            }
            self.drop_child_links(&rel_parents[j], &rel_tx[j]);
            let ghost mid = self.nodes_view();
            self.drop_parent_links(&rel_children[j], &rel_tx[j]);
            proof {
                assert forall|k: Seq<u8>| mid.contains_key(k) implies !key_views(rel_children@[j as int]@).contains(k) by {
                    if key_views(rel_children@[j as int]@).contains(k) {
                        assert(cascade.contains(k));
                    }
                }
                assert(self.nodes_view() =~~= mid);
            }
            j = j + 1;
            proof {
                assert(self.nodes_view() =~~= Map::new(
                    |k: Seq<u8>| m0.contains_key(k) && !cascade.contains(k),
                    |k: Seq<u8>| without_children(m0[k], Set::new(|t: Seq<u8>| rtv.take(j as int).contains(t) && m0.contains_key(t) && m0[t].parents.contains(k))),
                ));
            }
        }
        proof {
            assert(rtv.take(rel_tx@.len() as int) =~= rtv);
            assert forall|t: Seq<u8>| #![auto] rtv.contains(t) <==> (cascade.contains(t) && m0.contains_key(t)) by {
                assert(rtv.to_set().contains(t) == rtv.contains(t));
                assert(rv.to_set().contains(t) == rv.contains(t));
            }
            assert(self.nodes_view() =~~= after_cascade(m0, cascade));
        }

        let gone = key_set_of(&removed);
        self.prune_claims(&gone);
        proof {
            rv.unique_seq_to_set();
        }
        self.stats.total_nodes = self.stats.total_nodes.saturating_sub(removed.len() as u64);
        self.drop_cached_sets();
        Ok(removed)
    }

    /// The counters.
    pub fn get_stats(&self) -> (s: ConflictGraphStats)
        ensures
            s == self.stats_view(),
    {
        self.stats
    }

    /// Empties the graph and resets the counters.
    pub fn clear(&mut self)
        ensures
            final(self).wf(),
            final(self).nodes_view() == Map::<Seq<u8>, NodeView>::empty(),
            final(self).claims_view() == Map::<(Seq<u8>, u32), Seq<Seq<u8>>>::empty(),
            final(self).cached_sets() == Map::<Seq<u8>, Set<Seq<u8>>>::empty(),
            final(self).cache_fresh(),
            final(self).stats_view() == ConflictGraphStats::spec_zero(),
    {
        self.outpoint_index.clear();
        self.nodes.clear();
        self.conflict_sets.clear();
        self.stats = ConflictGraphStats::default();
        proof {
            assert(self.nodes_view() =~= Map::<Seq<u8>, NodeView>::empty());
            assert(self.claims_view() =~= Map::<(Seq<u8>, u32), Seq<Seq<u8>>>::empty());
            assert(self.cached_sets() =~= Map::<Seq<u8>, Set<Seq<u8>>>::empty());
        }
    }

    /// Number of transactions in the graph.
    pub fn node_count(&self) -> (n: usize)
        requires
            self.wf(),
        ensures
            n == self.nodes_view().len(),
    {
        proof {
            assert(self.nodes_view().dom() =~= self.nodes@.dom());
        }
        self.nodes.len()
    }

    /// Whether the graph holds no transaction.
    pub fn is_empty(&self) -> (b: bool)
        requires
            self.wf(),
        ensures
            b == (self.nodes_view() == Map::<Seq<u8>, NodeView>::empty()),
    {
        let b = self.nodes.is_empty();
        proof {
            self.nodes.lemma_view();
            assert(self.nodes_view().dom() =~= self.nodes@.dom());
            if b {
                assert(self.nodes_view() =~= Map::<Seq<u8>, NodeView>::empty());
            } else {
                let k = self.nodes@.dom().choose();
                assert(self.nodes@.dom().contains(k));
                assert(self.nodes_view().contains_key(k));
            }
        }
        b
    }

    /// Every transaction reachable from `tx_hash` through child links, other
    /// than `tx_hash` itself, each once.
    fn find_descendants(&self, tx_hash: &TxHash) -> (r: Vec<TxHash>)
        requires
            self.wf(),
        ensures
            key_views(r@).no_duplicates(),
            key_views(r@).to_set() == strict_descendants(self.child_graph(), tx_hash@),
    {
        let order = reach_order(&self.nodes, tx_hash);
        let ghost ov = key_views(order@);
        let ghost g = self.child_graph();
        let ghost h = tx_hash@;
        proof {
            assert(g =~= link_graph::<TxHash, ConflictNode>(self.nodes@));
        }
        let mut r: Vec<TxHash> = Vec::new();
        let mut i: usize = 1;
        while i < order.len()
            invariant
                ov == key_views(order@),
                1 <= i <= order@.len(),
                key_views(r@) == ov.subrange(1, i as int),
            decreases order@.len() - i,
        {
            let ghost prev = key_views(r@);
            r.push(order[i].key_clone());
            i = i + 1;
            proof {
                assert(key_views(r@) =~= prev.push(ov[i - 1]));
                assert(key_views(r@) =~= ov.subrange(1, i as int));
            }
        }
        proof {
            let dv = key_views(r@);
            assert forall|a: int, b: int| 0 <= a < dv.len() && 0 <= b < dv.len() && a != b implies dv[a] != dv[b] by {
                assert(dv[a] == ov[a + 1]);
                assert(dv[b] == ov[b + 1]);
            }
            let d = strict_descendants(g, h);
            assert forall|x: Seq<u8>| dv.to_set().contains(x) <==> d.contains(x) by {
                if dv.contains(x) {
                    let j = dv.index_of(x);
                    assert(ov[j + 1] == x);
                    assert(ov.to_set().contains(x));
                    assert(x != h) by {
                        assert(ov[0] == h);
                    }
                }
                if d.contains(x) {
                    assert(ov.to_set().contains(x));
                    let j = ov.index_of(x);
                    assert(ov[j] == x);
                    if j == 0 {
                        assert(x == h);
                        assert(!d.contains(h));
                    }
                    assert(dv[j - 1] == x);
                }
            }
            assert(dv.to_set() =~= d);
        }
        r
    }
}

} // verus!

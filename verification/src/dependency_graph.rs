//! Dependencies between transactions and the partitions they form, through
//! which a conflict spreads to every related transaction.

use vstd::prelude::*;
use crate::advanced_conflicts::TxHash;
use crate::counter::{wrap_add, lemma_wrap_add_once};
use crate::keyed::{KeyMap, KeySet, KeyOps, key_views};
use crate::reach::strict_descendants;
use crate::walk::{ChildLinks, link_graph, reach_order};

verus! {

/// A transaction's place among the dependencies.
pub struct DependencyView {
    pub parents: Set<Seq<u8>>,
    pub children: Set<Seq<u8>>,
    pub in_conflict: bool,
    pub conflict_reason: Option<Seq<char>>,
}

/// A partition as a set of transactions with its conflict status.
pub struct PartitionView {
    pub transactions: Set<Seq<u8>>,
    pub in_conflict: bool,
    pub conflict_reason: Option<Seq<char>>,
    pub id: u64,
}

/// The contents of a dependency graph.
pub struct DependencyGraphView {
    pub dependencies: Map<Seq<u8>, DependencyView>,
    pub partitions: Map<Seq<u8>, u64>,
    pub partition_data: Map<u64, PartitionView>,
    pub stats: DependencyGraphStats,
    pub next_partition_id: u64,
}

pub open spec fn reason_view(r: Option<String>) -> Option<Seq<char>> {
    match r {
        Some(s) => Some(s@),
        None => None,
    }
}

fn copy_reason(r: &Option<String>) -> (c: Option<String>)
    ensures
        reason_view(c) == reason_view(*r),
{
    match r {
        Some(s) => Some(s.clone()),
        None => None,
    }
}

/// Parents and children of a transaction, and whether it is in conflict.
#[derive(Clone, Debug)]
pub struct TransactionDependency {
    pub parents: KeySet<TxHash>,
    pub children: KeySet<TxHash>,
    pub in_conflict: bool,
    pub conflict_reason: Option<String>,
}

impl View for TransactionDependency {
    type V = DependencyView;

    open spec fn view(&self) -> DependencyView {
        DependencyView {
            parents: self.parents@,
            children: self.children@,
            in_conflict: self.in_conflict,
            conflict_reason: reason_view(self.conflict_reason),
        }
    }
}

impl TransactionDependency {
    pub open spec fn wf(&self) -> bool {
        self.parents.wf() && self.children.wf()
    }

    /// A transaction with no relations, not in conflict.
    pub fn new(_tx_hash: &TxHash) -> (d: Self)
        ensures
            d.wf(),
            d@ == (DependencyView {
                parents: Set::empty(),
                children: Set::empty(),
                in_conflict: false,
                conflict_reason: None,
            }),
    {
        Self { parents: KeySet::new(), children: KeySet::new(), in_conflict: false, conflict_reason: None }
    }
}

impl ChildLinks<TxHash> for TransactionDependency {
    open spec fn links(&self) -> Set<Seq<u8>> {
        self.children@
    }

    open spec fn links_ok(&self) -> bool {
        self.children.wf()
    }

    proof fn lemma_links_finite(&self) {
        self.children.lemma_view();
    }

    fn child_links(&self) -> (r: &KeySet<TxHash>) {
        &self.children
    }
}

/// A group of related transactions sharing a conflict status.
#[derive(Clone, Debug)]
pub struct ConflictPartition {
    pub transactions: KeySet<TxHash>,
    pub in_conflict: bool,
    pub conflict_reason: Option<String>,
    pub id: u64,
}

impl View for ConflictPartition {
    type V = PartitionView;

    open spec fn view(&self) -> PartitionView {
        PartitionView {
            transactions: self.transactions@,
            in_conflict: self.in_conflict,
            conflict_reason: reason_view(self.conflict_reason),
            id: self.id,
        }
    }
}

impl ConflictPartition {
    pub open spec fn wf(&self) -> bool {
        self.transactions.wf()
    }

    /// An empty partition with identifier `id`, not in conflict.
    pub fn new(id: u64) -> (p: Self)
        ensures
            p.wf(),
            p@ == (PartitionView { transactions: Set::empty(), in_conflict: false, conflict_reason: None, id }),
    {
        Self { transactions: KeySet::new(), in_conflict: false, conflict_reason: None, id }
    }

    /// Puts the partition in conflict for `reason`.
    pub fn mark_conflict(&mut self, reason: String)
        ensures
            final(self).transactions == old(self).transactions,
            final(self).id == old(self).id,
            final(self).in_conflict,
            final(self).conflict_reason == Some(reason),
    {
        self.in_conflict = true;
        self.conflict_reason = Some(reason);
    }

    /// A copy of the partition.
    pub fn duplicate(&self) -> (c: Self)
        requires
            self.wf(),
        ensures
            c.wf(),
            c@ == self@,
    {
        Self {
            transactions: self.transactions.duplicate(),
            in_conflict: self.in_conflict,
            conflict_reason: copy_reason(&self.conflict_reason),
            id: self.id,
        }
    }
}

/// Counters of dependency graph operations.
#[derive(Clone, Copy, Debug)]
pub struct DependencyGraphStats {
    pub total_dependencies: u64,
    pub total_partitions: u64,
    pub conflict_propagations: u64,
    pub affected_transactions: u64,
}

impl Default for DependencyGraphStats {
    fn default() -> (s: Self)
        ensures
            s.total_dependencies == 0,
            s.total_partitions == 0,
            s.conflict_propagations == 0,
            s.affected_transactions == 0,
    {
        DependencyGraphStats { total_dependencies: 0, total_partitions: 0, conflict_propagations: 0, affected_transactions: 0 }
    }
}

/// The graph after registering `h`: a transaction seen for the first time
/// gets an empty record and a partition of its own, under the next
/// identifier.
pub open spec fn register_spec(v: DependencyGraphView, h: Seq<u8>) -> DependencyGraphView {
    if v.dependencies.contains_key(h) {
        v
    } else {
        DependencyGraphView {
            dependencies: v.dependencies.insert(h, DependencyView {
                parents: Set::empty(),
                children: Set::empty(),
                in_conflict: false,
                conflict_reason: None,
            }),
            partitions: v.partitions.insert(h, v.next_partition_id),
            partition_data: v.partition_data.insert(v.next_partition_id, PartitionView {
                transactions: set![h],
                in_conflict: false,
                conflict_reason: None,
                id: v.next_partition_id,
            }),
            stats: DependencyGraphStats { total_partitions: v.stats.total_partitions.wrapping_add(1), ..v.stats },
            next_partition_id: v.next_partition_id.wrapping_add(1),
        }
    }
}

/// `child` lists `parent` as a parent, then `parent` lists `child` as a
/// child, where they are present.
pub open spec fn link_spec(v: DependencyGraphView, child: Seq<u8>, parent: Seq<u8>) -> DependencyGraphView {
    DependencyGraphView {
        dependencies: Map::new(
            |k: Seq<u8>| v.dependencies.contains_key(k),
            |k: Seq<u8>| DependencyView {
                parents: if k == child { v.dependencies[k].parents.insert(parent) } else { v.dependencies[k].parents },
                children: if k == parent { v.dependencies[k].children.insert(child) } else { v.dependencies[k].children },
                ..v.dependencies[k]
            },
        ),
        ..v
    }
}

/// `child`'s partition joins `parent`'s: every member of the child's
/// partition is added to the parent's and assigned to it, and the parent's
/// partition takes on the child partition's conflict.
pub open spec fn merge_spec(v: DependencyGraphView, child: Seq<u8>, parent: Seq<u8>) -> DependencyGraphView {
    let cp = v.partitions[child];
    let pp = v.partitions[parent];
    if cp == pp {
        v
    } else {
        let c = v.partition_data[cp];
        let p = v.partition_data[pp];
        DependencyGraphView {
            partitions: Map::new(
                |k: Seq<u8>| v.partitions.contains_key(k) || c.transactions.contains(k),
                |k: Seq<u8>| if c.transactions.contains(k) { pp } else { v.partitions[k] },
            ),
            partition_data: v.partition_data.insert(pp, PartitionView {
                transactions: p.transactions + c.transactions,
                in_conflict: p.in_conflict || c.in_conflict,
                conflict_reason: if c.in_conflict && c.conflict_reason is Some { c.conflict_reason } else { p.conflict_reason },
                id: p.id,
            }),
            ..v
        }
    }
}

/// The graph after recording that `child` depends on `parent`.
pub open spec fn add_dependency_spec(v: DependencyGraphView, child: Seq<u8>, parent: Seq<u8>) -> DependencyGraphView {
    let v2 = register_spec(register_spec(v, child), parent);
    let v4 = merge_spec(link_spec(v2, child, parent), child, parent);
    DependencyGraphView {
        stats: DependencyGraphStats { total_dependencies: v4.stats.total_dependencies.wrapping_add(1), ..v4.stats },
        ..v4
    }
}

/// `h` and every transaction below it through child links.
pub open spec fn downstream(v: DependencyGraphView, h: Seq<u8>) -> Set<Seq<u8>> {
    strict_descendants(child_graph(v), h).insert(h)
}

/// The graph after putting the partition of `h` in conflict for `reason`,
/// and with it `h` and every recorded transaction below it.
pub open spec fn mark_conflict_spec(v: DependencyGraphView, h: Seq<u8>, reason: Seq<char>) -> DependencyGraphView {
    let pid = v.partitions[h];
    let part = v.partition_data[pid];
    let down = downstream(v, h);
    DependencyGraphView {
        dependencies: Map::new(
            |k: Seq<u8>| v.dependencies.contains_key(k),
            |k: Seq<u8>| if down.contains(k) {
                DependencyView { in_conflict: true, conflict_reason: Some(reason), ..v.dependencies[k] }
            } else {
                v.dependencies[k]
            },
        ),
        partition_data: v.partition_data.insert(pid, PartitionView { in_conflict: true, conflict_reason: Some(reason), ..part }),
        stats: DependencyGraphStats {
            conflict_propagations: v.stats.conflict_propagations.wrapping_add(1),
            affected_transactions: wrap_add(v.stats.affected_transactions, down.len()),
            ..v.stats
        },
        ..v
    }
}

/// The graph after removing `h`: its parents no longer list it as a child,
/// its children no longer list it as a parent, and it loses its partition
/// assignment.
pub open spec fn remove_spec(v: DependencyGraphView, h: Seq<u8>) -> DependencyGraphView {
    let has = v.dependencies.contains_key(h);
    DependencyGraphView {
        dependencies: Map::new(
            |k: Seq<u8>| v.dependencies.contains_key(k) && k != h,
            |k: Seq<u8>| DependencyView {
                parents: if has && v.dependencies[h].children.contains(k) {
                    v.dependencies[k].parents.remove(h)
                } else {
                    v.dependencies[k].parents
                },
                children: if has && v.dependencies[h].parents.contains(k) {
                    v.dependencies[k].children.remove(h)
                } else {
                    v.dependencies[k].children
                },
                ..v.dependencies[k]
            },
        ),
        partitions: v.partitions.remove(h),
        ..v
    }
}

/// Dependency graph of transactions with their partitions.
pub struct DependencyGraph {
    dependencies: KeyMap<TxHash, TransactionDependency>,
    partitions: KeyMap<TxHash, u64>,
    partition_data: KeyMap<u64, ConflictPartition>,
    stats: DependencyGraphStats,
    next_partition_id: u64,
}

impl View for DependencyGraph {
    type V = DependencyGraphView;

    closed spec fn view(&self) -> DependencyGraphView {
        DependencyGraphView {
            dependencies: Map::new(|k: Seq<u8>| self.dependencies@.contains_key(k), |k: Seq<u8>| self.dependencies@[k]@),
            partitions: self.partitions@,
            partition_data: Map::new(|k: u64| self.partition_data@.contains_key(k), |k: u64| self.partition_data@[k]@),
            stats: self.stats,
            next_partition_id: self.next_partition_id,
        }
    }
}

/// Every recorded transaction has a partition, and every assigned partition
/// exists under its own identifier.
pub open spec fn view_wf(v: DependencyGraphView) -> bool {
    &&& forall|k: Seq<u8>| #[trigger] v.dependencies.contains_key(k) ==> v.partitions.contains_key(k)
    &&& forall|k: Seq<u8>| #[trigger] v.partitions.contains_key(k) ==> v.partition_data.contains_key(v.partitions[k])
    &&& forall|id: u64| #[trigger] v.partition_data.contains_key(id) ==> v.partition_data[id].id == id
}

impl DependencyGraph {
    pub closed spec fn wf(&self) -> bool {
        &&& self.dependencies.wf()
        &&& self.partitions.wf()
        &&& self.partition_data.wf()
        &&& forall|k: Seq<u8>| #[trigger] self.dependencies@.contains_key(k) ==> self.dependencies@[k].wf()
        &&& forall|k: u64| #[trigger] self.partition_data@.contains_key(k) ==> self.partition_data@[k].wf()
        &&& view_wf(self@)
    }

    pub fn new() -> (g: Self)
        ensures
            g.wf(),
            g@.dependencies == Map::<Seq<u8>, DependencyView>::empty(),
            g@.partitions == Map::<Seq<u8>, u64>::empty(),
            g@.partition_data == Map::<u64, PartitionView>::empty(),
            g@.stats == (DependencyGraphStats { total_dependencies: 0, total_partitions: 0, conflict_propagations: 0, affected_transactions: 0 }),
            g@.next_partition_id == 1,
    {
        let g = Self {
            dependencies: KeyMap::new(),
            partitions: KeyMap::new(),
            partition_data: KeyMap::new(),
            stats: DependencyGraphStats::default(),
            next_partition_id: 1,
        };
        proof {
            assert(g@.dependencies =~= Map::<Seq<u8>, DependencyView>::empty());
            assert(g@.partition_data =~= Map::<u64, PartitionView>::empty());
        }
        g
    }
}


/// Each transaction's children.
pub open spec fn child_graph(v: DependencyGraphView) -> Map<Seq<u8>, Set<Seq<u8>>> {
    Map::new(|k: Seq<u8>| v.dependencies.contains_key(k), |k: Seq<u8>| v.dependencies[k].children)
}

impl DependencyGraph {
    /// Records `tx_hash` if it is new, in a partition of its own.
    pub fn register_transaction(&mut self, tx_hash: &TxHash)
        requires
            old(self).wf(),
        ensures
            final(self).wf(),
            final(self)@ == register_spec(old(self)@, tx_hash@),
    {
        if !self.dependencies.contains_key(tx_hash) {
            let ghost h = tx_hash@;
            self.dependencies.insert(tx_hash.key_clone(), TransactionDependency::new(tx_hash));
            let pid = self.next_partition_id;
            self.next_partition_id = pid.wrapping_add(1);
            self.partitions.insert(tx_hash.key_clone(), pid);
            let mut part = ConflictPartition::new(pid);
            part.transactions.insert(tx_hash.key_clone());
            self.partition_data.insert(pid, part);
            self.stats.total_partitions = self.stats.total_partitions.wrapping_add(1);
            proof {
                let e = DependencyView { parents: Set::empty(), children: Set::empty(), in_conflict: false, conflict_reason: None };
                assert(self@.dependencies =~= old(self)@.dependencies.insert(h, e));
                assert(set![h] =~= Set::<Seq<u8>>::empty().insert(h));
                assert(self@.partition_data =~= old(self)@.partition_data.insert(pid, PartitionView {
                    transactions: set![h], in_conflict: false, conflict_reason: None, id: pid }));
                assert(self@ == register_spec(old(self)@, h));
            }
        }
    }

    /// Adds `t` to the parents (`to_parents`) or the children of `at`, if
    /// `at` is recorded.
    fn link(&mut self, at: &TxHash, t: &TxHash, to_parents: bool)
        requires
            old(self).wf(),
        ensures
            final(self).wf(),
            final(self)@ == (DependencyGraphView {
                dependencies: Map::new(
                    |k: Seq<u8>| old(self)@.dependencies.contains_key(k),
                    |k: Seq<u8>| if k == at@ {
                        if to_parents {
                            DependencyView { parents: old(self)@.dependencies[k].parents.insert(t@), ..old(self)@.dependencies[k] }
                        } else {
                            DependencyView { children: old(self)@.dependencies[k].children.insert(t@), ..old(self)@.dependencies[k] }
                        }
                    } else {
                        old(self)@.dependencies[k]
                    },
                ),
                ..old(self)@
            }),
    {
        match self.dependencies.remove(at) {
            Some(mut d) => {
                if to_parents {
                    d.parents.insert(t.key_clone());
                } else {
                    d.children.insert(t.key_clone());
                }
                self.dependencies.insert(at.key_clone(), d);
            },
            None => {},
        }
        proof {
            let nm = Map::new(
                |k: Seq<u8>| old(self)@.dependencies.contains_key(k),
                |k: Seq<u8>| if k == at@ {
                    if to_parents {
                        DependencyView { parents: old(self)@.dependencies[k].parents.insert(t@), ..old(self)@.dependencies[k] }
                    } else {
                        DependencyView { children: old(self)@.dependencies[k].children.insert(t@), ..old(self)@.dependencies[k] }
                    }
                } else {
                    old(self)@.dependencies[k]
                },
            );
            assert(self@.dependencies =~= nm);
        }
    }

    /// Moves the members of `child`'s partition into `parent`'s.
    fn merge_partitions(&mut self, child: &TxHash, parent: &TxHash) -> (r: Result<(), String>)
        requires
            old(self).wf(),
            old(self)@.partitions.contains_key(child@),
            old(self)@.partitions.contains_key(parent@),
        ensures
            final(self).wf(),
            r is Ok,
            final(self)@ == merge_spec(old(self)@, child@, parent@),
    {
        let cp = match self.partitions.get(child) {
            Some(x) => *x,
            None => {
                return Err(String::from_str("Child not in partitions"));
            },
        };
        let pp = match self.partitions.get(parent) {
            Some(x) => *x,
            None => {
                return Err(String::from_str("Parent not in partitions"));
            },
        };
        if cp == pp {
            return Ok(());
        }
        let child_part = match self.partition_data.get(&cp) {
            Some(p) => p.duplicate(),
            None => {
                return Err(String::from_str("Child partition not found"));
            },
        };
        let to_merge = child_part.transactions.to_vec();
        let ghost cset = child_part.transactions@;
        let ghost v0 = self@;
        proof {
            assert(v0.partition_data.contains_key(cp));
            assert(v0.partition_data.contains_key(pp));
            assert(child_part@ == v0.partition_data[cp]);
        }
        match self.partition_data.remove(&pp) {
            Some(mut pp_part) => {
                let ghost pset = pp_part.transactions@;
                let ghost pp_old = pp_part@;
                proof {
                    assert(pp_old == v0.partition_data[pp]);
                }
                let ghost pd_mid = self.partition_data;
                let mut i: usize = 0;
                while i < to_merge.len()
                    invariant
                        pp_part.transactions.wf(),
                        self.partition_data == pd_mid,
                        pp_part.in_conflict == pp_old.in_conflict,
                        reason_view(pp_part.conflict_reason) == pp_old.conflict_reason,
                        pp_part.id == pp_old.id,
                        i <= to_merge@.len(),
                        pp_part.transactions@ == pset + key_views(to_merge@).take(i as int).to_set(),
                    decreases to_merge@.len() - i,
                {
                    proof {
                        assert(key_views(to_merge@).take(i + 1) =~= key_views(to_merge@).take(i as int).push(to_merge@[i as int]@));
                        key_views(to_merge@).take(i as int).lemma_push_to_set_commute(to_merge@[i as int]@);
                    }
                    pp_part.transactions.insert(to_merge[i].key_clone());
                    i = i + 1;
                    proof {
                        assert(pp_part.transactions@ =~= pset + key_views(to_merge@).take(i as int).to_set());
                    }
                }
                proof {
                    assert(key_views(to_merge@).take(to_merge@.len() as int) =~= key_views(to_merge@));
                }
                if child_part.in_conflict {
                    pp_part.in_conflict = true;
                    match &child_part.conflict_reason {
                        Some(reason) => {
                            pp_part.conflict_reason = Some(reason.clone());
                        },
                        None => {},
                    }
                }
                self.partition_data.insert(pp, pp_part);
            },
            None => {},
        }
        let ghost parts0 = self.partitions@;
        let ghost deps_mid = self.dependencies;
        let ghost pd_mid2 = self.partition_data;
        let ghost st_mid = self.stats;
        let ghost next_mid = self.next_partition_id;
        proof {
            assert(self@.partition_data =~= merge_spec(v0, child@, parent@).partition_data);
        }
        let mut i: usize = 0;
        while i < to_merge.len()
            invariant
                self.partitions.wf(),
                self.dependencies == deps_mid,
                self.partition_data == pd_mid2,
                self.stats == st_mid,
                self.next_partition_id == next_mid,
                i <= to_merge@.len(),
                forall|k: Seq<u8>| #[trigger] self.partitions@.contains_key(k) <==>
                    (parts0.contains_key(k) || key_views(to_merge@).take(i as int).contains(k)),
                forall|k: Seq<u8>| #[trigger] self.partitions@.contains_key(k) ==>
                    self.partitions@[k] == if key_views(to_merge@).take(i as int).contains(k) { pp } else { parts0[k] },
            decreases to_merge@.len() - i,
        {
            let ghost kv = to_merge@[i as int]@;
            self.partitions.insert(to_merge[i].key_clone(), pp);
            i = i + 1;
            proof {
                assert(key_views(to_merge@).take(i as int) =~= key_views(to_merge@).take(i - 1).push(kv));
                assert forall|k: Seq<u8>| #[trigger] key_views(to_merge@).take(i as int).contains(k)
                    <==> (key_views(to_merge@).take(i - 1).contains(k) || k == kv) by {
                    if k == kv {
                        assert(key_views(to_merge@).take(i as int)[i - 1] == kv);
                    }
                    if key_views(to_merge@).take(i as int).contains(k) && k != kv {
                        let q = key_views(to_merge@).take(i as int).index_of(k);
                        assert(key_views(to_merge@).take(i - 1)[q] == k);
                    }
                    if key_views(to_merge@).take(i - 1).contains(k) {
                        let q = key_views(to_merge@).take(i - 1).index_of(k);
                        assert(key_views(to_merge@).take(i as int)[q] == k);
                    }
                }
            }
        }
        proof {
            assert(key_views(to_merge@).take(to_merge@.len() as int) =~= key_views(to_merge@));
            let target = merge_spec(v0, child@, parent@);
            assert(self@.partitions =~= target.partitions);
            assert(self@.partition_data == target.partition_data);
            assert(self@.dependencies =~= target.dependencies);
        }
        Ok(())
    }

    /// Records that `child` depends on `parent`, registering either if it
    /// is new, and merges the child's partition into the parent's.
    pub fn add_dependency(&mut self, child: &TxHash, parent: &TxHash) -> (r: Result<(), String>)
        requires
            old(self).wf(),
        ensures
            final(self).wf(),
            r is Ok,
            final(self)@ == add_dependency_spec(old(self)@, child@, parent@),
    {
        self.register_transaction(child);
        self.register_transaction(parent);
        let ghost v2 = self@;
        self.link(child, parent, true);
        self.link(parent, child, false);
        proof {
            assert(self@.dependencies =~= link_spec(v2, child@, parent@).dependencies);
            assert(self@ == link_spec(v2, child@, parent@));
        }
        self.merge_partitions(child, parent)?;
        self.stats.total_dependencies = self.stats.total_dependencies.wrapping_add(1);
        Ok(())
    }

    /// Puts `tx_hash` and every transaction below it in conflict for
    /// `reason`, and its partition with them; returns those transactions,
    /// each once, `tx_hash` first.
    pub fn mark_conflict(&mut self, tx_hash: &TxHash, reason: String) -> (r: Result<Vec<TxHash>, String>)
        requires
            old(self).wf(),
        ensures
            final(self).wf(),
            r is Err <==> !old(self)@.partitions.contains_key(tx_hash@),
            r is Err ==> r->Err_0@ == "Transaction not in graph"@ && final(self)@ == old(self)@,
            r is Ok ==> {
                &&& key_views(r->Ok_0@).no_duplicates()
                &&& key_views(r->Ok_0@)[0] == tx_hash@
                &&& key_views(r->Ok_0@).to_set() == downstream(old(self)@, tx_hash@)
                &&& final(self)@ == mark_conflict_spec(old(self)@, tx_hash@, reason@)
            },
    {
        let pid = match self.partitions.get(tx_hash) {
            Some(x) => *x,
            None => {
                let e = String::from_str("Transaction not in graph");
                proof {
                    reveal_strlit("Transaction not in graph");
                }
                return Err(e);
            },
        };
        let ghost v0 = self@;
        let ghost rv = reason@;
        let affected = self.find_affected_downstream(tx_hash);
        match self.partition_data.remove(&pid) {
            Some(mut part) => {
                part.mark_conflict(reason.clone());
                self.partition_data.insert(pid, part);
            },
            None => {},
        }
        let ghost aset = downstream(v0, tx_hash@);
        proof {
            assert(key_views(affected@).to_set() == aset);
            key_views(affected@).unique_seq_to_set();
        }
        let ghost deps0 = self.dependencies@;
        let ghost pd1 = self.partition_data;
        let ghost parts1 = self.partitions;
        let ghost st1 = self.stats;
        let ghost next1 = self.next_partition_id;
        proof {
            assert(self@.partition_data =~= mark_conflict_spec(v0, tx_hash@, rv).partition_data);
        }
        let mut i: usize = 0;
        while i < affected.len()
            invariant
                self.dependencies.wf(),
                self.partition_data == pd1,
                self.partitions == parts1,
                self.stats == st1,
                self.next_partition_id == next1,
                forall|k: Seq<u8>| #[trigger] self.dependencies@.contains_key(k) ==> self.dependencies@[k].wf(),
                forall|k: Seq<u8>| #[trigger] deps0.contains_key(k) ==> deps0[k].wf(),
                rv == reason@,
                i <= affected@.len(),
                self.dependencies@.dom() == deps0.dom(),
                forall|k: Seq<u8>| #[trigger] self.dependencies@.contains_key(k) ==>
                    self.dependencies@[k]@ == if key_views(affected@).take(i as int).contains(k) {
                        DependencyView { in_conflict: true, conflict_reason: Some(rv), ..deps0[k]@ }
                    } else {
                        deps0[k]@
                    },
            decreases affected@.len() - i,
        {
            let ghost kv = affected@[i as int]@;
            match self.dependencies.remove(&affected[i]) {
                Some(mut d) => {
                    d.in_conflict = true;
                    d.conflict_reason = Some(reason.clone());
                    self.dependencies.insert(affected[i].key_clone(), d);
                },
                None => {},
            }
            i = i + 1;
            proof {
                assert(self.dependencies@.dom() =~= deps0.dom());
                assert(key_views(affected@).take(i as int) =~= key_views(affected@).take(i - 1).push(kv));
                assert forall|k: Seq<u8>| #[trigger] key_views(affected@).take(i as int).contains(k)
                    <==> (key_views(affected@).take(i - 1).contains(k) || k == kv) by {
                    if k == kv {
                        assert(key_views(affected@).take(i as int)[i - 1] == kv);
                    }
                    if key_views(affected@).take(i as int).contains(k) && k != kv {
                        let q = key_views(affected@).take(i as int).index_of(k);
                        assert(key_views(affected@).take(i - 1)[q] == k);
                    }
                    if key_views(affected@).take(i - 1).contains(k) {
                        let q = key_views(affected@).take(i - 1).index_of(k);
                        assert(key_views(affected@).take(i as int)[q] == k);
                    }
                }
            }
        }
        proof {
            assert(key_views(affected@).take(affected@.len() as int) =~= key_views(affected@));
            lemma_wrap_add_once(self.stats.affected_transactions, affected@.len() as u64);
        }
        self.stats.conflict_propagations = self.stats.conflict_propagations.wrapping_add(1);
        self.stats.affected_transactions = self.stats.affected_transactions.wrapping_add(affected.len() as u64);
        proof {
            let target = mark_conflict_spec(v0, tx_hash@, rv);
            assert(self@.dependencies =~= target.dependencies);
            assert(self@.partition_data == target.partition_data);
            assert(self@ == target);
        }
        Ok(affected)
    }
}

impl DependencyGraph {
    /// The children of `tx_hash`, each once; none if it is not recorded.
    pub fn get_dependents(&self, tx_hash: &TxHash) -> (r: Vec<TxHash>)
        requires
            self.wf(),
        ensures
            key_views(r@).no_duplicates(),
            key_views(r@).to_set() == if self@.dependencies.contains_key(tx_hash@) {
                self@.dependencies[tx_hash@].children
            } else {
                Set::<Seq<u8>>::empty()
            },
    {
        match self.dependencies.get(tx_hash) {
            Some(d) => d.children.to_vec(),
            None => {
                let r: Vec<TxHash> = Vec::new();
                proof {
                    assert(key_views(r@) =~= Seq::<Seq<u8>>::empty());
                    assert(key_views(r@).to_set() =~= Set::<Seq<u8>>::empty());
                }
                r
            },
        }
    }

    /// The parents of `tx_hash`, each once; none if it is not recorded.
    pub fn get_parents(&self, tx_hash: &TxHash) -> (r: Vec<TxHash>)
        requires
            self.wf(),
        ensures
            key_views(r@).no_duplicates(),
            key_views(r@).to_set() == if self@.dependencies.contains_key(tx_hash@) {
                self@.dependencies[tx_hash@].parents
            } else {
                Set::<Seq<u8>>::empty()
            },
    {
        match self.dependencies.get(tx_hash) {
            Some(d) => d.parents.to_vec(),
            None => {
                let r: Vec<TxHash> = Vec::new();
                proof {
                    assert(key_views(r@) =~= Seq::<Seq<u8>>::empty());
                    assert(key_views(r@).to_set() =~= Set::<Seq<u8>>::empty());
                }
                r
            },
        }
    }

    pub fn is_in_conflict(&self, tx_hash: &TxHash) -> (b: bool)
        requires
            self.wf(),
        ensures
            b == (self@.dependencies.contains_key(tx_hash@) && self@.dependencies[tx_hash@].in_conflict),
    {
        match self.dependencies.get(tx_hash) {
            Some(d) => d.in_conflict,
            None => false,
        }
    }

    pub fn get_conflict_reason(&self, tx_hash: &TxHash) -> (r: Option<String>)
        requires
            self.wf(),
        ensures
            reason_view(r) == if self@.dependencies.contains_key(tx_hash@) {
                self@.dependencies[tx_hash@].conflict_reason
            } else {
                None
            },
    {
        match self.dependencies.get(tx_hash) {
            Some(d) => copy_reason(&d.conflict_reason),
            None => None,
        }
    }

    /// The members of the partition of `tx_hash`, each once; none if it has
    /// no partition.
    pub fn get_partition_members(&self, tx_hash: &TxHash) -> (r: Vec<TxHash>)
        requires
            self.wf(),
        ensures
            key_views(r@).no_duplicates(),
            key_views(r@).to_set() == if self@.partitions.contains_key(tx_hash@) {
                self@.partition_data[self@.partitions[tx_hash@]].transactions
            } else {
                Set::<Seq<u8>>::empty()
            },
    {
        let pid = match self.partitions.get(tx_hash) {
            Some(x) => *x,
            None => {
                let r: Vec<TxHash> = Vec::new();
                proof {
                    assert(key_views(r@) =~= Seq::<Seq<u8>>::empty());
                    assert(key_views(r@).to_set() =~= Set::<Seq<u8>>::empty());
                }
                return r;
            },
        };
        match self.partition_data.get(&pid) {
            Some(p) => p.transactions.to_vec(),
            None => {
                let r: Vec<TxHash> = Vec::new();
                proof {
                    assert(self@.partition_data.contains_key(pid));
                }
                r
            },
        }
    }

    /// `tx_hash` and every transaction below it through child links, each
    /// once, `tx_hash` first.
    pub fn find_affected_downstream(&self, tx_hash: &TxHash) -> (r: Vec<TxHash>)
        requires
            self.wf(),
        ensures
            key_views(r@).len() >= 1,
            key_views(r@)[0] == tx_hash@,
            key_views(r@).no_duplicates(),
            key_views(r@).to_set() == strict_descendants(child_graph(self@), tx_hash@).insert(tx_hash@),
    {
        proof {
            assert(link_graph::<TxHash, TransactionDependency>(self.dependencies@) =~= child_graph(self@));
        }
        reach_order(&self.dependencies, tx_hash)
    }

    /// Removes `t` from the parents (`from_parents`) or children of each of
    /// `keys` that is recorded.
    fn unlink_each(&mut self, keys: &Vec<TxHash>, t: &TxHash, from_parents: bool)
        requires
            old(self).wf(),
        ensures
            final(self).wf(),
            final(self)@.dependencies.dom() == old(self)@.dependencies.dom(),
            forall|k: Seq<u8>| #[trigger] final(self)@.dependencies.contains_key(k) ==>
                final(self)@.dependencies[k] == if key_views(keys@).contains(k) {
                    if from_parents {
                        DependencyView { parents: old(self)@.dependencies[k].parents.remove(t@), ..old(self)@.dependencies[k] }
                    } else {
                        DependencyView { children: old(self)@.dependencies[k].children.remove(t@), ..old(self)@.dependencies[k] }
                    }
                } else {
                    old(self)@.dependencies[k]
                },
            final(self)@.partitions == old(self)@.partitions,
            final(self)@.partition_data == old(self)@.partition_data,
            final(self)@.stats == old(self)@.stats,
            final(self)@.next_partition_id == old(self)@.next_partition_id,
    {
        let ghost v0 = self@;
        let mut i: usize = 0;
        while i < keys.len()
            invariant
                self.wf(),
                i <= keys@.len(),
                self@.dependencies.dom() == v0.dependencies.dom(),
                forall|k: Seq<u8>| #[trigger] self@.dependencies.contains_key(k) ==>
                    self@.dependencies[k] == if key_views(keys@).take(i as int).contains(k) {
                        if from_parents {
                            DependencyView { parents: v0.dependencies[k].parents.remove(t@), ..v0.dependencies[k] }
                        } else {
                            DependencyView { children: v0.dependencies[k].children.remove(t@), ..v0.dependencies[k] }
                        }
                    } else {
                        v0.dependencies[k]
                    },
                self@.partitions == v0.partitions,
                self@.partition_data == v0.partition_data,
                self@.stats == v0.stats,
                self@.next_partition_id == v0.next_partition_id,
            decreases keys@.len() - i,
        {
            let ghost before = self@;
            let ghost kv = keys@[i as int]@;
            match self.dependencies.remove(&keys[i]) {
                Some(mut d) => {
                    if from_parents {
                        d.parents.remove(t);
                    } else {
                        d.children.remove(t);
                    }
                    self.dependencies.insert(keys[i].key_clone(), d);
                },
                None => {},
            }
            i = i + 1;
            proof {
                assert(self@.dependencies.dom() =~= v0.dependencies.dom());
                assert(self@.partition_data =~= v0.partition_data);
                assert forall|k: Seq<u8>| #[trigger] key_views(keys@).take(i as int).contains(k)
                    <==> (key_views(keys@).take(i - 1).contains(k) || k == kv) by {
                    if k == kv {
                        assert(key_views(keys@).take(i as int)[i - 1] == kv);
                    }
                    if key_views(keys@).take(i as int).contains(k) && k != kv {
                        let q = key_views(keys@).take(i as int).index_of(k);
                        assert(key_views(keys@).take(i - 1)[q] == k);
                    }
                    if key_views(keys@).take(i - 1).contains(k) {
                        let q = key_views(keys@).take(i - 1).index_of(k);
                        assert(key_views(keys@).take(i as int)[q] == k);
                    }
                }
                assert forall|k: Seq<u8>| #[trigger] self@.dependencies.contains_key(k) implies
                    self@.dependencies[k] == if key_views(keys@).take(i as int).contains(k) {
                        if from_parents {
                            DependencyView { parents: v0.dependencies[k].parents.remove(t@), ..v0.dependencies[k] }
                        } else {
                            DependencyView { children: v0.dependencies[k].children.remove(t@), ..v0.dependencies[k] }
                        }
                    } else {
                        v0.dependencies[k]
                    } by {
                    assert(before.dependencies.contains_key(k));
                    if k == kv {
                        assert(v0.dependencies[k].parents.remove(t@).remove(t@) =~= v0.dependencies[k].parents.remove(t@));
                        assert(v0.dependencies[k].children.remove(t@).remove(t@) =~= v0.dependencies[k].children.remove(t@));
                    }
                }
            }
        }
        proof {
            assert(key_views(keys@).take(keys@.len() as int) =~= key_views(keys@));
        }
    }

    /// Removes `tx_hash`, unlinking it from its parents and children.
    pub fn remove_transaction(&mut self, tx_hash: &TxHash) -> (r: Result<(), String>)
        requires
            old(self).wf(),
        ensures
            final(self).wf(),
            r is Ok,
            final(self)@ == remove_spec(old(self)@, tx_hash@),
    {
        let ghost v0 = self@;
        let ghost h = tx_hash@;
        let (parents, children) = match self.dependencies.get(tx_hash) {
            Some(d) => (d.parents.to_vec(), d.children.to_vec()),
            None => {
                let p: Vec<TxHash> = Vec::new();
                let c: Vec<TxHash> = Vec::new();
                proof {
                    assert(key_views(p@) =~= Seq::<Seq<u8>>::empty());
                    assert(key_views(c@) =~= Seq::<Seq<u8>>::empty());
                }
                (p, c)
            },
        };
        self.unlink_each(&parents, tx_hash, false);
        self.unlink_each(&children, tx_hash, true);
        self.dependencies.remove(tx_hash);
        self.partitions.remove(tx_hash);
        proof {
            let target = remove_spec(v0, h);
            assert forall|k: Seq<u8>| #[trigger] self@.dependencies.contains_key(k) implies self@.dependencies[k] == target.dependencies[k] by {
                assert(target.dependencies.contains_key(k));
                if v0.dependencies.contains_key(h) {
                    assert(key_views(parents@).contains(k) == v0.dependencies[h].parents.contains(k));
                    assert(key_views(children@).contains(k) == v0.dependencies[h].children.contains(k));
                } else {
                    assert(!key_views(parents@).contains(k));
                    assert(!key_views(children@).contains(k));
                }
            }
            assert(self@.dependencies =~= target.dependencies);
            assert(self@.partitions =~= target.partitions);
        }
        Ok(())
    }

    pub fn get_stats(&self) -> (s: DependencyGraphStats)
        ensures
            s == self@.stats,
    {
        self.stats
    }

    /// A copy of the partition of `tx_hash`.
    pub fn get_partition(&self, tx_hash: &TxHash) -> (r: Option<ConflictPartition>)
        requires
            self.wf(),
        ensures
            r is Some <==> self@.partitions.contains_key(tx_hash@),
            r matches Some(p) ==> p.wf() && p@ == self@.partition_data[self@.partitions[tx_hash@]],
    {
        let pid = match self.partitions.get(tx_hash) {
            Some(x) => *x,
            None => {
                return None;
            },
        };
        proof {
            assert(self@.partitions.contains_key(tx_hash@));
            assert(self@.partition_data.contains_key(pid));
        }
        match self.partition_data.get(&pid) {
            Some(p) => Some(p.duplicate()),
            None => None,
        }
    }

    /// Empties the graph and starts partition identifiers over at 1.
    pub fn clear(&mut self)
        ensures
            final(self).wf(),
            final(self)@.dependencies == Map::<Seq<u8>, DependencyView>::empty(),
            final(self)@.partitions == Map::<Seq<u8>, u64>::empty(),
            final(self)@.partition_data == Map::<u64, PartitionView>::empty(),
            final(self)@.stats == (DependencyGraphStats { total_dependencies: 0, total_partitions: 0, conflict_propagations: 0, affected_transactions: 0 }),
            final(self)@.next_partition_id == 1,
    {
        self.dependencies.clear();
        self.partitions.clear();
        self.partition_data.clear();
        self.stats = DependencyGraphStats::default();
        self.next_partition_id = 1;
        proof {
            assert(self@.dependencies =~= Map::<Seq<u8>, DependencyView>::empty());
            assert(self@.partition_data =~= Map::<u64, PartitionView>::empty());
        }
    }

    pub fn len(&self) -> (n: usize)
        requires
            self.wf(),
        ensures
            n == self@.dependencies.len(),
    {
        proof {
            self.dependencies.lemma_view();
            assert(self@.dependencies.dom() =~= self.dependencies@.dom());
        }
        self.dependencies.len()
    }

    pub fn is_empty(&self) -> (b: bool)
        requires
            self.wf(),
        ensures
            b == (self@.dependencies.len() == 0),
    {
        proof {
            self.dependencies.lemma_view();
            assert(self@.dependencies.dom() =~= self.dependencies@.dom());
        }
        self.dependencies.is_empty()
    }
}

impl Default for DependencyGraph {
    fn default() -> (g: Self)
        ensures
            g.wf(),
            g@.dependencies == Map::<Seq<u8>, DependencyView>::empty(),
            g@.partitions == Map::<Seq<u8>, u64>::empty(),
            g@.partition_data == Map::<u64, PartitionView>::empty(),
            g@.next_partition_id == 1,
    {
        Self::new()
    }
}
} // verus!

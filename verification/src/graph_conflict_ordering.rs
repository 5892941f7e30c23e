//! Graph-based conflict detection and deterministic ordering: a disjoint-set
//! forest that groups conflicting transactions, and a layered topological
//! order with priority tie-breaking.

use vstd::prelude::*;
use crate::bytes::{bytes_eq, copy_bytes};
use crate::keyed::{KeyMap, KeySet, KeyOps, key_views, list_at, list_contains, copy_list, push_to_list, lemma_filter_member, lemma_filter_exact};
use crate::transaction::{Transaction, hash_key, hash_key_spec};
use crate::memory_limiter::{set_total, lemma_set_total_remove, lemma_set_total_agree};

verus! {

/// A union joins exactly two classes: after `union(a, b)` turns `before`
/// into `after`, two keys share a root exactly when they shared one before,
/// or each shared a root with `a` or with `b`.
pub proof fn lemma_union_joins_exactly(before: DisjointSetUnion, after: DisjointSetUnion, a: Seq<u8>, b: Seq<u8>, x: Seq<u8>, y: Seq<u8>)
    requires
        forall|z: Seq<u8>| #[trigger] after.root(z) == (if before.root(z) == before.root(a) || before.root(z) == before.root(b) {
            after.root(a)
        } else {
            before.root(z)
        }),
        after.root(a) == before.root(a) || after.root(a) == before.root(b),
    ensures
        (after.root(x) == after.root(y)) <==> (before.root(x) == before.root(y)
            || ((before.root(x) == before.root(a) || before.root(x) == before.root(b))
                && (before.root(y) == before.root(a) || before.root(y) == before.root(b)))),
{
    assert(after.root(x) == after.root(x));
    assert(after.root(y) == after.root(y));
    assert(after.root(a) == after.root(a));
}

/// Rank of `x` in a rank table; a missing entry counts as zero.
pub open spec fn rank_in(rk: Map<Seq<u8>, u32>, x: Seq<u8>) -> nat {
    if rk.contains_key(x) {
        rk[x] as nat
    } else {
        0
    }
}

/// Every parent link climbs to a strictly higher rank.
pub open spec fn ranks_increase(p: Map<Seq<u8>, Seq<u8>>, rk: Map<Seq<u8>, u32>) -> bool {
    forall|x: Seq<u8>| #[trigger] p.contains_key(x) && p[x] != x ==> rank_in(rk, p[x]) > rank_in(rk, x)
}

/// `x` is the root of its tree: it has no parent link to another key.
pub open spec fn is_root_in(p: Map<Seq<u8>, Seq<u8>>, x: Seq<u8>) -> bool {
    !p.contains_key(x) || p[x] == x
}

/// The root reached from `x` by following parent links.
pub open spec fn root_in(p: Map<Seq<u8>, Seq<u8>>, rk: Map<Seq<u8>, u32>, x: Seq<u8>) -> Seq<u8>
    decreases u32::MAX - rank_in(rk, x),
    when ranks_increase(p, rk)
{
    if p.contains_key(x) && p[x] != x {
        root_in(p, rk, p[x])
    } else {
        x
    }
}

pub proof fn lemma_root_is_root(p: Map<Seq<u8>, Seq<u8>>, rk: Map<Seq<u8>, u32>, x: Seq<u8>)
    requires
        ranks_increase(p, rk),
    ensures
        is_root_in(p, root_in(p, rk, x)),
        rank_in(rk, root_in(p, rk, x)) >= rank_in(rk, x),
        !is_root_in(p, x) ==> rank_in(rk, root_in(p, rk, x)) > rank_in(rk, x),
        is_root_in(p, x) ==> root_in(p, rk, x) == x,
    decreases u32::MAX - rank_in(rk, x),
{
    if p.contains_key(x) && p[x] != x {
        assert(rank_in(rk, p[x]) > rank_in(rk, x));
        lemma_root_is_root(p, rk, p[x]);
    }
}

/// The root does not depend on which increasing rank table is used.
pub proof fn lemma_root_rank_indep(
    p: Map<Seq<u8>, Seq<u8>>,
    rk1: Map<Seq<u8>, u32>,
    rk2: Map<Seq<u8>, u32>,
    x: Seq<u8>,
)
    requires
        ranks_increase(p, rk1),
        ranks_increase(p, rk2),
    ensures
        root_in(p, rk1, x) == root_in(p, rk2, x),
    decreases u32::MAX - rank_in(rk1, x),
{
    if p.contains_key(x) && p[x] != x {
        assert(rank_in(rk1, p[x]) > rank_in(rk1, x));
        lemma_root_rank_indep(p, rk1, rk2, p[x]);
    }
}

/// Pointing `x` straight at its root keeps every key's root.
pub proof fn lemma_compress(p: Map<Seq<u8>, Seq<u8>>, rk: Map<Seq<u8>, u32>, x: Seq<u8>, y: Seq<u8>)
    requires
        ranks_increase(p, rk),
        p.contains_key(x),
        p[x] != x,
    ensures
        ranks_increase(p.insert(x, root_in(p, rk, x)), rk),
        root_in(p.insert(x, root_in(p, rk, x)), rk, y) == root_in(p, rk, y),
    decreases u32::MAX - rank_in(rk, y),
{
    let r = root_in(p, rk, x);
    let p2 = p.insert(x, r);
    lemma_root_is_root(p, rk, x);
    assert(ranks_increase(p2, rk)) by {
        assert forall|z: Seq<u8>| #[trigger] p2.contains_key(z) && p2[z] != z implies rank_in(rk, p2[z]) > rank_in(rk, z) by {
            if z != x {
                assert(p.contains_key(z) && p[z] == p2[z]);
            }
        }
    }
    if y == x {
        assert(r != x);
        lemma_root_is_root(p2, rk, r);
        assert(is_root_in(p2, r));
    } else if p.contains_key(y) && p[y] != y {
        assert(rank_in(rk, p[y]) > rank_in(rk, y));
        lemma_compress(p, rk, x, p[y]);
    }
}

/// Linking root `lo` under root `hi` merges the two trees.
pub proof fn lemma_link(
    p: Map<Seq<u8>, Seq<u8>>,
    rk: Map<Seq<u8>, u32>,
    lo: Seq<u8>,
    hi: Seq<u8>,
    y: Seq<u8>,
)
    requires
        ranks_increase(p, rk),
        is_root_in(p, lo),
        is_root_in(p, hi),
        lo != hi,
        rank_in(rk, hi) > rank_in(rk, lo),
    ensures
        ranks_increase(p.insert(lo, hi), rk),
        root_in(p.insert(lo, hi), rk, y) == (if root_in(p, rk, y) == lo {
            hi
        } else {
            root_in(p, rk, y)
        }),
    decreases u32::MAX - rank_in(rk, y),
{
    let p2 = p.insert(lo, hi);
    assert(ranks_increase(p2, rk)) by {
        assert forall|z: Seq<u8>| #[trigger] p2.contains_key(z) && p2[z] != z implies rank_in(rk, p2[z]) > rank_in(rk, z) by {
            if z != lo {
                assert(p.contains_key(z) && p[z] == p2[z]);
            }
        }
    }
    if y == lo {
        assert(root_in(p, rk, y) == lo);
        assert(is_root_in(p2, hi));
        assert(root_in(p2, rk, hi) == hi);
    } else if p.contains_key(y) && p[y] != y {
        assert(rank_in(rk, p[y]) > rank_in(rk, y));
        lemma_link(p, rk, lo, hi, p[y]);
    } else {
        assert(root_in(p, rk, y) == y);
    }
}

/// Union-find over transaction hashes, used to group conflicting
/// transactions so that groups without conflicts between them can be
/// processed in parallel.
pub struct DisjointSetUnion {
    parent: KeyMap<Vec<u8>, Vec<u8>>,
    rank: KeyMap<Vec<u8>, u32>,
    nonroots: Ghost<Set<Seq<u8>>>,
}

impl DisjointSetUnion {
    /// Parent links, by key view.
    pub closed spec fn links(&self) -> Map<Seq<u8>, Seq<u8>> {
        self.parent@.map_values(|v: Vec<u8>| v@)
    }

    /// Ranks, by key view.
    pub closed spec fn ranks(&self) -> Map<Seq<u8>, u32> {
        self.rank@
    }

    /// Keys that have been made into sets or linked.
    pub closed spec fn members(&self) -> Set<Seq<u8>> {
        self.parent@.dom()
    }

    /// Keys in the order they were first recorded.
    pub closed spec fn member_seq(&self) -> Seq<Seq<u8>> {
        self.parent.key_seq()
    }

    /// The representative of `x`'s set.
    pub open spec fn root(&self, x: Seq<u8>) -> Seq<u8> {
        root_in(self.links(), self.ranks(), x)
    }

    pub closed spec fn wf(&self) -> bool {
        &&& self.parent.wf()
        &&& self.rank.wf()
        &&& ranks_increase(self.links(), self.ranks())
        &&& self.nonroots@ == self.links().dom().filter(|x: Seq<u8>| self.links()[x] != x)
        &&& self.nonroots@.finite()
        &&& forall|x: Seq<u8>| rank_in(self.ranks(), x) <= self.nonroots@.len()
    }

    proof fn lemma_wf(&self)
        requires
            self.wf(),
        ensures
            self.nonroots@.len() <= self.members().len(),
            self.members().finite(),
            self.members() == self.member_seq().to_set(),
            self.member_seq().no_duplicates(),
            self.members().len() == self.member_seq().len(),
            self.links().dom() == self.members(),
    {
        self.parent.lemma_view();
        assert(self.links().dom() =~= self.members());
        vstd::set_lib::lemma_len_subset(self.nonroots@, self.members());
    }

    pub fn new() -> (d: Self)
        ensures
            d.wf(),
            d.members() == Set::<Seq<u8>>::empty(),
            forall|y: Seq<u8>| #[trigger] d.root(y) == y,
    {
        let d = DisjointSetUnion { parent: KeyMap::new(), rank: KeyMap::new(), nonroots: Ghost(Set::empty()) };
        proof {
            assert(d.links() =~= Map::<Seq<u8>, Seq<u8>>::empty());
            assert forall|y: Seq<u8>| #[trigger] d.root(y) == y by {
                assert(!d.links().contains_key(y));
            }
            assert(d.nonroots@ =~= d.links().dom().filter(|x: Seq<u8>| d.links()[x] != x));
        }
        d
    }

    /// Number of recorded keys.
    pub fn member_count(&self) -> (n: usize)
        requires
            self.wf(),
        ensures
            n == self.members().len(),
    {
        self.parent.len()
    }

    /// Records `tx_hash` as a singleton set unless it is already recorded.
    pub fn make_set(&mut self, tx_hash: Vec<u8>)
        requires
            old(self).wf(),
        ensures
            final(self).wf(),
            final(self).members() == old(self).members().insert(tx_hash@),
            forall|y: Seq<u8>| final(self).root(y) == old(self).root(y),
    {
        proof {
            self.lemma_wf();
        }
        let ghost p0 = self.links();
        let ghost rk0 = self.ranks();
        if !self.parent.contains_key(&tx_hash) {
            let k2 = copy_bytes(tx_hash.as_slice());
            let v2 = copy_bytes(tx_hash.as_slice());
            let ghost t = tx_hash@;
            self.parent.insert(k2, v2);
            proof {
                assert(self.links() =~= p0.insert(t, t));
                assert(self.links().dom().filter(|x: Seq<u8>| self.links()[x] != x) =~= self.nonroots@);
                assert forall|y: Seq<u8>| root_in(self.links(), rk0, y) == root_in(p0, rk0, y) by {
                    lemma_self_link(p0, rk0, t, y);
                }
            }
        }
        let ghost p1 = self.links();
        if !self.rank.contains_key(&tx_hash) {
            let ghost t = tx_hash@;
            self.rank.insert(tx_hash, 0);
            proof {
                assert forall|x: Seq<u8>| rank_in(self.ranks(), x) == rank_in(rk0, x) by {}
                assert(ranks_increase(p1, self.ranks()));
                assert forall|y: Seq<u8>| root_in(p1, self.ranks(), y) == root_in(p1, rk0, y) by {
                    lemma_root_rank_indep(p1, self.ranks(), rk0, y);
                }
            }
        }
        proof {
            assert(ranks_increase(self.links(), self.ranks()));
            assert(self.nonroots@ == self.links().dom().filter(|x: Seq<u8>| self.links()[x] != x));
            assert forall|x: Seq<u8>| rank_in(self.ranks(), x) <= self.nonroots@.len() by {
                assert(rank_in(rk0, x) <= self.nonroots@.len());
            }
        }
    }

    /// Representative of `tx_hash`'s set, compressing the path to it.
    pub fn find(&mut self, tx_hash: &[u8]) -> (r: Vec<u8>)
        requires
            old(self).wf(),
        ensures
            final(self).wf(),
            r@ == old(self).root(tx_hash@),
            final(self).members() == old(self).members(),
            final(self).member_seq() == old(self).member_seq(),
            final(self).ranks() == old(self).ranks(),
            forall|y: Seq<u8>| final(self).root(y) == old(self).root(y),
            forall|y: Seq<u8>| #[trigger] rank_in(old(self).ranks(), y) < rank_in(old(self).ranks(), tx_hash@)
                ==> final(self).links().contains_key(y) == old(self).links().contains_key(y)
                && (old(self).links().contains_key(y) ==> final(self).links()[y] == old(self).links()[y]),
        decreases u32::MAX - rank_in(old(self).ranks(), tx_hash@),
    {
        let tx = copy_bytes(tx_hash);
        let ghost p0 = self.links();
        let ghost rk = self.ranks();
        let parent_opt = match self.parent.get(&tx) {
            Some(p) => Some(copy_bytes(p.as_slice())),
            None => None,
        };
        if let Some(parent) = parent_opt {
            if !bytes_eq(parent.as_slice(), tx.as_slice()) {
                proof {
                    assert(p0.contains_key(tx@) && p0[tx@] == parent@);
                    assert(rank_in(rk, parent@) > rank_in(rk, tx@));
                }
                let root = self.find(parent.as_slice());
                let ghost p1 = self.links();
                proof {
                    assert(p1.contains_key(tx@) && p1[tx@] == parent@);
                    assert(root_in(p1, rk, tx@) == root_in(p1, rk, parent@));
                    assert(root_in(p0, rk, tx@) == root_in(p0, rk, parent@));
                    lemma_root_is_root(p1, rk, tx@);
                }
                let root_copy = copy_bytes(root.as_slice());
                self.parent.insert(tx, root_copy);
                proof {
                    assert(self.links() =~= p1.insert(tx@, root_in(p1, rk, tx@)));
                    assert forall|y: Seq<u8>| root_in(self.links(), rk, y) == root_in(p1, rk, y) by {
                        lemma_compress(p1, rk, tx@, y);
                    }
                    lemma_compress(p1, rk, tx@, tx@);
                    assert(self.nonroots@ =~= self.links().dom().filter(|x: Seq<u8>| self.links()[x] != x)) by {
                        assert(root@ != tx@);
                    }
                }
                return root;
            }
        }
        proof {
            assert(is_root_in(p0, tx@));
            lemma_root_is_root(p0, rk, tx@);
        }
        tx
    }

    /// Merges the sets of `tx1` and `tx2`, linking the root of lower rank
    /// under the other (the second under the first on equal ranks).
    pub fn union(&mut self, tx1: &[u8], tx2: &[u8])
        requires
            old(self).wf(),
            old(self).members().len() < u32::MAX,
        ensures
            final(self).wf(),
            final(self).root(tx1@) == final(self).root(tx2@),
            forall|y: Seq<u8>| #[trigger] final(self).root(y) == (if old(self).root(y) == old(self).root(tx1@)
                || old(self).root(y) == old(self).root(tx2@) {
                final(self).root(tx1@)
            } else {
                old(self).root(y)
            }),
            final(self).root(tx1@) == old(self).root(tx1@) || final(self).root(tx1@) == old(self).root(tx2@),
            final(self).members() == old(self).members() || final(self).members() == old(self).members().insert(old(self).root(tx1@))
                || final(self).members() == old(self).members().insert(old(self).root(tx2@)),
    {
        let ghost old_self = *self;
        let root1 = self.find(tx1);
        let root2 = self.find(tx2);
        let ghost p = self.links();
        let ghost rk = self.ranks();
        let ghost old_nonroots = self.nonroots@;
        proof {
            assert(forall|x: Seq<u8>| rank_in(rk, x) <= old_nonroots.len());
            self.lemma_wf();
            lemma_root_is_root(p, rk, root1@);
            lemma_root_is_root(p, rk, tx1@);
            lemma_root_is_root(p, rk, tx2@);
        }
        if bytes_eq(root1.as_slice(), root2.as_slice()) {
            return;
        }
        let rank1: u32 = match self.rank.get(&root1) {
            Some(r) => *r,
            None => 0,
        };
        let rank2: u32 = match self.rank.get(&root2) {
            Some(r) => *r,
            None => 0,
        };
        proof {
            assert(rank1 == rank_in(rk, root1@));
            assert(rank2 == rank_in(rk, root2@));
        }
        let ghost r1 = root1@;
        let ghost r2 = root2@;
        if rank1 < rank2 {
            self.parent.insert(root1, root2);
            proof {
                assert(self.links() =~= p.insert(r1, r2));
                assert forall|y: Seq<u8>| #[trigger] root_in(self.links(), rk, y) == (if root_in(p, rk, y) == r1 { r2 } else { root_in(p, rk, y) }) by {
                    lemma_link(p, rk, r1, r2, y);
                }
            }
            self.nonroots = Ghost(self.nonroots@.insert(r1));
            proof {
                assert(!old_nonroots.contains(r1));
                assert(self.nonroots@ =~= self.links().dom().filter(|x: Seq<u8>| self.links()[x] != x));
                assert(self.nonroots@.len() == old_nonroots.len() + 1);
                assert forall|x: Seq<u8>| rank_in(self.ranks(), x) <= self.nonroots@.len() by {
                    assert(rank_in(rk, x) <= old_nonroots.len());
                }
                self.lemma_wf();
            }
        } else if rank1 > rank2 {
            self.parent.insert(root2, root1);
            proof {
                assert(self.links() =~= p.insert(r2, r1));
                assert forall|y: Seq<u8>| #[trigger] root_in(self.links(), rk, y) == (if root_in(p, rk, y) == r2 { r1 } else { root_in(p, rk, y) }) by {
                    lemma_link(p, rk, r2, r1, y);
                }
            }
            self.nonroots = Ghost(self.nonroots@.insert(r2));
            proof {
                assert(!old_nonroots.contains(r2));
                assert(self.nonroots@ =~= self.links().dom().filter(|x: Seq<u8>| self.links()[x] != x));
                assert(self.nonroots@.len() == old_nonroots.len() + 1);
                assert forall|x: Seq<u8>| rank_in(self.ranks(), x) <= self.nonroots@.len() by {
                    assert(rank_in(rk, x) <= old_nonroots.len());
                }
                self.lemma_wf();
            }
        } else {
            let root1_copy = copy_bytes(root1.as_slice());
            proof {
                assert(rank1 <= self.nonroots@.len());
                assert(self.nonroots@.len() <= old_self.members().len());
            }
            self.rank.insert(root1_copy, rank1 + 1);
            let ghost rk2 = self.ranks();
            proof {
                assert(rk2 == rk.insert(r1, (rank1 + 1) as u32));
                assert(ranks_increase(p, rk2)) by {
                    assert forall|z: Seq<u8>| #[trigger] p.contains_key(z) && p[z] != z implies rank_in(rk2, p[z]) > rank_in(rk2, z) by {
                        assert(z != r1);
                    }
                }
                assert forall|y: Seq<u8>| root_in(p, rk2, y) == root_in(p, rk, y) by {
                    lemma_root_rank_indep(p, rk2, rk, y);
                }
            }
            self.parent.insert(root2, root1);
            proof {
                assert(self.links() =~= p.insert(r2, r1));
                assert forall|y: Seq<u8>| #[trigger] root_in(self.links(), rk2, y) == (if root_in(p, rk2, y) == r2 { r1 } else { root_in(p, rk2, y) }) by {
                    lemma_link(p, rk2, r2, r1, y);
                }
            }
            self.nonroots = Ghost(self.nonroots@.insert(r2));
            proof {
                assert(!old_nonroots.contains(r2));
                assert(self.nonroots@ =~= self.links().dom().filter(|x: Seq<u8>| self.links()[x] != x));
                assert(self.nonroots@.len() == old_nonroots.len() + 1);
                assert forall|x: Seq<u8>| rank_in(self.ranks(), x) <= self.nonroots@.len() by {
                    assert(rank_in(rk, x) <= old_nonroots.len());
                }
                self.lemma_wf();
            }
        }
    }

    /// Groups every recorded key by its representative.
    pub fn get_components(&mut self) -> (c: KeyMap<Vec<u8>, Vec<Vec<u8>>>)
        requires
            old(self).wf(),
        ensures
            final(self).wf(),
            forall|y: Seq<u8>| final(self).root(y) == old(self).root(y),
            final(self).members() == old(self).members(),
            c.wf(),
            forall|r: Seq<u8>| #[trigger] c@.contains_key(r) <==> exists|k: Seq<u8>| old(self).members().contains(k) && old(self).root(k) == r,
            forall|r: Seq<u8>| #[trigger] c@.contains_key(r) ==> key_views(c@[r]@).no_duplicates()
                && key_views(c@[r]@).to_set() == old(self).members().filter(|k: Seq<u8>| old(self).root(k) == r),
    {
        let ghost old_self = *self;
        let mut comps: KeyMap<Vec<u8>, Vec<Vec<u8>>> = KeyMap::new();
        let n = self.parent.len();
        let mut i: usize = 0;
        while i < n
            invariant
                self.wf(),
                old_self.wf(),
                comps.wf(),
                n == self.member_seq().len(),
                i <= n,
                self.member_seq() == old_self.member_seq(),
                self.members() == old_self.members(),
                forall|y: Seq<u8>| self.root(y) == old_self.root(y),
                forall|r: Seq<u8>| #[trigger] comps@.contains_key(r) <==> exists|j: int| 0 <= j < i && old_self.root(old_self.member_seq()[j]) == r,
                forall|r: Seq<u8>| #[trigger] comps@.contains_key(r) ==> key_views(comps@[r]@).no_duplicates()
                    && key_views(comps@[r]@).to_set() == old_self.member_seq().subrange(0, i as int).to_set().filter(|k: Seq<u8>| old_self.root(k) == r),
            decreases n - i,
        {
            let key = copy_bytes(self.parent.key_at(i).as_slice());
            let root = self.find(key.as_slice());
            let ghost kv = key@;
            let ghost rv = root@;
            let ghost prefix = old_self.member_seq().subrange(0, i as int);
            let ghost next = old_self.member_seq().subrange(0, i as int + 1);
            proof {
                assert(next == prefix.push(kv));
                old_self.lemma_wf();
                assert(!prefix.contains(kv)) by {
                    if prefix.contains(kv) {
                        let j = prefix.index_of(kv);
                        assert(old_self.member_seq()[j] == kv);
                    }
                }
            }
            let ghost comps0 = comps@;
            let existing = comps.remove(&root);
            let mut members: Vec<Vec<u8>> = match existing {
                Some(v) => v,
                None => Vec::new(),
            };
            let ghost before = key_views(members@);
            members.push(key);
            proof {
                assert(key_views(members@) =~= before.push(kv));
                assert(!before.contains(kv)) by {
                    if before.contains(kv) {
                        assert(before.to_set().contains(kv));
                    }
                }
            }
            comps.insert(root, members);
            i = i + 1;
            proof {
                let after = key_views(comps@[rv]@);
                assert(after == before.push(kv));
                before.lemma_push_to_set_commute(kv);
                prefix.lemma_push_to_set_commute(kv);
                assert(old_self.root(kv) == rv);
                assert(next.to_set() == prefix.to_set().insert(kv));
                assert(after.to_set() =~= before.to_set().insert(kv));
                assert forall|r: Seq<u8>| #[trigger] comps@.contains_key(r) implies key_views(comps@[r]@).no_duplicates()
                    && key_views(comps@[r]@).to_set() == next.to_set().filter(|k: Seq<u8>| old_self.root(k) == r) by {
                    {
                        if r == rv {
                            if comps0.contains_key(rv) {
                                assert(before.to_set() == prefix.to_set().filter(|k: Seq<u8>| old_self.root(k) == r));
                            } else {
                                assert(before.to_set() =~= Set::<Seq<u8>>::empty());
                                assert forall|k: Seq<u8>| #[trigger] prefix.to_set().contains(k) implies old_self.root(k) != r by {
                                    if old_self.root(k) == r {
                                        let j = prefix.index_of(k);
                                        assert(prefix[j] == k);
                                        assert(old_self.member_seq()[j] == k);
                                    }
                                }
                                assert(prefix.to_set().filter(|k: Seq<u8>| old_self.root(k) == r) =~= Set::<Seq<u8>>::empty());
                            }
                            assert(next.to_set().filter(|k: Seq<u8>| old_self.root(k) == r) =~= prefix.to_set().filter(|k: Seq<u8>| old_self.root(k) == r).insert(kv));
                            assert(before.push(kv).no_duplicates());
                        } else {
                            assert(next.to_set().filter(|k: Seq<u8>| old_self.root(k) == r) =~= prefix.to_set().filter(|k: Seq<u8>| old_self.root(k) == r));
                        }
                    }
                }
                assert forall|r: Seq<u8>| #[trigger] comps@.contains_key(r) <==> exists|j: int| 0 <= j < i && old_self.root(old_self.member_seq()[j]) == r by {
                    if r == rv {
                        assert(old_self.root(old_self.member_seq()[i - 1]) == r);
                    }
                    if exists|j: int| 0 <= j < i && old_self.root(old_self.member_seq()[j]) == r {
                        let j = choose|j: int| 0 <= j < i && old_self.root(old_self.member_seq()[j]) == r;
                        if j < i - 1 {
                            assert(comps@.contains_key(r) || r == rv);
                        }
                    }
                }
            }
        }
        proof {
            old_self.lemma_wf();
            assert(old_self.member_seq().subrange(0, n as int) =~= old_self.member_seq());
            assert forall|r: Seq<u8>| #[trigger] comps@.contains_key(r) <==> exists|k: Seq<u8>| old_self.members().contains(k) && old_self.root(k) == r by {
                if exists|k: Seq<u8>| old_self.members().contains(k) && old_self.root(k) == r {
                    let k = choose|k: Seq<u8>| old_self.members().contains(k) && old_self.root(k) == r;
                    let j = old_self.member_seq().index_of(k);
                    assert(old_self.member_seq()[j] == k);
                }
                if comps@.contains_key(r) {
                    let j = choose|j: int| 0 <= j < n && old_self.root(old_self.member_seq()[j]) == r;
                    assert(old_self.members().contains(old_self.member_seq()[j]));
                }
            }
        }
        comps
    }
}

proof fn lemma_self_link(p: Map<Seq<u8>, Seq<u8>>, rk: Map<Seq<u8>, u32>, t: Seq<u8>, y: Seq<u8>)
    requires
        ranks_increase(p, rk),
        !p.contains_key(t),
    ensures
        ranks_increase(p.insert(t, t), rk),
        root_in(p.insert(t, t), rk, y) == root_in(p, rk, y),
    decreases u32::MAX - rank_in(rk, y),
{
    let p2 = p.insert(t, t);
    assert(ranks_increase(p2, rk)) by {
        assert forall|z: Seq<u8>| #[trigger] p2.contains_key(z) && p2[z] != z implies rank_in(rk, p2[z]) > rank_in(rk, z) by {
            if z != t {
                assert(p.contains_key(z) && p[z] == p2[z]);
            }
        }
    }
    if p.contains_key(y) && p[y] != y {
        assert(rank_in(rk, p[y]) > rank_in(rk, y));
        lemma_self_link(p, rk, t, p[y]);
    }
}


/// A transaction as the ordering engine scores it.
#[derive(Clone, Debug)]
pub struct TransactionNode {
    pub tx_hash: Vec<u8>,
    pub fee: u64,
    pub size_bytes: usize,
    pub arrival_time_ms: u64,
    pub input_count: usize,
    pub output_count: usize,
    /// Number of dependencies
    pub in_degree: usize,
    /// Number of dependents
    pub out_degree: usize,
}

impl TransactionNode {
    /// Age of the transaction at `current_time_ms`, zero if it arrived later.
    pub fn age_score(&self, current_time_ms: u64) -> (a: u64)
        ensures
            a == (if current_time_ms >= self.arrival_time_ms { current_time_ms - self.arrival_time_ms } else { 0 }),
    {
        current_time_ms.saturating_sub(self.arrival_time_ms)
    }
}

/// Result of canonical ordering.
#[derive(Clone, Debug)]
pub struct CanonicalOrderingResult {
    /// Ordered transaction hashes
    pub ordered_hashes: Vec<Vec<u8>>,
    /// Number of topological layers
    pub layer_count: usize,
    /// Layers in order; the transactions of one layer can run in parallel
    pub parallel_groups: Vec<Vec<Vec<u8>>>,
    /// Number of conflicting pairs
    pub conflict_count: usize,
}

/// The four bytes of `i`, lowest first.
pub open spec fn index_bytes(i: u32) -> Seq<u8> {
    seq![(i % 256) as u8, ((i / 256) % 256) as u8, ((i / 65536) % 256) as u8, (i / 16777216) as u8]
}

/// Key under which the engine indexes the output spent by input `i` of
/// `tx`: the spent transaction's hash bytes, then the output's index.
pub open spec fn engine_input_key(tx: Transaction, i: int) -> Seq<u8> {
    hash_key_spec(tx.inputs@[i].prev_tx) + index_bytes(tx.inputs@[i].index)
}

/// The key of the output `index` of the transaction `prev`.
fn outpoint_key(prev: &crate::transaction::Hash, index: u32) -> (k: Vec<u8>)
    ensures
        k@ == hash_key_spec(*prev) + index_bytes(index),
{
    let mut k = hash_key(prev);
    let ghost h = k@;
    k.push((index % 256) as u8);
    k.push(((index / 256) % 256) as u8);
    k.push(((index / 65536) % 256) as u8);
    k.push((index / 16777216) as u8);
    proof {
        assert(k@ =~= h + index_bytes(index));
    }
    k
}

/// Input keys of `tx` among the first `n` inputs.
pub open spec fn has_input_key(tx: Transaction, n: int, k: Seq<u8>) -> bool {
    exists|j: int| 0 <= j < n && #[trigger] engine_input_key(tx, j) == k
}

/// Claimants of the outputs spent by the first `n` inputs of `tx`, other
/// than `h`, in an index `u`.
pub open spec fn claimants_of(u: Map<Seq<u8>, Vec<Vec<u8>>>, tx: Transaction, n: int, h: Seq<u8>) -> Set<Seq<u8>> {
    Set::new(|c: Seq<u8>| c != h && exists|j: int| 0 <= j < n && (#[trigger] list_at::<Vec<u8>, Vec<u8>>(u, engine_input_key(tx, j))).contains(c))
}

/// Graph of transactions, their conflicts (spending the same output) and
/// their dependencies, from which block order and parallel groups are drawn.
pub struct GraphConflictOrderingEngine {
    /// Spent output key -> transactions that claim it
    utxo_index: KeyMap<Vec<u8>, Vec<Vec<u8>>>,
    /// Transaction hash -> node
    nodes: KeyMap<Vec<u8>, TransactionNode>,
    /// Transaction hash -> conflicting transactions
    conflict_map: KeyMap<Vec<u8>, Vec<Vec<u8>>>,
    /// Transaction hash -> its parents
    dependency_map: KeyMap<Vec<u8>, Vec<Vec<u8>>>,
}

impl GraphConflictOrderingEngine {
    pub closed spec fn nodes_view(&self) -> Map<Seq<u8>, TransactionNode> {
        self.nodes@
    }


    pub closed spec fn utxo_view(&self) -> Map<Seq<u8>, Vec<Vec<u8>>> {
        self.utxo_index@
    }

    pub closed spec fn conflict_view(&self) -> Map<Seq<u8>, Vec<Vec<u8>>> {
        self.conflict_map@
    }

    pub closed spec fn deps_view(&self) -> Map<Seq<u8>, Vec<Vec<u8>>> {
        self.dependency_map@
    }

    /// Registered transactions in the order they were registered.
    pub closed spec fn node_seq(&self) -> Seq<Seq<u8>> {
        self.nodes.key_seq()
    }

    /// Conflicts recorded for `h`.
    pub open spec fn conflicts_of(&self, h: Seq<u8>) -> Seq<Seq<u8>> {
        list_at::<Vec<u8>, Vec<u8>>(self.conflict_view(), h)
    }

    /// Parents recorded for `h`.
    pub open spec fn parents_of(&self, h: Seq<u8>) -> Seq<Seq<u8>> {
        list_at::<Vec<u8>, Vec<u8>>(self.deps_view(), h)
    }

    /// Claimants recorded for spent-output key `k`.
    pub open spec fn claimants(&self, k: Seq<u8>) -> Seq<Seq<u8>> {
        list_at::<Vec<u8>, Vec<u8>>(self.utxo_view(), k)
    }

    pub closed spec fn wf(&self) -> bool {
        &&& self.utxo_index.wf()
        &&& self.nodes.wf()
        &&& self.conflict_map.wf()
        &&& self.dependency_map.wf()
    }

    pub fn new() -> (e: Self)
        ensures
            e.wf(),
            e.nodes_view() == Map::<Seq<u8>, TransactionNode>::empty(),
            e.utxo_view() == Map::<Seq<u8>, Vec<Vec<u8>>>::empty(),
            e.conflict_view() == Map::<Seq<u8>, Vec<Vec<u8>>>::empty(),
            e.deps_view() == Map::<Seq<u8>, Vec<Vec<u8>>>::empty(),
            e.total_conflict_entries() == 0,
    {
        let e = GraphConflictOrderingEngine {
            utxo_index: KeyMap::new(),
            nodes: KeyMap::new(),
            conflict_map: KeyMap::new(),
            dependency_map: KeyMap::new(),
        };
        proof {
            e.conflict_map.lemma_view();
        }
        e
    }

    /// Registers `tx` under `tx_hash` and returns the transactions already
    /// claiming an output that it spends; each such pair is recorded as a
    /// conflict in both directions.
    pub fn register_transaction(&mut self, tx: &Transaction, tx_hash: Vec<u8>, fee: u64, arrival_time_ms: u64)
        -> (r: Result<Vec<Vec<u8>>, String>)
        requires
            old(self).wf(),
        ensures
            final(self).wf(),
            r is Ok,
            final(self).nodes_view() == old(self).nodes_view().insert(tx_hash@, TransactionNode {
                tx_hash: final(self).nodes_view()[tx_hash@].tx_hash,
                fee,
                size_bytes: tx.encoded_size as usize,
                arrival_time_ms,
                input_count: tx.inputs@.len() as usize,
                output_count: tx.outputs@.len() as usize,
                in_degree: 0,
                out_degree: 0,
            }),
            final(self).nodes_view()[tx_hash@].tx_hash@ == tx_hash@,
            key_views(r->Ok_0@).to_set() == claimants_of(old(self).utxo_view(), *tx, tx.inputs@.len() as int, tx_hash@),
            forall|k: Seq<u8>| #[trigger] final(self).claimants(k).to_set() == (if has_input_key(*tx, tx.inputs@.len() as int, k) {
                old(self).claimants(k).to_set().insert(tx_hash@)
            } else {
                old(self).claimants(k).to_set()
            }),
            forall|x: Seq<u8>| #[trigger] final(self).conflicts_of(x).to_set() == (if x == tx_hash@ {
                old(self).conflicts_of(x).to_set().union(key_views(r->Ok_0@).to_set())
            } else if key_views(r->Ok_0@).contains(x) {
                old(self).conflicts_of(x).to_set().insert(tx_hash@)
            } else {
                old(self).conflicts_of(x).to_set()
            }),
            final(self).deps_view() == old(self).deps_view(),
    {
        let ghost u0 = self.utxo_view();
        let ghost c0 = self.conflict_view();
        let ghost h = tx_hash@;
        let node = TransactionNode {
            tx_hash: copy_bytes(tx_hash.as_slice()),
            fee,
            size_bytes: tx.encoded_size as usize,
            arrival_time_ms,
            input_count: tx.inputs.len(),
            output_count: tx.outputs.len(),
            in_degree: 0,
            out_degree: 0,
        };
        self.nodes.insert(copy_bytes(tx_hash.as_slice()), node);
        let mut detected: Vec<Vec<u8>> = Vec::new();
        let n = tx.inputs.len();
        let mut i: usize = 0;
        while i < n
            invariant
                self.wf(),
                n == tx.inputs@.len(),
                i <= n,
                h == tx_hash@,
                self.deps_view() == old(self).deps_view(),
                self.nodes_view() == old(self).nodes_view().insert(h, self.nodes_view()[h]),
                self.nodes_view()[h].tx_hash@ == h,
                self.nodes_view()[h].size_bytes == tx.encoded_size as usize,
                self.nodes_view()[h].fee == fee,
                self.nodes_view()[h].arrival_time_ms == arrival_time_ms,
                self.nodes_view()[h].input_count == n,
                self.nodes_view()[h].output_count == tx.outputs@.len(),
                self.nodes_view()[h].in_degree == 0,
                self.nodes_view()[h].out_degree == 0,
                u0 == old(self).utxo_view(),
                c0 == old(self).conflict_view(),
                key_views(detected@).to_set() == claimants_of(u0, *tx, i as int, h),
                forall|k: Seq<u8>| #[trigger] self.claimants(k).to_set() == (if has_input_key(*tx, i as int, k) {
                    list_at::<Vec<u8>, Vec<u8>>(u0, k).to_set().insert(h)
                } else {
                    list_at::<Vec<u8>, Vec<u8>>(u0, k).to_set()
                }),
                forall|x: Seq<u8>| #[trigger] self.conflicts_of(x).to_set() == (if x == h {
                    list_at::<Vec<u8>, Vec<u8>>(c0, x).to_set().union(key_views(detected@).to_set())
                } else if key_views(detected@).contains(x) {
                    list_at::<Vec<u8>, Vec<u8>>(c0, x).to_set().insert(h)
                } else {
                    list_at::<Vec<u8>, Vec<u8>>(c0, x).to_set()
                }),
            decreases n - i,
        {
            let key = outpoint_key(&tx.inputs[i].prev_tx, tx.inputs[i].index);
            let ghost kv = key@;
            let claimants: Vec<Vec<u8>> = match self.utxo_index.get(&key) {
                Some(list) => copy_list(list),
                None => Vec::new(),
            };
            proof {
                assert(key_views(claimants@) == self.claimants(kv));
            }
            let ghost det_start = key_views(detected@).to_set();
            let m = claimants.len();
            let mut j: usize = 0;
            while j < m
                invariant
                    self.wf(),
                    m == claimants@.len(),
                    j <= m,
                    h == tx_hash@,
                    self.deps_view() == old(self).deps_view(),
                    self.nodes_view() == old(self).nodes_view().insert(h, self.nodes_view()[h]),
                    self.nodes_view()[h].tx_hash@ == h,
                    self.nodes_view()[h].size_bytes == tx.encoded_size as usize,
                    self.nodes_view()[h].fee == fee,
                    self.nodes_view()[h].arrival_time_ms == arrival_time_ms,
                    self.nodes_view()[h].input_count == n,
                    self.nodes_view()[h].output_count == tx.outputs@.len(),
                    self.nodes_view()[h].in_degree == 0,
                    self.nodes_view()[h].out_degree == 0,
                    u0 == old(self).utxo_view(),
                    c0 == old(self).conflict_view(),
                    key_views(detected@).to_set() == det_start.union(
                        key_views(claimants@).subrange(0, j as int).to_set().filter(|c: Seq<u8>| c != h)),
                    forall|k: Seq<u8>| #[trigger] self.claimants(k).to_set() == (if has_input_key(*tx, i as int, k) {
                        list_at::<Vec<u8>, Vec<u8>>(u0, k).to_set().insert(h)
                    } else {
                        list_at::<Vec<u8>, Vec<u8>>(u0, k).to_set()
                    }),
                    forall|x: Seq<u8>| #[trigger] self.conflicts_of(x).to_set() == (if x == h {
                        list_at::<Vec<u8>, Vec<u8>>(c0, x).to_set().union(key_views(detected@).to_set())
                    } else if key_views(detected@).contains(x) {
                        list_at::<Vec<u8>, Vec<u8>>(c0, x).to_set().insert(h)
                    } else {
                        list_at::<Vec<u8>, Vec<u8>>(c0, x).to_set()
                    }),
                decreases m - j,
            {
                let claimant = &claimants[j];
                let ghost cv = claimant@;
                let ghost det_prev = key_views(detected@);
                let ghost sub_prev = key_views(claimants@).subrange(0, j as int);
                if !bytes_eq(claimant.as_slice(), tx_hash.as_slice()) {
                    detected.push(copy_bytes(claimant.as_slice()));
                    let ghost conf_before = self.conflict_view();
                    let ghost self_before = *self;
                    push_to_list(&mut self.conflict_map, copy_bytes(tx_hash.as_slice()), copy_bytes(claimant.as_slice()));
                    let ghost conf_mid = self.conflict_view();
                    push_to_list(&mut self.conflict_map, copy_bytes(claimant.as_slice()), copy_bytes(tx_hash.as_slice()));
                    proof {
                        assert forall|k: Seq<u8>| #[trigger] self.claimants(k) == self_before.claimants(k) by {}
                        assert(key_views(detected@) =~= det_prev.push(cv));
                        det_prev.lemma_push_to_set_commute(cv);
                        assert forall|x: Seq<u8>| #[trigger] self.conflicts_of(x).to_set() == (if x == h {
                            list_at::<Vec<u8>, Vec<u8>>(c0, x).to_set().union(key_views(detected@).to_set())
                        } else if key_views(detected@).contains(x) {
                            list_at::<Vec<u8>, Vec<u8>>(c0, x).to_set().insert(h)
                        } else {
                            list_at::<Vec<u8>, Vec<u8>>(c0, x).to_set()
                        }) by {
                            let before_x = list_at::<Vec<u8>, Vec<u8>>(conf_before, x);
                            let mid_x = list_at::<Vec<u8>, Vec<u8>>(conf_mid, x);
                            assert(self_before.conflicts_of(x) == before_x);
                            assert(self_before.conflicts_of(x).to_set() == (if x == h {
                                list_at::<Vec<u8>, Vec<u8>>(c0, x).to_set().union(det_prev.to_set())
                            } else if det_prev.contains(x) {
                                list_at::<Vec<u8>, Vec<u8>>(c0, x).to_set().insert(h)
                            } else {
                                list_at::<Vec<u8>, Vec<u8>>(c0, x).to_set()
                            }));
                            if x == h {
                                assert(mid_x == before_x.push(cv));
                                assert(self.conflicts_of(x) == mid_x);
                                before_x.lemma_push_to_set_commute(cv);
                                assert(self.conflicts_of(x) == mid_x);
                                assert(self.conflicts_of(x).to_set() =~= list_at::<Vec<u8>, Vec<u8>>(c0, x).to_set().union(key_views(detected@).to_set()));
                            } else if x == cv {
                                assert(mid_x == before_x);
                                assert(self.conflicts_of(x) == mid_x.push(h));
                                mid_x.lemma_push_to_set_commute(h);
                                assert(key_views(detected@).contains(x)) by {
                                    assert(key_views(detected@)[det_prev.len() as int] == cv);
                                }
                                if det_prev.contains(x) {
                                    assert(self.conflicts_of(x).to_set() =~= list_at::<Vec<u8>, Vec<u8>>(c0, x).to_set().insert(h));
                                } else {
                                    assert(self.conflicts_of(x).to_set() =~= list_at::<Vec<u8>, Vec<u8>>(c0, x).to_set().insert(h));
                                }
                            } else {
                                assert(mid_x == before_x);
                                assert(self.conflicts_of(x) == mid_x);
                                assert(key_views(detected@).contains(x) == det_prev.contains(x)) by {
                                    if key_views(detected@).contains(x) {
                                        let q = key_views(detected@).index_of(x);
                                        if q < det_prev.len() {
                                            assert(det_prev[q] == x);
                                        }
                                    }
                                    if det_prev.contains(x) {
                                        let q = det_prev.index_of(x);
                                        assert(key_views(detected@)[q] == x);
                                    }
                                }
                            }
                        }
                    }
                }
                j = j + 1;
                proof {
                    let sub = key_views(claimants@).subrange(0, j as int);
                    assert(sub == sub_prev.push(cv));
                    sub_prev.lemma_push_to_set_commute(cv);
                    assert(key_views(detected@).to_set() =~= det_start.union(sub.to_set().filter(|c: Seq<u8>| c != h)));
                }
            }
            let ghost u_before = self.utxo_view();
            let ghost self_u = *self;
            push_to_list(&mut self.utxo_index, key, copy_bytes(tx_hash.as_slice()));
            i = i + 1;
            proof {
                assert forall|x: Seq<u8>| #[trigger] self.conflicts_of(x) == self_u.conflicts_of(x) by {}
                assert(key_views(claimants@).subrange(0, m as int) =~= key_views(claimants@));
                assert forall|k: Seq<u8>| #[trigger] self.claimants(k).to_set() == (if has_input_key(*tx, i as int, k) {
                    list_at::<Vec<u8>, Vec<u8>>(u0, k).to_set().insert(h)
                } else {
                    list_at::<Vec<u8>, Vec<u8>>(u0, k).to_set()
                }) by {
                    assert(self_u.claimants(k) == list_at::<Vec<u8>, Vec<u8>>(u_before, k));
                    assert(self_u.claimants(k).to_set() == (if has_input_key(*tx, i - 1, k) {
                        list_at::<Vec<u8>, Vec<u8>>(u0, k).to_set().insert(h)
                    } else {
                        list_at::<Vec<u8>, Vec<u8>>(u0, k).to_set()
                    }));
                    if k == kv {
                        assert(engine_input_key(*tx, i - 1) == kv);
                        let lb = list_at::<Vec<u8>, Vec<u8>>(u_before, k);
                        lb.lemma_push_to_set_commute(h);
                        assert(self.claimants(k) == lb.push(h));
                        assert(self.claimants(k).to_set() =~= list_at::<Vec<u8>, Vec<u8>>(u0, k).to_set().insert(h));
                    } else {
                        assert(self.claimants(k) == list_at::<Vec<u8>, Vec<u8>>(u_before, k));
                        assert(has_input_key(*tx, i as int, k) == has_input_key(*tx, i - 1, k)) by {
                            if has_input_key(*tx, i as int, k) {
                                let q = choose|q: int| 0 <= q < i && #[trigger] engine_input_key(*tx, q) == k;
                                assert(q < i - 1);
                            }
                        }
                    }
                }
                let cl_set = key_views(claimants@).to_set().filter(|c: Seq<u8>| c != h);
                assert(claimants_of(u0, *tx, i as int, h) =~= claimants_of(u0, *tx, i - 1, h).union(cl_set)) by {
                    assert forall|c: Seq<u8>| claimants_of(u0, *tx, i as int, h).contains(c) implies #[trigger] claimants_of(u0, *tx, i - 1, h).union(cl_set).contains(c) by {
                        let q = choose|q: int| 0 <= q < i && (#[trigger] list_at::<Vec<u8>, Vec<u8>>(u0, engine_input_key(*tx, q))).contains(c);
                        if q == i - 1 {
                            assert(list_at::<Vec<u8>, Vec<u8>>(u0, kv).contains(c));
                            assert(list_at::<Vec<u8>, Vec<u8>>(u0, kv).to_set().contains(c));
                            assert(self.claimants(kv).to_set().contains(c) || true);
                            assert(key_views(claimants@).to_set().contains(c)) by {
                                if has_input_key(*tx, i - 1, kv) {
                                    assert(list_at::<Vec<u8>, Vec<u8>>(u0, kv).to_set().insert(h).contains(c));
                                } else {
                                }
                            }
                        }
                    }
                    assert forall|c: Seq<u8>| #[trigger] claimants_of(u0, *tx, i - 1, h).union(cl_set).contains(c) implies claimants_of(u0, *tx, i as int, h).contains(c) by {
                        if cl_set.contains(c) {
                            assert(key_views(claimants@).to_set().contains(c));
                            let tmp = list_at::<Vec<u8>, Vec<u8>>(u0, kv);
                            assert(tmp.to_set().contains(c) || c == h);
                            assert(tmp.contains(c));
                            assert(list_at::<Vec<u8>, Vec<u8>>(u0, engine_input_key(*tx, i - 1)).contains(c));
                        } else {
                            let q = choose|q: int| 0 <= q < i - 1 && (#[trigger] list_at::<Vec<u8>, Vec<u8>>(u0, engine_input_key(*tx, q))).contains(c);
                            assert(0 <= q < i);
                        }
                    }
                }
            }
        }
        proof {
            assert(self.nodes_view() =~= old(self).nodes_view().insert(h, self.nodes_view()[h]));
        }
        Ok(detected)
    }
}


/// Layers laid end to end.
pub open spec fn concat_layers(g: Seq<Seq<Seq<u8>>>) -> Seq<Seq<u8>>
    decreases g.len(),
{
    if g.len() == 0 {
        Seq::empty()
    } else {
        concat_layers(g.drop_last()) + g.last()
    }
}

/// Views of a list of layers.
pub open spec fn layer_views(g: Seq<Vec<Vec<u8>>>) -> Seq<Seq<Seq<u8>>> {
    g.map_values(|l: Vec<Vec<u8>>| key_views(l@))
}

proof fn lemma_concat_push(g: Seq<Seq<Seq<u8>>>, l: Seq<Seq<u8>>)
    ensures
        concat_layers(g.push(l)) == concat_layers(g) + l,
{
    assert(g.push(l).drop_last() =~= g);
}

impl GraphConflictOrderingEngine {
    /// Some parent of `x` is in `layer`.
    pub open spec fn has_parent_in(&self, x: Seq<u8>, layer: Seq<Seq<u8>>) -> bool {
        exists|p: Seq<u8>| #[trigger] self.parents_of(x).contains(p) && layer.contains(p)
    }

    /// Every parent of `x` is in `s`.
    pub open spec fn parents_within(&self, x: Seq<u8>, s: Set<Seq<u8>>) -> bool {
        forall|p: Seq<u8>| #[trigger] self.parents_of(x).contains(p) ==> s.contains(p)
    }

    /// `x` may start a layer after the transactions in `done`: registered,
    /// ranked, not yet ordered, and with every parent ordered.
    pub open spec fn ready(&self, ranking: Seq<Seq<u8>>, done: Set<Seq<u8>>, x: Seq<u8>) -> bool {
        &&& self.nodes_view().contains_key(x)
        &&& ranking.contains(x)
        &&& !done.contains(x)
        &&& self.parents_within(x, done)
    }

    /// Layers placed so far are sound: each transaction is placed once, in
    /// the first layer after all of its parents, in ranking order.
    pub open spec fn layers_sound(&self, ranking: Seq<Seq<u8>>, g: Seq<Seq<Seq<u8>>>) -> bool {
        &&& concat_layers(g).no_duplicates()
        &&& forall|k: int| 0 <= k < g.len() ==> (#[trigger] g[k]).len() > 0
        &&& forall|k: int, x: Seq<u8>| 0 <= k < g.len() && #[trigger] g[k].contains(x)
            ==> self.ready(ranking, concat_layers(g.take(k)).to_set(), x)
        &&& forall|k: int, a: int, b: int| 0 <= k < g.len() && 0 <= a < b < g[k].len()
            ==> rank_pos(ranking, #[trigger] g[k][a]) < rank_pos(ranking, #[trigger] g[k][b])
        &&& forall|k: int, x: Seq<u8>| 0 < k < g.len() && #[trigger] g[k].contains(x)
            ==> self.has_parent_in(x, g[k - 1])
    }

    /// The last layer holds every transaction that was ready before it.
    pub open spec fn last_layer_complete(&self, ranking: Seq<Seq<u8>>, g: Seq<Seq<Seq<u8>>>) -> bool {
        g.len() > 0 ==> forall|x: Seq<u8>| #[trigger] self.ready(ranking, concat_layers(g.drop_last()).to_set(), x)
            ==> g.last().contains(x)
    }

    /// The layering that the canonical order must have, over `ranking`: sound,
    /// and with no transaction left ready after the last layer.
    pub open spec fn canonical_layers(&self, ranking: Seq<Seq<u8>>, g: Seq<Seq<Seq<u8>>>) -> bool {
        &&& self.layers_sound(ranking, g)
        &&& forall|x: Seq<u8>| !#[trigger] self.ready(ranking, concat_layers(g).to_set(), x)
    }

    /// The canonical layers place every registered transaction when every
    /// registered transaction is ranked, every parent of one is registered,
    /// and the dependencies have no cycle: some depth falls strictly from
    /// each transaction to each of its parents.
    pub proof fn lemma_canonical_layers_place_all(
        &self,
        ranking: Seq<Seq<u8>>,
        g: Seq<Seq<Seq<u8>>>,
        depth: spec_fn(Seq<u8>) -> nat,
    )
        requires
            self.canonical_layers(ranking, g),
            forall|x: Seq<u8>| #[trigger] self.nodes_view().contains_key(x) ==> ranking.contains(x),
            forall|x: Seq<u8>, p: Seq<u8>|
                self.nodes_view().contains_key(x) && #[trigger] self.parents_of(x).contains(p)
                    ==> self.nodes_view().contains_key(p) && depth(p) < depth(x),
        ensures
            forall|x: Seq<u8>| #[trigger] self.nodes_view().contains_key(x) ==> concat_layers(g).contains(x),
    {
        assert forall|x: Seq<u8>| #[trigger] self.nodes_view().contains_key(x) implies concat_layers(g).contains(x) by {
            self.lemma_placed_below(ranking, g, depth, depth(x), x);
        }
    }

    proof fn lemma_placed_below(
        &self,
        ranking: Seq<Seq<u8>>,
        g: Seq<Seq<Seq<u8>>>,
        depth: spec_fn(Seq<u8>) -> nat,
        n: nat,
        x: Seq<u8>,
    )
        requires
            self.canonical_layers(ranking, g),
            forall|x: Seq<u8>| #[trigger] self.nodes_view().contains_key(x) ==> ranking.contains(x),
            forall|x: Seq<u8>, p: Seq<u8>|
                self.nodes_view().contains_key(x) && #[trigger] self.parents_of(x).contains(p)
                    ==> self.nodes_view().contains_key(p) && depth(p) < depth(x),
            self.nodes_view().contains_key(x),
            depth(x) <= n,
        ensures
            concat_layers(g).contains(x),
        decreases n,
    {
        let done = concat_layers(g).to_set();
        if !done.contains(x) {
            assert forall|p: Seq<u8>| #[trigger] self.parents_of(x).contains(p) implies done.contains(p) by {
                self.lemma_placed_below(ranking, g, depth, (n - 1) as nat, p);
            }
            assert(self.ready(ranking, done, x));
        }
    }

    /// A sound layering grows by a layer that holds exactly the ready
    /// transactions, in ranking order.
    proof fn lemma_layer_step(&self, rk: Seq<Seq<u8>>, g0: Seq<Seq<Seq<u8>>>, newl: Seq<Seq<u8>>)
        requires
            self.layers_sound(rk, g0),
            self.last_layer_complete(rk, g0),
            newl.len() > 0,
            newl.no_duplicates(),
            forall|a: int| 0 <= a < newl.len() ==> #[trigger] self.ready(rk, concat_layers(g0).to_set(), newl[a]),
            forall|a: int, b: int| 0 <= a < b < newl.len() ==> rank_pos(rk, #[trigger] newl[a]) < rank_pos(rk, #[trigger] newl[b]),
            forall|x: Seq<u8>| #[trigger] self.ready(rk, concat_layers(g0).to_set(), x) ==> newl.contains(x),
            g0.len() > 0 ==> forall|a: int| #![trigger newl[a]] 0 <= a < newl.len() ==> self.has_parent_in(newl[a], g0.last()),
        ensures
            self.layers_sound(rk, g0.push(newl)),
            self.last_layer_complete(rk, g0.push(newl)),
            concat_layers(g0.push(newl)) == concat_layers(g0) + newl,
    {
        let g1 = g0.push(newl);
        lemma_concat_push(g0, newl);
        assert(g1.drop_last() =~= g0);
        assert(concat_layers(g1).no_duplicates()) by {
            assert forall|x: int| 0 <= x < newl.len() implies !concat_layers(g0).to_set().contains(#[trigger] newl[x]) by {
                assert(self.ready(rk, concat_layers(g0).to_set(), newl[x]));
            }
            lemma_no_dup_concat(concat_layers(g0), newl);
        }
        assert forall|k: int| 0 <= k < g1.len() implies (#[trigger] g1[k]).len() > 0 by {
            if k < g0.len() {
                assert(g1[k] == g0[k]);
            }
        }
        assert forall|k: int, x: Seq<u8>| 0 <= k < g1.len() && #[trigger] g1[k].contains(x)
            implies self.ready(rk, concat_layers(g1.take(k)).to_set(), x) by {
            if k == g0.len() {
                assert(g1.take(k) =~= g0);
                let q = newl.index_of(x);
                assert(self.ready(rk, concat_layers(g0).to_set(), newl[q]));
            } else {
                assert(g1.take(k) =~= g0.take(k));
                assert(g1[k] == g0[k]);
            }
        }
        assert forall|k: int, x: Seq<u8>| 0 < k < g1.len() && #[trigger] g1[k].contains(x)
            implies self.has_parent_in(x, g1[k - 1]) by {
            if k == g0.len() {
                let q = newl.index_of(x);
                assert(newl[q] == x);
                assert(g1[k - 1] == g0.last());
            } else {
                assert(g1[k] == g0[k]);
                assert(g1[k - 1] == g0[k - 1]);
            }
        }
        assert forall|k: int, a: int, b: int| 0 <= k < g1.len() && 0 <= a < b < g1[k].len()
            implies rank_pos(rk, #[trigger] g1[k][a]) < rank_pos(rk, #[trigger] g1[k][b]) by {
            if k < g0.len() {
                assert(g1[k] == g0[k]);
            }
        }
    }

    /// Whether the transaction has conflicting transactions.
    pub fn detect_double_spend(&self, tx_hash: &[u8]) -> (r: Result<bool, String>)
        requires
            self.wf(),
        ensures
            r == Ok::<bool, String>(self.conflicts_of(tx_hash@).len() > 0),
    {
        let key = copy_bytes(tx_hash);
        match self.conflict_map.get(&key) {
            Some(list) => Ok(list.len() > 0),
            None => Ok(false),
        }
    }

    /// The transactions conflicting with `tx_hash`.
    pub fn get_conflicts(&self, tx_hash: &[u8]) -> (r: Vec<Vec<u8>>)
        requires
            self.wf(),
        ensures
            key_views(r@) == self.conflicts_of(tx_hash@),
    {
        let key = copy_bytes(tx_hash);
        match self.conflict_map.get(&key) {
            Some(list) => copy_list(list),
            None => Vec::new(),
        }
    }

    /// Records that `child` depends on `parent`.
    pub fn add_dependency(&mut self, parent: Vec<u8>, child: Vec<u8>) -> (r: Result<(), String>)
        requires
            old(self).wf(),
        ensures
            final(self).wf(),
            r is Ok,
            final(self).parents_of(child@) == old(self).parents_of(child@).push(parent@),
            forall|x: Seq<u8>| x != child@ ==> #[trigger] final(self).parents_of(x) == old(self).parents_of(x),
            final(self).nodes_view() == old(self).nodes_view(),
            final(self).conflict_view() == old(self).conflict_view(),
            final(self).utxo_view() == old(self).utxo_view(),
    {
        push_to_list(&mut self.dependency_map, child, parent);
        Ok(())
    }

    /// Whether every parent of `x` is in `done`.
    fn all_parents_done(&self, x: &Vec<u8>, done: &KeySet<Vec<u8>>) -> (b: bool)
        requires
            self.wf(),
            done.wf(),
        ensures
            b == self.parents_within(x@, done@),
    {
        match self.dependency_map.get(x) {
            Some(parents) => {
                let mut i: usize = 0;
                while i < parents.len()
                    invariant
                        self.wf(),
                        done.wf(),
                        key_views(parents@) == self.parents_of(x@),
                        i <= parents@.len(),
                        forall|j: int| 0 <= j < i ==> done@.contains(#[trigger] parents@[j]@),
                    decreases parents@.len() - i,
                {
                    if !done.contains(&parents[i]) {
                        proof {
                            assert(self.parents_of(x@).contains(parents@[i as int]@)) by {
                                assert(key_views(parents@)[i as int] == parents@[i as int]@);
                            }
                        }
                        return false;
                    }
                    i = i + 1;
                }
                proof {
                    assert forall|p: Seq<u8>| #[trigger] self.parents_of(x@).contains(p) implies done@.contains(p) by {
                        let j = self.parents_of(x@).index_of(p);
                        assert(parents@[j]@ == p);
                    }
                }
                true
            },
            None => true,
        }
    }

    /// The transactions ready after `done`, in ranking order.
    fn ready_layer(&self, ranking: &Vec<Vec<u8>>, done: &KeySet<Vec<u8>>, Ghost(g0): Ghost<Seq<Seq<Seq<u8>>>>) -> (layer: Vec<Vec<u8>>)
        requires
            self.wf(),
            done.wf(),
            done@ == concat_layers(g0).to_set(),
            self.layers_sound(key_views(ranking@), g0),
            self.last_layer_complete(key_views(ranking@), g0),
        ensures
            key_views(layer@).no_duplicates(),
            forall|a: int| 0 <= a < layer@.len() ==> #[trigger] self.ready(key_views(ranking@), done@, key_views(layer@)[a]),
            forall|a: int, b: int| 0 <= a < b < layer@.len() ==> rank_pos(key_views(ranking@), #[trigger] key_views(layer@)[a]) < rank_pos(key_views(ranking@), #[trigger] key_views(layer@)[b]),
            forall|x: Seq<u8>| #[trigger] self.ready(key_views(ranking@), done@, x) ==> key_views(layer@).contains(x),
            g0.len() > 0 ==> forall|a: int| #![trigger key_views(layer@)[a]] 0 <= a < layer@.len() ==> self.has_parent_in(key_views(layer@)[a], g0.last()),
    {
        let ghost rk = key_views(ranking@);
        let mut layer: Vec<Vec<u8>> = Vec::new();
        let mut j: usize = 0;
        while j < ranking.len()
            invariant
                self.wf(),
                done.wf(),
                rk == key_views(ranking@),
                j <= ranking@.len(),
                done@ == concat_layers(g0).to_set(),
                self.layers_sound(rk, g0),
                self.last_layer_complete(rk, g0),
                key_views(layer@).no_duplicates(),
                forall|a: int| 0 <= a < layer@.len() ==> #[trigger] self.ready(rk, done@, key_views(layer@)[a]),
                forall|a: int| 0 <= a < layer@.len() ==> rank_pos(rk, #[trigger] key_views(layer@)[a]) < j,
                forall|a: int, b: int| 0 <= a < b < layer@.len() ==> rank_pos(rk, #[trigger] key_views(layer@)[a]) < rank_pos(rk, #[trigger] key_views(layer@)[b]),
                forall|q: int| 0 <= q < j && #[trigger] self.ready(rk, done@, rk[q]) ==> key_views(layer@).contains(rk[q]),
                g0.len() > 0 ==> forall|a: int| #![trigger key_views(layer@)[a]] 0 <= a < layer@.len() ==> self.has_parent_in(key_views(layer@)[a], g0.last()),
            decreases ranking@.len() - j,
        {
            let cand = &ranking[j];
            let ghost cv = cand@;
            let ghost prev = key_views(layer@);
            proof {
                assert(rk[j as int] == cv);
            }
            if self.nodes.contains_key(cand) && !done.contains(cand) && !list_contains(&layer, cand.as_slice())
                && self.all_parents_done(cand, &done) {
                proof {
                    assert(rk.contains(cv));
                    rk.index_of_first_ensures(cv);
                    assert(rank_pos(rk, cv) == j) by {
                        if rank_pos(rk, cv) < j {
                            assert(rk[rank_pos(rk, cv)] == cv);
                            assert(self.ready(rk, done@, rk[rank_pos(rk, cv)]));
                        }
                    }
                    assert(self.ready(rk, done@, cv));
                    if g0.len() > 0 {
                        let d1 = concat_layers(g0.drop_last()).to_set();
                        assert(g0 == g0.drop_last().push(g0.last()));
                        lemma_concat_push(g0.drop_last(), g0.last());
                        lemma_to_set_add(concat_layers(g0.drop_last()), g0.last());
                        assert(!g0.last().contains(cv)) by {
                            if g0.last().contains(cv) {
                                assert(done@.contains(cv));
                            }
                        }
                        assert(!self.ready(rk, d1, cv));
                        assert(!d1.contains(cv));
                        let p = choose|p: Seq<u8>| #[trigger] self.parents_of(cv).contains(p) && !d1.contains(p);
                        assert(done@.contains(p));
                        assert(g0.last().contains(p));
                    }
                }
                layer.push(copy_bytes(cand.as_slice()));
                proof {
                    assert(key_views(layer@) =~= prev.push(cv));
                    if g0.len() > 0 {
                        assert forall|a: int| #![trigger key_views(layer@)[a]] 0 <= a < layer@.len() implies self.has_parent_in(key_views(layer@)[a], g0.last()) by {
                            if a < prev.len() {
                                assert(key_views(layer@)[a] == prev[a]);
                                assert(self.has_parent_in(prev[a], g0.last()));
                            } else {
                                assert(key_views(layer@)[a] == cv);
                                let d1 = concat_layers(g0.drop_last()).to_set();
                                assert(g0 == g0.drop_last().push(g0.last()));
                                lemma_concat_push(g0.drop_last(), g0.last());
                                lemma_to_set_add(concat_layers(g0.drop_last()), g0.last());
                                assert(!g0.last().contains(cv)) by {
                                    if g0.last().contains(cv) {
                                        assert(done@.contains(cv));
                                    }
                                }
                                assert(!self.ready(rk, d1, cv));
                                let p = choose|p: Seq<u8>| #[trigger] self.parents_of(cv).contains(p) && !d1.contains(p);
                                assert(done@.contains(p));
                                assert(g0.last().contains(p));
                            }
                        }
                    }
                }
            }
            proof {
                assert forall|q: int| 0 <= q < j + 1 && #[trigger] self.ready(rk, done@, rk[q]) implies key_views(layer@).contains(rk[q]) by {
                    if q < j {
                        assert(prev.contains(rk[q]));
                        let t = prev.index_of(rk[q]);
                        assert(key_views(layer@)[t] == rk[q]);
                    } else {
                        if !prev.contains(cv) {
                            assert(key_views(layer@)[prev.len() as int] == cv);
                        } else {
                            let t = prev.index_of(cv);
                            assert(key_views(layer@)[t] == cv);
                        }
                    }
                }
            }
            j = j + 1;
        }
        proof {
            assert forall|x: Seq<u8>| #[trigger] self.ready(rk, done@, x) implies key_views(layer@).contains(x) by {
                let q = rk.index_of(x);
                assert(rk[q] == x);
            }
        }
        layer
    }

    /// Orders the registered transactions in layers: a transaction enters the
    /// first layer after all of its parents, and within a layer transactions
    /// follow `ranking` (highest priority first). Transactions missing from
    /// `ranking`, or with a parent that never becomes ready, are left out.
    /// Fails only when the conflict entries are too many to count in a
    /// `usize`.
    pub fn compute_canonical_order(&self, ranking: &Vec<Vec<u8>>) -> (r: Result<CanonicalOrderingResult, String>)
        requires
            self.wf(),
        ensures
            r is Ok <==> self.total_conflict_entries() <= usize::MAX,
            r is Ok ==> self.canonical_layers(key_views(ranking@), layer_views(r->Ok_0.parallel_groups@)),
            r is Ok ==> key_views(r->Ok_0.ordered_hashes@) == concat_layers(layer_views(r->Ok_0.parallel_groups@)),
            r is Ok ==> r->Ok_0.layer_count == r->Ok_0.parallel_groups@.len(),
            r is Ok ==> r->Ok_0.conflict_count == self.total_conflict_entries() / 2,
    {
        let ghost rk = key_views(ranking@);
        let mut done: KeySet<Vec<u8>> = KeySet::new();
        let mut ordered: Vec<Vec<u8>> = Vec::new();
        let mut groups: Vec<Vec<Vec<u8>>> = Vec::new();
        proof {
            self.nodes.lemma_view();
            assert(layer_views(groups@) =~= Seq::<Seq<Seq<u8>>>::empty());
            assert(key_views(ordered@) =~= Seq::<Seq<u8>>::empty());
            assert(key_views(ordered@).to_set() =~= Set::<Seq<u8>>::empty());
        }
        loop
            invariant_except_break
                self.wf(),
                done.wf(),
                rk == key_views(ranking@),
                key_views(ordered@) == concat_layers(layer_views(groups@)),
                done@ == key_views(ordered@).to_set(),
                done@.subset_of(self.nodes_view().dom()),
                self.nodes_view().dom().finite(),
                self.layers_sound(rk, layer_views(groups@)),
                self.last_layer_complete(rk, layer_views(groups@)),
            ensures
                self.canonical_layers(rk, layer_views(groups@)),
                key_views(ordered@) == concat_layers(layer_views(groups@)),
            decreases self.nodes_view().dom().len() - done@.len(),
        {
            let ghost g0 = layer_views(groups@);
            let layer = self.ready_layer(ranking, &done, Ghost(g0));
            if layer.len() == 0 {
                proof {
                    assert forall|x: Seq<u8>| !#[trigger] self.ready(rk, done@, x) by {
                        if self.ready(rk, done@, x) {
                            let q = rk.index_of(x);
                            assert(rk[q] == x);
                        }
                    }
                }
                break;
            }
            let ghost newl = key_views(layer@);
            proof {
                if g0.len() > 0 {
                    assert forall|a: int| #![trigger newl[a]] 0 <= a < newl.len() implies self.has_parent_in(newl[a], g0.last()) by {
                        assert(newl[a] == key_views(layer@)[a]);
                    }
                }
                assert forall|b: int| 0 <= b < newl.len() implies !concat_layers(g0).to_set().contains(#[trigger] newl[b]) by {
                    assert(self.ready(rk, done@, newl[b]));
                }
            }
            let mut a: usize = 0;
            while a < layer.len()
                invariant
                    done.wf(),
                    a <= layer@.len(),
                    newl == key_views(layer@),
                    forall|b: int| 0 <= b < newl.len() ==> !concat_layers(g0).to_set().contains(#[trigger] newl[b]),
                    done@ == concat_layers(g0).to_set().union(newl.subrange(0, a as int).to_set()),
                    key_views(ordered@) == concat_layers(g0) + newl.subrange(0, a as int),
                decreases layer@.len() - a,
            {
                let item = copy_bytes(layer[a].as_slice());
                let ghost iv = item@;
                let ghost prev_o = key_views(ordered@);
                done.insert(copy_bytes(item.as_slice()));
                ordered.push(item);
                a = a + 1;
                proof {
                    assert(key_views(ordered@) =~= prev_o.push(iv));
                    assert(newl.subrange(0, a as int) =~= newl.subrange(0, a - 1).push(iv));
                    newl.subrange(0, a - 1).lemma_push_to_set_commute(iv);
                    assert(key_views(ordered@) =~= concat_layers(g0) + newl.subrange(0, a as int));
                }
            }
            groups.push(layer);
            proof {
                let g1 = layer_views(groups@);
                assert(g1 =~= g0.push(newl));
                assert forall|x: Seq<u8>| #[trigger] self.ready(rk, concat_layers(g0).to_set(), x) implies newl.contains(x) by {
                    let q = rk.index_of(x);
                    assert(rk[q] == x);
                }
                self.lemma_layer_step(rk, g0, newl);
                assert(newl.subrange(0, newl.len() as int) =~= newl);
                lemma_to_set_add(concat_layers(g0), newl);
                assert(done@ =~= concat_layers(g1).to_set());
                let old_done = concat_layers(g0).to_set();
                assert(done@.subset_of(self.nodes_view().dom())) by {
                    assert forall|x: Seq<u8>| done@.contains(x) implies self.nodes_view().dom().contains(x) by {
                        if newl.contains(x) {
                            let q = newl.index_of(x);
                            assert(self.ready(rk, old_done, newl[q]));
                        }
                    }
                }
                vstd::set_lib::lemma_len_subset(old_done, self.nodes_view().dom());
                assert(!old_done.contains(newl[0])) by {
                    assert(self.ready(rk, old_done, newl[0]));
                }
                assert(old_done.insert(newl[0]).subset_of(done@));
                vstd::set_lib::lemma_len_subset(old_done.insert(newl[0]), done@);
                vstd::set_lib::lemma_len_subset(done@, self.nodes_view().dom());
            }
        }
        let conflict_count = match self.count_conflict_entries() {
            Some(n) => n / 2,
            None => {
                return Err(String::from_str("too many conflict entries to count"));
            },
        };
        let layer_count = groups.len();
        Ok(CanonicalOrderingResult { ordered_hashes: ordered, layer_count, parallel_groups: groups, conflict_count })
    }

    /// Sum of the lengths of the conflict lists.
    pub closed spec fn total_conflict_entries(&self) -> nat {
        sum_list_lens(self.conflict_map.value_seq())
    }

    /// The conflict entries are the lengths of all conflict lists added up;
    /// with every list empty (as in a new engine) there are none.
    pub proof fn lemma_conflict_entries(&self)
        requires
            self.wf(),
        ensures
            self.total_conflict_entries() == conflict_entries_in(self.conflict_view()),
            (forall|k: Seq<u8>| #[trigger] self.conflict_view().contains_key(k) ==> self.conflict_view()[k]@.len() == 0)
                ==> self.total_conflict_entries() == 0,
    {
        self.conflict_map.lemma_view();
        let ks = self.conflict_map.key_seq();
        let vs = self.conflict_map.value_seq();
        let m = self.conflict_view();
        lemma_lens_as_total(ks, vs, m, ks.len() as int);
        assert(ks.take(ks.len() as int) =~= ks);
        assert(vs.take(vs.len() as int) =~= vs);
        if forall|k: Seq<u8>| #[trigger] m.contains_key(k) ==> m[k]@.len() == 0 {
            lemma_set_total_agree(m.dom(), conflict_list_len(m), |k: Seq<u8>| 0int);
            lemma_set_total_zero(m.dom());
        }
    }

    /// Counts the conflict entries; `None` when they do not fit in a `usize`.
    fn count_conflict_entries(&self) -> (r: Option<usize>)
        requires
            self.wf(),
        ensures
            r matches Some(n) ==> n == self.total_conflict_entries(),
            r is None <==> self.total_conflict_entries() > usize::MAX,
    {
        let mut total: usize = 0;
        let mut i: usize = 0;
        let n = self.conflict_map.len();
        while i < n
            invariant
                self.wf(),
                n == self.conflict_map.key_seq().len(),
                i <= n,
                total == sum_list_lens(self.conflict_map.value_seq().take(i as int)),
            decreases n - i,
        {
            let ghost vs = self.conflict_map.value_seq();
            proof {
                self.conflict_map.lemma_view();
                assert(vs.take(i + 1).drop_last() =~= vs.take(i as int));
                lemma_sum_list_lens_prefix(vs, i + 1);
            }
            let l = self.conflict_map.value_at(i).len();
            match total.checked_add(l) {
                Some(t) => {
                    total = t;
                },
                None => {
                    return None;
                },
            }
            i = i + 1;
        }
        proof {
            self.conflict_map.lemma_view();
            assert(self.conflict_map.value_seq().take(n as int) =~= self.conflict_map.value_seq());
        }
        Some(total)
    }

    /// Total number of conflict entries, each conflict counted from both
    /// sides, halved; a count too large for a `usize` is taken as
    /// `usize::MAX`.
    pub fn get_conflict_count(&self) -> (n: usize)
        requires
            self.wf(),
        ensures
            self.total_conflict_entries() <= usize::MAX ==> n == self.total_conflict_entries() / 2,
            self.total_conflict_entries() > usize::MAX ==> n == usize::MAX / 2,
    {
        match self.count_conflict_entries() {
            Some(t) => t / 2,
            None => usize::MAX / 2,
        }
    }

    /// Number of registered transactions.
    pub fn transaction_count(&self) -> (n: usize)
        requires
            self.wf(),
        ensures
            n == self.nodes_view().len(),
    {
        self.nodes.len()
    }

    /// Node of `tx_hash`.
    pub fn get_node(&self, tx_hash: &[u8]) -> (r: Option<TransactionNode>)
        requires
            self.wf(),
        ensures
            match r {
                Some(n) => self.nodes_view().contains_key(tx_hash@) && n.tx_hash@ == self.nodes_view()[tx_hash@].tx_hash@
                    && n.fee == self.nodes_view()[tx_hash@].fee
                    && n.size_bytes == self.nodes_view()[tx_hash@].size_bytes
                    && n.arrival_time_ms == self.nodes_view()[tx_hash@].arrival_time_ms
                    && n.input_count == self.nodes_view()[tx_hash@].input_count
                    && n.output_count == self.nodes_view()[tx_hash@].output_count
                    && n.in_degree == self.nodes_view()[tx_hash@].in_degree
                    && n.out_degree == self.nodes_view()[tx_hash@].out_degree,
                None => !self.nodes_view().contains_key(tx_hash@),
            },
    {
        let key = copy_bytes(tx_hash);
        match self.nodes.get(&key) {
            Some(n) => Some(TransactionNode {
                tx_hash: copy_bytes(n.tx_hash.as_slice()),
                fee: n.fee,
                size_bytes: n.size_bytes,
                arrival_time_ms: n.arrival_time_ms,
                input_count: n.input_count,
                output_count: n.output_count,
                in_degree: n.in_degree,
                out_degree: n.out_degree,
            }),
            None => None,
        }
    }

    /// Empties the engine.
    pub fn clear(&mut self)
        ensures
            final(self).wf(),
            final(self).nodes_view() == Map::<Seq<u8>, TransactionNode>::empty(),
            final(self).utxo_view() == Map::<Seq<u8>, Vec<Vec<u8>>>::empty(),
            final(self).conflict_view() == Map::<Seq<u8>, Vec<Vec<u8>>>::empty(),
            final(self).deps_view() == Map::<Seq<u8>, Vec<Vec<u8>>>::empty(),
    {
        self.utxo_index.clear();
        self.nodes.clear();
        self.conflict_map.clear();
        self.dependency_map.clear();
    }
}

/// Sum of the lengths of the lists.
pub open spec fn sum_list_lens(s: Seq<Vec<Vec<u8>>>) -> nat
    decreases s.len(),
{
    if s.len() == 0 {
        0
    } else {
        sum_list_lens(s.drop_last()) + s.last()@.len()
    }
}

/// The length of each conflict list of `m`.
pub open spec fn conflict_list_len(m: Map<Seq<u8>, Vec<Vec<u8>>>) -> spec_fn(Seq<u8>) -> int {
    |k: Seq<u8>| m[k]@.len() as int
}

/// The lengths of all conflict lists of `m` added up.
pub open spec fn conflict_entries_in(m: Map<Seq<u8>, Vec<Vec<u8>>>) -> int {
    set_total(m.dom(), conflict_list_len(m))
}

proof fn lemma_set_total_zero(s: Set<Seq<u8>>)
    ensures
        set_total(s, |k: Seq<u8>| 0int) == 0,
    decreases s.len(),
{
    if s.finite() && s.len() > 0 {
        lemma_set_total_zero(s.remove(s.choose()));
    }
}

proof fn lemma_lens_as_total(ks: Seq<Seq<u8>>, vs: Seq<Vec<Vec<u8>>>, m: Map<Seq<u8>, Vec<Vec<u8>>>, n: int)
    requires
        ks.len() == vs.len(),
        ks.no_duplicates(),
        0 <= n <= ks.len(),
        forall|i: int| 0 <= i < ks.len() ==> #[trigger] m[ks[i]] == vs[i],
    ensures
        sum_list_lens(vs.take(n)) == set_total(ks.take(n).to_set(), conflict_list_len(m)),
    decreases n,
{
    if n == 0 {
        assert(vs.take(0) =~= Seq::<Vec<Vec<u8>>>::empty());
        assert(ks.take(0).to_set() =~= Set::<Seq<u8>>::empty());
    } else {
        lemma_lens_as_total(ks, vs, m, n - 1);
        let t = ks.take(n);
        let s = t.to_set();
        assert(vs.take(n).drop_last() =~= vs.take(n - 1));
        assert(vs.take(n).last() == vs[n - 1]);
        vstd::seq_lib::seq_to_set_is_finite(t);
        assert(t[n - 1] == ks[n - 1]);
        assert(s.contains(ks[n - 1]));
        assert(s.remove(ks[n - 1]) =~= ks.take(n - 1).to_set()) by {
            assert forall|x: Seq<u8>| #[trigger] s.remove(ks[n - 1]).contains(x) implies ks.take(n - 1).to_set().contains(x) by {
                let q = t.index_of(x);
                assert(t[q] == ks[q]);
                if q == n - 1 {
                    assert(false);
                }
                assert(ks.take(n - 1)[q] == x);
            }
            assert forall|x: Seq<u8>| #[trigger] ks.take(n - 1).to_set().contains(x) implies s.remove(ks[n - 1]).contains(x) by {
                let q = ks.take(n - 1).index_of(x);
                assert(ks[q] == x);
                assert(t[q] == x);
                assert(q != n - 1);
            }
        }
        lemma_set_total_remove(s, conflict_list_len(m), ks[n - 1]);
        assert(m[ks[n - 1]] == vs[n - 1]);
    }
}

proof fn lemma_sum_list_lens_prefix(s: Seq<Vec<Vec<u8>>>, i: int)
    requires
        0 <= i <= s.len(),
    ensures
        sum_list_lens(s.take(i)) <= sum_list_lens(s),
    decreases s.len() - i,
{
    if i < s.len() {
        lemma_sum_list_lens_prefix(s, i + 1);
        assert(s.take(i + 1).drop_last() =~= s.take(i));
    } else {
        assert(s.take(i) =~= s);
    }
}

proof fn lemma_no_dup_concat(a: Seq<Seq<u8>>, b: Seq<Seq<u8>>)
    requires
        a.no_duplicates(),
        b.no_duplicates(),
        forall|x: int| 0 <= x < b.len() ==> !a.to_set().contains(#[trigger] b[x]),
    ensures
        (a + b).no_duplicates(),
{
    let c = a + b;
    assert forall|i: int, j: int| 0 <= i < c.len() && 0 <= j < c.len() && i != j implies c[i] != c[j] by {
        if i < a.len() && j >= a.len() {
            assert(a.to_set().contains(a[i]));
            assert(c[j] == b[j - a.len()]);
        } else if j < a.len() && i >= a.len() {
            assert(a.to_set().contains(a[j]));
            assert(c[i] == b[i - a.len()]);
        }
    }
}

/// The elements of a concatenation are those of either part.
pub proof fn lemma_to_set_add<A>(a: Seq<A>, b: Seq<A>)
    ensures
        (a + b).to_set() == a.to_set().union(b.to_set()),
{
    assert forall|x: A| (a + b).to_set().contains(x) <==> a.to_set().union(b.to_set()).contains(x) by {
        if (a + b).contains(x) {
            let i = (a + b).index_of(x);
            if i < a.len() {
                assert(a[i] == x);
            } else {
                assert(b[i - a.len()] == x);
            }
        }
        if a.contains(x) {
            let i = a.index_of(x);
            assert((a + b)[i] == x);
        }
        if b.contains(x) {
            let i = b.index_of(x);
            assert((a + b)[i + a.len()] == x);
        }
    }
    assert((a + b).to_set() =~= a.to_set().union(b.to_set()));
}

/// Position of the first occurrence of `x` in `ranking`, or -1.
pub open spec fn rank_pos(ranking: Seq<Seq<u8>>, x: Seq<u8>) -> int {
    match ranking.index_of_first(x) {
        Some(i) => i,
        None => -1,
    }
}

/// The list without the elements of `drop`.
pub fn retain_not_in(list: &Vec<Vec<u8>>, drop: &KeySet<Vec<u8>>) -> (r: Vec<Vec<u8>>)
    requires
        drop.wf(),
    ensures
        key_views(r@) == key_views(list@).filter(|x: Seq<u8>| !drop@.contains(x)),
{
    let ghost pred = |x: Seq<u8>| !drop@.contains(x);
    let mut r: Vec<Vec<u8>> = Vec::new();
    let mut i: usize = 0;
    while i < list.len()
        invariant
            drop.wf(),
            i <= list@.len(),
            pred == (|x: Seq<u8>| !drop@.contains(x)),
            key_views(r@) == key_views(list@).take(i as int).filter(pred),
        decreases list@.len() - i,
    {
        let ghost prev = key_views(r@);
        let ghost lv = key_views(list@);
        proof {
            assert(lv.take(i + 1).drop_last() =~= lv.take(i as int));
            assert(lv.take(i + 1).last() == list@[i as int]@);
        }
        let keep = !drop.contains(&list[i]);
        proof {
            reveal_with_fuel(Seq::<Seq<u8>>::filter, 1);
            assert(keep == pred(lv[i as int]));
            assert(lv.take(i + 1).filter(pred) == (if pred(lv.take(i + 1).last()) {
                lv.take(i + 1).drop_last().filter(pred).push(lv.take(i + 1).last())
            } else {
                lv.take(i + 1).drop_last().filter(pred)
            }));
        }
        if keep {
            r.push(copy_bytes(list[i].as_slice()));
            proof {
                assert(key_views(r@) =~= prev.push(list@[i as int]@));
            }
        }
        i = i + 1;
    }
    proof {
        assert(key_views(list@).take(list@.len() as int) =~= key_views(list@));
    }
    r
}

impl GraphConflictOrderingEngine {
    /// The members of `list` that are registered, in order.
    fn keep_registered(&self, list: &Vec<Vec<u8>>) -> (r: Vec<Vec<u8>>)
        requires
            self.wf(),
        ensures
            key_views(r@) == key_views(list@).filter(|x: Seq<u8>| self.nodes_view().contains_key(x)),
    {
        let ghost pred = |x: Seq<u8>| self.nodes_view().contains_key(x);
        let mut r: Vec<Vec<u8>> = Vec::new();
        let mut i: usize = 0;
        while i < list.len()
            invariant
                self.wf(),
                i <= list@.len(),
                pred == (|x: Seq<u8>| self.nodes_view().contains_key(x)),
                key_views(r@) == key_views(list@).take(i as int).filter(pred),
            decreases list@.len() - i,
        {
            let ghost prev = key_views(r@);
            let ghost lv = key_views(list@);
            proof {
                assert(lv.take(i + 1).drop_last() =~= lv.take(i as int));
                assert(lv.take(i + 1).last() == list@[i as int]@);
            }
            let keep = self.nodes.contains_key(&list[i]);
            proof {
                reveal_with_fuel(Seq::<Seq<u8>>::filter, 1);
                assert(keep == pred(lv[i as int]));
                assert(lv.take(i + 1).filter(pred) == (if pred(lv.take(i + 1).last()) {
                    lv.take(i + 1).drop_last().filter(pred).push(lv.take(i + 1).last())
                } else {
                    lv.take(i + 1).drop_last().filter(pred)
                }));
            }
            if keep {
                r.push(copy_bytes(list[i].as_slice()));
                proof {
                    assert(key_views(r@) =~= prev.push(list@[i as int]@));
                }
            }
            i = i + 1;
        }
        proof {
            assert(key_views(list@).take(list@.len() as int) =~= key_views(list@));
        }
        r
    }
}

impl GraphConflictOrderingEngine {
    /// `z` lists `y` among its parents.
    pub open spec fn is_dependent_of(&self, z: Seq<u8>, y: Seq<u8>) -> bool {
        self.deps_view().contains_key(z) && self.parents_of(z).contains(y)
    }

    /// `s[i]` depends on an element placed before it in `s`.
    pub open spec fn reached_from_earlier(&self, s: Seq<Seq<u8>>, i: int) -> bool {
        exists|j: int| 0 <= j < i && #[trigger] self.is_dependent_of(s[i], s[j])
    }

    /// Removes `tx_hash` and, transitively, every transaction that depends
    /// on a removed one; returns the removed hashes, `tx_hash` first.
    pub fn remove_transaction_cascade(&mut self, tx_hash: &[u8]) -> (r: Result<Vec<Vec<u8>>, String>)
        requires
            old(self).wf(),
        ensures
            final(self).wf(),
            r is Ok,
            key_views(r->Ok_0@).len() > 0,
            key_views(r->Ok_0@)[0] == tx_hash@,
            key_views(r->Ok_0@).no_duplicates(),
            forall|y: Seq<u8>, z: Seq<u8>| key_views(r->Ok_0@).contains(y) && #[trigger] old(self).is_dependent_of(z, y)
                ==> key_views(r->Ok_0@).contains(z),
            forall|i: int| 0 < i < key_views(r->Ok_0@).len() ==> #[trigger] old(self).reached_from_earlier(key_views(r->Ok_0@), i),
            final(self).nodes_view() == old(self).nodes_view().remove_keys(key_views(r->Ok_0@).to_set()),
            final(self).deps_view() == old(self).deps_view().remove_keys(key_views(r->Ok_0@).to_set()),
            final(self).conflict_view().dom() == old(self).conflict_view().dom().difference(key_views(r->Ok_0@).to_set()),
            forall|k: Seq<u8>| !key_views(r->Ok_0@).contains(k) ==> #[trigger] final(self).conflicts_of(k)
                == old(self).conflicts_of(k).filter(|x: Seq<u8>| !key_views(r->Ok_0@).to_set().contains(x)),
            final(self).utxo_view().dom() == old(self).utxo_view().dom(),
            forall|k: Seq<u8>| #[trigger] final(self).claimants(k)
                == old(self).claimants(k).filter(|x: Seq<u8>| !key_views(r->Ok_0@).to_set().contains(x)),
    {
        let mut to_remove: Vec<Vec<u8>> = Vec::new();
        let mut members: KeySet<Vec<u8>> = KeySet::new();
        to_remove.push(copy_bytes(tx_hash));
        members.insert(copy_bytes(tx_hash));
        let ghost h = tx_hash@;
        proof {
            assert(key_views(to_remove@) =~= seq![h]);
            assert(members@ =~= seq![h].to_set()) by {
                assert(seq![h][0] == h);
                assert(seq![h].contains(h));
            }
            self.dependency_map.lemma_view();
        }
        let mut i: usize = 0;
        while i < to_remove.len()
            invariant
                self.wf(),
                members.wf(),
                *self == *old(self),
                i <= to_remove@.len(),
                key_views(to_remove@).len() > 0,
                key_views(to_remove@)[0] == h,
                key_views(to_remove@).no_duplicates(),
                members@ == key_views(to_remove@).to_set(),
                forall|a: int, z: Seq<u8>| 0 <= a < i && #[trigger] self.is_dependent_of(z, key_views(to_remove@)[a])
                    ==> members@.contains(z),
                forall|a: int| 0 < a < key_views(to_remove@).len() ==> #[trigger] self.reached_from_earlier(key_views(to_remove@), a),
                members@.subset_of(self.deps_view().dom().insert(h)),
                self.deps_view().dom().finite(),
            decreases self.deps_view().dom().insert(h).len() - i,
        {
            let current = copy_bytes(to_remove[i].as_slice());
            let ghost cur = current@;
            let n = self.dependency_map.len();
            let mut d: usize = 0;
            while d < n
                invariant
                    self.wf(),
                    members.wf(),
                    *self == *old(self),
                    n == self.dependency_map.key_seq().len(),
                    d <= n,
                    i < to_remove@.len(),
                    cur == key_views(to_remove@)[i as int],
                    current@ == cur,
                    key_views(to_remove@).len() > 0,
                    key_views(to_remove@)[0] == h,
                    key_views(to_remove@).no_duplicates(),
                    members@ == key_views(to_remove@).to_set(),
                    forall|a: int, z: Seq<u8>| 0 <= a < i && #[trigger] self.is_dependent_of(z, key_views(to_remove@)[a])
                        ==> members@.contains(z),
                    forall|e: int| 0 <= e < d && #[trigger] self.is_dependent_of(self.dependency_map.key_seq()[e], cur)
                        ==> members@.contains(self.dependency_map.key_seq()[e]),
                    forall|a: int| 0 < a < key_views(to_remove@).len() ==> #[trigger] self.reached_from_earlier(key_views(to_remove@), a),
                    members@.subset_of(self.deps_view().dom().insert(h)),
                    self.deps_view().dom().finite(),
                decreases n - d,
            {
                proof {
                    self.dependency_map.lemma_view();
                }
                let dependent = self.dependency_map.key_at(d);
                let parents = self.dependency_map.value_at(d);
                let ghost dv = dependent@;
                proof {
                    assert(dv == self.dependency_map.key_seq()[d as int]);
                    assert(self.deps_view().contains_key(dv));
                    assert(self.parents_of(dv) == key_views(parents@));
                }
                let listed = list_contains(parents, current.as_slice());
                let already = members.contains(dependent);
                proof {
                    assert(listed == key_views(parents@).contains(current@));
                    assert(current@ == cur);
                    if listed {
                        assert(self.is_dependent_of(dv, cur));
                    }
                }
                if listed && !already {
                    let ghost prev = key_views(to_remove@);
                    to_remove.push(copy_bytes(dependent.as_slice()));
                    members.insert(copy_bytes(dependent.as_slice()));
                    proof {
                        assert(key_views(to_remove@) =~= prev.push(dv));
                        prev.lemma_push_to_set_commute(dv);
                        assert(self.is_dependent_of(dv, cur));
                        assert forall|a: int| 0 < a < key_views(to_remove@).len() implies #[trigger] self.reached_from_earlier(key_views(to_remove@), a) by {
                            if a == prev.len() {
                                assert(key_views(to_remove@)[i as int] == cur);
                                assert(self.is_dependent_of(key_views(to_remove@)[a], key_views(to_remove@)[i as int]));
                            } else {
                                assert(key_views(to_remove@)[a] == prev[a]);
                                assert(self.reached_from_earlier(prev, a));
                                let j = choose|j: int| 0 <= j < a && #[trigger] self.is_dependent_of(prev[a], prev[j]);
                                assert(key_views(to_remove@)[j] == prev[j]);
                            }
                        }
                        assert forall|a: int, z: Seq<u8>| 0 <= a < i && #[trigger] self.is_dependent_of(z, key_views(to_remove@)[a])
                            implies members@.contains(z) by {
                            assert(key_views(to_remove@)[a] == prev[a]);
                        }
                    }
                }
                d = d + 1;
            }
            proof {
                assert forall|a: int, z: Seq<u8>| 0 <= a < i + 1 && #[trigger] self.is_dependent_of(z, key_views(to_remove@)[a])
                    implies members@.contains(z) by {
                    if a == i {
                        let e = self.dependency_map.key_seq().index_of(z);
                        self.dependency_map.lemma_view();
                        assert(self.dependency_map.key_seq().to_set().contains(z));
                        assert(self.dependency_map.key_seq()[e] == z);
                    }
                }
                key_views(to_remove@).unique_seq_to_set();
                vstd::set_lib::lemma_len_subset(members@, self.deps_view().dom().insert(h));
            }
            i = i + 1;
        }
        let ghost removed = key_views(to_remove@).to_set();
        let ghost before = *self;
        let mut a: usize = 0;
        while a < to_remove.len()
            invariant
                self.wf(),
                a <= to_remove@.len(),
                removed == key_views(to_remove@).to_set(),
                self.nodes_view() == before.nodes_view().remove_keys(key_views(to_remove@).take(a as int).to_set()),
                self.deps_view() == before.deps_view().remove_keys(key_views(to_remove@).take(a as int).to_set()),
                self.conflict_view() == before.conflict_view().remove_keys(key_views(to_remove@).take(a as int).to_set()),
                self.utxo_view() == before.utxo_view(),
                self.utxo_index.key_seq() == before.utxo_index.key_seq(),
            decreases to_remove@.len() - a,
        {
            let ghost done_set = key_views(to_remove@).take(a as int).to_set();
            let ghost x = to_remove@[a as int]@;
            self.nodes.remove(&to_remove[a]);
            self.dependency_map.remove(&to_remove[a]);
            self.conflict_map.remove(&to_remove[a]);
            a = a + 1;
            proof {
                assert(key_views(to_remove@).take(a as int) =~= key_views(to_remove@).take(a - 1).push(x));
                key_views(to_remove@).take(a - 1).lemma_push_to_set_commute(x);
                assert(self.nodes_view() =~= before.nodes_view().remove_keys(key_views(to_remove@).take(a as int).to_set()));
                assert(self.deps_view() =~= before.deps_view().remove_keys(key_views(to_remove@).take(a as int).to_set()));
                assert(self.conflict_view() =~= before.conflict_view().remove_keys(key_views(to_remove@).take(a as int).to_set()));
            }
        }
        proof {
            assert(key_views(to_remove@).take(to_remove@.len() as int) =~= key_views(to_remove@));
        }
        let n = self.utxo_index.len();
        let mut k: usize = 0;
        while k < n
            invariant
                self.wf(),
                members.wf(),
                members@ == removed,
                n == self.utxo_index.key_seq().len(),
                k <= n,
                self.utxo_index.key_seq() == before.utxo_index.key_seq(),
                self.utxo_view().dom() == before.utxo_view().dom(),
                self.nodes_view() == before.nodes_view().remove_keys(removed),
                self.deps_view() == before.deps_view().remove_keys(removed),
                self.conflict_view() == before.conflict_view().remove_keys(removed),
                forall|q: int| 0 <= q < k ==> #[trigger] self.claimants(self.utxo_index.key_seq()[q])
                    == before.claimants(self.utxo_index.key_seq()[q]).filter(|x: Seq<u8>| !removed.contains(x)),
                forall|q: int| k <= q < n ==> #[trigger] self.claimants(self.utxo_index.key_seq()[q])
                    == before.claimants(self.utxo_index.key_seq()[q]),
            decreases n - k,
        {
            proof {
                self.utxo_index.lemma_view();
            }
            let key = copy_bytes(self.utxo_index.key_at(k).as_slice());
            let ghost kv = key@;
            let vals = self.utxo_index.value_at(k);
            let ghost vv = key_views(vals@);
            let filtered = retain_not_in(vals, &members);
            let ghost self_before = *self;
            proof {
                assert((|x: Seq<u8>| !members@.contains(x)) == (|x: Seq<u8>| !removed.contains(x)));
                assert(self.claimants(kv) == vv);
                assert(self.claimants(kv) == before.claimants(kv));
            }
            self.utxo_index.insert(key, filtered);
            proof {
                assert forall|q: int| 0 <= q < n && q != k implies self.utxo_index.key_seq()[q] != kv by {
                    assert(self_before.utxo_index.key_seq()[k as int] == kv);
                }
                assert forall|q: int| 0 <= q < n && q != k implies #[trigger] self.claimants(self.utxo_index.key_seq()[q])
                    == self_before.claimants(self.utxo_index.key_seq()[q]) by {}
                assert(self.utxo_view().dom() =~= before.utxo_view().dom());
            }
            k = k + 1;
        }
        proof {
            self.utxo_index.lemma_view();
            assert forall|kk: Seq<u8>| #[trigger] self.claimants(kk)
                == before.claimants(kk).filter(|x: Seq<u8>| !removed.contains(x)) by {
                if self.utxo_view().contains_key(kk) {
                    let q = self.utxo_index.key_seq().index_of(kk);
                    assert(self.utxo_index.key_seq().to_set().contains(kk));
                    assert(self.utxo_index.key_seq()[q] == kk);
                } else {
                    assert(before.claimants(kk) == Seq::<Seq<u8>>::empty());
                    reveal_with_fuel(Seq::<Seq<u8>>::filter, 1);
                    assert(Seq::<Seq<u8>>::empty().filter(|x: Seq<u8>| !removed.contains(x)) =~= Seq::<Seq<u8>>::empty());
                }
            }
        }
        let ghost mid = *self;
        let nk = self.conflict_map.len();
        let mut c: usize = 0;
        while c < nk
            invariant
                self.wf(),
                members.wf(),
                members@ == removed,
                nk == self.conflict_map.key_seq().len(),
                c <= nk,
                self.conflict_map.key_seq() == mid.conflict_map.key_seq(),
                self.conflict_view().dom() == mid.conflict_view().dom(),
                self.nodes_view() == mid.nodes_view(),
                self.deps_view() == mid.deps_view(),
                self.utxo_view() == mid.utxo_view(),
                forall|q: int| 0 <= q < c ==> #[trigger] self.conflicts_of(self.conflict_map.key_seq()[q])
                    == mid.conflicts_of(self.conflict_map.key_seq()[q]).filter(|x: Seq<u8>| !removed.contains(x)),
                forall|q: int| c <= q < nk ==> #[trigger] self.conflicts_of(self.conflict_map.key_seq()[q])
                    == mid.conflicts_of(self.conflict_map.key_seq()[q]),
            decreases nk - c,
        {
            proof {
                self.conflict_map.lemma_view();
            }
            let key = copy_bytes(self.conflict_map.key_at(c).as_slice());
            let ghost kv = key@;
            let vals = self.conflict_map.value_at(c);
            let filtered = retain_not_in(vals, &members);
            let ghost self_before = *self;
            proof {
                assert((|x: Seq<u8>| !members@.contains(x)) == (|x: Seq<u8>| !removed.contains(x)));
                assert(self.conflicts_of(kv) == key_views(vals@));
            }
            self.conflict_map.insert(key, filtered);
            proof {
                assert forall|q: int| 0 <= q < nk && q != c implies self.conflict_map.key_seq()[q] != kv by {
                    assert(self_before.conflict_map.key_seq()[c as int] == kv);
                }
                assert forall|q: int| 0 <= q < nk && q != c implies #[trigger] self.conflicts_of(self.conflict_map.key_seq()[q])
                    == self_before.conflicts_of(self.conflict_map.key_seq()[q]) by {}
                assert(self.conflict_view().dom() =~= mid.conflict_view().dom());
            }
            c = c + 1;
        }
        proof {
            assert forall|kk: Seq<u8>| #[trigger] self.claimants(kk)
                == old(self).claimants(kk).filter(|x: Seq<u8>| !removed.contains(x)) by {
                assert(self.claimants(kk) == mid.claimants(kk));
                assert(mid.claimants(kk) == before.claimants(kk).filter(|x: Seq<u8>| !removed.contains(x)));
            }
            self.conflict_map.lemma_view();
            let rs = key_views(to_remove@).to_set();
            assert(rs == removed);
            assert(self.conflict_view().dom() =~= old(self).conflict_view().dom().difference(rs));
            assert forall|kk: Seq<u8>| !key_views(to_remove@).contains(kk) implies #[trigger] self.conflicts_of(kk)
                == old(self).conflicts_of(kk).filter(|x: Seq<u8>| !rs.contains(x)) by {
                assert(!rs.contains(kk));
                assert(mid.conflicts_of(kk) == old(self).conflicts_of(kk));
                if self.conflict_view().contains_key(kk) {
                    let q = self.conflict_map.key_seq().index_of(kk);
                    assert(self.conflict_map.key_seq().to_set().contains(kk));
                    assert(self.conflict_map.key_seq()[q] == kk);
                } else {
                    assert(old(self).conflicts_of(kk) == Seq::<Seq<u8>>::empty());
                    reveal_with_fuel(Seq::<Seq<u8>>::filter, 1);
                    assert(Seq::<Seq<u8>>::empty().filter(|x: Seq<u8>| !rs.contains(x)) =~= Seq::<Seq<u8>>::empty());
                }
            }
        }
        Ok(to_remove)
    }
}

/// `x` is in one of the groups.
pub open spec fn in_some_group(groups: Seq<Vec<Vec<u8>>>, x: Seq<u8>) -> bool {
    exists|i: int| 0 <= i < groups.len() && #[trigger] key_views(groups[i]@).contains(x)
}

/// The lists before position `a`, together with the one at `a`, are no
/// longer than all of them.
proof fn lemma_sum_list_lens_item(s: Seq<Vec<Vec<u8>>>, a: int)
    requires
        0 <= a < s.len(),
    ensures
        sum_list_lens(s.take(a)) + s[a]@.len() <= sum_list_lens(s),
    decreases s.len(),
{
    if a == s.len() - 1 {
        assert(s.take(a) =~= s.drop_last());
    } else {
        lemma_sum_list_lens_item(s.drop_last(), a);
        assert(s.drop_last().take(a) =~= s.take(a));
    }
}

/// `x` and `y` are together in one of the groups.
pub open spec fn grouped_together(groups: Seq<Vec<Vec<u8>>>, x: Seq<u8>, y: Seq<u8>) -> bool {
    exists|i: int| 0 <= i < groups.len() && #[trigger] key_views(groups[i]@).contains(x) && key_views(groups[i]@).contains(y)
}

impl GraphConflictOrderingEngine {
    /// Splits the transactions into groups such that conflicting transactions
    /// share a group; different groups can be processed in parallel. Fails
    /// only when more than `u32::MAX - 1` hashes would have to be grouped.
    pub fn get_parallel_execution_groups(&self) -> (r: Result<Vec<Vec<Vec<u8>>>, String>)
        requires
            self.wf(),
        ensures
            r is Ok ==> forall|n: Seq<u8>| #[trigger] self.nodes_view().contains_key(n) ==> in_some_group(r->Ok_0@, n),
            r is Ok ==> forall|x: Seq<u8>, c: Seq<u8>| self.nodes_view().contains_key(x) && self.nodes_view().contains_key(c)
                && #[trigger] self.conflicts_of(x).contains(c) ==> grouped_together(r->Ok_0@, x, c),
            r is Ok ==> forall|i: int, j: int, y: Seq<u8>| 0 <= i < r->Ok_0@.len() && 0 <= j < r->Ok_0@.len()
                && #[trigger] key_views(r->Ok_0@[i]@).contains(y) && #[trigger] key_views(r->Ok_0@[j]@).contains(y) ==> i == j,
            r is Ok ==> forall|i: int, y: Seq<u8>| 0 <= i < r->Ok_0@.len() && #[trigger] key_views(r->Ok_0@[i]@).contains(y)
                ==> self.nodes_view().contains_key(y),
            r is Ok ==> forall|i: int| 0 <= i < r->Ok_0@.len() ==> key_views(#[trigger] r->Ok_0@[i]@).len() > 0,
            r is Ok ==> forall|i: int| 0 <= i < r->Ok_0@.len() ==> key_views(#[trigger] r->Ok_0@[i]@).no_duplicates(),
            r is Ok && self.nodes_view().len() == 0 ==> r->Ok_0@.len() == 0,
            r is Err ==> self.nodes_view().len() + self.total_conflict_entries() > u32::MAX,
    {
        if self.nodes.is_empty() {
            return Ok(Vec::new());
        }
        let nn = self.nodes.len();
        let mut dsu = DisjointSetUnion::new();
        let mut i: usize = 0;
        while i < nn
            invariant
                self.wf(),
                dsu.wf(),
                nn == self.nodes.key_seq().len(),
                i <= nn,
                forall|q: int| 0 <= q < i ==> dsu.members().contains(#[trigger] self.nodes.key_seq()[q]),
                dsu.members().len() <= i,
            decreases nn - i,
        {
            let k = copy_bytes(self.nodes.key_at(i).as_slice());
            proof {
                dsu.lemma_wf();
            }
            dsu.make_set(k);
            i = i + 1;
        }
        proof {
            self.nodes.lemma_view();
            self.conflict_map.lemma_view();
            assert(self.conflict_map.value_seq().take(0) =~= Seq::<Vec<Vec<u8>>>::empty());
            assert forall|n: Seq<u8>| #[trigger] self.nodes_view().contains_key(n) implies dsu.members().contains(n) by {
                let q = self.nodes.key_seq().index_of(n);
                assert(self.nodes.key_seq().to_set().contains(n));
                assert(self.nodes.key_seq()[q] == n);
            }
        }
        let nc = self.conflict_map.len();
        let mut a: usize = 0;
        while a < nc
            invariant
                self.wf(),
                dsu.wf(),
                nc == self.conflict_map.key_seq().len(),
                a <= nc,
                dsu.members().len() <= self.nodes_view().len() + sum_list_lens(self.conflict_map.value_seq().take(a as int)),
                forall|n: Seq<u8>| #[trigger] self.nodes_view().contains_key(n) ==> dsu.members().contains(n),
                forall|q: int, c: Seq<u8>| 0 <= q < a && #[trigger] self.conflicts_of(self.conflict_map.key_seq()[q]).contains(c)
                    ==> dsu.root(self.conflict_map.key_seq()[q]) == dsu.root(c),
            decreases nc - a,
        {
            proof {
                self.conflict_map.lemma_view();
            }
            let x = self.conflict_map.key_at(a);
            let list = self.conflict_map.value_at(a);
            let ghost xv = x@;
            proof {
                assert(xv == self.conflict_map.key_seq()[a as int]);
                assert(self.conflicts_of(xv) == key_views(list@));
            }
            let mut b: usize = 0;
            while b < list.len()
                invariant
                    self.wf(),
                    dsu.wf(),
                    b <= list@.len(),
                    x@ == xv,
                    xv == self.conflict_map.key_seq()[a as int],
                    self.conflicts_of(xv) == key_views(list@),
                    *list == self.conflict_map.value_seq()[a as int],
                    a < nc,
                    nc == self.conflict_map.key_seq().len(),
                    dsu.members().len() <= self.nodes_view().len() + sum_list_lens(self.conflict_map.value_seq().take(a as int)) + b,
                    forall|n: Seq<u8>| #[trigger] self.nodes_view().contains_key(n) ==> dsu.members().contains(n),
                    forall|q: int, c: Seq<u8>| 0 <= q < a && #[trigger] self.conflicts_of(self.conflict_map.key_seq()[q]).contains(c)
                        ==> dsu.root(self.conflict_map.key_seq()[q]) == dsu.root(c),
                    forall|e: int| 0 <= e < b ==> dsu.root(xv) == dsu.root(#[trigger] key_views(list@)[e]),
                decreases list@.len() - b,
            {
                if dsu.member_count() >= u32::MAX as usize {
                    proof {
                        self.conflict_map.lemma_view();
                        lemma_sum_list_lens_item(self.conflict_map.value_seq(), a as int);
                    }
                    return Err(String::from_str("too many transactions to group"));
                }
                let ghost d0 = dsu;
                proof {
                    dsu.lemma_wf();
                }
                dsu.union(x.as_slice(), list[b].as_slice());
                proof {
                    d0.lemma_wf();
                    assert forall|n: Seq<u8>| #[trigger] self.nodes_view().contains_key(n) implies dsu.members().contains(n) by {
                        assert(d0.members().contains(n));
                    }
                    assert forall|q: int, c: Seq<u8>| 0 <= q < a && #[trigger] self.conflicts_of(self.conflict_map.key_seq()[q]).contains(c)
                        implies dsu.root(self.conflict_map.key_seq()[q]) == dsu.root(c) by {
                        let xq = self.conflict_map.key_seq()[q];
                        assert(d0.root(xq) == d0.root(c));
                        assert(dsu.root(xq) == (if d0.root(xq) == d0.root(xv) || d0.root(xq) == d0.root(list@[b as int]@) { dsu.root(xv) } else { d0.root(xq) }));
                        assert(dsu.root(c) == (if d0.root(c) == d0.root(xv) || d0.root(c) == d0.root(list@[b as int]@) { dsu.root(xv) } else { d0.root(c) }));
                    }
                    assert forall|e: int| 0 <= e < b + 1 implies dsu.root(xv) == dsu.root(#[trigger] key_views(list@)[e]) by {
                        let ce = key_views(list@)[e];
                        assert(ce == list@[e]@);
                        if e < b {
                            assert(d0.root(xv) == d0.root(ce));
                        }
                        assert(dsu.root(ce) == (if d0.root(ce) == d0.root(xv) || d0.root(ce) == d0.root(list@[b as int]@) { dsu.root(xv) } else { d0.root(ce) }));
                    }
                }
                b = b + 1;
            }
            proof {
                self.conflict_map.lemma_view();
                let vs = self.conflict_map.value_seq();
                assert(vs.take(a + 1).drop_last() =~= vs.take(a as int));
                assert(vs.take(a + 1).last() == vs[a as int]);
                assert forall|q: int, c: Seq<u8>| 0 <= q < a + 1 && #[trigger] self.conflicts_of(self.conflict_map.key_seq()[q]).contains(c)
                    implies dsu.root(self.conflict_map.key_seq()[q]) == dsu.root(c) by {
                    if q == a {
                        let e = key_views(list@).index_of(c);
                        assert(key_views(list@)[e] == c);
                    }
                }
            }
            a = a + 1;
        }
        let ghost d1 = dsu;
        let comps = dsu.get_components();
        let mut groups: Vec<Vec<Vec<u8>>> = Vec::new();
        let ghost mut src: Seq<int> = Seq::empty();
        let ghost isn = |x: Seq<u8>| self.nodes_view().contains_key(x);
        let ng = comps.len();
        let mut g: usize = 0;
        while g < ng
            invariant
                self.wf(),
                comps.wf(),
                isn == (|x: Seq<u8>| self.nodes_view().contains_key(x)),
                ng == comps.key_seq().len(),
                g <= ng,
                groups@.len() == src.len(),
                forall|t: int| 0 <= t < src.len() ==> 0 <= #[trigger] src[t] < g,
                forall|t: int, u: int| 0 <= t < u < src.len() ==> #[trigger] src[t] < #[trigger] src[u],
                forall|t: int| 0 <= t < groups@.len() ==> key_views(#[trigger] groups@[t]@)
                    == key_views(comps@[comps.key_seq()[src[t]]]@).filter(isn),
                forall|t: int| 0 <= t < groups@.len() ==> key_views(#[trigger] groups@[t]@).len() > 0,
                forall|q: int| 0 <= q < g && key_views(comps@[comps.key_seq()[q]]@).filter(isn).len() > 0
                    ==> exists|t: int| 0 <= t < src.len() && #[trigger] src[t] == q,
            decreases ng - g,
        {
            proof {
                comps.lemma_view();
            }
            let comp = comps.value_at(g);
            let list = self.keep_registered(comp);
            if list.len() > 0 {
                let ghost t0 = groups@.len() as int;
                groups.push(list);
                proof {
                    let s0 = src;
                    src = src.push(g as int);
                    assert(src.drop_last() =~= s0);
                    assert(src[t0] == g);
                    assert forall|t: int| 0 <= t < groups@.len() implies key_views(#[trigger] groups@[t]@)
                        == key_views(comps@[comps.key_seq()[src[t]]]@).filter(isn) by {
                        if t < t0 {
                            assert(groups@[t] == groups@.drop_last()[t]);
                        }
                    }
                    assert forall|q: int| 0 <= q < g + 1 && key_views(comps@[comps.key_seq()[q]]@).filter(isn).len() > 0
                        implies exists|t: int| 0 <= t < src.len() && #[trigger] src[t] == q by {
                        if q == g {
                            assert(src[t0] == q);
                        } else {
                            let t = choose|t: int| 0 <= t < s0.len() && #[trigger] s0[t] == q;
                            assert(src[t] == s0[t]);
                            assert(src[t] == q);
                        }
                    }
                }
            }
            g = g + 1;
        }
        proof {
            comps.lemma_view();
            assert forall|n: Seq<u8>| #[trigger] self.nodes_view().contains_key(n) implies in_some_group(groups@, n) by {
                assert(d1.members().contains(n));
                let r = d1.root(n);
                assert(comps@.contains_key(r));
                let q = comps.key_seq().index_of(r);
                assert(comps.key_seq().to_set().contains(r));
                assert(comps.key_seq()[q] == r);
                assert(d1.members().filter(|k: Seq<u8>| d1.root(k) == r).contains(n));
                assert(key_views(comps@[r]@).to_set().contains(n));
                let fl = key_views(comps@[r]@).filter(isn);
                assert(isn(n));
                assert(fl.contains(n)) by {
                    key_views(comps@[r]@).lemma_filter_contains_rev(isn, n);
                }
                assert(fl.len() > 0);
                let t = choose|t: int| 0 <= t < src.len() && #[trigger] src[t] == q;
                assert(key_views(groups@[t]@) == fl);
                assert(key_views(groups@[t]@).contains(n));
            }
            assert forall|x: Seq<u8>, c: Seq<u8>| self.nodes_view().contains_key(x) && self.nodes_view().contains_key(c)
                && #[trigger] self.conflicts_of(x).contains(c) implies grouped_together(groups@, x, c) by {
                assert(self.conflict_view().contains_key(x));
                let qx = self.conflict_map.key_seq().index_of(x);
                self.conflict_map.lemma_view();
                assert(self.conflict_map.key_seq().to_set().contains(x));
                assert(self.conflict_map.key_seq()[qx] == x);
                assert(d1.root(x) == d1.root(c));
                assert(d1.members().contains(x));
                assert(d1.members().contains(c));
                let r = d1.root(x);
                let q = comps.key_seq().index_of(r);
                assert(comps.key_seq().to_set().contains(r));
                assert(comps.key_seq()[q] == r);
                assert(d1.members().filter(|k: Seq<u8>| d1.root(k) == r).contains(x));
                assert(d1.members().filter(|k: Seq<u8>| d1.root(k) == r).contains(c));
                assert(key_views(comps@[r]@).to_set().contains(x));
                assert(key_views(comps@[r]@).to_set().contains(c));
                let fl = key_views(comps@[r]@).filter(isn);
                key_views(comps@[r]@).lemma_filter_contains_rev(isn, x);
                key_views(comps@[r]@).lemma_filter_contains_rev(isn, c);
                assert(isn(x) && isn(c));
                assert(fl.contains(x));
                assert(fl.len() > 0);
                assert(comps@[comps.key_seq()[q]] == comps@[r]);
                let t = choose|t: int| 0 <= t < src.len() && #[trigger] src[t] == q;
                assert(key_views(groups@[t]@) == fl);
            }
            assert forall|i: int, j: int, y: Seq<u8>| 0 <= i < groups@.len() && 0 <= j < groups@.len()
                && #[trigger] key_views(groups@[i]@).contains(y) && #[trigger] key_views(groups@[j]@).contains(y) implies i == j by {
                let ri = comps.key_seq()[src[i]];
                let rj = comps.key_seq()[src[j]];
                assert(comps@.contains_key(ri));
                assert(comps@.contains_key(rj));
                assert(key_views(groups@[i]@) == key_views(comps@[ri]@).filter(isn));
                assert(key_views(groups@[j]@) == key_views(comps@[rj]@).filter(isn));
                lemma_filter_member(key_views(comps@[ri]@), isn, key_views(groups@[i]@).index_of(y));
                lemma_filter_member(key_views(comps@[rj]@), isn, key_views(groups@[j]@).index_of(y));
                assert(key_views(comps@[ri]@).contains(y));
                assert(key_views(comps@[rj]@).contains(y));
                assert(key_views(comps@[ri]@).to_set().contains(y));
                assert(key_views(comps@[rj]@).to_set().contains(y));
                assert(d1.root(y) == ri);
                assert(d1.root(y) == rj);
                if src[i] != src[j] {
                    assert(comps.key_seq().no_duplicates());
                }
                if i < j {
                    assert(src[i] < src[j]);
                } else if j < i {
                    assert(src[j] < src[i]);
                }
            }
            assert forall|i: int| 0 <= i < groups@.len() implies key_views(#[trigger] groups@[i]@).no_duplicates() by {
                let ri = comps.key_seq()[src[i]];
                assert(comps@.contains_key(ri));
                assert(key_views(groups@[i]@) == key_views(comps@[ri]@).filter(isn));
                lemma_filter_exact(key_views(comps@[ri]@), isn);
            }
            assert forall|i: int, y: Seq<u8>| 0 <= i < groups@.len() && #[trigger] key_views(groups@[i]@).contains(y)
                implies self.nodes_view().contains_key(y) by {
                let ri = comps.key_seq()[src[i]];
                assert(key_views(groups@[i]@) == key_views(comps@[ri]@).filter(isn));
                key_views(comps@[ri]@).lemma_filter_pred(isn, key_views(groups@[i]@).index_of(y));
            }
        }
        Ok(groups)
    }
}
} // verus!

//! Telling whether a snapshot is a forest, which is what the tree view asks of
//! it.
//!
//! The child index is peeled from the leaves up: a parent is peeled once all its
//! children that are parents themselves are. The index is acyclic exactly if
//! every parent gets peeled.

use crate::fx::{map_get, map_insert, map_keys};
use crate::harvest::{Forest, Pid, ProcessData};
use fxhash::FxHashMap;
use vstd::prelude::*;

verus! {

/// The height that a peeling order gives: a pid that was never peeled stands at
/// the bottom, and each peeled pid above everything peeled before it.
pub open spec fn peel_rank(order: Map<Pid, usize>) -> spec_fn(Pid) -> nat {
    |p: Pid|
        if order.contains_key(p) {
            (order[p] + 1) as nat
        } else {
            0nat
        }
}

/// The children of `pid` that are parents were all peeled before `pid`.
pub open spec fn kids_peeled_before(f: Forest, order: Map<Pid, usize>, pid: Pid) -> bool {
    forall|i: int|
        0 <= i < f.kids(pid).len() && f.children.contains_key(#[trigger] f.kids(pid)[i])
            ==> order.contains_key(f.kids(pid)[i]) && order[f.kids(pid)[i]] < order[pid]
}

/// `order` peels parents only, each after its children.
pub open spec fn peeled(f: Forest, order: Map<Pid, usize>) -> bool {
    forall|p: Pid| #[trigger]
        order.contains_key(p) ==> f.children.contains_key(p) && kids_peeled_before(f, order, p)
}

/// `pid` cannot be peeled yet: one of its children is a parent that is not
/// peeled.
pub open spec fn blocked(f: Forest, order: Map<Pid, usize>, pid: Pid) -> bool {
    exists|i: int|
        0 <= i < f.kids(pid).len() && f.children.contains_key(#[trigger] f.kids(pid)[i])
            && !order.contains_key(f.kids(pid)[i])
}

/// No parent that is left can be peeled.
pub open spec fn stuck(f: Forest, order: Map<Pid, usize>) -> bool {
    forall|p: Pid| #[trigger] f.children.contains_key(p) && !order.contains_key(p) ==> blocked(
        f,
        order,
        p,
    )
}

/// An order that peels every parent shows the index to be acyclic.
proof fn lemma_peeled_is_acyclic(f: Forest, order: Map<Pid, usize>)
    requires
        peeled(f, order),
        forall|p: Pid| #[trigger] f.children.contains_key(p) ==> order.contains_key(p),
    ensures
        f.is_acyclic(),
{
    let rank = peel_rank(order);
    assert forall|p: Pid, i: int| 0 <= i < f.kids(p).len() implies rank(
        #[trigger] f.kids(p)[i],
    ) < rank(p) by {
        assert(f.children.contains_key(p));
        assert(order.contains_key(p));
        assert(kids_peeled_before(f, order, p));
    }
    assert(f.ranked_by(rank));
}

/// In an acyclic index the peeling gets stuck only when every parent is peeled.
proof fn lemma_stuck_means_done(
    f: Forest,
    order: Map<Pid, usize>,
    rank: spec_fn(Pid) -> nat,
    pid: Pid,
)
    requires
        f.ranked_by(rank),
        stuck(f, order),
        f.children.contains_key(pid),
    ensures
        order.contains_key(pid),
    decreases rank(pid),
{
    if !order.contains_key(pid) {
        assert(blocked(f, order, pid));
        let i = choose|i: int|
            0 <= i < f.kids(pid).len() && f.children.contains_key(#[trigger] f.kids(pid)[i])
                && !order.contains_key(f.kids(pid)[i]);
        lemma_stuck_means_done(f, order, rank, f.kids(pid)[i]);
    }
}

impl ProcessData {
    /// Whether every record is stored under its own pid.
    fn is_keyed_by_pid(&self) -> (ok: bool)
        ensures
            self@.records.dom().finite(),
            ok == self@.keyed_by_pid(),
    {
        let pids = map_keys(&self.process_harvest);
        proof {
            vstd::seq_lib::seq_to_set_is_finite(pids@);
        }
        let mut i: usize = 0;
        while i < pids.len()
            invariant
                i <= pids.len(),
                pids@.to_set() == self@.records.dom(),
                forall|j: int|
                    0 <= j < i ==> self@.records[#[trigger] pids@[j]].pid == pids@[j],
            decreases pids.len() - i,
        {
            let pid = pids[i];
            assert(pids@.to_set().contains(pids@[i as int]));
            if let Some(record) = map_get(&self.process_harvest, pid) {
                if record.pid != pid {
                    return false;
                }
            }
            i += 1;
        }
        proof {
            assert forall|p: Pid| #[trigger] self@.records.contains_key(p) implies self@.records[p].pid
                == p by {
                assert(pids@.to_set().contains(p));
                let j = choose|j: int| 0 <= j < pids@.len() && pids@[j] == p;
                assert(self@.records[pids@[j]].pid == pids@[j]);
            }
        }
        true
    }

    /// Whether `pid` can be peeled now.
    fn is_ready(&self, pid: Pid, order: &FxHashMap<Pid, usize>) -> (ready: bool)
        ensures
            ready == !blocked(self@, order@, pid),
    {
        match map_get(&self.process_parent_mapping, pid) {
            Some(kids) => {
                let mut i: usize = 0;
                while i < kids.len()
                    invariant
                        i <= kids.len(),
                        kids@ == self@.kids(pid),
                        forall|j: int|
                            0 <= j < i ==> !(self@.children.contains_key(#[trigger] self@.kids(pid)[j])
                                && !order@.contains_key(self@.kids(pid)[j])),
                    decreases kids.len() - i,
                {
                    let kid = kids[i];
                    if map_get(&self.process_parent_mapping, kid).is_some() && map_get(
                        order,
                        kid,
                    ).is_none() {
                        assert(self@.children.contains_key(self@.kids(pid)[i as int]));
                        return false;
                    }
                    i += 1;
                }
                true
            },
            None => true,
        }
    }

    /// Whether no pid is its own descendant in the child index.
    fn has_acyclic_index(&self) -> (ok: bool)
        ensures
            ok == self@.is_acyclic(),
    {
        let ghost f = self@;
        let parents = map_keys(&self.process_parent_mapping);
        let n = parents.len();
        let mut order: FxHashMap<Pid, usize> = FxHashMap::default();
        let mut next: usize = 0;
        proof {
            vstd::seq_lib::seq_to_set_is_finite(parents@);
            parents@.unique_seq_to_set();
            assert(parents@.to_set() =~= f.children.dom());
            assert(order@.dom() =~= Set::<Pid>::empty());
        }
        loop
            invariant
                f == self@,
                n == parents@.len(),
                parents@.no_duplicates(),
                parents@.to_set() == f.children.dom(),
                f.children.dom().finite(),
                f.children.dom().len() == n,
                peeled(f, order@),
                order@.dom().finite(),
                next == order@.dom().len(),
                next <= n,
                forall|p: Pid| #[trigger] order@.contains_key(p) ==> order@[p] < next,
            ensures
                peeled(f, order@),
                stuck(f, order@),
                order@.dom().finite(),
                next == order@.dom().len(),
                next <= n,
            decreases n - next,
        {
            let before = next;
            let ghost start = order@;
            let mut i: usize = 0;
            while i < n
                invariant
                    i <= n,
                    f == self@,
                    n == parents@.len(),
                    parents@.to_set() == f.children.dom(),
                    f.children.dom().finite(),
                    f.children.dom().len() == n,
                    peeled(f, order@),
                    order@.dom().finite(),
                    next == order@.dom().len(),
                    before <= next <= n,
                    forall|p: Pid| #[trigger] order@.contains_key(p) ==> order@[p] < next,
                    next == before ==> order@ == start,
                    next == before ==> forall|j: int|
                        0 <= j < i && !order@.contains_key(#[trigger] parents@[j]) ==> blocked(
                            f,
                            order@,
                            parents@[j],
                        ),
                decreases n - i,
            {
                let pid = parents[i];
                assert(parents@.to_set().contains(parents@[i as int]));
                if map_get(&order, pid).is_none() && self.is_ready(pid, &order) {
                    let ghost prior = order@;
                    proof {
                        assert(prior.dom().insert(pid).subset_of(f.children.dom()));
                        vstd::set_lib::lemma_len_subset(prior.dom().insert(pid), f.children.dom());
                    }
                    map_insert(&mut order, pid, next);
                    proof {
                        assert(order@.dom() =~= prior.dom().insert(pid));
                        assert forall|p: Pid| #[trigger] order@.contains_key(p) implies f.children.contains_key(
                            p,
                        ) && kids_peeled_before(f, order@, p) by {
                            if p == pid {
                                assert(!blocked(f, prior, pid));
                                assert forall|k: int|
                                    0 <= k < f.kids(pid).len() && f.children.contains_key(
                                        #[trigger] f.kids(pid)[k],
                                    ) implies order@.contains_key(f.kids(pid)[k]) && order@[f.kids(
                                    pid,
                                )[k]] < order@[pid] by {
                                    assert(prior.contains_key(f.kids(pid)[k]));
                                }
                            } else {
                                assert(prior.contains_key(p));
                                assert(kids_peeled_before(f, prior, p));
                                assert forall|k: int|
                                    0 <= k < f.kids(p).len() && f.children.contains_key(
                                        #[trigger] f.kids(p)[k],
                                    ) implies order@.contains_key(f.kids(p)[k]) && order@[f.kids(
                                    p,
                                )[k]] < order@[p] by {
                                    assert(prior.contains_key(f.kids(p)[k]));
                                }
                            }
                        }
                    }
                    next += 1;
                }
                i += 1;
            }
            if next == before {
                proof {
                    assert forall|p: Pid| #[trigger]
                        f.children.contains_key(p) && !order@.contains_key(p) implies blocked(
                        f,
                        order@,
                        p,
                    ) by {
                        assert(parents@.to_set().contains(p));
                        let j = choose|j: int| 0 <= j < parents@.len() && parents@[j] == p;
                        assert(!order@.contains_key(parents@[j]));
                    }
                }
                break ;
            }
        }
        proof {
            if next == n {
                assert(order@.dom().subset_of(f.children.dom())) by {
                    assert forall|p: Pid| order@.dom().contains(p) implies f.children.dom().contains(
                        p,
                    ) by {
                        assert(order@.contains_key(p));
                    }
                }
                vstd::set_lib::lemma_subset_equality(order@.dom(), f.children.dom());
                assert forall|p: Pid| #[trigger] f.children.contains_key(p) implies order@.contains_key(
                    p,
                ) by {
                    assert(f.children.dom().contains(p));
                }
                lemma_peeled_is_acyclic(f, order@);
            } else if f.is_acyclic() {
                assert(f.children.dom().subset_of(order@.dom())) by {
                    assert forall|p: Pid| f.children.dom().contains(p) implies order@.dom().contains(
                        p,
                    ) by {
                        lemma_stuck_means_done(f, order@, f.height(), p);
                    }
                }
                vstd::set_lib::lemma_len_subset(f.children.dom(), order@.dom());
            }
        }
        next == n
    }

    /// Whether the snapshot is a forest: every record is stored under its own pid,
    /// and no pid is its own descendant in the child index. The tree view can be
    /// laid out for such a snapshot and for no other.
    pub fn is_forest(&self) -> (ok: bool)
        ensures
            ok == self@.is_forest(),
    {
        self.is_keyed_by_pid() && self.has_acyclic_index()
    }
}

} // verus!

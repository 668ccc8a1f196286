//! The filtered forest: which processes a search leaves in the tree.
//!
//! A process stays if it matches the search or if one of its children stays, so
//! that every match is shown together with its chain of ancestors.

use crate::fx::{map_get, map_insert, set_contains};
use crate::harvest::{Forest, Pid, ProcessData};
use fxhash::{FxHashMap, FxHashSet};
use vstd::prelude::*;

verus! {

/// The pids a search keeps: the given set, or every pid where no search is active.
pub open spec fn kept_set(kept: Option<&FxHashSet<Pid>>) -> Set<Pid> {
    match kept {
        Some(set) => set@,
        None => Set::full(),
    }
}

/// Whether the search keeps `pid`.
pub fn is_kept(kept: Option<&FxHashSet<Pid>>, pid: Pid) -> (r: bool)
    ensures
        r == kept_set(kept).contains(pid),
{
    match kept {
        Some(set) => set_contains(set, pid),
        None => true,
    }
}

impl Forest {
    /// `pid` has a record and is part of the filtered forest.
    pub open spec fn present_shown(self, kept: Set<Pid>, pid: Pid) -> bool {
        self.records.contains_key(pid) && self.shown(kept, pid)
    }

    /// Those of `pids` that have a record and are part of the filtered forest, in
    /// their given order.
    pub open spec fn shown_among(self, kept: Set<Pid>, pids: Seq<Pid>) -> Seq<Pid>
        decreases pids.len(),
    {
        if pids.len() == 0 {
            pids
        } else {
            let front = self.shown_among(kept, pids.drop_last());
            if self.present_shown(kept, pids.last()) {
                front.push(pids.last())
            } else {
                front
            }
        }
    }

    /// The children of `pid` in the filtered forest, in index order.
    pub open spec fn shown_kids(self, kept: Set<Pid>, pid: Pid) -> Seq<Pid> {
        self.shown_among(kept, self.kids(pid))
    }

    /// `path` leads from a root down the child index, through recorded pids only.
    pub open spec fn is_path(self, path: Seq<Pid>) -> bool {
        &&& path.len() > 0
        &&& self.roots.contains(path[0])
        &&& forall|i: int| 0 <= i < path.len() ==> self.records.contains_key(#[trigger] path[i])
        &&& forall|i: int|
            0 < i < path.len() ==> self.kids(path[i - 1]).contains(#[trigger] path[i])
    }

    /// `pid` is a recorded root or a recorded descendant of one, through recorded
    /// pids.
    pub open spec fn reachable(self, pid: Pid) -> bool {
        exists|path: Seq<Pid>| self.is_path(path) && #[trigger] path.last() == pid
    }

    /// `pid` is part of the filtered forest as the tree view walks it: it can be
    /// reached from a root and it is shown.
    pub open spec fn included(self, kept: Set<Pid>, pid: Pid) -> bool {
        self.reachable(pid) && self.shown(kept, pid)
    }

    /// Every recorded child of `pid` has a verdict in `verdicts`.
    pub open spec fn kids_judged(self, verdicts: Map<Pid, bool>, pid: Pid) -> bool {
        forall|i: int|
            0 <= i < self.kids(pid).len() && self.records.contains_key(
                #[trigger] self.kids(pid)[i],
            ) ==> verdicts.contains_key(self.kids(pid)[i])
    }

    /// `verdicts` holds, for some reachable pids and all their recorded descendants,
    /// whether each is part of the filtered forest.
    pub open spec fn judged(self, kept: Set<Pid>, verdicts: Map<Pid, bool>) -> bool {
        forall|p: Pid| #[trigger]
            verdicts.contains_key(p) ==> {
                &&& self.records.contains_key(p)
                &&& self.reachable(p)
                &&& verdicts[p] == self.shown(kept, p)
                &&& self.kids_judged(verdicts, p)
            }
    }

    /// `filtered` lists the shown children of exactly the judged pids that are
    /// shown.
    pub open spec fn filed(
        self,
        kept: Set<Pid>,
        verdicts: Map<Pid, bool>,
        filtered: Map<Pid, Vec<Pid>>,
    ) -> bool {
        &&& forall|p: Pid| #[trigger]
            filtered.contains_key(p) <==> verdicts.contains_key(p) && verdicts[p]
        &&& forall|p: Pid| #[trigger]
            filtered.contains_key(p) ==> filtered[p]@ == self.shown_kids(kept, p)
    }
}

/// In an acyclic forest the height strictly falls from parent to child.
pub proof fn lemma_height_falls(f: Forest, pid: Pid, i: int)
    requires
        f.is_acyclic(),
        0 <= i < f.kids(pid).len(),
    ensures
        (f.height())(f.kids(pid)[i]) < (f.height())(pid),
{
    assert(f.ranked_by(f.height()));
}

/// A process is part of the filtered forest exactly if it matches the search or
/// one of its recorded children is part of it.
pub proof fn lemma_shown_unfolds(f: Forest, kept: Set<Pid>, pid: Pid)
    requires
        f.is_acyclic(),
    ensures
        f.shown(kept, pid) <==> kept.contains(pid) || exists|i: int|
            0 <= i < f.kids(pid).len() && #[trigger] f.present_shown(kept, f.kids(pid)[i]),
{
    if f.shown(kept, pid) && !kept.contains(pid) {
        let i = choose|i: int|
            0 <= i < f.kids(pid).len() && (f.height())(#[trigger] f.kids(pid)[i]) < (f.height())(
                pid,
            ) && f.records.contains_key(f.kids(pid)[i]) && f.shown(kept, f.kids(pid)[i]);
        assert(f.present_shown(kept, f.kids(pid)[i]));
    }
    if exists|i: int|
        0 <= i < f.kids(pid).len() && #[trigger] f.present_shown(kept, f.kids(pid)[i]) {
        let i = choose|i: int|
            0 <= i < f.kids(pid).len() && #[trigger] f.present_shown(kept, f.kids(pid)[i]);
        lemma_height_falls(f, pid, i);
        assert(f.shown(kept, f.kids(pid)[i]));
    }
}

/// What `shown_among` picks: its members are members of `pids`, recorded and
/// shown; and it is empty exactly if no member of `pids` is recorded and shown.
pub proof fn lemma_shown_among(f: Forest, kept: Set<Pid>, pids: Seq<Pid>)
    ensures
        forall|j: int|
            0 <= j < f.shown_among(kept, pids).len() ==> pids.contains(
                #[trigger] f.shown_among(kept, pids)[j],
            ) && f.present_shown(kept, f.shown_among(kept, pids)[j]),
        f.shown_among(kept, pids).len() > 0 <==> exists|i: int|
            0 <= i < pids.len() && #[trigger] f.present_shown(kept, pids[i]),
        f.shown_among(kept, pids).len() <= pids.len(),
    decreases pids.len(),
{
    if pids.len() > 0 {
        let front = pids.drop_last();
        lemma_shown_among(f, kept, front);
        let picked = f.shown_among(kept, pids);
        assert forall|j: int| 0 <= j < picked.len() implies pids.contains(#[trigger] picked[j])
            && f.present_shown(kept, picked[j]) by {
            if j < f.shown_among(kept, front).len() {
                let c = f.shown_among(kept, front)[j];
                assert(front.contains(c));
                let w = choose|w: int| 0 <= w < front.len() && front[w] == c;
                assert(pids[w] == c);
            } else {
                assert(pids[pids.len() - 1] == picked[j]);
            }
        }
        if f.shown_among(kept, front).len() > 0 {
            let i = choose|i: int|
                0 <= i < front.len() && #[trigger] f.present_shown(kept, front[i]);
            assert(f.present_shown(kept, pids[i]));
        }
        if exists|i: int| 0 <= i < pids.len() && #[trigger] f.present_shown(kept, pids[i]) {
            let i = choose|i: int|
                0 <= i < pids.len() && #[trigger] f.present_shown(kept, pids[i]);
            if i < front.len() {
                assert(f.present_shown(kept, front[i]));
            }
        }
    }
}

/// A recorded child of a reachable pid is reachable.
pub proof fn lemma_kid_reachable(f: Forest, pid: Pid, i: int)
    requires
        f.reachable(pid),
        0 <= i < f.kids(pid).len(),
        f.records.contains_key(f.kids(pid)[i]),
    ensures
        f.reachable(f.kids(pid)[i]),
{
    let path = choose|path: Seq<Pid>| f.is_path(path) && #[trigger] path.last() == pid;
    let longer = path.push(f.kids(pid)[i]);
    assert(longer[0] == path[0]);
    assert forall|j: int| 0 <= j < longer.len() implies f.records.contains_key(
        #[trigger] longer[j],
    ) by {
        if j < path.len() {
            assert(longer[j] == path[j]);
        }
    }
    assert forall|j: int| 0 < j < longer.len() implies f.kids(longer[j - 1]).contains(
        #[trigger] longer[j],
    ) by {
        if j < path.len() {
            assert(longer[j] == path[j] && longer[j - 1] == path[j - 1]);
        } else {
            assert(longer[j - 1] == path.last());
        }
    }
    assert(f.is_path(longer) && longer.last() == f.kids(pid)[i]);
}

/// Ancestor inclusion, one level: a reachable process is in the filtered forest
/// exactly if it matches the search or one of its children is in the filtered
/// forest.
pub proof fn lemma_ancestor_inclusion(f: Forest, kept: Set<Pid>, pid: Pid)
    requires
        f.is_forest(),
        f.reachable(pid),
    ensures
        f.included(kept, pid) <==> kept.contains(pid) || exists|i: int|
            0 <= i < f.kids(pid).len() && #[trigger] f.included(kept, f.kids(pid)[i]),
{
    lemma_shown_unfolds(f, kept, pid);
    if f.shown(kept, pid) && !kept.contains(pid) {
        let i = choose|i: int|
            0 <= i < f.kids(pid).len() && #[trigger] f.present_shown(kept, f.kids(pid)[i]);
        lemma_kid_reachable(f, pid, i);
        assert(f.included(kept, f.kids(pid)[i]));
    }
    if exists|i: int| 0 <= i < f.kids(pid).len() && #[trigger] f.included(kept, f.kids(pid)[i]) {
        let i = choose|i: int|
            0 <= i < f.kids(pid).len() && #[trigger] f.included(kept, f.kids(pid)[i]);
        let path = choose|path: Seq<Pid>| f.is_path(path) && #[trigger] path.last() == f.kids(pid)[i];
        assert(f.records.contains_key(path[path.len() - 1]));
        assert(f.present_shown(kept, f.kids(pid)[i]));
    }
}

/// A recorded root is reachable.
pub proof fn lemma_root_reachable(f: Forest, r: int)
    requires
        0 <= r < f.roots.len(),
        f.records.contains_key(f.roots[r]),
    ensures
        f.reachable(f.roots[r]),
{
    let path = seq![f.roots[r]];
    assert(f.is_path(path) && path.last() == f.roots[r]);
}

/// Verdicts that cover the recorded roots cover every reachable pid.
proof fn lemma_judged_covers(f: Forest, kept: Set<Pid>, verdicts: Map<Pid, bool>, path: Seq<Pid>)
    requires
        f.judged(kept, verdicts),
        forall|r: int|
            0 <= r < f.roots.len() && f.records.contains_key(#[trigger] f.roots[r])
                ==> verdicts.contains_key(f.roots[r]),
        f.is_path(path),
    ensures
        verdicts.contains_key(path.last()),
    decreases path.len(),
{
    if path.len() == 1 {
        let r = choose|r: int| 0 <= r < f.roots.len() && f.roots[r] == path[0];
        assert(f.records.contains_key(path[0]));
    } else {
        let front = path.drop_last();
        assert(front[0] == path[0]);
        assert forall|j: int| 0 <= j < front.len() implies f.records.contains_key(
            #[trigger] front[j],
        ) by {
            assert(front[j] == path[j]);
        }
        assert forall|j: int| 0 < j < front.len() implies f.kids(front[j - 1]).contains(
            #[trigger] front[j],
        ) by {
            assert(front[j] == path[j] && front[j - 1] == path[j - 1]);
        }
        lemma_judged_covers(f, kept, verdicts, front);
        let parent = front.last();
        assert(parent == path[path.len() - 2]);
        assert(f.kids(parent).contains(path[path.len() - 1]));
        let i = choose|i: int| 0 <= i < f.kids(parent).len() && f.kids(parent)[i] == path.last();
        assert(f.records.contains_key(path[path.len() - 1]));
        assert(f.kids_judged(verdicts, parent));
    }
}

/// The recorded children of `pid`, as the index lists them.
fn kids_of<'a>(data: &'a ProcessData, pid: Pid) -> (kids: Option<&'a Vec<Pid>>)
    ensures
        match kids {
            Some(list) => list@ == data@.kids(pid),
            None => data@.kids(pid).len() == 0,
        },
{
    map_get(&data.process_parent_mapping, pid)
}

/// Pushes the recorded children of `pid` that have no verdict yet, last child
/// first, so that they are popped in index order.
fn push_unjudged_kids(
    data: &ProcessData,
    verdicts: &FxHashMap<Pid, bool>,
    pid: Pid,
    stack: &mut Vec<Pid>,
)
    ensures
        final(stack)@.len() >= old(stack)@.len(),
        final(stack)@.take(old(stack)@.len() as int) == old(stack)@,
        forall|j: int|
            old(stack)@.len() <= j < final(stack)@.len() ==> {
                &&& data@.kids(pid).contains(#[trigger] final(stack)@[j])
                &&& data@.records.contains_key(final(stack)@[j])
                &&& !verdicts@.contains_key(final(stack)@[j])
            },
        final(stack)@.len() == old(stack)@.len() ==> data@.kids_judged(verdicts@, pid),
{
    let ghost start = stack@;
    match kids_of(data, pid) {
        Some(kids) => {
            let mut i: usize = kids.len();
            while i > 0
                invariant
                    i <= kids.len(),
                    kids@ == data@.kids(pid),
                    stack@.len() >= start.len(),
                    stack@.take(start.len() as int) == start,
                    forall|j: int|
                        start.len() <= j < stack@.len() ==> {
                            &&& kids@.contains(#[trigger] stack@[j])
                            &&& data@.records.contains_key(stack@[j])
                            &&& !verdicts@.contains_key(stack@[j])
                        },
                    stack@.len() == start.len() ==> forall|m: int|
                        i <= m < kids.len() && data@.records.contains_key(#[trigger] kids@[m])
                            ==> verdicts@.contains_key(kids@[m]),
                decreases i,
            {
                i -= 1;
                let kid = kids[i];
                if map_get(&data.process_harvest, kid).is_some() && map_get(verdicts, kid).is_none() {
                    let ghost prior = stack@;
                    stack.push(kid);
                    proof {
                        assert(stack@.take(start.len() as int) =~= prior.take(start.len() as int));
                        assert forall|j: int| start.len() <= j < stack@.len() implies {
                            &&& kids@.contains(#[trigger] stack@[j])
                            &&& data@.records.contains_key(stack@[j])
                            &&& !verdicts@.contains_key(stack@[j])
                        } by {
                            if j < prior.len() {
                                assert(stack@[j] == prior[j]);
                            } else {
                                assert(kids@[i as int] == kid);
                            }
                        }
                    }
                }
            }
        },
        None => {
            assert(stack@.take(start.len() as int) =~= start);
        },
    }
}

/// The shown children of `pid`, in index order, read off the verdicts.
fn collect_shown_kids(
    data: &ProcessData,
    verdicts: &FxHashMap<Pid, bool>,
    pid: Pid,
    Ghost(kept): Ghost<Set<Pid>>,
) -> (shown: Vec<Pid>)
    requires
        data@.kids_judged(verdicts@, pid),
        data@.judged(kept, verdicts@),
    ensures
        shown@ == data@.shown_kids(kept, pid),
{
    let mut shown: Vec<Pid> = Vec::new();
    match kids_of(data, pid) {
        Some(kids) => {
            let mut i: usize = 0;
            while i < kids.len()
                invariant
                    i <= kids.len(),
                    kids@ == data@.kids(pid),
                    data@.kids_judged(verdicts@, pid),
                    data@.judged(kept, verdicts@),
                    shown@ == data@.shown_among(kept, kids@.take(i as int)),
                decreases kids.len() - i,
            {
                let kid = kids[i];
                proof {
                    assert(kids@.take(i as int + 1).drop_last() =~= kids@.take(i as int));
                    assert(kids@.take(i as int + 1).last() == kid);
                    assert(data@.kids(pid)[i as int] == kid);
                }
                let is_shown = match map_get(verdicts, kid) {
                    Some(verdict) => *verdict,
                    None => false,
                };
                if is_shown {
                    shown.push(kid);
                }
                i += 1;
            }
            assert(kids@.take(kids.len() as int) =~= kids@);
        },
        None => {},
    }
    shown
}

/// How many recorded pids have no verdict yet.
spec fn unjudged(f: Forest, verdicts: Map<Pid, bool>) -> nat {
    f.records.dom().difference(verdicts.dom()).len()
}

/// Whether the top of the stack still awaits its verdict.
spec fn top_awaits(stack: Seq<Pid>, verdicts: Map<Pid, bool>) -> bool {
    stack.len() > 0 && !verdicts.contains_key(stack.last())
}

/// What falls while the number of unjudged pids stands still: the height of a
/// waiting top, or else the length of the stack.
spec fn slack(f: Forest, stack: Seq<Pid>, verdicts: Map<Pid, bool>) -> nat {
    if top_awaits(stack, verdicts) {
        (f.height())(stack.last())
    } else {
        stack.len()
    }
}

proof fn lemma_verdict_lowers_unjudged(f: Forest, verdicts: Map<Pid, bool>, pid: Pid, v: bool)
    requires
        f.records.dom().finite(),
        f.records.contains_key(pid),
        !verdicts.contains_key(pid),
    ensures
        unjudged(f, verdicts.insert(pid, v)) < unjudged(f, verdicts),
{
    let before = f.records.dom().difference(verdicts.dom());
    let after = f.records.dom().difference(verdicts.insert(pid, v).dom());
    assert(before.contains(pid));
    assert(after =~= before.remove(pid));
}

/// Computes the filtered forest: for every process that stays in the tree, its
/// children that stay, in index order.
///
/// A process stays if `kept` holds it (or is `None`) or if one of its recorded
/// children stays. Only processes that can be reached from the orphan roots are
/// looked at. The walk keeps its own stack, so its depth does not grow with the
/// depth of the process tree.
pub fn filter_tree(data: &ProcessData, kept: Option<&FxHashSet<Pid>>) -> (filtered: FxHashMap<
    Pid,
    Vec<Pid>,
>)
    requires
        data@.is_forest(),
    ensures
        forall|p: Pid| #[trigger] filtered@.contains_key(p) <==> data@.included(kept_set(kept), p),
        forall|p: Pid| #[trigger]
            filtered@.contains_key(p) ==> filtered@[p]@ == data@.shown_kids(kept_set(kept), p),
        forall|p: Pid|
            data@.reachable(p) ==> (#[trigger] filtered@.contains_key(p) <==> kept_set(
                kept,
            ).contains(p) || exists|i: int|
                0 <= i < data@.kids(p).len() && filtered@.contains_key(
                    #[trigger] data@.kids(p)[i],
                )),
{
    let ghost f = data@;
    let ghost k = kept_set(kept);
    let mut filtered: FxHashMap<Pid, Vec<Pid>> = FxHashMap::default();
    let mut verdicts: FxHashMap<Pid, bool> = FxHashMap::default();
    let mut stack: Vec<Pid> = Vec::new();

    let mut r: usize = 0;
    while r < data.orphan_pids.len()
        invariant
            r <= data.orphan_pids.len(),
            f == data@,
            forall|i: int|
                0 <= i < stack@.len() ==> f.records.contains_key(#[trigger] stack@[i])
                    && f.reachable(stack@[i]),
            forall|i: int|
                0 <= i < r && f.records.contains_key(#[trigger] f.roots[i]) ==> stack@.contains(
                    f.roots[i],
                ),
        decreases data.orphan_pids.len() - r,
    {
        let pid = data.orphan_pids[r];
        let ghost prior = stack@;
        if map_get(&data.process_harvest, pid).is_some() {
            stack.push(pid);
            proof {
                lemma_root_reachable(f, r as int);
                assert(stack@[stack@.len() - 1] == pid);
            }
        }
        proof {
            assert forall|i: int|
                0 <= i < r + 1 && f.records.contains_key(#[trigger] f.roots[i]) implies stack@.contains(
                f.roots[i],
            ) by {
                if i < r {
                    let w = choose|w: int| 0 <= w < prior.len() && prior[w] == f.roots[i];
                    assert(stack@[w] == f.roots[i]);
                }
            }
        }
        r += 1;
    }

    while stack.len() > 0
        invariant
            f == data@,
            k == kept_set(kept),
            f.is_forest(),
            f.judged(k, verdicts@),
            f.filed(k, verdicts@, filtered@),
            forall|i: int|
                0 <= i < stack@.len() ==> f.records.contains_key(#[trigger] stack@[i])
                    && f.reachable(stack@[i]),
            forall|i: int|
                0 <= i < f.roots.len() && f.records.contains_key(#[trigger] f.roots[i])
                    ==> verdicts@.contains_key(f.roots[i]) || stack@.contains(f.roots[i]),
        decreases
                unjudged(f, verdicts@),
                (if top_awaits(stack@, verdicts@) {
                    0nat
                } else {
                    1nat
                }),
                slack(f, stack@, verdicts@),
    {
        let top = stack[stack.len() - 1];
        let ghost prior = stack@;
        let ghost prior_verdicts = verdicts@;
        if map_get(&verdicts, top).is_some() {
            stack.pop();
            proof {
                lemma_roots_stay_after_pop(f, prior, verdicts@);
            }
        } else {
            let before = stack.len();
            push_unjudged_kids(data, &verdicts, top, &mut stack);
            if stack.len() == before {
                proof {
                    assert(stack@ =~= prior);
                }
                let shown_kids = collect_shown_kids(data, &verdicts, top, Ghost(k));
                let is_shown = is_kept(kept, top) || shown_kids.len() > 0;
                proof {
                    lemma_shown_unfolds(f, k, top);
                    lemma_shown_among(f, k, f.kids(top));
                    assert(is_shown == f.shown(k, top));
                    lemma_verdict_lowers_unjudged(f, prior_verdicts, top, is_shown);
                }
                map_insert(&mut verdicts, top, is_shown);
                if is_shown {
                    map_insert(&mut filtered, top, shown_kids);
                }
                stack.pop();
                proof {
                    lemma_roots_stay_after_pop(f, prior, verdicts@);
                    assert(f.judged(k, verdicts@)) by {
                        assert forall|p: Pid| #[trigger] verdicts@.contains_key(p) implies {
                            &&& f.records.contains_key(p)
                            &&& f.reachable(p)
                            &&& verdicts@[p] == f.shown(k, p)
                            &&& f.kids_judged(verdicts@, p)
                        } by {
                            if p != top {
                                assert(prior_verdicts.contains_key(p));
                                assert(f.kids_judged(prior_verdicts, p));
                            } else {
                                assert(f.kids_judged(prior_verdicts, p));
                            }
                        }
                    }
                }
            } else {
                proof {
                    let pushed = stack@[stack@.len() - 1];
                    let i = choose|i: int|
                        0 <= i < f.kids(top).len() && f.kids(top)[i] == pushed;
                    lemma_height_falls(f, top, i);
                    assert(prior == stack@.take(before as int));
                    assert(prior.last() == top);
                    assert forall|j: int| 0 <= j < stack@.len() implies f.records.contains_key(
                        #[trigger] stack@[j],
                    ) && f.reachable(stack@[j]) by {
                        if j < before {
                            assert(stack@[j] == prior[j]);
                        } else {
                            let c = stack@[j];
                            let w = choose|w: int| 0 <= w < f.kids(top).len() && f.kids(top)[w] == c;
                            assert(prior[before - 1] == top);
                            lemma_kid_reachable(f, top, w);
                        }
                    }
                    assert forall|i: int|
                        0 <= i < f.roots.len() && f.records.contains_key(
                            #[trigger] f.roots[i],
                        ) implies verdicts@.contains_key(f.roots[i]) || stack@.contains(
                        f.roots[i],
                    ) by {
                        if !verdicts@.contains_key(f.roots[i]) {
                            let w = choose|w: int| 0 <= w < prior.len() && prior[w] == f.roots[i];
                            assert(stack@[w] == f.roots[i]);
                        }
                    }
                }
            }
        }
    }
    proof {
        assert forall|p: Pid| #[trigger] filtered@.contains_key(p) <==> f.included(k, p) by {
            if f.reachable(p) {
                let path = choose|path: Seq<Pid>| f.is_path(path) && #[trigger] path.last() == p;
                assert forall|r: int|
                    0 <= r < f.roots.len() && f.records.contains_key(
                        #[trigger] f.roots[r],
                    ) implies verdicts@.contains_key(f.roots[r]) by {
                }
                lemma_judged_covers(f, k, verdicts@, path);
            }
        }
        assert forall|p: Pid| f.reachable(p) implies (#[trigger] filtered@.contains_key(p)
            <==> k.contains(p) || exists|i: int|
            0 <= i < f.kids(p).len() && filtered@.contains_key(#[trigger] f.kids(p)[i])) by {
            lemma_ancestor_inclusion(f, k, p);
            if f.included(k, p) && !k.contains(p) {
                let i = choose|i: int|
                    0 <= i < f.kids(p).len() && #[trigger] f.included(k, f.kids(p)[i]);
                assert(filtered@.contains_key(f.kids(p)[i]));
            }
            if exists|i: int|
                0 <= i < f.kids(p).len() && filtered@.contains_key(#[trigger] f.kids(p)[i]) {
                let i = choose|i: int|
                    0 <= i < f.kids(p).len() && filtered@.contains_key(#[trigger] f.kids(p)[i]);
                assert(f.included(k, f.kids(p)[i]));
            }
        }
    }
    filtered
}

/// Popping the stack loses no root that still awaits its verdict, as long as the
/// popped pid has one.
proof fn lemma_roots_stay_after_pop(f: Forest, stack: Seq<Pid>, verdicts: Map<Pid, bool>)
    requires
        stack.len() > 0,
        verdicts.contains_key(stack.last()),
        forall|i: int|
            0 <= i < f.roots.len() && f.records.contains_key(#[trigger] f.roots[i])
                ==> verdicts.contains_key(f.roots[i]) || stack.contains(f.roots[i]),
    ensures
        forall|i: int|
            0 <= i < f.roots.len() && f.records.contains_key(#[trigger] f.roots[i])
                ==> verdicts.contains_key(f.roots[i]) || stack.drop_last().contains(f.roots[i]),
{
    assert forall|i: int|
        0 <= i < f.roots.len() && f.records.contains_key(
            #[trigger] f.roots[i],
        ) implies verdicts.contains_key(f.roots[i]) || stack.drop_last().contains(f.roots[i]) by {
        if !verdicts.contains_key(f.roots[i]) {
            let w = choose|w: int| 0 <= w < stack.len() && stack[w] == f.roots[i];
            assert(stack.drop_last()[w] == f.roots[i]);
        }
    }
}

} // verus!

//! Which processes the tree view gives a row to, and that it gives each of them
//! exactly one.

use crate::filter::{lemma_height_falls, lemma_shown_among};
use crate::harvest::{Forest, Pid};
use crate::laws::pids_of;
use crate::row::Row;
use crate::sort::{lemma_sorted_is_permutation, lemma_sorted_len};
use crate::tree::{child_fragment, lemma_expanded_rows, lemma_stacked_kids, no_fragments, Outline};
use vstd::prelude::*;

verus! {

impl Forest {
    /// No pid has two places in the forest: no root and no child is listed twice,
    /// no pid is the child of two parents, and no root is anyone's child.
    pub open spec fn has_unique_parents(self) -> bool {
        &&& self.roots.no_duplicates()
        &&& forall|p: Pid, i: int, j: int|
            0 <= i < j < self.kids(p).len() ==> #[trigger] self.kids(p)[i] != #[trigger] self.kids(
                p,
            )[j]
        &&& forall|p: Pid, q: Pid, i: int, j: int|
            0 <= i < self.kids(p).len() && 0 <= j < self.kids(q).len() && #[trigger] self.kids(
                p,
            )[i] == #[trigger] self.kids(q)[j] ==> p == q
        &&& forall|p: Pid, i: int, r: int|
            0 <= i < self.kids(p).len() && 0 <= r < self.roots.len() ==> #[trigger] self.kids(
                p,
            )[i] != #[trigger] self.roots[r]
    }

    /// `a` and `b` stand side by side: both are roots, or both are children of one
    /// parent.
    pub open spec fn side_by_side(self, a: Pid, b: Pid) -> bool {
        ||| self.roots.contains(a) && self.roots.contains(b)
        ||| exists|p: Pid| self.kids(p).contains(a) && #[trigger] self.kids(p).contains(b)
    }
}

impl Outline {
    /// `path` leads down through the filtered forest, and no pid on it but the last
    /// is collapsed.
    pub open spec fn is_open_descent(self, path: Seq<Pid>) -> bool {
        &&& path.len() > 0
        &&& forall|i: int|
            0 < i < path.len() ==> self.forest.kids(path[i - 1]).contains(#[trigger] path[i])
                && self.forest.present_shown(self.kept, path[i])
        &&& forall|i: int| 0 <= i < path.len() - 1 ==> !self.collapsed.contains(#[trigger] path[i])
    }

    /// From `from` one gets down to `pid` through the filtered forest without
    /// passing a collapsed pid.
    pub open spec fn opens_to(self, from: Pid, pid: Pid) -> bool {
        exists|path: Seq<Pid>|
            self.is_open_descent(path) && path[0] == from && #[trigger] path.last() == pid
    }

    /// `pid` opens up below one of the rows of `stack`.
    pub open spec fn opens_under(self, stack: Seq<Row>, pid: Pid) -> bool {
        exists|k: int| 0 <= k < stack.len() && #[trigger] self.opens_to(stack[k].pid, pid)
    }

    /// `pid` is part of the filtered forest and none of its ancestors on the way down
    /// from its root is collapsed.
    pub open spec fn visible(self, pid: Pid) -> bool {
        exists|r: int|
            0 <= r < self.forest.roots.len() && self.forest.present_shown(
                self.kept,
                self.forest.roots[r],
            ) && #[trigger] self.opens_to(self.forest.roots[r], pid)
    }

    /// Some proper ancestor of `pid`, on a way down to it from a root, is collapsed.
    pub open spec fn hidden(self, pid: Pid) -> bool {
        exists|path: Seq<Pid>, i: int|
            self.forest.is_path(path) && path.last() == pid && 0 <= i < path.len() - 1
                && self.collapsed.contains(#[trigger] path[i])
    }

    /// `stack` holds the plain rows of shown pids that stand side by side, each pid
    /// once.
    pub open spec fn is_sibling_stack(self, stack: Seq<Row>) -> bool {
        &&& forall|k: int|
            0 <= k < stack.len() ==> (#[trigger] stack[k]) == self.plain(stack[k].pid)
                && self.forest.present_shown(self.kept, stack[k].pid)
        &&& forall|i: int, j: int|
            0 <= i < j < stack.len() ==> self.forest.side_by_side(
                (#[trigger] stack[i]).pid,
                (#[trigger] stack[j]).pid,
            ) && stack[i].pid != stack[j].pid
    }

    /// A height above every row of `stack`.
    pub open spec fn height_above(self, stack: Seq<Row>) -> nat
        decreases stack.len(),
    {
        if stack.len() == 0 {
            0
        } else if self.h(stack.last().pid) < self.height_above(stack.drop_last()) {
            self.height_above(stack.drop_last())
        } else {
            self.h(stack.last().pid) + 1
        }
    }
}

proof fn lemma_height_above(o: Outline, stack: Seq<Row>)
    ensures
        forall|k: int| 0 <= k < stack.len() ==> o.h((#[trigger] stack[k]).pid) < o.height_above(stack),
    decreases stack.len(),
{
    if stack.len() > 0 {
        lemma_height_above(o, stack.drop_last());
        assert forall|k: int| 0 <= k < stack.len() implies o.h((#[trigger] stack[k]).pid)
            < o.height_above(stack) by {
            if k < stack.len() - 1 {
                assert(stack.drop_last()[k] == stack[k]);
            }
        }
    }
}

proof fn lemma_pids_of_concat(a: Seq<Row>, b: Seq<Row>)
    ensures
        pids_of(a + b) == pids_of(a) + pids_of(b),
{
    assert(pids_of(a + b) =~= pids_of(a) + pids_of(b));
}

/// What `shown_among` keeps: every recorded shown member, and no member twice if
/// none was there twice.
proof fn lemma_shown_among_keeps(f: Forest, kept: Set<Pid>, pids: Seq<Pid>)
    ensures
        forall|i: int|
            0 <= i < pids.len() && f.present_shown(kept, #[trigger] pids[i]) ==> f.shown_among(
                kept,
                pids,
            ).contains(pids[i]),
        pids.no_duplicates() ==> f.shown_among(kept, pids).no_duplicates(),
    decreases pids.len(),
{
    if pids.len() > 0 {
        let front = pids.drop_last();
        let picked = f.shown_among(kept, pids);
        let before = f.shown_among(kept, front);
        lemma_shown_among_keeps(f, kept, front);
        lemma_shown_among(f, kept, front);
        assert forall|i: int|
            0 <= i < pids.len() && f.present_shown(kept, #[trigger] pids[i]) implies picked.contains(
            pids[i],
        ) by {
            if i < front.len() {
                assert(front[i] == pids[i]);
                let w = choose|w: int| 0 <= w < before.len() && before[w] == pids[i];
                assert(picked[w] == pids[i]);
            } else {
                assert(picked[picked.len() - 1] == pids[i]);
            }
        }
        if pids.no_duplicates() {
            assert forall|i: int, j: int| 0 <= i < front.len() && 0 <= j < front.len() && i
                != j implies front[i] != front[j] by {
                assert(front[i] == pids[i] && front[j] == pids[j]);
            }
            assert forall|i: int, j: int| 0 <= i < picked.len() && 0 <= j < picked.len() && i
                != j implies picked[i] != picked[j] by {
                if i < before.len() && j < before.len() {
                    assert(picked[i] == before[i] && picked[j] == before[j]);
                } else {
                    let inner = if i < j { i } else { j };
                    assert(picked[inner] == before[inner]);
                    assert(front.contains(before[inner]));
                    let w = choose|w: int| 0 <= w < front.len() && front[w] == before[inner];
                    assert(pids[w] == before[inner]);
                    assert(pids[pids.len() - 1] == pids.last());
                }
            }
        }
    }
}

/// The plain rows of recorded pids: one for each pid, in order.
proof fn lemma_base_rows_of_recorded(o: Outline, pids: Seq<Pid>)
    requires
        forall|i: int| 0 <= i < pids.len() ==> o.forest.records.contains_key(#[trigger] pids[i]),
    ensures
        o.forest.base_rows(o.style, pids).len() == pids.len(),
        forall|i: int|
            0 <= i < pids.len() ==> #[trigger] o.forest.base_rows(o.style, pids)[i] == o.plain(
                pids[i],
            ),
    decreases pids.len(),
{
    if pids.len() > 0 {
        let front = pids.drop_last();
        assert forall|i: int| 0 <= i < front.len() implies o.forest.records.contains_key(
            #[trigger] front[i],
        ) by {
            assert(front[i] == pids[i]);
        }
        lemma_base_rows_of_recorded(o, front);
        assert(o.forest.records.contains_key(pids[pids.len() - 1]));
    }
}

/// The stack made of recorded pids holds the plain row of each pid, and of none
/// twice if none was given twice.
proof fn lemma_stack_of(o: Outline, pids: Seq<Pid>)
    requires
        o.forest.keyed_by_pid(),
        forall|i: int| 0 <= i < pids.len() ==> o.forest.records.contains_key(#[trigger] pids[i]),
    ensures
        ({
            let stack = o.style.arranged_rev(o.forest.base_rows(o.style, pids));
            &&& stack.len() == pids.len()
            &&& forall|k: int|
                0 <= k < stack.len() ==> pids.contains((#[trigger] stack[k]).pid) && stack[k]
                    == o.plain(stack[k].pid)
            &&& forall|i: int| 0 <= i < pids.len() ==> pids_of(stack).contains(#[trigger] pids[i])
            &&& pids.no_duplicates() ==> pids_of(stack).no_duplicates()
        }),
{
    broadcast use vstd::seq_lib::group_to_multiset_ensures;

    let base = o.forest.base_rows(o.style, pids);
    let stack = o.style.arranged_rev(base);
    lemma_base_rows_of_recorded(o, pids);
    if let Some(column) = o.style.sort_column {
        lemma_sorted_is_permutation(column, o.style.order.flipped(), base);
        lemma_sorted_len(column, o.style.order.flipped(), base);
    }
    assert(stack.to_multiset() == base.to_multiset());
    base.to_multiset_ensures();
    stack.to_multiset_ensures();
    assert forall|j: int| 0 <= j < base.len() implies (#[trigger] base[j]).pid == pids[j] by {
        assert(base[j] == o.plain(pids[j]));
    }
    assert forall|k: int| 0 <= k < stack.len() implies pids.contains((#[trigger] stack[k]).pid)
        && stack[k] == o.plain(stack[k].pid) by {
        assert(stack.contains(stack[k]));
        assert(base.to_multiset().count(stack[k]) > 0);
        assert(base.contains(stack[k]));
        let j = choose|j: int| 0 <= j < base.len() && base[j] == stack[k];
        assert(pids[j] == stack[k].pid);
    }
    assert forall|i: int| 0 <= i < pids.len() implies pids_of(stack).contains(
        #[trigger] pids[i],
    ) by {
        assert(base.contains(base[i]));
        assert(stack.to_multiset().count(base[i]) > 0);
        assert(stack.contains(base[i]));
        let k = choose|k: int| 0 <= k < stack.len() && stack[k] == base[i];
        assert(pids_of(stack)[k] == pids[i]);
    }
    if pids.no_duplicates() {
        assert(base.no_duplicates()) by {
            assert forall|a: int, b: int| 0 <= a < base.len() && 0 <= b < base.len() && a
                != b implies base[a] != base[b] by {
                assert(base[a].pid == pids[a] && base[b].pid == pids[b]);
            }
        }
        base.lemma_multiset_has_no_duplicates();
        stack.lemma_multiset_has_no_duplicates_conv();
        assert forall|a: int, b: int| 0 <= a < stack.len() && 0 <= b < stack.len() && a
            != b implies pids_of(stack)[a] != pids_of(stack)[b] by {
            if stack[a].pid == stack[b].pid {
                assert(stack[a] == o.plain(stack[a].pid));
                assert(stack[b] == o.plain(stack[b].pid));
            }
        }
    }
}

/// Down the child index the height never rises, and it falls with the first
/// step.
proof fn lemma_descent_falls(f: Forest, path: Seq<Pid>)
    requires
        f.is_acyclic(),
        f.is_descent(path),
    ensures
        (f.height())(path.last()) <= (f.height())(path[0]),
        path.len() > 1 ==> (f.height())(path.last()) < (f.height())(path[0]),
    decreases path.len(),
{
    if path.len() > 1 {
        let front = path.drop_last();
        assert forall|i: int| 0 < i < front.len() implies f.records.contains_key(
            #[trigger] front[i],
        ) && f.kids(front[i - 1]).contains(front[i]) by {
            assert(front[i] == path[i] && front[i - 1] == path[i - 1]);
        }
        lemma_descent_falls(f, front);
        assert(front[0] == path[0]);
        assert(front.last() == path[path.len() - 2]);
        assert(f.kids(path[path.len() - 2]).contains(path[path.len() - 1]));
        let i = choose|i: int|
            0 <= i < f.kids(front.last()).len() && f.kids(front.last())[i] == path.last();
        lemma_height_falls(f, front.last(), i);
    }
}

/// A pid lies below a pid that stands beside it only if the two are one.
proof fn lemma_not_below_neighbour(f: Forest, a: Pid, b: Pid, path: Seq<Pid>)
    requires
        f.is_acyclic(),
        f.has_unique_parents(),
        f.side_by_side(a, b),
        f.is_descent(path),
        path[0] == b,
        path.last() == a,
    ensures
        path.len() == 1,
{
    if path.len() == 1 {
        return ;
    }
    let parent = path[path.len() - 2];
    assert(f.kids(parent).contains(path[path.len() - 1]));
    let j = choose|j: int| 0 <= j < f.kids(parent).len() && f.kids(parent)[j] == a;
    if f.roots.contains(a) {
        let r = choose|r: int| 0 <= r < f.roots.len() && f.roots[r] == a;
        assert(f.kids(parent)[j] != f.roots[r]);
    } else {
        let p = choose|p: Pid| f.kids(p).contains(a) && #[trigger] f.kids(p).contains(b);
        let i = choose|i: int| 0 <= i < f.kids(p).len() && f.kids(p)[i] == a;
        assert(f.kids(p)[i] == f.kids(parent)[j]);
        assert(p == parent);
        let front = path.drop_last();
        assert forall|i: int| 0 < i < front.len() implies f.records.contains_key(
            #[trigger] front[i],
        ) && f.kids(front[i - 1]).contains(front[i]) by {
            assert(front[i] == path[i] && front[i - 1] == path[i - 1]);
        }
        assert(front[0] == b && front.last() == p);
        lemma_descent_falls(f, front);
        let w = choose|w: int| 0 <= w < f.kids(p).len() && f.kids(p)[w] == b;
        lemma_height_falls(f, p, w);
    }
}

/// Two pids that stand side by side and have a pid below both are one.
proof fn lemma_apart(f: Forest, a: Pid, b: Pid, below_a: Seq<Pid>, below_b: Seq<Pid>)
    requires
        f.is_acyclic(),
        f.has_unique_parents(),
        f.side_by_side(a, b),
        f.is_descent(below_a),
        f.is_descent(below_b),
        below_a[0] == a,
        below_b[0] == b,
        below_a.last() == below_b.last(),
    ensures
        a == b,
    decreases below_a.len() + below_b.len(),
{
    if below_a.len() == 1 && below_b.len() == 1 {
    } else if below_a.len() == 1 {
        lemma_not_below_neighbour(f, a, b, below_b);
    } else if below_b.len() == 1 {
        assert(f.side_by_side(b, a)) by {
            if !(f.roots.contains(a) && f.roots.contains(b)) {
                let p = choose|p: Pid| f.kids(p).contains(a) && #[trigger] f.kids(p).contains(b);
                assert(f.kids(p).contains(b) && f.kids(p).contains(a));
            }
        }
        lemma_not_below_neighbour(f, b, a, below_a);
    } else {
        let pa = below_a[below_a.len() - 2];
        let pb = below_b[below_b.len() - 2];
        assert(f.kids(pa).contains(below_a[below_a.len() - 1]));
        assert(f.kids(pb).contains(below_b[below_b.len() - 1]));
        let i = choose|i: int| 0 <= i < f.kids(pa).len() && f.kids(pa)[i] == below_a.last();
        let j = choose|j: int| 0 <= j < f.kids(pb).len() && f.kids(pb)[j] == below_b.last();
        assert(f.kids(pa)[i] == f.kids(pb)[j]);
        assert(pa == pb);
        let fa = below_a.drop_last();
        let fb = below_b.drop_last();
        assert forall|i: int| 0 < i < fa.len() implies f.records.contains_key(#[trigger] fa[i])
            && f.kids(fa[i - 1]).contains(fa[i]) by {
            assert(fa[i] == below_a[i] && fa[i - 1] == below_a[i - 1]);
        }
        assert forall|i: int| 0 < i < fb.len() implies f.records.contains_key(#[trigger] fb[i])
            && f.kids(fb[i - 1]).contains(fb[i]) by {
            assert(fb[i] == below_b[i] && fb[i - 1] == below_b[i - 1]);
        }
        assert(fa[0] == a && fb[0] == b);
        lemma_apart(f, a, b, fa, fb);
    }
}

/// An open descent is a descent.
proof fn lemma_open_is_descent(o: Outline, path: Seq<Pid>)
    requires
        o.is_open_descent(path),
    ensures
        o.forest.is_descent(path),
{
}

/// The shown children of a shown pid, stacked, are a sibling stack.
proof fn lemma_stacked_kids_are_siblings(o: Outline, pid: Pid)
    requires
        o.forest.is_forest(),
        o.forest.has_unique_parents(),
    ensures
        o.is_sibling_stack(o.stacked_kids(pid)),
        forall|c: Pid|
            o.forest.kids(pid).contains(c) && o.forest.present_shown(o.kept, c) ==> pids_of(
                o.stacked_kids(pid),
            ).contains(c),
{
    let kids = o.forest.kids(pid);
    let shown = o.forest.shown_kids(o.kept, pid);
    let stack = o.stacked_kids(pid);
    lemma_shown_among(o.forest, o.kept, kids);
    lemma_shown_among_keeps(o.forest, o.kept, kids);
    assert(kids.no_duplicates()) by {
        assert forall|i: int, j: int| 0 <= i < kids.len() && 0 <= j < kids.len() && i
            != j implies kids[i] != kids[j] by {
            if i < j {
                assert(o.forest.kids(pid)[i] != o.forest.kids(pid)[j]);
            } else {
                assert(o.forest.kids(pid)[j] != o.forest.kids(pid)[i]);
            }
        }
    }
    lemma_stack_of(o, shown);
    lemma_stacked_kids(o, pid);
    assert forall|i: int, j: int| 0 <= i < j < stack.len() implies o.forest.side_by_side(
        (#[trigger] stack[i]).pid,
        (#[trigger] stack[j]).pid,
    ) && stack[i].pid != stack[j].pid by {
        assert(kids.contains(stack[i].pid) && kids.contains(stack[j].pid));
        assert(pids_of(stack)[i] != pids_of(stack)[j]);
    }
    assert forall|c: Pid|
        o.forest.kids(pid).contains(c) && o.forest.present_shown(o.kept, c) implies pids_of(
        stack,
    ).contains(c) by {
        let i = choose|i: int| 0 <= i < kids.len() && kids[i] == c;
        assert(o.forest.present_shown(o.kept, kids[i]));
        assert(shown.contains(c));
        let w = choose|w: int| 0 <= w < shown.len() && shown[w] == c;
        assert(pids_of(stack).contains(shown[w]));
    }
}

/// The rows of a subtree show pids that open up below its root, each once.
proof fn lemma_subtree_pids(o: Outline, row: Row, fragments: Seq<Seq<char>>, is_last: bool)
    requires
        o.forest.is_forest(),
        o.forest.has_unique_parents(),
        row == o.plain(row.pid),
        o.forest.present_shown(o.kept, row.pid),
    ensures
        forall|j: int|
            0 <= j < o.subtree_rows(row, fragments, is_last).len() ==> o.opens_to(
                row.pid,
                #[trigger] pids_of(o.subtree_rows(row, fragments, is_last))[j],
            ),
        pids_of(o.subtree_rows(row, fragments, is_last)).no_duplicates(),
    decreases o.h(row.pid) + 1, 0nat,
{
    let rows = o.subtree_rows(row, fragments, is_last);
    let top = seq![row.pid];
    assert(o.is_open_descent(top) && top[0] == row.pid && top.last() == row.pid);
    if o.collapsed.contains(row.pid) {
        assert(pids_of(rows) =~= seq![row.pid]);
    } else {
        let below = fragments.push(child_fragment(fragments, is_last));
        let stack = o.stacked_kids(row.pid);
        let under = o.rows_from(stack, below);
        lemma_expanded_rows(o, row, fragments, is_last);
        lemma_stacked_kids(o, row.pid);
        lemma_stacked_kids_are_siblings(o, row.pid);
        lemma_rows_from_pids(o, stack, below, o.h(row.pid));
        let head = seq![
            row.with_prefix(Some(crate::tree::row_prefix(fragments, is_last, false))).with_disabled(
                !o.kept.contains(row.pid),
            ),
        ];
        lemma_pids_of_concat(head, under);
        assert(pids_of(head) =~= seq![row.pid]);
        assert forall|j: int| 0 <= j < rows.len() implies o.opens_to(
            row.pid,
            #[trigger] pids_of(rows)[j],
        ) by {
            if j > 0 {
                let q = pids_of(under)[j - 1];
                assert(pids_of(rows)[j] == q);
                let k = choose|k: int|
                    0 <= k < stack.len() && #[trigger] o.opens_to(stack[k].pid, q);
                let path = choose|path: Seq<Pid>|
                    o.is_open_descent(path) && path[0] == stack[k].pid && #[trigger] path.last()
                        == q;
                let longer = top + path;
                assert forall|i: int| 0 < i < longer.len() implies o.forest.kids(
                    longer[i - 1],
                ).contains(#[trigger] longer[i]) && o.forest.present_shown(o.kept, longer[i]) by {
                    if i == 1 {
                        assert(longer[1] == path[0] && longer[0] == row.pid);
                    } else {
                        assert(longer[i] == path[i - 1] && longer[i - 1] == path[i - 2]);
                    }
                }
                assert forall|i: int| 0 <= i < longer.len() - 1 implies !o.collapsed.contains(
                    #[trigger] longer[i],
                ) by {
                    if i > 0 {
                        assert(longer[i] == path[i - 1]);
                    }
                }
                assert(longer.last() == q && longer[0] == row.pid);
                assert(o.is_open_descent(longer));
            }
        }
        assert forall|i: int, j: int|
            0 <= i < pids_of(head).len() && 0 <= j < pids_of(under).len() implies pids_of(head)[i]
            != pids_of(under)[j] by {
            let q = pids_of(under)[j];
            let k = choose|k: int| 0 <= k < stack.len() && #[trigger] o.opens_to(stack[k].pid, q);
            let path = choose|path: Seq<Pid>|
                o.is_open_descent(path) && path[0] == stack[k].pid && #[trigger] path.last() == q;
            lemma_open_is_descent(o, path);
            lemma_descent_falls(o.forest, path);
        }
        vstd::seq_lib::lemma_no_dup_in_concat(pids_of(head), pids_of(under));
    }
}

/// The rows under a sibling stack show pids that open up below the siblings,
/// each once.
proof fn lemma_rows_from_pids(o: Outline, stack: Seq<Row>, fragments: Seq<Seq<char>>, bound: nat)
    requires
        o.forest.is_forest(),
        o.forest.has_unique_parents(),
        o.is_sibling_stack(stack),
        forall|k: int| 0 <= k < stack.len() ==> o.h((#[trigger] stack[k]).pid) < bound,
    ensures
        forall|j: int|
            0 <= j < o.rows_from(stack, fragments).len() ==> o.opens_under(
                stack,
                #[trigger] pids_of(o.rows_from(stack, fragments))[j],
            ),
        pids_of(o.rows_from(stack, fragments)).no_duplicates(),
    decreases bound, stack.len() + 1,
{
    let rows = o.rows_from(stack, fragments);
    if stack.len() == 0 {
        assert(pids_of(rows) =~= Seq::<Pid>::empty());
    } else {
        let last = stack.last();
        let front = stack.drop_last();
        let first = o.subtree_rows(last, fragments, stack.len() == 1);
        let rest = o.rows_from(front, fragments);
        assert(o.is_sibling_stack(front)) by {
            assert forall|k: int| 0 <= k < front.len() implies (#[trigger] front[k]) == o.plain(
                front[k].pid,
            ) && o.forest.present_shown(o.kept, front[k].pid) by {
                assert(front[k] == stack[k]);
            }
            assert forall|i: int, j: int| 0 <= i < j < front.len() implies o.forest.side_by_side(
                (#[trigger] front[i]).pid,
                (#[trigger] front[j]).pid,
            ) && front[i].pid != front[j].pid by {
                assert(front[i] == stack[i] && front[j] == stack[j]);
            }
        }
        assert forall|k: int| 0 <= k < front.len() implies o.h((#[trigger] front[k]).pid)
            < bound by {
            assert(front[k] == stack[k]);
        }
        assert(stack[stack.len() - 1] == last);
        lemma_subtree_pids(o, last, fragments, stack.len() == 1);
        lemma_rows_from_pids(o, front, fragments, bound);
        lemma_pids_of_concat(first, rest);
        assert forall|j: int| 0 <= j < rows.len() implies o.opens_under(
            stack,
            #[trigger] pids_of(rows)[j],
        ) by {
            if j < first.len() {
                assert(pids_of(rows)[j] == pids_of(first)[j]);
                assert(o.opens_to(stack[stack.len() - 1].pid, pids_of(rows)[j]));
            } else {
                let q = pids_of(rest)[j - first.len()];
                assert(pids_of(rows)[j] == q);
                let k = choose|k: int|
                    0 <= k < front.len() && #[trigger] o.opens_to(front[k].pid, q);
                assert(front[k] == stack[k]);
                assert(o.opens_to(stack[k].pid, q));
            }
        }
        assert forall|i: int, j: int|
            0 <= i < pids_of(first).len() && 0 <= j < pids_of(rest).len() implies pids_of(
            first,
        )[i] != pids_of(rest)[j] by {
            let q = pids_of(rest)[j];
            if pids_of(first)[i] == q {
                let k = choose|k: int|
                    0 <= k < front.len() && #[trigger] o.opens_to(front[k].pid, q);
                assert(front[k] == stack[k]);
                let under_k = choose|path: Seq<Pid>|
                    o.is_open_descent(path) && path[0] == front[k].pid && #[trigger] path.last()
                        == q;
                let under_last = choose|path: Seq<Pid>|
                    o.is_open_descent(path) && path[0] == last.pid && #[trigger] path.last() == q;
                lemma_open_is_descent(o, under_k);
                lemma_open_is_descent(o, under_last);
                assert(o.forest.side_by_side(stack[k].pid, stack[stack.len() - 1].pid));
                lemma_apart(o.forest, stack[k].pid, last.pid, under_k, under_last);
            }
        }
        vstd::seq_lib::lemma_no_dup_in_concat(pids_of(first), pids_of(rest));
    }
}

/// The rows of every subtree under a stack are among the rows under the stack.
proof fn lemma_rows_from_holds(o: Outline, stack: Seq<Row>, fragments: Seq<Seq<char>>, k: int)
    requires
        0 <= k < stack.len(),
    ensures
        forall|q: Pid|
            pids_of(o.subtree_rows(stack[k], fragments, k == 0)).contains(q) ==> pids_of(
                o.rows_from(stack, fragments),
            ).contains(q),
    decreases stack.len(),
{
    let first = o.subtree_rows(stack.last(), fragments, stack.len() == 1);
    let rest = o.rows_from(stack.drop_last(), fragments);
    let rows = o.rows_from(stack, fragments);
    lemma_pids_of_concat(first, rest);
    if k == stack.len() - 1 {
        assert forall|q: Pid| pids_of(first).contains(q) implies pids_of(rows).contains(q) by {
            let i = choose|i: int| 0 <= i < pids_of(first).len() && pids_of(first)[i] == q;
            assert(pids_of(rows)[i] == q);
        }
    } else {
        lemma_rows_from_holds(o, stack.drop_last(), fragments, k);
        assert(stack.drop_last()[k] == stack[k]);
        assert forall|q: Pid|
            pids_of(o.subtree_rows(stack[k], fragments, k == 0)).contains(
                q,
            ) implies pids_of(rows).contains(q) by {
            assert(pids_of(o.subtree_rows(stack.drop_last()[k], fragments, k == 0)).contains(q));
            assert(pids_of(rest).contains(q));
            let i = choose|i: int| 0 <= i < pids_of(rest).len() && pids_of(rest)[i] == q;
            assert(pids_of(rows)[first.len() + i] == q);
        }
    }
}

/// Every pid that opens up below the root of a subtree has a row in it.
proof fn lemma_subtree_holds(
    o: Outline,
    row: Row,
    fragments: Seq<Seq<char>>,
    is_last: bool,
    path: Seq<Pid>,
)
    requires
        o.forest.is_forest(),
        o.forest.has_unique_parents(),
        row == o.plain(row.pid),
        o.is_open_descent(path),
        path[0] == row.pid,
    ensures
        pids_of(o.subtree_rows(row, fragments, is_last)).contains(path.last()),
    decreases path.len(),
{
    let rows = o.subtree_rows(row, fragments, is_last);
    if path.len() == 1 {
        assert(rows.len() > 0 && rows[0].pid == row.pid);
        assert(pids_of(rows)[0] == path.last());
    } else {
        let below = fragments.push(child_fragment(fragments, is_last));
        let stack = o.stacked_kids(row.pid);
        let under = o.rows_from(stack, below);
        assert(!o.collapsed.contains(path[0]));
        lemma_expanded_rows(o, row, fragments, is_last);
        lemma_stacked_kids_are_siblings(o, row.pid);
        let kid = path[1];
        assert(o.forest.kids(path[0]).contains(path[1]));
        assert(pids_of(stack).contains(kid));
        let k = choose|k: int| 0 <= k < pids_of(stack).len() && pids_of(stack)[k] == kid;
        let rest = path.skip(1);
        assert forall|i: int| 0 < i < rest.len() implies o.forest.kids(rest[i - 1]).contains(
            #[trigger] rest[i],
        ) && o.forest.present_shown(o.kept, rest[i]) by {
            assert(rest[i] == path[i + 1] && rest[i - 1] == path[i]);
        }
        assert forall|i: int| 0 <= i < rest.len() - 1 implies !o.collapsed.contains(
            #[trigger] rest[i],
        ) by {
            assert(rest[i] == path[i + 1]);
        }
        assert(rest[0] == stack[k].pid && rest.last() == path.last());
        assert(stack[k] == o.plain(stack[k].pid));
        lemma_subtree_holds(o, stack[k], below, k == 0, rest);
        lemma_rows_from_holds(o, stack, below, k);
        assert(pids_of(o.subtree_rows(stack[k], below, k == 0)).contains(path.last()));
        assert(pids_of(under).contains(path.last()));
        let head = seq![
            row.with_prefix(Some(crate::tree::row_prefix(fragments, is_last, false))).with_disabled(
                !o.kept.contains(row.pid),
            ),
        ];
        lemma_pids_of_concat(head, under);
        let i = choose|i: int| 0 <= i < pids_of(under).len() && pids_of(under)[i] == path.last();
        assert(pids_of(rows)[1 + i] == path.last());
    }
}

/// Row conservation in the tree view, by pids: where no pid has two places, the
/// tree view gives a row to exactly the processes that are part of the filtered
/// forest and have no collapsed proper ancestor, and to each of them exactly one.
pub proof fn lemma_tree_rows_by_pid(o: Outline)
    requires
        o.forest.is_forest(),
        o.forest.has_unique_parents(),
    ensures
        pids_of(o.rows()).no_duplicates(),
        forall|pid: Pid| #[trigger]
            pids_of(o.rows()).contains(pid) <==> o.forest.included(o.kept, pid) && !o.hidden(pid),
        pids_of(o.rows()).to_set() == Set::new(
            |pid: Pid| o.forest.included(o.kept, pid) && !o.hidden(pid),
        ),
        o.rows().len() == Set::new(
            |pid: Pid| o.forest.included(o.kept, pid) && !o.hidden(pid),
        ).len(),
{
    lemma_rows_show_the_visible(o);
    assert forall|pid: Pid| #[trigger]
        pids_of(o.rows()).contains(pid) <==> o.forest.included(o.kept, pid) && !o.hidden(pid) by {
        lemma_visible_means(o, pid);
    }
    assert(pids_of(o.rows()).to_set() =~= Set::new(
        |pid: Pid| o.forest.included(o.kept, pid) && !o.hidden(pid),
    ));
    pids_of(o.rows()).unique_seq_to_set();
}

/// Where no pid has two places, the tree view gives a row to exactly the visible
/// processes, and to each of them exactly one.
pub proof fn lemma_rows_show_the_visible(o: Outline)
    requires
        o.forest.is_forest(),
        o.forest.has_unique_parents(),
    ensures
        pids_of(o.rows()).no_duplicates(),
        forall|pid: Pid| #[trigger] pids_of(o.rows()).contains(pid) <==> o.visible(pid),
        pids_of(o.rows()).to_set() == Set::new(|pid: Pid| o.visible(pid)),
        o.rows().len() == Set::new(|pid: Pid| o.visible(pid)).len(),
{
    let f = o.forest;
    let roots = f.shown_among(o.kept, f.roots);
    let stack = o.stacked_roots();
    let rows = o.rows();
    lemma_shown_among(f, o.kept, f.roots);
    lemma_shown_among_keeps(f, o.kept, f.roots);
    lemma_stack_of(o, roots);
    assert(o.is_sibling_stack(stack)) by {
        assert forall|i: int, j: int| 0 <= i < j < stack.len() implies f.side_by_side(
            (#[trigger] stack[i]).pid,
            (#[trigger] stack[j]).pid,
        ) && stack[i].pid != stack[j].pid by {
            assert(roots.contains(stack[i].pid) && roots.contains(stack[j].pid));
            let a = choose|a: int| 0 <= a < roots.len() && roots[a] == stack[i].pid;
            let b = choose|b: int| 0 <= b < roots.len() && roots[b] == stack[j].pid;
            assert(f.roots.contains(roots[a]) && f.roots.contains(roots[b]));
            assert(pids_of(stack)[i] != pids_of(stack)[j]);
        }
        assert forall|k: int| 0 <= k < stack.len() implies (#[trigger] stack[k]) == o.plain(
            stack[k].pid,
        ) && f.present_shown(o.kept, stack[k].pid) by {
            assert(roots.contains(stack[k].pid));
            let a = choose|a: int| 0 <= a < roots.len() && roots[a] == stack[k].pid;
            assert(f.present_shown(o.kept, roots[a]));
        }
    }
    lemma_height_above(o, stack);
    lemma_rows_from_pids(o, stack, no_fragments(), o.height_above(stack));
    assert forall|pid: Pid| #[trigger] pids_of(rows).contains(pid) <==> o.visible(pid) by {
        if pids_of(rows).contains(pid) {
            let j = choose|j: int| 0 <= j < pids_of(rows).len() && pids_of(rows)[j] == pid;
            let k = choose|k: int|
                0 <= k < stack.len() && #[trigger] o.opens_to(stack[k].pid, pids_of(rows)[j]);
            assert(roots.contains(stack[k].pid));
            let a = choose|a: int| 0 <= a < roots.len() && roots[a] == stack[k].pid;
            assert(f.roots.contains(roots[a]) && f.present_shown(o.kept, roots[a]));
            let r = choose|r: int| 0 <= r < f.roots.len() && f.roots[r] == stack[k].pid;
            assert(o.opens_to(f.roots[r], pid));
        }
        if o.visible(pid) {
            let r = choose|r: int|
                0 <= r < f.roots.len() && f.present_shown(o.kept, f.roots[r])
                    && #[trigger] o.opens_to(f.roots[r], pid);
            let path = choose|path: Seq<Pid>|
                o.is_open_descent(path) && path[0] == f.roots[r] && #[trigger] path.last() == pid;
            assert(roots.contains(f.roots[r]));
            let a = choose|a: int| 0 <= a < roots.len() && roots[a] == f.roots[r];
            assert(pids_of(stack).contains(roots[a]));
            let k = choose|k: int| 0 <= k < pids_of(stack).len() && pids_of(stack)[k] == f.roots[r];
            lemma_subtree_holds(o, stack[k], no_fragments(), k == 0, path);
            lemma_rows_from_holds(o, stack, no_fragments(), k);
        }
    }
    assert(pids_of(rows).to_set() =~= Set::new(|pid: Pid| o.visible(pid)));
    pids_of(rows).unique_seq_to_set();
}

/// A visible process is part of the filtered forest.
pub proof fn lemma_visible_is_included(o: Outline, pid: Pid)
    requires
        o.visible(pid),
    ensures
        o.forest.included(o.kept, pid),
{
    let f = o.forest;
    let r = choose|r: int|
        0 <= r < f.roots.len() && f.present_shown(o.kept, f.roots[r]) && #[trigger] o.opens_to(
            f.roots[r],
            pid,
        );
    let path = choose|path: Seq<Pid>|
        o.is_open_descent(path) && path[0] == f.roots[r] && #[trigger] path.last() == pid;
    assert forall|i: int| 0 <= i < path.len() implies f.records.contains_key(
        #[trigger] path[i],
    ) by {
        if i > 0 {
            assert(f.present_shown(o.kept, path[i]));
        }
    }
    assert(f.is_path(path));
    if path.len() > 1 {
        assert(f.present_shown(o.kept, path[path.len() - 1]));
    }
}

/// Where no pid has two places, there is one way down to a pid from the roots.
proof fn lemma_one_way(f: Forest, one: Seq<Pid>, other: Seq<Pid>)
    requires
        f.has_unique_parents(),
        f.is_path(one),
        f.is_path(other),
        one.last() == other.last(),
    ensures
        one == other,
    decreases one.len() + other.len(),
{
    if one.len() == 1 && other.len() == 1 {
        assert(one =~= other);
    } else if one.len() == 1 || other.len() == 1 {
        let (short, long) = if one.len() == 1 {
            (one, other)
        } else {
            (other, one)
        };
        let parent = long[long.len() - 2];
        assert(f.kids(parent).contains(long[long.len() - 1]));
        let j = choose|j: int| 0 <= j < f.kids(parent).len() && f.kids(parent)[j] == short[0];
        let r = choose|r: int| 0 <= r < f.roots.len() && f.roots[r] == short[0];
        assert(f.kids(parent)[j] != f.roots[r]);
    } else {
        let pa = one[one.len() - 2];
        let pb = other[other.len() - 2];
        assert(f.kids(pa).contains(one[one.len() - 1]));
        assert(f.kids(pb).contains(other[other.len() - 1]));
        let i = choose|i: int| 0 <= i < f.kids(pa).len() && f.kids(pa)[i] == one.last();
        let j = choose|j: int| 0 <= j < f.kids(pb).len() && f.kids(pb)[j] == other.last();
        assert(f.kids(pa)[i] == f.kids(pb)[j]);
        let fa = one.drop_last();
        let fb = other.drop_last();
        assert(fa[0] == one[0] && fb[0] == other[0]);
        assert forall|i: int| 0 <= i < fa.len() implies f.records.contains_key(#[trigger] fa[i]) by {
            assert(fa[i] == one[i]);
        }
        assert forall|i: int| 0 <= i < fb.len() implies f.records.contains_key(#[trigger] fb[i]) by {
            assert(fb[i] == other[i]);
        }
        assert forall|i: int| 0 < i < fa.len() implies f.kids(fa[i - 1]).contains(
            #[trigger] fa[i],
        ) by {
            assert(fa[i] == one[i] && fa[i - 1] == one[i - 1]);
        }
        assert forall|i: int| 0 < i < fb.len() implies f.kids(fb[i - 1]).contains(
            #[trigger] fb[i],
        ) by {
            assert(fb[i] == other[i] && fb[i - 1] == other[i - 1]);
        }
        lemma_one_way(f, fa, fb);
        assert(one =~= fa.push(one.last()));
        assert(other =~= fb.push(other.last()));
    }
}

/// On a way down to a shown pid every pid is shown.
proof fn lemma_shown_on_the_way(f: Forest, kept: Set<Pid>, path: Seq<Pid>, i: int)
    requires
        f.is_acyclic(),
        f.is_path(path),
        f.shown(kept, path.last()),
        0 <= i < path.len(),
    ensures
        f.shown(kept, path[i]),
    decreases path.len() - i,
{
    if i < path.len() - 1 {
        lemma_shown_on_the_way(f, kept, path, i + 1);
        assert(f.kids(path[i]).contains(path[i + 1]));
        let w = choose|w: int| 0 <= w < f.kids(path[i]).len() && f.kids(path[i])[w] == path[i + 1];
        assert(f.present_shown(kept, f.kids(path[i])[w]));
        crate::filter::lemma_shown_unfolds(f, kept, path[i]);
    }
}

/// Where no pid has two places, a process is visible exactly if it is part of
/// the filtered forest and no proper ancestor of it is collapsed.
pub proof fn lemma_visible_means(o: Outline, pid: Pid)
    requires
        o.forest.is_forest(),
        o.forest.has_unique_parents(),
    ensures
        o.visible(pid) <==> o.forest.included(o.kept, pid) && !o.hidden(pid),
{
    let f = o.forest;
    if o.visible(pid) {
        lemma_visible_is_included(o, pid);
        let r = choose|r: int|
            0 <= r < f.roots.len() && f.present_shown(o.kept, f.roots[r])
                && #[trigger] o.opens_to(f.roots[r], pid);
        let open = choose|path: Seq<Pid>|
            o.is_open_descent(path) && path[0] == f.roots[r] && #[trigger] path.last() == pid;
        assert forall|i: int| 0 <= i < open.len() implies f.records.contains_key(
            #[trigger] open[i],
        ) by {
            if i > 0 {
                assert(f.present_shown(o.kept, open[i]));
            }
        }
        assert(f.is_path(open));
        if o.hidden(pid) {
            let (path, i) = choose|path: Seq<Pid>, i: int|
                f.is_path(path) && path.last() == pid && 0 <= i < path.len() - 1
                    && o.collapsed.contains(#[trigger] path[i]);
            lemma_one_way(f, open, path);
            assert(!o.collapsed.contains(open[i]));
        }
    }
    if f.included(o.kept, pid) && !o.hidden(pid) {
        let path = choose|path: Seq<Pid>| f.is_path(path) && #[trigger] path.last() == pid;
        let r = choose|r: int| 0 <= r < f.roots.len() && f.roots[r] == path[0];
        assert forall|i: int| 0 < i < path.len() implies f.kids(path[i - 1]).contains(
            #[trigger] path[i],
        ) && f.present_shown(o.kept, path[i]) by {
            lemma_shown_on_the_way(f, o.kept, path, i);
        }
        assert forall|i: int| 0 <= i < path.len() - 1 implies !o.collapsed.contains(
            #[trigger] path[i],
        ) by {
            if o.collapsed.contains(path[i]) {
                assert(o.hidden(pid));
            }
        }
        lemma_shown_on_the_way(f, o.kept, path, 0);
        assert(f.records.contains_key(path[0]));
        assert(o.is_open_descent(path));
        assert(o.opens_to(f.roots[r], pid));
    }
}

/// With no search active and nothing collapsed, the tree view gives exactly one
/// row to every process that can be reached from a root, and none of the rows is
/// disabled. Where every record can be reached, there are as many rows as
/// records.
pub proof fn lemma_plain_tree_rows(o: Outline)
    requires
        o.forest.is_forest(),
        o.forest.has_unique_parents(),
        o.kept == Set::<Pid>::full(),
        o.collapsed == Set::<Pid>::empty(),
    ensures
        pids_of(o.rows()).no_duplicates(),
        forall|pid: Pid| #[trigger] pids_of(o.rows()).contains(pid) <==> o.forest.reachable(pid),
        forall|j: int| 0 <= j < o.rows().len() ==> !(#[trigger] o.rows()[j]).disabled,
        (forall|pid: Pid| o.forest.records.contains_key(pid) ==> o.forest.reachable(pid))
            ==> pids_of(o.rows()).to_set() == o.forest.records.dom() && o.rows().len()
            == o.forest.records.dom().len(),
{
    let f = o.forest;
    lemma_rows_show_the_visible(o);
    crate::laws::lemma_tree_rows_disabled(o);
    assert forall|pid: Pid| o.visible(pid) <==> f.reachable(pid) by {
        if o.visible(pid) {
            lemma_visible_is_included(o, pid);
        }
        if f.reachable(pid) {
            let path = choose|path: Seq<Pid>| f.is_path(path) && #[trigger] path.last() == pid;
            let r = choose|r: int| 0 <= r < f.roots.len() && f.roots[r] == path[0];
            assert(f.records.contains_key(path[0]));
            assert(f.present_shown(o.kept, f.roots[r]));
            assert(o.is_open_descent(path));
            assert(o.opens_to(f.roots[r], pid));
        }
    }
    if forall|pid: Pid| f.records.contains_key(pid) ==> f.reachable(pid) {
        assert(pids_of(o.rows()).to_set() =~= f.records.dom()) by {
            assert forall|pid: Pid| f.reachable(pid) implies f.records.contains_key(pid) by {
                let path = choose|path: Seq<Pid>| f.is_path(path) && #[trigger] path.last() == pid;
                assert(f.records.contains_key(path[path.len() - 1]));
            }
        }
        pids_of(o.rows()).unique_seq_to_set();
    }
}

} // verus!

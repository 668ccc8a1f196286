//! What holds of the views as a whole: statements that tie several functions of
//! the crate together, each proved from their definitions.

use crate::filter::{lemma_height_falls, lemma_shown_unfolds};
use crate::group::{group_at, grouped_rows, kept_among, labelled_pids, lemma_group_at};
use crate::harvest::{Forest, Pid};
use crate::row::{capped, lemma_plus_accumulates, lemma_with_own_totals, Row, Totals};
use crate::sort::{lemma_sorted_is_permutation, lemma_sorted_len, RowStyle};
use crate::tree::{lemma_summary, row_prefix, Outline};
use crate::widget::flat_rows;
use vstd::prelude::*;

verus! {

impl Forest {
    /// `path` leads down the child index from its first pid, through recorded pids.
    pub open spec fn is_descent(self, path: Seq<Pid>) -> bool {
        &&& path.len() > 0
        &&& forall|i: int|
            0 < i < path.len() ==> self.records.contains_key(#[trigger] path[i]) && self.kids(
                path[i - 1],
            ).contains(path[i])
    }

    /// `pid` matches the search, or a recorded descendant of it does.
    pub open spec fn matches_at_or_below(self, kept: Set<Pid>, pid: Pid) -> bool {
        exists|path: Seq<Pid>|
            self.is_descent(path) && path[0] == pid && kept.contains(#[trigger] path.last())
    }
}

/// A shown process matches the search or has a recorded descendant that does.
proof fn lemma_match_below(f: Forest, kept: Set<Pid>, pid: Pid) -> (path: Seq<Pid>)
    requires
        f.is_acyclic(),
        f.shown(kept, pid),
    ensures
        f.is_descent(path),
        path[0] == pid,
        kept.contains(path.last()),
    decreases (f.height())(pid),
{
    if kept.contains(pid) {
        seq![pid]
    } else {
        lemma_shown_unfolds(f, kept, pid);
        let i = choose|i: int|
            0 <= i < f.kids(pid).len() && #[trigger] f.present_shown(kept, f.kids(pid)[i]);
        lemma_height_falls(f, pid, i);
        let below = lemma_match_below(f, kept, f.kids(pid)[i]);
        let path = seq![pid] + below;
        assert forall|j: int| 0 < j < path.len() implies f.records.contains_key(
            #[trigger] path[j],
        ) && f.kids(path[j - 1]).contains(path[j]) by {
            if j == 1 {
                assert(path[1] == below[0]);
                assert(path[0] == pid);
            } else {
                assert(path[j] == below[j - 1]);
                assert(path[j - 1] == below[j - 2]);
            }
        }
        assert(path.last() == below.last());
        path
    }
}

/// A process above a match is shown.
proof fn lemma_shown_above(f: Forest, kept: Set<Pid>, path: Seq<Pid>)
    requires
        f.is_acyclic(),
        f.is_descent(path),
        kept.contains(path.last()),
    ensures
        f.shown(kept, path[0]),
    decreases path.len(),
{
    lemma_shown_unfolds(f, kept, path[0]);
    if path.len() > 1 {
        let below = path.skip(1);
        assert forall|j: int| 0 < j < below.len() implies f.records.contains_key(
            #[trigger] below[j],
        ) && f.kids(below[j - 1]).contains(below[j]) by {
            assert(below[j] == path[j + 1]);
            assert(below[j - 1] == path[j]);
        }
        assert(below.last() == path.last());
        lemma_shown_above(f, kept, below);
        assert(below[0] == path[1]);
        assert(f.kids(path[0]).contains(path[1]));
        let i = choose|i: int| 0 <= i < f.kids(path[0]).len() && f.kids(path[0])[i] == path[1];
        assert(f.present_shown(kept, f.kids(path[0])[i]));
    }
}

/// Ancestor inclusion, all levels: a process is shown exactly if it matches the
/// search or a recorded descendant of it does.
pub proof fn lemma_shown_iff_match_below(f: Forest, kept: Set<Pid>, pid: Pid)
    requires
        f.is_forest(),
    ensures
        f.shown(kept, pid) <==> f.matches_at_or_below(kept, pid),
{
    if f.shown(kept, pid) {
        let path = lemma_match_below(f, kept, pid);
        assert(f.is_descent(path) && path[0] == pid && kept.contains(path.last()));
    }
    if f.matches_at_or_below(kept, pid) {
        let path = choose|path: Seq<Pid>|
            f.is_descent(path) && path[0] == pid && kept.contains(#[trigger] path.last());
        lemma_shown_above(f, kept, path);
    }
}

/// Collapse aggregation: the row of a collapsed pid is the one row of its subtree,
/// and its additive columns are the sums over its own row and the subtrees of its
/// children in the filtered forest, each pinned to `u64::MAX` where the sum does
/// not fit.
pub proof fn lemma_collapsed_row(o: Outline, row: Row, fragments: Seq<Seq<char>>, is_last: bool)
    requires
        o.forest.is_forest(),
        o.collapsed.contains(row.pid),
    ensures
        o.subtree_rows(row, fragments, is_last) == seq![
            row.with_totals(
                row.totals().plus(o.totals_from(o.forest.shown_kids(o.kept, row.pid))),
            ).with_prefix(Some(row_prefix(fragments, is_last, true))).with_disabled(
                !o.kept.contains(row.pid),
            ),
        ],
{
    lemma_summary(o, row);
}

/// In every row of a subtree, `disabled` says that the pid does not match.
pub proof fn lemma_subtree_rows_disabled(
    o: Outline,
    row: Row,
    fragments: Seq<Seq<char>>,
    is_last: bool,
)
    ensures
        forall|j: int|
            0 <= j < o.subtree_rows(row, fragments, is_last).len() ==> (#[trigger] o.subtree_rows(
                row,
                fragments,
                is_last,
            )[j]).disabled == !o.kept.contains(o.subtree_rows(row, fragments, is_last)[j].pid),
    decreases o.h(row.pid) + 1, 0nat,
{
    if !o.collapsed.contains(row.pid) {
        lemma_kid_rows_disabled(
            o,
            o.stacked_kids(row.pid),
            fragments.push(crate::tree::child_fragment(fragments, is_last)),
            o.h(row.pid),
        );
    }
}

/// In every row under a stack of siblings, `disabled` says that the pid does not
/// match.
pub proof fn lemma_kid_rows_disabled(
    o: Outline,
    stack: Seq<Row>,
    fragments: Seq<Seq<char>>,
    bound: nat,
)
    ensures
        forall|j: int|
            0 <= j < o.kid_rows(stack, fragments, bound).len() ==> (#[trigger] o.kid_rows(
                stack,
                fragments,
                bound,
            )[j]).disabled == !o.kept.contains(o.kid_rows(stack, fragments, bound)[j].pid),
    decreases bound, stack.len() + 1,
{
    if stack.len() > 0 {
        lemma_kid_rows_disabled(o, stack.drop_last(), fragments, bound);
        if o.h(stack.last().pid) < bound {
            lemma_subtree_rows_disabled(o, stack.last(), fragments, stack.len() == 1);
        }
    }
}

/// In every row of the tree view, `disabled` says that the pid does not match
/// the search: a disabled row is there for its descendants only.
pub proof fn lemma_tree_rows_disabled(o: Outline)
    ensures
        forall|j: int|
            0 <= j < o.rows().len() ==> (#[trigger] o.rows()[j]).disabled == !o.kept.contains(
                o.rows()[j].pid,
            ),
{
    lemma_rows_from_disabled(o, o.stacked_roots(), crate::tree::no_fragments());
}

proof fn lemma_rows_from_disabled(o: Outline, stack: Seq<Row>, fragments: Seq<Seq<char>>)
    ensures
        forall|j: int|
            0 <= j < o.rows_from(stack, fragments).len() ==> (#[trigger] o.rows_from(
                stack,
                fragments,
            )[j]).disabled == !o.kept.contains(o.rows_from(stack, fragments)[j].pid),
    decreases stack.len(),
{
    if stack.len() > 0 {
        lemma_rows_from_disabled(o, stack.drop_last(), fragments);
        lemma_subtree_rows_disabled(o, stack.last(), fragments, stack.len() == 1);
    }
}

/// Blank search: where no search is active, every pid is kept.
pub proof fn lemma_all_kept(pids: Seq<Pid>)
    ensures
        kept_among(Set::full(), pids) == pids,
    decreases pids.len(),
{
    if pids.len() > 0 {
        lemma_all_kept(pids.drop_last());
        assert(pids.drop_last().push(pids.last()) =~= pids);
    }
}

/// Blank search: where no search is active, every process is shown in the tree
/// and no row of the tree view is disabled.
pub proof fn lemma_blank_search_shows_all(o: Outline)
    requires
        o.kept == Set::<Pid>::full(),
    ensures
        forall|pid: Pid| #[trigger] o.forest.shown(o.kept, pid),
        forall|pid: Pid| o.forest.reachable(pid) ==> #[trigger] o.forest.included(o.kept, pid),
        forall|j: int| 0 <= j < o.rows().len() ==> !(#[trigger] o.rows()[j]).disabled,
{
    lemma_tree_rows_disabled(o);
}

impl Forest {
    /// Those of `pids` that have a record, in their given order.
    pub open spec fn recorded_among(self, pids: Seq<Pid>) -> Seq<Pid>
        decreases pids.len(),
    {
        if pids.len() == 0 {
            pids
        } else if self.records.contains_key(pids.last()) {
            self.recorded_among(pids.drop_last()).push(pids.last())
        } else {
            self.recorded_among(pids.drop_last())
        }
    }
}

/// There is one plain row for each pid that has a record, in order, and it shows
/// that record.
pub proof fn lemma_base_rows_are_records(f: Forest, style: RowStyle, pids: Seq<Pid>)
    ensures
        f.base_rows(style, pids).len() == f.recorded_among(pids).len(),
        forall|j: int|
            0 <= j < f.base_rows(style, pids).len() ==> #[trigger] f.base_rows(style, pids)[j]
                == Row::of(
                f.records[f.recorded_among(pids)[j]],
                style.is_command,
                style.is_mem_percent,
            ),
    decreases pids.len(),
{
    if pids.len() > 0 {
        lemma_base_rows_are_records(f, style, pids.drop_last());
    }
}

/// Arranging keeps the rows: the same rows as often, only in another order.
pub proof fn lemma_arranged_is_permutation(style: RowStyle, rows: Seq<Row>)
    ensures
        style.arranged(rows).to_multiset() == rows.to_multiset(),
        style.arranged(rows).len() == rows.len(),
{
    if let Some(column) = style.sort_column {
        lemma_sorted_is_permutation(column, style.order, rows);
        lemma_sorted_len(column, style.order, rows);
    }
}

/// Row conservation in the plain view: there is exactly one row for each pid of
/// the walk that the search keeps and that has a record, and the rows are the
/// plain rows of those pids in some order.
pub proof fn lemma_normal_rows(f: Forest, kept: Set<Pid>, walk: Seq<Pid>, style: RowStyle)
    ensures
        flat_rows(f, kept, walk, false, style).len() == f.recorded_among(
            kept_among(kept, walk),
        ).len(),
        flat_rows(f, kept, walk, false, style).to_multiset() == f.base_rows(
            style,
            kept_among(kept, walk),
        ).to_multiset(),
{
    let plain = f.base_rows(style, kept_among(kept, walk));
    lemma_base_rows_are_records(f, style, kept_among(kept, walk));
    lemma_arranged_is_permutation(style, plain);
}

/// The rows of `rows` labelled `key`, in their given order.
pub open spec fn members(rows: Seq<Row>, key: Seq<char>) -> Seq<Row>
    decreases rows.len(),
{
    if rows.len() == 0 {
        rows
    } else if rows.last().id == key {
        members(rows.drop_last(), key).push(rows.last())
    } else {
        members(rows.drop_last(), key)
    }
}

/// The unbounded sums over `rows`.
pub open spec fn sum_totals(rows: Seq<Row>) -> Totals
    decreases rows.len(),
{
    if rows.len() == 0 {
        Totals::zero()
    } else {
        sum_totals(rows.drop_last()).plus(rows.last().totals())
    }
}

proof fn lemma_sum_totals_cover(rows: Seq<Row>)
    ensures
        sum_totals(rows).covers(rows.len() as int),
        sum_totals(rows).count == rows.len(),
    decreases rows.len(),
{
    if rows.len() > 0 {
        lemma_sum_totals_cover(rows.drop_last());
    }
}

/// Row conservation in the grouped view: there is exactly one group for each
/// label that occurs. No two groups share a label, every row has a group with its
/// label, and every group has a row with its label.
pub proof fn lemma_grouped_labels(rows: Seq<Row>)
    ensures
        grouped_rows(rows).len() <= rows.len(),
        forall|i: int, j: int|
            0 <= i < j < grouped_rows(rows).len() ==> (#[trigger] grouped_rows(rows)[i]).id != (
            #[trigger] grouped_rows(rows)[j]).id,
        forall|k: int|
            0 <= k < rows.len() ==> group_at(grouped_rows(rows), (#[trigger] rows[k]).id) is Some,
        forall|i: int|
            0 <= i < grouped_rows(rows).len() ==> members(
                rows,
                (#[trigger] grouped_rows(rows)[i]).id,
            ).len() > 0,
    decreases rows.len(),
{
    if rows.len() > 0 {
        let front = rows.drop_last();
        let row = rows.last();
        let before = grouped_rows(front);
        let after = grouped_rows(rows);
        lemma_grouped_labels(front);
        lemma_group_at(before, row.id);
        assert forall|i: int| 0 <= i < after.len() implies members(
            rows,
            (#[trigger] after[i]).id,
        ).len() > 0 by {
            if i < before.len() {
                assert(after[i].id == before[i].id);
                assert(members(front, before[i].id).len() > 0);
            }
        }
        assert forall|k: int| 0 <= k < rows.len() implies group_at(
            after,
            (#[trigger] rows[k]).id,
        ) is Some by {
            lemma_group_at(after, rows[k].id);
            if k < front.len() {
                assert(front[k] == rows[k]);
                lemma_group_at(before, rows[k].id);
                let g = group_at(before, rows[k].id)->0;
                assert(after[g].id == rows[k].id);
            } else {
                match group_at(before, row.id) {
                    Some(g) => {
                        assert(after[g].id == row.id);
                    },
                    None => {
                        assert(after[after.len() - 1].id == row.id);
                    },
                }
            }
        }
        assert forall|i: int, j: int| 0 <= i < j < after.len() implies (#[trigger] after[i]).id != (
        #[trigger] after[j]).id by {
            if j < before.len() {
                assert(after[i].id == before[i].id && after[j].id == before[j].id);
            } else {
                assert(after[i].id == before[i].id);
            }
        }
    }
}

/// Grouping sums up: each group is the first row with its label, with the sums
/// over all rows with that label (each pinned to `u64::MAX` where it does not fit)
/// and with their number.
pub proof fn lemma_group_sums(rows: Seq<Row>, i: int)
    requires
        0 <= i < grouped_rows(rows).len(),
    ensures
        members(rows, grouped_rows(rows)[i].id).len() > 0,
        grouped_rows(rows)[i] == members(rows, grouped_rows(rows)[i].id)[0].with_totals(
            sum_totals(members(rows, grouped_rows(rows)[i].id)),
        ).with_num_similar(capped(members(rows, grouped_rows(rows)[i].id).len() as int)),
    decreases rows.len(),
{
    let front = rows.drop_last();
    let row = rows.last();
    let before = grouped_rows(front);
    let after = grouped_rows(rows);
    lemma_grouped_labels(front);
    lemma_grouped_labels(rows);
    lemma_group_at(before, row.id);
    let key = after[i].id;
    if i < before.len() {
        assert(before[i].id == key);
        lemma_group_sums(front, i);
        let old_members = members(front, key);
        lemma_sum_totals_cover(old_members);
        if key == row.id {
            let g = group_at(before, row.id)->0;
            assert(g == i) by {
                if g < i {
                    assert(before[g].id != before[i].id);
                } else if i < g {
                    assert(before[i].id != before[g].id);
                }
            }
            let first = old_members[0];
            let sums = sum_totals(old_members);
            let count = capped(old_members.len() as int);
            lemma_plus_accumulates(first, sums, row);
            assert(members(rows, key) == old_members.push(row));
            assert(members(rows, key)[0] == first);
            assert(members(rows, key).drop_last() =~= old_members);
            assert(sum_totals(members(rows, key)) == sums.plus(row.totals()));
            assert(before[i] == first.with_totals(sums).with_num_similar(count));
            assert(before[i].plus(row) == first.with_totals(sums).plus(row).with_num_similar(count));
            assert(capped(count + 1) == capped(old_members.len() as int + 1));
        } else {
            assert(members(rows, key) == old_members);
            match group_at(before, row.id) {
                Some(g) => {
                    assert(g != i);
                },
                None => {},
            }
        }
    } else {
        assert(group_at(before, row.id) is None);
        assert(key == row.id);
        assert(members(front, key).len() == 0) by {
            lemma_no_members(front, key);
        }
        assert(members(rows, key) =~= seq![row]);
        lemma_with_own_totals(row);
        assert(sum_totals(seq![row]) == row.totals()) by {
            assert(seq![row].drop_last() =~= Seq::<Row>::empty());
            assert(sum_totals(Seq::<Row>::empty()) == Totals::zero());
        }
    }
}

/// A label that no group carries is the label of no row.
proof fn lemma_no_members(rows: Seq<Row>, key: Seq<char>)
    requires
        group_at(grouped_rows(rows), key) is None,
    ensures
        members(rows, key).len() == 0,
    decreases rows.len(),
{
    if rows.len() > 0 {
        let front = rows.drop_last();
        lemma_grouped_labels(rows);
        lemma_group_at(grouped_rows(rows), key);
        lemma_group_at(grouped_rows(rows), rows.last().id);
        assert(rows[rows.len() - 1].id != key);
        lemma_group_at(grouped_rows(front), key);
        lemma_group_at(grouped_rows(front), rows.last().id);
        if group_at(grouped_rows(front), key) is Some {
            let g = group_at(grouped_rows(front), key)->0;
            assert(grouped_rows(rows)[g].id == key);
        }
        lemma_no_members(front, key);
    }
}

/// The pids of `rows`, in order.
pub open spec fn pids_of(rows: Seq<Row>) -> Seq<Pid> {
    rows.map_values(|r: Row| r.pid)
}

/// The pids listed under a label are the pids of the rows that carry it, in
/// their order; a label that no row carries is not listed.
pub proof fn lemma_labelled_pids(rows: Seq<Row>, key: Seq<char>)
    ensures
        labelled_pids(rows).contains_key(key) <==> members(rows, key).len() > 0,
        labelled_pids(rows).contains_key(key) ==> labelled_pids(rows)[key] == pids_of(
            members(rows, key),
        ),
    decreases rows.len(),
{
    if rows.len() > 0 {
        let front = rows.drop_last();
        let row = rows.last();
        lemma_labelled_pids(front, key);
        if row.id == key {
            let before = members(front, key);
            assert(pids_of(before.push(row)) =~= pids_of(before).push(row.pid));
            if !labelled_pids(front).contains_key(key) {
                assert(pids_of(before) =~= Seq::<Pid>::empty());
            }
        }
    }
}

/// Row conservation in the grouped view, as the table shows it: the rows are the
/// groups in some order, one for each label among the kept rows.
pub proof fn lemma_grouped_view_rows(f: Forest, kept: Set<Pid>, walk: Seq<Pid>, style: RowStyle)
    ensures
        flat_rows(f, kept, walk, true, style).len() == grouped_rows(
            f.base_rows(style, kept_among(kept, walk)),
        ).len(),
        flat_rows(f, kept, walk, true, style).to_multiset() == grouped_rows(
            f.base_rows(style, kept_among(kept, walk)),
        ).to_multiset(),
{
    lemma_arranged_is_permutation(style, grouped_rows(f.base_rows(style, kept_among(kept, walk))));
}

/// A head count of part of the filtered forest: the processes in it, those
/// among them that a collapsed pid folds away (the collapsed pid included), and
/// the rows that stand for what was folded.
pub struct Census {
    pub shown: int,
    pub folded: int,
    pub summaries: int,
}

impl Census {
    pub open spec fn zero() -> Census {
        Census { shown: 0, folded: 0, summaries: 0 }
    }

    pub open spec fn plus(self, other: Census) -> Census {
        Census {
            shown: self.shown + other.shown,
            folded: self.folded + other.folded,
            summaries: self.summaries + other.summaries,
        }
    }

    /// The number of rows the counted part takes: what is shown, less what is
    /// folded away, plus one row for each fold.
    pub open spec fn rows(self) -> int {
        self.shown - self.folded + self.summaries
    }
}

impl Outline {
    /// The head count of the subtree under the plain row `row`.
    pub open spec fn census(self, row: Row) -> Census
        decreases self.h(row.pid) + 1, 0nat,
    {
        let below = self.kid_census(self.stacked_kids(row.pid), self.h(row.pid));
        if self.collapsed.contains(row.pid) {
            Census { shown: 1 + below.shown, folded: 1 + below.shown, summaries: 1 }
        } else {
            Census { shown: 1 + below.shown, folded: below.folded, summaries: below.summaries }
        }
    }

    /// The head count of the subtrees under a stack of sibling rows below height
    /// `bound`.
    pub open spec fn kid_census(self, stack: Seq<Row>, bound: nat) -> Census
        decreases bound, stack.len() + 1,
    {
        if stack.len() == 0 {
            Census::zero()
        } else {
            (if self.h(stack.last().pid) < bound {
                self.census(stack.last())
            } else {
                Census::zero()
            }).plus(self.kid_census(stack.drop_last(), bound))
        }
    }

    /// The head count of the subtrees under a stack of sibling rows.
    pub open spec fn census_from(self, stack: Seq<Row>) -> Census
        decreases stack.len(),
    {
        if stack.len() == 0 {
            Census::zero()
        } else {
            self.census(stack.last()).plus(self.census_from(stack.drop_last()))
        }
    }
}

/// A subtree takes as many rows as its head count says.
pub proof fn lemma_subtree_row_count(o: Outline, row: Row, fragments: Seq<Seq<char>>, is_last: bool)
    ensures
        o.subtree_rows(row, fragments, is_last).len() == o.census(row).rows(),
    decreases o.h(row.pid) + 1, 0nat,
{
    lemma_kid_row_count(
        o,
        o.stacked_kids(row.pid),
        fragments.push(crate::tree::child_fragment(fragments, is_last)),
        o.h(row.pid),
    );
}

/// The subtrees under a stack of siblings take as many rows as their head count
/// says.
pub proof fn lemma_kid_row_count(o: Outline, stack: Seq<Row>, fragments: Seq<Seq<char>>, bound: nat)
    ensures
        o.kid_rows(stack, fragments, bound).len() == o.kid_census(stack, bound).rows(),
    decreases bound, stack.len() + 1,
{
    if stack.len() > 0 {
        lemma_kid_row_count(o, stack.drop_last(), fragments, bound);
        if o.h(stack.last().pid) < bound {
            lemma_subtree_row_count(o, stack.last(), fragments, stack.len() == 1);
        }
    }
}

proof fn lemma_rows_from_count(o: Outline, stack: Seq<Row>, fragments: Seq<Seq<char>>)
    ensures
        o.rows_from(stack, fragments).len() == o.census_from(stack).rows(),
    decreases stack.len(),
{
    if stack.len() > 0 {
        lemma_rows_from_count(o, stack.drop_last(), fragments);
        lemma_subtree_row_count(o, stack.last(), fragments, stack.len() == 1);
    }
}

/// Row conservation in the tree view: the number of rows is the number of
/// processes in the filtered forest, less those that collapsed pids fold away,
/// plus one summed row for each outermost collapsed pid.
pub proof fn lemma_tree_row_count(o: Outline)
    ensures
        o.rows().len() == o.census_from(o.stacked_roots()).rows(),
{
    lemma_rows_from_count(o, o.stacked_roots(), crate::tree::no_fragments());
}

} // verus!

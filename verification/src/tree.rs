//! The process tree as table rows: depth-first, children in sort order, with
//! branch glyphs in front and collapsed subtrees folded into one summed row.

use crate::filter::{
    filter_tree, is_kept, kept_set, lemma_height_falls, lemma_kid_reachable, lemma_root_reachable,
    lemma_shown_among,
};
use crate::fx::{map_get, set_contains};
use crate::harvest::{Forest, Pid, ProcessData};
use crate::row::{
    lemma_plus_accumulates, lemma_rows_of_concat, lemma_rows_of_push, lemma_with_own_totals,
    rows_of, ProcWidgetData, Row, Totals,
};
use crate::sort::{lemma_arranged_members, RowStyle};
use fxhash::{FxHashMap, FxHashSet};
use vstd::prelude::*;
use vstd::string::StringExecFns;

verus! {

impl Forest {
    /// The plain rows of those of `pids` that have a record, in the given order.
    pub open spec fn base_rows(self, style: RowStyle, pids: Seq<Pid>) -> Seq<Row>
        decreases pids.len(),
    {
        if pids.len() == 0 {
            Seq::empty()
        } else {
            let front = self.base_rows(style, pids.drop_last());
            if self.records.contains_key(pids.last()) {
                front.push(Row::of(self.records[pids.last()], style.is_command, style.is_mem_percent))
            } else {
                front
            }
        }
    }
}

/// Each plain row shows a recorded pid out of `pids`.
pub proof fn lemma_base_rows_members(f: Forest, style: RowStyle, pids: Seq<Pid>)
    requires
        f.keyed_by_pid(),
    ensures
        f.base_rows(style, pids).len() <= pids.len(),
        forall|j: int|
            0 <= j < f.base_rows(style, pids).len() ==> pids.contains(
                (#[trigger] f.base_rows(style, pids)[j]).pid,
            ) && f.records.contains_key(f.base_rows(style, pids)[j].pid),
    decreases pids.len(),
{
    if pids.len() > 0 {
        let front = pids.drop_last();
        lemma_base_rows_members(f, style, front);
        let rows = f.base_rows(style, pids);
        assert forall|j: int| 0 <= j < rows.len() implies pids.contains((#[trigger] rows[j]).pid)
            && f.records.contains_key(rows[j].pid) by {
            if j < f.base_rows(style, front).len() {
                let c = f.base_rows(style, front)[j].pid;
                let w = choose|w: int| 0 <= w < front.len() && front[w] == c;
                assert(pids[w] == c);
            } else {
                assert(pids[pids.len() - 1] == rows[j].pid);
            }
        }
    }
}

/// Builds the plain rows of those of `pids` that have a record.
pub fn rows_for(data: &ProcessData, pids: &Vec<Pid>, style: &RowStyle) -> (rows: Vec<
    ProcWidgetData,
>)
    ensures
        rows_of(rows@) == data@.base_rows(*style, pids@),
{
    let mut rows: Vec<ProcWidgetData> = Vec::new();
    let mut i: usize = 0;
    assert(rows_of(rows@) =~= Seq::<Row>::empty());
    assert(pids@.take(0) =~= Seq::<Pid>::empty());
    while i < pids.len()
        invariant
            i <= pids.len(),
            rows_of(rows@) == data@.base_rows(*style, pids@.take(i as int)),
        decreases pids.len() - i,
    {
        proof {
            assert(pids@.take(i as int + 1).drop_last() =~= pids@.take(i as int));
            assert(pids@.take(i as int + 1).last() == pids@[i as int]);
        }
        if let Some(process) = map_get(&data.process_harvest, pids[i]) {
            let row = ProcWidgetData::from_data(process, style.is_command, style.is_mem_percent);
            let ghost prior = rows@;
            rows.push(row);
            assert(rows_of(rows@) =~= rows_of(prior).push(row@));
        }
        i += 1;
    }
    assert(pids@.take(pids.len() as int) =~= pids@);
    rows
}

/// The fragment every row of the top level starts from: none.
pub open spec fn no_fragments() -> Seq<Seq<char>> {
    Seq::empty()
}

/// All `fragments` joined, first to last.
pub open spec fn joined(fragments: Seq<Seq<char>>) -> Seq<char>
    decreases fragments.len(),
{
    if fragments.len() == 0 {
        Seq::empty()
    } else {
        joined(fragments.drop_last()) + fragments.last()
    }
}

/// The decoration in front of a row whose ancestors contributed `fragments`:
/// nothing at the top level, else the fragments followed by a branch glyph (an end
/// branch for the last sibling, a split otherwise). A collapsed row is marked with
/// a plus sign.
pub open spec fn row_prefix(fragments: Seq<Seq<char>>, is_last: bool, collapsed: bool) -> Seq<
    char,
> {
    if fragments.len() == 0 {
        if collapsed {
            "+ "@
        } else {
            Seq::empty()
        }
    } else {
        joined(fragments) + (if is_last {
            "\u{2514}"@
        } else {
            "\u{251c}"@
        }) + "\u{2500}"@ + (if collapsed {
            " + "@
        } else {
            " "@
        })
    }
}

/// What a row contributes to the decoration of its descendants: nothing at the top
/// level, blanks under a last sibling, else a vertical bar that continues the
/// branch.
pub open spec fn child_fragment(fragments: Seq<Seq<char>>, is_last: bool) -> Seq<char> {
    if fragments.len() == 0 {
        Seq::empty()
    } else if is_last {
        "   "@
    } else {
        "\u{2502}  "@
    }
}

/// The texts of a stack of fragments.
pub open spec fn fragments_of(prefixes: Seq<String>) -> Seq<Seq<char>> {
    prefixes.map_values(|p: String| p@)
}

/// Builds the decoration of a row from the stack of fragments above it.
pub fn make_prefix(prefixes: &Vec<String>, is_last: bool, collapsed: bool) -> (prefix: String)
    ensures
        prefix@ == row_prefix(fragments_of(prefixes@), is_last, collapsed),
{
    if prefixes.len() == 0 {
        if collapsed {
            "+ ".to_owned()
        } else {
            String::new()
        }
    } else {
        let ghost fragments = fragments_of(prefixes@);
        let mut prefix = String::new();
        let mut i: usize = 0;
        assert(fragments.take(0) =~= Seq::<Seq<char>>::empty());
        while i < prefixes.len()
            invariant
                i <= prefixes.len(),
                fragments == fragments_of(prefixes@),
                prefix@ == joined(fragments.take(i as int)),
            decreases prefixes.len() - i,
        {
            proof {
                assert(fragments.take(i as int + 1).drop_last() =~= fragments.take(i as int));
                assert(fragments.take(i as int + 1).last() == prefixes@[i as int]@);
            }
            prefix.append(prefixes[i].as_str());
            i += 1;
        }
        assert(fragments.take(prefixes.len() as int) =~= fragments);
        prefix.append(
            if is_last {
                "\u{2514}"
            } else {
                "\u{251c}"
            },
        );
        prefix.append("\u{2500}");
        prefix.append(
            if collapsed {
                " + "
            } else {
                " "
            },
        );
        prefix
    }
}

/// What the tree view shows depends on: the snapshot, the search, the collapsed
/// pids and the row style.
pub struct Outline {
    pub forest: Forest,
    pub kept: Set<Pid>,
    pub collapsed: Set<Pid>,
    pub style: RowStyle,
}

impl Outline {
    /// The height of `pid` in the forest.
    pub open spec fn h(self, pid: Pid) -> nat {
        (self.forest.height())(pid)
    }

    /// The plain row of a recorded pid.
    pub open spec fn plain(self, pid: Pid) -> Row {
        Row::of(self.forest.records[pid], self.style.is_command, self.style.is_mem_percent)
    }

    /// The shown children of `pid` as plain rows, arranged as a stack: the row to
    /// show first is the last one.
    pub open spec fn stacked_kids(self, pid: Pid) -> Seq<Row> {
        self.style.arranged_rev(
            self.forest.base_rows(self.style, self.forest.shown_kids(self.kept, pid)),
        )
    }

    /// Sums over `pid` and all its descendants in the filtered forest.
    pub open spec fn subtree_totals(self, pid: Pid) -> Totals
        decreases self.h(pid) + 1, 0nat,
    {
        self.plain(pid).totals().plus(
            self.kids_totals(self.forest.shown_kids(self.kept, pid), self.h(pid)),
        )
    }

    /// Sums over the subtrees of `pids`, each of which lies below height `bound`.
    pub open spec fn kids_totals(self, pids: Seq<Pid>, bound: nat) -> Totals
        decreases bound, pids.len() + 1,
    {
        if pids.len() == 0 {
            Totals::zero()
        } else {
            self.kids_totals(pids.drop_last(), bound).plus(
                if self.h(pids.last()) < bound {
                    self.subtree_totals(pids.last())
                } else {
                    Totals::zero()
                },
            )
        }
    }

    /// Sums over the subtrees of `pids`.
    pub open spec fn totals_from(self, pids: Seq<Pid>) -> Totals
        decreases pids.len(),
    {
        if pids.len() == 0 {
            Totals::zero()
        } else {
            self.totals_from(pids.drop_last()).plus(self.subtree_totals(pids.last()))
        }
    }

    /// The one row a collapsed subtree folds into: the row of its root with the
    /// sums over the root and all its descendants in the filtered forest.
    pub open spec fn summary(self, row: Row) -> Row {
        row.with_totals(
            row.totals().plus(
                self.kids_totals(self.forest.shown_kids(self.kept, row.pid), self.h(row.pid)),
            ),
        )
    }

    /// The rows of the subtree under the plain row `row`: one summed row if its pid
    /// is collapsed, else the row itself followed by the rows of its shown
    /// children's subtrees. A row whose pid does not match the search is disabled.
    pub open spec fn subtree_rows(self, row: Row, fragments: Seq<Seq<char>>, is_last: bool) -> Seq<
        Row,
    >
        decreases self.h(row.pid) + 1, 0nat,
    {
        let disabled = !self.kept.contains(row.pid);
        if self.collapsed.contains(row.pid) {
            seq![
                self.summary(row).with_prefix(Some(row_prefix(fragments, is_last, true))).with_disabled(
                    disabled,
                ),
            ]
        } else {
            seq![
                row.with_prefix(Some(row_prefix(fragments, is_last, false))).with_disabled(disabled),
            ] + self.kid_rows(
                self.stacked_kids(row.pid),
                fragments.push(child_fragment(fragments, is_last)),
                self.h(row.pid),
            )
        }
    }

    /// The rows of the subtrees under a stack of sibling rows, each of which lies
    /// below height `bound`: the last row of the stack comes first, and the first
    /// row of the stack is the last sibling.
    pub open spec fn kid_rows(self, stack: Seq<Row>, fragments: Seq<Seq<char>>, bound: nat) -> Seq<
        Row,
    >
        decreases bound, stack.len() + 1,
    {
        if stack.len() == 0 {
            Seq::empty()
        } else {
            (if self.h(stack.last().pid) < bound {
                self.subtree_rows(stack.last(), fragments, stack.len() == 1)
            } else {
                Seq::empty()
            }) + self.kid_rows(stack.drop_last(), fragments, bound)
        }
    }

    /// The rows of the subtrees under a stack of sibling rows: the last row of the
    /// stack comes first, and the first row of the stack is the last sibling.
    pub open spec fn rows_from(self, stack: Seq<Row>, fragments: Seq<Seq<char>>) -> Seq<Row>
        decreases stack.len(),
    {
        if stack.len() == 0 {
            Seq::empty()
        } else {
            self.subtree_rows(stack.last(), fragments, stack.len() == 1) + self.rows_from(
                stack.drop_last(),
                fragments,
            )
        }
    }

    /// The shown roots as plain rows, arranged as a stack.
    pub open spec fn stacked_roots(self) -> Seq<Row> {
        self.style.arranged_rev(
            self.forest.base_rows(self.style, self.forest.shown_among(self.kept, self.forest.roots)),
        )
    }

    /// The rows of the tree view, top to bottom.
    pub open spec fn rows(self) -> Seq<Row> {
        self.rows_from(self.stacked_roots(), no_fragments())
    }
}

/// The shown children of a pid lie strictly below it.
pub proof fn lemma_shown_kids_below(o: Outline, pid: Pid)
    requires
        o.forest.is_acyclic(),
    ensures
        forall|i: int|
            0 <= i < o.forest.shown_kids(o.kept, pid).len() ==> o.h(
                #[trigger] o.forest.shown_kids(o.kept, pid)[i],
            ) < o.h(pid),
{
    let kids = o.forest.kids(pid);
    let shown = o.forest.shown_kids(o.kept, pid);
    lemma_shown_among(o.forest, o.kept, kids);
    assert forall|i: int| 0 <= i < shown.len() implies o.h(#[trigger] shown[i]) < o.h(pid) by {
        assert(kids.contains(shown[i]));
        let w = choose|w: int| 0 <= w < kids.len() && kids[w] == shown[i];
        lemma_height_falls(o.forest, pid, w);
    }
}

/// The stacked children of a pid are rows of shown children of it, and lie
/// strictly below it.
pub proof fn lemma_stacked_kids(o: Outline, pid: Pid)
    requires
        o.forest.is_forest(),
    ensures
        forall|i: int|
            0 <= i < o.stacked_kids(pid).len() ==> {
                &&& o.h((#[trigger] o.stacked_kids(pid)[i]).pid) < o.h(pid)
                &&& o.forest.kids(pid).contains(o.stacked_kids(pid)[i].pid)
                &&& o.forest.present_shown(o.kept, o.stacked_kids(pid)[i].pid)
            },
{
    let kids = o.forest.kids(pid);
    let shown = o.forest.shown_kids(o.kept, pid);
    let base = o.forest.base_rows(o.style, shown);
    let stacked = o.stacked_kids(pid);
    lemma_shown_among(o.forest, o.kept, kids);
    lemma_shown_kids_below(o, pid);
    lemma_base_rows_members(o.forest, o.style, shown);
    lemma_arranged_members(o.style, base);
    assert forall|i: int| 0 <= i < stacked.len() implies {
        &&& o.h((#[trigger] stacked[i]).pid) < o.h(pid)
        &&& kids.contains(stacked[i].pid)
        &&& o.forest.present_shown(o.kept, stacked[i].pid)
    } by {
        assert(base.contains(stacked[i]));
        let b = choose|b: int| 0 <= b < base.len() && base[b] == stacked[i];
        assert(shown.contains(base[b].pid));
        let w = choose|w: int| 0 <= w < shown.len() && shown[w] == base[b].pid;
        assert(kids.contains(shown[w]));
    }
}

/// Below the bound, the bounded sum is the plain sum.
pub proof fn lemma_kids_totals_unbounded(o: Outline, pids: Seq<Pid>, bound: nat)
    requires
        forall|i: int| 0 <= i < pids.len() ==> o.h(#[trigger] pids[i]) < bound,
    ensures
        o.kids_totals(pids, bound) == o.totals_from(pids),
    decreases pids.len(),
{
    if pids.len() > 0 {
        let front = pids.drop_last();
        assert forall|i: int| 0 <= i < front.len() implies o.h(#[trigger] front[i]) < bound by {
            assert(front[i] == pids[i]);
        }
        lemma_kids_totals_unbounded(o, front, bound);
        assert(o.h(pids[pids.len() - 1]) < bound);
    }
}

/// Below the bound, the bounded rows are the plain rows.
pub proof fn lemma_kid_rows_unbounded(
    o: Outline,
    stack: Seq<Row>,
    fragments: Seq<Seq<char>>,
    bound: nat,
)
    requires
        forall|i: int| 0 <= i < stack.len() ==> o.h((#[trigger] stack[i]).pid) < bound,
    ensures
        o.kid_rows(stack, fragments, bound) == o.rows_from(stack, fragments),
    decreases stack.len(),
{
    if stack.len() > 0 {
        let front = stack.drop_last();
        assert forall|i: int| 0 <= i < front.len() implies o.h((#[trigger] front[i]).pid)
            < bound by {
            assert(front[i] == stack[i]);
        }
        lemma_kid_rows_unbounded(o, front, fragments, bound);
        assert(o.h(stack[stack.len() - 1].pid) < bound);
    }
}

/// The sums over a subtree are those of its root plus those of the subtrees of
/// its shown children.
pub proof fn lemma_subtree_totals(o: Outline, pid: Pid)
    requires
        o.forest.is_acyclic(),
    ensures
        o.subtree_totals(pid) == o.plain(pid).totals().plus(
            o.totals_from(o.forest.shown_kids(o.kept, pid)),
        ),
{
    lemma_shown_kids_below(o, pid);
    lemma_kids_totals_unbounded(o, o.forest.shown_kids(o.kept, pid), o.h(pid));
}

/// A collapsed row carries the sums over its own row and the subtrees of its shown
/// children.
pub proof fn lemma_summary(o: Outline, row: Row)
    requires
        o.forest.is_acyclic(),
    ensures
        o.summary(row) == row.with_totals(
            row.totals().plus(o.totals_from(o.forest.shown_kids(o.kept, row.pid))),
        ),
{
    lemma_shown_kids_below(o, row.pid);
    lemma_kids_totals_unbounded(o, o.forest.shown_kids(o.kept, row.pid), o.h(row.pid));
}

/// An expanded row is followed by the rows of its stacked children.
pub proof fn lemma_expanded_rows(o: Outline, row: Row, fragments: Seq<Seq<char>>, is_last: bool)
    requires
        o.forest.is_forest(),
        !o.collapsed.contains(row.pid),
    ensures
        o.subtree_rows(row, fragments, is_last) == seq![
            row.with_prefix(Some(row_prefix(fragments, is_last, false))).with_disabled(
                !o.kept.contains(row.pid),
            ),
        ] + o.rows_from(
            o.stacked_kids(row.pid),
            fragments.push(child_fragment(fragments, is_last)),
        ),
{
    lemma_stacked_kids(o, row.pid);
    lemma_kid_rows_unbounded(
        o,
        o.stacked_kids(row.pid),
        fragments.push(child_fragment(fragments, is_last)),
        o.h(row.pid),
    );
}

/// Sums over two runs of pids add up.
pub proof fn lemma_totals_from_concat(o: Outline, a: Seq<Pid>, b: Seq<Pid>)
    ensures
        o.totals_from(a + b) == o.totals_from(a).plus(o.totals_from(b)),
    decreases b.len(),
{
    if b.len() == 0 {
        assert(a + b =~= a);
    } else {
        assert((a + b).drop_last() =~= a + b.drop_last());
        assert((a + b).last() == b.last());
        lemma_totals_from_concat(o, a, b.drop_last());
    }
}

/// The sums over a subtree count its root and are never negative.
pub proof fn lemma_subtree_totals_cover(o: Outline, pid: Pid)
    ensures
        o.subtree_totals(pid).covers(1),
    decreases o.h(pid) + 1, 0nat,
{
    lemma_kids_totals_cover(o, o.forest.shown_kids(o.kept, pid), o.h(pid));
}

/// Bounded sums are never negative.
pub proof fn lemma_kids_totals_cover(o: Outline, pids: Seq<Pid>, bound: nat)
    ensures
        o.kids_totals(pids, bound).covers(0),
    decreases bound, pids.len() + 1,
{
    if pids.len() > 0 {
        lemma_kids_totals_cover(o, pids.drop_last(), bound);
        if o.h(pids.last()) < bound {
            lemma_subtree_totals_cover(o, pids.last());
        }
    }
}

/// The sums over the subtrees of `pids` count at least one process per pid.
pub proof fn lemma_totals_from_cover(o: Outline, pids: Seq<Pid>)
    ensures
        o.totals_from(pids).covers(pids.len() as int),
    decreases pids.len(),
{
    if pids.len() > 0 {
        lemma_totals_from_cover(o, pids.drop_last());
        lemma_subtree_totals_cover(o, pids.last());
    }
}

/// What the tree walk relies on in a filtered forest: it lists exactly the
/// reachable shown pids, each with its shown children.
pub open spec fn filtered_for(o: Outline, filtered: Map<Pid, Vec<Pid>>) -> bool {
    &&& forall|p: Pid| #[trigger] filtered.contains_key(p) <==> o.forest.included(o.kept, p)
    &&& forall|p: Pid| #[trigger]
        filtered.contains_key(p) ==> filtered[p]@ == o.forest.shown_kids(o.kept, p)
}

/// The shown children of a listed pid are listed.
proof fn lemma_filtered_kids(o: Outline, filtered: Map<Pid, Vec<Pid>>, pid: Pid)
    requires
        o.forest.is_forest(),
        filtered_for(o, filtered),
        filtered.contains_key(pid),
    ensures
        forall|i: int|
            0 <= i < o.forest.shown_kids(o.kept, pid).len() ==> filtered.contains_key(
                #[trigger] o.forest.shown_kids(o.kept, pid)[i],
            ),
        forall|i: int|
            0 <= i < o.stacked_kids(pid).len() ==> filtered.contains_key(
                (#[trigger] o.stacked_kids(pid)[i]).pid,
            ),
{
    let kids = o.forest.kids(pid);
    let shown = o.forest.shown_kids(o.kept, pid);
    lemma_shown_among(o.forest, o.kept, kids);
    assert forall|i: int| 0 <= i < shown.len() implies filtered.contains_key(
        #[trigger] shown[i],
    ) by {
        assert(kids.contains(shown[i]));
        let w = choose|w: int| 0 <= w < kids.len() && kids[w] == shown[i];
        lemma_kid_reachable(o.forest, pid, w);
    }
    lemma_stacked_kids(o, pid);
    let stacked = o.stacked_kids(pid);
    assert forall|i: int| 0 <= i < stacked.len() implies filtered.contains_key(
        (#[trigger] stacked[i]).pid,
    ) by {
        let c = stacked[i].pid;
        assert(kids.contains(c));
        let w = choose|w: int| 0 <= w < kids.len() && kids[w] == c;
        lemma_kid_reachable(o.forest, pid, w);
    }
}

/// Appends `more` to `queue`.
fn push_all(queue: &mut Vec<Pid>, more: &Vec<Pid>)
    ensures
        final(queue)@ == old(queue)@ + more@,
{
    let ghost start = queue@;
    let mut i: usize = 0;
    assert(queue@ =~= start + more@.take(0));
    while i < more.len()
        invariant
            i <= more.len(),
            queue@ == start + more@.take(i as int),
        decreases more.len() - i,
    {
        queue.push(more[i]);
        i += 1;
        assert(queue@ =~= start + more@.take(i as int));
    }
    assert(more@.take(more.len() as int) =~= more@);
}

/// Folds the filtered subtree under `process` into one row: the row of `process`
/// with the sums over itself and all its descendants in the filtered forest.
fn sum_subtree(
    data: &ProcessData,
    filtered: &FxHashMap<Pid, Vec<Pid>>,
    process: ProcWidgetData,
    style: &RowStyle,
    Ghost(o): Ghost<Outline>,
) -> (summed: ProcWidgetData)
    requires
        o.forest == data@,
        o.style == *style,
        o.forest.is_forest(),
        filtered_for(o, filtered@),
        filtered@.contains_key(process.pid),
    ensures
        summed@ == o.summary(process@),
{
    let ghost base = process@;
    let ghost kids = o.forest.shown_kids(o.kept, base.pid);
    let ghost mut acc = base.totals();
    let mut summed = process;
    let mut queue: Vec<Pid> = Vec::new();
    if let Some(children) = map_get(filtered, summed.pid) {
        push_all(&mut queue, children);
    }
    proof {
        lemma_with_own_totals(base);
        lemma_filtered_kids(o, filtered@, base.pid);
        assert(queue@ =~= kids);
    }
    while queue.len() > 0
        invariant
            o.forest == data@,
            o.style == *style,
            o.forest.is_forest(),
            filtered_for(o, filtered@),
            summed@ == base.with_totals(acc),
            acc.covers(1),
            acc.plus(o.totals_from(queue@)) == base.totals().plus(o.totals_from(kids)),
            forall|i: int| 0 <= i < queue@.len() ==> filtered@.contains_key(#[trigger] queue@[i]),
        decreases o.totals_from(queue@).count,
    {
        let ghost prior = queue@;
        let pid = queue.pop().unwrap();
        let ghost rest = queue@;
        proof {
            assert(rest =~= prior.drop_last());
            assert(filtered@.contains_key(prior[prior.len() - 1]));
            lemma_subtree_totals(o, pid);
            lemma_filtered_kids(o, filtered@, pid);
            lemma_totals_from_cover(o, rest);
            lemma_totals_from_cover(o, o.forest.shown_kids(o.kept, pid));
            lemma_totals_from_concat(o, rest, o.forest.shown_kids(o.kept, pid));
            assert forall|i: int| 0 <= i < rest.len() implies filtered@.contains_key(
                #[trigger] rest[i],
            ) by {
                assert(rest[i] == prior[i]);
            }
        }
        if let Some(record) = map_get(&data.process_harvest, pid) {
            let row = ProcWidgetData::from_data(record, style.is_command, style.is_mem_percent);
            proof {
                lemma_plus_accumulates(base, acc, row@);
                acc = acc.plus(row@.totals());
            }
            summed.add(&row);
        }
        if let Some(children) = map_get(filtered, pid) {
            push_all(&mut queue, children);
        }
    }
    proof {
        lemma_summary(o, base);
    }
    summed
}

/// How many rows a stack of sibling counts accounts for.
pub open spec fn total_len(lens: Seq<usize>) -> int
    decreases lens.len(),
{
    if lens.len() == 0 {
        0
    } else {
        total_len(lens.drop_last()) + lens.last()
    }
}

impl Outline {
    /// The rows still to come from a walk in progress. `stack` holds the rows not
    /// yet shown, level upon level; `lens` counts those of each level; `fragments`
    /// holds one decoration fragment for each level but the first.
    pub open spec fn pending_rows(
        self,
        stack: Seq<Row>,
        lens: Seq<usize>,
        fragments: Seq<Seq<char>>,
    ) -> Seq<Row>
        decreases lens.len(),
    {
        if lens.len() == 0 {
            Seq::empty()
        } else {
            let n = lens.last() as int;
            let above = fragments.take(lens.len() - 1);
            self.rows_from(stack.skip(stack.len() - n), above) + self.pending_rows(
                stack.take(stack.len() - n),
                lens.drop_last(),
                above,
            )
        }
    }
}

/// Only the fragments of the levels in progress matter.
proof fn lemma_pending_ignores(
    o: Outline,
    stack: Seq<Row>,
    lens: Seq<usize>,
    f1: Seq<Seq<char>>,
    f2: Seq<Seq<char>>,
)
    requires
        lens.len() == 0 || f1.take(lens.len() - 1) == f2.take(lens.len() - 1),
    ensures
        o.pending_rows(stack, lens, f1) == o.pending_rows(stack, lens, f2),
{
}

/// Taking the top row off the stack: its subtree comes first, then what was
/// pending without it.
proof fn lemma_pending_pop(
    o: Outline,
    stack: Seq<Row>,
    lens: Seq<usize>,
    fragments: Seq<Seq<char>>,
)
    requires
        lens.len() > 0,
        lens.last() >= 1,
        stack.len() >= lens.last(),
        fragments.len() == lens.len() - 1,
    ensures
        o.pending_rows(stack, lens, fragments) == o.subtree_rows(
            stack.last(),
            fragments,
            lens.last() == 1,
        ) + o.pending_rows(
            stack.drop_last(),
            lens.update(lens.len() - 1, (lens.last() - 1) as usize),
            fragments,
        ),
{
    let n = lens.last() as int;
    let top = stack.skip(stack.len() - n);
    let lens2 = lens.update(lens.len() - 1, (n - 1) as usize);
    let stack2 = stack.drop_last();
    assert(fragments.take(lens.len() - 1) =~= fragments);
    assert(top.last() == stack.last());
    assert(top.drop_last() =~= stack2.skip(stack2.len() - (n - 1)));
    assert(stack.take(stack.len() - n) =~= stack2.take(stack2.len() - (n - 1)));
    assert(lens2.drop_last() =~= lens.drop_last());
    assert(lens2.last() == (n - 1) as usize);
}

/// Pushing the stacked children of the row just shown: their rows come first.
proof fn lemma_pending_push(
    o: Outline,
    stack: Seq<Row>,
    lens: Seq<usize>,
    fragments: Seq<Seq<char>>,
    kids: Seq<Row>,
    fragment: Seq<char>,
)
    requires
        lens.len() > 0,
        fragments.len() == lens.len() - 1,
        kids.len() <= usize::MAX,
    ensures
        o.pending_rows(stack + kids, lens.push(kids.len() as usize), fragments.push(fragment))
            == o.rows_from(kids, fragments.push(fragment)) + o.pending_rows(stack, lens, fragments),
{
    let lens2 = lens.push(kids.len() as usize);
    let f2 = fragments.push(fragment);
    let stack2 = stack + kids;
    assert(f2.take(lens2.len() - 1) =~= f2);
    assert(stack2.skip(stack2.len() - kids.len()) =~= kids);
    assert(stack2.take(stack2.len() - kids.len()) =~= stack);
    assert(lens2.drop_last() =~= lens);
    assert(f2.take(lens.len() - 1) =~= fragments.take(lens.len() - 1));
    lemma_pending_ignores(o, stack, lens, f2, fragments);
}

/// Dropping an exhausted level changes nothing.
proof fn lemma_pending_drop(
    o: Outline,
    stack: Seq<Row>,
    lens: Seq<usize>,
    fragments: Seq<Seq<char>>,
)
    requires
        lens.len() > 0,
        lens.last() == 0,
        fragments.len() == lens.len() - 1,
    ensures
        o.pending_rows(stack, lens, fragments) == o.pending_rows(
            stack,
            lens.drop_last(),
            if fragments.len() > 0 {
                fragments.drop_last()
            } else {
                fragments
            },
        ),
{
    assert(fragments.take(lens.len() - 1) =~= fragments);
    assert(stack.skip(stack.len() - 0) =~= Seq::<Row>::empty());
    assert(stack.take(stack.len() - 0) =~= stack);
    if fragments.len() > 0 {
        let lens2 = lens.drop_last();
        assert(fragments.take(lens2.len() - 1) =~= fragments.drop_last().take(lens2.len() - 1));
        lemma_pending_ignores(o, stack, lens2, fragments, fragments.drop_last());
    }
}

/// The shown roots, in the order the snapshot lists them.
fn shown_roots(
    data: &ProcessData,
    filtered: &FxHashMap<Pid, Vec<Pid>>,
    Ghost(o): Ghost<Outline>,
) -> (roots: Vec<Pid>)
    requires
        o.forest == data@,
        filtered_for(o, filtered@),
    ensures
        roots@ == o.forest.shown_among(o.kept, o.forest.roots),
        forall|i: int| 0 <= i < roots@.len() ==> filtered@.contains_key(#[trigger] roots@[i]),
{
    let mut roots: Vec<Pid> = Vec::new();
    let mut i: usize = 0;
    assert(o.forest.roots.take(0) =~= Seq::<Pid>::empty());
    while i < data.orphan_pids.len()
        invariant
            i <= data.orphan_pids.len(),
            o.forest == data@,
            filtered_for(o, filtered@),
            roots@ == o.forest.shown_among(o.kept, o.forest.roots.take(i as int)),
            forall|j: int| 0 <= j < roots@.len() ==> filtered@.contains_key(#[trigger] roots@[j]),
        decreases data.orphan_pids.len() - i,
    {
        let pid = data.orphan_pids[i];
        proof {
            assert(o.forest.roots.take(i as int + 1).drop_last() =~= o.forest.roots.take(i as int));
            assert(o.forest.roots.take(i as int + 1).last() == pid);
            if o.forest.records.contains_key(pid) {
                lemma_root_reachable(o.forest, i as int);
            }
            if o.forest.reachable(pid) {
                let path = choose|path: Seq<Pid>|
                    o.forest.is_path(path) && #[trigger] path.last() == pid;
                assert(o.forest.records.contains_key(path[path.len() - 1]));
            }
        }
        if map_get(filtered, pid).is_some() {
            roots.push(pid);
        }
        i += 1;
    }
    assert(o.forest.roots.take(data.orphan_pids.len() as int) =~= o.forest.roots);
    roots
}

/// What holds of a walk in progress between its steps: the sibling counts account
/// for the stack, there is one fragment for each level but the first, and every
/// stacked row is part of the filtered forest.
pub open spec fn walk_fits(
    filtered: Map<Pid, Vec<Pid>>,
    stack: Seq<ProcWidgetData>,
    lens: Seq<usize>,
    prefixes: Seq<String>,
) -> bool {
    &&& total_len(lens) == stack.len()
    &&& prefixes.len() + 1 == lens.len() || (lens.len() == 0 && prefixes.len() == 0)
    &&& forall|i: int| 0 <= i < stack.len() ==> filtered.contains_key((#[trigger] stack[i])@.pid)
}

/// Takes the next row off the stack and says whether it is the last of its
/// siblings.
fn take_next(
    stack: &mut Vec<ProcWidgetData>,
    length_stack: &mut Vec<usize>,
    Ghost(o): Ghost<Outline>,
    Ghost(filtered): Ghost<Map<Pid, Vec<Pid>>>,
    Ghost(prefixes): Ghost<Seq<String>>,
) -> (next: (ProcWidgetData, bool))
    requires
        old(stack)@.len() > 0,
        walk_fits(filtered, old(stack)@, old(length_stack)@, prefixes),
        old(length_stack)@.len() > 0 ==> old(length_stack)@.last() > 0,
    ensures
        walk_fits(filtered, final(stack)@, final(length_stack)@, prefixes),
        final(length_stack)@.len() == old(length_stack)@.len(),
        final(length_stack)@.len() > 0,
        filtered.contains_key(next.0.pid),
        o.pending_rows(rows_of(old(stack)@), old(length_stack)@, fragments_of(prefixes))
            == o.subtree_rows(next.0@, fragments_of(prefixes), next.1) + o.pending_rows(
            rows_of(final(stack)@),
            final(length_stack)@,
            fragments_of(prefixes),
        ),
{
    let ghost whole = stack@;
    let ghost lens = length_stack@;
    proof {
        lemma_total_len_nonnegative(lens.drop_last());
        assert(filtered.contains_key(whole[whole.len() - 1]@.pid));
    }
    let process = stack.pop().unwrap();
    let level = length_stack.len() - 1;
    let siblings_left = length_stack[level] - 1;
    length_stack.set(level, siblings_left);
    proof {
        lemma_pending_pop(o, rows_of(whole), lens, fragments_of(prefixes));
        assert(rows_of(stack@) =~= rows_of(whole).drop_last());
        assert(rows_of(whole).last() == process@);
        assert(length_stack@.drop_last() =~= lens.drop_last());
        assert forall|i: int| 0 <= i < stack@.len() implies filtered.contains_key(
            (#[trigger] stack@[i])@.pid,
        ) by {
            assert(stack@[i] == whole[i]);
        }
    }
    (process, siblings_left == 0)
}

/// Opens a new level under the row just shown: pushes its fragment and its shown
/// children, arranged as a stack.
fn push_kids(
    data: &ProcessData,
    filtered: &FxHashMap<Pid, Vec<Pid>>,
    style: &RowStyle,
    pid: Pid,
    is_last: bool,
    stack: &mut Vec<ProcWidgetData>,
    length_stack: &mut Vec<usize>,
    prefixes: &mut Vec<String>,
    Ghost(o): Ghost<Outline>,
)
    requires
        o.forest == data@,
        o.style == *style,
        o.forest.is_forest(),
        filtered_for(o, filtered@),
        filtered@.contains_key(pid),
        walk_fits(filtered@, old(stack)@, old(length_stack)@, old(prefixes)@),
        old(length_stack)@.len() > 0,
    ensures
        walk_fits(filtered@, final(stack)@, final(length_stack)@, final(prefixes)@),
        o.pending_rows(
            rows_of(final(stack)@),
            final(length_stack)@,
            fragments_of(final(prefixes)@),
        ) == o.rows_from(
            o.stacked_kids(pid),
            fragments_of(old(prefixes)@).push(child_fragment(fragments_of(old(prefixes)@), is_last)),
        ) + o.pending_rows(
            rows_of(old(stack)@),
            old(length_stack)@,
            fragments_of(old(prefixes)@),
        ),
{
    let ghost fragments = fragments_of(prefixes@);
    let ghost lens = length_stack@;
    let ghost below = stack@;
    if let Some(children_pids) = map_get(filtered, pid) {
        let fragment = if prefixes.len() == 0 {
            String::new()
        } else if is_last {
            "   ".to_owned()
        } else {
            "\u{2502}  ".to_owned()
        };
        prefixes.push(fragment);
        let mut children = rows_for(data, children_pids, style);
        style.try_rev_sort(&mut children);
        let ghost kids = children@;
        length_stack.push(children.len());
        stack.append(&mut children);
        proof {
            assert(rows_of(kids) == o.stacked_kids(pid));
            assert(fragment@ == child_fragment(fragments, is_last));
            assert(fragments_of(prefixes@) =~= fragments.push(fragment@));
            lemma_rows_of_concat(below, kids);
            lemma_pending_push(o, rows_of(below), lens, fragments, rows_of(kids), fragment@);
            assert(length_stack@.drop_last() =~= lens);
            lemma_filtered_kids(o, filtered@, pid);
            assert forall|i: int| 0 <= i < stack@.len() implies filtered@.contains_key(
                (#[trigger] stack@[i])@.pid,
            ) by {
                if i < below.len() {
                    assert(stack@[i] == below[i]);
                } else {
                    assert(stack@[i] == kids[i - below.len()]);
                    assert(rows_of(kids)[i - below.len()] == kids[i - below.len()]@);
                }
            }
        }
    }
}

/// Drops the levels on top that have no row left.
fn drop_exhausted(
    length_stack: &mut Vec<usize>,
    prefixes: &mut Vec<String>,
    Ghost(o): Ghost<Outline>,
    Ghost(filtered): Ghost<Map<Pid, Vec<Pid>>>,
    Ghost(stack): Ghost<Seq<ProcWidgetData>>,
)
    requires
        walk_fits(filtered, stack, old(length_stack)@, old(prefixes)@),
    ensures
        walk_fits(filtered, stack, final(length_stack)@, final(prefixes)@),
        final(length_stack)@.len() > 0 ==> final(length_stack)@.last() > 0,
        o.pending_rows(rows_of(stack), final(length_stack)@, fragments_of(final(prefixes)@))
            == o.pending_rows(rows_of(stack), old(length_stack)@, fragments_of(old(prefixes)@)),
{
    while length_stack.len() > 0 && length_stack[length_stack.len() - 1] == 0
        invariant
            walk_fits(filtered, stack, length_stack@, prefixes@),
            o.pending_rows(rows_of(stack), length_stack@, fragments_of(prefixes@))
                == o.pending_rows(rows_of(stack), old(length_stack)@, fragments_of(old(prefixes)@)),
        decreases length_stack@.len(),
    {
        proof {
            lemma_pending_drop(o, rows_of(stack), length_stack@, fragments_of(prefixes@));
            if prefixes@.len() > 0 {
                assert(fragments_of(prefixes@.drop_last()) =~= fragments_of(prefixes@).drop_last());
            }
        }
        length_stack.pop();
        prefixes.pop();
    }
}

/// Lays the process tree out as table rows.
///
/// Only processes in the filtered forest appear: those that `kept` holds (all, if
/// `kept` is `None`) and their ancestors. Rows come depth-first from the orphan
/// roots, siblings in the order of `style`. Each row carries its branch
/// decoration; a row that is only there for its descendants is disabled. A pid in
/// `collapsed_pids` is shown as one row that sums its whole filtered subtree, and
/// its descendants are left out.
pub fn get_tree_data(
    data: &ProcessData,
    kept: Option<&FxHashSet<Pid>>,
    collapsed_pids: &FxHashSet<Pid>,
    style: &RowStyle,
) -> (rows: Vec<ProcWidgetData>)
    requires
        data@.is_forest(),
    ensures
        rows_of(rows@) == (Outline {
            forest: data@,
            kept: kept_set(kept),
            collapsed: collapsed_pids@,
            style: *style,
        }).rows(),
{
    let ghost o = Outline {
        forest: data@,
        kept: kept_set(kept),
        collapsed: collapsed_pids@,
        style: *style,
    };
    let filtered = filter_tree(data, kept);
    let roots = shown_roots(data, &filtered, Ghost(o));
    let mut stack = rows_for(data, &roots, style);
    style.try_rev_sort(&mut stack);
    let mut length_stack: Vec<usize> = Vec::new();
    let mut prefixes: Vec<String> = Vec::new();
    let mut rows: Vec<ProcWidgetData> = Vec::new();
    length_stack.push(stack.len());
    proof {
        let base = o.forest.base_rows(o.style, roots@);
        lemma_base_rows_members(o.forest, o.style, roots@);
        lemma_arranged_members(o.style, base);
        assert forall|i: int| 0 <= i < stack@.len() implies filtered@.contains_key(
            (#[trigger] stack@[i])@.pid,
        ) by {
            assert(rows_of(stack@)[i] == stack@[i]@);
            assert(base.contains(rows_of(stack@)[i]));
            let b = choose|b: int| 0 <= b < base.len() && base[b] == stack@[i]@;
            assert(roots@.contains(base[b].pid));
        }
        assert(rows_of(rows@) =~= Seq::<Row>::empty());
        assert(fragments_of(prefixes@) =~= no_fragments());
        let lens = length_stack@;
        assert(lens.drop_last() =~= Seq::<usize>::empty());
        assert(total_len(lens.drop_last()) == 0);
        let shown = rows_of(stack@);
        assert(shown.skip(shown.len() - shown.len()) =~= shown);
        assert(no_fragments().take(0) =~= no_fragments());
        assert(o.pending_rows(
            shown.take(shown.len() - shown.len()),
            lens.drop_last(),
            no_fragments(),
        ) =~= Seq::<Row>::empty());
        assert(shown == o.stacked_roots());
        assert(o.pending_rows(shown, lens, no_fragments()) =~= o.rows());
    }
    drop_exhausted(&mut length_stack, &mut prefixes, Ghost(o), Ghost(filtered@), Ghost(stack@));
    while stack.len() > 0
        invariant
            o.forest == data@,
            o.kept == kept_set(kept),
            o.collapsed == collapsed_pids@,
            o.style == *style,
            o.forest.is_forest(),
            filtered_for(o, filtered@),
            walk_fits(filtered@, stack@, length_stack@, prefixes@),
            length_stack@.len() > 0 ==> length_stack@.last() > 0,
            rows_of(rows@) + o.pending_rows(
                rows_of(stack@),
                length_stack@,
                fragments_of(prefixes@),
            ) == o.rows(),
        decreases o.rows().len() - rows@.len(),
    {
        let ghost fragments = fragments_of(prefixes@);
        let ghost shown = rows_of(rows@);
        let (process, is_last) = take_next(
            &mut stack,
            &mut length_stack,
            Ghost(o),
            Ghost(filtered@),
            Ghost(prefixes@),
        );
        let ghost row = process@;
        let ghost pending = o.pending_rows(rows_of(stack@), length_stack@, fragments);
        let pid = process.pid;
        let disabled = !is_kept(kept, pid);
        if set_contains(collapsed_pids, pid) {
            let summed = sum_subtree(data, &filtered, process, style, Ghost(o));
            let prefix = make_prefix(&prefixes, is_last, true);
            let out = summed.prefix(Some(prefix)).disabled(disabled);
            proof {
                lemma_rows_of_push(rows@, out);
                assert(o.subtree_rows(row, fragments, is_last) =~= seq![out@]);
            }
            rows.push(out);
            proof {
                assert(rows_of(rows@) + pending =~= shown + (o.subtree_rows(row, fragments, is_last)
                    + pending));
            }
        } else {
            let prefix = make_prefix(&prefixes, is_last, false);
            let out = process.prefix(Some(prefix)).disabled(disabled);
            proof {
                lemma_rows_of_push(rows@, out);
                lemma_expanded_rows(o, row, fragments, is_last);
            }
            rows.push(out);
            push_kids(
                data,
                &filtered,
                style,
                pid,
                is_last,
                &mut stack,
                &mut length_stack,
                &mut prefixes,
                Ghost(o),
            );
            proof {
                let kids = o.rows_from(
                    o.stacked_kids(pid),
                    fragments.push(child_fragment(fragments, is_last)),
                );
                assert(rows_of(rows@) + (kids + pending) =~= shown + ((seq![out@] + kids)
                    + pending));
            }
        }
        drop_exhausted(&mut length_stack, &mut prefixes, Ghost(o), Ghost(filtered@), Ghost(stack@));
    }
    proof {
        lemma_total_len_nonnegative(length_stack@);
        assert(rows_of(stack@) =~= Seq::<Row>::empty());
        lemma_pending_empty(o, length_stack@, fragments_of(prefixes@));
        assert(rows_of(rows@) =~= o.rows());
    }
    rows
}

proof fn lemma_total_len_nonnegative(lens: Seq<usize>)
    ensures
        total_len(lens) >= 0,
        total_len(lens) == 0 ==> forall|i: int| 0 <= i < lens.len() ==> #[trigger] lens[i] == 0,
    decreases lens.len(),
{
    if lens.len() > 0 {
        lemma_total_len_nonnegative(lens.drop_last());
        assert forall|i: int| total_len(lens) == 0 && 0 <= i < lens.len() implies #[trigger] lens[i]
            == 0 by {
            if i < lens.len() - 1 {
                assert(lens.drop_last()[i] == lens[i]);
            }
        }
    }
}

/// With nothing on the stack nothing is pending.
proof fn lemma_pending_empty(o: Outline, lens: Seq<usize>, fragments: Seq<Seq<char>>)
    requires
        total_len(lens) == 0,
    ensures
        o.pending_rows(Seq::empty(), lens, fragments) == Seq::<Row>::empty(),
    decreases lens.len(),
{
    if lens.len() > 0 {
        lemma_total_len_nonnegative(lens);
        lemma_total_len_nonnegative(lens.drop_last());
        let empty = Seq::<Row>::empty();
        assert(lens.last() == 0);
        assert(empty.skip(0) =~= empty);
        assert(empty.take(0) =~= empty);
        lemma_pending_empty(o, lens.drop_last(), fragments.take(lens.len() - 1));
    }
}

} // verus!

//! Stable sorting of display rows by a column.

use crate::column::{text_less, ProcColumn, SortOrder};
use crate::row::{lemma_rows_of_concat, lemma_rows_of_push, rows_of, ProcWidgetData, Row};
use vstd::prelude::*;

verus! {

/// No row of `rows` has to come before an earlier one.
pub open spec fn ordered(column: ProcColumn, order: SortOrder, rows: Seq<Row>) -> bool {
    forall|i: int, j: int|
        0 <= i < j < rows.len() ==> !column.before(order, #[trigger] rows[j], #[trigger] rows[i])
}

/// Where `row` belongs in `rows`: behind the last row that need not follow it.
pub open spec fn insertion_point(
    column: ProcColumn,
    order: SortOrder,
    rows: Seq<Row>,
    row: Row,
) -> int
    decreases rows.len(),
{
    if rows.len() == 0 {
        0
    } else if column.before(order, row, rows.last()) {
        insertion_point(column, order, rows.drop_last(), row)
    } else {
        rows.len() as int
    }
}

/// `rows` stably sorted by `column` in `order`: the rows one after the other, each
/// put behind everything that need not follow it.
pub open spec fn sorted_rows(column: ProcColumn, order: SortOrder, rows: Seq<Row>) -> Seq<Row>
    decreases rows.len(),
{
    if rows.len() == 0 {
        rows
    } else {
        let front = sorted_rows(column, order, rows.drop_last());
        front.insert(insertion_point(column, order, front, rows.last()), rows.last())
    }
}

/// Two rows tie: neither has to come before the other.
pub open spec fn ties(column: ProcColumn, order: SortOrder, a: Row, b: Row) -> bool {
    !column.before(order, a, b) && !column.before(order, b, a)
}

proof fn lemma_text_less_asymmetric(a: Seq<char>, b: Seq<char>)
    ensures
        text_less(a, b) ==> !text_less(b, a),
    decreases a.len(),
{
    if a.len() > 0 && b.len() > 0 && a[0] as u32 == b[0] as u32 {
        lemma_text_less_asymmetric(a.drop_first(), b.drop_first());
    }
}

proof fn lemma_text_less_chains(a: Seq<char>, b: Seq<char>, c: Seq<char>)
    ensures
        text_less(a, c) ==> text_less(a, b) || text_less(b, c),
    decreases a.len(),
{
    if a.len() > 0 && b.len() > 0 && c.len() > 0 && a[0] as u32 == b[0] as u32 && b[0] as u32
        == c[0] as u32 {
        lemma_text_less_chains(a.drop_first(), b.drop_first(), c.drop_first());
    }
}

/// Every column orders rows strictly and weakly: a row never precedes itself or
/// both precedes and follows another, and whatever is not before `b` while `b` is
/// not before `c` is not before `c` either.
pub proof fn lemma_before_is_weak_order(
    column: ProcColumn,
    order: SortOrder,
    a: Row,
    b: Row,
    c: Row,
)
    ensures
        !column.before(order, a, a),
        column.before(order, a, b) ==> !column.before(order, b, a),
        column.before(order, a, c) ==> column.before(order, a, b) || column.before(order, b, c),
{
    lemma_text_less_asymmetric(a.id, a.id);
    lemma_text_less_asymmetric(a.id, b.id);
    lemma_text_less_asymmetric(b.id, a.id);
    lemma_text_less_chains(a.id, b.id, c.id);
    lemma_text_less_chains(c.id, b.id, a.id);
    lemma_text_less_asymmetric(a.user, a.user);
    lemma_text_less_asymmetric(a.user, b.user);
    lemma_text_less_asymmetric(b.user, a.user);
    lemma_text_less_chains(a.user, b.user, c.user);
    lemma_text_less_chains(c.user, b.user, a.user);
}

proof fn lemma_insertion_point_bounds(
    column: ProcColumn,
    order: SortOrder,
    rows: Seq<Row>,
    row: Row,
)
    ensures
        0 <= insertion_point(column, order, rows, row) <= rows.len(),
        forall|m: int|
            insertion_point(column, order, rows, row) <= m < rows.len() ==> column.before(
                order,
                row,
                #[trigger] rows[m],
            ),
        insertion_point(column, order, rows, row) == 0 || !column.before(
            order,
            row,
            rows[insertion_point(column, order, rows, row) - 1],
        ),
    decreases rows.len(),
{
    if rows.len() > 0 && column.before(order, row, rows.last()) {
        let front = rows.drop_last();
        let at = insertion_point(column, order, front, row);
        lemma_insertion_point_bounds(column, order, front, row);
        assert forall|m: int| at <= m < rows.len() implies column.before(
            order,
            row,
            #[trigger] rows[m],
        ) by {
            if m < front.len() {
                assert(rows[m] == front[m]);
            }
        }
        if at > 0 {
            assert(rows[at - 1] == front[at - 1]);
        }
    }
}

/// Sorting keeps the number of rows.
pub proof fn lemma_sorted_len(column: ProcColumn, order: SortOrder, rows: Seq<Row>)
    ensures
        sorted_rows(column, order, rows).len() == rows.len(),
    decreases rows.len(),
{
    if rows.len() > 0 {
        let front = sorted_rows(column, order, rows.drop_last());
        lemma_sorted_len(column, order, rows.drop_last());
        lemma_insertion_point_bounds(column, order, front, rows.last());
    }
}

/// The sorted rows are in order: none has to come before an earlier one.
pub proof fn lemma_sorted_is_ordered(column: ProcColumn, order: SortOrder, rows: Seq<Row>)
    ensures
        ordered(column, order, sorted_rows(column, order, rows)),
    decreases rows.len(),
{
    if rows.len() > 0 {
        let front = sorted_rows(column, order, rows.drop_last());
        let x = rows.last();
        let at = insertion_point(column, order, front, x);
        let out = front.insert(at, x);
        lemma_sorted_is_ordered(column, order, rows.drop_last());
        lemma_insertion_point_bounds(column, order, front, x);
        assert forall|i: int, j: int| 0 <= i < j < out.len() implies !column.before(
            order,
            #[trigger] out[j],
            #[trigger] out[i],
        ) by {
            if j == at {
                // out[j] is x, out[i] is front[i] with i < at
                if i < at - 1 {
                    lemma_before_is_weak_order(column, order, x, front[at - 1], front[i]);
                }
            } else if i == at {
                // out[i] is x, out[j] is front[j - 1] with j - 1 >= at
                lemma_before_is_weak_order(column, order, x, front[j - 1], x);
            } else {
                let fi = if i < at { i } else { i - 1 };
                let fj = if j < at { j } else { j - 1 };
                assert(out[i] == front[fi]);
                assert(out[j] == front[fj]);
            }
        }
    }
}

/// Sorting rows that are already in order changes nothing.
pub proof fn lemma_sorted_of_ordered(column: ProcColumn, order: SortOrder, rows: Seq<Row>)
    requires
        ordered(column, order, rows),
    ensures
        sorted_rows(column, order, rows) == rows,
    decreases rows.len(),
{
    if rows.len() > 0 {
        let front = rows.drop_last();
        assert forall|i: int, j: int| 0 <= i < j < front.len() implies !column.before(
            order,
            #[trigger] front[j],
            #[trigger] front[i],
        ) by {
            assert(front[i] == rows[i] && front[j] == rows[j]);
        }
        lemma_sorted_of_ordered(column, order, front);
        if front.len() > 0 {
            assert(front.last() == rows[rows.len() - 2]);
            assert(!column.before(order, rows[rows.len() - 1], rows[rows.len() - 2]));
        }
        assert(insertion_point(column, order, front, rows.last()) == front.len());
        assert(front.insert(front.len() as int, rows.last()) =~= rows);
    }
}

/// Sorting twice by the same column and direction gives the same rows as sorting
/// once.
pub proof fn lemma_sort_is_idempotent(column: ProcColumn, order: SortOrder, rows: Seq<Row>)
    ensures
        sorted_rows(column, order, sorted_rows(column, order, rows)) == sorted_rows(
            column,
            order,
            rows,
        ),
{
    lemma_sorted_is_ordered(column, order, rows);
    lemma_sorted_of_ordered(column, order, sorted_rows(column, order, rows));
}

/// Sorting rearranges: every row occurs as often afterwards as before.
pub proof fn lemma_sorted_is_permutation(column: ProcColumn, order: SortOrder, rows: Seq<Row>)
    ensures
        sorted_rows(column, order, rows).to_multiset() == rows.to_multiset(),
    decreases rows.len(),
{
    broadcast use vstd::seq_lib::group_to_multiset_ensures;

    if rows.len() > 0 {
        let front = sorted_rows(column, order, rows.drop_last());
        let x = rows.last();
        let at = insertion_point(column, order, front, x);
        lemma_sorted_is_permutation(column, order, rows.drop_last());
        lemma_insertion_point_bounds(column, order, front, x);
        front.to_multiset_ensures();
        rows.drop_last().to_multiset_ensures();
        lemma_insert_to_multiset(front, at, x);
        assert(rows.drop_last().push(x) =~= rows);
    }
}

proof fn lemma_insert_to_multiset(s: Seq<Row>, at: int, x: Row)
    requires
        0 <= at <= s.len(),
    ensures
        s.insert(at, x).to_multiset() == s.to_multiset().insert(x),
{
    broadcast use vstd::seq_lib::group_to_multiset_ensures;

    let head = s.take(at);
    let tail = s.skip(at);
    assert(s.insert(at, x) =~= head.push(x) + tail);
    assert(s =~= head + tail);
    vstd::seq_lib::lemma_multiset_commutative(head.push(x), tail);
    vstd::seq_lib::lemma_multiset_commutative(head, tail);
    assert(head.push(x).to_multiset() == head.to_multiset().insert(x));
    assert(head.to_multiset().insert(x).add(tail.to_multiset()) =~= head.to_multiset().add(
        tail.to_multiset(),
    ).insert(x));
}

/// The rows of `rows` that tie with `row`, in their given order.
pub open spec fn tied_with(column: ProcColumn, order: SortOrder, rows: Seq<Row>, row: Row) -> Seq<
    Row,
>
    decreases rows.len(),
{
    if rows.len() == 0 {
        rows
    } else if ties(column, order, rows.last(), row) {
        tied_with(column, order, rows.drop_last(), row).push(rows.last())
    } else {
        tied_with(column, order, rows.drop_last(), row)
    }
}

proof fn lemma_tied_with_concat(
    column: ProcColumn,
    order: SortOrder,
    a: Seq<Row>,
    b: Seq<Row>,
    row: Row,
)
    ensures
        tied_with(column, order, a + b, row) == tied_with(column, order, a, row) + tied_with(
            column,
            order,
            b,
            row,
        ),
    decreases b.len(),
{
    if b.len() == 0 {
        assert(a + b =~= a);
        assert(tied_with(column, order, a, row) + tied_with(column, order, b, row) =~= tied_with(
            column,
            order,
            a,
            row,
        ));
    } else {
        assert((a + b).drop_last() =~= a + b.drop_last());
        assert((a + b).last() == b.last());
        lemma_tied_with_concat(column, order, a, b.drop_last(), row);
        let left = tied_with(column, order, a, row);
        let right = tied_with(column, order, b.drop_last(), row);
        assert((left + right).push(b.last()) =~= left + right.push(b.last()));
    }
}

proof fn lemma_none_tied(column: ProcColumn, order: SortOrder, rows: Seq<Row>, row: Row)
    requires
        forall|m: int| 0 <= m < rows.len() ==> !ties(column, order, #[trigger] rows[m], row),
    ensures
        tied_with(column, order, rows, row).len() == 0,
    decreases rows.len(),
{
    if rows.len() > 0 {
        assert forall|m: int| 0 <= m < rows.len() - 1 implies !ties(
            column,
            order,
            #[trigger] rows.drop_last()[m],
            row,
        ) by {
            assert(rows.drop_last()[m] == rows[m]);
        }
        lemma_none_tied(column, order, rows.drop_last(), row);
        assert(!ties(column, order, rows[rows.len() - 1], row));
    }
}

/// The sort is stable: the rows that tie with a given row come out in the order
/// they went in.
pub proof fn lemma_sort_is_stable(column: ProcColumn, order: SortOrder, rows: Seq<Row>, row: Row)
    ensures
        tied_with(column, order, sorted_rows(column, order, rows), row) == tied_with(
            column,
            order,
            rows,
            row,
        ),
    decreases rows.len(),
{
    if rows.len() > 0 {
        let front = sorted_rows(column, order, rows.drop_last());
        let x = rows.last();
        let at = insertion_point(column, order, front, x);
        lemma_sort_is_stable(column, order, rows.drop_last(), row);
        lemma_insertion_point_bounds(column, order, front, x);
        let head = front.take(at);
        let tail = front.skip(at);
        assert(front =~= head + tail);
        assert(front.insert(at, x) =~= head.push(x) + tail);
        lemma_tied_with_concat(column, order, head, tail, row);
        lemma_tied_with_concat(column, order, head.push(x), tail, row);
        assert(head.push(x).drop_last() =~= head);
        if ties(column, order, x, row) {
            assert forall|m: int| 0 <= m < tail.len() implies !ties(
                column,
                order,
                #[trigger] tail[m],
                row,
            ) by {
                assert(tail[m] == front[at + m]);
                assert(column.before(order, x, front[at + m]));
                lemma_before_is_weak_order(column, order, x, row, tail[m]);
            }
            lemma_none_tied(column, order, tail, row);
            let kept = tied_with(column, order, head, row);
            assert(kept + tied_with(column, order, tail, row) =~= kept);
            assert(kept.push(x) + tied_with(column, order, tail, row) =~= kept.push(x));
        }
    }
}

/// `row` put into `rows` where it belongs.
pub open spec fn inserted(column: ProcColumn, order: SortOrder, rows: Seq<Row>, row: Row) -> Seq<
    Row,
> {
    rows.insert(insertion_point(column, order, rows, row), row)
}

/// Two runs of rows merged into one from their ends: the greater of the two last
/// rows goes last, and on a tie the one of `right` does.
pub open spec fn merged(column: ProcColumn, order: SortOrder, left: Seq<Row>, right: Seq<Row>) -> Seq<
    Row,
>
    decreases left.len() + right.len(),
{
    if left.len() == 0 {
        right
    } else if right.len() == 0 {
        left
    } else if column.before(order, right.last(), left.last()) {
        merged(column, order, left.drop_last(), right).push(left.last())
    } else {
        merged(column, order, left, right.drop_last()).push(right.last())
    }
}

/// A row that belongs in front of the last row goes into what is in front of it;
/// any other row goes to the end.
proof fn lemma_inserted(column: ProcColumn, order: SortOrder, rows: Seq<Row>, row: Row)
    ensures
        rows.len() > 0 && column.before(order, row, rows.last()) ==> inserted(
            column,
            order,
            rows,
            row,
        ) == inserted(column, order, rows.drop_last(), row).push(rows.last()),
        rows.len() == 0 || !column.before(order, row, rows.last()) ==> inserted(
            column,
            order,
            rows,
            row,
        ) == rows.push(row),
{
    if rows.len() > 0 && column.before(order, row, rows.last()) {
        let front = rows.drop_last();
        lemma_insertion_point_bounds(column, order, front, row);
        assert(inserted(column, order, rows, row) =~= inserted(column, order, front, row).push(
            rows.last(),
        ));
    } else {
        assert(inserted(column, order, rows, row) =~= rows.push(row));
    }
}

/// Putting a row into a merge is merging with the row put into the right run.
proof fn lemma_inserted_into_merged(
    column: ProcColumn,
    order: SortOrder,
    left: Seq<Row>,
    right: Seq<Row>,
    row: Row,
)
    ensures
        inserted(column, order, merged(column, order, left, right), row) == merged(
            column,
            order,
            left,
            inserted(column, order, right, row),
        ),
    decreases left.len() + right.len(),
{
    let whole = merged(column, order, left, right);
    let right_with = inserted(column, order, right, row);
    lemma_inserted(column, order, whole, row);
    lemma_inserted(column, order, right, row);
    lemma_insertion_point_bounds(column, order, right, row);
    if left.len() == 0 {
    } else if right.len() == 0 {
        assert(right_with =~= seq![row]);
        assert(right_with.drop_last() =~= right);
        if column.before(order, row, left.last()) {
            lemma_inserted_into_merged(column, order, left.drop_last(), right, row);
        }
    } else if column.before(order, right.last(), left.last()) {
        assert(whole.drop_last() =~= merged(column, order, left.drop_last(), right));
        if column.before(order, row, left.last()) {
            lemma_inserted_into_merged(column, order, left.drop_last(), right, row);
        } else {
            lemma_before_is_weak_order(column, order, row, left.last(), right.last());
            lemma_before_is_weak_order(column, order, right.last(), left.last(), right.last());
            assert(right_with.drop_last() =~= right);
        }
    } else {
        assert(whole.drop_last() =~= merged(column, order, left, right.drop_last()));
        if column.before(order, row, right.last()) {
            lemma_inserted_into_merged(column, order, left, right.drop_last(), row);
            assert(right_with.drop_last() =~= inserted(column, order, right.drop_last(), row));
        } else {
            lemma_before_is_weak_order(column, order, row, right.last(), left.last());
            assert(right_with.drop_last() =~= right);
        }
    }
}

/// Sorting two runs and merging them sorts the two runs together.
pub proof fn lemma_sorted_concat(
    column: ProcColumn,
    order: SortOrder,
    left: Seq<Row>,
    right: Seq<Row>,
)
    ensures
        sorted_rows(column, order, left + right) == merged(
            column,
            order,
            sorted_rows(column, order, left),
            sorted_rows(column, order, right),
        ),
    decreases right.len(),
{
    if right.len() == 0 {
        assert(left + right =~= left);
    } else {
        assert((left + right).drop_last() =~= left + right.drop_last());
        assert((left + right).last() == right.last());
        lemma_sorted_concat(column, order, left, right.drop_last());
        lemma_inserted_into_merged(
            column,
            order,
            sorted_rows(column, order, left),
            sorted_rows(column, order, right.drop_last()),
            right.last(),
        );
    }
}

impl ProcColumn {
    /// Merges two runs of rows from their ends.
    fn merge(self, order: SortOrder, left: Vec<ProcWidgetData>, right: Vec<ProcWidgetData>) -> (out:
        Vec<ProcWidgetData>)
        ensures
            rows_of(out@) == merged(self, order, rows_of(left@), rows_of(right@)),
    {
        let ghost target = merged(self, order, rows_of(left@), rows_of(right@));
        let mut left = left;
        let mut right = right;
        let mut reversed: Vec<ProcWidgetData> = Vec::new();
        assert(rows_of(reversed@).reverse() =~= Seq::<Row>::empty());
        while left.len() > 0 || right.len() > 0
            invariant
                target == merged(self, order, rows_of(left@), rows_of(right@)) + rows_of(
                    reversed@,
                ).reverse(),
            decreases left@.len() + right@.len(),
        {
            let ghost rest = rows_of(reversed@).reverse();
            let ghost prior = reversed@;
            let from_left = if right.len() == 0 {
                true
            } else if left.len() == 0 {
                false
            } else {
                self.precedes(order, &right[right.len() - 1], &left[left.len() - 1])
            };
            let ghost before_left = rows_of(left@);
            let ghost before_right = rows_of(right@);
            let next = if from_left {
                left.pop().unwrap()
            } else {
                right.pop().unwrap()
            };
            proof {
                assert(rows_of(left@) =~= if from_left {
                    before_left.drop_last()
                } else {
                    before_left
                });
                assert(rows_of(right@) =~= if from_left {
                    before_right
                } else {
                    before_right.drop_last()
                });
                if from_left {
                    assert(before_left.last() == next@);
                } else {
                    assert(before_right.last() == next@);
                }
                lemma_rows_of_push(prior, next);
                assert(rows_of(prior.push(next)).reverse() =~= seq![next@] + rest);
                let smaller = merged(self, order, rows_of(left@), rows_of(right@));
                assert(merged(self, order, before_left, before_right) =~= smaller.push(next@));
                assert(smaller.push(next@) + rest =~= smaller + (seq![next@] + rest));
            }
            reversed.push(next);
        }
        let mut out: Vec<ProcWidgetData> = Vec::new();
        proof {
            assert(rows_of(out@) =~= Seq::<Row>::empty());
            assert(target =~= rows_of(reversed@).reverse());
        }
        while reversed.len() > 0
            invariant
                target == rows_of(out@) + rows_of(reversed@).reverse(),
            decreases reversed@.len(),
        {
            let ghost done = rows_of(out@);
            let ghost prior_out = out@;
            let ghost prior = rows_of(reversed@);
            let next = reversed.pop().unwrap();
            proof {
                assert(rows_of(reversed@) =~= prior.drop_last());
                assert(prior.last() == next@);
                lemma_rows_of_push(prior_out, next);
                assert(prior.reverse() =~= seq![next@] + prior.drop_last().reverse());
                assert(done + (seq![next@] + prior.drop_last().reverse()) =~= done.push(next@)
                    + prior.drop_last().reverse());
            }
            out.push(next);
        }
        proof {
            assert(rows_of(reversed@).reverse() =~= Seq::<Row>::empty());
            assert(target =~= rows_of(out@));
        }
        out
    }

    /// Sorts a run of rows by halving, sorting the halves and merging them.
    fn merge_sort(self, order: SortOrder, data: Vec<ProcWidgetData>) -> (out: Vec<ProcWidgetData>)
        ensures
            rows_of(out@) == sorted_rows(self, order, rows_of(data@)),
        decreases data@.len(),
    {
        let ghost rows = rows_of(data@);
        if data.len() <= 1 {
            proof {
                if data@.len() == 1 {
                    assert(rows.drop_last() =~= Seq::<Row>::empty());
                    assert(sorted_rows(self, order, rows.drop_last()) =~= Seq::<Row>::empty());
                    assert(sorted_rows(self, order, rows) =~= rows);
                }
            }
            data
        } else {
            let mut left = data;
            let half = left.len() / 2;
            let right = left.split_off(half);
            proof {
                lemma_rows_of_concat(left@, right@);
                assert(left@ + right@ =~= data@);
                lemma_sorted_concat(self, order, rows_of(left@), rows_of(right@));
            }
            let left = self.merge_sort(order, left);
            let right = self.merge_sort(order, right);
            self.merge(order, left, right)
        }
    }

    /// Sorts `data` by this column in `order`. The sort is stable: rows that tie in
    /// this column stay in the order they came in.
    pub fn sort_data(self, data: &mut Vec<ProcWidgetData>, order: SortOrder)
        ensures
            rows_of(final(data)@) == sorted_rows(self, order, rows_of(old(data)@)),
            final(data)@.len() == old(data)@.len(),
    {
        let mut taken: Vec<ProcWidgetData> = Vec::new();
        std::mem::swap(data, &mut taken);
        let sorted = self.merge_sort(order, taken);
        proof {
            lemma_sorted_len(self, order, rows_of(old(data)@));
        }
        *data = sorted;
    }
}

} // verus!

verus! {

/// How rows are labelled, measured and arranged.
#[derive(Clone, Copy, Debug)]
pub struct RowStyle {
    /// Label rows with the full command line instead of the process name.
    pub is_command: bool,
    /// Show memory as a share of the total instead of a byte count.
    pub is_mem_percent: bool,
    /// The column to sort by; `None` leaves rows as they come.
    pub sort_column: Option<ProcColumn>,
    /// The direction to sort in.
    pub order: SortOrder,
}

impl RowStyle {
    /// `rows` as this style arranges them.
    pub open spec fn arranged(self, rows: Seq<Row>) -> Seq<Row> {
        match self.sort_column {
            Some(column) => sorted_rows(column, self.order, rows),
            None => rows,
        }
    }

    /// `rows` arranged for a stack: sorted in the opposite direction, so that taking
    /// rows off the end yields them in the direction asked for.
    pub open spec fn arranged_rev(self, rows: Seq<Row>) -> Seq<Row> {
        match self.sort_column {
            Some(column) => sorted_rows(column, self.order.flipped(), rows),
            None => rows,
        }
    }

    /// Sorts `data` by the style's column and direction, if it has a column.
    pub fn try_sort(&self, data: &mut Vec<ProcWidgetData>)
        ensures
            rows_of(final(data)@) == self.arranged(rows_of(old(data)@)),
            final(data)@.len() == old(data)@.len(),
    {
        if let Some(column) = self.sort_column {
            column.sort_data(data, self.order);
        }
    }

    /// Sorts `data` by the style's column in the opposite of its direction, if it
    /// has a column.
    pub fn try_rev_sort(&self, data: &mut Vec<ProcWidgetData>)
        ensures
            rows_of(final(data)@) == self.arranged_rev(rows_of(old(data)@)),
            final(data)@.len() == old(data)@.len(),
    {
        if let Some(column) = self.sort_column {
            column.sort_data(data, self.order.flipped());
        }
    }
}

/// Arranging rearranges: each arranged row is one of the given rows.
pub proof fn lemma_arranged_members(style: RowStyle, rows: Seq<Row>)
    ensures
        style.arranged(rows).len() == rows.len(),
        style.arranged_rev(rows).len() == rows.len(),
        forall|j: int|
            0 <= j < rows.len() ==> rows.contains(#[trigger] style.arranged(rows)[j]),
        forall|j: int|
            0 <= j < rows.len() ==> rows.contains(#[trigger] style.arranged_rev(rows)[j]),
{
    broadcast use vstd::seq_lib::group_to_multiset_ensures;

    if let Some(column) = style.sort_column {
        let a = sorted_rows(column, style.order, rows);
        let b = sorted_rows(column, style.order.flipped(), rows);
        lemma_sorted_len(column, style.order, rows);
        lemma_sorted_len(column, style.order.flipped(), rows);
        lemma_sorted_is_permutation(column, style.order, rows);
        lemma_sorted_is_permutation(column, style.order.flipped(), rows);
        rows.to_multiset_ensures();
        a.to_multiset_ensures();
        b.to_multiset_ensures();
        assert forall|j: int| 0 <= j < rows.len() implies rows.contains(#[trigger] a[j]) by {
            assert(a.contains(a[j]));
            assert(a.to_multiset().count(a[j]) > 0);
        }
        assert forall|j: int| 0 <= j < rows.len() implies rows.contains(#[trigger] b[j]) by {
            assert(b.contains(b[j]));
            assert(b.to_multiset().count(b[j]) > 0);
        }
    } else {
        assert forall|j: int| 0 <= j < rows.len() implies rows.contains(#[trigger] rows[j]) by {}
    }
}

} // verus!

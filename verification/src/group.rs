//! The flat views: one row per matching process, or one summed row per group of
//! processes that share a label.

use crate::filter::{is_kept, kept_set};
use crate::harvest::{Pid, ProcessData};
use crate::row::{capped, lemma_rows_of_push, rows_of, ProcWidgetData, Row};
use crate::sort::RowStyle;
use crate::tree::rows_for;
use crate::labels::{
    label_pids_insert, label_pids_new, label_pids_remove, label_slots_get, label_slots_insert,
    label_slots_new, pids_by_label, slots_by_label,
};
use fxhash::{FxHashMap, FxHashSet};
use vstd::prelude::*;

verus! {

/// Those of `pids` that the search keeps, in their given order.
pub open spec fn kept_among(kept: Set<Pid>, pids: Seq<Pid>) -> Seq<Pid>
    decreases pids.len(),
{
    if pids.len() == 0 {
        pids
    } else {
        let front = kept_among(kept, pids.drop_last());
        if kept.contains(pids.last()) {
            front.push(pids.last())
        } else {
            front
        }
    }
}

/// Picks out of `pids` those that the search keeps.
pub fn keep(pids: &Vec<Pid>, kept: Option<&FxHashSet<Pid>>) -> (out: Vec<Pid>)
    ensures
        out@ == kept_among(kept_set(kept), pids@),
{
    let mut out: Vec<Pid> = Vec::new();
    let mut i: usize = 0;
    assert(pids@.take(0) =~= Seq::<Pid>::empty());
    while i < pids.len()
        invariant
            i <= pids.len(),
            out@ == kept_among(kept_set(kept), pids@.take(i as int)),
        decreases pids.len() - i,
    {
        proof {
            assert(pids@.take(i as int + 1).drop_last() =~= pids@.take(i as int));
            assert(pids@.take(i as int + 1).last() == pids@[i as int]);
        }
        if is_kept(kept, pids[i]) {
            out.push(pids[i]);
        }
        i += 1;
    }
    assert(pids@.take(pids.len() as int) =~= pids@);
    out
}

/// The position of the group labelled `key` among `groups`, if there is one.
pub open spec fn group_at(groups: Seq<Row>, key: Seq<char>) -> Option<int>
    decreases groups.len(),
{
    if groups.len() == 0 {
        None
    } else if groups.last().id == key {
        Some(groups.len() - 1)
    } else {
        group_at(groups.drop_last(), key)
    }
}

/// `rows` folded into groups by label, in order of first appearance. A group
/// starts as the first row with its label; each further row with that label is
/// added to its sums and counted.
pub open spec fn grouped_rows(rows: Seq<Row>) -> Seq<Row>
    decreases rows.len(),
{
    if rows.len() == 0 {
        rows
    } else {
        let groups = grouped_rows(rows.drop_last());
        let row = rows.last();
        match group_at(groups, row.id) {
            Some(g) => groups.update(
                g,
                groups[g].plus(row).with_num_similar(capped(groups[g].num_similar + 1)),
            ),
            None => groups.push(row.with_num_similar(1)),
        }
    }
}

/// The pids of `rows` by label: under each label that occurs, the pids of the rows
/// that carry it, in their given order.
pub open spec fn labelled_pids(rows: Seq<Row>) -> Map<Seq<char>, Seq<Pid>>
    decreases rows.len(),
{
    if rows.len() == 0 {
        Map::empty()
    } else {
        let front = labelled_pids(rows.drop_last());
        let row = rows.last();
        front.insert(
            row.id,
            (if front.contains_key(row.id) {
                front[row.id]
            } else {
                Seq::empty()
            }).push(row.pid),
        )
    }
}

/// A group is found where its label is, and nowhere if no group has the label.
pub proof fn lemma_group_at(groups: Seq<Row>, key: Seq<char>)
    ensures
        match group_at(groups, key) {
            Some(g) => 0 <= g < groups.len() && groups[g].id == key,
            None => forall|i: int| 0 <= i < groups.len() ==> (#[trigger] groups[i]).id != key,
        },
    decreases groups.len(),
{
    if groups.len() > 0 && groups.last().id != key {
        lemma_group_at(groups.drop_last(), key);
        if group_at(groups.drop_last(), key) is None {
            assert forall|i: int| 0 <= i < groups.len() implies (#[trigger] groups[i]).id
                != key by {
                if i < groups.len() - 1 {
                    assert(groups.drop_last()[i] == groups[i]);
                }
            }
        }
    }
}

/// What the slot map has to say while rows are folded into `groups`: it knows
/// exactly the labels of the groups, each with the position of its group.
pub open spec fn slots_fit(slots: Map<Seq<char>, usize>, groups: Seq<Row>) -> bool {
    &&& forall|key: Seq<char>| #[trigger]
        slots.contains_key(key) ==> slots[key] < groups.len() && groups[slots[key] as int].id
            == key
    &&& forall|g: int|
        0 <= g < groups.len() ==> slots.contains_key((#[trigger] groups[g]).id)
            && slots[groups[g].id] == g
}

/// With a fitting slot map, a group is found exactly where the slot map says.
proof fn lemma_slot_is_group(slots: Map<Seq<char>, usize>, groups: Seq<Row>, key: Seq<char>)
    requires
        slots_fit(slots, groups),
    ensures
        group_at(groups, key) == (if slots.contains_key(key) {
            Some(slots[key] as int)
        } else {
            None
        }),
{
    lemma_group_at(groups, key);
    match group_at(groups, key) {
        Some(g) => {
            assert(slots.contains_key(groups[g].id));
        },
        None => {
            if slots.contains_key(key) {
                assert(groups[slots[key] as int].id == key);
            }
        },
    }
}

/// Folds `rows` into groups by label and lists the pids of each label.
pub fn group_rows(rows: Vec<ProcWidgetData>) -> (out: (
    Vec<ProcWidgetData>,
    FxHashMap<String, Vec<Pid>>,
))
    ensures
        rows_of(out.0@) == grouped_rows(rows_of(rows@)),
        pids_by_label(out.1) == labelled_pids(rows_of(rows@)),
{
    let ghost all = rows_of(rows@);
    let mut groups: Vec<ProcWidgetData> = Vec::new();
    let mut slots = label_slots_new();
    let mut index = label_pids_new();
    let n = rows.len();
    let mut i: usize = 0;
    proof {
        assert(all.take(0) =~= Seq::<Row>::empty());
        assert(rows_of(groups@) =~= Seq::<Row>::empty());
    }
    for row in it: rows
        invariant
            i == it.index(),
            it.seq().len() == n,
            rows_of(it.seq()) == all,
            all.len() == n,
            rows_of(groups@) == grouped_rows(all.take(i as int)),
            pids_by_label(index) == labelled_pids(all.take(i as int)),
            slots_fit(slots_by_label(slots), rows_of(groups@)),
    {
        let ghost before = rows_of(groups@);
        let ghost listed = pids_by_label(index);
        let ghost known = slots_by_label(slots);
        proof {
            assert(all.take(i as int + 1).drop_last() =~= all.take(i as int));
            assert(all.take(i as int + 1).last() == row@);
            lemma_slot_is_group(known, before, row@.id);
        }
        let mut pids = match label_pids_remove(&mut index, row.id.as_str()) {
            Some(pids) => pids,
            None => Vec::new(),
        };
        pids.push(row.pid);
        label_pids_insert(&mut index, row.id.clone(), pids);
        proof {
            assert(pids_by_label(index) =~= labelled_pids(all.take(i as int + 1)));
        }
        match label_slots_get(&slots, row.id.as_str()) {
            Some(g) => {
                let ghost prior = groups@;
                let group = &mut groups[g];
                let similar = group.num_similar.saturating_add(1);
                group.add(&row);
                group.num_similar = similar;
                proof {
                    assert(rows_of(groups@) =~= before.update(
                        g as int,
                        before[g as int].plus(row@).with_num_similar(
                            capped(before[g as int].num_similar + 1),
                        ),
                    ));
                    assert forall|k: int| 0 <= k < groups@.len() implies known.contains_key(
                        (#[trigger] rows_of(groups@)[k]).id,
                    ) && known[rows_of(groups@)[k].id] == k by {
                        assert(rows_of(groups@)[k].id == before[k].id);
                    }
                }
            },
            None => {
                let ghost prior = groups@;
                let slot = groups.len();
                label_slots_insert(&mut slots, row.id.clone(), slot);
                let first = row.num_similar(1);
                proof {
                    lemma_rows_of_push(prior, first);
                }
                groups.push(first);
                proof {
                    let now = slots_by_label(slots);
                    let after = rows_of(groups@);
                    assert forall|key: Seq<char>| #[trigger] now.contains_key(key) implies now[key]
                        < after.len() && after[now[key] as int].id == key by {
                        if key != row@.id {
                            assert(known.contains_key(key));
                            assert(after[known[key] as int] == before[known[key] as int]);
                        }
                    }
                    assert forall|k: int| 0 <= k < after.len() implies now.contains_key(
                        (#[trigger] after[k]).id,
                    ) && now[after[k].id] == k by {
                        if k < before.len() {
                            assert(after[k] == before[k]);
                            assert(known.contains_key(before[k].id));
                        }
                    }
                }
            },
        }
        i += 1;
    }
    proof {
        assert(all.take(n as int) =~= all);
    }
    (groups, index)
}

/// The rows of the flat views.
///
/// `walk` gives the pids to show and the order to start from. Each pid that has a
/// record and that `kept` holds (every one, if `kept` is `None`) yields a row. If
/// `grouped`, rows with the same label are folded into one row that sums them and
/// counts them, and the second result lists the pids behind each label; else the
/// second result holds nothing. The rows are then sorted as `style` says.
pub fn get_normal_data(
    data: &ProcessData,
    walk: &Vec<Pid>,
    kept: Option<&FxHashSet<Pid>>,
    grouped: bool,
    style: &RowStyle,
) -> (out: (Vec<ProcWidgetData>, FxHashMap<String, Vec<Pid>>))
    ensures
        rows_of(out.0@) == style.arranged(
            if grouped {
                grouped_rows(data@.base_rows(*style, kept_among(kept_set(kept), walk@)))
            } else {
                data@.base_rows(*style, kept_among(kept_set(kept), walk@))
            },
        ),
        pids_by_label(out.1) == (if grouped {
            labelled_pids(data@.base_rows(*style, kept_among(kept_set(kept), walk@)))
        } else {
            Map::empty()
        }),
{
    let matching = keep(walk, kept);
    let plain = rows_for(data, &matching, style);
    if grouped {
        let (mut groups, index) = group_rows(plain);
        style.try_sort(&mut groups);
        (groups, index)
    } else {
        let mut rows = plain;
        style.try_sort(&mut rows);
        (rows, label_pids_new())
    }
}

} // verus!

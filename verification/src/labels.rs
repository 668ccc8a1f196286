//! Label-keyed hash maps.
//!
//! Grouping looks rows up by their label. The maps are Fx hash maps keyed by
//! `String`. The functions below state, over the text of the labels, what the std
//! documentation promises of each map operation the crate uses. They are not
//! verified.

use crate::harvest::Pid;
use fxhash::FxHashMap;
use vstd::prelude::*;

verus! {

/// What a label-to-pids map holds: for the text of each label in it, the pids
/// listed under that label.
pub uninterp spec fn pids_by_label(index: FxHashMap<String, Vec<Pid>>) -> Map<Seq<char>, Seq<Pid>>;

/// What a label-to-slot map holds: for the text of each label in it, the slot
/// stored under that label.
pub uninterp spec fn slots_by_label(slots: FxHashMap<String, usize>) -> Map<Seq<char>, usize>;

/// `HashMap::default`: a map that holds nothing.
#[verifier::external_body]
pub(crate) fn label_pids_new() -> (index: FxHashMap<String, Vec<Pid>>)
    ensures
        pids_by_label(index) == (Map::<Seq<char>, Seq<Pid>>::empty()),
{
    FxHashMap::default()
}

/// `HashMap::insert`: afterwards `label` maps to `pids` and every other label is
/// untouched. Strings are equal as keys exactly if their text is equal.
#[verifier::external_body]
pub(crate) fn label_pids_insert(
    index: &mut FxHashMap<String, Vec<Pid>>,
    label: String,
    pids: Vec<Pid>,
)
    ensures
        pids_by_label(*final(index)) == pids_by_label(*old(index)).insert(label@, pids@),
{
    index.insert(label, pids);
}

/// `HashMap::remove`: afterwards the map has no label with text `label`; every
/// other label is untouched. Returns the pids that were listed under it, if any.
#[verifier::external_body]
pub(crate) fn label_pids_remove(index: &mut FxHashMap<String, Vec<Pid>>, label: &str) -> (taken:
    Option<Vec<Pid>>)
    ensures
        pids_by_label(*final(index)) == pids_by_label(*old(index)).remove(label@),
        match taken {
            Some(pids) => pids_by_label(*old(index)).contains_key(label@) && pids@
                == pids_by_label(*old(index))[label@],
            None => !pids_by_label(*old(index)).contains_key(label@),
        },
{
    index.remove(label)
}

/// `HashMap::default`: a map that holds nothing.
#[verifier::external_body]
pub(crate) fn label_slots_new() -> (slots: FxHashMap<String, usize>)
    ensures
        slots_by_label(slots) == (Map::<Seq<char>, usize>::empty()),
{
    FxHashMap::default()
}

/// `HashMap::get`: the slot stored under the label with text `label`, or `None` if
/// the map has no such label.
#[verifier::external_body]
pub(crate) fn label_slots_get(slots: &FxHashMap<String, usize>, label: &str) -> (found: Option<
    usize,
>)
    ensures
        found == (if slots_by_label(*slots).contains_key(label@) {
            Some(slots_by_label(*slots)[label@])
        } else {
            None
        }),
{
    slots.get(label).copied()
}

/// `HashMap::insert`: afterwards `label` maps to `slot` and every other label is
/// untouched.
#[verifier::external_body]
pub(crate) fn label_slots_insert(slots: &mut FxHashMap<String, usize>, label: String, slot: usize)
    ensures
        slots_by_label(*final(slots)) == slots_by_label(*old(slots)).insert(label@, slot),
{
    slots.insert(label, slot);
}

} // verus!

//! The per-tick process snapshot: flat records plus a parent-to-children index.

use fxhash::FxHashMap;
use vstd::prelude::*;

verus! {

/// A process identifier.
pub type Pid = i32;

/// The scheduler state of a process, in the order used when sorting by state.
#[derive(Clone, Copy, Debug, PartialEq, Eq)]
pub enum ProcessState {
    Running,
    Sleeping,
    Idle,
    Waiting,
    Stopped,
    Zombie,
    Dead,
    Unknown,
}

impl ProcessState {
    /// Position of the state in the declaration order.
    pub open spec fn spec_rank(self) -> u8 {
        match self {
            ProcessState::Running => 0,
            ProcessState::Sleeping => 1,
            ProcessState::Idle => 2,
            ProcessState::Waiting => 3,
            ProcessState::Stopped => 4,
            ProcessState::Zombie => 5,
            ProcessState::Dead => 6,
            ProcessState::Unknown => 7,
        }
    }

    /// Position of the state in the declaration order.
    #[verifier::when_used_as_spec(spec_rank)]
    pub fn rank(self) -> (r: u8)
        ensures
            r == self.spec_rank(),
    {
        match self {
            ProcessState::Running => 0,
            ProcessState::Sleeping => 1,
            ProcessState::Idle => 2,
            ProcessState::Waiting => 3,
            ProcessState::Stopped => 4,
            ProcessState::Zombie => 5,
            ProcessState::Dead => 6,
            ProcessState::Unknown => 7,
        }
    }
}

/// One process as sampled this tick.
///
/// Percentages are fixed-point: `cpu_millipercent == 12_500` means 12.5 %.
#[derive(Clone, Debug)]
pub struct ProcessHarvest {
    pub pid: Pid,
    pub parent_pid: Option<Pid>,
    pub name: String,
    pub command: String,
    pub cpu_millipercent: u64,
    pub mem_millipercent: u64,
    pub mem_usage_bytes: u64,
    pub read_bytes_per_sec: u64,
    pub write_bytes_per_sec: u64,
    pub total_read_bytes: u64,
    pub total_write_bytes: u64,
    pub user: String,
    pub process_state: ProcessState,
}

/// Everything the process table knows about one tick.
pub struct ProcessData {
    /// Every live process, keyed by its pid.
    pub process_harvest: FxHashMap<Pid, ProcessHarvest>,
    /// For each parent pid, its children in display order.
    pub process_parent_mapping: FxHashMap<Pid, Vec<Pid>>,
    /// Pids whose parent is not part of this snapshot; the roots of the forest.
    pub orphan_pids: Vec<Pid>,
}

/// The mathematical content of a [`ProcessData`].
pub struct Forest {
    pub records: Map<Pid, ProcessHarvest>,
    pub children: Map<Pid, Seq<Pid>>,
    pub roots: Seq<Pid>,
}

impl View for ProcessData {
    type V = Forest;

    open spec fn view(&self) -> Forest {
        Forest {
            records: self.process_harvest@,
            children: Map::new(
                |p: Pid| self.process_parent_mapping@.contains_key(p),
                |p: Pid| self.process_parent_mapping@[p]@,
            ),
            roots: self.orphan_pids@,
        }
    }
}

impl Forest {
    /// The recorded children of `pid`, empty if it has no entry in the index.
    pub open spec fn kids(self, pid: Pid) -> Seq<Pid> {
        if self.children.contains_key(pid) {
            self.children[pid]
        } else {
            Seq::empty()
        }
    }

    /// `rank` strictly decreases from every pid to each of its children.
    pub open spec fn ranked_by(self, rank: spec_fn(Pid) -> nat) -> bool {
        forall|p: Pid, i: int|
            0 <= i < self.kids(p).len() ==> rank(#[trigger] self.kids(p)[i]) < rank(p)
    }

    /// No pid is its own descendant.
    pub open spec fn is_acyclic(self) -> bool {
        exists|rank: spec_fn(Pid) -> nat| self.ranked_by(rank)
    }

    /// Some height function of the forest; any one witnesses acyclicity.
    pub open spec fn height(self) -> spec_fn(Pid) -> nat {
        choose|rank: spec_fn(Pid) -> nat| self.ranked_by(rank)
    }

    /// Every record is stored under its own pid.
    pub open spec fn keyed_by_pid(self) -> bool {
        forall|p: Pid| #[trigger] self.records.contains_key(p) ==> self.records[p].pid == p
    }

    /// What callers owe: finitely many consistently keyed records under an acyclic
    /// child index.
    pub open spec fn is_forest(self) -> bool {
        self.records.dom().finite() && self.keyed_by_pid() && self.is_acyclic()
    }

    /// Whether `pid` is part of the filtered forest: it matches, or one of its
    /// recorded children is part of it.
    pub open spec fn shown(self, kept: Set<Pid>, pid: Pid) -> bool
        decreases (self.height())(pid),
    {
        kept.contains(pid) || exists|i: int|
            0 <= i < self.kids(pid).len() && (self.height())(#[trigger] self.kids(pid)[i]) < (
            self.height())(pid) && self.records.contains_key(self.kids(pid)[i]) && self.shown(
                kept,
                self.kids(pid)[i],
            )
    }
}

} // verus!

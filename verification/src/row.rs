//! Display rows: what one line of the process table shows.

use crate::harvest::{Pid, ProcessHarvest, ProcessState};
use vstd::prelude::*;

verus! {

/// Memory use of a row, either as a share of total memory (thousandths of a
/// percent) or as a byte count.
#[derive(Clone, Copy, Debug, PartialEq, Eq)]
pub enum MemUsage {
    Percent(u64),
    Bytes(u64),
}

impl MemUsage {
    /// The number carried by either variant.
    pub open spec fn amount(self) -> u64 {
        match self {
            MemUsage::Percent(v) => v,
            MemUsage::Bytes(v) => v,
        }
    }

    /// The same unit with another number.
    pub open spec fn with_amount(self, v: u64) -> MemUsage {
        match self {
            MemUsage::Percent(_) => MemUsage::Percent(v),
            MemUsage::Bytes(_) => MemUsage::Bytes(v),
        }
    }
}

/// One line of the process table.
#[derive(Clone, Debug)]
pub struct ProcWidgetData {
    pub pid: Pid,
    pub ppid: Option<Pid>,
    /// The display label: process name or full command line.
    pub id: String,
    /// Tree decoration drawn in front of the label.
    pub prefix: Option<String>,
    pub cpu_usage: u64,
    pub mem_usage: MemUsage,
    pub rps: u64,
    pub wps: u64,
    pub total_read: u64,
    pub total_write: u64,
    pub user: String,
    pub process_state: ProcessState,
    /// How many processes the row stands for.
    pub num_similar: u64,
    /// The row is shown for context only; it does not match the search itself.
    pub disabled: bool,
}

/// The mathematical content of a [`ProcWidgetData`].
pub struct Row {
    pub pid: Pid,
    pub ppid: Option<Pid>,
    pub id: Seq<char>,
    pub prefix: Option<Seq<char>>,
    pub cpu_usage: u64,
    pub mem_usage: MemUsage,
    pub rps: u64,
    pub wps: u64,
    pub total_read: u64,
    pub total_write: u64,
    pub user: Seq<char>,
    pub process_state: ProcessState,
    pub num_similar: u64,
    pub disabled: bool,
}

impl View for ProcWidgetData {
    type V = Row;

    open spec fn view(&self) -> Row {
        Row {
            pid: self.pid,
            ppid: self.ppid,
            id: self.id@,
            prefix: match self.prefix {
                Some(p) => Some(p@),
                None => None,
            },
            cpu_usage: self.cpu_usage,
            mem_usage: self.mem_usage,
            rps: self.rps,
            wps: self.wps,
            total_read: self.total_read,
            total_write: self.total_write,
            user: self.user@,
            process_state: self.process_state,
            num_similar: self.num_similar,
            disabled: self.disabled,
        }
    }
}

/// The rows of a table, each by its content.
pub open spec fn rows_of(table: Seq<ProcWidgetData>) -> Seq<Row> {
    table.map_values(|r: ProcWidgetData| r@)
}

/// Unbounded sums of the additive columns over some set of processes.
pub struct Totals {
    pub count: int,
    pub cpu: int,
    pub mem: int,
    pub rps: int,
    pub wps: int,
    pub total_read: int,
    pub total_write: int,
}

/// `x` as a `u64`, pinned to `u64::MAX` when it does not fit.
pub open spec fn capped(x: int) -> u64 {
    if x > u64::MAX {
        u64::MAX
    } else if x < 0 {
        0
    } else {
        x as u64
    }
}

impl Totals {
    pub open spec fn zero() -> Totals {
        Totals { count: 0, cpu: 0, mem: 0, rps: 0, wps: 0, total_read: 0, total_write: 0 }
    }

    pub open spec fn plus(self, other: Totals) -> Totals {
        Totals {
            count: self.count + other.count,
            cpu: self.cpu + other.cpu,
            mem: self.mem + other.mem,
            rps: self.rps + other.rps,
            wps: self.wps + other.wps,
            total_read: self.total_read + other.total_read,
            total_write: self.total_write + other.total_write,
        }
    }

    /// No component is negative and at least `n` processes are counted.
    pub open spec fn covers(self, n: int) -> bool {
        &&& self.count >= n
        &&& self.cpu >= 0
        &&& self.mem >= 0
        &&& self.rps >= 0
        &&& self.wps >= 0
        &&& self.total_read >= 0
        &&& self.total_write >= 0
    }
}

impl Row {
    /// The row that shows `process` by itself.
    pub open spec fn of(process: ProcessHarvest, is_command: bool, is_mem_percent: bool) -> Row {
        Row {
            pid: process.pid,
            ppid: process.parent_pid,
            id: if is_command {
                process.command@
            } else {
                process.name@
            },
            prefix: None,
            cpu_usage: process.cpu_millipercent,
            mem_usage: if is_mem_percent {
                MemUsage::Percent(process.mem_millipercent)
            } else {
                MemUsage::Bytes(process.mem_usage_bytes)
            },
            rps: process.read_bytes_per_sec,
            wps: process.write_bytes_per_sec,
            total_read: process.total_read_bytes,
            total_write: process.total_write_bytes,
            user: process.user@,
            process_state: process.process_state,
            num_similar: 1,
            disabled: false,
        }
    }

    /// The additive columns of this row, counted as one process.
    pub open spec fn totals(self) -> Totals {
        Totals {
            count: 1,
            cpu: self.cpu_usage as int,
            mem: self.mem_usage.amount() as int,
            rps: self.rps as int,
            wps: self.wps as int,
            total_read: self.total_read as int,
            total_write: self.total_write as int,
        }
    }

    /// This row with its additive columns replaced by `t`, each pinned to `u64::MAX`
    /// where the sum no longer fits.
    pub open spec fn with_totals(self, t: Totals) -> Row {
        Row {
            cpu_usage: capped(t.cpu),
            mem_usage: self.mem_usage.with_amount(capped(t.mem)),
            rps: capped(t.rps),
            wps: capped(t.wps),
            total_read: capped(t.total_read),
            total_write: capped(t.total_write),
            ..self
        }
    }

    /// This row after absorbing `other`: additive columns are summed, saturating at
    /// `u64::MAX`; everything else stays.
    pub open spec fn plus(self, other: Row) -> Row {
        self.with_totals(self.totals().plus(other.totals()))
    }

    pub open spec fn with_prefix(self, prefix: Option<Seq<char>>) -> Row {
        Row { prefix, ..self }
    }

    pub open spec fn with_disabled(self, disabled: bool) -> Row {
        Row { disabled, ..self }
    }

    pub open spec fn with_num_similar(self, num_similar: u64) -> Row {
        Row { num_similar, ..self }
    }
}

/// Absorbing rows one by one gives the saturated overall sum: pinning an
/// intermediate sum to `u64::MAX` does not change where the final one is pinned.
pub proof fn lemma_plus_accumulates(base: Row, t: Totals, other: Row)
    requires
        t.covers(0),
    ensures
        base.with_totals(t).plus(other) == base.with_totals(t.plus(other.totals())),
        t.plus(other.totals()).covers(0),
        t.plus(other.totals()).count == t.count + 1,
{
}

/// A row is its own sum.
pub proof fn lemma_with_own_totals(row: Row)
    ensures
        row.with_totals(row.totals()) == row,
        row.totals().covers(1),
{
}

impl ProcWidgetData {
    /// The row that shows `process` by itself: labelled with its command line if
    /// `is_command`, else its name; memory as a percentage if `is_mem_percent`, else
    /// in bytes.
    pub fn from_data(process: &ProcessHarvest, is_command: bool, is_mem_percent: bool) -> (row:
        Self)
        ensures
            row@ == Row::of(*process, is_command, is_mem_percent),
    {
        ProcWidgetData {
            pid: process.pid,
            ppid: process.parent_pid,
            id: if is_command {
                process.command.clone()
            } else {
                process.name.clone()
            },
            prefix: None,
            cpu_usage: process.cpu_millipercent,
            mem_usage: if is_mem_percent {
                MemUsage::Percent(process.mem_millipercent)
            } else {
                MemUsage::Bytes(process.mem_usage_bytes)
            },
            rps: process.read_bytes_per_sec,
            wps: process.write_bytes_per_sec,
            total_read: process.total_read_bytes,
            total_write: process.total_write_bytes,
            user: process.user.clone(),
            process_state: process.process_state,
            num_similar: 1,
            disabled: false,
        }
    }

    /// Sets how many processes the row stands for.
    pub fn num_similar(self, num_similar: u64) -> (row: Self)
        ensures
            row@ == self@.with_num_similar(num_similar),
    {
        let mut row = self;
        row.num_similar = num_similar;
        row
    }

    /// Marks the row as shown for context only, or not.
    pub fn disabled(self, disabled: bool) -> (row: Self)
        ensures
            row@ == self@.with_disabled(disabled),
    {
        let mut row = self;
        row.disabled = disabled;
        row
    }

    /// Sets the tree decoration.
    pub fn prefix(self, prefix: Option<String>) -> (row: Self)
        ensures
            row@ == self@.with_prefix(
                match prefix {
                    Some(p) => Some(p@),
                    None => None,
                },
            ),
    {
        let mut row = self;
        row.prefix = prefix;
        row
    }

    /// Absorbs `other` into this row: CPU, memory, I/O rates and I/O totals are
    /// summed, each saturating at `u64::MAX`. Label, pid, memory unit and the rest
    /// stay.
    pub fn add(&mut self, other: &Self)
        ensures
            final(self)@ == old(self)@.plus(other@),
    {
        let other_mem = match other.mem_usage {
            MemUsage::Percent(v) => v,
            MemUsage::Bytes(v) => v,
        };
        self.cpu_usage = self.cpu_usage.saturating_add(other.cpu_usage);
        self.mem_usage =
        match self.mem_usage {
            MemUsage::Percent(v) => MemUsage::Percent(v.saturating_add(other_mem)),
            MemUsage::Bytes(v) => MemUsage::Bytes(v.saturating_add(other_mem)),
        };
        self.rps = self.rps.saturating_add(other.rps);
        self.wps = self.wps.saturating_add(other.wps);
        self.total_read = self.total_read.saturating_add(other.total_read);
        self.total_write = self.total_write.saturating_add(other.total_write);
    }
}

/// The rows of a table follow the table through `push`.
pub proof fn lemma_rows_of_push(table: Seq<ProcWidgetData>, x: ProcWidgetData)
    ensures
        rows_of(table.push(x)) == rows_of(table).push(x@),
{
    assert(rows_of(table.push(x)) =~= rows_of(table).push(x@));
}

/// The rows of a table follow the table through concatenation.
pub proof fn lemma_rows_of_concat(a: Seq<ProcWidgetData>, b: Seq<ProcWidgetData>)
    ensures
        rows_of(a + b) == rows_of(a) + rows_of(b),
{
    assert(rows_of(a + b) =~= rows_of(a) + rows_of(b));
}

} // verus!

//! The columns of the process table and the order each one puts rows in.

use crate::row::{MemUsage, ProcWidgetData, Row};
use std::str::Chars;
use vstd::prelude::*;
use vstd::std_specs::iter::IteratorSpec;

verus! {

/// A column of the process table.
#[derive(Clone, Copy, Debug, PartialEq, Eq)]
pub enum ProcColumn {
    CpuPercent,
    MemoryVal,
    MemoryPercent,
    Pid,
    Count,
    Name,
    Command,
    ReadPerSecond,
    WritePerSecond,
    TotalRead,
    TotalWrite,
    State,
    User,
}

/// The direction of a sort.
#[derive(Clone, Copy, Debug, PartialEq, Eq)]
pub enum SortOrder {
    Ascending,
    Descending,
}

impl SortOrder {
    /// The opposite direction.
    pub open spec fn spec_flipped(self) -> SortOrder {
        match self {
            SortOrder::Ascending => SortOrder::Descending,
            SortOrder::Descending => SortOrder::Ascending,
        }
    }

    /// The opposite direction.
    #[verifier::when_used_as_spec(spec_flipped)]
    pub fn flipped(self) -> (r: SortOrder)
        ensures
            r == self.spec_flipped(),
    {
        match self {
            SortOrder::Ascending => SortOrder::Descending,
            SortOrder::Descending => SortOrder::Ascending,
        }
    }
}

/// Lexicographic order on text, character by character by code point; a proper
/// prefix comes first.
pub open spec fn text_less(a: Seq<char>, b: Seq<char>) -> bool
    decreases a.len(),
{
    if b.len() == 0 {
        false
    } else if a.len() == 0 {
        true
    } else if a[0] as u32 != b[0] as u32 {
        (a[0] as u32) < (b[0] as u32)
    } else {
        text_less(a.drop_first(), b.drop_first())
    }
}

/// Whether `a` sorts strictly before `b` as text.
pub fn text_precedes(a: &str, b: &str) -> (less: bool)
    ensures
        less == text_less(a@, b@),
{
    let mut left: Chars<'_> = a.chars();
    let mut right: Chars<'_> = b.chars();
    loop
        invariant
            left.obeys_prophetic_iter_laws(),
            right.obeys_prophetic_iter_laws(),
            text_less(a@, b@) == text_less(left.remaining(), right.remaining()),
            left.decrease() is Some,
        decreases left.decrease()->0,
    {
        let y = right.next();
        let x = left.next();
        match (x, y) {
            (_, None) => {
                return false;
            },
            (None, Some(_)) => {
                return true;
            },
            (Some(c), Some(d)) => {
                if c as u32 != d as u32 {
                    return (c as u32) < (d as u32);
                }
            },
        }
    }
}

/// Memory amounts order by unit first (percentages before byte counts), then by
/// number.
pub open spec fn mem_less(a: MemUsage, b: MemUsage) -> bool {
    match (a, b) {
        (MemUsage::Percent(x), MemUsage::Percent(y)) => x < y,
        (MemUsage::Bytes(x), MemUsage::Bytes(y)) => x < y,
        (MemUsage::Percent(_), MemUsage::Bytes(_)) => true,
        (MemUsage::Bytes(_), MemUsage::Percent(_)) => false,
    }
}

impl ProcColumn {
    /// Whether `a` comes strictly before `b` when this column sorts ascending.
    pub open spec fn less(self, a: Row, b: Row) -> bool {
        match self {
            ProcColumn::CpuPercent => a.cpu_usage < b.cpu_usage,
            ProcColumn::MemoryVal | ProcColumn::MemoryPercent => mem_less(a.mem_usage, b.mem_usage),
            ProcColumn::Pid => a.pid < b.pid,
            ProcColumn::Count => a.num_similar < b.num_similar,
            ProcColumn::Name | ProcColumn::Command => text_less(a.id, b.id),
            ProcColumn::ReadPerSecond => a.rps < b.rps,
            ProcColumn::WritePerSecond => a.wps < b.wps,
            ProcColumn::TotalRead => a.total_read < b.total_read,
            ProcColumn::TotalWrite => a.total_write < b.total_write,
            ProcColumn::State => a.process_state.rank() < b.process_state.rank(),
            ProcColumn::User => text_less(a.user, b.user),
        }
    }

    /// Whether `a` must come strictly before `b` when this column sorts in `order`.
    pub open spec fn before(self, order: SortOrder, a: Row, b: Row) -> bool {
        match order {
            SortOrder::Ascending => self.less(a, b),
            SortOrder::Descending => self.less(b, a),
        }
    }

    /// Whether `a` must come strictly before `b` when this column sorts in `order`.
    pub fn precedes(self, order: SortOrder, a: &ProcWidgetData, b: &ProcWidgetData) -> (r: bool)
        ensures
            r == self.before(order, a@, b@),
    {
        let (x, y) = match order {
            SortOrder::Ascending => (a, b),
            SortOrder::Descending => (b, a),
        };
        match self {
            ProcColumn::CpuPercent => x.cpu_usage < y.cpu_usage,
            ProcColumn::MemoryVal | ProcColumn::MemoryPercent => match (x.mem_usage, y.mem_usage) {
                (MemUsage::Percent(p), MemUsage::Percent(q)) => p < q,
                (MemUsage::Bytes(p), MemUsage::Bytes(q)) => p < q,
                (MemUsage::Percent(_), MemUsage::Bytes(_)) => true,
                (MemUsage::Bytes(_), MemUsage::Percent(_)) => false,
            },
            ProcColumn::Pid => x.pid < y.pid,
            ProcColumn::Count => x.num_similar < y.num_similar,
            ProcColumn::Name | ProcColumn::Command => text_precedes(x.id.as_str(), y.id.as_str()),
            ProcColumn::ReadPerSecond => x.rps < y.rps,
            ProcColumn::WritePerSecond => x.wps < y.wps,
            ProcColumn::TotalRead => x.total_read < y.total_read,
            ProcColumn::TotalWrite => x.total_write < y.total_write,
            ProcColumn::State => x.process_state.rank() < y.process_state.rank(),
            ProcColumn::User => text_precedes(x.user.as_str(), y.user.as_str()),
        }
    }
}

} // verus!

verus! {

impl ProcColumn {
    /// The header of the column.
    pub open spec fn spec_text(self) -> Seq<char> {
        match self {
            ProcColumn::CpuPercent => "CPU%"@,
            ProcColumn::MemoryVal => "Mem"@,
            ProcColumn::MemoryPercent => "Mem%"@,
            ProcColumn::Pid => "PID"@,
            ProcColumn::Count => "Count"@,
            ProcColumn::Name => "Name"@,
            ProcColumn::Command => "Command"@,
            ProcColumn::ReadPerSecond => "R/s"@,
            ProcColumn::WritePerSecond => "W/s"@,
            ProcColumn::TotalRead => "T.Read"@,
            ProcColumn::TotalWrite => "T.Write"@,
            ProcColumn::State => "State"@,
            ProcColumn::User => "User"@,
        }
    }

    /// The header of the column.
    pub fn text(self) -> (header: &'static str)
        ensures
            header@ == self.spec_text(),
    {
        match self {
            ProcColumn::CpuPercent => "CPU%",
            ProcColumn::MemoryVal => "Mem",
            ProcColumn::MemoryPercent => "Mem%",
            ProcColumn::Pid => "PID",
            ProcColumn::Count => "Count",
            ProcColumn::Name => "Name",
            ProcColumn::Command => "Command",
            ProcColumn::ReadPerSecond => "R/s",
            ProcColumn::WritePerSecond => "W/s",
            ProcColumn::TotalRead => "T.Read",
            ProcColumn::TotalWrite => "T.Write",
            ProcColumn::State => "State",
            ProcColumn::User => "User",
        }
    }
}

} // verus!

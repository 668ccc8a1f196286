//! The state of a sortable table: its columns, the column it is sorted by, and
//! where the cursor stands.

use crate::column::{ProcColumn, SortOrder};
use crate::sort::RowStyle;
use vstd::prelude::*;

verus! {

/// How wide a column may get.
#[derive(Clone, Copy, Debug, PartialEq, Eq)]
pub enum ColumnWidthBounds {
    /// As wide as its content asks for, up to a share of the table in percent.
    Soft { max_percentage: Option<u8> },
    /// Exactly this many cells.
    Hard(u16),
}

/// A column the table can be sorted by.
#[derive(Clone, Copy, Debug)]
pub struct SortColumn {
    /// What the column shows.
    pub inner: ProcColumn,
    /// How wide it may get.
    pub bounds: ColumnWidthBounds,
    /// Whether the column is left out of the table.
    pub is_hidden: bool,
    /// The direction the table sorts in when this column is picked.
    pub default_order: SortOrder,
}

/// The width of a column that has no width of its own.
pub const HEADER_WIDTH: u16 = 7;

impl SortColumn {
    /// A shown column of the common fixed width that sorts ascending by default.
    pub fn new(inner: ProcColumn) -> (column: Self)
        ensures
            column == (SortColumn {
                inner,
                bounds: ColumnWidthBounds::Hard(HEADER_WIDTH),
                is_hidden: false,
                default_order: SortOrder::Ascending,
            }),
    {
        SortColumn {
            inner,
            bounds: ColumnWidthBounds::Hard(HEADER_WIDTH),
            is_hidden: false,
            default_order: SortOrder::Ascending,
        }
    }

    /// A shown column of exactly `width` cells that sorts ascending by default.
    pub fn hard(inner: ProcColumn, width: u16) -> (column: Self)
        ensures
            column == (SortColumn {
                inner,
                bounds: ColumnWidthBounds::Hard(width),
                is_hidden: false,
                default_order: SortOrder::Ascending,
            }),
    {
        SortColumn {
            inner,
            bounds: ColumnWidthBounds::Hard(width),
            is_hidden: false,
            default_order: SortOrder::Ascending,
        }
    }

    /// A shown column that grows with its content, up to `max_percentage` percent of
    /// the table, and sorts ascending by default.
    pub fn soft(inner: ProcColumn, max_percentage: Option<u8>) -> (column: Self)
        ensures
            column == (SortColumn {
                inner,
                bounds: ColumnWidthBounds::Soft { max_percentage },
                is_hidden: false,
                default_order: SortOrder::Ascending,
            }),
    {
        SortColumn {
            inner,
            bounds: ColumnWidthBounds::Soft { max_percentage },
            is_hidden: false,
            default_order: SortOrder::Ascending,
        }
    }

    /// The same column, hidden or shown.
    pub fn hidden(self, is_hidden: bool) -> (column: Self)
        ensures
            column == (SortColumn { is_hidden, ..self }),
    {
        SortColumn { is_hidden, ..self }
    }

    /// The same column, sorting descending by default.
    pub fn default_descending(self) -> (column: Self)
        ensures
            column == (SortColumn { default_order: SortOrder::Descending, ..self }),
    {
        SortColumn { default_order: SortOrder::Descending, ..self }
    }
}

/// How a table is drawn. The table logic only carries these along.
#[derive(Clone, Debug)]
pub struct DataTableProps {
    pub title: Option<String>,
    pub table_gap: u16,
    pub left_to_right: bool,
    pub is_basic: bool,
    pub show_table_scroll_position: bool,
    pub show_current_entry_when_unfocused: bool,
}

/// Where the view and the cursor of a table stand.
#[derive(Clone, Copy, Debug)]
pub struct DataTableState {
    /// The first row on screen.
    pub display_start_index: usize,
    /// The row under the cursor.
    pub current_index: usize,
}

/// The process table: sortable columns plus view state.
pub struct ProcessTable {
    pub columns: Vec<SortColumn>,
    pub state: DataTableState,
    pub props: DataTableProps,
    /// The index of the column the table is sorted by.
    pub sort_index: usize,
    /// The direction the table is sorted in.
    pub order: SortOrder,
}

impl ProcessTable {
    /// The column the table is sorted by, if the sort index names one.
    pub open spec fn sort_column(&self) -> Option<ProcColumn> {
        if self.sort_index < self.columns@.len() {
            Some(self.columns@[self.sort_index as int].inner)
        } else {
            None
        }
    }

    /// A table over `columns`, sorted by column `sort_index` in `order`, with view
    /// and cursor at the top.
    pub fn new_sortable(
        columns: Vec<SortColumn>,
        props: DataTableProps,
        sort_index: usize,
        order: SortOrder,
    ) -> (table: Self)
        ensures
            table.columns == columns,
            table.props == props,
            table.state.display_start_index == 0,
            table.state.current_index == 0,
            table.sort_index == sort_index,
            table.order == order,
    {
        ProcessTable {
            columns,
            state: DataTableState { display_start_index: 0, current_index: 0 },
            props,
            sort_index,
            order,
        }
    }

    /// The index of the column the table is sorted by.
    pub fn sort_index(&self) -> (index: usize)
        ensures
            index == self.sort_index,
    {
        self.sort_index
    }

    /// The direction the table is sorted in.
    pub fn order(&self) -> (order: SortOrder)
        ensures
            order == self.order,
    {
        self.order
    }

    /// Sorts by column `index` from now on. Picking another column takes over that
    /// column's default direction; picking the current column again, or an index
    /// beyond the columns, changes nothing.
    pub fn set_sort_index(&mut self, index: usize)
        ensures
            final(self).columns == old(self).columns,
            final(self).state == old(self).state,
            final(self).props == old(self).props,
            final(self).sort_index == (if index < old(self).columns@.len() {
                index
            } else {
                old(self).sort_index
            }),
            final(self).order == (if index < old(self).columns@.len() && index != old(self).sort_index {
                old(self).columns@[index as int].default_order
            } else {
                old(self).order
            }),
    {
        if index < self.columns.len() && index != self.sort_index {
            self.sort_index = index;
            self.order = self.columns[index].default_order;
        }
    }

    /// Sorts in `order` from now on.
    pub fn set_order(&mut self, order: SortOrder)
        ensures
            final(self).columns == old(self).columns,
            final(self).state == old(self).state,
            final(self).props == old(self).props,
            final(self).sort_index == old(self).sort_index,
            final(self).order == order,
    {
        self.order = order;
    }

    /// Sorts in the opposite direction from now on.
    pub fn toggle_order(&mut self)
        ensures
            final(self).columns == old(self).columns,
            final(self).state == old(self).state,
            final(self).props == old(self).props,
            final(self).sort_index == old(self).sort_index,
            final(self).order == old(self).order.flipped(),
    {
        self.order = self.order.flipped();
    }

    /// How rows of this table are labelled, measured and arranged.
    pub open spec fn spec_style(&self) -> RowStyle {
        RowStyle {
            is_command: self.columns@.len() > 1 && self.columns@[1].inner == ProcColumn::Command,
            is_mem_percent: self.columns@.len() > 3 && self.columns@[3].inner
                == ProcColumn::MemoryPercent,
            sort_column: self.sort_column(),
            order: self.order,
        }
    }
}

/// The list from which the sort column is picked.
pub struct SortTable {
    pub column: ColumnWidthBounds,
    pub state: DataTableState,
    pub props: DataTableProps,
}

impl SortTable {
    /// The entry under the cursor.
    pub fn current_index(&self) -> (index: usize)
        ensures
            index == self.state.current_index,
    {
        self.state.current_index
    }
}

} // verus!

//! The process widget: which view is shown, what the search box holds, how the
//! table is sorted, and the rows that result from a snapshot.

use crate::column::{ProcColumn, SortOrder};
use crate::fx::{map_keys, set_clone, set_insert, set_remove};
use crate::group::{get_normal_data, grouped_rows, kept_among, labelled_pids};
use crate::harvest::{Forest, Pid, ProcessData};
use crate::row::{rows_of, ProcWidgetData, Row};
use crate::search::{
    on_char_boundary, walk_back, walk_forward, walked_back, walked_forward, ProcessSearchState,
};
use crate::sort::RowStyle;
use crate::table::{
    ColumnWidthBounds, DataTableProps, DataTableState, ProcessTable, SortColumn, SortTable,
    HEADER_WIDTH,
};
use crate::tree::{get_tree_data, Outline};
use crate::labels::{label_pids_new, pids_by_label};
use fxhash::{FxHashMap, FxHashSet};
use vstd::prelude::*;

verus! {

/// Which view the process widget shows.
#[derive(Debug)]
pub enum ProcWidgetMode {
    /// The process tree. The pids in `collapsed_pids` are folded into one row each.
    Tree { collapsed_pids: FxHashSet<Pid> },
    /// One row per group of processes with the same label.
    Grouped,
    /// One row per process.
    Normal,
}

impl ProcWidgetMode {
    /// The pids folded into one row each; none outside the tree view.
    pub open spec fn collapsed(&self) -> Set<Pid> {
        match self {
            ProcWidgetMode::Tree { collapsed_pids } => collapsed_pids@,
            _ => Set::empty(),
        }
    }
}

impl Clone for ProcWidgetMode {
    fn clone(&self) -> (copy: Self)
        ensures
            copy is Tree == self is Tree,
            copy is Grouped == self is Grouped,
            copy is Normal == self is Normal,
            copy.collapsed() == self.collapsed(),
    {
        match self {
            ProcWidgetMode::Tree { collapsed_pids } => ProcWidgetMode::Tree {
                collapsed_pids: set_clone(collapsed_pids),
            },
            ProcWidgetMode::Grouped => ProcWidgetMode::Grouped,
            ProcWidgetMode::Normal => ProcWidgetMode::Normal,
        }
    }
}

/// The settings of the application that the process widget reads.
#[derive(Clone, Copy, Debug)]
pub struct AppConfigFields {
    pub table_gap: u16,
    pub use_basic_mode: bool,
    pub show_table_scroll_position: bool,
}

/// The index of the column that shows the pid, or the group size when grouped.
pub const PID_OR_COUNT: usize = 0;

/// The index of the column that shows the name or the command line.
pub const PROC_NAME_OR_CMD: usize = 1;

/// The index of the CPU column.
pub const CPU: usize = 2;

/// The index of the memory column.
pub const MEM: usize = 3;

/// The index of the read rate column.
pub const RPS: usize = 4;

/// The index of the write rate column.
pub const WPS: usize = 5;

/// The index of the total read column.
pub const T_READ: usize = 6;

/// The index of the total write column.
pub const T_WRITE: usize = 7;

/// The index of the user column.
pub const USER: usize = 8;

/// The index of the state column.
pub const STATE: usize = 9;

/// The share of the table, in percent, that the label column may take in the flat
/// views.
pub const NARROW_LABEL: u8 = 30;

/// The share of the table, in percent, that the label column may take when it
/// shows command lines or a tree.
pub const WIDE_LABEL: u8 = 50;

/// The share of the table, in percent, that the user column may take.
pub const USER_SHARE: u8 = 5;

/// The width of the I/O columns.
pub const IO_WIDTH: u16 = 8;

/// The process widget. `Q` is the parsed form of a search query.
pub struct ProcWidget<Q> {
    pub mode: ProcWidgetMode,
    /// The state of the search box.
    pub proc_search: ProcessSearchState<Q>,
    /// The state of the main table.
    pub table: ProcessTable,
    /// The rows of the main table, as of the last refresh.
    pub table_data: Vec<ProcWidgetData>,
    /// The state of the list from which the sort column is picked.
    pub sort_table: SortTable,
    /// In the grouped view, the pids behind each label.
    pub id_pid_map: FxHashMap<String, Vec<Pid>>,
    pub is_sort_open: bool,
    /// The table has to be laid out anew.
    pub force_rerender: bool,
    /// The rows have to be computed anew.
    pub force_update_data: bool,
}

/// `columns` with column `index` hidden or shown; unchanged if there is no such
/// column.
pub open spec fn with_hidden(columns: Seq<SortColumn>, index: int, hidden: bool) -> Seq<
    SortColumn,
> {
    if 0 <= index < columns.len() {
        columns.update(index, SortColumn { is_hidden: hidden, ..columns[index] })
    } else {
        columns
    }
}

/// The headers of the columns that are not hidden, in order.
pub open spec fn shown_headers(columns: Seq<SortColumn>) -> Seq<Seq<char>>
    decreases columns.len(),
{
    if columns.len() == 0 {
        Seq::empty()
    } else if columns.last().is_hidden {
        shown_headers(columns.drop_last())
    } else {
        shown_headers(columns.drop_last()).push(columns.last().inner.spec_text())
    }
}

/// The columns of the plain view, all shown.
pub open spec fn plain_columns(is_command: bool, show_memory_as_values: bool) -> Seq<SortColumn> {
    let descending = SortOrder::Descending;
    let ascending = SortOrder::Ascending;
    seq![
        SortColumn {
            inner: ProcColumn::Pid,
            bounds: ColumnWidthBounds::Hard(HEADER_WIDTH),
            is_hidden: false,
            default_order: ascending,
        },
        SortColumn {
            inner: if is_command {
                ProcColumn::Command
            } else {
                ProcColumn::Name
            },
            bounds: ColumnWidthBounds::Soft { max_percentage: Some(NARROW_LABEL) },
            is_hidden: false,
            default_order: ascending,
        },
        SortColumn {
            inner: ProcColumn::CpuPercent,
            bounds: ColumnWidthBounds::Hard(HEADER_WIDTH),
            is_hidden: false,
            default_order: descending,
        },
        SortColumn {
            inner: if show_memory_as_values {
                ProcColumn::MemoryVal
            } else {
                ProcColumn::MemoryPercent
            },
            bounds: ColumnWidthBounds::Hard(HEADER_WIDTH),
            is_hidden: false,
            default_order: descending,
        },
        SortColumn {
            inner: ProcColumn::ReadPerSecond,
            bounds: ColumnWidthBounds::Hard(IO_WIDTH),
            is_hidden: false,
            default_order: descending,
        },
        SortColumn {
            inner: ProcColumn::WritePerSecond,
            bounds: ColumnWidthBounds::Hard(IO_WIDTH),
            is_hidden: false,
            default_order: descending,
        },
        SortColumn {
            inner: ProcColumn::TotalRead,
            bounds: ColumnWidthBounds::Hard(IO_WIDTH),
            is_hidden: false,
            default_order: descending,
        },
        SortColumn {
            inner: ProcColumn::TotalWrite,
            bounds: ColumnWidthBounds::Hard(IO_WIDTH),
            is_hidden: false,
            default_order: descending,
        },
        SortColumn {
            inner: ProcColumn::User,
            bounds: ColumnWidthBounds::Soft { max_percentage: Some(USER_SHARE) },
            is_hidden: false,
            default_order: ascending,
        },
        SortColumn {
            inner: ProcColumn::State,
            bounds: ColumnWidthBounds::Hard(HEADER_WIDTH),
            is_hidden: false,
            default_order: ascending,
        },
    ]
}

/// The columns of a fresh process table: those of the plain view, or, if the
/// first column counts the processes of a group, those that a switch from the
/// plain to the grouped view leaves. In the grouped view the count column sorts
/// descending by default and the user and state columns are hidden.
pub open spec fn fresh_columns(is_count: bool, is_command: bool, show_memory_as_values: bool) -> Seq<
    SortColumn,
> {
    if is_count {
        tabbed_columns(plain_columns(is_command, show_memory_as_values))
    } else {
        plain_columns(is_command, show_memory_as_values)
    }
}

/// The rows of the flat views for a given walk through the records: the plain rows
/// of the kept pids, folded by label if `grouped`, then sorted.
pub open spec fn flat_rows(
    forest: Forest,
    kept: Set<Pid>,
    walk: Seq<Pid>,
    grouped: bool,
    style: RowStyle,
) -> Seq<Row> {
    style.arranged(
        if grouped {
            grouped_rows(forest.base_rows(style, kept_among(kept, walk)))
        } else {
            forest.base_rows(style, kept_among(kept, walk))
        },
    )
}

/// The pids behind each label in the grouped view for a given walk through the
/// records; nothing in the plain view.
pub open spec fn flat_index(
    forest: Forest,
    kept: Set<Pid>,
    walk: Seq<Pid>,
    grouped: bool,
    style: RowStyle,
) -> Map<Seq<char>, Seq<Pid>> {
    if grouped {
        labelled_pids(forest.base_rows(style, kept_among(kept, walk)))
    } else {
        Map::empty()
    }
}

/// `props` are the drawing settings of the main table under `config`.
pub open spec fn is_process_props(props: DataTableProps, config: AppConfigFields) -> bool {
    &&& props.title matches Some(title) && title@ == " Processes "@
    &&& props.table_gap == config.table_gap
    &&& props.left_to_right
    &&& props.is_basic == config.use_basic_mode
    &&& props.show_table_scroll_position == config.show_table_scroll_position
    &&& !props.show_current_entry_when_unfocused
}

/// The state of the list from which the sort column is picked.
pub fn new_sort_table(config: &AppConfigFields) -> (table: SortTable)
    ensures
        table.column == ColumnWidthBounds::Hard(HEADER_WIDTH),
        table.state.current_index == 0,
        table.state.display_start_index == 0,
        table.props.title is None,
        table.props.table_gap == config.table_gap,
        table.props.left_to_right,
        !table.props.is_basic,
        !table.props.show_table_scroll_position,
        !table.props.show_current_entry_when_unfocused,
{
    SortTable {
        column: ColumnWidthBounds::Hard(HEADER_WIDTH),
        state: DataTableState { display_start_index: 0, current_index: 0 },
        props: DataTableProps {
            title: None,
            table_gap: config.table_gap,
            left_to_right: true,
            is_basic: false,
            show_table_scroll_position: false,
            show_current_entry_when_unfocused: false,
        },
    }
}

/// The main table in its initial state: sorted by pid ascending in the tree view
/// and by CPU descending in the flat views. With `is_count` the first column
/// counts the processes of a group and sorts descending by default, and the user
/// and state columns are hidden; else the first column shows the pid and all ten
/// columns are shown.
pub fn new_process_table(
    config: &AppConfigFields,
    mode: &ProcWidgetMode,
    is_count: bool,
    is_command: bool,
    show_memory_as_values: bool,
) -> (table: ProcessTable)
    ensures
        table.columns@ == fresh_columns(is_count, is_command, show_memory_as_values),
        table.sort_index == (if mode is Tree {
            PID_OR_COUNT
        } else {
            CPU
        }),
        table.order == (if mode is Tree {
            SortOrder::Ascending
        } else {
            SortOrder::Descending
        }),
        table.state.current_index == 0,
        table.state.display_start_index == 0,
        is_process_props(table.props, *config),
{
    let (default_index, default_order) = match mode {
        ProcWidgetMode::Tree { .. } => (PID_OR_COUNT, SortOrder::Ascending),
        _ => (CPU, SortOrder::Descending),
    };
    let mut columns: Vec<SortColumn> = Vec::new();
    columns.push(
        if is_count {
            SortColumn::new(ProcColumn::Count).default_descending()
        } else {
            SortColumn::new(ProcColumn::Pid)
        },
    );
    columns.push(
        SortColumn::soft(
            if is_command {
                ProcColumn::Command
            } else {
                ProcColumn::Name
            },
            Some(NARROW_LABEL),
        ),
    );
    columns.push(SortColumn::new(ProcColumn::CpuPercent).default_descending());
    columns.push(
        SortColumn::new(
            if show_memory_as_values {
                ProcColumn::MemoryVal
            } else {
                ProcColumn::MemoryPercent
            },
        ).default_descending(),
    );
    columns.push(SortColumn::hard(ProcColumn::ReadPerSecond, IO_WIDTH).default_descending());
    columns.push(SortColumn::hard(ProcColumn::WritePerSecond, IO_WIDTH).default_descending());
    columns.push(SortColumn::hard(ProcColumn::TotalRead, IO_WIDTH).default_descending());
    columns.push(SortColumn::hard(ProcColumn::TotalWrite, IO_WIDTH).default_descending());
    columns.push(SortColumn::soft(ProcColumn::User, Some(USER_SHARE)).hidden(is_count));
    columns.push(SortColumn::hard(ProcColumn::State, HEADER_WIDTH).hidden(is_count));
    assert(columns@ =~= fresh_columns(is_count, is_command, show_memory_as_values));
    let props = DataTableProps {
        title: Some(" Processes ".to_owned()),
        table_gap: config.table_gap,
        left_to_right: true,
        is_basic: config.use_basic_mode,
        show_table_scroll_position: config.show_table_scroll_position,
        show_current_entry_when_unfocused: false,
    };
    ProcessTable::new_sortable(columns, props, default_index, default_order)
}

impl<Q> ProcWidget<Q> {
    /// A process widget in view `mode` with an empty search box and no rows yet. A
    /// widget made in the grouped view has the columns that a switch from the plain
    /// to the grouped view leaves: a count column that sorts descending by default,
    /// and the user and state columns hidden.
    pub fn new(
        config: &AppConfigFields,
        mode: ProcWidgetMode,
        is_case_sensitive: bool,
        is_match_whole_word: bool,
        is_use_regex: bool,
        show_memory_as_values: bool,
        is_command: bool,
    ) -> (widget: Self)
        ensures
            widget.mode == mode,
            widget.proc_search.search_state.is_pristine(),
            !widget.proc_search.search_state.is_enabled,
            widget.proc_search.is_ignoring_case == !is_case_sensitive,
            widget.proc_search.is_searching_whole_word == is_match_whole_word,
            widget.proc_search.is_searching_with_regex == is_use_regex,
            widget.table.columns@ == fresh_columns(mode is Grouped, is_command, show_memory_as_values),
            mode is Grouped ==> {
                &&& widget.table.columns@[PID_OR_COUNT as int].inner == ProcColumn::Count
                &&& widget.table.columns@[PID_OR_COUNT as int].default_order
                    == SortOrder::Descending
                &&& widget.table.columns@[USER as int].is_hidden
                &&& widget.table.columns@[STATE as int].is_hidden
            },
            !(mode is Grouped) ==> {
                &&& widget.table.columns@[PID_OR_COUNT as int].inner == ProcColumn::Pid
                &&& widget.table.columns@[PID_OR_COUNT as int].default_order
                    == SortOrder::Ascending
                &&& forall|i: int| 0 <= i < 10 ==> !(#[trigger] widget.table.columns@[i]).is_hidden
            },
            widget.table.sort_index == (if mode is Tree {
                PID_OR_COUNT
            } else {
                CPU
            }),
            widget.table.order == (if mode is Tree {
                SortOrder::Ascending
            } else {
                SortOrder::Descending
            }),
            widget.table.state.current_index == 0,
            widget.table.state.display_start_index == 0,
            is_process_props(widget.table.props, *config),
            widget.sort_table.column == ColumnWidthBounds::Hard(HEADER_WIDTH),
            widget.sort_table.state.current_index == 0,
            widget.sort_table.state.display_start_index == 0,
            widget.sort_table.props.title is None,
            widget.sort_table.props.table_gap == config.table_gap,
            widget.table_data@.len() == 0,
            pids_by_label(widget.id_pid_map) == (Map::<Seq<char>, Seq<Pid>>::empty()),
            !widget.is_sort_open,
            widget.force_rerender,
            !widget.force_update_data,
    {
        let mut process_search_state = ProcessSearchState::new();
        if is_case_sensitive {
            process_search_state.search_toggle_ignore_case();
        }
        if is_match_whole_word {
            process_search_state.search_toggle_whole_word();
        }
        if is_use_regex {
            process_search_state.search_toggle_regex();
        }
        let is_count = match mode {
            ProcWidgetMode::Grouped => true,
            _ => false,
        };
        let sort_table = new_sort_table(config);
        let table = new_process_table(config, &mode, is_count, is_command, show_memory_as_values);
        ProcWidget {
            proc_search: process_search_state,
            table,
            table_data: Vec::new(),
            sort_table,
            id_pid_map: label_pids_new(),
            is_sort_open: false,
            mode,
            force_rerender: true,
            force_update_data: false,
        }
    }

    /// Whether rows are labelled with the command line.
    pub fn is_using_command(&self) -> (r: bool)
        ensures
            r == self.table.spec_style().is_command,
    {
        if PROC_NAME_OR_CMD < self.table.columns.len() {
            match self.table.columns[PROC_NAME_OR_CMD].inner {
                ProcColumn::Command => true,
                _ => false,
            }
        } else {
            false
        }
    }

    /// Whether memory is shown as a percentage.
    pub fn is_mem_percent(&self) -> (r: bool)
        ensures
            r == self.table.spec_style().is_mem_percent,
    {
        if MEM < self.table.columns.len() {
            match self.table.columns[MEM].inner {
                ProcColumn::MemoryPercent => true,
                _ => false,
            }
        } else {
            false
        }
    }

    /// How the rows of this widget are labelled, measured and arranged.
    pub fn style(&self) -> (style: RowStyle)
        ensures
            style == self.table.spec_style(),
    {
        let index = self.table.sort_index();
        RowStyle {
            is_command: self.is_using_command(),
            is_mem_percent: self.is_mem_percent(),
            sort_column: if index < self.table.columns.len() {
                Some(self.table.columns[index].inner)
            } else {
                None
            },
            order: self.table.order(),
        }
    }

    /// The query that filters the rows: none while the search text is empty, else
    /// the last query that parsed.
    pub fn get_query(&self) -> (query: Option<&Q>)
        ensures
            match query {
                Some(q) => self.proc_search.search_state.active_query() == Some(*q),
                None => self.proc_search.search_state.active_query() is None,
            },
    {
        if self.proc_search.search_state.is_blank_search {
            None
        } else {
            self.proc_search.search_state.query.as_ref()
        }
    }

    /// The pids that stay when `matching` are the pids the active query accepts:
    /// all pids where no query is active.
    pub open spec fn kept(&self, matching: Set<Pid>) -> Set<Pid> {
        if self.proc_search.search_state.active_query() is Some {
            matching
        } else {
            Set::full()
        }
    }

    /// What a refresh makes of the widget `before`: only the rows change, and in the
    /// grouped view the list of pids behind each label.
    ///
    /// In the tree view the rows are those of the process tree. In the flat views
    /// they are the rows of the kept processes, folded by label when grouped, sorted
    /// by the sort column from the order in which the snapshot's record map happens
    /// to be walked.
    pub open spec fn refreshed_from(&self, before: &Self, data: Forest, matching: Set<Pid>) -> bool {
        &&& self.mode == before.mode
        &&& self.proc_search == before.proc_search
        &&& self.table == before.table
        &&& self.sort_table == before.sort_table
        &&& self.is_sort_open == before.is_sort_open
        &&& self.force_rerender == before.force_rerender
        &&& self.force_update_data == before.force_update_data
        &&& match before.mode {
            ProcWidgetMode::Tree { collapsed_pids } => {
                &&& rows_of(self.table_data@) == (Outline {
                    forest: data,
                    kept: before.kept(matching),
                    collapsed: collapsed_pids@,
                    style: before.table.spec_style(),
                }).rows()
                &&& self.id_pid_map == before.id_pid_map
            },
            _ => exists|walk: Seq<Pid>|
                {
                    &&& walk.no_duplicates()
                    &&& walk.to_set() == data.records.dom()
                    &&& rows_of(self.table_data@) == #[trigger] flat_rows(
                        data,
                        before.kept(matching),
                        walk,
                        before.mode is Grouped,
                        before.table.spec_style(),
                    )
                    &&& pids_by_label(self.id_pid_map) == flat_index(
                        data,
                        before.kept(matching),
                        walk,
                        before.mode is Grouped,
                        before.table.spec_style(),
                    )
                },
        }
    }

    /// Computes the rows of the table from a snapshot.
    ///
    /// `matching` holds the pids whose process the active query accepts; it is
    /// ignored where no query is active. In the tree view the rows are those of the
    /// process tree. In the flat views they are the rows of the kept processes,
    /// folded by label when grouped, sorted by the sort column from the order in
    /// which the snapshot's record map happens to be walked; the grouped view also
    /// renews the list of pids behind each label.
    pub fn update_displayed_process_data(&mut self, data: &ProcessData, matching: &FxHashSet<Pid>)
        requires
            old(self).mode is Tree ==> data@.is_forest(),
        ensures
            final(self).refreshed_from(old(self), data@, matching@),
    {
        let style = self.style();
        let kept = if self.get_query().is_some() {
            Some(matching)
        } else {
            None
        };
        match &self.mode {
            ProcWidgetMode::Tree { collapsed_pids } => {
                let rows = get_tree_data(data, kept, collapsed_pids, &style);
                self.table_data = rows;
            },
            ProcWidgetMode::Grouped => {
                let walk = map_keys(&data.process_harvest);
                let (rows, index) = get_normal_data(data, &walk, kept, true, &style);
                self.table_data = rows;
                self.id_pid_map = index;
                assert(rows_of(self.table_data@) == flat_rows(
                    data@,
                    old(self).kept(matching@),
                    walk@,
                    true,
                    style,
                ));
            },
            ProcWidgetMode::Normal => {
                let walk = map_keys(&data.process_harvest);
                let (rows, index) = get_normal_data(data, &walk, kept, false, &style);
                self.table_data = rows;
                self.id_pid_map = index;
                assert(rows_of(self.table_data@) == flat_rows(
                    data@,
                    old(self).kept(matching@),
                    walk@,
                    false,
                    style,
                ));
            },
        }
    }

    /// Computes the rows of the table from a snapshot if the view can show it: the
    /// tree view needs a forest, the flat views take any snapshot. Returns whether
    /// the rows were computed; if not, nothing changes.
    pub fn refresh(&mut self, data: &ProcessData, matching: &FxHashSet<Pid>) -> (done: bool)
        ensures
            done == (old(self).mode is Tree ==> data@.is_forest()),
            done ==> final(self).refreshed_from(old(self), data@, matching@),
            !done ==> *final(self) == *old(self),
    {
        let in_tree = match self.mode {
            ProcWidgetMode::Tree { .. } => true,
            _ => false,
        };
        if in_tree && !data.is_forest() {
            false
        } else {
            self.update_displayed_process_data(data, matching);
            true
        }
    }

    /// Switches the memory column between bytes and percent, and asks for new rows.
    /// A column list without a memory column is left alone.
    pub fn toggle_mem_percentage(&mut self)
        ensures
            final(self).mode == old(self).mode,
            final(self).proc_search == old(self).proc_search,
            final(self).table_data == old(self).table_data,
            final(self).sort_table == old(self).sort_table,
            final(self).id_pid_map == old(self).id_pid_map,
            final(self).is_sort_open == old(self).is_sort_open,
            final(self).force_rerender == old(self).force_rerender,
            final(self).table.state == old(self).table.state,
            final(self).table.props == old(self).table.props,
            final(self).table.sort_index == old(self).table.sort_index,
            final(self).table.order == old(self).table.order,
            final(self).table.columns@ == (if MEM < old(self).table.columns@.len() {
                old(self).table.columns@.update(
                    MEM as int,
                    SortColumn {
                        inner: match old(self).table.columns@[MEM as int].inner {
                            ProcColumn::MemoryVal => ProcColumn::MemoryPercent,
                            ProcColumn::MemoryPercent => ProcColumn::MemoryVal,
                            other => other,
                        },
                        ..old(self).table.columns@[MEM as int]
                    },
                )
            } else {
                old(self).table.columns@
            }),
            final(self).force_update_data == (MEM < old(self).table.columns@.len() || old(
                self,
            ).force_update_data),
    {
        if MEM < self.table.columns.len() {
            let mut column = self.table.columns[MEM];
            column.inner =
            match column.inner {
                ProcColumn::MemoryVal => ProcColumn::MemoryPercent,
                ProcColumn::MemoryPercent => ProcColumn::MemoryVal,
                other => other,
            };
            self.table.columns.set(MEM, column);
            self.force_data_update();
        }
    }

    /// Asks for the rows to be computed anew.
    pub fn force_data_update(&mut self)
        ensures
            final(self).force_update_data,
            final(self).force_rerender == old(self).force_rerender,
            final(self).mode == old(self).mode,
            final(self).proc_search == old(self).proc_search,
            final(self).table == old(self).table,
            final(self).table_data == old(self).table_data,
            final(self).sort_table == old(self).sort_table,
            final(self).id_pid_map == old(self).id_pid_map,
            final(self).is_sort_open == old(self).is_sort_open,
    {
        self.force_update_data = true;
    }

    /// Asks for the table to be laid out anew and the rows to be computed anew.
    pub fn force_rerender_and_update(&mut self)
        ensures
            final(self).force_update_data,
            final(self).force_rerender,
            final(self).mode == old(self).mode,
            final(self).proc_search == old(self).proc_search,
            final(self).table == old(self).table,
            final(self).table_data == old(self).table_data,
            final(self).sort_table == old(self).sort_table,
            final(self).id_pid_map == old(self).id_pid_map,
            final(self).is_sort_open == old(self).is_sort_open,
    {
        self.force_rerender = true;
        self.force_update_data = true;
    }
}

/// The sort column and direction after column `index` of `len` columns was
/// hidden: a table sorted by the hidden column falls back to CPU, descending.
pub open spec fn sort_after_hide(
    len: int,
    sort_index: usize,
    order: SortOrder,
    index: usize,
) -> (usize, SortOrder) {
    if index < len && sort_index == index {
        (
            if CPU < len {
                CPU
            } else {
                sort_index
            },
            SortOrder::Descending,
        )
    } else {
        (sort_index, order)
    }
}

/// The columns after a switch between the plain and the grouped view: the first
/// column turns from pid (sorting ascending by default) to count (descending) or
/// back, and the user and state columns are hidden while grouped.
pub open spec fn tabbed_columns(columns: Seq<SortColumn>) -> Seq<SortColumn> {
    if columns.len() == 0 {
        columns
    } else {
        match columns[0].inner {
            ProcColumn::Pid => with_hidden(
                with_hidden(
                    columns.update(
                        0,
                        SortColumn {
                            inner: ProcColumn::Count,
                            default_order: SortOrder::Descending,
                            ..columns[0]
                        },
                    ),
                    USER as int,
                    true,
                ),
                STATE as int,
                true,
            ),
            ProcColumn::Count => with_hidden(
                with_hidden(
                    columns.update(
                        0,
                        SortColumn {
                            inner: ProcColumn::Pid,
                            default_order: SortOrder::Ascending,
                            ..columns[0]
                        },
                    ),
                    USER as int,
                    false,
                ),
                STATE as int,
                false,
            ),
            _ => columns,
        }
    }
}

/// The sort column and direction after a switch between the plain and the
/// grouped view.
pub open spec fn tabbed_sort(columns: Seq<SortColumn>, sort_index: usize, order: SortOrder) -> (
    usize,
    SortOrder,
) {
    if columns.len() > 0 && columns[0].inner == ProcColumn::Pid {
        let first = sort_after_hide(columns.len() as int, sort_index, order, USER);
        sort_after_hide(columns.len() as int, first.0, first.1, STATE)
    } else {
        (sort_index, order)
    }
}

/// The label column after a switch between names and command lines. Command
/// lines get the wide share of the table; names get it in the tree view only.
pub open spec fn relabelled(column: SortColumn, in_tree: bool) -> SortColumn {
    match column.inner {
        ProcColumn::Name => SortColumn {
            inner: ProcColumn::Command,
            bounds: match column.bounds {
                ColumnWidthBounds::Soft { .. } => ColumnWidthBounds::Soft {
                    max_percentage: Some(WIDE_LABEL),
                },
                other => other,
            },
            ..column
        },
        ProcColumn::Command => SortColumn {
            inner: ProcColumn::Name,
            bounds: match column.bounds {
                ColumnWidthBounds::Soft { .. } => ColumnWidthBounds::Soft {
                    max_percentage: Some(
                        if in_tree {
                            WIDE_LABEL
                        } else {
                            NARROW_LABEL
                        },
                    ),
                },
                other => other,
            },
            ..column
        },
        _ => column,
    }
}

/// `pids` with `pid` taken out if it was in, and put in if it was not.
pub open spec fn toggled(pids: Set<Pid>, pid: Pid) -> Set<Pid> {
    if pids.contains(pid) {
        pids.remove(pid)
    } else {
        pids.insert(pid)
    }
}

impl<Q> ProcWidget<Q> {
    /// The two widgets agree on everything but the table and the two flags that ask
    /// for a refresh.
    pub open spec fn same_beside_table(&self, other: &Self) -> bool {
        &&& self.mode == other.mode
        &&& self.proc_search == other.proc_search
        &&& self.table_data == other.table_data
        &&& self.sort_table == other.sort_table
        &&& self.id_pid_map == other.id_pid_map
        &&& self.is_sort_open == other.is_sort_open
    }

    /// Hides column `index`. A table sorted by that column is sorted by CPU,
    /// descending, from then on.
    pub fn hide_column(&mut self, index: usize)
        ensures
            final(self).same_beside_table(old(self)),
            final(self).force_rerender == old(self).force_rerender,
            final(self).force_update_data == old(self).force_update_data,
            final(self).table.state == old(self).table.state,
            final(self).table.props == old(self).table.props,
            final(self).table.columns@ == with_hidden(old(self).table.columns@, index as int, true),
            (final(self).table.sort_index, final(self).table.order) == sort_after_hide(
                old(self).table.columns@.len() as int,
                old(self).table.sort_index,
                old(self).table.order,
                index,
            ),
    {
        if index < self.table.columns.len() {
            let mut column = self.table.columns[index];
            column.is_hidden = true;
            self.table.columns.set(index, column);
            if self.table.sort_index() == index {
                self.table.set_sort_index(CPU);
                self.table.set_order(SortOrder::Descending);
            }
        }
    }

    /// Shows column `index`.
    pub fn show_column(&mut self, index: usize)
        ensures
            final(self).same_beside_table(old(self)),
            final(self).force_rerender == old(self).force_rerender,
            final(self).force_update_data == old(self).force_update_data,
            final(self).table.state == old(self).table.state,
            final(self).table.props == old(self).table.props,
            final(self).table.sort_index == old(self).table.sort_index,
            final(self).table.order == old(self).table.order,
            final(self).table.columns@ == with_hidden(old(self).table.columns@, index as int, false),
    {
        if index < self.table.columns.len() {
            let mut column = self.table.columns[index];
            column.is_hidden = false;
            self.table.columns.set(index, column);
        }
    }

    /// Sorts the table by column `new_sort_index` and asks for new rows. Picking
    /// another column takes over its default direction; picking the current column
    /// again, or an index beyond the columns, leaves column and direction alone.
    pub fn select_column(&mut self, new_sort_index: usize)
        ensures
            final(self).same_beside_table(old(self)),
            final(self).force_rerender == old(self).force_rerender,
            final(self).force_update_data,
            final(self).table.columns == old(self).table.columns,
            final(self).table.state == old(self).table.state,
            final(self).table.props == old(self).table.props,
            final(self).table.sort_index == (if new_sort_index < old(self).table.columns@.len() {
                new_sort_index
            } else {
                old(self).table.sort_index
            }),
            final(self).table.order == (if new_sort_index < old(self).table.columns@.len()
                && new_sort_index != old(self).table.sort_index {
                old(self).table.columns@[new_sort_index as int].default_order
            } else {
                old(self).table.order
            }),
    {
        self.table.set_sort_index(new_sort_index);
        self.force_data_update();
    }

    /// In the tree view, folds the subtree of the row under the cursor into one
    /// row, or unfolds it if it is folded, and asks for new rows. Does nothing in
    /// the flat views or with the cursor off the rows.
    pub fn toggle_current_tree_branch_entry(&mut self)
        ensures
            final(self).proc_search == old(self).proc_search,
            final(self).table == old(self).table,
            final(self).table_data == old(self).table_data,
            final(self).sort_table == old(self).sort_table,
            final(self).id_pid_map == old(self).id_pid_map,
            final(self).is_sort_open == old(self).is_sort_open,
            final(self).force_rerender == old(self).force_rerender,
            if old(self).mode is Tree && old(self).table.state.current_index < old(
                self,
            ).table_data@.len() {
                &&& final(self).mode is Tree
                &&& final(self).mode.collapsed() == toggled(
                    old(self).mode.collapsed(),
                    old(self).table_data@[old(self).table.state.current_index as int].pid,
                )
                &&& final(self).force_update_data
            } else {
                &&& final(self).mode == old(self).mode
                &&& final(self).force_update_data == old(self).force_update_data
            },
    {
        let current = self.table.state.current_index;
        if current < self.table_data.len() {
            let pid = self.table_data[current].pid;
            let mut toggled_one = false;
            match &mut self.mode {
                ProcWidgetMode::Tree { collapsed_pids } => {
                    if !set_remove(collapsed_pids, pid) {
                        set_insert(collapsed_pids, pid);
                    }
                    toggled_one = true;
                },
                _ => {},
            }
            if toggled_one {
                self.force_data_update();
            }
        }
    }

    /// Switches the label column between process names and command lines, and asks
    /// for a new layout and new rows. A column list without a label column is left
    /// alone.
    pub fn toggle_command(&mut self)
        ensures
            final(self).same_beside_table(old(self)),
            final(self).table.state == old(self).table.state,
            final(self).table.props == old(self).table.props,
            final(self).table.sort_index == old(self).table.sort_index,
            final(self).table.order == old(self).table.order,
            final(self).table.columns@ == (if PROC_NAME_OR_CMD < old(self).table.columns@.len() {
                old(self).table.columns@.update(
                    PROC_NAME_OR_CMD as int,
                    relabelled(
                        old(self).table.columns@[PROC_NAME_OR_CMD as int],
                        old(self).mode is Tree,
                    ),
                )
            } else {
                old(self).table.columns@
            }),
            final(self).force_rerender == (PROC_NAME_OR_CMD < old(self).table.columns@.len() || old(
                self,
            ).force_rerender),
            final(self).force_update_data == (PROC_NAME_OR_CMD < old(self).table.columns@.len()
                || old(self).force_update_data),
    {
        if PROC_NAME_OR_CMD < self.table.columns.len() {
            let in_tree = match self.mode {
                ProcWidgetMode::Tree { .. } => true,
                _ => false,
            };
            let mut column = self.table.columns[PROC_NAME_OR_CMD];
            match column.inner {
                ProcColumn::Name => {
                    column.inner = ProcColumn::Command;
                    if let ColumnWidthBounds::Soft { .. } = column.bounds {
                        column.bounds = ColumnWidthBounds::Soft { max_percentage: Some(WIDE_LABEL) };
                    }
                },
                ProcColumn::Command => {
                    column.inner = ProcColumn::Name;
                    if let ColumnWidthBounds::Soft { .. } = column.bounds {
                        column.bounds =
                        ColumnWidthBounds::Soft {
                            max_percentage: Some(
                                if in_tree {
                                    WIDE_LABEL
                                } else {
                                    NARROW_LABEL
                                },
                            ),
                        };
                    }
                },
                _ => {},
            }
            self.table.columns.set(PROC_NAME_OR_CMD, column);
            self.force_rerender_and_update();
        }
    }

    /// Switches between the plain and the grouped view, and asks for a new layout
    /// and new rows. Does nothing in the tree view.
    ///
    /// Going to the grouped view, the first column counts processes instead of
    /// showing a pid and sorts descending by default, and the user and state columns
    /// are hidden; a table sorted by one of them is sorted by CPU, descending, from
    /// then on. Going back undoes the first and shows the two columns again.
    pub fn on_tab(&mut self)
        ensures
            final(self).proc_search == old(self).proc_search,
            final(self).table_data == old(self).table_data,
            final(self).sort_table == old(self).sort_table,
            final(self).id_pid_map == old(self).id_pid_map,
            final(self).is_sort_open == old(self).is_sort_open,
            final(self).table.state == old(self).table.state,
            final(self).table.props == old(self).table.props,
            if old(self).mode is Tree || old(self).table.columns@.len() == 0 {
                &&& final(self).mode == old(self).mode
                &&& final(self).table == old(self).table
                &&& final(self).force_rerender == old(self).force_rerender
                &&& final(self).force_update_data == old(self).force_update_data
            } else {
                &&& final(self).table.columns@ == tabbed_columns(old(self).table.columns@)
                &&& (final(self).table.sort_index, final(self).table.order) == tabbed_sort(
                    old(self).table.columns@,
                    old(self).table.sort_index,
                    old(self).table.order,
                )
                &&& final(self).mode == (match old(self).table.columns@[0].inner {
                    ProcColumn::Pid => ProcWidgetMode::Grouped,
                    ProcColumn::Count => ProcWidgetMode::Normal,
                    _ => old(self).mode,
                })
                &&& final(self).force_rerender
                &&& final(self).force_update_data
            },
    {
        let in_tree = match self.mode {
            ProcWidgetMode::Tree { .. } => true,
            _ => false,
        };
        if !in_tree && PID_OR_COUNT < self.table.columns.len() {
            let mut column = self.table.columns[PID_OR_COUNT];
            match column.inner {
                ProcColumn::Pid => {
                    column.inner = ProcColumn::Count;
                    column.default_order = SortOrder::Descending;
                    self.table.columns.set(PID_OR_COUNT, column);
                    self.hide_column(USER);
                    self.hide_column(STATE);
                    self.mode = ProcWidgetMode::Grouped;
                },
                ProcColumn::Count => {
                    column.inner = ProcColumn::Pid;
                    column.default_order = SortOrder::Ascending;
                    self.table.columns.set(PID_OR_COUNT, column);
                    self.show_column(USER);
                    self.show_column(STATE);
                    self.mode = ProcWidgetMode::Normal;
                },
                _ => {},
            }
            self.force_rerender_and_update();
        }
    }

    /// The headers of the columns that are not hidden, in order.
    pub fn column_text(&self) -> (headers: Vec<&'static str>)
        ensures
            headers@.map_values(|h: &'static str| h@) == shown_headers(self.table.columns@),
    {
        let mut headers: Vec<&'static str> = Vec::new();
        let mut i: usize = 0;
        let ghost columns = self.table.columns@;
        assert(columns.take(0) =~= Seq::<SortColumn>::empty());
        assert(headers@.map_values(|h: &'static str| h@) =~= Seq::<Seq<char>>::empty());
        while i < self.table.columns.len()
            invariant
                i <= self.table.columns.len(),
                columns == self.table.columns@,
                headers@.map_values(|h: &'static str| h@) == shown_headers(columns.take(i as int)),
            decreases self.table.columns.len() - i,
        {
            proof {
                assert(columns.take(i as int + 1).drop_last() =~= columns.take(i as int));
                assert(columns.take(i as int + 1).last() == columns[i as int]);
            }
            let column = self.table.columns[i];
            if !column.is_hidden {
                let ghost prior = headers@;
                let header = column.inner.text();
                headers.push(header);
                assert(headers@.map_values(|h: &'static str| h@) =~= prior.map_values(
                    |h: &'static str| h@,
                ).push(header@));
            }
            i += 1;
        }
        assert(columns.take(columns.len() as int) =~= columns);
        headers
    }

    /// The byte offset of the cursor in the search text.
    pub fn get_search_cursor_position(&self) -> (position: usize)
        ensures
            position == self.proc_search.search_state.grapheme_cursor,
    {
        self.proc_search.search_state.grapheme_cursor
    }

    /// The column of the search cursor on screen.
    pub fn get_char_cursor_position(&self) -> (position: usize)
        ensures
            position == self.proc_search.search_state.char_cursor_position,
    {
        self.proc_search.search_state.char_cursor_position
    }

    /// Whether the search box is open.
    pub fn is_search_enabled(&self) -> (enabled: bool)
        ensures
            enabled == self.proc_search.search_state.is_enabled,
    {
        self.proc_search.search_state.is_enabled
    }

    /// The search text as typed.
    pub fn get_current_search_query(&self) -> (text: &String)
        ensures
            *text == self.proc_search.search_state.current_search_query,
    {
        &self.proc_search.search_state.current_search_query
    }

    /// Takes in the outcome of parsing the current search text, moves view and
    /// cursor of the table to the top, and asks for new rows.
    ///
    /// Empty text makes the search blank and valid, whatever `parsed` says: nothing
    /// is filtered then. Else a parsed query becomes the one that filters, and a
    /// failure marks the search invalid and keeps its message, while the query that
    /// parsed last goes on filtering.
    pub fn update_query(&mut self, parsed: Result<Q, String>)
        ensures
            final(self).mode == old(self).mode,
            final(self).table_data == old(self).table_data,
            final(self).sort_table == old(self).sort_table,
            final(self).id_pid_map == old(self).id_pid_map,
            final(self).is_sort_open == old(self).is_sort_open,
            final(self).force_rerender == old(self).force_rerender,
            final(self).force_update_data,
            final(self).table.columns == old(self).table.columns,
            final(self).table.props == old(self).table.props,
            final(self).table.sort_index == old(self).table.sort_index,
            final(self).table.order == old(self).table.order,
            final(self).table.state.display_start_index == 0,
            final(self).table.state.current_index == 0,
            final(self).proc_search.is_ignoring_case == old(self).proc_search.is_ignoring_case,
            final(self).proc_search.is_searching_whole_word == old(
                self,
            ).proc_search.is_searching_whole_word,
            final(self).proc_search.is_searching_with_regex == old(
                self,
            ).proc_search.is_searching_with_regex,
            final(self).proc_search.search_state.current_search_query == old(
                self,
            ).proc_search.search_state.current_search_query,
            final(self).proc_search.search_state.is_enabled == old(
                self,
            ).proc_search.search_state.is_enabled,
            final(self).proc_search.search_state.grapheme_cursor == old(
                self,
            ).proc_search.search_state.grapheme_cursor,
            final(self).proc_search.search_state.char_cursor_position == old(
                self,
            ).proc_search.search_state.char_cursor_position,
            final(self).proc_search.search_state.is_blank_search == (old(
                self,
            ).proc_search.search_state.current_search_query@.len() == 0),
            final(self).proc_search.search_state.is_invalid_search == (old(
                self,
            ).proc_search.search_state.current_search_query@.len() != 0 && parsed is Err),
            final(self).proc_search.search_state.query == (if old(
                self,
            ).proc_search.search_state.current_search_query@.len() != 0 && parsed is Ok {
                Some(parsed->Ok_0)
            } else {
                old(self).proc_search.search_state.query
            }),
            final(self).proc_search.search_state.error_message == (if old(
                self,
            ).proc_search.search_state.current_search_query@.len() != 0 && parsed is Err {
                Some(parsed->Err_0)
            } else {
                None
            }),
    {
        self.proc_search.search_state.take_parsed(parsed);
        self.table.state.display_start_index = 0;
        self.table.state.current_index = 0;
        self.force_data_update();
    }

    /// Empties the search box and asks for new rows.
    pub fn clear_search(&mut self)
        ensures
            final(self).mode == old(self).mode,
            final(self).table == old(self).table,
            final(self).table_data == old(self).table_data,
            final(self).sort_table == old(self).sort_table,
            final(self).id_pid_map == old(self).id_pid_map,
            final(self).is_sort_open == old(self).is_sort_open,
            final(self).force_rerender == old(self).force_rerender,
            final(self).force_update_data,
            final(self).proc_search.is_ignoring_case == old(self).proc_search.is_ignoring_case,
            final(self).proc_search.is_searching_whole_word == old(
                self,
            ).proc_search.is_searching_whole_word,
            final(self).proc_search.is_searching_with_regex == old(
                self,
            ).proc_search.is_searching_with_regex,
            final(self).proc_search.search_state.is_pristine(),
            final(self).proc_search.search_state.is_enabled == old(
                self,
            ).proc_search.search_state.is_enabled,
    {
        self.proc_search.search_state.reset();
        self.force_data_update();
    }

    /// Moves the search cursor forward by one grapheme cluster, reading the search
    /// text from byte offset `start_position` on. The cursor stays where it is at
    /// the end of the text, and where it or `start_position` does not lie between
    /// two characters or `start_position` lies behind it.
    pub fn search_walk_forward(&mut self, start_position: usize)
        ensures
            final(self).mode == old(self).mode,
            final(self).table == old(self).table,
            final(self).table_data == old(self).table_data,
            final(self).sort_table == old(self).sort_table,
            final(self).id_pid_map == old(self).id_pid_map,
            final(self).is_sort_open == old(self).is_sort_open,
            final(self).force_rerender == old(self).force_rerender,
            final(self).force_update_data == old(self).force_update_data,
            final(self).proc_search == (ProcessSearchState {
                search_state: crate::search::AppSearchState {
                    grapheme_cursor: walked_forward(
                        old(self).proc_search.search_state.current_search_query@,
                        old(self).proc_search.search_state.grapheme_cursor,
                        start_position,
                    ),
                    ..old(self).proc_search.search_state
                },
                ..old(self).proc_search
            }),
            final(self).proc_search.search_state.grapheme_cursor >= old(
                self,
            ).proc_search.search_state.grapheme_cursor,
            on_char_boundary(
                old(self).proc_search.search_state.current_search_query@,
                old(self).proc_search.search_state.grapheme_cursor,
            ) ==> on_char_boundary(
                final(self).proc_search.search_state.current_search_query@,
                final(self).proc_search.search_state.grapheme_cursor,
            ),
    {
        let next = walk_forward(
            self.proc_search.search_state.current_search_query.as_str(),
            self.proc_search.search_state.grapheme_cursor,
            start_position,
        );
        self.proc_search.search_state.grapheme_cursor = next;
    }

    /// Moves the search cursor back by one grapheme cluster, reading the search
    /// text up to byte offset `start_position`. The cursor stays where it is at the
    /// start of the text, and where it or `start_position` does not lie between two
    /// characters or `start_position` lies in front of it.
    pub fn search_walk_back(&mut self, start_position: usize)
        ensures
            final(self).mode == old(self).mode,
            final(self).table == old(self).table,
            final(self).table_data == old(self).table_data,
            final(self).sort_table == old(self).sort_table,
            final(self).id_pid_map == old(self).id_pid_map,
            final(self).is_sort_open == old(self).is_sort_open,
            final(self).force_rerender == old(self).force_rerender,
            final(self).force_update_data == old(self).force_update_data,
            final(self).proc_search == (ProcessSearchState {
                search_state: crate::search::AppSearchState {
                    grapheme_cursor: walked_back(
                        old(self).proc_search.search_state.current_search_query@,
                        old(self).proc_search.search_state.grapheme_cursor,
                        start_position,
                    ),
                    ..old(self).proc_search.search_state
                },
                ..old(self).proc_search
            }),
            final(self).proc_search.search_state.grapheme_cursor <= old(
                self,
            ).proc_search.search_state.grapheme_cursor,
            on_char_boundary(
                old(self).proc_search.search_state.current_search_query@,
                old(self).proc_search.search_state.grapheme_cursor,
            ) ==> on_char_boundary(
                final(self).proc_search.search_state.current_search_query@,
                final(self).proc_search.search_state.grapheme_cursor,
            ),
    {
        let previous = walk_back(
            self.proc_search.search_state.current_search_query.as_str(),
            self.proc_search.search_state.grapheme_cursor,
            start_position,
        );
        self.proc_search.search_state.grapheme_cursor = previous;
    }

    /// The number of columns that are not hidden. A column that is not hidden may
    /// still be off screen.
    pub fn num_enabled_columns(&self) -> (n: usize)
        ensures
            n == shown_headers(self.table.columns@).len(),
    {
        let mut n: usize = 0;
        let mut i: usize = 0;
        let ghost columns = self.table.columns@;
        assert(columns.take(0) =~= Seq::<SortColumn>::empty());
        while i < self.table.columns.len()
            invariant
                i <= self.table.columns.len(),
                columns == self.table.columns@,
                n <= i,
                n == shown_headers(columns.take(i as int)).len(),
            decreases self.table.columns.len() - i,
        {
            proof {
                assert(columns.take(i as int + 1).drop_last() =~= columns.take(i as int));
                assert(columns.take(i as int + 1).last() == columns[i as int]);
            }
            if !self.table.columns[i].is_hidden {
                n += 1;
            }
            i += 1;
        }
        assert(columns.take(columns.len() as int) =~= columns);
        n
    }

    /// Sorts the table by the column under the cursor of the sort list, closes the
    /// sort list, and asks for a new layout and new rows.
    pub fn use_sort_table_value(&mut self)
        ensures
            final(self).mode == old(self).mode,
            final(self).proc_search == old(self).proc_search,
            final(self).table_data == old(self).table_data,
            final(self).sort_table == old(self).sort_table,
            final(self).id_pid_map == old(self).id_pid_map,
            !final(self).is_sort_open,
            final(self).force_rerender,
            final(self).force_update_data,
            final(self).table.columns == old(self).table.columns,
            final(self).table.state == old(self).table.state,
            final(self).table.props == old(self).table.props,
            final(self).table.sort_index == (if old(self).sort_table.state.current_index < old(
                self,
            ).table.columns@.len() {
                old(self).sort_table.state.current_index
            } else {
                old(self).table.sort_index
            }),
            final(self).table.order == (if old(self).sort_table.state.current_index < old(
                self,
            ).table.columns@.len() && old(self).sort_table.state.current_index != old(
                self,
            ).table.sort_index {
                old(self).table.columns@[old(self).sort_table.state.current_index as int].default_order
            } else {
                old(self).table.order
            }),
    {
        let picked = self.sort_table.current_index();
        self.table.set_sort_index(picked);
        self.is_sort_open = false;
        self.force_rerender_and_update();
    }
}

} // verus!

use fxhash::{FxHashMap, FxHashSet};
use proc_view::column::{ProcColumn, SortOrder};
use proc_view::harvest::{ProcessData, ProcessHarvest, ProcessState};
use proc_view::search::{step_cursor, walk_back, walk_forward, ProcessSearchState};
use proc_view::table::ColumnWidthBounds;
use proc_view::temperature::TemperatureType;
use proc_view::widget::{AppConfigFields, ProcWidget, ProcWidgetMode, CPU, MEM, STATE, USER};

fn config() -> AppConfigFields {
    AppConfigFields { table_gap: 1, use_basic_mode: false, show_table_scroll_position: true }
}

fn process(pid: i32, parent: Option<i32>, name: &str, cpu: u64) -> ProcessHarvest {
    ProcessHarvest {
        pid,
        parent_pid: parent,
        name: name.to_string(),
        command: format!("/bin/{name}"),
        cpu_millipercent: cpu,
        mem_millipercent: cpu,
        mem_usage_bytes: cpu,
        read_bytes_per_sec: 0,
        write_bytes_per_sec: 0,
        total_read_bytes: 0,
        total_write_bytes: 0,
        user: "me".to_string(),
        process_state: ProcessState::Running,
    }
}

fn initd_family() -> ProcessData {
    let mut harvest = FxHashMap::default();
    harvest.insert(1, process(1, None, "initd", 1_000));
    harvest.insert(2, process(2, Some(1), "sshd", 2_000));
    harvest.insert(3, process(3, Some(1), "bash", 4_000));
    let mut parents = FxHashMap::default();
    parents.insert(1, vec![2, 3]);
    ProcessData { process_harvest: harvest, process_parent_mapping: parents, orphan_pids: vec![1] }
}

fn tree_widget() -> ProcWidget<String> {
    let mode = ProcWidgetMode::Tree { collapsed_pids: FxHashSet::default() };
    ProcWidget::new(&config(), mode, false, false, false, false, false)
}

fn normal_widget() -> ProcWidget<String> {
    ProcWidget::new(&config(), ProcWidgetMode::Normal, false, false, false, false, false)
}

fn search(widget: &mut ProcWidget<String>, text: &str) {
    widget.proc_search.search_state.current_search_query = text.to_string();
    widget.update_query(Ok(text.to_string()));
}

fn matching(pids: &[i32]) -> FxHashSet<i32> {
    pids.iter().copied().collect()
}

#[test]
fn widget_tree_with_query_shows_disabled_ancestor() {
    let mut widget = tree_widget();
    search(&mut widget, "bash");
    widget.update_displayed_process_data(&initd_family(), &matching(&[3]));
    let rows: Vec<(&str, bool)> =
        widget.table_data.iter().map(|r| (r.id.as_str(), r.disabled)).collect();
    assert_eq!(rows, vec![("initd", true), ("bash", false)]);
}

#[test]
fn widget_collapsing_the_root_gives_one_summed_row() {
    let mut widget = tree_widget();
    search(&mut widget, "bash");
    let data = initd_family();
    widget.update_displayed_process_data(&data, &matching(&[3]));
    widget.table.state.current_index = 0;
    widget.force_update_data = false;
    widget.toggle_current_tree_branch_entry();
    assert!(widget.force_update_data);
    widget.update_displayed_process_data(&data, &matching(&[3]));
    assert_eq!(widget.table_data.len(), 1);
    assert_eq!(widget.table_data[0].cpu_usage, 5_000);
    assert_eq!(widget.table_data[0].prefix.as_deref(), Some("+ "));
    widget.toggle_current_tree_branch_entry();
    widget.update_displayed_process_data(&data, &matching(&[3]));
    assert_eq!(widget.table_data.len(), 2);
}

#[test]
fn widget_blank_search_filters_nothing() {
    let mut widget = tree_widget();
    search(&mut widget, "bash");
    search(&mut widget, "");
    assert!(widget.proc_search.search_state.is_blank_search);
    assert!(!widget.proc_search.search_state.is_invalid_search);
    assert!(widget.get_query().is_none());
    widget.update_displayed_process_data(&initd_family(), &matching(&[3]));
    assert_eq!(widget.table_data.len(), 3);
    assert!(widget.table_data.iter().all(|r| !r.disabled));
}

#[test]
fn widget_without_any_query_filters_nothing() {
    let mut widget = normal_widget();
    widget.update_displayed_process_data(&initd_family(), &matching(&[]));
    let pids: Vec<i32> = widget.table_data.iter().map(|r| r.pid).collect();
    assert_eq!(pids, vec![3, 2, 1]);
}

#[test]
fn widget_normal_mode_filters_and_sorts_by_cpu_descending() {
    let mut widget = normal_widget();
    search(&mut widget, "s");
    widget.update_displayed_process_data(&initd_family(), &matching(&[1, 2]));
    let pids: Vec<i32> = widget.table_data.iter().map(|r| r.pid).collect();
    assert_eq!(pids, vec![2, 1]);
    assert!(widget.id_pid_map.is_empty());
}

#[test]
fn widget_grouped_mode_groups_by_name() {
    let mut widget = normal_widget();
    widget.on_tab();
    let mut data = initd_family();
    data.process_harvest.insert(4, process(4, Some(1), "bash", 3_000));
    widget.update_displayed_process_data(&data, &matching(&[]));
    let rows: Vec<(&str, u64, u64)> =
        widget.table_data.iter().map(|r| (r.id.as_str(), r.cpu_usage, r.num_similar)).collect();
    assert_eq!(rows, vec![("bash", 7_000, 2), ("sshd", 2_000, 1), ("initd", 1_000, 1)]);
    let mut index: Vec<(String, Vec<i32>)> =
        widget.id_pid_map.iter().map(|(label, pids)| (label.clone(), pids.clone())).collect();
    index.sort();
    for entry in index.iter_mut() {
        entry.1.sort();
    }
    assert_eq!(
        index,
        vec![
            ("bash".to_string(), vec![3, 4]),
            ("initd".to_string(), vec![1]),
            ("sshd".to_string(), vec![2]),
        ]
    );
}

#[test]
fn failed_parse_keeps_the_last_query_filtering() {
    let mut widget = tree_widget();
    search(&mut widget, "bash");
    widget.proc_search.search_state.current_search_query = "ba(".to_string();
    widget.update_query(Err("unclosed group".to_string()));
    assert!(widget.proc_search.search_state.is_invalid_search);
    assert!(!widget.proc_search.search_state.is_blank_search);
    assert_eq!(widget.proc_search.search_state.error_message.as_deref(), Some("unclosed group"));
    assert_eq!(widget.get_query(), Some(&"bash".to_string()));
    widget.update_displayed_process_data(&initd_family(), &matching(&[3]));
    assert_eq!(widget.table_data.len(), 2);
}

#[test]
fn failed_parse_without_earlier_query_filters_nothing() {
    let mut widget = tree_widget();
    widget.proc_search.search_state.current_search_query = "(".to_string();
    widget.update_query(Err("bad".to_string()));
    assert!(widget.proc_search.search_state.is_invalid_search);
    assert!(widget.get_query().is_none());
    widget.update_displayed_process_data(&initd_family(), &matching(&[]));
    assert_eq!(widget.table_data.len(), 3);
}

#[test]
fn successful_parse_clears_the_error() {
    let mut widget = normal_widget();
    widget.proc_search.search_state.current_search_query = "(".to_string();
    widget.update_query(Err("bad".to_string()));
    widget.proc_search.search_state.current_search_query = "ok".to_string();
    widget.update_query(Ok("ok".to_string()));
    assert!(!widget.proc_search.search_state.is_invalid_search);
    assert_eq!(widget.proc_search.search_state.error_message, None);
    assert_eq!(widget.get_query(), Some(&"ok".to_string()));
}

#[test]
fn update_query_moves_the_table_to_the_top() {
    let mut widget = normal_widget();
    widget.table.state.current_index = 7;
    widget.table.state.display_start_index = 5;
    widget.force_update_data = false;
    search(&mut widget, "x");
    assert_eq!(widget.table.state.current_index, 0);
    assert_eq!(widget.table.state.display_start_index, 0);
    assert!(widget.force_update_data);
}

#[test]
fn clear_search_empties_the_box_but_leaves_it_open() {
    let mut widget = normal_widget();
    widget.proc_search.search_state.is_enabled = true;
    search(&mut widget, "bash");
    widget.proc_search.search_state.grapheme_cursor = 4;
    widget.force_update_data = false;
    widget.clear_search();
    assert!(widget.is_search_enabled());
    assert_eq!(widget.get_current_search_query(), "");
    assert_eq!(widget.get_search_cursor_position(), 0);
    assert_eq!(widget.get_char_cursor_position(), 0);
    assert!(widget.proc_search.search_state.is_blank_search);
    assert!(widget.get_query().is_none());
    assert!(widget.force_update_data);
}

#[test]
fn new_widget_sorts_tree_by_pid_and_flat_views_by_cpu() {
    let tree = tree_widget();
    assert_eq!(tree.table.sort_index(), 0);
    assert_eq!(tree.table.order(), SortOrder::Ascending);
    let normal = normal_widget();
    assert_eq!(normal.table.sort_index(), CPU);
    assert_eq!(normal.table.order(), SortOrder::Descending);
    assert!(normal.force_rerender);
    assert!(!normal.force_update_data);
    assert_eq!(normal.table.columns.len(), 10);
    assert_eq!(normal.num_enabled_columns(), 10);
    assert_eq!(
        normal.column_text(),
        vec!["PID", "Name", "CPU%", "Mem%", "R/s", "W/s", "T.Read", "T.Write", "User", "State"]
    );
}

#[test]
fn new_widget_takes_over_search_flags() {
    let widget: ProcWidget<String> =
        ProcWidget::new(&config(), ProcWidgetMode::Grouped, true, true, true, true, true);
    assert!(!widget.proc_search.is_ignoring_case);
    assert!(widget.proc_search.is_searching_whole_word);
    assert!(widget.proc_search.is_searching_with_regex);
    assert!(widget.is_using_command());
    assert!(!widget.is_mem_percent());
    assert_eq!(widget.column_text()[0], "Count");
    assert_eq!(widget.column_text()[1], "Command");
    assert_eq!(widget.column_text()[3], "Mem");
}

#[test]
fn search_flags_toggle() {
    let mut state: ProcessSearchState<String> = ProcessSearchState::default();
    assert!(state.is_ignoring_case);
    assert!(!state.is_searching_whole_word);
    assert!(!state.is_searching_with_regex);
    state.search_toggle_ignore_case();
    state.search_toggle_whole_word();
    state.search_toggle_regex();
    assert!(!state.is_ignoring_case);
    assert!(state.is_searching_whole_word);
    assert!(state.is_searching_with_regex);
    state.search_toggle_regex();
    assert!(!state.is_searching_with_regex);
}

#[test]
fn on_tab_switches_to_grouped_and_back() {
    let mut widget = normal_widget();
    widget.force_rerender = false;
    widget.on_tab();
    assert!(matches!(widget.mode, ProcWidgetMode::Grouped));
    assert_eq!(widget.table.columns[0].inner, ProcColumn::Count);
    assert_eq!(widget.table.columns[0].default_order, SortOrder::Descending);
    assert!(widget.table.columns[USER].is_hidden);
    assert!(widget.table.columns[STATE].is_hidden);
    assert_eq!(widget.num_enabled_columns(), 8);
    assert!(widget.force_rerender && widget.force_update_data);
    widget.on_tab();
    assert!(matches!(widget.mode, ProcWidgetMode::Normal));
    assert_eq!(widget.table.columns[0].inner, ProcColumn::Pid);
    assert_eq!(widget.table.columns[0].default_order, SortOrder::Ascending);
    assert!(!widget.table.columns[USER].is_hidden);
    assert!(!widget.table.columns[STATE].is_hidden);
    assert_eq!(widget.num_enabled_columns(), 10);
}

#[test]
fn on_tab_resets_sorting_when_the_sort_column_gets_hidden() {
    let mut widget = normal_widget();
    widget.select_column(STATE);
    assert_eq!(widget.table.sort_index(), STATE);
    assert_eq!(widget.table.order(), SortOrder::Ascending);
    widget.on_tab();
    assert_eq!(widget.table.sort_index(), CPU);
    assert_eq!(widget.table.order(), SortOrder::Descending);
}

#[test]
fn on_tab_keeps_sorting_by_a_column_that_stays() {
    let mut widget = normal_widget();
    widget.select_column(MEM);
    widget.table.toggle_order();
    widget.on_tab();
    assert_eq!(widget.table.sort_index(), MEM);
    assert_eq!(widget.table.order(), SortOrder::Ascending);
}

#[test]
fn on_tab_does_nothing_in_tree_mode() {
    let mut widget = tree_widget();
    widget.force_rerender = false;
    widget.on_tab();
    assert!(matches!(widget.mode, ProcWidgetMode::Tree { .. }));
    assert_eq!(widget.table.columns[0].inner, ProcColumn::Pid);
    assert!(!widget.force_rerender);
}

#[test]
fn select_column_takes_the_default_direction() {
    let mut widget = normal_widget();
    widget.force_update_data = false;
    widget.select_column(1);
    assert_eq!(widget.table.sort_index(), 1);
    assert_eq!(widget.table.order(), SortOrder::Ascending);
    assert!(widget.force_update_data);
    widget.table.toggle_order();
    widget.select_column(1);
    assert_eq!(widget.table.order(), SortOrder::Descending);
    widget.select_column(99);
    assert_eq!(widget.table.sort_index(), 1);
}

#[test]
fn toggle_mem_percentage_flips_the_memory_column() {
    let mut widget = normal_widget();
    assert!(widget.is_mem_percent());
    widget.toggle_mem_percentage();
    assert!(!widget.is_mem_percent());
    assert_eq!(widget.table.columns[MEM].inner, ProcColumn::MemoryVal);
    assert!(widget.force_update_data);
    widget.toggle_mem_percentage();
    assert!(widget.is_mem_percent());
}

#[test]
fn toggle_command_flips_the_label_column_and_its_width() {
    let mut widget = normal_widget();
    assert_eq!(widget.table.columns[1].bounds, ColumnWidthBounds::Soft { max_percentage: Some(30) });
    widget.toggle_command();
    assert!(widget.is_using_command());
    assert_eq!(widget.table.columns[1].bounds, ColumnWidthBounds::Soft { max_percentage: Some(50) });
    widget.toggle_command();
    assert!(!widget.is_using_command());
    assert_eq!(widget.table.columns[1].bounds, ColumnWidthBounds::Soft { max_percentage: Some(30) });
    let mut tree = tree_widget();
    tree.toggle_command();
    tree.toggle_command();
    assert_eq!(tree.table.columns[1].bounds, ColumnWidthBounds::Soft { max_percentage: Some(50) });
}

#[test]
fn hide_and_show_column() {
    let mut widget = normal_widget();
    widget.hide_column(CPU);
    assert!(widget.table.columns[CPU].is_hidden);
    assert_eq!(widget.table.sort_index(), CPU);
    assert_eq!(widget.table.order(), SortOrder::Descending);
    assert_eq!(widget.num_enabled_columns(), 9);
    assert_eq!(widget.column_text().len(), 9);
    widget.show_column(CPU);
    assert!(!widget.table.columns[CPU].is_hidden);
    widget.hide_column(42);
    assert_eq!(widget.num_enabled_columns(), 10);
}

#[test]
fn toggle_branch_needs_tree_mode_and_a_row_under_the_cursor() {
    let mut normal = normal_widget();
    normal.update_displayed_process_data(&initd_family(), &matching(&[]));
    normal.force_update_data = false;
    normal.toggle_current_tree_branch_entry();
    assert!(!normal.force_update_data);
    let mut tree = tree_widget();
    tree.toggle_current_tree_branch_entry();
    assert!(!tree.force_update_data);
    match &tree.mode {
        ProcWidgetMode::Tree { collapsed_pids } => assert!(collapsed_pids.is_empty()),
        _ => panic!("left the tree view"),
    }
}

#[test]
fn toggle_branch_collapses_the_pid_under_the_cursor() {
    let mut tree = tree_widget();
    tree.update_displayed_process_data(&initd_family(), &matching(&[]));
    tree.table.state.current_index = 2;
    tree.toggle_current_tree_branch_entry();
    match &tree.mode {
        ProcWidgetMode::Tree { collapsed_pids } => {
            assert_eq!(collapsed_pids.iter().copied().collect::<Vec<_>>(), vec![3])
        }
        _ => panic!("left the tree view"),
    }
    let copy = tree.mode.clone();
    match copy {
        ProcWidgetMode::Tree { collapsed_pids } => assert!(collapsed_pids.contains(&3)),
        _ => panic!("clone changed the view"),
    }
}

#[test]
fn use_sort_table_value_picks_the_column_and_closes_the_list() {
    let mut widget = normal_widget();
    widget.is_sort_open = true;
    widget.sort_table.state.current_index = 4;
    widget.force_rerender = false;
    widget.use_sort_table_value();
    assert_eq!(widget.table.sort_index(), 4);
    assert_eq!(widget.table.order(), SortOrder::Descending);
    assert!(!widget.is_sort_open);
    assert!(widget.force_rerender && widget.force_update_data);
}

#[test]
fn cursor_walks_over_whole_grapheme_clusters() {
    let text = "a\u{65}\u{301}\u{1F1F7}\u{1F1F8}z";
    assert_eq!(walk_forward(text, 0, 0), 1);
    assert_eq!(walk_forward(text, 1, 0), 4);
    assert_eq!(walk_forward(text, 4, 0), 12);
    assert_eq!(walk_forward(text, 12, 0), 13);
    assert_eq!(walk_forward(text, 13, 0), 13);
    assert_eq!(walk_back(text, 13, 13), 12);
    assert_eq!(walk_back(text, 12, 13), 4);
    assert_eq!(walk_back(text, 4, 13), 1);
    assert_eq!(walk_back(text, 1, 13), 0);
    assert_eq!(walk_back(text, 0, 13), 0);
}

#[test]
fn cursor_stays_on_senseless_offsets() {
    let text = "h\u{e9}llo";
    assert_eq!(walk_forward(text, 2, 0), 2);
    assert_eq!(walk_forward(text, 99, 0), 99);
    assert_eq!(walk_forward(text, 1, 3), 1);
    assert_eq!(walk_back(text, 2, 6), 2);
    assert_eq!(walk_back(text, 3, 1), 3);
    assert_eq!(walk_back(text, 3, 99), 3);
}

#[test]
fn widget_search_cursor_walks() {
    let mut widget = normal_widget();
    widget.proc_search.search_state.current_search_query = "h\u{e9}llo".to_string();
    widget.search_walk_forward(0);
    assert_eq!(widget.get_search_cursor_position(), 1);
    widget.search_walk_forward(1);
    assert_eq!(widget.get_search_cursor_position(), 3);
    widget.search_walk_back(3);
    assert_eq!(widget.get_search_cursor_position(), 1);
    widget.search_walk_back(1);
    assert_eq!(widget.get_search_cursor_position(), 0);
}

#[test]
fn temperature_defaults_to_celsius() {
    assert!(matches!(TemperatureType::default(), TemperatureType::Celsius));
}

#[test]
fn cursor_steps_to_the_boundary_found_or_stays() {
    assert_eq!(step_cursor(4, Some(9)), 9);
    assert_eq!(step_cursor(4, Some(0)), 0);
    assert_eq!(step_cursor(4, None), 4);
}

#[test]
fn new_grouped_widget_counts_and_hides_user_and_state() {
    let widget: ProcWidget<String> =
        ProcWidget::new(&config(), ProcWidgetMode::Grouped, false, false, false, false, false);
    assert_eq!(widget.table.columns[0].inner, ProcColumn::Count);
    assert_eq!(widget.table.columns[0].default_order, SortOrder::Descending);
    assert!(widget.table.columns[USER].is_hidden);
    assert!(widget.table.columns[STATE].is_hidden);
    assert_eq!(widget.num_enabled_columns(), 8);
    assert_eq!(
        widget.column_text(),
        vec!["Count", "Name", "CPU%", "Mem%", "R/s", "W/s", "T.Read", "T.Write"]
    );
    assert_eq!(widget.table.sort_index(), CPU);
    assert_eq!(widget.table.order(), SortOrder::Descending);
}

#[test]
fn new_grouped_widget_equals_a_plain_one_after_tab() {
    let grouped: ProcWidget<String> =
        ProcWidget::new(&config(), ProcWidgetMode::Grouped, false, false, false, true, true);
    let mut tabbed: ProcWidget<String> =
        ProcWidget::new(&config(), ProcWidgetMode::Normal, false, false, false, true, true);
    tabbed.on_tab();
    assert_eq!(grouped.table.columns.len(), tabbed.table.columns.len());
    for (a, b) in grouped.table.columns.iter().zip(tabbed.table.columns.iter()) {
        assert_eq!(a.inner, b.inner);
        assert_eq!(a.bounds, b.bounds);
        assert_eq!(a.is_hidden, b.is_hidden);
        assert_eq!(a.default_order, b.default_order);
    }
    assert_eq!(grouped.table.sort_index(), tabbed.table.sort_index());
    assert_eq!(grouped.table.order(), tabbed.table.order());
}

#[test]
fn new_grouped_widget_goes_back_to_all_columns_on_tab() {
    let mut widget: ProcWidget<String> =
        ProcWidget::new(&config(), ProcWidgetMode::Grouped, false, false, false, false, false);
    widget.on_tab();
    assert!(matches!(widget.mode, ProcWidgetMode::Normal));
    assert_eq!(widget.table.columns[0].inner, ProcColumn::Pid);
    assert_eq!(widget.table.columns[0].default_order, SortOrder::Ascending);
    assert_eq!(widget.num_enabled_columns(), 10);
}

#[test]
fn refresh_leaves_the_tree_alone_on_a_cyclic_snapshot() {
    let mut widget = tree_widget();
    let good = initd_family();
    assert!(widget.refresh(&good, &matching(&[])));
    assert_eq!(widget.table_data.len(), 3);
    let mut cyclic = initd_family();
    cyclic.process_parent_mapping.insert(3, vec![1]);
    assert!(!widget.refresh(&cyclic, &matching(&[])));
    let pids: Vec<i32> = widget.table_data.iter().map(|r| r.pid).collect();
    assert_eq!(pids, vec![1, 2, 3]);
}

#[test]
fn refresh_in_a_flat_view_takes_any_snapshot() {
    let mut widget = normal_widget();
    let mut cyclic = initd_family();
    cyclic.process_parent_mapping.insert(3, vec![1]);
    assert!(widget.refresh(&cyclic, &matching(&[])));
    assert_eq!(widget.table_data.len(), 3);
}

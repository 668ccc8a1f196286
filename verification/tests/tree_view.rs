use fxhash::{FxHashMap, FxHashSet};
use proc_view::column::{ProcColumn, SortOrder};
use proc_view::filter::filter_tree;
use proc_view::harvest::{ProcessData, ProcessHarvest, ProcessState};
use proc_view::row::{MemUsage, ProcWidgetData};
use proc_view::sort::RowStyle;
use proc_view::tree::{get_tree_data, make_prefix, rows_for};

fn process(pid: i32, parent: Option<i32>, name: &str, cpu: u64) -> ProcessHarvest {
    ProcessHarvest {
        pid,
        parent_pid: parent,
        name: name.to_string(),
        command: format!("/usr/bin/{name} --flag"),
        cpu_millipercent: cpu,
        mem_millipercent: 10 * cpu,
        mem_usage_bytes: 1000 * cpu,
        read_bytes_per_sec: cpu + 1,
        write_bytes_per_sec: cpu + 2,
        total_read_bytes: cpu + 3,
        total_write_bytes: cpu + 4,
        user: "root".to_string(),
        process_state: ProcessState::Sleeping,
    }
}

fn snapshot(processes: Vec<ProcessHarvest>) -> ProcessData {
    let mut harvest = FxHashMap::default();
    let mut parents: FxHashMap<i32, Vec<i32>> = FxHashMap::default();
    let mut orphans = Vec::new();
    let pids: Vec<i32> = processes.iter().map(|p| p.pid).collect();
    for p in &processes {
        match p.parent_pid {
            Some(parent) if pids.contains(&parent) => parents.entry(parent).or_default().push(p.pid),
            _ => orphans.push(p.pid),
        }
    }
    for p in processes {
        harvest.insert(p.pid, p);
    }
    ProcessData { process_harvest: harvest, process_parent_mapping: parents, orphan_pids: orphans }
}

fn by_pid() -> RowStyle {
    RowStyle {
        is_command: false,
        is_mem_percent: true,
        sort_column: Some(ProcColumn::Pid),
        order: SortOrder::Ascending,
    }
}

fn set(pids: &[i32]) -> FxHashSet<i32> {
    pids.iter().copied().collect()
}

fn labels(rows: &[ProcWidgetData]) -> Vec<(String, String, bool)> {
    rows.iter()
        .map(|r| (r.prefix.clone().unwrap_or_default(), r.id.clone(), r.disabled))
        .collect()
}

fn initd_family() -> ProcessData {
    snapshot(vec![
        process(1, None, "initd", 1_000),
        process(2, Some(1), "sshd", 2_000),
        process(3, Some(1), "bash", 4_000),
    ])
}

#[test]
fn tree_search_keeps_match_and_its_ancestors() {
    let data = initd_family();
    let kept = set(&[3]);
    let rows = get_tree_data(&data, Some(&kept), &set(&[]), &by_pid());
    assert_eq!(
        labels(&rows),
        vec![
            ("".to_string(), "initd".to_string(), true),
            ("\u{2514}\u{2500} ".to_string(), "bash".to_string(), false),
        ]
    );
}

#[test]
fn tree_collapsed_root_sums_shown_subtree() {
    let data = initd_family();
    let kept = set(&[3]);
    let rows = get_tree_data(&data, Some(&kept), &set(&[1]), &by_pid());
    assert_eq!(rows.len(), 1);
    let row = &rows[0];
    assert_eq!(row.pid, 1);
    assert_eq!(row.id, "initd");
    assert_eq!(row.prefix.as_deref(), Some("+ "));
    assert!(row.disabled);
    assert_eq!(row.cpu_usage, 5_000);
    assert_eq!(row.mem_usage, MemUsage::Percent(50_000));
    assert_eq!(row.rps, 1_001 + 4_001);
    assert_eq!(row.wps, 1_002 + 4_002);
    assert_eq!(row.total_read, 1_003 + 4_003);
    assert_eq!(row.total_write, 1_004 + 4_004);
}

#[test]
fn tree_without_search_shows_everything_enabled() {
    let data = initd_family();
    let rows = get_tree_data(&data, None, &set(&[]), &by_pid());
    assert_eq!(
        labels(&rows),
        vec![
            ("".to_string(), "initd".to_string(), false),
            ("\u{251c}\u{2500} ".to_string(), "sshd".to_string(), false),
            ("\u{2514}\u{2500} ".to_string(), "bash".to_string(), false),
        ]
    );
}

#[test]
fn tree_search_that_matches_nothing_is_empty() {
    let data = initd_family();
    let rows = get_tree_data(&data, Some(&set(&[])), &set(&[]), &by_pid());
    assert!(rows.is_empty());
}

#[test]
fn tree_decorates_nested_levels() {
    let data = snapshot(vec![
        process(1, None, "a", 1),
        process(2, Some(1), "b", 1),
        process(3, Some(2), "c", 1),
        process(4, Some(2), "d", 1),
        process(5, Some(1), "e", 1),
        process(6, Some(5), "f", 1),
        process(7, None, "g", 1),
    ]);
    let rows = get_tree_data(&data, None, &set(&[]), &by_pid());
    let shown: Vec<String> =
        rows.iter().map(|r| format!("{}{}", r.prefix.clone().unwrap(), r.id)).collect();
    assert_eq!(
        shown,
        vec![
            "a",
            "\u{251c}\u{2500} b",
            "\u{2502}  \u{251c}\u{2500} c",
            "\u{2502}  \u{2514}\u{2500} d",
            "\u{2514}\u{2500} e",
            "   \u{2514}\u{2500} f",
            "g",
        ]
    );
}

#[test]
fn tree_collapsed_child_is_marked_behind_its_branch() {
    let data = snapshot(vec![
        process(1, None, "a", 1),
        process(2, Some(1), "b", 10),
        process(3, Some(2), "c", 100),
        process(4, Some(3), "d", 1_000),
        process(5, Some(1), "e", 7),
    ]);
    let rows = get_tree_data(&data, None, &set(&[2]), &by_pid());
    let shown: Vec<String> =
        rows.iter().map(|r| format!("{}{}", r.prefix.clone().unwrap(), r.id)).collect();
    assert_eq!(shown, vec!["a", "\u{251c}\u{2500} + b", "\u{2514}\u{2500} e"]);
    assert_eq!(rows[1].cpu_usage, 1_110);
    assert_eq!(rows[1].pid, 2);
}

#[test]
fn tree_stale_collapsed_pid_changes_nothing() {
    let data = initd_family();
    let with_stale = get_tree_data(&data, None, &set(&[999]), &by_pid());
    let without = get_tree_data(&data, None, &set(&[]), &by_pid());
    assert_eq!(labels(&with_stale), labels(&without));
}

#[test]
fn tree_siblings_follow_the_sort_direction() {
    let data = snapshot(vec![
        process(1, None, "root", 1),
        process(2, Some(1), "low", 5),
        process(3, Some(1), "high", 50),
        process(4, Some(1), "mid", 20),
    ]);
    let mut style = by_pid();
    style.sort_column = Some(ProcColumn::CpuPercent);
    style.order = SortOrder::Descending;
    let rows = get_tree_data(&data, None, &set(&[]), &style);
    let names: Vec<&str> = rows.iter().map(|r| r.id.as_str()).collect();
    assert_eq!(names, vec!["root", "high", "mid", "low"]);
    style.order = SortOrder::Ascending;
    let rows = get_tree_data(&data, None, &set(&[]), &style);
    let names: Vec<&str> = rows.iter().map(|r| r.id.as_str()).collect();
    assert_eq!(names, vec!["root", "low", "mid", "high"]);
}

#[test]
fn tree_roots_follow_the_sort_direction() {
    let data = snapshot(vec![process(9, None, "z", 1), process(4, None, "y", 2), process(6, None, "x", 3)]);
    let rows = get_tree_data(&data, None, &set(&[]), &by_pid());
    let pids: Vec<i32> = rows.iter().map(|r| r.pid).collect();
    assert_eq!(pids, vec![4, 6, 9]);
}

#[test]
fn tree_skips_orphans_and_children_without_record() {
    let mut data = initd_family();
    data.orphan_pids.push(77);
    data.process_parent_mapping.get_mut(&1).unwrap().push(88);
    let rows = get_tree_data(&data, None, &set(&[]), &by_pid());
    let pids: Vec<i32> = rows.iter().map(|r| r.pid).collect();
    assert_eq!(pids, vec![1, 2, 3]);
}

#[test]
fn tree_deep_chain_needs_no_deep_call_stack() {
    let depth = 600;
    let mut processes = vec![process(1, None, "p", 1)];
    for pid in 2..=depth {
        processes.push(process(pid, Some(pid - 1), "p", 1));
    }
    let data = snapshot(processes);
    let kept = set(&[depth]);
    let rows = get_tree_data(&data, Some(&kept), &set(&[]), &by_pid());
    assert_eq!(rows.len(), depth as usize);
    assert!(rows[..rows.len() - 1].iter().all(|r| r.disabled));
    assert!(!rows[rows.len() - 1].disabled);
    let collapsed = get_tree_data(&data, Some(&kept), &set(&[1]), &by_pid());
    assert_eq!(collapsed.len(), 1);
    assert_eq!(collapsed[0].cpu_usage, depth as u64);
}

#[test]
fn collapsed_sum_saturates() {
    let data = snapshot(vec![
        process(1, None, "a", u64::MAX - 10),
        process(2, Some(1), "b", 100),
    ]);
    let rows = get_tree_data(&data, None, &set(&[1]), &by_pid());
    assert_eq!(rows.len(), 1);
    assert_eq!(rows[0].cpu_usage, u64::MAX);
}

#[test]
fn filtered_forest_lists_shown_children_in_index_order() {
    let data = snapshot(vec![
        process(1, None, "a", 1),
        process(2, Some(1), "b", 1),
        process(3, Some(1), "c", 1),
        process(4, Some(1), "d", 1),
        process(5, Some(3), "e", 1),
    ]);
    let kept = set(&[5, 4]);
    let filtered = filter_tree(&data, Some(&kept));
    let mut keys: Vec<i32> = filtered.keys().copied().collect();
    keys.sort();
    assert_eq!(keys, vec![1, 3, 4, 5]);
    assert_eq!(filtered[&1], vec![3, 4]);
    assert_eq!(filtered[&3], vec![5]);
    assert_eq!(filtered[&4], Vec::<i32>::new());
    assert_eq!(filtered[&5], Vec::<i32>::new());
}

#[test]
fn filtered_forest_leaves_out_what_no_root_reaches() {
    let mut data = initd_family();
    data.process_harvest.insert(50, process(50, Some(49), "lost", 1));
    let filtered = filter_tree(&data, None);
    assert!(!filtered.contains_key(&50));
    assert!(filtered.contains_key(&1));
}

#[test]
fn filtered_forest_handles_a_child_listed_twice() {
    let mut data = initd_family();
    data.process_parent_mapping.get_mut(&1).unwrap().push(3);
    let filtered = filter_tree(&data, Some(&set(&[3])));
    assert_eq!(filtered[&1], vec![3, 3]);
}

#[test]
fn rows_for_skips_pids_without_record() {
    let data = initd_family();
    let rows = rows_for(&data, &vec![3, 42, 1], &by_pid());
    let pids: Vec<i32> = rows.iter().map(|r| r.pid).collect();
    assert_eq!(pids, vec![3, 1]);
    assert_eq!(rows[0].num_similar, 1);
    assert_eq!(rows[0].prefix, None);
}

#[test]
fn prefix_at_top_level_is_empty_or_plus() {
    assert_eq!(make_prefix(&vec![], true, false), "");
    assert_eq!(make_prefix(&vec![], false, true), "+ ");
}

#[test]
fn prefix_joins_fragments_and_branch() {
    let fragments = vec!["".to_string(), "\u{2502}  ".to_string(), "   ".to_string()];
    assert_eq!(make_prefix(&fragments, false, false), "\u{2502}     \u{251c}\u{2500} ");
    assert_eq!(make_prefix(&fragments, true, false), "\u{2502}     \u{2514}\u{2500} ");
    assert_eq!(make_prefix(&fragments, true, true), "\u{2502}     \u{2514}\u{2500} + ");
}

#[test]
fn tree_gives_each_visible_process_exactly_one_row() {
    let data = snapshot(vec![
        process(1, None, "a", 1),
        process(2, Some(1), "b", 1),
        process(3, Some(2), "c", 1),
        process(4, Some(2), "d", 1),
        process(5, Some(1), "e", 1),
        process(6, Some(5), "f", 1),
        process(7, None, "g", 1),
        process(8, Some(7), "h", 1),
    ]);
    let kept = set(&[3, 6, 8]);
    let rows = get_tree_data(&data, Some(&kept), &set(&[5, 3, 99]), &by_pid());
    let mut pids: Vec<i32> = rows.iter().map(|r| r.pid).collect();
    pids.sort();
    // 4 matches nothing and has no match below; 6 lies under the collapsed 5.
    assert_eq!(pids, vec![1, 2, 3, 5, 7, 8]);
}

#[test]
fn tree_without_search_and_collapse_has_one_row_per_record() {
    let mut processes = vec![process(1, None, "root", 1)];
    for pid in 2..40 {
        processes.push(process(pid, Some(pid / 2), "p", pid as u64));
    }
    let data = snapshot(processes);
    let rows = get_tree_data(&data, None, &set(&[]), &by_pid());
    assert_eq!(rows.len(), data.process_harvest.len());
    let mut pids: Vec<i32> = rows.iter().map(|r| r.pid).collect();
    pids.sort();
    assert_eq!(pids, (1..40).collect::<Vec<i32>>());
    assert!(rows.iter().all(|r| !r.disabled));
}

#[test]
fn forest_test_accepts_a_process_tree() {
    assert!(initd_family().is_forest());
    assert!(snapshot(vec![]).is_forest());
    let mut deep = vec![process(1, None, "p", 1)];
    for pid in 2..300 {
        deep.push(process(pid, Some(pid - 1), "p", 1));
    }
    assert!(snapshot(deep).is_forest());
}

#[test]
fn forest_test_accepts_children_without_record_and_shared_children() {
    let mut data = initd_family();
    data.process_parent_mapping.get_mut(&1).unwrap().push(88);
    data.process_parent_mapping.insert(2, vec![3, 3]);
    assert!(data.is_forest());
}

#[test]
fn forest_test_refuses_a_cycle() {
    let mut data = initd_family();
    data.process_parent_mapping.insert(3, vec![1]);
    assert!(!data.is_forest());
    let mut own_child = initd_family();
    own_child.process_parent_mapping.insert(2, vec![2]);
    assert!(!own_child.is_forest());
    let mut far = initd_family();
    far.process_parent_mapping.insert(70, vec![71]);
    far.process_parent_mapping.insert(71, vec![72]);
    far.process_parent_mapping.insert(72, vec![70]);
    assert!(!far.is_forest());
}

#[test]
fn forest_test_refuses_a_record_under_a_wrong_pid() {
    let mut data = initd_family();
    data.process_harvest.insert(9, process(8, None, "x", 1));
    assert!(!data.is_forest());
}

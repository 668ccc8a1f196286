use fxhash::{FxHashMap, FxHashSet};
use proc_view::column::{text_precedes, ProcColumn, SortOrder};
use proc_view::group::{get_normal_data, group_rows, keep};
use proc_view::harvest::{ProcessData, ProcessHarvest, ProcessState};
use proc_view::row::{MemUsage, ProcWidgetData};
use proc_view::sort::RowStyle;

fn worker(pid: i32, name: &str, cpu: u64, state: ProcessState) -> ProcessHarvest {
    ProcessHarvest {
        pid,
        parent_pid: None,
        name: name.to_string(),
        command: format!("{name} --pid {pid}"),
        cpu_millipercent: cpu,
        mem_millipercent: 2 * cpu,
        mem_usage_bytes: 3 * cpu,
        read_bytes_per_sec: 4 * cpu,
        write_bytes_per_sec: 5 * cpu,
        total_read_bytes: 6 * cpu,
        total_write_bytes: 7 * cpu,
        user: format!("user{}", pid % 3),
        process_state: state,
    }
}

fn flat(processes: Vec<ProcessHarvest>) -> ProcessData {
    let mut harvest = FxHashMap::default();
    let mut orphans = Vec::new();
    for p in processes {
        orphans.push(p.pid);
        harvest.insert(p.pid, p);
    }
    ProcessData {
        process_harvest: harvest,
        process_parent_mapping: FxHashMap::default(),
        orphan_pids: orphans,
    }
}

fn style(column: Option<ProcColumn>, order: SortOrder) -> RowStyle {
    RowStyle { is_command: false, is_mem_percent: true, sort_column: column, order }
}

fn row(pid: i32, name: &str, cpu: u64) -> ProcWidgetData {
    ProcWidgetData::from_data(&worker(pid, name, cpu, ProcessState::Running), false, true)
}

#[test]
fn grouped_by_name_sums_cpu_and_counts_members() {
    let data = flat(vec![
        worker(10, "worker", 5_000, ProcessState::Running),
        worker(11, "worker", 7_000, ProcessState::Running),
    ]);
    let (rows, index) =
        get_normal_data(&data, &vec![10, 11], None, true, &style(Some(ProcColumn::CpuPercent), SortOrder::Descending));
    assert_eq!(rows.len(), 1);
    assert_eq!(rows[0].id, "worker");
    assert_eq!(rows[0].cpu_usage, 12_000);
    assert_eq!(rows[0].num_similar, 2);
    assert_eq!(rows[0].mem_usage, MemUsage::Percent(24_000));
    assert_eq!(rows[0].rps, 48_000);
    assert_eq!(rows[0].wps, 60_000);
    assert_eq!(rows[0].total_read, 72_000);
    assert_eq!(rows[0].total_write, 84_000);
    assert_eq!(index.len(), 1);
    assert_eq!(index["worker"], vec![10, 11]);
}

#[test]
fn grouped_keeps_one_row_per_label() {
    let data = flat(vec![
        worker(1, "a", 1, ProcessState::Running),
        worker(2, "b", 10, ProcessState::Running),
        worker(3, "a", 100, ProcessState::Running),
        worker(4, "c", 1_000, ProcessState::Running),
        worker(5, "b", 10_000, ProcessState::Running),
        worker(6, "a", 100_000, ProcessState::Running),
    ]);
    let (rows, index) = get_normal_data(&data, &vec![1, 2, 3, 4, 5, 6], None, true, &style(None, SortOrder::Ascending));
    let summary: Vec<(&str, u64, u64, i32)> =
        rows.iter().map(|r| (r.id.as_str(), r.cpu_usage, r.num_similar, r.pid)).collect();
    assert_eq!(summary, vec![("a", 100_101, 3, 1), ("b", 10_010, 2, 2), ("c", 1_000, 1, 4)]);
    assert_eq!(index.len(), 3);
    assert_eq!(index["a"], vec![1, 3, 6]);
    assert_eq!(index["b"], vec![2, 5]);
    assert_eq!(index["c"], vec![4]);
}

#[test]
fn grouped_by_command_uses_the_command_line() {
    let data = flat(vec![
        worker(1, "w", 1, ProcessState::Running),
        worker(2, "w", 2, ProcessState::Running),
    ]);
    let by_command = RowStyle { is_command: true, is_mem_percent: false, sort_column: None, order: SortOrder::Ascending };
    let (rows, _) = get_normal_data(&data, &vec![1, 2], None, true, &by_command);
    let ids: Vec<&str> = rows.iter().map(|r| r.id.as_str()).collect();
    assert_eq!(ids, vec!["w --pid 1", "w --pid 2"]);
    assert_eq!(rows[0].mem_usage, MemUsage::Bytes(3));
}

#[test]
fn grouped_sorts_by_count() {
    let data = flat(vec![
        worker(1, "solo", 1, ProcessState::Running),
        worker(2, "pair", 1, ProcessState::Running),
        worker(3, "pair", 1, ProcessState::Running),
    ]);
    let (rows, _) =
        get_normal_data(&data, &vec![1, 2, 3], None, true, &style(Some(ProcColumn::Count), SortOrder::Descending));
    let ids: Vec<&str> = rows.iter().map(|r| r.id.as_str()).collect();
    assert_eq!(ids, vec!["pair", "solo"]);
}

#[test]
fn grouped_filters_before_grouping() {
    let data = flat(vec![
        worker(1, "w", 1, ProcessState::Running),
        worker(2, "w", 2, ProcessState::Running),
        worker(3, "w", 4, ProcessState::Running),
    ]);
    let kept: FxHashSet<i32> = [1, 3].into_iter().collect();
    let (rows, index) = get_normal_data(&data, &vec![1, 2, 3], Some(&kept), true, &style(None, SortOrder::Ascending));
    assert_eq!(rows.len(), 1);
    assert_eq!(rows[0].cpu_usage, 5);
    assert_eq!(rows[0].num_similar, 2);
    assert_eq!(index["w"], vec![1, 3]);
}

#[test]
fn normal_has_one_row_per_kept_process() {
    let data = flat(vec![
        worker(1, "a", 3, ProcessState::Running),
        worker(2, "b", 1, ProcessState::Running),
        worker(3, "c", 2, ProcessState::Running),
    ]);
    let kept: FxHashSet<i32> = [1, 2].into_iter().collect();
    let (rows, index) =
        get_normal_data(&data, &vec![3, 2, 1], Some(&kept), false, &style(Some(ProcColumn::CpuPercent), SortOrder::Ascending));
    let pids: Vec<i32> = rows.iter().map(|r| r.pid).collect();
    assert_eq!(pids, vec![2, 1]);
    assert!(index.is_empty());
    assert!(rows.iter().all(|r| !r.disabled && r.prefix.is_none() && r.num_similar == 1));
}

#[test]
fn normal_without_search_shows_every_record() {
    let data = flat(vec![
        worker(1, "a", 3, ProcessState::Running),
        worker(2, "b", 1, ProcessState::Running),
    ]);
    let (rows, _) = get_normal_data(&data, &vec![1, 2], None, false, &style(Some(ProcColumn::Pid), SortOrder::Descending));
    let pids: Vec<i32> = rows.iter().map(|r| r.pid).collect();
    assert_eq!(pids, vec![2, 1]);
}

#[test]
fn normal_without_sort_column_keeps_walk_order() {
    let data = flat(vec![
        worker(1, "a", 3, ProcessState::Running),
        worker(2, "b", 1, ProcessState::Running),
        worker(3, "c", 2, ProcessState::Running),
    ]);
    let (rows, _) = get_normal_data(&data, &vec![2, 3, 9, 1], None, false, &style(None, SortOrder::Descending));
    let pids: Vec<i32> = rows.iter().map(|r| r.pid).collect();
    assert_eq!(pids, vec![2, 3, 1]);
}

#[test]
fn keep_picks_kept_pids_in_order() {
    let kept: FxHashSet<i32> = [5, 1].into_iter().collect();
    assert_eq!(keep(&vec![1, 2, 5, 1], Some(&kept)), vec![1, 5, 1]);
    assert_eq!(keep(&vec![1, 2, 5], None), vec![1, 2, 5]);
}

#[test]
fn group_rows_of_nothing_is_nothing() {
    let (rows, index) = group_rows(vec![]);
    assert!(rows.is_empty());
    assert!(index.is_empty());
}

#[test]
fn sort_is_stable_among_ties() {
    let mut rows = vec![row(1, "x", 5), row(2, "y", 3), row(3, "z", 5), row(4, "w", 3), row(5, "v", 5)];
    ProcColumn::CpuPercent.sort_data(&mut rows, SortOrder::Ascending);
    let pids: Vec<i32> = rows.iter().map(|r| r.pid).collect();
    assert_eq!(pids, vec![2, 4, 1, 3, 5]);
    let mut rows = vec![row(1, "x", 5), row(2, "y", 3), row(3, "z", 5), row(4, "w", 3), row(5, "v", 5)];
    ProcColumn::CpuPercent.sort_data(&mut rows, SortOrder::Descending);
    let pids: Vec<i32> = rows.iter().map(|r| r.pid).collect();
    assert_eq!(pids, vec![1, 3, 5, 2, 4]);
}

#[test]
fn sorting_twice_changes_nothing() {
    let mut rows = vec![row(4, "d", 9), row(1, "b", 2), row(3, "a", 9), row(2, "c", 1)];
    ProcColumn::CpuPercent.sort_data(&mut rows, SortOrder::Descending);
    let once: Vec<i32> = rows.iter().map(|r| r.pid).collect();
    ProcColumn::CpuPercent.sort_data(&mut rows, SortOrder::Descending);
    let twice: Vec<i32> = rows.iter().map(|r| r.pid).collect();
    assert_eq!(once, vec![4, 3, 1, 2]);
    assert_eq!(once, twice);
}

#[test]
fn sort_by_name_is_lexicographic() {
    let mut rows = vec![row(1, "bash", 1), row(2, "Zsh", 1), row(3, "ba", 1), row(4, "", 1), row(5, "b\u{e9}", 1)];
    ProcColumn::Name.sort_data(&mut rows, SortOrder::Ascending);
    let names: Vec<&str> = rows.iter().map(|r| r.id.as_str()).collect();
    assert_eq!(names, vec!["", "Zsh", "ba", "bash", "b\u{e9}"]);
}

#[test]
fn sort_by_state_follows_state_order() {
    let mut rows = vec![
        ProcWidgetData::from_data(&worker(1, "a", 1, ProcessState::Zombie), false, true),
        ProcWidgetData::from_data(&worker(2, "b", 1, ProcessState::Running), false, true),
        ProcWidgetData::from_data(&worker(3, "c", 1, ProcessState::Sleeping), false, true),
    ];
    ProcColumn::State.sort_data(&mut rows, SortOrder::Ascending);
    let pids: Vec<i32> = rows.iter().map(|r| r.pid).collect();
    assert_eq!(pids, vec![2, 3, 1]);
}

#[test]
fn sort_by_memory_puts_percentages_before_bytes() {
    let mut rows = vec![row(1, "a", 1), row(2, "b", 1), row(3, "c", 1)];
    rows[0].mem_usage = MemUsage::Bytes(1);
    rows[1].mem_usage = MemUsage::Percent(9);
    rows[2].mem_usage = MemUsage::Percent(3);
    ProcColumn::MemoryVal.sort_data(&mut rows, SortOrder::Ascending);
    let pids: Vec<i32> = rows.iter().map(|r| r.pid).collect();
    assert_eq!(pids, vec![3, 2, 1]);
}

#[test]
fn sort_by_each_numeric_column() {
    let columns = [
        ProcColumn::ReadPerSecond,
        ProcColumn::WritePerSecond,
        ProcColumn::TotalRead,
        ProcColumn::TotalWrite,
        ProcColumn::MemoryPercent,
        ProcColumn::Pid,
    ];
    for column in columns {
        let mut rows = vec![row(2, "a", 20), row(1, "b", 10), row(3, "c", 30)];
        column.sort_data(&mut rows, SortOrder::Ascending);
        let pids: Vec<i32> = rows.iter().map(|r| r.pid).collect();
        assert_eq!(pids, vec![1, 2, 3]);
    }
}

#[test]
fn sort_by_user_is_lexicographic() {
    let mut rows = vec![row(2, "a", 1), row(3, "b", 1), row(4, "c", 1)];
    ProcColumn::User.sort_data(&mut rows, SortOrder::Descending);
    let users: Vec<&str> = rows.iter().map(|r| r.user.as_str()).collect();
    assert_eq!(users, vec!["user2", "user1", "user0"]);
}

#[test]
fn try_sort_and_reverse_sort_are_opposite_directions() {
    let by_cpu = style(Some(ProcColumn::CpuPercent), SortOrder::Descending);
    let mut rows = vec![row(1, "a", 5), row(2, "b", 9), row(3, "c", 5)];
    by_cpu.try_sort(&mut rows);
    assert_eq!(rows.iter().map(|r| r.pid).collect::<Vec<_>>(), vec![2, 1, 3]);
    by_cpu.try_rev_sort(&mut rows);
    assert_eq!(rows.iter().map(|r| r.pid).collect::<Vec<_>>(), vec![1, 3, 2]);
    let unsorted = style(None, SortOrder::Descending);
    unsorted.try_sort(&mut rows);
    assert_eq!(rows.iter().map(|r| r.pid).collect::<Vec<_>>(), vec![1, 3, 2]);
}

#[test]
fn text_order_is_by_code_point_and_prefix_first() {
    assert!(text_precedes("a", "b"));
    assert!(!text_precedes("b", "a"));
    assert!(text_precedes("ab", "abc"));
    assert!(!text_precedes("abc", "ab"));
    assert!(!text_precedes("same", "same"));
    assert!(text_precedes("Z", "a"));
    assert!(text_precedes("z", "\u{e9}"));
    assert!(text_precedes("", "a"));
    assert!(!text_precedes("", ""));
}

#[test]
fn row_add_sums_and_saturates() {
    let mut a = row(1, "a", 10);
    let b = row(2, "b", 5);
    a.add(&b);
    assert_eq!(a.pid, 1);
    assert_eq!(a.id, "a");
    assert_eq!(a.cpu_usage, 15);
    assert_eq!(a.mem_usage, MemUsage::Percent(30));
    assert_eq!(a.rps, 60);
    let mut big = row(3, "c", 1);
    big.total_write = u64::MAX - 1;
    big.add(&b);
    assert_eq!(big.total_write, u64::MAX);
}

#[test]
fn row_builders_set_one_field_each() {
    let r = row(1, "a", 10).num_similar(4).disabled(true).prefix(Some("+ ".to_string()));
    assert_eq!(r.num_similar, 4);
    assert!(r.disabled);
    assert_eq!(r.prefix.as_deref(), Some("+ "));
    assert_eq!(r.cpu_usage, 10);
}

#[test]
fn from_data_picks_label_and_memory_unit() {
    let p = worker(7, "name", 3, ProcessState::Idle);
    let by_name = ProcWidgetData::from_data(&p, false, true);
    assert_eq!(by_name.id, "name");
    assert_eq!(by_name.mem_usage, MemUsage::Percent(6));
    let by_command = ProcWidgetData::from_data(&p, true, false);
    assert_eq!(by_command.id, "name --pid 7");
    assert_eq!(by_command.mem_usage, MemUsage::Bytes(9));
    assert_eq!(by_command.pid, 7);
    assert_eq!(by_command.user, "user1");
    assert_eq!(by_command.process_state, ProcessState::Idle);
    assert_eq!(by_command.num_similar, 1);
    assert!(!by_command.disabled);
}

#[test]
fn sort_agrees_with_a_stable_reference_sort() {
    let mut seed: u64 = 0x2545_f491_4f6c_dd1d;
    let mut rows = Vec::new();
    for pid in 0..257 {
        seed = seed.wrapping_mul(6364136223846793005).wrapping_add(1442695040888963407);
        rows.push(row(pid, "p", (seed >> 33) % 17));
    }
    for order in [SortOrder::Ascending, SortOrder::Descending] {
        let mut expected: Vec<(u64, i32)> = rows.iter().map(|r| (r.cpu_usage, r.pid)).collect();
        match order {
            SortOrder::Ascending => expected.sort_by(|a, b| a.0.cmp(&b.0)),
            SortOrder::Descending => expected.sort_by(|a, b| b.0.cmp(&a.0)),
        }
        let mut sorted = rows.clone();
        ProcColumn::CpuPercent.sort_data(&mut sorted, order);
        let got: Vec<(u64, i32)> = sorted.iter().map(|r| (r.cpu_usage, r.pid)).collect();
        assert_eq!(got, expected);
    }
}

#[test]
fn sort_of_nothing_and_of_one_row() {
    let mut none: Vec<ProcWidgetData> = Vec::new();
    ProcColumn::Pid.sort_data(&mut none, SortOrder::Ascending);
    assert!(none.is_empty());
    let mut one = vec![row(5, "a", 1)];
    ProcColumn::Pid.sort_data(&mut one, SortOrder::Descending);
    assert_eq!(one[0].pid, 5);
}

#[test]
fn grouping_many_labels_keeps_every_sum_and_list() {
    let mut rows = Vec::new();
    for pid in 0..600 {
        rows.push(row(pid, &format!("label{}", pid % 150), 1 + (pid as u64 % 7)));
    }
    let expected_first: Vec<i32> = (0..150).collect();
    let (groups, index) = group_rows(rows.clone());
    assert_eq!(groups.iter().map(|g| g.pid).collect::<Vec<_>>(), expected_first);
    assert_eq!(index.len(), 150);
    for group in &groups {
        let members: Vec<&ProcWidgetData> = rows.iter().filter(|r| r.id == group.id).collect();
        assert_eq!(group.num_similar, 4);
        assert_eq!(group.cpu_usage, members.iter().map(|r| r.cpu_usage).sum::<u64>());
        assert_eq!(index[&group.id], members.iter().map(|r| r.pid).collect::<Vec<_>>());
    }
}

#[test]
fn grouping_lists_a_pid_as_often_as_it_comes() {
    let (groups, index) = group_rows(vec![row(1, "a", 1), row(1, "a", 1), row(1, "b", 1)]);
    assert_eq!(groups.len(), 2);
    assert_eq!(groups[0].num_similar, 2);
    assert_eq!(index["a"], vec![1, 1]);
    assert_eq!(index["b"], vec![1]);
}

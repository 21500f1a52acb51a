use rename_planner::model::{FileMeta, FileStatus, SelEntry, Task};
use rename_planner::session::{RenameGate, Session};

fn old_names(statuses: &[FileStatus]) -> Vec<String> {
    statuses.iter().map(|s| s.old_file_name.clone()).collect()
}

fn with_meta(path: &str, modified: Option<i64>, created: Option<i64>, size: u64) -> SelEntry {
    SelEntry::new(path.to_string(), Some(FileMeta { modified, created, size }))
}

fn bare(path: &str) -> SelEntry {
    SelEntry::new(path.to_string(), None)
}

#[test]
fn name_sort_is_the_default() {
    let mut s = Session::new();
    let out = s.user_open_files(vec![bare("c.txt"), bare("a.txt"), bare("b.txt")]);
    assert_eq!(old_names(&out), vec!["a.txt", "b.txt", "c.txt"]);
}

#[test]
fn unknown_sort_choice_falls_back_to_name() {
    let mut s = Session::new();
    s.user_open_files(vec![bare("b.txt"), bare("a.txt")]);
    let out = s.user_update_sort("whatever".to_string());
    assert_eq!(old_names(&out), vec!["a.txt", "b.txt"]);
}

#[test]
fn size_sort_is_descending() {
    let mut s = Session::new();
    s.user_open_files(vec![
        with_meta("small.txt", Some(0), Some(0), 5),
        with_meta("big.txt", Some(0), Some(0), 10),
    ]);
    let out = s.user_update_sort("size".to_string());
    assert_eq!(old_names(&out), vec!["big.txt", "small.txt"]);
}

#[test]
fn size_sort_handles_the_largest_size() {
    let mut s = Session::new();
    s.user_open_files(vec![
        with_meta("huge.bin", Some(0), Some(0), u64::MAX),
        with_meta("tiny.bin", Some(0), Some(0), 0),
    ]);
    let out = s.user_update_sort("size".to_string());
    assert_eq!(old_names(&out), vec!["huge.bin", "tiny.bin"]);
}

#[test]
fn equal_sizes_keep_arrival_order() {
    let mut s = Session::new();
    s.user_open_files(vec![
        with_meta("b.txt", Some(0), Some(0), 7),
        with_meta("a.txt", Some(0), Some(0), 7),
    ]);
    let out = s.user_update_sort("size".to_string());
    // the selection is naturally sorted, so arrival order here is a, b
    assert_eq!(old_names(&out), vec!["a.txt", "b.txt"]);
}

#[test]
fn modified_sort_is_ascending() {
    let mut s = Session::new();
    s.user_open_files(vec![
        with_meta("newer.txt", Some(200), None, 1),
        with_meta("older.txt", Some(100), None, 1),
    ]);
    let out = s.user_update_sort("modified".to_string());
    assert_eq!(old_names(&out), vec!["older.txt", "newer.txt"]);
}

#[test]
fn created_sort_is_ascending() {
    let mut s = Session::new();
    s.user_open_files(vec![
        with_meta("newer.txt", None, Some(200), 1),
        with_meta("older.txt", None, Some(100), 1),
    ]);
    let out = s.user_update_sort("created".to_string());
    assert_eq!(old_names(&out), vec!["older.txt", "newer.txt"]);
}

#[test]
fn unreadable_entries_are_dropped_by_metadata_sorts() {
    let mut s = Session::new();
    s.user_open_files(vec![bare("ghost.txt"), with_meta("real.txt", Some(1), Some(1), 1)]);
    let out = s.user_update_sort("size".to_string());
    assert_eq!(old_names(&out), vec!["real.txt"]);
    let out = s.user_update_sort("modified".to_string());
    assert_eq!(old_names(&out), vec!["real.txt"]);
}

#[test]
fn entries_without_a_modified_stamp_are_dropped_by_that_sort() {
    let mut s = Session::new();
    s.user_open_files(vec![
        with_meta("stampless.txt", None, Some(5), 1),
        with_meta("stamped.txt", Some(5), None, 1),
    ]);
    let out = s.user_update_sort("modified".to_string());
    assert_eq!(old_names(&out), vec!["stamped.txt"]);
}

#[test]
fn type_sort_orders_extensions_and_puts_plain_names_last() {
    let mut s = Session::new();
    s.user_open_files(vec![
        with_meta("noext", Some(0), Some(0), 1),
        with_meta("b.zip", Some(0), Some(0), 1),
        with_meta("c.tar", Some(0), Some(0), 1),
    ]);
    let out = s.user_update_sort("type".to_string());
    assert_eq!(old_names(&out), vec!["c.tar", "b.zip", "noext"]);
}

#[test]
fn name_sort_keeps_every_entry_even_without_metadata() {
    let mut s = Session::new();
    s.user_open_files(vec![bare("q.txt"), with_meta("p.txt", Some(0), Some(0), 1)]);
    let out = s.user_update_sort("name".to_string());
    assert_eq!(old_names(&out), vec!["p.txt", "q.txt"]);
}

#[test]
fn gate_blocks_when_nothing_is_set_up() {
    let s = Session::new();
    assert_eq!(s.user_rename_gate(), RenameGate::MissingBoth);
}

#[test]
fn gate_blocks_without_files() {
    let mut s = Session::new();
    s.user_update_tasks(vec![Task::ClearAll { active: true }]);
    assert_eq!(s.user_rename_gate(), RenameGate::MissingFiles);
}

#[test]
fn gate_blocks_without_tasks() {
    let mut s = Session::new();
    s.user_open_files(vec![bare("a.txt")]);
    assert_eq!(s.user_rename_gate(), RenameGate::MissingTasks);
}

#[test]
fn gate_opens_with_files_and_tasks() {
    let mut s = Session::new();
    s.user_update_tasks(vec![Task::ClearAll { active: true }]);
    s.user_open_files(vec![bare("a.txt")]);
    assert_eq!(s.user_rename_gate(), RenameGate::Ready);
}

#[test]
fn selection_orders_digit_runs_numerically() {
    let mut s = Session::new();
    let out = s.user_open_files(vec![bare("file10"), bare("file2")]);
    // both the natural selection order and the (tie-free) name sort are
    // observable here: plain code-point order would put file10 first,
    // the digit-aware selection puts file2 first, and the name sort then
    // decides the displayed order
    assert_eq!(s.entries.len(), 2);
    assert_eq!(s.entries[0].path, "file2");
    assert_eq!(s.entries[1].path, "file10");
    assert_eq!(old_names(&out), vec!["file10", "file2"]);
}

#[test]
fn empty_search_shows_every_row() {
    let mut s = Session::new();
    s.user_open_files(vec![bare("a.txt"), bare("b.txt")]);
    let out = s.user_update_search(String::new());
    assert_eq!(old_names(&out), vec!["a.txt", "b.txt"]);
}

#[test]
fn search_is_case_sensitive() {
    let mut s = Session::new();
    s.user_open_files(vec![bare("Apple.txt"), bare("apricot.txt")]);
    let out = s.user_update_search("Ap".to_string());
    assert_eq!(old_names(&out), vec!["Apple.txt"]);
}

#[test]
fn collision_groups_count_independently() {
    let mut s = Session::new();
    s.user_update_tasks(vec![
        Task::FindAndReplace {
            find_text: "a".to_string(),
            replace_text: "x".to_string(),
            active: true,
        },
        Task::FindAndReplace {
            find_text: "b".to_string(),
            replace_text: "x".to_string(),
            active: true,
        },
        Task::FindAndReplace {
            find_text: "c".to_string(),
            replace_text: "y".to_string(),
            active: true,
        },
        Task::FindAndReplace {
            find_text: "d".to_string(),
            replace_text: "y".to_string(),
            active: true,
        },
    ]);
    let out = s.user_open_files(vec![bare("a.txt"), bare("b.txt"), bare("c.txt"), bare("d.txt")]);
    let news: Vec<String> = out.iter().map(|r| r.new_file_name.clone()).collect();
    assert_eq!(news, vec!["x.txt", "x_0001.txt", "y.txt", "y_0001.txt"]);
}

#[test]
fn changing_the_sort_renumbers_the_files() {
    let mut s = Session::new();
    s.user_update_tasks(vec![Task::NumSequence {
        start_num: 1,
        num_padding: 2,
        at_start: true,
        separator: "_".to_string(),
        active: true,
    }]);
    s.user_open_files(vec![
        with_meta("a.txt", Some(200), None, 1),
        with_meta("b.txt", Some(100), None, 1),
    ]);
    let out = s.user_update_sort("modified".to_string());
    assert_eq!(
        out.iter().map(|r| r.new_file_name.clone()).collect::<Vec<_>>(),
        vec!["01_b.txt", "02_a.txt"]
    );
}

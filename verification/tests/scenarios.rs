use rename_planner::model::{FileMeta, FileStatus, SelEntry, Task};
use rename_planner::session::Session;

fn rows(statuses: &[FileStatus]) -> Vec<(String, String)> {
    statuses
        .iter()
        .map(|s| (s.old_file_name.clone(), s.new_file_name.clone()))
        .collect()
}

fn plain(path: &str) -> SelEntry {
    SelEntry::new(path.to_string(), None)
}

fn stamped(path: &str, modified: i64, size: u64) -> SelEntry {
    SelEntry::new(
        path.to_string(),
        Some(FileMeta { modified: Some(modified), created: Some(modified), size }),
    )
}

#[test]
fn numbering_after_name_sort() {
    let mut s = Session::new();
    s.user_update_tasks(vec![Task::NumSequence {
        start_num: 1,
        num_padding: 2,
        at_start: true,
        separator: "_".to_string(),
        active: true,
    }]);
    let out = s.user_open_files(vec![plain("b.txt"), plain("a.txt"), plain("a.txt")]);
    assert_eq!(
        rows(&out),
        vec![
            ("a.txt".to_string(), "01_a.txt".to_string()),
            ("b.txt".to_string(), "02_b.txt".to_string()),
        ]
    );
}

#[test]
fn colliding_targets_get_suffixes_in_order() {
    let mut s = Session::new();
    s.user_update_tasks(vec![
        Task::FindAndReplace {
            find_text: "a".to_string(),
            replace_text: "x".to_string(),
            active: true,
        },
        Task::FindAndReplace {
            find_text: "b".to_string(),
            replace_text: "x".to_string(),
            active: true,
        },
    ]);
    let out = s.user_open_files(vec![plain("a.txt"), plain("b.txt")]);
    assert_eq!(
        rows(&out),
        vec![
            ("a.txt".to_string(), "x.txt".to_string()),
            ("b.txt".to_string(), "x_0001.txt".to_string()),
        ]
    );
}

#[test]
fn three_way_collision_counts_upward() {
    let mut s = Session::new();
    s.user_update_tasks(vec![
        Task::FindAndReplace {
            find_text: "a".to_string(),
            replace_text: "x".to_string(),
            active: true,
        },
        Task::FindAndReplace {
            find_text: "b".to_string(),
            replace_text: "x".to_string(),
            active: true,
        },
        Task::FindAndReplace {
            find_text: "c".to_string(),
            replace_text: "x".to_string(),
            active: true,
        },
    ]);
    let out = s.user_open_files(vec![plain("a.txt"), plain("b.txt"), plain("c.txt")]);
    assert_eq!(
        rows(&out),
        vec![
            ("a.txt".to_string(), "x.txt".to_string()),
            ("b.txt".to_string(), "x_0001.txt".to_string()),
            ("c.txt".to_string(), "x_0002.txt".to_string()),
        ]
    );
}

#[test]
fn clear_all_on_extensionless_file_yields_sentinel() {
    let mut s = Session::new();
    s.user_update_tasks(vec![Task::ClearAll { active: true }]);
    let out = s.user_open_files(vec![plain("report")]);
    assert_eq!(rows(&out), vec![("report".to_string(), "<BLANK>".to_string())]);
}

#[test]
fn find_and_replace_leaves_sentinel_alone() {
    let mut s = Session::new();
    s.user_update_tasks(vec![
        Task::ClearAll { active: true },
        Task::FindAndReplace {
            find_text: "B".to_string(),
            replace_text: "Z".to_string(),
            active: true,
        },
    ]);
    let out = s.user_open_files(vec![plain("report")]);
    assert_eq!(rows(&out), vec![("report".to_string(), "<BLANK>".to_string())]);
}

#[test]
fn custom_text_keeps_dotfile_whole() {
    let mut s = Session::new();
    s.user_update_tasks(vec![Task::CustomText {
        text: "old_".to_string(),
        at_start: true,
        active: true,
    }]);
    let out = s.user_open_files(vec![plain(".gitignore")]);
    assert_eq!(rows(&out), vec![(".gitignore".to_string(), "old_.gitignore".to_string())]);
}

#[test]
fn search_filters_rows() {
    let mut s = Session::new();
    s.user_update_tasks(vec![Task::NumSequence {
        start_num: 1,
        num_padding: 2,
        at_start: true,
        separator: "_".to_string(),
        active: true,
    }]);
    s.user_open_files(vec![plain("a.txt"), plain("b.txt")]);
    let out = s.user_update_search("a".to_string());
    assert_eq!(rows(&out), vec![("a.txt".to_string(), "01_a.txt".to_string())]);
}

#[test]
fn adding_the_same_files_again_changes_nothing() {
    let mut s = Session::new();
    let batch = || vec![plain("b.txt"), plain("a.txt"), plain("a.txt")];
    let first = s.user_open_files(batch());
    let second = s.user_open_files(batch());
    assert_eq!(rows(&first), rows(&second));
    assert_eq!(s.entries.len(), 2);
}

#[test]
fn setting_the_same_tasks_again_changes_nothing() {
    let task = || {
        vec![Task::NumSequence {
            start_num: 7,
            num_padding: 3,
            at_start: false,
            separator: "-".to_string(),
            active: true,
        }]
    };
    let mut s = Session::new();
    s.user_update_tasks(task());
    s.user_open_files(vec![plain("x.md"), plain("y.md")]);
    let first = s.user_update_tasks(task());
    let second = s.user_update_tasks(task());
    assert_eq!(rows(&first), rows(&second));
    assert_eq!(
        rows(&first),
        vec![
            ("x.md".to_string(), "x-007.md".to_string()),
            ("y.md".to_string(), "y-008.md".to_string()),
        ]
    );
}

#[test]
fn duplicates_apart_from_each_other_still_collapse() {
    let mut s = Session::new();
    s.user_update_tasks(vec![Task::NumSequence {
        start_num: 1,
        num_padding: 2,
        at_start: true,
        separator: "_".to_string(),
        active: true,
    }]);
    let out = s.user_open_files(vec![plain("a.txt"), plain("b.txt"), plain("a.txt")]);
    assert_eq!(
        rows(&out),
        vec![
            ("a.txt".to_string(), "01_a.txt".to_string()),
            ("b.txt".to_string(), "02_b.txt".to_string()),
        ]
    );
}

#[test]
fn empty_selection_gives_empty_plan() {
    let mut s = Session::new();
    let out = s.user_open_files(vec![]);
    assert_eq!(rows(&out), vec![]);
}

#[test]
fn clearing_empties_selection_and_plan() {
    let mut s = Session::new();
    s.user_open_files(vec![stamped("a.txt", 10, 1)]);
    s.user_clear_files();
    assert_eq!(s.entries.len(), 0);
    assert_eq!(s.working.len(), 0);
    let out = s.current_plan();
    assert_eq!(rows(&out), vec![]);
}

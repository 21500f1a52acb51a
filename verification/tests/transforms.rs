use rename_planner::model::{FileMeta, FileStatus, SelEntry, Task};
use rename_planner::session::Session;

fn new_names(statuses: &[FileStatus]) -> Vec<String> {
    statuses.iter().map(|s| s.new_file_name.clone()).collect()
}

fn run_one(path: &str, meta: Option<FileMeta>, tasks: Vec<Task>) -> String {
    let mut s = Session::new();
    s.user_update_tasks(tasks);
    let out = s.user_open_files(vec![SelEntry::new(path.to_string(), meta)]);
    assert_eq!(out.len(), 1);
    out[0].new_file_name.clone()
}

fn modified(secs: i64) -> Option<FileMeta> {
    Some(FileMeta { modified: Some(secs), created: None, size: 0 })
}

#[test]
fn custom_text_before_and_after_stem() {
    let before = run_one(
        "a.txt",
        None,
        vec![Task::CustomText { text: "new_".to_string(), at_start: true, active: true }],
    );
    assert_eq!(before, "new_a.txt");
    let after = run_one(
        "a.txt",
        None,
        vec![Task::CustomText { text: "_v2".to_string(), at_start: false, active: true }],
    );
    assert_eq!(after, "a_v2.txt");
}

#[test]
fn custom_text_without_extension_appends_bare() {
    let r = run_one(
        "report",
        None,
        vec![Task::CustomText { text: "_v2".to_string(), at_start: false, active: true }],
    );
    assert_eq!(r, "report_v2");
}

#[test]
fn inactive_tasks_are_skipped() {
    let r = run_one(
        "a.txt",
        None,
        vec![Task::CustomText { text: "x".to_string(), at_start: true, active: false }],
    );
    assert_eq!(r, "a.txt");
}

#[test]
fn replace_hits_every_occurrence() {
    let r = run_one(
        "banana.txt",
        None,
        vec![Task::FindAndReplace {
            find_text: "an".to_string(),
            replace_text: "AN".to_string(),
            active: true,
        }],
    );
    assert_eq!(r, "bANANa.txt");
}

#[test]
fn replace_with_empty_pattern_splices_everywhere() {
    let r = run_one(
        "ab",
        None,
        vec![Task::FindAndReplace {
            find_text: "".to_string(),
            replace_text: "-".to_string(),
            active: true,
        }],
    );
    assert_eq!(r, "-a-b-");
}

#[test]
fn replace_that_empties_the_name_stores_sentinel() {
    let r = run_one(
        "a.txt",
        None,
        vec![Task::FindAndReplace {
            find_text: "a.txt".to_string(),
            replace_text: "".to_string(),
            active: true,
        }],
    );
    assert_eq!(r, "<BLANK>");
}

#[test]
fn clear_all_keeps_only_the_extension() {
    let r = run_one("draft.txt", None, vec![Task::ClearAll { active: true }]);
    assert_eq!(r, ".txt");
}

#[test]
fn change_case_lowers_the_whole_name() {
    let r = run_one("AbC.TXT", None, vec![Task::ChangeCase { case_choice: 0, active: true }]);
    assert_eq!(r, "abc.txt");
}

#[test]
fn change_case_raises_the_whole_name() {
    let r = run_one("AbC.txt", None, vec![Task::ChangeCase { case_choice: 1, active: true }]);
    assert_eq!(r, "ABC.TXT");
}

#[test]
fn change_case_other_choices_do_nothing() {
    let r = run_one("AbC.txt", None, vec![Task::ChangeCase { case_choice: 7, active: true }]);
    assert_eq!(r, "AbC.txt");
}

#[test]
fn numbering_pads_to_minimum_width_only() {
    let r = run_one(
        "a.txt",
        None,
        vec![Task::NumSequence {
            start_num: 9999,
            num_padding: 2,
            at_start: true,
            separator: "_".to_string(),
            active: true,
        }],
    );
    assert_eq!(r, "9999_a.txt");
}

#[test]
fn numbering_from_zero_pads_with_zeros() {
    let r = run_one(
        "a.txt",
        None,
        vec![Task::NumSequence {
            start_num: 0,
            num_padding: 2,
            at_start: false,
            separator: "-".to_string(),
            active: true,
        }],
    );
    assert_eq!(r, "a-00.txt");
}

#[test]
fn date_at_epoch_start() {
    let r = run_one(
        "a.txt",
        modified(0),
        vec![Task::Date {
            year: 0,
            month: true,
            day: true,
            at_start: true,
            separator: "-".to_string(),
            active: true,
        }],
    );
    assert_eq!(r, "1970-01-01-a.txt");
}

#[test]
fn date_with_short_year() {
    let r = run_one(
        "a.txt",
        modified(0),
        vec![Task::Date {
            year: 1,
            month: false,
            day: false,
            at_start: false,
            separator: "_".to_string(),
            active: true,
        }],
    );
    assert_eq!(r, "a_70.txt");
}

#[test]
fn date_of_a_known_day() {
    // 2021-03-04 05:06:07 UTC
    let r = run_one(
        "a.txt",
        modified(1614834367),
        vec![Task::Date {
            year: 0,
            month: true,
            day: true,
            at_start: false,
            separator: "-".to_string(),
            active: true,
        }],
    );
    assert_eq!(r, "a-2021-03-04.txt");
}

#[test]
fn date_without_metadata_is_skipped() {
    let r = run_one(
        "a.txt",
        None,
        vec![Task::Date {
            year: 0,
            month: true,
            day: true,
            at_start: true,
            separator: "-".to_string(),
            active: true,
        }],
    );
    assert_eq!(r, "a.txt");
}

#[test]
fn time_of_last_second_of_a_day() {
    let r = run_one(
        "a.txt",
        modified(86399),
        vec![Task::Time { at_start: false, separator: "-".to_string(), active: true }],
    );
    assert_eq!(r, "a-23-59-59.txt");
}

#[test]
fn time_at_start_of_the_name() {
    // 2021-03-04 05:06:07 UTC
    let r = run_one(
        "a.txt",
        modified(1614834367),
        vec![Task::Time { at_start: true, separator: ".".to_string(), active: true }],
    );
    assert_eq!(r, "05.06.07.a.txt");
}

#[test]
fn tasks_chain_in_list_order() {
    let r = run_one(
        "a.txt",
        None,
        vec![
            Task::CustomText { text: "x_".to_string(), at_start: true, active: true },
            Task::ChangeCase { case_choice: 1, active: true },
        ],
    );
    assert_eq!(r, "X_A.TXT");
}

#[test]
fn pipeline_reads_target_of_previous_task() {
    // the second task sees the first task's output, not the source
    let r = run_one(
        "a.txt",
        None,
        vec![
            Task::FindAndReplace {
                find_text: "a".to_string(),
                replace_text: "b".to_string(),
                active: true,
            },
            Task::FindAndReplace {
                find_text: "b".to_string(),
                replace_text: "c".to_string(),
                active: true,
            },
        ],
    );
    assert_eq!(r, "c.txt");
}

#[test]
fn statuses_show_names_not_paths() {
    let mut s = Session::new();
    let out = s.user_open_files(vec![SelEntry::new("some/dir/a.txt".to_string(), None)]);
    assert_eq!(out.len(), 1);
    assert_eq!(out[0].old_file_name, "a.txt");
    assert_eq!(out[0].new_file_name, "a.txt");
    assert_eq!(new_names(&out), vec!["a.txt".to_string()]);
}

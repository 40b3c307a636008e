use zed_plus::changes::{
    changed_file, changed_files, diff_totals_fit, directory_stage_status, files_under,
    row_diff_stat, staged_count, total_diff_stat, tracked_repo_paths, ChangedFile, DiffStat,
    FileStatus, ProjectFile, ProjectPath, StageStatus, StatusEntry,
};
use zed_plus::changes::StageStatus::{PartiallyStaged, Staged, Unstaged};
use zed_plus::outline::{build_rows, sort_by_path};
use zed_plus::staging::{
    stage_all_action, stage_request, stage_toggle_state, StageAll, ToggleState,
};
use zed_plus::tree::{DirectorySet, Row};

fn status(staging: StageStatus, untracked: bool, created: bool) -> FileStatus {
    FileStatus { staging, untracked, created }
}

fn entry(path: &str, status: FileStatus, diff_stat: Option<DiffStat>) -> StatusEntry {
    let (parent, name) = match path.rfind('/') {
        Some(at) => (&path[..at], &path[at + 1..]),
        None => ("", path),
    };
    StatusEntry {
        repo_path: format!("repo:{path}"),
        project_file: Some(ProjectFile {
            path: ProjectPath { worktree_id: 1, path: path.to_string() },
            file_name: Some(name.to_string()),
            parent: Some(parent.to_string()),
        }),
        has_abs_path: true,
        status,
        diff_stat,
        display_path: path.to_string(),
        file_name: Some(name.to_string()),
    }
}

fn files(list: &[(&str, StageStatus)]) -> Vec<ChangedFile> {
    changed_files(
        list.iter()
            .map(|(path, staging)| entry(path, status(*staging, false, false), None))
            .collect(),
    )
}

#[test]
fn a_file_without_a_name_is_named_by_its_path() {
    let mut nameless = entry("a/b", status(StageStatus::Staged, false, false), None);
    nameless.file_name = None;
    let file = changed_file(nameless);
    assert_eq!(file.file_name, "a/b");
    assert_eq!(file.repo_path, "repo:a/b");
    let named = changed_file(entry("a/b", status(StageStatus::Staged, false, false), None));
    assert_eq!(named.file_name, "b");
    assert_eq!(named.display_path, "a/b");
}

#[test]
fn files_lie_under_a_directory_by_whole_names() {
    let list = files(&[
        ("src/a.rs", StageStatus::Staged),
        ("src", StageStatus::Staged),
        ("srcs/b.rs", StageStatus::Staged),
        ("src/n/c.rs", StageStatus::Staged),
    ]);
    assert_eq!(files_under(&list, "src"), vec![0, 3]);
    assert_eq!(files_under(&list, "src/n"), vec![3]);
    assert_eq!(files_under(&list, "nowhere"), Vec::<usize>::new());
}

/// Staged when every file under it is, unstaged when none are, and mixed otherwise.
#[test]
fn a_directory_is_staged_by_its_files() {
    let under = |list: &[(&str, StageStatus)]| directory_stage_status(&files(list), "d");
    assert_eq!(under(&[("d/a", Staged), ("d/b", Staged)]), Staged);
    assert_eq!(under(&[("d/a", Unstaged), ("d/b", Unstaged)]), Unstaged);
    assert_eq!(under(&[("d/a", Staged), ("d/b", Unstaged)]), PartiallyStaged);
    assert_eq!(under(&[("d/a", PartiallyStaged), ("d/b", Unstaged)]), PartiallyStaged);
    assert_eq!(under(&[("d/a", PartiallyStaged), ("d/b", PartiallyStaged)]), PartiallyStaged);
    assert_eq!(under(&[("d/a", Staged), ("d/b", PartiallyStaged)]), PartiallyStaged);
    assert_eq!(under(&[("e/a", Staged)]), Unstaged);
    assert_eq!(under(&[("d/a", Staged), ("e/b", Unstaged)]), Staged);
}

#[test]
fn a_checkbox_shows_three_states() {
    assert_eq!(stage_toggle_state(StageStatus::Staged), ToggleState::Selected);
    assert_eq!(stage_toggle_state(StageStatus::Unstaged), ToggleState::Unselected);
    assert_eq!(
        stage_toggle_state(StageStatus::PartiallyStaged),
        ToggleState::Indeterminate
    );
}

#[test]
fn a_checkbox_reaches_exactly_what_is_behind_its_row() {
    let list = files(&[
        ("d/a", StageStatus::Unstaged),
        ("e", StageStatus::Staged),
        ("d/b", StageStatus::Unstaged),
    ]);
    let rows = build_rows(&list, &vec![0, 1, 2], true, &DirectorySet::new());
    let directory = stage_request(&rows, &list, 0).expect("a request");
    assert_eq!(directory.paths, vec!["repo:d/a", "repo:d/b"]);
    assert!(directory.staged);
    let file = stage_request(&rows, &list, 3).expect("a request");
    assert_eq!(file.paths, vec!["repo:e"]);
    assert!(!file.staged);
    assert!(stage_request(&rows, &list, 4).is_none());

    // Once the repository has done as asked, the same press asks for the opposite.
    let after = files(&[
        ("d/a", StageStatus::Staged),
        ("e", StageStatus::Staged),
        ("d/b", StageStatus::Staged),
    ]);
    assert_eq!(directory_stage_status(&after, "d"), StageStatus::Staged);
    assert!(!stage_request(&rows, &after, 0).expect("a request").staged);
}

/// A row left over from a longer list has nothing behind it.
#[test]
fn a_row_without_its_file_asks_for_nothing() {
    let rows = vec![
        Row::File { entry: 5, depth: 0 },
        Row::Directory {
            path: "gone".to_string(),
            label: "gone".to_string(),
            depth: 0,
            collapsed: false,
        },
    ];
    let list = files(&[("d/a", StageStatus::Unstaged)]);
    assert!(stage_request(&rows, &list, 0).is_none());
    assert!(stage_request(&rows, &list, 1).is_none());
}

#[test]
fn stage_all_unstages_once_everything_is_staged() {
    assert_eq!(stage_all_action(&files(&[("a", Staged), ("b", Unstaged)])), StageAll::Stage);
    assert_eq!(
        stage_all_action(&files(&[("a", Staged), ("b", PartiallyStaged)])),
        StageAll::Stage
    );
    assert_eq!(stage_all_action(&files(&[("a", PartiallyStaged)])), StageAll::Stage);
    assert_eq!(stage_all_action(&files(&[("a", Staged), ("b", Staged)])), StageAll::Unstage);
    let with_untracked = changed_files(vec![
        entry("a", status(Staged, false, false), None),
        entry("b", status(Unstaged, true, true), None),
    ]);
    assert_eq!(stage_all_action(&with_untracked), StageAll::Stage);
}

#[test]
fn files_with_something_staged_are_counted() {
    assert_eq!(
        staged_count(&files(&[("a", Staged), ("b", Unstaged), ("c", PartiallyStaged)])),
        2
    );
    assert_eq!(staged_count(&files(&[])), 0);
}

#[test]
fn untracked_files_are_left_out() {
    let list = changed_files(vec![
        entry("a", status(StageStatus::Unstaged, false, false), None),
        entry("b", status(StageStatus::Unstaged, true, true), None),
        entry("c", status(StageStatus::Unstaged, false, true), None),
    ]);
    assert_eq!(tracked_repo_paths(&list), vec!["repo:a", "repo:c"]);
}

#[test]
fn diff_stats_add_up() {
    let plain = status(StageStatus::Unstaged, false, false);
    let list = changed_files(vec![
        entry("a", plain, Some(DiffStat { added: 3, deleted: 1 })),
        entry("b", plain, None),
        entry("c", plain, Some(DiffStat { added: 0, deleted: 4 })),
    ]);
    assert!(diff_totals_fit(&list));
    assert_eq!(total_diff_stat(&list), Some(DiffStat { added: 3, deleted: 5 }));
    let nothing = changed_files(vec![
        entry("a", plain, Some(DiffStat { added: 0, deleted: 0 })),
        entry("b", plain, None),
    ]);
    assert_eq!(total_diff_stat(&nothing), None);
    assert_eq!(row_diff_stat(&nothing[0]), None);
    assert_eq!(row_diff_stat(&nothing[1]), None);
    assert_eq!(row_diff_stat(&list[2]), Some(DiffStat { added: 0, deleted: 4 }));
}

#[test]
fn totals_that_cannot_be_counted_are_noticed() {
    let plain = status(StageStatus::Unstaged, false, false);
    let one = |added, deleted| entry("a", plain, Some(DiffStat { added, deleted }));
    assert!(diff_totals_fit(&changed_files(vec![one(u32::MAX - 1, 1)])));
    assert!(!diff_totals_fit(&changed_files(vec![one(u32::MAX, 1)])));
    assert!(!diff_totals_fit(&changed_files(vec![one(u32::MAX, 0), one(1, 0)])));
}

#[test]
fn files_are_sorted_by_path() {
    let list = files(&[
        ("b", StageStatus::Staged),
        ("a/z", StageStatus::Staged),
        ("a", StageStatus::Staged),
        ("b", StageStatus::Staged),
    ]);
    assert_eq!(sort_by_path(&list, &vec![3, 0, 1, 2]), vec![2, 1, 3, 0]);
    assert_eq!(sort_by_path(&list, &vec![9, 2]), vec![2]);
}

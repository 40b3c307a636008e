use zed_plus::changes::{
    changed_files, ChangedFile, DiffStat, FileStatus, ProjectFile, ProjectPath, StageStatus,
    StatusEntry,
};
use zed_plus::commit::{
    commit_editor_mode, commit_message, first_remote, unstaged_tracked, Branch, CommitDesk,
    CommitOption, CommitOptions, EditorMode, MenuEntry, Upstream, COMMIT_EDITOR_LINES,
    COMMIT_LINES,
};

fn status(staging: StageStatus, untracked: bool, created: bool) -> FileStatus {
    FileStatus { staging, untracked, created }
}

fn entry(path: &str, status: FileStatus, diff_stat: Option<DiffStat>) -> StatusEntry {
    let (parent, name) = match path.rfind('/') {
        Some(at) => (&path[..at], &path[at + 1..]),
        None => ("", path),
    };
    StatusEntry {
        repo_path: format!("repo:{path}"),
        project_file: Some(ProjectFile {
            path: ProjectPath { worktree_id: 1, path: path.to_string() },
            file_name: Some(name.to_string()),
            parent: Some(parent.to_string()),
        }),
        has_abs_path: true,
        status,
        diff_stat,
        display_path: path.to_string(),
        file_name: Some(name.to_string()),
    }
}

fn files(list: &[(&str, StageStatus, bool)]) -> Vec<ChangedFile> {
    changed_files(
        list.iter()
            .map(|(path, staging, untracked)| {
                entry(path, status(*staging, *untracked, *untracked), None)
            })
            .collect(),
    )
}

#[test]
fn a_blank_message_is_none() {
    assert_eq!(commit_message(None), None);
    assert_eq!(commit_message(Some("")), None);
    assert_eq!(commit_message(Some(" \n\t")), None);
    assert_eq!(commit_message(Some(" fix \n")), Some(" fix \n".to_string()));
}

#[test]
fn with_nothing_staged_the_tracked_changes_are_staged_first() {
    let list = files(&[
        ("a", StageStatus::Unstaged, false),
        ("new", StageStatus::Unstaged, true),
        ("b", StageStatus::Unstaged, false),
    ]);
    assert_eq!(
        unstaged_tracked(&list),
        Some(vec!["repo:a".to_string(), "repo:b".to_string()])
    );
    let staged = files(&[
        ("a", StageStatus::PartiallyStaged, false),
        ("b", StageStatus::Unstaged, false),
    ]);
    assert_eq!(unstaged_tracked(&staged), None);
    let untracked = files(&[("new", StageStatus::Unstaged, true)]);
    assert_eq!(unstaged_tracked(&untracked), None);
}

#[test]
fn a_commit_starts_once() {
    let list = files(&[("a", StageStatus::Unstaged, false)]);
    let mut desk = CommitDesk::new();
    desk.toggle(CommitOption::Signoff);
    assert!(desk.commit(false, Some("fix"), &list).is_none());
    assert!(desk.commit(true, None, &list).is_none());
    assert!(desk.commit(true, Some("  "), &list).is_none());
    let plan = desk.commit(true, Some("fix"), &list).expect("a commit");
    assert_eq!(plan.message, "fix");
    assert_eq!(plan.stage_first, Some(vec!["repo:a".to_string()]));
    assert_eq!(
        plan.options,
        CommitOptions { amend: false, signoff: true, allow_empty: false, skip_hooks: false }
    );
    assert!(desk.commit(true, Some("fix"), &list).is_none());
    assert!(!desk.commit_section(Some("fix"), true, &list).can_commit);

    assert!(!desk.commit_finished(false, true));
    assert!(desk.commit(true, Some("fix"), &list).is_some());
    assert!(!desk.commit_finished(true, false));
    assert!(desk.commit(true, Some("fix"), &list).is_some());
    assert!(desk.commit_finished(true, true));
}

#[test]
fn a_push_sets_the_upstream_where_there_is_none() {
    let branch = |upstream| Branch { name: "main".to_string(), upstream };
    let mut desk = CommitDesk::new();
    assert!(desk.push(None).is_none());
    let plan = desk.push(Some(&branch(None))).expect("a push");
    assert_eq!((plan.branch_name.as_str(), plan.set_upstream), ("main", true));
    assert!(desk.push(Some(&branch(None))).is_none());
    desk.push_finished();
    assert!(desk.push(Some(&branch(Some(Upstream::Gone)))).expect("a push").set_upstream);
    desk.push_finished();
    assert!(!desk.push(Some(&branch(Some(Upstream::Present)))).expect("a push").set_upstream);
}

#[test]
fn the_first_remote_is_pushed_to() {
    assert_eq!(
        first_remote(vec!["origin".to_string(), "fork".to_string()]),
        Ok("origin".to_string())
    );
    assert_eq!(
        first_remote(Vec::new()),
        Err("no remote to push to; add one to publish this branch".to_string())
    );
}

#[test]
fn the_menu_offers_to_amend_only_what_is_there() {
    let mut desk = CommitDesk::new();
    desk.toggle(CommitOption::SkipHooks);
    assert_eq!(
        desk.commit_menu(false),
        vec![
            MenuEntry { option: CommitOption::Signoff, checked: false },
            MenuEntry { option: CommitOption::SkipHooks, checked: true },
        ]
    );
    let full = desk.commit_menu(true);
    assert_eq!(full[0], MenuEntry { option: CommitOption::Amend, checked: false });
    let labels = full.iter().map(|line| line.option.label()).collect::<Vec<_>>();
    assert_eq!(labels, vec!["Amend", "Signoff", "Skip hooks"]);
    desk.toggle(CommitOption::SkipHooks);
    assert_eq!(desk, CommitDesk::new());
}

#[test]
fn the_commit_section_counts_what_is_staged() {
    let mut desk = CommitDesk::new();
    let some = files(&[
        ("a", StageStatus::Staged, false),
        ("b", StageStatus::Unstaged, true),
    ]);
    let section = desk.commit_section(None, false, &some);
    assert_eq!(section.summary, "1 of 2 staged");
    assert_eq!(section.stage_all_label, "Stage all");
    assert!(section.can_stage_all);
    assert_eq!(section.commit_label, "Commit");
    assert!(!section.can_commit);
    assert!(!section.can_push);

    desk.toggle(CommitOption::Amend);
    let all = files(&[("a", StageStatus::PartiallyStaged, false)]);
    let section = desk.commit_section(Some("x"), true, &all);
    assert_eq!(section.summary, "1 of 1 staged");
    assert_eq!(section.stage_all_label, "Unstage all");
    assert_eq!(section.commit_label, "Amend");
    assert!(section.can_commit);
    assert!(section.can_push);

    let none = desk.commit_section(Some("x"), true, &files(&[]));
    assert_eq!(none.summary, "0 of 0 staged");
    assert_eq!(none.stage_all_label, "Stage all");
    assert!(!none.can_stage_all);
}

#[test]
fn a_single_row_refuses_newlines() {
    assert_eq!(commit_editor_mode(0), EditorMode::SingleLine);
    assert_eq!(commit_editor_mode(1), EditorMode::SingleLine);
    assert_eq!(
        commit_editor_mode(COMMIT_LINES),
        EditorMode::AutoHeight { min_lines: 5, max_lines: Some(5) }
    );
    assert_eq!(
        commit_editor_mode(COMMIT_EDITOR_LINES),
        EditorMode::AutoHeight { min_lines: 3, max_lines: Some(3) }
    );
}

#[test]
fn an_entry_carries_its_diff_stat() {
    let file = changed_files(vec![entry(
        "a",
        status(StageStatus::Staged, false, false),
        Some(DiffStat { added: 1, deleted: 2 }),
    )]);
    assert_eq!(file[0].diff_stat, Some(DiffStat { added: 1, deleted: 2 }));
}

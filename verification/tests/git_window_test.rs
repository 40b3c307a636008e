use zed_plus::changes::{
    DiffStat, FileStatus, ProjectFile, ProjectPath, StageStatus, StatusEntry,
};
use zed_plus::commit::{Branch, CommitOption};
use zed_plus::display::RowDisplay;
use zed_plus::listing::Confirmed;
use zed_plus::plus_git::{
    git_reaction, GitEvent, GitReaction, Layout, ListSize, PlusGitWindow,
};
use zed_plus::preview::PreviewTask;
use zed_plus::staging::{StageAll, ToggleState};
use zed_plus::tree::Row;

fn status(staging: StageStatus, untracked: bool, created: bool) -> FileStatus {
    FileStatus { staging, untracked, created }
}

fn entry(path: &str, status: FileStatus, diff_stat: Option<DiffStat>) -> StatusEntry {
    let (parent, name) = match path.rfind('/') {
        Some(at) => (&path[..at], &path[at + 1..]),
        None => ("", path),
    };
    StatusEntry {
        repo_path: format!("repo:{path}"),
        project_file: Some(ProjectFile {
            path: ProjectPath { worktree_id: 1, path: path.to_string() },
            file_name: Some(name.to_string()),
            parent: Some(parent.to_string()),
        }),
        has_abs_path: true,
        status,
        diff_stat,
        display_path: path.to_string(),
        file_name: Some(name.to_string()),
    }
}

fn plain(path: &str) -> StatusEntry {
    entry(path, status(StageStatus::Unstaged, false, false), None)
}

fn entries(paths: &[&str]) -> Vec<StatusEntry> {
    paths.iter().map(|path| plain(path)).collect()
}

fn window(paths: &[&str]) -> PlusGitWindow {
    PlusGitWindow::new(1, 2, 3, Some(4), entries(paths))
}

fn shown(window: &PlusGitWindow) -> Vec<String> {
    window
        .rows()
        .iter()
        .map(|row| match row {
            Row::Directory { path, collapsed, .. } => {
                format!("{}{path}/", if *collapsed { "+" } else { "-" })
            }
            Row::File { entry, .. } => window.entries()[*entry].display_path.clone(),
        })
        .collect()
}

/// The number under which the diff pane is to load.
fn loading(task: PreviewTask) -> u64 {
    match task {
        PreviewTask::Load(load) => load,
        other => panic!("nothing to load: {other:?}"),
    }
}

#[test]
fn a_window_lists_what_it_is_opened_on() {
    let window = window(&["src/b.rs", "src/a.rs", "README.md"]);
    assert_eq!(shown(&window), vec!["-src/", "src/a.rs", "src/b.rs", "README.md"]);
    assert_eq!(window.selected_index(), 0);
    assert_eq!(window.multi_workspace(), 1);
    assert_eq!(window.workspace(), 2);
    assert_eq!(window.project(), 3);
    assert_eq!(window.repository(), Some(4));
    assert_eq!(window.indents(0, 9), vec![0, 1, 1, 0]);
    assert_eq!(window.indents(1, 2), vec![1]);
    assert_eq!(window.indents(3, 1), Vec::<usize>::new());
}

#[test]
fn without_a_repository_the_list_is_empty() {
    let mut window = PlusGitWindow::new(1, 2, 3, None, entries(&["a"]));
    assert!(window.rows().is_empty());
    assert!(window.entries().is_empty());
    assert!(window.toggle_stage_all().is_none());
    assert!(window.toggle_staged_for_row(0).is_none());
    assert!(window.commit(Some("x")).is_none());
    assert_eq!(window.select_next(), PreviewTask::Keep);
    assert_eq!(window.select_previous(), PreviewTask::Keep);
    assert_eq!(window.select_first(), PreviewTask::Clear);
    assert_eq!(window.select_last(), PreviewTask::Clear);
    assert_eq!(window.confirm(), Confirmed::Nothing);
}

/// Losing the repository empties the rows along with the files behind them.
#[test]
fn losing_the_repository_empties_the_list() {
    let mut window = window(&["a", "b"]);
    assert!(window.follow_active_repository(None, Vec::new()));
    assert!(window.rows().is_empty());
    assert!(!window.follow_active_repository(None, Vec::new()));
    assert!(window.follow_active_repository(Some(9), entries(&["c"])));
    assert_eq!(shown(&window), vec!["c"]);
    assert!(!window.follow_active_repository(Some(9), entries(&["d"])));
    assert_eq!(shown(&window), vec!["c"]);
}

#[test]
fn the_selection_wraps_around() {
    let mut window = window(&["a", "b", "c"]);
    for expected in [1, 2, 0, 1] {
        window.select_next();
        assert_eq!(window.selected_index(), expected);
    }
    for expected in [0, 2, 1] {
        window.select_previous();
        assert_eq!(window.selected_index(), expected);
    }
    window.select_last();
    assert_eq!(window.selected_index(), 2);
    window.select(17);
    assert_eq!(window.selected_index(), 2);
    window.select_first();
    assert_eq!(window.selected_index(), 0);
}

#[test]
fn the_diff_follows_the_selection() {
    let mut list = entries(&["d/a.rs", "z.rs"]);
    list.push(entry("new.rs", status(StageStatus::Unstaged, true, true), None));
    let mut window = PlusGitWindow::new(1, 2, 3, Some(4), list);
    assert_eq!(shown(&window), vec!["-d/", "d/a.rs", "new.rs", "z.rs"]);
    let load = loading(window.select(1));
    assert_eq!(window.preview().title(), "a.rs");
    assert_eq!(window.preview().subtitle().unwrap(), "./d");
    assert!(window.preview_loaded(load));
    assert!(window.preview().steppable());
    // A directory keeps the last file up.
    assert_eq!(window.select(0), PreviewTask::Keep);
    assert_eq!(window.preview().title(), "a.rs");
    assert_eq!(window.select(1), PreviewTask::Keep);
    let load = loading(window.select(2));
    assert!(window.preview_loaded(load));
    assert!(!window.preview().steppable());
    let overtaken = load;
    let load = loading(window.select(3));
    // What was loading before belongs to another file.
    window.preview_failed(overtaken, "disk on fire");
    assert!(!window.preview_loaded(overtaken));
    assert!(window.preview().message().is_none());
    window.preview_failed(load, "Binary files are not supported");
    assert_eq!(window.preview().message().unwrap(), "Binary file");
}

#[test]
fn a_file_outside_every_worktree_is_neither_shown_nor_opened() {
    let mut outside = plain("gone.rs");
    outside.project_file = None;
    let mut window = PlusGitWindow::new(1, 2, 3, Some(4), vec![outside]);
    assert_eq!(window.select(0), PreviewTask::Keep);
    assert_eq!(window.open_selected(), None);
    assert_eq!(window.selected_entry(), Some(0));
    assert_eq!(window.confirm(), Confirmed::Nothing);
}

#[test]
fn toggling_a_directory_twice_restores_the_list() {
    let mut window = window(&["a/x/1", "a/2", "b/3", "c"]);
    let before = shown(&window);
    assert_eq!(before, vec!["-a/", "-a/x/", "a/x/1", "a/2", "-b/", "b/3", "c"]);
    for index in 0..before.len() {
        window.select(index);
        window.toggle_selected_directory();
        assert_eq!(window.selected_index(), index);
        window.toggle_selected_directory();
        assert_eq!(shown(&window), before);
        assert_eq!(window.selected_index(), index);
    }
    window.select(0);
    assert_eq!(window.confirm(), Confirmed::Toggled);
    assert_eq!(shown(&window), vec!["+a/", "-b/", "b/3", "c"]);
    window.select(3);
    assert_eq!(window.confirm(), Confirmed::Open(3));
}

#[test]
fn one_button_collapses_and_expands_everything() {
    let mut window = window(&["a/x/1", "a/2", "b/3", "c"]);
    let before = shown(&window);
    window.select_last();
    let header = window.header_controls();
    assert!(header.collapse_all);
    assert_eq!(header.collapse_tooltip, "Collapse All");
    window.toggle_all_directories();
    assert_eq!(shown(&window), vec!["+a/", "+b/", "c"]);
    assert_eq!(window.selected_index(), 2);
    assert_eq!(window.header_controls().collapse_tooltip, "Expand All");
    // The inner directory was collapsed along with the outer one.
    window.select(0);
    window.toggle_selected_directory();
    assert_eq!(shown(&window), vec!["-a/", "+a/x/", "a/2", "+b/", "c"]);
    window.toggle_all_directories();
    assert_eq!(shown(&window), vec!["+a/", "+b/", "c"]);
    window.toggle_all_directories();
    assert_eq!(shown(&window), before);
}

#[test]
fn folding_is_switched_from_the_header() {
    let mut window = window(&["a/b/c.rs"]);
    assert_eq!(shown(&window), vec!["-a/b/", "a/b/c.rs"]);
    assert_eq!(window.header_controls().compress_tooltip, "Show Every Directory");
    assert!(!window.header_controls().every_directory);
    window.toggle_compress_directories();
    assert_eq!(shown(&window), vec!["-a/", "-a/b/", "a/b/c.rs"]);
    assert_eq!(
        window.header_controls().compress_tooltip,
        "Fold Single-Child Directories"
    );
    assert!(window.header_controls().every_directory);
    window.toggle_compress_directories();
    assert_eq!(shown(&window), vec!["-a/b/", "a/b/c.rs"]);
}

#[test]
fn reloading_keeps_what_is_collapsed_and_the_selection_in_range() {
    let mut window = window(&["a/1", "b/2", "c"]);
    window.toggle_selected_directory();
    window.select_last();
    assert_eq!(window.selected_index(), 3);
    window.reload_entries(entries(&["a/1", "a/9"]));
    assert_eq!(shown(&window), vec!["+a/"]);
    assert_eq!(window.selected_index(), 0);
}

#[test]
fn another_worktree_replaces_everything() {
    let mut window = window(&["a/1", "b"]);
    window.toggle_selected_directory();
    window.select(1);
    assert_eq!(window.preview().title(), "b");
    assert!(!window.follow_workspace(7, 3, Some(9), entries(&["x"])));
    assert_eq!(window.workspace(), 2);
    assert!(window.follow_workspace(7, 8, Some(9), entries(&["a/1", "x"])));
    assert_eq!((window.workspace(), window.project()), (7, 8));
    assert_eq!(window.repository(), Some(9));
    assert_eq!(shown(&window), vec!["-a/", "a/1", "x"]);
    assert_eq!(window.selected_index(), 0);
    assert_eq!(window.preview().title(), "Diff");
}

#[test]
fn another_repository_clears_what_described_the_last_one() {
    let mut window = window(&["a/1", "b"]);
    let load = loading(window.select(2));
    assert!(window.preview_loaded(load));
    window.adopt_repository(Some(5), entries(&["y"]));
    assert!(!window.preview_loaded(load));
    assert_eq!(window.preview().message().unwrap(), "Select a file to see its diff");
    assert_eq!(window.preview().title(), "Diff");
    window.adopt_repository(None, Vec::new());
}

#[test]
fn git_events_are_reacted_to() {
    assert_eq!(
        git_reaction(GitEvent::ActiveRepositoryChanged),
        GitReaction::FollowActiveRepository
    );
    assert_eq!(
        git_reaction(GitEvent::StatusesChanged { active_repository: true }),
        GitReaction::ReloadEntries
    );
    assert_eq!(
        git_reaction(GitEvent::StatusesChanged { active_repository: false }),
        GitReaction::Ignore
    );
    assert_eq!(git_reaction(GitEvent::Other), GitReaction::Ignore);
}

/// A file without a name, or below a directory without one, is no exception.
#[test]
fn one_button_covers_files_without_a_name() {
    let mut window = window(&["", "a/", "b//c"]);
    let before = shown(&window);
    window.toggle_all_directories();
    assert_eq!(shown(&window), vec!["+a/", "+b//", ""]);
    window.toggle_all_directories();
    assert_eq!(shown(&window), before);
    window.select(1);
    window.select(0);
    window.toggle_selected_directory();
    window.toggle_selected_directory();
    assert_eq!(shown(&window), before);
}

#[test]
fn clicks_select_toggle_and_open() {
    let mut window = window(&["a/1", "b"]);
    let (task, open) = window.click_file(2, 1);
    assert!(window.preview_loaded(loading(task)));
    assert_eq!(open, None);
    assert_eq!(window.selected_index(), 2);
    assert_eq!(window.click_file(2, 2), (PreviewTask::Keep, Some(1)));
    assert_eq!(window.click_directory(0), PreviewTask::Keep);
    assert_eq!(shown(&window), vec!["+a/", "b"]);
}

#[test]
fn panes_stack_where_there_is_no_room() {
    let mut window = window(&["a"]);
    assert_eq!(
        window.layout(true),
        Layout { list: ListSize::Column, diff: true, commit_section: true }
    );
    assert_eq!(
        window.layout(false),
        Layout { list: ListSize::Band, diff: true, commit_section: false }
    );
    window.toggle_preview();
    let alone = Layout { list: ListSize::Fill, diff: false, commit_section: true };
    assert_eq!(window.layout(true), alone);
    assert_eq!(window.layout(false), alone);
    assert!(!window.header_controls().preview_enabled);
}

#[test]
fn rows_are_drawn_with_their_checkboxes() {
    let window = PlusGitWindow::new(
        1,
        2,
        3,
        Some(4),
        vec![
            entry(
                "d/a",
                status(StageStatus::Staged, false, false),
                Some(DiffStat { added: 2, deleted: 0 }),
            ),
            entry(
                "d/b",
                status(StageStatus::Unstaged, false, false),
                Some(DiffStat { added: 0, deleted: 0 }),
            ),
        ],
    );
    match window.render_row(0).expect("a row") {
        RowDisplay::Directory { path, label, depth, collapsed, checkbox } => {
            assert_eq!((path.as_str(), label.as_str(), depth, collapsed), ("d", "d", 0, false));
            assert_eq!(checkbox, ToggleState::Indeterminate);
        }
        RowDisplay::File { .. } => panic!("expected a directory"),
    }
    match window.render_row(1).expect("a row") {
        RowDisplay::File { entry, name, depth, stat, checkbox } => {
            assert_eq!((entry, name.as_str(), depth), (0, "a", 1));
            assert_eq!(stat, Some(DiffStat { added: 2, deleted: 0 }));
            assert_eq!(checkbox, ToggleState::Selected);
        }
        RowDisplay::Directory { .. } => panic!("expected a file"),
    }
    match window.render_row(2).expect("a row") {
        RowDisplay::File { stat, checkbox, .. } => {
            assert_eq!(stat, None);
            assert_eq!(checkbox, ToggleState::Unselected);
        }
        RowDisplay::Directory { .. } => panic!("expected a file"),
    }
    assert!(window.render_row(3).is_none());
    assert!(window.can_total());
    assert_eq!(window.total_diff_stat(), Some(DiffStat { added: 2, deleted: 0 }));
    let request = window.toggle_staged_for_row(0).expect("a request");
    assert_eq!(request.paths, vec!["repo:d/a", "repo:d/b"]);
    assert!(!request.staged);
    assert_eq!(window.toggle_stage_all(), Some(StageAll::Stage));
}

#[test]
fn the_window_commits_and_pushes_once_at_a_time() {
    let mut window = window(&["a"]);
    window.toggle_option(CommitOption::Amend);
    assert_eq!(window.commit_section(Some("x"), true).commit_label, "Amend");
    let plan = window.commit(Some("x")).expect("a commit");
    assert!(plan.options.amend);
    assert_eq!(plan.stage_first, Some(vec!["repo:a".to_string()]));
    assert!(window.commit(Some("x")).is_none());
    assert!(window.commit_finished(true, true));
    assert!(window.commit(Some("x")).is_some());
    let branch = Branch { name: "main".to_string(), upstream: None };
    assert!(window.push(Some(&branch)).is_some());
    assert!(window.push(Some(&branch)).is_none());
    assert!(!window.commit_section(Some("x"), true).can_push);
    window.push_finished();
    assert!(window.push(Some(&branch)).is_some());
    assert!(window.push(None).is_none());
    assert_eq!(window.commit_menu(true).len(), 3);
    assert_eq!(window.commit_menu(false).len(), 2);
}

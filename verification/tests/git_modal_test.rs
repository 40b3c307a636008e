use zed_plus::changes::{
    DiffStat, FileStatus, ProjectFile, ProjectPath, StageStatus, StatusEntry,
};
use zed_plus::commit::{Branch, CommitOption};
use zed_plus::display::RowDisplay;
use zed_plus::idea_git::{IdeaGit, IdeaGitDelegate, PreviewLayout, MAX_MATCHES};
use zed_plus::listing::Confirmed;
use zed_plus::staging::StageAll;
use zed_plus::tree::Row;

fn status(staging: StageStatus, untracked: bool, created: bool) -> FileStatus {
    FileStatus { staging, untracked, created }
}

fn entry(path: &str, status: FileStatus, diff_stat: Option<DiffStat>) -> StatusEntry {
    let (parent, name) = match path.rfind('/') {
        Some(at) => (&path[..at], &path[at + 1..]),
        None => ("", path),
    };
    StatusEntry {
        repo_path: format!("repo:{path}"),
        project_file: Some(ProjectFile {
            path: ProjectPath { worktree_id: 1, path: path.to_string() },
            file_name: Some(name.to_string()),
            parent: Some(parent.to_string()),
        }),
        has_abs_path: true,
        status,
        diff_stat,
        display_path: path.to_string(),
        file_name: Some(name.to_string()),
    }
}

fn entries(paths: &[&str]) -> Vec<StatusEntry> {
    paths
        .iter()
        .map(|path| entry(path, status(StageStatus::Unstaged, false, false), None))
        .collect()
}

fn list(paths: &[&str]) -> IdeaGitDelegate {
    let mut delegate = IdeaGitDelegate::new(Some(1), entries(paths));
    assert!(delegate.update_matches("").is_none());
    delegate
}

/// Filters the list by `query`, which the files `matches` match.
fn filter(delegate: &mut IdeaGitDelegate, query: &str, matches: Vec<usize>) {
    let request = delegate.update_matches(query).expect("a filter to run");
    delegate.filter_finished(request.filter, matches);
}

fn shown(delegate: &IdeaGitDelegate) -> Vec<String> {
    delegate
        .rows()
        .iter()
        .map(|row| match row {
            Row::Directory { path, collapsed, .. } => {
                format!("{}{path}/", if *collapsed { "+" } else { "-" })
            }
            Row::File { entry, .. } => match delegate.entries().get(*entry) {
                Some(file) => file.display_path.clone(),
                None => "?".to_string(),
            },
        })
        .collect()
}

#[test]
fn nothing_is_shown_before_the_first_filter() {
    let delegate = IdeaGitDelegate::new(Some(1), entries(&["a"]));
    assert_eq!(delegate.match_count(), 0);
    assert_eq!(list(&["a"]).match_count(), 1);
}

#[test]
fn filtering_offers_every_file() {
    let mut delegate = list(&["b/x", "a"]);
    let request = delegate.update_matches("q").expect("a filter to run");
    let offered = request
        .candidates
        .iter()
        .map(|candidate| (candidate.id, candidate.text.as_str()))
        .collect::<Vec<_>>();
    assert_eq!(offered, vec![(0, "b/x"), (1, "a")]);
    // The list changes only once the filter is done.
    assert_eq!(shown(&delegate), vec!["-b/", "b/x", "a"]);
    delegate.filter_finished(request.filter, vec![1]);
    assert_eq!(shown(&delegate), vec!["a"]);
}

#[test]
fn an_abandoned_filter_changes_nothing() {
    let mut delegate = list(&["b/x", "a"]);
    let earlier = delegate.update_matches("x").expect("a filter to run");
    let later = delegate.update_matches("a").expect("a filter to run");
    assert_ne!(earlier.filter, later.filter);
    delegate.filter_finished(earlier.filter, vec![0]);
    assert_eq!(shown(&delegate), vec!["-b/", "b/x", "a"]);
    delegate.filter_finished(later.filter, vec![1]);
    assert_eq!(shown(&delegate), vec!["a"]);
    delegate.filter_finished(earlier.filter, vec![0]);
    assert_eq!(shown(&delegate), vec!["a"]);

    // Emptying the query abandons the filter, and so does closing the modal.
    let filter = delegate.update_matches("x").expect("a filter to run").filter;
    assert!(delegate.update_matches("").is_none());
    delegate.filter_finished(filter, vec![0]);
    assert_eq!(shown(&delegate), vec!["-b/", "b/x", "a"]);
    let filter = delegate.update_matches("x").expect("a filter to run").filter;
    delegate.cancel_running_filter();
    delegate.filter_finished(filter, vec![0]);
    assert_eq!(shown(&delegate), vec!["-b/", "b/x", "a"]);
}

/// While a query is active the tree is fully expanded; clearing it puts the tree back.
#[test]
fn clearing_the_query_restores_the_tree() {
    let mut delegate = list(&["a/1", "a/2", "b"]);
    delegate.toggle_selected_directory();
    assert_eq!(shown(&delegate), vec!["+a/", "b"]);
    filter(&mut delegate, "1", vec![0]);
    assert_eq!(shown(&delegate), vec!["-a/", "a/1"]);
    delegate.toggle_all_directories();
    assert_eq!(shown(&delegate), vec!["-a/", "a/1"]);
    delegate.toggle_selected_directory();
    assert_eq!(delegate.confirm(), Confirmed::Toggled);
    assert_eq!(shown(&delegate), vec!["-a/", "a/1"]);
    delegate.update_matches("");
    assert_eq!(shown(&delegate), vec!["+a/", "b"]);
    assert_eq!(delegate.selected_index(), 0);
}

#[test]
fn the_list_is_bounded() {
    let many = (0..MAX_MATCHES + 3).map(|i| format!("f{i:05}")).collect::<Vec<_>>();
    let many = many.iter().map(String::as_str).collect::<Vec<_>>();
    let delegate = list(&many);
    assert_eq!(delegate.match_count(), 2000);
    assert_eq!(delegate.entries().len(), 2003);
}

#[test]
fn a_filtered_list_is_bounded_too() {
    let many = (0..MAX_MATCHES + 3).map(|i| format!("f{i:05}")).collect::<Vec<_>>();
    let many = many.iter().map(String::as_str).collect::<Vec<_>>();
    let mut delegate = list(&many);
    // Best first, so what is left out are the worst matches.
    filter(&mut delegate, "f", (0..many.len()).rev().collect());
    assert_eq!(delegate.match_count(), 2000);
    let rows = shown(&delegate);
    assert_eq!(rows[0], "f00003");
    assert_eq!(rows[1999], "f02002");
}

#[test]
fn a_click_selects_and_a_double_click_opens() {
    let mut delegate = list(&["a/1", "b"]);
    assert_eq!(delegate.click(2, 1), None);
    assert_eq!(delegate.selected_index(), 2);
    assert_eq!(delegate.click(1, 2), Some(0));
    assert_eq!(delegate.selected_index(), 1);
    assert_eq!(delegate.click(2, 3), Some(1));
    // A directory has nothing to open, whatever the number of clicks.
    assert_eq!(delegate.click(0, 2), None);
    assert_eq!(shown(&delegate), vec!["-a/", "a/1", "b"]);
}

#[test]
fn a_click_on_a_directory_toggles_it() {
    let mut delegate = list(&["a/1", "b/2", "c"]);
    delegate.click_directory(2);
    assert_eq!(delegate.selected_index(), 2);
    assert_eq!(shown(&delegate), vec!["-a/", "a/1", "+b/", "c"]);
    delegate.click_directory(0);
    assert_eq!(delegate.selected_index(), 0);
    assert_eq!(shown(&delegate), vec!["+a/", "+b/", "c"]);
    filter(&mut delegate, "1", vec![0]);
    delegate.click_directory(0);
    assert_eq!(shown(&delegate), vec!["-a/", "a/1"]);
}

#[test]
fn one_button_collapses_and_expands_the_modal() {
    let mut delegate = list(&["a/x/1", "a/2", "b/3", "c"]);
    let before = shown(&delegate);
    assert!(delegate.any_directory_expanded());
    delegate.set_selected_index(6);
    delegate.toggle_all_directories();
    assert_eq!(shown(&delegate), vec!["+a/", "+b/", "c"]);
    assert_eq!(delegate.selected_index(), 2);
    assert!(!delegate.any_directory_expanded());
    delegate.toggle_all_directories();
    assert_eq!(shown(&delegate), before);
}

/// Rows that are out of date are brought up to date, and then collapsed as well.
#[test]
fn collapsing_settles_on_rows_that_were_out_of_date() {
    let mut delegate = list(&["a/1"]);
    delegate.reload_entries(entries(&["z/9", "a/1"]));
    assert_eq!(shown(&delegate), vec!["-a/", "z/9"]);
    delegate.toggle_all_directories();
    assert!(!delegate.any_directory_expanded());
    assert_eq!(shown(&delegate), vec!["+z/"]);
}

#[test]
fn toggling_twice_restores_the_modal() {
    let mut delegate = list(&["a/x/1", "a/2", "b/3", "c"]);
    let before = shown(&delegate);
    for index in 0..before.len() {
        delegate.set_selected_index(index);
        delegate.toggle_selected_directory();
        delegate.toggle_selected_directory();
        assert_eq!(shown(&delegate), before);
        assert_eq!(delegate.selected_index(), index);
    }
}

#[test]
fn a_shrunken_list_leaves_rows_without_files() {
    let mut delegate = list(&["a", "b"]);
    delegate.set_selected_index(1);
    assert_eq!(delegate.selected_entry(), Some(1));
    delegate.reload_entries(entries(&["a"]));
    assert_eq!(delegate.selected_entry(), None);
    assert_eq!(delegate.open_selected(), None);
    assert!(delegate.render_match(1).is_none());
    assert!(delegate.toggle_staged_for_row(1).is_none());
    delegate.update_matches("");
    assert_eq!(shown(&delegate), vec!["a"]);
}

#[test]
fn the_preview_needs_a_file_on_disk() {
    let mut remote = entry("a", status(StageStatus::Unstaged, false, false), None);
    remote.has_abs_path = false;
    let mut delegate = IdeaGitDelegate::new(Some(1), vec![remote]);
    delegate.update_matches("");
    assert_eq!(delegate.selected_entry(), Some(0));
    assert_eq!(delegate.preview_target(), None);
    assert_eq!(list(&["d/a"]).preview_target(), None);
    assert_eq!(list(&["a"]).preview_target(), Some(0));
    assert_eq!(list(&["a"]).open_selected(), Some(0));
    assert_eq!(list(&["a"]).confirm(), Confirmed::Open(0));
}

#[test]
fn an_empty_list_says_why() {
    assert_eq!(IdeaGitDelegate::new(None, Vec::new()).no_matches_text(), "No git repository");
    assert_eq!(list(&[]).no_matches_text(), "No changes");
    assert_eq!(list(&["a"]).no_matches_text(), "No matching files");
}

#[test]
fn without_a_repository_nothing_is_listed_or_done() {
    let mut delegate = IdeaGitDelegate::new(None, entries(&["a"]));
    delegate.update_matches("");
    assert!(delegate.entries().is_empty());
    assert!(delegate.commit(Some("x")).is_none());
    let branch = Branch { name: "main".to_string(), upstream: None };
    assert!(delegate.push(Some(&branch)).is_none());
    assert!(delegate.toggle_stage_all().is_none());
    assert_eq!(delegate.commit_menu(true).len(), 2);
    assert!(!delegate.render_footer(Some("x"), true).can_push);
}

#[test]
fn the_status_bar_counts_files_and_rows() {
    let mut modal = IdeaGit::new(Some(1), entries(&["d/a", "b"]));
    modal.delegate.update_matches("");
    assert_eq!(modal.summary(), "2 changed files");
    filter(&mut modal.delegate, "a", vec![0]);
    // The directory has a row too.
    assert_eq!(modal.summary(), "2 of 2 changed files");
    filter(&mut modal.delegate, "q", vec![]);
    assert_eq!(modal.summary(), "0 of 2 changed files");
    assert_eq!(IdeaGit::new(Some(1), Vec::new()).summary(), "No changes");
}

#[test]
fn escape_empties_the_query_first() {
    assert!(IdeaGit::cancel("x"));
    assert!(!IdeaGit::cancel(""));
}

#[test]
fn the_layout_follows_the_preference_alone() {
    let mut modal = IdeaGit::new(Some(1), Vec::new());
    assert_eq!(modal.sync_preview_layout(), Some(PreviewLayout::Right));
    modal.delegate.preview_layout_changed(PreviewLayout::Right);
    assert_eq!(modal.sync_preview_layout(), None);
    modal.delegate.preview_layout_changed(PreviewLayout::Below);
    assert_eq!(modal.sync_preview_layout(), Some(PreviewLayout::Right));
    modal.delegate.toggle_preview();
    assert!(!modal.delegate.preview_enabled());
    assert_eq!(modal.sync_preview_layout(), Some(PreviewLayout::Hidden));
    modal.delegate.preview_layout_changed(PreviewLayout::Hidden);
    assert_eq!(modal.sync_preview_layout(), None);
}

#[test]
fn focus_elsewhere_in_the_modal_keeps_it_open() {
    assert!(IdeaGitDelegate::has_another_open_menu(true, false));
    assert!(IdeaGitDelegate::has_another_open_menu(false, true));
    assert!(!IdeaGitDelegate::has_another_open_menu(false, false));
}

#[test]
fn depths_are_given_for_the_rows_in_view() {
    let delegate = list(&["a/x/1", "a/2", "c"]);
    assert_eq!(delegate.visible_depths(0..5), vec![0, 1, 2, 1, 0]);
    assert_eq!(delegate.visible_depths(2..99), vec![2, 1, 0]);
    assert_eq!(delegate.visible_depths(7..99), Vec::<usize>::new());
}

#[test]
fn the_modal_commits_and_pushes_once_at_a_time() {
    let mut delegate = list(&["a"]);
    delegate.toggle_option(CommitOption::SkipHooks);
    let plan = delegate.commit(Some("x")).expect("a commit");
    assert!(plan.options.skip_hooks);
    assert!(delegate.commit(Some("x")).is_none());
    assert!(!delegate.commit_finished(false, true));
    assert!(delegate.commit(Some("x")).is_some());
    let branch = Branch { name: "main".to_string(), upstream: None };
    assert!(delegate.push(Some(&branch)).is_some());
    assert!(delegate.push(Some(&branch)).is_none());
    delegate.push_finished();
    assert!(delegate.push(Some(&branch)).is_some());
    assert_eq!(delegate.render_footer(None, true).summary, "0 of 1 staged");
    assert_eq!(delegate.toggle_stage_all(), Some(StageAll::Stage));
    assert_eq!(
        delegate.toggle_staged_for_row(0).expect("a request").paths,
        vec!["repo:a"]
    );
}

#[test]
fn the_modal_totals_and_draws_its_rows() {
    let delegate = {
        let mut delegate = IdeaGitDelegate::new(
            Some(1),
            vec![entry(
                "a",
                status(StageStatus::Unstaged, false, false),
                Some(DiffStat { added: 4, deleted: 2 }),
            )],
        );
        delegate.update_matches("");
        delegate
    };
    assert!(delegate.can_total());
    assert_eq!(delegate.total_diff_stat(), Some(DiffStat { added: 4, deleted: 2 }));
    match delegate.render_match(0).expect("a row") {
        RowDisplay::File { name, .. } => assert_eq!(name, "a"),
        RowDisplay::Directory { .. } => panic!("expected a file"),
    }
}

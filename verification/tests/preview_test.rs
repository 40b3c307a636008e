use zed_plus::changes::{ProjectFile, ProjectPath};
use zed_plus::preview::{directory_text, is_binary_error, DiffPreview, PreviewTask};
use zed_plus::runs::next_run;

fn file(path: &str, name: Option<&str>, parent: Option<&str>) -> ProjectFile {
    ProjectFile {
        path: ProjectPath { worktree_id: 3, path: path.to_string() },
        file_name: name.map(str::to_string),
        parent: parent.map(str::to_string),
    }
}

#[test]
fn a_binary_file_is_told_by_its_message() {
    assert!(is_binary_error("Binary files are not supported"));
    assert!(is_binary_error("opening x: Binary files are not supported."));
    assert!(!is_binary_error("binary files are not supported"));
    assert!(!is_binary_error(""));
}

#[test]
fn a_pane_starts_with_nothing_selected() {
    let preview = DiffPreview::new();
    assert_eq!(preview.message().unwrap(), "Select a file to see its diff");
    assert_eq!(preview.title(), "Diff");
    assert!(preview.subtitle().is_none());
    assert!(!preview.steppable());
}

#[test]
fn a_pane_turns_to_a_file_once() {
    let mut preview = DiffPreview::new();
    let main = file("src/main.rs", Some("main.rs"), Some("src"));
    let load = preview.show(&main, true).expect("a load");
    assert_eq!(preview.title(), "main.rs");
    assert_eq!(preview.subtitle().unwrap(), "./src");
    assert_eq!(preview.message().unwrap(), "Select a file to see its diff");
    assert!(!preview.steppable());
    assert!(preview.load_finished(load));
    assert!(preview.message().is_none());
    assert!(preview.steppable());
    assert!(preview.show(&main, false).is_none());
    assert!(preview.steppable());

    let other_worktree = ProjectFile {
        path: ProjectPath { worktree_id: 4, path: "src/main.rs".to_string() },
        ..file("", None, None)
    };
    assert!(preview.show(&other_worktree, true).is_some());
    assert_eq!(preview.title(), "Diff");
    assert_eq!(preview.subtitle().unwrap(), "./");
}

#[test]
fn a_new_file_has_nothing_to_step_through() {
    let mut preview = DiffPreview::new();
    let load = preview.show(&file("new.rs", Some("new.rs"), Some("")), false).expect("a load");
    assert!(preview.load_finished(load));
    assert!(preview.message().is_none());
    assert!(!preview.steppable());
}

#[test]
fn a_failure_says_what_went_wrong() {
    let mut preview = DiffPreview::new();
    let load = preview.show(&file("a.png", Some("a.png"), None), true).expect("a load");
    preview.load_failed(load, "Binary files are not supported");
    assert_eq!(preview.message().unwrap(), "Binary file");
    assert!(!preview.steppable());
    preview.load_failed(load, "disk on fire");
    assert_eq!(preview.message().unwrap(), "Could not load this file's diff");
    preview.clear();
    assert_eq!(preview.message().unwrap(), "Select a file to see its diff");
    assert_eq!(preview.title(), "Diff");
}

#[test]
fn a_pane_follows_what_is_previewed() {
    let mut preview = DiffPreview::new();
    let main = file("main.rs", Some("main.rs"), Some(""));
    assert_eq!(preview.follow(Some(&main), true), PreviewTask::Load(1));
    assert_eq!(preview.follow(Some(&main), true), PreviewTask::Keep);
    assert_eq!(preview.follow(None, true), PreviewTask::Clear);
    assert_eq!(preview.title(), "Diff");
}

/// The selection can move on while a diff loads. What comes back late is not shown under the file
/// that the pane has turned to since.
#[test]
fn an_overtaken_load_changes_nothing() {
    let mut preview = DiffPreview::new();
    let slow = preview.show(&file("slow.rs", Some("slow.rs"), None), true).expect("a load");
    let quick = preview.show(&file("quick.rs", Some("quick.rs"), None), true).expect("a load");
    assert_ne!(slow, quick);
    assert!(!preview.load_finished(slow));
    assert_eq!(preview.message().unwrap(), "Select a file to see its diff");
    assert!(!preview.steppable());
    assert!(preview.load_finished(quick));
    assert!(preview.message().is_none());
    preview.load_failed(slow, "Binary files are not supported");
    assert!(preview.message().is_none());
    assert_eq!(preview.title(), "quick.rs");
    assert!(preview.steppable());

    preview.clear();
    assert!(!preview.load_finished(quick));
    preview.load_failed(quick, "disk on fire");
    assert_eq!(preview.message().unwrap(), "Select a file to see its diff");
}

#[test]
fn every_run_has_a_number_of_its_own() {
    assert_eq!(next_run(0), 1);
    assert_eq!(next_run(41), 42);
    assert_eq!(next_run(u64::MAX - 1), u64::MAX);
    assert_eq!(next_run(u64::MAX), 0);
}

#[test]
fn directories_are_written_from_the_worktree() {
    assert_eq!(directory_text(&None), "./");
    assert_eq!(directory_text(&Some(String::new())), "./");
    assert_eq!(directory_text(&Some("a/b".to_string())), "./a/b");
}

#[test]
fn paths_are_the_same_in_the_same_worktree_only() {
    let a = ProjectPath { worktree_id: 1, path: "x".to_string() };
    assert!(a.same_as(&a.duplicate()));
    assert!(!a.same_as(&ProjectPath { worktree_id: 2, path: "x".to_string() }));
    assert!(!a.same_as(&ProjectPath { worktree_id: 1, path: "y".to_string() }));
}

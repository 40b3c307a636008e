use std::ops::Range;

use zed_plus::changes::{ProjectFile, ProjectPath};
use zed_plus::idea_search::{
    collect_matches, collect_syntax, toggleable_options, Chunk, FoundRange, IdeaSearch,
    IdeaSearchDelegate, PreviewAction, ScanAction, ScanEvent, SearchMatch, SearchOption, SearchOptions,
    MAX_MATCHES, RESULT_BATCH_SIZE, SEARCH_DEBOUNCE_MILLIS,
};

fn file(path: &str) -> ProjectFile {
    let (parent, name) = match path.rfind('/') {
        Some(at) => (&path[..at], &path[at + 1..]),
        None => ("", path),
    };
    ProjectFile {
        path: ProjectPath { worktree_id: 1, path: path.to_string() },
        file_name: Some(name.to_string()),
        parent: Some(parent.to_string()),
    }
}

fn found(row: u32, columns: Range<u32>, line: &str) -> FoundRange<u32> {
    FoundRange {
        start_row: row,
        start_column: columns.start,
        end_row: row,
        end_column: columns.end,
        line: line.to_string(),
        line_offset: 100,
        match_range: 7..9,
        source: row,
    }
}

fn matches_in(path: &str, count: usize) -> Vec<SearchMatch<u32>> {
    let ranges = (0..count).map(|row| found(row as u32, 0..1, "x")).collect();
    collect_matches(Some(&file(path)), ranges)
}

fn searching() -> IdeaSearchDelegate<u32> {
    scanning().0
}

/// A list that waits for a scan, and the number of that scan.
fn scanning() -> (IdeaSearchDelegate<u32>, u64) {
    let mut delegate = IdeaSearchDelegate::new();
    let request = delegate.update_matches("x").expect("a search");
    (delegate, request.scan)
}

#[test]
fn matches_become_rows() {
    let rows = collect_matches(
        Some(&file("src/main.rs")),
        vec![found(4, 8..13, "    let value = 1;")],
    );
    assert_eq!(rows.len(), 1);
    let row = &rows[0];
    assert_eq!(row.line_number, 5);
    assert_eq!(row.line_text, "let value = 1;");
    assert_eq!(&row.line_text[row.highlight.clone()], "value");
    assert_eq!(row.buffer_range, 104..118);
    assert_eq!(row.match_range, 7..9);
    assert_eq!(row.source, 4);
    assert_eq!(row.path.path, "src/main.rs");
    assert_eq!(row.file_name.as_deref(), Some("main.rs"));
    assert_eq!(row.parent.as_deref(), Some("src"));
}

/// A match that spans rows runs to the end of its first one.
#[test]
fn a_match_that_spans_rows_ends_with_its_line() {
    let mut spanning = found(0, 2..1, "abcdef");
    spanning.end_row = 3;
    let rows = collect_matches(Some(&file("a")), vec![spanning]);
    assert_eq!(rows[0].highlight, 2..6);
}

#[test]
fn text_without_a_file_has_no_rows() {
    assert!(collect_matches(None, vec![found(0, 0..1, "x")]).is_empty());
}

#[test]
fn a_search_starts_over_with_every_query() {
    let mut delegate = searching();
    assert!(delegate.is_searching());
    delegate.accept(matches_in("a", 3));
    delegate.set_selected_index(2);
    delegate.toggle_option(SearchOption::Regex);
    let request = delegate.update_matches("needle").expect("a search");
    assert_eq!(request.query, "needle");
    assert_eq!(
        request.options,
        SearchOptions { case_sensitive: false, whole_word: false, regex: true, ignored: false }
    );
    assert_eq!(delegate.match_count(), 0);
    assert_eq!(delegate.selected_index(), 0);
    assert!(delegate.is_searching());
    assert!(delegate.summary().is_none());
    assert!(delegate.update_matches("").is_none());
    assert!(!delegate.is_searching());
}

#[test]
fn matches_are_capped() {
    let mut delegate = searching();
    assert!(delegate.accept(matches_in("a", 4000)));
    assert!(delegate.accept(matches_in("b", 4000)));
    assert_eq!(delegate.summary().unwrap(), "8000 matches in 2 files");
    assert!(!delegate.accept(matches_in("c", 4000)));
    assert_eq!(delegate.match_count(), MAX_MATCHES);
    assert_eq!(delegate.summary().unwrap(), "10000+ matches in 3+ files");
    assert!(!delegate.accept(matches_in("d", 1)));
    assert_eq!(delegate.summary().unwrap(), "10000+ matches in 3+ files");
    assert_eq!(delegate.matches()[9999].path.path, "c");
}

#[test]
fn batches_make_no_difference() {
    let mut at_once = searching();
    let mut all = matches_in("a", 3);
    all.extend(matches_in("b", 2));
    all.extend(matches_in("a", 1));
    at_once.accept(all);
    let mut in_batches = searching();
    in_batches.accept(matches_in("a", 3));
    in_batches.accept(matches_in("b", 2));
    in_batches.accept(matches_in("a", 1));
    let paths = |delegate: &IdeaSearchDelegate<u32>| {
        delegate.matches().iter().map(|row| row.path.path.clone()).collect::<Vec<_>>()
    };
    assert_eq!(paths(&at_once), paths(&in_batches));
    assert_eq!(at_once.summary(), in_batches.summary());
    assert_eq!(at_once.summary().unwrap(), "6 matches in 2 files");
}

/// The same path in another worktree is another file.
#[test]
fn files_are_told_apart_by_worktree() {
    let mut delegate = searching();
    delegate.accept(matches_in("a", 1));
    let mut other = file("a");
    other.path.worktree_id = 2;
    delegate.accept(collect_matches(Some(&other), vec![found(0, 0..1, "x")]));
    assert_eq!(delegate.summary().unwrap(), "2 matches in 2 files");
}

#[test]
fn a_scan_runs_until_there_is_nothing_more() {
    let (mut delegate, scan) = scanning();
    assert!(delegate.is_current(scan));
    assert_eq!(delegate.scan_step(scan, ScanEvent::DebounceOver), ScanAction::Await);
    assert_eq!(
        delegate.scan_step(scan, ScanEvent::Batch(matches_in("a", RESULT_BATCH_SIZE))),
        ScanAction::Await
    );
    assert!(delegate.is_searching());
    assert_eq!(delegate.match_count(), 256);
    assert_eq!(delegate.scan_step(scan, ScanEvent::Ended), ScanAction::Stop);
    assert!(!delegate.is_searching());
    assert_eq!(SEARCH_DEBOUNCE_MILLIS, 150);
}

/// A regex that is still being typed has no scan, so nothing turns while it has no results.
#[test]
fn a_rejected_query_runs_no_scan() {
    let (mut delegate, scan) = scanning();
    assert_eq!(delegate.scan_step(scan, ScanEvent::Rejected), ScanAction::Stop);
    assert!(!delegate.is_searching());
    assert_eq!(delegate.match_count(), 0);
}

#[test]
fn a_full_list_stops_the_scan() {
    let (mut delegate, scan) = scanning();
    assert_eq!(
        delegate.scan_step(scan, ScanEvent::Batch(matches_in("a", 10_000))),
        ScanAction::Stop
    );
    assert!(!delegate.is_searching());
}

#[test]
fn an_abandoned_scan_leaves_the_list_alone() {
    let (mut delegate, earlier) = scanning();
    let scan = delegate.update_matches("y").expect("a search").scan;
    assert_ne!(scan, earlier);
    assert!(!delegate.is_current(earlier));
    for event in [
        ScanEvent::DebounceOver,
        ScanEvent::Rejected,
        ScanEvent::Batch(matches_in("a", 1)),
        ScanEvent::Ended,
    ] {
        assert_eq!(delegate.scan_step(earlier, event), ScanAction::Stop);
        assert_eq!(delegate.match_count(), 0);
        assert!(delegate.is_searching());
    }
    assert_eq!(
        delegate.scan_step(scan, ScanEvent::Batch(matches_in("b", 1))),
        ScanAction::Await
    );
    assert_eq!(delegate.match_count(), 1);
    assert_eq!(delegate.matches()[0].path.path, "b");
}

#[test]
fn an_emptied_query_and_a_closed_modal_abandon_the_scan() {
    let (mut delegate, scan) = scanning();
    assert!(delegate.update_matches("").is_none());
    assert!(!delegate.is_current(scan));
    assert_eq!(
        delegate.scan_step(scan, ScanEvent::Batch(matches_in("a", 1))),
        ScanAction::Stop
    );
    assert_eq!(delegate.match_count(), 0);
    assert!(!delegate.is_searching());

    let (mut delegate, scan) = scanning();
    delegate.cancel_running_search();
    assert!(!delegate.is_current(scan));
    assert_eq!(delegate.scan_step(scan, ScanEvent::DebounceOver), ScanAction::Stop);
}

#[test]
fn opening_lands_on_the_match() {
    let mut delegate = searching();
    assert_eq!(delegate.open_selected(), None);
    assert_eq!(delegate.preview_target(), None);
    assert!(delegate.location().is_none());
    delegate.accept(collect_matches(
        Some(&file("src/a.rs")),
        vec![found(0, 0..1, "x"), found(41, 0..1, "x")],
    ));
    assert!(!delegate.click(1, 1));
    assert_eq!(delegate.open_selected(), Some((1, 41)));
    assert_eq!(delegate.preview_target(), Some(1));
    assert!(delegate.click(0, 2));
    assert_eq!(delegate.open_selected(), Some((0, 0)));
    assert_eq!(
        delegate.location(),
        Some(("a.rs".to_string(), "./src".to_string()))
    );
    assert_eq!(delegate.row_location(1).unwrap(), "a.rs:42");
    assert!(delegate.row_location(2).is_none());
    delegate.set_selected_index(9);
    assert_eq!(delegate.open_selected(), None);
}

#[test]
fn a_worktree_root_has_no_name() {
    let mut root = file("");
    root.file_name = None;
    root.parent = None;
    let mut delegate = searching();
    delegate.accept(collect_matches(Some(&root), vec![found(0, 0..1, "x")]));
    assert_eq!(delegate.location(), Some((String::new(), "./".to_string())));
    assert_eq!(delegate.row_location(0).unwrap(), ":1");
}

#[test]
fn options_toggle_one_by_one() {
    assert_eq!(
        toggleable_options(),
        [
            SearchOption::CaseSensitive,
            SearchOption::WholeWord,
            SearchOption::Regex,
            SearchOption::Ignored,
        ]
    );
    let mut delegate: IdeaSearchDelegate<u32> = IdeaSearchDelegate::new();
    for option in toggleable_options() {
        assert!(!delegate.search_options().contains(option));
        delegate.toggle_option(option);
        for other in toggleable_options() {
            assert_eq!(delegate.search_options().contains(other), other == option);
        }
        delegate.toggle_option(option);
    }
}

#[test]
fn the_preview_is_mirrored() {
    let mut modal: IdeaSearch<u32> = IdeaSearch::new();
    assert!(modal.delegate.preview_visible());
    assert_eq!(modal.delegate.preview_action(), PreviewAction::Hide);
    modal.preview_toggled();
    assert!(!modal.delegate.preview_visible());
    assert_eq!(modal.delegate.preview_action(), PreviewAction::ShowBelow);
    modal.preview_toggled();
    modal.preview_hidden();
    assert!(!modal.delegate.preview_visible());
    modal.delegate.preview_layout_changed(false);
    assert!(!modal.delegate.preview_visible());
    modal.delegate.preview_layout_changed(true);
    assert!(modal.delegate.preview_visible());
    modal.set_preview_visible(false);
    modal.preview_shown();
    assert!(modal.delegate.preview_visible());
}

#[test]
fn escape_empties_the_search_first() {
    assert!(IdeaSearch::<u32>::cancel("x"));
    assert!(!IdeaSearch::<u32>::cancel(""));
}

#[test]
fn highlights_follow_the_chunks() {
    let chunk = |len, highlight| Chunk { len, highlight };
    assert_eq!(
        collect_syntax(vec![
            chunk(3, Some('k')),
            chunk(2, None),
            chunk(0, Some('e')),
            chunk(4, Some('s')),
        ]),
        vec![(0..3, 'k'), (5..5, 'e'), (5..9, 's')]
    );
    assert_eq!(collect_syntax(Vec::<Chunk<char>>::new()), vec![]);
}

use zed_plus::idea_agent::{IdeaAgentWindow, Pane, ThreadsSide};
use zed_plus::listing::{clamp_index, collapse_tooltip, positions};
use zed_plus::windows::{toggle_window, WindowAction};

#[test]
fn an_editor_window_has_one_window_of_each_kind() {
    assert_eq!(toggle_window(&vec![], 1), WindowAction::Open);
    assert_eq!(toggle_window(&vec![None, Some(2)], 1), WindowAction::Open);
    assert_eq!(
        toggle_window(&vec![None, Some(2), Some(1), Some(1)], 1),
        WindowAction::Activate(2)
    );
}

#[test]
fn the_agent_window_follows_the_editor() {
    let mut window = IdeaAgentWindow::new(1, 10);
    assert!(!window.follow_workspace(None));
    assert!(!window.follow_workspace(Some(10)));
    assert!(window.follow_workspace(Some(11)));
    assert_eq!(window.panel, 11);
    assert_eq!(window.multi_workspace, 1);
}

#[test]
fn threads_sit_left_right_or_nowhere() {
    let mut window = IdeaAgentWindow::new(1, 10);
    assert_eq!(window.panes(), vec![Pane::Threads, Pane::Divider, Pane::Panel]);
    assert!(window.measures_from_left());
    window.set_threads_side(ThreadsSide::Right);
    assert_eq!(window.panes(), vec![Pane::Panel, Pane::Divider, Pane::Threads]);
    assert!(!window.measures_from_left());
    window.set_threads_side(ThreadsSide::Hidden);
    assert_eq!(window.panes(), vec![Pane::Panel]);
    let pressed = window
        .side_buttons()
        .iter()
        .map(|button| (button.side, button.pressed))
        .collect::<Vec<_>>();
    assert_eq!(
        pressed,
        vec![
            (ThreadsSide::Left, false),
            (ThreadsSide::Hidden, true),
            (ThreadsSide::Right, false),
        ]
    );
}

#[test]
fn positions_are_kept_in_range() {
    assert_eq!(clamp_index(3, 5), 3);
    assert_eq!(clamp_index(5, 5), 4);
    assert_eq!(clamp_index(5, 0), 0);
    assert_eq!(positions(3), vec![0, 1, 2]);
    assert_eq!(positions(0), Vec::<usize>::new());
    assert_eq!(collapse_tooltip(true), "Collapse All");
    assert_eq!(collapse_tooltip(false), "Expand All");
}

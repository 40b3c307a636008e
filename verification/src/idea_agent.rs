//! The agent panel in a window of its own: the conversation of whichever workspace the editor
//! window is showing, with the threads list beside it.

use vstd::prelude::*;

verus! {

/// Where the threads list sits relative to the conversation.
#[derive(Clone, Copy, Debug, PartialEq, Eq, Structural)]
pub enum ThreadsSide {
    Hidden,
    Left,
    Right,
}

/// What the window is made of, from left to right.
#[derive(Clone, Copy, Debug, PartialEq, Eq, Structural)]
pub enum Pane {
    Threads,
    Divider,
    Panel,
}

/// A button of the window's header.
#[derive(Clone, Copy, Debug, PartialEq, Eq, Structural)]
pub struct SideButton {
    pub side: ThreadsSide,
    /// Whether the threads list sits there now.
    pub pressed: bool,
}

/// A host for two views, and nothing else.
pub struct IdeaAgentWindow {
    /// The editor window this one belongs to. Also what tells one agent window from another when
    /// the action fires again.
    pub multi_workspace: u64,
    /// The panel of whichever workspace the editor window is showing, not a copy of it: this
    /// window and the dock show the same conversation.
    pub panel: u64,
    pub threads_side: ThreadsSide,
}

/// The panes that a window with its threads list at `side` shows, from left to right.
pub open spec fn panes_for(side: ThreadsSide) -> Seq<Pane> {
    match side {
        ThreadsSide::Hidden => seq![Pane::Panel],
        ThreadsSide::Left => seq![Pane::Threads, Pane::Divider, Pane::Panel],
        ThreadsSide::Right => seq![Pane::Panel, Pane::Divider, Pane::Threads],
    }
}

impl IdeaAgentWindow {
    pub fn new(multi_workspace: u64, panel: u64) -> (window: Self)
        ensures
            window == (IdeaAgentWindow {
                multi_workspace,
                panel,
                threads_side: ThreadsSide::Left,
            }),
    {
        IdeaAgentWindow { multi_workspace, panel, threads_side: ThreadsSide::Left }
    }

    /// Follows the editor window from one workspace to another.
    ///
    /// Activating a thread that belongs elsewhere switches the whole editor window, and the panel
    /// belongs to a workspace, so the one this window renders has to be swapped for the new
    /// workspace's, or it would keep showing the conversation just navigated away from. A
    /// workspace without a panel changes nothing. Returns whether the panel was swapped.
    pub fn follow_workspace(&mut self, panel: Option<u64>) -> (swapped: bool)
        ensures
            swapped == (panel is Some && panel != Some(old(self).panel)),
            *final(self) == (IdeaAgentWindow {
                panel: match panel {
                    Some(panel) => panel,
                    None => old(self).panel,
                },
                ..*old(self)
            }),
    {
        match panel {
            Some(panel) => {
                if panel == self.panel {
                    return false;
                }
                self.panel = panel;
                true
            },
            None => false,
        }
    }

    /// Moves the threads list, or hides it.
    pub fn set_threads_side(&mut self, side: ThreadsSide)
        ensures
            *final(self) == (IdeaAgentWindow { threads_side: side, ..*old(self) }),
    {
        self.threads_side = side;
    }

    /// The header's buttons, in the order they appear. The one for where the threads list sits is
    /// pressed.
    pub fn side_buttons(&self) -> (buttons: [SideButton; 3])
        ensures
            buttons@ == seq![
                SideButton {
                    side: ThreadsSide::Left,
                    pressed: self.threads_side == ThreadsSide::Left,
                },
                SideButton {
                    side: ThreadsSide::Hidden,
                    pressed: self.threads_side == ThreadsSide::Hidden,
                },
                SideButton {
                    side: ThreadsSide::Right,
                    pressed: self.threads_side == ThreadsSide::Right,
                },
            ],
    {
        let side = self.threads_side;
        let buttons = [
            SideButton { side: ThreadsSide::Left, pressed: side == ThreadsSide::Left },
            SideButton { side: ThreadsSide::Hidden, pressed: side == ThreadsSide::Hidden },
            SideButton { side: ThreadsSide::Right, pressed: side == ThreadsSide::Right },
        ];
        proof {
            assert(buttons@ =~= seq![buttons@[0], buttons@[1], buttons@[2]]);
        }
        buttons
    }

    /// The panes of the window, from left to right.
    pub fn panes(&self) -> (panes: Vec<Pane>)
        ensures
            panes@ == panes_for(self.threads_side),
    {
        let mut panes: Vec<Pane> = Vec::new();
        match self.threads_side {
            ThreadsSide::Hidden => {
                panes.push(Pane::Panel);
            },
            ThreadsSide::Left => {
                panes.push(Pane::Threads);
                panes.push(Pane::Divider);
                panes.push(Pane::Panel);
            },
            ThreadsSide::Right => {
                panes.push(Pane::Panel);
                panes.push(Pane::Divider);
                panes.push(Pane::Threads);
            },
        }
        proof {
            assert(panes@ =~= panes_for(self.threads_side));
        }
        panes
    }

    /// Whether a drag of the divider measures the threads list from the window's left edge.
    /// Dragging a pane on the right grows it as the pointer moves left.
    pub fn measures_from_left(&self) -> (from_left: bool)
        ensures
            from_left == (self.threads_side == ThreadsSide::Left),
    {
        self.threads_side == ThreadsSide::Left
    }
}

/// The conversation is always on screen, and the threads list with a divider beside it exactly
/// where it is not hidden.
pub proof fn law_conversation_is_always_shown(side: ThreadsSide)
    ensures
        panes_for(side).contains(Pane::Panel),
        panes_for(side).contains(Pane::Threads) <==> side != ThreadsSide::Hidden,
        panes_for(side).contains(Pane::Divider) <==> side != ThreadsSide::Hidden,
{
    let panes = panes_for(side);
    match side {
        ThreadsSide::Hidden => {
            assert(panes[0] == Pane::Panel);
        },
        ThreadsSide::Left => {
            assert(panes[0] == Pane::Threads && panes[1] == Pane::Divider && panes[2]
                == Pane::Panel);
        },
        ThreadsSide::Right => {
            assert(panes[0] == Pane::Panel && panes[1] == Pane::Divider && panes[2]
                == Pane::Threads);
        },
    }
}

/// The threads list sits where it was put: left of the conversation, right of it, or nowhere, with
/// the divider between the two. Nothing is shown twice.
pub proof fn law_threads_sit_where_they_were_put(side: ThreadsSide)
    ensures
        panes_for(side).no_duplicates(),
        side == ThreadsSide::Left ==> panes_for(side).first() == Pane::Threads && panes_for(
            side,
        ).last() == Pane::Panel,
        side == ThreadsSide::Right ==> panes_for(side).first() == Pane::Panel && panes_for(
            side,
        ).last() == Pane::Threads,
        side != ThreadsSide::Hidden ==> panes_for(side).len() == 3 && panes_for(side)[1]
            == Pane::Divider,
        side == ThreadsSide::Hidden ==> panes_for(side).len() == 1 && panes_for(side)[0]
            == Pane::Panel,
{
}

} // verus!

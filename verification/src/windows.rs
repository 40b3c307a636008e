//! Keeping one window per editor window.

use vstd::prelude::*;

verus! {

/// What asking for a window does.
#[derive(Clone, Copy, Debug, PartialEq, Eq, Structural)]
pub enum WindowAction {
    /// Bring the window at this position forward.
    Activate(usize),
    /// Open a new one.
    Open,
}

/// Whether the window at `index` belongs to the editor window `multi_workspace`.
pub open spec fn belongs(owners: Seq<Option<u64>>, index: int, multi_workspace: u64) -> bool {
    0 <= index < owners.len() && owners[index] == Some(multi_workspace)
}

/// Opens the window for this editor window, or brings the existing one forward. One window per
/// editor window rather than per project: the editor switches between workspaces in place, and
/// the window follows it, so keying on the project would strand a window on the workspace it
/// opened against.
///
/// `owners` gives, for each open window of the kind asked for, the editor window it belongs to,
/// or `None` where that cannot be told.
pub fn toggle_window(owners: &Vec<Option<u64>>, multi_workspace: u64) -> (action: WindowAction)
    ensures
        match action {
            WindowAction::Activate(index) => {
                &&& belongs(owners@, index as int, multi_workspace)
                &&& forall|k: int| 0 <= k < index ==> !#[trigger] belongs(owners@, k, multi_workspace)
            },
            WindowAction::Open => forall|k: int|
                !#[trigger] belongs(owners@, k, multi_workspace),
        },
{
    let mut i: usize = 0;
    while i < owners.len()
        invariant
            i <= owners.len(),
            forall|k: int| 0 <= k < i ==> !#[trigger] belongs(owners@, k, multi_workspace),
        decreases owners.len() - i,
    {
        if let Some(owner) = owners[i] {
            if owner == multi_workspace {
                return WindowAction::Activate(i);
            }
        }
        i += 1;
    }
    WindowAction::Open
}

/// How many of the open windows belong to the editor window `multi_workspace`.
pub open spec fn window_count(owners: Seq<Option<u64>>, multi_workspace: u64) -> nat {
    owners.filter(|owner: Option<u64>| owner == Some(multi_workspace)).len()
}

/// Asking for a window never leaves an editor window with two of them: a new one is opened only
/// where there was none.
pub proof fn law_one_window_per_editor_window(owners: Seq<Option<u64>>, multi_workspace: u64)
    requires
        forall|k: int| !#[trigger] belongs(owners, k, multi_workspace),
    ensures
        window_count(owners.push(Some(multi_workspace)), multi_workspace) == 1,
{
    let mine = |owner: Option<u64>| owner == Some(multi_workspace);
    lemma_none_counted(owners, multi_workspace);
    reveal(Seq::filter);
    let more = owners.push(Some(multi_workspace));
    assert(more.drop_last() =~= owners);
    assert(more.filter(mine) == owners.filter(mine).push(Some(multi_workspace)));
}

proof fn lemma_none_counted(owners: Seq<Option<u64>>, multi_workspace: u64)
    requires
        forall|k: int| !#[trigger] belongs(owners, k, multi_workspace),
    ensures
        window_count(owners, multi_workspace) == 0,
    decreases owners.len(),
{
    reveal(Seq::filter);
    if owners.len() > 0 {
        let front = owners.drop_last();
        assert forall|k: int| !#[trigger] belongs(front, k, multi_workspace) by {
            assert(!belongs(owners, k, multi_workspace));
        }
        lemma_none_counted(front, multi_workspace);
        assert(!belongs(owners, owners.len() - 1, multi_workspace));
    }
}

/// A window belongs to an editor window exactly where that one is known to be its owner.
pub proof fn law_window_belongs_to_its_owner(
    owners: Seq<Option<u64>>,
    index: int,
    multi_workspace: u64,
)
    ensures
        belongs(owners, index, multi_workspace) <==> 0 <= index < owners.len()
            && owners[index] is Some && owners[index]->0 == multi_workspace,
{
}

} // verus!

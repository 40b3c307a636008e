//! What the checkboxes show, and what pressing them stages.

use vstd::prelude::*;

use crate::changes::{
    all_are, all_staged, directory_stage_status, directory_status, display_paths,
    everything_staged, files_under, lemma_positions_under, positions_under, string_views,
    ChangedFile, StageStatus,
};
use crate::tree::{row_views, Row, RowView};

verus! {

/// What a checkbox shows.
#[derive(Clone, Copy, Debug, PartialEq, Eq, Structural)]
pub enum ToggleState {
    Unselected,
    Indeterminate,
    Selected,
}

/// A staged file is checked, an unstaged one is not, and a file staged in part is neither.
pub open spec fn checkbox(status: StageStatus) -> ToggleState {
    match status {
        StageStatus::Staged => ToggleState::Selected,
        StageStatus::Unstaged => ToggleState::Unselected,
        StageStatus::PartiallyStaged => ToggleState::Indeterminate,
    }
}

/// A staged file is checked, an unstaged one is not, and a file staged in part is neither.
pub fn stage_toggle_state(status: StageStatus) -> (state: ToggleState)
    ensures
        state == checkbox(status),
        state == ToggleState::Selected <==> status == StageStatus::Staged,
        state == ToggleState::Unselected <==> status == StageStatus::Unstaged,
{
    match status {
        StageStatus::Staged => ToggleState::Selected,
        StageStatus::Unstaged => ToggleState::Unselected,
        StageStatus::PartiallyStaged => ToggleState::Indeterminate,
    }
}

/// What one press of the button that covers the whole repository does.
#[derive(Clone, Copy, Debug, PartialEq, Eq, Structural)]
pub enum StageAll {
    Stage,
    Unstage,
}

/// Stages everything, or unstages everything once it all is staged, so one button covers both. A
/// file that is staged only in part is one more to stage.
/// Deliberately ignores any filter: "all" that meant "all the ones you can see" would be a trap
/// when the list is narrowed.
pub fn stage_all_action(files: &Vec<ChangedFile>) -> (action: StageAll)
    ensures
        action == if everything_staged(files@) {
            StageAll::Unstage
        } else {
            StageAll::Stage
        },
{
    if all_staged(files) {
        StageAll::Unstage
    } else {
        StageAll::Stage
    }
}

/// Files to move into what the next commit will contain, or out of it.
pub struct StageRequest {
    /// Repository paths, at least one.
    pub paths: Vec<String>,
    pub staged: bool,
}

/// A request to stage or unstage, as a value.
pub struct StageRequestView {
    pub paths: Seq<Seq<char>>,
    pub staged: bool,
}

impl View for StageRequest {
    type V = StageRequestView;

    open spec fn view(&self) -> StageRequestView {
        StageRequestView { paths: string_views(self.paths@), staged: self.staged }
    }
}

/// The repository paths of the files at `positions`.
pub open spec fn repo_paths_at(files: Seq<ChangedFile>, positions: Seq<usize>) -> Seq<Seq<char>> {
    positions.map_values(|position: usize| files[position as int].repo_path@)
}

/// What the checkbox of the row at `row` asks for: a file's asks for that file, a directory's for
/// every file under it. It unstages where anything is staged already, and stages otherwise.
/// Where no listed file stands behind the row it asks for nothing.
pub open spec fn row_request(
    rows: Seq<RowView>,
    files: Seq<ChangedFile>,
    row: int,
) -> Option<StageRequestView> {
    if !(0 <= row < rows.len()) {
        None
    } else {
        match rows[row] {
            RowView::File { entry, .. } => if entry < files.len() {
                Some(
                    StageRequestView {
                        paths: seq![files[entry as int].repo_path@],
                        staged: !files[entry as int].status.staging.some_staged(),
                    },
                )
            } else {
                None
            },
            RowView::Directory { path, .. } => {
                let under = positions_under(display_paths(files), path);
                if under.len() == 0 {
                    None
                } else {
                    Some(
                        StageRequestView {
                            paths: repo_paths_at(files, under),
                            staged: !directory_status(files, path).some_staged(),
                        },
                    )
                }
            },
        }
    }
}

/// A request, or the lack of one, as a value.
pub open spec fn request_view(request: Option<StageRequest>) -> Option<StageRequestView> {
    match request {
        Some(request) => Some(request@),
        None => None,
    }
}

/// The repository paths of the files at `positions`.
fn copy_repo_paths(files: &Vec<ChangedFile>, positions: &Vec<usize>) -> (paths: Vec<String>)
    requires
        forall|k: int| 0 <= k < positions@.len() ==> #[trigger] positions@[k] < files@.len(),
    ensures
        string_views(paths@) == repo_paths_at(files@, positions@),
{
    let mut paths: Vec<String> = Vec::new();
    let mut i: usize = 0;
    while i < positions.len()
        invariant
            forall|k: int| 0 <= k < positions@.len() ==> #[trigger] positions@[k] < files@.len(),
            i <= positions.len(),
            paths@.len() == i,
            forall|k: int|
                0 <= k < i ==> (#[trigger] paths@[k])@ == files@[positions@[k] as int].repo_path@,
        decreases positions.len() - i,
    {
        paths.push(files[positions[i]].repo_path.clone());
        i += 1;
    }
    proof {
        assert(string_views(paths@) =~= repo_paths_at(files@, positions@));
    }
    paths
}

/// What pressing the checkbox of the row at `row` asks the repository for.
pub fn stage_request(
    rows: &Vec<Row>,
    files: &Vec<ChangedFile>,
    row: usize,
) -> (request: Option<StageRequest>)
    ensures
        request_view(request) == row_request(row_views(rows@), files@, row as int),
        row >= rows@.len() ==> request is None,
        row < rows@.len() ==> match rows@[row as int] {
            Row::File { entry, .. } => {
                &&& request is Some <==> entry < files@.len()
                &&& request matches Some(request) ==> {
                    &&& request.staged <==> files@[entry as int].status.staging
                        == StageStatus::Unstaged
                    &&& request.paths@.len() == 1
                    &&& request.paths@[0]@ == files@[entry as int].repo_path@
                }
            },
            Row::Directory { path, .. } => request matches Some(request) ==> {
                &&& request.paths@.len() > 0
                &&& request.staged <==> all_are(
                    files@,
                    positions_under(display_paths(files@), path@),
                    StageStatus::Unstaged,
                )
            },
        },
{
    assert(files.len() == files@.len());
    if row >= rows.len() {
        return None;
    }
    proof {
        assert(row_views(rows@)[row as int] == rows@[row as int]@);
    }
    match &rows[row] {
        Row::File { entry, .. } => {
            if *entry >= files.len() {
                return None;
            }
            let file = &files[*entry];
            let mut paths: Vec<String> = Vec::new();
            paths.push(file.repo_path.clone());
            proof {
                assert(string_views(paths@) =~= seq![file.repo_path@]);
            }
            Some(StageRequest { paths, staged: !file.status.staging.has_staged() })
        },
        Row::Directory { path, .. } => {
            let under = files_under(files, path.as_str());
            proof {
                lemma_positions_under(display_paths(files@), path@);
            }
            if under.len() == 0 {
                return None;
            }
            let paths = copy_repo_paths(files, &under);
            proof {
                assert(string_views(paths@).len() == paths@.len());
                assert(repo_paths_at(files@, under@).len() == under@.len());
            }
            let staged = !directory_stage_status(files, path.as_str()).has_staged();
            Some(StageRequest { paths, staged })
        },
    }
}

/// Whether `after` lists the same files as `before`, those under `directory` staged in full where
/// `staged` is set and not at all otherwise.
pub open spec fn settled(
    before: Seq<ChangedFile>,
    after: Seq<ChangedFile>,
    directory: Seq<char>,
    staged: bool,
) -> bool {
    let under = positions_under(display_paths(before), directory);
    &&& display_paths(after) == display_paths(before)
    &&& all_are(
        after,
        under,
        if staged {
            StageStatus::Staged
        } else {
            StageStatus::Unstaged
        },
    )
}

/// A directory's checkbox does what it shows: once the repository has done what it asked for, it
/// is checked where it asked to stage and unchecked where it asked to unstage, so that the next
/// press asks for the opposite, of the same files.
pub proof fn law_directory_checkbox_settles(
    rows: Seq<RowView>,
    before: Seq<ChangedFile>,
    after: Seq<ChangedFile>,
    row: int,
)
    requires
        0 <= row < rows.len(),
        rows[row] is Directory,
        row_request(rows, before, row) is Some,
        settled(before, after, rows[row]->path, row_request(rows, before, row)->0.staged),
    ensures
        checkbox(directory_status(after, rows[row]->path)) == if row_request(
            rows,
            before,
            row,
        )->0.staged {
            ToggleState::Selected
        } else {
            ToggleState::Unselected
        },
        row_request(rows, after, row) == Some(
            StageRequestView {
                paths: repo_paths_at(
                    after,
                    positions_under(display_paths(before), rows[row]->path),
                ),
                staged: !row_request(rows, before, row)->0.staged,
            },
        ),
{
    let path = rows[row]->path;
    let under = positions_under(display_paths(before), path);
    assert(positions_under(display_paths(after), path) == under);
    if row_request(rows, before, row)->0.staged {
        assert(after[under[0] as int].status.staging == StageStatus::Staged);
        assert(!all_are(after, under, StageStatus::Unstaged));
    }
}

/// A directory's checkbox reaches exactly the files under that directory.
pub proof fn law_directory_checkbox_reaches_files_under_it(
    rows: Seq<RowView>,
    files: Seq<ChangedFile>,
    row: int,
    entry: int,
)
    requires
        0 <= row < rows.len(),
        rows[row] is Directory,
        0 <= entry < files.len() <= usize::MAX,
    ensures
        crate::changes::lies_under(files[entry].display_path@, rows[row]->path) <==> {
            &&& row_request(rows, files, row) is Some
            &&& positions_under(display_paths(files), rows[row]->path).contains(entry as usize)
        },
{
    let path = rows[row]->path;
    let paths = display_paths(files);
    let all = crate::changes::all_positions(paths.len());
    let inside = |i: usize| crate::changes::lies_under(paths[i as int], path);
    let under = positions_under(paths, path);
    if crate::changes::lies_under(files[entry].display_path@, path) {
        assert(all[entry] == entry as usize);
        assert(inside(all[entry]));
        all.lemma_filter_contains(inside, entry);
        assert(under.contains(entry as usize));
        assert(under.len() > 0);
    } else if under.contains(entry as usize) {
        let k = choose|k: int| 0 <= k < under.len() && under[k] == entry as usize;
        lemma_positions_under(paths, path);
        assert(crate::changes::lies_under(paths[under[k] as int], path));
    }
}

} // verus!

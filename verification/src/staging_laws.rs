//! What the checkboxes promise, told by the files behind them.

use vstd::prelude::*;

use crate::changes::{
    all_are, all_positions, display_paths, everything_staged, lies_under, positions_under,
    ChangedFile, StageStatus,
};
use crate::display::{displayed, RowDisplay};
use crate::staging::{checkbox, request_view, row_request, StageRequest, ToggleState};
use crate::tree::{row_views, Row, RowView};

verus! {

/// Whether the file at `path` lies in the directory `directory`, at any depth: its path goes on
/// behind the directory's with a slash.
pub open spec fn in_directory(path: Seq<char>, directory: Seq<char>) -> bool {
    &&& directory.len() < path.len()
    &&& forall|k: int| 0 <= k < directory.len() ==> #[trigger] path[k] == directory[k]
    &&& path[directory.len() as int] == '/'
}

/// Lying under a directory is told by the path alone.
pub proof fn law_under_a_directory(path: Seq<char>, directory: Seq<char>)
    ensures
        lies_under(path, directory) <==> in_directory(path, directory),
{
    let marked = directory + seq!['/'];
    if lies_under(path, directory) {
        assert forall|k: int| 0 <= k < marked.len() implies marked[k] == #[trigger] path[k] by {
            assert(path.subrange(0, marked.len() as int)[k] == path[k]);
        }
        assert(marked[directory.len() as int] == '/');
    }
    if in_directory(path, directory) {
        assert(marked =~= path.subrange(0, marked.len() as int));
    }
}

/// A checkbox is checked for what is staged in full, empty for what is not staged at all, and
/// neither for what is staged in part. No two of the three look the same.
pub proof fn law_checkbox_tells_the_status(status: StageStatus)
    ensures
        checkbox(status) == ToggleState::Selected <==> status == StageStatus::Staged,
        checkbox(status) == ToggleState::Unselected <==> status == StageStatus::Unstaged,
        checkbox(status) == ToggleState::Indeterminate <==> status == StageStatus::PartiallyStaged,
        status.some_staged() <==> status == StageStatus::Staged || status
            == StageStatus::PartiallyStaged,
{
}

/// A request says the same as a value.
pub proof fn law_request_as_a_value(request: StageRequest)
    ensures
        request@.staged == request.staged,
        request@.paths.len() == request.paths@.len(),
        forall|i: int|
            0 <= i < request.paths@.len() ==> request@.paths[i] == (#[trigger] request.paths@[i])@,
        request_view(Some(request)) == Some(request@),
        request_view(None) is None,
{
}

/// The checkbox of a file's row asks for that one file, and stages it exactly where nothing of it
/// is staged. A row with no listed file behind it asks for nothing.
pub proof fn law_file_checkbox_stages_what_is_not_staged(
    rows: Seq<RowView>,
    files: Seq<ChangedFile>,
    row: int,
)
    requires
        0 <= row < rows.len(),
        rows[row] is File,
    ensures
        row_request(rows, files, row) is Some <==> rows[row]->entry < files.len(),
        row_request(rows, files, row) matches Some(request) ==> {
            let file = files[rows[row]->entry as int];
            &&& request.staged <==> file.status.staging == StageStatus::Unstaged
            &&& request.paths.len() == 1
            &&& request.paths[0] == file.repo_path@
        },
{
}

/// A file's checkbox does what it shows: once the repository has done what it asked for, it is
/// checked where it asked to stage and empty where it asked to unstage, so that the next press
/// asks for the opposite, of the same file.
pub proof fn law_file_checkbox_settles(
    rows: Seq<RowView>,
    before: Seq<ChangedFile>,
    after: Seq<ChangedFile>,
    row: int,
)
    requires
        0 <= row < rows.len(),
        rows[row] is File,
        rows[row]->entry < before.len(),
        after.len() == before.len(),
        after[rows[row]->entry as int].repo_path@ == before[rows[row]->entry as int].repo_path@,
        row_request(rows, before, row) matches Some(request) ==> after[
        rows[row]->entry as int].status.staging == if request.staged {
            StageStatus::Staged
        } else {
            StageStatus::Unstaged
        },
    ensures
        row_request(rows, before, row) is Some,
        row_request(rows, after, row) is Some,
        ({
            let asked = row_request(rows, before, row)->0;
            let next = row_request(rows, after, row)->0;
            &&& next.staged == !asked.staged
            &&& next.paths == asked.paths
            &&& displayed(rows, after, row) is Some
            &&& displayed(rows, after, row)->0 is File
            &&& displayed(rows, after, row)->0->File_checkbox == if asked.staged {
                ToggleState::Selected
            } else {
                ToggleState::Unselected
            }
        }),
{
}

/// The positions of the files in a directory are those whose paths say so, in order, each once.
pub proof fn law_files_in_a_directory(files: Seq<ChangedFile>, directory: Seq<char>)
    requires
        files.len() <= usize::MAX,
    ensures
        ({
            let under = positions_under(display_paths(files), directory);
            &&& forall|k: int|
                0 <= k < under.len() ==> #[trigger] under[k] < files.len() && in_directory(
                    files[under[k] as int].display_path@,
                    directory,
                )
            &&& forall|e: int|
                0 <= e < files.len() && in_directory(
                    (#[trigger] files[e]).display_path@,
                    directory,
                ) ==> under.contains(e as usize)
            &&& forall|j: int, k: int|
                0 <= j < k < under.len() ==> #[trigger] under[j] < #[trigger] under[k]
        }),
{
    let paths = display_paths(files);
    let under = positions_under(paths, directory);
    let all = all_positions(paths.len());
    let inside = |i: usize| lies_under(paths[i as int], directory);
    crate::changes::lemma_positions_under(paths, directory);
    assert forall|k: int| 0 <= k < under.len() implies #[trigger] under[k] < files.len()
        && in_directory(files[under[k] as int].display_path@, directory) by {
        law_under_a_directory(paths[under[k] as int], directory);
    }
    assert forall|e: int|
        0 <= e < files.len() && in_directory(
            (#[trigger] files[e]).display_path@,
            directory,
        ) implies under.contains(e as usize) by {
        law_under_a_directory(paths[e], directory);
        assert(all[e] == e as usize);
        assert(inside(all[e]));
        all.lemma_filter_contains(inside, e);
    }
    lemma_filtered_positions_ascend(paths.len(), inside);
}

proof fn lemma_filtered_positions_ascend(count: nat, keep: spec_fn(usize) -> bool)
    requires
        count <= usize::MAX,
    ensures
        ({
            let kept = all_positions(count).filter(keep);
            &&& forall|j: int, k: int|
                0 <= j < k < kept.len() ==> #[trigger] kept[j] < #[trigger] kept[k]
            &&& forall|k: int| 0 <= k < kept.len() ==> #[trigger] kept[k] < count
        }),
    decreases count,
{
    reveal(Seq::filter);
    if count > 0 {
        let fewer = (count - 1) as nat;
        lemma_filtered_positions_ascend(fewer, keep);
        assert(all_positions(count).drop_last() =~= all_positions(fewer));
        assert(all_positions(count).last() == fewer as usize);
        let before = all_positions(fewer).filter(keep);
        assert(all_positions(count).filter(keep) == if keep(fewer as usize) {
            before.push(fewer as usize)
        } else {
            before
        });
    } else {
        assert(all_positions(0).filter(keep) =~= Seq::<usize>::empty());
    }
}

/// Whether `under` picks the files in `directory`, all of them, in the order they are listed, and
/// `paths` are their repository paths.
pub open spec fn picks_directory(
    under: Seq<usize>,
    files: Seq<ChangedFile>,
    directory: Seq<char>,
    paths: Seq<Seq<char>>,
) -> bool {
    &&& under.len() == paths.len()
    &&& forall|j: int, k: int|
        0 <= j < k < under.len() ==> #[trigger] under[j] < #[trigger] under[k]
    &&& forall|k: int|
        0 <= k < under.len() ==> {
            &&& #[trigger] under[k] < files.len()
            &&& in_directory(files[under[k] as int].display_path@, directory)
            &&& paths[k] == files[under[k] as int].repo_path@
        }
    &&& forall|e: int|
        0 <= e < files.len() && in_directory((#[trigger] files[e]).display_path@, directory)
            ==> under.contains(e as usize)
}

/// The checkbox of a directory's row asks for the files in that directory, in the order they are
/// listed, and for no others. It stages exactly where nothing in there is staged, and asks for
/// nothing where no listed file is in there.
pub proof fn law_directory_checkbox_stages_what_is_not_staged(
    rows: Seq<RowView>,
    files: Seq<ChangedFile>,
    row: int,
)
    requires
        0 <= row < rows.len(),
        rows[row] is Directory,
        files.len() <= usize::MAX,
    ensures
        row_request(rows, files, row) is Some <==> exists|e: int|
            0 <= e < files.len() && in_directory(
                (#[trigger] files[e]).display_path@,
                rows[row]->path,
            ),
        row_request(rows, files, row) matches Some(request) ==> {
            &&& request.staged <==> forall|e: int|
                0 <= e < files.len() && in_directory(
                    (#[trigger] files[e]).display_path@,
                    rows[row]->path,
                ) ==> files[e].status.staging == StageStatus::Unstaged
            &&& exists|under: Seq<usize>| #[trigger]
                picks_directory(under, files, rows[row]->path, request.paths)
        },
{
    let directory = rows[row]->path;
    let under = positions_under(display_paths(files), directory);
    law_files_in_a_directory(files, directory);
    if under.len() > 0 {
        assert(in_directory(files[under[0] as int].display_path@, directory));
    }
    lemma_status_by_files(files, directory);
    if row_request(rows, files, row) is Some {
        let request = row_request(rows, files, row)->0;
        assert(under.len() == request.paths.len());
        assert forall|k: int| 0 <= k < under.len() implies {
            &&& #[trigger] under[k] < files.len()
            &&& in_directory(files[under[k] as int].display_path@, directory)
            &&& request.paths[k] == files[under[k] as int].repo_path@
        } by {}
        assert(picks_directory(under, files, directory, request.paths));
    }
}

proof fn lemma_status_by_files(files: Seq<ChangedFile>, directory: Seq<char>)
    requires
        files.len() <= usize::MAX,
    ensures
        forall|status: StageStatus| #[trigger]
            all_are(files, positions_under(display_paths(files), directory), status)
                <==> forall|e: int|
                0 <= e < files.len() && in_directory(
                    (#[trigger] files[e]).display_path@,
                    directory,
                ) ==> files[e].status.staging == status,
{
    let under = positions_under(display_paths(files), directory);
    law_files_in_a_directory(files, directory);
    assert forall|status: StageStatus| #[trigger]
        all_are(files, under, status) <==> forall|e: int|
            0 <= e < files.len() && in_directory(
                (#[trigger] files[e]).display_path@,
                directory,
            ) ==> files[e].status.staging == status by {
        if all_are(files, under, status) {
            assert forall|e: int|
                0 <= e < files.len() && in_directory(
                    (#[trigger] files[e]).display_path@,
                    directory,
                ) implies files[e].status.staging == status by {
                let k = choose|k: int| 0 <= k < under.len() && under[k] == e as usize;
                assert(files[under[k] as int].status.staging == status);
            }
        }
        if forall|e: int|
            0 <= e < files.len() && in_directory(
                (#[trigger] files[e]).display_path@,
                directory,
            ) ==> files[e].status.staging == status {
            assert forall|k: int| 0 <= k < under.len() implies files[
            #[trigger] under[k] as int].status.staging == status by {
                assert(in_directory(files[under[k] as int].display_path@, directory));
            }
        }
    }
}

/// A directory is drawn with the path, label, depth and mark of its row. Its checkbox is empty
/// where nothing in the directory is staged, checked where every one of its files is staged in
/// full, and neither in every other case.
pub proof fn law_directory_row_shows_its_files(
    rows: Seq<RowView>,
    files: Seq<ChangedFile>,
    row: int,
)
    requires
        0 <= row < rows.len(),
        rows[row] is Directory,
        files.len() <= usize::MAX,
    ensures
        ({
            let shown = displayed(rows, files, row);
            let none_staged = forall|e: int|
                0 <= e < files.len() && in_directory(
                    (#[trigger] files[e]).display_path@,
                    rows[row]->path,
                ) ==> files[e].status.staging == StageStatus::Unstaged;
            let all_staged = forall|e: int|
                0 <= e < files.len() && in_directory(
                    (#[trigger] files[e]).display_path@,
                    rows[row]->path,
                ) ==> files[e].status.staging == StageStatus::Staged;
            &&& shown is Some
            &&& shown->0 is Directory
            &&& shown->0->path == rows[row]->path
            &&& shown->0->label == rows[row]->label
            &&& shown->0->Directory_depth == rows[row]->Directory_depth
            &&& shown->0->collapsed == rows[row]->collapsed
            &&& shown->0->Directory_checkbox == ToggleState::Unselected <==> none_staged
            &&& shown->0->Directory_checkbox == ToggleState::Selected <==> all_staged
                && !none_staged
        }),
{
    lemma_status_by_files(files, rows[row]->path);
}

/// A file is drawn under its own name, at its row's depth, with a checkbox for its own status and
/// the lines that it changes, if it changes any. A row with no listed file behind it is not drawn.
pub proof fn law_file_row_shows_its_file(rows: Seq<RowView>, files: Seq<ChangedFile>, row: int)
    requires
        0 <= row < rows.len(),
        rows[row] is File,
    ensures
        displayed(rows, files, row) is Some <==> rows[row]->entry < files.len(),
        displayed(rows, files, row) matches Some(shown) ==> {
            let file = files[rows[row]->entry as int];
            &&& shown is File
            &&& shown->entry == rows[row]->entry
            &&& shown->name == file.file_name@
            &&& shown->File_depth == rows[row]->File_depth
            &&& shown->File_checkbox == ToggleState::Selected <==> file.status.staging
                == StageStatus::Staged
            &&& shown->File_checkbox == ToggleState::Unselected <==> file.status.staging
                == StageStatus::Unstaged
            &&& shown->stat is Some <==> file.diff_stat is Some && (file.diff_stat->0.added != 0
                || file.diff_stat->0.deleted != 0)
            &&& shown->stat is Some ==> shown->stat == file.diff_stat
        },
{
}

/// Past either end of the list there is nothing to draw and nothing to press.
pub proof fn law_no_row_no_checkbox(rows: Seq<RowView>, files: Seq<ChangedFile>, row: int)
    requires
        row < 0 || rows.len() <= row,
    ensures
        displayed(rows, files, row) is None,
        row_request(rows, files, row) is None,
{
}

/// A row says the same as a value, and so does what is drawn of one.
pub proof fn law_rows_as_values(rows: Seq<Row>, i: int, shown: RowDisplay)
    requires
        0 <= i < rows.len(),
    ensures
        row_views(rows).len() == rows.len(),
        match rows[i] {
            Row::Directory { path, label, depth, collapsed } => {
                let row = row_views(rows)[i];
                &&& row is Directory
                &&& row->path == path@
                &&& row->label == label@
                &&& row->Directory_depth == depth
                &&& row->collapsed == collapsed
            },
            Row::File { entry, depth } => {
                let row = row_views(rows)[i];
                &&& row is File
                &&& row->entry == entry
                &&& row->File_depth == depth
            },
        },
        match shown {
            RowDisplay::Directory { path, label, depth, collapsed, checkbox } => {
                &&& shown@ is Directory
                &&& shown@->path == path@
                &&& shown@->label == label@
                &&& shown@->Directory_depth == depth
                &&& shown@->collapsed == collapsed
                &&& shown@->Directory_checkbox == checkbox
            },
            RowDisplay::File { entry, name, depth, stat, checkbox } => {
                &&& shown@ is File
                &&& shown@->entry == entry
                &&& shown@->name == name@
                &&& shown@->File_depth == depth
                &&& shown@->stat == stat
                &&& shown@->File_checkbox == checkbox
            },
        },
{
}

/// Everything counts as staged exactly where no file is left out of the next commit, in whole or
/// in part.
pub proof fn law_everything_staged(files: Seq<ChangedFile>)
    ensures
        everything_staged(files) <==> !exists|e: int|
            0 <= e < files.len() && ((#[trigger] files[e]).status.staging == StageStatus::Unstaged
                || files[e].status.staging == StageStatus::PartiallyStaged),
{
}

} // verus!

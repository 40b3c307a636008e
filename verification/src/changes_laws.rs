//! What a list of changed files adds up to.

use vstd::prelude::*;

use crate::changes::{
    any_staged, display_paths, listed, listed_as, loaded, shown_stat, staged_among, string_views,
    total_added, total_deleted, totals_fit, tracked_paths, ChangedFile, StageStatus, StatusEntry,
};

verus! {

/// A listed file keeps everything that the repository reported of it. One without a name of its
/// own goes by its path.
pub proof fn law_listed_file_is_what_was_reported(entry: StatusEntry, file: ChangedFile)
    requires
        listed_as(entry, file),
    ensures
        file.repo_path@ == entry.repo_path@,
        file.display_path@ == entry.display_path@,
        file.project_file == entry.project_file,
        file.has_abs_path == entry.has_abs_path,
        file.status == entry.status,
        file.diff_stat == entry.diff_stat,
        entry.file_name matches Some(name) ==> file.file_name@ == name@,
        entry.file_name is None ==> file.file_name@ == file.display_path@,
{
}

/// A repository's list holds one file for each reported entry, in the reported order. Without a
/// repository it holds none.
pub proof fn law_list_holds_what_was_reported(
    repository: Option<u64>,
    entries: Seq<StatusEntry>,
    files: Seq<ChangedFile>,
)
    requires
        loaded(repository, entries, files),
    ensures
        repository is Some ==> files.len() == entries.len(),
        repository is None ==> files.len() == 0,
        repository is Some ==> forall|i: int|
            0 <= i < entries.len() ==> {
                &&& (#[trigger] files[i]).repo_path@ == entries[i].repo_path@
                &&& files[i].display_path@ == entries[i].display_path@
                &&& files[i].status == entries[i].status
            },
{
    if repository is Some {
        assert(listed(entries, files));
        assert forall|i: int| 0 <= i < entries.len() implies {
            &&& (#[trigger] files[i]).repo_path@ == entries[i].repo_path@
            &&& files[i].display_path@ == entries[i].display_path@
            &&& files[i].status == entries[i].status
        } by {
            law_listed_file_is_what_was_reported(entries[i], files[i]);
        }
    }
}

/// Paths and texts are taken as they are, one for each.
pub proof fn law_paths_as_values(files: Seq<ChangedFile>, strings: Seq<String>)
    ensures
        display_paths(files).len() == files.len(),
        forall|i: int|
            0 <= i < files.len() ==> display_paths(files)[i] == (#[trigger] files[i]).display_path@,
        string_views(strings).len() == strings.len(),
        forall|i: int|
            0 <= i < strings.len() ==> string_views(strings)[i] == (#[trigger] strings[i])@,
{
}

/// Whether anything of a file is in the next commit.
pub open spec fn in_next_commit(file: ChangedFile) -> bool {
    file.status.staging == StageStatus::Staged || file.status.staging
        == StageStatus::PartiallyStaged
}

/// The count of staged files is how many of them have anything in the next commit, and is zero
/// exactly where none has.
pub proof fn law_staged_files_are_counted(files: Seq<ChangedFile>)
    ensures
        staged_among(files) == files.filter(|file: ChangedFile| in_next_commit(file)).len(),
        any_staged(files) <==> exists|i: int|
            0 <= i < files.len() && in_next_commit(#[trigger] files[i]),
        any_staged(files) <==> staged_among(files) > 0,
    decreases files.len(),
{
    let kept = |file: ChangedFile| in_next_commit(file);
    reveal(Seq::filter);
    if files.len() > 0 {
        let front = files.drop_last();
        law_staged_files_are_counted(front);
        if any_staged(front) {
            let i = choose|i: int|
                0 <= i < front.len() && (#[trigger] front[i]).status.staging.some_staged();
            assert(files[i] == front[i]);
        }
        if any_staged(files) {
            let i = choose|i: int|
                0 <= i < files.len() && (#[trigger] files[i]).status.staging.some_staged();
            if i < front.len() {
                assert(front[i] == files[i]);
            }
        }
        if in_next_commit(files.last()) {
            assert(in_next_commit(files[files.len() - 1]));
        }
        if exists|i: int| 0 <= i < files.len() && in_next_commit(#[trigger] files[i]) {
            let i = choose|i: int| 0 <= i < files.len() && in_next_commit(#[trigger] files[i]);
            assert(files[i].status.staging.some_staged());
        }
    }
}

/// The paths of tracked files are the repository paths of those files that git tracks, in the
/// order of the list.
pub proof fn law_tracked_paths_in_order(files: Seq<ChangedFile>)
    ensures
        tracked_paths(files) == files.filter(
            |file: ChangedFile| !file.status.untracked,
        ).map_values(|file: ChangedFile| file.repo_path@),
    decreases files.len(),
{
    let known = |file: ChangedFile| !file.status.untracked;
    let path = |file: ChangedFile| file.repo_path@;
    reveal(Seq::filter);
    if files.len() > 0 {
        let front = files.drop_last();
        law_tracked_paths_in_order(front);
        if known(files.last()) {
            assert(front.filter(known).push(files.last()).map_values(path) =~= front.filter(
                known,
            ).map_values(path).push(files.last().repo_path@));
        }
    }
    assert(tracked_paths(files) =~= files.filter(known).map_values(path));
}

/// Totals add up: those of two lists together are the sums of each, a single file counts for the
/// lines that it changes, and one without figures for none.
pub proof fn law_totals_add_up(a: Seq<ChangedFile>, b: Seq<ChangedFile>, file: ChangedFile)
    ensures
        total_added(a + b) == total_added(a) + total_added(b),
        total_deleted(a + b) == total_deleted(a) + total_deleted(b),
        file.diff_stat matches Some(stat) ==> {
            &&& total_added(seq![file]) == stat.added
            &&& total_deleted(seq![file]) == stat.deleted
        },
        file.diff_stat is None ==> total_added(seq![file]) == 0 && total_deleted(seq![file]) == 0,
        total_added(Seq::empty()) == 0,
        total_deleted(Seq::empty()) == 0,
        totals_fit(a) <==> total_added(a) + total_deleted(a) <= u32::MAX,
    decreases b.len(),
{
    assert(seq![file].drop_last() =~= Seq::<ChangedFile>::empty());
    assert(total_added(Seq::<ChangedFile>::empty()) == 0);
    assert(total_deleted(Seq::<ChangedFile>::empty()) == 0);
    if b.len() == 0 {
        assert(a + b =~= a);
    } else {
        assert((a + b).drop_last() =~= a + b.drop_last());
        law_totals_add_up(a, b.drop_last(), file);
    }
}

/// A row shows a file's figures as they are, and leaves them out where no line changed.
pub proof fn law_shown_figures(file: ChangedFile)
    ensures
        shown_stat(file) matches Some(stat) ==> file.diff_stat == Some(stat) && (stat.added > 0
            || stat.deleted > 0),
        shown_stat(file) is None ==> file.diff_stat is None || (file.diff_stat->0.added == 0
            && file.diff_stat->0.deleted == 0),
{
}

} // verus!

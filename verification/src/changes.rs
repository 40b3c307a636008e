//! Changed files, and what their checkboxes and totals say.

use vstd::prelude::*;

use crate::text::{starts_with, with_slash};

verus! {

/// How much of a file's changes the next commit will contain.
#[derive(Clone, Copy, Debug, PartialEq, Eq, Structural)]
pub enum StageStatus {
    Staged,
    Unstaged,
    PartiallyStaged,
}

impl StageStatus {
    /// Whether anything at all is staged.
    pub open spec fn some_staged(self) -> bool {
        self != StageStatus::Unstaged
    }

    /// Whether anything at all is staged.
    pub fn has_staged(&self) -> (staged: bool)
        ensures
            staged == self.some_staged(),
            staged <==> *self != StageStatus::Unstaged,
    {
        match self {
            StageStatus::Staged => true,
            StageStatus::PartiallyStaged => true,
            StageStatus::Unstaged => false,
        }
    }
}

/// What the lists read of a file's git status.
#[derive(Clone, Copy, Debug, PartialEq, Eq, Structural)]
pub struct FileStatus {
    pub staging: StageStatus,
    pub untracked: bool,
    /// Whether the change brings the file into being.
    pub created: bool,
}

/// Lines added and removed.
#[derive(Clone, Copy, Debug, PartialEq, Eq, Structural)]
pub struct DiffStat {
    pub added: u32,
    pub deleted: u32,
}

/// A file of an open project: which worktree holds it, and where in that worktree it lies.
#[derive(Debug)]
pub struct ProjectPath {
    pub worktree_id: u64,
    pub path: String,
}

/// A file of an open project, with the parts of its path that headers show.
#[derive(Debug)]
pub struct ProjectFile {
    pub path: ProjectPath,
    /// The last component of the path, `None` for the root of a worktree.
    pub file_name: Option<String>,
    /// The directory holding the file, written for display. `None` for the root of a worktree.
    pub parent: Option<String>,
}

/// One entry of a repository's status, as the repository reports it.
pub struct StatusEntry {
    pub repo_path: String,
    /// `None` for a file outside every worktree.
    pub project_file: Option<ProjectFile>,
    /// Whether the file has a location on disk that a preview can load.
    pub has_abs_path: bool,
    pub status: FileStatus,
    pub diff_stat: Option<DiffStat>,
    /// Repository-relative path, written for display.
    pub display_path: String,
    /// The last component of the repository-relative path, if it has one.
    pub file_name: Option<String>,
}

/// One row: a changed file, with everything needed to render it and to open it later.
pub struct ChangedFile {
    pub repo_path: String,
    /// `None` for a file outside every worktree, which cannot be opened or previewed.
    pub project_file: Option<ProjectFile>,
    /// Whether the file has a location on disk that a preview can load.
    pub has_abs_path: bool,
    pub status: FileStatus,
    pub diff_stat: Option<DiffStat>,
    /// Repository-relative path, both matched against the query and shown in the row.
    pub display_path: String,
    pub file_name: String,
}

/// Whether `file` is the row that `entry` becomes: the same in every part, and named by its
/// display path where it has no name of its own.
pub open spec fn listed_as(entry: StatusEntry, file: ChangedFile) -> bool {
    &&& file.repo_path@ == entry.repo_path@
    &&& file.project_file == entry.project_file
    &&& file.has_abs_path == entry.has_abs_path
    &&& file.status == entry.status
    &&& file.diff_stat == entry.diff_stat
    &&& file.display_path@ == entry.display_path@
    &&& file.file_name@ == match entry.file_name {
        Some(name) => name@,
        None => entry.display_path@,
    }
}

/// The row that `entry` becomes.
pub fn changed_file(entry: StatusEntry) -> (file: ChangedFile)
    ensures
        listed_as(entry, file),
        file.repo_path == entry.repo_path,
        file.display_path == entry.display_path,
        file.project_file == entry.project_file,
        file.has_abs_path == entry.has_abs_path,
        file.status == entry.status,
        file.diff_stat == entry.diff_stat,
        entry.file_name matches Some(name) ==> file.file_name == name,
        entry.file_name is None ==> file.file_name@ == entry.display_path@,
{
    let file_name = match entry.file_name {
        Some(name) => name,
        None => entry.display_path.clone(),
    };
    ChangedFile {
        repo_path: entry.repo_path,
        project_file: entry.project_file,
        has_abs_path: entry.has_abs_path,
        status: entry.status,
        diff_stat: entry.diff_stat,
        display_path: entry.display_path,
        file_name,
    }
}

/// Whether `files` are the rows that `entries` become, in order.
pub open spec fn listed(entries: Seq<StatusEntry>, files: Seq<ChangedFile>) -> bool {
    &&& files.len() == entries.len()
    &&& forall|i: int| 0 <= i < files.len() ==> listed_as(entries[i], #[trigger] files[i])
}

/// Whether `files` are what a repository with the status `entries` lists. Without a repository
/// the list is empty.
pub open spec fn loaded(
    repository: Option<u64>,
    entries: Seq<StatusEntry>,
    files: Seq<ChangedFile>,
) -> bool {
    match repository {
        Some(_) => listed(entries, files),
        None => files.len() == 0,
    }
}

/// The rows that `entries` become, in order.
pub fn changed_files(entries: Vec<StatusEntry>) -> (files: Vec<ChangedFile>)
    ensures
        listed(entries@, files@),
{
    let ghost all = entries@;
    let mut files: Vec<ChangedFile> = Vec::new();
    for entry in it: entries
        invariant
            it.seq() == all,
            files@.len() == it.index(),
            forall|i: int| 0 <= i < files@.len() ==> listed_as(all[i], #[trigger] files@[i]),
    {
        files.push(changed_file(entry));
    }
    files
}

/// The display paths of `files`.
pub open spec fn display_paths(files: Seq<ChangedFile>) -> Seq<Seq<char>> {
    files.map_values(|file: ChangedFile| file.display_path@)
}

/// Whether a file at `path` lies somewhere below `directory`.
pub open spec fn lies_under(path: Seq<char>, directory: Seq<char>) -> bool {
    (directory + seq!['/']).is_prefix_of(path)
}

/// The positions of a list of `len` things, in order.
pub open spec fn all_positions(len: nat) -> Seq<usize> {
    Seq::new(len, |i: int| i as usize)
}

/// Which of `paths` lie somewhere below `directory`, by position, in order.
pub open spec fn positions_under(paths: Seq<Seq<char>>, directory: Seq<char>) -> Seq<usize> {
    all_positions(paths.len()).filter(|i: usize| lies_under(paths[i as int], directory))
}

/// Every file under `directory`, by position, which is what a directory's checkbox stages or
/// unstages.
pub fn files_under(files: &Vec<ChangedFile>, directory: &str) -> (under: Vec<usize>)
    ensures
        under@ == positions_under(display_paths(files@), directory@),
{
    let ghost paths = display_paths(files@);
    let ghost inside = |i: usize| lies_under(paths[i as int], directory@);
    let prefix = with_slash(directory, "");
    proof {
        reveal_strlit("");
        assert(prefix@ =~= directory@ + seq!['/']);
        reveal(Seq::filter);
        assert(all_positions(0) =~= Seq::<usize>::empty());
    }
    let mut under: Vec<usize> = Vec::new();
    let mut i: usize = 0;
    while i < files.len()
        invariant
            paths == display_paths(files@),
            inside == (|i: usize| lies_under(paths[i as int], directory@)),
            prefix@ == directory@ + seq!['/'],
            i <= files.len(),
            under@ == all_positions(i as nat).filter(inside),
        decreases files.len() - i,
    {
        let found = starts_with(files[i].display_path.as_str(), prefix.as_str());
        proof {
            reveal(Seq::filter);
            let longer = all_positions((i + 1) as nat);
            assert(longer.drop_last() =~= all_positions(i as nat));
            assert(longer.last() == i);
            assert(paths[i as int] == files@[i as int].display_path@);
        }
        if found {
            under.push(i);
        }
        i += 1;
    }
    under
}

/// Whether all of the files at `positions` have the status `status`.
pub open spec fn all_are(
    files: Seq<ChangedFile>,
    positions: Seq<usize>,
    status: StageStatus,
) -> bool {
    forall|k: int|
        0 <= k < positions.len() ==> files[#[trigger] positions[k] as int].status.staging == status
}

/// What a directory's checkbox shows: staged when every file under it is, unstaged when none has
/// anything staged, and mixed otherwise.
pub open spec fn directory_status(files: Seq<ChangedFile>, directory: Seq<char>) -> StageStatus {
    let under = positions_under(display_paths(files), directory);
    if all_are(files, under, StageStatus::Unstaged) {
        StageStatus::Unstaged
    } else if all_are(files, under, StageStatus::Staged) {
        StageStatus::Staged
    } else {
        StageStatus::PartiallyStaged
    }
}

/// Positions under a directory are positions of the list.
pub proof fn lemma_positions_under(paths: Seq<Seq<char>>, directory: Seq<char>)
    requires
        paths.len() <= usize::MAX,
    ensures
        forall|k: int|
            0 <= k < positions_under(paths, directory).len() ==> {
                &&& #[trigger] positions_under(paths, directory)[k] < paths.len()
                &&& lies_under(
                    paths[positions_under(paths, directory)[k] as int],
                    directory,
                )
            },
{
    let all = all_positions(paths.len());
    let inside = |i: usize| lies_under(paths[i as int], directory);
    assert forall|k: int| 0 <= k < positions_under(paths, directory).len() implies {
        &&& #[trigger] positions_under(paths, directory)[k] < paths.len()
        &&& lies_under(paths[positions_under(paths, directory)[k] as int], directory)
    } by {
        let found = all.filter(inside)[k];
        all.lemma_filter_pred(inside, k);
        assert(all.filter(inside).contains(found));
        all.lemma_filter_contains_rev(inside, found);
        assert(inside(found));
    }
}

/// A directory is staged when every file under it is, unstaged when none has anything staged,
/// and mixed otherwise, which is what the checkbox's indeterminate state shows.
pub fn directory_stage_status(files: &Vec<ChangedFile>, directory: &str) -> (status: StageStatus)
    ensures
        status == directory_status(files@, directory@),
{
    let under = files_under(files, directory);
    let mut staged: usize = 0;
    let mut i: usize = 0;
    assert(files.len() == files@.len());
    proof {
        lemma_positions_under(display_paths(files@), directory@);
    }
    while i < under.len()
        invariant
            under@ == positions_under(display_paths(files@), directory@),
            forall|k: int| 0 <= k < under@.len() ==> #[trigger] under@[k] < files@.len(),
            i <= under.len(),
            staged <= i,
            staged == 0 <==> all_are(files@, under@.take(i as int), StageStatus::Unstaged),
            staged == i <==> all_are(files@, under@.take(i as int), StageStatus::Staged),
        decreases under.len() - i,
    {
        let ghost now = under@.take(i as int);
        let ghost next = under@.take(i + 1);
        proof {
            assert(next =~= now.push(under@[i as int]));
            assert(next[i as int] == under@[i as int]);
            assert forall|status: StageStatus| #[trigger]
                all_are(files@, next, status) <==> all_are(files@, now, status)
                    && files@[under@[i as int] as int].status.staging == status by {
                if all_are(files@, next, status) {
                    assert forall|k: int| 0 <= k < now.len() implies files@[
                    #[trigger] now[k] as int].status.staging == status by {
                        assert(next[k] == now[k]);
                    }
                }
            }
        }
        match files[under[i]].status.staging {
            StageStatus::Staged => {
                staged += 1;
            },
            StageStatus::PartiallyStaged => {
                proof {
                    assert(files@[under@[i as int] as int].status.staging
                        == StageStatus::PartiallyStaged);
                }
                return StageStatus::PartiallyStaged;
            },
            StageStatus::Unstaged => {},
        }
        i += 1;
    }
    proof {
        assert(under@.take(i as int) =~= under@);
    }
    if staged == 0 {
        StageStatus::Unstaged
    } else if staged == under.len() {
        StageStatus::Staged
    } else {
        StageStatus::PartiallyStaged
    }
}

/// How many of `files` have something staged.
pub open spec fn staged_among(files: Seq<ChangedFile>) -> nat
    decreases files.len(),
{
    if files.len() == 0 {
        0
    } else {
        staged_among(files.drop_last()) + if files.last().status.staging.some_staged() {
            1nat
        } else {
            0nat
        }
    }
}

/// How many of `files` have something staged.
pub fn staged_count(files: &Vec<ChangedFile>) -> (count: usize)
    ensures
        count == staged_among(files@),
        count <= files@.len(),
{
    let mut count: usize = 0;
    let mut i: usize = 0;
    while i < files.len()
        invariant
            i <= files.len(),
            count <= i,
            count == staged_among(files@.take(i as int)),
        decreases files.len() - i,
    {
        proof {
            assert(files@.take(i + 1).drop_last() =~= files@.take(i as int));
        }
        if files[i].status.staging.has_staged() {
            count += 1;
        }
        i += 1;
    }
    proof {
        assert(files@.take(i as int) =~= files@);
    }
    count
}

/// Whether any of `files` has something staged.
pub open spec fn any_staged(files: Seq<ChangedFile>) -> bool {
    exists|i: int| 0 <= i < files.len() && (#[trigger] files[i]).status.staging.some_staged()
}

/// Whether any of `files` has something staged.
pub fn has_staged_changes(files: &Vec<ChangedFile>) -> (any: bool)
    ensures
        any == any_staged(files@),
{
    let mut i: usize = 0;
    while i < files.len()
        invariant
            i <= files.len(),
            forall|k: int| 0 <= k < i ==> !(#[trigger] files@[k]).status.staging.some_staged(),
        decreases files.len() - i,
    {
        if files[i].status.staging.has_staged() {
            return true;
        }
        i += 1;
    }
    false
}

/// Whether every one of `files` is staged. A file staged in part is not.
pub open spec fn everything_staged(files: Seq<ChangedFile>) -> bool {
    forall|i: int|
        0 <= i < files.len() ==> (#[trigger] files[i]).status.staging == StageStatus::Staged
}

/// Whether every one of `files` is staged. A file staged in part is not.
pub fn all_staged(files: &Vec<ChangedFile>) -> (all: bool)
    ensures
        all == everything_staged(files@),
{
    let mut i: usize = 0;
    while i < files.len()
        invariant
            i <= files.len(),
            forall|k: int|
                0 <= k < i ==> (#[trigger] files@[k]).status.staging == StageStatus::Staged,
        decreases files.len() - i,
    {
        if files[i].status.staging != StageStatus::Staged {
            return false;
        }
        i += 1;
    }
    true
}

/// The repository paths of the files that git already tracks, in order.
pub open spec fn tracked_paths(files: Seq<ChangedFile>) -> Seq<Seq<char>>
    decreases files.len(),
{
    if files.len() == 0 {
        Seq::empty()
    } else {
        let before = tracked_paths(files.drop_last());
        if files.last().status.untracked {
            before
        } else {
            before.push(files.last().repo_path@)
        }
    }
}

/// The values of a list of strings.
pub open spec fn string_views(strings: Seq<String>) -> Seq<Seq<char>> {
    strings.map_values(|text: String| text@)
}

/// The repository paths of the files that git already tracks, in order.
pub fn tracked_repo_paths(files: &Vec<ChangedFile>) -> (paths: Vec<String>)
    ensures
        string_views(paths@) == tracked_paths(files@),
{
    let mut paths: Vec<String> = Vec::new();
    let mut i: usize = 0;
    proof {
        assert(string_views(paths@) =~= tracked_paths(files@.take(0)));
    }
    while i < files.len()
        invariant
            i <= files.len(),
            string_views(paths@) == tracked_paths(files@.take(i as int)),
        decreases files.len() - i,
    {
        let ghost before = string_views(paths@);
        proof {
            assert(files@.take(i + 1).drop_last() =~= files@.take(i as int));
        }
        if !files[i].status.untracked {
            paths.push(files[i].repo_path.clone());
            proof {
                assert(string_views(paths@) =~= before.push(files@[i as int].repo_path@));
            }
        }
        i += 1;
    }
    proof {
        assert(files@.take(i as int) =~= files@);
    }
    paths
}

/// Lines added by one file.
pub open spec fn lines_added(file: ChangedFile) -> nat {
    match file.diff_stat {
        Some(stat) => stat.added as nat,
        None => 0,
    }
}

/// Lines removed by one file.
pub open spec fn lines_deleted(file: ChangedFile) -> nat {
    match file.diff_stat {
        Some(stat) => stat.deleted as nat,
        None => 0,
    }
}

/// Lines added by all of `files`.
pub open spec fn total_added(files: Seq<ChangedFile>) -> nat
    decreases files.len(),
{
    if files.len() == 0 {
        0
    } else {
        total_added(files.drop_last()) + lines_added(files.last())
    }
}

/// Lines removed by all of `files`.
pub open spec fn total_deleted(files: Seq<ChangedFile>) -> nat
    decreases files.len(),
{
    if files.len() == 0 {
        0
    } else {
        total_deleted(files.drop_last()) + lines_deleted(files.last())
    }
}

/// Whether the totals over all files can be counted.
pub open spec fn totals_fit(files: Seq<ChangedFile>) -> bool {
    total_added(files) + total_deleted(files) <= u32::MAX
}

proof fn lemma_totals_grow(files: Seq<ChangedFile>, count: int)
    requires
        0 <= count <= files.len(),
    ensures
        total_added(files.take(count)) <= total_added(files),
        total_deleted(files.take(count)) <= total_deleted(files),
    decreases files.len() - count,
{
    if count == files.len() {
        assert(files.take(count) =~= files);
    } else {
        lemma_totals_grow(files, count + 1);
        assert(files.take(count + 1).drop_last() =~= files.take(count));
    }
}

/// Whether the totals over all files can be counted.
pub fn diff_totals_fit(files: &Vec<ChangedFile>) -> (fit: bool)
    ensures
        fit == totals_fit(files@),
{
    let mut added: u32 = 0;
    let mut deleted: u32 = 0;
    let mut i: usize = 0;
    while i < files.len()
        invariant
            i <= files.len(),
            added == total_added(files@.take(i as int)),
            deleted == total_deleted(files@.take(i as int)),
            added + deleted <= u32::MAX,
        decreases files.len() - i,
    {
        proof {
            assert(files@.take(i + 1).drop_last() =~= files@.take(i as int));
            lemma_totals_grow(files@, i + 1);
        }
        if let Some(stat) = files[i].diff_stat {
            let room: u32 = u32::MAX - added - deleted;
            if stat.added > room || stat.deleted > room - stat.added {
                return false;
            }
            added += stat.added;
            deleted += stat.deleted;
        }
        i += 1;
    }
    proof {
        assert(files@.take(i as int) =~= files@);
    }
    true
}

/// Lines added and removed across every changed file. `None` when there are none to speak of.
pub fn total_diff_stat(files: &Vec<ChangedFile>) -> (total: Option<DiffStat>)
    requires
        totals_fit(files@),
    ensures
        match total {
            Some(stat) => {
                &&& stat.added == total_added(files@)
                &&& stat.deleted == total_deleted(files@)
                &&& stat.added + stat.deleted > 0
            },
            None => total_added(files@) == 0 && total_deleted(files@) == 0,
        },
{
    let mut added: u32 = 0;
    let mut deleted: u32 = 0;
    let mut i: usize = 0;
    while i < files.len()
        invariant
            totals_fit(files@),
            i <= files.len(),
            added == total_added(files@.take(i as int)),
            deleted == total_deleted(files@.take(i as int)),
        decreases files.len() - i,
    {
        proof {
            assert(files@.take(i + 1).drop_last() =~= files@.take(i as int));
            lemma_totals_grow(files@, i + 1);
        }
        if let Some(stat) = files[i].diff_stat {
            added += stat.added;
            deleted += stat.deleted;
        }
        i += 1;
    }
    proof {
        assert(files@.take(i as int) =~= files@);
    }
    if added > 0 || deleted > 0 {
        Some(DiffStat { added, deleted })
    } else {
        None
    }
}

/// What a file's row shows of its diff stat: nothing where no line changed.
pub open spec fn shown_stat(file: ChangedFile) -> Option<DiffStat> {
    match file.diff_stat {
        Some(stat) => if stat.added + stat.deleted > 0 {
            Some(stat)
        } else {
            None
        },
        None => None,
    }
}

/// What a file's row shows of its diff stat: nothing where no line changed.
pub fn row_diff_stat(file: &ChangedFile) -> (stat: Option<DiffStat>)
    ensures
        stat == shown_stat(*file),
{
    match file.diff_stat {
        Some(stat) => if stat.added > 0 || stat.deleted > 0 {
            Some(stat)
        } else {
            None
        },
        None => None,
    }
}

} // verus!

//! What the lists of changed files have in common: rows, the directories collapsed among them,
//! and the file behind a row.

use std::ops::Range;

use vstd::prelude::*;

use crate::changes::{all_positions, display_paths, lies_under, ChangedFile};
use crate::text::chars_of;
use crate::tree::{row_depth, row_views, DirectorySet, Row, RowView};

verus! {

/// Whether `row` is a directory whose contents are shown.
pub open spec fn is_expanded(row: RowView) -> bool {
    row matches RowView::Directory { collapsed, .. } && !collapsed
}

/// Whether any directory among `rows` is expanded.
pub open spec fn any_expanded(rows: Seq<RowView>) -> bool {
    exists|i: int| 0 <= i < rows.len() && is_expanded(#[trigger] rows[i])
}

/// Whether any directory is currently expanded, which decides what the collapse button does.
pub fn any_directory_expanded(rows: &Vec<Row>) -> (any: bool)
    ensures
        any == any_expanded(row_views(rows@)),
{
    let mut i: usize = 0;
    while i < rows.len()
        invariant
            i <= rows.len(),
            forall|k: int| 0 <= k < i ==> !is_expanded(#[trigger] row_views(rows@)[k]),
        decreases rows.len() - i,
    {
        proof {
            assert(row_views(rows@)[i as int] == rows@[i as int]@);
        }
        if let Row::Directory { collapsed, .. } = &rows[i] {
            if !*collapsed {
                assert(is_expanded(row_views(rows@)[i as int]));
                return true;
            }
        }
        i += 1;
    }
    false
}

/// What the collapse button says it does.
pub fn collapse_tooltip(collapse_all: bool) -> (tooltip: &'static str)
    ensures
        tooltip@ == if collapse_all {
            "Collapse All"@
        } else {
            "Expand All"@
        },
{
    if collapse_all {
        "Collapse All"
    } else {
        "Expand All"
    }
}

/// The paths of the expanded directories among `rows`.
pub open spec fn expanded_paths(rows: Seq<RowView>) -> Set<Seq<char>> {
    Set::new(
        |path: Seq<char>|
            exists|i: int|
                0 <= i < rows.len() && is_expanded(#[trigger] rows[i]) && rows[i]->path == path,
    )
}

/// Adds the paths of the expanded directories among `rows`.
pub fn collapse_expanded(rows: &Vec<Row>, collapsed: &mut DirectorySet)
    ensures
        final(collapsed)@ == old(collapsed)@.union(expanded_paths(row_views(rows@))),
{
    let ghost before = collapsed@;
    let ghost views = row_views(rows@);
    let mut i: usize = 0;
    proof {
        assert(before =~= before.union(expanded_paths(views.take(0))));
    }
    while i < rows.len()
        invariant
            views == row_views(rows@),
            i <= rows.len(),
            collapsed@ == before.union(expanded_paths(views.take(i as int))),
        decreases rows.len() - i,
    {
        let ghost now = views.take(i as int);
        let ghost next = views.take(i + 1);
        proof {
            assert(next =~= now.push(views[i as int]));
            assert(views[i as int] == rows@[i as int]@);
            assert forall|path: Seq<char>| expanded_paths(next).contains(path) <==> (
            expanded_paths(now).contains(path) || (is_expanded(views[i as int])
                && views[i as int]->path == path)) by {
                if expanded_paths(now).contains(path) {
                    let k = choose|k: int|
                        0 <= k < now.len() && is_expanded(#[trigger] now[k]) && now[k]->path
                            == path;
                    assert(next[k] == now[k]);
                }
                if is_expanded(views[i as int]) && views[i as int]->path == path {
                    assert(is_expanded(next[i as int]));
                }
                if expanded_paths(next).contains(path) {
                    let k = choose|k: int|
                        0 <= k < next.len() && is_expanded(#[trigger] next[k]) && next[k]->path
                            == path;
                    if k < i {
                        assert(now[k] == next[k]);
                    }
                }
            }
        }
        if let Row::Directory { path, collapsed: hidden, .. } = &rows[i] {
            if !*hidden {
                collapsed.insert(path.clone());
            }
        }
        proof {
            assert(collapsed@ =~= before.union(expanded_paths(next)));
        }
        i += 1;
    }
    proof {
        assert(views.take(i as int) =~= views);
    }
}

/// Every directory that holds a file of `paths`, at any depth.
pub open spec fn directories_above(paths: Seq<Seq<char>>) -> Set<Seq<char>> {
    Set::new(
        |directory: Seq<char>|
            exists|e: int| 0 <= e < paths.len() && lies_under(#[trigger] paths[e], directory),
    )
}

/// A file lies under exactly the directories that end before one of its slashes.
proof fn lemma_lies_under_slash(path: Seq<char>, directory: Seq<char>)
    ensures
        lies_under(path, directory) <==> {
            &&& directory.len() < path.len()
            &&& path[directory.len() as int] == '/'
            &&& path.take(directory.len() as int) == directory
        },
{
    let marked = directory + seq!['/'];
    if lies_under(path, directory) {
        assert(path.take(directory.len() as int) =~= directory) by {
            assert forall|k: int| 0 <= k < directory.len() implies path[k] == directory[k] by {
                assert(marked[k] == path[k]);
            }
        }
        assert(marked[directory.len() as int] == path[directory.len() as int]);
    }
    if directory.len() < path.len() && path[directory.len() as int] == '/' && path.take(
        directory.len() as int,
    ) == directory {
        assert(marked =~= path.subrange(0, marked.len() as int)) by {
            assert forall|k: int| 0 <= k < marked.len() implies marked[k] == path[k] by {
                if k < directory.len() {
                    assert(path.take(directory.len() as int)[k] == path[k]);
                }
            }
        }
    }
}

/// Adds every directory that `path` lies under.
fn insert_directories_above(path: &str, directories: &mut DirectorySet)
    ensures
        final(directories)@ == old(directories)@.union(
            Set::new(|directory: Seq<char>| lies_under(path@, directory)),
        ),
{
    let ghost before = directories@;
    let chars = chars_of(path);
    let mut i: usize = 0;
    proof {
        assert(before =~= before.union(
            Set::new(
                |directory: Seq<char>| lies_under(path@, directory) && directory.len() < 0,
            ),
        ));
    }
    while i < chars.len()
        invariant
            chars@ == path@,
            i <= chars.len(),
            directories@ == before.union(
                Set::new(
                    |directory: Seq<char>| lies_under(path@, directory) && directory.len() < i,
                ),
            ),
        decreases chars.len() - i,
    {
        proof {
            assert forall|directory: Seq<char>|
                directory.len() == i implies #[trigger] lies_under(path@, directory) == (
            path@[i as int] == '/' && directory == path@.take(i as int)) by {
                lemma_lies_under_slash(path@, directory);
            }
            assert(path@.take(i as int).len() == i);
            assert(path@.take(i as int) =~= path@.subrange(0, i as int));
        }
        if chars[i] == '/' {
            let directory = path.substring_char(0, i);
            directories.insert(directory.to_owned());
        }
        proof {
            assert(directories@ =~= before.union(
                Set::new(
                    |directory: Seq<char>| lies_under(path@, directory) && directory.len() < i + 1,
                ),
            ));
        }
        i += 1;
    }
    proof {
        assert forall|directory: Seq<char>| #[trigger]
            lies_under(path@, directory) implies directory.len() < i by {
            lemma_lies_under_slash(path@, directory);
        }
        assert(directories@ =~= before.union(
            Set::new(|directory: Seq<char>| lies_under(path@, directory)),
        ));
    }
}

/// Every directory that holds a changed file, at any depth. Taken from the paths rather than the
/// visible rows: collapsing an outer directory hides the inner ones, so reading rows would only
/// ever reach the top level.
pub fn all_directories(files: &Vec<ChangedFile>) -> (directories: DirectorySet)
    ensures
        directories@ == directories_above(display_paths(files@)),
{
    let ghost paths = display_paths(files@);
    let mut directories = DirectorySet::new();
    let mut i: usize = 0;
    proof {
        assert(directories@ =~= directories_above(paths.take(0)));
    }
    while i < files.len()
        invariant
            paths == display_paths(files@),
            i <= files.len(),
            directories@ == directories_above(paths.take(i as int)),
        decreases files.len() - i,
    {
        insert_directories_above(files[i].display_path.as_str(), &mut directories);
        proof {
            let now = paths.take(i as int);
            let next = paths.take(i + 1);
            assert(next =~= now.push(paths[i as int]));
            assert(paths[i as int] == files@[i as int].display_path@);
            assert forall|directory: Seq<char>| directories_above(next).contains(directory) <==> (
            directories_above(now).contains(directory) || lies_under(
                paths[i as int],
                directory,
            )) by {
                if directories_above(now).contains(directory) {
                    let e = choose|e: int|
                        0 <= e < now.len() && lies_under(#[trigger] now[e], directory);
                    assert(lies_under(next[e], directory));
                }
                if lies_under(paths[i as int], directory) {
                    assert(lies_under(next[i as int], directory));
                }
                if directories_above(next).contains(directory) {
                    let e = choose|e: int|
                        0 <= e < next.len() && lies_under(#[trigger] next[e], directory);
                    if e < i {
                        assert(lies_under(now[e], directory));
                    }
                }
            }
            assert(directories@ =~= directories_above(next));
        }
        i += 1;
    }
    proof {
        assert(paths.take(i as int) =~= paths);
    }
    directories
}

/// `collapsed` with `path` taken out if it was there, and added if it was not.
pub open spec fn toggled(collapsed: Set<Seq<char>>, path: Seq<char>) -> Set<Seq<char>> {
    if collapsed.contains(path) {
        collapsed.remove(path)
    } else {
        collapsed.insert(path)
    }
}

/// Takes `path` out if it is there, and adds it if it is not.
pub fn toggle_directory(collapsed: &mut DirectorySet, path: &str)
    ensures
        final(collapsed)@ == toggled(old(collapsed)@, path@),
{
    let ghost before = collapsed@;
    if !collapsed.remove(path) {
        collapsed.insert(path.to_owned());
        proof {
            assert(before.remove(path@) =~= before);
        }
    }
}

/// The path of the directory at `index`, if that is one.
pub open spec fn directory_at(rows: Seq<RowView>, index: int) -> Option<Seq<char>> {
    if 0 <= index < rows.len() {
        match rows[index] {
            RowView::Directory { path, .. } => Some(path),
            RowView::File { .. } => None,
        }
    } else {
        None
    }
}

/// The path of the directory at `index`, if that is one.
pub fn directory_path(rows: &Vec<Row>, index: usize) -> (path: Option<String>)
    ensures
        match path {
            Some(path) => directory_at(row_views(rows@), index as int) == Some(path@),
            None => directory_at(row_views(rows@), index as int) is None,
        },
{
    if index >= rows.len() {
        return None;
    }
    proof {
        assert(row_views(rows@)[index as int] == rows@[index as int]@);
    }
    match &rows[index] {
        Row::Directory { path, .. } => Some(path.clone()),
        Row::File { .. } => None,
    }
}

/// The listed file behind the row at `index`, by position. A directory has none.
pub open spec fn file_at(rows: Seq<RowView>, index: int, count: nat) -> Option<usize> {
    if 0 <= index < rows.len() {
        match rows[index] {
            RowView::Directory { .. } => None,
            RowView::File { entry, .. } => if entry < count {
                Some(entry)
            } else {
                None
            },
        }
    } else {
        None
    }
}

/// The listed file behind the row at `index`, by position. A directory has none.
pub fn entry_at(rows: &Vec<Row>, index: usize, count: usize) -> (entry: Option<usize>)
    ensures
        entry == file_at(row_views(rows@), index as int, count as nat),
{
    if index >= rows.len() {
        return None;
    }
    proof {
        assert(row_views(rows@)[index as int] == rows@[index as int]@);
    }
    match &rows[index] {
        Row::Directory { .. } => None,
        Row::File { entry, .. } => if *entry < count {
            Some(*entry)
        } else {
            None
        },
    }
}

/// The listed file behind the row at `index` that can be opened, by position: one inside a
/// worktree.
pub open spec fn openable_at(
    rows: Seq<RowView>,
    index: int,
    files: Seq<ChangedFile>,
) -> Option<usize> {
    match file_at(rows, index, files.len()) {
        Some(entry) => if files[entry as int].project_file is Some {
            Some(entry)
        } else {
            None
        },
        None => None,
    }
}

/// The listed file behind the row at `index` that can be opened, by position.
pub fn openable_entry(rows: &Vec<Row>, index: usize, files: &Vec<ChangedFile>) -> (entry: Option<
    usize,
>)
    ensures
        entry == openable_at(row_views(rows@), index as int, files@),
{
    match entry_at(rows, index, files.len()) {
        Some(entry) => if files[entry].project_file.is_some() {
            Some(entry)
        } else {
            None
        },
        None => None,
    }
}

/// What enter does.
#[derive(Clone, Copy, Debug, PartialEq, Eq, Structural)]
pub enum Confirmed {
    /// A directory was collapsed or expanded.
    Toggled,
    /// Open this changed file in the workspace.
    Open(usize),
    Nothing,
}

/// `index`, or the last position of a list of `len` where that lies further back.
pub open spec fn clamped(index: int, len: nat) -> int {
    if index < len {
        index
    } else if len > 0 {
        len - 1
    } else {
        0
    }
}

/// `index`, or the last position of a list of `len` where that lies further back.
pub fn clamp_index(index: usize, len: usize) -> (clamped_index: usize)
    ensures
        clamped_index == clamped(index as int, len as nat),
{
    if index < len {
        index
    } else if len > 0 {
        len - 1
    } else {
        0
    }
}

/// The positions of a list of `count` things, in order.
pub fn positions(count: usize) -> (all: Vec<usize>)
    ensures
        all@ == all_positions(count as nat),
{
    let mut all: Vec<usize> = Vec::new();
    let mut i: usize = 0;
    while i < count
        invariant
            i <= count,
            all@ == all_positions(i as nat),
        decreases count - i,
    {
        all.push(i);
        i += 1;
        proof {
            assert(all@ =~= all_positions(i as nat));
        }
    }
    all
}

/// The rows of `rows` at the positions `start..end`, as far as there are any.
pub open spec fn rows_between(rows: Seq<RowView>, start: int, end: int) -> Seq<RowView> {
    let last = if end < rows.len() {
        end
    } else {
        rows.len() as int
    };
    if start < last {
        rows.subrange(start, last)
    } else {
        Seq::empty()
    }
}

/// How deep each row at the positions `range` sits, for the guides drawn down the list.
pub fn visible_depths(rows: &Vec<Row>, range: Range<usize>) -> (depths: Vec<usize>)
    ensures
        depths@.map_values(|depth: usize| depth as int) == rows_between(
            row_views(rows@),
            range.start as int,
            range.end as int,
        ).map_values(|row: RowView| row_depth(row)),
{
    let ghost views = row_views(rows@);
    let end: usize = if range.end < rows.len() {
        range.end
    } else {
        rows.len()
    };
    let mut depths: Vec<usize> = Vec::new();
    let mut i: usize = range.start;
    while i < end
        invariant
            views == row_views(rows@),
            end <= rows.len(),
            range.start <= i,
            i <= end || (i == range.start && depths@.len() == 0),
            i <= end ==> depths@.len() == i - range.start,
            forall|k: int|
                0 <= k < depths@.len() ==> #[trigger] depths@[k] == row_depth(
                    views[range.start + k],
                ),
        decreases end - i,
    {
        let depth = rows[i].depth();
        proof {
            assert(views[i as int] == rows@[i as int]@);
        }
        depths.push(depth);
        i += 1;
    }
    proof {
        let between = rows_between(views, range.start as int, range.end as int);
        assert(views.len() == rows@.len());
        assert(between.len() == depths@.len());
        assert forall|k: int| 0 <= k < depths@.len() implies #[trigger] depths@[k] == row_depth(
            between[k],
        ) by {
            assert(between[k] == views[range.start + k]);
        }
        assert(depths@.map_values(|depth: usize| depth as int) =~= between.map_values(
            |row: RowView| row_depth(row),
        ));
    }
    depths
}

} // verus!

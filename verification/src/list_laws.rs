//! What holds of a list of changed files as directories are collapsed and expanded.

use vstd::prelude::*;

use crate::changes::{all_positions, lies_under, ChangedFile};
use crate::listing::{
    any_expanded, clamped, directories_above, directory_at, expanded_paths, file_at, is_expanded,
    openable_at, rows_between, toggled,
};
use crate::outline::{arranged, lemma_arranged_ascending, outline, tree_of};
use crate::outline_laws::{
    addressable, law_directories_hold_files, lemma_insert_addressable, lemma_tree_of_addressable,
    lemma_tree_of_ordered, plainly_named, relative_paths, rooted,
};
use crate::text::{joined, lemma_lex_less_irreflexive, slash_free};
use crate::tree::{
    branch_rows, empty_tree, file_rows, forest_rows, lemma_insert_ordered, lemma_slot, ordered,
    rows_of, slot, tree_insert, Branch, RowView, Tree,
};
use crate::tree_laws::{
    held, law_expanded_tree_shows_every_file, law_insert_adds_the_file, shown_files,
};

verus! {

/// Whether `path` is the directory `directory` or lies under it.
pub open spec fn within(path: Seq<char>, directory: Seq<char>) -> bool {
    path == directory || lies_under(path, directory)
}

proof fn lemma_within_transitive(a: Seq<char>, b: Seq<char>, c: Seq<char>)
    requires
        within(a, b),
        within(b, c),
    ensures
        within(a, c),
        lies_under(b, c) ==> lies_under(a, c),
{
    if a != b && b != c {
        let outer = c + seq!['/'];
        let inner = b + seq!['/'];
        assert(outer =~= a.subrange(0, outer.len() as int)) by {
            assert forall|k: int| 0 <= k < outer.len() implies outer[k] == a[k] by {
                assert(outer[k] == b[k]);
                assert(inner[k] == a[k]);
            }
        }
    }
}

proof fn lemma_joined_lies_under(directory: Seq<char>, name: Seq<char>)
    requires
        directory.len() > 0,
    ensures
        lies_under(joined(directory, name), directory),
{
    let marked = directory + seq!['/'];
    let path = joined(directory, name);
    assert(marked =~= path.subrange(0, marked.len() as int));
}

/// Nothing lies in two subdirectories of the same directory at once.
proof fn lemma_siblings_apart(
    prefix: Seq<char>,
    first: Seq<char>,
    second: Seq<char>,
    path: Seq<char>,
)
    requires
        slash_free(first),
        slash_free(second),
        within(path, joined(prefix, first)),
        within(path, joined(prefix, second)),
    ensures
        first == second,
{
    let a = joined(prefix, first);
    let b = joined(prefix, second);
    let offset: int = if prefix.len() == 0 {
        0
    } else {
        prefix.len() as int + 1
    };
    lemma_starts_with_directory(path, a);
    lemma_starts_with_directory(path, b);
    assert forall|k: int| 0 <= k < first.len() implies path[offset + k] == first[k] by {
        assert(a[offset + k] == first[k]);
    }
    assert forall|k: int| 0 <= k < second.len() implies path[offset + k] == second[k] by {
        assert(b[offset + k] == second[k]);
    }
    if first.len() < second.len() {
        assert(path[offset + first.len()] == '/');
        assert(path[offset + first.len()] == second[first.len() as int]);
    } else if second.len() < first.len() {
        assert(path[offset + second.len()] == '/');
        assert(path[offset + second.len()] == first[second.len() as int]);
    } else {
        assert(first =~= second);
    }
}

proof fn lemma_starts_with_directory(path: Seq<char>, directory: Seq<char>)
    requires
        within(path, directory),
    ensures
        directory.len() <= path.len(),
        forall|k: int| 0 <= k < directory.len() ==> path[k] == directory[k],
        directory.len() < path.len() ==> path[directory.len() as int] == '/',
{
    if path != directory {
        let marked = directory + seq!['/'];
        assert forall|k: int| 0 <= k < marked.len() implies path[k] == marked[k] by {
            assert(path.subrange(0, marked.len() as int)[k] == path[k]);
        }
        assert(marked[directory.len() as int] == '/');
        assert forall|k: int| 0 <= k < directory.len() implies path[k] == directory[k] by {
            assert(marked[k] == directory[k]);
        }
    }
}

/// Whether `row` is a directory, marked as collapsed exactly where `collapsed` holds its path.
spec fn marked_by(row: RowView, collapsed: Set<Seq<char>>) -> bool {
    row matches RowView::Directory { path, collapsed: hidden, .. } ==> hidden
        == collapsed.contains(path)
}

proof fn lemma_rows_marked(
    tree: Tree,
    prefix: Seq<char>,
    depth: int,
    compress: bool,
    collapsed: Set<Seq<char>>,
    i: int,
)
    requires
        0 <= i < rows_of(tree, prefix, depth, compress, collapsed).len(),
    ensures
        marked_by(rows_of(tree, prefix, depth, compress, collapsed)[i], collapsed),
    decreases tree, 1int,
{
    let front = forest_rows(tree.dirs, prefix, depth, compress, collapsed);
    if i < front.len() {
        lemma_forest_marked(tree.dirs, prefix, depth, compress, collapsed, i);
    } else {
        assert(rows_of(tree, prefix, depth, compress, collapsed)[i] == file_rows(
            tree.files,
            depth,
        )[i - front.len()]);
    }
}

proof fn lemma_forest_marked(
    dirs: Seq<Branch>,
    prefix: Seq<char>,
    depth: int,
    compress: bool,
    collapsed: Set<Seq<char>>,
    i: int,
)
    requires
        0 <= i < forest_rows(dirs, prefix, depth, compress, collapsed).len(),
    ensures
        marked_by(forest_rows(dirs, prefix, depth, compress, collapsed)[i], collapsed),
    decreases dirs, 0int,
{
    let last = dirs.last();
    let front = forest_rows(dirs.drop_last(), prefix, depth, compress, collapsed);
    if i < front.len() {
        lemma_forest_marked(dirs.drop_last(), prefix, depth, compress, collapsed, i);
    } else {
        lemma_branch_marked(
            joined(prefix, last.name),
            last.name,
            last.tree,
            depth,
            compress,
            collapsed,
            i - front.len(),
        );
    }
}

proof fn lemma_branch_marked(
    path: Seq<char>,
    label: Seq<char>,
    tree: Tree,
    depth: int,
    compress: bool,
    collapsed: Set<Seq<char>>,
    i: int,
)
    requires
        0 <= i < branch_rows(path, label, tree, depth, compress, collapsed).len(),
    ensures
        marked_by(branch_rows(path, label, tree, depth, compress, collapsed)[i], collapsed),
    decreases tree, 2int,
{
    if compress && tree.files.len() == 0 && tree.dirs.len() == 1 {
        let only = tree.dirs[0];
        lemma_branch_marked(
            joined(path, only.name),
            label + seq!['/'] + only.name,
            only.tree,
            depth,
            compress,
            collapsed,
            i,
        );
    } else if i > 0 {
        lemma_rows_marked(tree, path, depth + 1, compress, collapsed, i - 1);
    }
}

/// A directory is shown collapsed exactly when it is among the collapsed ones.
pub proof fn law_rows_show_what_is_collapsed(
    paths: Seq<Seq<char>>,
    order: Seq<usize>,
    compress: bool,
    collapsed: Set<Seq<char>>,
    i: int,
)
    requires
        0 <= i < outline(paths, order, compress, collapsed).len(),
        outline(paths, order, compress, collapsed)[i] is Directory,
    ensures
        outline(paths, order, compress, collapsed)[i]->collapsed == collapsed.contains(
            outline(paths, order, compress, collapsed)[i]->path,
        ),
{
    lemma_rows_marked(
        tree_of(paths, arranged(paths, order)),
        Seq::empty(),
        0,
        compress,
        collapsed,
        i,
    );
}

/// Whether some directory among `rows` has the path `path`.
pub open spec fn shows_directory(rows: Seq<RowView>, path: Seq<char>) -> bool {
    exists|i: int|
        0 <= i < rows.len() && (#[trigger] rows[i]) is Directory && rows[i]->path == path
}

proof fn lemma_shows_concat(a: Seq<RowView>, b: Seq<RowView>, path: Seq<char>)
    ensures
        shows_directory(a + b, path) <==> shows_directory(a, path) || shows_directory(b, path),
{
    let all = a + b;
    if shows_directory(a, path) {
        let i = choose|i: int|
            0 <= i < a.len() && (#[trigger] a[i]) is Directory && a[i]->path == path;
        assert(all[i] == a[i]);
    }
    if shows_directory(b, path) {
        let i = choose|i: int|
            0 <= i < b.len() && (#[trigger] b[i]) is Directory && b[i]->path == path;
        assert(all[a.len() + i] == b[i]);
    }
    if shows_directory(all, path) {
        let i = choose|i: int|
            0 <= i < all.len() && (#[trigger] all[i]) is Directory && all[i]->path == path;
        if i < a.len() {
            assert(a[i] == all[i]);
        } else {
            assert(b[i - a.len()] == all[i]);
        }
    }
}

proof fn lemma_rows_fewer(
    tree: Tree,
    prefix: Seq<char>,
    depth: int,
    compress: bool,
    fewer: Set<Seq<char>>,
    more: Set<Seq<char>>,
    path: Seq<char>,
)
    requires
        fewer.subset_of(more),
        shows_directory(rows_of(tree, prefix, depth, compress, more), path),
    ensures
        shows_directory(rows_of(tree, prefix, depth, compress, fewer), path),
    decreases tree, 1int,
{
    lemma_shows_concat(
        forest_rows(tree.dirs, prefix, depth, compress, more),
        file_rows(tree.files, depth),
        path,
    );
    lemma_shows_concat(
        forest_rows(tree.dirs, prefix, depth, compress, fewer),
        file_rows(tree.files, depth),
        path,
    );
    if shows_directory(forest_rows(tree.dirs, prefix, depth, compress, more), path) {
        lemma_forest_fewer(tree.dirs, prefix, depth, compress, fewer, more, path);
    }
}

proof fn lemma_forest_fewer(
    dirs: Seq<Branch>,
    prefix: Seq<char>,
    depth: int,
    compress: bool,
    fewer: Set<Seq<char>>,
    more: Set<Seq<char>>,
    path: Seq<char>,
)
    requires
        fewer.subset_of(more),
        shows_directory(forest_rows(dirs, prefix, depth, compress, more), path),
    ensures
        shows_directory(forest_rows(dirs, prefix, depth, compress, fewer), path),
    decreases dirs, 0int,
{
    if dirs.len() > 0 {
        let last = dirs.last();
        let front = dirs.drop_last();
        let at = joined(prefix, last.name);
        lemma_shows_concat(
            forest_rows(front, prefix, depth, compress, more),
            branch_rows(at, last.name, last.tree, depth, compress, more),
            path,
        );
        lemma_shows_concat(
            forest_rows(front, prefix, depth, compress, fewer),
            branch_rows(at, last.name, last.tree, depth, compress, fewer),
            path,
        );
        if shows_directory(forest_rows(front, prefix, depth, compress, more), path) {
            lemma_forest_fewer(front, prefix, depth, compress, fewer, more, path);
        } else {
            lemma_branch_fewer(at, last.name, last.tree, depth, compress, fewer, more, path);
        }
    }
}

proof fn lemma_branch_fewer(
    at: Seq<char>,
    label: Seq<char>,
    tree: Tree,
    depth: int,
    compress: bool,
    fewer: Set<Seq<char>>,
    more: Set<Seq<char>>,
    path: Seq<char>,
)
    requires
        fewer.subset_of(more),
        shows_directory(branch_rows(at, label, tree, depth, compress, more), path),
    ensures
        shows_directory(branch_rows(at, label, tree, depth, compress, fewer), path),
    decreases tree, 2int,
{
    if compress && tree.files.len() == 0 && tree.dirs.len() == 1 {
        let only = tree.dirs[0];
        lemma_branch_fewer(
            joined(at, only.name),
            label + seq!['/'] + only.name,
            only.tree,
            depth,
            compress,
            fewer,
            more,
            path,
        );
    } else {
        let before = branch_rows(at, label, tree, depth, compress, fewer);
        if path == at {
            assert(before[0] is Directory && before[0]->path == path);
        } else {
            let after = branch_rows(at, label, tree, depth, compress, more);
            let i = choose|i: int|
                0 <= i < after.len() && (#[trigger] after[i]) is Directory && after[i]->path
                    == path;
            assert(after[0]->path == at);
            assert(!more.contains(at));
            let inner = rows_of(tree, at, depth + 1, compress, more);
            assert(inner[i - 1] == after[i]);
            lemma_rows_fewer(tree, at, depth + 1, compress, fewer, more, path);
            lemma_shows_concat(
                seq![before[0]],
                rows_of(tree, at, depth + 1, compress, fewer),
                path,
            );
        }
    }
}

/// Collapsing further directories brings none into view.
pub proof fn law_collapsing_shows_no_more_directories(
    paths: Seq<Seq<char>>,
    order: Seq<usize>,
    compress: bool,
    fewer: Set<Seq<char>>,
    more: Set<Seq<char>>,
    path: Seq<char>,
)
    requires
        fewer.subset_of(more),
        shows_directory(outline(paths, order, compress, more), path),
    ensures
        shows_directory(outline(paths, order, compress, fewer), path),
{
    lemma_rows_fewer(
        tree_of(paths, arranged(paths, order)),
        Seq::empty(),
        0,
        compress,
        fewer,
        more,
        path,
    );
}

/// Collapsing every directory that is shown expanded leaves none expanded.
pub proof fn law_collapsing_what_is_shown_collapses_all(
    paths: Seq<Seq<char>>,
    order: Seq<usize>,
    compress: bool,
    collapsed: Set<Seq<char>>,
)
    ensures
        !any_expanded(
            outline(
                paths,
                order,
                compress,
                collapsed.union(expanded_paths(outline(paths, order, compress, collapsed))),
            ),
        ),
{
    let rows = outline(paths, order, compress, collapsed);
    let more = collapsed.union(expanded_paths(rows));
    let after = outline(paths, order, compress, more);
    assert forall|i: int| 0 <= i < after.len() implies !is_expanded(#[trigger] after[i]) by {
        if is_expanded(after[i]) {
            let path = after[i]->path;
            law_rows_show_what_is_collapsed(paths, order, compress, more, i);
            assert(shows_directory(after, path));
            law_collapsing_shows_no_more_directories(
                paths,
                order,
                compress,
                collapsed,
                more,
                path,
            );
            let k = choose|k: int|
                0 <= k < rows.len() && (#[trigger] rows[k]) is Directory && rows[k]->path == path;
            law_rows_show_what_is_collapsed(paths, order, compress, collapsed, k);
            if !collapsed.contains(path) {
                assert(is_expanded(rows[k]));
                assert(expanded_paths(rows).contains(path));
            }
        }
    }
}

/// Whether two sets hold the same of the directory `directory` and everything under it.
spec fn agree(a: Set<Seq<char>>, b: Set<Seq<char>>, directory: Seq<char>) -> bool {
    forall|path: Seq<char>|
        #[trigger] within(path, directory) ==> a.contains(path) == b.contains(path)
}

proof fn lemma_agree_inside(
    a: Set<Seq<char>>,
    b: Set<Seq<char>>,
    directory: Seq<char>,
    name: Seq<char>,
)
    requires
        directory.len() > 0,
        agree(a, b, directory),
    ensures
        agree(a, b, joined(directory, name)),
{
    lemma_joined_lies_under(directory, name);
    assert forall|path: Seq<char>| #[trigger] within(path, joined(directory, name)) implies a.contains(
        path,
    ) == b.contains(path) by {
        lemma_within_transitive(path, joined(directory, name), directory);
    }
}

proof fn lemma_forest_agree(
    dirs: Seq<Branch>,
    prefix: Seq<char>,
    depth: int,
    compress: bool,
    a: Set<Seq<char>>,
    b: Set<Seq<char>>,
)
    requires
        forall|k: int|
            0 <= k < dirs.len() ==> {
                &&& joined(prefix, (#[trigger] dirs[k]).name).len() > 0
                &&& agree(a, b, joined(prefix, dirs[k].name))
            },
    ensures
        forest_rows(dirs, prefix, depth, compress, a) == forest_rows(
            dirs,
            prefix,
            depth,
            compress,
            b,
        ),
    decreases dirs, 0int,
{
    if dirs.len() > 0 {
        let last = dirs.last();
        let front = dirs.drop_last();
        assert(last == dirs[dirs.len() - 1]);
        assert forall|k: int| 0 <= k < front.len() implies {
            &&& joined(prefix, (#[trigger] front[k]).name).len() > 0
            &&& agree(a, b, joined(prefix, front[k].name))
        } by {
            assert(front[k] == dirs[k]);
        }
        lemma_forest_agree(front, prefix, depth, compress, a, b);
        lemma_branch_agree(
            joined(prefix, last.name),
            last.name,
            last.tree,
            depth,
            compress,
            a,
            b,
        );
    }
}

proof fn lemma_branch_agree(
    path: Seq<char>,
    label: Seq<char>,
    tree: Tree,
    depth: int,
    compress: bool,
    a: Set<Seq<char>>,
    b: Set<Seq<char>>,
)
    requires
        path.len() > 0,
        agree(a, b, path),
    ensures
        branch_rows(path, label, tree, depth, compress, a) == branch_rows(
            path,
            label,
            tree,
            depth,
            compress,
            b,
        ),
    decreases tree, 2int,
{
    if compress && tree.files.len() == 0 && tree.dirs.len() == 1 {
        let only = tree.dirs[0];
        lemma_agree_inside(a, b, path, only.name);
        lemma_branch_agree(
            joined(path, only.name),
            label + seq!['/'] + only.name,
            only.tree,
            depth,
            compress,
            a,
            b,
        );
    } else {
        assert(within(path, path));
        assert forall|k: int| 0 <= k < tree.dirs.len() implies {
            &&& joined(path, (#[trigger] tree.dirs[k]).name).len() > 0
            &&& agree(a, b, joined(path, tree.dirs[k].name))
        } by {
            lemma_agree_inside(a, b, path, tree.dirs[k].name);
        }
        lemma_forest_agree(tree.dirs, path, depth + 1, compress, a, b);
        assert(rows_of(tree, path, depth + 1, compress, a) == rows_of(
            tree,
            path,
            depth + 1,
            compress,
            b,
        ));
    }
}

/// Whether `after` is `before` with the directory at `i` the other way round, as far as the rows
/// up to and with that one go.
spec fn flipped_at(before: Seq<RowView>, after: Seq<RowView>, i: int) -> bool {
    &&& i < before.len()
    &&& i < after.len()
    &&& after.take(i) == before.take(i)
    &&& before[i] matches RowView::Directory { path, label, depth, collapsed } && after[i]
        == (RowView::Directory { path, label, depth, collapsed: !collapsed })
}

proof fn lemma_flipped_in_front(
    before: Seq<RowView>,
    after: Seq<RowView>,
    behind: Seq<RowView>,
    behind_after: Seq<RowView>,
    i: int,
)
    requires
        0 <= i,
        flipped_at(before, after, i),
    ensures
        flipped_at(before + behind, after + behind_after, i),
{
    assert((before + behind).take(i) =~= before.take(i));
    assert((after + behind_after).take(i) =~= after.take(i));
}

proof fn lemma_flipped_behind(
    front: Seq<RowView>,
    before: Seq<RowView>,
    after: Seq<RowView>,
    i: int,
)
    requires
        0 <= i,
        flipped_at(before, after, i),
    ensures
        flipped_at(front + before, front + after, front.len() + i),
{
    assert((front + before).take(front.len() + i) =~= front + before.take(i));
    assert((front + after).take(front.len() + i) =~= front + after.take(i));
}

proof fn lemma_toggle_rows(
    tree: Tree,
    prefix: Seq<char>,
    depth: int,
    compress: bool,
    collapsed: Set<Seq<char>>,
    i: int,
)
    requires
        ordered(tree),
        plainly_named(tree),
        rooted(tree.dirs, prefix),
        0 <= i < rows_of(tree, prefix, depth, compress, collapsed).len(),
        rows_of(tree, prefix, depth, compress, collapsed)[i] is Directory,
    ensures
        ({
            let rows = rows_of(tree, prefix, depth, compress, collapsed);
            &&& flipped_at(
                rows,
                rows_of(tree, prefix, depth, compress, toggled(collapsed, rows[i]->path)),
                i,
            )
            &&& exists|k: int|
                0 <= k < tree.dirs.len() && within(
                    rows[i]->path,
                    joined(prefix, (#[trigger] tree.dirs[k]).name),
                )
        }),
    decreases tree, 1int,
{
    let front = forest_rows(tree.dirs, prefix, depth, compress, collapsed);
    let files = file_rows(tree.files, depth);
    let rows = rows_of(tree, prefix, depth, compress, collapsed);
    if i >= front.len() {
        assert(rows[i] == files[i - front.len()]);
    }
    assert(rows[i] == front[i]);
    assert(tree.dirs =~= tree.dirs.take(tree.dirs.len() as int));
    lemma_toggle_forest(tree, tree.dirs, prefix, depth, compress, collapsed, i);
    lemma_flipped_in_front(
        front,
        forest_rows(tree.dirs, prefix, depth, compress, toggled(collapsed, rows[i]->path)),
        files,
        files,
        i,
    );
}

proof fn lemma_toggle_forest(
    tree: Tree,
    dirs: Seq<Branch>,
    prefix: Seq<char>,
    depth: int,
    compress: bool,
    collapsed: Set<Seq<char>>,
    i: int,
)
    requires
        ordered(tree),
        plainly_named(tree),
        rooted(tree.dirs, prefix),
        dirs.len() <= tree.dirs.len(),
        dirs == tree.dirs.take(dirs.len() as int),
        0 <= i < forest_rows(dirs, prefix, depth, compress, collapsed).len(),
        forest_rows(dirs, prefix, depth, compress, collapsed)[i] is Directory,
    ensures
        ({
            let rows = forest_rows(dirs, prefix, depth, compress, collapsed);
            &&& flipped_at(
                rows,
                forest_rows(dirs, prefix, depth, compress, toggled(collapsed, rows[i]->path)),
                i,
            )
            &&& exists|k: int|
                0 <= k < dirs.len() && within(
                    rows[i]->path,
                    joined(prefix, (#[trigger] dirs[k]).name),
                )
        }),
    decreases dirs, 0int,
{
    let rows = forest_rows(dirs, prefix, depth, compress, collapsed);
    let path = rows[i]->path;
    let after = toggled(collapsed, path);
    let last = dirs.last();
    let at = joined(prefix, last.name);
    let front = dirs.drop_last();
    let front_rows = forest_rows(front, prefix, depth, compress, collapsed);
    let last_rows = branch_rows(at, last.name, last.tree, depth, compress, collapsed);
    assert(last == tree.dirs[dirs.len() - 1]);
    assert(front =~= tree.dirs.take(front.len() as int));
    if i < front_rows.len() {
        assert(rows[i] == front_rows[i]);
        lemma_toggle_forest(tree, front, prefix, depth, compress, collapsed, i);
        let k = choose|k: int|
            0 <= k < front.len() && within(path, joined(prefix, (#[trigger] front[k]).name));
        assert(within(path, joined(prefix, dirs[k].name)));
        lemma_flipped_in_front(
            front_rows,
            forest_rows(front, prefix, depth, compress, after),
            last_rows,
            branch_rows(at, last.name, last.tree, depth, compress, after),
            i,
        );
    } else {
        let j = i - front_rows.len();
        assert(rows[i] == last_rows[j]);
        assert(at.len() > 0);
        lemma_toggle_branch(at, last.name, last.tree, depth, compress, collapsed, j);
        assert(within(path, joined(prefix, dirs[dirs.len() - 1].name)));
        assert forall|k: int| 0 <= k < front.len() implies {
            &&& joined(prefix, (#[trigger] front[k]).name).len() > 0
            &&& agree(collapsed, after, joined(prefix, front[k].name))
        } by {
            assert(front[k] == tree.dirs[k]);
            assert(crate::text::lex_less(tree.dirs[k].name, tree.dirs[dirs.len() - 1].name));
            lemma_lex_less_irreflexive(last.name);
            assert forall|other: Seq<char>| #[trigger]
                within(other, joined(prefix, front[k].name)) implies collapsed.contains(other)
                == after.contains(other) by {
                if other == path {
                    lemma_siblings_apart(prefix, front[k].name, last.name, path);
                }
            }
        }
        lemma_forest_agree(front, prefix, depth, compress, collapsed, after);
        lemma_flipped_behind(
            front_rows,
            last_rows,
            branch_rows(at, last.name, last.tree, depth, compress, after),
            j,
        );
    }
}

proof fn lemma_toggle_branch(
    at: Seq<char>,
    label: Seq<char>,
    tree: Tree,
    depth: int,
    compress: bool,
    collapsed: Set<Seq<char>>,
    i: int,
)
    requires
        at.len() > 0,
        ordered(tree),
        plainly_named(tree),
        0 <= i < branch_rows(at, label, tree, depth, compress, collapsed).len(),
        branch_rows(at, label, tree, depth, compress, collapsed)[i] is Directory,
    ensures
        ({
            let rows = branch_rows(at, label, tree, depth, compress, collapsed);
            &&& flipped_at(
                rows,
                branch_rows(at, label, tree, depth, compress, toggled(collapsed, rows[i]->path)),
                i,
            )
            &&& within(rows[i]->path, at)
        }),
    decreases tree, 2int,
{
    let rows = branch_rows(at, label, tree, depth, compress, collapsed);
    let path = rows[i]->path;
    let after = toggled(collapsed, path);
    if compress && tree.files.len() == 0 && tree.dirs.len() == 1 {
        let only = tree.dirs[0];
        let inner = joined(at, only.name);
        lemma_toggle_branch(
            inner,
            label + seq!['/'] + only.name,
            only.tree,
            depth,
            compress,
            collapsed,
            i,
        );
        lemma_joined_lies_under(at, only.name);
        lemma_within_transitive(path, inner, at);
    } else if i == 0 {
        let flipped = branch_rows(at, label, tree, depth, compress, after);
        assert(flipped.take(0) =~= rows.take(0));
    } else {
        let inside = rows_of(tree, at, depth + 1, compress, collapsed);
        let inside_after = rows_of(tree, at, depth + 1, compress, after);
        assert(inside[i - 1] == rows[i]);
        lemma_toggle_rows(tree, at, depth + 1, compress, collapsed, i - 1);
        let k = choose|k: int|
            0 <= k < tree.dirs.len() && within(path, joined(at, (#[trigger] tree.dirs[k]).name));
        lemma_joined_lies_under(at, tree.dirs[k].name);
        lemma_within_transitive(path, joined(at, tree.dirs[k].name), at);
        assert(path.len() > at.len());
        assert(!after.contains(at));
        lemma_flipped_behind(seq![rows[0]], inside, inside_after, i - 1);
        assert(rows =~= seq![rows[0]] + inside);
        assert(branch_rows(at, label, tree, depth, compress, after) =~= seq![rows[0]]
            + inside_after);
    }
}

/// A directory stays where it is as it is collapsed or expanded: the rows above it do not change,
/// and its own row only changes its mark.
pub proof fn law_toggled_directory_stays_in_place(
    paths: Seq<Seq<char>>,
    order: Seq<usize>,
    compress: bool,
    collapsed: Set<Seq<char>>,
    i: int,
)
    requires
        relative_paths(paths),
        0 <= i < outline(paths, order, compress, collapsed).len(),
        outline(paths, order, compress, collapsed)[i] is Directory,
    ensures
        ({
            let before = outline(paths, order, compress, collapsed);
            let after = outline(paths, order, compress, toggled(collapsed, before[i]->path));
            &&& i < after.len()
            &&& after.take(i) == before.take(i)
            &&& before[i] matches RowView::Directory { path, label, depth, collapsed }
                && after[i] == (RowView::Directory { path, label, depth, collapsed: !collapsed })
        }),
{
    let sorted = arranged(paths, order);
    let root = tree_of(paths, sorted);
    lemma_arranged_ascending(paths, order);
    lemma_tree_of_ordered(paths, sorted);
    lemma_tree_of_addressable(paths, sorted);
    lemma_toggle_rows(root, Seq::empty(), 0, compress, collapsed, i);
}

/// Toggling a directory twice leaves the same ones collapsed.
pub proof fn law_toggling_twice_changes_nothing(collapsed: Set<Seq<char>>, path: Seq<char>)
    ensures
        toggled(toggled(collapsed, path), path) == collapsed,
{
    assert(toggled(toggled(collapsed, path), path) =~= collapsed);
}

/// Collapsing every directory that holds a listed file leaves no directory expanded.
pub proof fn law_collapsing_every_directory_leaves_none_expanded(
    paths: Seq<Seq<char>>,
    order: Seq<usize>,
    compress: bool,
)
    requires
        relative_paths(paths),
    ensures
        !any_expanded(outline(paths, order, compress, directories_above(paths))),
{
    let none = Set::<Seq<char>>::empty();
    let all = directories_above(paths);
    let rows = outline(paths, order, compress, all);
    let expanded = outline(paths, order, compress, none);
    assert forall|i: int| 0 <= i < rows.len() implies !is_expanded(#[trigger] rows[i]) by {
        if is_expanded(rows[i]) {
            let path = rows[i]->path;
            law_rows_show_what_is_collapsed(paths, order, compress, all, i);
            assert(shows_directory(rows, path));
            law_collapsing_shows_no_more_directories(paths, order, compress, none, all, path);
            let k = choose|k: int|
                0 <= k < expanded.len() && (#[trigger] expanded[k]) is Directory
                    && expanded[k]->path == path;
            law_directories_hold_files(paths, order, compress, k);
            let entry = choose|entry: usize|
                {
                    &&& #[trigger] order.contains(entry)
                    &&& entry < paths.len()
                    &&& lies_under(paths[entry as int], path)
                };
            assert(lies_under(paths[entry as int], path));
        }
    }
}

/// With nothing collapsed every directory is expanded.
pub proof fn law_nothing_collapsed_expands_every_directory(
    paths: Seq<Seq<char>>,
    order: Seq<usize>,
    compress: bool,
    i: int,
)
    requires
        0 <= i < outline(paths, order, compress, Set::empty()).len(),
        outline(paths, order, compress, Set::empty())[i] is Directory,
    ensures
        is_expanded(outline(paths, order, compress, Set::empty())[i]),
{
    law_rows_show_what_is_collapsed(paths, order, compress, Set::empty(), i);
}

/// No two directory rows of a tree have the same path, whatever is collapsed and folded or not, so
/// that collapsing one directory never collapses another.
pub proof fn law_directory_rows_are_distinct(
    tree: Tree,
    prefix: Seq<char>,
    depth: int,
    compress: bool,
    collapsed: Set<Seq<char>>,
    i: int,
    j: int,
)
    requires
        ordered(tree),
        plainly_named(tree),
        rooted(tree.dirs, prefix),
        0 <= i < j < rows_of(tree, prefix, depth, compress, collapsed).len(),
        rows_of(tree, prefix, depth, compress, collapsed)[i] is Directory,
        rows_of(tree, prefix, depth, compress, collapsed)[j] is Directory,
    ensures
        rows_of(tree, prefix, depth, compress, collapsed)[i]->path != rows_of(
            tree,
            prefix,
            depth,
            compress,
            collapsed,
        )[j]->path,
{
    let rows = rows_of(tree, prefix, depth, compress, collapsed);
    let path = rows[j]->path;
    if rows[i]->path == path {
        // Toggling the path leaves the rows above the second one as they are, though the first one
        // would have to change its mark.
        let toggled_set = toggled(collapsed, path);
        let after = rows_of(tree, prefix, depth, compress, toggled_set);
        lemma_toggle_rows(tree, prefix, depth, compress, collapsed, j);
        assert(after.take(j)[i] == rows.take(j)[i]);
        lemma_rows_marked(tree, prefix, depth, compress, collapsed, i);
        lemma_rows_marked(tree, prefix, depth, compress, toggled_set, i);
    }
}

/// No two directory rows of a list have the same path.
pub proof fn law_no_two_rows_share_a_path(
    paths: Seq<Seq<char>>,
    order: Seq<usize>,
    compress: bool,
    collapsed: Set<Seq<char>>,
    i: int,
    j: int,
)
    requires
        relative_paths(paths),
        0 <= i < j < outline(paths, order, compress, collapsed).len(),
        outline(paths, order, compress, collapsed)[i] is Directory,
        outline(paths, order, compress, collapsed)[j] is Directory,
    ensures
        outline(paths, order, compress, collapsed)[i]->path != outline(
            paths,
            order,
            compress,
            collapsed,
        )[j]->path,
{
    let sorted = arranged(paths, order);
    lemma_arranged_ascending(paths, order);
    lemma_tree_of_ordered(paths, sorted);
    lemma_tree_of_addressable(paths, sorted);
    law_directory_rows_are_distinct(
        tree_of(paths, sorted),
        Seq::empty(),
        0,
        compress,
        collapsed,
        i,
        j,
    );
}

/// A file to add to a tree: its path components, and its position in the list of changed files.
pub struct Addition {
    pub components: Seq<Seq<char>>,
    pub entry: usize,
}

/// The tree that `additions` make, one after the other, in whatever order they come.
pub open spec fn built(additions: Seq<Addition>) -> Tree
    decreases additions.len(),
{
    if additions.len() == 0 {
        empty_tree()
    } else {
        tree_insert(
            built(additions.drop_last()),
            additions.last().components,
            additions.last().entry,
        )
    }
}

/// The entries of `additions`, in order.
pub open spec fn added_entries(additions: Seq<Addition>) -> Seq<usize> {
    additions.map_values(|addition: Addition| addition.entry)
}

proof fn lemma_built_holds(additions: Seq<Addition>)
    requires
        forall|k: int|
            0 <= k < additions.len() ==> (#[trigger] additions[k]).components.len() > 0,
    ensures
        held(built(additions)) == added_entries(additions).to_multiset(),
    decreases additions.len(),
{
    broadcast use vstd::seq_lib::group_to_multiset_ensures;

    if additions.len() > 0 {
        let front = additions.drop_last();
        let last = additions.last();
        assert(last == additions[additions.len() - 1]);
        assert forall|k: int| 0 <= k < front.len() implies (
        #[trigger] front[k]).components.len() > 0 by {
            assert(front[k] == additions[k]);
        }
        lemma_built_holds(front);
        law_insert_adds_the_file(built(front), last.components, last.entry);
        assert(added_entries(additions) =~= added_entries(front).push(last.entry));
    } else {
        assert(added_entries(additions) =~= Seq::<usize>::empty());
        assert(held(empty_tree()) =~= vstd::multiset::Multiset::empty());
        assert(added_entries(additions).to_multiset() =~= vstd::multiset::Multiset::empty());
    }
}

/// Folding and ordering neither lose nor duplicate a file: fully expanded, a tree shows what was
/// added to it, each file as often as it was added.
pub proof fn law_built_tree_shows_what_was_added(
    additions: Seq<Addition>,
    prefix: Seq<char>,
    depth: int,
    compress: bool,
)
    requires
        forall|k: int|
            0 <= k < additions.len() ==> (#[trigger] additions[k]).components.len() > 0,
    ensures
        shown_files(
            rows_of(built(additions), prefix, depth, compress, Set::empty()),
        ).to_multiset() == added_entries(additions).to_multiset(),
{
    lemma_built_holds(additions);
    law_expanded_tree_shows_every_file(built(additions), prefix, depth, compress);
}

proof fn lemma_built_addressable(additions: Seq<Addition>, prefix: Seq<char>)
    requires
        forall|k: int|
            0 <= k < additions.len() ==> (#[trigger] additions[k]).components.len() > 0
                && addressable(additions[k].components, prefix),
    ensures
        ordered(built(additions)),
        plainly_named(built(additions)),
        rooted(built(additions).dirs, prefix),
    decreases additions.len(),
{
    if additions.len() > 0 {
        let front = additions.drop_last();
        let last = additions.last();
        assert(last == additions[additions.len() - 1]);
        assert forall|k: int| 0 <= k < front.len() implies (
        #[trigger] front[k]).components.len() > 0 && addressable(
            front[k].components,
            prefix,
        ) by {
            assert(front[k] == additions[k]);
        }
        lemma_built_addressable(front, prefix);
        lemma_insert_ordered(built(front), last.components, last.entry);
        lemma_insert_addressable(built(front), last.components, last.entry, prefix);
    } else {
        assert(ordered(empty_tree()));
        assert(plainly_named(empty_tree()));
    }
}

/// However a tree was built, no two of its directory rows have the same path, provided that
/// paths can tell its directories apart.
pub proof fn law_built_directories_are_distinct(
    additions: Seq<Addition>,
    prefix: Seq<char>,
    depth: int,
    compress: bool,
    collapsed: Set<Seq<char>>,
    i: int,
    j: int,
)
    requires
        forall|k: int|
            0 <= k < additions.len() ==> (#[trigger] additions[k]).components.len() > 0
                && addressable(additions[k].components, prefix),
        0 <= i < j < rows_of(built(additions), prefix, depth, compress, collapsed).len(),
        rows_of(built(additions), prefix, depth, compress, collapsed)[i] is Directory,
        rows_of(built(additions), prefix, depth, compress, collapsed)[j] is Directory,
    ensures
        rows_of(built(additions), prefix, depth, compress, collapsed)[i]->path != rows_of(
            built(additions),
            prefix,
            depth,
            compress,
            collapsed,
        )[j]->path,
{
    lemma_built_addressable(additions, prefix);
    law_directory_rows_are_distinct(
        built(additions),
        prefix,
        depth,
        compress,
        collapsed,
        i,
        j,
    );
}

/// Whether every file in a tree is one of the first `count`.
spec fn files_below(tree: Tree, count: nat) -> bool
    decreases tree,
{
    &&& forall|i: int| 0 <= i < tree.files.len() ==> #[trigger] tree.files[i] < count
    &&& forall|i: int| 0 <= i < tree.dirs.len() ==> files_below((#[trigger] tree.dirs[i]).tree, count)
}

proof fn lemma_insert_below(tree: Tree, components: Seq<Seq<char>>, entry: usize, count: nat)
    requires
        files_below(tree, count),
        entry < count,
    ensures
        files_below(tree_insert(tree, components, entry), count),
    decreases components.len(),
{
    let after = tree_insert(tree, components, entry);
    if components.len() > 1 {
        let name = components[0];
        let rest = components.drop_first();
        let at = slot(tree.dirs, name);
        lemma_slot(tree.dirs, name);
        let found = at < tree.dirs.len() && tree.dirs[at].name == name;
        if found {
            lemma_insert_below(tree.dirs[at].tree, rest, entry, count);
        } else {
            assert(files_below(empty_tree(), count));
            lemma_insert_below(empty_tree(), rest, entry, count);
        }
        assert forall|i: int| 0 <= i < after.dirs.len() implies files_below(
            (#[trigger] after.dirs[i]).tree,
            count,
        ) by {
            if i != at {
                if found || i < at {
                    assert(after.dirs[i] == tree.dirs[i]);
                } else {
                    assert(after.dirs[i] == tree.dirs[i - 1]);
                }
            }
        }
        assert(after.files == tree.files);
    } else if components.len() == 1 {
        assert forall|i: int| 0 <= i < after.files.len() implies #[trigger] after.files[i]
            < count by {
            if i < tree.files.len() {
                assert(after.files[i] == tree.files[i]);
            }
        }
        assert(after.dirs == tree.dirs);
    }
}

proof fn lemma_tree_of_below(paths: Seq<Seq<char>>, order: Seq<usize>)
    requires
        forall|i: int| 0 <= i < order.len() ==> #[trigger] order[i] < paths.len(),
    ensures
        files_below(tree_of(paths, order), paths.len()),
    decreases order.len(),
{
    if order.len() > 0 {
        let front = order.drop_last();
        assert forall|i: int| 0 <= i < front.len() implies #[trigger] front[i] < paths.len() by {
            assert(front[i] == order[i]);
        }
        assert(order[order.len() - 1] < paths.len());
        lemma_tree_of_below(paths, front);
        lemma_insert_below(
            tree_of(paths, front),
            crate::text::components(paths[order.last() as int]),
            order.last(),
            paths.len(),
        );
    } else {
        assert(files_below(empty_tree(), paths.len()));
    }
}

proof fn lemma_rows_below(
    tree: Tree,
    prefix: Seq<char>,
    depth: int,
    compress: bool,
    collapsed: Set<Seq<char>>,
    count: nat,
    i: int,
)
    requires
        files_below(tree, count),
        0 <= i < rows_of(tree, prefix, depth, compress, collapsed).len(),
    ensures
        rows_of(tree, prefix, depth, compress, collapsed)[i] matches RowView::File { entry, .. }
            ==> entry < count,
    decreases tree, 1int,
{
    let front = forest_rows(tree.dirs, prefix, depth, compress, collapsed);
    if i < front.len() {
        lemma_forest_below(tree.dirs, prefix, depth, compress, collapsed, count, i);
    } else {
        let k = i - front.len();
        assert(rows_of(tree, prefix, depth, compress, collapsed)[i] == file_rows(
            tree.files,
            depth,
        )[k]);
        assert(tree.files[k] < count);
    }
}

proof fn lemma_forest_below(
    dirs: Seq<Branch>,
    prefix: Seq<char>,
    depth: int,
    compress: bool,
    collapsed: Set<Seq<char>>,
    count: nat,
    i: int,
)
    requires
        forall|k: int| 0 <= k < dirs.len() ==> files_below((#[trigger] dirs[k]).tree, count),
        0 <= i < forest_rows(dirs, prefix, depth, compress, collapsed).len(),
    ensures
        forest_rows(dirs, prefix, depth, compress, collapsed)[i] matches RowView::File {
            entry,
            ..
        } ==> entry < count,
    decreases dirs, 0int,
{
    let last = dirs.last();
    let front = dirs.drop_last();
    let front_rows = forest_rows(front, prefix, depth, compress, collapsed);
    assert(last == dirs[dirs.len() - 1]);
    if i < front_rows.len() {
        assert forall|k: int| 0 <= k < front.len() implies files_below(
            (#[trigger] front[k]).tree,
            count,
        ) by {
            assert(front[k] == dirs[k]);
        }
        lemma_forest_below(front, prefix, depth, compress, collapsed, count, i);
    } else {
        lemma_branch_below(
            joined(prefix, last.name),
            last.name,
            last.tree,
            depth,
            compress,
            collapsed,
            count,
            i - front_rows.len(),
        );
    }
}

proof fn lemma_branch_below(
    path: Seq<char>,
    label: Seq<char>,
    tree: Tree,
    depth: int,
    compress: bool,
    collapsed: Set<Seq<char>>,
    count: nat,
    i: int,
)
    requires
        files_below(tree, count),
        0 <= i < branch_rows(path, label, tree, depth, compress, collapsed).len(),
    ensures
        branch_rows(path, label, tree, depth, compress, collapsed)[i] matches RowView::File {
            entry,
            ..
        } ==> entry < count,
    decreases tree, 2int,
{
    if compress && tree.files.len() == 0 && tree.dirs.len() == 1 {
        let only = tree.dirs[0];
        lemma_branch_below(
            joined(path, only.name),
            label + seq!['/'] + only.name,
            only.tree,
            depth,
            compress,
            collapsed,
            count,
            i,
        );
    } else if i > 0 {
        lemma_rows_below(tree, path, depth + 1, compress, collapsed, count, i - 1);
    }
}

/// Every file row has a listed file behind it, whatever is collapsed.
pub proof fn law_rows_show_listed_files(
    paths: Seq<Seq<char>>,
    order: Seq<usize>,
    compress: bool,
    collapsed: Set<Seq<char>>,
    i: int,
)
    requires
        0 <= i < outline(paths, order, compress, collapsed).len(),
        outline(paths, order, compress, collapsed)[i] is File,
    ensures
        outline(paths, order, compress, collapsed)[i]->entry < paths.len(),
{
    let sorted = arranged(paths, order);
    lemma_arranged_ascending(paths, order);
    lemma_tree_of_below(paths, sorted);
    lemma_rows_below(
        tree_of(paths, sorted),
        Seq::empty(),
        0,
        compress,
        collapsed,
        paths.len(),
        i,
    );
}

/// A position is a directory's exactly where a directory's row stands there, and a file's exactly
/// where the row of a listed file does. A file can be opened exactly where it lies in a worktree.
pub proof fn law_what_stands_at_a_position(
    rows: Seq<RowView>,
    index: int,
    files: Seq<ChangedFile>,
    path: Seq<char>,
    entry: usize,
)
    ensures
        directory_at(rows, index) == Some(path) <==> 0 <= index < rows.len()
            && rows[index] is Directory && rows[index]->path == path,
        file_at(rows, index, files.len()) == Some(entry) <==> 0 <= index < rows.len()
            && rows[index] is File && rows[index]->entry == entry && entry < files.len(),
        openable_at(rows, index, files) == Some(entry) <==> 0 <= index < rows.len()
            && rows[index] is File && rows[index]->entry == entry && entry < files.len()
            && files[entry as int].project_file is Some,
        directory_at(rows, index) is Some ==> openable_at(rows, index, files) is None,
{
}

/// Toggling a directory turns it round, and no other.
pub proof fn law_toggling_touches_one_directory(
    collapsed: Set<Seq<char>>,
    path: Seq<char>,
    other: Seq<char>,
)
    ensures
        toggled(collapsed, path).contains(other) <==> (collapsed.contains(other) != (other
            == path)),
{
}

/// A row is expanded exactly where it is a directory that is not marked as collapsed, and the
/// expanded paths are those of such rows.
pub proof fn law_expanded_rows(rows: Seq<RowView>, path: Seq<char>)
    ensures
        any_expanded(rows) <==> exists|i: int|
            0 <= i < rows.len() && (#[trigger] rows[i]) is Directory && !rows[i]->collapsed,
        expanded_paths(rows).contains(path) <==> exists|i: int|
            0 <= i < rows.len() && (#[trigger] rows[i]) is Directory && !rows[i]->collapsed
                && rows[i]->path == path,
{
    if exists|i: int|
        0 <= i < rows.len() && (#[trigger] rows[i]) is Directory && !rows[i]->collapsed {
        let i = choose|i: int|
            0 <= i < rows.len() && (#[trigger] rows[i]) is Directory && !rows[i]->collapsed;
        assert(is_expanded(rows[i]));
    }
    if exists|i: int|
        0 <= i < rows.len() && (#[trigger] rows[i]) is Directory && !rows[i]->collapsed
            && rows[i]->path == path {
        let i = choose|i: int|
            0 <= i < rows.len() && (#[trigger] rows[i]) is Directory && !rows[i]->collapsed
                && rows[i]->path == path;
        assert(is_expanded(rows[i]));
    }
}

/// A position within a list is kept, one behind it gives way to the last, and the first is taken
/// where there is none.
pub proof fn law_position_is_kept_in_the_list(index: int, len: nat)
    requires
        0 <= index,
    ensures
        index < len ==> clamped(index, len) == index,
        len > 0 && len <= index ==> clamped(index, len) + 1 == len,
        len == 0 ==> clamped(index, len) == 0,
{
}

/// The rows between two positions are those at each position from the first on, up to the second
/// or the end of the list.
pub proof fn law_rows_between_two_positions(rows: Seq<RowView>, start: int, end: int, i: int)
    requires
        0 <= start,
    ensures
        start <= i < end && i < rows.len() ==> i - start < rows_between(rows, start, end).len()
            && rows_between(rows, start, end)[i - start] == rows[i],
        start < end && start < rows.len() ==> start + rows_between(rows, start, end).len() <= end
            && start + rows_between(rows, start, end).len() <= rows.len(),
        start >= end || start >= rows.len() ==> rows_between(rows, start, end).len() == 0,
{
}

/// The positions of a list are the numbers below its length, in order.
pub proof fn law_positions_count_up(len: nat, i: int)
    requires
        0 <= i < len <= usize::MAX,
    ensures
        all_positions(len).len() == len,
        all_positions(len)[i] == i,
{
}

} // verus!

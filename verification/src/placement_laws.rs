//! Where the rows of a list sit: each under the directory that its path names.

use vstd::prelude::*;

use crate::outline::{arranged, lemma_arranged_ascending, lemma_place, outline, place, tree_of};
use crate::outline_laws::{
    contents_of, each, lemma_each_branch, lemma_each_concat, lemma_each_files,
    lemma_rejoined_concat, lemma_relative_components, lemma_tree_of_addressable, relative_paths,
    rooted,
};
use crate::text::{
    components, joined, law_components_are_slash_free, law_components_rejoin,
    lemma_components_nonempty, lemma_lex_less_irreflexive, rejoined, slash_free,
};
use crate::tree::{
    branch_rows, empty_tree, file_rows, forest_rows, lemma_slot, row_depth, rows_of, slot, texts,
    tree_insert, Branch, RowView, Tree,
};

verus! {

/// Whether the file at `path` lies in the directory `directory` itself, not further down. The
/// empty directory is the root.
pub open spec fn directly_in(path: Seq<char>, directory: Seq<char>) -> bool {
    if directory.len() == 0 {
        slash_free(path)
    } else {
        &&& directory.len() < path.len()
        &&& path.take(directory.len() as int) == directory
        &&& path[directory.len() as int] == '/'
        &&& slash_free(path.skip(directory.len() as int + 1))
    }
}

/// Whether the rows at `depth` are those of the directory `directory`: files that lie in it
/// themselves, and directories whose label is what their path adds to its own.
pub open spec fn level_of(
    rows: Seq<RowView>,
    depth: int,
    directory: Seq<char>,
    paths: Seq<Seq<char>>,
) -> bool {
    forall|i: int|
        0 <= i < rows.len() && row_depth(#[trigger] rows[i]) == depth ==> {
            &&& rows[i] is File ==> directly_in(paths[rows[i]->entry as int], directory)
            &&& rows[i] is Directory ==> rows[i]->path == joined(directory, rows[i]->label)
        }
}

spec fn placed(paths: Seq<Seq<char>>) -> spec_fn(RowView, Seq<RowView>) -> bool {
    |row: RowView, inside: Seq<RowView>|
        row is Directory ==> level_of(inside, row_depth(row) + 1, row->path, paths)
}

/// Whether every file of a tree whose own path is `prefix` lies where the tree has it.
spec fn filed(tree: Tree, prefix: Seq<char>, paths: Seq<Seq<char>>) -> bool
    decreases tree,
{
    &&& forall|i: int|
        0 <= i < tree.files.len() ==> directly_in(
            paths[#[trigger] tree.files[i] as int],
            prefix,
        )
    &&& forall|i: int|
        0 <= i < tree.dirs.len() ==> filed(
            (#[trigger] tree.dirs[i]).tree,
            joined(prefix, tree.dirs[i].name),
            paths,
        )
}

proof fn lemma_joined_twice(prefix: Seq<char>, a: Seq<char>, b: Seq<char>)
    requires
        joined(prefix, a).len() > 0,
    ensures
        joined(joined(prefix, a), b) == joined(prefix, a + seq!['/'] + b),
{
    assert(joined(joined(prefix, a), b) =~= joined(prefix, a + seq!['/'] + b));
}

proof fn lemma_insert_filed(
    tree: Tree,
    prefix: Seq<char>,
    names: Seq<Seq<char>>,
    entry: usize,
    paths: Seq<Seq<char>>,
)
    requires
        filed(tree, prefix, paths),
        names.len() > 0,
        forall|i: int| 0 <= i < names.len() ==> slash_free(#[trigger] names[i]),
        names.len() > 1 ==> joined(prefix, names[0]).len() > 0,
        paths[entry as int] == joined(prefix, rejoined(names)),
    ensures
        filed(tree_insert(tree, names, entry), prefix, paths),
    decreases names.len(),
{
    let after = tree_insert(tree, names, entry);
    let path = paths[entry as int];
    if names.len() == 1 {
        assert(rejoined(names) == names[0]);
        assert(directly_in(path, prefix)) by {
            if prefix.len() > 0 {
                assert(path.take(prefix.len() as int) =~= prefix);
                assert(path.skip(prefix.len() as int + 1) =~= names[0]);
            }
        }
        assert forall|i: int| 0 <= i < after.files.len() implies directly_in(
            paths[#[trigger] after.files[i] as int],
            prefix,
        ) by {
            if i < tree.files.len() {
                assert(after.files[i] == tree.files[i]);
            }
        }
        assert forall|i: int| 0 <= i < after.dirs.len() implies filed(
            (#[trigger] after.dirs[i]).tree,
            joined(prefix, after.dirs[i].name),
            paths,
        ) by {
            assert(after.dirs[i] == tree.dirs[i]);
        }
    } else {
        let name = names[0];
        let rest = names.drop_first();
        let inner = joined(prefix, name);
        let at = slot(tree.dirs, name);
        lemma_slot(tree.dirs, name);
        assert forall|i: int| 0 <= i < rest.len() implies slash_free(#[trigger] rest[i]) by {
            assert(rest[i] == names[i + 1]);
        }
        assert(names =~= seq![name] + rest);
        lemma_rejoined_concat(seq![name], rest);
        assert(rejoined(seq![name]) == name);
        lemma_joined_twice(prefix, name, rejoined(rest));
        let replaced = at < tree.dirs.len() && tree.dirs[at].name == name;
        if replaced {
            lemma_insert_filed(tree.dirs[at].tree, inner, rest, entry, paths);
        } else {
            assert(filed(empty_tree(), inner, paths));
            lemma_insert_filed(empty_tree(), inner, rest, entry, paths);
        }
        assert forall|i: int| 0 <= i < after.files.len() implies directly_in(
            paths[#[trigger] after.files[i] as int],
            prefix,
        ) by {
            assert(after.files[i] == tree.files[i]);
        }
        assert forall|i: int| 0 <= i < after.dirs.len() implies filed(
            (#[trigger] after.dirs[i]).tree,
            joined(prefix, after.dirs[i].name),
            paths,
        ) by {
            if i != at {
                let origin = if replaced || i < at { i } else { i - 1 };
                assert(after.dirs[i] == tree.dirs[origin]);
            }
        }
    }
}

proof fn lemma_tree_of_filed(paths: Seq<Seq<char>>, order: Seq<usize>)
    requires
        relative_paths(paths),
        forall|i: int| 0 <= i < order.len() ==> #[trigger] order[i] < paths.len(),
    ensures
        filed(tree_of(paths, order), Seq::empty(), paths),
    decreases order.len(),
{
    if order.len() > 0 {
        let front = order.drop_last();
        let entry = order.last();
        let path = paths[entry as int];
        assert(order[order.len() - 1] < paths.len());
        assert forall|i: int| 0 <= i < front.len() implies #[trigger] front[i] < paths.len() by {
            assert(front[i] == order[i]);
        }
        lemma_tree_of_filed(paths, front);
        law_components_are_slash_free(path);
        law_components_rejoin(path);
        lemma_components_nonempty(path);
        if components(path).len() > 1 {
            lemma_relative_components(path);
        }
        lemma_insert_filed(tree_of(paths, front), Seq::empty(), components(path), entry, paths);
    } else {
        assert(filed(empty_tree(), Seq::empty(), paths));
    }
}

proof fn lemma_rows_placed(
    tree: Tree,
    prefix: Seq<char>,
    depth: int,
    compress: bool,
    collapsed: Set<Seq<char>>,
    paths: Seq<Seq<char>>,
)
    requires
        filed(tree, prefix, paths),
        rooted(tree.dirs, prefix),
    ensures
        each(rows_of(tree, prefix, depth, compress, collapsed), placed(paths)),
        level_of(rows_of(tree, prefix, depth, compress, collapsed), depth, prefix, paths),
    decreases tree, 1int,
{
    let dirs = forest_rows(tree.dirs, prefix, depth, compress, collapsed);
    let files = file_rows(tree.files, depth);
    lemma_forest_placed(tree.dirs, prefix, depth, compress, collapsed, paths);
    crate::tree_laws::lemma_forest_at_least(tree.dirs, prefix, depth, compress, collapsed);
    lemma_each_files(tree.files, depth, placed(paths));
    lemma_each_concat(dirs, files, depth, placed(paths));
    let rows = dirs + files;
    assert forall|i: int| 0 <= i < rows.len() && row_depth(#[trigger] rows[i]) == depth implies {
        &&& rows[i] is File ==> directly_in(paths[rows[i]->entry as int], prefix)
        &&& rows[i] is Directory ==> rows[i]->path == joined(prefix, rows[i]->label)
    } by {
        if i < dirs.len() {
            assert(rows[i] == dirs[i]);
        } else {
            assert(directly_in(paths[tree.files[i - dirs.len()] as int], prefix));
        }
    }
}

proof fn lemma_forest_placed(
    dirs: Seq<Branch>,
    prefix: Seq<char>,
    depth: int,
    compress: bool,
    collapsed: Set<Seq<char>>,
    paths: Seq<Seq<char>>,
)
    requires
        forall|i: int|
            0 <= i < dirs.len() ==> filed(
                (#[trigger] dirs[i]).tree,
                joined(prefix, dirs[i].name),
                paths,
            ),
        rooted(dirs, prefix),
    ensures
        each(forest_rows(dirs, prefix, depth, compress, collapsed), placed(paths)),
        level_of(forest_rows(dirs, prefix, depth, compress, collapsed), depth, prefix, paths),
    decreases dirs, 0int,
{
    if dirs.len() > 0 {
        let before = dirs.drop_last();
        let last = dirs.last();
        let path = joined(prefix, last.name);
        let front = forest_rows(before, prefix, depth, compress, collapsed);
        let back = branch_rows(path, last.name, last.tree, depth, compress, collapsed);
        assert(last == dirs[dirs.len() - 1]);
        assert forall|i: int| 0 <= i < before.len() implies filed(
            (#[trigger] before[i]).tree,
            joined(prefix, before[i].name),
            paths,
        ) by {
            assert(before[i] == dirs[i]);
        }
        assert(rooted(before, prefix)) by {
            assert forall|i: int| 0 <= i < before.len() implies joined(
                prefix,
                (#[trigger] before[i]).name,
            ).len() > 0 by {
                assert(before[i] == dirs[i]);
            }
        }
        lemma_forest_placed(before, prefix, depth, compress, collapsed, paths);
        lemma_branch_placed(
            prefix,
            path,
            last.name,
            last.tree,
            depth,
            compress,
            collapsed,
            paths,
        );
        crate::tree_laws::lemma_forest_at_least(before, prefix, depth, compress, collapsed);
        crate::tree_laws::lemma_branch_shape(
            path,
            last.name,
            last.tree,
            depth,
            compress,
            collapsed,
        );
        lemma_each_concat(front, back, depth, placed(paths));
        let rows = front + back;
        assert forall|i: int|
            0 <= i < rows.len() && row_depth(#[trigger] rows[i]) == depth implies {
            &&& rows[i] is File ==> directly_in(paths[rows[i]->entry as int], prefix)
            &&& rows[i] is Directory ==> rows[i]->path == joined(prefix, rows[i]->label)
        } by {
            if i < front.len() {
                assert(rows[i] == front[i]);
            } else if i > front.len() {
                assert(rows[i] == back.drop_first()[i - front.len() - 1]);
            } else {
                assert(rows[i] == back[0]);
            }
        }
    }
}

proof fn lemma_branch_placed(
    prefix: Seq<char>,
    path: Seq<char>,
    label: Seq<char>,
    tree: Tree,
    depth: int,
    compress: bool,
    collapsed: Set<Seq<char>>,
    paths: Seq<Seq<char>>,
)
    requires
        filed(tree, path, paths),
        path.len() > 0,
        path == joined(prefix, label),
    ensures
        ({
            let rows = branch_rows(path, label, tree, depth, compress, collapsed);
            &&& each(rows, placed(paths))
            &&& rows.len() > 0
            &&& rows[0] is Directory
            &&& rows[0]->path == joined(prefix, rows[0]->label)
        }),
    decreases tree, 2int,
{
    if compress && tree.files.len() == 0 && tree.dirs.len() == 1 {
        let only = tree.dirs[0];
        assert(filed(tree.dirs[0].tree, joined(path, tree.dirs[0].name), paths));
        lemma_joined_twice(prefix, label, only.name);
        lemma_branch_placed(
            prefix,
            joined(path, only.name),
            label + seq!['/'] + only.name,
            only.tree,
            depth,
            compress,
            collapsed,
            paths,
        );
    } else {
        let row = RowView::Directory { path, label, depth, collapsed: collapsed.contains(path) };
        let inside = if collapsed.contains(path) {
            Seq::empty()
        } else {
            rows_of(tree, path, depth + 1, compress, collapsed)
        };
        assert(branch_rows(path, label, tree, depth, compress, collapsed) =~= seq![row] + inside);
        if !collapsed.contains(path) {
            lemma_rows_placed(tree, path, depth + 1, compress, collapsed, paths);
            crate::tree_laws::lemma_rows_at_least(tree, path, depth + 1, compress, collapsed);
        }
        lemma_each_branch(row, inside, placed(paths));
    }
}

/// Every row sits under the directory that its path names, folded or not and whatever is
/// collapsed: at the top a file has no directory and a directory is labelled with its whole path;
/// one level below a directory's row, a file lies in that very directory, and a directory is
/// labelled with what its path adds.
pub proof fn law_rows_sit_where_their_paths_say(
    paths: Seq<Seq<char>>,
    order: Seq<usize>,
    compress: bool,
    collapsed: Set<Seq<char>>,
)
    requires
        relative_paths(paths),
    ensures
        ({
            let rows = outline(paths, order, compress, collapsed);
            &&& level_of(rows, 0, Seq::empty(), paths)
            &&& forall|i: int|
                0 <= i < rows.len() && (#[trigger] rows[i]) is Directory ==> level_of(
                    contents_of(rows, i),
                    row_depth(rows[i]) + 1,
                    rows[i]->path,
                    paths,
                )
        }),
{
    let rows = outline(paths, order, compress, collapsed);
    let sorted = arranged(paths, order);
    lemma_arranged_ascending(paths, order);
    lemma_tree_of_addressable(paths, sorted);
    lemma_tree_of_filed(paths, sorted);
    lemma_rows_placed(tree_of(paths, sorted), Seq::empty(), 0, compress, collapsed, paths);
    assert forall|i: int| 0 <= i < rows.len() && (#[trigger] rows[i]) is Directory implies level_of(
        contents_of(rows, i),
        row_depth(rows[i]) + 1,
        rows[i]->path,
        paths,
    ) by {
        assert(placed(paths)(rows[i], contents_of(rows, i)));
    }
}

/// The depth of a row is the one that it carries.
pub proof fn law_depth_of_a_row(row: RowView)
    ensures
        row is File ==> row_depth(row) == row->File_depth,
        row is Directory ==> row_depth(row) == row->Directory_depth,
{
}

/// Names are taken as they are, one for each.
pub proof fn law_names_as_values(strings: Seq<&str>, i: int)
    requires
        0 <= i < strings.len(),
    ensures
        texts(strings).len() == strings.len(),
        texts(strings)[i] == strings[i]@,
{
}

/// Files of the same path keep the order in which they were listed.
pub proof fn law_sorting_is_stable(paths: Seq<Seq<char>>, order: Seq<usize>, path: Seq<char>)
    ensures
        arranged(paths, order).filter(|e: usize| paths[e as int] == path) == order.filter(
            |e: usize| e < paths.len() && paths[e as int] == path,
        ),
    decreases order.len(),
{
    let same = |e: usize| paths[e as int] == path;
    let both = |e: usize| e < paths.len() && paths[e as int] == path;
    reveal(Seq::filter);
    if order.len() > 0 {
        let front = order.drop_last();
        let next = order.last();
        let before = arranged(paths, front);
        law_sorting_is_stable(paths, front, path);
        if next < paths.len() {
            let at = place(paths, before, paths[next as int]);
            lemma_arranged_ascending(paths, front);
            lemma_place(paths, before, paths[next as int]);
            let low = before.take(at);
            let high = before.skip(at);
            assert(before =~= low + high);
            assert(before.insert(at, next) =~= low.push(next) + high);
            Seq::filter_distributes_over_add(low, high, same);
            Seq::filter_distributes_over_add(low.push(next), high, same);
            assert(low.push(next).drop_last() =~= low);
            if same(next) {
                assert forall|i: int| 0 <= i < high.len() implies !same(#[trigger] high[i]) by {
                    assert(high[i] == before[at + i]);
                    lemma_lex_less_irreflexive(path);
                }
                lemma_none_kept(high, same);
                assert(low.filter(same) =~= before.filter(same));
                assert(arranged(paths, order).filter(same) =~= before.filter(same).push(next));
            } else {
                assert(arranged(paths, order).filter(same) =~= before.filter(same));
            }
        }
    } else {
        assert(arranged(paths, order).filter(same) =~= order.filter(both));
    }
}

proof fn lemma_none_kept(s: Seq<usize>, keep: spec_fn(usize) -> bool)
    requires
        forall|i: int| 0 <= i < s.len() ==> !keep(#[trigger] s[i]),
    ensures
        s.filter(keep).len() == 0,
    decreases s.len(),
{
    reveal(Seq::filter);
    if s.len() > 0 {
        let front = s.drop_last();
        assert forall|i: int| 0 <= i < front.len() implies !keep(#[trigger] front[i]) by {
            assert(front[i] == s[i]);
        }
        lemma_none_kept(front, keep);
        assert(!keep(s[s.len() - 1]));
    }
}

} // verus!

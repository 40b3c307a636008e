//! What holds of the rows of every list of changed files.

use vstd::multiset::Multiset;
use vstd::prelude::*;

use crate::changes::lies_under;
use crate::outline::{arranged, lemma_arranged_ascending, outline, place, tree_of};
use crate::text::{
    components, joined, law_components_are_slash_free, law_components_rejoin,
    law_components_split_at_slash, lemma_components_nonempty, lemma_components_single, lex_less,
    rejoined, slash_free,
};
use crate::tree::{
    branch_rows, empty_tree, file_rows, forest_rows, lemma_insert_ordered, lemma_slot, ordered,
    row_depth, rows_of, slot, tree_insert, Branch, RowView, Tree,
};
use crate::tree_laws::{
    at_least, held, law_expanded_tree_shows_every_file, law_insert_adds_the_file, shown_files,
};

verus! {

/// `rows` up to the first one that is not deeper than `depth`.
pub open spec fn take_deeper(rows: Seq<RowView>, depth: int) -> Seq<RowView>
    decreases rows.len(),
{
    if rows.len() == 0 || row_depth(rows[0]) <= depth {
        Seq::empty()
    } else {
        seq![rows[0]] + take_deeper(rows.drop_first(), depth)
    }
}

/// What the row at `i` shows below itself: the deeper rows that follow it.
pub open spec fn contents_of(rows: Seq<RowView>, i: int) -> Seq<RowView> {
    take_deeper(rows.skip(i + 1), row_depth(rows[i]))
}

proof fn lemma_take_concat(a: Seq<RowView>, b: Seq<RowView>, depth: int)
    requires
        b.len() == 0 || row_depth(b[0]) <= depth,
    ensures
        take_deeper(a + b, depth) == take_deeper(a, depth),
    decreases a.len(),
{
    if a.len() == 0 {
        assert(a + b =~= b);
    } else if row_depth(a[0]) > depth {
        assert((a + b).drop_first() =~= a.drop_first() + b);
        lemma_take_concat(a.drop_first(), b, depth);
    }
}

proof fn lemma_take_all(rows: Seq<RowView>, depth: int)
    requires
        at_least(rows, depth + 1),
    ensures
        take_deeper(rows, depth) == rows,
    decreases rows.len(),
{
    if rows.len() > 0 {
        let rest = rows.drop_first();
        assert forall|i: int| 0 <= i < rest.len() implies depth + 1 <= row_depth(
            #[trigger] rest[i],
        ) by {
            assert(rest[i] == rows[i + 1]);
        }
        lemma_take_all(rest, depth);
        assert(seq![rows[0]] + rest =~= rows);
    }
}

/// Whether `property` holds of every row together with what it shows below itself.
pub open spec fn each(
    rows: Seq<RowView>,
    property: spec_fn(RowView, Seq<RowView>) -> bool,
) -> bool {
    forall|i: int| 0 <= i < rows.len() ==> property(#[trigger] rows[i], contents_of(rows, i))
}

pub(crate) proof fn lemma_each_concat(
    a: Seq<RowView>,
    b: Seq<RowView>,
    depth: int,
    property: spec_fn(RowView, Seq<RowView>) -> bool,
)
    requires
        each(a, property),
        each(b, property),
        at_least(a, depth),
        b.len() == 0 || row_depth(b[0]) <= depth,
    ensures
        each(a + b, property),
{
    let rows = a + b;
    assert forall|i: int| 0 <= i < rows.len() implies property(
        #[trigger] rows[i],
        contents_of(rows, i),
    ) by {
        if i < a.len() {
            assert(rows.skip(i + 1) =~= a.skip(i + 1) + b);
            assert(rows[i] == a[i]);
            lemma_take_concat(a.skip(i + 1), b, row_depth(a[i]));
        } else {
            assert(rows.skip(i + 1) =~= b.skip(i - a.len() + 1));
            assert(rows[i] == b[i - a.len()]);
        }
    }
}

pub(crate) proof fn lemma_each_branch(
    row: RowView,
    inside: Seq<RowView>,
    property: spec_fn(RowView, Seq<RowView>) -> bool,
)
    requires
        each(inside, property),
        at_least(inside, row_depth(row) + 1),
        property(row, inside),
    ensures
        each(seq![row] + inside, property),
{
    let rows = seq![row] + inside;
    assert forall|i: int| 0 <= i < rows.len() implies property(
        #[trigger] rows[i],
        contents_of(rows, i),
    ) by {
        if i == 0 {
            assert(rows.skip(1) =~= inside);
            lemma_take_all(inside, row_depth(row));
        } else {
            assert(rows.skip(i + 1) =~= inside.skip(i));
            assert(rows[i] == inside[i - 1]);
        }
    }
}

pub(crate) proof fn lemma_each_files(
    files: Seq<usize>,
    depth: int,
    property: spec_fn(RowView, Seq<RowView>) -> bool,
)
    requires
        forall|row: RowView, inside: Seq<RowView>| row is File ==> #[trigger] property(row, inside),
    ensures
        each(file_rows(files, depth), property),
{
}

/// Whether `contents` are those of a directory that holds a single subdirectory and nothing else.
pub open spec fn lone_subdirectory(contents: Seq<RowView>) -> bool {
    &&& contents.len() > 0
    &&& contents[0] is Directory
    &&& forall|k: int|
        0 < k < contents.len() ==> row_depth(contents[0]) < row_depth(#[trigger] contents[k])
}

spec fn folds() -> spec_fn(RowView, Seq<RowView>) -> bool {
    |row: RowView, inside: Seq<RowView>|
        row is Directory && !row->collapsed ==> !lone_subdirectory(inside)
}

/// When folding, no expanded directory is left with a single subdirectory and nothing else: such
/// chains share one row.
pub proof fn law_chains_share_a_row(
    tree: Tree,
    prefix: Seq<char>,
    depth: int,
    collapsed: Set<Seq<char>>,
    i: int,
)
    requires
        ({
            let rows = rows_of(tree, prefix, depth, true, collapsed);
            &&& 0 <= i < rows.len()
            &&& rows[i] is Directory
            &&& !rows[i]->collapsed
        }),
    ensures
        !lone_subdirectory(contents_of(rows_of(tree, prefix, depth, true, collapsed), i)),
{
    lemma_rows_fold(tree, prefix, depth, collapsed);
    assert(folds()(
        rows_of(tree, prefix, depth, true, collapsed)[i],
        contents_of(rows_of(tree, prefix, depth, true, collapsed), i),
    ));
}

proof fn lemma_rows_fold(tree: Tree, prefix: Seq<char>, depth: int, collapsed: Set<Seq<char>>)
    ensures
        each(rows_of(tree, prefix, depth, true, collapsed), folds()),
    decreases tree, 1int,
{
    lemma_forest_fold(tree.dirs, prefix, depth, collapsed);
    crate::tree_laws::lemma_forest_at_least(tree.dirs, prefix, depth, true, collapsed);
    lemma_each_files(tree.files, depth, folds());
    lemma_each_concat(
        forest_rows(tree.dirs, prefix, depth, true, collapsed),
        file_rows(tree.files, depth),
        depth,
        folds(),
    );
}

proof fn lemma_forest_fold(
    dirs: Seq<Branch>,
    prefix: Seq<char>,
    depth: int,
    collapsed: Set<Seq<char>>,
)
    ensures
        each(forest_rows(dirs, prefix, depth, true, collapsed), folds()),
    decreases dirs, 0int,
{
    if dirs.len() > 0 {
        let last = dirs.last();
        let path = joined(prefix, last.name);
        lemma_forest_fold(dirs.drop_last(), prefix, depth, collapsed);
        lemma_branch_fold(path, last.name, last.tree, depth, collapsed);
        crate::tree_laws::lemma_forest_at_least(dirs.drop_last(), prefix, depth, true, collapsed);
        crate::tree_laws::lemma_branch_shape(
            path,
            last.name,
            last.tree,
            depth,
            true,
            collapsed,
        );
        lemma_each_concat(
            forest_rows(dirs.drop_last(), prefix, depth, true, collapsed),
            branch_rows(path, last.name, last.tree, depth, true, collapsed),
            depth,
            folds(),
        );
    }
}

proof fn lemma_branch_fold(
    path: Seq<char>,
    label: Seq<char>,
    tree: Tree,
    depth: int,
    collapsed: Set<Seq<char>>,
)
    ensures
        each(branch_rows(path, label, tree, depth, true, collapsed), folds()),
    decreases tree, 2int,
{
    if tree.files.len() == 0 && tree.dirs.len() == 1 {
        let only = tree.dirs[0];
        lemma_branch_fold(
            joined(path, only.name),
            label + seq!['/'] + only.name,
            only.tree,
            depth,
            collapsed,
        );
    } else {
        let row = RowView::Directory { path, label, depth, collapsed: collapsed.contains(path) };
        let inside = if collapsed.contains(path) {
            Seq::empty()
        } else {
            rows_of(tree, path, depth + 1, true, collapsed)
        };
        assert(branch_rows(path, label, tree, depth, true, collapsed) =~= seq![row] + inside);
        if !collapsed.contains(path) {
            lemma_rows_fold(tree, path, depth + 1, collapsed);
            crate::tree_laws::lemma_rows_at_least(tree, path, depth + 1, true, collapsed);
            lemma_several_children(tree, path, depth + 1, collapsed);
        }
        lemma_each_branch(row, inside, folds());
    }
}

/// A directory with a file, with several subdirectories, or with neither has no lone
/// subdirectory.
proof fn lemma_several_children(
    tree: Tree,
    path: Seq<char>,
    depth: int,
    collapsed: Set<Seq<char>>,
)
    requires
        tree.files.len() > 0 || tree.dirs.len() != 1,
    ensures
        !lone_subdirectory(rows_of(tree, path, depth, true, collapsed)),
{
    let rows = rows_of(tree, path, depth, true, collapsed);
    let dirs = forest_rows(tree.dirs, path, depth, true, collapsed);
    crate::tree_laws::law_levels_nest(tree, path, depth, true, collapsed);
    crate::tree_laws::lemma_forest_at_least(tree.dirs, path, depth, true, collapsed);
    if tree.files.len() > 0 {
        let last = rows.len() - 1;
        assert(rows[last] is File && row_depth(rows[last]) == depth);
        if last > 0 {
            assert(!(row_depth(rows[0]) < row_depth(rows[last])));
        }
    } else if tree.dirs.len() > 1 {
        let last = tree.dirs.last();
        let front = forest_rows(tree.dirs.drop_last(), path, depth, true, collapsed);
        crate::tree_laws::lemma_forest_at_least(
            tree.dirs.drop_last(),
            path,
            depth,
            true,
            collapsed,
        );
        crate::tree_laws::lemma_branch_shape(
            joined(path, last.name),
            last.name,
            last.tree,
            depth,
            true,
            collapsed,
        );
        let k = front.len() as int;
        assert(row_depth(rows[k]) == depth);
        assert(!(row_depth(rows[0]) < row_depth(rows[k])));
    } else {
        assert(rows =~= Seq::<RowView>::empty());
    }
}

/// The subdirectory `name` of `tree`, empty where there is none.
pub open spec fn child(tree: Tree, name: Seq<char>) -> Tree {
    let at = slot(tree.dirs, name);
    if at < tree.dirs.len() && tree.dirs[at].name == name {
        tree.dirs[at].tree
    } else {
        empty_tree()
    }
}

/// The directory that `names` lead to from `tree`, empty where there is none.
pub open spec fn descend(tree: Tree, names: Seq<Seq<char>>) -> Tree
    decreases names.len(),
{
    if names.len() == 0 {
        tree
    } else {
        descend(child(tree, names[0]), names.drop_first())
    }
}

/// Whether a file with these path components lies somewhere below the directory `names`.
pub open spec fn below(components: Seq<Seq<char>>, names: Seq<Seq<char>>) -> bool {
    names.len() < components.len() && names.is_prefix_of(components)
}

proof fn lemma_child_found(tree: Tree, at: int)
    requires
        ordered(tree),
        0 <= at < tree.dirs.len(),
    ensures
        child(tree, tree.dirs[at].name) == tree.dirs[at].tree,
{
    let name = tree.dirs[at].name;
    let found = slot(tree.dirs, name);
    lemma_slot(tree.dirs, name);
    crate::text::lemma_lex_less_irreflexive(name);
    if found < at {
        assert(lex_less(tree.dirs[found].name, tree.dirs[at].name));
    } else if at < found {
        assert(lex_less(tree.dirs[at].name, name));
    }
}

proof fn lemma_child_ordered(tree: Tree, name: Seq<char>)
    requires
        ordered(tree),
    ensures
        ordered(child(tree, name)),
{
    lemma_slot(tree.dirs, name);
    let at = slot(tree.dirs, name);
    if at < tree.dirs.len() {
        assert(ordered(tree.dirs[at].tree));
    }
    assert(ordered(empty_tree()));
}

/// Adding a file reaches into the subdirectory that its path starts with, and into no other.
proof fn lemma_child_insert(
    tree: Tree,
    components: Seq<Seq<char>>,
    entry: usize,
    name: Seq<char>,
)
    requires
        ordered(tree),
        components.len() > 0,
    ensures
        child(tree_insert(tree, components, entry), name) == if components.len() > 1
            && components[0] == name {
            tree_insert(child(tree, name), components.drop_first(), entry)
        } else {
            child(tree, name)
        },
{
    let after = tree_insert(tree, components, entry);
    lemma_insert_ordered(tree, components, entry);
    if components.len() > 1 {
        let first = components[0];
        let at = slot(tree.dirs, first);
        lemma_slot(tree.dirs, first);
        assert(after.dirs[at].name == first);
        lemma_child_found(after, at);
        if first != name {
            let old_at = slot(tree.dirs, name);
            let new_at = slot(after.dirs, name);
            lemma_slot(tree.dirs, name);
            lemma_slot(after.dirs, name);
            let replaced = at < tree.dirs.len() && tree.dirs[at].name == first;
            if old_at < tree.dirs.len() && tree.dirs[old_at].name == name {
                let moved = if replaced || old_at < at { old_at } else { old_at + 1 };
                assert(after.dirs[moved] == tree.dirs[old_at]);
                lemma_child_found(after, moved);
            } else if new_at < after.dirs.len() && after.dirs[new_at].name == name {
                let origin = if replaced || new_at < at { new_at } else { new_at - 1 };
                assert(new_at != at);
                assert(after.dirs[new_at] == tree.dirs[origin]);
                lemma_child_found(tree, origin);
            }
        }
    }
}

/// Adding a file reaches into the directories on its path, and into no other.
proof fn lemma_descend_insert(
    tree: Tree,
    components: Seq<Seq<char>>,
    entry: usize,
    names: Seq<Seq<char>>,
)
    requires
        ordered(tree),
        components.len() > 0,
    ensures
        descend(tree_insert(tree, components, entry), names) == if below(components, names) {
            tree_insert(descend(tree, names), components.skip(names.len() as int), entry)
        } else {
            descend(tree, names)
        },
    decreases names.len(),
{
    if names.len() == 0 {
        assert(components.skip(0) =~= components);
        assert(names.is_prefix_of(components)) by {
            assert(names =~= components.subrange(0, 0));
        }
    } else {
        let name = names[0];
        let rest = names.drop_first();
        lemma_child_insert(tree, components, entry, name);
        lemma_child_ordered(tree, name);
        if components.len() > 1 && components[0] == name {
            let inner = components.drop_first();
            lemma_descend_insert(child(tree, name), inner, entry, rest);
            assert(names.len() <= components.len() ==> inner.skip(rest.len() as int)
                =~= components.skip(names.len() as int));
            assert(below(inner, rest) == below(components, names)) by {
                if names.len() <= components.len() {
                    let front = components.subrange(0, names.len() as int);
                    let inner_front = inner.subrange(0, rest.len() as int);
                    assert(front.drop_first() =~= inner_front);
                    if rest == inner_front {
                        assert(names =~= seq![name] + rest);
                        assert(front =~= seq![name] + inner_front);
                    }
                }
            }
        } else {
            assert(!below(components, names)) by {
                if below(components, names) {
                    assert(names[0] == components.subrange(0, names.len() as int)[0]);
                }
            }
        }
    }
}

proof fn lemma_descend_empty(names: Seq<Seq<char>>)
    ensures
        descend(empty_tree(), names) == empty_tree(),
    decreases names.len(),
{
    if names.len() > 0 {
        lemma_descend_empty(names.drop_first());
    }
}

proof fn lemma_descend_push(tree: Tree, names: Seq<Seq<char>>, name: Seq<char>)
    ensures
        descend(tree, names.push(name)) == child(descend(tree, names), name),
    decreases names.len(),
{
    let longer = names.push(name);
    if names.len() == 0 {
        assert(longer.drop_first() =~= names);
        assert(descend(child(tree, name), longer.drop_first()) == child(tree, name));
    } else {
        assert(longer.drop_first() =~= names.drop_first().push(name));
        lemma_descend_push(child(tree, names[0]), names.drop_first(), name);
    }
}

pub(crate) proof fn lemma_tree_of_ordered(paths: Seq<Seq<char>>, order: Seq<usize>)
    ensures
        ordered(tree_of(paths, order)),
    decreases order.len(),
{
    if order.len() > 0 {
        lemma_tree_of_ordered(paths, order.drop_last());
        lemma_insert_ordered(
            tree_of(paths, order.drop_last()),
            components(paths[order.last() as int]),
            order.last(),
        );
    } else {
        assert(ordered(empty_tree()));
    }
}

/// A directory of the tree holds exactly the files whose paths lead through it.
proof fn lemma_directory_holds(
    paths: Seq<Seq<char>>,
    order: Seq<usize>,
    names: Seq<Seq<char>>,
)
    ensures
        held(descend(tree_of(paths, order), names)) == order.filter(
            |e: usize| below(components(paths[e as int]), names),
        ).to_multiset(),
    decreases order.len(),
{
    broadcast use vstd::seq_lib::group_to_multiset_ensures;

    let inside = |e: usize| below(components(paths[e as int]), names);
    reveal(Seq::filter);
    if order.len() == 0 {
        lemma_descend_empty(names);
        assert(held(empty_tree()) =~= Multiset::empty());
        assert(order.filter(inside).to_multiset() =~= Multiset::empty());
    } else {
        let front = order.drop_last();
        let entry = order.last();
        let pieces = components(paths[entry as int]);
        let tree = tree_of(paths, front);
        lemma_directory_holds(paths, front, names);
        lemma_tree_of_ordered(paths, front);
        lemma_components_nonempty(paths[entry as int]);
        lemma_descend_insert(tree, pieces, entry, names);
        if below(pieces, names) {
            law_insert_adds_the_file(
                descend(tree, names),
                pieces.skip(names.len() as int),
                entry,
            );
            assert(order.filter(inside) =~= front.filter(inside).push(entry));
        } else {
            assert(order.filter(inside) =~= front.filter(inside));
        }
    }
}

/// Putting a file in its place adds it to whatever selection it belongs to.
proof fn lemma_filter_insert(s: Seq<usize>, at: int, x: usize, keep: spec_fn(usize) -> bool)
    requires
        0 <= at <= s.len(),
    ensures
        s.insert(at, x).filter(keep).to_multiset() == if keep(x) {
            s.filter(keep).to_multiset().insert(x)
        } else {
            s.filter(keep).to_multiset()
        },
{
    broadcast use vstd::seq_lib::group_to_multiset_ensures;

    let front = s.take(at);
    let back = s.skip(at);
    assert(s =~= front + back);
    assert(s.insert(at, x) =~= front.push(x) + back);
    Seq::filter_distributes_over_add(front, back, keep);
    Seq::filter_distributes_over_add(front.push(x), back, keep);
    assert(front.push(x).filter(keep) == if keep(x) {
        front.filter(keep).push(x)
    } else {
        front.filter(keep)
    }) by {
        reveal(Seq::filter);
        assert(front.push(x).drop_last() =~= front);
    }
    vstd::seq_lib::lemma_multiset_commutative(front.filter(keep), back.filter(keep));
    vstd::seq_lib::lemma_multiset_commutative(front.push(x).filter(keep), back.filter(keep));
    assert(s.insert(at, x).filter(keep).to_multiset() =~= if keep(x) {
        s.filter(keep).to_multiset().insert(x)
    } else {
        s.filter(keep).to_multiset()
    });
}

/// Sorting keeps every selection of files as it is.
pub proof fn law_sorting_keeps_the_files(
    paths: Seq<Seq<char>>,
    order: Seq<usize>,
    keep: spec_fn(usize) -> bool,
)
    ensures
        arranged(paths, order).filter(keep).to_multiset() == order.filter(
            |e: usize| e < paths.len() && keep(e),
        ).to_multiset(),
    decreases order.len(),
{
    broadcast use vstd::seq_lib::group_to_multiset_ensures;

    let both = |e: usize| e < paths.len() && keep(e);
    reveal(Seq::filter);
    if order.len() > 0 {
        let front = order.drop_last();
        let next = order.last();
        let before = arranged(paths, front);
        law_sorting_keeps_the_files(paths, front, keep);
        assert(order.filter(both) =~= if both(next) {
            front.filter(both).push(next)
        } else {
            front.filter(both)
        });
        if next < paths.len() {
            crate::outline::lemma_place(paths, before, paths[next as int]);
            lemma_filter_insert(before, place(paths, before, paths[next as int]), next, keep);
        }
    } else {
        assert(arranged(paths, order).filter(keep) =~= order.filter(both));
    }
}

/// Whether no directory of a tree has a slash in its name.
pub open spec fn plainly_named(tree: Tree) -> bool
    decreases tree,
{
    forall|i: int|
        0 <= i < tree.dirs.len() ==> slash_free((#[trigger] tree.dirs[i]).name) && plainly_named(
            tree.dirs[i].tree,
        )
}

/// Whether every one of the directories `dirs` under `prefix` has a path at all.
pub open spec fn rooted(dirs: Seq<Branch>, prefix: Seq<char>) -> bool {
    forall|i: int| 0 <= i < dirs.len() ==> joined(prefix, (#[trigger] dirs[i]).name).len() > 0
}

/// Whether no path starts at a root: paths in a repository are relative to it.
pub open spec fn relative_paths(paths: Seq<Seq<char>>) -> bool {
    forall|e: int| 0 <= e < paths.len() ==> (#[trigger] paths[e]).len() > 0 ==> paths[e][0] != '/'
}

/// Whether paths can tell the directories above a file apart: no name has a slash in it, and the
/// outermost directory under `prefix` has a path at all.
pub open spec fn addressable(components: Seq<Seq<char>>, prefix: Seq<char>) -> bool {
    &&& forall|i: int| 0 <= i < components.len() - 1 ==> slash_free(#[trigger] components[i])
    &&& components.len() > 1 ==> joined(prefix, components[0]).len() > 0
}

proof fn lemma_insert_plain(tree: Tree, names: Seq<Seq<char>>, entry: usize)
    requires
        plainly_named(tree),
        forall|i: int| 0 <= i < names.len() - 1 ==> slash_free(#[trigger] names[i]),
    ensures
        plainly_named(tree_insert(tree, names, entry)),
    decreases names.len(),
{
    let after = tree_insert(tree, names, entry);
    if names.len() > 1 {
        let name = names[0];
        let rest = names.drop_first();
        let at = slot(tree.dirs, name);
        lemma_slot(tree.dirs, name);
        assert forall|i: int| 0 <= i < rest.len() - 1 implies slash_free(#[trigger] rest[i]) by {
            assert(rest[i] == names[i + 1]);
        }
        let replaced = at < tree.dirs.len() && tree.dirs[at].name == name;
        if replaced {
            lemma_insert_plain(tree.dirs[at].tree, rest, entry);
        } else {
            assert(plainly_named(empty_tree()));
            lemma_insert_plain(empty_tree(), rest, entry);
        }
        assert forall|i: int| 0 <= i < after.dirs.len() implies slash_free(
            (#[trigger] after.dirs[i]).name,
        ) && plainly_named(after.dirs[i].tree) by {
            if i != at {
                let origin = if replaced || i < at { i } else { i - 1 };
                assert(after.dirs[i] == tree.dirs[origin]);
            }
        }
    } else if names.len() == 1 {
        assert forall|i: int| 0 <= i < after.dirs.len() implies slash_free(
            (#[trigger] after.dirs[i]).name,
        ) && plainly_named(after.dirs[i].tree) by {
            assert(after.dirs[i] == tree.dirs[i]);
        }
    }
}

/// A file below directories that paths can tell apart leaves a tree so.
pub(crate) proof fn lemma_insert_addressable(
    tree: Tree,
    names: Seq<Seq<char>>,
    entry: usize,
    prefix: Seq<char>,
)
    requires
        plainly_named(tree),
        rooted(tree.dirs, prefix),
        addressable(names, prefix),
    ensures
        plainly_named(tree_insert(tree, names, entry)),
        rooted(tree_insert(tree, names, entry).dirs, prefix),
{
    let after = tree_insert(tree, names, entry);
    lemma_insert_plain(tree, names, entry);
    if names.len() > 1 {
        let at = slot(tree.dirs, names[0]);
        lemma_slot(tree.dirs, names[0]);
        let replaced = at < tree.dirs.len() && tree.dirs[at].name == names[0];
        assert forall|i: int| 0 <= i < after.dirs.len() implies joined(
            prefix,
            (#[trigger] after.dirs[i]).name,
        ).len() > 0 by {
            if i != at {
                let origin = if replaced || i < at { i } else { i - 1 };
                assert(after.dirs[i] == tree.dirs[origin]);
            }
        }
    }
}

/// The first of several pieces of a path is empty only where the path starts with a slash.
pub(crate) proof fn lemma_relative_components(path: Seq<char>)
    requires
        components(path).len() > 1,
        path[0] != '/',
    ensures
        components(path)[0].len() > 0,
    decreases path.len(),
{
    if path.len() > 0 {
        let front = path.drop_last();
        lemma_components_nonempty(front);
        if components(front).len() > 1 {
            lemma_relative_components(front);
        } else {
            law_components_rejoin(front);
            assert(components(front)[0] == front);
        }
    }
}

proof fn lemma_tree_of_plain(paths: Seq<Seq<char>>, order: Seq<usize>)
    ensures
        plainly_named(tree_of(paths, order)),
    decreases order.len(),
{
    if order.len() > 0 {
        let entry = order.last();
        lemma_tree_of_plain(paths, order.drop_last());
        law_components_are_slash_free(paths[entry as int]);
        lemma_insert_plain(
            tree_of(paths, order.drop_last()),
            components(paths[entry as int]),
            entry,
        );
    } else {
        assert(plainly_named(empty_tree()));
    }
}

pub(crate) proof fn lemma_tree_of_addressable(paths: Seq<Seq<char>>, order: Seq<usize>)
    requires
        relative_paths(paths),
        forall|i: int| 0 <= i < order.len() ==> #[trigger] order[i] < paths.len(),
    ensures
        plainly_named(tree_of(paths, order)),
        rooted(tree_of(paths, order).dirs, Seq::empty()),
    decreases order.len(),
{
    if order.len() > 0 {
        let front = order.drop_last();
        let entry = order.last();
        let names = components(paths[entry as int]);
        assert(order[order.len() - 1] < paths.len());
        assert forall|i: int| 0 <= i < front.len() implies #[trigger] front[i] < paths.len() by {
            assert(front[i] == order[i]);
        }
        lemma_tree_of_addressable(paths, front);
        law_components_are_slash_free(paths[entry as int]);
        if names.len() > 1 {
            lemma_relative_components(paths[entry as int]);
        }
        lemma_insert_addressable(tree_of(paths, front), names, entry, Seq::empty());
    } else {
        assert(plainly_named(empty_tree()));
    }
}

/// Whether `names` lead to a directory: none has a slash in it, and the first is not empty.
pub open spec fn rooted_names(names: Seq<Seq<char>>) -> bool {
    &&& forall|i: int| 0 <= i < names.len() ==> slash_free(#[trigger] names[i])
    &&& names.len() > 0 ==> names[0].len() > 0
}

proof fn lemma_rejoined_nonempty(names: Seq<Seq<char>>)
    requires
        rooted_names(names),
        names.len() > 0,
    ensures
        rejoined(names).len() > 0,
{
}

/// Going one directory further down lengthens the path by that directory's name.
proof fn lemma_joined_is_rejoined(names: Seq<Seq<char>>, name: Seq<char>)
    requires
        rooted_names(names),
    ensures
        joined(rejoined(names), name) == rejoined(names.push(name)),
{
    let longer = names.push(name);
    assert(longer.drop_last() =~= names);
    if names.len() > 0 {
        lemma_rejoined_nonempty(names);
    }
}

/// Names without slashes rejoin into a path that splits into them again.
proof fn lemma_components_of_rejoined(names: Seq<Seq<char>>)
    requires
        forall|i: int| 0 <= i < names.len() ==> slash_free(#[trigger] names[i]),
        names.len() > 0,
    ensures
        components(rejoined(names)) == names,
    decreases names.len(),
{
    let last = names.last();
    assert(last == names[names.len() - 1]);
    lemma_components_single(last);
    if names.len() == 1 {
        assert(names =~= seq![last]);
    } else {
        let front = names.drop_last();
        assert forall|i: int| 0 <= i < front.len() implies slash_free(#[trigger] front[i]) by {
            assert(front[i] == names[i]);
        }
        lemma_components_of_rejoined(front);
        law_components_split_at_slash(rejoined(front), last);
        assert(names =~= front + seq![last]);
    }
}

/// Rejoining two lists of pieces puts a slash between them.
pub(crate) proof fn lemma_rejoined_concat(a: Seq<Seq<char>>, b: Seq<Seq<char>>)
    requires
        a.len() > 0,
        b.len() > 0,
    ensures
        rejoined(a + b) == rejoined(a) + seq!['/'] + rejoined(b),
    decreases b.len(),
{
    assert((a + b).last() == b.last());
    if b.len() == 1 {
        assert((a + b).drop_last() =~= a);
    } else {
        assert((a + b).drop_last() =~= a + b.drop_last());
        lemma_rejoined_concat(a, b.drop_last());
        assert(rejoined(a + b) =~= rejoined(a) + seq!['/'] + rejoined(b));
    }
}

/// A file lies under a directory exactly when its path leads through that directory's names.
pub proof fn law_lies_under_by_names(path: Seq<char>, names: Seq<Seq<char>>)
    requires
        names.len() > 0,
        forall|i: int| 0 <= i < names.len() ==> slash_free(#[trigger] names[i]),
    ensures
        lies_under(path, rejoined(names)) == below(components(path), names),
{
    let directory = rejoined(names);
    let pieces = components(path);
    lemma_components_of_rejoined(names);
    if lies_under(path, directory) {
        let rest = path.skip(directory.len() as int + 1);
        assert(path =~= directory + seq!['/'] + rest) by {
            let front = path.subrange(0, directory.len() as int + 1);
            assert(front == directory + seq!['/']);
            assert(path =~= front + rest);
        }
        law_components_split_at_slash(directory, rest);
        lemma_components_nonempty(rest);
        assert(pieces.subrange(0, names.len() as int) =~= names);
    }
    if below(pieces, names) {
        let rest = pieces.skip(names.len() as int);
        assert(pieces =~= names + rest);
        lemma_rejoined_concat(names, rest);
        law_components_rejoin(path);
        assert(path == directory + seq!['/'] + rejoined(rest));
        assert(path.subrange(0, directory.len() as int + 1) =~= directory + seq!['/']);
    }
}

/// What a directory's row shows below itself is what that directory of `root` holds.
spec fn shows_its_directory(root: Tree) -> spec_fn(RowView, Seq<RowView>) -> bool {
    |row: RowView, inside: Seq<RowView>|
        row is Directory ==> exists|names: Seq<Seq<char>>|
            {
                &&& names.len() > 0
                &&& rooted_names(names)
                &&& row->path == rejoined(names)
                &&& shown_files(inside).to_multiset() == held(#[trigger] descend(root, names))
            }
}

proof fn lemma_push_rooted(names: Seq<Seq<char>>, name: Seq<char>)
    requires
        rooted_names(names),
        names.len() == 0 ==> name.len() > 0,
        slash_free(name),
    ensures
        rooted_names(names.push(name)),
        rejoined(names.push(name)).len() > 0,
{
    let longer = names.push(name);
    assert forall|i: int| 0 <= i < longer.len() implies slash_free(#[trigger] longer[i]) by {
        if i < names.len() {
            assert(longer[i] == names[i]);
        }
    }
    lemma_rejoined_nonempty(longer);
}

proof fn lemma_rows_show(
    root: Tree,
    names: Seq<Seq<char>>,
    tree: Tree,
    depth: int,
    compress: bool,
)
    requires
        tree == descend(root, names),
        rooted_names(names),
        ordered(tree),
        plainly_named(tree),
        rooted(tree.dirs, rejoined(names)),
    ensures
        each(
            rows_of(tree, rejoined(names), depth, compress, Set::empty()),
            shows_its_directory(root),
        ),
    decreases tree, 1int,
{
    let none = Set::<Seq<char>>::empty();
    let prefix = rejoined(names);
    lemma_forest_show(root, names, tree, tree.dirs, depth, compress);
    crate::tree_laws::lemma_forest_at_least(tree.dirs, prefix, depth, compress, none);
    lemma_each_files(tree.files, depth, shows_its_directory(root));
    lemma_each_concat(
        forest_rows(tree.dirs, prefix, depth, compress, none),
        file_rows(tree.files, depth),
        depth,
        shows_its_directory(root),
    );
}

proof fn lemma_forest_show(
    root: Tree,
    names: Seq<Seq<char>>,
    tree: Tree,
    dirs: Seq<Branch>,
    depth: int,
    compress: bool,
)
    requires
        tree == descend(root, names),
        rooted_names(names),
        ordered(tree),
        plainly_named(tree),
        rooted(tree.dirs, rejoined(names)),
        dirs.is_prefix_of(tree.dirs),
    ensures
        each(
            forest_rows(dirs, rejoined(names), depth, compress, Set::empty()),
            shows_its_directory(root),
        ),
    decreases dirs, 0int,
{
    if dirs.len() > 0 {
        let none = Set::<Seq<char>>::empty();
        let prefix = rejoined(names);
        let last = dirs.last();
        let path = joined(prefix, last.name);
        assert(dirs.drop_last().is_prefix_of(tree.dirs)) by {
            assert(dirs.drop_last() =~= tree.dirs.subrange(0, dirs.len() - 1));
        }
        assert(last == tree.dirs[dirs.len() - 1]);
        lemma_forest_show(root, names, tree, dirs.drop_last(), depth, compress);
        lemma_child_found(tree, dirs.len() - 1);
        lemma_descend_push(root, names, last.name);
        lemma_joined_is_rejoined(names, last.name);
        lemma_push_rooted(names, last.name);
        assert(ordered(tree.dirs[dirs.len() - 1].tree));
        lemma_branch_show(root, names.push(last.name), last.name, last.tree, depth, compress);
        crate::tree_laws::lemma_forest_at_least(dirs.drop_last(), prefix, depth, compress, none);
        crate::tree_laws::lemma_branch_shape(
            path,
            last.name,
            last.tree,
            depth,
            compress,
            none,
        );
        lemma_each_concat(
            forest_rows(dirs.drop_last(), prefix, depth, compress, none),
            branch_rows(path, last.name, last.tree, depth, compress, none),
            depth,
            shows_its_directory(root),
        );
    }
}

proof fn lemma_branch_show(
    root: Tree,
    names: Seq<Seq<char>>,
    label: Seq<char>,
    tree: Tree,
    depth: int,
    compress: bool,
)
    requires
        names.len() > 0,
        tree == descend(root, names),
        rooted_names(names),
        ordered(tree),
        plainly_named(tree),
    ensures
        each(
            branch_rows(rejoined(names), label, tree, depth, compress, Set::empty()),
            shows_its_directory(root),
        ),
    decreases tree, 2int,
{
    let none = Set::<Seq<char>>::empty();
    let path = rejoined(names);
    if compress && tree.files.len() == 0 && tree.dirs.len() == 1 {
        let only = tree.dirs[0];
        lemma_child_found(tree, 0);
        lemma_descend_push(root, names, only.name);
        lemma_joined_is_rejoined(names, only.name);
        lemma_push_rooted(names, only.name);
        assert(ordered(tree.dirs[0].tree));
        lemma_branch_show(
            root,
            names.push(only.name),
            label + seq!['/'] + only.name,
            only.tree,
            depth,
            compress,
        );
    } else {
        let row = RowView::Directory { path, label, depth, collapsed: false };
        lemma_rejoined_nonempty(names);
        let inside = rows_of(tree, path, depth + 1, compress, none);
        lemma_rows_show(root, names, tree, depth + 1, compress);
        crate::tree_laws::lemma_rows_at_least(tree, path, depth + 1, compress, none);
        law_expanded_tree_shows_every_file(tree, path, depth + 1, compress);
        assert(shows_its_directory(root)(row, inside)) by {
            assert(shown_files(inside).to_multiset() == held(descend(root, names)));
        }
        lemma_each_branch(row, inside, shows_its_directory(root));
    }
}

proof fn lemma_same_filter(s: Seq<usize>, f: spec_fn(usize) -> bool, g: spec_fn(usize) -> bool)
    requires
        forall|i: int| 0 <= i < s.len() ==> f(#[trigger] s[i]) == g(s[i]),
    ensures
        s.filter(f) == s.filter(g),
    decreases s.len(),
{
    reveal(Seq::filter);
    if s.len() > 0 {
        let front = s.drop_last();
        assert forall|i: int| 0 <= i < front.len() implies f(#[trigger] front[i]) == g(front[i]) by {
            assert(front[i] == s[i]);
        }
        lemma_same_filter(front, f, g);
        assert(s.last() == s[s.len() - 1]);
    }
}

/// A directory stands for the files below it: the files that the fully expanded tree shows under
/// a directory's row are exactly the listed files whose paths lie under that row's path.
pub proof fn law_directory_row_shows_files_under_it(
    paths: Seq<Seq<char>>,
    order: Seq<usize>,
    compress: bool,
    i: int,
)
    requires
        relative_paths(paths),
        0 <= i < outline(paths, order, compress, Set::empty()).len(),
        outline(paths, order, compress, Set::empty())[i] is Directory,
    ensures
        ({
            let rows = outline(paths, order, compress, Set::empty());
            shown_files(contents_of(rows, i)).to_multiset() == order.filter(
                |e: usize| e < paths.len() && lies_under(paths[e as int], rows[i]->path),
            ).to_multiset()
        }),
{
    let rows = outline(paths, order, compress, Set::empty());
    let sorted = arranged(paths, order);
    let root = tree_of(paths, sorted);
    let top = Seq::<Seq<char>>::empty();
    lemma_arranged_ascending(paths, order);
    lemma_tree_of_ordered(paths, sorted);
    lemma_tree_of_addressable(paths, sorted);
    assert(rejoined(top) =~= Seq::<char>::empty());
    lemma_rows_show(root, top, root, 0, compress);
    let row = rows[i];
    assert(shows_its_directory(root)(row, contents_of(rows, i)));
    let names = choose|names: Seq<Seq<char>>|
        {
            &&& names.len() > 0
            &&& rooted_names(names)
            &&& row->path == rejoined(names)
            &&& shown_files(contents_of(rows, i)).to_multiset() == held(
                #[trigger] descend(root, names),
            )
        };
    let by_names = |e: usize| below(components(paths[e as int]), names);
    let by_path = |e: usize| lies_under(paths[e as int], row->path);
    lemma_directory_holds(paths, sorted, names);
    assert forall|k: int| 0 <= k < sorted.len() implies by_names(#[trigger] sorted[k]) == by_path(
        sorted[k],
    ) by {
        law_lies_under_by_names(paths[sorted[k] as int], names);
    }
    lemma_same_filter(sorted, by_names, by_path);
    law_sorting_keeps_the_files(paths, order, by_path);
    assert(order.filter(|e: usize| e < paths.len() && by_path(e)) == order.filter(
        |e: usize| e < paths.len() && lies_under(paths[e as int], row->path),
    )) by {
        lemma_same_filter(
            order,
            |e: usize| e < paths.len() && by_path(e),
            |e: usize| e < paths.len() && lies_under(paths[e as int], row->path),
        );
    }
}

/// With nothing collapsed, every listed file is shown exactly as often as it is listed, folded or
/// not.
pub proof fn law_every_file_is_shown(paths: Seq<Seq<char>>, order: Seq<usize>, compress: bool)
    ensures
        shown_files(outline(paths, order, compress, Set::empty())).to_multiset() == order.filter(
            |e: usize| e < paths.len(),
        ).to_multiset(),
{
    let sorted = arranged(paths, order);
    let root = tree_of(paths, sorted);
    let top = Seq::<Seq<char>>::empty();
    let all = |e: usize| true;
    law_expanded_tree_shows_every_file(root, Seq::empty(), 0, compress);
    lemma_directory_holds(paths, sorted, top);
    assert forall|k: int| 0 <= k < sorted.len() implies below(
        components(paths[#[trigger] sorted[k] as int]),
        top,
    ) by {
        let pieces = components(paths[sorted[k] as int]);
        lemma_components_nonempty(paths[sorted[k] as int]);
        assert(top =~= pieces.subrange(0, 0));
    }
    lemma_same_filter(sorted, |e: usize| below(components(paths[e as int]), top), all);
    law_sorting_keeps_the_files(paths, order, all);
    lemma_same_filter(
        order,
        |e: usize| e < paths.len() && all(e),
        |e: usize| e < paths.len(),
    );
}

/// Whether a tree holds a file at all.
spec fn inhabited(tree: Tree) -> bool {
    exists|entry: usize| #[trigger] held(tree).count(entry) > 0
}

/// Whether every directory of a tree holds a file.
spec fn peopled(tree: Tree) -> bool
    decreases tree,
{
    forall|i: int|
        0 <= i < tree.dirs.len() ==> inhabited((#[trigger] tree.dirs[i]).tree) && peopled(
            tree.dirs[i].tree,
        )
}

proof fn lemma_insert_peopled(tree: Tree, components: Seq<Seq<char>>, entry: usize)
    requires
        components.len() > 0,
        peopled(tree),
    ensures
        peopled(tree_insert(tree, components, entry)),
        inhabited(tree_insert(tree, components, entry)),
    decreases components.len(),
{
    let after = tree_insert(tree, components, entry);
    law_insert_adds_the_file(tree, components, entry);
    assert(held(after).count(entry) > 0);
    if components.len() > 1 {
        let name = components[0];
        let rest = components.drop_first();
        let at = slot(tree.dirs, name);
        lemma_slot(tree.dirs, name);
        let found = at < tree.dirs.len() && tree.dirs[at].name == name;
        if found {
            lemma_insert_peopled(tree.dirs[at].tree, rest, entry);
        } else {
            assert(peopled(empty_tree()));
            lemma_insert_peopled(empty_tree(), rest, entry);
        }
        assert forall|i: int| 0 <= i < after.dirs.len() implies inhabited(
            (#[trigger] after.dirs[i]).tree,
        ) && peopled(after.dirs[i].tree) by {
            if i != at {
                if found || i < at {
                    assert(after.dirs[i] == tree.dirs[i]);
                } else {
                    assert(after.dirs[i] == tree.dirs[i - 1]);
                }
            }
        }
    } else {
        assert forall|i: int| 0 <= i < after.dirs.len() implies inhabited(
            (#[trigger] after.dirs[i]).tree,
        ) && peopled(after.dirs[i].tree) by {
            assert(after.dirs[i] == tree.dirs[i]);
        }
    }
}

proof fn lemma_tree_of_peopled(paths: Seq<Seq<char>>, order: Seq<usize>)
    ensures
        peopled(tree_of(paths, order)),
    decreases order.len(),
{
    if order.len() > 0 {
        lemma_tree_of_peopled(paths, order.drop_last());
        lemma_components_nonempty(paths[order.last() as int]);
        lemma_insert_peopled(
            tree_of(paths, order.drop_last()),
            components(paths[order.last() as int]),
            order.last(),
        );
    } else {
        assert(peopled(empty_tree()));
    }
}

spec fn shows_a_file() -> spec_fn(RowView, Seq<RowView>) -> bool {
    |row: RowView, inside: Seq<RowView>| row is Directory ==> shown_files(inside).len() > 0
}

proof fn lemma_rows_show_files(tree: Tree, prefix: Seq<char>, depth: int, compress: bool)
    requires
        peopled(tree),
    ensures
        each(rows_of(tree, prefix, depth, compress, Set::empty()), shows_a_file()),
    decreases tree, 1int,
{
    let none = Set::<Seq<char>>::empty();
    lemma_forest_show_files(tree.dirs, prefix, depth, compress);
    crate::tree_laws::lemma_forest_at_least(tree.dirs, prefix, depth, compress, none);
    lemma_each_files(tree.files, depth, shows_a_file());
    lemma_each_concat(
        forest_rows(tree.dirs, prefix, depth, compress, none),
        file_rows(tree.files, depth),
        depth,
        shows_a_file(),
    );
}

proof fn lemma_forest_show_files(
    dirs: Seq<Branch>,
    prefix: Seq<char>,
    depth: int,
    compress: bool,
)
    requires
        forall|i: int|
            0 <= i < dirs.len() ==> inhabited((#[trigger] dirs[i]).tree) && peopled(dirs[i].tree),
    ensures
        each(forest_rows(dirs, prefix, depth, compress, Set::empty()), shows_a_file()),
    decreases dirs, 0int,
{
    if dirs.len() > 0 {
        let none = Set::<Seq<char>>::empty();
        let last = dirs.last();
        let front = dirs.drop_last();
        let path = joined(prefix, last.name);
        assert forall|i: int| 0 <= i < front.len() implies inhabited((#[trigger] front[i]).tree)
            && peopled(front[i].tree) by {
            assert(front[i] == dirs[i]);
        }
        assert(last == dirs[dirs.len() - 1]);
        lemma_forest_show_files(front, prefix, depth, compress);
        lemma_branch_show_files(path, last.name, last.tree, depth, compress);
        crate::tree_laws::lemma_forest_at_least(front, prefix, depth, compress, none);
        crate::tree_laws::lemma_branch_shape(path, last.name, last.tree, depth, compress, none);
        lemma_each_concat(
            forest_rows(front, prefix, depth, compress, none),
            branch_rows(path, last.name, last.tree, depth, compress, none),
            depth,
            shows_a_file(),
        );
    }
}

proof fn lemma_branch_show_files(
    path: Seq<char>,
    label: Seq<char>,
    tree: Tree,
    depth: int,
    compress: bool,
)
    requires
        inhabited(tree),
        peopled(tree),
    ensures
        each(branch_rows(path, label, tree, depth, compress, Set::empty()), shows_a_file()),
    decreases tree, 2int,
{
    broadcast use vstd::seq_lib::group_to_multiset_ensures;

    let none = Set::<Seq<char>>::empty();
    if compress && tree.files.len() == 0 && tree.dirs.len() == 1 {
        let only = tree.dirs[0];
        lemma_branch_show_files(
            joined(path, only.name),
            label + seq!['/'] + only.name,
            only.tree,
            depth,
            compress,
        );
    } else {
        let row = RowView::Directory { path, label, depth, collapsed: false };
        let inside = rows_of(tree, path, depth + 1, compress, none);
        lemma_rows_show_files(tree, path, depth + 1, compress);
        crate::tree_laws::lemma_rows_at_least(tree, path, depth + 1, compress, none);
        law_expanded_tree_shows_every_file(tree, path, depth + 1, compress);
        let entry = choose|entry: usize| #[trigger] held(tree).count(entry) > 0;
        assert(shown_files(inside).to_multiset().count(entry) > 0);
        assert(shown_files(inside).contains(entry));
        lemma_each_branch(row, inside, shows_a_file());
    }
}

/// There are no empty directories: some listed file lies under every directory that has a row.
pub proof fn law_directories_hold_files(
    paths: Seq<Seq<char>>,
    order: Seq<usize>,
    compress: bool,
    i: int,
)
    requires
        relative_paths(paths),
        0 <= i < outline(paths, order, compress, Set::empty()).len(),
        outline(paths, order, compress, Set::empty())[i] is Directory,
    ensures
        exists|entry: usize|
            {
                &&& #[trigger] order.contains(entry)
                &&& entry < paths.len()
                &&& lies_under(
                    paths[entry as int],
                    outline(paths, order, compress, Set::empty())[i]->path,
                )
            },
{
    broadcast use vstd::seq_lib::group_to_multiset_ensures;

    let rows = outline(paths, order, compress, Set::empty());
    let sorted = arranged(paths, order);
    let path = rows[i]->path;
    let kept = |e: usize| e < paths.len() && lies_under(paths[e as int], path);
    lemma_tree_of_peopled(paths, sorted);
    lemma_rows_show_files(tree_of(paths, sorted), Seq::empty(), 0, compress);
    law_directory_row_shows_files_under_it(paths, order, compress, i);
    let shown = shown_files(contents_of(rows, i));
    assert(shows_a_file()(rows[i], contents_of(rows, i)));
    let entry = shown[0];
    assert(shown.contains(entry));
    assert(shown.to_multiset().count(entry) > 0);
    assert(order.filter(kept).to_multiset().count(entry) > 0);
    assert(order.filter(kept).contains(entry));
    let k = choose|k: int| 0 <= k < order.filter(kept).len() && order.filter(kept)[k] == entry;
    order.lemma_filter_pred(kept, k);
    order.lemma_filter_contains_rev(kept, entry);
}

/// Whether `label` is how `path` ends: all of it, or everything behind one of its slashes.
pub open spec fn ends_with_label(path: Seq<char>, label: Seq<char>) -> bool {
    path == label || (seq!['/'] + label).is_suffix_of(path)
}

spec fn labelled(compress: bool) -> spec_fn(RowView, Seq<RowView>) -> bool {
    |row: RowView, inside: Seq<RowView>|
        row is Directory ==> {
            &&& ends_with_label(row->path, row->label)
            &&& !compress ==> slash_free(row->label)
        }
}

/// A directory's label is how its path ends, and where nothing is folded it is a single name, so
/// that every directory gets a level of its own.
pub proof fn law_label_ends_the_path(
    paths: Seq<Seq<char>>,
    order: Seq<usize>,
    compress: bool,
    collapsed: Set<Seq<char>>,
    i: int,
)
    requires
        compress ==> relative_paths(paths),
        0 <= i < outline(paths, order, compress, collapsed).len(),
        outline(paths, order, compress, collapsed)[i] is Directory,
    ensures
        ({
            let row = outline(paths, order, compress, collapsed)[i];
            &&& ends_with_label(row->path, row->label)
            &&& !compress ==> slash_free(row->label)
        }),
{
    let rows = outline(paths, order, compress, collapsed);
    let sorted = arranged(paths, order);
    lemma_arranged_ascending(paths, order);
    lemma_tree_of_plain(paths, sorted);
    if compress {
        lemma_tree_of_addressable(paths, sorted);
    }
    lemma_rows_labelled(tree_of(paths, sorted), Seq::empty(), 0, compress, collapsed);
    assert(labelled(compress)(rows[i], contents_of(rows, i)));
}

proof fn lemma_rows_labelled(
    tree: Tree,
    prefix: Seq<char>,
    depth: int,
    compress: bool,
    collapsed: Set<Seq<char>>,
)
    requires
        plainly_named(tree),
        compress ==> rooted(tree.dirs, prefix),
    ensures
        each(rows_of(tree, prefix, depth, compress, collapsed), labelled(compress)),
    decreases tree, 1int,
{
    lemma_forest_labelled(tree.dirs, prefix, depth, compress, collapsed);
    crate::tree_laws::lemma_forest_at_least(tree.dirs, prefix, depth, compress, collapsed);
    lemma_each_files(tree.files, depth, labelled(compress));
    lemma_each_concat(
        forest_rows(tree.dirs, prefix, depth, compress, collapsed),
        file_rows(tree.files, depth),
        depth,
        labelled(compress),
    );
}

proof fn lemma_forest_labelled(
    dirs: Seq<Branch>,
    prefix: Seq<char>,
    depth: int,
    compress: bool,
    collapsed: Set<Seq<char>>,
)
    requires
        forall|i: int|
            0 <= i < dirs.len() ==> slash_free((#[trigger] dirs[i]).name) && plainly_named(
                dirs[i].tree,
            ),
        compress ==> rooted(dirs, prefix),
    ensures
        each(forest_rows(dirs, prefix, depth, compress, collapsed), labelled(compress)),
    decreases dirs, 0int,
{
    if dirs.len() > 0 {
        let last = dirs.last();
        let path = joined(prefix, last.name);
        assert(last == dirs[dirs.len() - 1]);
        assert forall|i: int| 0 <= i < dirs.drop_last().len() implies slash_free(
            (#[trigger] dirs.drop_last()[i]).name,
        ) && plainly_named(dirs.drop_last()[i].tree) by {
            assert(dirs.drop_last()[i] == dirs[i]);
        }
        lemma_forest_labelled(dirs.drop_last(), prefix, depth, compress, collapsed);
        assert(ends_with_label(path, last.name)) by {
            if prefix.len() > 0 {
                assert((seq!['/'] + last.name) =~= path.subrange(
                    prefix.len() as int,
                    path.len() as int,
                ));
            }
        }
        lemma_branch_labelled(path, last.name, last.tree, depth, compress, collapsed);
        crate::tree_laws::lemma_forest_at_least(
            dirs.drop_last(),
            prefix,
            depth,
            compress,
            collapsed,
        );
        crate::tree_laws::lemma_branch_shape(
            path,
            last.name,
            last.tree,
            depth,
            compress,
            collapsed,
        );
        lemma_each_concat(
            forest_rows(dirs.drop_last(), prefix, depth, compress, collapsed),
            branch_rows(path, last.name, last.tree, depth, compress, collapsed),
            depth,
            labelled(compress),
        );
    }
}

proof fn lemma_branch_labelled(
    path: Seq<char>,
    label: Seq<char>,
    tree: Tree,
    depth: int,
    compress: bool,
    collapsed: Set<Seq<char>>,
)
    requires
        plainly_named(tree),
        compress ==> path.len() > 0,
        ends_with_label(path, label),
        !compress ==> slash_free(label),
    ensures
        each(branch_rows(path, label, tree, depth, compress, collapsed), labelled(compress)),
    decreases tree, 2int,
{
    if compress && tree.files.len() == 0 && tree.dirs.len() == 1 {
        let only = tree.dirs[0];
        let longer_path = joined(path, only.name);
        let longer_label = label + seq!['/'] + only.name;
        assert(ends_with_label(longer_path, longer_label)) by {
            if path == label {
                assert(longer_path =~= longer_label);
            } else {
                let tail = seq!['/'] + label;
                let start = path.len() - tail.len();
                assert(tail == path.subrange(start, path.len() as int));
                assert((seq!['/'] + longer_label) =~= longer_path.subrange(
                    start,
                    longer_path.len() as int,
                )) by {
                    assert(seq!['/'] + longer_label =~= tail + seq!['/'] + only.name);
                    assert(longer_path.subrange(start, longer_path.len() as int)
                        =~= path.subrange(start, path.len() as int) + seq!['/'] + only.name);
                }
            }
        }
        lemma_branch_labelled(longer_path, longer_label, only.tree, depth, compress, collapsed);
    } else {
        let row = RowView::Directory { path, label, depth, collapsed: collapsed.contains(path) };
        let inside = if collapsed.contains(path) {
            Seq::empty()
        } else {
            rows_of(tree, path, depth + 1, compress, collapsed)
        };
        assert(branch_rows(path, label, tree, depth, compress, collapsed) =~= seq![row] + inside);
        if !collapsed.contains(path) {
            lemma_rows_labelled(tree, path, depth + 1, compress, collapsed);
            crate::tree_laws::lemma_rows_at_least(tree, path, depth + 1, compress, collapsed);
        }
        lemma_each_branch(row, inside, labelled(compress));
    }
}

/// Whether the rows at `level` come out alphabetically: directories by the first name of their
/// label, no two of which are the same, and files by their path.
pub open spec fn siblings_ascend(rows: Seq<RowView>, level: int, paths: Seq<Seq<char>>) -> bool {
    forall|i: int, j: int|
        0 <= i < j < rows.len() && row_depth(#[trigger] rows[i]) == level && row_depth(
            #[trigger] rows[j],
        ) == level ==> {
            &&& rows[i] is Directory && rows[j] is Directory ==> lex_less(
                components(rows[i]->label)[0],
                components(rows[j]->label)[0],
            )
            &&& rows[i] is File && rows[j] is File ==> !lex_less(
                paths[rows[j]->entry as int],
                paths[rows[i]->entry as int],
            )
        }
}

/// Whether the files of every directory of a tree stand in the order of their paths.
spec fn files_in_order(tree: Tree, paths: Seq<Seq<char>>) -> bool
    decreases tree,
{
    &&& forall|i: int, j: int|
        0 <= i < j < tree.files.len() ==> !lex_less(
            paths[#[trigger] tree.files[j] as int],
            paths[#[trigger] tree.files[i] as int],
        )
    &&& forall|i: int|
        0 <= i < tree.dirs.len() ==> files_in_order((#[trigger] tree.dirs[i]).tree, paths)
}

proof fn lemma_held_in_forest(dirs: Seq<Branch>, at: int, entry: usize)
    requires
        0 <= at < dirs.len(),
    ensures
        held(dirs[at].tree).count(entry) <= crate::tree_laws::forest_held(dirs).count(entry),
    decreases dirs.len(),
{
    if at < dirs.len() - 1 {
        lemma_held_in_forest(dirs.drop_last(), at, entry);
        assert(dirs.drop_last()[at] == dirs[at]);
    }
}

proof fn lemma_insert_in_order(
    tree: Tree,
    names: Seq<Seq<char>>,
    entry: usize,
    paths: Seq<Seq<char>>,
)
    requires
        files_in_order(tree, paths),
        forall|e: usize| #[trigger]
            held(tree).count(e) > 0 ==> !lex_less(paths[entry as int], paths[e as int]),
    ensures
        files_in_order(tree_insert(tree, names, entry), paths),
    decreases names.len(),
{
    broadcast use vstd::seq_lib::group_to_multiset_ensures;

    let after = tree_insert(tree, names, entry);
    if names.len() == 1 {
        assert forall|i: int, j: int| 0 <= i < j < after.files.len() implies !lex_less(
            paths[#[trigger] after.files[j] as int],
            paths[#[trigger] after.files[i] as int],
        ) by {
            assert(after.files[i] == tree.files[i]);
            if j == tree.files.len() {
                assert(tree.files.contains(tree.files[i]));
                assert(held(tree).count(tree.files[i]) > 0);
            } else {
                assert(after.files[j] == tree.files[j]);
            }
        }
        assert forall|i: int| 0 <= i < after.dirs.len() implies files_in_order(
            (#[trigger] after.dirs[i]).tree,
            paths,
        ) by {
            assert(after.dirs[i] == tree.dirs[i]);
        }
    } else if names.len() > 1 {
        let name = names[0];
        let rest = names.drop_first();
        let at = slot(tree.dirs, name);
        lemma_slot(tree.dirs, name);
        let replaced = at < tree.dirs.len() && tree.dirs[at].name == name;
        if replaced {
            assert forall|e: usize| #[trigger]
                held(tree.dirs[at].tree).count(e) > 0 implies !lex_less(
                paths[entry as int],
                paths[e as int],
            ) by {
                lemma_held_in_forest(tree.dirs, at, e);
                assert(held(tree).count(e) > 0);
            }
            lemma_insert_in_order(tree.dirs[at].tree, rest, entry, paths);
        } else {
            assert(files_in_order(empty_tree(), paths));
            assert(held(empty_tree()) =~= Multiset::empty());
            lemma_insert_in_order(empty_tree(), rest, entry, paths);
        }
        assert forall|i: int| 0 <= i < after.dirs.len() implies files_in_order(
            (#[trigger] after.dirs[i]).tree,
            paths,
        ) by {
            if i != at {
                let origin = if replaced || i < at { i } else { i - 1 };
                assert(after.dirs[i] == tree.dirs[origin]);
            }
        }
    }
}

proof fn lemma_tree_of_in_order(paths: Seq<Seq<char>>, sorted: Seq<usize>)
    requires
        crate::outline::ascending(paths, sorted),
    ensures
        files_in_order(tree_of(paths, sorted), paths),
        held(tree_of(paths, sorted)) == sorted.to_multiset(),
    decreases sorted.len(),
{
    broadcast use vstd::seq_lib::group_to_multiset_ensures;

    if sorted.len() == 0 {
        assert(files_in_order(empty_tree(), paths));
        assert(held(empty_tree()) =~= sorted.to_multiset());
    } else {
        let front = sorted.drop_last();
        let entry = sorted.last();
        assert(entry == sorted[sorted.len() - 1]);
        assert(crate::outline::ascending(paths, front)) by {
            assert forall|i: int| 0 <= i < front.len() implies #[trigger] front[i] < paths.len() by {
                assert(front[i] == sorted[i]);
            }
            assert forall|i: int, j: int| 0 <= i < j < front.len() implies !lex_less(
                paths[#[trigger] front[j] as int],
                paths[#[trigger] front[i] as int],
            ) by {
                assert(front[i] == sorted[i] && front[j] == sorted[j]);
            }
        }
        lemma_tree_of_in_order(paths, front);
        let tree = tree_of(paths, front);
        assert forall|e: usize| #[trigger] held(tree).count(e) > 0 implies !lex_less(
            paths[entry as int],
            paths[e as int],
        ) by {
            assert(front.contains(e));
            let k = choose|k: int| 0 <= k < front.len() && front[k] == e;
            assert(sorted[k] == e);
            assert(!lex_less(
                paths[sorted[sorted.len() - 1] as int],
                paths[sorted[k] as int],
            ));
        }
        let names = components(paths[entry as int]);
        lemma_components_nonempty(paths[entry as int]);
        lemma_insert_in_order(tree, names, entry, paths);
        law_insert_adds_the_file(tree, names, entry);
        assert(front.push(entry) =~= sorted);
    }
}

spec fn alphabetical(paths: Seq<Seq<char>>) -> spec_fn(RowView, Seq<RowView>) -> bool {
    |row: RowView, inside: Seq<RowView>|
        row is Directory ==> siblings_ascend(inside, row_depth(row) + 1, paths)
}

/// Rows come out alphabetically, at the top and inside every directory.
pub proof fn law_rows_are_alphabetical(
    paths: Seq<Seq<char>>,
    order: Seq<usize>,
    compress: bool,
    collapsed: Set<Seq<char>>,
)
    ensures
        ({
            let rows = outline(paths, order, compress, collapsed);
            &&& siblings_ascend(rows, 0, paths)
            &&& forall|i: int|
                0 <= i < rows.len() && (#[trigger] rows[i]) is Directory ==> siblings_ascend(
                    contents_of(rows, i),
                    row_depth(rows[i]) + 1,
                    paths,
                )
        }),
{
    let rows = outline(paths, order, compress, collapsed);
    let sorted = arranged(paths, order);
    lemma_arranged_ascending(paths, order);
    lemma_tree_of_ordered(paths, sorted);
    lemma_tree_of_plain(paths, sorted);
    lemma_tree_of_in_order(paths, sorted);
    lemma_rows_alphabetical(
        tree_of(paths, sorted),
        Seq::empty(),
        0,
        compress,
        collapsed,
        paths,
    );
    assert forall|i: int|
        0 <= i < rows.len() && (#[trigger] rows[i]) is Directory implies siblings_ascend(
        contents_of(rows, i),
        row_depth(rows[i]) + 1,
        paths,
    ) by {
        assert(alphabetical(paths)(rows[i], contents_of(rows, i)));
    }
}

proof fn lemma_rows_alphabetical(
    tree: Tree,
    prefix: Seq<char>,
    depth: int,
    compress: bool,
    collapsed: Set<Seq<char>>,
    paths: Seq<Seq<char>>,
)
    requires
        ordered(tree),
        plainly_named(tree),
        files_in_order(tree, paths),
    ensures
        each(rows_of(tree, prefix, depth, compress, collapsed), alphabetical(paths)),
        siblings_ascend(rows_of(tree, prefix, depth, compress, collapsed), depth, paths),
    decreases tree, 1int,
{
    let dirs = forest_rows(tree.dirs, prefix, depth, compress, collapsed);
    let files = file_rows(tree.files, depth);
    lemma_forest_alphabetical(tree, tree.dirs, prefix, depth, compress, collapsed, paths);
    crate::tree_laws::lemma_forest_at_least(tree.dirs, prefix, depth, compress, collapsed);
    lemma_each_files(tree.files, depth, alphabetical(paths));
    lemma_each_concat(dirs, files, depth, alphabetical(paths));
    let rows = dirs + files;
    assert forall|i: int, j: int|
        0 <= i < j < rows.len() && row_depth(#[trigger] rows[i]) == depth && row_depth(
            #[trigger] rows[j],
        ) == depth implies {
        &&& rows[i] is Directory && rows[j] is Directory ==> lex_less(
            components(rows[i]->label)[0],
            components(rows[j]->label)[0],
        )
        &&& rows[i] is File && rows[j] is File ==> !lex_less(
            paths[rows[j]->entry as int],
            paths[rows[i]->entry as int],
        )
    } by {
        if j < dirs.len() {
            assert(rows[i] == dirs[i] && rows[j] == dirs[j]);
        } else if i < dirs.len() {
            assert(rows[i] == dirs[i]);
            assert(names_of_forest(dirs, depth, tree.dirs));
        } else {
            assert(!lex_less(
                paths[tree.files[j - dirs.len()] as int],
                paths[tree.files[i - dirs.len()] as int],
            ));
        }
    }
}

/// The rows at the level of a run of directories carry those directories' names.
spec fn names_of_forest(rows: Seq<RowView>, depth: int, dirs: Seq<Branch>) -> bool {
    forall|i: int|
        0 <= i < rows.len() && row_depth(#[trigger] rows[i]) == depth ==> {
            &&& rows[i] is Directory
            &&& exists|k: int|
                0 <= k < dirs.len() && components(rows[i]->label)[0] == (#[trigger] dirs[k]).name
        }
}

proof fn lemma_forest_alphabetical(
    tree: Tree,
    dirs: Seq<Branch>,
    prefix: Seq<char>,
    depth: int,
    compress: bool,
    collapsed: Set<Seq<char>>,
    paths: Seq<Seq<char>>,
)
    requires
        ordered(tree),
        plainly_named(tree),
        files_in_order(tree, paths),
        dirs.is_prefix_of(tree.dirs),
    ensures
        ({
            let rows = forest_rows(dirs, prefix, depth, compress, collapsed);
            &&& each(rows, alphabetical(paths))
            &&& siblings_ascend(rows, depth, paths)
            &&& names_of_forest(rows, depth, dirs)
        }),
    decreases dirs, 0int,
{
    if dirs.len() > 0 {
        let before = dirs.drop_last();
        let last = dirs.last();
        let path = joined(prefix, last.name);
        let front = forest_rows(before, prefix, depth, compress, collapsed);
        let back = branch_rows(path, last.name, last.tree, depth, compress, collapsed);
        assert(before.is_prefix_of(tree.dirs)) by {
            assert(before =~= tree.dirs.subrange(0, dirs.len() - 1));
        }
        assert(last == tree.dirs[dirs.len() - 1]);
        assert(files_in_order(tree.dirs[dirs.len() - 1].tree, paths));
        assert(ordered(tree.dirs[dirs.len() - 1].tree));
        lemma_forest_alphabetical(tree, before, prefix, depth, compress, collapsed, paths);
        lemma_components_single(last.name);
        lemma_branch_alphabetical(
            path,
            last.name,
            last.tree,
            depth,
            compress,
            collapsed,
            paths,
        );
        crate::tree_laws::lemma_forest_at_least(before, prefix, depth, compress, collapsed);
        crate::tree_laws::lemma_branch_shape(
            path,
            last.name,
            last.tree,
            depth,
            compress,
            collapsed,
        );
        lemma_each_concat(front, back, depth, alphabetical(paths));
        let rows = front + back;
        assert forall|i: int| 0 <= i < rows.len() && row_depth(#[trigger] rows[i]) == depth implies {
            &&& rows[i] is Directory
            &&& exists|k: int|
                0 <= k < dirs.len() && components(rows[i]->label)[0] == (#[trigger] dirs[k]).name
        } by {
            if i < front.len() {
                assert(rows[i] == front[i]);
                let k = choose|k: int|
                    0 <= k < before.len() && components(rows[i]->label)[0] == (
                    #[trigger] before[k]).name;
                assert(dirs[k] == before[k]);
            } else if i == front.len() {
                assert(rows[i] == back[0]);
                assert(dirs[dirs.len() - 1] == last);
            } else {
                assert(rows[i] == back.drop_first()[i - front.len() - 1]);
            }
        }
        assert forall|i: int, j: int|
            0 <= i < j < rows.len() && row_depth(#[trigger] rows[i]) == depth && row_depth(
                #[trigger] rows[j],
            ) == depth implies {
            &&& rows[i] is Directory && rows[j] is Directory ==> lex_less(
                components(rows[i]->label)[0],
                components(rows[j]->label)[0],
            )
            &&& rows[i] is File && rows[j] is File ==> !lex_less(
                paths[rows[j]->entry as int],
                paths[rows[i]->entry as int],
            )
        } by {
            if j < front.len() {
                assert(rows[i] == front[i] && rows[j] == front[j]);
            } else if i < front.len() {
                assert(rows[i] == front[i]);
                if j > front.len() {
                    assert(rows[j] == back.drop_first()[j - front.len() - 1]);
                } else {
                    assert(rows[j] == back[0]);
                    let k = choose|k: int|
                        0 <= k < before.len() && components(rows[i]->label)[0] == (
                        #[trigger] before[k]).name;
                    assert(before[k] == tree.dirs[k]);
                    assert(lex_less(tree.dirs[k].name, tree.dirs[dirs.len() - 1].name));
                }
            } else {
                assert(rows[j] == back.drop_first()[j - front.len() - 1]);
            }
        }
    }
}

proof fn lemma_branch_alphabetical(
    path: Seq<char>,
    label: Seq<char>,
    tree: Tree,
    depth: int,
    compress: bool,
    collapsed: Set<Seq<char>>,
    paths: Seq<Seq<char>>,
)
    requires
        ordered(tree),
        plainly_named(tree),
        files_in_order(tree, paths),
    ensures
        ({
            let rows = branch_rows(path, label, tree, depth, compress, collapsed);
            &&& each(rows, alphabetical(paths))
            &&& rows.len() > 0
            &&& rows[0] is Directory
            &&& components(rows[0]->label)[0] == components(label)[0]
        }),
    decreases tree, 2int,
{
    if compress && tree.files.len() == 0 && tree.dirs.len() == 1 {
        let only = tree.dirs[0];
        assert(ordered(tree.dirs[0].tree));
        assert(files_in_order(tree.dirs[0].tree, paths));
        law_components_split_at_slash(label, only.name);
        lemma_components_nonempty(label);
        lemma_branch_alphabetical(
            joined(path, only.name),
            label + seq!['/'] + only.name,
            only.tree,
            depth,
            compress,
            collapsed,
            paths,
        );
    } else {
        let row = RowView::Directory { path, label, depth, collapsed: collapsed.contains(path) };
        let inside = if collapsed.contains(path) {
            Seq::empty()
        } else {
            rows_of(tree, path, depth + 1, compress, collapsed)
        };
        assert(branch_rows(path, label, tree, depth, compress, collapsed) =~= seq![row] + inside);
        if !collapsed.contains(path) {
            lemma_rows_alphabetical(tree, path, depth + 1, compress, collapsed, paths);
            crate::tree_laws::lemma_rows_at_least(tree, path, depth + 1, compress, collapsed);
        }
        lemma_each_branch(row, inside, alphabetical(paths));
    }
}

} // verus!

//! What holds of the rows of every tree.

use vstd::multiset::Multiset;
use vstd::prelude::*;

use crate::text::joined;
use crate::tree::{
    branch_rows, empty_tree, file_rows, forest_rows, row_depth, rows_of, slot, lemma_slot,
    tree_insert, Branch, RowView, Tree,
};

verus! {

/// Every row sits at `depth` or deeper.
pub open spec fn at_least(rows: Seq<RowView>, depth: int) -> bool {
    forall|i: int| 0 <= i < rows.len() ==> depth <= row_depth(#[trigger] rows[i])
}

/// The rows of a directory's contents all sit at its level or deeper.
pub(crate) proof fn lemma_rows_at_least(
    tree: Tree,
    prefix: Seq<char>,
    depth: int,
    compress: bool,
    collapsed: Set<Seq<char>>,
)
    ensures
        at_least(rows_of(tree, prefix, depth, compress, collapsed), depth),
    decreases tree, 1int,
{
    lemma_forest_at_least(tree.dirs, prefix, depth, compress, collapsed);
}

pub(crate) proof fn lemma_forest_at_least(
    dirs: Seq<Branch>,
    prefix: Seq<char>,
    depth: int,
    compress: bool,
    collapsed: Set<Seq<char>>,
)
    ensures
        at_least(forest_rows(dirs, prefix, depth, compress, collapsed), depth),
        dirs.len() > 0 ==> forest_rows(dirs, prefix, depth, compress, collapsed).len() > 0,
    decreases dirs, 0int,
{
    if dirs.len() > 0 {
        let last = dirs.last();
        lemma_forest_at_least(dirs.drop_last(), prefix, depth, compress, collapsed);
        lemma_branch_shape(
            joined(prefix, last.name),
            last.name,
            last.tree,
            depth,
            compress,
            collapsed,
        );
    }
}

/// A directory's own row comes first, at its level, and everything else it shows is deeper.
pub(crate) proof fn lemma_branch_shape(
    path: Seq<char>,
    label: Seq<char>,
    tree: Tree,
    depth: int,
    compress: bool,
    collapsed: Set<Seq<char>>,
)
    ensures
        ({
            let rows = branch_rows(path, label, tree, depth, compress, collapsed);
            &&& rows.len() > 0
            &&& rows[0] is Directory
            &&& row_depth(rows[0]) == depth
            &&& at_least(rows, depth)
            &&& at_least(rows.drop_first(), depth + 1)
        }),
    decreases tree, 2int,
{
    let rows = branch_rows(path, label, tree, depth, compress, collapsed);
    if compress && tree.files.len() == 0 && tree.dirs.len() == 1 {
        let only = tree.dirs[0];
        lemma_branch_shape(
            joined(path, only.name),
            label + seq!['/'] + only.name,
            only.tree,
            depth,
            compress,
            collapsed,
        );
    } else {
        lemma_rows_at_least(tree, path, depth + 1, compress, collapsed);
        if collapsed.contains(path) {
            assert(rows.drop_first() =~= Seq::<RowView>::empty());
        } else {
            assert(rows.drop_first() =~= rows_of(tree, path, depth + 1, compress, collapsed));
            assert forall|i: int| 0 <= i < rows.len() implies depth <= row_depth(
                #[trigger] rows[i],
            ) by {
                if i > 0 {
                    assert(rows.drop_first()[i - 1] == rows[i]);
                }
            }
        }
    }
}

/// `rows` from the first one on that is not deeper than `depth`.
pub open spec fn skip_deeper(rows: Seq<RowView>, depth: int) -> Seq<RowView>
    decreases rows.len(),
{
    if rows.len() == 0 || row_depth(rows[0]) <= depth {
        rows
    } else {
        skip_deeper(rows.drop_first(), depth)
    }
}

/// What is left of fully expanded rows when the directories `collapsed` are folded away: each
/// such directory keeps its own row, marked, and the deeper rows that follow it go.
pub open spec fn folded_away(rows: Seq<RowView>, collapsed: Set<Seq<char>>) -> Seq<RowView>
    decreases rows.len(),
    via folded_away_decreases
{
    if rows.len() == 0 {
        rows
    } else {
        let rest = rows.drop_first();
        match rows[0] {
            RowView::Directory { path, label, depth, .. } => {
                if collapsed.contains(path) {
                    seq![RowView::Directory { path, label, depth, collapsed: true }] + folded_away(
                        skip_deeper(rest, depth),
                        collapsed,
                    )
                } else {
                    seq![rows[0]] + folded_away(rest, collapsed)
                }
            },
            RowView::File { .. } => seq![rows[0]] + folded_away(rest, collapsed),
        }
    }
}

#[via_fn]
proof fn folded_away_decreases(rows: Seq<RowView>, collapsed: Set<Seq<char>>) {
    if rows.len() > 0 {
        lemma_skip_deeper_shorter(rows.drop_first(), row_depth(rows[0]));
    }
}

proof fn lemma_skip_deeper_shorter(rows: Seq<RowView>, depth: int)
    ensures
        skip_deeper(rows, depth).len() <= rows.len(),
    decreases rows.len(),
{
    if rows.len() > 0 && row_depth(rows[0]) > depth {
        lemma_skip_deeper_shorter(rows.drop_first(), depth);
    }
}

/// Rows that are all deeper are all skipped.
proof fn lemma_skip_all(rows: Seq<RowView>, depth: int)
    requires
        at_least(rows, depth + 1),
    ensures
        skip_deeper(rows, depth) == Seq::<RowView>::empty(),
    decreases rows.len(),
{
    if rows.len() > 0 {
        let rest = rows.drop_first();
        assert forall|i: int| 0 <= i < rest.len() implies depth + 1 <= row_depth(
            #[trigger] rest[i],
        ) by {
            assert(rest[i] == rows[i + 1]);
        }
        lemma_skip_all(rest, depth);
    } else {
        assert(rows =~= Seq::<RowView>::empty());
    }
}

/// Skipping stops where a shallower block begins.
proof fn lemma_skip_concat(a: Seq<RowView>, b: Seq<RowView>, depth: int)
    requires
        b.len() == 0 || row_depth(b[0]) <= depth,
    ensures
        skip_deeper(a + b, depth) == skip_deeper(a, depth) + b,
    decreases a.len(),
{
    if a.len() == 0 {
        assert(a + b =~= b);
        assert(skip_deeper(a, depth) + b =~= b);
    } else if row_depth(a[0]) > depth {
        assert((a + b).drop_first() =~= a.drop_first() + b);
        lemma_skip_concat(a.drop_first(), b, depth);
    }
}

/// What remains after skipping keeps to the same level.
proof fn lemma_skip_at_least(rows: Seq<RowView>, skipped: int, depth: int)
    requires
        at_least(rows, depth),
    ensures
        at_least(skip_deeper(rows, skipped), depth),
    decreases rows.len(),
{
    if rows.len() > 0 && row_depth(rows[0]) > skipped {
        let rest = rows.drop_first();
        assert forall|i: int| 0 <= i < rest.len() implies depth <= row_depth(#[trigger] rest[i]) by {
            assert(rest[i] == rows[i + 1]);
        }
        lemma_skip_at_least(rest, skipped, depth);
    }
}

/// Two blocks fold independently when the second starts no deeper than the first one's level.
proof fn lemma_fold_concat(
    a: Seq<RowView>,
    b: Seq<RowView>,
    depth: int,
    collapsed: Set<Seq<char>>,
)
    requires
        at_least(a, depth),
        b.len() == 0 || row_depth(b[0]) <= depth,
    ensures
        folded_away(a + b, collapsed) == folded_away(a, collapsed) + folded_away(b, collapsed),
    decreases a.len(),
{
    if a.len() == 0 {
        assert(a + b =~= b);
        assert(folded_away(a, collapsed) + folded_away(b, collapsed) =~= folded_away(b, collapsed));
    } else {
        let rest = a.drop_first();
        assert((a + b).drop_first() =~= rest + b);
        assert forall|i: int| 0 <= i < rest.len() implies depth <= row_depth(#[trigger] rest[i]) by {
            assert(rest[i] == a[i + 1]);
        }
        let own = row_depth(a[0]);
        assert(depth <= own);
        let hides = a[0] is Directory && collapsed.contains(a[0]->path);
        if hides {
            lemma_skip_concat(rest, b, own);
            lemma_skip_at_least(rest, own, depth);
            lemma_skip_deeper_shorter(rest, own);
            lemma_fold_concat(skip_deeper(rest, own), b, depth, collapsed);
        } else {
            lemma_fold_concat(rest, b, depth, collapsed);
        }
        assert(folded_away(a + b, collapsed) =~= folded_away(a, collapsed) + folded_away(
            b,
            collapsed,
        ));
    }
}

/// A collapsed directory hides its contents and nothing else: the rows shown are the fully
/// expanded ones, minus the deeper rows that follow each collapsed directory.
pub proof fn law_collapsing_hides_contents_only(
    tree: Tree,
    prefix: Seq<char>,
    depth: int,
    compress: bool,
    collapsed: Set<Seq<char>>,
)
    ensures
        rows_of(tree, prefix, depth, compress, collapsed) == folded_away(
            rows_of(tree, prefix, depth, compress, Set::empty()),
            collapsed,
        ),
    decreases tree, 1int,
{
    let none = Set::<Seq<char>>::empty();
    let dirs = forest_rows(tree.dirs, prefix, depth, compress, none);
    let files = file_rows(tree.files, depth);
    lemma_forest_at_least(tree.dirs, prefix, depth, compress, none);
    lemma_fold_concat(dirs, files, depth, collapsed);
    lemma_forest_folds(tree.dirs, prefix, depth, compress, collapsed);
    lemma_files_fold(files, collapsed);
}

proof fn lemma_files_fold(rows: Seq<RowView>, collapsed: Set<Seq<char>>)
    requires
        forall|i: int| 0 <= i < rows.len() ==> (#[trigger] rows[i]) is File,
    ensures
        folded_away(rows, collapsed) == rows,
    decreases rows.len(),
{
    if rows.len() > 0 {
        let rest = rows.drop_first();
        assert forall|i: int| 0 <= i < rest.len() implies (#[trigger] rest[i]) is File by {
            assert(rest[i] == rows[i + 1]);
        }
        lemma_files_fold(rest, collapsed);
        assert(seq![rows[0]] + rest =~= rows);
    }
}

proof fn lemma_forest_folds(
    dirs: Seq<Branch>,
    prefix: Seq<char>,
    depth: int,
    compress: bool,
    collapsed: Set<Seq<char>>,
)
    ensures
        forest_rows(dirs, prefix, depth, compress, collapsed) == folded_away(
            forest_rows(dirs, prefix, depth, compress, Set::empty()),
            collapsed,
        ),
    decreases dirs, 0int,
{
    if dirs.len() > 0 {
        let none = Set::<Seq<char>>::empty();
        let last = dirs.last();
        let path = joined(prefix, last.name);
        let front = forest_rows(dirs.drop_last(), prefix, depth, compress, none);
        let back = branch_rows(path, last.name, last.tree, depth, compress, none);
        lemma_forest_folds(dirs.drop_last(), prefix, depth, compress, collapsed);
        lemma_branch_folds(path, last.name, last.tree, depth, compress, collapsed);
        lemma_forest_at_least(dirs.drop_last(), prefix, depth, compress, none);
        lemma_branch_shape(path, last.name, last.tree, depth, compress, none);
        lemma_fold_concat(front, back, depth, collapsed);
    }
}

proof fn lemma_branch_folds(
    path: Seq<char>,
    label: Seq<char>,
    tree: Tree,
    depth: int,
    compress: bool,
    collapsed: Set<Seq<char>>,
)
    ensures
        branch_rows(path, label, tree, depth, compress, collapsed) == folded_away(
            branch_rows(path, label, tree, depth, compress, Set::empty()),
            collapsed,
        ),
    decreases tree, 2int,
{
    let none = Set::<Seq<char>>::empty();
    if compress && tree.files.len() == 0 && tree.dirs.len() == 1 {
        let only = tree.dirs[0];
        lemma_branch_folds(
            joined(path, only.name),
            label + seq!['/'] + only.name,
            only.tree,
            depth,
            compress,
            collapsed,
        );
    } else {
        let inside = rows_of(tree, path, depth + 1, compress, none);
        let full = branch_rows(path, label, tree, depth, compress, none);
        assert(full.drop_first() =~= inside);
        if collapsed.contains(path) {
            lemma_rows_at_least(tree, path, depth + 1, compress, none);
            lemma_skip_all(inside, depth);
            assert(folded_away(Seq::empty(), collapsed) =~= Seq::<RowView>::empty());
            assert(folded_away(full, collapsed) =~= branch_rows(
                path,
                label,
                tree,
                depth,
                compress,
                collapsed,
            ));
        } else {
            law_collapsing_hides_contents_only(tree, path, depth + 1, compress, collapsed);
        }
    }
}

/// The files that `rows` show, in order.
pub open spec fn shown_files(rows: Seq<RowView>) -> Seq<usize>
    decreases rows.len(),
{
    if rows.len() == 0 {
        Seq::empty()
    } else {
        let before = shown_files(rows.drop_last());
        match rows.last() {
            RowView::Directory { .. } => before,
            RowView::File { entry, .. } => before.push(entry),
        }
    }
}

/// The files that a tree holds at any depth, each as often as it was added.
pub open spec fn held(tree: Tree) -> Multiset<usize>
    decreases tree, 1int,
{
    forest_held(tree.dirs).add(tree.files.to_multiset())
}

/// The files that the directories `dirs` hold at any depth.
pub open spec fn forest_held(dirs: Seq<Branch>) -> Multiset<usize>
    decreases dirs, 0int,
{
    if dirs.len() == 0 {
        Multiset::empty()
    } else {
        forest_held(dirs.drop_last()).add(held(dirs.last().tree))
    }
}

pub(crate) proof fn lemma_shown_concat(a: Seq<RowView>, b: Seq<RowView>)
    ensures
        shown_files(a + b) == shown_files(a) + shown_files(b),
    decreases b.len(),
{
    if b.len() == 0 {
        assert(a + b =~= a);
        assert(shown_files(a) + shown_files(b) =~= shown_files(a));
    } else {
        assert((a + b).drop_last() =~= a + b.drop_last());
        assert((a + b).last() == b.last());
        lemma_shown_concat(a, b.drop_last());
        assert(shown_files(a + b) =~= shown_files(a) + shown_files(b));
    }
}

proof fn lemma_shown_file_rows(files: Seq<usize>, depth: int)
    ensures
        shown_files(file_rows(files, depth)) == files,
    decreases files.len(),
{
    let rows = file_rows(files, depth);
    if files.len() > 0 {
        assert(rows.drop_last() =~= file_rows(files.drop_last(), depth));
        lemma_shown_file_rows(files.drop_last(), depth);
        assert(shown_files(rows) =~= files);
    } else {
        assert(shown_files(rows) =~= files);
    }
}

/// Fully expanded, a tree shows every file that it holds, and each as often as it holds it.
pub proof fn law_expanded_tree_shows_every_file(
    tree: Tree,
    prefix: Seq<char>,
    depth: int,
    compress: bool,
)
    ensures
        shown_files(rows_of(tree, prefix, depth, compress, Set::empty())).to_multiset() == held(tree),
    decreases tree, 1int,
{
    let none = Set::<Seq<char>>::empty();
    let dirs = forest_rows(tree.dirs, prefix, depth, compress, none);
    let files = file_rows(tree.files, depth);
    lemma_shown_concat(dirs, files);
    lemma_shown_file_rows(tree.files, depth);
    lemma_forest_shows(tree.dirs, prefix, depth, compress);
    vstd::seq_lib::lemma_multiset_commutative(shown_files(dirs), shown_files(files));
}

proof fn lemma_forest_shows(dirs: Seq<Branch>, prefix: Seq<char>, depth: int, compress: bool)
    ensures
        shown_files(forest_rows(dirs, prefix, depth, compress, Set::empty())).to_multiset()
            == forest_held(dirs),
    decreases dirs, 0int,
{
    let none = Set::<Seq<char>>::empty();
    if dirs.len() == 0 {
        broadcast use vstd::seq_lib::group_to_multiset_ensures;

        assert(shown_files(forest_rows(dirs, prefix, depth, compress, none)).to_multiset()
            =~= forest_held(dirs));
    } else {
        let last = dirs.last();
        let path = joined(prefix, last.name);
        let front = forest_rows(dirs.drop_last(), prefix, depth, compress, none);
        let back = branch_rows(path, last.name, last.tree, depth, compress, none);
        lemma_forest_shows(dirs.drop_last(), prefix, depth, compress);
        lemma_branch_shows(path, last.name, last.tree, depth, compress);
        lemma_shown_concat(front, back);
        vstd::seq_lib::lemma_multiset_commutative(shown_files(front), shown_files(back));
    }
}

proof fn lemma_branch_shows(
    path: Seq<char>,
    label: Seq<char>,
    tree: Tree,
    depth: int,
    compress: bool,
)
    ensures
        shown_files(branch_rows(path, label, tree, depth, compress, Set::empty())).to_multiset()
            == held(tree),
    decreases tree, 2int,
{
    let none = Set::<Seq<char>>::empty();
    if compress && tree.files.len() == 0 && tree.dirs.len() == 1 {
        let only = tree.dirs[0];
        lemma_branch_shows(
            joined(path, only.name),
            label + seq!['/'] + only.name,
            only.tree,
            depth,
            compress,
        );
        broadcast use vstd::seq_lib::group_to_multiset_ensures;

        assert(tree.dirs.drop_last() =~= Seq::<Branch>::empty());
        assert(forest_held(tree.dirs.drop_last()) =~= Multiset::empty());
        assert(tree.files.to_multiset() =~= Multiset::empty());
        assert(held(tree) =~= held(only.tree));
    } else {
        law_expanded_tree_shows_every_file(tree, path, depth + 1, compress);
        let row = RowView::Directory { path, label, depth, collapsed: false };
        let inside = rows_of(tree, path, depth + 1, compress, none);
        lemma_shown_concat(seq![row], inside);
        reveal_with_fuel(shown_files, 2);
        assert(shown_files(seq![row]) =~= Seq::<usize>::empty());
        assert(shown_files(seq![row]) + shown_files(inside) =~= shown_files(inside));
    }
}

/// Replacing one directory by a version that holds one more file adds that file.
proof fn lemma_forest_held_update(dirs: Seq<Branch>, at: int, branch: Branch, entry: usize)
    requires
        0 <= at < dirs.len(),
        held(branch.tree) == held(dirs[at].tree).insert(entry),
    ensures
        forest_held(dirs.update(at, branch)) == forest_held(dirs).insert(entry),
    decreases dirs.len(),
{
    let after = dirs.update(at, branch);
    if at == dirs.len() - 1 {
        assert(after.drop_last() =~= dirs.drop_last());
    } else {
        assert(after.drop_last() =~= dirs.drop_last().update(at, branch));
        lemma_forest_held_update(dirs.drop_last(), at, branch, entry);
    }
    assert(forest_held(after) =~= forest_held(dirs).insert(entry));
}

/// Adding a directory adds what it holds.
proof fn lemma_forest_held_insert(dirs: Seq<Branch>, at: int, branch: Branch)
    requires
        0 <= at <= dirs.len(),
    ensures
        forest_held(dirs.insert(at, branch)) == forest_held(dirs).add(held(branch.tree)),
    decreases dirs.len(),
{
    let after = dirs.insert(at, branch);
    if at == dirs.len() {
        assert(after.drop_last() =~= dirs);
        assert(after.last() == branch);
    } else {
        assert(after.drop_last() =~= dirs.drop_last().insert(at, branch));
        assert(after.last() == dirs.last());
        lemma_forest_held_insert(dirs.drop_last(), at, branch);
        assert(forest_held(after) =~= forest_held(dirs).add(held(branch.tree)));
    }
}

/// Adding a file to a tree makes it hold that file once more, and changes nothing else.
pub proof fn law_insert_adds_the_file(tree: Tree, components: Seq<Seq<char>>, entry: usize)
    requires
        components.len() > 0,
    ensures
        held(tree_insert(tree, components, entry)) == held(tree).insert(entry),
    decreases components.len(),
{
    broadcast use vstd::seq_lib::group_to_multiset_ensures;

    let after = tree_insert(tree, components, entry);
    if components.len() > 1 {
        let name = components[0];
        let rest = components.drop_first();
        let at = slot(tree.dirs, name);
        lemma_slot(tree.dirs, name);
        if at < tree.dirs.len() && tree.dirs[at].name == name {
            law_insert_adds_the_file(tree.dirs[at].tree, rest, entry);
            let child = tree_insert(tree.dirs[at].tree, rest, entry);
            lemma_forest_held_update(tree.dirs, at, Branch { name, tree: child }, entry);
        } else {
            law_insert_adds_the_file(empty_tree(), rest, entry);
            let child = tree_insert(empty_tree(), rest, entry);
            lemma_forest_held_insert(tree.dirs, at, Branch { name, tree: child });
            assert(held(empty_tree()) =~= Multiset::empty());
        }
    }
    assert(held(after) =~= held(tree).insert(entry));
}

/// Whether a file row is only ever followed by another file of its directory or by a row of an
/// outer level.
pub open spec fn files_end_their_level(rows: Seq<RowView>) -> bool {
    forall|i: int|
        0 <= i < rows.len() - 1 && (#[trigger] rows[i]) is File ==> {
            ||| row_depth(rows[i + 1]) < row_depth(rows[i])
            ||| rows[i + 1] is File && row_depth(rows[i + 1]) == row_depth(rows[i])
        }
}

/// Whether rows step down one level at a time, and only into a directory that is expanded.
pub open spec fn levels_nest(rows: Seq<RowView>) -> bool {
    forall|i: int|
        0 <= i < rows.len() - 1 ==> {
            ||| row_depth(rows[i + 1]) <= row_depth(#[trigger] rows[i])
            ||| rows[i] is Directory && !rows[i]->collapsed && row_depth(rows[i + 1]) == row_depth(
                rows[i],
            ) + 1
        }
}

/// Both shapes at once.
spec fn well_shaped(rows: Seq<RowView>) -> bool {
    files_end_their_level(rows) && levels_nest(rows)
}

/// Blocks keep their shape side by side, when the second starts on the first one's level with a
/// directory and the first one's level holds no file, or when it starts with a file.
proof fn lemma_shape_concat(a: Seq<RowView>, b: Seq<RowView>, depth: int)
    requires
        well_shaped(a),
        well_shaped(b),
        at_least(a, depth),
        b.len() > 0 ==> row_depth(b[0]) == depth,
        b.len() > 0 ==> b[0] is File || forall|i: int|
            0 <= i < a.len() && row_depth(#[trigger] a[i]) == depth ==> a[i] is Directory,
    ensures
        well_shaped(a + b),
{
    let rows = a + b;
    assert forall|i: int| 0 <= i < rows.len() - 1 && (#[trigger] rows[i]) is File implies {
        ||| row_depth(rows[i + 1]) < row_depth(rows[i])
        ||| rows[i + 1] is File && row_depth(rows[i + 1]) == row_depth(rows[i])
    } by {
        if i + 1 < a.len() {
            assert(rows[i] == a[i] && rows[i + 1] == a[i + 1]);
        } else if i + 1 == a.len() {
            assert(rows[i] == a[i] && rows[i + 1] == b[0]);
            assert(depth <= row_depth(a[i]));
        } else {
            assert(rows[i] == b[i - a.len()] && rows[i + 1] == b[i - a.len() + 1]);
        }
    }
    assert forall|i: int| 0 <= i < rows.len() - 1 implies {
        ||| row_depth(rows[i + 1]) <= row_depth(#[trigger] rows[i])
        ||| rows[i] is Directory && !rows[i]->collapsed && row_depth(rows[i + 1]) == row_depth(
            rows[i],
        ) + 1
    } by {
        if i + 1 < a.len() {
            assert(rows[i] == a[i] && rows[i + 1] == a[i + 1]);
        } else if i + 1 == a.len() {
            assert(rows[i] == a[i] && rows[i + 1] == b[0]);
            assert(depth <= row_depth(a[i]));
        } else {
            assert(rows[i] == b[i - a.len()] && rows[i + 1] == b[i - a.len() + 1]);
        }
    }
}

/// At the level of a run of directories there is no file.
spec fn only_directories_at(rows: Seq<RowView>, depth: int) -> bool {
    forall|i: int|
        0 <= i < rows.len() && row_depth(#[trigger] rows[i]) == depth ==> rows[i] is Directory
}

proof fn lemma_rows_shape(
    tree: Tree,
    prefix: Seq<char>,
    depth: int,
    compress: bool,
    collapsed: Set<Seq<char>>,
)
    ensures
        well_shaped(rows_of(tree, prefix, depth, compress, collapsed)),
        ({
            let rows = rows_of(tree, prefix, depth, compress, collapsed);
            rows.len() > 0 ==> row_depth(rows[0]) == depth
        }),
    decreases tree, 1int,
{
    let dirs = forest_rows(tree.dirs, prefix, depth, compress, collapsed);
    let files = file_rows(tree.files, depth);
    lemma_forest_shape(tree.dirs, prefix, depth, compress, collapsed);
    lemma_forest_at_least(tree.dirs, prefix, depth, compress, collapsed);
    lemma_shape_concat(dirs, files, depth);
}

proof fn lemma_forest_shape(
    dirs: Seq<Branch>,
    prefix: Seq<char>,
    depth: int,
    compress: bool,
    collapsed: Set<Seq<char>>,
)
    ensures
        ({
            let rows = forest_rows(dirs, prefix, depth, compress, collapsed);
            &&& well_shaped(rows)
            &&& only_directories_at(rows, depth)
            &&& rows.len() > 0 ==> row_depth(rows[0]) == depth
        }),
    decreases dirs, 0int,
{
    if dirs.len() > 0 {
        let last = dirs.last();
        let path = joined(prefix, last.name);
        let front = forest_rows(dirs.drop_last(), prefix, depth, compress, collapsed);
        let back = branch_rows(path, last.name, last.tree, depth, compress, collapsed);
        lemma_forest_shape(dirs.drop_last(), prefix, depth, compress, collapsed);
        lemma_forest_at_least(dirs.drop_last(), prefix, depth, compress, collapsed);
        lemma_branch_shape(path, last.name, last.tree, depth, compress, collapsed);
        lemma_branch_inner_shape(path, last.name, last.tree, depth, compress, collapsed);
        lemma_shape_concat(front, back, depth);
        let rows = front + back;
        assert forall|i: int|
            0 <= i < rows.len() && row_depth(#[trigger] rows[i]) == depth implies rows[i]
            is Directory by {
            if i < front.len() {
                assert(rows[i] == front[i]);
            } else if i > front.len() {
                assert(rows[i] == back.drop_first()[i - front.len() - 1]);
            }
        }
    }
}

proof fn lemma_branch_inner_shape(
    path: Seq<char>,
    label: Seq<char>,
    tree: Tree,
    depth: int,
    compress: bool,
    collapsed: Set<Seq<char>>,
)
    ensures
        well_shaped(branch_rows(path, label, tree, depth, compress, collapsed)),
    decreases tree, 2int,
{
    if compress && tree.files.len() == 0 && tree.dirs.len() == 1 {
        let only = tree.dirs[0];
        lemma_branch_inner_shape(
            joined(path, only.name),
            label + seq!['/'] + only.name,
            only.tree,
            depth,
            compress,
            collapsed,
        );
    } else if !collapsed.contains(path) {
        let inside = rows_of(tree, path, depth + 1, compress, collapsed);
        lemma_rows_shape(tree, path, depth + 1, compress, collapsed);
        let rows = branch_rows(path, label, tree, depth, compress, collapsed);
        assert forall|i: int| 0 <= i < rows.len() - 1 && (#[trigger] rows[i]) is File implies {
            ||| row_depth(rows[i + 1]) < row_depth(rows[i])
            ||| rows[i + 1] is File && row_depth(rows[i + 1]) == row_depth(rows[i])
        } by {
            assert(rows[i] == inside[i - 1] && rows[i + 1] == inside[i]);
        }
        assert forall|i: int| 0 <= i < rows.len() - 1 implies {
            ||| row_depth(rows[i + 1]) <= row_depth(#[trigger] rows[i])
            ||| rows[i] is Directory && !rows[i]->collapsed && row_depth(rows[i + 1]) == row_depth(
                rows[i],
            ) + 1
        } by {
            assert(rows[i + 1] == inside[i]);
            if i > 0 {
                assert(rows[i] == inside[i - 1]);
            }
        }
    }
}

/// Rows step down one level at a time, and only into a directory that is expanded. They start at
/// the level asked for.
pub proof fn law_levels_nest(
    tree: Tree,
    prefix: Seq<char>,
    depth: int,
    compress: bool,
    collapsed: Set<Seq<char>>,
)
    ensures
        ({
            let rows = rows_of(tree, prefix, depth, compress, collapsed);
            &&& levels_nest(rows)
            &&& at_least(rows, depth)
            &&& rows.len() > 0 ==> row_depth(rows[0]) == depth
        }),
{
    lemma_rows_shape(tree, prefix, depth, compress, collapsed);
    lemma_rows_at_least(tree, prefix, depth, compress, collapsed);
}

/// Directories come before files at every level: a directory below a file at the same level or
/// deeper belongs to another directory, one whose row or the end of whose contents lies between.
pub proof fn law_directories_come_before_files(
    tree: Tree,
    prefix: Seq<char>,
    depth: int,
    compress: bool,
    collapsed: Set<Seq<char>>,
    file: int,
    directory: int,
)
    requires
        ({
            let rows = rows_of(tree, prefix, depth, compress, collapsed);
            &&& 0 <= file < directory < rows.len()
            &&& rows[file] is File
            &&& rows[directory] is Directory
        }),
    ensures
        ({
            let rows = rows_of(tree, prefix, depth, compress, collapsed);
            exists|between: int|
                file < between <= directory && row_depth(#[trigger] rows[between]) < row_depth(
                    rows[file],
                )
        }),
{
    let rows = rows_of(tree, prefix, depth, compress, collapsed);
    lemma_rows_shape(tree, prefix, depth, compress, collapsed);
    lemma_level_ends(rows, file, directory);
}

proof fn lemma_level_ends(rows: Seq<RowView>, file: int, directory: int)
    requires
        files_end_their_level(rows),
        0 <= file < directory < rows.len(),
        rows[file] is File,
        rows[directory] is Directory,
    ensures
        exists|between: int|
            file < between <= directory && row_depth(#[trigger] rows[between]) < row_depth(
                rows[file],
            ),
    decreases directory - file,
{
    if row_depth(rows[file + 1]) < row_depth(rows[file]) {
    } else {
        assert(rows[file + 1] is File);
        lemma_level_ends(rows, file + 1, directory);
        let between = choose|between: int|
            file + 1 < between <= directory && row_depth(#[trigger] rows[between]) < row_depth(
                rows[file + 1],
            );
        assert(row_depth(rows[between]) < row_depth(rows[file]));
    }
}

} // verus!

//! From a list of changed files to the rows of its tree.

use vstd::prelude::*;

use crate::changes::{display_paths, ChangedFile};
use crate::text::{
    components, lemma_lex_less_irreflexive, lemma_lex_less_total, lemma_lex_less_transitive,
    lex_less, split_path, str_less,
};
use crate::tree::{
    empty_tree, height, lemma_insert_height, ordered, row_views, rows_of, texts, tree_insert,
    DirectorySet, Row, RowView, Tree, TreeNode,
};

verus! {

/// Where a file at `path` goes among the files `sorted`: behind everything that does not sort
/// after it.
pub open spec fn place(paths: Seq<Seq<char>>, sorted: Seq<usize>, path: Seq<char>) -> int
    decreases sorted.len(),
{
    if sorted.len() == 0 || lex_less(path, paths[sorted[0] as int]) {
        0
    } else {
        1 + place(paths, sorted.drop_first(), path)
    }
}

/// The files `order`, sorted by path. Files with the same path keep the order they came in, and
/// anything that is not a position of `paths` is left out.
pub open spec fn arranged(paths: Seq<Seq<char>>, order: Seq<usize>) -> Seq<usize>
    decreases order.len(),
{
    if order.len() == 0 {
        Seq::empty()
    } else {
        let before = arranged(paths, order.drop_last());
        let next = order.last();
        if next < paths.len() {
            before.insert(place(paths, before, paths[next as int]), next)
        } else {
            before
        }
    }
}

/// The tree that holds the files `order`, added one after the other.
pub open spec fn tree_of(paths: Seq<Seq<char>>, order: Seq<usize>) -> Tree
    decreases order.len(),
{
    if order.len() == 0 {
        empty_tree()
    } else {
        tree_insert(
            tree_of(paths, order.drop_last()),
            components(paths[order.last() as int]),
            order.last(),
        )
    }
}

/// The rows that show the files `order` as a tree.
pub open spec fn outline(
    paths: Seq<Seq<char>>,
    order: Seq<usize>,
    compress: bool,
    collapsed: Set<Seq<char>>,
) -> Seq<RowView> {
    rows_of(tree_of(paths, arranged(paths, order)), Seq::empty(), 0, compress, collapsed)
}

/// Whether `sorted` lists positions of `paths`, no path sorting before the one ahead of it.
pub open spec fn ascending(paths: Seq<Seq<char>>, sorted: Seq<usize>) -> bool {
    &&& forall|i: int| 0 <= i < sorted.len() ==> #[trigger] sorted[i] < paths.len()
    &&& forall|i: int, j: int|
        0 <= i < j < sorted.len() ==> !lex_less(
            paths[#[trigger] sorted[j] as int],
            paths[#[trigger] sorted[i] as int],
        )
}

/// The place of a path is the first one where everything behind sorts after it.
pub(crate) proof fn lemma_place(paths: Seq<Seq<char>>, sorted: Seq<usize>, path: Seq<char>)
    ensures
        0 <= place(paths, sorted, path) <= sorted.len(),
        forall|k: int|
            0 <= k < place(paths, sorted, path) ==> !lex_less(
                path,
                paths[#[trigger] sorted[k] as int],
            ),
        place(paths, sorted, path) < sorted.len() ==> lex_less(
            path,
            paths[sorted[place(paths, sorted, path)] as int],
        ),
    decreases sorted.len(),
{
    if sorted.len() > 0 && !lex_less(path, paths[sorted[0] as int]) {
        let rest = sorted.drop_first();
        lemma_place(paths, rest, path);
        assert forall|k: int| 0 <= k < place(paths, sorted, path) implies !lex_less(
            path,
            paths[#[trigger] sorted[k] as int],
        ) by {
            if k > 0 {
                assert(rest[k - 1] == sorted[k]);
            }
        }
        if place(paths, sorted, path) < sorted.len() {
            assert(rest[place(paths, rest, path)] == sorted[place(paths, sorted, path)]);
        }
    }
}

/// Not sorting after is transitive.
proof fn lemma_not_after_transitive(a: Seq<char>, b: Seq<char>, c: Seq<char>)
    requires
        !lex_less(b, a),
        !lex_less(c, b),
    ensures
        !lex_less(c, a),
{
    lemma_lex_less_total(a, b);
    lemma_lex_less_total(b, c);
    lemma_lex_less_irreflexive(a);
    if lex_less(c, a) {
        if a == b {
        } else if b == c {
        } else {
            lemma_lex_less_transitive(a, b, c);
            lemma_lex_less_transitive(a, c, a);
        }
    }
}

/// Putting a file in its place keeps the list ascending.
proof fn lemma_place_keeps_ascending(paths: Seq<Seq<char>>, sorted: Seq<usize>, next: usize)
    requires
        ascending(paths, sorted),
        next < paths.len(),
    ensures
        ascending(
            paths,
            sorted.insert(place(paths, sorted, paths[next as int]), next),
        ),
{
    let path = paths[next as int];
    let at = place(paths, sorted, path);
    lemma_place(paths, sorted, path);
    let after = sorted.insert(at, next);
    assert forall|i: int| 0 <= i < after.len() implies #[trigger] after[i] < paths.len() by {
        if i < at {
            assert(after[i] == sorted[i]);
        } else if i > at {
            assert(after[i] == sorted[i - 1]);
        }
    }
    assert forall|i: int, j: int| 0 <= i < j < after.len() implies !lex_less(
        paths[#[trigger] after[j] as int],
        paths[#[trigger] after[i] as int],
    ) by {
        let old_i = if i < at { i } else { i - 1 };
        let old_j = if j < at { j } else { j - 1 };
        if i == at {
            let first = paths[sorted[at] as int];
            let other = paths[sorted[old_j] as int];
            if lex_less(other, path) {
                lemma_lex_less_transitive(other, path, first);
                if old_j == at {
                    lemma_lex_less_irreflexive(first);
                } else {
                    assert(!lex_less(paths[sorted[old_j] as int], paths[sorted[at] as int]));
                }
            }
        } else if j == at {
            assert(!lex_less(path, paths[sorted[i] as int]));
        } else {
            assert(!lex_less(paths[sorted[old_j] as int], paths[sorted[old_i] as int]));
        }
    }
}

/// Sorting sorts.
pub proof fn lemma_arranged_ascending(paths: Seq<Seq<char>>, order: Seq<usize>)
    ensures
        ascending(paths, arranged(paths, order)),
    decreases order.len(),
{
    if order.len() > 0 {
        lemma_arranged_ascending(paths, order.drop_last());
        if order.last() < paths.len() {
            lemma_place_keeps_ascending(
                paths,
                arranged(paths, order.drop_last()),
                order.last(),
            );
        }
    }
}

/// A place with nothing before it that sorts after the path, and only such from it on, is where
/// the path goes.
proof fn lemma_place_unique(paths: Seq<Seq<char>>, sorted: Seq<usize>, path: Seq<char>, at: int)
    requires
        0 <= at <= sorted.len(),
        forall|k: int| 0 <= k < at ==> !lex_less(path, paths[#[trigger] sorted[k] as int]),
        at < sorted.len() ==> lex_less(path, paths[sorted[at] as int]),
    ensures
        at == place(paths, sorted, path),
{
    lemma_place(paths, sorted, path);
    if place(paths, sorted, path) < at {
        assert(!lex_less(path, paths[sorted[place(paths, sorted, path)] as int]));
    }
}

/// Where `path` goes among the files `sorted`.
fn find_place(files: &Vec<ChangedFile>, sorted: &Vec<usize>, path: &str) -> (at: usize)
    requires
        ascending(display_paths(files@), sorted@),
    ensures
        at == place(display_paths(files@), sorted@, path@),
        at <= sorted@.len(),
{
    let ghost paths = display_paths(files@);
    let mut low: usize = 0;
    let mut high: usize = sorted.len();
    while low < high
        invariant
            paths == display_paths(files@),
            ascending(paths, sorted@),
            low <= high <= sorted@.len(),
            forall|k: int| 0 <= k < low ==> !lex_less(path@, paths[#[trigger] sorted@[k] as int]),
            forall|k: int|
                high <= k < sorted@.len() ==> lex_less(
                    path@,
                    paths[#[trigger] sorted@[k] as int],
                ),
        decreases high - low,
    {
        let middle: usize = low + (high - low) / 2;
        let other = sorted[middle];
        let after = str_less(path, files[other].display_path.as_str());
        proof {
            let pivot = paths[sorted@[middle as int] as int];
            assert(pivot == files@[other as int].display_path@);
            assert forall|k: int| !after && 0 <= k < middle implies !lex_less(
                path@,
                paths[#[trigger] sorted@[k] as int],
            ) by {
                assert(!lex_less(pivot, paths[sorted@[k] as int]));
                lemma_not_after_transitive(paths[sorted@[k] as int], pivot, path@);
            }
            assert forall|k: int| after && middle < k < sorted@.len() implies lex_less(
                path@,
                paths[#[trigger] sorted@[k] as int],
            ) by {
                let other = paths[sorted@[k] as int];
                assert(!lex_less(other, pivot));
                if !lex_less(path@, other) {
                    lemma_not_after_transitive(pivot, other, path@);
                }
            }
        }
        if after {
            high = middle;
        } else {
            low = middle + 1;
        }
    }
    proof {
        lemma_place_unique(paths, sorted@, path@, low as int);
    }
    low
}

/// The files `order`, sorted by path.
pub fn sort_by_path(files: &Vec<ChangedFile>, order: &Vec<usize>) -> (sorted: Vec<usize>)
    ensures
        sorted@ == arranged(display_paths(files@), order@),
{
    let ghost paths = display_paths(files@);
    let mut sorted: Vec<usize> = Vec::new();
    let mut i: usize = 0;
    while i < order.len()
        invariant
            paths == display_paths(files@),
            i <= order.len(),
            sorted@ == arranged(paths, order@.take(i as int)),
        decreases order.len() - i,
    {
        let next = order[i];
        proof {
            assert(order@.take(i + 1).drop_last() =~= order@.take(i as int));
            lemma_arranged_ascending(paths, order@.take(i as int));
        }
        if next < files.len() {
            let at = find_place(files, &sorted, files[next].display_path.as_str());
            sorted.insert(at, next);
        }
        i += 1;
    }
    proof {
        assert(order@.take(i as int) =~= order@);
    }
    sorted
}

/// The rows that show the files `order` as a tree, minus anything inside a collapsed directory.
pub fn build_rows(
    files: &Vec<ChangedFile>,
    order: &Vec<usize>,
    compress: bool,
    collapsed: &DirectorySet,
) -> (rows: Vec<Row>)
    ensures
        row_views(rows@) == outline(display_paths(files@), order@, compress, collapsed@),
{
    let sorted = sort_by_path(files, order);
    let ghost paths = display_paths(files@);
    proof {
        lemma_arranged_ascending(paths, order@);
        assert(ordered(empty_tree()));
        assert(height(empty_tree()) == 0);
    }
    let mut root = TreeNode::default();
    let mut i: usize = 0;
    while i < sorted.len()
        invariant
            paths == display_paths(files@),
            ascending(paths, sorted@),
            i <= sorted.len(),
            ordered(root@),
            height(root@) <= usize::MAX,
            root@ == tree_of(paths, sorted@.take(i as int)),
        decreases sorted.len() - i,
    {
        let index = sorted[i];
        let pieces = split_path(files[index].display_path.as_str());
        proof {
            assert(sorted@.take(i + 1).drop_last() =~= sorted@.take(i as int));
            assert(texts(pieces@) =~= components(paths[index as int]));
            assert(pieces.len() == pieces@.len());
            lemma_insert_height(root@, texts(pieces@), index, usize::MAX as nat);
        }
        root.insert(pieces.as_slice(), index);
        i += 1;
    }
    proof {
        assert(sorted@.take(i as int) =~= sorted@);
        reveal_strlit("");
        assert(""@ =~= Seq::<char>::empty());
    }
    let mut rows: Vec<Row> = Vec::new();
    root.flatten("", 0, compress, collapsed, &mut rows);
    proof {
        assert(row_views(Seq::<Row>::empty()) =~= Seq::<RowView>::empty());
        assert(row_views(rows@) =~= outline(paths, order@, compress, collapsed@));
    }
    rows
}

} // verus!

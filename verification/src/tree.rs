//! Changed files arranged as a tree of directories, and the rows a list shows of it.

use vstd::hash_set::StringHashSet;
use vstd::prelude::*;

use crate::text::{
    join_path, joined, lemma_lex_less_total, lemma_lex_less_transitive, lex_less, str_less, with_slash,
};

verus! {

/// A directory and everything below it, as a value: subdirectories by name, then the entries
/// that lie in it directly.
pub struct Tree {
    pub dirs: Seq<Branch>,
    pub files: Seq<usize>,
}

/// A subdirectory under its own name.
pub struct Branch {
    pub name: Seq<char>,
    pub tree: Tree,
}

/// How many directories the longest way down passes through.
pub open spec fn height(tree: Tree) -> nat
    decreases tree, 1int,
{
    forest_height(tree.dirs)
}

/// The height of a directory that holds `dirs`.
pub open spec fn forest_height(dirs: Seq<Branch>) -> nat
    decreases dirs, 0int,
{
    if dirs.len() == 0 {
        0
    } else {
        let rest = forest_height(dirs.drop_last());
        let last = 1 + height(dirs.last().tree);
        if rest < last {
            last
        } else {
            rest
        }
    }
}

/// Names ascend strictly, at this level and at every level below.
pub open spec fn ordered(tree: Tree) -> bool
    decreases tree,
{
    &&& forall|i: int, j: int|
        0 <= i < j < tree.dirs.len() ==> lex_less(
            #[trigger] tree.dirs[i].name,
            #[trigger] tree.dirs[j].name,
        )
    &&& forall|i: int| 0 <= i < tree.dirs.len() ==> ordered((#[trigger] tree.dirs[i]).tree)
}

/// A directory with nothing in it.
pub open spec fn empty_tree() -> Tree {
    Tree { dirs: Seq::empty(), files: Seq::empty() }
}

/// A line in the list, as a value.
pub enum RowView {
    Directory { path: Seq<char>, label: Seq<char>, depth: int, collapsed: bool },
    File { entry: usize, depth: int },
}

/// The rows of everything inside `tree`, whose own path is `prefix`: subdirectories first, each
/// followed by its contents, then files.
pub open spec fn rows_of(
    tree: Tree,
    prefix: Seq<char>,
    depth: int,
    compress: bool,
    collapsed: Set<Seq<char>>,
) -> Seq<RowView>
    decreases tree, 1int,
{
    forest_rows(tree.dirs, prefix, depth, compress, collapsed) + file_rows(tree.files, depth)
}

/// The rows of the directories `dirs`, in order.
pub open spec fn forest_rows(
    dirs: Seq<Branch>,
    prefix: Seq<char>,
    depth: int,
    compress: bool,
    collapsed: Set<Seq<char>>,
) -> Seq<RowView>
    decreases dirs, 0int,
{
    if dirs.len() == 0 {
        Seq::empty()
    } else {
        let last = dirs.last();
        forest_rows(dirs.drop_last(), prefix, depth, compress, collapsed) + branch_rows(
            joined(prefix, last.name),
            last.name,
            last.tree,
            depth,
            compress,
            collapsed,
        )
    }
}

/// The rows of one directory. When folding, a directory that holds a single subdirectory and
/// nothing else shares a row with it. A collapsed directory shows nothing below its own row.
pub open spec fn branch_rows(
    path: Seq<char>,
    label: Seq<char>,
    tree: Tree,
    depth: int,
    compress: bool,
    collapsed: Set<Seq<char>>,
) -> Seq<RowView>
    decreases tree, 2int,
{
    if compress && tree.files.len() == 0 && tree.dirs.len() == 1 {
        let only = tree.dirs[0];
        branch_rows(
            joined(path, only.name),
            label + seq!['/'] + only.name,
            only.tree,
            depth,
            compress,
            collapsed,
        )
    } else {
        let hidden = collapsed.contains(path);
        let row = RowView::Directory { path, label, depth, collapsed: hidden };
        if hidden {
            seq![row]
        } else {
            seq![row] + rows_of(tree, path, depth + 1, compress, collapsed)
        }
    }
}

/// One row for each of `files`.
pub open spec fn file_rows(files: Seq<usize>, depth: int) -> Seq<RowView> {
    Seq::new(files.len(), |i: int| RowView::File { entry: files[i], depth })
}

/// Where `name` belongs among `dirs`: how many leading names sort before it.
pub open spec fn slot(dirs: Seq<Branch>, name: Seq<char>) -> int
    decreases dirs.len(),
{
    if dirs.len() == 0 || !lex_less(dirs[0].name, name) {
        0
    } else {
        1 + slot(dirs.drop_first(), name)
    }
}

/// `tree` with `entry` added at the place its path components give: the last one is the file's
/// own name, the ones before it are directories, created where they are missing.
pub open spec fn tree_insert(tree: Tree, components: Seq<Seq<char>>, entry: usize) -> Tree
    decreases components.len(),
{
    if components.len() == 0 {
        tree
    } else if components.len() == 1 {
        Tree { dirs: tree.dirs, files: tree.files.push(entry) }
    } else {
        let name = components[0];
        let rest = components.drop_first();
        let at = slot(tree.dirs, name);
        if at < tree.dirs.len() && tree.dirs[at].name == name {
            let child = tree_insert(tree.dirs[at].tree, rest, entry);
            Tree { dirs: tree.dirs.update(at, Branch { name, tree: child }), files: tree.files }
        } else {
            let child = tree_insert(empty_tree(), rest, entry);
            Tree { dirs: tree.dirs.insert(at, Branch { name, tree: child }), files: tree.files }
        }
    }
}

/// A set of directory paths.
pub struct DirectorySet {
    paths: StringHashSet,
}

impl View for DirectorySet {
    type V = Set<Seq<char>>;

    closed spec fn view(&self) -> Set<Seq<char>> {
        self.paths@
    }
}

impl DirectorySet {
    pub fn new() -> (set: Self)
        ensures
            set@ == Set::<Seq<char>>::empty(),
    {
        DirectorySet { paths: StringHashSet::new() }
    }

    pub fn contains(&self, path: &str) -> (found: bool)
        ensures
            found == self@.contains(path@),
    {
        self.paths.contains(path)
    }

    /// Adds `path`, and says whether it was absent before.
    pub fn insert(&mut self, path: String) -> (added: bool)
        ensures
            final(self)@ == old(self)@.insert(path@),
            added == !old(self)@.contains(path@),
    {
        self.paths.insert(path)
    }

    /// Takes `path` out, and says whether it was present before.
    pub fn remove(&mut self, path: &str) -> (removed: bool)
        ensures
            final(self)@ == old(self)@.remove(path@),
            removed == old(self)@.contains(path@),
    {
        self.paths.remove(path)
    }

    pub fn clear(&mut self)
        ensures
            final(self)@ == Set::<Seq<char>>::empty(),
    {
        self.paths.clear();
    }
}

/// A line in the list. Tracked and untracked files share one tree rather than being split into
/// sections, so a directory holding both shows them together.
pub enum Row {
    Directory {
        /// Full path from the repository root, which is what the collapsed set is keyed by.
        path: String,
        /// What the row shows. Differs from the last component of `path` when a chain of
        /// single-child directories has been folded into one row.
        label: String,
        depth: usize,
        collapsed: bool,
    },
    File {
        /// Index into the list of changed files.
        entry: usize,
        depth: usize,
    },
}

impl View for Row {
    type V = RowView;

    open spec fn view(&self) -> RowView {
        match self {
            Row::Directory { path, label, depth, collapsed } => RowView::Directory {
                path: path@,
                label: label@,
                depth: *depth as int,
                collapsed: *collapsed,
            },
            Row::File { entry, depth } => RowView::File { entry: *entry, depth: *depth as int },
        }
    }
}

/// How deep a row sits in the tree.
pub open spec fn row_depth(row: RowView) -> int {
    match row {
        RowView::Directory { depth, .. } => depth,
        RowView::File { depth, .. } => depth,
    }
}

impl Row {
    /// How deep the row sits in the tree.
    pub fn depth(&self) -> (depth: usize)
        ensures
            depth == row_depth(self@),
    {
        match self {
            Row::Directory { depth, .. } => *depth,
            Row::File { depth, .. } => *depth,
        }
    }
}

/// The values of a list of rows.
pub open spec fn row_views(rows: Seq<Row>) -> Seq<RowView> {
    rows.map_values(|row: Row| row@)
}

/// A directory while the tree is being built. Files are indices into the list of changed files.
pub struct TreeNode {
    /// Subdirectories, names ascending and each at most once.
    children: Vec<(String, TreeNode)>,
    files: Vec<usize>,
}

impl View for TreeNode {
    type V = Tree;

    closed spec fn view(&self) -> Tree
        decreases self,
    {
        Tree {
            dirs: Seq::new(
                self.children@.len(),
                |i: int|
                    if 0 <= i < self.children@.len() {
                        Branch { name: self.children@[i].0@, tree: self.children@[i].1.view() }
                    } else {
                        arbitrary()
                    },
            ),
            files: self.files@,
        }
    }
}

impl Default for TreeNode {
    fn default() -> (node: Self)
        ensures
            node@ == empty_tree(),
    {
        let node = TreeNode { children: Vec::new(), files: Vec::new() };
        proof {
            assert(node@.dirs =~= empty_tree().dirs);
        }
        node
    }
}

/// Every directory of a forest is lower than the forest.
pub proof fn lemma_forest_height(dirs: Seq<Branch>, i: int)
    requires
        0 <= i < dirs.len(),
    ensures
        height(dirs[i].tree) < forest_height(dirs),
    decreases dirs.len(),
{
    if i < dirs.len() - 1 {
        lemma_forest_height(dirs.drop_last(), i);
        assert(dirs.drop_last()[i] == dirs[i]);
    }
}

impl TreeNode {
    /// Appends this node's rows, directories before files, skipping the contents of anything
    /// collapsed. With `compress`, a chain of directories holding a single child and no files of
    /// its own becomes one row, so `assets/themes/gruvbox` is one line rather than three;
    /// without it, every directory gets a level of its own.
    pub fn flatten(
        &self,
        prefix: &str,
        depth: usize,
        compress: bool,
        collapsed: &DirectorySet,
        rows: &mut Vec<Row>,
    )
        requires
            depth + height(self@) <= usize::MAX,
        ensures
            row_views(final(rows)@) == row_views(old(rows)@) + rows_of(
                self@,
                prefix@,
                depth as int,
                compress,
                collapsed@,
            ),
        decreases height(self@),
    {
        let ghost before = row_views(rows@);
        let ghost dirs = self@.dirs;
        let mut i: usize = 0;
        while i < self.children.len()
            invariant
                i <= self.children.len(),
                dirs == self@.dirs,
                dirs.len() == self.children@.len(),
                depth + height(self@) <= usize::MAX,
                row_views(rows@) == before + forest_rows(
                    dirs.take(i as int),
                    prefix@,
                    depth as int,
                    compress,
                    collapsed@,
                ),
            decreases self.children.len() - i,
        {
            let name = &self.children[i].0;
            let mut path = join_path(prefix, name.as_str());
            let mut label = name.clone();
            let mut child = &self.children[i].1;
            proof {
                lemma_forest_height(dirs, i as int);
            }
            let ghost target = branch_rows(
                path@,
                label@,
                child@,
                depth as int,
                compress,
                collapsed@,
            );
            while compress && child.files.len() == 0 && child.children.len() == 1
                invariant
                    height(child@) < height(self@),
                    target == branch_rows(
                        path@,
                        label@,
                        child@,
                        depth as int,
                        compress,
                        collapsed@,
                    ),
                decreases height(child@),
            {
                let name = &child.children[0].0;
                proof {
                    lemma_forest_height(child@.dirs, 0);
                }
                path = join_path(path.as_str(), name.as_str());
                label = with_slash(label.as_str(), name.as_str());
                child = &child.children[0].1;
            }

            let is_collapsed = collapsed.contains(path.as_str());
            let ghost middle = row_views(rows@);
            let row = Row::Directory { path: path.clone(), label, depth, collapsed: is_collapsed };
            let ghost row_view = row@;
            rows.push(row);
            proof {
                assert(row_views(rows@) =~= middle.push(row_view));
            }
            if !is_collapsed {
                child.flatten(path.as_str(), depth + 1, compress, collapsed, rows);
            }
            proof {
                assert(row_views(rows@) =~= middle + target);
                assert(dirs.take(i + 1).drop_last() =~= dirs.take(i as int));
                assert(row_views(rows@) =~= before + forest_rows(
                    dirs.take(i + 1),
                    prefix@,
                    depth as int,
                    compress,
                    collapsed@,
                ));
            }
            i += 1;
        }

        proof {
            assert(dirs.take(i as int) =~= dirs);
        }
        let ghost with_dirs = row_views(rows@);
        let mut j: usize = 0;
        while j < self.files.len()
            invariant
                j <= self.files.len(),
                row_views(rows@) == with_dirs + file_rows(self.files@.take(j as int), depth as int),
            decreases self.files.len() - j,
        {
            let ghost so_far = row_views(rows@);
            rows.push(Row::File { entry: self.files[j], depth });
            proof {
                let row = RowView::File { entry: self.files@[j as int], depth: depth as int };
                assert(row_views(rows@) =~= so_far.push(row));
                assert(file_rows(self.files@.take(j + 1), depth as int) =~= file_rows(
                    self.files@.take(j as int),
                    depth as int,
                ).push(row));
            }
            j += 1;
        }
        proof {
            assert(self.files@.take(j as int) =~= self@.files);
            assert(row_views(rows@) =~= before + rows_of(
                self@,
                prefix@,
                depth as int,
                compress,
                collapsed@,
            ));
        }
    }
}

/// The slot of a name is the first place where it could stand.
pub proof fn lemma_slot(dirs: Seq<Branch>, name: Seq<char>)
    ensures
        0 <= slot(dirs, name) <= dirs.len(),
        forall|k: int| 0 <= k < slot(dirs, name) ==> lex_less((#[trigger] dirs[k]).name, name),
        slot(dirs, name) < dirs.len() ==> !lex_less(dirs[slot(dirs, name)].name, name),
    decreases dirs.len(),
{
    if dirs.len() > 0 && lex_less(dirs[0].name, name) {
        let rest = dirs.drop_first();
        lemma_slot(rest, name);
        assert forall|k: int| 0 <= k < slot(dirs, name) implies lex_less(
            (#[trigger] dirs[k]).name,
            name,
        ) by {
            if k > 0 {
                assert(rest[k - 1] == dirs[k]);
            }
        }
        if slot(dirs, name) < dirs.len() {
            assert(rest[slot(rest, name)] == dirs[slot(dirs, name)]);
        }
    }
}

/// A place with only smaller names before it and no smaller name at it is the slot.
proof fn lemma_slot_unique(dirs: Seq<Branch>, name: Seq<char>, at: int)
    requires
        0 <= at <= dirs.len(),
        forall|k: int| 0 <= k < at ==> lex_less((#[trigger] dirs[k]).name, name),
        at < dirs.len() ==> !lex_less(dirs[at].name, name),
    ensures
        at == slot(dirs, name),
{
    lemma_slot(dirs, name);
    if slot(dirs, name) < at {
        assert(lex_less(dirs[slot(dirs, name)].name, name));
    }
}

/// Adding a file keeps every level in order.
pub proof fn lemma_insert_ordered(tree: Tree, components: Seq<Seq<char>>, entry: usize)
    requires
        ordered(tree),
    ensures
        ordered(tree_insert(tree, components, entry)),
    decreases components.len(),
{
    if components.len() == 1 {
        let after = tree_insert(tree, components, entry);
        assert forall|i: int| 0 <= i < after.dirs.len() implies ordered(
            (#[trigger] after.dirs[i]).tree,
        ) by {
            assert(ordered(tree.dirs[i].tree));
        }
    } else if components.len() > 1 {
        let name = components[0];
        let rest = components.drop_first();
        let dirs = tree.dirs;
        let at = slot(dirs, name);
        let after = tree_insert(tree, components, entry);
        lemma_slot(dirs, name);
        if at < dirs.len() && dirs[at].name == name {
            lemma_insert_ordered(dirs[at].tree, rest, entry);
            assert forall|i: int| 0 <= i < after.dirs.len() implies ordered(
                (#[trigger] after.dirs[i]).tree,
            ) by {
                assert(ordered(dirs[i].tree));
            }
            assert forall|i: int, j: int| 0 <= i < j < after.dirs.len() implies lex_less(
                #[trigger] after.dirs[i].name,
                #[trigger] after.dirs[j].name,
            ) by {
                assert(lex_less(dirs[i].name, dirs[j].name));
            }
        } else {
            lemma_insert_ordered(empty_tree(), rest, entry);
            assert forall|i: int| 0 <= i < after.dirs.len() implies ordered(
                (#[trigger] after.dirs[i]).tree,
            ) by {
                if i < at {
                    assert(ordered(dirs[i].tree));
                } else if i > at {
                    assert(ordered(dirs[i - 1].tree));
                }
            }
            assert forall|i: int, j: int| 0 <= i < j < after.dirs.len() implies lex_less(
                #[trigger] after.dirs[i].name,
                #[trigger] after.dirs[j].name,
            ) by {
                let old_i = if i < at { i } else { i - 1 };
                let old_j = if j < at { j } else { j - 1 };
                if i == at {
                    lemma_lex_less_total(name, dirs[at].name);
                    if old_j > at {
                        assert(lex_less(dirs[at].name, dirs[old_j].name));
                        lemma_lex_less_transitive(name, dirs[at].name, dirs[old_j].name);
                    }
                } else if j != at {
                    assert(lex_less(dirs[old_i].name, dirs[old_j].name));
                }
            }
        }
    }
}

/// A tree is no higher than the longest path that was added to it.
pub proof fn lemma_insert_height(
    tree: Tree,
    components: Seq<Seq<char>>,
    entry: usize,
    limit: nat,
)
    requires
        height(tree) <= limit,
        components.len() <= limit,
    ensures
        height(tree_insert(tree, components, entry)) <= limit,
    decreases components.len(),
{
    if components.len() > 1 {
        let name = components[0];
        let rest = components.drop_first();
        let dirs = tree.dirs;
        let at = slot(dirs, name);
        let after = tree_insert(tree, components, entry);
        lemma_slot(dirs, name);
        if at < dirs.len() && dirs[at].name == name {
            lemma_forest_height(dirs, at);
            lemma_insert_height(dirs[at].tree, rest, entry, (limit - 1) as nat);
        } else {
            lemma_insert_height(empty_tree(), rest, entry, (limit - 1) as nat);
        }
        assert forall|i: int| 0 <= i < after.dirs.len() implies height(
            (#[trigger] after.dirs[i]).tree,
        ) < limit by {
            if i != at {
                if i < at || after.dirs.len() == dirs.len() {
                    lemma_forest_height(dirs, i);
                } else {
                    lemma_forest_height(dirs, i - 1);
                }
            }
        }
        lemma_forest_height_bound(after.dirs, limit);
    }
}

/// A forest of trees lower than `limit` has at most that height.
proof fn lemma_forest_height_bound(dirs: Seq<Branch>, limit: nat)
    requires
        forall|i: int| 0 <= i < dirs.len() ==> height((#[trigger] dirs[i]).tree) < limit,
    ensures
        forest_height(dirs) <= limit,
    decreases dirs.len(),
{
    if dirs.len() > 0 {
        assert forall|i: int| 0 <= i < dirs.drop_last().len() implies height(
            (#[trigger] dirs.drop_last()[i]).tree,
        ) < limit by {
            assert(dirs.drop_last()[i] == dirs[i]);
        }
        lemma_forest_height_bound(dirs.drop_last(), limit);
        assert(dirs.last() == dirs[dirs.len() - 1]);
    }
}

/// The values of a list of strings.
pub open spec fn texts(strings: Seq<&str>) -> Seq<Seq<char>> {
    strings.map_values(|text: &str| text@)
}

impl TreeNode {
    /// How many leading names sort before `name`.
    fn find_slot(&self, name: &str) -> (at: usize)
        requires
            ordered(self@),
        ensures
            at == slot(self@.dirs, name@),
            at <= self.children@.len(),
    {
        let ghost dirs = self@.dirs;
        let mut low: usize = 0;
        let mut high: usize = self.children.len();
        while low < high
            invariant
                dirs == self@.dirs,
                dirs.len() == self.children@.len(),
                ordered(self@),
                low <= high <= dirs.len(),
                forall|k: int| 0 <= k < low ==> lex_less((#[trigger] dirs[k]).name, name@),
                forall|k: int|
                    high <= k < dirs.len() ==> !lex_less((#[trigger] dirs[k]).name, name@),
            decreases high - low,
        {
            let middle: usize = low + (high - low) / 2;
            let less = str_less(self.children[middle].0.as_str(), name);
            proof {
                assert(dirs[middle as int].name == self.children@[middle as int].0@);
                assert forall|k: int| less && 0 <= k < middle implies lex_less(
                    (#[trigger] dirs[k]).name,
                    name@,
                ) by {
                    assert(lex_less(dirs[k].name, dirs[middle as int].name));
                    lemma_lex_less_transitive(dirs[k].name, dirs[middle as int].name, name@);
                }
                assert forall|k: int| !less && middle < k < dirs.len() implies !lex_less(
                    (#[trigger] dirs[k]).name,
                    name@,
                ) by {
                    assert(lex_less(dirs[middle as int].name, dirs[k].name));
                    if lex_less(dirs[k].name, name@) {
                        lemma_lex_less_transitive(dirs[middle as int].name, dirs[k].name, name@);
                    }
                }
            }
            if less {
                low = middle + 1;
            } else {
                high = middle;
            }
        }
        proof {
            lemma_slot_unique(dirs, name@, low as int);
        }
        low
    }

    /// Adds `entry` at the place its path components give. The last component is the file's own
    /// name, the ones before it are directories, created where they are missing.
    pub fn insert(&mut self, components: &[&str], entry: usize)
        requires
            ordered(old(self)@),
        ensures
            final(self)@ == tree_insert(old(self)@, texts(components@), entry),
            ordered(final(self)@),
        decreases components@.len(),
    {
        let ghost before = self@;
        let ghost names = texts(components@);
        proof {
            lemma_insert_ordered(before, names, entry);
        }
        if components.len() == 0 {
            return;
        }
        if components.len() == 1 {
            self.files.push(entry);
            proof {
                assert(self@.dirs =~= before.dirs);
                assert(self@.files =~= before.files.push(entry));
            }
            return;
        }
        let name = components[0];
        let rest = vstd::slice::slice_subrange(components, 1, components.len());
        proof {
            assert(texts(rest@) =~= names.drop_first());
            assert(names[0] == name@);
            lemma_slot(before.dirs, name@);
        }
        let at = self.find_slot(name);
        if at < self.children.len() && self.children[at].0 == name.to_owned() {
            let ghost children = self.children@;
            proof {
                assert(before.dirs[at as int].name == children[at as int].0@);
                assert(before.dirs[at as int].tree == children[at as int].1@);
                assert(ordered(before.dirs[at as int].tree));
            }
            self.children[at].1.insert(rest, entry);
            proof {
                assert forall|i: int| 0 <= i < before.dirs.len() && i != at implies
                    #[trigger] self@.dirs[i] == before.dirs[i] by {
                    assert(self.children@[i] == children[i]);
                }
                assert(self@.dirs =~= tree_insert(before, names, entry).dirs);
                assert(self@.files =~= before.files);
            }
        } else {
            let mut child = TreeNode::default();
            child.insert(rest, entry);
            let ghost children = self.children@;
            let ghost added = child@;
            self.children.insert(at, (name.to_owned(), child));
            proof {
                assert(at < before.dirs.len() ==> before.dirs[at as int].name
                    == children[at as int].0@);
                assert forall|i: int| 0 <= i < self@.dirs.len() implies #[trigger] self@.dirs[i]
                    == before.dirs.insert(at as int, Branch { name: name@, tree: added })[i] by {
                    if i < at {
                        assert(self.children@[i] == children[i]);
                    } else if i > at {
                        assert(self.children@[i] == children[i - 1]);
                    }
                }
                assert(self@.dirs =~= tree_insert(before, names, entry).dirs);
                assert(self@.files =~= before.files);
            }
        }
    }
}

} // verus!

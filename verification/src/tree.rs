//! A tree of directories, their files and the ignore rules found in them.
//!
//! The nodes of a tree live in one arena and are named by their index in it.
//! A node is created below an existing node, so a parent always has a smaller
//! index than its branches, and the root is node 0.

use vstd::prelude::*;
use crate::gitignore::{GitIgnore, Rules};
use crate::path;
use crate::text::{append_chars, from_chars, to_chars, views};

verus! {

/// What a node of the tree holds, as plain values.
pub struct NodeModel<V> {
    /// The path of the directory.
    pub dir: Seq<char>,
    /// The node of the enclosing directory; `None` for the root.
    pub parent: Option<usize>,
    /// The files of the directory, in the order they were added.
    pub leaves: Seq<V>,
    /// The nodes of the sub-directories, in the order they were added.
    pub branches: Seq<usize>,
    /// The rules of the ignore file found in this very directory, if any.
    pub scope: Option<Rules>,
}

/// A directory that was just created: without files, branches or rules.
pub open spec fn fresh_node<V>(dir: Seq<char>, parent: Option<usize>) -> NodeModel<V> {
    NodeModel {
        dir,
        parent,
        leaves: Seq::<V>::empty(),
        branches: Seq::<usize>::empty(),
        scope: None,
    }
}

/// The shape that every tree has: a root without parent, every other node
/// created after its parent, and every branch listed once, under its parent.
pub open spec fn well_formed<V>(nodes: Seq<NodeModel<V>>) -> bool {
    &&& 0 < nodes.len() <= usize::MAX
    &&& nodes[0].parent is None
    &&& forall|n: int|
        0 < n < nodes.len() ==> ((#[trigger] nodes[n].parent) matches Some(p) && p < n)
    &&& forall|n: int, k: int|
        0 <= n < nodes.len() && 0 <= k < nodes[n].branches.len() ==> {
            &&& n < (#[trigger] nodes[n].branches[k]) < nodes.len()
            &&& nodes[nodes[n].branches[k] as int].parent == Some(n as usize)
        }
    &&& forall|n: int, j: int, k: int|
        0 <= n < nodes.len() && 0 <= j < k < nodes[n].branches.len() ==> (
        #[trigger] nodes[n].branches[j]) < (#[trigger] nodes[n].branches[k])
}

/// The path from a node up to the root: the node, its parent, and so on.
pub open spec fn lineage<V>(nodes: Seq<NodeModel<V>>, node: int) -> Seq<int>
    decreases node,
{
    if 0 <= node < nodes.len() {
        match nodes[node].parent {
            Some(p) if p < node => seq![node] + lineage(nodes, p as int),
            _ => seq![node],
        }
    } else {
        Seq::empty()
    }
}

/// The rules that govern a directory: its own if it has an ignore file, else
/// those that govern its parent; none where no directory up to the root has any.
pub open spec fn effective_scope<V>(nodes: Seq<NodeModel<V>>, node: int) -> Option<Rules>
    decreases node,
{
    if 0 <= node < nodes.len() {
        match nodes[node].scope {
            Some(rules) => Some(rules),
            None => match nodes[node].parent {
                Some(p) if p < node => effective_scope(nodes, p as int),
                _ => None,
            },
        }
    } else {
        None
    }
}

/// The nearest node, from `node` upwards, whose directory has the given
/// components.
pub open spec fn nearest_with_dir<V>(
    nodes: Seq<NodeModel<V>>,
    node: int,
    target: Seq<Seq<char>>,
) -> Option<usize>
    decreases node,
{
    if 0 <= node < nodes.len() {
        if path::components(nodes[node].dir) == target {
            Some(node as usize)
        } else {
            match nodes[node].parent {
                Some(p) if p < node => nearest_with_dir(nodes, p as int, target),
                _ => None,
            }
        }
    } else {
        None
    }
}

/// The files of a directory and of all directories below it: its own first,
/// then those of each branch in turn.
pub open spec fn all_leaves<V>(nodes: Seq<NodeModel<V>>, node: int) -> Seq<V>
    decreases nodes.len() - node, nodes[node].branches.len() + 1,
{
    if 0 <= node < nodes.len() {
        nodes[node].leaves + branch_leaves(nodes, node, nodes[node].branches.len() as int)
    } else {
        Seq::empty()
    }
}

/// The files at and below the first `count` branches of a directory.
pub open spec fn branch_leaves<V>(nodes: Seq<NodeModel<V>>, node: int, count: int) -> Seq<V>
    decreases nodes.len() - node, count,
{
    if 0 <= node < nodes.len() && 0 < count <= nodes[node].branches.len() {
        let branch = nodes[node].branches[count - 1];
        if node < branch < nodes.len() {
            branch_leaves(nodes, node, count - 1) + all_leaves(nodes, branch as int)
        } else {
            branch_leaves(nodes, node, count - 1)
        }
    } else {
        Seq::empty()
    }
}

/// A directory without an ignore file of its own is governed by the rules
/// that govern its parent, and by none if it is the root.
pub proof fn lemma_scope_is_inherited<V>(nodes: Seq<NodeModel<V>>, node: int)
    requires
        well_formed(nodes),
        0 <= node < nodes.len(),
        nodes[node].scope is None,
    ensures
        effective_scope(nodes, node) == match nodes[node].parent {
            Some(parent) => effective_scope(nodes, parent as int),
            None => None,
        },
{
    if node > 0 {
        assert(nodes[node].parent matches Some(p) && p < node);
    }
}

/// The rules that govern a directory are those of the nearest directory on
/// its way up to the root that has an ignore file: every directory before it
/// on that way has none. Where no rules govern it, no directory on the way has any.
pub proof fn lemma_scope_is_nearest<V>(nodes: Seq<NodeModel<V>>, node: int)
    requires
        well_formed(nodes),
        0 <= node < nodes.len(),
    ensures
        match effective_scope(nodes, node) {
            Some(rules) => exists|k: int|
                {
                    &&& 0 <= k < lineage(nodes, node).len()
                    &&& nodes[#[trigger] lineage(nodes, node)[k]].scope == Some(rules)
                    &&& forall|j: int|
                        0 <= j < k ==> nodes[#[trigger] lineage(nodes, node)[j]].scope is None
                },
            None => forall|j: int|
                0 <= j < lineage(nodes, node).len() ==> nodes[#[trigger] lineage(
                    nodes,
                    node,
                )[j]].scope is None,
        },
    decreases node,
{
    let way = lineage(nodes, node);
    if nodes[node].scope is Some {
        assert(way[0] == node);
        assert(nodes[way[0]].scope == effective_scope(nodes, node));
    } else if node > 0 {
        assert(nodes[node].parent matches Some(p) && p < node);
        let parent = nodes[node].parent->0 as int;
        lemma_scope_is_nearest(nodes, parent);
        let rest = lineage(nodes, parent);
        assert(way == seq![node] + rest);
        assert(forall|j: int| 0 <= j < rest.len() ==> way[j + 1] == rest[j]);
        match effective_scope(nodes, parent) {
            Some(rules) => {
                let k = choose|k: int|
                    {
                        &&& 0 <= k < rest.len()
                        &&& nodes[#[trigger] rest[k]].scope == Some(rules)
                        &&& forall|j: int| 0 <= j < k ==> nodes[#[trigger] rest[j]].scope is None
                    };
                assert(nodes[way[k + 1]].scope == Some(rules));
                assert forall|j: int| 0 <= j < k + 1 implies nodes[#[trigger] way[j]].scope is None by {
                    if j > 0 {
                        assert(way[j] == rest[j - 1]);
                    }
                }
            },
            None => {
                assert forall|j: int| 0 <= j < way.len() implies nodes[#[trigger] way[j]].scope is None by {
                    if j > 0 {
                        assert(way[j] == rest[j - 1]);
                    }
                }
            },
        }
    } else {
        assert(way == seq![node]);
    }
}

/// Whether `way[k]` is the first directory of `way` whose path has the components `target`.
pub open spec fn is_first_with_dir<V>(
    nodes: Seq<NodeModel<V>>,
    way: Seq<int>,
    k: int,
    target: Seq<Seq<char>>,
) -> bool {
    &&& 0 <= k < way.len()
    &&& path::components(nodes[way[k]].dir) == target
    &&& forall|j: int| 0 <= j < k ==> path::components(nodes[#[trigger] way[j]].dir) != target
}

/// The directory that backtracking finds is the first on the way up to the
/// root whose path has the components looked for. Where it finds none, no
/// directory on the way has them.
pub proof fn lemma_nearest_is_first_on_way<V>(
    nodes: Seq<NodeModel<V>>,
    node: int,
    target: Seq<Seq<char>>,
)
    requires
        well_formed(nodes),
        0 <= node < nodes.len(),
    ensures
        match nearest_with_dir(nodes, node, target) {
            Some(found) => exists|k: int|
                #[trigger] is_first_with_dir(nodes, lineage(nodes, node), k, target) && lineage(
                    nodes,
                    node,
                )[k] == found,
            None => forall|j: int|
                0 <= j < lineage(nodes, node).len() ==> path::components(
                    nodes[#[trigger] lineage(nodes, node)[j]].dir,
                ) != target,
        },
    decreases node,
{
    let way = lineage(nodes, node);
    if path::components(nodes[node].dir) == target {
        assert(way[0] == node);
        assert(is_first_with_dir(nodes, way, 0, target));
    } else if node > 0 {
        assert(nodes[node].parent matches Some(p) && p < node);
        let parent = nodes[node].parent->0 as int;
        lemma_nearest_is_first_on_way(nodes, parent, target);
        let rest = lineage(nodes, parent);
        assert(way == seq![node] + rest);
        assert(forall|j: int| 0 <= j < rest.len() ==> way[j + 1] == rest[j]);
        assert(nearest_with_dir(nodes, node, target) == nearest_with_dir(nodes, parent, target));
        match nearest_with_dir(nodes, parent, target) {
            Some(found) => {
                let k = choose|k: int|
                    #[trigger] is_first_with_dir(nodes, rest, k, target) && rest[k] == found;
                assert(way[k + 1] == rest[k]);
                assert forall|j: int| 0 <= j < k + 1 implies path::components(
                    nodes[#[trigger] way[j]].dir,
                ) != target by {
                    if j > 0 {
                        assert(way[j] == rest[j - 1]);
                    }
                }
                assert(is_first_with_dir(nodes, way, k + 1, target));
            },
            None => {
                assert forall|j: int| 0 <= j < way.len() implies path::components(
                    nodes[#[trigger] way[j]].dir,
                ) != target by {
                    if j > 0 {
                        assert(way[j] == rest[j - 1]);
                    }
                }
            },
        }
    } else {
        assert(way == seq![node]);
    }
}

/// The directory that backtracking finds is a directory of the tree, and its
/// path has the components looked for.
pub proof fn lemma_nearest_has_the_dir<V>(nodes: Seq<NodeModel<V>>, node: int, target: Seq<Seq<char>>)
    requires
        nodes.len() <= usize::MAX,
    ensures
        nearest_with_dir(nodes, node, target) matches Some(found) ==> found < nodes.len()
            && path::components(nodes[found as int].dir) == target,
    decreases node,
{
    if 0 <= node < nodes.len() && path::components(nodes[node].dir) != target {
        match nodes[node].parent {
            Some(p) if p < node => {
                lemma_nearest_has_the_dir(nodes, p as int, target);
            },
            _ => {},
        }
    }
}

/// Whether every directory but the root lies at or below its parent.
pub open spec fn paths_nest<V>(nodes: Seq<NodeModel<V>>) -> bool {
    forall|n: int|
        0 < n < nodes.len() ==> ((#[trigger] nodes[n].parent) matches Some(p)
            && path::path_starts_with(nodes[n].dir, nodes[p as int].dir))
}

/// Whether no two directories are the same place.
pub open spec fn dirs_differ<V>(nodes: Seq<NodeModel<V>>) -> bool {
    forall|m: int, n: int|
        0 <= m < n < nodes.len() ==> !path::same_path(
            (#[trigger] nodes[m]).dir,
            (#[trigger] nodes[n]).dir,
        )
}

/// The root is the branch of no directory.
pub proof fn lemma_root_is_no_branch<V>(nodes: Seq<NodeModel<V>>)
    requires
        well_formed(nodes),
    ensures
        forall|n: int, k: int|
            0 <= n < nodes.len() && 0 <= k < nodes[n].branches.len() ==> (
            #[trigger] nodes[n].branches[k]) != 0,
{
}

/// What a tree needs of the files it holds in order to draw them.
pub trait Leaf: View {
    /// The name under which a file appears in a drawing of the tree.
    spec fn label(file: Self::V) -> Seq<char>;

    /// Whether two files count as the same file.
    spec fn same(left: Self::V, right: Self::V) -> bool;

    /// The name under which the file appears in a drawing of the tree.
    fn to_label(&self) -> (text: String)
        ensures
            text@ == Self::label(self@),
    ;

    /// Whether this file and `other` count as the same file.
    fn is_same(&self, other: &Self) -> (same: bool)
        ensures
            same == Self::same(self@, other@),
    ;
}

impl Leaf for String {
    open spec fn label(file: Seq<char>) -> Seq<char> {
        file
    }

    open spec fn same(left: Seq<char>, right: Seq<char>) -> bool {
        left == right
    }

    fn to_label(&self) -> (text: String) {
        self.clone()
    }

    fn is_same(&self, other: &Self) -> (same: bool) {
        *self == *other
    }
}

/// Whether a directory of the tree holds a file that counts as the same as `file`.
pub open spec fn holds_leaf<T: Leaf>(nodes: Seq<NodeModel<T::V>>, file: T::V) -> bool {
    exists|n: int, i: int|
        0 <= n < nodes.len() && 0 <= i < nodes[n].leaves.len() && T::same(
            file,
            #[trigger] nodes[n].leaves[i],
        )
}

/// Whether every file of the tree `left` has its like in the tree `right`.
pub open spec fn leaves_covered<T: Leaf>(
    left: Seq<NodeModel<T::V>>,
    right: Seq<NodeModel<T::V>>,
) -> bool {
    forall|n: int, i: int|
        0 <= n < left.len() && 0 <= i < left[n].leaves.len() ==> holds_leaf::<T>(
            right,
            #[trigger] left[n].leaves[i],
        )
}

/// Drawn before an entry that is followed by another at its level.
pub open spec fn child_glyph() -> Seq<char> {
    seq!['├', '─', ' ']
}

/// Drawn before the last entry at its level.
pub open spec fn last_glyph() -> Seq<char> {
    seq!['└', '─', ' ']
}

/// Drawn below a directory that is followed by another entry at its level.
pub open spec fn skip_glyph() -> Seq<char> {
    seq!['│', ' ', ' ']
}

/// Drawn below the last directory at its level.
pub open spec fn gap_glyph() -> Seq<char> {
    seq![' ', ' ', ' ']
}

/// The line that shows the directory `node`: after `prefix` a glyph, unless
/// the directory has no name, then a separator and the name.
pub open spec fn heading<V>(
    nodes: Seq<NodeModel<V>>,
    node: int,
    prefix: Seq<char>,
    is_last: bool,
) -> Seq<char> {
    match path::file_name(nodes[node].dir) {
        Some(name) => {
            let glyph = if nodes[node].branches.len() > 1 || !is_last {
                child_glyph()
            } else {
                last_glyph()
            };
            prefix + glyph + seq!['/'] + name + seq!['\n']
        },
        None => prefix + seq!['/'] + seq!['\n'],
    }
}

/// Whether branch `k` of `node` closes the entries of `node`.
pub open spec fn closes_level<V>(nodes: Seq<NodeModel<V>>, node: int, k: int) -> bool {
    k == nodes[node].branches.len() - 1 && nodes[node].leaves.len() == 0
}

/// The prefix of the lines drawn for branch `k` of `node`.
pub open spec fn branch_prefix<V>(
    nodes: Seq<NodeModel<V>>,
    node: int,
    prefix: Seq<char>,
    is_last: bool,
    k: int,
) -> Seq<char> {
    if path::file_name(nodes[node].dir) is None {
        prefix
    } else if closes_level(nodes, node, k) && is_last {
        prefix + gap_glyph()
    } else {
        prefix + skip_glyph()
    }
}

/// The line that shows file `i` of `node`.
pub open spec fn leaf_line<T: Leaf>(
    nodes: Seq<NodeModel<T::V>>,
    node: int,
    prefix: Seq<char>,
    is_last: bool,
    i: int,
) -> Seq<char> {
    let indent = if path::file_name(nodes[node].dir) is None {
        Seq::<char>::empty()
    } else if !is_last {
        skip_glyph()
    } else {
        gap_glyph()
    };
    let glyph = if i == nodes[node].leaves.len() - 1 {
        last_glyph()
    } else {
        child_glyph()
    };
    prefix + indent + glyph + T::label(nodes[node].leaves[i]) + seq!['\n']
}

/// The drawing of the directory `node` and of all that lies below it: its
/// heading, then its branches in order, then its files in order, one line each.
pub open spec fn drawing<T: Leaf>(
    nodes: Seq<NodeModel<T::V>>,
    node: int,
    prefix: Seq<char>,
    is_last: bool,
) -> Seq<char>
    decreases nodes.len() - node, nodes[node].branches.len() + 1,
{
    if 0 <= node < nodes.len() {
        heading(nodes, node, prefix, is_last) + branch_drawings::<T>(
            nodes,
            node,
            prefix,
            is_last,
            nodes[node].branches.len() as int,
        ) + leaf_lines::<T>(nodes, node, prefix, is_last, nodes[node].leaves.len() as int)
    } else {
        Seq::empty()
    }
}

/// The drawings of the first `count` branches of `node`.
pub open spec fn branch_drawings<T: Leaf>(
    nodes: Seq<NodeModel<T::V>>,
    node: int,
    prefix: Seq<char>,
    is_last: bool,
    count: int,
) -> Seq<char>
    decreases nodes.len() - node, count,
{
    if 0 <= node < nodes.len() && 0 < count <= nodes[node].branches.len() {
        let branch = nodes[node].branches[count - 1];
        let before = branch_drawings::<T>(nodes, node, prefix, is_last, count - 1);
        if node < branch < nodes.len() {
            before + drawing::<T>(
                nodes,
                branch as int,
                branch_prefix(nodes, node, prefix, is_last, count - 1),
                closes_level(nodes, node, count - 1),
            )
        } else {
            before
        }
    } else {
        Seq::empty()
    }
}

/// The lines of the first `count` files of `node`.
pub open spec fn leaf_lines<T: Leaf>(
    nodes: Seq<NodeModel<T::V>>,
    node: int,
    prefix: Seq<char>,
    is_last: bool,
    count: int,
) -> Seq<char>
    decreases count,
{
    if 0 < count <= nodes[node].leaves.len() {
        leaf_lines::<T>(nodes, node, prefix, is_last, count - 1) + leaf_line::<T>(
            nodes,
            node,
            prefix,
            is_last,
            count - 1,
        )
    } else {
        Seq::empty()
    }
}

/// The drawing of the tree below `node`, without the line feed that ends it.
pub open spec fn tree_text<T: Leaf>(nodes: Seq<NodeModel<T::V>>, node: int) -> Seq<char> {
    drawing::<T>(nodes, node, Seq::empty(), true).drop_last()
}

/// The files that a list of references points to, as plain values.
pub open spec fn pointees<T: View>(refs: Seq<&T>) -> Seq<T::V> {
    Seq::new(refs.len(), |i: int| refs[i]@)
}

/// The given files as plain values.
pub open spec fn models<T: View>(files: Seq<T>) -> Seq<T::V> {
    Seq::new(files.len(), |i: int| files[i]@)
}

fn push_child_glyph(buffer: &mut Vec<char>)
    ensures
        final(buffer)@ == old(buffer)@ + child_glyph(),
{
    buffer.push('├');
    buffer.push('─');
    buffer.push(' ');
    assert(buffer@ =~= old(buffer)@ + child_glyph());
}

fn push_last_glyph(buffer: &mut Vec<char>)
    ensures
        final(buffer)@ == old(buffer)@ + last_glyph(),
{
    buffer.push('└');
    buffer.push('─');
    buffer.push(' ');
    assert(buffer@ =~= old(buffer)@ + last_glyph());
}

fn push_skip_glyph(buffer: &mut Vec<char>)
    ensures
        final(buffer)@ == old(buffer)@ + skip_glyph(),
{
    buffer.push('│');
    buffer.push(' ');
    buffer.push(' ');
    assert(buffer@ =~= old(buffer)@ + skip_glyph());
}

fn push_gap_glyph(buffer: &mut Vec<char>)
    ensures
        final(buffer)@ == old(buffer)@ + gap_glyph(),
{
    buffer.push(' ');
    buffer.push(' ');
    buffer.push(' ');
    assert(buffer@ =~= old(buffer)@ + gap_glyph());
}

struct TreeNode<T> {
    current_dir: String,
    parent: Option<usize>,
    leaves: Vec<T>,
    branches: Vec<usize>,
    gitignore: Option<GitIgnore>,
}

impl<T: View> TreeNode<T> {
    spec fn model(&self) -> NodeModel<T::V> {
        NodeModel {
            dir: self.current_dir@,
            parent: self.parent,
            leaves: models(self.leaves@),
            branches: self.branches@,
            scope: match self.gitignore {
                Some(rules) => Some(rules@),
                None => None,
            },
        }
    }
}

/// A tree of directories with their files.
pub struct Tree<T> {
    nodes: Vec<TreeNode<T>>,
}

impl<T: View> View for Tree<T> {
    type V = Seq<NodeModel<T::V>>;

    closed spec fn view(&self) -> Seq<NodeModel<T::V>> {
        Seq::new(self.nodes@.len(), |i: int| self.nodes@[i].model())
    }
}

impl<T: View> Tree<T> {
    /// Whether the tree has the shape that every tree built here has.
    pub open spec fn wf(&self) -> bool {
        well_formed(self@)
    }

    /// Whether `node` names a node of this tree.
    pub open spec fn contains(&self, node: usize) -> bool {
        node < self@.len()
    }

    /// A tree that holds the directory `current_dir` alone, as its root.
    pub fn new(current_dir: String) -> (tree: Self)
        ensures
            tree.wf(),
            tree@ == seq![
                fresh_node::<T::V>(current_dir@, None),
            ],
    {
        let mut nodes: Vec<TreeNode<T>> = Vec::new();
        nodes.push(
            TreeNode {
                current_dir,
                parent: None,
                leaves: Vec::new(),
                branches: Vec::new(),
                gitignore: None,
            },
        );
        let tree = Tree { nodes };
        assert(models(tree.nodes@[0].leaves@) =~= Seq::<T::V>::empty());
        assert(tree@ =~= seq![
            fresh_node::<T::V>(current_dir@, None),
        ]);
        tree
    }

    /// The root of the tree.
    pub fn root(&self) -> (node: usize)
        ensures
            node == 0,
    {
        0
    }

    /// The number of directories in the tree.
    pub fn len(&self) -> (count: usize)
        ensures
            count == self@.len(),
    {
        self.nodes.len()
    }

    /// Adds a file to the directory `node`, after those it holds.
    pub fn add_leaf(&mut self, node: usize, leaf: T)
        requires
            old(self).wf(),
            old(self).contains(node),
        ensures
            final(self).wf(),
            final(self)@ == old(self)@.update(
                node as int,
                NodeModel { leaves: old(self)@[node as int].leaves.push(leaf@), ..old(self)@[node as int] },
            ),
    {
        self.nodes[node].leaves.push(leaf);
        assert(models(self.nodes@[node as int].leaves@) =~= old(self)@[node as int].leaves.push(
            leaf@,
        ));
        assert(self@ =~= old(self)@.update(
            node as int,
            NodeModel { leaves: old(self)@[node as int].leaves.push(leaf@), ..old(self)@[node as int] },
        ));
    }

    /// Adds the directory `current_dir` below `node`, after the branches that
    /// `node` holds, and returns the new node.
    pub fn add_branch(&mut self, node: usize, current_dir: String) -> (branch: usize)
        requires
            old(self).wf(),
            old(self).contains(node),
        ensures
            final(self).wf(),
            branch == old(self)@.len(),
            final(self)@ == old(self)@.update(
                node as int,
                NodeModel {
                    branches: old(self)@[node as int].branches.push(branch),
                    ..old(self)@[node as int]
                },
            ).push(
                fresh_node::<T::V>(current_dir@, Some(node)),
            ),
            paths_nest(old(self)@) && path::path_starts_with(
                current_dir@,
                old(self)@[node as int].dir,
            ) ==> paths_nest(final(self)@),
            dirs_differ(old(self)@) && (forall|n: int|
                0 <= n < old(self)@.len() ==> !path::same_path(
                    (#[trigger] old(self)@[n]).dir,
                    current_dir@,
                )) ==> dirs_differ(final(self)@),
    {
        let branch = self.nodes.len();
        self.nodes.push(
            TreeNode {
                current_dir,
                parent: Some(node),
                leaves: Vec::new(),
                branches: Vec::new(),
                gitignore: None,
            },
        );
        self.nodes[node].branches.push(branch);
        let count = self.nodes.len();
        assert(self@.len() == count);
        assert(models(self.nodes@[branch as int].leaves@) =~= Seq::<T::V>::empty());
        assert(self@ =~= old(self)@.update(
            node as int,
            NodeModel {
                branches: old(self)@[node as int].branches.push(branch),
                ..old(self)@[node as int]
            },
        ).push(
            fresh_node::<T::V>(current_dir@, Some(node)),
        ));
        proof {
            assert(forall|n: int|
                0 <= n < old(self)@.len() ==> (#[trigger] self@[n]).dir == old(self)@[n].dir);
            if paths_nest(old(self)@) && path::path_starts_with(
                current_dir@,
                old(self)@[node as int].dir,
            ) {
                assert forall|n: int| 0 < n < self@.len() implies ((
                #[trigger] self@[n].parent) matches Some(p) && path::path_starts_with(
                    self@[n].dir,
                    self@[p as int].dir,
                )) by {
                    if n < old(self)@.len() {
                        assert(old(self)@[n].parent is Some);
                    }
                }
            }
        }
        branch
    }

    /// The path of the directory `node`.
    pub fn current_dir(&self, node: usize) -> (dir: &str)
        requires
            self.contains(node),
        ensures
            dir@ == self@[node as int].dir,
    {
        self.nodes[node].current_dir.as_str()
    }

    /// The node of the directory that encloses `node`, if `node` is not the root.
    pub fn parent(&self, node: usize) -> (parent: Option<usize>)
        requires
            self.contains(node),
        ensures
            parent == self@[node as int].parent,
    {
        self.nodes[node].parent
    }

    /// The files of the directory `node` itself.
    pub fn collect_local_leaves(&self, node: usize) -> (leaves: &Vec<T>)
        requires
            self.contains(node),
        ensures
            models(leaves@) == self@[node as int].leaves,
    {
        &self.nodes[node].leaves
    }

    /// The sub-directories of the directory `node` itself.
    pub fn collect_local_branches(&self, node: usize) -> (branches: &Vec<usize>)
        requires
            self.contains(node),
        ensures
            branches@ == self@[node as int].branches,
    {
        &self.nodes[node].branches
    }
    /// Stores the rules of the ignore file found in the directory `node`. The
    /// first rules stored for a directory stay: a later call changes nothing.
    pub fn set_gitignore(&mut self, node: usize, gitignore: GitIgnore)
        requires
            old(self).wf(),
            old(self).contains(node),
        ensures
            final(self).wf(),
            old(self)@[node as int].scope is Some ==> final(self)@ == old(self)@,
            old(self)@[node as int].scope is None ==> final(self)@ == old(self)@.update(
                node as int,
                NodeModel { scope: Some(gitignore@), ..old(self)@[node as int] },
            ),
    {
        if self.nodes[node].gitignore.is_none() {
            self.nodes[node].gitignore = Some(gitignore);
            assert(self@ =~= old(self)@.update(
                node as int,
                NodeModel { scope: Some(gitignore@), ..old(self)@[node as int] },
            ));
        } else {
            assert(self@ =~= old(self)@);
        }
    }

    /// The rules of the ignore file found in the directory `node` itself, if any.
    pub fn own_gitignore(&self, node: usize) -> (rules: Option<&GitIgnore>)
        requires
            self.contains(node),
        ensures
            match rules {
                Some(found) => self@[node as int].scope == Some(found@),
                None => self@[node as int].scope is None,
            },
    {
        match &self.nodes[node].gitignore {
            Some(found) => Some(found),
            None => None,
        }
    }

    /// The rules that govern the directory `node`: its own, or else those of
    /// the nearest enclosing directory that has any.
    pub fn gitignore(&self, node: usize) -> (rules: Option<&GitIgnore>)
        requires
            self.wf(),
            self.contains(node),
        ensures
            match rules {
                Some(found) => effective_scope(self@, node as int) == Some(found@),
                None => effective_scope(self@, node as int) is None,
            },
    {
        let mut current = node;
        loop
            invariant
                self.wf(),
                self.contains(current),
                effective_scope(self@, current as int) == effective_scope(self@, node as int),
            decreases current,
        {
            match &self.nodes[current].gitignore {
                Some(found) => {
                    return Some(found);
                },
                None => {},
            }
            match self.nodes[current].parent {
                Some(up) => {
                    assert(self@[current as int].parent == Some(up));
                    current = up;
                },
                None => {
                    return None;
                },
            }
        }
    }

    /// The nearest directory, from `node` upwards, whose path has the
    /// components `target`.
    pub fn backtrack_to_parts(&self, node: usize, target: &Vec<Vec<char>>) -> (found: Option<usize>)
        requires
            self.wf(),
            self.contains(node),
        ensures
            found == nearest_with_dir(self@, node as int, views(target@)),
            found matches Some(branch) ==> self.contains(branch),
    {
        let mut current = node;
        loop
            invariant
                self.wf(),
                self.contains(current),
                nearest_with_dir(self@, current as int, views(target@)) == nearest_with_dir(
                    self@,
                    node as int,
                    views(target@),
                ),
            decreases current,
        {
            let parts = path::split(self.nodes[current].current_dir.as_str());
            if path::parts_eq(&parts, target) {
                return Some(current);
            }
            match self.nodes[current].parent {
                Some(up) => {
                    assert(self@[current as int].parent == Some(up));
                    current = up;
                },
                None => {
                    return None;
                },
            }
        }
    }

    /// The nearest directory, from `node` upwards, that is the same place as `path`.
    pub fn backtrack_to_branch(&self, node: usize, path: &str) -> (found: Option<usize>)
        requires
            self.wf(),
            self.contains(node),
        ensures
            found == nearest_with_dir(self@, node as int, path::components(path@)),
            found matches Some(branch) ==> self.contains(branch),
    {
        let target = path::split(path);
        self.backtrack_to_parts(node, &target)
    }

    /// Puts `leaf` in the place of file `index` of the directory `node`.
    pub(crate) fn set_leaf(&mut self, node: usize, index: usize, leaf: T)
        requires
            old(self).wf(),
            old(self).contains(node),
            index < old(self)@[node as int].leaves.len(),
        ensures
            final(self).wf(),
            final(self)@ == old(self)@.update(
                node as int,
                NodeModel {
                    leaves: old(self)@[node as int].leaves.update(index as int, leaf@),
                    ..old(self)@[node as int]
                },
            ),
    {
        assert(models(self.nodes@[node as int].leaves@).len() == self.nodes@[node as int].leaves@.len());
        self.nodes[node].leaves.set(index, leaf);
        assert(models(self.nodes@[node as int].leaves@) =~= old(self)@[node as int].leaves.update(
            index as int,
            leaf@,
        ));
        assert(self@ =~= old(self)@.update(
            node as int,
            NodeModel {
                leaves: old(self)@[node as int].leaves.update(index as int, leaf@),
                ..old(self)@[node as int]
            },
        ));
    }

    /// Appends to `out` the files at and below the directory `node`.
    fn collect_into<'a>(&'a self, node: usize, out: &mut Vec<&'a T>)
        requires
            self.wf(),
            self.contains(node),
        ensures
            pointees(final(out)@) == pointees(old(out)@) + all_leaves(self@, node as int),
        decreases self@.len() - node,
    {
        let ghost start = pointees(out@);
        let leaves = &self.nodes[node].leaves;
        let mut i: usize = 0;
        while i < leaves.len()
            invariant
                i <= leaves.len(),
                models(leaves@) == self@[node as int].leaves,
                pointees(out@) == start + models(leaves@).take(i as int),
            decreases leaves.len() - i,
        {
            let ghost before = pointees(out@);
            out.push(&leaves[i]);
            assert(pointees(out@) == before.push(leaves@[i as int]@));
            assert(models(leaves@).take(i + 1) == models(leaves@).take(i as int).push(
                leaves@[i as int]@,
            ));
            i += 1;
        }
        assert(models(leaves@).take(leaves.len() as int) == models(leaves@));
        let branches = &self.nodes[node].branches;
        let mut k: usize = 0;
        while k < branches.len()
            invariant
                self.wf(),
                self.contains(node),
                k <= branches.len(),
                branches@ == self@[node as int].branches,
                pointees(out@) == start + self@[node as int].leaves + branch_leaves(
                    self@,
                    node as int,
                    k as int,
                ),
            decreases branches.len() - k,
        {
            let branch = branches[k];
            assert(node < self@[node as int].branches[k as int] < self@.len());
            let ghost before = pointees(out@);
            self.collect_into(branch, out);
            assert(branch_leaves(self@, node as int, k + 1) == branch_leaves(
                self@,
                node as int,
                k as int,
            ) + all_leaves(self@, branch as int));
            k += 1;
        }
    }

    /// The files at and below the directory `node`: its own first, then those
    /// of each of its branches in turn.
    pub fn collect_all_leaves(&self, node: usize) -> (leaves: Vec<&T>)
        requires
            self.wf(),
            self.contains(node),
        ensures
            pointees(leaves@) == all_leaves(self@, node as int),
    {
        let mut leaves: Vec<&T> = Vec::new();
        assert(pointees(leaves@) == Seq::<T::V>::empty());
        self.collect_into(node, &mut leaves);
        leaves
    }
}

impl<T: Leaf> Tree<T> {
    /// Whether a directory of this tree holds a file that counts as the same as `file`.
    fn has_leaf_like(&self, file: &T) -> (found: bool)
        ensures
            found == holds_leaf::<T>(self@, file@),
    {
        let mut n: usize = 0;
        while n < self.nodes.len()
            invariant
                n <= self.nodes.len(),
                forall|m: int, i: int|
                    0 <= m < n && 0 <= i < self@[m].leaves.len() ==> !T::same(
                        file@,
                        #[trigger] self@[m].leaves[i],
                    ),
            decreases self.nodes.len() - n,
        {
            let leaves = &self.nodes[n].leaves;
            assert(models(leaves@) == self@[n as int].leaves);
            let mut i: usize = 0;
            while i < leaves.len()
                invariant
                    n < self.nodes.len(),
                    i <= leaves.len(),
                    models(leaves@) == self@[n as int].leaves,
                    forall|j: int|
                        0 <= j < i ==> !T::same(file@, #[trigger] self@[n as int].leaves[j]),
                decreases leaves.len() - i,
            {
                if file.is_same(&leaves[i]) {
                    assert(models(leaves@)[i as int] == leaves@[i as int]@);
                    assert(T::same(file@, self@[n as int].leaves[i as int]));
                    return true;
                }
                assert(models(leaves@)[i as int] == leaves@[i as int]@);
                i += 1;
            }
            n += 1;
        }
        false
    }

    /// Whether every file of this tree has its like in `other`.
    pub fn same_leaves(&self, other: &Self) -> (same: bool)
        ensures
            same == leaves_covered::<T>(self@, other@),
    {
        let mut n: usize = 0;
        while n < self.nodes.len()
            invariant
                n <= self.nodes.len(),
                forall|m: int, i: int|
                    0 <= m < n && 0 <= i < self@[m].leaves.len() ==> holds_leaf::<T>(
                        other@,
                        #[trigger] self@[m].leaves[i],
                    ),
            decreases self.nodes.len() - n,
        {
            let leaves = &self.nodes[n].leaves;
            assert(models(leaves@) == self@[n as int].leaves);
            let mut i: usize = 0;
            while i < leaves.len()
                invariant
                    n < self.nodes.len(),
                    i <= leaves.len(),
                    models(leaves@) == self@[n as int].leaves,
                    forall|j: int|
                        0 <= j < i ==> holds_leaf::<T>(other@, #[trigger] self@[n as int].leaves[j]),
                decreases leaves.len() - i,
            {
                assert(models(leaves@)[i as int] == leaves@[i as int]@);
                if !other.has_leaf_like(&leaves[i]) {
                    assert(!holds_leaf::<T>(other@, self@[n as int].leaves[i as int]));
                    return false;
                }
                i += 1;
            }
            n += 1;
        }
        true
    }

    /// Appends to `buffer` the drawing of the directory `node` and of all
    /// that lies below it.
    fn build_string(&self, node: usize, buffer: &mut Vec<char>, prefix: &Vec<char>, is_last: bool)
        requires
            self.wf(),
            self.contains(node),
        ensures
            final(buffer)@ == old(buffer)@ + drawing::<T>(self@, node as int, prefix@, is_last),
        decreases self@.len() - node,
    {
        let ghost start = buffer@;
        let ghost nodes = self@;
        let branches = &self.nodes[node].branches;
        let leaves = &self.nodes[node].leaves;
        let name = path::file_name_of(self.nodes[node].current_dir.as_str());
        append_chars(buffer, prefix);
        match &name {
            Some(text) => {
                if branches.len() > 1 || !is_last {
                    push_child_glyph(buffer);
                } else {
                    push_last_glyph(buffer);
                }
                buffer.push('/');
                let chars = to_chars(text.as_str());
                append_chars(buffer, &chars);
            },
            None => {
                buffer.push('/');
            },
        }
        buffer.push('\n');
        assert(buffer@ =~= start + heading(nodes, node as int, prefix@, is_last));
        let ghost headed = buffer@;
        let mut k: usize = 0;
        while k < branches.len()
            invariant
                self.wf(),
                self.contains(node),
                nodes == self@,
                k <= branches.len(),
                branches@ == nodes[node as int].branches,
                models(leaves@) == nodes[node as int].leaves,
                match name {
                    Some(text) => path::file_name(nodes[node as int].dir) == Some(text@),
                    None => path::file_name(nodes[node as int].dir) is None,
                },
                buffer@ == headed + branch_drawings::<T>(nodes, node as int, prefix@, is_last, k as int),
            decreases branches.len() - k,
        {
            let branch = branches[k];
            assert(node < nodes[node as int].branches[k as int] < nodes.len());
            let closes = k == branches.len() - 1 && leaves.len() == 0;
            let mut inner: Vec<char> = Vec::new();
            append_chars(&mut inner, prefix);
            if name.is_some() {
                if closes && is_last {
                    push_gap_glyph(&mut inner);
                } else {
                    push_skip_glyph(&mut inner);
                }
            }
            assert(inner@ =~= branch_prefix(nodes, node as int, prefix@, is_last, k as int));
            self.build_string(branch, buffer, &inner, closes);
            assert(buffer@ =~= headed + branch_drawings::<T>(
                nodes,
                node as int,
                prefix@,
                is_last,
                k + 1,
            ));
            k += 1;
        }
        let ghost branched = buffer@;
        let mut i: usize = 0;
        while i < leaves.len()
            invariant
                nodes == self@,
                self.contains(node),
                i <= leaves.len(),
                models(leaves@) == nodes[node as int].leaves,
                match name {
                    Some(text) => path::file_name(nodes[node as int].dir) == Some(text@),
                    None => path::file_name(nodes[node as int].dir) is None,
                },
                buffer@ == branched + leaf_lines::<T>(nodes, node as int, prefix@, is_last, i as int),
            decreases leaves.len() - i,
        {
            let ghost before = buffer@;
            append_chars(buffer, prefix);
            if name.is_some() {
                if !is_last {
                    push_skip_glyph(buffer);
                } else {
                    push_gap_glyph(buffer);
                }
            }
            if i == leaves.len() - 1 {
                push_last_glyph(buffer);
            } else {
                push_child_glyph(buffer);
            }
            let label = leaves[i].to_label();
            let chars = to_chars(label.as_str());
            append_chars(buffer, &chars);
            buffer.push('\n');
            assert(buffer@ =~= before + leaf_line::<T>(nodes, node as int, prefix@, is_last, i as int));
            assert(buffer@ =~= branched + leaf_lines::<T>(nodes, node as int, prefix@, is_last, i + 1));
            i += 1;
        }
        assert(buffer@ =~= start + drawing::<T>(nodes, node as int, prefix@, is_last));
    }

    /// The drawing of the tree below `node`: one line for each directory and
    /// each file, branches before files, in the order they were added.
    pub fn to_string(&self, node: usize) -> (text: String)
        requires
            self.wf(),
            self.contains(node),
        ensures
            text@ == tree_text::<T>(self@, node as int),
    {
        let mut buffer: Vec<char> = Vec::new();
        let prefix: Vec<char> = Vec::new();
        self.build_string(node, &mut buffer, &prefix, true);
        assert(buffer@ =~= drawing::<T>(self@, node as int, Seq::empty(), true));
        buffer.pop();
        from_chars(&buffer)
    }
}

impl<T: Leaf> PartialEq for Tree<T> {
    /// Two trees are equal when every file of the first has its like in the second.
    fn eq(&self, other: &Self) -> (same: bool) {
        self.same_leaves(other)
    }
}

impl<T: Leaf> vstd::std_specs::cmp::PartialEqSpecImpl for Tree<T> {
    open spec fn obeys_eq_spec() -> bool {
        true
    }

    open spec fn eq_spec(&self, other: &Self) -> bool {
        leaves_covered::<T>(self@, other@)
    }
}

} // verus!

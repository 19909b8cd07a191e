//! The walk over the entries of a directory, one decision at a time.
//!
//! The entries arrive as a depth-first enumeration yields them: a directory
//! before what it holds, names in order. The walker keeps a single position,
//! the directory that the next entry is expected to lie in. For each entry it
//! first finds the position again, then reads the ignore file of that
//! directory if it has not done so, then decides what becomes of the entry.
//! Reading files and enumerating directories is left to the caller.

use vstd::prelude::*;
use vstd::string::StringExecFns;
use crate::codebase::item::{CodebaseItem, ItemModel};
use crate::codebase::Codebase;
use crate::error::{CunwError, CunwErrorKind};
use crate::gitignore::{rules_build, rules_of, GitIgnore};
use crate::glob::{matches_any, PatternSet};
use crate::path;
use crate::text::{decode, texts};
use crate::tree::{effective_scope, fresh_node, nearest_with_dir, well_formed, NodeModel, Tree};

verus! {

/// What an entry of the enumeration is.
#[derive(Debug, Clone, Copy, PartialEq, Eq)]
pub enum EntryKind {
    /// A directory, whose entries follow.
    Directory,
    /// A regular file.
    File,
    /// Anything else, such as a link that is not followed.
    Other,
}

/// What the caller has to do after an entry was visited.
#[derive(Debug, Clone, Copy, PartialEq, Eq)]
pub enum WalkAction {
    /// Nothing: the entry was left out, or needs no further work.
    Skip,
    /// The entry is a directory that was left out: do not enumerate what it holds.
    Prune,
    /// The entry is a directory that was added to the tree as `branch`.
    Enter { branch: usize },
    /// The entry is a file that was added as file `index` of `node`: load its text.
    Load { node: usize, index: usize },
}

/// What a walk was set up with, as plain values.
pub struct WalkConfig {
    /// The directory that the walk starts from.
    pub root: Seq<char>,
    /// Whether the ignore files found in directories are honoured.
    pub honor_ignore_files: bool,
    /// The patterns of the entries to leave out, whatever ignore files say.
    pub excluded: Option<Seq<Seq<char>>>,
}

/// The components of the directory that an entry is looked for in when it
/// does not lie below the position: its parent, or the path itself where it
/// has none.
pub open spec fn rehome_target(path: Seq<char>) -> Seq<Seq<char>> {
    match path::parent_components(path) {
        Some(parts) => parts,
        None => path::components(path),
    }
}

/// The position for an entry: the current one if the entry lies at or below
/// its directory, else the nearest directory upwards that is the parent of
/// the entry; `None` where there is no such directory.
pub open spec fn rehomed(
    nodes: Seq<NodeModel<ItemModel>>,
    current: usize,
    path: Seq<char>,
) -> Option<usize> {
    if path::path_starts_with(path, nodes[current as int].dir) {
        Some(current)
    } else {
        nearest_with_dir(nodes, current as int, rehome_target(path))
    }
}

/// Whether the ignore file of the directory at `position` is still to be read.
pub open spec fn needs_rules(
    config: WalkConfig,
    nodes: Seq<NodeModel<ItemModel>>,
    position: usize,
) -> bool {
    config.honor_ignore_files && nodes[position as int].scope is None
}

/// The tree after the ignore file of the directory at `position` was read:
/// its rules are stored with the directory if there is such a file and the
/// directory had none yet.
pub open spec fn attached(
    nodes: Seq<NodeModel<ItemModel>>,
    position: usize,
    content: Option<Seq<char>>,
) -> Seq<NodeModel<ItemModel>> {
    match content {
        Some(text) if nodes[position as int].scope is None => nodes.update(
            position as int,
            NodeModel {
                scope: Some(rules_of(nodes[position as int].dir, true, text)),
                ..nodes[position as int]
            },
        ),
        _ => nodes,
    }
}

/// Whether an entry is left out: by the rules that govern the directory at
/// `position`, where ignore files are honoured, or by the patterns of the walk.
pub open spec fn left_out(
    config: WalkConfig,
    nodes: Seq<NodeModel<ItemModel>>,
    position: usize,
    path: Seq<char>,
) -> bool {
    ||| config.honor_ignore_files && (effective_scope(nodes, position as int) matches Some(rules)
        && rules.excludes(path))
    ||| (config.excluded matches Some(patterns) && matches_any(patterns, path))
}

/// What becomes of an entry at `position`: the tree, the position and the
/// action after it. An entry that is left out changes nothing, and prunes
/// the enumeration if it is a directory. The root itself is passed over. A
/// directory becomes a branch and the new position; a file becomes a leaf.
pub open spec fn placed(
    config: WalkConfig,
    nodes: Seq<NodeModel<ItemModel>>,
    position: usize,
    path: Seq<char>,
    kind: EntryKind,
) -> (Seq<NodeModel<ItemModel>>, usize, WalkAction) {
    if left_out(config, nodes, position, path) {
        if kind is Directory {
            (nodes, position, WalkAction::Prune)
        } else {
            (nodes, position, WalkAction::Skip)
        }
    } else if path::same_path(path, config.root) {
        (nodes, position, WalkAction::Skip)
    } else {
        let here = nodes[position as int];
        match kind {
            EntryKind::Directory => (
                nodes.update(
                    position as int,
                    NodeModel { branches: here.branches.push(nodes.len() as usize), ..here },
                ).push(fresh_node(path, Some(position))),
                nodes.len() as usize,
                WalkAction::Enter { branch: nodes.len() as usize },
            ),
            EntryKind::File => (
                nodes.update(
                    position as int,
                    NodeModel {
                        leaves: here.leaves.push(ItemModel { path, content: None }),
                        ..here
                    },
                ),
                position,
                WalkAction::Load { node: position, index: here.leaves.len() as usize },
            ),
            EntryKind::Other => (nodes, position, WalkAction::Skip),
        }
    }
}

/// The text of the ignore file that a visit takes into account: the one
/// handed in, where the directory at the position still needs its rules.
pub open spec fn rules_text(
    config: WalkConfig,
    nodes: Seq<NodeModel<ItemModel>>,
    position: usize,
    ignore_file: Option<Seq<char>>,
) -> Option<Seq<char>> {
    if needs_rules(config, nodes, position) {
        ignore_file
    } else {
        None
    }
}

/// The message of the error that ends a walk when an entry has no place in the tree.
pub open spec fn no_parent_message(path: Seq<char>) -> Seq<char> {
    "Failed to find a parent for path: "@ + path
}

/// How the loading of a file ended: with the bytes read, or with the reason
/// why they could not be read.
pub struct Loaded {
    /// The directory of the file, as `WalkAction::Load` gave it.
    pub node: usize,
    /// The place of the file in its directory, as `WalkAction::Load` gave it.
    pub index: usize,
    /// The bytes of the file, or why they could not be read.
    pub outcome: Result<Vec<u8>, String>,
}

/// How the loading of a file ended, as plain values.
pub struct LoadModel {
    pub node: usize,
    pub index: usize,
    pub outcome: Result<Seq<u8>, Seq<char>>,
}

impl View for Loaded {
    type V = LoadModel;

    open spec fn view(&self) -> LoadModel {
        LoadModel {
            node: self.node,
            index: self.index,
            outcome: match self.outcome {
                Ok(bytes) => Ok(bytes@),
                Err(reason) => Err(reason@),
            },
        }
    }
}

/// The plain values of the given loads.
pub open spec fn load_models(loads: Seq<Loaded>) -> Seq<LoadModel> {
    Seq::new(loads.len(), |i: int| loads[i]@)
}

impl LoadModel {
    /// The text that was loaded: the bytes read, if they are valid UTF-8.
    pub open spec fn text(self) -> Option<Seq<char>> {
        match self.outcome {
            Ok(bytes) => if vstd::utf8::valid_utf8(bytes) {
                Some(vstd::utf8::decode_utf8(bytes))
            } else {
                None
            },
            Err(_) => None,
        }
    }

    /// Whether the load is for a file of the tree.
    pub open spec fn names_leaf(self, nodes: Seq<NodeModel<ItemModel>>) -> bool {
        self.node < nodes.len() && self.index < nodes[self.node as int].leaves.len()
    }
}

/// The tree after one load was taken in: the text goes into the cell of its
/// file if the load gave a text and the cell was empty.
pub open spec fn stored(nodes: Seq<NodeModel<ItemModel>>, load: LoadModel) -> Seq<
    NodeModel<ItemModel>,
> {
    if load.names_leaf(nodes) && load.text() is Some && nodes[load.node as int].leaves[load.index as int].content is None {
        let here = nodes[load.node as int];
        nodes.update(
            load.node as int,
            NodeModel {
                leaves: here.leaves.update(
                    load.index as int,
                    ItemModel { content: load.text(), ..here.leaves[load.index as int] },
                ),
                ..here
            },
        )
    } else {
        nodes
    }
}

/// The tree after the given loads were taken in, one after the other.
pub open spec fn settled(nodes: Seq<NodeModel<ItemModel>>, loads: Seq<LoadModel>) -> Seq<
    NodeModel<ItemModel>,
>
    decreases loads.len(),
{
    if loads.len() == 0 {
        nodes
    } else {
        stored(settled(nodes, loads.drop_last()), loads.last())
    }
}

/// The paths of the files whose load gave no text, in the order of the loads.
pub open spec fn failed_paths(nodes: Seq<NodeModel<ItemModel>>, loads: Seq<LoadModel>) -> Seq<
    Seq<char>,
>
    decreases loads.len(),
{
    if loads.len() == 0 {
        Seq::empty()
    } else if loads.last().names_leaf(nodes) && loads.last().text() is None {
        failed_paths(nodes, loads.drop_last()).push(
            nodes[loads.last().node as int].leaves[loads.last().index as int].path,
        )
    } else {
        failed_paths(nodes, loads.drop_last())
    }
}

/// The given paths, separated by a comma and a space.
pub open spec fn listed(paths: Seq<Seq<char>>) -> Seq<char>
    decreases paths.len(),
{
    if paths.len() == 0 {
        Seq::empty()
    } else if paths.len() == 1 {
        paths[0]
    } else {
        listed(paths.drop_last()) + ", "@ + paths.last()
    }
}

/// The message of the error that ends a build when files could not be loaded.
pub open spec fn load_failure_message(paths: Seq<Seq<char>>) -> Seq<char> {
    "Failed to read file(s) content(s): "@ + listed(paths)
}

/// Taking in a load changes neither the shape of the tree nor the paths of its files.
pub proof fn lemma_stored_keeps_shape(nodes: Seq<NodeModel<ItemModel>>, load: LoadModel)
    requires
        well_formed(nodes),
    ensures
        well_formed(stored(nodes, load)),
        stored(nodes, load).len() == nodes.len(),
        forall|n: int|
            0 <= n < nodes.len() ==> {
                &&& (#[trigger] stored(nodes, load)[n]).dir == nodes[n].dir
                &&& stored(nodes, load)[n].parent == nodes[n].parent
                &&& stored(nodes, load)[n].branches == nodes[n].branches
                &&& stored(nodes, load)[n].scope == nodes[n].scope
                &&& stored(nodes, load)[n].leaves.len() == nodes[n].leaves.len()
            },
        forall|n: int, i: int|
            0 <= n < nodes.len() && 0 <= i < nodes[n].leaves.len() ==> (
            #[trigger] stored(nodes, load)[n].leaves[i]).path == nodes[n].leaves[i].path,
{
}

/// Whether no two of `loads` are for the same file.
pub open spec fn distinct_targets(loads: Seq<LoadModel>) -> bool {
    forall|j: int, k: int|
        0 <= j < k < loads.len() ==> !((#[trigger] loads[j]).node == (#[trigger] loads[k]).node
            && loads[j].index == loads[k].index)
}

/// Whether every one of `loads` is for a file of the tree.
pub open spec fn all_name_leaves(nodes: Seq<NodeModel<ItemModel>>, loads: Seq<LoadModel>) -> bool {
    forall|k: int| 0 <= k < loads.len() ==> (#[trigger] loads[k]).names_leaf(nodes)
}

/// Whether one of `loads` is for file `index` of `node`.
pub open spec fn is_target(loads: Seq<LoadModel>, node: int, index: int) -> bool {
    exists|k: int|
        0 <= k < loads.len() && (#[trigger] loads[k]).node == node && loads[k].index == index
}

/// The file that a load is for.
pub open spec fn target_of(nodes: Seq<NodeModel<ItemModel>>, load: LoadModel) -> ItemModel {
    nodes[load.node as int].leaves[load.index as int]
}

/// Taking in loads changes neither the shape of the tree nor the paths of its files.
pub proof fn lemma_settled_keeps_shape(nodes: Seq<NodeModel<ItemModel>>, loads: Seq<LoadModel>)
    requires
        well_formed(nodes),
    ensures
        well_formed(settled(nodes, loads)),
        settled(nodes, loads).len() == nodes.len(),
        forall|n: int|
            0 <= n < nodes.len() ==> {
                &&& (#[trigger] settled(nodes, loads)[n]).dir == nodes[n].dir
                &&& settled(nodes, loads)[n].parent == nodes[n].parent
                &&& settled(nodes, loads)[n].branches == nodes[n].branches
                &&& settled(nodes, loads)[n].scope == nodes[n].scope
                &&& settled(nodes, loads)[n].leaves.len() == nodes[n].leaves.len()
            },
        forall|n: int, i: int|
            0 <= n < nodes.len() && 0 <= i < nodes[n].leaves.len() ==> (
            #[trigger] settled(nodes, loads)[n].leaves[i]).path == nodes[n].leaves[i].path,
    decreases loads.len(),
{
    if loads.len() > 0 {
        lemma_settled_keeps_shape(nodes, loads.drop_last());
        lemma_stored_keeps_shape(settled(nodes, loads.drop_last()), loads.last());
    }
}

/// What the cells hold after the loads were taken in, whatever their order:
/// the cell of a file that a load is for holds the text it held before, or
/// else the text of that load; every other file is as it was.
pub proof fn lemma_settled_cells(nodes: Seq<NodeModel<ItemModel>>, loads: Seq<LoadModel>)
    requires
        well_formed(nodes),
        all_name_leaves(nodes, loads),
        distinct_targets(loads),
    ensures
        forall|k: int|
            0 <= k < loads.len() ==> target_of(settled(nodes, loads), #[trigger] loads[k]).content
                == if target_of(nodes, loads[k]).content is Some {
                target_of(nodes, loads[k]).content
            } else {
                loads[k].text()
            },
        forall|n: int, i: int|
            0 <= n < nodes.len() && 0 <= i < nodes[n].leaves.len() && !is_target(loads, n, i)
                ==> (#[trigger] settled(nodes, loads)[n].leaves[i]) == nodes[n].leaves[i],
    decreases loads.len(),
{
    if loads.len() > 0 {
        let earlier = loads.drop_last();
        let last = loads.last();
        let before = settled(nodes, earlier);
        let after = settled(nodes, loads);
        assert(all_name_leaves(nodes, earlier)) by {
            assert forall|k: int| 0 <= k < earlier.len() implies (#[trigger] earlier[k]).names_leaf(
                nodes,
            ) by {
                assert(earlier[k] == loads[k]);
            }
        }
        assert(distinct_targets(earlier)) by {
            assert forall|j: int, k: int| 0 <= j < k < earlier.len() implies !((
            #[trigger] earlier[j]).node == (#[trigger] earlier[k]).node && earlier[j].index
                == earlier[k].index) by {
                assert(earlier[j] == loads[j]);
                assert(earlier[k] == loads[k]);
            }
        }
        lemma_settled_cells(nodes, earlier);
        lemma_settled_keeps_shape(nodes, earlier);
        assert(last == loads[loads.len() - 1]);
        assert(last.names_leaf(nodes));
        assert(!is_target(earlier, last.node as int, last.index as int)) by {
            if is_target(earlier, last.node as int, last.index as int) {
                let k = choose|k: int|
                    0 <= k < earlier.len() && (#[trigger] earlier[k]).node == last.node
                        && earlier[k].index == last.index;
                assert(earlier[k] == loads[k]);
            }
        }
        assert(target_of(before, last) == target_of(nodes, last));
        assert forall|k: int| 0 <= k < loads.len() implies target_of(
            after,
            #[trigger] loads[k],
        ).content == if target_of(nodes, loads[k]).content is Some {
            target_of(nodes, loads[k]).content
        } else {
            loads[k].text()
        } by {
            assert(loads[k].names_leaf(nodes));
            if k < loads.len() - 1 {
                assert(earlier[k] == loads[k]);
                assert(!(loads[k].node == last.node && loads[k].index == last.index));
                assert(target_of(after, loads[k]) == target_of(before, loads[k]));
            }
        }
        assert forall|n: int, i: int|
            0 <= n < nodes.len() && 0 <= i < nodes[n].leaves.len() && !is_target(
                loads,
                n,
                i,
            ) implies (#[trigger] after[n].leaves[i]) == nodes[n].leaves[i] by {
            assert(!(last.node == n && last.index == i));
            assert(!is_target(earlier, n, i)) by {
                if is_target(earlier, n, i) {
                    let k = choose|k: int|
                        0 <= k < earlier.len() && (#[trigger] earlier[k]).node == n
                            && earlier[k].index == i;
                    assert(earlier[k] == loads[k]);
                }
            }
            assert(before[n].leaves[i] == nodes[n].leaves[i]);
        }
    }
}

/// The loads may end in any order: two runs of the same loads, each for a
/// file of its own, leave the same text in every cell.
pub proof fn lemma_order_of_loads_is_immaterial(
    nodes: Seq<NodeModel<ItemModel>>,
    first: Seq<LoadModel>,
    second: Seq<LoadModel>,
)
    requires
        well_formed(nodes),
        all_name_leaves(nodes, first),
        distinct_targets(first),
        distinct_targets(second),
        first.to_multiset() == second.to_multiset(),
    ensures
        settled(nodes, first) == settled(nodes, second),
{
    broadcast use vstd::seq_lib::group_to_multiset_ensures;

    let one = settled(nodes, first);
    let other = settled(nodes, second);
    assert forall|k: int| 0 <= k < second.len() implies first.contains(#[trigger] second[k]) by {
        assert(second.contains(second[k]));
        assert(second.to_multiset().count(second[k]) > 0);
    }
    assert forall|k: int| 0 <= k < first.len() implies second.contains(#[trigger] first[k]) by {
        assert(first.contains(first[k]));
        assert(first.to_multiset().count(first[k]) > 0);
    }
    assert(all_name_leaves(nodes, second)) by {
        assert forall|k: int| 0 <= k < second.len() implies (#[trigger] second[k]).names_leaf(
            nodes,
        ) by {
            assert(first.contains(second[k]));
            let j = choose|j: int| 0 <= j < first.len() && first[j] == second[k];
            assert(first[j].names_leaf(nodes));
        }
    }
    lemma_settled_cells(nodes, first);
    lemma_settled_cells(nodes, second);
    lemma_settled_keeps_shape(nodes, first);
    lemma_settled_keeps_shape(nodes, second);
    assert forall|n: int| 0 <= n < nodes.len() implies #[trigger] one[n] == other[n] by {
        assert forall|i: int| 0 <= i < nodes[n].leaves.len() implies #[trigger] one[n].leaves[i]
            == other[n].leaves[i] by {
            if is_target(first, n, i) {
                let k = choose|k: int|
                    0 <= k < first.len() && (#[trigger] first[k]).node == n && first[k].index == i;
                assert(second.contains(first[k]));
                let j = choose|j: int| 0 <= j < second.len() && second[j] == first[k];
                assert(target_of(one, first[k]).content == target_of(other, second[j]).content);
            } else {
                assert(!is_target(second, n, i)) by {
                    if is_target(second, n, i) {
                        let j = choose|j: int|
                            0 <= j < second.len() && (#[trigger] second[j]).node == n
                                && second[j].index == i;
                        assert(first.contains(second[j]));
                        let k = choose|k: int| 0 <= k < first.len() && first[k] == second[j];
                        assert(first[k].node == n && first[k].index == i);
                    }
                }
            }
        }
        assert(one[n].leaves =~= other[n].leaves);
    }
    assert(one =~= other);
}

/// A load that gave no text puts the path of its file among the failed
/// paths, and every failed path is that of a file whose load gave no text.
pub proof fn lemma_failed_paths_are_the_failures(
    nodes: Seq<NodeModel<ItemModel>>,
    loads: Seq<LoadModel>,
)
    requires
        all_name_leaves(nodes, loads),
    ensures
        forall|k: int|
            0 <= k < loads.len() && (#[trigger] loads[k]).text() is None ==> failed_paths(
                nodes,
                loads,
            ).contains(target_of(nodes, loads[k]).path),
        forall|p: Seq<char>| #[trigger]
            failed_paths(nodes, loads).contains(p) ==> exists|k: int|
                0 <= k < loads.len() && (#[trigger] loads[k]).text() is None && target_of(
                    nodes,
                    loads[k],
                ).path == p,
        failed_paths(nodes, loads).len() == 0 <==> forall|k: int|
            0 <= k < loads.len() ==> (#[trigger] loads[k]).text() is Some,
    decreases loads.len(),
{
    if loads.len() > 0 {
        let earlier = loads.drop_last();
        let last = loads.last();
        assert(all_name_leaves(nodes, earlier)) by {
            assert forall|k: int| 0 <= k < earlier.len() implies (#[trigger] earlier[k]).names_leaf(
                nodes,
            ) by {
                assert(earlier[k] == loads[k]);
            }
        }
        lemma_failed_paths_are_the_failures(nodes, earlier);
        let before = failed_paths(nodes, earlier);
        let all = failed_paths(nodes, loads);
        assert(last == loads[loads.len() - 1]);
        assert(last.names_leaf(nodes));
        assert forall|k: int| 0 <= k < loads.len() && (#[trigger] loads[k]).text() is None implies all.contains(
            target_of(nodes, loads[k]).path,
        ) by {
            if k < loads.len() - 1 {
                assert(earlier[k] == loads[k]);
                let p = target_of(nodes, loads[k]).path;
                assert(before.contains(p));
                let j = choose|j: int| 0 <= j < before.len() && before[j] == p;
                assert(all[j] == p);
            } else {
                assert(all == before.push(target_of(nodes, last).path));
                assert(all[all.len() - 1] == target_of(nodes, last).path);
            }
        }
        assert forall|p: Seq<char>| #[trigger] all.contains(p) implies exists|k: int|
            0 <= k < loads.len() && (#[trigger] loads[k]).text() is None && target_of(
                nodes,
                loads[k],
            ).path == p by {
            let j = choose|j: int| 0 <= j < all.len() && all[j] == p;
            if j < before.len() {
                assert(before[j] == p);
                assert(before.contains(p));
                let k = choose|k: int|
                    0 <= k < earlier.len() && (#[trigger] earlier[k]).text() is None && target_of(
                        nodes,
                        earlier[k],
                    ).path == p;
                assert(earlier[k] == loads[k]);
            } else {
                assert(last.text() is None);
                assert(loads[loads.len() - 1].text() is None);
            }
        }
        if all.len() == 0 {
            assert forall|k: int| 0 <= k < loads.len() implies (#[trigger] loads[k]).text() is Some by {
                if k < loads.len() - 1 {
                    assert(earlier[k] == loads[k]);
                }
            }
        } else if before.len() > 0 {
            let k = choose|k: int| 0 <= k < earlier.len() && !((#[trigger] earlier[k]).text() is Some);
            assert(earlier[k] == loads[k]);
        }
    }
}

/// Where a single load gave no text, the error names that file alone, and
/// every other load has left its text in the cell of its file.
pub proof fn lemma_single_failure_spares_the_rest(
    nodes: Seq<NodeModel<ItemModel>>,
    loads: Seq<LoadModel>,
    failed: int,
)
    requires
        well_formed(nodes),
        all_name_leaves(nodes, loads),
        distinct_targets(loads),
        0 <= failed < loads.len(),
        loads[failed].text() is None,
        forall|k: int| 0 <= k < loads.len() && k != failed ==> (#[trigger] loads[k]).text() is Some,
        forall|k: int| 0 <= k < loads.len() ==> target_of(nodes, #[trigger] loads[k]).content is None,
    ensures
        failed_paths(nodes, loads) == seq![target_of(nodes, loads[failed]).path],
        forall|k: int|
            0 <= k < loads.len() && k != failed ==> target_of(
                settled(nodes, loads),
                #[trigger] loads[k],
            ).content == loads[k].text(),
{
    lemma_settled_cells(nodes, loads);
    lemma_one_failed_path(nodes, loads, failed);
}

proof fn lemma_no_failed_path(nodes: Seq<NodeModel<ItemModel>>, loads: Seq<LoadModel>)
    requires
        forall|k: int| 0 <= k < loads.len() ==> (#[trigger] loads[k]).text() is Some,
    ensures
        failed_paths(nodes, loads) == Seq::<Seq<char>>::empty(),
    decreases loads.len(),
{
    if loads.len() > 0 {
        assert forall|k: int| 0 <= k < loads.drop_last().len() implies (
        #[trigger] loads.drop_last()[k]).text() is Some by {
            assert(loads.drop_last()[k] == loads[k]);
        }
        lemma_no_failed_path(nodes, loads.drop_last());
        assert(loads.last() == loads[loads.len() - 1]);
    }
}

proof fn lemma_one_failed_path(nodes: Seq<NodeModel<ItemModel>>, loads: Seq<LoadModel>, failed: int)
    requires
        all_name_leaves(nodes, loads),
        0 <= failed < loads.len(),
        loads[failed].text() is None,
        forall|k: int| 0 <= k < loads.len() && k != failed ==> (#[trigger] loads[k]).text() is Some,
    ensures
        failed_paths(nodes, loads) == seq![target_of(nodes, loads[failed]).path],
    decreases loads.len(),
{
    let earlier = loads.drop_last();
    assert(loads.last() == loads[loads.len() - 1]);
    if failed == loads.len() - 1 {
        assert forall|k: int| 0 <= k < earlier.len() implies (#[trigger] earlier[k]).text() is Some by {
            assert(earlier[k] == loads[k]);
        }
        lemma_no_failed_path(nodes, earlier);
        assert(loads.last().names_leaf(nodes));
        assert(Seq::<Seq<char>>::empty().push(target_of(nodes, loads[failed]).path) == seq![
            target_of(nodes, loads[failed]).path,
        ]);
    } else {
        assert(all_name_leaves(nodes, earlier)) by {
            assert forall|k: int| 0 <= k < earlier.len() implies (#[trigger] earlier[k]).names_leaf(
                nodes,
            ) by {
                assert(earlier[k] == loads[k]);
            }
        }
        assert(earlier[failed] == loads[failed]);
        assert forall|k: int| 0 <= k < earlier.len() && k != failed implies (
        #[trigger] earlier[k]).text() is Some by {
            assert(earlier[k] == loads[k]);
        }
        lemma_one_failed_path(nodes, earlier, failed);
    }
}

/// A walk in progress: the tree built so far and the position in it.
pub struct Walker {
    root: String,
    honor_ignore_files: bool,
    excluded: Option<PatternSet>,
    tree: Tree<CodebaseItem>,
    current: usize,
}

impl Walker {
    /// What the walk was set up with.
    pub closed spec fn config(&self) -> WalkConfig {
        WalkConfig {
            root: self.root@,
            honor_ignore_files: self.honor_ignore_files,
            excluded: match self.excluded {
                Some(set) => Some(set@),
                None => None,
            },
        }
    }

    /// The tree built so far.
    pub closed spec fn nodes(&self) -> Seq<NodeModel<ItemModel>> {
        self.tree@
    }

    /// The directory that the next entry is expected to lie in.
    pub closed spec fn position(&self) -> usize {
        self.current
    }

    /// Whether the tree is well formed and the position lies in it.
    pub open spec fn wf(&self) -> bool {
        well_formed(self.nodes()) && self.position() < self.nodes().len()
    }

    /// A walk that starts at the directory `root`, with the tree that holds
    /// `root` alone.
    pub fn new(root: String, honor_ignore_files: bool, excluded: Option<PatternSet>) -> (walker:
        Self)
        ensures
            walker.wf(),
            walker.config() == (WalkConfig {
                root: root@,
                honor_ignore_files,
                excluded: match excluded {
                    Some(set) => Some(set@),
                    None => None,
                },
            }),
            walker.nodes() == seq![fresh_node::<ItemModel>(root@, None)],
            walker.position() == 0,
    {
        let tree = Tree::new(root.clone());
        Walker { root, honor_ignore_files, excluded, tree, current: 0 }
    }

    /// Finds the position for the entry at `path`. Returns the directory
    /// whose ignore file is to be read before the entry is visited, if any.
    /// Fails, and changes nothing, when the entry has no place in the tree.
    pub fn locate(&mut self, path: &str) -> (result: Result<Option<String>, CunwError>)
        requires
            old(self).wf(),
        ensures
            final(self).wf(),
            final(self).config() == old(self).config(),
            final(self).nodes() == old(self).nodes(),
            match result {
                Ok(probe) => {
                    &&& rehomed(old(self).nodes(), old(self).position(), path@) == Some(
                        final(self).position(),
                    )
                    &&& match probe {
                        Some(dir) => needs_rules(
                            final(self).config(),
                            final(self).nodes(),
                            final(self).position(),
                        ) && dir@ == final(self).nodes()[final(self).position() as int].dir,
                        None => !needs_rules(
                            final(self).config(),
                            final(self).nodes(),
                            final(self).position(),
                        ),
                    }
                },
                Err(error) => {
                    &&& rehomed(old(self).nodes(), old(self).position(), path@) is None
                    &&& final(self).position() == old(self).position()
                    &&& error.source matches CunwErrorKind::CodebaseBuild(message)
                    &&& message@ == no_parent_message(path@)
                    &&& error.related_to_file is None
                },
            },
    {
        if !path::starts_with(path, self.tree.current_dir(self.current)) {
            let target = match path::parent_parts(path) {
                Some(parts) => parts,
                None => path::split(path),
            };
            match self.tree.backtrack_to_parts(self.current, &target) {
                Some(found) => {
                    self.current = found;
                },
                None => {
                    let message = String::from_str("Failed to find a parent for path: ").concat(
                        path,
                    );
                    return Err(CunwError::new(CunwErrorKind::CodebaseBuild(message)));
                },
            }
        }
        if self.honor_ignore_files && self.tree.own_gitignore(self.current).is_none() {
            Ok(Some(String::from_str(self.tree.current_dir(self.current))))
        } else {
            Ok(None)
        }
    }

    /// Decides what becomes of an entry, at the position that `locate` found
    /// for it. `ignore_file` is the text of the ignore file of the directory
    /// that `locate` named, or `None` where it named none or the directory
    /// has no such file. Fails, and changes nothing, when the rules of that
    /// file cannot be built.
    pub fn visit(&mut self, path: &str, kind: EntryKind, ignore_file: Option<&str>) -> (result:
        Result<WalkAction, CunwError>)
        requires
            old(self).wf(),
        ensures
            final(self).wf(),
            final(self).config() == old(self).config(),
            ({
                let config = old(self).config();
                let nodes = old(self).nodes();
                let position = old(self).position();
                let text = rules_text(
                    config,
                    nodes,
                    position,
                    match ignore_file {
                        Some(file) => Some(file@),
                        None => None,
                    },
                );
                match result {
                    Ok(action) => {
                        &&& text matches Some(rules) ==> rules_build(rules)
                        &&& (final(self).nodes(), final(self).position(), action) == placed(
                            config,
                            attached(nodes, position, text),
                            position,
                            path@,
                            kind,
                        )
                    },
                    Err(error) => {
                        &&& text matches Some(rules) && !rules_build(rules)
                        &&& final(self).nodes() == nodes
                        &&& final(self).position() == position
                        &&& error.source is GitignoreBuild
                        &&& error.related_to_file matches Some(file)
                        &&& file@ == nodes[position as int].dir
                    },
                }
            }),
    {
        if self.honor_ignore_files && self.tree.own_gitignore(self.current).is_none() {
            let found = GitIgnore::from(self.tree.current_dir(self.current), true, ignore_file)?;
            match found {
                Some(rules) => {
                    self.tree.set_gitignore(self.current, rules);
                },
                None => {},
            }
        }
        let excluded_by_rules = if self.honor_ignore_files {
            match self.tree.gitignore(self.current) {
                Some(rules) => rules.is_excluded(path),
                None => false,
            }
        } else {
            false
        };
        let excluded_by_patterns = match &self.excluded {
            Some(set) => set.is_match(path),
            None => false,
        };
        if excluded_by_rules || excluded_by_patterns {
            return Ok(
                match kind {
                    EntryKind::Directory => WalkAction::Prune,
                    _ => WalkAction::Skip,
                },
            );
        }
        if path::same(path, self.root.as_str()) {
            return Ok(WalkAction::Skip);
        }
        match kind {
            EntryKind::Directory => {
                let branch = self.tree.add_branch(self.current, String::from_str(path));
                self.current = branch;
                Ok(WalkAction::Enter { branch })
            },
            EntryKind::File => {
                let index = self.tree.collect_local_leaves(self.current).len();
                self.tree.add_leaf(self.current, CodebaseItem::new(String::from_str(path)));
                Ok(WalkAction::Load { node: self.current, index })
            },
            EntryKind::Other => Ok(WalkAction::Skip),
        }
    }

    /// Whether `index` is the place of a file in the directory `node` of the tree.
    pub fn has_leaf(&self, node: usize, index: usize) -> (found: bool)
        requires
            self.wf(),
        ensures
            found == (node < self.nodes().len() && index
                < self.nodes()[node as int].leaves.len()),
    {
        node < self.tree.len() && index < self.tree.collect_local_leaves(node).len()
    }

    /// Takes in how the loads of the files ended, in the order given: each
    /// text goes into the cell of its file. Returns the paths of the files
    /// whose load gave no text.
    pub fn settle(&mut self, loads: &Vec<Loaded>) -> (failed: Vec<String>)
        requires
            old(self).wf(),
            all_name_leaves(old(self).nodes(), load_models(loads@)),
        ensures
            final(self).wf(),
            final(self).config() == old(self).config(),
            final(self).position() == old(self).position(),
            final(self).nodes() == settled(old(self).nodes(), load_models(loads@)),
            texts(failed@) == failed_paths(old(self).nodes(), load_models(loads@)),
    {
        let ghost start = self.nodes();
        let ghost all = load_models(loads@);
        let mut failed: Vec<String> = Vec::new();
        let mut k: usize = 0;
        assert(texts(failed@) == Seq::<Seq<char>>::empty());
        assert(all.take(0) == Seq::<LoadModel>::empty());
        while k < loads.len()
            invariant
                k <= loads.len(),
                all == load_models(loads@),
                well_formed(start),
                self.wf(),
                self.config() == old(self).config(),
                self.position() == old(self).position(),
                all_name_leaves(start, all),
                self.nodes() == settled(start, all.take(k as int)),
                self.nodes().len() == start.len(),
                forall|n: int|
                    0 <= n < start.len() ==> (#[trigger] self.nodes()[n]).leaves.len()
                        == start[n].leaves.len(),
                forall|n: int, i: int|
                    0 <= n < start.len() && 0 <= i < start[n].leaves.len() ==> (
                    #[trigger] self.nodes()[n].leaves[i]).path == start[n].leaves[i].path,
                texts(failed@) == failed_paths(start, all.take(k as int)),
            decreases loads.len() - k,
        {
            let load = &loads[k];
            let ghost before = self.nodes();
            assert(all.take(k + 1).drop_last() == all.take(k as int));
            assert(all.take(k + 1).last() == load@);
            assert(all[k as int] == load@);
            assert(load@.names_leaf(start));
            proof {
                lemma_stored_keeps_shape(before, load@);
            }
            let decoded = match &load.outcome {
                Ok(bytes) => decode(bytes),
                Err(_) => None,
            };
            assert(match decoded {
                Some(text) => load@.text() == Some(text@),
                None => load@.text() is None,
            });
            let leaf = &self.tree.collect_local_leaves(load.node)[load.index];
            assert(leaf@ == before[load.node as int].leaves[load.index as int]);
            match decoded {
                Some(text) => {
                    if leaf.content().is_none() {
                        let mut item = leaf.duplicate();
                        item.store(text);
                        self.tree.set_leaf(load.node, load.index, item);
                    }
                },
                None => {
                    let ghost listed = texts(failed@);
                    failed.push(String::from_str(leaf.path()));
                    assert(texts(failed@) == listed.push(leaf@.path));
                },
            }
            assert(self.nodes() == stored(before, load@));
            k += 1;
        }
        assert(all.take(loads.len() as int) == all);
        failed
    }

    /// Ends the walk once every load has ended. Takes in the loads as
    /// `settle` does, and gives the codebase if every load gave a text. If
    /// not, the build fails with one error that names every file whose load
    /// gave none, and no codebase is given.
    pub fn finish(self, loads: &Vec<Loaded>) -> (result: Result<Codebase, CunwError>)
        requires
            self.wf(),
            all_name_leaves(self.nodes(), load_models(loads@)),
        ensures
            result is Ok <==> failed_paths(self.nodes(), load_models(loads@)).len() == 0,
            result matches Ok(codebase) ==> codebase.wf() && codebase@ == settled(
                self.nodes(),
                load_models(loads@),
            ),
            result matches Err(error) ==> {
                &&& error.source matches CunwErrorKind::CodebaseBuild(message)
                &&& message@ == load_failure_message(
                    failed_paths(self.nodes(), load_models(loads@)),
                )
                &&& error.related_to_file matches Some(file)
                &&& file@ == failed_paths(self.nodes(), load_models(loads@))[0]
            },
    {
        let mut walker = self;
        let failed = walker.settle(loads);
        if failed.len() == 0 {
            assert(texts(failed@).len() == 0);
            return Ok(Codebase::new(walker.tree));
        }
        assert(texts(failed@).len() == failed@.len());
        let mut message = String::from_str("Failed to read file(s) content(s): ");
        let ghost lead = message@;
        let mut i: usize = 0;
        assert(texts(failed@).take(0) == Seq::<Seq<char>>::empty());
        while i < failed.len()
            invariant
                i <= failed.len(),
                message@ == lead + listed(texts(failed@).take(i as int)),
            decreases failed.len() - i,
        {
            let ghost shown = texts(failed@).take(i as int);
            let ghost next = texts(failed@).take(i + 1);
            assert(next.drop_last() == shown);
            assert(next.last() == failed@[i as int]@);
            if i > 0 {
                message.append(", ");
            }
            message.append(failed[i].as_str());
            assert(message@ =~= lead + listed(next));
            i += 1;
        }
        assert(texts(failed@).take(failed.len() as int) == texts(failed@));
        let first = failed[0].clone();
        assert(texts(failed@)[0] == first@);
        Err(CunwError::new(CunwErrorKind::CodebaseBuild(message)).with_file(first))
    }

}

} // verus!

//! The codebase: its files, the walk that finds them, and its text form.

pub mod builder;
pub mod item;
pub mod walker;

use vstd::prelude::*;
use vstd::string::StringExecFns;
use crate::codebase::item::{CodebaseItem, ItemModel};
use crate::error::CunwError;
use crate::tree::{all_leaves, pointees, tree_text, well_formed, NodeModel, Tree};

verus! {

/// The drawing of the tree between its opening and closing tags.
pub open spec fn formatted_tree(nodes: Seq<NodeModel<ItemModel>>) -> Seq<char> {
    "<directory_tree>\n"@ + tree_text::<CodebaseItem>(nodes, 0) + "\n</directory_tree>"@
}

/// A file as the codebase writes it out: an opening tag with its path, its
/// text, a closing tag, each on lines of their own. A file whose text is not
/// loaded is not written.
pub open spec fn formatted_leaf(file: ItemModel) -> Seq<char> {
    match file.content {
        Some(content) => "<file path=\""@ + file.path + "\">\n"@ + content + "\n</file>\n"@,
        None => Seq::empty(),
    }
}

/// The given files as the codebase writes them out, one after the other.
pub open spec fn formatted_leaves(files: Seq<ItemModel>) -> Seq<char>
    decreases files.len(),
{
    if files.len() == 0 {
        Seq::empty()
    } else {
        formatted_leaves(files.drop_last()) + formatted_leaf(files.last())
    }
}

/// The text form of a codebase: the drawing of its tree, an empty line, then its files.
pub open spec fn codebase_text(nodes: Seq<NodeModel<ItemModel>>) -> Seq<char> {
    formatted_tree(nodes) + "\n\n"@ + formatted_leaves(all_leaves(nodes, 0))
}

/// The directories and files of a codebase, with the texts of the files.
pub struct Codebase {
    tree: Tree<CodebaseItem>,
}

impl View for Codebase {
    type V = Seq<NodeModel<ItemModel>>;

    closed spec fn view(&self) -> Seq<NodeModel<ItemModel>> {
        self.tree@
    }
}

impl Codebase {
    /// Whether the tree of the codebase is well formed.
    pub open spec fn wf(&self) -> bool {
        well_formed(self@)
    }

    /// The codebase that `tree` holds.
    pub fn new(tree: Tree<CodebaseItem>) -> (codebase: Self)
        requires
            tree.wf(),
        ensures
            codebase.wf(),
            codebase@ == tree@,
    {
        Self { tree }
    }

    /// The tree of the codebase.
    pub fn tree(&self) -> (tree: &Tree<CodebaseItem>)
        ensures
            tree@ == self@,
    {
        &self.tree
    }

    /// Appends the drawing of the tree, between its tags, to `buffer`.
    pub fn push_formated_tree(&self, buffer: &mut String)
        requires
            self.wf(),
        ensures
            final(buffer)@ == old(buffer)@ + formatted_tree(self@),
    {
        let drawing = self.tree.to_string(self.tree.root());
        buffer.append("<directory_tree>\n");
        buffer.append(drawing.as_str());
        buffer.append("\n</directory_tree>");
        assert(buffer@ =~= old(buffer)@ + formatted_tree(self@));
    }

    /// Appends the files whose text is loaded, each between its tags, to `buffer`.
    pub fn push_formated_leaves_representation(&self, buffer: &mut String)
        requires
            self.wf(),
        ensures
            final(buffer)@ == old(buffer)@ + formatted_leaves(all_leaves(self@, 0)),
    {
        let leaves = self.tree.collect_all_leaves(self.tree.root());
        let ghost files = all_leaves(self@, 0);
        let mut i: usize = 0;
        assert(files.take(0) == Seq::<ItemModel>::empty());
        while i < leaves.len()
            invariant
                i <= leaves.len(),
                pointees(leaves@) == files,
                buffer@ == old(buffer)@ + formatted_leaves(files.take(i as int)),
            decreases leaves.len() - i,
        {
            let leaf = leaves[i];
            assert(files.take(i + 1).drop_last() == files.take(i as int));
            assert(files.take(i + 1).last() == leaf@) by {
                assert(pointees(leaves@)[i as int] == leaves@[i as int]@);
            }
            let ghost before = buffer@;
            match leaf.content() {
                Some(content) => {
                    buffer.append("<file path=\"");
                    buffer.append(leaf.path());
                    buffer.append("\">\n");
                    buffer.append(content);
                    buffer.append("\n</file>\n");
                    assert(buffer@ =~= before + formatted_leaf(leaf@));
                },
                None => {
                    assert(buffer@ =~= before + formatted_leaf(leaf@));
                },
            }
            assert(buffer@ =~= old(buffer)@ + formatted_leaves(files.take(i + 1)));
            i += 1;
        }
        assert(files.take(leaves.len() as int) == files);
    }

    /// The text form of the codebase. It never fails.
    pub fn try_to_string(&self) -> (result: Result<String, CunwError>)
        requires
            self.wf(),
        ensures
            result matches Ok(text) && text@ == codebase_text(self@),
    {
        let mut buffer = String::new();
        self.push_formated_tree(&mut buffer);
        buffer.append("\n\n");
        self.push_formated_leaves_representation(&mut buffer);
        assert(buffer@ =~= codebase_text(self@));
        Ok(buffer)
    }
}

} // verus!

//! Files with their text, collected relative to a root, and their text form.

use vstd::prelude::*;
use vstd::string::StringExecFns;
use ptree::item::StringItem;
use ptree::TreeBuilder;
use crate::outline::{
    add_empty_child, begin_child, build_outline, builder_level, builder_outline, draw, end_child,
    has_open, item_outline, leaf, lemma_child_of_last_child, lemma_child_opens_level, new_builder,
    outline_drawing, with_child, OutlineModel,
};
use crate::path;
use crate::text::texts;

verus! {

/// A file: its path and its text.
pub struct File {
    pub path: String,
    pub content: String,
}

/// The space that stands before the text and before the closing tag of a formatted file.
pub open spec fn file_indent() -> Seq<char> {
    "            "@
}

/// A file as it is written out: an opening tag with its path, its text, a closing tag.
pub open spec fn formatted_file(path: Seq<char>, content: Seq<char>) -> Seq<char> {
    "<file path=\""@ + path + "\">\n"@ + file_indent() + content + "\n"@ + file_indent()
        + "</file>"@
}

impl File {
    /// The file at `path` with the text `content`.
    pub fn new(path: String, content: String) -> (file: Self)
        ensures
            file.path == path,
            file.content == content,
    {
        Self { path, content }
    }

    /// The file as it is written out.
    pub fn format(&self) -> (text: String)
        ensures
            text@ == formatted_file(self.path@, self.content@),
    {
        let mut text = String::from_str("<file path=\"");
        text.append(self.path.as_str());
        text.append("\">\n");
        text.append("            ");
        text.append(self.content.as_str());
        text.append("\n");
        text.append("            ");
        text.append("</file>");
        text
    }
}

/// The files collected so far, under their paths relative to `root`.
pub struct FileCollector {
    pub root: String,
    pub files: Vec<File>,
}

impl FileCollector {
    /// A collector for the files below `root`, which holds no file yet.
    pub fn new(root: String) -> (collector: Self)
        ensures
            collector.root == root,
            collector.files@.len() == 0,
    {
        Self { root, files: Vec::new() }
    }

    /// Adds the file at `path`, which lies at or below the root, with its
    /// text. The file is kept under its path relative to the root.
    pub fn collect_file(&mut self, path: &str, content: String)
        requires
            path::path_starts_with(path@, old(self).root@),
        ensures
            final(self).root == old(self).root,
            final(self).files@.len() == old(self).files@.len() + 1,
            final(self).files@.take(old(self).files@.len() as int) == old(self).files@,
            path::relative_to(path@, old(self).root@) == Some(final(self).files@.last().path@),
            final(self).files@.last().content == content,
    {
        match path::strip_prefix(path, self.root.as_str()) {
            Some(relative) => {
                self.files.push(File { path: relative, content });
            },
            None => {},
        }
        assert(self.files@.take(old(self).files@.len() as int) =~= old(self).files@);
    }

    /// Adds the given files, each a path at or below the root with its text,
    /// in the order given.
    pub fn collect_files(&mut self, files: Vec<(String, String)>)
        requires
            forall|i: int|
                0 <= i < files@.len() ==> path::path_starts_with(
                    (#[trigger] files@[i]).0@,
                    old(self).root@,
                ),
        ensures
            final(self).root == old(self).root,
            final(self).files@.len() == old(self).files@.len() + files@.len(),
            final(self).files@.take(old(self).files@.len() as int) == old(self).files@,
            forall|i: int|
                0 <= i < files@.len() ==> {
                    &&& path::relative_to((#[trigger] files@[i]).0@, old(self).root@) == Some(
                        final(self).files@[old(self).files@.len() + i].path@,
                    )
                    &&& final(self).files@[old(self).files@.len() + i].content@ == files@[i].1@
                },
    {
        let ghost start = self.files@;
        let mut i: usize = 0;
        while i < files.len()
            invariant
                i <= files.len(),
                self.root == old(self).root,
                start == old(self).files@,
                self.files@.len() == start.len() + i,
                self.files@.take(start.len() as int) == start,
                forall|k: int|
                    0 <= k < files@.len() ==> path::path_starts_with(
                        (#[trigger] files@[k]).0@,
                        self.root@,
                    ),
                forall|k: int|
                    0 <= k < i ==> {
                        &&& path::relative_to((#[trigger] files@[k]).0@, self.root@) == Some(
                            self.files@[start.len() + k].path@,
                        )
                        &&& self.files@[start.len() + k].content@ == files@[k].1@
                    },
            decreases files.len() - i,
        {
            let ghost before = self.files@;
            self.collect_file(files[i].0.as_str(), files[i].1.clone());
            assert(self.files@.take(start.len() as int) =~= before.take(start.len() as int));
            assert forall|k: int| 0 <= k < i + 1 implies {
                &&& path::relative_to((#[trigger] files@[k]).0@, self.root@) == Some(
                    self.files@[start.len() + k].path@,
                )
                &&& self.files@[start.len() + k].content@ == files@[k].1@
            } by {
                if k < i {
                    assert(self.files@[start.len() + k] == before[start.len() + k]);
                }
            }
            i += 1;
        }
    }
}

/// A path among those that a tree of directories is built from, with what
/// the disk says of it.
pub struct ListedPath {
    /// The path.
    pub path: String,
    /// Whether the path is that of a regular file.
    pub is_file: bool,
}

/// A listed path, as plain values.
pub struct ListedModel {
    pub path: Seq<char>,
    pub is_file: bool,
}

impl View for ListedPath {
    type V = ListedModel;

    open spec fn view(&self) -> ListedModel {
        ListedModel { path: self.path@, is_file: self.is_file }
    }
}

/// The plain values of the given listed paths.
pub open spec fn listed_models(entries: Seq<ListedPath>) -> Seq<ListedModel> {
    Seq::new(entries.len(), |i: int| entries[i]@)
}

/// The entries in order with `entry` put in its place: behind the last entry
/// that it does not come before.
pub open spec fn inserted(sorted: Seq<ListedModel>, entry: ListedModel) -> Seq<ListedModel>
    decreases sorted.len(),
{
    if sorted.len() == 0 {
        seq![entry]
    } else if path::path_before(entry.path, sorted.last().path) {
        inserted(sorted.drop_last(), entry).push(sorted.last())
    } else {
        sorted.push(entry)
    }
}

/// The entries put in the order of their paths; entries that neither come
/// before the other keep the order they were given in.
pub open spec fn in_order(entries: Seq<ListedModel>) -> Seq<ListedModel>
    decreases entries.len(),
{
    if entries.len() == 0 {
        Seq::empty()
    } else {
        inserted(in_order(entries.drop_last()), entries.last())
    }
}

/// The entries but those that are the place `dir`.
pub open spec fn without_dir(entries: Seq<ListedModel>, dir: Seq<char>) -> Seq<ListedModel>
    decreases entries.len(),
{
    if entries.len() == 0 {
        Seq::empty()
    } else if path::same_path(entries.last().path, dir) {
        without_dir(entries.drop_last(), dir)
    } else {
        without_dir(entries.drop_last(), dir).push(entries.last())
    }
}

/// The entries as a directory takes them: without the directory itself, in
/// the order of their paths, last first, so that the first is taken from the end.
pub open spec fn prepared(entries: Seq<ListedModel>, parent: Seq<char>) -> Seq<ListedModel> {
    in_order(without_dir(entries, parent)).reverse()
}

/// The paths among `entries` that do not lie at or below `root`.
pub open spec fn strays(entries: Seq<ListedModel>, root: Seq<char>) -> Seq<Seq<char>>
    decreases entries.len(),
{
    if entries.len() == 0 {
        Seq::empty()
    } else if path::path_starts_with(entries.last().path, root) {
        strays(entries.drop_last(), root)
    } else {
        strays(entries.drop_last(), root).push(entries.last().path)
    }
}

/// A directory with what lies below it, as plain values.
pub struct DirectoryModel {
    /// The path of the directory.
    pub path: Seq<char>,
    /// The directory that it was found in.
    pub parent: Option<Seq<char>>,
    /// The directories in it.
    pub childs: Option<Seq<DirectoryModel>>,
    /// The files in it, by their paths relative to it.
    pub siblings: Option<Seq<Seq<char>>>,
    /// The paths that were listed but do not lie below the root.
    pub orphans: Option<Seq<Seq<char>>>,
}

/// What a directory gathers from the entries still to be taken: its
/// directories, its files, and the entries that are left.
pub struct Gathered {
    pub childs: Seq<DirectoryModel>,
    pub siblings: Seq<Seq<char>>,
    pub rest: Seq<ListedModel>,
}

/// The directory `path`, found in `parent`, built from the entries still to
/// be taken, and the entries that are left after it. The entries that the
/// directory takes are never more than those given (see
/// `lemma_prepared_is_no_longer`), so its directories, files and orphans are
/// always there.
pub open spec fn directory_of(
    root: Seq<char>,
    parent: Seq<char>,
    path: Seq<char>,
    entries: Seq<ListedModel>,
) -> (DirectoryModel, Seq<ListedModel>)
    decreases entries.len(), 1nat,
{
    let taken = prepared(entries, parent);
    if taken.len() <= entries.len() {
        let found = gathered(
            root,
            parent,
            Gathered { childs: Seq::empty(), siblings: Seq::empty(), rest: taken },
        );
        (
            DirectoryModel {
                path,
                parent: Some(parent),
                childs: Some(found.childs),
                siblings: Some(found.siblings),
                orphans: Some(strays(taken, root)),
            },
            found.rest,
        )
    } else {
        (
            DirectoryModel { path, parent: Some(parent), childs: None, siblings: None, orphans: None },
            entries,
        )
    }
}

/// What the directory `parent` gathers, taking entries from the end for as
/// long as they lie at or below it: a file becomes one of its files, under
/// its path relative to `parent`; a directory is built from the entries that
/// follow and becomes one of its directories. The first entry that does not
/// lie below `parent` is dropped and ends the gathering. Building a
/// directory never leaves more entries than it was given (see
/// `lemma_directory_uses_entries`), so the gathering always goes on after it.
pub open spec fn gathered(root: Seq<char>, parent: Seq<char>, so_far: Gathered) -> Gathered
    decreases so_far.rest.len(), 0nat,
{
    if so_far.rest.len() == 0 {
        so_far
    } else {
        let next = so_far.rest.last();
        let rest = so_far.rest.drop_last();
        match path::relative_to(next.path, parent) {
            Some(relative) => {
                if next.is_file {
                    gathered(
                        root,
                        parent,
                        Gathered {
                            childs: so_far.childs,
                            siblings: so_far.siblings.push(relative),
                            rest,
                        },
                    )
                } else {
                    let (child, left) = directory_of(root, next.path, next.path, rest);
                    if left.len() <= rest.len() {
                        gathered(
                            root,
                            parent,
                            Gathered {
                                childs: so_far.childs.push(child),
                                siblings: so_far.siblings,
                                rest: left,
                            },
                        )
                    } else {
                        Gathered { childs: so_far.childs, siblings: so_far.siblings, rest }
                    }
                }
            },
            None => Gathered { childs: so_far.childs, siblings: so_far.siblings, rest },
        }
    }
}

/// Whether no entry comes before an entry that stands before it.
pub open spec fn is_in_order(entries: Seq<ListedModel>) -> bool {
    forall|i: int, j: int|
        0 <= i < j < entries.len() ==> !path::path_before(
            (#[trigger] entries[j]).path,
            (#[trigger] entries[i]).path,
        )
}

/// An entry of the entries with `entry` put in its place is `entry` or one of the entries.
proof fn lemma_inserted_elements(sorted: Seq<ListedModel>, entry: ListedModel, k: int)
    requires
        0 <= k < inserted(sorted, entry).len(),
    ensures
        inserted(sorted, entry)[k] == entry || sorted.contains(inserted(sorted, entry)[k]),
    decreases sorted.len(),
{
    if sorted.len() > 0 {
        if path::path_before(entry.path, sorted.last().path) {
            let inner = inserted(sorted.drop_last(), entry);
            if k < inner.len() {
                lemma_inserted_elements(sorted.drop_last(), entry, k);
                if sorted.drop_last().contains(inner[k]) {
                    let i = choose|i: int|
                        0 <= i < sorted.drop_last().len() && sorted.drop_last()[i] == inner[k];
                    assert(sorted[i] == inner[k]);
                }
            } else {
                assert(sorted[sorted.len() - 1] == sorted.last());
            }
        } else if k < sorted.len() {
            assert(sorted[k] == inserted(sorted, entry)[k]);
        }
    }
}

/// Putting an entry in its place among entries that are in order leaves them in order.
proof fn lemma_inserted_keeps_order(sorted: Seq<ListedModel>, entry: ListedModel)
    requires
        is_in_order(sorted),
    ensures
        is_in_order(inserted(sorted, entry)),
    decreases sorted.len(),
{
    let result = inserted(sorted, entry);
    if sorted.len() > 0 {
        let last = sorted.last();
        if path::path_before(entry.path, last.path) {
            let inner = inserted(sorted.drop_last(), entry);
            assert(is_in_order(sorted.drop_last())) by {
                assert forall|i: int, j: int| 0 <= i < j < sorted.drop_last().len() implies !path::path_before(
                    (#[trigger] sorted.drop_last()[j]).path,
                    (#[trigger] sorted.drop_last()[i]).path,
                ) by {
                    assert(sorted.drop_last()[i] == sorted[i]);
                    assert(sorted.drop_last()[j] == sorted[j]);
                }
            }
            lemma_inserted_keeps_order(sorted.drop_last(), entry);
            assert forall|i: int, j: int| 0 <= i < j < result.len() implies !path::path_before(
                (#[trigger] result[j]).path,
                (#[trigger] result[i]).path,
            ) by {
                if j < inner.len() {
                    assert(result[i] == inner[i]);
                    assert(result[j] == inner[j]);
                } else {
                    assert(result[j] == last);
                    assert(result[i] == inner[i]);
                    lemma_inserted_elements(sorted.drop_last(), entry, i);
                    if inner[i] == entry {
                        path::lemma_path_order(entry.path, last.path, last.path);
                    } else {
                        let k = choose|k: int|
                            0 <= k < sorted.drop_last().len() && sorted.drop_last()[k] == inner[i];
                        assert(sorted[k] == inner[i]);
                        assert(sorted[sorted.len() - 1] == last);
                    }
                }
            }
        } else {
            assert forall|i: int, j: int| 0 <= i < j < result.len() implies !path::path_before(
                (#[trigger] result[j]).path,
                (#[trigger] result[i]).path,
            ) by {
                assert(result[i] == sorted[i]);
                if j < sorted.len() {
                    assert(result[j] == sorted[j]);
                } else {
                    assert(result[j] == entry);
                    assert(sorted[sorted.len() - 1] == last);
                    if i < sorted.len() - 1 {
                        assert(!path::path_before(last.path, sorted[i].path));
                    } else {
                        path::lemma_path_order(last.path, last.path, last.path);
                    }
                    path::lemma_path_order(sorted[i].path, last.path, entry.path);
                }
            }
        }
    }
}

/// The entries put in order are in order: none comes before one that stands before it.
pub proof fn lemma_in_order_is_in_order(entries: Seq<ListedModel>)
    ensures
        is_in_order(in_order(entries)),
    decreases entries.len(),
{
    if entries.len() > 0 {
        lemma_in_order_is_in_order(entries.drop_last());
        lemma_inserted_keeps_order(in_order(entries.drop_last()), entries.last());
    }
}

proof fn lemma_inserted_is_one_more(sorted: Seq<ListedModel>, entry: ListedModel)
    ensures
        inserted(sorted, entry).to_multiset() == sorted.to_multiset().insert(entry),
    decreases sorted.len(),
{
    broadcast use vstd::seq_lib::group_to_multiset_ensures;

    if sorted.len() == 0 {
        assert(seq![entry] =~= Seq::<ListedModel>::empty().push(entry));
        assert(sorted =~= Seq::<ListedModel>::empty());
    } else if path::path_before(entry.path, sorted.last().path) {
        lemma_inserted_is_one_more(sorted.drop_last(), entry);
        assert(sorted =~= sorted.drop_last().push(sorted.last()));
        assert(sorted.drop_last().to_multiset().insert(entry).insert(sorted.last())
            =~= sorted.drop_last().to_multiset().insert(sorted.last()).insert(entry));
    }
}

/// Putting entries in order neither adds nor drops nor changes an entry.
pub proof fn lemma_in_order_keeps_entries(entries: Seq<ListedModel>)
    ensures
        in_order(entries).to_multiset() == entries.to_multiset(),
    decreases entries.len(),
{
    broadcast use vstd::seq_lib::group_to_multiset_ensures;

    if entries.len() == 0 {
        assert(in_order(entries) =~= entries);
    } else {
        lemma_in_order_keeps_entries(entries.drop_last());
        lemma_inserted_is_one_more(in_order(entries.drop_last()), entries.last());
        assert(entries =~= entries.drop_last().push(entries.last()));
    }
}

/// Leaving out a directory and putting the entries in order does not add entries.
pub proof fn lemma_prepared_is_no_longer(entries: Seq<ListedModel>, parent: Seq<char>)
    ensures
        prepared(entries, parent).len() <= entries.len(),
{
    lemma_without_dir_is_no_longer(entries, parent);
    lemma_in_order_keeps_length(without_dir(entries, parent));
}

proof fn lemma_without_dir_is_no_longer(entries: Seq<ListedModel>, dir: Seq<char>)
    ensures
        without_dir(entries, dir).len() <= entries.len(),
    decreases entries.len(),
{
    if entries.len() > 0 {
        lemma_without_dir_is_no_longer(entries.drop_last(), dir);
    }
}

proof fn lemma_inserted_adds_one(sorted: Seq<ListedModel>, entry: ListedModel)
    ensures
        inserted(sorted, entry).len() == sorted.len() + 1,
    decreases sorted.len(),
{
    if sorted.len() > 0 && path::path_before(entry.path, sorted.last().path) {
        lemma_inserted_adds_one(sorted.drop_last(), entry);
    }
}

proof fn lemma_in_order_keeps_length(entries: Seq<ListedModel>)
    ensures
        in_order(entries).len() == entries.len(),
    decreases entries.len(),
{
    if entries.len() > 0 {
        lemma_in_order_keeps_length(entries.drop_last());
        lemma_inserted_adds_one(in_order(entries.drop_last()), entries.last());
    }
}

proof fn lemma_gathering_uses_entries(root: Seq<char>, parent: Seq<char>, so_far: Gathered)
    ensures
        gathered(root, parent, so_far).rest.len() <= so_far.rest.len(),
    decreases so_far.rest.len(), 0nat,
{
    if so_far.rest.len() > 0 {
        let next = so_far.rest.last();
        let rest = so_far.rest.drop_last();
        match path::relative_to(next.path, parent) {
            Some(relative) => {
                if next.is_file {
                    lemma_gathering_uses_entries(
                        root,
                        parent,
                        Gathered {
                            childs: so_far.childs,
                            siblings: so_far.siblings.push(relative),
                            rest,
                        },
                    );
                } else {
                    lemma_directory_uses_entries(root, next.path, next.path, rest);
                    let (child, left) = directory_of(root, next.path, next.path, rest);
                    lemma_gathering_uses_entries(
                        root,
                        parent,
                        Gathered {
                            childs: so_far.childs.push(child),
                            siblings: so_far.siblings,
                            rest: left,
                        },
                    );
                }
            },
            None => {},
        }
    }
}

/// Building a directory takes entries and gives none back: the entries left
/// after it are no more than those before.
pub proof fn lemma_directory_uses_entries(
    root: Seq<char>,
    parent: Seq<char>,
    path: Seq<char>,
    entries: Seq<ListedModel>,
)
    ensures
        directory_of(root, parent, path, entries).1.len() <= entries.len(),
    decreases entries.len(), 1nat,
{
    lemma_prepared_is_no_longer(entries, parent);
    let taken = prepared(entries, parent);
    lemma_gathering_uses_entries(
        root,
        parent,
        Gathered { childs: Seq::empty(), siblings: Seq::empty(), rest: taken },
    );
}

/// The outlines of the first `count` of the given directories.
pub open spec fn branch_outlines(childs: Seq<DirectoryModel>, count: int) -> Seq<OutlineModel>
    decreases childs, count,
{
    if 0 < count <= childs.len() {
        branch_outlines(childs, count - 1).push(branch_outline(childs[count - 1]))
    } else {
        Seq::empty()
    }
}

/// The outlines of the given texts, each with nothing below it.
pub open spec fn leaves(names: Seq<Seq<char>>) -> Seq<OutlineModel> {
    Seq::new(names.len(), |i: int| leaf(names[i]))
}

/// The outline of a directory: its path, and below it the outlines of its
/// directories, then its files.
pub open spec fn branch_outline(tree: DirectoryModel) -> OutlineModel
    decreases tree,
{
    OutlineModel {
        text: tree.path,
        children: (match tree.childs {
            Some(childs) => branch_outlines(childs, childs.len() as int),
            None => Seq::empty(),
        }) + (match tree.siblings {
            Some(siblings) => leaves(siblings),
            None => Seq::empty(),
        }),
    }
}

/// The outline of a tree of directories: below a dot, the paths that do not
/// lie below the root, then the outline of the directory.
pub open spec fn tree_outline(tree: DirectoryModel) -> OutlineModel {
    OutlineModel {
        text: "."@,
        children: (match tree.orphans {
            Some(orphans) => leaves(orphans),
            None => Seq::empty(),
        }).push(branch_outline(tree)),
    }
}

/// The text that is written out for a tree of directories and a list of
/// files: the drawing of the tree between its tags, then the files, each
/// formatted and on lines of its own.
pub open spec fn output_text(tree: DirectoryModel, files: Seq<File>) -> Seq<char> {
    "<directory_structure>\n"@ + outline_drawing(tree_outline(tree)) + "</directory_structure>\n"@
        + formatted_files(files)
}

/// The given files, each formatted and followed by a line feed.
pub open spec fn formatted_files(files: Seq<File>) -> Seq<char>
    decreases files.len(),
{
    if files.len() == 0 {
        Seq::empty()
    } else {
        formatted_files(files.drop_last()) + formatted_file(
            files.last().path@,
            files.last().content@,
        ) + "\n"@
    }
}

/// How many levels of directories a tree has, the directory itself counted.
pub open spec fn depth(tree: DirectoryModel) -> nat
    decreases tree,
{
    1 + match tree.childs {
        Some(childs) => deepest(childs, childs.len() as int),
        None => 0,
    }
}

/// The depth of the deepest among the first `count` of the given directories.
pub open spec fn deepest(childs: Seq<DirectoryModel>, count: int) -> nat
    decreases childs, count,
{
    if 0 < count <= childs.len() {
        if deepest(childs, count - 1) >= depth(childs[count - 1]) {
            deepest(childs, count - 1)
        } else {
            depth(childs[count - 1])
        }
    } else {
        0
    }
}

/// None of the first `count` directories is deeper than the deepest of them.
pub proof fn lemma_deepest_bounds_each(childs: Seq<DirectoryModel>, count: int, i: int)
    requires
        0 <= i < count <= childs.len(),
    ensures
        depth(childs[i]) <= deepest(childs, count),
    decreases count,
{
    if i < count - 1 {
        lemma_deepest_bounds_each(childs, count - 1, i);
    }
}

/// A directory with the directories and files found below it.
pub struct DirectoryTree {
    path: String,
    parent: Option<String>,
    childs: Option<Vec<DirectoryTree>>,
    siblings: Option<Vec<String>>,
    orphans: Option<Vec<String>>,
}

/// The texts of an optional list of strings.
pub open spec fn optional_texts(list: Option<Vec<String>>) -> Option<Seq<Seq<char>>> {
    match list {
        Some(strings) => Some(texts(strings@)),
        None => None,
    }
}

impl View for DirectoryTree {
    type V = DirectoryModel;

    closed spec fn view(&self) -> DirectoryModel {
        self.model()
    }
}

impl DirectoryTree {
    /// The directory as plain values.
    pub closed spec fn model(&self) -> DirectoryModel
        decreases self,
    {
        DirectoryModel {
            path: self.path@,
            parent: match self.parent {
                Some(parent) => Some(parent@),
                None => None,
            },
            childs: match self.childs {
                Some(list) => Some(
                    Seq::new(
                        list@.len(),
                        |i: int|
                            if 0 <= i < list@.len() {
                                list@[i].model()
                            } else {
                                arbitrary()
                            },
                    ),
                ),
                None => None,
            },
            siblings: optional_texts(self.siblings),
            orphans: optional_texts(self.orphans),
        }
    }
}

/// The plain values of the given directories.
pub open spec fn directory_models(list: Seq<DirectoryTree>) -> Seq<DirectoryModel> {
    Seq::new(list.len(), |i: int| list[i]@)
}

/// Puts `entry` in its place among entries that are in order.
fn put_in_order(sorted: &mut Vec<ListedPath>, entry: ListedPath)
    ensures
        listed_models(final(sorted)@) == inserted(listed_models(old(sorted)@), entry@),
{
    let ghost before = listed_models(sorted@);
    let mut place: usize = sorted.len();
    assert(before.take(place as int) == before);
    assert(before.skip(place as int) == Seq::<ListedModel>::empty());
    assert(inserted(before, entry@) + Seq::<ListedModel>::empty() == inserted(before, entry@));
    while place > 0 && path::comes_before(entry.path.as_str(), sorted[place - 1].path.as_str())
        invariant
            place <= sorted.len(),
            sorted@ == old(sorted)@,
            before == listed_models(sorted@),
            inserted(before, entry@) == inserted(before.take(place as int), entry@) + before.skip(
                place as int,
            ),
        decreases place,
    {
        let ghost head = before.take(place as int);
        assert(head.last() == sorted@[place - 1]@);
        assert(head.drop_last() == before.take(place - 1));
        assert(inserted(head, entry@) == inserted(before.take(place - 1), entry@).push(
            head.last(),
        ));
        assert(seq![head.last()] + before.skip(place as int) == before.skip(place - 1));
        assert(inserted(before.take(place - 1), entry@).push(head.last()) + before.skip(
            place as int,
        ) == inserted(before.take(place - 1), entry@) + (seq![head.last()] + before.skip(
            place as int,
        )));
        place -= 1;
    }
    let ghost head = before.take(place as int);
    assert(inserted(head, entry@) == head.push(entry@)) by {
        if place > 0 {
            assert(head.last() == sorted@[place - 1]@);
        } else {
            assert(head.push(entry@) == seq![entry@]);
        }
    }
    sorted.insert(place, entry);
    assert(listed_models(sorted@) == head.push(entry@) + before.skip(place as int));
}

/// The entries as a directory takes them: without the directory `parent`
/// itself, in the order of their paths, last first.
fn prepare(entries: &Vec<ListedPath>, parent: &str) -> (taken: Vec<ListedPath>)
    ensures
        listed_models(taken@) == prepared(listed_models(entries@), parent@),
{
    let ghost all = listed_models(entries@);
    let mut sorted: Vec<ListedPath> = Vec::new();
    let mut i: usize = 0;
    assert(all.take(0) == Seq::<ListedModel>::empty());
    assert(listed_models(sorted@) == Seq::<ListedModel>::empty());
    while i < entries.len()
        invariant
            i <= entries.len(),
            all == listed_models(entries@),
            listed_models(sorted@) == in_order(without_dir(all.take(i as int), parent@)),
        decreases entries.len() - i,
    {
        assert(all.take(i + 1).drop_last() == all.take(i as int));
        assert(all.take(i + 1).last() == entries@[i as int]@);
        if !path::same(entries[i].path.as_str(), parent) {
            let entry = ListedPath { path: entries[i].path.clone(), is_file: entries[i].is_file };
            assert(without_dir(all.take(i + 1), parent@).drop_last() == without_dir(
                all.take(i as int),
                parent@,
            ));
            put_in_order(&mut sorted, entry);
        }
        i += 1;
    }
    assert(all.take(entries.len() as int) == all);
    let ghost ordered = listed_models(sorted@);
    let mut taken: Vec<ListedPath> = Vec::new();
    let mut left: usize = sorted.len();
    assert(listed_models(taken@) == Seq::<ListedModel>::empty());
    while left > 0
        invariant
            left <= sorted.len(),
            ordered == listed_models(sorted@),
            taken@.len() == sorted.len() - left,
            forall|j: int|
                0 <= j < taken@.len() ==> (#[trigger] taken@[j])@ == ordered[ordered.len() - 1 - j],
        decreases left,
    {
        left -= 1;
        taken.push(ListedPath { path: sorted[left].path.clone(), is_file: sorted[left].is_file });
    }
    assert(listed_models(taken@) =~= ordered.reverse());
    taken
}

/// The paths among `entries` that do not lie at or below `root`.
fn find_strays(entries: &Vec<ListedPath>, root: &str) -> (found: Vec<String>)
    ensures
        texts(found@) == strays(listed_models(entries@), root@),
{
    let ghost all = listed_models(entries@);
    let mut found: Vec<String> = Vec::new();
    let mut i: usize = 0;
    assert(all.take(0) == Seq::<ListedModel>::empty());
    assert(texts(found@) == Seq::<Seq<char>>::empty());
    while i < entries.len()
        invariant
            i <= entries.len(),
            all == listed_models(entries@),
            texts(found@) == strays(all.take(i as int), root@),
        decreases entries.len() - i,
    {
        assert(all.take(i + 1).drop_last() == all.take(i as int));
        assert(all.take(i + 1).last() == entries@[i as int]@);
        if !path::starts_with(entries[i].path.as_str(), root) {
            let ghost before = texts(found@);
            found.push(entries[i].path.clone());
            assert(texts(found@) == before.push(entries@[i as int].path@));
        }
        i += 1;
    }
    assert(all.take(entries.len() as int) == all);
    found
}

impl DirectoryTree {
    /// The path of the directory.
    pub fn path(&self) -> (path: &str)
        ensures
            path@ == self@.path,
    {
        self.path.as_str()
    }

    /// The directory that this one was found in.
    pub fn parent(&self) -> (parent: Option<&str>)
        ensures
            match parent {
                Some(dir) => self@.parent == Some(dir@),
                None => self@.parent is None,
            },
    {
        match &self.parent {
            Some(dir) => Some(dir.as_str()),
            None => None,
        }
    }

    /// The directories in this one.
    pub fn childs(&self) -> (childs: Option<&Vec<DirectoryTree>>)
        ensures
            match childs {
                Some(list) => self@.childs == Some(directory_models(list@)),
                None => self@.childs is None,
            },
    {
        match &self.childs {
            Some(list) => {
                proof {
                    self.lemma_childs(*list);
                }
                Some(list)
            },
            None => None,
        }
    }

    /// The files in this directory, by their paths relative to it.
    pub fn siblings(&self) -> (siblings: Option<&Vec<String>>)
        ensures
            match siblings {
                Some(list) => self@.siblings == Some(texts(list@)),
                None => self@.siblings is None,
            },
    {
        match &self.siblings {
            Some(list) => Some(list),
            None => None,
        }
    }

    /// The paths that were listed but do not lie below the root.
    pub fn orphans(&self) -> (orphans: Option<&Vec<String>>)
        ensures
            match orphans {
                Some(list) => self@.orphans == Some(texts(list@)),
                None => self@.orphans is None,
            },
    {
        match &self.orphans {
            Some(list) => Some(list),
            None => None,
        }
    }

    proof fn lemma_childs(&self, list: Vec<DirectoryTree>)
        requires
            self.childs == Some(list),
        ensures
            self@.childs == Some(directory_models(list@)),
    {
        assert(self.model().childs is Some);
        assert(self.model().childs->0.len() == list@.len());
        assert forall|i: int| 0 <= i < list@.len() implies self.model().childs->0[i]
            == #[trigger] directory_models(list@)[i] by {
            assert(list@[i]@ == list@[i].model());
        }
        assert(self.model().childs->0 =~= directory_models(list@));
    }

    /// How many levels of directories the tree has, counted up to `limit`.
    fn depth_up_to(&self, limit: u32) -> (levels: u32)
        ensures
            levels == if depth(self@) <= limit {
                depth(self@)
            } else {
                limit as nat
            },
        decreases self,
    {
        if limit == 0 {
            return 0;
        }
        let mut below: u32 = 0;
        match &self.childs {
            Some(childs) => {
                proof {
                    self.lemma_childs(*childs);
                }
                let ghost models = directory_models(childs@);
                let mut i: usize = 0;
                while i < childs.len()
                    invariant
                        i <= childs.len(),
                        limit > 0,
                        self.childs == Some(*childs),
                        models == directory_models(childs@),
                        below == if deepest(models, i as int) <= limit - 1 {
                            deepest(models, i as int)
                        } else {
                            (limit - 1) as nat
                        },
                    decreases childs.len() - i,
                {
                    proof {
                        assert(decreases_to!(self => self.childs));
                        assert(self.childs->Some_0 == *childs);
                        assert(decreases_to!(self.childs => self.childs->Some_0));
                        assert(decreases_to!(*childs => childs[i as int]));
                        assert(models[i as int] == childs@[i as int]@);
                    }
                    let levels = childs[i].depth_up_to(limit - 1);
                    if levels > below {
                        below = levels;
                    }
                    i += 1;
                }
            },
            None => {},
        }
        below + 1
    }

    /// Whether the tree can be drawn: it has fewer levels than the builder
    /// of outlines can count.
    pub fn is_drawable(&self) -> (drawable: bool)
        ensures
            drawable == (depth(self@) < u32::MAX),
    {
        self.depth_up_to(u32::MAX) < u32::MAX
    }

    /// Adds the outline of this directory to the builder, as the last child
    /// of the child that was begun last: its path, and below it its
    /// directories, then its files.
    pub fn get_branch(&self, tree_builder: &mut TreeBuilder)
        requires
            has_open(builder_outline(*old(tree_builder)), builder_level(*old(tree_builder))),
            builder_level(*old(tree_builder)) + depth(self@) < u32::MAX,
        ensures
            builder_outline(*final(tree_builder)) == with_child(
                builder_outline(*old(tree_builder)),
                builder_level(*old(tree_builder)),
                branch_outline(self@),
            ),
            builder_level(*final(tree_builder)) == builder_level(*old(tree_builder)),
        decreases self,
    {
        let ghost base = builder_outline(*tree_builder);
        let ghost level = builder_level(*tree_builder);
        begin_child(tree_builder, self.path.clone());
        let ghost mut shown = leaf(self.path@);
        let ghost mut branches = Seq::<OutlineModel>::empty();
        match &self.childs {
            Some(childs) => {
                proof {
                    self.lemma_childs(*childs);
                }
                let ghost models = directory_models(childs@);
                let mut i: usize = 0;
                while i < childs.len()
                    invariant
                        i <= childs.len(),
                        self.childs == Some(*childs),
                        self@.childs == Some(models),
                        models == directory_models(childs@),
                        has_open(base, level),
                        level + depth(self@) < u32::MAX,
                        branches == branch_outlines(models, i as int),
                        shown == (OutlineModel { text: self.path@, children: branches }),
                        builder_outline(*tree_builder) == with_child(base, level, shown),
                        builder_level(*tree_builder) == level + 1,
                    decreases childs.len() - i,
                {
                    proof {
                        assert(decreases_to!(self => self.childs));
                        assert(self.childs->Some_0 == *childs);
                        assert(decreases_to!(self.childs => self.childs->Some_0));
                        assert(decreases_to!(*childs => childs[i as int]));
                        lemma_child_opens_level(base, level, shown);
                        lemma_deepest_bounds_each(models, models.len() as int, i as int);
                        assert(models[i as int] == childs@[i as int]@);
                    }
                    childs[i].get_branch(tree_builder);
                    proof {
                        lemma_child_of_last_child(
                            base,
                            level,
                            shown,
                            branch_outline(childs@[i as int]@),
                        );
                        branches = branches.push(branch_outline(childs@[i as int]@));
                        shown = OutlineModel { text: self.path@, children: branches };
                    }
                    i += 1;
                }
            },
            None => {},
        }
        assert(branches == match self@.childs {
            Some(childs) => branch_outlines(childs, childs.len() as int),
            None => Seq::empty(),
        });
        let ghost mut names = Seq::<OutlineModel>::empty();
        match &self.siblings {
            Some(siblings) => {
                let mut j: usize = 0;
                assert(leaves(texts(siblings@)).take(0) == Seq::<OutlineModel>::empty());
                assert(branches + Seq::<OutlineModel>::empty() == branches);
                while j < siblings.len()
                    invariant
                        j <= siblings.len(),
                        has_open(base, level),
                        level + 1 < u32::MAX,
                        names == leaves(texts(siblings@)).take(j as int),
                        shown == (OutlineModel { text: self.path@, children: branches + names }),
                        builder_outline(*tree_builder) == with_child(base, level, shown),
                        builder_level(*tree_builder) == level + 1,
                    decreases siblings.len() - j,
                {
                    proof {
                        lemma_child_opens_level(base, level, shown);
                        lemma_child_of_last_child(base, level, shown, leaf(siblings@[j as int]@));
                    }
                    add_empty_child(tree_builder, siblings[j].clone());
                    proof {
                        names = names.push(leaf(siblings@[j as int]@));
                        assert(names == leaves(texts(siblings@)).take(j + 1));
                        assert((branches + leaves(texts(siblings@)).take(j as int)).push(
                            leaf(siblings@[j as int]@),
                        ) == branches + names);
                        shown = OutlineModel { text: self.path@, children: branches + names };
                    }
                    j += 1;
                }
                assert(leaves(texts(siblings@)).take(siblings.len() as int) == leaves(
                    texts(siblings@),
                ));
            },
            None => {
                assert(branches + Seq::<OutlineModel>::empty() == branches);
            },
        }
        end_child(tree_builder);
        assert(shown == branch_outline(self@));
    }

    /// The outline of the tree: below a dot, the paths that do not lie below
    /// the root, then the outline of this directory.
    pub fn get_tree(&self) -> (item: StringItem)
        requires
            depth(self@) < u32::MAX,
        ensures
            item_outline(item) == tree_outline(self@),
    {
        proof {
            reveal_strlit(".");
        }
        let mut tree_builder = new_builder(String::from_str("."));
        let ghost mut shown = leaf("."@);
        match &self.orphans {
            Some(orphans) => {
                let mut i: usize = 0;
                assert(leaves(texts(orphans@)).take(0) == Seq::<OutlineModel>::empty());
                while i < orphans.len()
                    invariant
                        i <= orphans.len(),
                        shown == (OutlineModel {
                            text: "."@,
                            children: leaves(texts(orphans@)).take(i as int),
                        }),
                        builder_outline(tree_builder) == shown,
                        builder_level(tree_builder) == 0,
                    decreases orphans.len() - i,
                {
                    add_empty_child(&mut tree_builder, orphans[i].clone());
                    proof {
                        assert(leaves(texts(orphans@)).take(i as int).push(
                            leaf(orphans@[i as int]@),
                        ) == leaves(texts(orphans@)).take(i + 1));
                        shown = OutlineModel {
                            text: "."@,
                            children: leaves(texts(orphans@)).take(i + 1),
                        };
                    }
                    i += 1;
                }
                assert(leaves(texts(orphans@)).take(orphans.len() as int) == leaves(
                    texts(orphans@),
                ));
            },
            None => {},
        }
        self.get_branch(&mut tree_builder);
        build_outline(&mut tree_builder)
    }

    /// The drawing of the tree.
    pub fn write_tree(&self) -> (text: String)
        requires
            depth(self@) < u32::MAX,
        ensures
            text@ == outline_drawing(tree_outline(self@)),
    {
        let tree = self.get_tree();
        draw(&tree)
    }

    /// Builds the directory `path`, found in `parent`, from the listed paths
    /// that are still to be taken, and leaves in `paths` those that are not
    /// part of it. The paths are first put in order, without `parent`
    /// itself. Then they are taken one by one for as long as they lie at or
    /// below `parent`: a file becomes a file of the directory, a directory
    /// is built in turn from the paths that follow.
    pub fn from(root: &str, parent: String, path: String, paths: &mut Vec<ListedPath>) -> (tree:
        DirectoryTree)
        ensures
            (tree@, listed_models(final(paths)@)) == directory_of(
                root@,
                parent@,
                path@,
                listed_models(old(paths)@),
            ),
            final(paths)@.len() <= old(paths)@.len(),
        decreases old(paths)@.len(),
    {
        let ghost given = listed_models(paths@);
        let taken = prepare(paths, parent.as_str());
        proof {
            lemma_prepared_is_no_longer(given, parent@);
            lemma_directory_uses_entries(root@, parent@, path@, given);
        }
        let ghost start = listed_models(taken@);
        let orphans = find_strays(&taken, root);
        *paths = taken;
        let mut childs: Vec<DirectoryTree> = Vec::new();
        let mut siblings: Vec<String> = Vec::new();
        let ghost goal = gathered(
            root@,
            parent@,
            Gathered { childs: Seq::empty(), siblings: Seq::empty(), rest: start },
        );
        assert(directory_models(childs@) == Seq::<DirectoryModel>::empty());
        assert(texts(siblings@) == Seq::<Seq<char>>::empty());
        let mut done = false;
        while !done && paths.len() > 0
            invariant
                paths@.len() <= old(paths)@.len(),
                done ==> goal == (Gathered {
                    childs: directory_models(childs@),
                    siblings: texts(siblings@),
                    rest: listed_models(paths@),
                }),
                !done ==> goal == gathered(
                    root@,
                    parent@,
                    Gathered {
                        childs: directory_models(childs@),
                        siblings: texts(siblings@),
                        rest: listed_models(paths@),
                    },
                ),
            decreases
                    if done {
                        0
                    } else {
                        paths@.len() + 1
                    },
        {
            let ghost before = listed_models(paths@);
            let next = paths.pop().unwrap();
            assert(before.last() == next@);
            assert(listed_models(paths@) == before.drop_last());
            match path::strip_prefix(next.path.as_str(), parent.as_str()) {
                Some(relative) => {
                    if next.is_file {
                        let ghost known = texts(siblings@);
                        siblings.push(relative);
                        assert(texts(siblings@) == known.push(relative@));
                    } else {
                        let ghost rest = listed_models(paths@);
                        let child = DirectoryTree::from(
                            root,
                            next.path.clone(),
                            next.path,
                            paths,
                        );
                        let ghost known = directory_models(childs@);
                        childs.push(child);
                        assert(directory_models(childs@) == known.push(child@));
                    }
                },
                None => {
                    done = true;
                },
            }
        }
        let tree = DirectoryTree {
            path,
            parent: Some(parent),
            childs: Some(childs),
            siblings: Some(siblings),
            orphans: Some(orphans),
        };
        assert(tree@.childs == Some(directory_models(childs@))) by {
            assert(tree.model().childs is Some);
            assert(tree.model().childs->0.len() == childs@.len());
            assert forall|i: int| 0 <= i < childs@.len() implies tree.model().childs->0[i]
                == #[trigger] directory_models(childs@)[i] by {
                assert(childs@[i]@ == childs@[i].model());
            }
            assert(tree.model().childs->0 =~= directory_models(childs@));
        }
        tree
    }
}

/// A tree of directories and a list of files, to be written out together.
pub struct OutputGenerator {
    pub files: Vec<File>,
    pub tree: DirectoryTree,
}

impl OutputGenerator {
    /// The files and the tree to write out.
    pub fn new(files: Vec<File>, tree: DirectoryTree) -> (generator: Self)
        ensures
            generator.files == files,
            generator.tree == tree,
    {
        Self { files, tree }
    }

    /// The text to write out: the drawing of the tree between its tags,
    /// then the files, each formatted and on lines of its own.
    pub fn write_file(&self) -> (text: String)
        requires
            depth(self.tree@) < u32::MAX,
        ensures
            text@ == output_text(self.tree@, self.files@),
    {
        let mut text = String::from_str("<directory_structure>\n");
        let drawing = self.tree.write_tree();
        text.append(drawing.as_str());
        text.append("</directory_structure>\n");
        let ghost lead = text@;
        let mut i: usize = 0;
        assert(self.files@.take(0) == Seq::<File>::empty());
        while i < self.files.len()
            invariant
                i <= self.files.len(),
                text@ == lead + formatted_files(self.files@.take(i as int)),
            decreases self.files.len() - i,
        {
            assert(self.files@.take(i + 1).drop_last() == self.files@.take(i as int));
            assert(self.files@.take(i + 1).last() == self.files@[i as int]);
            let formatted = self.files[i].format();
            text.append(formatted.as_str());
            text.append("\n");
            assert(text@ =~= lead + formatted_files(self.files@.take(i + 1)));
            i += 1;
        }
        assert(self.files@.take(self.files.len() as int) == self.files@);
        assert(text@ =~= output_text(self.tree@, self.files@));
        text
    }
}

} // verus!

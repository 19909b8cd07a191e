//! A file of the codebase and the cell that receives its text.

use vstd::prelude::*;
use crate::path;
use crate::tree::Leaf;

verus! {

/// What a file of the codebase holds, as plain values.
pub struct ItemModel {
    /// The path of the file.
    pub path: Seq<char>,
    /// The text of the file, once it has been loaded.
    pub content: Option<Seq<char>>,
}

/// A file of the codebase. Its text is stored once, after the file was found.
pub struct CodebaseItem {
    path: String,
    content: Option<String>,
}

impl View for CodebaseItem {
    type V = ItemModel;

    closed spec fn view(&self) -> ItemModel {
        ItemModel {
            path: self.path@,
            content: match self.content {
                Some(text) => Some(text@),
                None => None,
            },
        }
    }
}

impl CodebaseItem {
    /// The file at `path`, whose text is not loaded yet.
    pub fn new(path: String) -> (item: Self)
        ensures
            item@ == (ItemModel { path: path@, content: None }),
    {
        Self { path, content: None }
    }

    /// The path of the file.
    pub fn path(&self) -> (path: &str)
        ensures
            path@ == self@.path,
    {
        self.path.as_str()
    }

    /// The text of the file, if it has been loaded.
    pub fn content(&self) -> (content: Option<&str>)
        ensures
            match content {
                Some(text) => self@.content == Some(text@),
                None => self@.content is None,
            },
    {
        match &self.content {
            Some(text) => Some(text.as_str()),
            None => None,
        }
    }

    /// Stores the text of the file. The first text stored stays: a later call
    /// changes nothing and returns `false`.
    pub fn store(&mut self, content: String) -> (stored: bool)
        ensures
            stored == (old(self)@.content is None),
            stored ==> final(self)@ == (ItemModel { content: Some(content@), ..old(self)@ }),
            !stored ==> final(self)@ == old(self)@,
    {
        if self.content.is_none() {
            self.content = Some(content);
            true
        } else {
            false
        }
    }

    /// The same file: its path, and its text if it is loaded.
    pub fn duplicate(&self) -> (copy: Self)
        ensures
            copy@ == self@,
    {
        let content = match &self.content {
            Some(text) => Some(text.clone()),
            None => None,
        };
        Self { path: self.path.clone(), content }
    }
}

/// The name of a file as a drawing of the tree shows it: the last name of
/// its path, or nothing where the path has none.
pub open spec fn item_label(file: ItemModel) -> Seq<char> {
    match path::file_name(file.path) {
        Some(name) => name,
        None => Seq::empty(),
    }
}

impl Leaf for CodebaseItem {
    open spec fn label(file: ItemModel) -> Seq<char> {
        item_label(file)
    }

    open spec fn same(left: ItemModel, right: ItemModel) -> bool {
        path::same_path(left.path, right.path)
    }

    fn is_same(&self, other: &Self) -> (same: bool) {
        path::same(self.path.as_str(), other.path.as_str())
    }

    fn to_label(&self) -> (text: String) {
        match path::file_name_of(self.path.as_str()) {
            Some(name) => name,
            None => String::new(),
        }
    }
}

impl PartialEq for CodebaseItem {
    /// Two files are equal when their paths name the same place.
    fn eq(&self, other: &Self) -> (same: bool) {
        path::same(self.path.as_str(), other.path.as_str())
    }
}

impl vstd::std_specs::cmp::PartialEqSpecImpl for CodebaseItem {
    open spec fn obeys_eq_spec() -> bool {
        true
    }

    open spec fn eq_spec(&self, other: &Self) -> bool {
        path::same_path(self@.path, other@.path)
    }
}

} // verus!

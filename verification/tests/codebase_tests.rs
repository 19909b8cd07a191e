use cunw::codebase::builder::{CodebaseBuilder, RecordedEntry, WalkEvent};
use cunw::codebase::item::CodebaseItem;
use cunw::codebase::walker::EntryKind;
use cunw::codebase::Codebase;
use cunw::error::CunwErrorKind;
use cunw::glob::PatternSet;
use cunw::tree::Tree;

/// A directory on disk, written down entry by entry in the order in which a
/// depth-first enumeration by name yields them. A directory has no text.
struct Disk {
    root: String,
    entries: Vec<(String, Option<String>)>,
}

impl Disk {
    fn new(root: &str) -> Self {
        Disk { root: root.to_string(), entries: vec![(root.to_string(), None)] }
    }

    fn dir(mut self, relative: &str) -> Self {
        self.entries.push((format!("{}/{}", self.root, relative), None));
        self
    }

    fn file(mut self, relative: &str, content: &str) -> Self {
        self.entries.push((format!("{}/{}", self.root, relative), Some(content.to_string())));
        self
    }

    fn ignore_file_of(&self, dir: &str) -> Option<String> {
        let wanted = format!("{}/.gitignore", dir);
        for (path, content) in &self.entries {
            if *path == wanted {
                return content.clone();
            }
        }
        None
    }

    fn events(&self) -> Vec<WalkEvent> {
        let mut events = Vec::new();
        for (path, content) in &self.entries {
            let holder = if *path == self.root {
                self.root.clone()
            } else {
                path[..path.rfind('/').unwrap()].to_string()
            };
            events.push(WalkEvent::Entry(RecordedEntry {
                path: path.clone(),
                kind: if content.is_some() { EntryKind::File } else { EntryKind::Directory },
                ignore_file: self.ignore_file_of(&holder).map(String::into_bytes),
                content: match content {
                    Some(text) => Ok(text.clone().into_bytes()),
                    None => Err(String::from("is a directory")),
                },
            }));
        }
        events
    }
}

fn create_test_directory() -> Disk {
    Disk::new("/tmp/project")
        .file(".gitignore", "*.log")
        .dir("docs")
        .file("docs/readme.md", "# Test Project")
        .dir("src")
        .file("src/lib.rs", "pub fn add(a: i32, b: i32) -> i32 { a + b }")
        .file("src/main.rs", "fn main() {}")
}

fn create_nested_structure() -> Disk {
    Disk::new("/tmp/project")
        .file(".gitignore", "*.log\n!important.log\n")
        .dir("docs")
        .file("docs/config.log", "documentation log\n")
        .file("docs/readme.md", "# Project Documentation\n")
        .file("important.log", "important root log\n")
        .file("root.log", "root log\n")
        .file("root.txt", "root content\n")
        .dir("src")
        .file("src/.gitignore", "*.tmp\n!keep.tmp\n")
        .file("src/keep.tmp", "kept temporary file\n")
        .file("src/lib.rs", "pub fn lib_fn() {}\n")
        .file("src/main.rs", "fn main() {}\n")
        .dir("src/module")
        .file("src/module/.gitignore", "*.rs\n!mod.rs\n")
        .file("src/module/ignored.rs", "// This should be ignored\n")
        .file("src/module/mod.rs", "pub mod submodule;\n")
        .file("src/module/submodule.rs", "pub fn submodule_fn() {}\n")
        .file("src/test.tmp", "temporary file\n")
}

fn create_overridden_structure() -> Disk {
    Disk::new("/tmp/project")
        .file(".gitignore", "*.log\n!important.log\n")
        .dir("docs")
        .file("docs/config.log", "documentation log\n")
        .file("docs/readme.md", "# Project Documentation\n")
        .file("important.log", "important root log\n")
        .file("root.log", "root log\n")
        .file("root.txt", "root content\n")
        .dir("src")
        .file("src/.gitignore", "*.rs\n")
        .file("src/keep.tmp", "kept temporary file\n")
        .file("src/lib.rs", "pub fn lib_fn() {}\n")
        .file("src/main.rs", "fn main() {}\n")
        .dir("src/module")
        .file("src/module/.gitignore", "*.rs\n!mod.rs\n")
        .file("src/module/ignored.rs", "// This should be ignored\n")
        .file("src/module/mod.rs", "pub mod submodule;\n")
        .file("src/module/submodule.rs", "pub fn submodule_fn() {}\n")
        .file("src/test.tmp", "temporary file\n")
}

fn file_name(path: &str) -> &str {
    &path[path.rfind('/').map(|at| at + 1).unwrap_or(0)..]
}

fn has_leaf(tree: &Tree<CodebaseItem>, node: usize, name: &str) -> bool {
    tree.collect_local_leaves(node).iter().any(|item| file_name(item.path()) == name)
}

fn find_branch(tree: &Tree<CodebaseItem>, node: usize, name: &str) -> Option<usize> {
    tree.collect_local_branches(node)
        .iter()
        .copied()
        .find(|branch| file_name(tree.current_dir(*branch)) == name)
}

fn formatted_tree(codebase: &Codebase) -> String {
    let mut buffer = String::new();
    codebase.push_formated_tree(&mut buffer);
    buffer
}

fn formatted_files(codebase: &Codebase) -> String {
    let mut buffer = String::new();
    codebase.push_formated_leaves_representation(&mut buffer);
    buffer
}

fn build(builder: CodebaseBuilder, disk: &Disk) -> Codebase {
    builder.build(disk.root.clone(), &disk.events()).unwrap()
}

#[test]
fn mod_test_codebase_builder() {
    let dir = create_test_directory();

    let codebase = build(CodebaseBuilder::new().max_depth(3).follow_symlinks(false), &dir);

    let mut buffer = String::new();
    codebase.push_formated_tree(&mut buffer);
    assert!(buffer.contains("/src"));
    assert!(buffer.contains("/docs"));
    assert!(buffer.contains("main.rs"));
    assert!(buffer.contains("lib.rs"));
    assert!(buffer.contains("readme.md"));
    assert!(buffer.contains(".gitignore"));
}

#[test]
fn mod_test_codebase_file_content() {
    let dir = create_test_directory();

    let codebase = build(CodebaseBuilder::new(), &dir);

    let mut buffer = String::new();
    codebase.push_formated_leaves_representation(&mut buffer);

    assert!(buffer.contains("fn main() {}"));
    assert!(buffer.contains("pub fn add(a: i32, b: i32) -> i32 { a + b }"));
    assert!(buffer.contains("# Test Project"));
    assert!(buffer.contains("*.log"));
}

#[test]
fn mod_test_codebase_exclude_patterns() {
    let dir = create_test_directory().file("excluded.txt", "This should be excluded");

    let excluded_paths = PatternSet::build(vec![String::from("*.txt")]).unwrap();

    let codebase = build(CodebaseBuilder::new().excluded_paths(excluded_paths), &dir);

    let mut buffer = String::new();
    codebase.push_formated_leaves_representation(&mut buffer);
    assert!(!buffer.contains("excluded.txt"));
}

fn check_nested_structure(codebase: &Codebase) {
    let tree = codebase.tree();
    let root = tree.root();

    // Root level checks
    assert!(has_leaf(tree, root, "important.log"));
    assert!(has_leaf(tree, root, "root.txt"));
    assert!(!has_leaf(tree, root, "root.log"));

    // src directory checks
    let src_dir = find_branch(tree, root, "src").expect("src directory not found");
    assert!(has_leaf(tree, src_dir, "main.rs"));
    assert!(has_leaf(tree, src_dir, "lib.rs"));
    assert!(has_leaf(tree, src_dir, "keep.tmp"));
    assert!(!has_leaf(tree, src_dir, "test.tmp"));

    // src/module directory checks
    let module_dir = find_branch(tree, src_dir, "module").expect("module directory not found");
    assert!(has_leaf(tree, module_dir, "mod.rs"));
    assert!(!has_leaf(tree, module_dir, "submodule.rs"));
    assert!(!has_leaf(tree, module_dir, "ignored.rs"));

    // docs directory checks
    let docs_dir = find_branch(tree, root, "docs").expect("docs directory not found");
    assert!(has_leaf(tree, docs_dir, "readme.md"));
    assert!(!has_leaf(tree, docs_dir, "config.log"));
}

#[test]
fn mod_test_nested_gitignore_structure() {
    let dir = create_nested_structure();
    let codebase = build(CodebaseBuilder::new().consider_gitignores(true), &dir);
    check_nested_structure(&codebase);
}

fn check_gitignore_override(codebase: &Codebase) {
    let tree = codebase.tree();
    let src_dir = find_branch(tree, tree.root(), "src").unwrap();
    assert!(!has_leaf(tree, src_dir, "main.rs"));
    assert!(!has_leaf(tree, src_dir, "lib.rs"));

    // The module's .gitignore should still apply
    let module_dir = find_branch(tree, src_dir, "module").unwrap();
    assert!(has_leaf(tree, module_dir, "mod.rs"));
}

#[test]
fn mod_test_gitignore_override() {
    let dir = create_overridden_structure();
    let codebase = build(CodebaseBuilder::new().consider_gitignores(true), &dir);
    check_gitignore_override(&codebase);
}

fn check_gitignore_disabled(codebase: &Codebase) {
    let tree = codebase.tree();
    let root = tree.root();

    // All files should be included when gitignore is disabled
    assert!(has_leaf(tree, root, "root.log"));

    let src_dir = find_branch(tree, root, "src").unwrap();
    assert!(has_leaf(tree, src_dir, "test.tmp"));

    let module_dir = find_branch(tree, src_dir, "module").unwrap();
    assert!(has_leaf(tree, module_dir, "submodule.rs"));
    assert!(has_leaf(tree, module_dir, "ignored.rs"));

    let docs_dir = find_branch(tree, root, "docs").unwrap();
    assert!(has_leaf(tree, docs_dir, "config.log"));
}

#[test]
fn mod_test_gitignore_disabled() {
    let dir = create_nested_structure();
    let codebase = build(CodebaseBuilder::new().consider_gitignores(false), &dir);
    check_gitignore_disabled(&codebase);
}

#[test]
fn ignore_files_are_not_honoured_unless_asked_for() {
    let dir = create_nested_structure();
    let codebase = build(CodebaseBuilder::new(), &dir);
    check_gitignore_disabled(&codebase);
}

#[test]
fn leaves_of_root_with_ignore_file() {
    let dir = Disk::new("/root")
        .file(".gitignore", "*.log\n!important.log")
        .file("a.log", "a")
        .file("b.txt", "b")
        .file("important.log", "i");
    let codebase = build(CodebaseBuilder::new().consider_gitignores(true), &dir);
    let tree = codebase.tree();
    let names: Vec<&str> =
        tree.collect_local_leaves(tree.root()).iter().map(|item| file_name(item.path())).collect();
    assert_eq!(names, vec![".gitignore", "b.txt", "important.log"]);
}

#[test]
fn nearest_ignore_file_governs_alone() {
    let dir = Disk::new("/root")
        .dir("src")
        .file("src/.gitignore", "*.rs")
        .file("src/main.rs", "fn main() {}")
        .dir("src/module")
        .file("src/module/.gitignore", "!mod.rs")
        .file("src/module/mod.rs", "mod other;")
        .file("src/module/other.rs", "// other");
    let codebase = build(CodebaseBuilder::new().consider_gitignores(true), &dir);
    let tree = codebase.tree();
    let src = find_branch(tree, tree.root(), "src").unwrap();
    assert!(!has_leaf(tree, src, "main.rs"));
    let module = find_branch(tree, src, "module").unwrap();
    assert!(has_leaf(tree, module, "mod.rs"));
    assert!(has_leaf(tree, module, "other.rs"));
}

#[test]
fn excluded_directory_is_pruned_with_all_below_it() {
    let dir = Disk::new("/root")
        .file(".gitignore", "/a/b")
        .dir("a")
        .dir("a/b")
        .dir("a/b/c")
        .file("a/b/c/file.txt", "deep")
        .file("a/keep.txt", "kept");
    let codebase = build(CodebaseBuilder::new().consider_gitignores(true), &dir);
    let tree = codebase.tree();
    let a = find_branch(tree, tree.root(), "a").unwrap();
    assert_eq!(tree.len(), 2);
    assert!(find_branch(tree, a, "b").is_none());
    assert!(has_leaf(tree, a, "keep.txt"));
    let drawing = formatted_tree(&codebase);
    assert!(!drawing.contains("file.txt"));
    assert!(!drawing.contains("/b"));
    assert!(!drawing.contains("/c"));
    assert!(!formatted_files(&codebase).contains("deep"));
}

#[test]
fn directory_excluded_by_pattern_is_pruned() {
    let dir = Disk::new("./project")
        .dir(".git")
        .file(".git/HEAD", "ref: refs/heads/main")
        .dir("src")
        .file("src/main.rs", "fn main() {}");
    let patterns = cunw::exclusion::excluded_patterns("./project", &Vec::new(), false);
    let excluded_paths = PatternSet::build(patterns).unwrap();
    let codebase = build(CodebaseBuilder::new().excluded_paths(excluded_paths), &dir);
    let tree = codebase.tree();
    assert!(find_branch(tree, tree.root(), ".git").is_none());
    assert!(find_branch(tree, tree.root(), "src").is_some());
    assert!(!codebase.try_to_string().unwrap().contains("HEAD"));
}

#[test]
fn root_is_neither_leaf_nor_branch() {
    let dir = create_test_directory();
    let codebase = build(CodebaseBuilder::new(), &dir);
    let tree = codebase.tree();
    for node in 0..tree.len() {
        assert!(!tree.collect_local_branches(node).contains(&tree.root()));
        assert!(tree.collect_local_branches(node).iter().all(|b| tree.current_dir(*b) != "/tmp/project"));
        assert!(tree.collect_local_leaves(node).iter().all(|l| l.path() != "/tmp/project"));
    }
    assert_eq!(tree.len(), 3);
    assert_eq!(tree.current_dir(tree.root()), "/tmp/project");
}

#[test]
fn building_twice_gives_the_same_codebase() {
    let dir = create_nested_structure();
    let first = build(CodebaseBuilder::new().consider_gitignores(true), &dir);
    let second = build(CodebaseBuilder::new().consider_gitignores(true), &dir);
    assert_eq!(first.try_to_string().unwrap(), second.try_to_string().unwrap());
    assert_eq!(first.tree().len(), second.tree().len());
    for node in 0..first.tree().len() {
        assert_eq!(first.tree().current_dir(node), second.tree().current_dir(node));
        let one = first.tree().collect_local_leaves(node);
        let other = second.tree().collect_local_leaves(node);
        assert_eq!(one.len(), other.len());
        for i in 0..one.len() {
            assert_eq!(one[i].path(), other[i].path());
            assert_eq!(one[i].content(), other[i].content());
        }
    }
}

#[test]
fn text_form_of_a_codebase() {
    let dir = Disk::new("/work/project")
        .file("a.txt", "alpha")
        .dir("src")
        .file("src/main.rs", "fn main() {}");
    let codebase = build(CodebaseBuilder::new(), &dir);
    let expected = "<directory_tree>\n└─ /project\n│  ├─ /src\n│  │  └─ main.rs\n   └─ a.txt\n</directory_tree>\n\n<file path=\"/work/project/a.txt\">\nalpha\n</file>\n<file path=\"/work/project/src/main.rs\">\nfn main() {}\n</file>\n";
    assert_eq!(codebase.try_to_string().unwrap(), expected);
    assert_eq!(
        formatted_tree(&codebase),
        "<directory_tree>\n└─ /project\n│  ├─ /src\n│  │  └─ main.rs\n   └─ a.txt\n</directory_tree>"
    );
}

#[test]
fn enumeration_errors_are_passed_over() {
    let dir = create_test_directory();
    let mut events = dir.events();
    events.insert(2, WalkEvent::Failed(String::from("permission denied")));
    events.push(WalkEvent::Failed(String::from("permission denied")));
    let codebase = CodebaseBuilder::new().build(dir.root.clone(), &events).unwrap();
    let plain = build(CodebaseBuilder::new(), &dir);
    assert_eq!(codebase.try_to_string().unwrap(), plain.try_to_string().unwrap());
}

#[test]
fn entry_without_place_in_the_tree_fails_the_build() {
    let events = vec![WalkEvent::Entry(RecordedEntry {
        path: String::from("/elsewhere/file.txt"),
        kind: EntryKind::File,
        ignore_file: None,
        content: Ok(Vec::new()),
    })];
    let error = CodebaseBuilder::new().build(String::from("/root"), &events).err().unwrap();
    match &error.source {
        CunwErrorKind::CodebaseBuild(message) => {
            assert_eq!(message, "Failed to find a parent for path: /elsewhere/file.txt")
        }
        _ => panic!("wrong kind of error"),
    }
    assert!(error.related_to_file.is_none());
    assert_eq!(
        error.to_text(),
        "Cunw error: Failed to build codebase: Failed to find a parent for path: /elsewhere/file.txt"
    );
}

#[test]
fn ignore_file_that_is_no_text_fails_the_build() {
    let events = vec![WalkEvent::Entry(RecordedEntry {
        path: String::from("/root/a.txt"),
        kind: EntryKind::File,
        ignore_file: Some(vec![0xff, 0xfe, 0x00]),
        content: Ok(Vec::new()),
    })];
    let error = CodebaseBuilder::new()
        .consider_gitignores(true)
        .build(String::from("/root"), &events)
        .err()
        .unwrap();
    assert_eq!(error.to_text(), "Cunw error: IO error: stream did not contain valid UTF-8");
    assert_eq!(error.related_to_file, Some(String::from("/root/.gitignore")));
    // an ignore file that is not honoured is not read
    let codebase = CodebaseBuilder::new().build(String::from("/root"), &events).unwrap();
    assert_eq!(codebase.tree().collect_local_leaves(0).len(), 1);
}

#[test]
fn ignore_file_of_a_pruned_directory_is_not_read() {
    let events = vec![
        WalkEvent::Entry(RecordedEntry {
            path: String::from("/root/skipped"),
            kind: EntryKind::Directory,
            ignore_file: Some(b"skipped".to_vec()),
            content: Err(String::new()),
        }),
        WalkEvent::Entry(RecordedEntry {
            path: String::from("/root/skipped/a.txt"),
            kind: EntryKind::File,
            ignore_file: Some(vec![0xff]),
            content: Ok(Vec::new()),
        }),
    ];
    let codebase = CodebaseBuilder::new()
        .consider_gitignores(true)
        .build(String::from("/root"), &events)
        .unwrap();
    assert_eq!(codebase.tree().len(), 1);
}

#[test]
fn file_that_cannot_be_loaded_fails_the_build() {
    let events = vec![
        WalkEvent::Entry(RecordedEntry {
            path: String::from("/root/good.txt"),
            kind: EntryKind::File,
            ignore_file: None,
            content: Ok(b"fine".to_vec()),
        }),
        WalkEvent::Entry(RecordedEntry {
            path: String::from("/root/bad.bin"),
            kind: EntryKind::File,
            ignore_file: None,
            content: Ok(vec![0xff, 0xfe]),
        }),
        WalkEvent::Entry(RecordedEntry {
            path: String::from("/root/gone.txt"),
            kind: EntryKind::File,
            ignore_file: None,
            content: Err(String::from("No such file or directory")),
        }),
    ];
    let error = CodebaseBuilder::new().build(String::from("/root"), &events).err().unwrap();
    match &error.source {
        CunwErrorKind::CodebaseBuild(message) => assert_eq!(
            message,
            "Failed to read file(s) content(s): /root/bad.bin, /root/gone.txt"
        ),
        _ => panic!("wrong kind of error"),
    }
    assert_eq!(error.related_to_file, Some(String::from("/root/bad.bin")));
}

#[test]
fn walk_returns_to_an_enclosing_directory() {
    let dir = Disk::new("/r")
        .dir("a")
        .dir("a/b")
        .file("a/b/deep.txt", "d")
        .file("a/shallow.txt", "s")
        .file("top.txt", "t");
    let codebase = build(CodebaseBuilder::new(), &dir);
    let tree = codebase.tree();
    let a = find_branch(tree, tree.root(), "a").unwrap();
    let b = find_branch(tree, a, "b").unwrap();
    assert!(has_leaf(tree, b, "deep.txt"));
    assert!(has_leaf(tree, a, "shallow.txt"));
    assert!(has_leaf(tree, tree.root(), "top.txt"));
    assert_eq!(tree.parent(b), Some(a));
    assert_eq!(tree.parent(a), Some(tree.root()));
}

#[test]
fn links_and_other_entries_are_passed_over() {
    let events = vec![WalkEvent::Entry(RecordedEntry {
        path: String::from("/root/link"),
        kind: EntryKind::Other,
        ignore_file: None,
        content: Err(String::new()),
    })];
    let codebase = CodebaseBuilder::new().build(String::from("/root"), &events).unwrap();
    assert_eq!(codebase.tree().len(), 1);
    assert!(codebase.tree().collect_local_leaves(0).is_empty());
}

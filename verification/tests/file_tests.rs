use cunw::file::{DirectoryTree, File, FileCollector, ListedPath, OutputGenerator};

fn dir(path: &str) -> ListedPath {
    ListedPath { path: path.to_string(), is_file: false }
}

fn file(path: &str) -> ListedPath {
    ListedPath { path: path.to_string(), is_file: true }
}

fn build(root: &str, mut paths: Vec<ListedPath>) -> (DirectoryTree, Vec<ListedPath>) {
    let tree = DirectoryTree::from(root, root.to_string(), root.to_string(), &mut paths);
    (tree, paths)
}

#[test]
fn tree_is_built_from_paths_in_any_order() {
    let (tree, left) = build(
        "/w",
        vec![
            file("/w/z.txt"),
            file("/w/src/main.rs"),
            dir("/w/src"),
            file("/w/src/lib.rs"),
            dir("/w"),
            file("/w/a.txt"),
            dir("/w/src/module"),
            file("/w/src/module/mod.rs"),
        ],
    );
    assert!(left.is_empty());
    assert_eq!(tree.path(), "/w");
    assert_eq!(tree.parent(), Some("/w"));
    assert_eq!(tree.siblings().unwrap(), &vec![String::from("a.txt")]);
    assert!(tree.orphans().unwrap().is_empty());
    let childs = tree.childs().unwrap();
    assert_eq!(childs.len(), 1);
    assert_eq!(childs[0].path(), "/w/src");
    assert_eq!(childs[0].parent(), Some("/w/src"));
    assert_eq!(
        childs[0].siblings().unwrap(),
        &vec![String::from("lib.rs"), String::from("main.rs")]
    );
    let module = &childs[0].childs().unwrap()[0];
    assert_eq!(module.path(), "/w/src/module");
    assert_eq!(module.siblings().unwrap(), &vec![String::from("mod.rs")]);
    assert!(module.childs().unwrap().is_empty());
    assert!(tree.is_drawable());
}

#[test]
fn path_that_ends_a_directory_is_dropped() {
    let (tree, left) = build(
        "/w",
        vec![
            dir("/w/docs"),
            file("/w/docs/readme.md"),
            dir("/w/src"),
            file("/w/src/lib.rs"),
            file("/w/src/main.rs"),
            file("/w/z.txt"),
        ],
    );
    assert!(left.is_empty());
    let childs = tree.childs().unwrap();
    assert_eq!(childs.len(), 1);
    assert_eq!(childs[0].path(), "/w/docs");
    assert_eq!(childs[0].siblings().unwrap(), &vec![String::from("readme.md")]);
    assert_eq!(
        tree.siblings().unwrap(),
        &vec![String::from("src/lib.rs"), String::from("src/main.rs"), String::from("z.txt")]
    );
}

#[test]
fn paths_outside_the_root_are_orphans() {
    let (tree, left) = build("/w", vec![file("/w/a.txt"), file("/elsewhere/b.txt"), file("/a.txt")]);
    assert_eq!(
        tree.orphans().unwrap(),
        &vec![String::from("/elsewhere/b.txt"), String::from("/a.txt")]
    );
    // the first path that does not lie below the directory ends it and is dropped
    assert_eq!(left.len(), 2);
    assert_eq!(left[0].path, "/w/a.txt");
    assert_eq!(left[1].path, "/elsewhere/b.txt");
    assert!(tree.siblings().unwrap().is_empty());
    assert!(tree.childs().unwrap().is_empty());
}

#[test]
fn directory_listed_twice_is_taken_once() {
    let (tree, left) = build("/w", vec![dir("/w/a"), dir("/w/a/"), file("/w/a/x.txt")]);
    assert!(left.is_empty());
    let childs = tree.childs().unwrap();
    assert_eq!(childs.len(), 1);
    assert_eq!(childs[0].siblings().unwrap(), &vec![String::from("x.txt")]);
}

#[test]
fn tree_is_drawn_as_an_outline() {
    let (tree, _) = build(
        "/w",
        vec![dir("/w/src"), file("/w/src/main.rs"), file("/w/src/lib.rs"), file("/w/a.txt")],
    );
    let item = tree.get_tree();
    assert_eq!(item.text, ".");
    assert_eq!(item.children.len(), 1);
    assert_eq!(item.children[0].text, "/w");
    assert_eq!(item.children[0].children.len(), 2);
    assert_eq!(item.children[0].children[0].text, "/w/src");
    assert_eq!(item.children[0].children[0].children[0].text, "lib.rs");
    assert_eq!(item.children[0].children[0].children[1].text, "main.rs");
    assert_eq!(item.children[0].children[1].text, "a.txt");
    let expected = ".\n└─ /w\n   ├─ /w/src\n   │  ├─ lib.rs\n   │  └─ main.rs\n   └─ a.txt\n";
    assert_eq!(tree.write_tree(), expected);
}

#[test]
fn branch_is_added_to_an_outline_of_ones_own() {
    let (tree, _) = build("/w", vec![file("/w/a.txt")]);
    let mut builder = cunw::outline::start_outline(String::from("top"));
    tree.get_branch(&mut builder);
    tree.get_branch(&mut builder);
    let item = cunw::outline::finish_outline(&mut builder);
    assert_eq!(item.text, "top");
    assert_eq!(item.children.len(), 2);
    assert_eq!(item.children[1].text, "/w");
    assert_eq!(item.children[1].children[0].text, "a.txt");
    assert_eq!(
        cunw::outline::drawing_of(&item),
        "top\n├─ /w\n│  └─ a.txt\n└─ /w\n   └─ a.txt\n"
    );
}

#[test]
fn orphans_are_drawn_before_the_tree() {
    let (tree, _) = build("/w", vec![file("/b.txt")]);
    assert_eq!(tree.write_tree(), ".\n├─ /b.txt\n└─ /w\n");
}

#[test]
fn output_holds_the_tree_and_the_files() {
    let (tree, _) = build("/w", vec![file("/w/a.txt")]);
    let mut collector = FileCollector::new(String::from("/w"));
    collector.collect_files(vec![(String::from("/w/a.txt"), String::from("alpha"))]);
    let generator = OutputGenerator::new(collector.files, tree);
    assert_eq!(generator.files.len(), 1);
    assert_eq!(generator.tree.path(), "/w");
    let expected = "<directory_structure>\n.\n└─ /w\n   └─ a.txt\n</directory_structure>\n<file path=\"a.txt\">\n            alpha\n            </file>\n";
    assert_eq!(generator.write_file(), expected);
}

#[test]
fn several_files_are_collected_in_order() {
    let mut collector = FileCollector::new(String::from("/w"));
    collector.collect_file("/w/first.txt", String::from("1"));
    collector.collect_files(vec![
        (String::from("/w/a/second.txt"), String::from("2")),
        (String::from("/w/third.txt"), String::from("3")),
    ]);
    let paths: Vec<&str> = collector.files.iter().map(|f| f.path.as_str()).collect();
    assert_eq!(paths, vec!["first.txt", "a/second.txt", "third.txt"]);
    let texts: Vec<&str> = collector.files.iter().map(|f| f.content.as_str()).collect();
    assert_eq!(texts, vec!["1", "2", "3"]);
}

#[test]
fn formatted_file_keeps_its_indentation() {
    let file = File::new(String::from("a b.txt"), String::from("line one\nline two"));
    assert_eq!(
        file.format(),
        "<file path=\"a b.txt\">\n            line one\nline two\n            </file>"
    );
}

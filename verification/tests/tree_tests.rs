use cunw::gitignore::GitIgnore;
use cunw::tree::Tree;

#[test]
fn test_new_tree() {
    let tree: Tree<String> = Tree::new(String::from("/"));

    assert_eq!(tree.current_dir(tree.root()), "/");
    assert!(tree.parent(tree.root()).is_none());
    assert_eq!(tree.collect_local_leaves(tree.root()).len(), 0);
    assert_eq!(tree.collect_local_branches(tree.root()).len(), 0);
}

#[test]
fn test_add_leaf() {
    let mut tree: Tree<String> = Tree::new(String::from("/"));
    let root = tree.root();

    tree.add_leaf(root, String::from("leaf1"));
    assert_eq!(tree.collect_local_leaves(root).len(), 1);
    assert_eq!(tree.collect_local_leaves(root)[0], "leaf1");
}

#[test]
fn test_add_branch() {
    let mut tree: Tree<String> = Tree::new(String::from("/"));
    let root = tree.root();

    let branch = tree.add_branch(root, String::from("/branch"));
    assert_eq!(tree.collect_local_branches(root).len(), 1);
    assert_eq!(tree.current_dir(tree.collect_local_branches(root)[0]), "/branch");
    assert_eq!(tree.collect_local_branches(root)[0], branch);
}

#[test]
fn test_parent() {
    let mut tree: Tree<String> = Tree::new(String::from("/"));
    let root = tree.root();
    let branch = tree.add_branch(root, String::from("/branch"));

    assert!(tree.parent(branch).is_some());
    assert_eq!(tree.current_dir(tree.parent(branch).unwrap()), "/");
}

#[test]
fn test_backtrack_to_branch() {
    let mut tree: Tree<String> = Tree::new(String::from("/"));
    let root = tree.root();
    let branch = tree.add_branch(root, String::from("/branch"));
    let leaf = tree.add_branch(branch, String::from("/branch/leaf"));

    assert_eq!(tree.backtrack_to_branch(leaf, "/branch"), Some(branch));
    assert_eq!(tree.backtrack_to_branch(leaf, "/"), Some(root));
    assert_eq!(tree.backtrack_to_branch(branch, "/"), Some(root));
    assert!(tree.backtrack_to_branch(root, "/branch/leaf").is_none());
}

#[test]
fn test_collect_all_leaves() {
    let mut tree: Tree<String> = Tree::new(String::from("/"));
    let root = tree.root();
    tree.add_leaf(root, "leaf1".to_string());

    let branch = tree.add_branch(root, String::from("/branch"));
    tree.add_leaf(branch, "leaf2".to_string());

    let leaves = tree.collect_all_leaves(root);
    assert_eq!(leaves.len(), 2);
    assert!(leaves.contains(&&"leaf1".to_string()));
    assert!(leaves.contains(&&"leaf2".to_string()));
}

#[test]
fn test_tree_to_string() {
    let mut tree: Tree<String> = Tree::new(String::from("/"));
    let root = tree.root();
    tree.add_leaf(root, "leaf1".to_string());

    let branch = tree.add_branch(root, String::from("/branch"));
    tree.add_leaf(branch, "leaf2".to_string());

    let expected = "/\n├─ /branch\n│  └─ leaf2\n└─ leaf1";
    let output = tree.to_string(root);

    assert_eq!(output, expected);
}

#[test]
fn test_tree_with_multiple_branches_and_leaves() {
    let mut tree: Tree<String> = Tree::new(String::from("/"));
    let root = tree.root();

    tree.add_leaf(root, "leaf1".to_string());
    tree.add_leaf(root, "leaf2".to_string());

    let branch1 = tree.add_branch(root, String::from("/branch1"));
    tree.add_leaf(branch1, "leaf3".to_string());

    let branch2 = tree.add_branch(root, String::from("/branch2"));
    tree.add_leaf(branch2, "leaf4".to_string());

    let expected = "/\n├─ /branch1\n│  └─ leaf3\n├─ /branch2\n│  └─ leaf4\n├─ leaf1\n└─ leaf2";
    let output = tree.to_string(root);

    assert_eq!(output, expected);
}

#[test]
fn test_tree_with_nested_branches() {
    let mut tree: Tree<String> = Tree::new(String::from("/"));
    let root = tree.root();
    tree.add_leaf(root, "leaf1".to_string());

    let branch1 = tree.add_branch(root, String::from("/branch1"));
    tree.add_leaf(branch1, "leaf2".to_string());

    let branch2 = tree.add_branch(branch1, String::from("/branch1/branch2"));
    tree.add_leaf(branch2, "leaf3".to_string());

    let expected = "/\n├─ /branch1\n│  ├─ /branch2\n│  │  └─ leaf3\n│  └─ leaf2\n└─ leaf1";
    let output = tree.to_string(root);

    assert_eq!(output, expected);
}

#[test]
fn test_tree_with_deeply_nested_branches() {
    let mut tree: Tree<String> = Tree::new(String::from("/"));
    let root = tree.root();

    let branch1 = tree.add_branch(root, String::from("/branch1"));
    let branch2 = tree.add_branch(branch1, String::from("/branch1/branch2"));
    let branch3 = tree.add_branch(branch2, String::from("/branch1/branch2/branch3"));
    tree.add_leaf(branch3, "leaf4".to_string());

    let expected = "/\n└─ /branch1\n   └─ /branch2\n      └─ /branch3\n         └─ leaf4";
    let output = tree.to_string(root);

    assert_eq!(output, expected);
}

#[test]
fn test_tree_with_mixed_branches_and_leaves() {
    let mut tree: Tree<String> = Tree::new(String::from("/"));
    let root = tree.root();

    tree.add_leaf(root, "leaf1".to_string());
    tree.add_leaf(root, "leaf2".to_string());

    let branch1 = tree.add_branch(root, String::from("/branch1"));
    tree.add_leaf(branch1, "leaf3".to_string());

    let branch2 = tree.add_branch(root, String::from("/branch2"));
    tree.add_leaf(branch2, "leaf4".to_string());

    let branch3 = tree.add_branch(branch1, String::from("/branch1/branch3"));
    tree.add_leaf(branch3, "leaf5".to_string());

    let expected = "/\n├─ /branch1\n│  ├─ /branch3\n│  │  └─ leaf5\n│  └─ leaf3\n├─ /branch2\n│  └─ leaf4\n├─ leaf1\n└─ leaf2";
    let output = tree.to_string(root);

    assert_eq!(output, expected);
}

#[test]
fn test_partial_eq() {
    let mut tree1: Tree<String> = Tree::new(String::from("/"));
    let root1 = tree1.root();
    tree1.add_leaf(root1, "leaf1".to_string());

    let mut tree2: Tree<String> = Tree::new(String::from("/"));
    let root2 = tree2.root();
    tree2.add_leaf(root2, "leaf1".to_string());

    assert!(tree1 == tree2);
}

#[test]
fn trees_differ_when_a_leaf_has_no_like() {
    let mut tree1: Tree<String> = Tree::new(String::from("/"));
    let root1 = tree1.root();
    tree1.add_leaf(root1, "leaf1".to_string());
    tree1.add_leaf(root1, "leaf2".to_string());

    let mut tree2: Tree<String> = Tree::new(String::from("/"));
    let root2 = tree2.root();
    tree2.add_leaf(root2, "leaf1".to_string());

    assert!(tree1 != tree2);
    assert!(tree2 == tree1);
}

#[test]
fn test_gitignore() {
    let gitignore = GitIgnore::from("/work/project/.gitignore", false, Some("*.rs"))
        .expect("Failed to create GitIgnore")
        .expect("GitIgnore is None");
    let same = GitIgnore::from("/work/project/.gitignore", false, Some("*.rs"))
        .expect("Failed to create GitIgnore")
        .expect("GitIgnore is None");

    let mut tree1: Tree<String> = Tree::new(String::from("/work/project"));
    let root = tree1.root();
    tree1.set_gitignore(root, gitignore);

    let branch = tree1.add_branch(root, String::from("/work/project/branch"));

    assert!(tree1.gitignore(branch) == Some(&same));
}

#[test]
fn test_nested_gitignore() {
    let gitignore = GitIgnore::from("/work/project/.gitignore", false, Some("*.rs"))
        .expect("Failed to create GitIgnore")
        .expect("GitIgnore is None");
    let same = GitIgnore::from("/work/project/.gitignore", false, Some("*.rs"))
        .expect("Failed to create GitIgnore")
        .expect("GitIgnore is None");

    let mut tree1: Tree<String> = Tree::new(String::from("/work/project"));
    let root = tree1.root();
    tree1.set_gitignore(root, gitignore);

    let branch = tree1.add_branch(root, String::from("/work/project/branch"));
    let nested_branch = tree1.add_branch(branch, String::from("/work/project/branch/nested"));

    assert!(tree1.gitignore(nested_branch) == Some(&same));
}

#[test]
fn directory_without_rules_is_governed_by_nearest_enclosing_rules() {
    let outer = GitIgnore::from("/p", true, Some("*.log")).unwrap().unwrap();
    let inner = GitIgnore::from("/p/a/b", true, Some("*.tmp")).unwrap().unwrap();

    let mut tree: Tree<String> = Tree::new(String::from("/p"));
    let root = tree.root();
    let a = tree.add_branch(root, String::from("/p/a"));
    let b = tree.add_branch(a, String::from("/p/a/b"));
    let c = tree.add_branch(b, String::from("/p/a/b/c"));
    let d = tree.add_branch(root, String::from("/p/d"));

    assert!(tree.gitignore(c).is_none());
    tree.set_gitignore(root, outer);
    tree.set_gitignore(b, inner);

    assert_eq!(tree.gitignore(root).unwrap().path(), "/p");
    assert_eq!(tree.gitignore(a).unwrap().path(), "/p");
    assert_eq!(tree.gitignore(b).unwrap().path(), "/p/a/b");
    assert_eq!(tree.gitignore(c).unwrap().path(), "/p/a/b");
    assert_eq!(tree.gitignore(d).unwrap().path(), "/p");
    assert!(tree.own_gitignore(a).is_none());
    assert!(tree.own_gitignore(c).is_none());
}

#[test]
fn first_rules_stored_for_a_directory_stay() {
    let first = GitIgnore::from("/p", true, Some("*.log")).unwrap().unwrap();
    let second = GitIgnore::from("/elsewhere", true, Some("*.tmp")).unwrap().unwrap();

    let mut tree: Tree<String> = Tree::new(String::from("/p"));
    let root = tree.root();
    tree.set_gitignore(root, first);
    tree.set_gitignore(root, second);

    assert_eq!(tree.gitignore(root).unwrap().path(), "/p");
    assert!(tree.gitignore(root).unwrap().is_excluded("a.log"));
    assert!(!tree.gitignore(root).unwrap().is_excluded("a.tmp"));
}

#[test]
fn backtracking_compares_paths_by_their_components() {
    let mut tree: Tree<String> = Tree::new(String::from("/p/"));
    let root = tree.root();
    let a = tree.add_branch(root, String::from("/p/a"));
    let b = tree.add_branch(a, String::from("/p/a/b"));

    assert_eq!(tree.backtrack_to_branch(b, "/p//a/"), Some(a));
    assert_eq!(tree.backtrack_to_branch(b, "/p"), Some(root));
    assert_eq!(tree.backtrack_to_branch(b, "p"), None);
    assert_eq!(tree.backtrack_to_branch(a, "/p/a/b"), None);
}

#[test]
fn leaves_are_collected_own_first_then_branch_by_branch() {
    let mut tree: Tree<String> = Tree::new(String::from("/"));
    let root = tree.root();
    let a = tree.add_branch(root, String::from("/a"));
    tree.add_leaf(a, "a1".to_string());
    let b = tree.add_branch(root, String::from("/b"));
    tree.add_leaf(root, "r1".to_string());
    let aa = tree.add_branch(a, String::from("/a/a"));
    tree.add_leaf(aa, "aa1".to_string());
    tree.add_leaf(b, "b1".to_string());
    tree.add_leaf(a, "a2".to_string());
    tree.add_leaf(root, "r2".to_string());

    let leaves: Vec<String> = tree.collect_all_leaves(root).into_iter().cloned().collect();
    assert_eq!(leaves, vec!["r1", "r2", "a1", "a2", "aa1", "b1"]);
    let below_a: Vec<String> = tree.collect_all_leaves(a).into_iter().cloned().collect();
    assert_eq!(below_a, vec!["a1", "a2", "aa1"]);
    assert_eq!(tree.len(), 4);
}

#[test]
fn drawing_of_a_named_root() {
    let mut tree: Tree<String> = Tree::new(String::from("/work/project"));
    let root = tree.root();
    let src = tree.add_branch(root, String::from("/work/project/src"));
    tree.add_leaf(src, "main.rs".to_string());
    tree.add_leaf(root, "README.md".to_string());

    let expected = "└─ /project\n│  ├─ /src\n│  │  └─ main.rs\n   └─ README.md";
    assert_eq!(tree.to_string(root), expected);
}

#[test]
fn drawing_of_a_root_named_by_a_dot() {
    let mut tree: Tree<String> = Tree::new(String::from("."));
    let root = tree.root();
    tree.add_leaf(root, "a.txt".to_string());

    assert_eq!(tree.to_string(root), "/\n└─ a.txt");
}

#[test]
fn drawing_of_an_empty_tree() {
    let tree: Tree<String> = Tree::new(String::from("/"));
    assert_eq!(tree.to_string(tree.root()), "/");
}

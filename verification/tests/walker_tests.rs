use cunw::codebase::builder::CodebaseBuilder;
use cunw::codebase::walker::{EntryKind, Loaded, WalkAction, Walker};
use cunw::error::CunwErrorKind;
use cunw::glob::PatternSet;

fn load(node: usize, index: usize, text: &str) -> Loaded {
    Loaded { node, index, outcome: Ok(text.as_bytes().to_vec()) }
}

fn failed_load(node: usize, index: usize, reason: &str) -> Loaded {
    Loaded { node, index, outcome: Err(reason.to_string()) }
}

#[test]
fn locate_asks_for_the_ignore_file_of_a_directory_once() {
    let mut walker = CodebaseBuilder::new().consider_gitignores(true).start(String::from("/r"));
    assert_eq!(walker.locate("/r").unwrap(), Some(String::from("/r")));
    assert_eq!(walker.visit("/r", EntryKind::Directory, Some("*.log")).unwrap(), WalkAction::Skip);
    assert_eq!(walker.locate("/r/a.log").unwrap(), None);
    assert_eq!(walker.visit("/r/a.log", EntryKind::File, None).unwrap(), WalkAction::Skip);
    assert_eq!(walker.locate("/r/b.txt").unwrap(), None);
    assert_eq!(
        walker.visit("/r/b.txt", EntryKind::File, None).unwrap(),
        WalkAction::Load { node: 0, index: 0 }
    );
}

#[test]
fn locate_asks_again_while_a_directory_has_no_ignore_file() {
    let mut walker = CodebaseBuilder::new().consider_gitignores(true).start(String::from("/r"));
    assert_eq!(walker.locate("/r/a.txt").unwrap(), Some(String::from("/r")));
    assert_eq!(
        walker.visit("/r/a.txt", EntryKind::File, None).unwrap(),
        WalkAction::Load { node: 0, index: 0 }
    );
    assert_eq!(walker.locate("/r/b.txt").unwrap(), Some(String::from("/r")));
}

#[test]
fn locate_asks_for_nothing_when_ignore_files_are_not_honoured() {
    let mut walker = CodebaseBuilder::new().start(String::from("/r"));
    assert_eq!(walker.locate("/r/a.log").unwrap(), None);
    assert_eq!(
        walker.visit("/r/a.log", EntryKind::File, Some("*.log")).unwrap(),
        WalkAction::Load { node: 0, index: 0 }
    );
}

#[test]
fn visit_enters_directories_and_locate_finds_the_way_back() {
    let mut walker = Walker::new(String::from("/r"), false, None);
    assert_eq!(walker.locate("/r/a").unwrap(), None);
    assert_eq!(
        walker.visit("/r/a", EntryKind::Directory, None).unwrap(),
        WalkAction::Enter { branch: 1 }
    );
    walker.locate("/r/a/b").unwrap();
    assert_eq!(
        walker.visit("/r/a/b", EntryKind::Directory, None).unwrap(),
        WalkAction::Enter { branch: 2 }
    );
    walker.locate("/r/a/b/x.txt").unwrap();
    assert_eq!(
        walker.visit("/r/a/b/x.txt", EntryKind::File, None).unwrap(),
        WalkAction::Load { node: 2, index: 0 }
    );
    walker.locate("/r/a/y.txt").unwrap();
    assert_eq!(
        walker.visit("/r/a/y.txt", EntryKind::File, None).unwrap(),
        WalkAction::Load { node: 1, index: 0 }
    );
    walker.locate("/r/z.txt").unwrap();
    assert_eq!(
        walker.visit("/r/z.txt", EntryKind::File, None).unwrap(),
        WalkAction::Load { node: 0, index: 0 }
    );
}

#[test]
fn locate_fails_for_an_entry_without_place() {
    let mut walker = Walker::new(String::from("/r"), false, None);
    walker.locate("/r/a").unwrap();
    walker.visit("/r/a", EntryKind::Directory, None).unwrap();
    let error = walker.locate("/r/other/x.txt").err().unwrap();
    match &error.source {
        CunwErrorKind::CodebaseBuild(message) => {
            assert_eq!(message, "Failed to find a parent for path: /r/other/x.txt")
        }
        _ => panic!("wrong kind of error"),
    }
    // the walk goes on from where it was
    walker.locate("/r/a/x.txt").unwrap();
    assert_eq!(
        walker.visit("/r/a/x.txt", EntryKind::File, None).unwrap(),
        WalkAction::Load { node: 1, index: 0 }
    );
}

#[test]
fn excluded_directory_is_pruned_and_excluded_file_skipped() {
    let excluded = PatternSet::build(vec![String::from("**/target"), String::from("*.o")]).unwrap();
    let mut walker = Walker::new(String::from("/r"), false, Some(excluded));
    walker.locate("/r/target").unwrap();
    assert_eq!(walker.visit("/r/target", EntryKind::Directory, None).unwrap(), WalkAction::Prune);
    walker.locate("/r/a.o").unwrap();
    assert_eq!(walker.visit("/r/a.o", EntryKind::File, None).unwrap(), WalkAction::Skip);
    walker.locate("/r/a.c").unwrap();
    assert_eq!(
        walker.visit("/r/a.c", EntryKind::File, None).unwrap(),
        WalkAction::Load { node: 0, index: 0 }
    );
}

#[test]
fn root_entry_is_passed_over() {
    let mut walker = Walker::new(String::from("/r/"), false, None);
    walker.locate("/r").unwrap();
    assert_eq!(walker.visit("/r", EntryKind::Directory, None).unwrap(), WalkAction::Skip);
    let codebase = walker.finish(&Vec::new()).unwrap();
    assert_eq!(codebase.tree().len(), 1);
}

#[test]
fn loads_fill_the_cells_in_any_order() {
    let mut forward = Walker::new(String::from("/r"), false, None);
    let mut backward = Walker::new(String::from("/r"), false, None);
    for walker in [&mut forward, &mut backward] {
        for name in ["/r/a.txt", "/r/b.txt", "/r/c.txt"] {
            walker.locate(name).unwrap();
            walker.visit(name, EntryKind::File, None).unwrap();
        }
    }
    let failed = forward.settle(&vec![load(0, 0, "A"), load(0, 1, "B"), load(0, 2, "C")]);
    assert!(failed.is_empty());
    let failed = backward.settle(&vec![load(0, 2, "C"), load(0, 0, "A"), load(0, 1, "B")]);
    assert!(failed.is_empty());
    let one = forward.finish(&Vec::new()).unwrap();
    let other = backward.finish(&Vec::new()).unwrap();
    assert_eq!(one.try_to_string().unwrap(), other.try_to_string().unwrap());
    let leaves = one.tree().collect_local_leaves(0);
    assert_eq!(leaves[0].content(), Some("A"));
    assert_eq!(leaves[1].content(), Some("B"));
    assert_eq!(leaves[2].content(), Some("C"));
}

#[test]
fn one_failed_load_leaves_the_other_texts_in_place() {
    let mut walker = Walker::new(String::from("/r"), false, None);
    for name in ["/r/a.txt", "/r/b.txt", "/r/c.txt"] {
        walker.locate(name).unwrap();
        walker.visit(name, EntryKind::File, None).unwrap();
    }
    let failed =
        walker.settle(&vec![load(0, 2, "C"), failed_load(0, 1, "permission denied"), load(0, 0, "A")]);
    assert_eq!(failed, vec![String::from("/r/b.txt")]);
    let error = walker.finish(&vec![failed_load(0, 1, "permission denied")]).err().unwrap();
    match &error.source {
        CunwErrorKind::CodebaseBuild(message) => {
            assert_eq!(message, "Failed to read file(s) content(s): /r/b.txt")
        }
        _ => panic!("wrong kind of error"),
    }
    assert_eq!(error.related_to_file, Some(String::from("/r/b.txt")));
}

#[test]
fn cells_keep_their_text_after_a_failed_load() {
    let mut walker = Walker::new(String::from("/r"), false, None);
    for name in ["/r/a.txt", "/r/b.txt"] {
        walker.locate(name).unwrap();
        walker.visit(name, EntryKind::File, None).unwrap();
    }
    let failed = walker.settle(&vec![failed_load(0, 1, "gone"), load(0, 0, "A")]);
    assert_eq!(failed.len(), 1);
    let codebase = walker.finish(&Vec::new()).unwrap();
    let leaves = codebase.tree().collect_local_leaves(0);
    assert_eq!(leaves[0].content(), Some("A"));
    assert_eq!(leaves[1].content(), None);
    let mut files = String::new();
    codebase.push_formated_leaves_representation(&mut files);
    assert_eq!(files, "<file path=\"/r/a.txt\">\nA\n</file>\n");
}

#[test]
fn loads_are_for_files_of_the_tree() {
    let mut walker = Walker::new(String::from("/r"), false, None);
    walker.locate("/r/a.txt").unwrap();
    walker.visit("/r/a.txt", EntryKind::File, None).unwrap();
    assert!(walker.has_leaf(0, 0));
    assert!(!walker.has_leaf(0, 1));
    assert!(!walker.has_leaf(1, 0));
}

#[test]
fn a_cell_is_written_once() {
    let mut walker = Walker::new(String::from("/r"), false, None);
    walker.locate("/r/a.txt").unwrap();
    walker.visit("/r/a.txt", EntryKind::File, None).unwrap();
    let failed = walker.settle(&vec![load(0, 0, "first"), load(0, 0, "second")]);
    assert!(failed.is_empty());
    let codebase = walker.finish(&Vec::new()).unwrap();
    assert_eq!(codebase.tree().collect_local_leaves(0)[0].content(), Some("first"));
}

#[test]
fn bytes_that_are_no_text_count_as_a_failed_load() {
    let mut walker = Walker::new(String::from("/r"), false, None);
    walker.locate("/r/a.bin").unwrap();
    walker.visit("/r/a.bin", EntryKind::File, None).unwrap();
    let failed = walker.settle(&vec![Loaded { node: 0, index: 0, outcome: Ok(vec![0xc3, 0x28]) }]);
    assert_eq!(failed, vec![String::from("/r/a.bin")]);
}

#[test]
fn text_is_decoded_from_the_bytes_read() {
    let mut walker = Walker::new(String::from("/r"), false, None);
    walker.locate("/r/a.txt").unwrap();
    walker.visit("/r/a.txt", EntryKind::File, None).unwrap();
    let failed =
        walker.settle(&vec![Loaded { node: 0, index: 0, outcome: Ok("héllo ├─".as_bytes().to_vec()) }]);
    assert!(failed.is_empty());
    let codebase = walker.finish(&Vec::new()).unwrap();
    assert_eq!(codebase.tree().collect_local_leaves(0)[0].content(), Some("héllo ├─"));
}

#[test]
fn settings_are_kept_for_the_enumeration() {
    let builder = CodebaseBuilder::new();
    assert_eq!(builder.depth_limit(), None);
    assert!(!builder.follows_symlinks());
    assert!(builder.skips_hidden());
    let builder = builder.max_depth(3).follow_symlinks(true).skip_hidden_on_windows(false);
    assert_eq!(builder.depth_limit(), Some(3));
    assert!(builder.follows_symlinks());
    assert!(!builder.skips_hidden());
}

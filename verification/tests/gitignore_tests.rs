use cunw::gitignore::GitIgnore;

fn rules_for_dir(dir: &str, content: &str) -> GitIgnore {
    let text = format!("{}\n", content);
    GitIgnore::from(dir, true, Some(text.as_str())).unwrap().unwrap()
}

fn rules_for_file(file: &str, content: &str) -> GitIgnore {
    let text = format!("{}\n", content);
    GitIgnore::from(file, false, Some(text.as_str())).unwrap().unwrap()
}

#[test]
fn test_gitignore_from_dir() {
    let gitignore = rules_for_dir("/work/project", "*.txt\n!important.txt");
    assert!(gitignore.is_excluded("file.txt"));
    assert!(!gitignore.is_excluded("important.txt"));
    assert!(!gitignore.is_excluded("file.rs"));
}

#[test]
fn test_gitignore_from_path() {
    let gitignore = rules_for_file("/work/project/.gitignore", "*.log\ntemp/\n!temp/keep.txt");
    assert!(gitignore.is_excluded("error.log"));
    assert!(gitignore.is_excluded("temp/file.txt"));
    assert!(!gitignore.is_excluded("temp/keep.txt"));
    assert!(!gitignore.is_excluded("src/main.rs"));
}

#[test]
fn test_gitignore_patterns() {
    let gitignore =
        rules_for_file("/work/project/.gitignore", "/root.txt\n/src/*.rs\n!/src/main.rs");
    assert!(gitignore.is_excluded("root.txt"));
    assert!(gitignore.is_excluded("src/lib.rs"));
    assert!(!gitignore.is_excluded("src/main.rs"));
    assert!(!gitignore.is_excluded("doc/root.txt"));
}

#[test]
fn ignore_file_of_a_directory() {
    assert_eq!(cunw::gitignore::ignore_file_path("/work/project"), "/work/project/.gitignore");
    assert_eq!(cunw::gitignore::ignore_file_path("./"), "./.gitignore");
    assert_eq!(
        cunw::gitignore::read_text("/p/.gitignore", &b"*.log".to_vec()).unwrap(),
        String::from("*.log")
    );
    let error = cunw::gitignore::read_text("/p/.gitignore", &vec![0x80]).err().unwrap();
    assert_eq!(error.related_to_file, Some(String::from("/p/.gitignore")));
}

#[test]
fn no_ignore_file_gives_no_rules() {
    assert!(GitIgnore::from("/work/project", true, None).unwrap().is_none());
    assert!(GitIgnore::from("/work/project/.gitignore", false, None).unwrap().is_none());
}

#[test]
fn keeping_pattern_overrides_excluding_pattern() {
    let gitignore = rules_for_dir("/work/project", "*.log\n!important.log");
    assert!(!gitignore.is_excluded("important.log"));
    assert!(gitignore.is_excluded("other.log"));
}

#[test]
fn keeping_pattern_wins_wherever_it_stands_in_the_file() {
    let gitignore = rules_for_dir("/work/project", "!important.log\n*.log");
    assert!(!gitignore.is_excluded("important.log"));
    assert!(gitignore.is_excluded("other.log"));
}

#[test]
fn comments_and_empty_lines_are_no_rules() {
    let gitignore = rules_for_dir("/work/project", "# a comment\n\n*.tmp\n#*.rs\n");
    assert!(gitignore.is_excluded("scratch.tmp"));
    assert!(!gitignore.is_excluded("main.rs"));
    assert!(!gitignore.is_excluded("# a comment"));
}

#[test]
fn carriage_returns_do_not_belong_to_rules() {
    let gitignore =
        GitIgnore::from("/work/project", true, Some("*.log\r\n!keep.log\r\n")).unwrap().unwrap();
    assert!(gitignore.is_excluded("error.log"));
    assert!(!gitignore.is_excluded("keep.log"));
}

#[test]
fn last_line_needs_no_line_feed() {
    let gitignore = GitIgnore::from("/work/project", true, Some("*.log")).unwrap().unwrap();
    assert!(gitignore.is_excluded("error.log"));
}

#[test]
fn pattern_that_does_not_compile_is_skipped() {
    let gitignore = rules_for_dir("/work/project", "{unclosed\n*.log");
    assert!(gitignore.is_excluded("error.log"));
    assert!(!gitignore.is_excluded("{unclosed"));
}

#[test]
fn pattern_from_the_root_also_matches_relative_paths() {
    let gitignore = rules_for_dir("/work/project", "/build");
    assert!(gitignore.is_excluded("build"));
    assert!(gitignore.is_excluded("/build"));
    assert!(!gitignore.is_excluded("src/build"));
}

#[test]
fn dotted_pattern_also_matches_paths_written_from_the_current_directory() {
    let gitignore = rules_for_dir(".", ".env");
    assert!(gitignore.is_excluded(".env"));
    assert!(gitignore.is_excluded("./.env"));
    assert!(!gitignore.is_excluded("env"));
}

#[test]
fn absolute_path_is_matched_relative_to_the_directory_of_the_rules() {
    let gitignore = rules_for_dir("/work/project", "/src/*.rs\n!/src/main.rs");
    assert!(gitignore.is_excluded("/work/project/src/lib.rs"));
    assert!(!gitignore.is_excluded("/work/project/src/main.rs"));
    assert!(!gitignore.is_excluded("/elsewhere/src/lib.rs"));
}

#[test]
fn rules_of_a_file_govern_the_directory_that_holds_it() {
    let gitignore = rules_for_file("/work/project/.gitignore", "/notes.txt");
    assert!(gitignore.is_excluded("/work/project/notes.txt"));
    assert!(!gitignore.is_excluded("/work/project/docs/notes.txt"));
    assert_eq!(gitignore.path(), "/work/project/.gitignore");
}

#[test]
fn several_negation_marks_are_all_stripped() {
    let gitignore = rules_for_dir("/work/project", "*.log\n!!keep.log");
    assert!(!gitignore.is_excluded("keep.log"));
    assert!(gitignore.is_excluded("drop.log"));
}

#[test]
fn rules_are_equal_when_read_for_the_same_place() {
    let first = rules_for_dir("/work/project", "*.log");
    let second = rules_for_dir("/work/project/", "*.tmp");
    let third = rules_for_dir("/work/other", "*.log");
    assert!(first == second);
    assert!(first != third);
}

#[test]
fn directory_pattern_leaves_out_what_lies_below_the_directory() {
    let gitignore = rules_for_dir("/work/project", "/target/\nnode_modules/\n!node_modules/keep/");
    assert!(gitignore.is_excluded("target/debug/app"));
    assert!(gitignore.is_excluded("/work/project/target/debug/app"));
    assert!(!gitignore.is_excluded("target"));
    assert!(!gitignore.is_excluded("src/target/file"));
    assert!(gitignore.is_excluded("node_modules/a/index.js"));
    assert!(!gitignore.is_excluded("node_modules/keep/index.js"));
}

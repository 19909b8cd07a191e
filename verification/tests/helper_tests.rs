use cunw::error::{CunwError, CunwErrorKind};
use cunw::exclusion::{adjust_pattern, excluded_patterns};
use cunw::file::{File, FileCollector};
use cunw::glob::{compiles, PatternSet};
use cunw::path;
use cunw::text;
use cunw::utils::{end_with_one_of, start_with_one_of};

#[test]
fn first_matching_prefix_is_returned() {
    let snippet = "hello world";
    let prefixes = ["he", "wo"];
    assert_eq!(start_with_one_of(snippet, &prefixes), Some("he"));
    assert_eq!(start_with_one_of(snippet, &["wo", "hell", "he"]), Some("hell"));
    assert_eq!(start_with_one_of(snippet, &["wo", "ld"]), None);
    assert_eq!(start_with_one_of(snippet, &[]), None);
    assert_eq!(start_with_one_of("", &["a", ""]), Some(""));
}

#[test]
fn first_matching_suffix_is_returned() {
    let snippet = "hello world";
    let suffixes = ["ld", "lo"];
    assert_eq!(end_with_one_of(snippet, &suffixes), Some("ld"));
    assert_eq!(end_with_one_of(snippet, &["lo", "orld", "ld"]), Some("orld"));
    assert_eq!(end_with_one_of(snippet, &["he", "lo"]), None);
    assert_eq!(end_with_one_of("ab", &["cab"]), None);
}

#[test]
fn text_goes_to_characters_and_back() {
    let chars = text::to_chars("a├b");
    assert_eq!(chars, vec!['a', '├', 'b']);
    assert_eq!(text::from_chars(&chars), "a├b");
    assert_eq!(text::from_chars(&Vec::new()), "");
    let mut buffer = vec!['x'];
    text::append_str(&mut buffer, "yz");
    text::append_chars(&mut buffer, &vec!['!']);
    assert_eq!(buffer, vec!['x', 'y', 'z', '!']);
    assert!(text::chars_eq(&vec!['a'], &vec!['a']));
    assert!(!text::chars_eq(&vec!['a'], &vec!['b']));
    assert!(!text::chars_eq(&vec!['a'], &vec!['a', 'a']));
    assert!(text::chars_start_with(&vec!['a', 'b'], &vec!['a']));
    assert!(!text::chars_start_with(&vec!['a'], &vec!['a', 'b']));
    assert!(text::chars_end_with(&vec!['a', 'b'], &vec!['b']));
    assert!(!text::chars_end_with(&vec!['a', 'b'], &vec!['a']));
}

#[test]
fn text_is_split_into_lines() {
    let split = |s: &str| -> Vec<String> {
        text::split_lines(&text::to_chars(s)).iter().map(text::from_chars).collect()
    };
    assert_eq!(split("a\nb"), vec!["a", "b"]);
    assert_eq!(split("a\nb\n"), vec!["a", "b"]);
    assert_eq!(split("a\r\n\r\nb\r\n"), vec!["a", "", "b"]);
    assert_eq!(split("\n"), vec![""]);
    assert_eq!(split(""), Vec::<String>::new());
    assert_eq!(split("a\rb\n"), vec!["a\rb"]);
}

#[test]
fn paths_are_read_by_their_components() {
    let split = |s: &str| -> Vec<String> { path::split(s).iter().map(text::from_chars).collect() };
    assert_eq!(split("/a/b"), vec!["/", "a", "b"]);
    assert_eq!(split("a//b/"), vec!["a", "b"]);
    assert_eq!(split("/"), vec!["/"]);
    assert_eq!(split(""), Vec::<String>::new());
    assert_eq!(split("./a"), vec![".", "a"]);
    assert!(path::same("/a//b/", "/a/b"));
    assert!(!path::same("/a/b", "a/b"));
    assert!(path::starts_with("/a/b/c", "/a/b"));
    assert!(path::starts_with("/a/b", "/a/b"));
    assert!(!path::starts_with("/a/bc", "/a/b"));
    assert!(!path::starts_with("/a", "/a/b"));
    assert!(path::starts_with("/a", ""));
    assert!(!path::starts_with("a", "/"));
    assert!(path::is_absolute_path("/a"));
    assert!(!path::is_absolute_path("a/"));
    assert!(!path::is_absolute_path(""));
}

#[test]
fn parent_file_name_and_rest_of_a_path() {
    assert_eq!(path::parent_of("/a/b"), Some(String::from("/a")));
    assert_eq!(path::parent_of("/a"), Some(String::from("/")));
    assert_eq!(path::parent_of("a"), Some(String::from("")));
    assert_eq!(path::parent_of("a//b/c/"), Some(String::from("a/b")));
    assert_eq!(path::parent_of("/"), None);
    assert_eq!(path::parent_of(""), None);
    assert_eq!(path::file_name_of("/a/b.txt"), Some(String::from("b.txt")));
    assert_eq!(path::file_name_of("/a/b/"), Some(String::from("b")));
    assert_eq!(path::file_name_of("/"), None);
    assert_eq!(path::file_name_of(""), None);
    assert_eq!(path::file_name_of("."), None);
    assert_eq!(path::file_name_of("a/.."), None);
    assert_eq!(path::file_name_of("..."), Some(String::from("...")));
    assert_eq!(path::strip_prefix("/a/b/c", "/a"), Some(String::from("b/c")));
    assert_eq!(path::strip_prefix("/a/b", "/a/b/"), Some(String::from("")));
    assert_eq!(path::strip_prefix("/a/b", ""), Some(String::from("/a/b")));
    assert_eq!(path::strip_prefix("/a/b", "/b"), None);
    assert_eq!(path::strip_prefix("a/b", "/a"), None);
}

#[test]
fn entry_of_a_directory() {
    assert_eq!(path::join("/a", "b"), "/a/b");
    assert_eq!(path::join("/a/", "b"), "/a/b");
    assert_eq!(path::join("", "b"), "b");
    assert_eq!(path::join("/", ".gitignore"), "/.gitignore");
    assert_eq!(path::join(".", ".gitignore"), "./.gitignore");
}

#[test]
fn paths_are_put_in_order_by_their_components() {
    assert!(path::comes_before("/a", "/a/b"));
    assert!(path::comes_before("/a/b", "/a.txt"));
    assert!(path::comes_before("/a/z", "/b/a"));
    assert!(!path::comes_before("/a/b", "/a//b/"));
    assert!(!path::comes_before("/b", "/a"));
    assert!(path::comes_before("", "a"));
    assert!(!path::comes_before("a", ""));
}

#[test]
fn error_messages() {
    let error = CunwError::new(CunwErrorKind::Io(String::from("disk on fire")));
    assert!(error.related_to_file.is_none());
    assert_eq!(error.to_text(), "Cunw error: IO error: disk on fire");
    let error = error.with_file(String::from("/tmp/a"));
    assert_eq!(error.related_to_file, Some(String::from("/tmp/a")));
    assert_eq!(error.source.to_text(), "IO error: disk on fire");
    assert_eq!(
        CunwErrorKind::CodebaseBuild(String::from("no")).to_text(),
        "Failed to build codebase: no"
    );
    assert_eq!(
        CunwErrorKind::GitignoreBuild(String::from("bad glob")).to_text(),
        "Failed to build gitignore: bad glob"
    );
}

#[test]
fn file_is_formatted_between_tags() {
    let file = File::new(String::from("src/main.rs"), String::from("fn main() {}"));
    assert_eq!(file.path, "src/main.rs");
    assert_eq!(file.content, "fn main() {}");
    assert_eq!(
        file.format(),
        "<file path=\"src/main.rs\">\n            fn main() {}\n            </file>"
    );
}

#[test]
fn files_are_collected_relative_to_the_root() {
    let mut collector = FileCollector::new(String::from("/w"));
    assert!(collector.files.is_empty());
    collector.collect_file("/w/src/main.rs", String::from("fn main() {}"));
    collector.collect_file("/w/a.txt", String::from("alpha"));
    assert_eq!(collector.files.len(), 2);
    assert_eq!(collector.files[0].path, "src/main.rs");
    assert_eq!(collector.files[0].content, "fn main() {}");
    assert_eq!(collector.files[1].path, "a.txt");
    assert_eq!(collector.root, "/w");
}

#[test]
fn patterns_compile_or_not() {
    assert!(compiles("*.rs"));
    assert!(compiles("**/.git"));
    assert!(!compiles("{unclosed"));
    assert!(!compiles("[z-a]"));
}

#[test]
fn pattern_set_matches_when_one_pattern_does() {
    let set = PatternSet::build(vec![String::from("*.rs"), String::from("docs/**")]).unwrap();
    assert_eq!(set.len(), 2);
    assert!(set.is_match("src/main.rs"));
    assert!(set.is_match("docs/a/b.md"));
    assert!(!set.is_match("Cargo.toml"));
    let empty = PatternSet::build(Vec::new()).unwrap();
    assert_eq!(empty.len(), 0);
    assert!(!empty.is_match("anything"));
    assert!(!empty.is_match(""));
}

#[test]
fn strict_build_fails_and_lenient_build_skips() {
    let bad = vec![String::from("*.rs"), String::from("{unclosed")];
    let error = PatternSet::build(bad.clone()).err().unwrap();
    match &error.source {
        CunwErrorKind::GitignoreBuild(message) => assert!(message.contains("{unclosed")),
        _ => panic!("wrong kind of error"),
    }
    let set = PatternSet::build_lenient(bad).unwrap();
    assert_eq!(set.len(), 1);
    assert!(set.is_match("a.rs"));
    assert!(!set.is_match("{unclosed"));
}

#[test]
fn patterns_are_adjusted_to_a_dotted_path() {
    assert_eq!(adjust_pattern(".", "*.txt"), "./*.txt");
    assert_eq!(adjust_pattern("./project", "target"), "./target");
    assert_eq!(adjust_pattern("./project", "./target"), "./target");
    assert_eq!(adjust_pattern("./project", ".env"), ".env");
    assert_eq!(adjust_pattern("/abs", "*.txt"), "*.txt");
    assert_eq!(adjust_pattern("project", "./x"), "./x");
}

#[test]
fn version_control_directory_is_left_out_unless_allowed() {
    let given = vec![String::from("*.txt")];
    assert_eq!(excluded_patterns("/p", &given, false), vec!["*.txt", "**/.git", "./**/.git"]);
    assert_eq!(excluded_patterns("/p", &given, true), vec!["*.txt"]);
    assert_eq!(excluded_patterns("./p", &given, false), vec!["./*.txt", "**/.git", "./**/.git"]);
    assert_eq!(excluded_patterns("/p", &Vec::new(), true), Vec::<String>::new());
}

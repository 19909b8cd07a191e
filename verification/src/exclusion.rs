//! The patterns of the entries that a build leaves out whatever ignore files say.

use vstd::prelude::*;
use vstd::string::StringExecFns;
use crate::text::texts;
use crate::utils::start_with_one_of;

verus! {

/// The pattern that leaves out the version-control directory anywhere in the tree.
pub open spec fn git_pattern() -> Seq<char> {
    "**/.git"@
}

/// The same pattern for paths that are written from the current directory.
pub open spec fn dotted_git_pattern() -> Seq<char> {
    "./**/.git"@
}

/// Whether a text begins with a dot.
pub open spec fn is_dotted(text: Seq<char>) -> bool {
    text.len() > 0 && text[0] == '.'
}

/// A pattern given for a build from `path`, written the way the paths of the
/// entries will be: where `path` begins with a dot, so does the pattern,
/// behind `./` if need be. Any other pattern stays as it is.
pub open spec fn adjusted(path: Seq<char>, pattern: Seq<char>) -> Seq<char> {
    if is_dotted(path) && !is_dotted(pattern) {
        "./"@ + pattern
    } else {
        pattern
    }
}

/// The given patterns, each adjusted to `path`.
pub open spec fn adjusted_all(path: Seq<char>, patterns: Seq<Seq<char>>) -> Seq<Seq<char>> {
    Seq::new(patterns.len(), |i: int| adjusted(path, patterns[i]))
}

/// The patterns of the entries to leave out: those given, adjusted to
/// `path`, and, unless the version-control directory may be walked, the two
/// patterns that leave it out.
pub open spec fn exclusions(
    path: Seq<char>,
    patterns: Seq<Seq<char>>,
    allow_git_traversal: bool,
) -> Seq<Seq<char>> {
    if allow_git_traversal {
        adjusted_all(path, patterns)
    } else {
        adjusted_all(path, patterns) + seq![git_pattern(), dotted_git_pattern()]
    }
}

/// A pattern given for a build from `path`, written the way the paths of the
/// entries will be.
pub fn adjust_pattern(path: &str, pattern: &str) -> (adjusted_pattern: String)
    ensures
        adjusted_pattern@ == adjusted(path@, pattern@),
{
    let edge_cases: [&str; 2] = [".", "./"];
    proof {
        reveal_strlit(".");
        reveal_strlit("./");
    }
    assert(forall|text: Seq<char>| "."@.is_prefix_of(text) <==> is_dotted(text)) by {
        assert forall|text: Seq<char>| "."@.is_prefix_of(text) <==> is_dotted(text) by {
            if is_dotted(text) {
                assert("."@ =~= text.subrange(0, 1));
            }
            if "."@.is_prefix_of(text) {
                assert(text[0] == "."@[0]);
            }
        }
    }
    match start_with_one_of(path, edge_cases.as_slice()) {
        Some(_) => {
            assert(is_dotted(path@));
            match start_with_one_of(pattern, edge_cases.as_slice()) {
                Some(_) => {
                    assert(is_dotted(pattern@));
                    String::from_str(pattern)
                },
                None => {
                    assert(!is_dotted(pattern@)) by {
                        assert(edge_cases@[0]@ == "."@);
                    }
                    String::from_str("./").concat(pattern)
                },
            }
        },
        None => {
            assert(!is_dotted(path@)) by {
                assert(edge_cases@[0]@ == "."@);
            }
            String::from_str(pattern)
        },
    }
}

/// The patterns of the entries to leave out in a build from `path`.
pub fn excluded_patterns(path: &str, patterns: &Vec<String>, allow_git_traversal: bool) -> (all:
    Vec<String>)
    ensures
        texts(all@) == exclusions(path@, texts(patterns@), allow_git_traversal),
{
    let mut all: Vec<String> = Vec::new();
    let mut i: usize = 0;
    while i < patterns.len()
        invariant
            i <= patterns.len(),
            texts(all@) == adjusted_all(path@, texts(patterns@)).take(i as int),
        decreases patterns.len() - i,
    {
        let ghost before = texts(all@);
        all.push(adjust_pattern(path, patterns[i].as_str()));
        assert(texts(all@) =~= before.push(adjusted(path@, patterns@[i as int]@)));
        assert(adjusted_all(path@, texts(patterns@)).take(i + 1) =~= adjusted_all(
            path@,
            texts(patterns@),
        ).take(i as int).push(adjusted(path@, patterns@[i as int]@)));
        i += 1;
    }
    assert(adjusted_all(path@, texts(patterns@)).take(patterns.len() as int) =~= adjusted_all(
        path@,
        texts(patterns@),
    ));
    if !allow_git_traversal {
        let ghost before = texts(all@);
        all.push(String::from_str("**/.git"));
        all.push(String::from_str("./**/.git"));
        assert(texts(all@) =~= before + seq![git_pattern(), dotted_git_pattern()]);
    }
    all
}

} // verus!

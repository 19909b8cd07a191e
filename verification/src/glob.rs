//! Sets of glob patterns, matched by the `globset` crate.

use vstd::prelude::*;
use globset::{Glob, GlobSet};
use crate::error::{CunwError, CunwErrorKind};
use crate::text::texts;

verus! {

/// `globset::Glob`: a pattern that was parsed. Nothing is known of it but
/// the pattern it was parsed from.
#[verifier::external_type_specification]
#[verifier::external_body]
pub struct ExGlob(Glob);

/// `globset::GlobSet`: a matcher for several patterns at once. Nothing is
/// known of it but the patterns it was built from.
#[verifier::external_type_specification]
#[verifier::external_body]
pub struct ExGlobSet(GlobSet);

/// `globset::Error`: why a pattern did not parse or a matcher was not built.
/// It is only turned into its message.
#[verifier::external_type_specification]
#[verifier::external_body]
pub struct ExGlobError(globset::Error);

/// Whether `Glob::new` accepts the pattern, on the system that the library
/// is built for.
pub uninterp spec fn glob_compiles(pattern: Seq<char>) -> bool;

/// The pattern that a glob was parsed from, as `Glob::glob` returns it.
pub uninterp spec fn glob_source(glob: Glob) -> Seq<char>;

/// The patterns of the globs that a set was built from, in order.
pub uninterp spec fn set_patterns(set: GlobSet) -> Seq<Seq<char>>;

/// Whether `GlobSet::new` succeeds on globs parsed from these patterns.
pub uninterp spec fn set_builds(patterns: Seq<Seq<char>>) -> bool;

/// Whether the glob that `Glob::new` parses from `pattern` matches `path`,
/// as a set that holds the glob reports it.
pub uninterp spec fn glob_matches(pattern: Seq<char>, path: Seq<char>) -> bool;

/// The patterns that the given globs were parsed from.
pub open spec fn sources(globs: Seq<Glob>) -> Seq<Seq<char>> {
    Seq::new(globs.len(), |i: int| glob_source(globs[i]))
}

/// Whether at least one of `patterns` matches `path`.
pub open spec fn matches_any(patterns: Seq<Seq<char>>, path: Seq<char>) -> bool {
    exists|i: int| 0 <= i < patterns.len() && glob_matches(#[trigger] patterns[i], path)
}

/// `Glob::new`: parses a pattern with the default options. It succeeds on the
/// patterns that `glob_compiles` names, and the glob remembers its pattern.
#[verifier::external_body]
fn compile_glob(pattern: &str) -> (result: Result<Glob, globset::Error>)
    ensures
        result is Ok == glob_compiles(pattern@),
        result matches Ok(glob) ==> glob_source(glob) == pattern@,
{
    Glob::new(pattern)
}

/// `GlobSet::new`: builds one matcher from the given globs. It succeeds on the
/// pattern lists that `set_builds` names, always on the empty list, and the
/// set holds the globs in the order given.
#[verifier::external_body]
fn build_set(globs: Vec<Glob>) -> (result: Result<GlobSet, globset::Error>)
    ensures
        result is Ok == set_builds(sources(globs@)),
        globs@.len() == 0 ==> result is Ok,
        result matches Ok(set) ==> set_patterns(set) == sources(globs@),
{
    GlobSet::new(globs)
}

/// `GlobSet::is_match`: true when any glob of the set matches the path.
#[verifier::external_body]
fn set_is_match(set: &GlobSet, path: &str) -> (found: bool)
    ensures
        found == (exists|i: int|
            0 <= i < set_patterns(*set).len() && glob_matches(
                #[trigger] set_patterns(*set)[i],
                path@,
            )),
{
    set.is_match(path)
}

/// The message of a `globset::Error`, as its `Display` writes it.
#[verifier::external_body]
fn error_text(error: &globset::Error) -> (text: String) {
    error.to_string()
}

/// Whether `pattern` parses as a glob.
pub fn compiles(pattern: &str) -> (accepted: bool)
    ensures
        accepted == glob_compiles(pattern@),
{
    compile_glob(pattern).is_ok()
}

/// A list of glob patterns together with the matcher compiled from them.
#[derive(Debug)]
pub struct PatternSet {
    patterns: Vec<String>,
    matcher: GlobSet,
}

impl View for PatternSet {
    type V = Seq<Seq<char>>;

    /// The patterns of the set, in the order they were given.
    closed spec fn view(&self) -> Seq<Seq<char>> {
        texts(self.patterns@)
    }
}

impl PatternSet {
    #[verifier::type_invariant]
    spec fn matcher_holds_patterns(&self) -> bool {
        set_patterns(self.matcher) == texts(self.patterns@)
    }

    /// Whether a pattern of the set matches `path`.
    pub open spec fn matches(&self, path: Seq<char>) -> bool {
        matches_any(self@, path)
    }

    /// Compiles `patterns` into a set. Fails when a pattern does not parse
    /// or when the matcher cannot be built from them.
    pub fn build(patterns: Vec<String>) -> (result: Result<PatternSet, CunwError>)
        ensures
            result is Ok <==> all_compile(texts(patterns@)) && set_builds(texts(patterns@)),
            result matches Ok(set) ==> set@ == texts(patterns@),
            result matches Err(error) ==> error.source is GitignoreBuild
                && error.related_to_file is None,
    {
        let mut globs: Vec<Glob> = Vec::new();
        let mut i: usize = 0;
        while i < patterns.len()
            invariant
                i <= patterns.len(),
                sources(globs@) == texts(patterns@).take(i as int),
                all_compile(texts(patterns@).take(i as int)),
            decreases patterns.len() - i,
        {
            let ghost seen = texts(patterns@).take(i as int);
            let ghost next = texts(patterns@).take(i + 1);
            assert(next == seen.push(patterns@[i as int]@));
            match compile_glob(patterns[i].as_str()) {
                Ok(glob) => {
                    let ghost before = sources(globs@);
                    globs.push(glob);
                    assert(sources(globs@) == before.push(glob_source(glob)));
                },
                Err(error) => {
                    assert(texts(patterns@)[i as int] == patterns@[i as int]@);
                    return Err(CunwError::new(CunwErrorKind::GitignoreBuild(error_text(&error))));
                },
            }
            i += 1;
        }
        assert(texts(patterns@).take(patterns.len() as int) == texts(patterns@));
        match build_set(globs) {
            Ok(matcher) => Ok(PatternSet { patterns, matcher }),
            Err(error) => Err(CunwError::new(CunwErrorKind::GitignoreBuild(error_text(&error)))),
        }
    }

    /// Compiles those of `patterns` that parse into a set, leaving the others
    /// out. Fails only when the matcher cannot be built from them.
    pub fn build_lenient(patterns: Vec<String>) -> (result: Result<PatternSet, CunwError>)
        ensures
            result is Ok <==> set_builds(retained(texts(patterns@))),
            result matches Ok(set) ==> set@ == retained(texts(patterns@)),
            result matches Err(error) ==> error.source is GitignoreBuild
                && error.related_to_file is None,
    {
        let mut globs: Vec<Glob> = Vec::new();
        let mut kept: Vec<String> = Vec::new();
        let mut i: usize = 0;
        assert(texts(kept@) == Seq::<Seq<char>>::empty());
        while i < patterns.len()
            invariant
                i <= patterns.len(),
                sources(globs@) == texts(kept@),
                texts(kept@) == retained(texts(patterns@).take(i as int)),
            decreases patterns.len() - i,
        {
            let ghost next = texts(patterns@).take(i + 1);
            assert(next.drop_last() == texts(patterns@).take(i as int));
            assert(next.last() == patterns@[i as int]@);
            match compile_glob(patterns[i].as_str()) {
                Ok(glob) => {
                    let ghost before = sources(globs@);
                    globs.push(glob);
                    assert(sources(globs@) == before.push(glob_source(glob)));
                    let ghost kept_before = texts(kept@);
                    kept.push(patterns[i].clone());
                    assert(texts(kept@) == kept_before.push(patterns@[i as int]@));
                },
                Err(_) => {},
            }
            i += 1;
        }
        assert(texts(patterns@).take(patterns.len() as int) == texts(patterns@));
        match build_set(globs) {
            Ok(matcher) => Ok(PatternSet { patterns: kept, matcher }),
            Err(error) => Err(CunwError::new(CunwErrorKind::GitignoreBuild(error_text(&error)))),
        }
    }

    /// The number of patterns in the set.
    pub fn len(&self) -> (count: usize)
        ensures
            count == self@.len(),
    {
        self.patterns.len()
    }

    /// Whether a pattern of the set matches `path`.
    pub fn is_match(&self, path: &str) -> (found: bool)
        ensures
            found == self.matches(path@),
    {
        proof {
            use_type_invariant(self);
        }
        set_is_match(&self.matcher, path)
    }
}

/// Those of `patterns` that `Glob::new` accepts, in their order.
pub open spec fn retained(patterns: Seq<Seq<char>>) -> Seq<Seq<char>>
    decreases patterns.len(),
{
    if patterns.len() == 0 {
        Seq::empty()
    } else if glob_compiles(patterns.last()) {
        retained(patterns.drop_last()).push(patterns.last())
    } else {
        retained(patterns.drop_last())
    }
}

/// Whether `Glob::new` accepts each of `patterns`.
pub open spec fn all_compile(patterns: Seq<Seq<char>>) -> bool {
    forall|i: int| 0 <= i < patterns.len() ==> glob_compiles(#[trigger] patterns[i])
}

} // verus!

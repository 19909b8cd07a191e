//! The rules of one ignore file.
//!
//! Every line of the file that is neither empty nor a comment is a rule. A
//! rule that begins with `!` names paths to keep; any other rule names paths
//! to leave out. A path is excluded when a rule leaves it out and no rule
//! keeps it.
//!
//! The pattern of a rule is compiled as a glob, under more than one form
//! where paths may be written in more than one way: a pattern that begins
//! with `/` also without that separator, a pattern that begins with `.` also
//! behind `./`, and a pattern that ends with `/`, which names a directory,
//! also followed by `**`, which matches what lies below that directory.

use vstd::prelude::*;
use vstd::string::StringExecFns;
use crate::error::CunwError;
use crate::glob::{matches_any, retained, set_builds, PatternSet};
use crate::path;
use crate::error::CunwErrorKind;
use crate::text::{decode, from_chars, lines, split_lines, texts, to_chars, views};

verus! {

/// A line is a rule unless it is empty or a comment.
pub open spec fn is_rule(line: Seq<char>) -> bool {
    line.len() > 0 && line[0] != '#'
}

/// A rule that begins with `!` names paths to keep.
pub open spec fn is_negated(line: Seq<char>) -> bool {
    line.len() > 0 && line[0] == '!'
}

/// The line without the `!` marks it begins with.
pub open spec fn strip_negation(line: Seq<char>) -> Seq<char>
    decreases line.len(),
{
    if line.len() > 0 && line[0] == '!' {
        strip_negation(line.skip(1))
    } else {
        line
    }
}

/// The pattern that a rule stands for.
pub open spec fn rule_pattern(line: Seq<char>) -> Seq<char> {
    if is_negated(line) {
        strip_negation(line)
    } else {
        line
    }
}

/// The forms of a pattern by the way it begins: the pattern itself; for one
/// that begins with `/`, also the pattern without that separator; for one
/// that begins with `.`, also the pattern behind `./`.
pub open spec fn leading_forms(pattern: Seq<char>) -> Seq<Seq<char>> {
    if pattern.len() > 0 && pattern[0] == '/' {
        seq![pattern, pattern.skip(1)]
    } else if pattern.len() > 0 && pattern[0] == '.' {
        seq![pattern, seq!['.', '/'] + pattern]
    } else {
        seq![pattern]
    }
}

/// The forms of a pattern by the way it ends: the pattern itself; for one
/// that ends with `/`, also the pattern followed by `**`.
pub open spec fn directory_forms(form: Seq<char>) -> Seq<Seq<char>> {
    if form.len() > 0 && form.last() == '/' {
        seq![form, form + seq!['*', '*']]
    } else {
        seq![form]
    }
}

/// The given forms, each followed by its directory form if it has one.
pub open spec fn with_directory_forms(forms: Seq<Seq<char>>) -> Seq<Seq<char>>
    decreases forms.len(),
{
    if forms.len() == 0 {
        Seq::empty()
    } else {
        with_directory_forms(forms.drop_last()) + directory_forms(forms.last())
    }
}

/// All the forms under which a pattern is compiled.
pub open spec fn variants(pattern: Seq<char>) -> Seq<Seq<char>> {
    with_directory_forms(leading_forms(pattern))
}

/// The patterns, with their variants, of the rules among `lines` that keep
/// paths (`negated`) or that leave paths out (`!negated`), in file order.
pub open spec fn candidates(lines: Seq<Seq<char>>, negated: bool) -> Seq<Seq<char>>
    decreases lines.len(),
{
    if lines.len() == 0 {
        Seq::empty()
    } else if is_rule(lines.last()) && is_negated(lines.last()) == negated {
        candidates(lines.drop_last(), negated) + variants(rule_pattern(lines.last()))
    } else {
        candidates(lines.drop_last(), negated)
    }
}

/// The patterns that leave paths out, as compiled from the text of an ignore file.
pub open spec fn exclude_patterns(content: Seq<char>) -> Seq<Seq<char>> {
    retained(candidates(lines(content), false))
}

/// The patterns that keep paths, as compiled from the text of an ignore file.
pub open spec fn include_patterns(content: Seq<char>) -> Seq<Seq<char>> {
    retained(candidates(lines(content), true))
}

/// The directory whose entries an ignore file governs: `path` itself when it
/// is a directory, else the directory that holds it, or `/` when there is none.
pub open spec fn scope_root(path: Seq<char>, is_dir: bool) -> Seq<char> {
    if is_dir {
        path
    } else {
        match path::parent(path) {
            Some(dir) => dir,
            None => path::root_marker(),
        }
    }
}

/// The text that the patterns are matched against: an absolute path at or
/// below `root` is taken relative to `root`, any other path as it is.
pub open spec fn candidate_path(root: Seq<char>, path: Seq<char>) -> Seq<char> {
    if path::is_absolute(path) {
        match path::relative_to(path, root) {
            Some(rest) => rest,
            None => path,
        }
    } else {
        path
    }
}

/// The name of the ignore file of a directory.
pub open spec fn ignore_file_name() -> Seq<char> {
    ".gitignore"@
}

/// The path of the ignore file of the directory `dir`.
pub fn ignore_file_path(dir: &str) -> (file: String)
    ensures
        file@ == path::joined(dir@, ignore_file_name()),
{
    path::join(dir, ".gitignore")
}

/// The message of the error for an ignore file that is not valid text.
pub open spec fn invalid_text_message() -> Seq<char> {
    "stream did not contain valid UTF-8"@
}

/// The text of the ignore file at `path`, decoded from its bytes. Fails,
/// naming the file, when the bytes are not valid UTF-8.
pub fn read_text(path: &str, bytes: &Vec<u8>) -> (result: Result<String, CunwError>)
    ensures
        result is Ok <==> vstd::utf8::valid_utf8(bytes@),
        result matches Ok(text) ==> text@ == vstd::utf8::decode_utf8(bytes@),
        result matches Err(error) ==> {
            &&& error.source matches CunwErrorKind::Io(message)
            &&& message@ == invalid_text_message()
            &&& error.related_to_file matches Some(file)
            &&& file@ == path@
        },
{
    match decode(bytes) {
        Some(text) => Ok(text),
        None => Err(
            CunwError::new(
                CunwErrorKind::Io(String::from_str("stream did not contain valid UTF-8")),
            ).with_file(String::from_str(path)),
        ),
    }
}

/// The forms of `pattern` by the way it begins.
fn leading_forms_of(pattern: &Vec<char>) -> (forms: Vec<Vec<char>>)
    ensures
        views(forms@) == leading_forms(pattern@),
{
    let mut forms: Vec<Vec<char>> = Vec::new();
    let mut same: Vec<char> = Vec::new();
    crate::text::append_chars(&mut same, pattern);
    assert(same@ == pattern@);
    forms.push(same);
    if pattern.len() > 0 && pattern[0] == '/' {
        let mut rest: Vec<char> = Vec::new();
        let mut i: usize = 1;
        while i < pattern.len()
            invariant
                1 <= i <= pattern.len(),
                rest@ == pattern@.subrange(1, i as int),
            decreases pattern.len() - i,
        {
            rest.push(pattern[i]);
            i += 1;
            assert(pattern@.subrange(1, i as int) == pattern@.subrange(1, i - 1).push(
                pattern@[i - 1],
            ));
        }
        assert(pattern@.subrange(1, pattern.len() as int) == pattern@.skip(1));
        forms.push(rest);
        assert(views(forms@) == seq![pattern@, pattern@.skip(1)]);
    } else if pattern.len() > 0 && pattern[0] == '.' {
        let mut dotted: Vec<char> = Vec::new();
        dotted.push('.');
        dotted.push('/');
        crate::text::append_chars(&mut dotted, pattern);
        assert(dotted@ == seq!['.', '/'] + pattern@);
        forms.push(dotted);
        assert(views(forms@) == seq![pattern@, seq!['.', '/'] + pattern@]);
    } else {
        assert(views(forms@) == seq![pattern@]);
    }
    forms
}

/// Pushes the variants of `pattern` onto `out`.
fn push_variants(out: &mut Vec<String>, pattern: &Vec<char>)
    ensures
        texts(final(out)@) == texts(old(out)@) + variants(pattern@),
{
    let ghost start = texts(out@);
    let forms = leading_forms_of(pattern);
    let mut i: usize = 0;
    assert(views(forms@).take(0) == Seq::<Seq<char>>::empty());
    assert(start + Seq::<Seq<char>>::empty() == start);
    while i < forms.len()
        invariant
            i <= forms.len(),
            texts(out@) == start + with_directory_forms(views(forms@).take(i as int)),
        decreases forms.len() - i,
    {
        let form = &forms[i];
        let ghost seen = views(forms@).take(i + 1);
        assert(seen.drop_last() == views(forms@).take(i as int));
        assert(seen.last() == form@);
        let ghost before = texts(out@);
        out.push(from_chars(form));
        if form.len() > 0 && form[form.len() - 1] == '/' {
            let mut below: Vec<char> = Vec::new();
            crate::text::append_chars(&mut below, form);
            below.push('*');
            below.push('*');
            assert(below@ == form@ + seq!['*', '*']);
            out.push(from_chars(&below));
            assert(texts(out@) == before + seq![form@, form@ + seq!['*', '*']]);
        } else {
            assert(texts(out@) == before + seq![form@]);
        }
        assert(texts(out@) == start + with_directory_forms(seen)) by {
            assert(start + with_directory_forms(views(forms@).take(i as int)) + directory_forms(
                form@,
            ) == start + (with_directory_forms(views(forms@).take(i as int)) + directory_forms(
                form@,
            )));
        }
        i += 1;
    }
    assert(views(forms@).take(forms.len() as int) == views(forms@));
}

/// The pattern of a rule: the line without the `!` marks it begins with.
pub(crate) fn pattern_of(line: &Vec<char>) -> (pattern: Vec<char>)
    ensures
        pattern@ == rule_pattern(line@),
{
    let mut start: usize = 0;
    assert(line@.skip(0) == line@);
    while start < line.len() && line[start] == '!'
        invariant
            start <= line.len(),
            strip_negation(line@) == strip_negation(line@.skip(start as int)),
        decreases line.len() - start,
    {
        assert(line@.skip(start as int)[0] == '!');
        assert(line@.skip(start as int).skip(1) == line@.skip(start + 1));
        start += 1;
    }
    assert(strip_negation(line@) == line@.skip(start as int)) by {
        if start < line.len() {
            assert(line@.skip(start as int)[0] != '!');
        }
    }
    assert(rule_pattern(line@) == line@.skip(start as int)) by {
        if !is_negated(line@) {
            assert(start == 0);
            assert(line@.skip(0) == line@);
        }
    }
    let mut pattern: Vec<char> = Vec::new();
    let mut i: usize = start;
    while i < line.len()
        invariant
            start <= i <= line.len(),
            pattern@ == line@.subrange(start as int, i as int),
        decreases line.len() - i,
    {
        pattern.push(line[i]);
        i += 1;
        assert(line@.subrange(start as int, i as int) == line@.subrange(start as int, i - 1).push(
            line@[i - 1],
        ));
    }
    assert(line@.subrange(start as int, line.len() as int) == line@.skip(start as int));
    pattern
}

/// Collects the patterns of the rules among `lines` that keep paths
/// (`negated`) or that leave paths out.
fn collect_candidates(lines: &Vec<Vec<char>>, negated: bool) -> (out: Vec<String>)
    ensures
        texts(out@) == candidates(views(lines@), negated),
{
    let mut out: Vec<String> = Vec::new();
    let mut i: usize = 0;
    assert(texts(out@) == Seq::<Seq<char>>::empty());
    while i < lines.len()
        invariant
            i <= lines.len(),
            texts(out@) == candidates(views(lines@).take(i as int), negated),
        decreases lines.len() - i,
    {
        let line = &lines[i];
        let ghost seen = views(lines@).take(i + 1);
        assert(seen.drop_last() == views(lines@).take(i as int));
        assert(seen.last() == line@);
        let rule = line.len() > 0 && line[0] != '#';
        let keeps = line.len() > 0 && line[0] == '!';
        if rule && keeps == negated {
            let pattern = pattern_of(line);
            push_variants(&mut out, &pattern);
        }
        i += 1;
    }
    assert(views(lines@).take(lines.len() as int) == views(lines@));
    out
}

/// What the rules of an ignore file are made of, as plain values.
pub struct Rules {
    /// The path that the rules were read for: a directory, or the ignore file itself.
    pub source: Seq<char>,
    /// The directory whose entries the rules govern.
    pub root: Seq<char>,
    /// The patterns that leave paths out.
    pub excluded: Seq<Seq<char>>,
    /// The patterns that keep paths.
    pub included: Seq<Seq<char>>,
}

impl Rules {
    /// A path is excluded when it matches at least one pattern that leaves
    /// paths out, and no pattern that keeps them.
    pub open spec fn excludes(self, path: Seq<char>) -> bool {
        let candidate = candidate_path(self.root, path);
        matches_any(self.excluded, candidate) && !matches_any(self.included, candidate)
    }
}

/// A pattern that keeps a path always wins: whatever patterns leave the path
/// out, the rules do not exclude it.
pub proof fn lemma_kept_path_is_not_excluded(rules: Rules, path: Seq<char>)
    requires
        matches_any(rules.included, candidate_path(rules.root, path)),
    ensures
        !rules.excludes(path),
{
}

/// A path that no pattern keeps is excluded exactly when a pattern leaves it out.
pub proof fn lemma_unkept_path_follows_exclusions(rules: Rules, path: Seq<char>)
    requires
        !matches_any(rules.included, candidate_path(rules.root, path)),
    ensures
        rules.excludes(path) == matches_any(rules.excluded, candidate_path(rules.root, path)),
{
}

/// The rules that the text of an ignore file stands for.
pub open spec fn rules_of(path: Seq<char>, is_dir: bool, content: Seq<char>) -> Rules {
    Rules {
        source: path,
        root: scope_root(path, is_dir),
        excluded: exclude_patterns(content),
        included: include_patterns(content),
    }
}

/// Whether the matchers for the rules of an ignore file can be built.
pub open spec fn rules_build(content: Seq<char>) -> bool {
    set_builds(exclude_patterns(content)) && set_builds(include_patterns(content))
}

/// The rules of one ignore file, ready to be asked about paths.
#[derive(Debug)]
pub struct GitIgnore {
    path: String,
    root: String,
    excluding: PatternSet,
    including: PatternSet,
}

impl View for GitIgnore {
    type V = Rules;

    closed spec fn view(&self) -> Rules {
        Rules {
            source: self.path@,
            root: self.root@,
            excluded: self.excluding@,
            included: self.including@,
        }
    }
}

impl GitIgnore {
    /// Reads the rules of the ignore file found for `path`. `content` is the
    /// text of the file, or `None` when there is no such file; `is_dir` says
    /// whether `path` is the directory that holds the file rather than the
    /// file itself.
    pub fn from(path: &str, is_dir: bool, content: Option<&str>) -> (result: Result<
        Option<GitIgnore>,
        CunwError,
    >)
        ensures
            content is None ==> result matches Ok(None),
            content matches Some(text) ==> {
                &&& result is Ok <==> rules_build(text@)
                &&& result matches Ok(found) ==> {
                    &&& found matches Some(rules)
                    &&& rules@ == rules_of(path@, is_dir, text@)
                }
                &&& result matches Err(error) ==> {
                    &&& error.source is GitignoreBuild
                    &&& error.related_to_file matches Some(file)
                    &&& file@ == path@
                }
            },
    {
        let text = match content {
            Some(text) => text,
            None => {
                return Ok(None);
            },
        };
        let root = if is_dir {
            String::from_str(path)
        } else {
            match path::parent_of(path) {
                Some(dir) => dir,
                None => {
                    proof {
                        reveal_strlit("/");
                        assert("/"@ == path::root_marker());
                    }
                    String::from_str("/")
                },
            }
        };
        let chars = to_chars(text);
        let all_lines = split_lines(&chars);
        let excluding = match PatternSet::build_lenient(collect_candidates(&all_lines, false)) {
            Ok(set) => set,
            Err(error) => {
                return Err(error.with_file(String::from_str(path)));
            },
        };
        let including = match PatternSet::build_lenient(collect_candidates(&all_lines, true)) {
            Ok(set) => set,
            Err(error) => {
                return Err(error.with_file(String::from_str(path)));
            },
        };
        Ok(Some(GitIgnore { path: String::from_str(path), root, excluding, including }))
    }

    /// The path that the rules were read for.
    pub fn path(&self) -> (path: &str)
        ensures
            path@ == self@.source,
    {
        self.path.as_str()
    }

    /// Whether the rules exclude `path`.
    pub fn is_excluded(&self, path: &str) -> (excluded: bool)
        ensures
            excluded == self@.excludes(path@),
    {
        let relative = if path::is_absolute_path(path) {
            path::strip_prefix(path, self.root.as_str())
        } else {
            None
        };
        match relative {
            Some(rest) => {
                self.excluding.is_match(rest.as_str()) && !self.including.is_match(rest.as_str())
            },
            None => self.excluding.is_match(path) && !self.including.is_match(path),
        }
    }
}

impl PartialEq for GitIgnore {
    /// Two sets of rules are equal when they were read for the same place.
    fn eq(&self, other: &Self) -> (same: bool) {
        path::same(self.path.as_str(), other.path.as_str())
    }
}

impl vstd::std_specs::cmp::PartialEqSpecImpl for GitIgnore {
    open spec fn obeys_eq_spec() -> bool {
        true
    }

    open spec fn eq_spec(&self, other: &Self) -> bool {
        path::same_path(self@.source, other@.source)
    }
}

} // verus!

//! A walk that keeps or discards entries by two sets of patterns: those that
//! leave entries out, and those that keep files all the same.

use vstd::prelude::*;
use vstd::string::StringExecFns;
use crate::error::{CunwError, CunwErrorKind};
use crate::gitignore::{invalid_text_message, is_negated, is_rule, read_text, rule_pattern};
use crate::glob::{all_compile, compiles, matches_any, retained, set_builds, PatternSet};
use crate::path;
use crate::text::{from_chars, lines, split_lines, texts, to_chars, views};

verus! {

/// The patterns of the rules among `lines` that keep paths (`negated`) or
/// that leave paths out, in file order.
pub open spec fn rule_patterns(lines: Seq<Seq<char>>, negated: bool) -> Seq<Seq<char>>
    decreases lines.len(),
{
    if lines.len() == 0 {
        Seq::empty()
    } else if is_rule(lines.last()) && is_negated(lines.last()) == negated {
        rule_patterns(lines.drop_last(), negated).push(rule_pattern(lines.last()))
    } else {
        rule_patterns(lines.drop_last(), negated)
    }
}

/// The patterns of one ignore file.
pub struct IgnoreFile {
    /// The directory that the file applies in; `None` for a file that applies everywhere.
    pub applies_in: Option<String>,
    /// The patterns that leave paths out.
    pub exclude_patterns: Vec<String>,
    /// The patterns that keep paths.
    pub include_patterns: Vec<String>,
}

/// Collects the patterns of the rules among `lines` that keep paths
/// (`negated`) or that leave paths out.
fn collect_rules(lines: &Vec<Vec<char>>, negated: bool) -> (out: Vec<String>)
    ensures
        texts(out@) == rule_patterns(views(lines@), negated),
{
    let mut out: Vec<String> = Vec::new();
    let mut i: usize = 0;
    assert(texts(out@) == Seq::<Seq<char>>::empty());
    while i < lines.len()
        invariant
            i <= lines.len(),
            texts(out@) == rule_patterns(views(lines@).take(i as int), negated),
        decreases lines.len() - i,
    {
        let line = &lines[i];
        let ghost seen = views(lines@).take(i + 1);
        assert(seen.drop_last() == views(lines@).take(i as int));
        assert(seen.last() == line@);
        let rule = line.len() > 0 && line[0] != '#';
        let keeps = line.len() > 0 && line[0] == '!';
        if rule && keeps == negated {
            let pattern = crate::gitignore::pattern_of(line);
            let ghost before = texts(out@);
            out.push(from_chars(&pattern));
            assert(texts(out@) == before.push(pattern@));
        }
        i += 1;
    }
    assert(views(lines@).take(lines.len() as int) == views(lines@));
    out
}

impl IgnoreFile {
    /// Reads the patterns of the ignore file at `path` from its bytes. Fails
    /// when the bytes are not valid text.
    pub fn try_from(applies_in: Option<String>, path: &str, bytes: &Vec<u8>) -> (result: Result<
        IgnoreFile,
        CunwError,
    >)
        ensures
            result is Ok <==> vstd::utf8::valid_utf8(bytes@),
            result matches Ok(file) ==> {
                &&& file.applies_in == applies_in
                &&& texts(file.exclude_patterns@) == rule_patterns(
                    lines(vstd::utf8::decode_utf8(bytes@)),
                    false,
                )
                &&& texts(file.include_patterns@) == rule_patterns(
                    lines(vstd::utf8::decode_utf8(bytes@)),
                    true,
                )
            },
            result matches Err(error) ==> {
                &&& error.source matches CunwErrorKind::Io(message)
                &&& message@ == invalid_text_message()
                &&& error.related_to_file matches Some(file)
                &&& file@ == path@
            },
    {
        let content = read_text(path, bytes)?;
        let chars = to_chars(content.as_str());
        let all_lines = split_lines(&chars);
        let exclude_patterns = collect_rules(&all_lines, false);
        let include_patterns = collect_rules(&all_lines, true);
        Ok(IgnoreFile { applies_in, exclude_patterns, include_patterns })
    }
}

/// The patterns of the given ignore files that compile, file after file.
/// A file that could not be read brings none.
pub open spec fn gathered(
    files: Seq<Result<IgnoreFile, CunwError>>,
    negated: bool,
) -> Seq<Seq<char>>
    decreases files.len(),
{
    if files.len() == 0 {
        Seq::empty()
    } else {
        gathered(files.drop_last(), negated) + match files.last() {
            Ok(file) => retained(
                texts(
                    if negated {
                        file.include_patterns@
                    } else {
                        file.exclude_patterns@
                    },
                ),
            ),
            Err(_) => Seq::empty(),
        }
    }
}

/// The ignore files found for a walk, and the patterns gathered from them.
pub struct IgnoreFiles {
    /// The directory that the walk starts from.
    pub starting_path: String,
    /// The ignore files that were found, each read or failed.
    pub ignore_files: Vec<Result<IgnoreFile, CunwError>>,
    /// The patterns that leave paths out.
    pub exclude_patterns: Vec<String>,
    /// The patterns that keep paths.
    pub include_patterns: Vec<String>,
}

/// Appends to `out` those of `patterns` that compile.
fn push_retained(out: &mut Vec<String>, patterns: &Vec<String>)
    ensures
        texts(final(out)@) == texts(old(out)@) + retained(texts(patterns@)),
{
    let ghost start = texts(out@);
    let mut i: usize = 0;
    assert(texts(patterns@).take(0) == Seq::<Seq<char>>::empty());
    assert(start + Seq::<Seq<char>>::empty() == start);
    while i < patterns.len()
        invariant
            i <= patterns.len(),
            texts(out@) == start + retained(texts(patterns@).take(i as int)),
        decreases patterns.len() - i,
    {
        let ghost next = texts(patterns@).take(i + 1);
        assert(next.drop_last() == texts(patterns@).take(i as int));
        assert(next.last() == patterns@[i as int]@);
        if compiles(patterns[i].as_str()) {
            let ghost before = texts(out@);
            out.push(patterns[i].clone());
            assert(texts(out@) == before.push(patterns@[i as int]@));
            assert(texts(out@) == start + retained(next));
        }
        i += 1;
    }
    assert(texts(patterns@).take(patterns.len() as int) == texts(patterns@));
}

impl IgnoreFiles {
    /// Gathers the patterns of the ignore files found for a walk from
    /// `starting_path`: those that compile, of the files that were read.
    pub fn from(starting_path: String, ignore_files: Vec<Result<IgnoreFile, CunwError>>) -> (found:
        IgnoreFiles)
        ensures
            found.starting_path == starting_path,
            found.ignore_files == ignore_files,
            texts(found.exclude_patterns@) == gathered(ignore_files@, false),
            texts(found.include_patterns@) == gathered(ignore_files@, true),
    {
        let mut exclude_patterns: Vec<String> = Vec::new();
        let mut include_patterns: Vec<String> = Vec::new();
        let mut i: usize = 0;
        assert(texts(exclude_patterns@) == Seq::<Seq<char>>::empty());
        assert(texts(include_patterns@) == Seq::<Seq<char>>::empty());
        assert(ignore_files@.take(0) == Seq::<Result<IgnoreFile, CunwError>>::empty());
        while i < ignore_files.len()
            invariant
                i <= ignore_files.len(),
                texts(exclude_patterns@) == gathered(ignore_files@.take(i as int), false),
                texts(include_patterns@) == gathered(ignore_files@.take(i as int), true),
            decreases ignore_files.len() - i,
        {
            let ghost next = ignore_files@.take(i + 1);
            assert(next.drop_last() == ignore_files@.take(i as int));
            assert(next.last() == ignore_files@[i as int]);
            match &ignore_files[i] {
                Ok(file) => {
                    push_retained(&mut exclude_patterns, &file.exclude_patterns);
                    push_retained(&mut include_patterns, &file.include_patterns);
                },
                Err(_) => {
                    assert(texts(exclude_patterns@) + Seq::<Seq<char>>::empty() == texts(
                        exclude_patterns@,
                    ));
                    assert(texts(include_patterns@) + Seq::<Seq<char>>::empty() == texts(
                        include_patterns@,
                    ));
                },
            }
            i += 1;
        }
        assert(ignore_files@.take(ignore_files.len() as int) == ignore_files@);
        IgnoreFiles { starting_path, ignore_files, exclude_patterns, include_patterns }
    }
}

/// What becomes of an entry of the walk.
#[derive(Debug, Clone, Copy, PartialEq, Eq)]
pub enum ArgWalkerFilterEntryResult {
    /// The entry is kept.
    Keep,
    /// The entry is discarded.
    DiscardFile,
    /// The entry is discarded together with all that lies below it.
    DiscardDir,
}

/// What a walk by patterns was set up with, as plain values.
pub struct ArgWalkerModel {
    /// The directory that the walk starts from.
    pub starting_path: Seq<char>,
    /// The patterns that leave entries out, if there are any.
    pub excluded: Option<Seq<Seq<char>>>,
    /// The patterns that keep files, if there are any.
    pub included: Option<Seq<Seq<char>>>,
    /// How many levels below the start the walk goes.
    pub max_depth: usize,
    /// Whether the walk follows symbolic links.
    pub follow_symlinks: bool,
}

/// A walk that keeps or discards entries by patterns.
pub struct ArgWalker {
    starting_path: String,
    maybe_exclude_combiner: Option<PatternSet>,
    maybe_include_combiner: Option<PatternSet>,
    max_depth: usize,
    follow_symlinks: bool,
}

impl View for ArgWalker {
    type V = ArgWalkerModel;

    closed spec fn view(&self) -> ArgWalkerModel {
        ArgWalkerModel {
            starting_path: self.starting_path@,
            excluded: match self.maybe_exclude_combiner {
                Some(set) => Some(set@),
                None => None,
            },
            included: match self.maybe_include_combiner {
                Some(set) => Some(set@),
                None => None,
            },
            max_depth: self.max_depth,
            follow_symlinks: self.follow_symlinks,
        }
    }
}

/// The patterns given for a walk followed by those gathered from ignore files.
pub open spec fn combined(given: Option<Seq<Seq<char>>>, gathered: Option<Seq<Seq<char>>>) -> Seq<
    Seq<char>,
> {
    (match given {
        Some(patterns) => patterns,
        None => Seq::empty(),
    }) + (match gathered {
        Some(patterns) => patterns,
        None => Seq::empty(),
    })
}

/// Whether the given patterns can be made into a matcher: each compiles and
/// the set builds. No patterns need no matcher.
pub open spec fn combines(patterns: Seq<Seq<char>>) -> bool {
    patterns.len() == 0 || (all_compile(patterns) && set_builds(patterns))
}

/// The matcher for the given patterns: none where there is no pattern.
pub open spec fn combiner(patterns: Seq<Seq<char>>) -> Option<Seq<Seq<char>>> {
    if patterns.len() == 0 {
        None
    } else {
        Some(patterns)
    }
}

/// The path of an entry as the patterns see it: relative to the start, and,
/// for a directory of a walk from `.` whose path is written from the
/// current directory, behind a separator.
pub open spec fn relative_candidate(starting_path: Seq<char>, path: Seq<char>, is_dir: bool) -> Seq<
    char,
> {
    let relative = path::relative_to(path, starting_path)->0;
    if is_dir && path::path_starts_with(path, "./"@) && path::same_path(starting_path, "."@)
        && !path::is_absolute(relative) {
        seq!['/'] + relative
    } else {
        relative
    }
}

/// What becomes of an entry whose path, as the patterns see it, is
/// `candidate`. Where there are patterns that leave entries out: an entry
/// that none of them matches is kept; a file that one matches is discarded
/// unless a pattern keeps it; anything else that one matches is discarded
/// with all below it. Where there are none: an entry is kept unless there
/// are patterns that keep files and none of them matches it.
pub open spec fn filtered(walker: ArgWalkerModel, candidate: Seq<char>, is_file: bool)
    -> ArgWalkerFilterEntryResult {
    match walker.excluded {
        Some(excluded) => {
            if matches_any(excluded, candidate) {
                if is_file {
                    if walker.included matches Some(included) && matches_any(included, candidate) {
                        ArgWalkerFilterEntryResult::Keep
                    } else {
                        ArgWalkerFilterEntryResult::DiscardFile
                    }
                } else {
                    ArgWalkerFilterEntryResult::DiscardDir
                }
            } else {
                ArgWalkerFilterEntryResult::Keep
            }
        },
        None => {
            if walker.included matches Some(included) && !matches_any(included, candidate) {
                ArgWalkerFilterEntryResult::DiscardFile
            } else {
                ArgWalkerFilterEntryResult::Keep
            }
        },
    }
}

/// An entry as the enumeration of a directory yielded it.
pub struct SeenEntry {
    /// The path of the entry.
    pub path: String,
    /// Whether the entry is a directory.
    pub is_dir: bool,
    /// Whether the entry is a regular file.
    pub is_file: bool,
}

/// An entry of an enumeration, as plain values.
pub struct SeenModel {
    pub path: Seq<char>,
    pub is_dir: bool,
    pub is_file: bool,
}

impl View for SeenEntry {
    type V = SeenModel;

    open spec fn view(&self) -> SeenModel {
        SeenModel { path: self.path@, is_dir: self.is_dir, is_file: self.is_file }
    }
}

/// The plain values of the given entries.
pub open spec fn seen_models(entries: Seq<SeenEntry>) -> Seq<SeenModel> {
    Seq::new(entries.len(), |i: int| entries[i]@)
}

/// How far a walk over recorded entries has come.
pub struct Sprint {
    /// The paths of the entries kept so far.
    pub kept: Seq<Seq<char>>,
    /// The directory that was last discarded, while the entries below it last.
    pub pruned: Option<Seq<char>>,
}

/// The walk after one more entry. An entry at or below the directory that
/// was just discarded is passed over. Any other entry is kept or discarded
/// as the patterns say; a directory that is discarded with all below it
/// becomes the directory whose entries are passed over.
pub open spec fn after_seen(walker: ArgWalkerModel, sprint: Sprint, entry: SeenModel) -> Sprint {
    if sprint.pruned matches Some(dir) && path::path_starts_with(entry.path, dir) {
        sprint
    } else {
        match filtered(
            walker,
            relative_candidate(walker.starting_path, entry.path, entry.is_dir),
            entry.is_file,
        ) {
            ArgWalkerFilterEntryResult::Keep => Sprint {
                kept: sprint.kept.push(entry.path),
                pruned: None,
            },
            ArgWalkerFilterEntryResult::DiscardFile => Sprint { kept: sprint.kept, pruned: None },
            ArgWalkerFilterEntryResult::DiscardDir => Sprint {
                kept: sprint.kept,
                pruned: if entry.is_dir {
                    Some(entry.path)
                } else {
                    None
                },
            },
        }
    }
}

/// The walk after the given entries.
pub open spec fn sprinted(walker: ArgWalkerModel, entries: Seq<SeenModel>) -> Sprint
    decreases entries.len(),
{
    if entries.len() == 0 {
        Sprint { kept: Seq::empty(), pruned: None }
    } else {
        after_seen(walker, sprinted(walker, entries.drop_last()), entries.last())
    }
}

/// Whether every one of `entries` lies at or below `starting_path`.
pub open spec fn all_within(entries: Seq<SeenEntry>, starting_path: Seq<char>) -> bool {
    forall|i: int|
        0 <= i < entries.len() ==> path::path_starts_with(
            (#[trigger] entries[i]).path@,
            starting_path,
        )
}

/// Joins the patterns given for a walk with those gathered from ignore files.
fn combine(given: Option<Vec<String>>, gathered: Option<&Vec<String>>) -> (all: Vec<String>)
    ensures
        texts(all@) == combined(
            match given {
                Some(patterns) => Some(texts(patterns@)),
                None => None,
            },
            match gathered {
                Some(patterns) => Some(texts(patterns@)),
                None => None,
            },
        ),
{
    let mut all: Vec<String> = match given {
        Some(patterns) => patterns,
        None => Vec::new(),
    };
    let ghost start = texts(all@);
    assert(given is None ==> start == Seq::<Seq<char>>::empty());
    match gathered {
        Some(patterns) => {
            let mut i: usize = 0;
            assert(start + texts(patterns@).take(0) == start);
            while i < patterns.len()
                invariant
                    i <= patterns.len(),
                    texts(all@) == start + texts(patterns@).take(i as int),
                decreases patterns.len() - i,
            {
                let ghost before = texts(all@);
                all.push(patterns[i].clone());
                assert(texts(all@) == before.push(patterns@[i as int]@));
                assert(texts(patterns@).take(i + 1) == texts(patterns@).take(i as int).push(
                    patterns@[i as int]@,
                ));
                i += 1;
            }
            assert(texts(patterns@).take(patterns.len() as int) == texts(patterns@));
        },
        None => {
            assert(start + Seq::<Seq<char>>::empty() == start);
        },
    }
    all
}

/// The matcher for the given patterns, if there are any.
fn build_combiner(patterns: Vec<String>) -> (result: Result<Option<PatternSet>, CunwError>)
    ensures
        result is Ok <==> combines(texts(patterns@)),
        result matches Ok(found) ==> (match found {
            Some(set) => Some(set@),
            None => None,
        }) == combiner(texts(patterns@)),
        result matches Err(error) ==> error.source is GitignoreBuild
            && error.related_to_file is None,
{
    if patterns.len() == 0 {
        assert(texts(patterns@).len() == 0);
        Ok(None)
    } else {
        assert(texts(patterns@).len() > 0);
        match PatternSet::build(patterns) {
            Ok(set) => Ok(Some(set)),
            Err(error) => Err(error),
        }
    }
}

impl ArgWalker {
    /// Sets up a walk from `starting_path`. The patterns given come first,
    /// then those gathered from ignore files, if these are considered. Fails
    /// when a pattern does not compile or a matcher cannot be built.
    pub fn try_from(
        starting_path: String,
        ignore_files: Option<IgnoreFiles>,
        exclude_patterns: Option<Vec<String>>,
        include_patterns: Option<Vec<String>>,
        max_depth: Option<usize>,
        follow_symlinks: bool,
    ) -> (result: Result<ArgWalker, CunwError>)
        ensures
            ({
                let excluded = combined(
                    match exclude_patterns {
                        Some(patterns) => Some(texts(patterns@)),
                        None => None,
                    },
                    match ignore_files {
                        Some(files) => Some(texts(files.exclude_patterns@)),
                        None => None,
                    },
                );
                let included = combined(
                    match include_patterns {
                        Some(patterns) => Some(texts(patterns@)),
                        None => None,
                    },
                    match ignore_files {
                        Some(files) => Some(texts(files.include_patterns@)),
                        None => None,
                    },
                );
                &&& result is Ok <==> combines(included) && combines(excluded)
                &&& result matches Ok(walker) ==> walker@ == (ArgWalkerModel {
                    starting_path: starting_path@,
                    excluded: combiner(excluded),
                    included: combiner(included),
                    max_depth: match max_depth {
                        Some(depth) => depth,
                        None => usize::MAX,
                    },
                    follow_symlinks,
                })
                &&& result matches Err(error) ==> error.source is GitignoreBuild
                    && error.related_to_file is None
            }),
    {
        let max_depth = match max_depth {
            Some(depth) => depth,
            None => usize::MAX,
        };
        let (gathered_exclude, gathered_include) = match &ignore_files {
            Some(files) => (Some(&files.exclude_patterns), Some(&files.include_patterns)),
            None => (None, None),
        };
        let include_all = combine(include_patterns, gathered_include);
        let exclude_all = combine(exclude_patterns, gathered_exclude);
        let maybe_include_combiner = build_combiner(include_all)?;
        let maybe_exclude_combiner = build_combiner(exclude_all)?;
        Ok(
            ArgWalker {
                starting_path,
                maybe_exclude_combiner,
                maybe_include_combiner,
                max_depth,
                follow_symlinks,
            },
        )
    }

    /// How many levels below the start the walk goes.
    pub fn max_depth(&self) -> (depth: usize)
        ensures
            depth == self@.max_depth,
    {
        self.max_depth
    }

    /// Whether the walk follows symbolic links.
    pub fn follow_symlinks(&self) -> (follows: bool)
        ensures
            follows == self@.follow_symlinks,
    {
        self.follow_symlinks
    }

    /// The directory that the walk starts from.
    pub fn starting_path(&self) -> (path: &str)
        ensures
            path@ == self@.starting_path,
    {
        self.starting_path.as_str()
    }

    /// The path of an entry at or below the start as the patterns see it.
    pub fn path_as_relative(&self, path: &str, is_dir: bool) -> (relative: String)
        requires
            path::path_starts_with(path@, self@.starting_path),
        ensures
            relative@ == relative_candidate(self@.starting_path, path@, is_dir),
    {
        let start_with_dotslash = path::starts_with(path, "./");
        let root_is_dot = path::same(self.starting_path.as_str(), ".");
        let relative = match path::strip_prefix(path, self.starting_path.as_str()) {
            Some(relative) => relative,
            None => String::new(),
        };
        if is_dir && start_with_dotslash && root_is_dot && !path::is_absolute_path(
            relative.as_str(),
        ) {
            proof {
                reveal_strlit("/");
            }
            let text = String::from_str("/").concat(relative.as_str());
            assert(text@ =~= seq!['/'] + relative@);
            text
        } else {
            relative
        }
    }

    /// Decides what becomes of an entry at or below the start.
    pub fn filter_entry(&self, path: &str, is_dir: bool, is_file: bool) -> (result:
        ArgWalkerFilterEntryResult)
        requires
            path::path_starts_with(path@, self@.starting_path),
        ensures
            result == filtered(
                self@,
                relative_candidate(self@.starting_path, path@, is_dir),
                is_file,
            ),
    {
        let relative = self.path_as_relative(path, is_dir);
        let candidate = relative.as_str();
        match &self.maybe_exclude_combiner {
            Some(excluded) => {
                if excluded.is_match(candidate) {
                    if is_file {
                        match &self.maybe_include_combiner {
                            Some(included) => {
                                if included.is_match(candidate) {
                                    return ArgWalkerFilterEntryResult::Keep;
                                }
                            },
                            None => {},
                        }
                        return ArgWalkerFilterEntryResult::DiscardFile;
                    }
                    return ArgWalkerFilterEntryResult::DiscardDir;
                }
                ArgWalkerFilterEntryResult::Keep
            },
            None => {
                match &self.maybe_include_combiner {
                    Some(included) => {
                        if !included.is_match(candidate) {
                            return ArgWalkerFilterEntryResult::DiscardFile;
                        }
                    },
                    None => {},
                }
                ArgWalkerFilterEntryResult::Keep
            },
        }
    }

    /// Walks over a recorded enumeration and returns the paths of the entries
    /// that are kept, in order.
    pub fn try_sprint(&self, entries: &Vec<SeenEntry>) -> (kept: Vec<String>)
        requires
            all_within(entries@, self@.starting_path),
        ensures
            texts(kept@) == sprinted(self@, seen_models(entries@)).kept,
    {
        let ghost all = seen_models(entries@);
        let mut kept: Vec<String> = Vec::new();
        let mut pruned: Option<String> = None;
        let mut i: usize = 0;
        assert(texts(kept@) == Seq::<Seq<char>>::empty());
        assert(all.take(0) == Seq::<SeenModel>::empty());
        while i < entries.len()
            invariant
                i <= entries.len(),
                all == seen_models(entries@),
                all_within(entries@, self@.starting_path),
                sprinted(self@, all.take(i as int)) == (Sprint {
                    kept: texts(kept@),
                    pruned: match pruned {
                        Some(dir) => Some(dir@),
                        None => None,
                    },
                }),
            decreases entries.len() - i,
        {
            let entry = &entries[i];
            assert(all.take(i + 1).drop_last() == all.take(i as int));
            assert(all.take(i + 1).last() == entry@);
            let below_pruned = match &pruned {
                Some(dir) => path::starts_with(entry.path.as_str(), dir.as_str()),
                None => false,
            };
            if !below_pruned {
                match self.filter_entry(entry.path.as_str(), entry.is_dir, entry.is_file) {
                    ArgWalkerFilterEntryResult::Keep => {
                        let ghost before = texts(kept@);
                        kept.push(entry.path.clone());
                        assert(texts(kept@) == before.push(entry.path@));
                        pruned = None;
                    },
                    ArgWalkerFilterEntryResult::DiscardFile => {
                        pruned = None;
                    },
                    ArgWalkerFilterEntryResult::DiscardDir => {
                        pruned = if entry.is_dir {
                            Some(entry.path.clone())
                        } else {
                            None
                        };
                    },
                }
            }
            i += 1;
        }
        assert(all.take(entries.len() as int) == all);
        kept
    }
}

} // verus!

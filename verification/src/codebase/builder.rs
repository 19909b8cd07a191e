//! The settings of a build, and the build over a recorded enumeration.

use vstd::prelude::*;
use crate::codebase::item::ItemModel;
use crate::codebase::walker::{
    all_name_leaves, attached, failed_paths, left_out, needs_rules, load_failure_message, load_models, no_parent_message,
    placed, rehome_target, rehomed, rules_text, settled,
    EntryKind, LoadModel, Loaded, WalkAction, WalkConfig, Walker,
};
use crate::codebase::Codebase;
use crate::error::{CunwError, CunwErrorKind};
use crate::gitignore::{
    ignore_file_name, ignore_file_path, invalid_text_message, read_text, rules_build,
};
use crate::glob::PatternSet;
use crate::path;
use crate::tree::{
    dirs_differ, fresh_node, lemma_nearest_has_the_dir, paths_nest, well_formed, NodeModel,
};

verus! {

/// An entry as the enumeration of a directory yielded it, with what reading
/// the disk would give for it.
pub struct RecordedEntry {
    /// The path of the entry.
    pub path: String,
    /// What the entry is.
    pub kind: EntryKind,
    /// The bytes of the ignore file of the directory that the entry lies in,
    /// or `None` where that directory has no such file.
    pub ignore_file: Option<Vec<u8>>,
    /// For a file, its bytes, or why they could not be read.
    pub content: Result<Vec<u8>, String>,
}

/// What the enumeration of a directory yielded at one step.
pub enum WalkEvent {
    /// An entry.
    Entry(RecordedEntry),
    /// An error in place of an entry, with its message. It is passed over.
    Failed(String),
}

/// An entry of a recorded enumeration, as plain values.
pub struct EntryModel {
    pub path: Seq<char>,
    pub kind: EntryKind,
    pub ignore_file: Option<Seq<u8>>,
    pub content: Result<Seq<u8>, Seq<char>>,
}

/// A step of a recorded enumeration, as plain values.
pub enum EventModel {
    Entry(EntryModel),
    Failed,
}

impl View for RecordedEntry {
    type V = EntryModel;

    open spec fn view(&self) -> EntryModel {
        EntryModel {
            path: self.path@,
            kind: self.kind,
            ignore_file: match self.ignore_file {
                Some(bytes) => Some(bytes@),
                None => None,
            },
            content: match self.content {
                Ok(bytes) => Ok(bytes@),
                Err(reason) => Err(reason@),
            },
        }
    }
}

impl View for WalkEvent {
    type V = EventModel;

    open spec fn view(&self) -> EventModel {
        match self {
            WalkEvent::Entry(entry) => EventModel::Entry(entry@),
            WalkEvent::Failed(_) => EventModel::Failed,
        }
    }
}

/// The plain values of the given events.
pub open spec fn event_models(events: Seq<WalkEvent>) -> Seq<EventModel> {
    Seq::new(events.len(), |i: int| events[i]@)
}

/// How far a walk over a recorded enumeration has come.
pub struct Progress {
    /// The tree built so far.
    pub nodes: Seq<NodeModel<ItemModel>>,
    /// The directory that the next entry is expected to lie in.
    pub position: usize,
    /// The directory that was last pruned, while the entries below it last.
    pub pruned: Option<Seq<char>>,
    /// The loads of the files added so far.
    pub loads: Seq<LoadModel>,
}

/// Why building a codebase fails.
pub enum WalkFailure {
    /// The entry with this path has no place in the tree.
    NoParent(Seq<char>),
    /// The ignore file with this path is not valid text.
    IgnoreFile(Seq<char>),
    /// The rules of the ignore file of this directory cannot be built.
    Rules(Seq<char>),
    /// The files with these paths could not be loaded.
    Loads(Seq<Seq<char>>),
}

/// Whether `error` is the error that reports `failure`.
pub open spec fn reports(error: CunwError, failure: WalkFailure) -> bool {
    match failure {
        WalkFailure::NoParent(path) => {
            &&& error.source matches CunwErrorKind::CodebaseBuild(message)
            &&& message@ == no_parent_message(path)
            &&& error.related_to_file is None
        },
        WalkFailure::IgnoreFile(file) => {
            &&& error.source matches CunwErrorKind::Io(message)
            &&& message@ == invalid_text_message()
            &&& error.related_to_file matches Some(named)
            &&& named@ == file
        },
        WalkFailure::Rules(dir) => {
            &&& error.source is GitignoreBuild
            &&& error.related_to_file matches Some(file)
            &&& file@ == dir
        },
        WalkFailure::Loads(paths) => {
            &&& error.source matches CunwErrorKind::CodebaseBuild(message)
            &&& message@ == load_failure_message(paths)
            &&& error.related_to_file matches Some(file)
            &&& file@ == paths[0]
        },
    }
}

/// Whether the ignore file handed in with an entry is to be read for the
/// directory at `position` and is not valid text.
pub open spec fn unreadable_rules(
    config: WalkConfig,
    nodes: Seq<NodeModel<ItemModel>>,
    position: usize,
    entry: EntryModel,
) -> bool {
    needs_rules(config, nodes, position) && (entry.ignore_file matches Some(bytes)
        && !vstd::utf8::valid_utf8(bytes))
}

/// The text of the ignore file that is taken into account for an entry at
/// `position`: the one handed in with the entry, decoded, where the
/// directory at the position still needs its rules.
pub open spec fn entry_rules(
    config: WalkConfig,
    nodes: Seq<NodeModel<ItemModel>>,
    position: usize,
    entry: EntryModel,
) -> Option<Seq<char>> {
    rules_text(
        config,
        nodes,
        position,
        match entry.ignore_file {
            Some(bytes) => Some(vstd::utf8::decode_utf8(bytes)),
            None => None,
        },
    )
}

/// The walk before its first entry.
pub open spec fn initial(config: WalkConfig) -> Progress {
    Progress {
        nodes: seq![fresh_node::<ItemModel>(config.root, None)],
        position: 0,
        pruned: None,
        loads: Seq::empty(),
    }
}

/// The walk after one more entry, or why the walk fails at it. An entry at
/// or below the directory that was just pruned is passed over, as an
/// enumeration that was told to prune would not yield it. Any other entry is
/// located, the ignore file of its directory is taken in if it is still to
/// be read, and the entry is placed.
pub open spec fn after_entry(config: WalkConfig, progress: Progress, entry: EntryModel) -> Result<
    Progress,
    WalkFailure,
> {
    if progress.pruned matches Some(dir) && path::path_starts_with(entry.path, dir) {
        Ok(progress)
    } else {
        match rehomed(progress.nodes, progress.position, entry.path) {
            None => Err(WalkFailure::NoParent(entry.path)),
            Some(position) => {
                let text = entry_rules(config, progress.nodes, position, entry);
                if unreadable_rules(config, progress.nodes, position, entry) {
                    Err(
                        WalkFailure::IgnoreFile(
                            path::joined(progress.nodes[position as int].dir, ignore_file_name()),
                        ),
                    )
                } else if text matches Some(rules) && !rules_build(rules) {
                    Err(WalkFailure::Rules(progress.nodes[position as int].dir))
                } else {
                    let (nodes, next, action) = placed(
                        config,
                        attached(progress.nodes, position, text),
                        position,
                        entry.path,
                        entry.kind,
                    );
                    Ok(
                        Progress {
                            nodes,
                            position: next,
                            pruned: if action is Prune {
                                Some(entry.path)
                            } else {
                                None
                            },
                            loads: match action {
                                WalkAction::Load { node, index } => progress.loads.push(
                                    LoadModel { node, index, outcome: entry.content },
                                ),
                                _ => progress.loads,
                            },
                        },
                    )
                }
            },
        }
    }
}

/// The walk after one more event. An error of the enumeration changes nothing.
pub open spec fn after_event(config: WalkConfig, progress: Progress, event: EventModel) -> Result<
    Progress,
    WalkFailure,
> {
    match event {
        EventModel::Entry(entry) => after_entry(config, progress, entry),
        EventModel::Failed => Ok(progress),
    }
}

/// The walk that stands at `start`, after the given events, or why it fails
/// at the first event at which it does.
pub open spec fn walked_from(config: WalkConfig, start: Progress, events: Seq<EventModel>) -> Result<
    Progress,
    WalkFailure,
>
    decreases events.len(),
{
    if events.len() == 0 {
        Ok(start)
    } else {
        match walked_from(config, start, events.drop_last()) {
            Ok(progress) => after_event(config, progress, events.last()),
            Err(failure) => Err(failure),
        }
    }
}

/// The walk after the given events, or why it fails.
pub open spec fn walked(config: WalkConfig, events: Seq<EventModel>) -> Result<
    Progress,
    WalkFailure,
> {
    walked_from(config, initial(config), events)
}

/// Whether `result` is what building from the given events gives: the
/// codebase that they build, or the error that reports why they build none.
pub open spec fn is_build_of(
    result: Result<Codebase, CunwError>,
    config: WalkConfig,
    events: Seq<EventModel>,
) -> bool {
    match result {
        Ok(codebase) => codebase.wf() && built(config, events) == Ok::<
            Seq<NodeModel<ItemModel>>,
            WalkFailure,
        >(codebase@),
        Err(error) => built(config, events) matches Err(failure) && reports(error, failure),
    }
}

/// The codebase that the given events build: the tree after the walk, with
/// the texts of its files taken in. Building fails where the walk fails, or
/// where a file that was added could not be loaded.
pub open spec fn built(config: WalkConfig, events: Seq<EventModel>) -> Result<
    Seq<NodeModel<ItemModel>>,
    WalkFailure,
> {
    match walked(config, events) {
        Ok(progress) => if failed_paths(progress.nodes, progress.loads).len() == 0 {
            Ok(settled(progress.nodes, progress.loads))
        } else {
            Err(WalkFailure::Loads(failed_paths(progress.nodes, progress.loads)))
        },
        Err(failure) => Err(failure),
    }
}

/// Placing an entry leaves every file that was in the tree at its place, and
/// the file that it adds is a file of the tree.
proof fn lemma_step_keeps_leaves(
    config: WalkConfig,
    nodes: Seq<NodeModel<ItemModel>>,
    position: usize,
    text: Option<Seq<char>>,
    path: Seq<char>,
    kind: EntryKind,
    loads: Seq<LoadModel>,
)
    requires
        well_formed(nodes),
        position < nodes.len(),
        all_name_leaves(nodes, loads),
    ensures
        all_name_leaves(placed(config, attached(nodes, position, text), position, path, kind).0, loads),
        placed(config, attached(nodes, position, text), position, path, kind).2 matches WalkAction::Load {
            node,
            index,
        } ==> (LoadModel { node, index, outcome: Err(Seq::empty()) }).names_leaf(
            placed(config, attached(nodes, position, text), position, path, kind).0,
        ),
{
    let mid = attached(nodes, position, text);
    let after = placed(config, mid, position, path, kind).0;
    assert forall|k: int| 0 <= k < loads.len() implies (#[trigger] loads[k]).names_leaf(after) by {
        assert(loads[k].names_leaf(nodes));
        assert(mid[loads[k].node as int].leaves == nodes[loads[k].node as int].leaves);
    }
}

/// Copies the given bytes.
fn copy_bytes(bytes: &Vec<u8>) -> (copy: Vec<u8>)
    ensures
        copy@ == bytes@,
{
    let mut copy: Vec<u8> = Vec::new();
    let mut i: usize = 0;
    while i < bytes.len()
        invariant
            i <= bytes.len(),
            copy@ == bytes@.take(i as int),
        decreases bytes.len() - i,
    {
        copy.push(bytes[i]);
        i += 1;
        assert(bytes@.take(i as int) == bytes@.take(i - 1).push(bytes@[i - 1]));
    }
    assert(bytes@.take(bytes.len() as int) == bytes@);
    copy
}

/// The settings of a build.
pub struct CodebaseBuilder {
    excluded_paths: Option<PatternSet>,
    consider_gitignores: Option<bool>,
    max_depth: Option<usize>,
    follow_symlinks: Option<bool>,
    skip_hidden_on_windows: Option<bool>,
}

/// The settings of a build, as plain values.
pub struct Settings {
    /// The patterns of the entries to leave out, if any were given.
    pub excluded_paths: Option<Seq<Seq<char>>>,
    /// Whether ignore files are honoured, if that was said.
    pub consider_gitignores: Option<bool>,
    /// How many levels below the root the enumeration goes, if it is limited.
    pub max_depth: Option<usize>,
    /// Whether the enumeration follows symbolic links, if that was said.
    pub follow_symlinks: Option<bool>,
    /// Whether hidden entries are passed over where the system marks them, if that was said.
    pub skip_hidden_on_windows: Option<bool>,
}

impl Settings {
    /// What a walk with these settings from `root` is set up with. Ignore
    /// files are honoured only where that was asked for.
    pub open spec fn walk_config(self, root: Seq<char>) -> WalkConfig {
        WalkConfig {
            root,
            honor_ignore_files: self.consider_gitignores == Some(true),
            excluded: self.excluded_paths,
        }
    }
}

impl View for CodebaseBuilder {
    type V = Settings;

    closed spec fn view(&self) -> Settings {
        Settings {
            excluded_paths: match self.excluded_paths {
                Some(set) => Some(set@),
                None => None,
            },
            consider_gitignores: self.consider_gitignores,
            max_depth: self.max_depth,
            follow_symlinks: self.follow_symlinks,
            skip_hidden_on_windows: self.skip_hidden_on_windows,
        }
    }
}

impl CodebaseBuilder {
    /// Settings in which nothing is said yet.
    pub fn new() -> (builder: Self)
        ensures
            builder@ == (Settings {
                excluded_paths: None,
                consider_gitignores: None,
                max_depth: None,
                follow_symlinks: None,
                skip_hidden_on_windows: None,
            }),
    {
        Self {
            excluded_paths: None,
            consider_gitignores: None,
            max_depth: None,
            follow_symlinks: None,
            skip_hidden_on_windows: None,
        }
    }

    /// Leaves out the entries that a pattern of `excluded_paths` matches.
    pub fn excluded_paths(self, excluded_paths: PatternSet) -> (builder: Self)
        ensures
            builder@ == (Settings { excluded_paths: Some(excluded_paths@), ..self@ }),
    {
        let mut builder = self;
        builder.excluded_paths = Some(excluded_paths);
        builder
    }

    /// Says whether ignore files are honoured.
    pub fn consider_gitignores(self, consider_gitignores: bool) -> (builder: Self)
        ensures
            builder@ == (Settings { consider_gitignores: Some(consider_gitignores), ..self@ }),
    {
        let mut builder = self;
        builder.consider_gitignores = Some(consider_gitignores);
        builder
    }

    /// Limits how many levels below the root the enumeration goes.
    pub fn max_depth(self, max_depth: usize) -> (builder: Self)
        ensures
            builder@ == (Settings { max_depth: Some(max_depth), ..self@ }),
    {
        let mut builder = self;
        builder.max_depth = Some(max_depth);
        builder
    }

    /// Says whether the enumeration follows symbolic links.
    pub fn follow_symlinks(self, follow_symlinks: bool) -> (builder: Self)
        ensures
            builder@ == (Settings { follow_symlinks: Some(follow_symlinks), ..self@ }),
    {
        let mut builder = self;
        builder.follow_symlinks = Some(follow_symlinks);
        builder
    }

    /// Says whether hidden entries are passed over where the system marks them.
    pub fn skip_hidden_on_windows(self, skip_hidden_on_windows: bool) -> (builder: Self)
        ensures
            builder@ == (Settings {
                skip_hidden_on_windows: Some(skip_hidden_on_windows),
                ..self@
            }),
    {
        let mut builder = self;
        builder.skip_hidden_on_windows = Some(skip_hidden_on_windows);
        builder
    }

    /// How many levels below the root the enumeration goes, if it is limited.
    pub fn depth_limit(&self) -> (limit: Option<usize>)
        ensures
            limit == self@.max_depth,
    {
        self.max_depth
    }

    /// Whether the enumeration follows symbolic links. It does not unless that was asked for.
    pub fn follows_symlinks(&self) -> (follows: bool)
        ensures
            follows == (self@.follow_symlinks == Some(true)),
    {
        match self.follow_symlinks {
            Some(follows) => follows,
            None => false,
        }
    }

    /// Whether hidden entries are passed over where the system marks them.
    /// They are unless that was declined.
    pub fn skips_hidden(&self) -> (skips: bool)
        ensures
            skips == (self@.skip_hidden_on_windows != Some(false)),
    {
        match self.skip_hidden_on_windows {
            Some(skips) => skips,
            None => true,
        }
    }

    /// Begins a walk from the directory `from`.
    pub fn start(self, from: String) -> (walker: Walker)
        ensures
            walker.wf(),
            walker.config() == self@.walk_config(from@),
            walker.nodes() == initial(self@.walk_config(from@)).nodes,
            walker.position() == 0,
    {
        let honor = match self.consider_gitignores {
            Some(honor) => honor,
            None => false,
        };
        Walker::new(from, honor, self.excluded_paths)
    }

    /// Builds the codebase of the directory `from` out of a recorded
    /// enumeration of it. Fails where the walk fails at an entry, or where a
    /// file that was added could not be loaded.
    pub fn build(self, from: String, events: &Vec<WalkEvent>) -> (result: Result<
        Codebase,
        CunwError,
    >)
        ensures
            is_build_of(result, self@.walk_config(from@), event_models(events@)),
    {
        let ghost config = self@.walk_config(from@);
        let ghost all = event_models(events@);
        let mut walker = self.start(from);
        let mut loads: Vec<Loaded> = Vec::new();
        let mut pruned: Option<String> = None;
        let mut i: usize = 0;
        assert(all.take(0) == Seq::<EventModel>::empty());
        assert(load_models(loads@) == Seq::<LoadModel>::empty());
        while i < events.len()
            invariant
                i <= events.len(),
                all == event_models(events@),
                config == self@.walk_config(from@),
                walker.wf(),
                walker.config() == config,
                all_name_leaves(walker.nodes(), load_models(loads@)),
                walked(config, all.take(i as int)) == Ok::<Progress, WalkFailure>(
                    Progress {
                        nodes: walker.nodes(),
                        position: walker.position(),
                        pruned: match pruned {
                            Some(dir) => Some(dir@),
                            None => None,
                        },
                        loads: load_models(loads@),
                    },
                ),
            decreases events.len() - i,
        {
            assert(all.take(i + 1).drop_last() == all.take(i as int));
            assert(all.take(i + 1).last() == events@[i as int]@);
            match &events[i] {
                WalkEvent::Failed(_) => {},
                WalkEvent::Entry(entry) => {
                    let below_pruned = match &pruned {
                        Some(dir) => path::starts_with(entry.path.as_str(), dir.as_str()),
                        None => false,
                    };
                    if !below_pruned {
                        let ghost before = walker.nodes();
                        let ghost known = load_models(loads@);
                        let probe = match walker.locate(entry.path.as_str()) {
                            Ok(probe) => probe,
                            Err(error) => {
                                proof {
                                    let failure = after_entry(
                                        config,
                                        walked(config, all.take(i as int))->Ok_0,
                                        entry@,
                                    );
                                    assert(failure is Err);
                                    assert(reports(error, failure->Err_0));
                                    assert(walked(config, all.take(i + 1)) == failure);
                                    lemma_walk_fails_for_good(config, all, i + 1);
                                }
                                return Err(error);
                            },
                        };
                        let decoded = match (&probe, &entry.ignore_file) {
                            (Some(dir), Some(bytes)) => {
                                let file = ignore_file_path(dir.as_str());
                                match read_text(file.as_str(), bytes) {
                                    Ok(text) => Some(text),
                                    Err(error) => {
                                        proof {
                                            let failure = after_entry(
                                                config,
                                                walked(config, all.take(i as int))->Ok_0,
                                                entry@,
                                            );
                                            assert(failure is Err);
                                            assert(reports(error, failure->Err_0));
                                            assert(walked(config, all.take(i + 1)) == failure);
                                            lemma_walk_fails_for_good(config, all, i + 1);
                                        }
                                        return Err(error);
                                    },
                                }
                            },
                            _ => None,
                        };
                        let ignore_file = match &decoded {
                            Some(text) => Some(text.as_str()),
                            None => None,
                        };
                        let ghost text = entry_rules(config, before, walker.position(), entry@);
                        proof {
                            lemma_step_keeps_leaves(
                                config,
                                before,
                                walker.position(),
                                text,
                                entry@.path,
                                entry@.kind,
                                known,
                            );
                        }
                        let action = match walker.visit(
                            entry.path.as_str(),
                            entry.kind,
                            ignore_file,
                        ) {
                            Ok(action) => action,
                            Err(error) => {
                                proof {
                                    let failure = after_entry(
                                        config,
                                        walked(config, all.take(i as int))->Ok_0,
                                        entry@,
                                    );
                                    assert(failure is Err);
                                    assert(reports(error, failure->Err_0));
                                    assert(walked(config, all.take(i + 1)) == failure);
                                    lemma_walk_fails_for_good(config, all, i + 1);
                                }
                                return Err(error);
                            },
                        };
                        match action {
                            WalkAction::Prune => {
                                pruned = Some(entry.path.clone());
                            },
                            WalkAction::Load { node, index } => {
                                pruned = None;
                                let outcome = match &entry.content {
                                    Ok(bytes) => Ok(copy_bytes(bytes)),
                                    Err(reason) => Err(reason.clone()),
                                };
                                let load = Loaded { node, index, outcome };
                                loads.push(load);
                                assert(load_models(loads@) == known.push(load@));
                                assert(load@ == (LoadModel { node, index, outcome: entry@.content }));
                            },
                            _ => {
                                pruned = None;
                            },
                        }
                    }
                },
            }
            i += 1;
        }
        assert(all.take(events.len() as int) == all);
        walker.finish(&loads)
    }
}

/// A walk keeps its tree in shape at every entry: the tree stays well
/// formed, the position stays in it, and every directory lies at or below
/// its parent.
pub proof fn lemma_entry_keeps_tree_sound(config: WalkConfig, progress: Progress, entry: EntryModel)
    requires
        well_formed(progress.nodes),
        progress.nodes.len() < usize::MAX,
        progress.position < progress.nodes.len(),
        paths_nest(progress.nodes),
    ensures
        after_entry(config, progress, entry) matches Ok(next) ==> {
            &&& well_formed(next.nodes)
            &&& next.position < next.nodes.len()
            &&& paths_nest(next.nodes)
            &&& progress.nodes.len() <= next.nodes.len() <= progress.nodes.len() + 1
            &&& next.nodes[0].dir == progress.nodes[0].dir
        },
{
    if !(progress.pruned matches Some(dir) && path::path_starts_with(entry.path, dir)) {
        if let Some(position) = rehomed(progress.nodes, progress.position, entry.path) {
            lemma_nearest_has_the_dir(
                progress.nodes,
                progress.position as int,
                rehome_target(entry.path),
            );
            assert(path::path_starts_with(entry.path, progress.nodes[position as int].dir)) by {
                if !path::path_starts_with(
                    entry.path,
                    progress.nodes[progress.position as int].dir,
                ) {
                    let target = rehome_target(entry.path);
                    assert(target.is_prefix_of(path::components(entry.path))) by {
                        if path::parent_components(entry.path) is Some {
                            assert(target =~= path::components(entry.path).subrange(
                                0,
                                target.len() as int,
                            ));
                        }
                    }
                }
            }
            let text = entry_rules(config, progress.nodes, position, entry);
            let mid = attached(progress.nodes, position, text);
            assert(well_formed(mid));
            assert(paths_nest(mid)) by {
                assert forall|n: int| 0 < n < mid.len() implies ((
                #[trigger] mid[n].parent) matches Some(p) && path::path_starts_with(
                    mid[n].dir,
                    mid[p as int].dir,
                )) by {
                    assert(progress.nodes[n].parent is Some);
                }
            }
            if let Ok(next) = after_entry(config, progress, entry) {
                assert(next.nodes == placed(config, mid, position, entry.path, entry.kind).0);
                assert(paths_nest(next.nodes)) by {
                    assert forall|n: int| 0 < n < next.nodes.len() implies ((
                    #[trigger] next.nodes[n].parent) matches Some(p) && path::path_starts_with(
                        next.nodes[n].dir,
                        next.nodes[p as int].dir,
                    )) by {
                        if n < mid.len() {
                            assert(mid[n].parent is Some);
                        }
                    }
                }
            }
        }
    }
}

/// Whether the tree `after` holds all that the tree `before` holds, at the
/// same places: every directory with its path and parent, its files and
/// branches in the same order with later ones behind them, and its rules if
/// it had any.
pub open spec fn grown_from(
    after: Seq<NodeModel<ItemModel>>,
    before: Seq<NodeModel<ItemModel>>,
) -> bool {
    &&& before.len() <= after.len()
    &&& forall|n: int|
        0 <= n < before.len() ==> {
            &&& (#[trigger] after[n]).dir == before[n].dir
            &&& after[n].parent == before[n].parent
            &&& before[n].leaves.is_prefix_of(after[n].leaves)
            &&& before[n].branches.is_prefix_of(after[n].branches)
            &&& before[n].scope is Some ==> after[n].scope == before[n].scope
        }
}

/// A walk only adds to its tree: no directory and no file is ever removed or
/// moved, and the rules stored for a directory never change.
pub proof fn lemma_entry_only_adds(config: WalkConfig, progress: Progress, entry: EntryModel)
    requires
        well_formed(progress.nodes),
        progress.position < progress.nodes.len(),
    ensures
        after_entry(config, progress, entry) matches Ok(next) ==> grown_from(
            next.nodes,
            progress.nodes,
        ),
{
    if !(progress.pruned matches Some(dir) && path::path_starts_with(entry.path, dir)) {
        if let Some(position) = rehomed(progress.nodes, progress.position, entry.path) {
            lemma_nearest_has_the_dir(
                progress.nodes,
                progress.position as int,
                rehome_target(entry.path),
            );
            let text = entry_rules(config, progress.nodes, position, entry);
            let mid = attached(progress.nodes, position, text);
            assert(grown_from(mid, progress.nodes)) by {
                assert forall|n: int| 0 <= n < progress.nodes.len() implies {
                    &&& (#[trigger] mid[n]).dir == progress.nodes[n].dir
                    &&& mid[n].parent == progress.nodes[n].parent
                    &&& progress.nodes[n].leaves.is_prefix_of(mid[n].leaves)
                    &&& progress.nodes[n].branches.is_prefix_of(mid[n].branches)
                    &&& progress.nodes[n].scope is Some ==> mid[n].scope == progress.nodes[n].scope
                } by {
                    assert(mid[n].leaves =~= progress.nodes[n].leaves);
                    assert(mid[n].branches =~= progress.nodes[n].branches);
                }
            }
            if let Ok(next) = after_entry(config, progress, entry) {
                assert(next.nodes == placed(config, mid, position, entry.path, entry.kind).0);
                assert forall|n: int| 0 <= n < progress.nodes.len() implies {
                    &&& (#[trigger] next.nodes[n]).dir == progress.nodes[n].dir
                    &&& next.nodes[n].parent == progress.nodes[n].parent
                    &&& progress.nodes[n].leaves.is_prefix_of(next.nodes[n].leaves)
                    &&& progress.nodes[n].branches.is_prefix_of(next.nodes[n].branches)
                    &&& progress.nodes[n].scope is Some ==> next.nodes[n].scope
                        == progress.nodes[n].scope
                } by {
                    assert(mid[n].dir == progress.nodes[n].dir);
                    assert(mid[n].leaves =~= next.nodes[n].leaves.subrange(
                        0,
                        mid[n].leaves.len() as int,
                    ));
                    assert(mid[n].branches =~= next.nodes[n].branches.subrange(
                        0,
                        mid[n].branches.len() as int,
                    ));
                }
            }
        }
    } else {
        let same = progress.nodes;
        assert forall|n: int| 0 <= n < same.len() implies same[n].leaves.is_prefix_of(
            (#[trigger] same[n]).leaves,
        ) && same[n].branches.is_prefix_of(same[n].branches) by {
            assert(same[n].leaves =~= same[n].leaves.subrange(0, same[n].leaves.len() as int));
            assert(same[n].branches =~= same[n].branches.subrange(
                0,
                same[n].branches.len() as int,
            ));
        }
    }
}

/// The tree of a walk is in shape after any events: it is well formed, the
/// position lies in it, its root is the directory that the walk started
/// from, and every other directory lies at or below its parent.
pub proof fn lemma_walk_keeps_tree_sound(config: WalkConfig, events: Seq<EventModel>)
    requires
        events.len() < usize::MAX,
    ensures
        walked(config, events) matches Ok(progress) ==> {
            &&& well_formed(progress.nodes)
            &&& progress.position < progress.nodes.len()
            &&& paths_nest(progress.nodes)
            &&& progress.nodes[0].dir == config.root
            &&& progress.nodes.len() <= events.len() + 1
        },
    decreases events.len(),
{
    if events.len() > 0 {
        lemma_walk_keeps_tree_sound(config, events.drop_last());
        if let Ok(progress) = walked(config, events.drop_last()) {
            if let EventModel::Entry(entry) = events.last() {
                lemma_entry_keeps_tree_sound(config, progress, entry);
            }
        }
    }
}

/// Whether no directory but the root, and no file, is the place `root`.
pub open spec fn root_is_unique(nodes: Seq<NodeModel<ItemModel>>, root: Seq<char>) -> bool {
    &&& forall|n: int| 0 < n < nodes.len() ==> !path::same_path((#[trigger] nodes[n]).dir, root)
    &&& forall|n: int, i: int|
        0 <= n < nodes.len() && 0 <= i < nodes[n].leaves.len() ==> !path::same_path(
            (#[trigger] nodes[n].leaves[i]).path,
            root,
        )
}

/// The root never appears in the tree it roots: whatever the enumeration
/// yields, no branch and no leaf of the tree is the root itself.
pub proof fn lemma_root_never_reappears(config: WalkConfig, events: Seq<EventModel>)
    requires
        events.len() < usize::MAX,
    ensures
        walked(config, events) matches Ok(progress) ==> root_is_unique(progress.nodes, config.root),
    decreases events.len(),
{
    if events.len() > 0 {
        lemma_root_never_reappears(config, events.drop_last());
        lemma_walk_keeps_tree_sound(config, events.drop_last());
        if let Ok(before) = walked(config, events.drop_last()) {
            if let Ok(after) = walked(config, events) {
                if let EventModel::Entry(entry) = events.last() {
                    if !(before.pruned matches Some(dir) && path::path_starts_with(
                        entry.path,
                        dir,
                    )) {
                        let position = rehomed(before.nodes, before.position, entry.path)->0;
                        lemma_nearest_has_the_dir(
                            before.nodes,
                            before.position as int,
                            rehome_target(entry.path),
                        );
                        let text = entry_rules(config, before.nodes, position, entry);
                        let mid = attached(before.nodes, position, text);
                        assert(root_is_unique(mid, config.root)) by {
                            assert forall|n: int| 0 < n < mid.len() implies !path::same_path(
                                (#[trigger] mid[n]).dir,
                                config.root,
                            ) by {
                                assert(mid[n].dir == before.nodes[n].dir);
                            }
                            assert forall|n: int, i: int|
                                0 <= n < mid.len() && 0 <= i < mid[n].leaves.len() implies !path::same_path(
                                (#[trigger] mid[n].leaves[i]).path,
                                config.root,
                            ) by {
                                assert(mid[n].leaves == before.nodes[n].leaves);
                            }
                        }
                        assert(after.nodes == placed(
                            config,
                            mid,
                            position,
                            entry.path,
                            entry.kind,
                        ).0);
                        assert forall|n: int| 0 < n < after.nodes.len() implies !path::same_path(
                            (#[trigger] after.nodes[n]).dir,
                            config.root,
                        ) by {
                            if n < mid.len() {
                                assert(after.nodes[n].dir == mid[n].dir);
                            }
                        }
                        assert forall|n: int, i: int|
                            0 <= n < after.nodes.len() && 0 <= i
                                < after.nodes[n].leaves.len() implies !path::same_path(
                            (#[trigger] after.nodes[n].leaves[i]).path,
                            config.root,
                        ) by {
                            if n < mid.len() && i < mid[n].leaves.len() {
                                assert(after.nodes[n].leaves[i] == mid[n].leaves[i]);
                            }
                        }
                    }
                }
            }
        }
    }
}

/// Whether `path` is the path of one of the entries among `events`.
pub open spec fn is_entry_path(events: Seq<EventModel>, path: Seq<char>) -> bool {
    exists|i: int|
        0 <= i < events.len() && ((#[trigger] events[i]) matches EventModel::Entry(entry)
            && entry.path == path)
}

/// Whether no two entries among `events` are the same place.
pub open spec fn entries_differ(events: Seq<EventModel>) -> bool {
    forall|i: int, j: int|
        0 <= i < j < events.len() ==> !((#[trigger] events[i]) matches EventModel::Entry(first)
            && (#[trigger] events[j]) matches EventModel::Entry(second) && path::same_path(
            first.path,
            second.path,
        ))
}

/// Where the enumeration yields no place twice, no two directories of the
/// tree are the same place; in particular no two branches of a directory are.
pub proof fn lemma_distinct_entries_give_distinct_dirs(config: WalkConfig, events: Seq<EventModel>)
    requires
        events.len() < usize::MAX,
        entries_differ(events),
    ensures
        walked(config, events) matches Ok(progress) ==> {
            &&& dirs_differ(progress.nodes)
            &&& forall|n: int|
                0 < n < progress.nodes.len() ==> is_entry_path(
                    events,
                    (#[trigger] progress.nodes[n]).dir,
                )
        },
    decreases events.len(),
{
    if events.len() > 0 {
        let earlier = events.drop_last();
        assert(entries_differ(earlier)) by {
            assert forall|i: int, j: int| 0 <= i < j < earlier.len() implies !((
            #[trigger] earlier[i]) matches EventModel::Entry(first) && (
            #[trigger] earlier[j]) matches EventModel::Entry(second) && path::same_path(
                first.path,
                second.path,
            )) by {
                assert(earlier[i] == events[i]);
                assert(earlier[j] == events[j]);
            }
        }
        lemma_distinct_entries_give_distinct_dirs(config, earlier);
        lemma_walk_keeps_tree_sound(config, earlier);
        if let Ok(before) = walked(config, earlier) {
            if let Ok(after) = walked(config, events) {
                assert forall|n: int| 0 < n < before.nodes.len() implies is_entry_path(
                    events,
                    (#[trigger] before.nodes[n]).dir,
                ) by {
                    let i = choose|i: int|
                        0 <= i < earlier.len() && ((#[trigger] earlier[i]) matches EventModel::Entry(
                            entry,
                        ) && entry.path == before.nodes[n].dir);
                    assert(earlier[i] == events[i]);
                }
                match events.last() {
                    EventModel::Failed => {},
                    EventModel::Entry(entry) => {
                        assert(events[events.len() - 1] == events.last());
                        if !(before.pruned matches Some(dir) && path::path_starts_with(
                            entry.path,
                            dir,
                        )) {
                            let position = rehomed(before.nodes, before.position, entry.path)->0;
                            lemma_nearest_has_the_dir(
                                before.nodes,
                                before.position as int,
                                rehome_target(entry.path),
                            );
                            let text = entry_rules(config, before.nodes, position, entry);
                            let mid = attached(before.nodes, position, text);
                            assert(forall|n: int|
                                0 <= n < mid.len() ==> (#[trigger] mid[n]).dir
                                    == before.nodes[n].dir);
                            assert(after.nodes == placed(
                                config,
                                mid,
                                position,
                                entry.path,
                                entry.kind,
                            ).0);
                            if after.nodes.len() > before.nodes.len() {
                                let fresh = before.nodes.len() as int;
                                assert(after.nodes[fresh].dir == entry.path);
                                assert(!path::same_path(entry.path, config.root));
                                assert forall|m: int| 0 <= m < fresh implies !path::same_path(
                                    (#[trigger] after.nodes[m]).dir,
                                    entry.path,
                                ) by {
                                    if m > 0 {
                                        let i = choose|i: int|
                                            0 <= i < earlier.len() && ((
                                            #[trigger] earlier[i]) matches EventModel::Entry(
                                                seen,
                                            ) && seen.path == before.nodes[m].dir);
                                        assert(earlier[i] == events[i]);
                                    }
                                }
                            }
                        }
                    },
                }
                assert(forall|n: int|
                    0 <= n < before.nodes.len() ==> (#[trigger] after.nodes[n]).dir
                        == before.nodes[n].dir);
            }
        }
    }
}

/// A directory that is left out is pruned: no branch and no leaf is added
/// for it, and the entries below it are passed over from then on.
pub proof fn lemma_left_out_directory_is_pruned(
    config: WalkConfig,
    progress: Progress,
    entry: EntryModel,
)
    requires
        well_formed(progress.nodes),
        progress.position < progress.nodes.len(),
        entry.kind is Directory,
        !(progress.pruned matches Some(dir) && path::path_starts_with(entry.path, dir)),
        rehomed(progress.nodes, progress.position, entry.path) is Some,
        after_entry(config, progress, entry) is Ok,
        left_out(
            config,
            attached(
                progress.nodes,
                rehomed(progress.nodes, progress.position, entry.path)->0,
                entry_rules(
                    config,
                    progress.nodes,
                    rehomed(progress.nodes, progress.position, entry.path)->0,
                    entry,
                ),
            ),
            rehomed(progress.nodes, progress.position, entry.path)->0,
            entry.path,
        ),
    ensures
        after_entry(config, progress, entry)->Ok_0.pruned == Some(entry.path),
        after_entry(config, progress, entry)->Ok_0.loads == progress.loads,
        after_entry(config, progress, entry)->Ok_0.nodes.len() == progress.nodes.len(),
        forall|n: int|
            0 <= n < progress.nodes.len() ==> {
                &&& (#[trigger] after_entry(config, progress, entry)->Ok_0.nodes[n]).leaves
                    == progress.nodes[n].leaves
                &&& after_entry(config, progress, entry)->Ok_0.nodes[n].branches
                    == progress.nodes[n].branches
            },
{
    let position = rehomed(progress.nodes, progress.position, entry.path)->0;
    assert(position < progress.nodes.len()) by {
        lemma_nearest_has_the_dir(
            progress.nodes,
            progress.position as int,
            rehome_target(entry.path),
        );
    }
}

/// Whether every entry among `events` lies at or below the directory `dir`.
pub open spec fn all_below(events: Seq<EventModel>, dir: Seq<char>) -> bool {
    forall|i: int|
        0 <= i < events.len() ==> ((#[trigger] events[i]) matches EventModel::Entry(entry)
            ==> path::path_starts_with(entry.path, dir))
}

/// Pruning a directory leaves out all that lies below it: while the entries
/// at or below the pruned directory last, the walk stays as it is, so the
/// tree gets no directory and no file from them.
pub proof fn lemma_pruned_entries_change_nothing(
    config: WalkConfig,
    progress: Progress,
    events: Seq<EventModel>,
)
    requires
        progress.pruned matches Some(dir) && all_below(events, dir),
    ensures
        walked_from(config, progress, events) == Ok::<Progress, WalkFailure>(progress),
    decreases events.len(),
{
    if events.len() > 0 {
        let dir = progress.pruned->0;
        assert(all_below(events.drop_last(), dir)) by {
            assert forall|i: int| 0 <= i < events.drop_last().len() implies ((
            #[trigger] events.drop_last()[i]) matches EventModel::Entry(entry)
                ==> path::path_starts_with(entry.path, dir)) by {
                assert(events.drop_last()[i] == events[i]);
            }
        }
        lemma_pruned_entries_change_nothing(config, progress, events.drop_last());
        assert(events.last() == events[events.len() - 1]);
    }
}

/// The root never becomes a branch or a leaf of the tree: an entry that is
/// the root itself leaves the tree and the position as they are.
pub proof fn lemma_root_entry_adds_nothing(
    config: WalkConfig,
    nodes: Seq<NodeModel<ItemModel>>,
    position: usize,
    path: Seq<char>,
    kind: EntryKind,
)
    requires
        path::same_path(path, config.root),
    ensures
        placed(config, nodes, position, path, kind).0 == nodes,
        placed(config, nodes, position, path, kind).1 == position,
        !(placed(config, nodes, position, path, kind).2 is Enter),
        !(placed(config, nodes, position, path, kind).2 is Load),
{
}

/// Building is repeatable: two builds with the same settings, from the same
/// directory and the same entries, both succeed or both fail, and where
/// they succeed they give the same directories, the same files and the same
/// texts.
pub proof fn lemma_build_is_repeatable(
    first: Result<Codebase, CunwError>,
    second: Result<Codebase, CunwError>,
    config: WalkConfig,
    events: Seq<EventModel>,
)
    requires
        is_build_of(first, config, events),
        is_build_of(second, config, events),
    ensures
        first is Ok <==> second is Ok,
        first matches Ok(one) ==> (second matches Ok(other) && one@ == other@),
        first matches Err(one) ==> (second matches Err(other) && exists|failure: WalkFailure|
            reports(one, failure) && reports(other, failure)),
{
    if first is Err {
        assert(reports(first->Err_0, built(config, events)->Err_0));
    }
}

/// Once a walk has failed at an event, it has failed for the same reason
/// whatever follows.
pub proof fn lemma_walk_fails_for_good(config: WalkConfig, events: Seq<EventModel>, count: int)
    requires
        0 <= count <= events.len(),
        walked(config, events.take(count)) is Err,
    ensures
        walked(config, events) == walked(config, events.take(count)),
    decreases events.len() - count,
{
    if count < events.len() {
        assert(events.take(count + 1).drop_last() == events.take(count));
        assert(walked(config, events.take(count + 1)) == walked(config, events.take(count)));
        lemma_walk_fails_for_good(config, events, count + 1);
    } else {
        assert(events.take(count) == events);
    }
}

} // verus!

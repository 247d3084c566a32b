//! Nested configuration: what is known so far of every directory that was looked at.
//!
//! A loaded configuration is known here by a number, its scope. Reading directories and
//! building configurations is the caller's work; this module says what to do next and keeps
//! the results.

use editorconfig_parser::EditorConfig;
use vstd::prelude::*;
use vstd::string::*;

use crate::discovery::{
    config_at, config_entries, discover_config_file, discovered, find_unique_config_by_readdir,
    ConfigConflict, DiscoveredConfigFile, DiscoveredView, ListedEntry,
};
use crate::path::{parts, texts, FsPath, PathKey};
use crate::path_index::{map_entries, map_get, map_insert, map_new, PathMap};

verus! {

/// `editorconfig_parser::EditorConfig`, carried from where it is parsed to where a
/// configuration is built.
#[verifier::external_type_specification]
#[verifier::external_body]
pub struct ExEditorConfig(EditorConfig);

/// What became of loading the configuration of one directory: its scope, nothing where the
/// directory has none, or why it could not be loaded.
pub type ConfigLoadResult = Result<Option<u64>, String>;

/// What became of loading the `.editorconfig`.
pub type EditorconfigResult = Result<Option<EditorConfig>, String>;

/// What the caller has found out so far while it loads the configuration of one directory.
#[derive(Debug)]
pub struct LoadAnswers {
    /// The entries of the directory; `Some(None)` where it cannot be read.
    pub listing: Option<Option<Vec<ListedEntry>>>,
    /// The message for a directory with more than one configuration file.
    pub conflict_text: Option<String>,
    /// The scope built from the file; `Some(Ok(None))` where the file does not configure
    /// formatting.
    pub built: Option<Result<Option<u64>, String>>,
    /// Whether what was built is valid.
    pub validated: Option<Result<(), String>>,
}

/// What to do next to load the configuration of one directory.
#[derive(Debug)]
pub enum LoadStep<'a> {
    /// Load the `.editorconfig` and keep the result.
    LoadEditorconfig,
    /// List the directory.
    ReadDirectory,
    /// Put the conflict into words.
    DescribeConflict(ConfigConflict),
    /// Build a scope from the file and from the `.editorconfig`, where there is one.
    Build { file: DiscoveredConfigFile, editorconfig: &'a Option<EditorConfig> },
    /// Validate the scope.
    Validate(u64),
    /// Nothing: this is the result.
    Done(ConfigLoadResult),
}

/// A step, as contracts speak of it.
pub enum LoadStepView {
    LoadEditorconfig,
    ReadDirectory,
    DescribeConflict { dir: Seq<u8>, files: Seq<DiscoveredView> },
    Build { file: DiscoveredView, editorconfig: Option<EditorConfig> },
    Validate(u64),
    Loaded(Option<u64>),
    Failed(Seq<char>),
}

impl<'a> View for LoadStep<'a> {
    type V = LoadStepView;

    open spec fn view(&self) -> LoadStepView {
        match self {
            LoadStep::LoadEditorconfig => LoadStepView::LoadEditorconfig,
            LoadStep::ReadDirectory => LoadStepView::ReadDirectory,
            LoadStep::DescribeConflict(c) => LoadStepView::DescribeConflict {
                dir: c.dir@,
                files: discovered(c.files@),
            },
            LoadStep::Build { file, editorconfig } => LoadStepView::Build {
                file: file@,
                editorconfig: **editorconfig,
            },
            LoadStep::Validate(scope) => LoadStepView::Validate(*scope),
            LoadStep::Done(Ok(scope)) => LoadStepView::Loaded(*scope),
            LoadStep::Done(Err(err)) => LoadStepView::Failed(err@),
        }
    }
}

/// A step shows all that it holds: the directory and the files of a conflict, the file and the
/// `.editorconfig` to build from, the scope to validate, the result.
pub proof fn law_load_step_shows_all<'a>(step: LoadStep<'a>)
    ensures
        step matches LoadStep::DescribeConflict(c) ==> step@ == (LoadStepView::DescribeConflict {
            dir: c.dir@,
            files: discovered(c.files@),
        }),
        step matches LoadStep::Build { file, editorconfig } ==> step@ == (LoadStepView::Build {
            file: file@,
            editorconfig: *editorconfig,
        }),
        step matches LoadStep::Validate(scope) ==> step@ == LoadStepView::Validate(scope),
        step matches LoadStep::Done(Ok(scope)) ==> step@ == LoadStepView::Loaded(scope),
        step matches LoadStep::Done(Err(err)) ==> step@ == LoadStepView::Failed(err@),
        step is LoadEditorconfig <==> step@ is LoadEditorconfig,
        step is ReadDirectory <==> step@ is ReadDirectory,
{
}

/// The message for a configuration in the directory shown as `dir` that failed with `err`.
pub open spec fn load_error_text(dir: Seq<char>, err: Seq<char>) -> Seq<char> {
    "Failed to load config in "@ + dir + ": "@ + err
}

/// The next step of loading the configuration that stands directly in `dir`.
///
/// No supported file: no configuration. More than one: a failure with the message for the
/// conflict. One: a scope is built from it and the `.editorconfig`, and validated; a failure of
/// either is a failure that names the directory, and a file that does not configure formatting
/// is no configuration.
pub open spec fn load_step(
    names: Seq<Seq<u8>>,
    dir: Seq<u8>,
    shown: Seq<char>,
    editorconfig: Option<EditorConfig>,
    answers: LoadAnswers,
) -> LoadStepView {
    match answers.listing {
        None => LoadStepView::ReadDirectory,
        Some(None) => LoadStepView::Loaded(None),
        Some(Some(entries)) => {
            let files = config_entries(names, dir, entries@);
            if files.len() == 0 {
                LoadStepView::Loaded(None)
            } else if files.len() > 1 {
                match answers.conflict_text {
                    None => LoadStepView::DescribeConflict { dir, files },
                    Some(text) => LoadStepView::Failed(text@),
                }
            } else {
                match answers.built {
                    None => LoadStepView::Build { file: files[0], editorconfig },
                    Some(Err(err)) => LoadStepView::Failed(load_error_text(shown, err@)),
                    Some(Ok(None)) => LoadStepView::Loaded(None),
                    Some(Ok(Some(scope))) => match answers.validated {
                        None => LoadStepView::Validate(scope),
                        Some(Err(err)) => LoadStepView::Failed(load_error_text(shown, err@)),
                        Some(Ok(())) => LoadStepView::Loaded(Some(scope)),
                    },
                }
            }
        },
    }
}

/// The message for a configuration that could not be loaded.
fn load_error(shown: &str, err: &str) -> (text: String)
    ensures
        text@ == load_error_text(shown@, err@),
{
    let mut text: String = "Failed to load config in ".to_owned();
    text.append(shown);
    text.append(": ");
    text.append(err);
    text
}

/// The next step of loading the configuration that stands directly in `dir`, which messages
/// show as `shown`.
pub fn load_direct_config_in_dir<'a>(
    names: &Vec<Vec<u8>>,
    dir: &FsPath,
    shown: &str,
    editorconfig: &'a Option<EditorConfig>,
    answers: &LoadAnswers,
) -> (step: LoadStep<'a>)
    ensures
        step@ == load_step(texts(names@), dir@, shown@, *editorconfig, *answers),
{
    let listing: &Option<Vec<ListedEntry>> = match &answers.listing {
        None => {
            return LoadStep::ReadDirectory;
        },
        Some(listing) => listing,
    };
    let file: DiscoveredConfigFile = match find_unique_config_by_readdir(names, dir, listing) {
        Err(conflict) => {
            return match &answers.conflict_text {
                None => LoadStep::DescribeConflict(conflict),
                Some(text) => LoadStep::Done(Err(text.clone())),
            };
        },
        Ok(None) => {
            return LoadStep::Done(Ok(None));
        },
        Ok(Some(file)) => file,
    };
    let scope: u64 = match &answers.built {
        None => {
            return LoadStep::Build { file, editorconfig };
        },
        Some(Err(err)) => {
            return LoadStep::Done(Err(load_error(shown, err.as_str())));
        },
        Some(Ok(None)) => {
            return LoadStep::Done(Ok(None));
        },
        Some(Ok(Some(scope))) => *scope,
    };
    match &answers.validated {
        None => LoadStep::Validate(scope),
        Some(Err(err)) => LoadStep::Done(Err(load_error(shown, err.as_str()))),
        Some(Ok(())) => LoadStep::Done(Ok(Some(scope))),
    }
}

/// What a probe of a directory answers.
#[derive(Debug)]
pub enum ProbeStep {
    /// This is known of the directory.
    Known(ConfigLoadResult),
    /// Nothing is known, and nobody is loading it: load it and hand the result back.
    Load,
    /// Somebody is loading it: ask again when that is done.
    Wait,
}

fn copy_result(result: &ConfigLoadResult) -> (copy: ConfigLoadResult)
    ensures
        copy == *result,
{
    match result {
        Ok(scope) => Ok(*scope),
        Err(err) => Err(err.clone()),
    }
}

fn copy_load(load: &Option<ConfigLoadResult>) -> (copy: Option<ConfigLoadResult>)
    ensures
        copy == *load,
{
    match load {
        Some(result) => Some(copy_result(result)),
        None => None,
    }
}

/// Whether a load is over and found a configuration.
pub open spec fn gave_scope(load: Option<ConfigLoadResult>) -> bool {
    match load {
        Some(Ok(Some(_))) => true,
        _ => false,
    }
}

/// All that is known of nested configurations.
#[verifier::ext_equal]
pub struct CtxState {
    /// The directories that have a configuration, with its scope.
    pub scopes: Map<Seq<Seq<u8>>, u64>,
    /// The directories whose configuration was asked for, with the result where there is one.
    pub loads: Map<Seq<Seq<u8>>, Option<ConfigLoadResult>>,
    /// Whether any configuration was loaded.
    pub found: bool,
}

impl CtxState {
    /// Nothing is known.
    pub open spec fn empty() -> CtxState {
        CtxState { scopes: Map::empty(), loads: Map::empty(), found: false }
    }

    /// A directory has a scope if and only if that is what loading it gave, and a
    /// configuration was found if and only if some directory has a scope.
    pub open spec fn consistent(self) -> bool {
        &&& forall|dir: Seq<Seq<u8>>| #[trigger]
            self.scopes.contains_key(dir) ==> self.loads.contains_key(dir) && self.loads[dir]
                == Some(Ok::<Option<u64>, String>(Some(self.scopes[dir])))
        &&& forall|dir: Seq<Seq<u8>>| #[trigger]
            self.loads.contains_key(dir) && gave_scope(self.loads[dir])
                ==> self.scopes.contains_key(dir)
        &&& self.found <==> exists|dir: Seq<Seq<u8>>| self.scopes.contains_key(dir)
    }

    /// A loaded scope is registered, unless the directory has one already.
    pub open spec fn settle(self, dir: Seq<Seq<u8>>, result: ConfigLoadResult) -> CtxState {
        match result {
            Ok(Some(scope)) => CtxState {
                scopes: if self.scopes.contains_key(dir) {
                    self.scopes
                } else {
                    self.scopes.insert(dir, scope)
                },
                found: true,
                ..self
            },
            _ => self,
        }
    }

    /// What a probe of `dir` leaves.
    pub open spec fn after_probe(self, dir: Seq<Seq<u8>>) -> CtxState {
        if self.scopes.contains_key(dir) {
            self
        } else if !self.loads.contains_key(dir) {
            CtxState { loads: self.loads.insert(dir, None), ..self }
        } else {
            match self.loads[dir] {
                Some(result) => self.settle(dir, result),
                None => self,
            }
        }
    }

    /// What a probe of `dir` answers.
    pub open spec fn probe(self, dir: Seq<Seq<u8>>) -> ProbeStep {
        if self.scopes.contains_key(dir) {
            ProbeStep::Known(Ok(Some(self.scopes[dir])))
        } else if !self.loads.contains_key(dir) {
            ProbeStep::Load
        } else {
            match self.loads[dir] {
                Some(result) => ProbeStep::Known(result),
                None => ProbeStep::Wait,
            }
        }
    }

    /// The result that stands once `result` is handed back for `dir`: the first one.
    pub open spec fn kept(self, dir: Seq<Seq<u8>>, result: ConfigLoadResult) -> ConfigLoadResult {
        if self.loads.contains_key(dir) && self.loads[dir] is Some {
            self.loads[dir]->Some_0
        } else {
            result
        }
    }

    /// What handing back `result` for `dir` leaves.
    pub open spec fn after_load(self, dir: Seq<Seq<u8>>, result: ConfigLoadResult) -> CtxState {
        let kept = self.kept(dir, result);
        CtxState { loads: self.loads.insert(dir, Some(kept)), ..self }.settle(dir, kept)
    }
}

/// What happens to what is known: a probe of a directory, or a result handed back for one.
pub enum CtxEvent {
    Probe(Seq<Seq<u8>>),
    Loaded(Seq<Seq<u8>>, ConfigLoadResult),
}

/// What is known after one event.
pub open spec fn after_event(state: CtxState, event: CtxEvent) -> CtxState {
    match event {
        CtxEvent::Probe(dir) => state.after_probe(dir),
        CtxEvent::Loaded(dir, result) => state.after_load(dir, result),
    }
}

/// What is known after some events.
pub open spec fn after_events(state: CtxState, events: Seq<CtxEvent>) -> CtxState
    decreases events.len(),
{
    if events.len() == 0 {
        state
    } else {
        after_event(after_events(state, events.drop_last()), events.last())
    }
}

/// How often a probe of `dir` says that the directory is to be loaded.
pub open spec fn loads_ordered(state: CtxState, events: Seq<CtxEvent>, dir: Seq<Seq<u8>>) -> nat
    decreases events.len(),
{
    if events.len() == 0 {
        0
    } else {
        let before = after_events(state, events.drop_last());
        loads_ordered(state, events.drop_last(), dir) + if events.last() == CtxEvent::Probe(dir)
            && before.probe(dir) is Load {
            1nat
        } else {
            0nat
        }
    }
}

/// What is known stays consistent, whatever happens.
pub proof fn law_stays_consistent(state: CtxState, event: CtxEvent)
    requires
        state.consistent(),
    ensures
        after_event(state, event).consistent(),
{
    let next = after_event(state, event);
    match event {
        CtxEvent::Probe(dir) => {
            if state.scopes.contains_key(dir) {
            } else if !state.loads.contains_key(dir) {
                assert(next.scopes == state.scopes);
            } else {
                assert(next == state);
            }
        },
        CtxEvent::Loaded(dir, result) => {
            let kept = state.kept(dir, result);
            assert(next.loads[dir] == Some(kept));
            if let Ok(Some(scope)) = kept {
                assert(next.scopes.contains_key(dir));
                assert forall|d: Seq<Seq<u8>>| #[trigger]
                    next.scopes.contains_key(d) implies next.loads.contains_key(d)
                    && next.loads[d] == Some(Ok::<Option<u64>, String>(Some(next.scopes[d]))) by {
                    if d != dir {
                        assert(state.scopes.contains_key(d));
                    } else if state.scopes.contains_key(dir) {
                        assert(state.loads.contains_key(dir));
                    }
                }
            } else {
                assert(!state.scopes.contains_key(dir));
                assert(next.scopes == state.scopes);
            }
            assert forall|d: Seq<Seq<u8>>| #[trigger]
                next.loads.contains_key(d) && gave_scope(next.loads[d])
                implies next.scopes.contains_key(d) by {
                if d != dir {
                    assert(state.loads.contains_key(d));
                }
            }
        },
    }
}

/// The configuration of a directory is loaded at most once, however often the directory is
/// probed and whatever is handed back for it.
pub proof fn law_loaded_at_most_once(events: Seq<CtxEvent>, dir: Seq<Seq<u8>>)
    ensures
        loads_ordered(CtxState::empty(), events, dir) <= 1,
        loads_ordered(CtxState::empty(), events, dir) == 1 ==> after_events(
            CtxState::empty(),
            events,
        ).loads.contains_key(dir),
    decreases events.len(),
{
    if events.len() > 0 {
        law_loaded_at_most_once(events.drop_last(), dir);
    }
}

/// Once a probe of a directory knows its configuration, that there is none, or why it cannot
/// be loaded, every later probe answers the same.
pub proof fn law_known_stays(state: CtxState, events: Seq<CtxEvent>, dir: Seq<Seq<u8>>)
    requires
        state.consistent(),
        state.probe(dir) is Known,
    ensures
        after_events(state, events).probe(dir) == state.probe(dir),
        after_events(state, events).consistent(),
    decreases events.len(),
{
    if events.len() > 0 {
        let before = after_events(state, events.drop_last());
        law_known_stays(state, events.drop_last(), dir);
        law_stays_consistent(before, events.last());
        match events.last() {
            CtxEvent::Probe(d) => {
                if !before.scopes.contains_key(d) && before.loads.contains_key(d) {
                    assert(after_event(before, events.last()) == before);
                }
            },
            CtxEvent::Loaded(d, result) => {
                if d == dir && before.scopes.contains_key(dir) {
                    assert(before.loads.contains_key(dir));
                }
            },
        }
    }
}

/// The first result handed back for a directory that is being loaded is what every probe from
/// then on answers.
pub proof fn law_first_result_kept(
    state: CtxState,
    dir: Seq<Seq<u8>>,
    result: ConfigLoadResult,
    events: Seq<CtxEvent>,
)
    requires
        state.consistent(),
        !(state.probe(dir) is Known),
    ensures
        after_events(state.after_load(dir, result), events).probe(dir) == ProbeStep::Known(result),
{
    law_stays_consistent(state, CtxEvent::Loaded(dir, result));
    law_known_stays(state.after_load(dir, result), events, dir);
}

/// The first result that was handed back for `dir`, if any was.
pub open spec fn first_result(events: Seq<CtxEvent>, dir: Seq<Seq<u8>>) -> Option<ConfigLoadResult>
    decreases events.len(),
{
    if events.len() == 0 {
        None
    } else {
        match first_result(events.drop_last(), dir) {
            Some(result) => Some(result),
            None => match events.last() {
                CtxEvent::Loaded(d, result) => if d == dir {
                    Some(result)
                } else {
                    None
                },
                CtxEvent::Probe(_) => None,
            },
        }
    }
}

/// What is known of a directory is what has happened to it, and nothing that has happened to
/// others: the first result that was handed back for it. Where none was, it is to be loaded by
/// the first who asks, and everybody else waits. The registered scopes are the configurations
/// among those results, and a configuration was found if and only if there is one.
pub proof fn law_known_is_what_happened(events: Seq<CtxEvent>, dir: Seq<Seq<u8>>)
    ensures
        ({
            let state = after_events(CtxState::empty(), events);
            let result = first_result(events, dir);
            &&& result matches Some(r) ==> state.probe(dir) == ProbeStep::Known(r)
            &&& result is None && events.contains(CtxEvent::Probe(dir)) ==> state.probe(dir)
                == ProbeStep::Wait
            &&& result is None && !events.contains(CtxEvent::Probe(dir)) ==> state.probe(dir)
                == ProbeStep::Load
            &&& forall|scope: u64| #[trigger]
                result_gives(result, scope) <==> state.scopes.contains_key(dir) && state.scopes[dir]
                    == scope
            &&& state.found <==> exists|d: Seq<Seq<u8>>, scope: u64| #[trigger]
                result_gives(first_result(events, d), scope)
        }),
{
    let state = after_events(CtxState::empty(), events);
    let result = first_result(events, dir);
    lemma_history(events);
    assert(state.loads.contains_key(dir) <==> result is Some || events.contains(
        CtxEvent::Probe(dir),
    ));
    if state.scopes.contains_key(dir) {
        assert(state.loads[dir] == Some(Ok::<Option<u64>, String>(Some(state.scopes[dir]))));
        assert(result == Some(Ok::<Option<u64>, String>(Some(state.scopes[dir]))));
    }
    assert forall|scope: u64| #[trigger] result_gives(result, scope) implies state.scopes.contains_key(
        dir,
    ) && state.scopes[dir] == scope by {
        assert(state.loads.contains_key(dir) && gave_scope(state.loads[dir]));
    }
    if state.found {
        let d = choose|d: Seq<Seq<u8>>| state.scopes.contains_key(d);
        assert(state.loads.contains_key(d));
        assert(result_gives(first_result(events, d), state.scopes[d]));
    }
    if exists|d: Seq<Seq<u8>>, scope: u64| #[trigger] result_gives(first_result(events, d), scope) {
        let (d, scope) = choose|d: Seq<Seq<u8>>, scope: u64| #[trigger]
            result_gives(first_result(events, d), scope);
        assert(state.loads.contains_key(d) && gave_scope(state.loads[d]));
        assert(state.scopes.contains_key(d));
    }
}

/// Whether a result is the configuration with this scope.
pub open spec fn result_gives(result: Option<ConfigLoadResult>, scope: u64) -> bool {
    result == Some(Ok::<Option<u64>, String>(Some(scope)))
}

proof fn lemma_history(events: Seq<CtxEvent>)
    ensures
        ({
            let state = after_events(CtxState::empty(), events);
            &&& state.consistent()
            &&& forall|d: Seq<Seq<u8>>| #[trigger]
                state.loads.contains_key(d) <==> first_result(events, d) is Some
                    || events.contains(CtxEvent::Probe(d))
            &&& forall|d: Seq<Seq<u8>>| #[trigger]
                state.loads.contains_key(d) ==> state.loads[d] == first_result(events, d)
        }),
    decreases events.len(),
{
    let state = after_events(CtxState::empty(), events);
    if events.len() == 0 {
        assert(!(exists|d: Seq<Seq<u8>>| state.scopes.contains_key(d)));
    } else {
        let earlier = events.drop_last();
        let last = events.last();
        let before = after_events(CtxState::empty(), earlier);
        lemma_history(earlier);
        law_stays_consistent(before, last);
        assert(events =~= earlier.push(last));
        assert forall|d: Seq<Seq<u8>>| #[trigger]
            state.loads.contains_key(d) <==> first_result(events, d) is Some || events.contains(
                CtxEvent::Probe(d),
            ) by {
            vstd::seq_lib::lemma_seq_contains_after_push(earlier, last, CtxEvent::Probe(d));
            assert(before.loads.contains_key(d) <==> first_result(earlier, d) is Some
                || earlier.contains(CtxEvent::Probe(d)));
            match last {
                CtxEvent::Probe(at) => {
                    if before.scopes.contains_key(at) {
                        assert(before.loads.contains_key(at));
                    }
                },
                CtxEvent::Loaded(at, result) => {},
            }
        }
        assert forall|d: Seq<Seq<u8>>| #[trigger]
            state.loads.contains_key(d) implies state.loads[d] == first_result(events, d) by {
            vstd::seq_lib::lemma_seq_contains_after_push(earlier, last, CtxEvent::Probe(d));
            assert(before.loads.contains_key(d) ==> before.loads[d] == first_result(earlier, d));
            assert(before.loads.contains_key(d) <==> first_result(earlier, d) is Some
                || earlier.contains(CtxEvent::Probe(d)));
        }
    }
}

/// Loading the configuration of a directory comes to a scope if and only if the directory can be
/// read, one file in it configures it, and a scope was built from that file and is valid. It comes
/// to none where the directory cannot be read, where no file configures it, or where the file does
/// not configure formatting. It fails where several files configure it, with the message for
/// that, or where the scope cannot be built or is not valid, with a message that names the
/// directory.
pub proof fn law_what_a_load_comes_to(
    names: Seq<Seq<u8>>,
    dir: Seq<u8>,
    shown: Seq<char>,
    editorconfig: Option<EditorConfig>,
    answers: LoadAnswers,
    scope: u64,
)
    ensures
        ({
            let step = load_step(names, dir, shown, editorconfig, answers);
            let readable = answers.listing is Some && answers.listing->Some_0 is Some;
            let count = config_entries(names, dir, answers.listing->Some_0->Some_0@).len();
            let one = readable && count == 1;
            let built = one && answers.built is Some;
            let sound = built && answers.built == Some(
                Ok::<Option<u64>, String>(Some(answers.built->Some_0->Ok_0->Some_0)),
            );
            &&& step == LoadStepView::Loaded(Some(scope)) <==> one && answers.built == Some(
                Ok::<Option<u64>, String>(Some(scope)),
            ) && answers.validated is Some && answers.validated->Some_0 is Ok
            &&& step == LoadStepView::Loaded(None) <==> {
                ||| answers.listing is Some && answers.listing->Some_0 is None
                ||| readable && count == 0
                ||| one && answers.built == Some(Ok::<Option<u64>, String>(None))
            }
            &&& step is Failed <==> {
                ||| readable && count > 1 && answers.conflict_text is Some
                ||| built && answers.built->Some_0 is Err
                ||| sound && answers.validated is Some && answers.validated->Some_0 is Err
            }
            &&& step matches LoadStepView::Failed(message) ==> {
                ||| count > 1 && message == answers.conflict_text->Some_0@
                ||| count == 1 && answers.built->Some_0 is Err && is_load_error(
                    message,
                    shown,
                    answers.built->Some_0->Err_0@,
                )
                ||| count == 1 && answers.built->Some_0 is Ok && is_load_error(
                    message,
                    shown,
                    answers.validated->Some_0->Err_0@,
                )
            }
        }),
{
    if let Some(Err(err)) = answers.built {
        lemma_load_error(shown, err@);
    }
    if let Some(Err(err)) = answers.validated {
        lemma_load_error(shown, err@);
    }
    if let Some(Ok(Some(found))) = answers.built {
        assert(answers.built == Some(Ok::<Option<u64>, String>(Some(found))));
    }
    if let Some(Ok(None)) = answers.built {
        assert(answers.built == Some(Ok::<Option<u64>, String>(None)));
    }
}

/// Whether `message` says of the directory shown as `dir` that its configuration failed to load
/// with `err`: the directory stands behind the words for that, and the error behind a colon.
pub open spec fn is_load_error(message: Seq<char>, dir: Seq<char>, err: Seq<char>) -> bool {
    &&& message.len() == 25 + dir.len() + 2 + err.len()
    &&& message.take(25) == "Failed to load config in "@
    &&& message.subrange(25, 25 + dir.len() as int) == dir
    &&& message.subrange(25 + dir.len() as int, 27 + dir.len() as int) == seq![':', ' ']
    &&& message.skip(27 + dir.len() as int) == err
}

proof fn lemma_load_error(dir: Seq<char>, err: Seq<char>)
    ensures
        is_load_error(load_error_text(dir, err), dir, err),
{
    reveal_strlit("Failed to load config in ");
    reveal_strlit(": ");
    let message = load_error_text(dir, err);
    assert(message.take(25) =~= "Failed to load config in "@);
    assert(message.subrange(25, 25 + dir.len() as int) =~= dir);
    assert(message.subrange(25 + dir.len() as int, 27 + dir.len() as int) =~= seq![':', ' ']);
    assert(message.skip(27 + dir.len() as int) =~= err);
}

/// What is asked while a configuration is loaded, and when: the directory is listed first; where
/// several files configure it, that is put into words; where one does, a scope is built from that
/// file and from the `.editorconfig`, and then validated.
pub proof fn law_when_each_step_of_a_load_comes(
    names: Seq<Seq<u8>>,
    dir: Seq<u8>,
    shown: Seq<char>,
    editorconfig: Option<EditorConfig>,
    answers: LoadAnswers,
)
    ensures
        ({
            let step = load_step(names, dir, shown, editorconfig, answers);
            let readable = answers.listing is Some && answers.listing->Some_0 is Some;
            let files = config_entries(names, dir, answers.listing->Some_0->Some_0@);
            let one = readable && files.len() == 1;
            &&& !(step is LoadEditorconfig)
            &&& step is ReadDirectory <==> answers.listing is None
            &&& step is DescribeConflict <==> readable && files.len() > 1 && answers.conflict_text
                is None
            &&& step matches LoadStepView::DescribeConflict { dir: at, files: several } ==> at == dir
                && several == files
            &&& step is Build <==> one && answers.built is None
            &&& step matches LoadStepView::Build { file, editorconfig: with } ==> file == files[0]
                && with == editorconfig
            &&& step is Validate <==> one && answers.built is Some && answers.built->Some_0 is Ok
                && answers.built->Some_0->Ok_0 is Some && answers.validated is None
            &&& step matches LoadStepView::Validate(scope) ==> answers.built->Some_0->Ok_0 == Some(
                scope,
            )
        }),
{
}

/// What is known of nested configurations, and the names that configuration files can have.
pub struct NestedConfigCtx {
    config_names: Vec<Vec<u8>>,
    editorconfig_path: Option<FsPath>,
    editorconfig_cache: Option<EditorconfigResult>,
    any_config_found: bool,
    scope_by_dir: PathMap,
    load_slots: PathMap,
    loads: Vec<Option<ConfigLoadResult>>,
}

impl NestedConfigCtx {
    /// What is known.
    pub closed spec fn state(&self) -> CtxState {
        CtxState {
            scopes: map_entries(self.scope_by_dir),
            loads: Map::new(
                |dir: Seq<Seq<u8>>| map_entries(self.load_slots).contains_key(dir),
                |dir: Seq<Seq<u8>>| self.loads@[map_entries(self.load_slots)[dir] as int],
            ),
            found: self.any_config_found,
        }
    }

    /// The names that configuration files can have.
    pub closed spec fn names(&self) -> Seq<Seq<u8>> {
        texts(self.config_names@)
    }

    /// What became of the `.editorconfig`, once it was loaded.
    pub closed spec fn editorconfig(&self) -> Option<EditorconfigResult> {
        self.editorconfig_cache
    }

    /// Where the `.editorconfig` is.
    pub closed spec fn editorconfig_at(&self) -> Option<Seq<u8>> {
        match self.editorconfig_path {
            Some(path) => Some(path@),
            None => None,
        }
    }

    /// Every directory that was asked for has a place of its own for its result, and what is
    /// known is consistent.
    pub closed spec fn wf(&self) -> bool {
        &&& self.slots_distinct()
        &&& self.state().consistent()
    }

    spec fn slots_distinct(&self) -> bool {
        let slots = map_entries(self.load_slots);
        &&& forall|dir: Seq<Seq<u8>>| #[trigger]
            slots.contains_key(dir) ==> slots[dir] < self.loads@.len()
        &&& forall|a: Seq<Seq<u8>>, b: Seq<Seq<u8>>|
            slots.contains_key(a) && slots.contains_key(b) && a != b ==> #[trigger] slots[a]
                != #[trigger] slots[b]
    }

    /// Nothing is known yet.
    pub fn new(config_names: Vec<Vec<u8>>, editorconfig_path: Option<FsPath>) -> (ctx: NestedConfigCtx)
        ensures
            ctx.wf(),
            ctx.state() == CtxState::empty(),
            ctx.names() == texts(config_names@),
            ctx.editorconfig() is None,
            ctx.editorconfig_at() == (match editorconfig_path {
                Some(path) => Some(path@),
                None => None,
            }),
    {
        let ctx = NestedConfigCtx {
            config_names,
            editorconfig_path,
            editorconfig_cache: None,
            any_config_found: false,
            scope_by_dir: map_new(),
            load_slots: map_new(),
            loads: Vec::new(),
        };
        assert(ctx.state() =~= CtxState::empty());
        ctx
    }

    /// Whether the file name of `path` is that of a configuration file.
    pub fn is_config_file(&self, path: &FsPath) -> (is_config: bool)
        ensures
            is_config == (config_at(self.names(), path@) is Some),
    {
        discover_config_file(&self.config_names, path).is_some()
    }

    /// The scope registered for `dir`, without a probe.
    pub fn lookup_scope(&self, dir: &FsPath) -> (scope: Option<u64>)
        ensures
            scope == (if self.state().scopes.contains_key(parts(dir@)) {
                Some(self.state().scopes[parts(dir@)])
            } else {
                None
            }),
    {
        map_get(&self.scope_by_dir, &dir.components())
    }

    /// What a well-formed context knows is consistent.
    pub proof fn law_state_is_consistent(&self)
        requires
            self.wf(),
        ensures
            self.state().consistent(),
    {
    }

    /// Whether any configuration was loaded.
    pub fn config_found(&self) -> (found: bool)
        ensures
            found == self.state().found,
    {
        self.any_config_found
    }

    /// Where the `.editorconfig` is.
    pub fn editorconfig_path(&self) -> (path: Option<&FsPath>)
        ensures
            match (path, self.editorconfig_at()) {
                (Some(p), Some(text)) => p@ == text,
                (None, None) => true,
                _ => false,
            },
    {
        match &self.editorconfig_path {
            Some(path) => Some(path),
            None => None,
        }
    }

    /// What became of the `.editorconfig`, once it was loaded.
    pub fn cached_editorconfig(&self) -> (cached: Option<&EditorconfigResult>)
        ensures
            match (cached, self.editorconfig()) {
                (Some(c), Some(result)) => *c == result,
                (None, None) => true,
                _ => false,
            },
    {
        match &self.editorconfig_cache {
            Some(result) => Some(result),
            None => None,
        }
    }

    /// Keeps what became of the `.editorconfig`; a failure is kept like a success, and only
    /// the first result counts.
    pub fn keep_editorconfig(&mut self, result: EditorconfigResult)
        requires
            old(self).wf(),
        ensures
            final(self).wf(),
            final(self).state() == old(self).state(),
            final(self).names() == old(self).names(),
            final(self).editorconfig_at() == old(self).editorconfig_at(),
            final(self).editorconfig() == (if old(self).editorconfig() is None {
                Some(result)
            } else {
                old(self).editorconfig()
            }),
    {
        if self.editorconfig_cache.is_none() {
            self.editorconfig_cache = Some(result);
        }
    }

    /// The next step of loading the configuration of `dir`: the `.editorconfig` comes first, and
    /// what is built is built with it; where it cannot be loaded no configuration can.
    pub fn get_or_load_direct_config<'a>(
        &'a self,
        dir: &FsPath,
        shown: &str,
        answers: &LoadAnswers,
    ) -> (step: LoadStep<'a>)
        ensures
            step@ == (match self.editorconfig() {
                None => LoadStepView::LoadEditorconfig,
                Some(Err(err)) => LoadStepView::Failed(err@),
                Some(Ok(editorconfig)) => load_step(
                    self.names(),
                    dir@,
                    shown@,
                    editorconfig,
                    *answers,
                ),
            }),
    {
        match &self.editorconfig_cache {
            None => LoadStep::LoadEditorconfig,
            Some(Err(err)) => LoadStep::Done(Err(err.clone())),
            Some(Ok(editorconfig)) => load_direct_config_in_dir(
                &self.config_names,
                dir,
                shown,
                editorconfig,
                answers,
            ),
        }
    }

    /// What is known of the configuration of `dir`; where nothing is, whether to load it.
    pub fn probe_dir(&mut self, dir: &FsPath) -> (step: ProbeStep)
        requires
            old(self).wf(),
        ensures
            final(self).wf(),
            final(self).state() == old(self).state().after_probe(parts(dir@)),
            step == old(self).state().probe(parts(dir@)),
            final(self).names() == old(self).names(),
            final(self).editorconfig() == old(self).editorconfig(),
            final(self).editorconfig_at() == old(self).editorconfig_at(),
    {
        proof {
            law_stays_consistent(self.state(), CtxEvent::Probe(parts(dir@)));
        }
        if let Some(scope) = self.lookup_scope(dir) {
            return ProbeStep::Known(Ok(Some(scope)));
        }
        let key: PathKey = dir.components();
        match map_get(&self.load_slots, &key) {
            None => {
                self.open_slot(key, None);
                ProbeStep::Load
            },
            Some(slot) => {
                let count: usize = self.loads.len();
                assert(old(self).state().loads.contains_key(parts(dir@)));
                assert(slot < count);
                let known: Option<ConfigLoadResult> = copy_load(&self.loads[slot as usize]);
                match known {
                    None => ProbeStep::Wait,
                    Some(result) => {
                        self.settle(key, &result);
                        ProbeStep::Known(result)
                    },
                }
            },
        }
    }

    /// Keeps `result` as what became of loading the configuration of `dir`, and hands back the
    /// result that stands: only the first one counts.
    pub fn finish_load(&mut self, dir: &FsPath, result: ConfigLoadResult) -> (kept: ConfigLoadResult)
        requires
            old(self).wf(),
        ensures
            final(self).wf(),
            final(self).state() == old(self).state().after_load(parts(dir@), result),
            kept == old(self).state().kept(parts(dir@), result),
            final(self).names() == old(self).names(),
            final(self).editorconfig() == old(self).editorconfig(),
            final(self).editorconfig_at() == old(self).editorconfig_at(),
    {
        let key: PathKey = dir.components();
        let ghost before = self.state();
        let ghost at = parts(dir@);
        proof {
            law_stays_consistent(before, CtxEvent::Loaded(at, result));
        }
        match map_get(&self.load_slots, &key) {
            None => {
                assert(!before.loads.contains_key(at));
                let copy: ConfigLoadResult = copy_result(&result);
                self.open_slot(dir.components(), Some(copy));
                self.settle(key, &result);
                result
            },
            Some(slot) => {
                let count: usize = self.loads.len();
                assert(before.loads.contains_key(at));
                assert(slot < count);
                let known: Option<ConfigLoadResult> = copy_load(&self.loads[slot as usize]);
                match known {
                    Some(first) => {
                        assert(before.loads.insert(at, Some(first)) =~= before.loads);
                        self.settle(key, &first);
                        first
                    },
                    None => {
                        let copy: ConfigLoadResult = copy_result(&result);
                        self.loads.set(slot as usize, Some(copy));
                        assert(self.state().loads =~= before.loads.insert(at, Some(result)));
                        self.settle(key, &result);
                        result
                    },
                }
            },
        }
    }

    /// A place for what becomes of loading a directory.
    fn open_slot(&mut self, key: PathKey, load: Option<ConfigLoadResult>)
        requires
            old(self).slots_distinct(),
            !old(self).state().loads.contains_key(texts(key@)),
        ensures
            final(self).slots_distinct(),
            final(self).state() == (CtxState {
                loads: old(self).state().loads.insert(texts(key@), load),
                ..old(self).state()
            }),
            final(self).names() == old(self).names(),
            final(self).editorconfig() == old(self).editorconfig(),
            final(self).editorconfig_at() == old(self).editorconfig_at(),
    {
        let ghost before = self.state();
        let ghost at = texts(key@);
        let slot: u64 = self.loads.len() as u64;
        self.loads.push(load);
        map_insert(&mut self.load_slots, key, slot);
        assert(self.state().loads =~= before.loads.insert(at, load));
    }

    /// Registers a loaded scope, unless the directory has one already.
    fn settle(&mut self, key: PathKey, result: &ConfigLoadResult)
        requires
            old(self).slots_distinct(),
        ensures
            final(self).slots_distinct(),
            final(self).state() == old(self).state().settle(texts(key@), *result),
            final(self).names() == old(self).names(),
            final(self).editorconfig() == old(self).editorconfig(),
            final(self).editorconfig_at() == old(self).editorconfig_at(),
    {
        if let Ok(Some(scope)) = result {
            self.any_config_found = true;
            if map_get(&self.scope_by_dir, &key).is_none() {
                map_insert(&mut self.scope_by_dir, key, *scope);
            }
        }
        assert(self.state() =~= old(self).state().settle(texts(key@), *result));
    }
}

} // verus!

//! A run over the paths of a command line: what each argument is, where the walk starts, and
//! what the run comes to.

use vstd::prelude::*;
use vstd::seq_lib::*;
use vstd::slice::slice_to_vec;
use vstd::utf8::*;

use crate::components::{
    added_parts, begins_with_dot, law_joined_components, law_separators_count_for_nothing,
    law_single_component,
};
use crate::glob::{anywhere, GlobMatcher, BRACE};
use crate::path::{
    is_below, is_rooted, joined, lemma_joined_below, parts, texts, FsPath, PathKey, DOT, SLASH,
};
use crate::path_index::{keys, set_insert, set_new, set_paths, PathSet};
use crate::text::{copy_range, has_byte, lossy_text, utf8_lossy};
use crate::visitor::path_texts;

verus! {

/// The byte `!`, which marks an exclude pattern.
pub const BANG: u8 = 33;

/// The bytes that make a glob pattern besides `{`: `*`, `?` and `[`.
pub const STAR: u8 = 42;
pub const QUESTION: u8 = 63;
pub const BRACKET: u8 = 91;

/// One path argument, and whether the path that it would name exists.
///
/// The latter counts only where [`glob_candidate`] asks for it.
#[derive(Debug)]
pub struct PathArg {
    pub path: FsPath,
    pub exists: bool,
}

/// What a path argument is.
#[derive(Debug)]
pub enum ArgClass {
    /// A pattern for what to leave out; it keeps its `!`.
    Exclude(Vec<u8>),
    /// A pattern for what to select.
    Glob(Vec<u8>),
    /// A path to start from.
    Target(FsPath),
}

/// What a path argument is, as contracts speak of it.
pub enum ArgView {
    Exclude(Seq<u8>),
    Glob(Seq<u8>),
    Target(Seq<u8>),
}

impl View for ArgClass {
    type V = ArgView;

    open spec fn view(&self) -> ArgView {
        match self {
            ArgClass::Exclude(text) => ArgView::Exclude(text@),
            ArgClass::Glob(text) => ArgView::Glob(text@),
            ArgClass::Target(path) => ArgView::Target(path@),
        }
    }
}

/// What an argument is shows its whole text, or its whole path.
pub proof fn law_arg_class_shows_all(class: ArgClass)
    ensures
        class matches ArgClass::Exclude(text) ==> class@ == ArgView::Exclude(text@),
        class matches ArgClass::Glob(text) ==> class@ == ArgView::Glob(text@),
        class matches ArgClass::Target(path) ==> class@ == ArgView::Target(path@),
{
}

/// Whether an argument is a pattern for what to leave out.
pub open spec fn is_exclude(text: Seq<u8>) -> bool {
    text.len() > 0 && text[0] == BANG
}

/// `text` without the `/` it begins with, however many there are.
pub open spec fn without_slashes(text: Seq<u8>) -> Seq<u8>
    decreases text.len(),
{
    if text.len() > 0 && text[0] == SLASH {
        without_slashes(text.skip(1))
    } else {
        text
    }
}

/// `text` without a `./` in front, and without the `/` that follow it.
pub open spec fn without_dot_slash(text: Seq<u8>) -> Seq<u8> {
    if text.len() >= 2 && text[0] == DOT && text[1] == SLASH {
        without_slashes(text.skip(2))
    } else {
        text
    }
}

/// Whether `text` holds a byte that glob patterns are made with.
pub open spec fn has_glob_chars(text: Seq<u8>) -> bool {
    text.contains(STAR) || text.contains(QUESTION) || text.contains(BRACKET) || text.contains(
        BRACE,
    )
}

/// What the argument `path`, which reads as `text`, is; `exists` says whether the path that
/// it would name exists.
pub open spec fn arg_class(
    cwd: Seq<u8>,
    path: Seq<u8>,
    text: Seq<u8>,
    exists: bool,
) -> ArgView {
    let plain = without_dot_slash(text);
    if is_exclude(text) {
        ArgView::Exclude(text)
    } else if has_glob_chars(plain) && !exists {
        ArgView::Glob(plain)
    } else if is_rooted(path) {
        ArgView::Target(path)
    } else if plain == seq![DOT] {
        ArgView::Target(cwd)
    } else {
        ArgView::Target(joined(cwd, plain))
    }
}

/// What each argument is.
pub open spec fn arg_classes(cwd: Seq<u8>, args: Seq<PathArg>) -> Seq<ArgView> {
    Seq::new(
        args.len(),
        |i: int| arg_class(cwd, args[i].path@, utf8_lossy(args[i].path@), args[i].exists),
    )
}

/// The paths among the arguments, in their order.
pub open spec fn targets_of(classes: Seq<ArgView>) -> Seq<Seq<u8>>
    decreases classes.len(),
{
    if classes.len() == 0 {
        Seq::empty()
    } else {
        let before = targets_of(classes.drop_last());
        match classes.last() {
            ArgView::Target(path) => before.push(path),
            _ => before,
        }
    }
}

/// The glob patterns among the arguments, in their order.
pub open spec fn globs_of(classes: Seq<ArgView>) -> Seq<Seq<u8>>
    decreases classes.len(),
{
    if classes.len() == 0 {
        Seq::empty()
    } else {
        let before = globs_of(classes.drop_last());
        match classes.last() {
            ArgView::Glob(text) => before.push(text),
            _ => before,
        }
    }
}

/// The exclude patterns among the arguments, in their order.
pub open spec fn excludes_of(classes: Seq<ArgView>) -> Seq<Seq<u8>>
    decreases classes.len(),
{
    if classes.len() == 0 {
        Seq::empty()
    } else {
        let before = excludes_of(classes.drop_last());
        match classes.last() {
            ArgView::Exclude(text) => before.push(text),
            _ => before,
        }
    }
}

/// `text` without a `./` in front, and without the `/` that follow it.
pub fn strip_dot_slash(text: &[u8]) -> (plain: Vec<u8>)
    ensures
        plain@ == without_dot_slash(text@),
{
    if text.len() >= 2 && text[0] == DOT && text[1] == SLASH {
        let mut start: usize = 2;
        while start < text.len() && text[start] == SLASH
            invariant
                2 <= start <= text@.len(),
                without_slashes(text@.skip(2)) == without_slashes(text@.skip(start as int)),
            decreases text@.len() - start,
        {
            assert(text@.skip(start as int).skip(1) =~= text@.skip(start + 1));
            start = start + 1;
        }
        let plain: Vec<u8> = copy_range(text, start, text.len());
        assert(plain@ =~= text@.skip(start as int));
        plain
    } else {
        slice_to_vec(text)
    }
}

fn contains_glob_chars(text: &[u8]) -> (found: bool)
    ensures
        found == has_glob_chars(text@),
{
    has_byte(text, STAR) || has_byte(text, QUESTION) || has_byte(text, BRACKET) || has_byte(
        text,
        BRACE,
    )
}

/// Whether an argument is a glob pattern: it looks like one, and is not the name of something
/// that exists.
pub fn is_glob_pattern(text: &[u8], exists: bool) -> (is_glob: bool)
    ensures
        is_glob == (has_glob_chars(text@) && !exists),
{
    contains_glob_chars(text) && !exists
}

/// The path whose existence decides whether the argument, which reads as `text`, is a glob
/// pattern; none where that is clear without.
pub open spec fn candidate_of(cwd: Seq<u8>, text: Seq<u8>) -> Option<Seq<u8>> {
    if !is_exclude(text) && has_glob_chars(without_dot_slash(text)) {
        Some(joined(cwd, without_dot_slash(text)))
    } else {
        None
    }
}

/// The path whose existence decides whether the argument `path` is a glob pattern.
pub fn glob_candidate(cwd: &FsPath, path: &FsPath) -> (candidate: Option<FsPath>)
    ensures
        match (candidate, candidate_of(cwd@, utf8_lossy(path@))) {
            (Some(p), Some(text)) => p@ == text,
            (None, None) => true,
            _ => false,
        },
        valid_utf8(path@) ==> utf8_lossy(path@) == path@,
{
    let text: Vec<u8> = lossy_text(path.as_bytes());
    candidate_for_text(cwd, text.as_slice())
}

/// The path whose existence decides whether an argument that reads as `text` is a glob
/// pattern.
pub fn candidate_for_text(cwd: &FsPath, text: &[u8]) -> (candidate: Option<FsPath>)
    ensures
        match (candidate, candidate_of(cwd@, text@)) {
            (Some(p), Some(t)) => p@ == t,
            (None, None) => true,
            _ => false,
        },
{
    if text.len() > 0 && text[0] == BANG {
        return None;
    }
    let plain: Vec<u8> = strip_dot_slash(text);
    if contains_glob_chars(plain.as_slice()) {
        Some(cwd.join(plain.as_slice()))
    } else {
        None
    }
}

/// What the argument `path`, which reads as `text`, is.
pub fn classify_arg(cwd: &FsPath, path: &FsPath, text: &[u8], exists: bool) -> (class: ArgClass)
    ensures
        class@ == arg_class(cwd@, path@, text@, exists),
{
    if text.len() > 0 && text[0] == BANG {
        return ArgClass::Exclude(slice_to_vec(text));
    }
    let plain: Vec<u8> = strip_dot_slash(text);
    if is_glob_pattern(plain.as_slice(), exists) {
        return ArgClass::Glob(plain);
    }
    if path.is_absolute() {
        return ArgClass::Target(path.duplicate());
    }
    if plain.len() == 1 && plain[0] == DOT {
        assert(plain@ =~= seq![DOT]);
        return ArgClass::Target(cwd.duplicate());
    }
    ArgClass::Target(cwd.join(plain.as_slice()))
}

/// The paths in `paths` without those that spell a path that came before.
pub open spec fn first_spellings(paths: Seq<Seq<u8>>) -> Seq<Seq<u8>>
    decreases paths.len(),
{
    if paths.len() == 0 {
        Seq::empty()
    } else {
        let before = first_spellings(paths.drop_last());
        if all_parts(before).contains(parts(paths.last())) {
            before
        } else {
            before.push(paths.last())
        }
    }
}

/// The components of each of some texts.
pub open spec fn all_parts(paths: Seq<Seq<u8>>) -> Seq<Seq<Seq<u8>>> {
    Seq::new(paths.len(), |i: int| parts(paths[i]))
}

/// Each path has its own components.
pub proof fn law_all_parts_are_all(paths: Seq<Seq<u8>>)
    ensures
        all_parts(paths).len() == paths.len(),
        forall|i: int| 0 <= i < paths.len() ==> #[trigger] all_parts(paths)[i] == parts(paths[i]),
{
}

/// What is known of a path that a run starts from.
#[derive(Debug)]
pub struct TargetProbe {
    pub path: FsPath,
    pub is_dir: bool,
    /// Whether a global ignore rule names the path or a directory above it.
    pub ignored: bool,
}

/// The directories to walk, in the order of the targets: those that are not ignored.
pub open spec fn dirs_of(probes: Seq<TargetProbe>) -> Seq<Seq<u8>>
    decreases probes.len(),
{
    if probes.len() == 0 {
        Seq::empty()
    } else {
        let before = dirs_of(probes.drop_last());
        if probes.last().is_dir && !probes.last().ignored {
            before.push(probes.last().path@)
        } else {
            before
        }
    }
}

/// The files to process, in the order of the targets: those that are not ignored.
pub open spec fn files_of(probes: Seq<TargetProbe>) -> Seq<Seq<u8>>
    decreases probes.len(),
{
    if probes.len() == 0 {
        Seq::empty()
    } else {
        let before = files_of(probes.drop_last());
        if !probes.last().is_dir && !probes.last().ignored {
            before.push(probes.last().path@)
        } else {
            before
        }
    }
}

/// Which of the targets are to be walked, and which are files to process.
pub fn split_targets(probes: &[TargetProbe]) -> (split: (Vec<FsPath>, Vec<FsPath>))
    ensures
        path_texts(split.0@) == dirs_of(probes@),
        path_texts(split.1@) == files_of(probes@),
{
    let mut dirs: Vec<FsPath> = Vec::new();
    let mut files: Vec<FsPath> = Vec::new();
    let mut i: usize = 0;
    while i < probes.len()
        invariant
            i <= probes@.len(),
            path_texts(dirs@) == dirs_of(probes@.take(i as int)),
            path_texts(files@) == files_of(probes@.take(i as int)),
        decreases probes@.len() - i,
    {
        let probe: &TargetProbe = &probes[i];
        assert(probes@.take(i + 1).drop_last() =~= probes@.take(i as int));
        if !probe.ignored {
            if probe.is_dir {
                let ghost before = path_texts(dirs@);
                dirs.push(probe.path.duplicate());
                assert(path_texts(dirs@) =~= before.push(probe.path@));
            } else {
                let ghost before = path_texts(files@);
                files.push(probe.path.duplicate());
                assert(path_texts(files@) =~= before.push(probe.path@));
            }
        }
        i = i + 1;
    }
    assert(probes@.take(probes@.len() as int) =~= probes@);
    (dirs, files)
}

/// What a walk came to.
#[derive(Debug)]
pub struct WalkReport {
    /// The first error that ended it.
    pub fatal: Option<String>,
    /// Whether any nested configuration was loaded, in it or before it.
    pub config_found: bool,
}

/// What the caller has found out so far during a run.
#[derive(Debug)]
pub struct RunAnswers {
    /// Whether the global ignore rules could be read.
    pub matchers: Option<Result<(), String>>,
    /// What is known of each path to start from.
    pub targets: Option<Vec<TargetProbe>>,
    /// Whether the files among them could be processed, and whether any nested configuration was
    /// loaded for them.
    pub files: Option<Result<bool, String>>,
    /// What the walk of the directories among them came to.
    pub walk: Option<WalkReport>,
}

/// What to do next in a run.
#[derive(Debug)]
pub enum RunStep {
    /// Read the global ignore rules.
    BuildMatchers,
    /// Find out what is known of these paths.
    ProbeTargets(Vec<FsPath>),
    /// Process these files.
    ProcessFiles(Vec<FsPath>),
    /// Walk these directories.
    Walk(Vec<FsPath>),
    /// Nothing: this is the result, whether any configuration was used.
    Done(Result<bool, String>),
}

/// What to do next in a run, as contracts speak of it.
pub enum RunStepView {
    BuildMatchers,
    ProbeTargets(Seq<Seq<u8>>),
    ProcessFiles(Seq<Seq<u8>>),
    Walk(Seq<Seq<u8>>),
    Done(Result<bool, String>),
}

impl View for RunStep {
    type V = RunStepView;

    open spec fn view(&self) -> RunStepView {
        match self {
            RunStep::BuildMatchers => RunStepView::BuildMatchers,
            RunStep::ProbeTargets(paths) => RunStepView::ProbeTargets(path_texts(paths@)),
            RunStep::ProcessFiles(paths) => RunStepView::ProcessFiles(path_texts(paths@)),
            RunStep::Walk(paths) => RunStepView::Walk(path_texts(paths@)),
            RunStep::Done(result) => RunStepView::Done(*result),
        }
    }
}

/// A step shows all the paths that it holds, or the result.
pub proof fn law_run_step_shows_all(step: RunStep)
    ensures
        step is BuildMatchers <==> step@ is BuildMatchers,
        step matches RunStep::ProbeTargets(paths) ==> step@ == RunStepView::ProbeTargets(
            path_texts(paths@),
        ),
        step matches RunStep::ProcessFiles(paths) ==> step@ == RunStepView::ProcessFiles(
            path_texts(paths@),
        ),
        step matches RunStep::Walk(paths) ==> step@ == RunStepView::Walk(path_texts(paths@)),
        step matches RunStep::Done(result) ==> step@ == RunStepView::Done(result),
{
}

/// What to do next in a run that starts from `starts`.
///
/// An error ends it wherever it comes up, and where there is no directory to walk nothing is
/// walked. Otherwise it comes to whether any configuration was used: a root configuration, or one
/// that was found on the way.
pub open spec fn run_step(
    starts: Seq<Seq<u8>>,
    root_has_config: bool,
    answers: RunAnswers,
) -> RunStepView {
    match answers.matchers {
        None => RunStepView::BuildMatchers,
        Some(Err(err)) => RunStepView::Done(Err(err)),
        Some(Ok(())) => match answers.targets {
            None => RunStepView::ProbeTargets(starts),
            Some(probes) => match answers.files {
                None => RunStepView::ProcessFiles(files_of(probes@)),
                Some(Err(err)) => RunStepView::Done(Err(err)),
                Some(Ok(config_found)) => if dirs_of(probes@).len() == 0 {
                    RunStepView::Done(Ok(root_has_config || config_found))
                } else {
                    match answers.walk {
                        None => RunStepView::Walk(dirs_of(probes@)),
                        Some(report) => match report.fatal {
                            Some(err) => RunStepView::Done(Err(err)),
                            None => RunStepView::Done(Ok(root_has_config || report.config_found)),
                        },
                    }
                },
            },
        },
    }
}

/// The paths of a command line.
pub struct ScopedWalker {
    cwd: FsPath,
    paths: Vec<FsPath>,
    glob_patterns: Vec<Vec<u8>>,
    exclude_patterns: Vec<Vec<u8>>,
}

impl ScopedWalker {
    /// The working directory.
    pub closed spec fn cwd(&self) -> Seq<u8> {
        self.cwd@
    }

    /// The paths to start from.
    pub closed spec fn paths(&self) -> Seq<Seq<u8>> {
        path_texts(self.paths@)
    }

    /// The patterns for what to select.
    pub closed spec fn globs(&self) -> Seq<Seq<u8>> {
        texts(self.glob_patterns@)
    }

    /// The patterns for what to leave out.
    pub closed spec fn excludes(&self) -> Seq<Seq<u8>> {
        texts(self.exclude_patterns@)
    }

    /// Sorts path arguments into paths to start from, glob patterns and exclude patterns.
    pub fn new(cwd: FsPath, args: &[PathArg]) -> (walker: ScopedWalker)
        ensures
            walker.cwd() == cwd@,
            walker.paths() == targets_of(arg_classes(cwd@, args@)),
            walker.globs() == globs_of(arg_classes(cwd@, args@)),
            walker.excludes() == excludes_of(arg_classes(cwd@, args@)),
            forall|i: int|
                0 <= i < args@.len() && valid_utf8((#[trigger] args@[i]).path@) ==> utf8_lossy(
                    args@[i].path@,
                ) == args@[i].path@,
    {
        let mut paths: Vec<FsPath> = Vec::new();
        let mut glob_patterns: Vec<Vec<u8>> = Vec::new();
        let mut exclude_patterns: Vec<Vec<u8>> = Vec::new();
        let ghost classes = arg_classes(cwd@, args@);
        let mut i: usize = 0;
        while i < args.len()
            invariant
                i <= args@.len(),
                classes == arg_classes(cwd@, args@),
                path_texts(paths@) == targets_of(classes.take(i as int)),
                texts(glob_patterns@) == globs_of(classes.take(i as int)),
                texts(exclude_patterns@) == excludes_of(classes.take(i as int)),
                forall|j: int|
                    0 <= j < i && valid_utf8((#[trigger] args@[j]).path@) ==> utf8_lossy(
                        args@[j].path@,
                    ) == args@[j].path@,
            decreases args@.len() - i,
        {
            let arg: &PathArg = &args[i];
            let text: Vec<u8> = lossy_text(arg.path.as_bytes());
            let ghost some_paths = path_texts(paths@);
            let ghost some_globs = texts(glob_patterns@);
            let ghost some_excludes = texts(exclude_patterns@);
            let class: ArgClass = classify_arg(&cwd, &arg.path, text.as_slice(), arg.exists);
            assert(classes.take(i + 1).drop_last() =~= classes.take(i as int));
            assert(classes.take(i + 1).last() == class@);
            match class {
                ArgClass::Exclude(pattern) => {
                    exclude_patterns.push(pattern);
                    assert(texts(exclude_patterns@) =~= some_excludes.push(pattern@));
                },
                ArgClass::Glob(pattern) => {
                    glob_patterns.push(pattern);
                    assert(texts(glob_patterns@) =~= some_globs.push(pattern@));
                },
                ArgClass::Target(path) => {
                    paths.push(path);
                    assert(path_texts(paths@) =~= some_paths.push(path@));
                },
            }
            i = i + 1;
        }
        assert(classes.take(args@.len() as int) =~= classes);
        ScopedWalker { cwd, paths, glob_patterns, exclude_patterns }
    }

    /// The paths that a run starts from, each once.
    ///
    /// Where there are glob patterns, the working directory is among them, and where no paths
    /// are given it is the only one.
    pub open spec fn starts(&self) -> Seq<Seq<u8>> {
        first_spellings(
            if self.globs().len() > 0 || self.paths().len() == 0 {
                self.paths().push(self.cwd())
            } else {
                self.paths()
            },
        )
    }

    /// The paths that a run starts from, each once.
    pub fn initial_targets(&self) -> (targets: Vec<FsPath>)
        ensures
            path_texts(targets@) == self.starts(),
    {
        let mut targets: Vec<FsPath> = Vec::new();
        let mut known: PathSet = set_new();
        let ghost all = self.paths();
        let mut i: usize = 0;
        assert(path_texts(targets@) =~= first_spellings(all.take(0)));
        while i < self.paths.len()
            invariant
                i <= self.paths@.len(),
                all == self.paths(),
                path_texts(targets@) == first_spellings(all.take(i as int)),
                forall|key: Seq<Seq<u8>>| #[trigger]
                    set_paths(known).contains(key) <==> all_parts(path_texts(targets@)).contains(
                        key,
                    ),
            decreases self.paths@.len() - i,
        {
            assert(all.take(i + 1).drop_last() =~= all.take(i as int));
            assert(all.take(i + 1).last() == self.paths@[i as int]@);
            Self::add_target(&mut targets, &mut known, &self.paths[i]);
            i = i + 1;
        }
        assert(all.take(all.len() as int) =~= all);
        if self.glob_patterns.len() > 0 || self.paths.len() == 0 {
            assert(all.push(self.cwd()).drop_last() =~= all);
            Self::add_target(&mut targets, &mut known, &self.cwd);
        }
        targets
    }

    /// Appends a path, unless it is there under this or another spelling.
    fn add_target(targets: &mut Vec<FsPath>, known: &mut PathSet, path: &FsPath)
        requires
            forall|key: Seq<Seq<u8>>| #[trigger]
                set_paths(*old(known)).contains(key) <==> all_parts(
                    path_texts(old(targets)@),
                ).contains(key),
        ensures
            path_texts(final(targets)@) == (if all_parts(path_texts(old(targets)@)).contains(
                parts(path@),
            ) {
                path_texts(old(targets)@)
            } else {
                path_texts(old(targets)@).push(path@)
            }),
            forall|key: Seq<Seq<u8>>| #[trigger]
                set_paths(*final(known)).contains(key) <==> all_parts(
                    path_texts(final(targets)@),
                ).contains(key),
    {
        let key: PathKey = path.components();
        if set_insert(known, key) {
            let ghost before = path_texts(targets@);
            targets.push(path.duplicate());
            assert(path_texts(targets@) =~= before.push(path@));
            proof {
                lemma_one_more(before, path@);
            }
        } else {
            assert(set_paths(*known) =~= set_paths(*old(known)));
        }
    }

    /// The next step of a run; `root_has_config` says whether there is a root configuration
    /// file.
    pub fn run(&self, root_has_config: bool, answers: &RunAnswers) -> (step: RunStep)
        ensures
            step@ == run_step(self.starts(), root_has_config, *answers),
    {
        match &answers.matchers {
            None => {
                return RunStep::BuildMatchers;
            },
            Some(Err(err)) => {
                return RunStep::Done(Err(err.clone()));
            },
            Some(Ok(())) => {},
        }
        let probes: &Vec<TargetProbe> = match &answers.targets {
            None => {
                return RunStep::ProbeTargets(self.initial_targets());
            },
            Some(probes) => probes,
        };
        let (dirs, files) = split_targets(probes.as_slice());
        let config_found: bool = match &answers.files {
            None => {
                return RunStep::ProcessFiles(files);
            },
            Some(Err(err)) => {
                return RunStep::Done(Err(err.clone()));
            },
            Some(Ok(config_found)) => *config_found,
        };
        assert(path_texts(dirs@).len() == dirs@.len());
        if dirs.len() == 0 {
            return RunStep::Done(Ok(root_has_config || config_found));
        }
        match &answers.walk {
            None => RunStep::Walk(dirs),
            Some(report) => match &report.fatal {
                Some(err) => RunStep::Done(Err(err.clone())),
                None => RunStep::Done(Ok(root_has_config || report.config_found)),
            },
        }
    }

    /// The matcher for the glob patterns during the walk of `dirs`; none where there are no
    /// patterns.
    pub fn glob_matcher(&self, dirs: &[FsPath]) -> (matcher: Option<GlobMatcher>)
        ensures
            match matcher {
                None => self.globs().len() == 0,
                Some(m) => {
                    &&& self.globs().len() > 0
                    &&& m.wf()
                    &&& m.cwd() == self.cwd()
                    &&& m.patterns() == Seq::new(
                        self.globs().len(),
                        |i: int| anywhere(self.globs()[i]),
                    )
                    &&& forall|key: Seq<Seq<u8>>| #[trigger]
                        m.concrete().contains(key) <==> keys(dirs@).contains(key) && key != parts(
                            self.cwd(),
                        )
                    &&& m.seen() == Set::<Seq<Seq<u8>>>::empty()
                },
            },
    {
        if self.glob_patterns.len() == 0 {
            return None;
        }
        let matcher: GlobMatcher = GlobMatcher::new(
            self.cwd.duplicate(),
            &self.glob_patterns,
            dirs,
        );
        assert(matcher.patterns() =~= Seq::new(
            self.globs().len(),
            |i: int| anywhere(self.globs()[i]),
        ));
        Some(matcher)
    }

    /// The working directory.
    pub fn working_dir(&self) -> (cwd: &FsPath)
        ensures
            cwd@ == self.cwd(),
    {
        &self.cwd
    }

    /// The patterns for what to leave out, each with its `!`.
    pub fn exclude_patterns(&self) -> (patterns: &Vec<Vec<u8>>)
        ensures
            texts(patterns@) == self.excludes(),
    {
        &self.exclude_patterns
    }
}

/// One path more is the components of one path more.
proof fn lemma_one_more(paths: Seq<Seq<u8>>, path: Seq<u8>)
    ensures
        forall|key: Seq<Seq<u8>>| #[trigger]
            all_parts(paths.push(path)).contains(key) <==> all_parts(paths).contains(key) || key
                == parts(path),
{
    let before = all_parts(paths);
    let at = parts(path);
    assert(all_parts(paths.push(path)) =~= before.push(at));
    broadcast use vstd::seq_lib::lemma_seq_contains_after_push;

}

/// Every argument is exactly one of the three: a path, a glob pattern, an exclude pattern.
pub proof fn law_args_are_partitioned(classes: Seq<ArgView>)
    ensures
        targets_of(classes).len() + globs_of(classes).len() + excludes_of(classes).len()
            == classes.len(),
    decreases classes.len(),
{
    if classes.len() > 0 {
        law_args_are_partitioned(classes.drop_last());
    }
}

/// A relative argument that is no pattern names a path below the working directory.
pub proof fn law_relative_target_below_cwd(
    cwd: Seq<u8>,
    path: Seq<u8>,
    text: Seq<u8>,
    exists: bool,
)
    requires
        !is_rooted(path),
        !is_rooted(text),
    ensures
        arg_class(cwd, path, text, exists) matches ArgView::Target(target) ==> is_below(
            target,
            cwd,
        ),
{
    let plain = without_dot_slash(text);
    if text.len() >= 2 && text[0] == DOT && text[1] == SLASH {
        lemma_without_slashes(text.skip(2));
    }
    lemma_joined_below(cwd, plain);
    assert(parts(cwd).is_prefix_of(parts(cwd))) by {
        assert(parts(cwd).take(parts(cwd).len() as int) =~= parts(cwd));
    }
}

proof fn lemma_without_slashes(text: Seq<u8>)
    ensures
        !is_rooted(without_slashes(text)),
    decreases text.len(),
{
    if text.len() > 0 && text[0] == SLASH {
        lemma_without_slashes(text.skip(1));
    }
}

/// Whether `plain` is `text` without a `./` in front and without the `/` that follow it.
pub open spec fn is_undotted(text: Seq<u8>, plain: Seq<u8>) -> bool {
    if text.len() >= 2 && text[0] == 46 && text[1] == 47 {
        &&& plain.len() + 2 <= text.len()
        &&& plain == text.skip(text.len() - plain.len())
        &&& forall|i: int| 2 <= i < text.len() - plain.len() ==> text[i] == 47
        &&& plain.len() == 0 || plain[0] != 47
    } else {
        plain == text
    }
}

/// Of an argument, a `./` in front and the `/` that follow it are dropped, and nothing else.
pub proof fn law_only_dot_slash_is_dropped(text: Seq<u8>)
    ensures
        is_undotted(text, without_dot_slash(text)),
{
    if text.len() >= 2 && text[0] == DOT && text[1] == SLASH {
        lemma_leading_slashes(text.skip(2));
        let plain = without_dot_slash(text);
        assert(plain =~= text.skip(text.len() - plain.len()));
        assert forall|i: int| 2 <= i < text.len() - plain.len() implies text[i] == 47 by {
            assert(text.skip(2)[i - 2] == text[i]);
        }
    }
}

proof fn lemma_leading_slashes(text: Seq<u8>)
    ensures
        ({
            let rest = without_slashes(text);
            &&& rest.len() <= text.len()
            &&& rest == text.skip(text.len() - rest.len())
            &&& forall|i: int| 0 <= i < text.len() - rest.len() ==> text[i] == 47
            &&& rest.len() == 0 || rest[0] != 47
        }),
    decreases text.len(),
{
    if text.len() > 0 && text[0] == SLASH {
        lemma_leading_slashes(text.skip(1));
        let rest = without_slashes(text);
        assert(rest =~= text.skip(text.len() - rest.len()));
        assert forall|i: int| 0 <= i < text.len() - rest.len() implies text[i] == 47 by {
            if i > 0 {
                assert(text.skip(1)[i - 1] == text[i]);
            }
        }
    } else {
        assert(text =~= text.skip(0));
    }
}

/// Whether `text` holds a `*`, a `?`, a `[` or a `{`.
pub open spec fn looks_like_a_glob(text: Seq<u8>) -> bool {
    exists|i: int|
        0 <= i < text.len() && (#[trigger] text[i] == 42 || text[i] == 63 || text[i] == 91
            || text[i] == 123)
}

/// An argument that begins with `!` is an exclude pattern, as it is, and no other is. Of the
/// others, those that hold a `*`, a `?`, a `[` or a `{` and do not name something that exists are
/// glob patterns, and no others are.
pub proof fn law_which_arguments_are_patterns(
    cwd: Seq<u8>,
    path: Seq<u8>,
    text: Seq<u8>,
    exists: bool,
)
    ensures
        ({
            let class = arg_class(cwd, path, text, exists);
            let excludes = text.len() > 0 && text[0] == 33;
            &&& class is Exclude <==> excludes
            &&& class matches ArgView::Exclude(pattern) ==> pattern == text
            &&& class is Glob <==> !excludes && !exists && exists|plain: Seq<u8>| #[trigger]
                is_undotted(text, plain) && looks_like_a_glob(plain)
            &&& class matches ArgView::Glob(pattern) ==> is_undotted(text, pattern)
        }),
{
    let plain = without_dot_slash(text);
    law_only_dot_slash_is_dropped(text);
    lemma_glob_bytes(plain);
    assert forall|other: Seq<u8>| #[trigger] is_undotted(text, other) implies other == plain by {
        lemma_undotted_once(text, plain, other);
    }
}

proof fn lemma_undotted_once(text: Seq<u8>, a: Seq<u8>, b: Seq<u8>)
    requires
        is_undotted(text, a),
        is_undotted(text, b),
    ensures
        a == b,
{
    if text.len() >= 2 && text[0] == 46 && text[1] == 47 {
        if a.len() < b.len() {
            assert(b[0] == text[text.len() - b.len()]);
        } else if b.len() < a.len() {
            assert(a[0] == text[text.len() - a.len()]);
        }
    }
}

proof fn lemma_glob_bytes(text: Seq<u8>)
    ensures
        has_glob_chars(text) <==> looks_like_a_glob(text),
{
    if looks_like_a_glob(text) {
        let i: int = choose|i: int|
            0 <= i < text.len() && (#[trigger] text[i] == 42 || text[i] == 63 || text[i] == 91
                || text[i] == 123);
        assert(text.contains(text[i]));
    }
    if text.contains(STAR) {
        let i: int = choose|i: int| 0 <= i < text.len() && text[i] == STAR;
        assert(text[i] == 42);
    }
    if text.contains(QUESTION) {
        let i: int = choose|i: int| 0 <= i < text.len() && text[i] == QUESTION;
        assert(text[i] == 63);
    }
    if text.contains(BRACKET) {
        let i: int = choose|i: int| 0 <= i < text.len() && text[i] == BRACKET;
        assert(text[i] == 91);
    }
    if text.contains(BRACE) {
        let i: int = choose|i: int| 0 <= i < text.len() && text[i] == BRACE;
        assert(text[i] == 123);
    }
}

/// An argument that is no pattern names the path that it spells, seen from the working directory:
/// an absolute one itself, as it is spelled, and a relative one the path with the components of
/// the working directory and, behind them, its own, a `.` in front left aside. So it names the
/// working directory itself only where it has no name of its own.
pub proof fn law_argument_names_what_it_spells(
    cwd: Seq<u8>,
    path: Seq<u8>,
    text: Seq<u8>,
    exists: bool,
)
    requires
        cwd.len() > 0,
        is_rooted(text) ==> is_rooted(path),
    ensures
        ({
            let class = arg_class(cwd, path, text, exists);
            &&& path.len() > 0 && path[0] == 47 ==> (class matches ArgView::Target(target)
                ==> target == path)
            &&& !(path.len() > 0 && path[0] == 47) ==> (class matches ArgView::Target(target)
                ==> parts(target) == parts(cwd) + added_parts(text))
            &&& !(path.len() > 0 && path[0] == 47) && !begins_with_dot(text) ==> (
            class matches ArgView::Target(target) ==> target == joined(cwd, text))
        }),
{
    let plain = without_dot_slash(text);
    law_only_dot_slash_is_dropped(text);
    if !is_rooted(path) {
        lemma_undotted_parts(text, plain);
        assert(!is_rooted(plain));
        law_joined_components(cwd, plain);
        if plain == seq![DOT] {
            assert(!plain.contains(47)) by {
                assert(plain.len() == 1 && plain[0] == 46);
            }
            law_single_component(plain);
            assert(parts(plain)[0] == seq![46u8]);
            assert(added_parts(plain) =~= Seq::<Seq<u8>>::empty());
            assert(parts(cwd) =~= parts(cwd) + added_parts(plain));
        }
    }
}

/// A `./` in front adds nothing.
proof fn lemma_undotted_parts(text: Seq<u8>, plain: Seq<u8>)
    requires
        is_undotted(text, plain),
        !is_rooted(text),
    ensures
        added_parts(plain) == added_parts(text),
        !is_rooted(plain),
{
    if text.len() >= 2 && text[0] == 46 && text[1] == 47 {
        let n: int = text.len() - plain.len();
        let front = text.take(n);
        lemma_dot_and_slashes(front);
        assert(front + plain =~= text);
        assert(front.last() == 47);
        assert(joined(front, plain) =~= text);
        law_joined_components(front, plain);
        assert(parts(text) == seq![seq![46u8]] + added_parts(plain));
        assert(parts(text)[0] == seq![46u8]);
        assert(added_parts(text) =~= added_parts(plain));
    }
}

/// A `.` with some `/` behind it is the component `.`.
proof fn lemma_dot_and_slashes(s: Seq<u8>)
    requires
        s.len() >= 1,
        s[0] == 46,
        forall|i: int| 1 <= i < s.len() ==> s[i] == 47,
    ensures
        parts(s) == seq![seq![46u8]],
    decreases s.len(),
{
    if s.len() == 1 {
        assert(s =~= seq![46u8]);
        assert(!s.contains(47)) by {
            assert(s[0] == 46);
        }
        law_single_component(s);
    } else {
        let b = s.drop_last();
        lemma_dot_and_slashes(b);
        law_separators_count_for_nothing(b);
        assert(b.push(47) =~= s);
    }
}

/// What is asked to exist is what the argument would name: where it exists, the argument names
/// it, and nothing else is asked for.
pub proof fn law_what_is_asked_to_exist(cwd: Seq<u8>, path: Seq<u8>)
    ensures
        ({
            let asked = candidate_of(cwd, path);
            let excludes = path.len() > 0 && path[0] == 33;
            &&& asked matches Some(candidate) ==> arg_class(cwd, path, path, true)
                == ArgView::Target(candidate)
            &&& asked is Some <==> arg_class(cwd, path, path, false) is Glob
            &&& asked is Some <==> !excludes && exists|plain: Seq<u8>| #[trigger]
                is_undotted(path, plain) && looks_like_a_glob(plain)
        }),
{
    let plain = without_dot_slash(path);
    law_which_arguments_are_patterns(cwd, path, path, false);
    lemma_glob_bytes(plain);
    law_only_dot_slash_is_dropped(path);
    if candidate_of(cwd, path) is Some {
        if plain == seq![DOT] {
            assert(plain.len() == 1 && plain[0] == 46);
            assert(!looks_like_a_glob(plain));
        }
    }
}

/// The path that is asked to exist is the argument seen from the working directory, without a `./`
/// in front.
pub proof fn law_which_path_is_asked_about(cwd: Seq<u8>, text: Seq<u8>)
    ensures
        candidate_of(cwd, text) matches Some(candidate) ==> exists|plain: Seq<u8>| #[trigger]
            is_undotted(text, plain) && candidate == joined(cwd, plain),
{
    law_only_dot_slash_is_dropped(text);
}

/// Each argument is what it is whatever the others are.
pub proof fn law_arguments_stand_alone(cwd: Seq<u8>, args: Seq<PathArg>)
    ensures
        arg_classes(cwd, args).len() == args.len(),
        forall|i: int|
            0 <= i < args.len() ==> #[trigger] arg_classes(cwd, args)[i] == arg_class(
                cwd,
                args[i].path@,
                utf8_lossy(args[i].path@),
                args[i].exists,
            ),
{
}

/// The paths, the glob patterns and the exclude patterns are all those among the arguments, in
/// their order.
pub proof fn law_arguments_are_sorted_out(classes: Seq<ArgView>)
    ensures
        targets_of(classes) == classes.filter(|c: ArgView| c is Target).map_values(
            |c: ArgView| c->Target_0,
        ),
        globs_of(classes) == classes.filter(|c: ArgView| c is Glob).map_values(
            |c: ArgView| c->Glob_0,
        ),
        excludes_of(classes) == classes.filter(|c: ArgView| c is Exclude).map_values(
            |c: ArgView| c->Exclude_0,
        ),
    decreases classes.len(),
{
    reveal(Seq::filter);
    let is_target = |c: ArgView| c is Target;
    let is_glob = |c: ArgView| c is Glob;
    let is_exclude = |c: ArgView| c is Exclude;
    let target = |c: ArgView| c->Target_0;
    let glob = |c: ArgView| c->Glob_0;
    let exclude = |c: ArgView| c->Exclude_0;
    if classes.len() > 0 {
        let before = classes.drop_last();
        let last = classes.last();
        law_arguments_are_sorted_out(before);
        assert(before.filter(is_target).push(last).map_values(target) =~= before.filter(
            is_target,
        ).map_values(target).push(target(last)));
        assert(before.filter(is_glob).push(last).map_values(glob) =~= before.filter(
            is_glob,
        ).map_values(glob).push(glob(last)));
        assert(before.filter(is_exclude).push(last).map_values(exclude) =~= before.filter(
            is_exclude,
        ).map_values(exclude).push(exclude(last)));
    }
    assert(targets_of(classes) =~= classes.filter(is_target).map_values(target));
    assert(globs_of(classes) =~= classes.filter(is_glob).map_values(glob));
    assert(excludes_of(classes) =~= classes.filter(is_exclude).map_values(exclude));
}

/// Whether a path exists counts only where it is asked for.
pub proof fn law_existence_counts_only_for_candidates(cwd: Seq<u8>, path: Seq<u8>, text: Seq<u8>)
    requires
        candidate_of(cwd, text) is None,
    ensures
        arg_class(cwd, path, text, true) == arg_class(cwd, path, text, false),
{
}

/// A run starts from every path that is given, and never from the same path twice, however it
/// is spelled.
pub proof fn law_starts_are_distinct(paths: Seq<Seq<u8>>)
    ensures
        forall|i: int, j: int|
            0 <= i < j < first_spellings(paths).len() ==> parts(#[trigger] first_spellings(paths)[i])
                != parts(#[trigger] first_spellings(paths)[j]),
        forall|key: Seq<Seq<u8>>| #[trigger]
            all_parts(first_spellings(paths)).contains(key) <==> all_parts(paths).contains(key),
    decreases paths.len(),
{
    if paths.len() == 0 {
        assert(all_parts(first_spellings(paths)) =~= all_parts(paths));
    } else {
        let before = paths.drop_last();
        law_starts_are_distinct(before);
        assert(paths =~= before.push(paths.last()));
        lemma_one_more(before, paths.last());
        let kept = first_spellings(before);
        if !all_parts(kept).contains(parts(paths.last())) {
            lemma_one_more(kept, paths.last());
            assert forall|i: int, j: int|
                0 <= i < j < first_spellings(paths).len() implies parts(
                #[trigger] first_spellings(paths)[i],
            ) != parts(#[trigger] first_spellings(paths)[j]) by {
                if j == kept.len() {
                    assert(all_parts(kept)[i] == parts(kept[i]));
                }
            }
        }
    }
}

/// A run starts from every path that is given. It starts from the working directory too where
/// there are glob patterns, and from nothing else where no paths are given, even if there are
/// exclude patterns.
pub proof fn law_run_starts_somewhere(walker: ScopedWalker)
    ensures
        forall|i: int|
            0 <= i < walker.paths().len() ==> all_parts(walker.starts()).contains(
                parts(#[trigger] walker.paths()[i]),
            ),
        walker.globs().len() > 0 ==> all_parts(walker.starts()).contains(parts(walker.cwd())),
        walker.paths().len() == 0 ==> walker.starts() == seq![walker.cwd()],
{
    let paths = walker.paths();
    let given = if walker.globs().len() > 0 || paths.len() == 0 {
        paths.push(walker.cwd())
    } else {
        paths
    };
    law_starts_are_distinct(given);
    lemma_one_more(paths, walker.cwd());
    assert forall|i: int| 0 <= i < paths.len() implies all_parts(walker.starts()).contains(
        parts(#[trigger] paths[i]),
    ) by {
        assert(all_parts(paths)[i] == parts(paths[i]));
        assert(all_parts(given).contains(parts(paths[i])));
    }
    if paths.len() == 0 {
        assert(first_spellings(given.drop_last()) =~= Seq::<Seq<u8>>::empty());
        assert(all_parts(Seq::<Seq<u8>>::empty()) =~= Seq::<Seq<Seq<u8>>>::empty());
        assert(walker.starts() =~= seq![walker.cwd()]);
    }
}

/// A run without a directory to walk walks nothing: it is over once its files are processed.
pub proof fn law_nothing_to_walk(
    starts: Seq<Seq<u8>>,
    root_has_config: bool,
    answers: RunAnswers,
    probes: Vec<TargetProbe>,
)
    requires
        answers.targets == Some(probes),
        dirs_of(probes@).len() == 0,
    ensures
        !(run_step(starts, root_has_config, answers) is Walk),
        answers.matchers matches Some(Ok(())) ==> answers.files is Some ==> run_step(
            starts,
            root_has_config,
            answers,
        ) is Done,
{
}

/// A run starts from nothing but the paths that are given and the working directory, and from
/// the working directory only where it is given, where there are glob patterns, or where nothing
/// is given.
pub proof fn law_run_starts_nowhere_else(walker: ScopedWalker, i: int)
    requires
        0 <= i < walker.starts().len(),
    ensures
        walker.paths().contains(walker.starts()[i]) || (walker.starts()[i] == walker.cwd() && (
        walker.globs().len() > 0 || walker.paths().len() == 0)),
{
    let paths = walker.paths();
    let given = if walker.globs().len() > 0 || paths.len() == 0 {
        paths.push(walker.cwd())
    } else {
        paths
    };
    law_first_spelling_is_kept(given);
    lemma_seq_contains_after_push(paths, walker.cwd(), walker.starts()[i]);
    let from: Seq<int> = choose|from: Seq<int>| #[trigger]
        are_first_spellings(given, first_spellings(given), from);
    assert(given[from[i]] == walker.starts()[i]);
    assert(given.contains(walker.starts()[i]));
}

/// Whether `kept` is the paths at the positions `from`, in their order, each of them the first
/// that spells its path.
pub open spec fn are_first_spellings(
    paths: Seq<Seq<u8>>,
    kept: Seq<Seq<u8>>,
    from: Seq<int>,
) -> bool {
    &&& from.len() == kept.len()
    &&& forall|i: int| #![trigger from[i]]
        0 <= i < from.len() ==> {
            &&& 0 <= from[i] < paths.len()
            &&& kept[i] == paths[from[i]]
            &&& forall|j: int| 0 <= j < from[i] ==> parts(#[trigger] paths[j]) != parts(kept[i])
        }
    &&& forall|i: int, j: int| 0 <= i < j < from.len() ==> from[i] < from[j]
}

/// Of the paths that are given, each is kept as it was first spelled, in the order in which they
/// are given.
pub proof fn law_first_spelling_is_kept(paths: Seq<Seq<u8>>)
    ensures
        exists|from: Seq<int>| #[trigger] are_first_spellings(paths, first_spellings(paths), from),
    decreases paths.len(),
{
    if paths.len() == 0 {
        assert(are_first_spellings(paths, first_spellings(paths), Seq::<int>::empty()));
    } else {
        let before = paths.drop_last();
        let last = paths.last();
        let kept = first_spellings(before);
        law_first_spelling_is_kept(before);
        law_starts_are_distinct(before);
        let from: Seq<int> = choose|from: Seq<int>| #[trigger]
            are_first_spellings(before, kept, from);
        if all_parts(kept).contains(parts(last)) {
            assert forall|i: int| #![trigger from[i]] 0 <= i < from.len() implies {
                &&& 0 <= from[i] < paths.len()
                &&& kept[i] == paths[from[i]]
                &&& forall|j: int|
                    0 <= j < from[i] ==> parts(#[trigger] paths[j]) != parts(kept[i])
            } by {
                assert forall|j: int| 0 <= j < from[i] implies parts(#[trigger] paths[j]) != parts(
                    kept[i],
                ) by {
                    assert(before[j] == paths[j]);
                }
            }
            assert(are_first_spellings(paths, first_spellings(paths), from));
        } else {
            let all = kept.push(last);
            let more = from.push(paths.len() - 1);
            assert forall|i: int| #![trigger more[i]] 0 <= i < more.len() implies {
                &&& 0 <= more[i] < paths.len()
                &&& all[i] == paths[more[i]]
                &&& forall|j: int| 0 <= j < more[i] ==> parts(#[trigger] paths[j]) != parts(all[i])
            } by {
                if i < from.len() {
                    assert(more[i] == from[i]);
                    assert forall|j: int| 0 <= j < more[i] implies parts(#[trigger] paths[j])
                        != parts(all[i]) by {
                        assert(before[j] == paths[j]);
                    }
                } else {
                    assert forall|j: int| 0 <= j < more[i] implies parts(#[trigger] paths[j])
                        != parts(all[i]) by {
                        assert(before[j] == paths[j]);
                        assert(all_parts(before)[j] == parts(before[j]));
                        assert(all_parts(before).contains(parts(before[j])));
                    }
                }
            }
            assert forall|i: int, j: int| 0 <= i < j < more.len() implies more[i] < more[j] by {
                if j == from.len() {
                    assert(from[i] == more[i]);
                } else {
                    assert(from[i] < from[j]);
                }
            }
            assert(are_first_spellings(paths, first_spellings(paths), more));
        }
    }
}

/// When a run says to walk, it walks all the directories among the targets that are not ignored,
/// and when it says to process files, all the other targets that are not ignored, in their order.
pub proof fn law_run_takes_every_target(
    starts: Seq<Seq<u8>>,
    root_has_config: bool,
    answers: RunAnswers,
    path: Seq<u8>,
)
    ensures
        ({
            let probes = answers.targets->Some_0@;
            let open_dirs = |t: TargetProbe| t.is_dir && !t.ignored;
            let open_files = |t: TargetProbe| !t.is_dir && !t.ignored;
            let place = |t: TargetProbe| t.path@;
            match run_step(starts, root_has_config, answers) {
                RunStepView::Walk(dirs) => {
                    &&& answers.targets is Some
                    &&& dirs == probes.filter(open_dirs).map_values(place)
                    &&& dirs.contains(path) <==> is_open_target(probes, path, true)
                    &&& dirs.len() > 0
                },
                RunStepView::ProcessFiles(files) => {
                    &&& answers.targets is Some
                    &&& files == probes.filter(open_files).map_values(place)
                    &&& files.contains(path) <==> is_open_target(probes, path, false)
                },
                RunStepView::ProbeTargets(paths) => paths == starts,
                _ => true,
            }
        }),
{
    if let Some(probes) = answers.targets {
        law_targets_are_split(probes@, path);
        law_targets_keep_their_order(probes@);
    }
}

/// The directories to walk, and the files to process, are all those among the targets that are
/// not ignored, in their order.
pub proof fn law_targets_keep_their_order(probes: Seq<TargetProbe>)
    ensures
        dirs_of(probes) == probes.filter(|t: TargetProbe| t.is_dir && !t.ignored).map_values(
            |t: TargetProbe| t.path@,
        ),
        files_of(probes) == probes.filter(|t: TargetProbe| !t.is_dir && !t.ignored).map_values(
            |t: TargetProbe| t.path@,
        ),
    decreases probes.len(),
{
    reveal(Seq::filter);
    let open_dirs = |t: TargetProbe| t.is_dir && !t.ignored;
    let open_files = |t: TargetProbe| !t.is_dir && !t.ignored;
    let place = |t: TargetProbe| t.path@;
    if probes.len() > 0 {
        let before = probes.drop_last();
        let last = probes.last();
        law_targets_keep_their_order(before);
        assert(before.filter(open_dirs).push(last).map_values(place) =~= before.filter(
            open_dirs,
        ).map_values(place).push(place(last)));
        assert(before.filter(open_files).push(last).map_values(place) =~= before.filter(
            open_files,
        ).map_values(place).push(place(last)));
    }
    assert(dirs_of(probes) =~= probes.filter(open_dirs).map_values(place));
    assert(files_of(probes) =~= probes.filter(open_files).map_values(place));
}

/// The phases of a run come one after the other: the ignore rules, the targets, the files, the
/// walk. It ends with the first error; without one it ends when there is nothing left to walk,
/// and says that a configuration was used if and only if there is one at the root or one was
/// found on the way.
pub proof fn law_how_a_run_goes(
    starts: Seq<Seq<u8>>,
    root_has_config: bool,
    answers: RunAnswers,
    err: String,
)
    ensures
        ({
            let step = run_step(starts, root_has_config, answers);
            let ruled = answers.matchers is Some && answers.matchers->Some_0 is Ok;
            let probed = ruled && answers.targets is Some;
            let filed = probed && answers.files is Some && answers.files->Some_0 is Ok;
            let some_dir = exists|i: int|
                0 <= i < answers.targets->Some_0@.len() && (
                #[trigger] answers.targets->Some_0@[i]).is_dir
                    && !answers.targets->Some_0@[i].ignored;
            &&& step is BuildMatchers <==> answers.matchers is None
            &&& step is ProbeTargets <==> ruled && answers.targets is None
            &&& step is ProcessFiles <==> probed && answers.files is None
            &&& step is Walk <==> filed && some_dir && answers.walk is None
            &&& step == RunStepView::Done(Err::<bool, String>(err)) <==> {
                ||| answers.matchers == Some(Err::<(), String>(err))
                ||| probed && answers.files == Some(Err::<bool, String>(err))
                ||| filed && some_dir && answers.walk is Some && answers.walk->Some_0.fatal
                    == Some(err)
            }
            &&& step == RunStepView::Done(Ok::<bool, String>(true)) <==> {
                ||| filed && !some_dir && (root_has_config || answers.files->Some_0->Ok_0)
                ||| filed && some_dir && answers.walk is Some && answers.walk->Some_0.fatal is None
                    && (root_has_config || answers.walk->Some_0.config_found)
            }
            &&& step == RunStepView::Done(Ok::<bool, String>(false)) <==> {
                ||| filed && !some_dir && !root_has_config && !answers.files->Some_0->Ok_0
                ||| filed && some_dir && answers.walk is Some && answers.walk->Some_0.fatal is None
                    && !root_has_config && !answers.walk->Some_0.config_found
            }
        }),
{
    if let Some(probes) = answers.targets {
        lemma_some_dir(probes@);
    }
}

proof fn lemma_some_dir(probes: Seq<TargetProbe>)
    ensures
        dirs_of(probes).len() > 0 <==> exists|i: int|
            0 <= i < probes.len() && (#[trigger] probes[i]).is_dir && !probes[i].ignored,
    decreases probes.len(),
{
    if probes.len() > 0 {
        let before = probes.drop_last();
        lemma_some_dir(before);
        assert(probes[probes.len() - 1] == probes.last());
        if dirs_of(before).len() > 0 {
            let i: int = choose|i: int|
                0 <= i < before.len() && (#[trigger] before[i]).is_dir && !before[i].ignored;
            assert(probes[i] == before[i]);
        }
        if exists|i: int|
            0 <= i < probes.len() && (#[trigger] probes[i]).is_dir && !probes[i].ignored {
            let i: int = choose|i: int|
                0 <= i < probes.len() && (#[trigger] probes[i]).is_dir && !probes[i].ignored;
            if i < before.len() {
                assert(before[i] == probes[i]);
            }
        }
    }
}

/// Whether `path` is a target that is not ignored, and a directory or not.
pub open spec fn is_open_target(probes: Seq<TargetProbe>, path: Seq<u8>, is_dir: bool) -> bool {
    exists|i: int|
        0 <= i < probes.len() && (#[trigger] probes[i]).path@ == path && probes[i].is_dir == is_dir
            && !probes[i].ignored
}

/// What is walked is the directories among the targets that are not ignored, and what is
/// processed is the other targets that are not ignored.
pub proof fn law_targets_are_split(probes: Seq<TargetProbe>, path: Seq<u8>)
    ensures
        dirs_of(probes).contains(path) <==> is_open_target(probes, path, true),
        files_of(probes).contains(path) <==> is_open_target(probes, path, false),
    decreases probes.len(),
{
    if probes.len() > 0 {
        let before = probes.drop_last();
        let last = probes.last();
        law_targets_are_split(before, path);
        lemma_last_target(probes, path, true);
        lemma_last_target(probes, path, false);
        lemma_seq_contains_after_push(dirs_of(before), last.path@, path);
        lemma_seq_contains_after_push(files_of(before), last.path@, path);
    }
}

/// A target is the last one or among those before it.
proof fn lemma_last_target(probes: Seq<TargetProbe>, path: Seq<u8>, is_dir: bool)
    requires
        probes.len() > 0,
    ensures
        is_open_target(probes, path, is_dir) <==> is_open_target(probes.drop_last(), path, is_dir)
            || (probes.last().path@ == path && probes.last().is_dir == is_dir
            && !probes.last().ignored),
{
    let before = probes.drop_last();
    assert(probes[probes.len() - 1] == probes.last());
    if is_open_target(before, path, is_dir) {
        let i: int = choose|i: int|
            0 <= i < before.len() && (#[trigger] before[i]).path@ == path && before[i].is_dir
                == is_dir && !before[i].ignored;
        assert(probes[i] == before[i]);
    }
    if is_open_target(probes, path, is_dir) {
        let i: int = choose|i: int|
            0 <= i < probes.len() && (#[trigger] probes[i]).path@ == path && probes[i].is_dir
                == is_dir && !probes[i].ignored;
        if i < before.len() {
            assert(before[i] == probes[i]);
        }
    }
}

} // verus!

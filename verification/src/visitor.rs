//! What one visitor of a walk decides: which configuration a file falls under, and what is to
//! become of the file.

use vstd::prelude::*;
use vstd::string::*;

use crate::components::{is_plain_name, law_entry_of_directory};
use crate::discovery::{config_at, FileKind};
use crate::nested::{ConfigLoadResult, NestedConfigCtx};
use crate::path::{ancestors_of, joined, parent_of, parts, texts, FsPath, PathKey};
use crate::path_index::{
    map_entries, map_get, map_insert, map_new, set_contains, set_paths, PathMap, PathSet,
};

verus! {

/// The configuration that a directory falls under, and whether that configuration ignores the
/// directory.
#[derive(Clone, Copy, Debug, PartialEq, Eq, Structural)]
pub struct CachedScope {
    pub scope: u64,
    pub ignored: bool,
}

/// What looking upward from a directory came to: the directories of which nothing was known,
/// nearest first, and the scope of the first directory of which something was.
#[derive(Debug)]
pub struct ScopeSearch {
    pub visited: Vec<FsPath>,
    pub hit: Option<u64>,
}

/// What the caller has found out so far while a directory's scope is being settled.
#[derive(Debug)]
pub struct ScopeAnswers {
    /// What probes of the visited directories gave, nearest first.
    pub probes: Vec<ConfigLoadResult>,
    /// Whether the scope ignores each of the directories asked for.
    pub ignored: Vec<bool>,
}

/// What to do next to settle a directory's scope.
#[derive(Debug)]
pub enum ScopeStep {
    /// Nothing: the scope is known.
    Ready,
    /// Probe this directory.
    Probe(FsPath),
    /// Find out whether the scope ignores this directory.
    CheckIgnored { scope: u64, dir: FsPath },
    /// Nothing: a configuration could not be loaded.
    Failed(String),
}

/// What the scope of a directory depends on besides the nested configurations: the root
/// configuration, and the directory it stands in.
pub struct ScopeRules {
    pub root: u64,
    pub root_dir: Option<Seq<Seq<u8>>>,
}

/// How far looking upward along `chain` goes from its `i`-th directory on, and what it finds.
///
/// It ends at a directory of which something is known: one settled before, the directory of
/// the root configuration, one with a registered scope. Where there is none, it goes all the way
/// up.
pub open spec fn search_from(
    rules: ScopeRules,
    cache: Map<Seq<Seq<u8>>, CachedScope>,
    scopes: Map<Seq<Seq<u8>>, u64>,
    chain: Seq<Seq<u8>>,
    i: int,
) -> (int, Option<u64>)
    decreases chain.len() - i,
{
    if i < 0 || i >= chain.len() {
        (i, None)
    } else {
        let dir = parts(chain[i]);
        if cache.contains_key(dir) {
            (i, Some(cache[dir].scope))
        } else if rules.root_dir == Some(dir) {
            (i, Some(rules.root))
        } else if scopes.contains_key(dir) {
            (i, Some(scopes[dir]))
        } else {
            search_from(rules, cache, scopes, chain, i + 1)
        }
    }
}

/// The first of the `n` visited directories, from the `i`-th on, whose probe is missing or did
/// not come back empty; `n` where there is none.
pub open spec fn first_telling(probes: Seq<ConfigLoadResult>, n: int, i: int) -> int
    decreases n - i,
{
    if i >= n {
        n
    } else if i >= probes.len() || probes[i] != Ok::<Option<u64>, String>(None) {
        i
    } else {
        first_telling(probes, n, i + 1)
    }
}

/// What the probes of the visited directories come to.
pub enum Verdict {
    /// The `i`-th directory is still to be probed.
    Probe(int),
    /// A configuration could not be loaded.
    Failed(String),
    /// This is the scope, and it is that of the first `k` visited directories.
    Resolved(u64, int),
}

/// What the probes of `n` visited directories come to: the nearest configuration counts, then
/// what was found above them, then the root configuration.
pub open spec fn verdict(
    rules: ScopeRules,
    n: int,
    hit: Option<u64>,
    probes: Seq<ConfigLoadResult>,
) -> Verdict {
    let i: int = first_telling(probes, n, 0);
    if i >= n {
        Verdict::Resolved(
            match hit {
                Some(scope) => scope,
                None => rules.root,
            },
            n,
        )
    } else if i >= probes.len() {
        Verdict::Probe(i)
    } else {
        match probes[i] {
            Err(err) => Verdict::Failed(err),
            Ok(Some(scope)) => Verdict::Resolved(scope, i + 1),
            Ok(None) => Verdict::Probe(i),
        }
    }
}

/// The directories whose scope is settled together with that of `parent`: the visited ones up
/// to the one that the scope was found in. What lies above that one is not covered by it.
pub open spec fn settled_dirs(visited: Seq<Seq<u8>>, parent: Seq<u8>, k: int) -> Seq<Seq<u8>> {
    if visited.len() == 0 {
        seq![parent]
    } else {
        visited.take(k)
    }
}

/// `cache` with the scope of the first `n` of `dirs` added, where they have none yet.
pub open spec fn remembered(
    cache: Map<Seq<Seq<u8>>, CachedScope>,
    dirs: Seq<Seq<u8>>,
    scope: u64,
    ignored: Seq<bool>,
    n: int,
) -> Map<Seq<Seq<u8>>, CachedScope>
    decreases n,
{
    if n <= 0 {
        cache
    } else {
        let before = remembered(cache, dirs, scope, ignored, n - 1);
        let dir = parts(dirs[n - 1]);
        if before.contains_key(dir) {
            before
        } else {
            before.insert(dir, CachedScope { scope, ignored: ignored[n - 1] })
        }
    }
}

/// What a file's configuration makes of it.
#[derive(Clone, Copy, Debug, PartialEq, Eq, Structural)]
pub enum ResolveOutcome {
    /// It is to be formatted.
    Format,
    /// It needs a plugin that is not there.
    MissingPlugin,
}

/// An entry that a walk has come to; the kind is missing where it could not be found out.
#[derive(Debug)]
pub struct WalkedEntry {
    pub path: FsPath,
    pub kind: Option<FileKind>,
}

/// What the caller has found out so far about an entry.
#[derive(Debug)]
pub struct VisitAnswers {
    /// Whether the configuration in the entry's directory could be loaded.
    pub parent_probe: Option<Result<(), String>>,
    /// Whether a global ignore rule names the entry.
    pub globally_ignored: Option<bool>,
    /// Why the scope of the entry's directory could not be settled.
    pub scope_failure: Option<String>,
    /// Whether the entry's scope ignores it.
    pub ignored: Option<bool>,
    /// Whether the glob patterns select it.
    pub selected: Option<bool>,
    /// Whether it is of a kind that can be formatted.
    pub classified: Option<bool>,
    /// What its scope makes of it.
    pub resolved: Option<Result<ResolveOutcome, String>>,
    /// Whether it was handed on.
    pub sent: Option<bool>,
}

/// How a walk goes on.
#[derive(Clone, Copy, Debug, PartialEq, Eq, Structural)]
pub enum WalkState {
    Continue,
    Skip,
    Quit,
}

/// What to do next about an entry.
#[derive(Debug)]
pub enum VisitStep {
    /// Probe the entry's directory.
    ProbeParent,
    /// Find out whether a global ignore rule names the entry.
    CheckGlobalIgnore,
    /// Settle the scope of the entry's directory.
    EnsureScope,
    /// Find out whether this scope ignores the entry.
    CheckIgnored(u64),
    /// Match the entry against the glob patterns.
    MatchGlobs,
    /// Find out whether the entry can be formatted.
    Classify,
    /// Find out what this scope makes of the entry.
    Resolve(u64),
    /// Hand the entry on to be formatted.
    Send,
    /// Nothing: the walk goes on like this.
    Finish(WalkState),
    /// Nothing but to report this error; the walk goes on.
    Report(String),
    /// Nothing but to record this error; the walk is over.
    Fatal(String),
}

/// What to do next about a file whose directory's scope is settled: unless the scope ignores
/// it or its directory, or the glob patterns do not select it, or nothing can format it, it is
/// handed on.
pub open spec fn format_step(
    cached: CachedScope,
    globs_active: bool,
    answers: VisitAnswers,
) -> VisitStep {
    if cached.ignored || answers.ignored == Some(true) {
        VisitStep::Finish(WalkState::Continue)
    } else if answers.ignored is None {
        VisitStep::CheckIgnored(cached.scope)
    } else if globs_active && answers.selected is None {
        VisitStep::MatchGlobs
    } else if globs_active && answers.selected == Some(false) {
        VisitStep::Finish(WalkState::Continue)
    } else {
        match answers.classified {
            None => VisitStep::Classify,
            Some(false) => VisitStep::Finish(WalkState::Continue),
            Some(true) => match answers.resolved {
                None => VisitStep::Resolve(cached.scope),
                Some(Ok(ResolveOutcome::MissingPlugin)) => VisitStep::Finish(WalkState::Continue),
                Some(Err(err)) => VisitStep::Report(err),
                Some(Ok(ResolveOutcome::Format)) => match answers.sent {
                    None => VisitStep::Send,
                    Some(true) => VisitStep::Finish(WalkState::Continue),
                    Some(false) => VisitStep::Finish(WalkState::Quit),
                },
            },
        }
    }
}

/// What to do next about a regular file that was not handed on before.
///
/// A file that looks like a configuration has its directory probed first, where nested
/// configurations count; only then do the global ignore rules apply to it.
pub open spec fn file_step(
    is_config: bool,
    nested: bool,
    cached: Option<CachedScope>,
    globs_active: bool,
    answers: VisitAnswers,
) -> VisitStep {
    if is_config && nested && answers.parent_probe is None {
        VisitStep::ProbeParent
    } else if is_config && nested && answers.parent_probe->Some_0 is Err {
        VisitStep::Fatal(answers.parent_probe->Some_0->Err_0)
    } else if is_config && answers.globally_ignored is None {
        VisitStep::CheckGlobalIgnore
    } else if is_config && answers.globally_ignored == Some(true) {
        VisitStep::Finish(WalkState::Continue)
    } else {
        match cached {
            Some(c) => format_step(c, globs_active, answers),
            None => match answers.scope_failure {
                Some(err) => VisitStep::Fatal(err),
                None => VisitStep::EnsureScope,
            },
        }
    }
}

/// Whether an entry is a regular file that was not handed on before.
pub open spec fn is_candidate(entry: WalkedEntry, processed: Set<Seq<Seq<u8>>>) -> bool {
    entry.kind == Some(FileKind::Regular) && !processed.contains(parts(entry.path@))
}

/// The settled scope of the directory that `path` stands in.
pub open spec fn scope_above(
    cache: Map<Seq<Seq<u8>>, CachedScope>,
    path: Seq<u8>,
) -> Option<CachedScope> {
    match parent_of(path) {
        Some(parent) => if cache.contains_key(parts(parent)) {
            Some(cache[parts(parent)])
        } else {
            None
        },
        None => None,
    }
}

/// The texts of some paths.
pub open spec fn path_texts(paths: Seq<FsPath>) -> Seq<Seq<u8>> {
    Seq::new(paths.len(), |i: int| paths[i]@)
}

/// Each path is taken as it is spelled.
pub proof fn law_path_texts_are_all(paths: Seq<FsPath>)
    ensures
        path_texts(paths).len() == paths.len(),
        forall|i: int| 0 <= i < paths.len() ==> #[trigger] path_texts(paths)[i] == paths[i]@,
{
}

/// One visitor of a walk, with the scopes it has settled.
pub struct WalkVisitor {
    detect_nested: bool,
    root_scope: u64,
    root_config_dir: Option<PathKey>,
    scope_slots: PathMap,
    scopes: Vec<CachedScope>,
}

impl WalkVisitor {
    /// Whether nested configurations count.
    pub closed spec fn nested(&self) -> bool {
        self.detect_nested
    }

    /// What scopes depend on besides the configurations.
    pub closed spec fn rules(&self) -> ScopeRules {
        ScopeRules {
            root: self.root_scope,
            root_dir: match self.root_config_dir {
                Some(key) => Some(texts(key@)),
                None => None,
            },
        }
    }

    /// The scopes settled so far.
    pub closed spec fn cache(&self) -> Map<Seq<Seq<u8>>, CachedScope> {
        Map::new(
            |dir: Seq<Seq<u8>>| map_entries(self.scope_slots).contains_key(dir),
            |dir: Seq<Seq<u8>>| self.scopes@[map_entries(self.scope_slots)[dir] as int],
        )
    }

    /// Every settled directory has a place.
    pub closed spec fn wf(&self) -> bool {
        forall|dir: Seq<Seq<u8>>| #[trigger]
            map_entries(self.scope_slots).contains_key(dir) ==> map_entries(self.scope_slots)[dir]
                < self.scopes@.len()
    }

    /// A visitor that has settled nothing.
    pub fn new(
        detect_nested: bool,
        root_scope: u64,
        root_config_dir: &Option<FsPath>,
    ) -> (visitor: WalkVisitor)
        ensures
            visitor.wf(),
            visitor.nested() == detect_nested,
            visitor.rules().root == root_scope,
            visitor.rules().root_dir == (match root_config_dir {
                Some(dir) => Some(parts(dir@)),
                None => None,
            }),
            visitor.cache() == Map::<Seq<Seq<u8>>, CachedScope>::empty(),
    {
        let visitor = WalkVisitor {
            detect_nested,
            root_scope,
            root_config_dir: match root_config_dir {
                Some(dir) => Some(dir.components()),
                None => None,
            },
            scope_slots: map_new(),
            scopes: Vec::new(),
        };
        assert(visitor.cache() =~= Map::<Seq<Seq<u8>>, CachedScope>::empty());
        visitor
    }

    /// The settled scope of `dir`.
    pub fn cached_scope(&self, dir: &FsPath) -> (cached: Option<CachedScope>)
        requires
            self.wf(),
        ensures
            cached == (if self.cache().contains_key(parts(dir@)) {
                Some(self.cache()[parts(dir@)])
            } else {
                None
            }),
    {
        match map_get(&self.scope_slots, &dir.components()) {
            Some(slot) => {
                let count: usize = self.scopes.len();
                assert(map_entries(self.scope_slots).contains_key(parts(dir@)));
                assert(slot < count);
                Some(self.scopes[slot as usize])
            },
            None => None,
        }
    }

    /// Looks upward from `parent` for the first directory of which something is known; nothing
    /// to do where the scope of `parent` is settled.
    pub fn search_scope(&self, parent: &FsPath, ctx: &NestedConfigCtx) -> (search: Option<
        ScopeSearch,
    >)
        requires
            self.wf(),
        ensures
            match search {
                None => self.cache().contains_key(parts(parent@)),
                Some(s) => {
                    &&& !self.cache().contains_key(parts(parent@))
                    &&& !self.nested() ==> s.visited@.len() == 0 && s.hit == Some(self.rules().root)
                    &&& self.nested() ==> {
                        let chain = ancestors_of(parent@);
                        let found = search_from(
                            self.rules(),
                            self.cache(),
                            ctx.state().scopes,
                            chain,
                            0,
                        );
                        &&& 0 <= found.0 <= chain.len()
                        &&& path_texts(s.visited@) == chain.take(found.0)
                        &&& s.hit == found.1
                    }
                },
            },
    {
        if self.cached_scope(parent).is_some() {
            return None;
        }
        if !self.detect_nested {
            return Some(ScopeSearch { visited: Vec::new(), hit: Some(self.root_scope) });
        }
        let chain: Vec<FsPath> = parent.ancestors();
        let ghost texts_up = ancestors_of(parent@);
        let ghost rules = self.rules();
        let ghost cache = self.cache();
        let ghost scopes = ctx.state().scopes;
        let mut visited: Vec<FsPath> = Vec::new();
        let mut i: usize = 0;
        while i < chain.len()
            invariant
                self.wf(),
                rules == self.rules(),
                cache == self.cache(),
                scopes == ctx.state().scopes,
                texts_up == ancestors_of(parent@),
                self.nested(),
                !cache.contains_key(parts(parent@)),
                chain@.len() == texts_up.len(),
                forall|j: int| 0 <= j < chain@.len() ==> (#[trigger] chain@[j])@ == texts_up[j],
                i <= chain@.len(),
                path_texts(visited@) == texts_up.take(i as int),
                search_from(rules, cache, scopes, texts_up, 0) == search_from(
                    rules,
                    cache,
                    scopes,
                    texts_up,
                    i as int,
                ),
            decreases chain@.len() - i,
        {
            let dir: &FsPath = &chain[i];
            if let Some(cached) = self.cached_scope(dir) {
                return Some(ScopeSearch { visited, hit: Some(cached.scope) });
            }
            if self.is_root_config_dir(dir) {
                return Some(ScopeSearch { visited, hit: Some(self.root_scope) });
            }
            if let Some(scope) = ctx.lookup_scope(dir) {
                return Some(ScopeSearch { visited, hit: Some(scope) });
            }
            let ghost before = path_texts(visited@);
            visited.push(dir.duplicate());
            assert(path_texts(visited@) =~= before.push(texts_up[i as int]));
            assert(texts_up.take(i + 1) =~= texts_up.take(i as int).push(texts_up[i as int]));
            i = i + 1;
        }
        Some(ScopeSearch { visited, hit: None })
    }

    fn is_root_config_dir(&self, dir: &FsPath) -> (same: bool)
        ensures
            same == (self.rules().root_dir == Some(parts(dir@))),
    {
        match &self.root_config_dir {
            Some(key) => crate::text::same_key(key, &dir.components()),
            None => false,
        }
    }

    /// The next step of settling the scope of `parent`, from what looking upward came to and
    /// from what the caller has found out since.
    ///
    /// Every visited directory is probed, nearest first, until one has a configuration: what
    /// was found above them counts only where none has. The scope is then kept for the probed
    /// directories that it covers.
    pub fn ensure_scope_cached(
        &mut self,
        parent: &FsPath,
        search: &ScopeSearch,
        answers: &ScopeAnswers,
    ) -> (step: ScopeStep)
        requires
            old(self).wf(),
        ensures
            final(self).wf(),
            final(self).nested() == old(self).nested(),
            final(self).rules() == old(self).rules(),
            old(self).cache().contains_key(parts(parent@)) ==> step is Ready && final(self).cache()
                == old(self).cache(),
            !old(self).cache().contains_key(parts(parent@)) ==> match verdict(
                old(self).rules(),
                search.visited@.len() as int,
                search.hit,
                answers.probes@,
            ) {
                Verdict::Probe(i) => {
                    &&& step matches ScopeStep::Probe(dir)
                    &&& dir@ == search.visited@[i]@
                    &&& final(self).cache() == old(self).cache()
                },
                Verdict::Failed(err) => {
                    &&& step == ScopeStep::Failed(err)
                    &&& final(self).cache() == old(self).cache()
                },
                Verdict::Resolved(scope, k) => {
                    let dirs = settled_dirs(path_texts(search.visited@), parent@, k);
                    if answers.ignored@.len() < dirs.len() {
                        &&& step matches ScopeStep::CheckIgnored { scope: asked, dir }
                        &&& asked == scope
                        &&& dir@ == dirs[answers.ignored@.len() as int]
                        &&& final(self).cache() == old(self).cache()
                    } else {
                        &&& step is Ready
                        &&& final(self).cache() == remembered(
                            old(self).cache(),
                            dirs,
                            scope,
                            answers.ignored@,
                            dirs.len() as int,
                        )
                    }
                },
            },
    {
        if self.cached_scope(parent).is_some() {
            return ScopeStep::Ready;
        }
        let count: usize = search.visited.len();
        let ghost rules = self.rules();
        let mut scope: u64 = match search.hit {
            Some(scope) => scope,
            None => self.root_scope,
        };
        let mut covered: usize = count;
        let mut i: usize = 0;
        while i < count
            invariant_except_break
                scope == (match search.hit {
                    Some(scope) => scope,
                    None => rules.root,
                }),
                covered == count,
            invariant
                i <= count,
                count == search.visited@.len(),
                self.cache() == old(self).cache(),
                self.wf(),
                self.nested() == old(self).nested(),
                self.rules() == rules,
                rules == old(self).rules(),
                !old(self).cache().contains_key(parts(parent@)),
                first_telling(answers.probes@, count as int, 0) == first_telling(
                    answers.probes@,
                    count as int,
                    i as int,
                ),
            ensures
                covered <= count,
                verdict(rules, count as int, search.hit, answers.probes@) == Verdict::Resolved(
                    scope,
                    covered as int,
                ),
            decreases count - i,
        {
            if i >= answers.probes.len() {
                return ScopeStep::Probe(search.visited[i].duplicate());
            }
            match &answers.probes[i] {
                Err(err) => {
                    return ScopeStep::Failed(err.clone());
                },
                Ok(Some(found)) => {
                    scope = *found;
                    covered = i + 1;
                    break;
                },
                Ok(None) => {},
            }
            i = i + 1;
        }
        let ghost dirs = settled_dirs(path_texts(search.visited@), parent@, covered as int);
        let total: usize = if count == 0 {
            1
        } else {
            covered
        };
        assert(dirs.len() == total);
        if answers.ignored.len() < total {
            let at: usize = answers.ignored.len();
            let dir: FsPath = if count == 0 {
                parent.duplicate()
            } else {
                search.visited[at].duplicate()
            };
            return ScopeStep::CheckIgnored { scope, dir };
        }
        let mut n: usize = 0;
        while n < total
            invariant
                n <= total,
                self.wf(),
                self.nested() == old(self).nested(),
                self.rules() == rules,
                total <= answers.ignored@.len(),
                count == search.visited@.len(),
                covered <= count,
                total == (if count == 0 {
                    1
                } else {
                    covered
                }),
                dirs == settled_dirs(path_texts(search.visited@), parent@, covered as int),
                dirs.len() == total,
                self.cache() == remembered(
                    old(self).cache(),
                    dirs,
                    scope,
                    answers.ignored@,
                    n as int,
                ),
            decreases total - n,
        {
            let dir: &FsPath = if count == 0 {
                parent
            } else {
                &search.visited[n]
            };
            assert(dir@ == dirs[n as int]);
            self.remember(dir, CachedScope { scope, ignored: answers.ignored[n] });
            n = n + 1;
        }
        ScopeStep::Ready
    }

    /// The next step about an entry that the walk has come to; `entry` is missing where the
    /// walk could not read it.
    ///
    /// `processed` holds the files that were handed on before the walk, and `globs_active`
    /// says whether only files selected by glob patterns count.
    pub fn visit(
        &self,
        entry: &Option<WalkedEntry>,
        processed: &PathSet,
        globs_active: bool,
        ctx: &NestedConfigCtx,
        answers: &VisitAnswers,
    ) -> (step: VisitStep)
        requires
            self.wf(),
            match entry {
                Some(e) => is_candidate(*e, set_paths(*processed)) ==> parent_of(e.path@) is Some,
                None => true,
            },
        ensures
            step == (match entry {
                None => VisitStep::Finish(WalkState::Skip),
                Some(e) => if !is_candidate(*e, set_paths(*processed)) {
                    VisitStep::Finish(WalkState::Continue)
                } else {
                    file_step(
                        config_at(ctx.names(), e.path@) is Some,
                        self.nested(),
                        scope_above(self.cache(), e.path@),
                        globs_active,
                        *answers,
                    )
                },
            }),
    {
        let entry: &WalkedEntry = match entry {
            None => {
                return VisitStep::Finish(WalkState::Skip);
            },
            Some(entry) => entry,
        };
        match entry.kind {
            Some(FileKind::Regular) => {},
            _ => {
                return VisitStep::Finish(WalkState::Continue);
            },
        }
        if set_contains(processed, &entry.path.components()) {
            return VisitStep::Finish(WalkState::Continue);
        }
        let is_config: bool = ctx.is_config_file(&entry.path);
        if is_config && self.detect_nested {
            match &answers.parent_probe {
                None => {
                    return VisitStep::ProbeParent;
                },
                Some(Err(err)) => {
                    return VisitStep::Fatal(err.clone());
                },
                Some(Ok(())) => {},
            }
        }
        if is_config {
            match answers.globally_ignored {
                None => {
                    return VisitStep::CheckGlobalIgnore;
                },
                Some(true) => {
                    return VisitStep::Finish(WalkState::Continue);
                },
                Some(false) => {},
            }
        }
        let cached: Option<CachedScope> = match entry.path.parent() {
            Some(parent) => self.cached_scope(&parent),
            None => None,
        };
        match cached {
            Some(cached) => Self::format_decision(cached, globs_active, answers),
            None => match &answers.scope_failure {
                Some(err) => VisitStep::Fatal(err.clone()),
                None => VisitStep::EnsureScope,
            },
        }
    }

    fn format_decision(cached: CachedScope, globs_active: bool, answers: &VisitAnswers) -> (step:
        VisitStep)
        ensures
            step == format_step(cached, globs_active, *answers),
    {
        if cached.ignored {
            return VisitStep::Finish(WalkState::Continue);
        }
        match answers.ignored {
            None => {
                return VisitStep::CheckIgnored(cached.scope);
            },
            Some(true) => {
                return VisitStep::Finish(WalkState::Continue);
            },
            Some(false) => {},
        }
        if globs_active {
            match answers.selected {
                None => {
                    return VisitStep::MatchGlobs;
                },
                Some(false) => {
                    return VisitStep::Finish(WalkState::Continue);
                },
                Some(true) => {},
            }
        }
        match answers.classified {
            None => {
                return VisitStep::Classify;
            },
            Some(false) => {
                return VisitStep::Finish(WalkState::Continue);
            },
            Some(true) => {},
        }
        match &answers.resolved {
            None => VisitStep::Resolve(cached.scope),
            Some(Ok(ResolveOutcome::MissingPlugin)) => VisitStep::Finish(WalkState::Continue),
            Some(Err(err)) => VisitStep::Report(err.clone()),
            Some(Ok(ResolveOutcome::Format)) => match answers.sent {
                None => VisitStep::Send,
                Some(true) => VisitStep::Finish(WalkState::Continue),
                Some(false) => VisitStep::Finish(WalkState::Quit),
            },
        }
    }

    /// Keeps the scope of `dir`, unless it has one already.
    fn remember(&mut self, dir: &FsPath, cached: CachedScope)
        requires
            old(self).wf(),
        ensures
            final(self).wf(),
            final(self).nested() == old(self).nested(),
            final(self).rules() == old(self).rules(),
            final(self).cache() == (if old(self).cache().contains_key(parts(dir@)) {
                old(self).cache()
            } else {
                old(self).cache().insert(parts(dir@), cached)
            }),
    {
        if self.cached_scope(dir).is_some() {
            return;
        }
        let slot: u64 = self.scopes.len() as u64;
        self.scopes.push(cached);
        map_insert(&mut self.scope_slots, dir.components(), slot);
        assert(self.cache() =~= old(self).cache().insert(parts(dir@), cached));
    }
}

/// A file is handed on if and only if nothing keeps it back: it can be reached in its nearest
/// scope, no rule ignores it, the glob patterns select it, and its scope has it formatted.
pub proof fn law_sent_iff_nothing_keeps_it_back(
    is_config: bool,
    nested: bool,
    cached: Option<CachedScope>,
    globs_active: bool,
    answers: VisitAnswers,
)
    ensures
        (file_step(is_config, nested, cached, globs_active, answers) == VisitStep::Send) <==> ({
            &&& (is_config && nested) ==> (answers.parent_probe is Some
                && answers.parent_probe->Some_0 is Ok)
            &&& is_config ==> (answers.globally_ignored == Some(false))
            &&& cached is Some && !cached->Some_0.ignored
            &&& answers.ignored == Some(false)
            &&& globs_active ==> answers.selected == Some(true)
            &&& answers.classified == Some(true)
            &&& answers.resolved == Some(Ok::<ResolveOutcome, String>(ResolveOutcome::Format))
            &&& answers.sent is None
        }),
{
    let step = file_step(is_config, nested, cached, globs_active, answers);
    if step == VisitStep::Send {
        assert(is_config && nested ==> answers.parent_probe is Some);
        assert(is_config && nested ==> answers.parent_probe->Some_0 is Ok);
        assert(is_config ==> answers.globally_ignored == Some(false));
        assert(cached is Some);
        assert(!cached->Some_0.ignored);
        assert(answers.ignored == Some(false));
        assert(globs_active ==> answers.selected == Some(true));
        assert(answers.classified == Some(true));
        assert(answers.resolved == Some(Ok::<ResolveOutcome, String>(ResolveOutcome::Format)));
        assert(answers.sent is None);
    }
}

/// Each directory is kept with the answer that was given for it, and with no other: where a
/// directory had no scope before, its place in the list of directories is that of its answer.
pub proof fn law_flag_is_the_directorys_own(
    cache: Map<Seq<Seq<u8>>, CachedScope>,
    dirs: Seq<Seq<u8>>,
    scope: u64,
    ignored: Seq<bool>,
    n: int,
    j: int,
)
    requires
        0 <= j < n <= dirs.len(),
        !cache.contains_key(parts(dirs[j])),
        forall|i: int| 0 <= i < j ==> parts(#[trigger] dirs[i]) != parts(dirs[j]),
    ensures
        remembered(cache, dirs, scope, ignored, n).contains_key(parts(dirs[j])),
        remembered(cache, dirs, scope, ignored, n)[parts(dirs[j])].ignored == ignored[j],
        remembered(cache, dirs, scope, ignored, n)[parts(dirs[j])].scope == scope,
    decreases n,
{
    if j < n - 1 {
        law_flag_is_the_directorys_own(cache, dirs, scope, ignored, n - 1, j);
    } else {
        let before = remembered(cache, dirs, scope, ignored, n - 1);
        lemma_remembered_only(cache, dirs, scope, ignored, n - 1);
        if before.contains_key(parts(dirs[j])) {
            let i: int = choose|i: int|
                0 <= i < n - 1 && parts(#[trigger] dirs[i]) == parts(dirs[j]);
            assert(parts(dirs[i]) != parts(dirs[j]));
        }
        let kept = CachedScope { scope, ignored: ignored[j] };
        assert(remembered(cache, dirs, scope, ignored, n) == before.insert(parts(dirs[j]), kept));
    }
}

/// What is kept besides what was there is the scopes of the directories in the list.
proof fn lemma_remembered_only(
    cache: Map<Seq<Seq<u8>>, CachedScope>,
    dirs: Seq<Seq<u8>>,
    scope: u64,
    ignored: Seq<bool>,
    n: int,
)
    requires
        0 <= n <= dirs.len(),
    ensures
        forall|dir: Seq<Seq<u8>>| #[trigger]
            remembered(cache, dirs, scope, ignored, n).contains_key(dir) && !cache.contains_key(dir)
                ==> exists|i: int| 0 <= i < n && parts(#[trigger] dirs[i]) == dir,
    decreases n,
{
    if n > 0 {
        lemma_remembered_only(cache, dirs, scope, ignored, n - 1);
        let before = remembered(cache, dirs, scope, ignored, n - 1);
        assert forall|dir: Seq<Seq<u8>>| #[trigger]
            remembered(cache, dirs, scope, ignored, n).contains_key(dir) && !cache.contains_key(
                dir,
            ) implies exists|i: int| 0 <= i < n && parts(#[trigger] dirs[i]) == dir by {
            if before.contains_key(dir) {
                let i: int = choose|i: int| 0 <= i < n - 1 && parts(#[trigger] dirs[i]) == dir;
                assert(parts(dirs[i]) == dir);
            } else {
                assert(parts(dirs[n - 1]) == dir);
            }
        }
    }
}

/// What is kept of some directories is a scope for each of them that had none, and nothing else:
/// what was kept before stays as it was, and no other directory gets a scope.
pub proof fn law_only_these_are_kept(
    cache: Map<Seq<Seq<u8>>, CachedScope>,
    dirs: Seq<Seq<u8>>,
    scope: u64,
    ignored: Seq<bool>,
)
    ensures
        ({
            let after = remembered(cache, dirs, scope, ignored, dirs.len() as int);
            &&& forall|dir: Seq<Seq<u8>>| #[trigger]
                after.contains_key(dir) <==> cache.contains_key(dir) || exists|i: int|
                    0 <= i < dirs.len() && parts(#[trigger] dirs[i]) == dir
            &&& forall|dir: Seq<Seq<u8>>| #[trigger]
                cache.contains_key(dir) ==> after[dir] == cache[dir]
            &&& forall|dir: Seq<Seq<u8>>| #[trigger]
                after.contains_key(dir) && !cache.contains_key(dir) ==> after[dir].scope == scope
        }),
{
    lemma_remembered_only(cache, dirs, scope, ignored, dirs.len() as int);
    lemma_remembered_all(cache, dirs, scope, ignored, dirs.len() as int);
}

proof fn lemma_remembered_all(
    cache: Map<Seq<Seq<u8>>, CachedScope>,
    dirs: Seq<Seq<u8>>,
    scope: u64,
    ignored: Seq<bool>,
    n: int,
)
    requires
        0 <= n <= dirs.len(),
    ensures
        ({
            let after = remembered(cache, dirs, scope, ignored, n);
            &&& forall|dir: Seq<Seq<u8>>| #[trigger]
                cache.contains_key(dir) ==> after.contains_key(dir) && after[dir] == cache[dir]
            &&& forall|i: int| 0 <= i < n ==> after.contains_key(parts(#[trigger] dirs[i]))
            &&& forall|dir: Seq<Seq<u8>>| #[trigger]
                after.contains_key(dir) && !cache.contains_key(dir) ==> after[dir].scope == scope
        }),
    decreases n,
{
    if n > 0 {
        lemma_remembered_all(cache, dirs, scope, ignored, n - 1);
        let before = remembered(cache, dirs, scope, ignored, n - 1);
        let after = remembered(cache, dirs, scope, ignored, n);
        assert forall|dir: Seq<Seq<u8>>| #[trigger]
            after.contains_key(dir) && !cache.contains_key(dir) implies after[dir].scope == scope by {
            if before.contains_key(dir) {
                assert(after[dir] == before[dir]);
            } else {
                let kept = CachedScope { scope, ignored: ignored[n - 1] };
                assert(after[dir] == kept);
            }
        }
    }
}

/// Where each answer is what the scope makes of the directory that was asked about, every flag
/// that is kept is what its scope makes of its own directory.
pub proof fn law_flags_stay_true(
    ignores: spec_fn(u64, Seq<Seq<u8>>) -> bool,
    cache: Map<Seq<Seq<u8>>, CachedScope>,
    dirs: Seq<Seq<u8>>,
    scope: u64,
    ignored: Seq<bool>,
    n: int,
)
    requires
        0 <= n <= dirs.len(),
        forall|dir: Seq<Seq<u8>>| #[trigger]
            cache.contains_key(dir) ==> cache[dir].ignored == ignores(cache[dir].scope, dir),
        forall|j: int|
            0 <= j < n ==> #[trigger] ignored[j] == ignores(scope, parts(dirs[j])),
    ensures
        forall|dir: Seq<Seq<u8>>| #[trigger]
            remembered(cache, dirs, scope, ignored, n).contains_key(dir) ==> remembered(
                cache,
                dirs,
                scope,
                ignored,
                n,
            )[dir].ignored == ignores(remembered(cache, dirs, scope, ignored, n)[dir].scope, dir),
    decreases n,
{
    if n > 0 {
        law_flags_stay_true(ignores, cache, dirs, scope, ignored, n - 1);
        let before = remembered(cache, dirs, scope, ignored, n - 1);
        let last = parts(dirs[n - 1]);
        let kept = CachedScope { scope, ignored: ignored[n - 1] };
        assert(ignored[n - 1] == ignores(scope, last));
        let after = remembered(cache, dirs, scope, ignored, n);
        assert forall|dir: Seq<Seq<u8>>| #[trigger] after.contains_key(dir) implies after[dir].ignored
            == ignores(after[dir].scope, dir) by {
            if before.contains_key(dir) {
                assert(after[dir] == before[dir]);
            } else {
                assert(dir == last && after[dir] == kept);
            }
        }
    }
}

/// A file falls under the scope that is kept for the directory it is an entry of.
pub proof fn law_entry_falls_under_its_directory(
    cache: Map<Seq<Seq<u8>>, CachedScope>,
    dir: Seq<u8>,
    name: Seq<u8>,
)
    requires
        is_plain_name(name),
    ensures
        scope_above(cache, joined(dir, name)) is Some <==> cache.contains_key(parts(dir)),
        cache.contains_key(parts(dir)) ==> scope_above(cache, joined(dir, name)) == Some(
            cache[parts(dir)],
        ),
{
    law_entry_of_directory(dir, name);
}

/// What a walk looks at is every regular file that was not handed on before, under whatever
/// spelling, and nothing else.
pub proof fn law_what_a_walk_looks_at(entry: WalkedEntry, processed: Set<Seq<Seq<u8>>>)
    ensures
        processed.contains(parts(entry.path@)) ==> !is_candidate(entry, processed),
        is_candidate(entry, processed) ==> entry.kind == Some(FileKind::Regular),
        entry.kind == Some(FileKind::Regular) && !is_candidate(entry, processed)
            ==> processed.contains(parts(entry.path@)),
{
}

/// Whether a file may be looked at: where it is a configuration file, its directory was probed,
/// if nested configurations count, and no global ignore rule names it.
pub open spec fn is_let_in(is_config: bool, nested: bool, answers: VisitAnswers) -> bool {
    &&& is_config && nested ==> answers.parent_probe is Some && answers.parent_probe->Some_0 is Ok
    &&& is_config ==> answers.globally_ignored == Some(false)
}

/// Whether neither the scope nor the glob patterns keep a file back.
pub open spec fn is_wanted(
    cached: Option<CachedScope>,
    globs_active: bool,
    answers: VisitAnswers,
) -> bool {
    &&& cached is Some && !cached->Some_0.ignored
    &&& answers.ignored == Some(false)
    &&& globs_active ==> answers.selected == Some(true)
}

/// A walk is over where a configuration cannot be loaded, or where nobody takes files any more,
/// and only then; an error of a single file is reported, and the walk goes on.
pub proof fn law_when_a_walk_ends(
    is_config: bool,
    nested: bool,
    cached: Option<CachedScope>,
    globs_active: bool,
    answers: VisitAnswers,
    err: String,
)
    ensures
        ({
            let step = file_step(is_config, nested, cached, globs_active, answers);
            let formatted = is_let_in(is_config, nested, answers) && is_wanted(
                cached,
                globs_active,
                answers,
            ) && answers.classified == Some(true);
            &&& step == VisitStep::Fatal(err) <==> {
                ||| is_config && nested && answers.parent_probe == Some(Err::<(), String>(err))
                ||| is_let_in(is_config, nested, answers) && cached is None
                    && answers.scope_failure == Some(err)
            }
            &&& step == VisitStep::Report(err) <==> formatted && answers.resolved == Some(
                Err::<ResolveOutcome, String>(err),
            )
            &&& step == VisitStep::Finish(WalkState::Quit) <==> formatted && answers.resolved
                == Some(Ok::<ResolveOutcome, String>(ResolveOutcome::Format)) && answers.sent
                == Some(false)
            &&& step != VisitStep::Finish(WalkState::Skip)
        }),
{
    let step = file_step(is_config, nested, cached, globs_active, answers);
    assert(answers.ignored is Some ==> answers.ignored == Some(true) || answers.ignored == Some(
        false,
    ));
    assert(answers.selected is Some ==> answers.selected == Some(true) || answers.selected == Some(
        false,
    ));
    assert(answers.globally_ignored is Some ==> answers.globally_ignored == Some(true)
        || answers.globally_ignored == Some(false));
}

/// A file is passed over for a reason, and only then: a global ignore rule names it, its scope
/// ignores it or its directory, the glob patterns do not select it, nothing can format it, or it
/// is handed on.
pub proof fn law_why_a_file_is_done_with(
    is_config: bool,
    nested: bool,
    cached: Option<CachedScope>,
    globs_active: bool,
    answers: VisitAnswers,
)
    ensures
        file_step(is_config, nested, cached, globs_active, answers) == VisitStep::Finish(
            WalkState::Continue,
        ) <==> {
            let probed = is_config && nested ==> answers.parent_probe is Some
                && answers.parent_probe->Some_0 is Ok;
            ||| probed && is_config && answers.globally_ignored == Some(true)
            ||| is_let_in(is_config, nested, answers) && cached is Some && {
                ||| cached->Some_0.ignored
                ||| answers.ignored == Some(true)
                ||| answers.ignored == Some(false) && globs_active && answers.selected == Some(
                    false,
                )
                ||| is_wanted(cached, globs_active, answers) && answers.classified == Some(false)
                ||| is_wanted(cached, globs_active, answers) && answers.classified == Some(true) && {
                    ||| answers.resolved == Some(
                        Ok::<ResolveOutcome, String>(ResolveOutcome::MissingPlugin),
                    )
                    ||| answers.resolved == Some(
                        Ok::<ResolveOutcome, String>(ResolveOutcome::Format),
                    ) && answers.sent == Some(true)
                }
            }
        },
{
    assert(answers.ignored is Some ==> answers.ignored == Some(true) || answers.ignored == Some(
        false,
    ));
    assert(answers.selected is Some ==> answers.selected == Some(true) || answers.selected == Some(
        false,
    ));
    assert(answers.globally_ignored is Some ==> answers.globally_ignored == Some(true)
        || answers.globally_ignored == Some(false));
}

/// What is asked about a file, and when: each question comes only where everything before it is
/// answered in the file's favour, and the scope that is asked is that of its directory.
pub proof fn law_when_each_question_comes(
    is_config: bool,
    nested: bool,
    cached: Option<CachedScope>,
    globs_active: bool,
    answers: VisitAnswers,
)
    ensures
        ({
            let step = file_step(is_config, nested, cached, globs_active, answers);
            let probed = is_config && nested ==> answers.parent_probe is Some
                && answers.parent_probe->Some_0 is Ok;
            let here = is_let_in(is_config, nested, answers);
            let open = here && cached is Some && !cached->Some_0.ignored;
            let wanted = here && is_wanted(cached, globs_active, answers);
            &&& step == VisitStep::ProbeParent <==> is_config && nested && answers.parent_probe
                is None
            &&& step == VisitStep::CheckGlobalIgnore <==> probed && is_config
                && answers.globally_ignored is None
            &&& step == VisitStep::EnsureScope <==> here && cached is None && answers.scope_failure
                is None
            &&& step is CheckIgnored <==> open && answers.ignored is None
            &&& step == VisitStep::MatchGlobs <==> open && answers.ignored == Some(false)
                && globs_active && answers.selected is None
            &&& step == VisitStep::Classify <==> wanted && answers.classified is None
            &&& step is Resolve <==> wanted && answers.classified == Some(true) && answers.resolved
                is None
        }),
{
    assert(answers.ignored is Some ==> answers.ignored == Some(true) || answers.ignored == Some(
        false,
    ));
    assert(answers.selected is Some ==> answers.selected == Some(true) || answers.selected == Some(
        false,
    ));
    assert(answers.globally_ignored is Some ==> answers.globally_ignored == Some(true)
        || answers.globally_ignored == Some(false));
}

/// The caller is never asked for what it has answered.
pub proof fn law_no_question_twice(
    is_config: bool,
    nested: bool,
    cached: Option<CachedScope>,
    globs_active: bool,
    answers: VisitAnswers,
)
    ensures
        match file_step(is_config, nested, cached, globs_active, answers) {
            VisitStep::ProbeParent => answers.parent_probe is None,
            VisitStep::CheckGlobalIgnore => answers.globally_ignored is None,
            VisitStep::EnsureScope => cached is None && answers.scope_failure is None,
            VisitStep::CheckIgnored(scope) => answers.ignored is None && cached is Some && scope
                == cached->Some_0.scope,
            VisitStep::MatchGlobs => answers.selected is None,
            VisitStep::Classify => answers.classified is None,
            VisitStep::Resolve(scope) => answers.resolved is None && cached is Some && scope
                == cached->Some_0.scope,
            VisitStep::Send => answers.sent is None,
            VisitStep::Finish(_) => true,
            VisitStep::Report(_) => true,
            VisitStep::Fatal(_) => true,
        },
{
}

/// The report on a file whose configuration could not be resolved.
#[derive(Debug)]
pub struct ResolveDiagnostic {
    pub message: String,
    pub help: String,
}

/// The report on a file, shown as `shown`, whose configuration could not be resolved because
/// of `err`.
pub fn report_resolve_error(shown: &str, err: String) -> (report: ResolveDiagnostic)
    ensures
        report.message@ == "Invalid resolved configuration for "@ + shown@,
        report.help == err,
{
    let mut message: String = "Invalid resolved configuration for ".to_owned();
    message.append(shown);
    ResolveDiagnostic { message, help: err }
}

/// The first error that ends a walk.
#[derive(Debug)]
pub struct FatalError {
    first: Option<String>,
}

impl FatalError {
    /// The error, if there is one.
    pub closed spec fn error(&self) -> Option<String> {
        self.first
    }

    /// No error.
    pub fn new() -> (fatal: FatalError)
        ensures
            fatal.error() is None,
    {
        FatalError { first: None }
    }

    /// Records an error; only the first one counts.
    pub fn record_fatal(&mut self, err: String)
        ensures
            final(self).error() == (match old(self).error() {
                None => Some(err),
                Some(first) => Some(first),
            }),
    {
        if self.first.is_none() {
            self.first = Some(err);
        }
    }

    /// The error, if there is one.
    pub fn into_error(self) -> (err: Option<String>)
        ensures
            err == self.error(),
    {
        self.first
    }
}

} // verus!

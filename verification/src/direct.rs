//! Files that are named outright: they are processed without a walk.

use vstd::prelude::*;

use crate::components::{is_plain_name, law_entry_of_directory};
use crate::nested::ConfigLoadResult;
use crate::path::{ancestors_of, joined, parent_of, parts, FsPath, PathKey};
use crate::path_index::{
    map_entries, map_get, map_insert, map_new, set_insert, set_new, set_paths, PathMap, PathSet,
};
use crate::visitor::ResolveOutcome;

verus! {

/// What the caller has found out so far about a file.
#[derive(Debug)]
pub struct FileAnswers {
    /// Whether it is a regular file.
    pub regular: Option<bool>,
    /// Why its scope could not be settled.
    pub scope_failure: Option<String>,
    /// Whether its scope ignores it.
    pub ignored: Option<bool>,
    /// Whether it is of a kind that can be formatted.
    pub classified: Option<bool>,
    /// What its scope makes of it.
    pub resolved: Option<Result<ResolveOutcome, String>>,
    /// Whether it was handed on.
    pub sent: Option<bool>,
}

/// What to do next about a file.
#[derive(Debug)]
pub enum FileStep {
    /// Find out whether it is a regular file.
    CheckRegular,
    /// Settle the scope of its directory.
    ResolveScope,
    /// Find out whether this scope ignores it.
    CheckIgnored(u64),
    /// Find out whether it can be formatted.
    Classify,
    /// Find out what this scope makes of it.
    Resolve(u64),
    /// Note that it is processed, and hand it on to be formatted.
    Send,
    /// Nothing: go on with the next file.
    Next,
    /// Nothing but to report this error; go on with the next file.
    Report(String),
    /// Nothing: nobody takes files any more.
    Stop,
    /// Nothing: the run ends with this error.
    Abort(String),
}

/// What to do next about a file, where `scope` is the scope of its directory if that is
/// settled.
///
/// What is no regular file is passed over; so is what its scope ignores and what nothing can
/// format. Everything else is handed on.
pub open spec fn direct_step(scope: Option<u64>, answers: FileAnswers) -> FileStep {
    match answers.regular {
        None => FileStep::CheckRegular,
        Some(false) => FileStep::Next,
        Some(true) => match scope {
            None => match answers.scope_failure {
                Some(err) => FileStep::Abort(err),
                None => FileStep::ResolveScope,
            },
            Some(scope) => match answers.ignored {
                None => FileStep::CheckIgnored(scope),
                Some(true) => FileStep::Next,
                Some(false) => match answers.classified {
                    None => FileStep::Classify,
                    Some(false) => FileStep::Next,
                    Some(true) => match answers.resolved {
                        None => FileStep::Resolve(scope),
                        Some(Ok(ResolveOutcome::MissingPlugin)) => FileStep::Next,
                        Some(Err(err)) => FileStep::Report(err),
                        Some(Ok(ResolveOutcome::Format)) => match answers.sent {
                            None => FileStep::Send,
                            Some(true) => FileStep::Next,
                            Some(false) => FileStep::Stop,
                        },
                    },
                },
            },
        },
    }
}

/// What to do next to settle the scope of a file.
#[derive(Debug)]
pub enum FileScopeStep {
    /// Probe this directory.
    Probe(FsPath),
    /// Nothing: this is the scope.
    Resolved(u64),
    /// Nothing: a configuration could not be loaded.
    Failed(String),
}

/// What looking upward from a file's directory comes to.
pub enum FileScope {
    /// The `i`-th directory is still to be probed.
    Probe(int),
    Resolved(u64),
    Failed(String),
}

/// What looking upward along `chain` comes to, from its `i`-th directory on: the first
/// directory with a configuration counts, and the directory of the root configuration is not
/// probed.
pub open spec fn file_scope(
    root: u64,
    root_dir: Option<Seq<Seq<u8>>>,
    chain: Seq<Seq<u8>>,
    probes: Seq<ConfigLoadResult>,
    i: int,
) -> FileScope
    decreases chain.len() - i,
{
    if i < 0 || i >= chain.len() || root_dir == Some(parts(chain[i])) {
        FileScope::Resolved(root)
    } else if i >= probes.len() {
        FileScope::Probe(i)
    } else {
        match probes[i] {
            Err(err) => FileScope::Failed(err),
            Ok(Some(scope)) => FileScope::Resolved(scope),
            Ok(None) => file_scope(root, root_dir, chain, probes, i + 1),
        }
    }
}

/// The next step of settling the scope of the files in `parent`; `probes` is what probes of
/// `parent` and of the directories above it gave so far.
pub fn resolve_file_scope_config(
    parent: &FsPath,
    root_scope: u64,
    root_config_dir: &Option<FsPath>,
    probes: &Vec<ConfigLoadResult>,
) -> (step: FileScopeStep)
    ensures
        match file_scope(
            root_scope,
            match root_config_dir {
                Some(dir) => Some(parts(dir@)),
                None => None,
            },
            ancestors_of(parent@),
            probes@,
            0,
        ) {
            FileScope::Probe(i) => step matches FileScopeStep::Probe(dir) && dir@ == ancestors_of(
                parent@,
            )[i],
            FileScope::Resolved(scope) => step == FileScopeStep::Resolved(scope),
            FileScope::Failed(err) => step == FileScopeStep::Failed(err),
        },
{
    let chain: Vec<FsPath> = parent.ancestors();
    let ghost root_dir: Option<Seq<Seq<u8>>> = match root_config_dir {
        Some(dir) => Some(parts(dir@)),
        None => None,
    };
    let ghost above = ancestors_of(parent@);
    let mut i: usize = 0;
    while i < chain.len()
        invariant
            i <= chain@.len(),
            above == ancestors_of(parent@),
            chain@.len() == above.len(),
            forall|j: int| 0 <= j < chain@.len() ==> (#[trigger] chain@[j])@ == above[j],
            root_dir == (match root_config_dir {
                Some(dir) => Some(parts(dir@)),
                None => None,
            }),
            file_scope(root_scope, root_dir, above, probes@, 0) == file_scope(
                root_scope,
                root_dir,
                above,
                probes@,
                i as int,
            ),
        decreases chain@.len() - i,
    {
        let at_root: bool = match root_config_dir {
            Some(dir) => dir.same_as(&chain[i]),
            None => false,
        };
        if at_root {
            return FileScopeStep::Resolved(root_scope);
        }
        if i >= probes.len() {
            return FileScopeStep::Probe(chain[i].duplicate());
        }
        match &probes[i] {
            Err(err) => {
                return FileScopeStep::Failed(err.clone());
            },
            Ok(Some(scope)) => {
                return FileScopeStep::Resolved(*scope);
            },
            Ok(None) => {},
        }
        i = i + 1;
    }
    FileScopeStep::Resolved(root_scope)
}

/// The files that are named outright, with what is known of their directories.
pub struct DirectFiles {
    detect_nested: bool,
    root_scope: u64,
    scope_by_parent: PathMap,
    processed: PathSet,
}

impl DirectFiles {
    /// Whether nested configurations count.
    pub closed spec fn nested(&self) -> bool {
        self.detect_nested
    }

    /// The scope of the root configuration.
    pub closed spec fn root(&self) -> u64 {
        self.root_scope
    }

    /// The settled scopes of directories.
    pub closed spec fn scopes(&self) -> Map<Seq<Seq<u8>>, u64> {
        map_entries(self.scope_by_parent)
    }

    /// The files that were handed on.
    pub closed spec fn processed_files(&self) -> Set<Seq<Seq<u8>>> {
        set_paths(self.processed)
    }

    /// The scope of a file, if that is settled: the root scope where nested configurations do
    /// not count, else that of the file's directory.
    pub open spec fn scope_of(&self, file: Seq<u8>) -> Option<u64> {
        if !self.nested() {
            Some(self.root())
        } else {
            match parent_of(file) {
                Some(parent) => if self.scopes().contains_key(parts(parent)) {
                    Some(self.scopes()[parts(parent)])
                } else {
                    None
                },
                None => None,
            }
        }
    }

    /// No file was handed on, and nothing is known of any directory.
    pub fn new(detect_nested: bool, root_scope: u64) -> (files: DirectFiles)
        ensures
            files.nested() == detect_nested,
            files.root() == root_scope,
            files.scopes() == Map::<Seq<Seq<u8>>, u64>::empty(),
            files.processed_files() == Set::<Seq<Seq<u8>>>::empty(),
    {
        let files = DirectFiles {
            detect_nested,
            root_scope,
            scope_by_parent: map_new(),
            processed: set_new(),
        };
        assert(files.scopes() =~= Map::<Seq<Seq<u8>>, u64>::empty());
        files
    }

    /// The next step about `file`.
    pub fn process(&self, file: &FsPath, answers: &FileAnswers) -> (step: FileStep)
        requires
            self.nested() && answers.regular == Some(true) ==> parent_of(file@) is Some,
        ensures
            step == direct_step(self.scope_of(file@), *answers),
    {
        match answers.regular {
            None => {
                return FileStep::CheckRegular;
            },
            Some(false) => {
                return FileStep::Next;
            },
            Some(true) => {},
        }
        let settled: Option<u64> = if !self.detect_nested {
            Some(self.root_scope)
        } else {
            match file.parent() {
                Some(parent) => map_get(&self.scope_by_parent, &parent.components()),
                None => None,
            }
        };
        let scope: u64 = match settled {
            Some(scope) => scope,
            None => {
                return match &answers.scope_failure {
                    Some(err) => FileStep::Abort(err.clone()),
                    None => FileStep::ResolveScope,
                };
            },
        };
        match answers.ignored {
            None => {
                return FileStep::CheckIgnored(scope);
            },
            Some(true) => {
                return FileStep::Next;
            },
            Some(false) => {},
        }
        match answers.classified {
            None => {
                return FileStep::Classify;
            },
            Some(false) => {
                return FileStep::Next;
            },
            Some(true) => {},
        }
        match &answers.resolved {
            None => FileStep::Resolve(scope),
            Some(Ok(ResolveOutcome::MissingPlugin)) => FileStep::Next,
            Some(Err(err)) => FileStep::Report(err.clone()),
            Some(Ok(ResolveOutcome::Format)) => match answers.sent {
                None => FileStep::Send,
                Some(true) => FileStep::Next,
                Some(false) => FileStep::Stop,
            },
        }
    }

    /// Keeps `scope` as that of the directory that `file` stands in.
    pub fn keep_scope(&mut self, file: &FsPath, scope: u64)
        requires
            parent_of(file@) is Some,
        ensures
            final(self).nested() == old(self).nested(),
            final(self).root() == old(self).root(),
            final(self).processed_files() == old(self).processed_files(),
            final(self).scopes() == old(self).scopes().insert(
                parts(parent_of(file@)->Some_0),
                scope,
            ),
    {
        if let Some(parent) = file.parent() {
            map_insert(&mut self.scope_by_parent, parent.components(), scope);
        }
    }

    /// Notes that `file` is processed, so that a walk does not process it again.
    pub fn mark_processed(&mut self, file: &FsPath)
        ensures
            final(self).nested() == old(self).nested(),
            final(self).root() == old(self).root(),
            final(self).scopes() == old(self).scopes(),
            final(self).processed_files() == old(self).processed_files().insert(parts(file@)),
    {
        let key: PathKey = file.components();
        set_insert(&mut self.processed, key);
    }

    /// The files that were handed on.
    pub fn into_processed(self) -> (processed: PathSet)
        ensures
            set_paths(processed) == self.processed_files(),
    {
        self.processed
    }
}

/// Where nested configurations do not count, every file falls under the root configuration.
pub proof fn law_without_nesting_root_scope(files: DirectFiles, file: Seq<u8>)
    requires
        !files.nested(),
    ensures
        files.scope_of(file) == Some(files.root()),
{
}

/// The scope of a directory is settled once for all the files in it: two files of one
/// directory have the same scope.
pub proof fn law_siblings_share_scope(files: DirectFiles, a: Seq<u8>, b: Seq<u8>)
    requires
        parent_of(a) is Some,
        parent_of(b) is Some,
        parts(parent_of(a)->Some_0) == parts(parent_of(b)->Some_0),
    ensures
        files.scope_of(a) == files.scope_of(b),
{
}

/// Where nested configurations count, a file falls under the scope that is settled for the
/// directory it is an entry of, and under none where none is.
pub proof fn law_named_entry_falls_under_its_directory(
    files: DirectFiles,
    dir: Seq<u8>,
    name: Seq<u8>,
)
    requires
        is_plain_name(name),
        files.nested(),
    ensures
        files.scope_of(joined(dir, name)) is Some <==> files.scopes().contains_key(parts(dir)),
        files.scopes().contains_key(parts(dir)) ==> files.scope_of(joined(dir, name)) == Some(
            files.scopes()[parts(dir)],
        ),
{
    law_entry_of_directory(dir, name);
}

/// What each answer about a file leads to: the run ends only where its scope cannot be settled,
/// the files after it are left out only where nobody takes files any more, an error of its own is
/// reported, and it is passed over only for a reason.
pub proof fn law_what_becomes_of_a_named_file(
    scope: Option<u64>,
    answers: FileAnswers,
    err: String,
)
    ensures
        ({
            let step = direct_step(scope, answers);
            let there = answers.regular == Some(true) && scope is Some;
            let kept = there && answers.ignored == Some(false);
            let known = kept && answers.classified == Some(true);
            let formatted = known && answers.resolved == Some(
                Ok::<ResolveOutcome, String>(ResolveOutcome::Format),
            );
            &&& step == FileStep::Abort(err) <==> answers.regular == Some(true) && scope is None
                && answers.scope_failure == Some(err)
            &&& step == FileStep::Report(err) <==> known && answers.resolved == Some(
                Err::<ResolveOutcome, String>(err),
            )
            &&& step == FileStep::Stop <==> formatted && answers.sent == Some(false)
            &&& step == FileStep::Next <==> {
                ||| answers.regular == Some(false)
                ||| there && answers.ignored == Some(true)
                ||| kept && answers.classified == Some(false)
                ||| known && answers.resolved == Some(
                    Ok::<ResolveOutcome, String>(ResolveOutcome::MissingPlugin),
                )
                ||| formatted && answers.sent == Some(true)
            }
        }),
{
    assert(answers.regular is Some ==> answers.regular == Some(true) || answers.regular == Some(
        false,
    ));
    assert(answers.ignored is Some ==> answers.ignored == Some(true) || answers.ignored == Some(
        false,
    ));
    assert(answers.classified is Some ==> answers.classified == Some(true) || answers.classified
        == Some(false));
    assert(answers.sent is Some ==> answers.sent == Some(true) || answers.sent == Some(false));
}

/// What is asked about a file, and when: each question comes only where everything before it is
/// answered in the file's favour, and the scope that is asked is the file's own.
pub proof fn law_when_each_question_about_a_file_comes(scope: Option<u64>, answers: FileAnswers)
    ensures
        ({
            let step = direct_step(scope, answers);
            let there = answers.regular == Some(true) && scope is Some;
            let kept = there && answers.ignored == Some(false);
            &&& step == FileStep::CheckRegular <==> answers.regular is None
            &&& step == FileStep::ResolveScope <==> answers.regular == Some(true) && scope is None
                && answers.scope_failure is None
            &&& step is CheckIgnored <==> there && answers.ignored is None
            &&& step == FileStep::Classify <==> kept && answers.classified is None
            &&& step is Resolve <==> kept && answers.classified == Some(true) && answers.resolved
                is None
            &&& step matches FileStep::CheckIgnored(asked) ==> scope == Some(asked)
            &&& step matches FileStep::Resolve(asked) ==> scope == Some(asked)
        }),
{
    assert(answers.regular is Some ==> answers.regular == Some(true) || answers.regular == Some(
        false,
    ));
    assert(answers.ignored is Some ==> answers.ignored == Some(true) || answers.ignored == Some(
        false,
    ));
    assert(answers.classified is Some ==> answers.classified == Some(true) || answers.classified
        == Some(false));
}

/// A file is handed on if and only if nothing keeps it back.
pub proof fn law_direct_sent_iff(scope: Option<u64>, answers: FileAnswers)
    ensures
        direct_step(scope, answers) == FileStep::Send <==> ({
            &&& answers.regular == Some(true)
            &&& scope is Some
            &&& answers.ignored == Some(false)
            &&& answers.classified == Some(true)
            &&& answers.resolved == Some(Ok::<ResolveOutcome, String>(ResolveOutcome::Format))
            &&& answers.sent is None
        }),
{
    if direct_step(scope, answers) == FileStep::Send {
        assert(answers.regular == Some(true));
        assert(answers.ignored == Some(false));
        assert(answers.classified == Some(true));
        assert(answers.resolved == Some(Ok::<ResolveOutcome, String>(ResolveOutcome::Format)));
    }
}

} // verus!

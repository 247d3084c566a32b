//! Which entries a walk enters at all.

use vstd::prelude::*;

use crate::discovery::{config_at, FileKind};
use crate::nested::NestedConfigCtx;
use crate::path::FsPath;
use crate::text::{ascii, spells};

verus! {

/// The names of the directories in which version control systems keep their data: `.git`,
/// `.jj`, `.sl`, `.svn` and `.hg`.
pub open spec fn is_vcs_dir(name: Seq<u8>) -> bool {
    ||| name == ascii(".git"@)
    ||| name == ascii(".jj"@)
    ||| name == ascii(".sl"@)
    ||| name == ascii(".svn"@)
    ||| name == ascii(".hg"@)
}

/// Whether a directory of this name is never walked: version control data always, and
/// `node_modules` unless it is asked for.
pub open spec fn is_skipped_dir(name: Seq<u8>, with_node_modules: bool) -> bool {
    is_vcs_dir(name) || (!with_node_modules && name == ascii("node_modules"@))
}

/// Whether a directory of this name is never walked.
pub fn is_ignored_dir(dir_name: &[u8], with_node_modules: bool) -> (skipped: bool)
    ensures
        skipped == is_skipped_dir(dir_name@, with_node_modules),
{
    proof {
        reveal_strlit(".git");
        reveal_strlit(".jj");
        reveal_strlit(".sl");
        reveal_strlit(".svn");
        reveal_strlit(".hg");
        reveal_strlit("node_modules");
    }
    spells(dir_name, ".git") || spells(dir_name, ".jj") || spells(dir_name, ".sl") || spells(
        dir_name,
        ".svn",
    ) || spells(dir_name, ".hg") || (!with_node_modules && spells(dir_name, "node_modules"))
}

/// Whether a directory is kept out of a walk: by its name, or by a global ignore rule.
pub fn is_walk_excluded_dir(dir_name: &[u8], with_node_modules: bool, ignored: bool) -> (excluded:
    bool)
    ensures
        excluded == (is_skipped_dir(dir_name@, with_node_modules) || ignored),
{
    is_ignored_dir(dir_name, with_node_modules) || ignored
}

/// Whether a walk enters an entry.
#[derive(Clone, Copy, Debug, PartialEq, Eq, Structural)]
pub enum FilterStep {
    /// It does.
    Enter,
    /// It does not.
    PassOver,
    /// That depends on whether a global ignore rule names the entry.
    CheckGlobalIgnore,
}

/// What a global ignore rule makes of an entry, once that is known.
pub open spec fn unless_ignored(ignored: Option<bool>) -> FilterStep {
    match ignored {
        None => FilterStep::CheckGlobalIgnore,
        Some(true) => FilterStep::PassOver,
        Some(false) => FilterStep::Enter,
    }
}

/// Whether a walk enters an entry of this kind and name.
///
/// An entry of unknown kind is passed over, and so is a directory that is never walked. A file
/// that looks like a configuration is entered even where a global ignore rule names it, so that
/// it is discovered; everything else is subject to those rules.
pub open spec fn filter_step(
    kind: Option<FileKind>,
    name: Seq<u8>,
    is_config: bool,
    with_node_modules: bool,
    ignored: Option<bool>,
) -> FilterStep {
    match kind {
        None => FilterStep::PassOver,
        Some(FileKind::Directory) => if is_skipped_dir(name, with_node_modules) {
            FilterStep::PassOver
        } else {
            unless_ignored(ignored)
        },
        Some(_) => if is_config {
            FilterStep::Enter
        } else {
            unless_ignored(ignored)
        },
    }
}

/// Whether a walk enters the entry `name`, which is at `path`; `ignored` says whether a global
/// ignore rule names it, once the caller knows.
pub fn filter_entry(
    kind: Option<FileKind>,
    name: &[u8],
    path: &FsPath,
    ctx: &NestedConfigCtx,
    with_node_modules: bool,
    ignored: Option<bool>,
) -> (step: FilterStep)
    ensures
        step == filter_step(
            kind,
            name@,
            config_at(ctx.names(), path@) is Some,
            with_node_modules,
            ignored,
        ),
{
    let is_dir: bool = match kind {
        None => {
            return FilterStep::PassOver;
        },
        Some(FileKind::Directory) => true,
        Some(_) => false,
    };
    if is_dir {
        if is_walk_excluded_dir(name, with_node_modules, false) {
            return FilterStep::PassOver;
        }
    } else if ctx.is_config_file(path) {
        return FilterStep::Enter;
    }
    match ignored {
        None => FilterStep::CheckGlobalIgnore,
        Some(true) => FilterStep::PassOver,
        Some(false) => FilterStep::Enter,
    }
}

/// Version control data is never walked, whatever the ignore rules and the options say, and
/// neither is `node_modules` unless it is asked for.
pub proof fn law_skipped_dirs_never_walked(
    name: Seq<u8>,
    is_config: bool,
    with_node_modules: bool,
    ignored: Option<bool>,
)
    requires
        is_vcs_dir(name) || (!with_node_modules && name == ascii("node_modules"@)),
    ensures
        filter_step(Some(FileKind::Directory), name, is_config, with_node_modules, ignored)
            == FilterStep::PassOver,
{
}

/// A global ignore rule keeps out whatever it names, but for what looks like a configuration
/// file.
pub proof fn law_global_ignore_blocks(
    kind: Option<FileKind>,
    name: Seq<u8>,
    is_config: bool,
    with_node_modules: bool,
)
    ensures
        filter_step(kind, name, is_config, with_node_modules, Some(true)) == (if is_config
            && kind is Some && kind != Some(FileKind::Directory) {
            FilterStep::Enter
        } else {
            FilterStep::PassOver
        }),
{
}

/// The directories that are never walked, and no others: `.git`, `.jj`, `.sl`, `.svn` and `.hg`,
/// and `node_modules` unless it is asked for. Other names that begin with a dot are not among
/// them.
pub proof fn law_skipped_names(name: Seq<u8>, with_node_modules: bool)
    ensures
        is_skipped_dir(name, with_node_modules) <==> {
            ||| name == seq![46u8, 103u8, 105u8, 116u8]
            ||| name == seq![46u8, 106u8, 106u8]
            ||| name == seq![46u8, 115u8, 108u8]
            ||| name == seq![46u8, 115u8, 118u8, 110u8]
            ||| name == seq![46u8, 104u8, 103u8]
            ||| !with_node_modules && name == seq![
                110u8,
                111u8,
                100u8,
                101u8,
                95u8,
                109u8,
                111u8,
                100u8,
                117u8,
                108u8,
                101u8,
                115u8,
            ]
        },
{
    reveal_strlit(".git");
    reveal_strlit(".jj");
    reveal_strlit(".sl");
    reveal_strlit(".svn");
    reveal_strlit(".hg");
    reveal_strlit("node_modules");
    assert(ascii(".git"@) =~= seq![46u8, 103u8, 105u8, 116u8]);
    assert(ascii(".jj"@) =~= seq![46u8, 106u8, 106u8]);
    assert(ascii(".sl"@) =~= seq![46u8, 115u8, 108u8]);
    assert(ascii(".svn"@) =~= seq![46u8, 115u8, 118u8, 110u8]);
    assert(ascii(".hg"@) =~= seq![46u8, 104u8, 103u8]);
    assert(ascii("node_modules"@) =~= seq![
        110u8,
        111u8,
        100u8,
        101u8,
        95u8,
        109u8,
        111u8,
        100u8,
        117u8,
        108u8,
        101u8,
        115u8,
    ]);
}

/// An entry of known kind is kept out only where its name is that of a directory that is never
/// walked, or a global ignore rule names it; whatever is neither is entered, hidden or not.
pub proof fn law_all_else_is_entered(
    kind: FileKind,
    name: Seq<u8>,
    is_config: bool,
    with_node_modules: bool,
    ignored: Option<bool>,
)
    requires
        kind != FileKind::Directory || !is_skipped_dir(name, with_node_modules),
        ignored != Some(true),
    ensures
        filter_step(Some(kind), name, is_config, with_node_modules, ignored) != FilterStep::PassOver,
        ignored == Some(false) ==> filter_step(
            Some(kind),
            name,
            is_config,
            with_node_modules,
            ignored,
        ) == FilterStep::Enter,
{
}

/// An entry of unknown kind is passed over, and a configuration file that is no directory is
/// entered without asking; of anything else it is asked whether a global ignore rule names it,
/// unless it is never walked anyway.
pub proof fn law_when_ignore_rules_are_asked(
    kind: Option<FileKind>,
    name: Seq<u8>,
    is_config: bool,
    with_node_modules: bool,
)
    ensures
        kind is None ==> forall|ignored: Option<bool>| #[trigger]
            filter_step(kind, name, is_config, with_node_modules, ignored) == FilterStep::PassOver,
        kind is Some && kind != Some(FileKind::Directory) && is_config ==> forall|
            ignored: Option<bool>,
        | #[trigger]
            filter_step(kind, name, is_config, with_node_modules, ignored) == FilterStep::Enter,
        filter_step(kind, name, is_config, with_node_modules, None)
            == FilterStep::CheckGlobalIgnore <==> {
            ||| kind == Some(FileKind::Directory) && !is_skipped_dir(name, with_node_modules)
            ||| kind is Some && kind != Some(FileKind::Directory) && !is_config
        },
{
}

/// The answer is asked for at most once: once it is there, the entry is decided.
pub proof fn law_filter_decides(
    kind: Option<FileKind>,
    name: Seq<u8>,
    is_config: bool,
    with_node_modules: bool,
    ignored: bool,
)
    ensures
        filter_step(kind, name, is_config, with_node_modules, Some(ignored))
            != FilterStep::CheckGlobalIgnore,
{
}

} // verus!

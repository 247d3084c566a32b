//! Every file falls under its nearest configuration.

use vstd::prelude::*;

use crate::direct::{direct_step, file_scope, DirectFiles, FileAnswers, FileScope, FileStep};
use crate::nested::{
    after_events, law_stays_consistent, ConfigLoadResult, CtxEvent, CtxState, ProbeStep,
};
use crate::path::{
    ancestors_of, is_rooted, lemma_ancestors, lemma_ranges, parent_of, parts, ranges, SLASH,
};
use crate::visitor::{
    file_step, first_telling, law_flag_is_the_directorys_own, law_only_these_are_kept, remembered,
    scope_above, search_from, settled_dirs, verdict, CachedScope, ScopeRules, Verdict, VisitAnswers,
    VisitStep,
};

verus! {

/// Whether there is a directory above `dir`.
pub open spec fn has_parent(dir: Seq<Seq<u8>>) -> bool {
    dir.len() > 1 || (dir.len() == 1 && dir[0] != seq![SLASH])
}

/// The nearest configuration of `dir`, where `configs` says which directories have one, and
/// which of those cannot be loaded, for what reason.
///
/// It is looked for upward, all the way; the root configuration counts as that of its own
/// directory, and stands where there is no other.
pub open spec fn nearest(
    rules: ScopeRules,
    configs: Map<Seq<Seq<u8>>, Result<u64, String>>,
    dir: Seq<Seq<u8>>,
) -> Result<u64, String>
    decreases dir.len(),
{
    if rules.root_dir == Some(dir) {
        Ok(rules.root)
    } else if configs.contains_key(dir) {
        configs[dir]
    } else if !has_parent(dir) {
        Ok(rules.root)
    } else {
        nearest(rules, configs, dir.drop_last())
    }
}

/// Whether every settled scope is that of the nearest configuration.
pub open spec fn cache_is_nearest(
    rules: ScopeRules,
    configs: Map<Seq<Seq<u8>>, Result<u64, String>>,
    cache: Map<Seq<Seq<u8>>, CachedScope>,
) -> bool {
    forall|dir: Seq<Seq<u8>>| #[trigger]
        cache.contains_key(dir) ==> nearest(rules, configs, dir) == Ok::<u64, String>(cache[dir].scope)
}

/// Whether every registered scope is that of a configuration of its directory.
pub open spec fn scopes_are_true(
    configs: Map<Seq<Seq<u8>>, Result<u64, String>>,
    scopes: Map<Seq<Seq<u8>>, u64>,
) -> bool {
    forall|dir: Seq<Seq<u8>>| #[trigger]
        scopes.contains_key(dir) ==> configs.contains_key(dir) && configs[dir] == Ok::<u64, String>(
            scopes[dir],
        )
}

/// What a probe of `dir` gives.
pub open spec fn true_probe(
    configs: Map<Seq<Seq<u8>>, Result<u64, String>>,
    dir: Seq<Seq<u8>>,
) -> ConfigLoadResult {
    if configs.contains_key(dir) {
        match configs[dir] {
            Ok(scope) => Ok(Some(scope)),
            Err(err) => Err(err),
        }
    } else {
        Ok(None)
    }
}

/// Whether the probes of the directories along `chain` are what probes give.
pub open spec fn probes_are_true(
    configs: Map<Seq<Seq<u8>>, Result<u64, String>>,
    chain: Seq<Seq<u8>>,
    probes: Seq<ConfigLoadResult>,
) -> bool {
    forall|i: int|
        0 <= i < probes.len() && i < chain.len() ==> #[trigger] probes[i] == true_probe(
            configs,
            parts(chain[i]),
        )
}

/// A path begins at the root if and only if its first component is the root.
proof fn lemma_rooted(s: Seq<u8>)
    ensures
        is_rooted(s) <==> parts(s).len() > 0 && parts(s)[0] == seq![SLASH],
{
    lemma_ranges(s);
    if s.len() > 0 {
        let r: (int, int) = ranges(s)[0];
        assert(parts(s)[0][0] == s[0]);
        if is_rooted(s) {
            assert(parts(s)[0] =~= seq![SLASH]);
        }
    }
}

/// Each directory of the chain upward from `s` is the one before it without its last component,
/// and the last one has nothing above it.
proof fn lemma_chain(s: Seq<u8>, i: int)
    requires
        0 <= i < ancestors_of(s).len(),
    ensures
        has_parent(parts(ancestors_of(s)[i])) <==> i + 1 < ancestors_of(s).len(),
        i + 1 < ancestors_of(s).len() ==> parts(ancestors_of(s)[i + 1]) == parts(
            ancestors_of(s)[i],
        ).drop_last(),
{
    lemma_ancestors(s);
    lemma_rooted(s);
    let whole = parts(s);
    let dir = parts(ancestors_of(s)[i]);
    assert(dir == whole.take(whole.len() - i));
    if dir.len() > 0 {
        assert(dir[0] == whole[0]);
    }
    if i + 1 < ancestors_of(s).len() {
        assert(whole.take(whole.len() - (i + 1)) == dir.drop_last());
    }
}

/// Looking upward passes only directories of which nothing is known, and what it finds is the
/// nearest configuration of where it ends.
proof fn lemma_search(
    rules: ScopeRules,
    configs: Map<Seq<Seq<u8>>, Result<u64, String>>,
    cache: Map<Seq<Seq<u8>>, CachedScope>,
    scopes: Map<Seq<Seq<u8>>, u64>,
    chain: Seq<Seq<u8>>,
    i: int,
)
    requires
        0 <= i <= chain.len(),
        cache_is_nearest(rules, configs, cache),
        scopes_are_true(configs, scopes),
    ensures
        ({
            let found = search_from(rules, cache, scopes, chain, i);
            &&& i <= found.0 <= chain.len()
            &&& forall|j: int|
                i <= j < found.0 ==> rules.root_dir != Some(#[trigger] parts(chain[j]))
                    && !cache.contains_key(parts(chain[j]))
            &&& found.1 is None ==> found.0 == chain.len()
            &&& found.1 matches Some(scope) ==> found.0 < chain.len() && nearest(
                rules,
                configs,
                parts(chain[found.0]),
            ) == Ok::<u64, String>(scope)
        }),
    decreases chain.len() - i,
{
    if i < chain.len() {
        let dir = parts(chain[i]);
        if !cache.contains_key(dir) && rules.root_dir != Some(dir) && !scopes.contains_key(dir) {
            lemma_search(rules, configs, cache, scopes, chain, i + 1);
        }
    }
}

proof fn lemma_first_telling(probes: Seq<ConfigLoadResult>, n: int, i: int)
    requires
        0 <= i <= n,
    ensures
        i <= first_telling(probes, n, i) <= n,
        forall|j: int|
            i <= j < first_telling(probes, n, i) ==> j < probes.len() && #[trigger] probes[j]
                == Ok::<Option<u64>, String>(None),
        first_telling(probes, n, i) < n ==> first_telling(probes, n, i) >= probes.len()
            || probes[first_telling(probes, n, i)] != Ok::<Option<u64>, String>(None),
    decreases n - i,
{
    if i < n && i < probes.len() && probes[i] == Ok::<Option<u64>, String>(None) {
        lemma_first_telling(probes, n, i + 1);
    }
}

/// Of the directories that were passed, the first whose probe is not empty counts: its
/// configuration, if it has one, or why that cannot be loaded. A directory is probed only where
/// all before it are known to be empty, and what lies above them counts only where all are.
pub proof fn law_first_probe_counts(
    rules: ScopeRules,
    n: int,
    hit: Option<u64>,
    probes: Seq<ConfigLoadResult>,
)
    requires
        0 <= n,
    ensures
        match verdict(rules, n, hit, probes) {
            Verdict::Probe(i) => i == probes.len() && i < n && forall|j: int|
                0 <= j < i ==> #[trigger] probes[j] == Ok::<Option<u64>, String>(None),
            Verdict::Failed(err) => exists|i: int|
                0 <= i < n && i < probes.len() && #[trigger] probes[i] == Err::<
                    Option<u64>,
                    String,
                >(err) && forall|j: int|
                    0 <= j < i ==> #[trigger] probes[j] == Ok::<Option<u64>, String>(None),
            Verdict::Resolved(scope, k) => {
                ||| {
                    &&& 1 <= k <= n && k <= probes.len()
                    &&& probes[k - 1] == Ok::<Option<u64>, String>(Some(scope))
                    &&& forall|j: int|
                        0 <= j < k - 1 ==> #[trigger] probes[j] == Ok::<Option<u64>, String>(None)
                }
                ||| {
                    &&& k == n && n <= probes.len()
                    &&& scope == (match hit {
                        Some(above) => above,
                        None => rules.root,
                    })
                    &&& forall|j: int|
                        0 <= j < n ==> #[trigger] probes[j] == Ok::<Option<u64>, String>(None)
                }
            },
        },
{
    lemma_first_telling(probes, n, 0);
    let t: int = first_telling(probes, n, 0);
    if t < n && t < probes.len() && probes[t] is Err {
        assert(probes[t] == Err::<Option<u64>, String>(probes[t]->Err_0));
    }
    if t > 0 {
        assert(probes[t - 1] == Ok::<Option<u64>, String>(None));
    }
}

/// When a scope is settled, it is kept for the directory asked about and for every directory above
/// it up to where it was found, or as far as was looked where it was found further up; and for no
/// other directory. Each is kept with its own flag.
pub proof fn law_what_is_settled_together(
    rules: ScopeRules,
    cache: Map<Seq<Seq<u8>>, CachedScope>,
    scopes: Map<Seq<Seq<u8>>, u64>,
    parent: Seq<u8>,
    probes: Seq<ConfigLoadResult>,
    ignored: Seq<bool>,
)
    requires
        !cache.contains_key(parts(parent)),
    ensures
        ({
            let chain = ancestors_of(parent);
            let found = search_from(rules, cache, scopes, chain, 0);
            verdict(rules, found.0, found.1, probes) matches Verdict::Resolved(scope, k) ==> {
                let dirs = settled_dirs(chain.take(found.0), parent, k);
                let after = remembered(cache, dirs, scope, ignored, dirs.len() as int);
                &&& dirs.len() > 0 && dirs[0] == parent
                &&& forall|j: int| 0 <= j < dirs.len() ==> #[trigger] dirs[j] == chain[j]
                &&& found.0 > 0 ==> dirs.len() == k
                &&& found.0 == 0 ==> dirs.len() == 1
                &&& forall|j: int|
                    0 <= j < dirs.len() ==> after.contains_key(parts(#[trigger] chain[j]))
                        && after[parts(chain[j])] == (CachedScope { scope, ignored: ignored[j] })
                &&& forall|dir: Seq<Seq<u8>>| #[trigger]
                    after.contains_key(dir) && !cache.contains_key(dir) ==> exists|j: int|
                        0 <= j < dirs.len() && parts(#[trigger] chain[j]) == dir
            }
        }),
{
    let chain = ancestors_of(parent);
    let found = search_from(rules, cache, scopes, chain, 0);
    lemma_ancestors(parent);
    law_looking_upward(rules, cache, scopes, chain, 0);
    law_first_probe_counts(rules, found.0, found.1, probes);
    if let Verdict::Resolved(scope, k) = verdict(rules, found.0, found.1, probes) {
        let dirs = settled_dirs(chain.take(found.0), parent, k);
        let after = remembered(cache, dirs, scope, ignored, dirs.len() as int);
        assert forall|j: int| 0 <= j < dirs.len() implies #[trigger] dirs[j] == chain[j] by {}
        assert forall|i: int, j: int| 0 <= i < j < dirs.len() implies parts(#[trigger] dirs[i])
            != parts(#[trigger] dirs[j]) by {
            assert(parts(chain[i]).len() != parts(chain[j]).len());
        }
        assert forall|j: int| 0 <= j < dirs.len() implies after.contains_key(
            parts(#[trigger] chain[j]),
        ) && after[parts(chain[j])] == (CachedScope { scope, ignored: ignored[j] }) by {
            assert(dirs[j] == chain[j]);
            assert(!cache.contains_key(parts(chain[j])));
            law_flag_is_the_directorys_own(
                cache,
                dirs,
                scope,
                ignored,
                dirs.len() as int,
                j,
            );
        }
        law_only_these_are_kept(cache, dirs, scope, ignored);
        assert forall|dir: Seq<Seq<u8>>| #[trigger]
            after.contains_key(dir) && !cache.contains_key(dir) implies exists|j: int|
            0 <= j < dirs.len() && parts(#[trigger] chain[j]) == dir by {
            let i: int = choose|i: int| 0 <= i < dirs.len() && parts(#[trigger] dirs[i]) == dir;
            assert(dirs[i] == chain[i]);
        }
    }
}

/// Looking upward ends at the first directory of which something is known, and passes all before
/// it; what it finds there is the scope settled before, the root configuration in its own
/// directory, or the registered scope.
pub proof fn law_looking_upward(
    rules: ScopeRules,
    cache: Map<Seq<Seq<u8>>, CachedScope>,
    scopes: Map<Seq<Seq<u8>>, u64>,
    chain: Seq<Seq<u8>>,
    i: int,
)
    requires
        0 <= i <= chain.len(),
    ensures
        ({
            let found = search_from(rules, cache, scopes, chain, i);
            let known = |dir: Seq<Seq<u8>>|
                cache.contains_key(dir) || rules.root_dir == Some(dir) || scopes.contains_key(dir);
            &&& i <= found.0 <= chain.len()
            &&& forall|j: int| i <= j < found.0 ==> !known(parts(#[trigger] chain[j]))
            &&& found.1 is None <==> found.0 == chain.len()
            &&& found.0 < chain.len() ==> known(parts(chain[found.0])) && ({
                let dir = parts(chain[found.0]);
                &&& cache.contains_key(dir) ==> found.1 == Some(cache[dir].scope)
                &&& !cache.contains_key(dir) && rules.root_dir == Some(dir) ==> found.1 == Some(
                    rules.root,
                )
                &&& !cache.contains_key(dir) && rules.root_dir != Some(dir) ==> found.1 == Some(
                    scopes[dir],
                )
            })
        }),
    decreases chain.len() - i,
{
    if i < chain.len() {
        let dir = parts(chain[i]);
        if !cache.contains_key(dir) && rules.root_dir != Some(dir) && !scopes.contains_key(dir) {
            law_looking_upward(rules, cache, scopes, chain, i + 1);
        }
    }
}

/// Directories that have no configuration, the root configuration's directory not among them,
/// fall under the same configuration as what lies above them.
proof fn lemma_same_above(
    rules: ScopeRules,
    configs: Map<Seq<Seq<u8>>, Result<u64, String>>,
    s: Seq<u8>,
    from: int,
    to: int,
)
    requires
        0 <= from <= to < ancestors_of(s).len(),
        forall|j: int|
            from <= j < to ==> rules.root_dir != Some(#[trigger] parts(ancestors_of(s)[j]))
                && !configs.contains_key(parts(ancestors_of(s)[j])),
    ensures
        nearest(rules, configs, parts(ancestors_of(s)[from])) == nearest(
            rules,
            configs,
            parts(ancestors_of(s)[to]),
        ),
    decreases to - from,
{
    if from < to {
        lemma_same_above(rules, configs, s, from + 1, to);
        lemma_chain(s, from);
        assert(rules.root_dir != Some(parts(ancestors_of(s)[from])));
    }
}

/// The nearest configuration wins.
///
/// Let the settled scopes be those of the nearest configurations, the registered scopes true,
/// and the probes what probes give. Then looking upward from a directory and probing the
/// directories passed gives the nearest configuration of that directory, and of every
/// directory whose scope is settled together with it; and it fails only where the nearest
/// configuration cannot be loaded, for that reason.
pub proof fn law_nearest_config_wins(
    rules: ScopeRules,
    configs: Map<Seq<Seq<u8>>, Result<u64, String>>,
    cache: Map<Seq<Seq<u8>>, CachedScope>,
    scopes: Map<Seq<Seq<u8>>, u64>,
    parent: Seq<u8>,
    probes: Seq<ConfigLoadResult>,
)
    requires
        cache_is_nearest(rules, configs, cache),
        scopes_are_true(configs, scopes),
        probes_are_true(configs, ancestors_of(parent), probes),
    ensures
        ({
            let chain = ancestors_of(parent);
            let found = search_from(rules, cache, scopes, chain, 0);
            let dirs = |k: int| settled_dirs(chain.take(found.0), parent, k);
            match verdict(rules, found.0, found.1, probes) {
                Verdict::Resolved(scope, k) => {
                    &&& 0 <= k <= found.0
                    &&& nearest(rules, configs, parts(parent)) == Ok::<u64, String>(scope)
                    &&& forall|j: int|
                        0 <= j < dirs(k).len() ==> nearest(
                            rules,
                            configs,
                            parts(#[trigger] dirs(k)[j]),
                        ) == Ok::<u64, String>(scope)
                },
                Verdict::Probe(i) => 0 <= i < found.0 && i == probes.len(),
                Verdict::Failed(err) => nearest(rules, configs, parts(parent)) == Err::<u64, String>(
                    err,
                ),
            }
        }),
{
    let chain = ancestors_of(parent);
    let found = search_from(rules, cache, scopes, chain, 0);
    let n: int = found.0;
    lemma_ancestors(parent);
    lemma_search(rules, configs, cache, scopes, chain, 0);
    lemma_first_telling(probes, n, 0);
    let t: int = first_telling(probes, n, 0);
    assert forall|j: int| 0 <= j < t implies !configs.contains_key(
        #[trigger] parts(chain[j]),
    ) by {
        assert(probes[j] == true_probe(configs, parts(chain[j])));
    }
    if t < n && t >= probes.len() {
        if t > 0 {
            assert(probes[t - 1] == Ok::<Option<u64>, String>(None));
        }
    } else if t < n && probes[t] is Err {
        assert(probes[t] == true_probe(configs, parts(chain[t])));
        assert(rules.root_dir != Some(parts(chain[t])));
        lemma_same_above(rules, configs, parent, 0, t);
    } else {
        let k: int = if t < n {
            t + 1
        } else {
            n
        };
        let scope: u64 = if t < n {
            configs[parts(chain[t])]->Ok_0
        } else {
            match found.1 {
                Some(s) => s,
                None => rules.root,
            }
        };
        if t < n {
            assert(probes[t] == true_probe(configs, parts(chain[t])));
        }
        assert(verdict(rules, n, found.1, probes) == Verdict::Resolved(scope, k));
        assert forall|j: int| 0 <= j < k implies nearest(
            rules,
            configs,
            #[trigger] parts(chain[j]),
        ) == Ok::<u64, String>(scope) by {
            if t < n {
                lemma_same_above(rules, configs, parent, j, t);
                assert(rules.root_dir != Some(parts(chain[t])));
            } else if found.1 is Some {
                lemma_same_above(rules, configs, parent, j, n);
            } else {
                lemma_same_above(rules, configs, parent, j, n - 1);
                lemma_chain(parent, n - 1);
                assert(rules.root_dir != Some(parts(chain[n - 1])));
            }
        }
        assert(chain[0] == parent);
        if n > 0 {
            assert(nearest(rules, configs, parts(chain[0])) == Ok::<u64, String>(scope));
        }
        let dirs = settled_dirs(chain.take(n), parent, k);
        assert forall|j: int| 0 <= j < dirs.len() implies nearest(
            rules,
            configs,
            parts(#[trigger] dirs[j]),
        ) == Ok::<u64, String>(scope) by {
            if n > 0 {
                assert(dirs[j] == chain[j]);
                assert(nearest(rules, configs, parts(chain[j])) == Ok::<u64, String>(scope));
            }
        }
    }
}

/// What is kept of a settled scope keeps the settled scopes those of the nearest
/// configurations, so that the nearest configuration wins for every file that follows.
pub proof fn law_cache_stays_nearest(
    rules: ScopeRules,
    configs: Map<Seq<Seq<u8>>, Result<u64, String>>,
    cache: Map<Seq<Seq<u8>>, CachedScope>,
    dirs: Seq<Seq<u8>>,
    scope: u64,
    ignored: Seq<bool>,
    n: int,
)
    requires
        cache_is_nearest(rules, configs, cache),
        0 <= n <= dirs.len(),
        forall|j: int|
            0 <= j < dirs.len() ==> nearest(rules, configs, parts(#[trigger] dirs[j])) == Ok::<
                u64,
                String,
            >(scope),
    ensures
        cache_is_nearest(rules, configs, remembered(cache, dirs, scope, ignored, n)),
    decreases n,
{
    if n > 0 {
        law_cache_stays_nearest(rules, configs, cache, dirs, scope, ignored, n - 1);
        assert(nearest(rules, configs, parts(dirs[n - 1])) == Ok::<u64, String>(scope));
    }
}

proof fn lemma_remembered(
    cache: Map<Seq<Seq<u8>>, CachedScope>,
    dirs: Seq<Seq<u8>>,
    scope: u64,
    ignored: Seq<bool>,
    n: int,
)
    requires
        0 <= n <= dirs.len(),
    ensures
        forall|dir: Seq<Seq<u8>>| #[trigger]
            cache.contains_key(dir) ==> remembered(cache, dirs, scope, ignored, n).contains_key(dir)
                && remembered(cache, dirs, scope, ignored, n)[dir] == cache[dir],
        forall|j: int|
            0 <= j < n ==> remembered(cache, dirs, scope, ignored, n).contains_key(
                parts(#[trigger] dirs[j]),
            ),
    decreases n,
{
    if n > 0 {
        lemma_remembered(cache, dirs, scope, ignored, n - 1);
    }
}

/// Once the scope of a directory is settled, it is that of its nearest configuration, and so
/// is every scope that is kept; what was settled before stays as it was.
pub proof fn law_settled_scope_is_nearest(
    rules: ScopeRules,
    configs: Map<Seq<Seq<u8>>, Result<u64, String>>,
    cache: Map<Seq<Seq<u8>>, CachedScope>,
    scopes: Map<Seq<Seq<u8>>, u64>,
    parent: Seq<u8>,
    probes: Seq<ConfigLoadResult>,
    ignored: Seq<bool>,
)
    requires
        cache_is_nearest(rules, configs, cache),
        scopes_are_true(configs, scopes),
        probes_are_true(configs, ancestors_of(parent), probes),
    ensures
        ({
            let chain = ancestors_of(parent);
            let found = search_from(rules, cache, scopes, chain, 0);
            verdict(rules, found.0, found.1, probes) matches Verdict::Resolved(scope, k) ==> {
                let dirs = settled_dirs(chain.take(found.0), parent, k);
                let after = remembered(cache, dirs, scope, ignored, dirs.len() as int);
                &&& after.contains_key(parts(parent))
                &&& nearest(rules, configs, parts(parent)) == Ok::<u64, String>(
                    after[parts(parent)].scope,
                )
                &&& cache_is_nearest(rules, configs, after)
                &&& forall|dir: Seq<Seq<u8>>| #[trigger]
                    cache.contains_key(dir) ==> after.contains_key(dir) && after[dir] == cache[dir]
            }
        }),
{
    let chain = ancestors_of(parent);
    let found = search_from(rules, cache, scopes, chain, 0);
    law_nearest_config_wins(rules, configs, cache, scopes, parent, probes);
    lemma_ancestors(parent);
    lemma_search(rules, configs, cache, scopes, chain, 0);
    lemma_first_telling(probes, found.0, 0);
    if let Verdict::Resolved(scope, k) = verdict(rules, found.0, found.1, probes) {
        let dirs = settled_dirs(chain.take(found.0), parent, k);
        let settled = |k: int| settled_dirs(chain.take(found.0), parent, k);
        assert(settled(k) == dirs);
        assert forall|j: int| 0 <= j < dirs.len() implies nearest(
            rules,
            configs,
            parts(#[trigger] dirs[j]),
        ) == Ok::<u64, String>(scope) by {
            assert(settled(k)[j] == dirs[j]);
        }
        law_cache_stays_nearest(rules, configs, cache, dirs, scope, ignored, dirs.len() as int);
        lemma_remembered(cache, dirs, scope, ignored, dirs.len() as int);
        assert(dirs[0] == parent);
    }
}

/// Whether every result that was handed back is what loading the directory gives.
pub open spec fn loads_are_true(
    configs: Map<Seq<Seq<u8>>, Result<u64, String>>,
    state: CtxState,
) -> bool {
    forall|dir: Seq<Seq<u8>>| #[trigger]
        state.loads.contains_key(dir) && state.loads[dir] is Some ==> state.loads[dir] == Some(
            true_probe(configs, dir),
        )
}

/// Where only true results are handed back, the registered scopes are true, and so is what a
/// probe answers.
pub proof fn law_probes_are_true(
    configs: Map<Seq<Seq<u8>>, Result<u64, String>>,
    events: Seq<CtxEvent>,
    dir: Seq<Seq<u8>>,
)
    requires
        forall|i: int|
            0 <= i < events.len() ==> match #[trigger] events[i] {
                CtxEvent::Loaded(d, result) => result == true_probe(configs, d),
                CtxEvent::Probe(_) => true,
            },
    ensures
        ({
            let state = after_events(CtxState::empty(), events);
            &&& state.consistent()
            &&& loads_are_true(configs, state)
            &&& scopes_are_true(configs, state.scopes)
            &&& state.probe(dir) matches ProbeStep::Known(result) ==> result == true_probe(
                configs,
                dir,
            )
        }),
    decreases events.len(),
{
    let state = after_events(CtxState::empty(), events);
    if events.len() > 0 {
        let before = after_events(CtxState::empty(), events.drop_last());
        assert forall|i: int| 0 <= i < events.drop_last().len() implies match #[trigger] events.drop_last()[i] {
            CtxEvent::Loaded(d, result) => result == true_probe(configs, d),
            CtxEvent::Probe(_) => true,
        } by {
            assert(events.drop_last()[i] == events[i]);
        }
        law_probes_are_true(configs, events.drop_last(), dir);
        law_stays_consistent(before, events.last());
        assert(events.last() == events[events.len() - 1]);
        assert forall|d: Seq<Seq<u8>>| #[trigger]
            state.loads.contains_key(d) && state.loads[d] is Some implies state.loads[d] == Some(
            true_probe(configs, d),
        ) by {
            if before.loads.contains_key(d) {
            }
        }
    }
    assert forall|d: Seq<Seq<u8>>| #[trigger]
        state.scopes.contains_key(d) implies configs.contains_key(d) && configs[d] == Ok::<
        u64,
        String,
    >(state.scopes[d]) by {
        assert(state.loads.contains_key(d));
    }
    if state.scopes.contains_key(dir) {
        assert(state.loads.contains_key(dir));
    }
}

/// A file that is named outright falls under its nearest configuration too: the same one as
/// when a walk comes to it.
pub proof fn law_named_file_gets_nearest(
    root: u64,
    root_dir: Option<Seq<Seq<u8>>>,
    configs: Map<Seq<Seq<u8>>, Result<u64, String>>,
    parent: Seq<u8>,
    probes: Seq<ConfigLoadResult>,
)
    requires
        probes_are_true(configs, ancestors_of(parent), probes),
    ensures
        ({
            let rules = ScopeRules { root, root_dir };
            match file_scope(root, root_dir, ancestors_of(parent), probes, 0) {
                FileScope::Probe(i) => i == probes.len(),
                FileScope::Resolved(scope) => nearest(rules, configs, parts(parent)) == Ok::<
                    u64,
                    String,
                >(scope),
                FileScope::Failed(err) => nearest(rules, configs, parts(parent)) == Err::<
                    u64,
                    String,
                >(err),
            }
        }),
{
    lemma_ancestors(parent);
    lemma_file_scope(root, root_dir, configs, parent, probes, 0);
}

proof fn lemma_file_scope(
    root: u64,
    root_dir: Option<Seq<Seq<u8>>>,
    configs: Map<Seq<Seq<u8>>, Result<u64, String>>,
    parent: Seq<u8>,
    probes: Seq<ConfigLoadResult>,
    i: int,
)
    requires
        0 <= i < ancestors_of(parent).len(),
        i <= probes.len(),
        probes_are_true(configs, ancestors_of(parent), probes),
    ensures
        ({
            let rules = ScopeRules { root, root_dir };
            let dir = parts(ancestors_of(parent)[i]);
            match file_scope(root, root_dir, ancestors_of(parent), probes, i) {
                FileScope::Probe(n) => n == probes.len(),
                FileScope::Resolved(scope) => nearest(rules, configs, dir) == Ok::<u64, String>(
                    scope,
                ),
                FileScope::Failed(err) => nearest(rules, configs, dir) == Err::<u64, String>(err),
            }
        }),
    decreases ancestors_of(parent).len() - i,
{
    let chain = ancestors_of(parent);
    let rules = ScopeRules { root, root_dir };
    lemma_chain(parent, i);
    if root_dir != Some(parts(chain[i])) && i < probes.len() {
        assert(probes[i] == true_probe(configs, parts(chain[i])));
        if probes[i] == Ok::<Option<u64>, String>(None) {
            if i + 1 < chain.len() {
                lemma_file_scope(root, root_dir, configs, parent, probes, i + 1);
            } else {
                assert(file_scope(root, root_dir, chain, probes, i + 1) == FileScope::Resolved(root));
            }
        }
    }
}

/// A file that a walk comes to is ignored or not, and formatted, by its nearest configuration
/// alone.
pub proof fn law_walked_file_under_nearest(
    rules: ScopeRules,
    configs: Map<Seq<Seq<u8>>, Result<u64, String>>,
    cache: Map<Seq<Seq<u8>>, CachedScope>,
    path: Seq<u8>,
    is_config: bool,
    globs_active: bool,
    answers: VisitAnswers,
)
    requires
        cache_is_nearest(rules, configs, cache),
        parent_of(path) is Some,
    ensures
        ({
            let step = file_step(is_config, true, scope_above(cache, path), globs_active, answers);
            let own = nearest(rules, configs, parts(parent_of(path)->Some_0));
            &&& step matches VisitStep::CheckIgnored(scope) ==> own == Ok::<u64, String>(scope)
            &&& step matches VisitStep::Resolve(scope) ==> own == Ok::<u64, String>(scope)
        }),
{
}

/// A file that is named outright is ignored or not, and formatted, by its nearest configuration
/// alone, where the settled scopes are those of the nearest configurations.
pub proof fn law_named_file_under_nearest(
    rules: ScopeRules,
    configs: Map<Seq<Seq<u8>>, Result<u64, String>>,
    files: DirectFiles,
    path: Seq<u8>,
    answers: FileAnswers,
)
    requires
        files.nested(),
        parent_of(path) is Some,
        forall|dir: Seq<Seq<u8>>| #[trigger]
            files.scopes().contains_key(dir) ==> nearest(rules, configs, dir) == Ok::<u64, String>(
                files.scopes()[dir],
            ),
    ensures
        ({
            let step = direct_step(files.scope_of(path), answers);
            let own = nearest(rules, configs, parts(parent_of(path)->Some_0));
            &&& step matches FileStep::CheckIgnored(scope) ==> own == Ok::<u64, String>(scope)
            &&& step matches FileStep::Resolve(scope) ==> own == Ok::<u64, String>(scope)
        }),
{
}

/// Where nested configurations do not count, a directory falls under the root configuration,
/// and nothing is probed.
pub proof fn law_without_nesting_root_wins(
    rules: ScopeRules,
    parent: Seq<u8>,
    probes: Seq<ConfigLoadResult>,
)
    ensures
        verdict(rules, 0, Some(rules.root), probes) == Verdict::Resolved(rules.root, 0),
        settled_dirs(Seq::empty(), parent, 0) == seq![parent],
{
}

} // verus!

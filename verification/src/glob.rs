//! Which files the glob patterns of a run select.

use vstd::prelude::*;
use vstd::seq_lib::*;
use vstd::string::*;
use vstd::utf8::*;

use crate::components::{is_clean, law_text_below, law_text_below_undoes_join};
use crate::path::{is_below, joined, parts, text_from, texts, FsPath, PathKey, SLASH};
use crate::path_index::{
    keys, lemma_keys_push, set_contains, set_insert, set_new, set_paths, PathSet,
};
use crate::text::{ascii, concat_bytes, has_byte, lossy_text, same_key, utf8_lossy};

verus! {

/// The byte `\`, which separates the components of a path on some machines.
pub const BACKSLASH: u8 = 92;

/// The byte `{`, which opens a group of alternatives.
pub const BRACE: u8 = 123;

/// The longest pattern that can be matched: positions in a pattern are kept in 32 bits.
pub const GLOB_LIMIT: usize = 0xffff_ffff;

/// The most braces that a pattern can open: they are counted in 32 bits with a sign.
pub const BRACE_LIMIT: usize = 0x7fff_ffff;

/// The longest text that can be matched: positions in a text are kept in 32 bits, and go up to
/// two beyond its end.
pub const TEXT_LIMIT: usize = 0xffff_fffd;

/// How many `{` a pattern holds.
pub open spec fn braces(pattern: Seq<u8>) -> nat
    decreases pattern.len(),
{
    if pattern.len() == 0 {
        0
    } else {
        braces(pattern.drop_last()) + if pattern.last() == BRACE {
            1nat
        } else {
            0nat
        }
    }
}

/// Whether a pattern is small enough to be matched.
pub open spec fn fits(pattern: Seq<u8>) -> bool {
    pattern.len() <= GLOB_LIMIT && braces(pattern) <= BRACE_LIMIT
}

/// Whether all patterns are small enough to be matched.
pub open spec fn all_fit(patterns: Seq<Seq<u8>>) -> bool {
    forall|i: int| 0 <= i < patterns.len() ==> fits(#[trigger] patterns[i])
}

/// Whether the glob pattern matches the path, where `backslash_separates` says whether the
/// machine takes `\` for a separator: `fast_glob::glob_match`.
pub uninterp spec fn glob_matches(glob: Seq<u8>, path: Seq<u8>, backslash_separates: bool) -> bool;

/// `fast_glob::glob_match`: whether the pattern matches the path.
///
/// The function asks `std::path::is_separator` about the bytes of the path, so on a path that
/// holds a `\` its answer depends on the machine: it is one of two, and which one is not said.
/// On any other path both are the same. What a malformed pattern matches is not documented; it
/// is named here like the rest. The limits keep its counters from overflowing.
#[verifier::external_body]
fn glob_match(glob: &[u8], path: &[u8]) -> (matched: bool)
    requires
        fits(glob@),
        path@.len() <= TEXT_LIMIT,
    ensures
        matched == glob_matches(glob@, path@, true) || matched == glob_matches(glob@, path@, false),
        !path@.contains(BACKSLASH) ==> matched == glob_matches(glob@, path@, true),
        !path@.contains(BACKSLASH) ==> matched == glob_matches(glob@, path@, false),
{
    fast_glob::glob_match(glob, path)
}

/// A pattern without a `/` matches at any depth: it gets `**/` in front.
pub open spec fn anywhere(pattern: Seq<u8>) -> Seq<u8> {
    if pattern.contains(SLASH) {
        pattern
    } else {
        ascii("**/"@) + pattern
    }
}

/// Whether one of the patterns matches the text, on a machine that takes `\` for a separator or
/// on one that does not.
pub open spec fn selects(
    patterns: Seq<Seq<u8>>,
    text: Seq<u8>,
    backslash_separates: bool,
) -> bool {
    exists|i: int|
        0 <= i < patterns.len() && glob_matches(#[trigger] patterns[i], text, backslash_separates)
}

/// Whether one of the patterns matches the text on every machine.
pub open spec fn selects_anyhow(patterns: Seq<Seq<u8>>, text: Seq<u8>) -> bool {
    exists|i: int|
        0 <= i < patterns.len() && glob_matches(#[trigger] patterns[i], text, true)
            && glob_matches(patterns[i], text, false)
}

/// Whether `selected` is what the patterns make of the text: whether one of them matches. Where
/// the text holds a `\`, that can differ from machine to machine.
pub open spec fn is_selection(patterns: Seq<Seq<u8>>, text: Seq<u8>, selected: bool) -> bool {
    &&& selected ==> selects(patterns, text, true) || selects(patterns, text, false)
    &&& selects_anyhow(patterns, text) ==> selected
    &&& !text.contains(BACKSLASH) ==> selected == selects(patterns, text, true)
    &&& !text.contains(BACKSLASH) ==> selected == selects(patterns, text, false)
}

/// What of a path is matched: its text below the working directory, or all of it where it is
/// not below that.
pub open spec fn relative_text(cwd: Seq<u8>, path: Seq<u8>) -> Seq<u8> {
    if is_below(path, cwd) {
        text_from(path, parts(cwd).len() as int)
    } else {
        path
    }
}

/// A pattern that matches at any depth if it has no `/`.
pub fn normalize_glob(pattern: &[u8]) -> (normalized: Vec<u8>)
    ensures
        normalized@ == anywhere(pattern@),
{
    if has_byte(pattern, SLASH) {
        vstd::slice::slice_to_vec(pattern)
    } else {
        let prefix: &str = "**/";
        proof {
            reveal_strlit("**/");
            is_ascii_spec_bytes(prefix);
            assert(prefix.spec_bytes() =~= ascii("**/"@));
        }
        concat_bytes(prefix.as_bytes(), pattern)
    }
}

/// Whether a pattern is small enough to be matched.
pub fn pattern_fits(pattern: &[u8]) -> (small: bool)
    ensures
        small == fits(pattern@),
{
    let mut count: usize = 0;
    let mut i: usize = 0;
    assert(pattern@.take(0) =~= Seq::<u8>::empty());
    while i < pattern.len()
        invariant
            i <= pattern@.len(),
            count == braces(pattern@.take(i as int)),
            count <= i,
        decreases pattern@.len() - i,
    {
        assert(pattern@.take(i + 1).drop_last() =~= pattern@.take(i as int));
        if pattern[i] == BRACE {
            count = count + 1;
        }
        i = i + 1;
    }
    assert(pattern@.take(pattern@.len() as int) =~= pattern@);
    pattern.len() <= GLOB_LIMIT && count <= BRACE_LIMIT
}

/// Whether one of the patterns matches the text.
pub fn any_glob_matches(patterns: &Vec<Vec<u8>>, text: &[u8]) -> (matched: bool)
    requires
        all_fit(texts(patterns@)),
        text@.len() <= TEXT_LIMIT,
    ensures
        is_selection(texts(patterns@), text@, matched),
{
    let mut i: usize = 0;
    while i < patterns.len()
        invariant
            i <= patterns@.len(),
            text@.len() <= TEXT_LIMIT,
            all_fit(texts(patterns@)),
            forall|j: int|
                0 <= j < i ==> !glob_matches(#[trigger] texts(patterns@)[j], text@, true)
                    || !glob_matches(texts(patterns@)[j], text@, false),
            !text@.contains(BACKSLASH) ==> forall|j: int|
                0 <= j < i ==> !glob_matches(#[trigger] texts(patterns@)[j], text@, true)
                    && !glob_matches(texts(patterns@)[j], text@, false),
        decreases patterns@.len() - i,
    {
        assert(texts(patterns@)[i as int] == patterns@[i as int]@);
        if glob_match(patterns[i].as_slice(), text) {
            return true;
        }
        i = i + 1;
    }
    false
}

/// Selects files by glob patterns.
///
/// The directories and files named outright are accepted whatever the patterns are; since a
/// walk from the working directory can come to them a second time, each is accepted once.
pub struct GlobMatcher {
    cwd: FsPath,
    glob_patterns: Vec<Vec<u8>>,
    patterns_fit: bool,
    concrete_paths: PathSet,
    seen: PathSet,
}

impl GlobMatcher {
    /// The working directory.
    pub closed spec fn cwd(&self) -> Seq<u8> {
        self.cwd@
    }

    /// The patterns, as they are matched.
    pub closed spec fn patterns(&self) -> Seq<Seq<u8>> {
        texts(self.glob_patterns@)
    }

    /// The paths named outright.
    pub closed spec fn concrete(&self) -> Set<Seq<Seq<u8>>> {
        set_paths(self.concrete_paths)
    }

    /// The paths named outright that were accepted.
    pub closed spec fn seen(&self) -> Set<Seq<Seq<u8>>> {
        set_paths(self.seen)
    }

    /// It is known whether the patterns are small enough to be matched.
    pub closed spec fn wf(&self) -> bool {
        self.patterns_fit == all_fit(self.patterns())
    }

    /// Whether it can be said if `path`, of which `text` is matched, is selected: it is named
    /// outright, or the patterns and the text are small enough to be matched.
    pub open spec fn can_match(&self, path: Seq<u8>, text: Seq<u8>) -> bool {
        self.concrete().contains(parts(path)) || (all_fit(self.patterns()) && text.len()
            <= TEXT_LIMIT)
    }

    /// A matcher for the patterns and for the paths named outright, the working directory not
    /// among them.
    pub fn new(cwd: FsPath, glob_patterns: &Vec<Vec<u8>>, target_paths: &[FsPath]) -> (matcher:
        GlobMatcher)
        ensures
            matcher.wf(),
            matcher.cwd() == cwd@,
            matcher.patterns() == Seq::new(
                glob_patterns@.len(),
                |i: int| anywhere(glob_patterns@[i]@),
            ),
            forall|key: Seq<Seq<u8>>| #[trigger]
                matcher.concrete().contains(key) <==> keys(target_paths@).contains(key) && key
                    != parts(cwd@),
            matcher.seen() == Set::<Seq<Seq<u8>>>::empty(),
    {
        let mut patterns: Vec<Vec<u8>> = Vec::new();
        let mut patterns_fit: bool = true;
        let mut i: usize = 0;
        while i < glob_patterns.len()
            invariant
                i <= glob_patterns@.len(),
                patterns@.len() == i,
                forall|j: int|
                    0 <= j < i ==> (#[trigger] texts(patterns@)[j]) == anywhere(glob_patterns@[j]@),
                patterns_fit == all_fit(texts(patterns@)),
            decreases glob_patterns@.len() - i,
        {
            let pattern: Vec<u8> = normalize_glob(glob_patterns[i].as_slice());
            let ghost before = texts(patterns@);
            patterns_fit = pattern_fits(pattern.as_slice()) && patterns_fit;
            patterns.push(pattern);
            proof {
                assert(texts(patterns@) =~= before.push(pattern@));
                lemma_all_fit(before, pattern@);
            }
            i = i + 1;
        }
        let here: PathKey = cwd.components();
        let mut concrete: PathSet = set_new();
        let mut n: usize = 0;
        while n < target_paths.len()
            invariant
                n <= target_paths@.len(),
                texts(here@) == parts(cwd@),
                forall|key: Seq<Seq<u8>>| #[trigger]
                    set_paths(concrete).contains(key) <==> keys(
                        target_paths@.take(n as int),
                    ).contains(key) && key != parts(cwd@),
            decreases target_paths@.len() - n,
        {
            let key: PathKey = target_paths[n].components();
            proof {
                lemma_keys_push(target_paths@, n as int);
            }
            if !same_key(&key, &here) {
                set_insert(&mut concrete, key);
            }
            n = n + 1;
        }
        assert(target_paths@.take(target_paths@.len() as int) == target_paths@);
        let matcher = GlobMatcher {
            cwd,
            glob_patterns: patterns,
            patterns_fit,
            concrete_paths: concrete,
            seen: set_new(),
        };
        assert(matcher.patterns() =~= Seq::new(
            glob_patterns@.len(),
            |i: int| anywhere(glob_patterns@[i]@),
        ));
        matcher
    }

    /// Whether `path` is selected, where `text` is what of it is matched against the patterns.
    pub fn matches_text(&mut self, path: &FsPath, text: &[u8]) -> (selected: bool)
        requires
            old(self).wf(),
            old(self).can_match(path@, text@),
        ensures
            final(self).wf(),
            final(self).cwd() == old(self).cwd(),
            final(self).patterns() == old(self).patterns(),
            final(self).concrete() == old(self).concrete(),
            final(self).seen() == seen_next(old(self).concrete(), old(self).seen(), parts(path@)),
            old(self).concrete().contains(parts(path@)) ==> selected == accepts(
                old(self).concrete(),
                old(self).seen(),
                parts(path@),
            ),
            !old(self).concrete().contains(parts(path@)) ==> is_selection(
                old(self).patterns(),
                text@,
                selected,
            ),
    {
        let key: PathKey = path.components();
        if set_contains(&self.concrete_paths, &key) {
            return set_insert(&mut self.seen, key);
        }
        any_glob_matches(&self.glob_patterns, text)
    }

    /// What of `path` is matched against the patterns, as text.
    pub fn matched_text(&self, path: &FsPath) -> (text: Vec<u8>)
        ensures
            text@ == utf8_lossy(relative_text(self.cwd(), path@)),
            valid_utf8(relative_text(self.cwd(), path@)) ==> text@ == relative_text(
                self.cwd(),
                path@,
            ),
    {
        match path.strip_prefix(&self.cwd) {
            Some(rest) => lossy_text(rest.as_slice()),
            None => lossy_text(path.as_bytes()),
        }
    }

    /// Whether `path` is selected: it is named outright and comes for the first time, or a
    /// pattern matches it.
    pub fn matches(&mut self, path: &FsPath) -> (selected: bool)
        requires
            old(self).wf(),
            old(self).can_match(path@, utf8_lossy(relative_text(old(self).cwd(), path@))),
        ensures
            final(self).wf(),
            final(self).cwd() == old(self).cwd(),
            final(self).patterns() == old(self).patterns(),
            final(self).concrete() == old(self).concrete(),
            final(self).seen() == seen_next(old(self).concrete(), old(self).seen(), parts(path@)),
            old(self).concrete().contains(parts(path@)) ==> selected == accepts(
                old(self).concrete(),
                old(self).seen(),
                parts(path@),
            ),
            !old(self).concrete().contains(parts(path@)) ==> is_selection(
                old(self).patterns(),
                utf8_lossy(relative_text(old(self).cwd(), path@)),
                selected,
            ),
            valid_utf8(relative_text(old(self).cwd(), path@)) ==> utf8_lossy(
                relative_text(old(self).cwd(), path@),
            ) == relative_text(old(self).cwd(), path@),
    {
        let text: Vec<u8> = self.matched_text(path);
        self.matches_text(path, text.as_slice())
    }

    /// Whether `path` is selected; none where it is not named outright, and its text or a pattern
    /// is too large to be matched.
    pub fn try_matches(&mut self, path: &FsPath) -> (selected: Option<bool>)
        requires
            old(self).wf(),
        ensures
            final(self).wf(),
            final(self).cwd() == old(self).cwd(),
            final(self).patterns() == old(self).patterns(),
            final(self).concrete() == old(self).concrete(),
            selected is None <==> !old(self).can_match(
                path@,
                utf8_lossy(relative_text(old(self).cwd(), path@)),
            ),
            final(self).seen() == seen_next(old(self).concrete(), old(self).seen(), parts(path@)),
            old(self).concrete().contains(parts(path@)) ==> selected == Some(
                accepts(old(self).concrete(), old(self).seen(), parts(path@)),
            ),
            !old(self).concrete().contains(parts(path@)) ==> (selected matches Some(s) ==>
                is_selection(
                old(self).patterns(),
                utf8_lossy(relative_text(old(self).cwd(), path@)),
                s,
            )),
    {
        if !set_contains(&self.concrete_paths, &path.components()) {
            let text: Vec<u8> = self.matched_text(path);
            if !self.patterns_fit || text.len() > TEXT_LIMIT {
                return None;
            }
        }
        Some(self.matches(path))
    }
}

/// One pattern more is small enough, and all before it are.
proof fn lemma_all_fit(patterns: Seq<Seq<u8>>, pattern: Seq<u8>)
    ensures
        all_fit(patterns.push(pattern)) <==> all_fit(patterns) && fits(pattern),
{
    let more = patterns.push(pattern);
    if all_fit(more) {
        assert(more[patterns.len() as int] == pattern);
        assert forall|i: int| 0 <= i < patterns.len() implies fits(#[trigger] patterns[i]) by {
            assert(more[i] == patterns[i]);
        }
    }
}

/// Whether `path` is named outright and comes for the first time.
pub open spec fn accepts(
    concrete: Set<Seq<Seq<u8>>>,
    seen: Set<Seq<Seq<u8>>>,
    path: Seq<Seq<u8>>,
) -> bool {
    concrete.contains(path) && !seen.contains(path)
}

/// What was accepted once `path` has come by, of the paths named outright.
pub open spec fn seen_next(
    concrete: Set<Seq<Seq<u8>>>,
    seen: Set<Seq<Seq<u8>>>,
    path: Seq<Seq<u8>>,
) -> Set<Seq<Seq<u8>>> {
    if concrete.contains(path) {
        seen.insert(path)
    } else {
        seen
    }
}

/// What was accepted after some paths came by, of the paths named outright.
pub open spec fn seen_after(
    concrete: Set<Seq<Seq<u8>>>,
    visits: Seq<Seq<Seq<u8>>>,
) -> Set<Seq<Seq<u8>>>
    decreases visits.len(),
{
    if visits.len() == 0 {
        Set::empty()
    } else {
        seen_next(concrete, seen_after(concrete, visits.drop_last()), visits.last())
    }
}

/// How often `path`, named outright, is accepted while some paths come by.
pub open spec fn times_accepted(
    concrete: Set<Seq<Seq<u8>>>,
    visits: Seq<Seq<Seq<u8>>>,
    path: Seq<Seq<u8>>,
) -> nat
    decreases visits.len(),
{
    if visits.len() == 0 {
        0
    } else {
        let before = visits.drop_last();
        times_accepted(concrete, before, path) + if visits.last() == path && accepts(
            concrete,
            seen_after(concrete, before),
            path,
        ) {
            1nat
        } else {
            0nat
        }
    }
}

/// A path named outright is accepted exactly once, the first time, however often it comes by and
/// whatever comes by in between.
pub proof fn law_named_path_accepted_once(
    concrete: Set<Seq<Seq<u8>>>,
    visits: Seq<Seq<Seq<u8>>>,
    path: Seq<Seq<u8>>,
)
    requires
        concrete.contains(path),
    ensures
        times_accepted(concrete, visits, path) == (if visits.contains(path) {
            1nat
        } else {
            0nat
        }),
        seen_after(concrete, visits).contains(path) <==> visits.contains(path),
    decreases visits.len(),
{
    if visits.len() > 0 {
        let before = visits.drop_last();
        law_named_path_accepted_once(concrete, before, path);
        assert(visits =~= before.push(visits.last()));
        lemma_seq_contains_after_push(before, visits.last(), path);
    }
}

/// Of the paths named outright, only the one that comes by is accepted with it, and what was
/// accepted stays so.
pub proof fn law_only_what_comes_by_is_accepted(
    concrete: Set<Seq<Seq<u8>>>,
    seen: Set<Seq<Seq<u8>>>,
    path: Seq<Seq<u8>>,
    other: Seq<Seq<u8>>,
)
    ensures
        seen_next(concrete, seen, path).contains(other) <==> seen.contains(other) || (other == path
            && concrete.contains(path)),
        accepts(concrete, seen, path) ==> concrete.contains(path),
{
}

/// A pattern with a `/` is matched as it is; to any other, `**/` is put in front, and it is
/// otherwise matched as it is too.
pub proof fn law_pattern_matches_at_any_depth(pattern: Seq<u8>)
    ensures
        pattern.contains(47) ==> anywhere(pattern) == pattern,
        !pattern.contains(47) ==> anywhere(pattern) == seq![42u8, 42u8, 47u8] + pattern,
{
    reveal_strlit("**/");
    assert(ascii("**/"@) =~= seq![42u8, 42u8, 47u8]);
}

/// What of a path is matched has the components that the path has below the working directory;
/// where it is not below that, it is the path itself.
pub proof fn law_matched_is_what_lies_below(cwd: Seq<u8>, path: Seq<u8>)
    ensures
        parts(cwd).is_prefix_of(parts(path)) ==> parts(path) == parts(cwd) + parts(
            relative_text(cwd, path),
        ),
        !parts(cwd).is_prefix_of(parts(path)) ==> relative_text(cwd, path) == path,
{
    if is_below(path, cwd) {
        law_text_below(path, cwd);
    }
}

/// What lies below the working directory is matched as it is spelled from there.
pub proof fn law_matched_as_spelled(cwd: Seq<u8>, rest: Seq<u8>)
    requires
        cwd.len() > 0,
        is_clean(rest),
    ensures
        relative_text(cwd, joined(cwd, rest)) == rest,
{
    law_text_below_undoes_join(cwd, rest);
}

/// Some patterns select a text if and only if one of them matches it. Where it depends on the
/// machine whether they match, a text is selected where one of them matches on every machine, and
/// only where one of them matches on some.
pub proof fn law_selected_iff_one_matches(patterns: Seq<Seq<u8>>, text: Seq<u8>, selected: bool)
    requires
        is_selection(patterns, text, selected),
    ensures
        !text.contains(92) ==> (selected <==> exists|i: int|
            0 <= i < patterns.len() && glob_matches(#[trigger] patterns[i], text, true)),
        !text.contains(92) ==> (selected <==> exists|i: int|
            0 <= i < patterns.len() && glob_matches(#[trigger] patterns[i], text, false)),
        selected ==> exists|i: int|
            0 <= i < patterns.len() && (glob_matches(#[trigger] patterns[i], text, true)
                || glob_matches(patterns[i], text, false)),
        (exists|i: int|
            0 <= i < patterns.len() && glob_matches(#[trigger] patterns[i], text, true)
                && glob_matches(patterns[i], text, false)) ==> selected,
{
}

/// There is always an answer: whether one of the patterns matches on this machine or on that.
pub proof fn law_selection_exists(patterns: Seq<Seq<u8>>, text: Seq<u8>, backslash_separates: bool)
    requires
        text.contains(92) || forall|i: int|
            0 <= i < patterns.len() ==> glob_matches(#[trigger] patterns[i], text, true)
                == glob_matches(patterns[i], text, false),
    ensures
        is_selection(patterns, text, selects(patterns, text, backslash_separates)),
{
    if selects_anyhow(patterns, text) {
        let i: int = choose|i: int|
            0 <= i < patterns.len() && glob_matches(#[trigger] patterns[i], text, true)
                && glob_matches(patterns[i], text, false);
        assert(glob_matches(patterns[i], text, backslash_separates));
    }
    if !text.contains(92) {
        assert(selects(patterns, text, true) == selects(patterns, text, false)) by {
            if selects(patterns, text, true) {
                let i: int = choose|i: int|
                    0 <= i < patterns.len() && glob_matches(#[trigger] patterns[i], text, true);
                assert(glob_matches(patterns[i], text, false));
            }
            if selects(patterns, text, false) {
                let i: int = choose|i: int|
                    0 <= i < patterns.len() && glob_matches(#[trigger] patterns[i], text, false);
                assert(glob_matches(patterns[i], text, true));
            }
        }
    }
}

/// Of a path named outright it can always be said whether it is selected; of any other, where
/// the patterns and its text can be matched.
pub proof fn law_what_can_be_matched(matcher: GlobMatcher, path: Seq<u8>, text: Seq<u8>)
    ensures
        matcher.concrete().contains(parts(path)) ==> matcher.can_match(path, text),
        text.len() < 0x8000_0000 && (forall|i: int|
            0 <= i < matcher.patterns().len() ==> (#[trigger] matcher.patterns()[i]).len()
                < 0x8000_0000) ==> matcher.can_match(path, text),
{
    if forall|i: int|
        0 <= i < matcher.patterns().len() ==> (#[trigger] matcher.patterns()[i]).len()
            < 0x8000_0000 {
        assert forall|i: int| 0 <= i < matcher.patterns().len() implies fits(
            #[trigger] matcher.patterns()[i],
        ) by {
            law_ordinary_sizes_fit(matcher.patterns()[i]);
        }
    }
}

/// Whatever is shorter than two to the power of thirty-one bytes can be matched.
pub proof fn law_ordinary_sizes_fit(pattern: Seq<u8>)
    requires
        pattern.len() < 0x8000_0000,
    ensures
        fits(pattern),
        pattern.len() <= TEXT_LIMIT,
{
    lemma_braces(pattern);
}

proof fn lemma_braces(pattern: Seq<u8>)
    ensures
        braces(pattern) <= pattern.len(),
    decreases pattern.len(),
{
    if pattern.len() > 0 {
        lemma_braces(pattern.drop_last());
    }
}

/// Normalizing a pattern makes it one with a `/`, and a second time changes nothing.
pub proof fn law_normalized_pattern_stays(pattern: Seq<u8>)
    ensures
        anywhere(pattern).contains(SLASH),
        anywhere(anywhere(pattern)) == anywhere(pattern),
{
    if !pattern.contains(SLASH) {
        reveal_strlit("**/");
        assert(anywhere(pattern)[2] == SLASH);
    }
}

} // verus!

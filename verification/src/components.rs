//! What the components of a path are, and what becomes of them when paths are put together and
//! taken apart.

use vstd::prelude::*;

use crate::path::{
    ancestors_of, is_below, is_rooted, joined, last_slash, lemma_ancestors, lemma_cut,
    lemma_joined_below, lemma_last_slash, lemma_last_slash_is, lemma_parent, lemma_ranges, name_of,
    parent_of, parts, ranges, text_from,
};

verus! {

/// Whether `name` is the name of a directory entry: some bytes without a `/`, and neither `.` nor
/// `..`.
pub open spec fn is_plain_name(name: Seq<u8>) -> bool {
    name.len() > 0 && !name.contains(47) && name != seq![46u8] && name != seq![46u8, 46u8]
}

/// The components of `s` without the `.` that it may begin with: what `s` adds to a directory.
pub open spec fn added_parts(s: Seq<u8>) -> Seq<Seq<u8>> {
    if parts(s).len() > 0 && parts(s)[0] == seq![46u8] {
        parts(s).skip(1)
    } else {
        parts(s)
    }
}

/// Whether `s` begins with a `.` that is a component of its own.
pub open spec fn begins_with_dot(s: Seq<u8>) -> bool {
    s.len() > 0 && s[0] == 46 && (s.len() == 1 || s[1] == 47)
}

/// Where the components of `s` are that it adds to a directory.
spec fn added_ranges(s: Seq<u8>) -> Seq<(int, int)> {
    if begins_with_dot(s) {
        ranges(s).skip(1)
    } else {
        ranges(s)
    }
}

spec fn shifted(r: Seq<(int, int)>, by: int) -> Seq<(int, int)> {
    Seq::new(r.len(), |i: int| (r[i].0 + by, r[i].1 + by))
}

/// Whether the bytes of `s` from `from` to `to` are a name, and stand behind a `/`.
spec fn is_segment(s: Seq<u8>, from: int, to: int) -> bool {
    &&& 0 < from < to <= s.len()
    &&& s[from - 1] == 47
    &&& forall|j: int| from <= j < to ==> s[j] != 47
    &&& !(to == from + 1 && s[from] == 46)
}

/// The first component stands at the very beginning, and each of the others behind a `/`.
proof fn lemma_shape(s: Seq<u8>)
    ensures
        forall|i: int|
            1 <= i < ranges(s).len() ==> is_segment(
                s,
                (#[trigger] ranges(s)[i]).0,
                ranges(s)[i].1,
            ),
        s.len() > 0 && !is_rooted(s) ==> forall|j: int|
            0 <= j < ranges(s)[0].1 ==> s[j] != 47,
        s.len() > 0 ==> (begins_with_dot(s) <==> ranges(s)[0] == (0int, 1int) && s[0] == 46),
    decreases s.len(),
{
    lemma_last_slash(s);
    lemma_ranges(s);
    let k: int = last_slash(s);
    if s.len() > 0 && k > 0 {
        let b = s.take(k);
        lemma_shape(b);
        lemma_ranges(b);
        assert(b[0] == s[0]);
        assert(ranges(s)[0] == ranges(b)[0]);
        assert forall|i: int| 1 <= i < ranges(s).len() implies is_segment(
            s,
            (#[trigger] ranges(s)[i]).0,
            ranges(s)[i].1,
        ) by {
            if i < ranges(b).len() {
                let r: (int, int) = ranges(b)[i];
                assert(ranges(s)[i] == r);
                assert(is_segment(b, r.0, r.1));
                assert forall|j: int| r.0 <= j < r.1 implies s[j] != 47 by {
                    assert(b[j] == s[j]);
                }
                assert(b[r.0] == s[r.0]);
                assert(b[r.0 - 1] == s[r.0 - 1]);
            } else {
                let segment = s.skip(k + 1);
                assert(ranges(s)[i] == (k + 1, s.len() as int));
                if s.len() == k + 2 && s[k + 1] == 46 {
                    assert(segment =~= seq![46u8]);
                }
            }
        }
        if !is_rooted(s) {
            assert forall|j: int| 0 <= j < ranges(s)[0].1 implies s[j] != 47 by {
                assert(b[j] == s[j]);
            }
        }
        if k == 1 {
            assert(b.len() == 1);
        } else {
            assert(b[1] == s[1]);
        }
    } else if s.len() > 0 && k == 0 {
        let segment = s.skip(1);
        if s.len() == 2 && s[1] == 46 {
            assert(segment =~= seq![46u8]);
        }
    }
}

/// A path's components are names: none is empty, none but the first can be `.`, and none holds a
/// `/`, unless it is the root, which is the first component of an absolute path and of no other.
pub proof fn law_components_are_names(s: Seq<u8>)
    ensures
        parts(s).len() == 0 <==> s.len() == 0,
        forall|i: int| 0 <= i < parts(s).len() ==> (#[trigger] parts(s)[i]).len() > 0,
        forall|i: int| 1 <= i < parts(s).len() ==> (#[trigger] parts(s)[i]) != seq![46u8],
        forall|i: int|
            1 <= i < parts(s).len() || (i == 0 && parts(s).len() > 0 && s[0] != 47)
                ==> !(#[trigger] parts(s)[i]).contains(47),
        s.len() > 0 && s[0] == 47 ==> parts(s)[0] == seq![47u8],
        is_rooted(s) <==> s.len() > 0 && s[0] == 47,
{
    lemma_ranges(s);
    lemma_shape(s);
    assert forall|i: int| 1 <= i < parts(s).len() implies (#[trigger] parts(s)[i]) != seq![46u8] by {
        let r: (int, int) = ranges(s)[i];
        assert(is_segment(s, r.0, r.1));
        assert(parts(s)[i][0] == s[r.0]);
        if parts(s)[i] == seq![46u8] {
            assert(parts(s)[i].len() == 1);
        }
    }
    assert forall|i: int|
        1 <= i < parts(s).len() || (i == 0 && parts(s).len() > 0 && s[0] != 47) implies !(
    #[trigger] parts(s)[i]).contains(47) by {
        let r: (int, int) = ranges(s)[i];
        let part = parts(s)[i];
        if i >= 1 {
            assert(is_segment(s, r.0, r.1));
        }
        assert forall|j: int| 0 <= j < part.len() implies part[j] != 47 by {
            assert(part[j] == s[r.0 + j]);
        }
    }
    if s.len() > 0 && s[0] == 47 {
        assert(parts(s)[0] =~= seq![47u8]);
    }
}

/// Some bytes without a `/` are one component.
pub proof fn law_single_component(s: Seq<u8>)
    requires
        s.len() > 0,
        !s.contains(47),
    ensures
        parts(s) == seq![s],
{
    lemma_last_slash(s);
    if last_slash(s) >= 0 {
        assert(s.contains(s[last_slash(s)]));
    }
    assert(s.subrange(0, s.len() as int) =~= s);
    assert(parts(s) =~= seq![s]);
}

/// The root is one component, and a `/` at the end of a path adds none.
pub proof fn law_separators_count_for_nothing(s: Seq<u8>)
    requires
        s.len() > 0,
    ensures
        parts(s.push(47)) == parts(s),
        parts(seq![47u8]) == seq![seq![47u8]],
{
    let t = s.push(47);
    lemma_last_slash_is(t, s.len() as int);
    assert(t.skip(s.len() as int + 1).len() == 0);
    assert(t.take(s.len() as int) =~= s);
    lemma_ranges(s);
    assert forall|i: int| 0 <= i < ranges(s).len() implies parts(t)[i] == parts(s)[i] by {
        let r: (int, int) = ranges(s)[i];
        assert(t.subrange(r.0, r.1) =~= s.subrange(r.0, r.1));
    }
    assert(parts(t) =~= parts(s));
    let root = seq![47u8];
    lemma_last_slash_is(root, 0);
    assert(root.skip(1).len() == 0);
    assert(root.subrange(0, 1) =~= root);
    assert(parts(root) =~= seq![root]);
}

/// Joining puts the components of the second path behind those of the first.
proof fn lemma_joined_ranges(base: Seq<u8>, rest: Seq<u8>)
    requires
        base.len() > 0,
        !is_rooted(rest),
    ensures
        ranges(joined(base, rest)) == ranges(base) + shifted(
            added_ranges(rest),
            joined(base, rest).len() - rest.len(),
        ),
    decreases rest.len(),
{
    let s = joined(base, rest);
    let off: int = s.len() - rest.len();
    let k: int = last_slash(rest);
    lemma_last_slash(rest);
    lemma_ranges(rest);
    lemma_shape(rest);
    assert(s[off - 1] == 47);
    assert(s.take(off) + rest =~= s);
    if rest.len() == 0 || k < 0 {
        assert forall|j: int| off - 1 < j < s.len() implies s[j] != 47 by {
            assert(s[j] == rest[j - off]);
        }
        lemma_last_slash_is(s, off - 1);
        assert(s.skip(off) =~= rest);
        if base.last() == 47 {
            lemma_last_slash_is(base, base.len() - 1);
            assert(base.skip(base.len() as int).len() == 0);
            assert(s.take(off - 1) =~= base.take(base.len() - 1));
        } else {
            assert(s.take(off - 1) =~= base);
        }
        if rest.len() == 0 {
            assert(shifted(added_ranges(rest), off) =~= Seq::<(int, int)>::empty());
        } else if begins_with_dot(rest) {
            if rest.len() > 1 {
                assert(rest[1] != 47);
            }
            assert(rest =~= seq![46u8]);
            assert(shifted(added_ranges(rest), off) =~= Seq::<(int, int)>::empty());
        } else {
            if rest == seq![46u8] {
                assert(rest[0] == 46 && rest.len() == 1);
            }
            assert(shifted(added_ranges(rest), off) =~= seq![(off, s.len() as int)]);
        }
        assert(ranges(s) =~= ranges(base) + shifted(added_ranges(rest), off));
    } else {
        if k == 0 {
            assert(rest[0] == 47);
        }
        let b = rest.take(k);
        assert(b[0] == rest[0]);
        assert(!is_rooted(b));
        lemma_joined_ranges(base, b);
        lemma_ranges(b);
        lemma_shape(b);
        assert forall|j: int| off + k < j < s.len() implies s[j] != 47 by {
            assert(s[j] == rest[j - off]);
        }
        assert(s[off + k] == rest[k]);
        lemma_last_slash_is(s, off + k);
        assert(s.take(off + k) =~= joined(base, b));
        assert(s.skip(off + k + 1) =~= rest.skip(k + 1));
        assert(begins_with_dot(b) == begins_with_dot(rest)) by {
            if k > 1 {
                assert(b[1] == rest[1]);
            }
        }
        assert(ranges(b).len() > 0);
        let segment = rest.skip(k + 1);
        if segment.len() == 0 || segment == seq![46u8] {
            assert(added_ranges(rest) == added_ranges(b));
        } else {
            assert(added_ranges(rest) =~= added_ranges(b).push((k + 1, rest.len() as int)));
            assert(shifted(added_ranges(rest), off) =~= shifted(added_ranges(b), off).push(
                (off + k + 1, s.len() as int),
            ));
        }
        assert(ranges(s) =~= ranges(base) + shifted(added_ranges(rest), off));
    }
}

proof fn lemma_added(s: Seq<u8>)
    ensures
        begins_with_dot(s) <==> parts(s).len() > 0 && parts(s)[0] == seq![46u8],
        added_ranges(s).len() == added_parts(s).len(),
        forall|i: int|
            0 <= i < added_parts(s).len() ==> #[trigger] added_parts(s)[i] == s.subrange(
                added_ranges(s)[i].0,
                added_ranges(s)[i].1,
            ),
{
    lemma_ranges(s);
    lemma_shape(s);
    if s.len() > 0 {
        let first = parts(s)[0];
        assert(first[0] == s[0]);
        if begins_with_dot(s) {
            assert(first =~= seq![46u8]);
        } else if first == seq![46u8] {
            assert(first.len() == 1);
        }
    }
}

/// A path seen from a directory has the components of the directory, and behind them its own; a
/// `.` at its beginning counts for nothing there. An absolute path has its own alone.
pub proof fn law_joined_components(base: Seq<u8>, rest: Seq<u8>)
    ensures
        rest.len() > 0 && rest[0] == 47 ==> joined(base, rest) == rest,
        base.len() == 0 ==> joined(base, rest) == rest,
        base.len() > 0 && !(rest.len() > 0 && rest[0] == 47) ==> parts(joined(base, rest)) == parts(
            base,
        ) + added_parts(rest),
{
    if base.len() > 0 && !(rest.len() > 0 && rest[0] == 47) {
        let s = joined(base, rest);
        let off: int = s.len() - rest.len();
        lemma_joined_ranges(base, rest);
        lemma_ranges(base);
        lemma_ranges(rest);
        lemma_added(rest);
        let n: int = ranges(base).len() as int;
        assert(s.take(base.len() as int) =~= base);
        assert forall|i: int| 0 <= i < parts(s).len() implies parts(s)[i] == (parts(base)
            + added_parts(rest))[i] by {
            if i < n {
                let r: (int, int) = ranges(base)[i];
                assert(ranges(s)[i] == r);
                assert(s.subrange(r.0, r.1) =~= base.subrange(r.0, r.1));
            } else {
                let r: (int, int) = added_ranges(rest)[i - n];
                assert(ranges(s)[i] == (r.0 + off, r.1 + off));
                assert(added_parts(rest)[i - n] == rest.subrange(r.0, r.1));
                let at: int = if begins_with_dot(rest) {
                    i - n + 1
                } else {
                    i - n
                };
                assert(ranges(rest)[at] == r);
                assert(s.subrange(r.0 + off, r.1 + off) =~= rest.subrange(r.0, r.1));
            }
        }
        assert(parts(s) =~= parts(base) + added_parts(rest));
    }
}

/// A path seen from a directory is spelled like the directory, a `/` where there is none yet, and
/// then like the path.
pub proof fn law_joined_spelling(base: Seq<u8>, rest: Seq<u8>)
    requires
        base.len() > 0,
        !(rest.len() > 0 && rest[0] == 47),
    ensures
        joined(base, rest).take(base.len() as int) == base,
        joined(base, rest).skip(joined(base, rest).len() - rest.len()) == rest,
        joined(base, rest).len() == base.len() + rest.len() + (if base.last() == 47 {
            0int
        } else {
            1int
        }),
        base.last() != 47 ==> joined(base, rest)[base.len() as int] == 47,
{
    let s = joined(base, rest);
    assert(s.take(base.len() as int) =~= base);
    assert(s.skip(s.len() - rest.len()) =~= rest);
}

/// An entry of a directory has the components of the directory and its own name; its directory
/// is its parent, and its name is its file name.
pub proof fn law_entry_of_directory(dir: Seq<u8>, name: Seq<u8>)
    requires
        is_plain_name(name),
    ensures
        parts(joined(dir, name)) == parts(dir).push(name),
        parent_of(joined(dir, name)) is Some,
        parts(parent_of(joined(dir, name))->Some_0) == parts(dir),
        name_of(joined(dir, name)) == Some(name),
{
    let s = joined(dir, name);
    if name[0] == 47 {
        assert(name.contains(name[0]));
    }
    law_single_component(name);
    law_joined_components(dir, name);
    lemma_ranges(dir);
    if dir.len() == 0 {
        assert(parts(dir) =~= Seq::<Seq<u8>>::empty());
    }
    assert(parts(s) =~= parts(dir).push(name));
    lemma_parent(s);
    if parent_of(s) is None {
        assert(is_rooted(s) && parts(s).len() == 1);
        law_components_are_names(s);
        assert(name.contains(47)) by {
            assert(parts(s)[0] == name);
            assert(name[0] == 47);
        }
    }
    assert(parts(s).drop_last() =~= parts(dir));
    if name == seq![47u8] {
        assert(name[0] == 47);
    }
}

/// The file name of a path is its last component, if that is a name and neither the root nor `.`
/// nor `..`.
pub proof fn law_file_name_is_last(s: Seq<u8>)
    ensures
        name_of(s) matches Some(name) ==> parts(s).len() > 0 && parts(s).last() == name
            && is_plain_name(name),
        name_of(s) is None ==> parts(s).len() == 0 || !is_plain_name(parts(s).last()),
{
    law_components_are_names(s);
    if parts(s).len() > 0 {
        let last = parts(s).last();
        assert(last == parts(s)[parts(s).len() - 1]);
        if last == seq![47u8] {
            assert(last[0] == 47);
            assert(last.contains(47));
        }
    }
}

/// The parent of a path is the beginning of the path, without its last component: it ends with
/// the component before. Only the empty path and the root have none.
pub proof fn law_parent(s: Seq<u8>)
    ensures
        parent_of(s) is None <==> parts(s).len() == 0 || parts(s) == seq![seq![47u8]],
        parent_of(s) matches Some(p) ==> {
            &&& parts(p) == parts(s).drop_last()
            &&& p.len() < s.len() && p == s.take(p.len() as int)
            &&& p.len() > 0 ==> parts(p).last().len() <= p.len() && p.skip(
                p.len() - parts(p).last().len(),
            ) == parts(p).last()
        },
{
    lemma_parent(s);
    lemma_ranges(s);
    law_components_are_names(s);
    let r = ranges(s);
    match parent_of(s) {
        None => {
            if parts(s).len() > 0 {
                assert(parts(s) =~= seq![seq![47u8]]);
            }
        },
        Some(p) => {
            if parts(s) == seq![seq![47u8]] {
                assert(parts(s)[0] == seq![47u8]);
                assert(parts(s)[0].len() == 1);
                assert(parts(s)[0][0] == s[r[0].0]);
                assert(false);
            }
            if r.len() > 1 {
                let m: int = r.len() - 2;
                lemma_cut(s, m);
                assert(ranges(p) == r.take(m + 1));
                assert(ranges(p)[m] == r[m]);
                assert(parts(p).last() =~= p.skip(p.len() - parts(p).last().len()));
            } else {
                assert(p =~= s.take(0));
            }
        },
    }
}

/// Upward from a path come the path itself, and then ever shorter beginnings of it, each without
/// the last component of the one before, as long as there is one.
pub proof fn law_ancestors(s: Seq<u8>)
    ensures
        ancestors_of(s).len() == parts(s).len() + (if s.len() > 0 && s[0] == 47 {
            0int
        } else {
            1int
        }),
        ancestors_of(s)[0] == s,
        forall|i: int|
            0 <= i < ancestors_of(s).len() ==> parts(#[trigger] ancestors_of(s)[i]) == parts(
                s,
            ).take(parts(s).len() - i),
        forall|i: int|
            0 < i < ancestors_of(s).len() ==> Some(#[trigger] ancestors_of(s)[i]) == parent_of(
                ancestors_of(s)[i - 1],
            ),
    decreases s.len(),
{
    lemma_ancestors(s);
    lemma_parent(s);
    if let Some(p) = parent_of(s) {
        law_ancestors(p);
        assert forall|i: int| 0 < i < ancestors_of(s).len() implies Some(
            #[trigger] ancestors_of(s)[i],
        ) == parent_of(ancestors_of(s)[i - 1]) by {
            assert(ancestors_of(s)[i] == ancestors_of(p)[i - 1]);
            if i > 1 {
                assert(ancestors_of(s)[i - 1] == ancestors_of(p)[i - 2]);
            }
        }
    }
}

/// Cutting a path before its `n`-th component keeps the components before that one.
proof fn lemma_cut_before(s: Seq<u8>, n: int)
    requires
        0 < n < ranges(s).len(),
    ensures
        ranges(s.take(ranges(s)[n].0)) == ranges(s).take(n),
    decreases s.len(),
{
    lemma_ranges(s);
    lemma_shape(s);
    lemma_last_slash(s);
    let k: int = last_slash(s);
    let from: int = ranges(s)[n].0;
    let t = s.take(from);
    assert(is_segment(s, ranges(s)[n].0, ranges(s)[n].1));
    assert(ranges(s)[0].1 <= ranges(s)[n].0);
    if from == k + 1 {
        assert(t.last() == 47);
        lemma_last_slash_is(t, k);
        assert(t.skip(k + 1).len() == 0);
        assert(t.take(k) =~= s.take(k));
        if n + 1 < ranges(s).len() {
            assert(is_segment(s, ranges(s)[n + 1].0, ranges(s)[n + 1].1));
            assert(ranges(s)[n].1 <= ranges(s)[n + 1].0);
            assert(s[ranges(s)[n + 1].0 - 1] == 47);
            assert(false);
        }
        if k > 0 {
            lemma_ranges(s.take(k));
            if n < ranges(s.take(k)).len() {
                assert(ranges(s)[n] == ranges(s.take(k))[n]);
            }
        }
        assert(ranges(t) =~= ranges(s).take(n));
    } else {
        let b = s.take(k);
        let before = ranges(b);
        lemma_ranges(b);
        assert(k > 0);
        assert(n < before.len());
        assert(before[n] == ranges(s)[n]);
        lemma_cut_before(b, n);
        assert(b.take(from) =~= t);
        assert(before.take(n) =~= ranges(s).take(n));
    }
}

/// A path that ends with its last component, from its `n`-th component on.
proof fn lemma_text_behind(s: Seq<u8>, n: int)
    requires
        0 < n < ranges(s).len(),
        ranges(s).last().1 == s.len(),
    ensures
        parts(s) == parts(s).take(n) + parts(s.skip(ranges(s)[n].0)),
{
    let r = ranges(s);
    let from: int = r[n].0;
    let front = s.take(from);
    let text = s.skip(from);
    lemma_ranges(s);
    lemma_shape(s);
    assert(is_segment(s, r[n].0, r[n].1));
    assert(r[0].1 <= r[n].0);
    lemma_cut_before(s, n);
    assert(ranges(front) == r.take(n));
    assert(front.last() == 47);
    assert(text[0] == s[from]);
    assert(joined(front, text) =~= s);
    law_joined_components(front, text);
    assert forall|i: int| 0 <= i < n implies parts(front)[i] == parts(s)[i] by {
        assert(ranges(front)[i] == r[i]);
        assert(r[i].1 <= r[n].0);
        assert(front.subrange(r[i].0, r[i].1) =~= s.subrange(r[i].0, r[i].1));
    }
    assert(parts(front) =~= parts(s).take(n));
    assert(!begins_with_dot(text)) by {
        if begins_with_dot(text) {
            if text.len() > 1 {
                assert(text[1] == s[from + 1]);
            }
            assert(r[n].1 == from + 1);
        }
    }
    lemma_added(text);
}

/// Whether `text` begins with `first` and ends with `last`.
pub open spec fn begins_and_ends_with(text: Seq<u8>, first: Seq<u8>, last: Seq<u8>) -> bool {
    &&& first.len() <= text.len() && text.take(first.len() as int) == first
    &&& last.len() <= text.len() && text.skip(text.len() - last.len()) == last
}

/// A path is below another if and only if it has the components of that one, in their places.
pub proof fn law_below(s: Seq<u8>, base: Seq<u8>)
    ensures
        is_below(s, base) <==> parts(base).len() <= parts(s).len() && forall|i: int|
            0 <= i < parts(base).len() ==> #[trigger] parts(s)[i] == parts(base)[i],
{
    let front = parts(s).take(parts(base).len() as int);
    if is_below(s, base) {
        assert forall|i: int| 0 <= i < parts(base).len() implies #[trigger] parts(s)[i] == parts(
            base,
        )[i] by {
            assert(front[i] == parts(s)[i]);
        }
    } else if parts(base).len() <= parts(s).len() && forall|i: int|
        0 <= i < parts(base).len() ==> #[trigger] parts(s)[i] == parts(base)[i] {
        assert(front =~= parts(base));
    }
}

/// What of a path is left below one of the directories above it has just the components that
/// follow those of the directory, and stands in the path as it is: from the first of them to the
/// last.
#[verifier::rlimit(40)]
pub proof fn law_text_below(s: Seq<u8>, base: Seq<u8>)
    requires
        is_below(s, base),
    ensures
        parts(s) == parts(base) + parts(text_from(s, parts(base).len() as int)),
        exists|i: int, j: int|
            0 <= i <= j <= s.len() && #[trigger] s.subrange(i, j) == text_from(
                s,
                parts(base).len() as int,
            ),
        parts(base).len() < parts(s).len() ==> begins_and_ends_with(
            text_from(s, parts(base).len() as int),
            parts(s)[parts(base).len() as int],
            parts(s).last(),
        ),
        parts(base).len() == parts(s).len() ==> text_from(s, parts(base).len() as int).len() == 0,
{
    let n: int = parts(base).len() as int;
    let r = ranges(s);
    lemma_ranges(s);
    lemma_shape(s);
    let text = text_from(s, n);
    assert(parts(base) == parts(s).take(n));
    if n >= r.len() {
        assert(parts(text) =~= Seq::<Seq<u8>>::empty());
        assert(s.subrange(0, 0) =~= text);
        assert(parts(s) =~= parts(base) + parts(text));
    } else {
        let from: int = r[n].0;
        let to: int = r.last().1;
        assert(r.last() == r[r.len() - 1]);
        if n < r.len() - 1 {
            assert(r[n].1 <= r[r.len() - 1].0);
        }
        assert(s.subrange(from, to) == text);
        let first = parts(s)[n];
        let last = parts(s).last();
        assert(last == parts(s)[r.len() - 1]);
        assert(text.take(first.len() as int) =~= first);
        assert(text.skip(text.len() - last.len()) =~= last);
        lemma_cut(s, r.len() - 1);
        assert(r.take(r.len() as int) =~= r);
        let whole = s.take(to);
        assert(ranges(whole) == r);
        assert forall|i: int| 0 <= i < r.len() implies whole.subrange(r[i].0, r[i].1) == s.subrange(
            r[i].0,
            r[i].1,
        ) by {
            if i < r.len() - 1 {
                assert(r[i].1 <= r[r.len() - 1].0);
            }
            assert(whole.subrange(r[i].0, r[i].1) =~= s.subrange(r[i].0, r[i].1));
        }
        assert(parts(whole) =~= parts(s));
        if n == 0 {
            assert(text =~= whole);
            assert(parts(s) =~= parts(base) + parts(text));
        } else {
            lemma_text_behind(whole, n);
            assert(whole.skip(from) =~= text);
            assert(parts(s) =~= parts(base) + parts(text));
        }
    }
}

/// Whether `s` is spelled the shortest way at both ends: it begins with a name, and ends with
/// one.
pub open spec fn is_clean(s: Seq<u8>) -> bool {
    &&& s.len() > 0
    &&& s[0] != 47
    &&& s.last() != 47
    &&& !begins_with_dot(s)
    &&& !(s.len() >= 2 && s.last() == 46 && s[s.len() - 2] == 47)
}

/// What was put below a directory is what is left below it.
pub proof fn law_text_below_undoes_join(base: Seq<u8>, rest: Seq<u8>)
    requires
        base.len() > 0,
        is_clean(rest),
    ensures
        is_below(joined(base, rest), base),
        text_from(joined(base, rest), parts(base).len() as int) == rest,
{
    let s = joined(base, rest);
    let off: int = s.len() - rest.len();
    let k: int = last_slash(rest);
    lemma_joined_below(base, rest);
    lemma_joined_ranges(base, rest);
    lemma_ranges(rest);
    lemma_ranges(base);
    lemma_last_slash(rest);
    let r = ranges(rest);
    let n: int = ranges(base).len() as int;
    if k >= 0 {
        let segment = rest.skip(k + 1);
        if segment.len() == 0 {
            assert(rest.last() == rest[k]);
        }
        if segment == seq![46u8] {
            assert(segment.len() == 1 && segment[0] == 46);
            assert(rest[rest.len() - 2] == 47);
        }
    }
    assert(r.last().1 == rest.len());
    assert(ranges(s)[n] == (r[0].0 + off, r[0].1 + off));
    assert(ranges(s).last() == (r.last().0 + off, r.last().1 + off));
    assert(s.subrange(off, s.len() as int) =~= rest);
}

} // verus!

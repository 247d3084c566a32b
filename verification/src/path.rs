//! Paths as byte strings, read the way Unix reads them: `/` separates components, repeated
//! separators and `.` components count for nothing (but for a leading `.`), and a leading `/`
//! is a component of its own, the root. Paths of machines that read them otherwise, with drive
//! letters or with `\` for a separator, are not for this module.

use vstd::prelude::*;
use vstd::slice::slice_to_vec;

use crate::text::{concat_bytes, copy_range, same_bytes, same_key};

verus! {

/// The separator, `/`.
pub const SLASH: u8 = 47;

/// The byte `.`.
pub const DOT: u8 = 46;

/// A path's components, one byte string each: what two spellings of one path have in common.
pub type PathKey = Vec<Vec<u8>>;

/// The byte strings that a list of vectors holds.
pub open spec fn texts(v: Seq<Vec<u8>>) -> Seq<Seq<u8>> {
    Seq::new(v.len(), |i: int| v[i]@)
}

/// Each byte string is taken as it is.
pub proof fn law_texts_are_all(v: Seq<Vec<u8>>)
    ensures
        texts(v).len() == v.len(),
        forall|i: int| 0 <= i < v.len() ==> #[trigger] texts(v)[i] == v[i]@,
{
}

/// The position of the last `/` in `s`, or `-1`.
pub open spec fn last_slash(s: Seq<u8>) -> int
    decreases s.len(),
{
    if s.len() == 0 {
        -1
    } else if s.last() == SLASH {
        s.len() - 1
    } else {
        last_slash(s.drop_last())
    }
}

/// Where the components of `s` begin and end.
pub open spec fn ranges(s: Seq<u8>) -> Seq<(int, int)>
    decreases s.len(),
{
    let k: int = last_slash(s);
    if s.len() == 0 {
        Seq::empty()
    } else if k < 0 || k >= s.len() {
        seq![(0int, s.len() as int)]
    } else {
        let before = if k == 0 {
            seq![(0int, 1int)]
        } else {
            ranges(s.take(k))
        };
        let segment = s.skip(k + 1);
        if segment.len() == 0 || segment == seq![DOT] {
            before
        } else {
            before.push((k + 1, s.len() as int))
        }
    }
}

/// The components of `s`.
pub open spec fn parts(s: Seq<u8>) -> Seq<Seq<u8>> {
    Seq::new(ranges(s).len(), |i: int| s.subrange(ranges(s)[i].0, ranges(s)[i].1))
}

/// Whether `s` begins at the root.
pub open spec fn is_rooted(s: Seq<u8>) -> bool {
    s.len() > 0 && s[0] == SLASH
}

/// The path without its last component; none for the empty path and for the root.
pub open spec fn parent_of(s: Seq<u8>) -> Option<Seq<u8>> {
    let r = ranges(s);
    if r.len() == 0 || (r.len() == 1 && is_rooted(s)) {
        None
    } else if r.len() == 1 {
        Some(Seq::empty())
    } else {
        Some(s.take(r[r.len() - 2].1))
    }
}

/// `rest` seen from the directory `base`.
pub open spec fn joined(base: Seq<u8>, rest: Seq<u8>) -> Seq<u8> {
    if is_rooted(rest) {
        rest
    } else if base.len() == 0 || base.last() == SLASH {
        base + rest
    } else {
        base.push(SLASH) + rest
    }
}

/// Whether the components of `base` are the first components of `s`.
pub open spec fn is_below(s: Seq<u8>, base: Seq<u8>) -> bool {
    parts(base).is_prefix_of(parts(s))
}

/// The text of `s` from its `n`-th component to its last.
pub open spec fn text_from(s: Seq<u8>, n: int) -> Seq<u8> {
    let r = ranges(s);
    if 0 <= n < r.len() {
        s.subrange(r[n].0, r.last().1)
    } else {
        Seq::empty()
    }
}

/// The last component, where it is a name.
pub open spec fn name_of(s: Seq<u8>) -> Option<Seq<u8>> {
    let p = parts(s);
    if p.len() == 0 || p.last() == seq![SLASH] || p.last() == seq![DOT] || p.last() == seq![DOT, DOT] {
        None
    } else {
        Some(p.last())
    }
}

/// The path itself, its parent, the parent of that, and so on.
pub open spec fn ancestors_of(s: Seq<u8>) -> Seq<Seq<u8>>
    decreases s.len(),
{
    match parent_of(s) {
        Some(p) => if p.len() < s.len() {
            seq![s] + ancestors_of(p)
        } else {
            seq![s]
        },
        None => seq![s],
    }
}

/// What the last `/` is.
pub proof fn lemma_last_slash(s: Seq<u8>)
    ensures
        -1 <= last_slash(s) < s.len(),
        last_slash(s) >= 0 ==> s[last_slash(s)] == SLASH,
        forall|j: int| last_slash(s) < j < s.len() ==> s[j] != SLASH,
    decreases s.len(),
{
    if s.len() > 0 && s.last() != SLASH {
        lemma_last_slash(s.drop_last());
        assert forall|j: int| last_slash(s) < j < s.len() implies s[j] != SLASH by {
            if j < s.len() - 1 {
                assert(s.drop_last()[j] == s[j]);
            }
        }
    }
}

/// What makes a position that of the last `/`.
pub proof fn lemma_last_slash_is(s: Seq<u8>, k: int)
    requires
        -1 <= k < s.len(),
        k >= 0 ==> s[k] == SLASH,
        forall|j: int| k < j < s.len() ==> s[j] != SLASH,
    ensures
        last_slash(s) == k,
{
    lemma_last_slash(s);
    let m: int = last_slash(s);
    if m < k {
        assert(s[k] != SLASH);
    } else if k < m {
        assert(s[m] != SLASH);
    }
}

/// The components lie one after the other inside the text, and none of them is empty.
pub proof fn lemma_ranges(s: Seq<u8>)
    ensures
        forall|i: int|
            0 <= i < ranges(s).len() ==> 0 <= (#[trigger] ranges(s)[i]).0 < ranges(s)[i].1 <= s.len(),
        forall|i: int, j: int|
            0 <= i < j < ranges(s).len() ==> (#[trigger] ranges(s)[i]).1 <= (
            #[trigger] ranges(s)[j]).0,
        ranges(s).len() > 0 <==> s.len() > 0,
        ranges(s).len() > 0 ==> ranges(s)[0].0 == 0,
        is_rooted(s) ==> ranges(s)[0] == (0int, 1int),
    decreases s.len(),
{
    lemma_last_slash(s);
    let k: int = last_slash(s);
    if s.len() > 0 && k > 0 {
        lemma_ranges(s.take(k));
        assert(s.take(k)[0] == s[0]);
    }
}

/// Cutting a path behind its `m`-th component keeps the components up to that one.
pub proof fn lemma_cut(s: Seq<u8>, m: int)
    requires
        0 <= m < ranges(s).len(),
    ensures
        ranges(s.take(ranges(s)[m].1)) == ranges(s).take(m + 1),
    decreases s.len(),
{
    lemma_ranges(s);
    lemma_last_slash(s);
    let k: int = last_slash(s);
    let e: int = ranges(s)[m].1;
    if e == s.len() {
        assert(s.take(e) == s);
        if m + 1 < ranges(s).len() {
            assert(ranges(s)[m].1 <= ranges(s)[m + 1].0);
        }
        assert(ranges(s).take(m + 1) == ranges(s));
    } else if k == 0 {
        let t = s.take(1);
        assert(m == 0 && e == 1);
        assert(t.last() == SLASH);
        assert(t.skip(1).len() == 0);
        assert(ranges(s).take(1) == seq![(0int, 1int)]);
    } else {
        let b = s.take(k);
        let before = ranges(b);
        lemma_ranges(b);
        assert(m < before.len());
        assert(ranges(s)[m] == before[m]);
        lemma_cut(b, m);
        assert(b.take(e) == s.take(e));
        assert(before.take(m + 1) == ranges(s).take(m + 1));
    }
}

/// The parent of a path has the path's components but the last; it is a shorter text, and
/// begins at the root if and only if the path does.
pub proof fn lemma_parent(s: Seq<u8>)
    ensures
        match parent_of(s) {
            Some(p) => {
                &&& parts(s).len() > 0
                &&& parts(p) == parts(s).drop_last()
                &&& p.len() < s.len()
                &&& is_rooted(p) == is_rooted(s)
            },
            None => parts(s).len() == 0 || (parts(s).len() == 1 && is_rooted(s)),
        },
{
    lemma_ranges(s);
    let r = ranges(s);
    if r.len() == 1 && !is_rooted(s) {
        assert(parts(Seq::<u8>::empty()) == parts(s).drop_last());
    } else if r.len() > 1 {
        let m: int = r.len() - 2;
        let p = s.take(r[m].1);
        lemma_cut(s, m);
        assert(r[m].1 <= r[m + 1].0);
        assert forall|i: int| 0 <= i < m + 1 implies parts(p)[i] == parts(s).drop_last()[i] by {
            assert(ranges(p)[i] == r[i]);
            if i < m {
                assert(r[i].1 <= r[m].0);
            }
            assert(p.subrange(r[i].0, r[i].1) == s.subrange(r[i].0, r[i].1));
        }
        assert(parts(p) == parts(s).drop_last());
    }
}

/// The ancestors of a path have ever fewer of its components: of a path from the root down to
/// the root alone, of another path down to none.
pub proof fn lemma_ancestors(s: Seq<u8>)
    ensures
        ancestors_of(s).len() == parts(s).len() + (if is_rooted(s) {
            0int
        } else {
            1int
        }),
        forall|i: int|
            0 <= i < ancestors_of(s).len() ==> parts(#[trigger] ancestors_of(s)[i]) == parts(
                s,
            ).take(parts(s).len() - i),
        ancestors_of(s)[0] == s,
    decreases s.len(),
{
    lemma_parent(s);
    lemma_ranges(s);
    assert(parts(s).take(parts(s).len() as int) == parts(s));
    match parent_of(s) {
        Some(p) => {
            lemma_ancestors(p);
            assert forall|i: int| 0 <= i < ancestors_of(s).len() implies parts(
                #[trigger] ancestors_of(s)[i],
            ) == parts(s).take(parts(s).len() - i) by {
                if i > 0 {
                    assert(ancestors_of(s)[i] == ancestors_of(p)[i - 1]);
                    assert(parts(p).take(parts(p).len() - (i - 1)) == parts(s).take(
                        parts(s).len() - i,
                    ));
                }
            }
        },
        None => {},
    }
}

/// Whatever follows a separator leaves the components before it alone.
proof fn lemma_boundary(s: Seq<u8>, e: int)
    requires
        0 < e < s.len(),
        s[e] == SLASH,
    ensures
        ranges(s.take(e)).is_prefix_of(ranges(s)),
    decreases s.len(),
{
    lemma_last_slash(s);
    let k: int = last_slash(s);
    if e < k {
        lemma_boundary(s.take(k), e);
        assert(s.take(k).take(e) == s.take(e));
    }
}

/// A relative path seen from a directory lies below that directory.
pub proof fn lemma_joined_below(base: Seq<u8>, rest: Seq<u8>)
    requires
        !is_rooted(rest),
    ensures
        is_below(joined(base, rest), base),
{
    let s = joined(base, rest);
    lemma_ranges(base);
    lemma_ranges(s);
    if base.len() > 0 {
        let e: int = if base.last() == SLASH {
            base.len() - 1
        } else {
            base.len() as int
        };
        assert(s[e] == SLASH);
        assert(s.take(e) == base.take(e));
        if base.last() == SLASH {
            lemma_last_slash_is(base, e);
            assert(base.skip(e + 1).len() == 0);
        } else {
            assert(base.take(e) == base);
        }
        if e == 0 {
            assert(is_rooted(base) && is_rooted(s));
        } else if e == base.len() && s.len() == e {
            assert(s == base);
        } else {
            lemma_boundary(s, e);
        }
        assert(ranges(base).is_prefix_of(ranges(s)));
        assert forall|i: int| 0 <= i < ranges(base).len() implies parts(base)[i] == parts(s)[i] by {
            assert(ranges(s).take(ranges(base).len() as int)[i] == ranges(s)[i]);
            let r: (int, int) = ranges(base)[i];
            assert(base.subrange(r.0, r.1) == s.subrange(r.0, r.1));
        }
    }
    assert(parts(base) == parts(s).take(parts(base).len() as int));
}

/// The ranges of a text that ends with a segment, from those of what stands before it.
spec fn ranges_before(s: Seq<u8>, start: int) -> Seq<(int, int)> {
    if start == 0 {
        Seq::empty()
    } else if start == 1 {
        seq![(0int, 1int)]
    } else {
        ranges(s.take(start - 1))
    }
}

proof fn lemma_segment(s: Seq<u8>, start: int, end: int)
    requires
        0 <= start <= end <= s.len(),
        start > 0 ==> s[start - 1] == SLASH,
        forall|j: int| start <= j < end ==> s[j] != SLASH,
    ensures
        ranges(s.take(end)) == (if start == end || (start > 0 && start + 1 == end && s[start]
            == DOT) {
            ranges_before(s, start)
        } else {
            ranges_before(s, start).push((start, end))
        }),
{
    let t = s.take(end);
    assert forall|j: int| start - 1 < j < t.len() implies t[j] != SLASH by {
        assert(t[j] == s[j]);
    }
    lemma_last_slash_is(t, start - 1);
    if start > 0 {
        assert(t.take(start - 1) == s.take(start - 1));
        let segment = t.skip(start);
        if end == start + 1 && s[start] == DOT {
            assert(segment == seq![DOT]);
        } else if segment == seq![DOT] {
            assert(segment.len() == 1);
            assert(segment[0] == s[start]);
        }
    } else if end > 0 {
        assert(ranges_before(s, start).push((start, end)) == seq![(0int, end)]);
    }
}

spec fn spans(v: Seq<(usize, usize)>) -> Seq<(int, int)> {
    Seq::new(v.len(), |i: int| (v[i].0 as int, v[i].1 as int))
}

/// Appends the segment from `start` to `end`, unless it counts for nothing.
fn push_segment(out: &mut Vec<(usize, usize)>, bytes: &[u8], start: usize, end: usize)
    requires
        start <= end <= bytes@.len(),
        start > 0 ==> bytes@[start - 1] == SLASH,
        forall|j: int| start <= j < end ==> bytes@[j] != SLASH,
        spans(old(out)@) == ranges_before(bytes@, start as int),
    ensures
        spans(final(out)@) == ranges(bytes@.take(end as int)),
{
    proof {
        lemma_segment(bytes@, start as int, end as int);
    }
    if start == end || (start > 0 && end - start == 1 && bytes[start] == DOT) {
        return;
    }
    out.push((start, end));
    assert(spans(out@) == spans(old(out)@).push((start as int, end as int)));
}

/// Where the components of `bytes` begin and end.
fn scan(bytes: &[u8]) -> (out: Vec<(usize, usize)>)
    ensures
        spans(out@) == ranges(bytes@),
{
    let mut out: Vec<(usize, usize)> = Vec::new();
    let mut start: usize = 0;
    let mut i: usize = 0;
    assert(spans(out@) == Seq::<(int, int)>::empty());
    while i < bytes.len()
        invariant
            start <= i <= bytes@.len(),
            start > 0 ==> bytes@[start - 1] == SLASH,
            forall|j: int| start <= j < i ==> bytes@[j] != SLASH,
            spans(out@) == ranges_before(bytes@, start as int),
        decreases bytes@.len() - i,
    {
        if bytes[i] == SLASH {
            if i == 0 {
                out.push((0, 1));
                assert(spans(out@) == seq![(0int, 1int)]);
            } else {
                push_segment(&mut out, bytes, start, i);
            }
            start = i + 1;
        }
        i = i + 1;
    }
    push_segment(&mut out, bytes, start, bytes.len());
    assert(bytes@.take(bytes@.len() as int) == bytes@);
    out
}

/// A path.
#[derive(Debug)]
pub struct FsPath {
    bytes: Vec<u8>,
}

impl View for FsPath {
    type V = Seq<u8>;

    closed spec fn view(&self) -> Seq<u8> {
        self.bytes@
    }
}

impl FsPath {
    /// The path that `bytes` spells.
    pub fn new(bytes: Vec<u8>) -> (path: FsPath)
        ensures
            path@ == bytes@,
    {
        FsPath { bytes }
    }

    /// The bytes of the path.
    pub fn as_bytes(&self) -> (bytes: &[u8])
        ensures
            bytes@ == self@,
    {
        self.bytes.as_slice()
    }

    /// A copy of the path, spelled the same.
    pub fn duplicate(&self) -> (path: FsPath)
        ensures
            path@ == self@,
    {
        FsPath { bytes: slice_to_vec(self.bytes.as_slice()) }
    }

    /// Whether the path begins at the root.
    pub fn is_absolute(&self) -> (absolute: bool)
        ensures
            absolute == is_rooted(self@),
    {
        self.bytes.len() > 0 && self.bytes[0] == SLASH
    }

    /// `rest` seen from this directory.
    pub fn join(&self, rest: &[u8]) -> (path: FsPath)
        ensures
            path@ == joined(self@, rest@),
    {
        if rest.len() > 0 && rest[0] == SLASH {
            return FsPath { bytes: slice_to_vec(rest) };
        }
        let mut base: Vec<u8> = slice_to_vec(self.bytes.as_slice());
        if base.len() > 0 && base[base.len() - 1] != SLASH {
            base.push(SLASH);
        }
        FsPath { bytes: concat_bytes(base.as_slice(), rest) }
    }

    /// The components of the path.
    pub fn components(&self) -> (key: PathKey)
        ensures
            texts(key@) == parts(self@),
    {
        let spans: Vec<(usize, usize)> = scan(self.bytes.as_slice());
        let mut key: PathKey = Vec::new();
        let mut i: usize = 0;
        proof {
            lemma_ranges(self@);
        }
        while i < spans.len()
            invariant
                i <= spans@.len(),
                key@.len() == i,
                self::spans(spans@) == ranges(self@),
                forall|j: int|
                    0 <= j < ranges(self@).len() ==> 0 <= (#[trigger] ranges(self@)[j]).0 < ranges(
                        self@,
                    )[j].1 <= self@.len(),
                forall|j: int| 0 <= j < i ==> texts(key@)[j] == parts(self@)[j],
            decreases spans@.len() - i,
        {
            let span: (usize, usize) = spans[i];
            assert(self::spans(spans@)[i as int] == ranges(self@)[i as int]);
            let ghost before = key@;
            key.push(copy_range(self.bytes.as_slice(), span.0, span.1));
            assert forall|j: int| 0 <= j < i + 1 implies texts(key@)[j] == parts(self@)[j] by {
                if j < i {
                    assert(texts(key@)[j] == texts(before)[j]);
                }
            }
            i = i + 1;
        }
        assert(self::spans(spans@).len() == ranges(self@).len());
        assert(texts(key@) == parts(self@));
        key
    }

    /// Whether both paths have the same components.
    pub fn same_as(&self, other: &FsPath) -> (same: bool)
        ensures
            same == (parts(self@) == parts(other@)),
    {
        same_key(&self.components(), &other.components())
    }

    /// The path without its last component.
    pub fn parent(&self) -> (path: Option<FsPath>)
        ensures
            match (path, parent_of(self@)) {
                (Some(p), Some(text)) => p@ == text,
                (None, None) => true,
                _ => false,
            },
    {
        let spans: Vec<(usize, usize)> = scan(self.bytes.as_slice());
        proof {
            lemma_ranges(self@);
            assert(self::spans(spans@).len() == ranges(self@).len());
        }
        if spans.len() == 0 || (spans.len() == 1 && self.is_absolute()) {
            return None;
        }
        if spans.len() == 1 {
            let empty: Vec<u8> = Vec::new();
            assert(empty@ == Seq::<u8>::empty());
            return Some(FsPath { bytes: empty });
        }
        let span: (usize, usize) = spans[spans.len() - 2];
        proof {
            let m: int = ranges(self@).len() - 2;
            assert(self::spans(spans@)[m] == ranges(self@)[m]);
        }
        let bytes: Vec<u8> = copy_range(self.bytes.as_slice(), 0, span.1);
        assert(bytes@ == self@.take(span.1 as int));
        Some(FsPath { bytes })
    }

    /// The path itself, its parent, the parent of that, and so on.
    pub fn ancestors(&self) -> (list: Vec<FsPath>)
        ensures
            list@.len() == ancestors_of(self@).len(),
            forall|i: int| 0 <= i < list@.len() ==> (#[trigger] list@[i])@ == ancestors_of(self@)[i],
    {
        let mut list: Vec<FsPath> = Vec::new();
        let mut current: FsPath = self.duplicate();
        loop
            invariant
                ancestors_of(self@).len() == list@.len() + ancestors_of(current@).len(),
                forall|i: int|
                    0 <= i < list@.len() ==> (#[trigger] list@[i])@ == ancestors_of(self@)[i],
                forall|i: int|
                    0 <= i < ancestors_of(current@).len() ==> #[trigger] ancestors_of(current@)[i]
                        == ancestors_of(self@)[list@.len() + i],
            decreases current@.len(),
        {
            proof {
                lemma_parent(current@);
                assert(ancestors_of(current@)[0] == current@);
            }
            let next: Option<FsPath> = current.parent();
            let ghost done = list@;
            let ghost here = current@;
            list.push(current);
            match next {
                None => {
                    return list;
                },
                Some(path) => {
                    proof {
                        assert(ancestors_of(here) == seq![here] + ancestors_of(path@));
                        assert forall|i: int|
                            0 <= i < ancestors_of(path@).len() implies #[trigger] ancestors_of(
                            path@,
                        )[i] == ancestors_of(self@)[list@.len() + i] by {
                            assert(ancestors_of(here)[i + 1] == ancestors_of(path@)[i]);
                            assert(ancestors_of(self@)[done.len() + (i + 1)] == ancestors_of(
                                here,
                            )[i + 1]);
                        }
                    }
                    current = path;
                },
            }
        }
    }

    /// Whether the components of `base` are the first components of this path.
    pub fn starts_with(&self, base: &FsPath) -> (below: bool)
        ensures
            below == is_below(self@, base@),
    {
        let whole: PathKey = self.components();
        let first: PathKey = base.components();
        if first.len() > whole.len() {
            assert(parts(base@).len() > parts(self@).len());
            return false;
        }
        let mut i: usize = 0;
        while i < first.len()
            invariant
                i <= first@.len() <= whole@.len(),
                texts(whole@) == parts(self@),
                texts(first@) == parts(base@),
                forall|j: int| 0 <= j < i ==> parts(base@)[j] == parts(self@)[j],
            decreases first@.len() - i,
        {
            assert(parts(base@)[i as int] == texts(first@)[i as int]);
            assert(parts(self@)[i as int] == texts(whole@)[i as int]);
            if !same_bytes(first[i].as_slice(), whole[i].as_slice()) {
                assert(parts(self@).take(parts(base@).len() as int)[i as int] == parts(
                    self@,
                )[i as int]);
                return false;
            }
            i = i + 1;
        }
        assert(parts(base@).len() == first@.len());
        assert(parts(base@) == parts(self@).take(parts(base@).len() as int));
        true
    }

    /// The text of the path below `base`; none where it is not below `base`.
    pub fn strip_prefix(&self, base: &FsPath) -> (rest: Option<Vec<u8>>)
        ensures
            match rest {
                Some(text) => is_below(self@, base@) && text@ == text_from(
                    self@,
                    parts(base@).len() as int,
                ),
                None => !is_below(self@, base@),
            },
    {
        if !self.starts_with(base) {
            return None;
        }
        let spans: Vec<(usize, usize)> = scan(self.bytes.as_slice());
        let first: PathKey = base.components();
        proof {
            lemma_ranges(self@);
            assert(self::spans(spans@).len() == ranges(self@).len());
            assert(texts(first@).len() == parts(base@).len());
        }
        if first.len() >= spans.len() {
            let empty: Vec<u8> = Vec::new();
            assert(empty@ == Seq::<u8>::empty());
            return Some(empty);
        }
        let from: (usize, usize) = spans[first.len()];
        let to: (usize, usize) = spans[spans.len() - 1];
        proof {
            let n: int = first@.len() as int;
            let m: int = ranges(self@).len() - 1;
            assert(self::spans(spans@)[n] == ranges(self@)[n]);
            assert(self::spans(spans@)[m] == ranges(self@)[m]);
        }
        Some(copy_range(self.bytes.as_slice(), from.0, to.1))
    }

    /// The last component, where it is a name.
    pub fn file_name(&self) -> (name: Option<Vec<u8>>)
        ensures
            match (name, name_of(self@)) {
                (Some(n), Some(text)) => n@ == text,
                (None, None) => true,
                _ => false,
            },
    {
        let key: PathKey = self.components();
        assert(texts(key@).len() == parts(self@).len());
        if key.len() == 0 {
            return None;
        }
        let last: &Vec<u8> = &key[key.len() - 1];
        proof {
            let m: int = parts(self@).len() - 1;
            assert(texts(key@)[m] == parts(self@)[m]);
        }
        if last.len() == 1 && (last[0] == SLASH || last[0] == DOT) {
            assert(last@ == seq![last@[0]]);
            return None;
        }
        if last.len() == 2 && last[0] == DOT && last[1] == DOT {
            assert(last@ == seq![DOT, DOT]);
            return None;
        }
        Some(slice_to_vec(last.as_slice()))
    }
}

} // verus!

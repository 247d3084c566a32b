//! Hash sets and hash maps keyed by path components.

use rustc_hash::{FxBuildHasher, FxHashMap, FxHashSet};
use vstd::prelude::*;

use crate::path::{parts, texts, FsPath, PathKey};

verus! {

/// `rustc_hash::FxBuildHasher`, the hasher of the sets and maps below.
#[verifier::external_type_specification]
#[verifier::external_body]
pub struct ExFxBuildHasher(FxBuildHasher);

/// A set of paths.
pub type PathSet = FxHashSet<PathKey>;

/// A number for each of some paths.
pub type PathMap = FxHashMap<PathKey, u64>;

/// The paths that a set holds, each as its components.
pub uninterp spec fn set_paths(s: PathSet) -> Set<Seq<Seq<u8>>>;

/// What a map holds: a number for each of some paths.
pub uninterp spec fn map_entries(m: PathMap) -> Map<Seq<Seq<u8>>, u64>;

/// `FxHashSet::default`: a set that holds nothing.
#[verifier::external_body]
pub(crate) fn set_new() -> (s: PathSet)
    ensures
        set_paths(s) == Set::<Seq<Seq<u8>>>::empty(),
{
    FxHashSet::default()
}

/// `FxHashSet::contains`: whether the set holds the path.
#[verifier::external_body]
pub(crate) fn set_contains(s: &PathSet, key: &PathKey) -> (found: bool)
    ensures
        found == set_paths(*s).contains(texts(key@)),
{
    s.contains(key)
}

/// `FxHashSet::insert`: adds the path, and says whether it was new.
#[verifier::external_body]
pub(crate) fn set_insert(s: &mut PathSet, key: PathKey) -> (fresh: bool)
    ensures
        set_paths(*final(s)) == set_paths(*old(s)).insert(texts(key@)),
        fresh == !set_paths(*old(s)).contains(texts(key@)),
{
    s.insert(key)
}

/// `FxHashMap::default`: a map that holds nothing.
#[verifier::external_body]
pub(crate) fn map_new() -> (m: PathMap)
    ensures
        map_entries(m).dom() == Set::<Seq<Seq<u8>>>::empty(),
{
    FxHashMap::default()
}

/// `FxHashMap::get`: the number of the path, if the map holds one.
#[verifier::external_body]
pub(crate) fn map_get(m: &PathMap, key: &PathKey) -> (value: Option<u64>)
    ensures
        value == (if map_entries(*m).contains_key(texts(key@)) {
            Some(map_entries(*m)[texts(key@)])
        } else {
            None
        }),
{
    m.get(key).copied()
}

/// `FxHashMap::insert`: sets the number of the path.
#[verifier::external_body]
pub(crate) fn map_insert(m: &mut PathMap, key: PathKey, value: u64)
    ensures
        map_entries(*final(m)) == map_entries(*old(m)).insert(texts(key@), value),
{
    m.insert(key, value);
}

/// The components of each of some paths.
pub open spec fn keys(paths: Seq<FsPath>) -> Seq<Seq<Seq<u8>>> {
    Seq::new(paths.len(), |i: int| parts(paths[i]@))
}

/// Each of some paths is known by its own components.
pub proof fn law_each_path_has_its_key(paths: Seq<FsPath>, i: int)
    requires
        0 <= i < paths.len(),
    ensures
        keys(paths).len() == paths.len(),
        keys(paths)[i] == parts(paths[i]@),
        keys(paths).contains(parts(paths[i]@)),
{
    assert(keys(paths)[i] == parts(paths[i]@));
}

/// One path more is one key more.
pub proof fn lemma_keys_push(paths: Seq<FsPath>, n: int)
    requires
        0 <= n < paths.len(),
    ensures
        forall|key: Seq<Seq<u8>>| #[trigger]
            keys(paths.take(n + 1)).contains(key) <==> keys(paths.take(n)).contains(key) || key
                == parts(paths[n]@),
{
    let before = keys(paths.take(n));
    let at = parts(paths[n]@);
    assert(keys(paths.take(n + 1)) =~= before.push(at));
    broadcast use vstd::seq_lib::lemma_seq_contains_after_push;

}

/// The set of some paths.
pub fn collect_paths(paths: &[FsPath]) -> (set: PathSet)
    ensures
        forall|key: Seq<Seq<u8>>| #[trigger]
            set_paths(set).contains(key) <==> keys(paths@).contains(key),
{
    let mut set: PathSet = set_new();
    let mut i: usize = 0;
    while i < paths.len()
        invariant
            i <= paths@.len(),
            forall|key: Seq<Seq<u8>>| #[trigger]
                set_paths(set).contains(key) <==> keys(paths@.take(i as int)).contains(key),
        decreases paths@.len() - i,
    {
        proof {
            lemma_keys_push(paths@, i as int);
        }
        set_insert(&mut set, paths[i].components());
        i = i + 1;
    }
    assert(paths@.take(paths@.len() as int) == paths@);
    set
}

} // verus!

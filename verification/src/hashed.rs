//! Hashed collections of the `hashbrown` crate, held behind trusted wrappers.
//!
//! Each collection sits in a private field of a struct whose body Verus does
//! not read; a named spec function gives its contents, and each wrapper states
//! what the `hashbrown` method does to them.

use vstd::prelude::*;

use crate::dependency_map::{ArcDependency, LayerDependency};
use crate::doc::LayerId;
use crate::path::{Path, PathId};
use crate::prim_index::OpinionKey;
use crate::interner::TokenId;
use crate::store::{Layer, PrimSpec};

verus! {

/// A `hashbrown::HashMap<Path, PathId>`.
#[verifier::external_body]
#[derive(Debug)]
pub struct PathIdTable {
    inner: hashbrown::HashMap<Path, PathId>,
}

/// The entries of a [`PathIdTable`], keyed by path view.
pub uninterp spec fn path_table_contents(t: PathIdTable) -> Map<Seq<TokenId>, PathId>;

/// `hashbrown::HashMap::new`: an empty map.
#[verifier::external_body]
pub(crate) fn path_table_new() -> (r: PathIdTable)
    ensures
        path_table_contents(r).dom() == Set::<Seq<TokenId>>::empty(),
{
    PathIdTable { inner: hashbrown::HashMap::new() }
}

/// `hashbrown::HashMap::get`: the value stored under a key equal to `k`.
///
/// `Path`'s derived equality compares the segment lists, so equal keys are
/// exactly keys with equal views.
#[verifier::external_body]
pub(crate) fn path_table_get(t: &PathIdTable, k: &Path) -> (r: Option<PathId>)
    ensures
        r is Some <==> path_table_contents(*t).dom().contains(k@),
        r is Some ==> r->0 == path_table_contents(*t)[k@],
{
    t.inner.get(k).copied()
}

/// `hashbrown::HashMap::insert`: stores `v` under `k`, replacing any value
/// stored under an equal key.
#[verifier::external_body]
pub(crate) fn path_table_insert(t: &mut PathIdTable, k: Path, v: PathId)
    ensures
        path_table_contents(*final(t)) == path_table_contents(*old(t)).insert(k@, v),
{
    t.inner.insert(k, v);
}


/// A `hashbrown::HashSet<u64>`.
#[verifier::external_body]
#[derive(Debug)]
pub struct U64Set {
    inner: hashbrown::HashSet<u64>,
}

/// The members of a [`U64Set`].
pub uninterp spec fn u64_set_contents(s: U64Set) -> Set<u64>;

/// `hashbrown::HashSet::new`: an empty set.
#[verifier::external_body]
pub(crate) fn u64_set_new() -> (r: U64Set)
    ensures
        u64_set_contents(r) == Set::<u64>::empty(),
{
    U64Set { inner: hashbrown::HashSet::new() }
}

/// `hashbrown::HashSet::insert`: adds `v`; `true` when it was not present.
#[verifier::external_body]
pub(crate) fn u64_set_insert(s: &mut U64Set, v: u64) -> (r: bool)
    ensures
        u64_set_contents(*final(s)) == u64_set_contents(*old(s)).insert(v),
        r == !u64_set_contents(*old(s)).contains(v),
{
    s.inner.insert(v)
}

/// `hashbrown::HashSet::remove`: removes `v`; `true` when it was present.
#[verifier::external_body]
pub(crate) fn u64_set_remove(s: &mut U64Set, v: u64) -> (r: bool)
    ensures
        u64_set_contents(*final(s)) == u64_set_contents(*old(s)).remove(v),
        r == u64_set_contents(*old(s)).contains(v),
{
    s.inner.remove(&v)
}

/// A `hashbrown::HashSet<ArcDependency>`.
#[verifier::external_body]
#[derive(Debug)]
pub struct ArcDependencySet {
    inner: hashbrown::HashSet<ArcDependency>,
}

/// The members of an [`ArcDependencySet`].
pub uninterp spec fn arc_set_contents(s: ArcDependencySet) -> Set<ArcDependency>;

/// `hashbrown::HashSet::new`: an empty set.
#[verifier::external_body]
pub(crate) fn arc_set_new() -> (r: ArcDependencySet)
    ensures
        arc_set_contents(r) == Set::<ArcDependency>::empty(),
{
    ArcDependencySet { inner: hashbrown::HashSet::new() }
}

/// `hashbrown::HashSet::insert`: adds `v` (the derived equality of
/// `ArcDependency` compares all fields).
#[verifier::external_body]
pub(crate) fn arc_set_insert(s: &mut ArcDependencySet, v: ArcDependency) -> (r: bool)
    ensures
        arc_set_contents(*final(s)) == arc_set_contents(*old(s)).insert(v),
        r == !arc_set_contents(*old(s)).contains(v),
{
    s.inner.insert(v)
}

/// `hashbrown::HashSet::into_iter`, collected: every member exactly once, in
/// the set's iteration order (which the set does not fix).
#[verifier::external_body]
pub(crate) fn arc_set_into_vec(s: ArcDependencySet) -> (r: Vec<ArcDependency>)
    ensures
        r@.no_duplicates(),
        r@.to_set() == arc_set_contents(s),
{
    s.inner.into_iter().collect()
}

/// A `hashbrown::HashSet<LayerDependency>`.
#[verifier::external_body]
#[derive(Debug)]
pub struct LayerDependencySet {
    inner: hashbrown::HashSet<LayerDependency>,
}

/// The members of a [`LayerDependencySet`].
pub uninterp spec fn layer_set_contents(s: LayerDependencySet) -> Set<LayerDependency>;

/// `hashbrown::HashSet::new`: an empty set.
#[verifier::external_body]
pub(crate) fn layer_set_new() -> (r: LayerDependencySet)
    ensures
        layer_set_contents(r) == Set::<LayerDependency>::empty(),
{
    LayerDependencySet { inner: hashbrown::HashSet::new() }
}

/// `hashbrown::HashSet::insert`: adds `v` (the derived equality of
/// `LayerDependency` compares all fields).
#[verifier::external_body]
pub(crate) fn layer_set_insert(s: &mut LayerDependencySet, v: LayerDependency) -> (r: bool)
    ensures
        layer_set_contents(*final(s)) == layer_set_contents(*old(s)).insert(v),
        r == !layer_set_contents(*old(s)).contains(v),
{
    s.inner.insert(v)
}

/// `hashbrown::HashSet::into_iter`, collected: every member exactly once, in
/// the set's iteration order (which the set does not fix).
#[verifier::external_body]
pub(crate) fn layer_set_into_vec(s: LayerDependencySet) -> (r: Vec<LayerDependency>)
    ensures
        r@.no_duplicates(),
        r@.to_set() == layer_set_contents(s),
{
    s.inner.into_iter().collect()
}


/// A `hashbrown::HashMap<u64, Vec<LayerId>>`: each layer's sublayer list,
/// keyed by the layer's numeric id.
#[verifier::external_body]
#[derive(Debug)]
pub struct LayerTable {
    inner: hashbrown::HashMap<u64, Vec<LayerId>>,
}

/// The entries of a [`LayerTable`].
pub uninterp spec fn layer_table_contents(t: LayerTable) -> Map<u64, Seq<LayerId>>;

/// `hashbrown::HashMap::new`: an empty map (whose key set is finite).
#[verifier::external_body]
pub(crate) fn layer_table_new() -> (r: LayerTable)
    ensures
        layer_table_contents(r).dom() == Set::<u64>::empty(),
{
    LayerTable { inner: hashbrown::HashMap::new() }
}

/// `hashbrown::HashMap::insert`: stores `v` under `k`, replacing any value
/// stored under `k`.
#[verifier::external_body]
pub(crate) fn layer_table_insert(t: &mut LayerTable, k: u64, v: Vec<LayerId>)
    ensures
        layer_table_contents(*final(t)) == layer_table_contents(*old(t)).insert(k, v@),
{
    t.inner.insert(k, v);
}

/// `hashbrown::HashMap::get`: the list stored under `k`.
#[verifier::external_body]
pub(crate) fn layer_table_get(t: &LayerTable, k: u64) -> (r: Option<&Vec<LayerId>>)
    ensures
        r is Some <==> layer_table_contents(*t).dom().contains(k),
        r matches Some(v) ==> v@ == layer_table_contents(*t)[k],
{
    t.inner.get(&k)
}

/// A `hashbrown::HashMap<TokenId, PathId>` (the derived equality of
/// `TokenId` compares its numeric id, so equal keys are equal ids).
#[verifier::external_body]
#[derive(Debug)]
pub struct TokenPathMap {
    inner: hashbrown::HashMap<TokenId, PathId>,
}

/// The entries of a [`TokenPathMap`].
pub uninterp spec fn token_path_contents(t: TokenPathMap) -> Map<TokenId, PathId>;

/// `hashbrown::HashMap::new`: an empty map.
#[verifier::external_body]
pub(crate) fn token_path_new() -> (r: TokenPathMap)
    ensures
        token_path_contents(r).dom() == Set::<TokenId>::empty(),
{
    TokenPathMap { inner: hashbrown::HashMap::new() }
}

/// `hashbrown::HashMap::insert`: stores `v` under `k`, replacing any value
/// stored under `k`.
#[verifier::external_body]
pub(crate) fn token_path_insert(t: &mut TokenPathMap, k: TokenId, v: PathId)
    ensures
        token_path_contents(*final(t)) == token_path_contents(*old(t)).insert(k, v),
{
    t.inner.insert(k, v);
}

/// `hashbrown::HashMap::get`: the value stored under `k`.
#[verifier::external_body]
pub(crate) fn token_path_get(t: &TokenPathMap, k: TokenId) -> (r: Option<PathId>)
    ensures
        r is Some <==> token_path_contents(*t).dom().contains(k),
        r is Some ==> r->0 == token_path_contents(*t)[k],
{
    t.inner.get(&k).copied()
}

/// A `hashbrown::HashSet<TokenId>`.
#[verifier::external_body]
#[derive(Debug)]
pub struct TokenSet {
    inner: hashbrown::HashSet<TokenId>,
}

/// The members of a [`TokenSet`].
pub uninterp spec fn token_set_contents(s: TokenSet) -> Set<TokenId>;

/// `hashbrown::HashSet::new`: an empty set.
#[verifier::external_body]
pub(crate) fn token_set_new() -> (r: TokenSet)
    ensures
        token_set_contents(r) == Set::<TokenId>::empty(),
{
    TokenSet { inner: hashbrown::HashSet::new() }
}

/// `hashbrown::HashSet::insert`: adds `v`.
#[verifier::external_body]
pub(crate) fn token_set_insert(s: &mut TokenSet, v: TokenId)
    ensures
        token_set_contents(*final(s)) == token_set_contents(*old(s)).insert(v),
{
    s.inner.insert(v);
}

/// `hashbrown::HashSet::contains`: whether `v` is a member.
#[verifier::external_body]
pub(crate) fn token_set_contains(s: &TokenSet, v: TokenId) -> (r: bool)
    ensures
        r == token_set_contents(*s).contains(v),
{
    s.inner.contains(&v)
}

/// A `hashbrown::HashSet<PathId>` (the derived equality of `PathId` compares
/// its numeric id).
#[verifier::external_body]
#[derive(Debug)]
pub struct PathIdSet {
    inner: hashbrown::HashSet<PathId>,
}

/// The members of a [`PathIdSet`].
pub uninterp spec fn path_set_contents(s: PathIdSet) -> Set<PathId>;

/// `hashbrown::HashSet::new`: an empty set.
#[verifier::external_body]
pub(crate) fn path_set_new() -> (r: PathIdSet)
    ensures
        path_set_contents(r) == Set::<PathId>::empty(),
{
    PathIdSet { inner: hashbrown::HashSet::new() }
}

/// `hashbrown::HashSet::insert`: adds `v`; `true` when it was not present.
#[verifier::external_body]
pub(crate) fn path_set_insert(s: &mut PathIdSet, v: PathId) -> (r: bool)
    ensures
        path_set_contents(*final(s)) == path_set_contents(*old(s)).insert(v),
        r == !path_set_contents(*old(s)).contains(v),
{
    s.inner.insert(v)
}

/// `hashbrown::HashSet::contains`: whether `v` is a member.
#[verifier::external_body]
pub(crate) fn path_set_contains(s: &PathIdSet, v: PathId) -> (r: bool)
    ensures
        r == path_set_contents(*s).contains(v),
{
    s.inner.contains(&v)
}

/// A `hashbrown::HashMap<PathId, Vec<PathId>>`: the children of each prim.
#[verifier::external_body]
#[derive(Debug)]
pub struct ChildrenIndex {
    inner: hashbrown::HashMap<PathId, Vec<PathId>>,
}

/// The entries of a [`ChildrenIndex`].
pub uninterp spec fn children_contents(t: ChildrenIndex) -> Map<PathId, Seq<PathId>>;

/// `hashbrown::HashMap::new`: an empty map.
#[verifier::external_body]
pub(crate) fn children_new() -> (r: ChildrenIndex)
    ensures
        children_contents(r).dom() == Set::<PathId>::empty(),
{
    ChildrenIndex { inner: hashbrown::HashMap::new() }
}

/// `hashbrown::HashMap::entry(k).or_default().push(v)`: appends `v` to the
/// list under `k`, starting from an empty list when `k` had none.
#[verifier::external_body]
pub(crate) fn children_push(t: &mut ChildrenIndex, k: PathId, v: PathId)
    ensures
        children_contents(*final(t)) == children_contents(*old(t)).insert(
            k,
            (if children_contents(*old(t)).dom().contains(k) {
                children_contents(*old(t))[k]
            } else {
                Seq::<PathId>::empty()
            }).push(v),
        ),
{
    t.inner.entry(k).or_default().push(v);
}

/// `hashbrown::HashMap::insert`: stores `v` under `k`, replacing any list
/// stored under `k`.
#[verifier::external_body]
pub(crate) fn children_insert(t: &mut ChildrenIndex, k: PathId, v: Vec<PathId>)
    ensures
        children_contents(*final(t)) == children_contents(*old(t)).insert(k, v@),
{
    t.inner.insert(k, v);
}

/// `hashbrown::HashMap::get`: the list stored under `k`.
#[verifier::external_body]
pub(crate) fn children_get(t: &ChildrenIndex, k: PathId) -> (r: Option<&Vec<PathId>>)
    ensures
        r is Some <==> children_contents(*t).dom().contains(k),
        r matches Some(v) ==> v@ == children_contents(*t)[k],
{
    t.inner.get(&k)
}

/// `hashbrown::HashMap::keys`, collected: every key exactly once, in the
/// map's iteration order (which the map does not fix).
#[verifier::external_body]
pub(crate) fn children_keys(t: &ChildrenIndex) -> (r: Vec<PathId>)
    ensures
        r@.no_duplicates(),
        r@.to_set() == children_contents(*t).dom(),
{
    t.inner.keys().copied().collect()
}

/// A `hashbrown::HashMap<TokenId, Vec<PathId>>`: runs of children, each
/// keyed by the name that owns it.
#[verifier::external_body]
#[derive(Debug)]
pub struct SegmentMap {
    inner: hashbrown::HashMap<TokenId, Vec<PathId>>,
}

/// The entries of a [`SegmentMap`].
pub uninterp spec fn segment_contents(t: SegmentMap) -> Map<TokenId, Seq<PathId>>;

/// `hashbrown::HashMap::new`: an empty map.
#[verifier::external_body]
pub(crate) fn segment_new() -> (r: SegmentMap)
    ensures
        segment_contents(r).dom() == Set::<TokenId>::empty(),
{
    SegmentMap { inner: hashbrown::HashMap::new() }
}

/// `hashbrown::HashMap::entry(k).or_default()`: makes sure `k` has an entry,
/// an empty list when it had none.
#[verifier::external_body]
pub(crate) fn segment_touch(t: &mut SegmentMap, k: TokenId)
    ensures
        segment_contents(*final(t)) == (if segment_contents(*old(t)).dom().contains(k) {
            segment_contents(*old(t))
        } else {
            segment_contents(*old(t)).insert(k, Seq::<PathId>::empty())
        }),
{
    t.inner.entry(k).or_default();
}

/// `hashbrown::HashMap::entry(k).or_default().push(v)`: appends `v` to the
/// list under `k`, starting from an empty list when `k` had none.
#[verifier::external_body]
pub(crate) fn segment_push(t: &mut SegmentMap, k: TokenId, v: PathId)
    ensures
        segment_contents(*final(t)) == segment_contents(*old(t)).insert(
            k,
            (if segment_contents(*old(t)).dom().contains(k) {
                segment_contents(*old(t))[k]
            } else {
                Seq::<PathId>::empty()
            }).push(v),
        ),
{
    t.inner.entry(k).or_default().push(v);
}

/// `hashbrown::HashMap::get`: the list stored under `k`.
#[verifier::external_body]
pub(crate) fn segment_get(t: &SegmentMap, k: TokenId) -> (r: Option<&Vec<PathId>>)
    ensures
        r is Some <==> segment_contents(*t).dom().contains(k),
        r matches Some(v) ==> v@ == segment_contents(*t)[k],
{
    t.inner.get(&k)
}

/// A `hashbrown::HashMap<LayerId, u16>`: a position for each layer.
#[verifier::external_body]
#[derive(Debug)]
pub struct LayerPositionMap {
    inner: hashbrown::HashMap<LayerId, u16>,
}

/// The entries of a [`LayerPositionMap`].
pub uninterp spec fn position_contents(t: LayerPositionMap) -> Map<LayerId, u16>;

/// `hashbrown::HashMap::new`: an empty map.
#[verifier::external_body]
pub(crate) fn position_new() -> (r: LayerPositionMap)
    ensures
        position_contents(r).dom() == Set::<LayerId>::empty(),
{
    LayerPositionMap { inner: hashbrown::HashMap::new() }
}

/// `hashbrown::HashMap::insert`: stores `v` under `k`, replacing any value
/// stored under `k`.
#[verifier::external_body]
pub(crate) fn position_insert(t: &mut LayerPositionMap, k: LayerId, v: u16)
    ensures
        position_contents(*final(t)) == position_contents(*old(t)).insert(k, v),
{
    t.inner.insert(k, v);
}

/// `hashbrown::HashMap::get`: the value stored under `k`.
#[verifier::external_body]
pub(crate) fn position_get(t: &LayerPositionMap, k: LayerId) -> (r: Option<u16>)
    ensures
        r is Some <==> position_contents(*t).dom().contains(k),
        r is Some ==> r->0 == position_contents(*t)[k],
{
    t.inner.get(&k).copied()
}

/// `v` is stored under some key of `t`.
pub open spec fn position_stored(t: LayerPositionMap, v: u16) -> bool {
    exists|k: LayerId| #[trigger] position_contents(t).dom().contains(k) && position_contents(t)[k] == v
}

/// `hashbrown::HashMap::values`, collected: the stored values, one per key,
/// in the map's iteration order (which the map does not fix).
#[verifier::external_body]
pub(crate) fn position_values(t: &LayerPositionMap) -> (r: Vec<u16>)
    ensures
        forall|i: int| 0 <= i < r@.len() ==> position_stored(*t, #[trigger] r@[i]),
        forall|k: LayerId| #[trigger]
            position_contents(*t).dom().contains(k) ==> r@.contains(position_contents(*t)[k]),
{
    t.inner.values().copied().collect()
}

/// A `hashbrown::HashMap<PathId, PrimSpec>`: a layer's prim specs keyed by
/// prim path.
#[verifier::external_body]
#[derive(Debug)]
pub struct PrimTable {
    inner: hashbrown::HashMap<PathId, PrimSpec>,
}

/// The entries of a [`PrimTable`].
pub uninterp spec fn prim_table_contents(t: PrimTable) -> Map<PathId, PrimSpec>;

/// `hashbrown::HashMap::new`: an empty map.
#[verifier::external_body]
pub(crate) fn prim_table_new() -> (r: PrimTable)
    ensures
        prim_table_contents(r).dom() == Set::<PathId>::empty(),
{
    PrimTable { inner: hashbrown::HashMap::new() }
}

/// `hashbrown::HashMap::insert`: stores `v` under `k`, replacing any spec
/// stored under `k`.
#[verifier::external_body]
pub(crate) fn prim_table_insert(t: &mut PrimTable, k: PathId, v: PrimSpec)
    ensures
        prim_table_contents(*final(t)) == prim_table_contents(*old(t)).insert(k, v),
{
    t.inner.insert(k, v);
}

/// `hashbrown::HashMap::get`: the spec stored under `k`.
#[verifier::external_body]
pub(crate) fn prim_table_get(t: &PrimTable, k: PathId) -> (r: Option<&PrimSpec>)
    ensures
        r is Some <==> prim_table_contents(*t).dom().contains(k),
        r matches Some(v) ==> *v == prim_table_contents(*t)[k],
{
    t.inner.get(&k)
}

/// `hashbrown::HashMap::keys`, collected: every key exactly once, in the
/// map's iteration order (which the map does not fix).
#[verifier::external_body]
pub(crate) fn prim_table_keys(t: &PrimTable) -> (r: Vec<PathId>)
    ensures
        r@.no_duplicates(),
        r@.to_set() == prim_table_contents(*t).dom(),
{
    t.inner.keys().copied().collect()
}

/// A `hashbrown::HashMap<u64, Layer>`: layers keyed by numeric layer id.
#[verifier::external_body]
#[derive(Debug)]
pub struct LayerMap {
    inner: hashbrown::HashMap<u64, Layer>,
}

/// The entries of a [`LayerMap`].
pub uninterp spec fn layer_map_contents(t: LayerMap) -> Map<u64, Layer>;

/// `hashbrown::HashMap::new`: an empty map.
#[verifier::external_body]
pub(crate) fn layer_map_new() -> (r: LayerMap)
    ensures
        layer_map_contents(r).dom() == Set::<u64>::empty(),
{
    LayerMap { inner: hashbrown::HashMap::new() }
}

/// `hashbrown::HashMap::insert`: stores `v` under `k`, replacing any layer
/// stored under `k`.
#[verifier::external_body]
pub(crate) fn layer_map_insert(t: &mut LayerMap, k: u64, v: Layer)
    ensures
        layer_map_contents(*final(t)) == layer_map_contents(*old(t)).insert(k, v),
{
    t.inner.insert(k, v);
}

/// `hashbrown::HashMap::get`: the layer stored under `k`.
#[verifier::external_body]
pub(crate) fn layer_map_get(t: &LayerMap, k: u64) -> (r: Option<&Layer>)
    ensures
        r is Some <==> layer_map_contents(*t).dom().contains(k),
        r matches Some(v) ==> *v == layer_map_contents(*t)[k],
{
    t.inner.get(&k)
}

/// `hashbrown::HashMap::keys`, collected: every key exactly once, in the
/// map's iteration order (which the map does not fix).
#[verifier::external_body]
pub(crate) fn layer_map_keys(t: &LayerMap) -> (r: Vec<u64>)
    ensures
        r@.no_duplicates(),
        r@.to_set() == layer_map_contents(*t).dom(),
{
    t.inner.keys().copied().collect()
}

/// A `hashbrown::HashMap<PathId, Vec<(OpinionKey, Vec<TokenId>)>>`: per
/// prim, opinions that each carry a list of child names.
#[verifier::external_body]
#[derive(Debug)]
pub struct OpinionsByPrim {
    inner: hashbrown::HashMap<PathId, Vec<(OpinionKey, Vec<TokenId>)>>,
}

/// The entries of an [`OpinionsByPrim`].
pub uninterp spec fn opinions_contents(t: OpinionsByPrim) -> Map<PathId, Seq<(OpinionKey, Vec<TokenId>)>>;

/// `hashbrown::HashMap::new`: an empty map.
#[verifier::external_body]
pub(crate) fn opinions_new() -> (r: OpinionsByPrim)
    ensures
        opinions_contents(r).dom() == Set::<PathId>::empty(),
{
    OpinionsByPrim { inner: hashbrown::HashMap::new() }
}

/// `hashbrown::HashMap::entry(k).or_default().push(v)`: appends `v` to the
/// list under `k`, starting from an empty list when `k` had none.
#[verifier::external_body]
pub(crate) fn opinions_push(t: &mut OpinionsByPrim, k: PathId, v: (OpinionKey, Vec<TokenId>))
    ensures
        opinions_contents(*final(t)) == opinions_contents(*old(t)).insert(
            k,
            (if opinions_contents(*old(t)).dom().contains(k) {
                opinions_contents(*old(t))[k]
            } else {
                Seq::<(OpinionKey, Vec<TokenId>)>::empty()
            }).push(v),
        ),
{
    t.inner.entry(k).or_default().push(v);
}

/// `hashbrown::HashMap::get`: the opinions stored under `k`.
#[verifier::external_body]
pub(crate) fn opinions_get(t: &OpinionsByPrim, k: PathId) -> (r: Option<&Vec<(OpinionKey, Vec<TokenId>)>>)
    ensures
        r is Some <==> opinions_contents(*t).dom().contains(k),
        r matches Some(v) ==> v@ == opinions_contents(*t)[k],
{
    t.inner.get(&k)
}

} // verus!

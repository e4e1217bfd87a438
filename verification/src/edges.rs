//! Opinions brought in across composition arcs (inherits, specializes,
//! references, payloads).
//!
//! An arc from a destination root to a source root maps every populated prim
//! under the destination root to the path at the same place under the
//! source root; each layer of the arc's layer stack that has a spec at that
//! path adds one source to the prim, keyed by the arc.
use crate::compose::strength_at;
use crate::path::{extends, lemma_path_id_at, lemma_path_id_index_injective, path_id_at, PathId, PathInterner};
use crate::prim_index::{ArcKind, OpinionKey};
use crate::doc::LayerId;
use crate::interner::TokenId;
use crate::layer_stack::gathered;
use crate::store::{layer_prims, store_graph, store_layers, InMemoryStore, Layer};
use vstd::prelude::*;

verus! {

/// The arc kind and nested arc kind of the opinions an arc of kind `kind`
/// brings in, when it is itself reached through an outer arc (if any).
pub open spec fn edge_kinds(outer: Option<ArcKind>, kind: ArcKind) -> (ArcKind, Option<ArcKind>) {
    match outer {
        Some(o) => (o, Some(kind)),
        None => (kind, None),
    }
}

/// The key of an opinion an arc brings in from the layer at stack position
/// `pos` of the arc's layer stack, for the spec at `path`.
pub open spec fn arc_key(
    kind: ArcKind,
    nested: Option<ArcKind>,
    layer: LayerId,
    pos: int,
    depth: u16,
    idx: u16,
    path: PathId,
) -> OpinionKey {
    OpinionKey {
        is_local: false,
        arc_kind: kind,
        nested_arc_kind: nested,
        namespace_depth: depth,
        authored: true,
        arc_list_index: idx,
        layer_strength: strength_at(pos),
        layer_id: layer,
        spec_path: path,
    }
}

/// The sources an arc brings in for the spec path `path` from the first `i`
/// layers of `stack`: one key per layer the store holds that has a spec at
/// `path`, in stack order.
pub open spec fn arc_sources(
    layers: Map<u64, Layer>,
    stack: Seq<LayerId>,
    path: PathId,
    kind: ArcKind,
    nested: Option<ArcKind>,
    depth: u16,
    idx: u16,
    i: int,
) -> Seq<OpinionKey>
    decreases i,
{
    if i <= 0 {
        Seq::empty()
    } else {
        let prev = arc_sources(layers, stack, path, kind, nested, depth, idx, i - 1);
        let id = stack[i - 1];
        if layers.dom().contains(id.0) && layer_prims(layers[id.0]).dom().contains(path) {
            prev.push(arc_key(kind, nested, id, i - 1, depth, idx, path))
        } else {
            prev
        }
    }
}

/// The source-side path of the prim `p` for an arc from `dest_root` to
/// `src_root`: when `p` lies at or under `dest_root`, the interned path at the
/// same place under `src_root` (if there is one).
pub open spec fn edge_remote(paths: Seq<Seq<TokenId>>, dest_root: PathId, src_root: PathId, p: PathId) -> Option<
    PathId,
> {
    let pp = paths[p.index()];
    let d = paths[dest_root.index()];
    if extends(pp, d) {
        let rp = paths[src_root.index()] + pp.subrange(d.len() as int, pp.len() as int);
        if paths.contains(rp) {
            Some(path_id_at(paths.index_of(rp) as u32))
        } else {
            None
        }
    } else {
        None
    }
}

/// The sources an arc from `dest_root` to `src_root`, read through `stack`,
/// brings to the prim `p`.
pub open spec fn edge_sources(
    layers: Map<u64, Layer>,
    paths: Seq<Seq<TokenId>>,
    stack: Seq<LayerId>,
    dest_root: PathId,
    src_root: PathId,
    p: PathId,
    kinds: (ArcKind, Option<ArcKind>),
    depth: u16,
    idx: u16,
) -> Seq<OpinionKey> {
    match edge_remote(paths, dest_root, src_root, p) {
        Some(r) => arc_sources(layers, stack, r, kinds.0, kinds.1, depth, idx, stack.len() as int),
        None => Seq::empty(),
    }
}

/// Each table row gained the sources an arc brings to its prim.
pub open spec fn rows_extended(
    old_rows: Seq<Vec<OpinionKey>>,
    new_rows: Seq<Vec<OpinionKey>>,
    layers: Map<u64, Layer>,
    paths: Seq<Seq<TokenId>>,
    stack: Seq<LayerId>,
    dest_root: PathId,
    src_root: PathId,
    prims: Seq<PathId>,
    kinds: (ArcKind, Option<ArcKind>),
    depth: u16,
    idx: u16,
) -> bool {
    &&& new_rows.len() == old_rows.len()
    &&& forall|j: int|
        0 <= j < new_rows.len() ==> #[trigger] new_rows[j]@ == old_rows[j]@ + edge_sources(
            layers,
            paths,
            stack,
            dest_root,
            src_root,
            prims[j],
            kinds,
            depth,
            idx,
        )
}

/// Reads the sources an arc brings in for the spec path `path` from the
/// layers of `stack`, strongest first.
pub fn arc_sources_for_path(
    store: &InMemoryStore,
    stack: &[LayerId],
    path: PathId,
    kind: ArcKind,
    nested: Option<ArcKind>,
    depth: u16,
    idx: u16,
) -> (r: Vec<OpinionKey>)
    ensures
        r@ == arc_sources(store_layers(*store), stack@, path, kind, nested, depth, idx, stack@.len() as int),
{
    let ghost layers = store_layers(*store);
    let mut out: Vec<OpinionKey> = Vec::new();
    let n = stack.len();
    let mut i: usize = 0;
    while i < n
        invariant
            n == stack@.len(),
            i <= n,
            layers == store_layers(*store),
            out@ == arc_sources(layers, stack@, path, kind, nested, depth, idx, i as int),
        decreases n - i,
    {
        let id = stack[i];
        let strength: u16 = if i <= 65535 {
            i as u16
        } else {
            65535
        };
        match store.layer(id) {
            Some(layer) => match layer.prim(path) {
                Some(_) => {
                    let key = OpinionKey {
                        is_local: false,
                        arc_kind: kind,
                        nested_arc_kind: nested,
                        namespace_depth: depth,
                        authored: true,
                        arc_list_index: idx,
                        layer_strength: strength,
                        layer_id: id,
                        spec_path: path,
                    };
                    proof {
                        assert(key == arc_key(kind, nested, id, i as int, depth, idx, path));
                    }
                    out.push(key);
                },
                None => {},
            },
            None => {},
        }
        i = i + 1;
    }
    out
}

/// The source-side path id of the prim `p` for an arc from `dest_root` to
/// `src_root`, if that path is interned.
pub fn edge_remote_id(paths: &PathInterner, dest_root: PathId, src_root: PathId, p: PathId) -> (r: Option<PathId>)
    requires
        paths.contains_id(dest_root),
        paths.contains_id(src_root),
        paths.contains_id(p),
    ensures
        r == edge_remote(paths@, dest_root, src_root, p),
        r matches Some(id) ==> paths.contains_id(id),
{
    let pp = paths.resolve(p);
    let d = paths.resolve(dest_root);
    match pp.strip_prefix(d) {
        Some(rel) => {
            let target = paths.resolve(src_root).join(rel);
            match paths.lookup(&target) {
                Some(id) => {
                    let raw = id.get();
                    proof {
                        let rp = target@;
                        assert(paths@[id.index()] == rp);
                        assert(paths@.contains(rp));
                        let k = paths@.index_of(rp);
                        assert(0 <= k < paths@.len() && paths@[k] == rp);
                        assert(k == id.index());
                        lemma_path_id_at(raw);
                        lemma_path_id_index_injective(id, path_id_at(raw));
                    }
                    Some(id)
                },
                None => None,
            }
        },
        None => None,
    }
}

/// Adds to each row of a prim table the sources an arc of kind `kind` (under
/// the outer arc `outer`, if any) from `dest_root` to `src_root` brings in
/// through the layers of `stack`: row `j` belongs to `prims[j]`, and gains,
/// after its own sources, one source per layer with a spec at the path that
/// corresponds to `prims[j]` under `src_root`.
pub fn add_edge_sources(
    store: &InMemoryStore,
    stack: &[LayerId],
    dest_root: PathId,
    src_root: PathId,
    kind: ArcKind,
    outer: Option<ArcKind>,
    depth: u16,
    idx: u16,
    prims: &[PathId],
    sources: &mut Vec<Vec<OpinionKey>>,
)
    requires
        old(sources)@.len() == prims@.len(),
        store.paths.contains_id(dest_root),
        store.paths.contains_id(src_root),
        forall|j: int| 0 <= j < prims@.len() ==> store.paths.contains_id(#[trigger] prims@[j]),
    ensures
        rows_extended(
            old(sources)@,
            final(sources)@,
            store_layers(*store),
            store.paths@,
            stack@,
            dest_root,
            src_root,
            prims@,
            edge_kinds(outer, kind),
            depth,
            idx,
        ),
{
    let ghost layers = store_layers(*store);
    let ghost kinds = edge_kinds(outer, kind);
    let (k, nested) = match outer {
        Some(o) => (o, Some(kind)),
        None => (kind, None),
    };
    let mut out: Vec<Vec<OpinionKey>> = Vec::new();
    let n = prims.len();
    let mut j: usize = 0;
    while j < n
        invariant
            n == prims@.len(),
            n == sources@.len(),
            j <= n,
            layers == store_layers(*store),
            kinds == edge_kinds(outer, kind),
            kinds == (k, nested),
            store.paths.contains_id(dest_root),
            store.paths.contains_id(src_root),
            forall|q: int| 0 <= q < prims@.len() ==> store.paths.contains_id(#[trigger] prims@[q]),
            out@.len() == j,
            forall|q: int|
                0 <= q < j ==> #[trigger] out@[q]@ == sources@[q]@ + edge_sources(
                    layers,
                    store.paths@,
                    stack@,
                    dest_root,
                    src_root,
                    prims@[q],
                    kinds,
                    depth,
                    idx,
                ),
        decreases n - j,
    {
        let p = prims[j];
        let extra: Vec<OpinionKey> = match edge_remote_id(&store.paths, dest_root, src_root, p) {
            Some(remote) => arc_sources_for_path(store, stack, remote, k, nested, depth, idx),
            None => Vec::new(),
        };
        proof {
            assert(extra@ == edge_sources(layers, store.paths@, stack@, dest_root, src_root, p, kinds, depth, idx));
        }
        let row = crate::listop::concat(sources[j].as_slice(), extra.as_slice());
        out.push(row);
        j = j + 1;
    }
    *sources = out;
}

/// A reference (or payload) arc: the layer it points into and the prim path
/// within that layer's stack. Its time offset is carried beside it by the
/// caller.
#[derive(Clone, Debug)]
pub struct Reference {
    /// The referenced layer.
    pub layer: LayerId,
    /// The referenced prim path within that layer's stack.
    pub prim_path: PathId,
    /// Optional asset path the reference was written with.
    pub asset: Option<String>,
}

impl Reference {
    /// A reference to `prim_path` in the stack of `layer`, with no asset path.
    pub fn new(layer: LayerId, prim_path: PathId) -> (r: Self)
        ensures
            r.layer == layer,
            r.prim_path == prim_path,
            r.asset is None,
    {
        Reference { layer, prim_path, asset: None }
    }
}

/// The layers of the stack rooted at `root`, strongest first.
pub open spec fn stack_layers_of(layers: Map<u64, Layer>, root: LayerId) -> Seq<LayerId> {
    gathered(store_graph(layers), root).map_values(|e: crate::layer_stack::StackEntry| e.layer)
}

/// `edge` is one of `visited`.
fn seen_pair(visited: &Vec<(PathId, PathId)>, edge: (PathId, PathId)) -> (r: bool)
    ensures
        r == visited@.contains(edge),
{
    let n = visited.len();
    let mut i: usize = 0;
    while i < n
        invariant
            n == visited@.len(),
            i <= n,
            forall|q: int| 0 <= q < i ==> visited@[q] != edge,
        decreases n - i,
    {
        if visited[i].0 == edge.0 && visited[i].1 == edge.1 {
            return true;
        }
        i = i + 1;
    }
    false
}

/// `edge` is one of `visited`.
fn seen_triple(visited: &Vec<(PathId, LayerId, PathId)>, edge: (PathId, LayerId, PathId)) -> (r: bool)
    ensures
        r == visited@.contains(edge),
{
    let n = visited.len();
    let mut i: usize = 0;
    while i < n
        invariant
            n == visited@.len(),
            i <= n,
            forall|q: int| 0 <= q < i ==> visited@[q] != edge,
        decreases n - i,
    {
        if visited[i].0 == edge.0 && visited[i].1.0 == edge.1.0 && visited[i].2 == edge.2 {
            return true;
        }
        i = i + 1;
    }
    false
}

/// Expands the arc from `dest_root` to `src_root` once: an edge already in
/// `visited` changes nothing; a new one is recorded and its sources added.
fn expand_path_edge(
    store: &InMemoryStore,
    stack: &[LayerId],
    dest_root: PathId,
    src_root: PathId,
    kind: ArcKind,
    outer: Option<ArcKind>,
    depth: u16,
    idx: u16,
    prims: &[PathId],
    sources: &mut Vec<Vec<OpinionKey>>,
    visited: &mut Vec<(PathId, PathId)>,
)
    requires
        old(sources)@.len() == prims@.len(),
        store.paths.contains_id(dest_root),
        store.paths.contains_id(src_root),
        forall|j: int| 0 <= j < prims@.len() ==> store.paths.contains_id(#[trigger] prims@[j]),
    ensures
        old(visited)@.contains((dest_root, src_root)) ==> *final(sources) == *old(sources) && *final(visited)
            == *old(visited),
        !old(visited)@.contains((dest_root, src_root)) ==> final(visited)@ == old(visited)@.push(
            (dest_root, src_root),
        ) && rows_extended(
            old(sources)@,
            final(sources)@,
            store_layers(*store),
            store.paths@,
            stack@,
            dest_root,
            src_root,
            prims@,
            edge_kinds(outer, kind),
            depth,
            idx,
        ),
{
    if seen_pair(visited, (dest_root, src_root)) {
        return;
    }
    visited.push((dest_root, src_root));
    add_edge_sources(store, stack, dest_root, src_root, kind, outer, depth, idx, prims, sources);
}

/// Adds the opinions an inherit arc from `dest_root` to `inherited_root`
/// brings in through the layers of `stack`, once per edge: each populated
/// prim at or under `dest_root` (row `j` of `sources` belongs to `prims[j]`)
/// gains a source per layer with a spec at the corresponding path under
/// `inherited_root`, keyed as an inherit (nested under `outer`, if given).
pub fn add_inherit_edge_opinions(
    store: &InMemoryStore,
    stack: &[LayerId],
    dest_root: PathId,
    inherited_root: PathId,
    outer: Option<ArcKind>,
    namespace_depth: u16,
    arc_list_index: u16,
    prims: &[PathId],
    sources: &mut Vec<Vec<OpinionKey>>,
    visited: &mut Vec<(PathId, PathId)>,
)
    requires
        old(sources)@.len() == prims@.len(),
        store.paths.contains_id(dest_root),
        store.paths.contains_id(inherited_root),
        forall|j: int| 0 <= j < prims@.len() ==> store.paths.contains_id(#[trigger] prims@[j]),
    ensures
        old(visited)@.contains((dest_root, inherited_root)) ==> *final(sources) == *old(sources)
            && *final(visited) == *old(visited),
        !old(visited)@.contains((dest_root, inherited_root)) ==> final(visited)@ == old(visited)@.push(
            (dest_root, inherited_root),
        ) && rows_extended(
            old(sources)@,
            final(sources)@,
            store_layers(*store),
            store.paths@,
            stack@,
            dest_root,
            inherited_root,
            prims@,
            edge_kinds(outer, ArcKind::Inherits),
            namespace_depth,
            arc_list_index,
        ),
{
    expand_path_edge(
        store,
        stack,
        dest_root,
        inherited_root,
        ArcKind::Inherits,
        outer,
        namespace_depth,
        arc_list_index,
        prims,
        sources,
        visited,
    );
}

/// Adds the opinions a specializes arc from `dest_root` to
/// `specialized_root` brings in through the layers of `stack`, once per
/// edge, as [`add_inherit_edge_opinions`] does for inherits.
pub fn add_specializes_edge_opinions(
    store: &InMemoryStore,
    stack: &[LayerId],
    dest_root: PathId,
    specialized_root: PathId,
    outer: Option<ArcKind>,
    namespace_depth: u16,
    arc_list_index: u16,
    prims: &[PathId],
    sources: &mut Vec<Vec<OpinionKey>>,
    visited: &mut Vec<(PathId, PathId)>,
)
    requires
        old(sources)@.len() == prims@.len(),
        store.paths.contains_id(dest_root),
        store.paths.contains_id(specialized_root),
        forall|j: int| 0 <= j < prims@.len() ==> store.paths.contains_id(#[trigger] prims@[j]),
    ensures
        old(visited)@.contains((dest_root, specialized_root)) ==> *final(sources) == *old(sources)
            && *final(visited) == *old(visited),
        !old(visited)@.contains((dest_root, specialized_root)) ==> final(visited)@ == old(visited)@.push(
            (dest_root, specialized_root),
        ) && rows_extended(
            old(sources)@,
            final(sources)@,
            store_layers(*store),
            store.paths@,
            stack@,
            dest_root,
            specialized_root,
            prims@,
            edge_kinds(outer, ArcKind::Specializes),
            namespace_depth,
            arc_list_index,
        ),
{
    expand_path_edge(
        store,
        stack,
        dest_root,
        specialized_root,
        ArcKind::Specializes,
        outer,
        namespace_depth,
        arc_list_index,
        prims,
        sources,
        visited,
    );
}

/// Expands a reference-like arc of kind `kind` once per
/// `(dest_root, layer, target)` edge, reading the target's own layer stack.
fn expand_layer_edge(
    store: &InMemoryStore,
    dest_root: PathId,
    target: &Reference,
    kind: ArcKind,
    depth: u16,
    idx: u16,
    prims: &[PathId],
    sources: &mut Vec<Vec<OpinionKey>>,
    visited: &mut Vec<(PathId, LayerId, PathId)>,
)
    requires
        old(sources)@.len() == prims@.len(),
        store.paths.contains_id(dest_root),
        store.paths.contains_id(target.prim_path),
        forall|j: int| 0 <= j < prims@.len() ==> store.paths.contains_id(#[trigger] prims@[j]),
    ensures
        !prims@.contains(dest_root) || old(visited)@.contains((dest_root, target.layer, target.prim_path))
            ==> *final(sources) == *old(sources) && *final(visited) == *old(visited),
        prims@.contains(dest_root) && !old(visited)@.contains((dest_root, target.layer, target.prim_path))
            ==> final(visited)@ == old(visited)@.push((dest_root, target.layer, target.prim_path))
            && rows_extended(
            old(sources)@,
            final(sources)@,
            store_layers(*store),
            store.paths@,
            stack_layers_of(store_layers(*store), target.layer),
            dest_root,
            target.prim_path,
            prims@,
            (kind, None),
            depth,
            idx,
        ),
{
    let mut present = false;
    let n = prims.len();
    let mut i: usize = 0;
    while i < n
        invariant
            n == prims@.len(),
            i <= n,
            present == prims@.take(i as int).contains(dest_root),
        decreases n - i,
    {
        proof {
            assert(prims@.take(i + 1) =~= prims@.take(i as int).push(prims@[i as int]));
        }
        if prims[i] == dest_root {
            present = true;
            proof {
                assert(prims@.take(i + 1)[i as int] == dest_root);
            }
        } else {
            proof {
                if prims@.take(i + 1).contains(dest_root) {
                    let q = choose|q: int| 0 <= q < i + 1 && #[trigger] prims@.take(i + 1)[q] == dest_root;
                    assert(prims@.take(i as int)[q] == dest_root);
                }
            }
        }
        i = i + 1;
    }
    proof {
        assert(prims@.take(n as int) =~= prims@);
    }
    if !present {
        return;
    }
    let edge = (dest_root, target.layer, target.prim_path);
    if seen_triple(visited, edge) {
        return;
    }
    visited.push(edge);
    let remote = store.gather_stack(target.layer);
    proof {
        assert(remote.layers@ =~= stack_layers_of(store_layers(*store), target.layer));
    }
    add_edge_sources(
        store,
        remote.layers.as_slice(),
        dest_root,
        target.prim_path,
        kind,
        None,
        depth,
        idx,
        prims,
        sources,
    );
}

/// Adds the opinions a reference from `dest_root` brings in, once per
/// `(dest_root, layer, prim)` edge and only when `dest_root` is populated:
/// each populated prim at or under `dest_root` gains a source per layer of
/// the referenced layer's own stack with a spec at the corresponding path
/// under the referenced prim, keyed as a reference.
pub fn add_reference_edge_opinions(
    store: &InMemoryStore,
    dest_root: PathId,
    reference: &Reference,
    namespace_depth: u16,
    arc_list_index: u16,
    prims: &[PathId],
    sources: &mut Vec<Vec<OpinionKey>>,
    visited: &mut Vec<(PathId, LayerId, PathId)>,
)
    requires
        old(sources)@.len() == prims@.len(),
        store.paths.contains_id(dest_root),
        store.paths.contains_id(reference.prim_path),
        forall|j: int| 0 <= j < prims@.len() ==> store.paths.contains_id(#[trigger] prims@[j]),
    ensures
        !prims@.contains(dest_root) || old(visited)@.contains((dest_root, reference.layer, reference.prim_path))
            ==> *final(sources) == *old(sources) && *final(visited) == *old(visited),
        prims@.contains(dest_root) && !old(visited)@.contains((dest_root, reference.layer, reference.prim_path))
            ==> final(visited)@ == old(visited)@.push((dest_root, reference.layer, reference.prim_path))
            && rows_extended(
            old(sources)@,
            final(sources)@,
            store_layers(*store),
            store.paths@,
            stack_layers_of(store_layers(*store), reference.layer),
            dest_root,
            reference.prim_path,
            prims@,
            (ArcKind::References, None),
            namespace_depth,
            arc_list_index,
        ),
{
    expand_layer_edge(
        store,
        dest_root,
        reference,
        ArcKind::References,
        namespace_depth,
        arc_list_index,
        prims,
        sources,
        visited,
    );
}

/// Adds the opinions a payload from `dest_root` brings in, as
/// [`add_reference_edge_opinions`] does for references, keyed as a payload.
pub fn add_payload_edge_opinions(
    store: &InMemoryStore,
    dest_root: PathId,
    payload: &Reference,
    namespace_depth: u16,
    arc_list_index: u16,
    prims: &[PathId],
    sources: &mut Vec<Vec<OpinionKey>>,
    visited: &mut Vec<(PathId, LayerId, PathId)>,
)
    requires
        old(sources)@.len() == prims@.len(),
        store.paths.contains_id(dest_root),
        store.paths.contains_id(payload.prim_path),
        forall|j: int| 0 <= j < prims@.len() ==> store.paths.contains_id(#[trigger] prims@[j]),
    ensures
        !prims@.contains(dest_root) || old(visited)@.contains((dest_root, payload.layer, payload.prim_path))
            ==> *final(sources) == *old(sources) && *final(visited) == *old(visited),
        prims@.contains(dest_root) && !old(visited)@.contains((dest_root, payload.layer, payload.prim_path))
            ==> final(visited)@ == old(visited)@.push((dest_root, payload.layer, payload.prim_path))
            && rows_extended(
            old(sources)@,
            final(sources)@,
            store_layers(*store),
            store.paths@,
            stack_layers_of(store_layers(*store), payload.layer),
            dest_root,
            payload.prim_path,
            prims@,
            (ArcKind::Payloads, None),
            namespace_depth,
            arc_list_index,
        ),
{
    expand_layer_edge(
        store,
        dest_root,
        payload,
        ArcKind::Payloads,
        namespace_depth,
        arc_list_index,
        prims,
        sources,
        visited,
    );
}

} // verus!

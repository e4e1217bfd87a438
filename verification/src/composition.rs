//! Composing a stage from a store: population of the prims a layer stack
//! authors (with their ancestors, under an optional mask), the local
//! opinions of each prim sorted strongest first, child ordering and
//! deactivation; and the queries a composed stage answers.

use vstd::prelude::*;

use crate::child_order::{
    apply_child_order, keys_at, opinion_keys, opinions_at, position_after, positions_fit,
    sort_strongest_first, strongest_first_order, first_in_layer, nested_position,
};
use crate::arcs::{authored_in_stack, stack_prim_paths};
use crate::compose::{
    add_local_opinions, depth_of, local_children, local_sources, opinion_list, opinion_views,
    prune_deactivated_in_store, survives,
};
use crate::hashed::{children_contents, children_get, children_keys};
use crate::layer_stack::gathered;
use crate::population::{
    add_ancestor_paths, apply_population_mask, build_children_index, increasing, is_ancestor, kept_by_mask,
    OrderedPathSet,
};
use crate::resolve::{
    resolve_path_list, resolve_scalar, resolve_token_list, source_flag, source_spec, strongest_value,
    token_list_ops, path_list_ops, SpecFlag,
};
use crate::doc::{LayerId, Specifier, Value};
use crate::listop::list_chain;
use crate::store::FieldValue;
use crate::stage::{PopulationMask, StageOptions};
use crate::store::store_graph;
use crate::path::extends;
use crate::spec_path::lemma_extends_trans;
use crate::hashed::{opinions_contents, ChildrenIndex, OpinionsByPrim};
use crate::interner::{TokenId, TokenInterner};
use crate::path::{resolvable, PathId, PathInterner};
use crate::population::total_depth;
use crate::prim_index::{ArcKind, OpinionKey};
use crate::doc::{combined_chain, dict_view};
use crate::resolve::{authors_field, dictionary_opinions, resolves_to, ResolvedValue};
use crate::dependency_map::{arcs_to, layers_to_prim, prims_from_layer, ArcDependency, DependencyMap, DependencyMapBuilder, LayerDependency};
use crate::arcs::{resolved_arc, PathArc};
use crate::edges::{add_edge_sources, edge_kinds, edge_sources};
use crate::compose::strength_at;
use crate::store::{store_layers, InMemoryStore, Layer};

verus! {

/// Whether every id of `ids` names a path of `paths`.
fn all_interned(paths: &PathInterner, ids: &[PathId]) -> (r: bool)
    ensures
        r == forall|i: int| 0 <= i < ids@.len() ==> paths.contains_id(#[trigger] ids@[i]),
{
    let n = ids.len();
    let m = paths.len();
    let mut i: usize = 0;
    while i < n
        invariant
            n == ids@.len(),
            m == paths@.len(),
            i <= n,
            forall|j: int| 0 <= j < i ==> paths.contains_id(#[trigger] ids@[j]),
        decreases n - i,
    {
        if ids[i].get() as usize >= m {
            proof {
                assert(!paths.contains_id(ids@[i as int]));
            }
            return false;
        }
        i = i + 1;
    }
    true
}

/// Whether every segment of the paths `ids` names names a token.
fn all_resolvable(tokens: &TokenInterner, paths: &PathInterner, ids: &[PathId]) -> (r: bool)
    requires
        forall|i: int| 0 <= i < ids@.len() ==> paths.contains_id(#[trigger] ids@[i]),
    ensures
        r == forall|i: int| 0 <= i < ids@.len() ==> resolvable(tokens@, paths@[(#[trigger] ids@[i]).index()]),
{
    let n = ids.len();
    let t = tokens.len();
    let mut i: usize = 0;
    while i < n
        invariant
            n == ids@.len(),
            t == tokens@.len(),
            i <= n,
            forall|j: int| 0 <= j < ids@.len() ==> paths.contains_id(#[trigger] ids@[j]),
            forall|j: int| 0 <= j < i ==> resolvable(tokens@, paths@[(#[trigger] ids@[j]).index()]),
        decreases n - i,
    {
        let segs = paths.resolve(ids[i]).segments();
        let m = segs.len();
        let mut k: usize = 0;
        while k < m
            invariant
                m == segs@.len(),
                t == tokens@.len(),
                k <= m,
                i < n,
                n == ids@.len(),
                forall|j: int| 0 <= j < ids@.len() ==> paths.contains_id(#[trigger] ids@[j]),
                segs@ == paths@[ids@[i as int].index()],
                forall|q: int| 0 <= q < k ==> 0 <= #[trigger] segs@[q].index() < t,
            decreases m - k,
        {
            if segs[k].get() as usize >= t {
                proof {
                    assert(!(0 <= segs@[k as int].index() < tokens@.len()));
                    assert(!resolvable(tokens@, paths@[ids@[i as int].index()]));
                }
                return false;
            }
            k = k + 1;
        }
        i = i + 1;
    }
    true
}

/// The summed depth of the paths `ids` names, when it stays below
/// `u32::MAX`; `None` when it does not.
fn depth_sum(paths: &PathInterner, ids: &[PathId]) -> (r: Option<u64>)
    requires
        forall|i: int| 0 <= i < ids@.len() ==> paths.contains_id(#[trigger] ids@[i]),
    ensures
        r matches Some(s) ==> s == total_depth(paths@, ids@) && s < u32::MAX,
        r is None ==> total_depth(paths@, ids@) >= u32::MAX,
{
    let n = ids.len();
    let mut sum: u64 = 0;
    let mut i: usize = 0;
    while i < n
        invariant
            n == ids@.len(),
            i <= n,
            forall|j: int| 0 <= j < ids@.len() ==> paths.contains_id(#[trigger] ids@[j]),
            sum == total_depth(paths@, ids@.take(i as int)),
            sum < u32::MAX,
        decreases n - i,
    {
        let d = paths.resolve(ids[i]).depth();
        proof {
            assert(ids@.take(i + 1).drop_last() =~= ids@.take(i as int));
        }
        if d as u64 >= 0xffff_ffffu64 - sum {
            proof {
                lemma_total_depth_mono(paths@, ids@, i + 1);
            }
            return None;
        }
        sum = sum + d as u64;
        i = i + 1;
    }
    proof {
        assert(ids@.take(n as int) =~= ids@);
    }
    Some(sum)
}

/// The summed depth never shrinks as more ids are counted.
proof fn lemma_total_depth_mono(paths: Seq<Seq<TokenId>>, ids: Seq<PathId>, k: int)
    requires
        0 <= k <= ids.len(),
    ensures
        total_depth(paths, ids.take(k)) <= total_depth(paths, ids),
    decreases ids.len() - k,
{
    if k < ids.len() {
        lemma_total_depth_mono(paths, ids, k + 1);
        assert(ids.take(k + 1).drop_last() =~= ids.take(k));
    } else {
        assert(ids.take(k) =~= ids);
    }
}

/// Keys of local opinions leave no layer after a nested position.
proof fn lemma_no_nested(keys: Seq<OpinionKey>, l: LayerId)
    requires
        forall|j: int| 0 <= j < keys.len() ==> (#[trigger] keys[j]).nested_arc_kind is None,
    ensures
        nested_position(keys, l) is None,
    decreases keys.len(),
{
    if keys.len() > 0 {
        lemma_no_nested(keys.drop_last(), l);
    }
}

/// The first key of a layer is one of the keys.
proof fn lemma_first_in_layer_local(keys: Seq<OpinionKey>, l: LayerId)
    requires
        forall|j: int| 0 <= j < keys.len() ==> (#[trigger] keys[j]).is_local,
    ensures
        first_in_layer(keys, l) matches Some(k) ==> k.is_local,
    decreases keys.len(),
{
    if keys.len() > 0 {
        lemma_first_in_layer_local(keys.drop_last(), l);
    }
}

/// Local keys put every layer at position 0.
proof fn lemma_local_positions_fit(keys: Seq<OpinionKey>)
    requires
        forall|j: int| 0 <= j < keys.len() ==> (#[trigger] keys[j]).is_local && keys[j].nested_arc_kind is None,
    ensures
        positions_fit(keys),
{
    assert forall|l: LayerId| #[trigger] position_after(keys, keys, l) is Some implies position_after(keys, keys, l)->0 <= u16::MAX by {
        lemma_no_nested(keys, l);
        lemma_first_in_layer_local(keys, l);
    }
}

/// Every local authored-children opinion has a local, direct key.
proof fn lemma_local_children_keys(
    layers: Map<u64, Layer>,
    stack: Seq<LayerId>,
    path: PathId,
    depth: u16,
    i: int,
)
    ensures
        forall|j: int|
            0 <= j < local_children(layers, stack, path, depth, i).len() ==> (#[trigger] local_children(
                layers,
                stack,
                path,
                depth,
                i,
            )[j]).0.is_local && local_children(layers, stack, path, depth, i)[j].0.nested_arc_kind is None,
    decreases i,
{
    if i > 0 {
        lemma_local_children_keys(layers, stack, path, depth, i - 1);
    }
}

/// Whether every child list of `children` names paths of `paths`.
fn children_interned(paths: &PathInterner, children: &ChildrenIndex) -> (r: bool)
    ensures
        r ==> forall|k: PathId| #[trigger]
            children_contents(*children).dom().contains(k) ==> forall|i: int|
                0 <= i < children_contents(*children)[k].len() ==> paths.contains_id(
                    #[trigger] children_contents(*children)[k][i],
                ),
{
    let keys = children_keys(children);
    let n = keys.len();
    let mut i: usize = 0;
    while i < n
        invariant
            n == keys@.len(),
            i <= n,
            keys@.to_set() == children_contents(*children).dom(),
            forall|j: int| 0 <= j < i ==> forall|q: int|
                0 <= q < children_contents(*children)[#[trigger] keys@[j]].len() ==> paths.contains_id(
                    children_contents(*children)[keys@[j]][q],
                ),
        decreases n - i,
    {
        let k = keys[i];
        proof {
            assert(keys@.to_set().contains(k));
        }
        let list = children_get(children, k).unwrap();
        if !all_interned(paths, list.as_slice()) {
            return false;
        }
        i = i + 1;
    }
    proof {
        assert forall|k: PathId| #[trigger] children_contents(*children).dom().contains(k) implies forall|q: int|
            0 <= q < children_contents(*children)[k].len() ==> paths.contains_id(
                #[trigger] children_contents(*children)[k][q],
            ) by {
            assert(keys@.to_set().contains(k));
            let j = choose|j: int| 0 <= j < keys@.len() && keys@[j] == k;
        }
    }
    true
}

/// Filtering keeps a list free of duplicates.
proof fn lemma_filter_distinct(s: Seq<PathId>, pred: spec_fn(PathId) -> bool)
    requires
        s.no_duplicates(),
    ensures
        s.filter(pred).no_duplicates(),
    decreases s.len(),
{
    reveal(Seq::filter);
    if s.len() > 0 {
        let init = s.drop_last();
        assert(init.no_duplicates()) by {
            assert forall|a: int, b: int| 0 <= a < init.len() && 0 <= b < init.len() && a != b implies init[a] != init[b] by {
                assert(init[a] == s[a] && init[b] == s[b]);
            }
        }
        lemma_filter_distinct(init, pred);
        if pred(s.last()) {
            let f = init.filter(pred);
            assert(!f.contains(s.last())) by {
                if f.contains(s.last()) {
                    init.lemma_filter_contains_rev(pred, s.last());
                    let k = choose|k: int| 0 <= k < init.len() && init[k] == s.last();
                    assert(s[k] == s[s.len() - 1]);
                }
            }
            let g = f.push(s.last());
            assert forall|a: int, b: int| 0 <= a < g.len() && 0 <= b < g.len() && a != b implies g[a] != g[b] by {
                if a == g.len() - 1 {
                    assert(f.contains(g[b]));
                } else if b == g.len() - 1 {
                    assert(f.contains(g[a]));
                }
            }
        }
    }
}

/// An increasing list holds each id once.
proof fn lemma_increasing_distinct(s: Seq<PathId>)
    requires
        increasing(s),
    ensures
        s.no_duplicates(),
{
    assert forall|a: int, b: int| 0 <= a < s.len() && 0 <= b < s.len() && a != b implies s[a] != s[b] by {
        if a < b {
            assert(s[a].index() < s[b].index());
        } else {
            assert(s[b].index() < s[a].index());
        }
    }
}

/// The layers of the stack rooted at `root` in a store's layers, strongest
/// first.
pub open spec fn stack_layers(layers: Map<u64, Layer>, root: LayerId) -> Seq<LayerId> {
    gathered(store_graph(layers), root).map_values(|e: crate::layer_stack::StackEntry| e.layer)
}

/// The population a stage is composed over, before deactivation: the prims
/// the stack authors and their ancestors (read in `anc`, the paths after the
/// ancestors were interned), restricted by the mask (read in `masked`, the
/// paths after the mask's ancestors were interned).
pub open spec fn populated(
    layers: Map<u64, Layer>,
    stack: Seq<LayerId>,
    p0: Seq<Seq<TokenId>>,
    gp: Seq<Seq<TokenId>>,
    anc: Seq<Seq<TokenId>>,
    masked: Seq<Seq<TokenId>>,
    mask: Option<PopulationMask>,
    q: PathId,
) -> bool {
    &&& (gathered_prim(layers, stack, p0, gp, q) || exists|x: PathId|
        gathered_prim(layers, stack, p0, gp, x) && #[trigger] is_ancestor(anc, q, x))
    &&& match mask {
        Some(m) => kept_by_mask(masked, m.included@, q),
        None => true,
    }
}

/// `q` is a prim the stack authors, or a place an inherit or specialize
/// arc of an authored prim populates (`p0` the paths before gathering, `gp`
/// after).
pub open spec fn gathered_prim(
    layers: Map<u64, Layer>,
    stack: Seq<LayerId>,
    p0: Seq<Seq<TokenId>>,
    gp: Seq<Seq<TokenId>>,
    q: PathId,
) -> bool {
    authored_in_stack(layers, stack, q) || (0 <= q.index() < gp.len() && crate::expansion::arc_populated(
        p0,
        layers,
        stack,
        gp[q.index()],
    ))
}

/// The `active` opinions of the sources of each prim of a population.
pub open spec fn actives_read(
    layers: Map<u64, Layer>,
    sources: Seq<Seq<OpinionKey>>,
    actives: Seq<Vec<Option<bool>>>,
) -> bool {
    &&& actives.len() == sources.len()
    &&& forall|i: int|
        0 <= i < sources.len() ==> (#[trigger] actives[i])@.len() == sources[i].len() && forall|j: int|
            0 <= j < sources[i].len() ==> actives[i]@[j] == source_flag(layers, sources[i][j], SpecFlag::Active)
}



/// The arc kind of the opinions a path arc brings in.
pub open spec fn path_arc_kind(arc: PathArc) -> ArcKind {
    match arc {
        PathArc::Inherits => ArcKind::Inherits,
        PathArc::Specializes => ArcKind::Specializes,
    }
}

/// The sources the first `k` targets of `a`'s `arc` arcs bring to `p`
/// (targets that name no interned path bring nothing), in target order; the
/// `k`-th target's opinions carry arc-list index `k` and `a`'s namespace depth.
pub open spec fn arc_list_sources(
    layers: Map<u64, Layer>,
    paths: Seq<Seq<TokenId>>,
    stack: Seq<LayerId>,
    a: PathId,
    arc: PathArc,
    p: PathId,
    k: int,
) -> Seq<OpinionKey>
    decreases k,
{
    if k <= 0 {
        Seq::empty()
    } else {
        let prev = arc_list_sources(layers, paths, stack, a, arc, p, k - 1);
        let t = resolved_arc(layers, stack, a, arc)[k - 1];
        if 0 <= t.index() < paths.len() {
            prev + edge_sources(
                layers,
                paths,
                stack,
                a,
                t,
                p,
                edge_kinds(None, path_arc_kind(arc)),
                depth_of(paths[a.index()].len() as int),
                strength_at(k - 1),
            )
        } else {
            prev
        }
    }
}

/// The sources the inherit and specialize arcs of `a` bring to `p`.
pub open spec fn prim_arc_sources(
    layers: Map<u64, Layer>,
    paths: Seq<Seq<TokenId>>,
    stack: Seq<LayerId>,
    a: PathId,
    p: PathId,
) -> Seq<OpinionKey> {
    arc_list_sources(
        layers,
        paths,
        stack,
        a,
        PathArc::Inherits,
        p,
        resolved_arc(layers, stack, a, PathArc::Inherits).len() as int,
    ) + arc_list_sources(
        layers,
        paths,
        stack,
        a,
        PathArc::Specializes,
        p,
        resolved_arc(layers, stack, a, PathArc::Specializes).len() as int,
    )
}

/// The sources the arcs of the first `n` prims bring to `p`, prim by prim.
pub open spec fn arcs_sources(
    layers: Map<u64, Layer>,
    paths: Seq<Seq<TokenId>>,
    stack: Seq<LayerId>,
    prims: Seq<PathId>,
    p: PathId,
    n: int,
) -> Seq<OpinionKey>
    decreases n,
{
    if n <= 0 {
        Seq::empty()
    } else {
        arcs_sources(layers, paths, stack, prims, p, n - 1) + prim_arc_sources(layers, paths, stack, prims[n - 1], p)
    }
}

/// The sources of `p` in a population `prims`: its local sources, then
/// those the inherit and specialize arcs of the prims bring to it.
pub open spec fn composed_sources(
    layers: Map<u64, Layer>,
    stack: Seq<LayerId>,
    paths: Seq<Seq<TokenId>>,
    prims: Seq<PathId>,
    p: PathId,
) -> Seq<OpinionKey> {
    local_sources(layers, stack, p, depth_of(paths[p.index()].len() as int), stack.len() as int) + arcs_sources(
        layers,
        paths,
        stack,
        prims,
        p,
        prims.len() as int,
    )
}

/// `keys` are the composed sources of `p`, sorted strongest first with
/// ties in their order.
pub open spec fn sorted_composed_sources(
    layers: Map<u64, Layer>,
    stack: Seq<LayerId>,
    paths: Seq<Seq<TokenId>>,
    prims: Seq<PathId>,
    p: PathId,
    keys: Seq<OpinionKey>,
) -> bool {
    sorted_keys(composed_sources(layers, stack, paths, prims, p), keys)
}

/// Adds to each row the sources `a`'s `arc` arcs bring to its prim.
fn add_arc_list_sources(
    store: &InMemoryStore,
    stack: &[LayerId],
    a: PathId,
    arc: PathArc,
    prims: &[PathId],
    rows: &mut Vec<Vec<OpinionKey>>,
)
    requires
        old(rows)@.len() == prims@.len(),
        store.paths.contains_id(a),
        forall|j: int| 0 <= j < prims@.len() ==> store.paths.contains_id(#[trigger] prims@[j]),
    ensures
        final(rows)@.len() == prims@.len(),
        forall|j: int|
            0 <= j < prims@.len() ==> #[trigger] final(rows)@[j]@ == old(rows)@[j]@ + arc_list_sources(
                store_layers(*store),
                store.paths@,
                stack@,
                a,
                arc,
                prims@[j],
                resolved_arc(store_layers(*store), stack@, a, arc).len() as int,
            ),
{
    let ghost layers = store_layers(*store);
    let ghost base = rows@;
    let targets = crate::arcs::resolve_path_arc(store, stack, a, arc);
    let kind = match arc {
        PathArc::Inherits => ArcKind::Inherits,
        PathArc::Specializes => ArcKind::Specializes,
    };
    let depth = store.paths.resolve(a).depth();
    let d: u16 = if depth <= 65535 {
        depth as u16
    } else {
        65535
    };
    let m = targets.len();
    let mut k: usize = 0;
    while k < m
        invariant
            m == targets@.len(),
            targets@ == resolved_arc(layers, stack@, a, arc),
            k <= m,
            layers == store_layers(*store),
            kind == path_arc_kind(arc),
            d == depth_of(store.paths@[a.index()].len() as int),
            store.paths.contains_id(a),
            forall|j: int| 0 <= j < prims@.len() ==> store.paths.contains_id(#[trigger] prims@[j]),
            rows@.len() == prims@.len(),
            base.len() == prims@.len(),
            forall|j: int|
                0 <= j < prims@.len() ==> #[trigger] rows@[j]@ == base[j]@ + arc_list_sources(
                    layers,
                    store.paths@,
                    stack@,
                    a,
                    arc,
                    prims@[j],
                    k as int,
                ),
        decreases m - k,
    {
        let t = targets[k];
        let idx: u16 = if k <= 65535 {
            k as u16
        } else {
            65535
        };
        if (t.get() as usize) < store.paths.len() {
            let ghost before = rows@;
            add_edge_sources(store, stack, a, t, kind, None, d, idx, prims, rows);
            proof {
                assert forall|j: int| 0 <= j < prims@.len() implies #[trigger] rows@[j]@ == base[j]@ + arc_list_sources(
                    layers,
                    store.paths@,
                    stack@,
                    a,
                    arc,
                    prims@[j],
                    k + 1,
                ) by {
                    assert(rows@[j]@ == before[j]@ + edge_sources(
                        layers,
                        store.paths@,
                        stack@,
                        a,
                        t,
                        prims@[j],
                        edge_kinds(None, kind),
                        d,
                        idx,
                    ));
                    assert(idx == strength_at(k as int));
                }
            }
        } else {
            proof {
                assert forall|j: int| 0 <= j < prims@.len() implies #[trigger] rows@[j]@ == base[j]@ + arc_list_sources(
                    layers,
                    store.paths@,
                    stack@,
                    a,
                    arc,
                    prims@[j],
                    k + 1,
                ) by {
                    assert(arc_list_sources(layers, store.paths@, stack@, a, arc, prims@[j], k + 1) == arc_list_sources(
                        layers,
                        store.paths@,
                        stack@,
                        a,
                        arc,
                        prims@[j],
                        k as int,
                    ));
                }
            }
        }
        k = k + 1;
    }
}

/// Adds to each row the sources the inherit and specialize arcs of every
/// prim of `prims` bring to its prim.
fn add_all_arc_sources(store: &InMemoryStore, stack: &[LayerId], prims: &[PathId], rows: &mut Vec<Vec<OpinionKey>>)
    requires
        old(rows)@.len() == prims@.len(),
        forall|j: int| 0 <= j < prims@.len() ==> store.paths.contains_id(#[trigger] prims@[j]),
    ensures
        final(rows)@.len() == prims@.len(),
        forall|j: int|
            0 <= j < prims@.len() ==> #[trigger] final(rows)@[j]@ == old(rows)@[j]@ + arcs_sources(
                store_layers(*store),
                store.paths@,
                stack@,
                prims@,
                prims@[j],
                prims@.len() as int,
            ),
{
    let ghost layers = store_layers(*store);
    let ghost base = rows@;
    let n = prims.len();
    let mut i: usize = 0;
    while i < n
        invariant
            n == prims@.len(),
            i <= n,
            layers == store_layers(*store),
            forall|j: int| 0 <= j < prims@.len() ==> store.paths.contains_id(#[trigger] prims@[j]),
            rows@.len() == prims@.len(),
            base.len() == prims@.len(),
            forall|j: int|
                0 <= j < prims@.len() ==> #[trigger] rows@[j]@ == base[j]@ + arcs_sources(
                    layers,
                    store.paths@,
                    stack@,
                    prims@,
                    prims@[j],
                    i as int,
                ),
        decreases n - i,
    {
        let a = prims[i];
        let ghost r0 = rows@;
        add_arc_list_sources(store, stack, a, PathArc::Inherits, prims, rows);
        let ghost r1 = rows@;
        add_arc_list_sources(store, stack, a, PathArc::Specializes, prims, rows);
        proof {
            assert forall|j: int| 0 <= j < prims@.len() implies #[trigger] rows@[j]@ == base[j]@ + arcs_sources(
                layers,
                store.paths@,
                stack@,
                prims@,
                prims@[j],
                i + 1,
            ) by {
                let p = prims@[j];
                assert(r1[j]@ == r0[j]@ + arc_list_sources(
                    layers,
                    store.paths@,
                    stack@,
                    a,
                    PathArc::Inherits,
                    p,
                    resolved_arc(layers, stack@, a, PathArc::Inherits).len() as int,
                ));
                assert(rows@[j]@ == r1[j]@ + arc_list_sources(
                    layers,
                    store.paths@,
                    stack@,
                    a,
                    PathArc::Specializes,
                    p,
                    resolved_arc(layers, stack@, a, PathArc::Specializes).len() as int,
                ));
                assert(prims@[i as int] == a);
                assert(arcs_sources(layers, store.paths@, stack@, prims@, p, i + 1) =~= arcs_sources(
                    layers,
                    store.paths@,
                    stack@,
                    prims@,
                    p,
                    i as int,
                ) + prim_arc_sources(layers, store.paths@, stack@, a, p));
                assert(rows@[j]@ =~= base[j]@ + arcs_sources(layers, store.paths@, stack@, prims@, p, i + 1));
            }
        }
        i = i + 1;
    }
}

/// `sorted` is `keys` sorted strongest first, ties in listed order.
pub open spec fn sorted_keys(keys: Seq<OpinionKey>, sorted: Seq<OpinionKey>) -> bool {
    exists|o: Seq<usize>| #[trigger] strongest_first_order(keys, o) && sorted == keys_at(keys, o)
}


/// The layer-opinion edges of a population: each layer behind a source of
/// each prim.
pub open spec fn opinion_edges(prims: Seq<PathId>, sources: Seq<Seq<OpinionKey>>) -> Set<LayerDependency> {
    Set::new(
        |e: LayerDependency|
            exists|j: int, k: int|
                0 <= j < prims.len() && 0 <= k < sources[j].len() && e == (LayerDependency {
                    layer: (#[trigger] sources[j][k]).layer_id,
                    prim: prims[j],
                }),
    )
}

/// The arc edges of a population: each inherit and specialize target of
/// each prim, recorded against the root layer.
pub open spec fn arc_edges(layers: Map<u64, Layer>, stack: Seq<LayerId>, prims: Seq<PathId>, root: LayerId) -> Set<
    ArcDependency,
> {
    Set::new(
        |e: ArcDependency|
            exists|j: int, arc: PathArc|
                0 <= j < prims.len() && (#[trigger] resolved_arc(layers, stack, prims[j], arc)).contains(e.source)
                    && e.target == prims[j] && e.arc_kind == path_arc_kind(arc) && e.layer == root,
    )
}

/// Records the dependency edges of a composed population.
#[verifier::spinoff_prover]
fn record_dependencies(
    store: &InMemoryStore,
    stack: &[LayerId],
    root: LayerId,
    prims: &[PathId],
    sources: &Vec<Vec<OpinionKey>>,
) -> (r: DependencyMap)
    requires
        prims@.len() == sources@.len(),
    ensures
        r.opinion_seq().to_set() == opinion_edges(prims@, sources@.map_values(|v: Vec<OpinionKey>| v@)),
        r.arc_seq().to_set() == arc_edges(store_layers(*store), stack@, prims@, root),
{
    let ghost srcs = sources@.map_values(|v: Vec<OpinionKey>| v@);
    let ghost layers = store_layers(*store);
    let mut b = DependencyMapBuilder::new();
    let n = prims.len();
    let mut j: usize = 0;
    while j < n
        invariant
            n == prims@.len(),
            n == sources@.len(),
            j <= n,
            srcs == sources@.map_values(|v: Vec<OpinionKey>| v@),
            layers == store_layers(*store),
            b.opinion_members() == opinion_edges(prims@.take(j as int), srcs),
            b.arc_members() == arc_edges(layers, stack@, prims@.take(j as int), root),
        decreases n - j,
    {
        let p = prims[j];
        let row = &sources[j];
        let m = row.len();
        let mut k: usize = 0;
        let ghost before = b.opinion_members();
        while k < m
            invariant
                m == row@.len(),
                k <= m,
                j < n,
                n == prims@.len(),
                n == sources@.len(),
                row == sources@[j as int],
                p == prims@[j as int],
                srcs == sources@.map_values(|v: Vec<OpinionKey>| v@),
                b.opinion_members() == before.union(Set::new(
                    |e: LayerDependency| exists|kk: int| 0 <= kk < k && e == (LayerDependency {
                        layer: (#[trigger] row@[kk]).layer_id,
                        prim: p,
                    }),
                )),
                b.arc_members() == arc_edges(layers, stack@, prims@.take(j as int), root),
            decreases m - k,
        {
            let ghost b0 = b.opinion_members();
            b.add_layer_opinion(LayerDependency { layer: row[k].layer_id, prim: p });
            proof {
                assert(b.opinion_members() =~= before.union(Set::new(
                    |e: LayerDependency| exists|kk: int| 0 <= kk < k + 1 && e == (LayerDependency {
                        layer: (#[trigger] row@[kk]).layer_id,
                        prim: p,
                    }),
                ))) by {
                    assert forall|e: LayerDependency| b.opinion_members().contains(e) <==> before.union(Set::new(
                        |e: LayerDependency| exists|kk: int| 0 <= kk < k + 1 && e == (LayerDependency {
                            layer: (#[trigger] row@[kk]).layer_id,
                            prim: p,
                        }),
                    )).contains(e) by {
                        if e == (LayerDependency { layer: row@[k as int].layer_id, prim: p }) {
                            assert(0 <= k < k + 1);
                        }
                        if exists|kk: int| 0 <= kk < k + 1 && e == (LayerDependency {
                            layer: (#[trigger] row@[kk]).layer_id,
                            prim: p,
                        }) {
                            let kk = choose|kk: int| 0 <= kk < k + 1 && e == (LayerDependency {
                                layer: (#[trigger] row@[kk]).layer_id,
                                prim: p,
                            });
                            if kk < k {
                                assert(exists|k2: int| 0 <= k2 < k && e == (LayerDependency {
                                    layer: (#[trigger] row@[k2]).layer_id,
                                    prim: p,
                                }));
                            }
                        }
                    }
                }
            }
            k = k + 1;
        }
        let inh = crate::arcs::resolve_inherits_for_prim(store, stack, p);
        let spc = crate::arcs::resolve_specializes_for_prim(store, stack, p);
        let ghost arcs_before = b.arc_members();
        let mut t: usize = 0;
        while t < inh.len()
            invariant
                t <= inh@.len(),
                inh@ == resolved_arc(layers, stack@, p, PathArc::Inherits),
                b.opinion_members() == before.union(Set::new(
                    |e: LayerDependency| exists|kk: int| 0 <= kk < m && e == (LayerDependency {
                        layer: (#[trigger] row@[kk]).layer_id,
                        prim: p,
                    }),
                )),
                b.arc_members() == arcs_before.union(Set::new(
                    |e: ArcDependency| inh@.take(t as int).contains(e.source) && e.target == p && e.arc_kind
                        == ArcKind::Inherits && e.layer == root,
                )),
            decreases inh@.len() - t,
        {
            let dep = ArcDependency { source: inh[t], target: p, arc_kind: ArcKind::Inherits, layer: root };
            let ghost a0 = b.arc_members();
            b.add_arc(dep);
            proof {
                assert forall|e: ArcDependency| #[trigger] b.arc_members().contains(e) <==> (arcs_before.contains(e) || (inh@.take(t + 1).contains(e.source) && e.target == p && e.arc_kind
                    == ArcKind::Inherits && e.layer == root)) by {
                    if e.source == inh@[t as int] && e.target == p && e.arc_kind == ArcKind::Inherits && e.layer == root {
                        assert(e == dep);
                    }
                    if e == dep {
                        assert(inh@.take(t + 1)[t as int] == e.source);
                    }
                    if inh@.take(t + 1).contains(e.source) && e != dep && e.target == p && e.arc_kind == ArcKind::Inherits && e.layer == root {
                        let q = choose|q: int| 0 <= q < t + 1 && #[trigger] inh@.take(t + 1)[q] == e.source;
                        if q == t {
                            assert(e == dep);
                        }
                        assert(inh@.take(t as int)[q] == e.source);
                        assert(a0.contains(e));
                    }
                    if a0.contains(e) && !arcs_before.contains(e) {
                        let q = choose|q: int| 0 <= q < t && #[trigger] inh@.take(t as int)[q] == e.source;
                        assert(inh@.take(t + 1)[q] == e.source);
                    }
                }
                assert(inh@.take(t + 1) =~= inh@.take(t as int).push(inh@[t as int]));
                assert forall|x: PathId| inh@.take(t + 1).contains(x) <==> (inh@.take(t as int).contains(x) || x == inh@[t as int]) by {
                    if inh@.take(t + 1).contains(x) {
                        let q = choose|q: int| 0 <= q < t + 1 && #[trigger] inh@.take(t + 1)[q] == x;
                        if q < t {
                            assert(inh@.take(t as int)[q] == x);
                        }
                    }
                    if x == inh@[t as int] {
                        assert(inh@.take(t + 1)[t as int] == x);
                    }
                    if inh@.take(t as int).contains(x) {
                        let q = choose|q: int| 0 <= q < t && #[trigger] inh@.take(t as int)[q] == x;
                        assert(inh@.take(t + 1)[q] == x);
                    }
                }
                assert(b.arc_members() =~= arcs_before.union(Set::new(
                    |e: ArcDependency| inh@.take(t + 1).contains(e.source) && e.target == p && e.arc_kind
                        == ArcKind::Inherits && e.layer == root,
                )));
            }
            t = t + 1;
        }
        let ghost arcs_mid = b.arc_members();
        let mut t: usize = 0;
        while t < spc.len()
            invariant
                t <= spc@.len(),
                spc@ == resolved_arc(layers, stack@, p, PathArc::Specializes),
                b.opinion_members() == before.union(Set::new(
                    |e: LayerDependency| exists|kk: int| 0 <= kk < m && e == (LayerDependency {
                        layer: (#[trigger] row@[kk]).layer_id,
                        prim: p,
                    }),
                )),
                b.arc_members() == arcs_mid.union(Set::new(
                    |e: ArcDependency| spc@.take(t as int).contains(e.source) && e.target == p && e.arc_kind
                        == ArcKind::Specializes && e.layer == root,
                )),
            decreases spc@.len() - t,
        {
            let dep = ArcDependency { source: spc[t], target: p, arc_kind: ArcKind::Specializes, layer: root };
            let ghost a0 = b.arc_members();
            b.add_arc(dep);
            proof {
                assert forall|e: ArcDependency| #[trigger] b.arc_members().contains(e) <==> (arcs_mid.contains(e) || (spc@.take(t + 1).contains(e.source) && e.target == p && e.arc_kind
                    == ArcKind::Specializes && e.layer == root)) by {
                    if e.source == spc@[t as int] && e.target == p && e.arc_kind == ArcKind::Specializes && e.layer == root {
                        assert(e == dep);
                    }
                    if e == dep {
                        assert(spc@.take(t + 1)[t as int] == e.source);
                    }
                    if spc@.take(t + 1).contains(e.source) && e != dep && e.target == p && e.arc_kind == ArcKind::Specializes && e.layer == root {
                        let q = choose|q: int| 0 <= q < t + 1 && #[trigger] spc@.take(t + 1)[q] == e.source;
                        if q == t {
                            assert(e == dep);
                        }
                        assert(spc@.take(t as int)[q] == e.source);
                        assert(a0.contains(e));
                    }
                    if a0.contains(e) && !arcs_mid.contains(e) {
                        let q = choose|q: int| 0 <= q < t && #[trigger] spc@.take(t as int)[q] == e.source;
                        assert(spc@.take(t + 1)[q] == e.source);
                    }
                }
                assert(spc@.take(t + 1) =~= spc@.take(t as int).push(spc@[t as int]));
                assert forall|x: PathId| spc@.take(t + 1).contains(x) <==> (spc@.take(t as int).contains(x) || x == spc@[t as int]) by {
                    if spc@.take(t + 1).contains(x) {
                        let q = choose|q: int| 0 <= q < t + 1 && #[trigger] spc@.take(t + 1)[q] == x;
                        if q < t {
                            assert(spc@.take(t as int)[q] == x);
                        }
                    }
                    if x == spc@[t as int] {
                        assert(spc@.take(t + 1)[t as int] == x);
                    }
                    if spc@.take(t as int).contains(x) {
                        let q = choose|q: int| 0 <= q < t && #[trigger] spc@.take(t as int)[q] == x;
                        assert(spc@.take(t + 1)[q] == x);
                    }
                }
                assert(b.arc_members() =~= arcs_mid.union(Set::new(
                    |e: ArcDependency| spc@.take(t + 1).contains(e.source) && e.target == p && e.arc_kind
                        == ArcKind::Specializes && e.layer == root,
                )));
            }
            t = t + 1;
        }
        proof {
            assert(inh@.take(inh@.len() as int) =~= inh@);
            assert(spc@.take(spc@.len() as int) =~= spc@);
            assert(prims@.take(j + 1) =~= prims@.take(j as int).push(p));
            assert(srcs[j as int] == row@);
            assert(b.opinion_members() =~= opinion_edges(prims@.take(j + 1), srcs)) by {
                assert forall|e: LayerDependency| b.opinion_members().contains(e) <==> opinion_edges(prims@.take(j + 1), srcs).contains(e) by {
                    if opinion_edges(prims@.take(j + 1), srcs).contains(e) {
                        let (jj, kk) = choose|jj: int, kk: int|
                            0 <= jj < prims@.take(j + 1).len() && 0 <= kk < srcs[jj].len() && e == (LayerDependency {
                                layer: (#[trigger] srcs[jj][kk]).layer_id,
                                prim: prims@.take(j + 1)[jj],
                            });
                        if jj < j {
                            assert(prims@.take(j as int)[jj] == prims@.take(j + 1)[jj]);
                            assert(opinion_edges(prims@.take(j as int), srcs).contains(e));
                        } else {
                            assert(row@[kk] == srcs[jj][kk]);
                        }
                    }
                    if before.contains(e) {
                        let (jj, kk) = choose|jj: int, kk: int|
                            0 <= jj < prims@.take(j as int).len() && 0 <= kk < srcs[jj].len() && e == (LayerDependency {
                                layer: (#[trigger] srcs[jj][kk]).layer_id,
                                prim: prims@.take(j as int)[jj],
                            });
                        assert(prims@.take(j as int)[jj] == prims@.take(j + 1)[jj]);
                    }
                    if exists|kk: int| 0 <= kk < m && e == (LayerDependency {
                        layer: (#[trigger] row@[kk]).layer_id,
                        prim: p,
                    }) {
                        let kk = choose|kk: int| 0 <= kk < m && e == (LayerDependency {
                            layer: (#[trigger] row@[kk]).layer_id,
                            prim: p,
                        });
                        assert(srcs[j as int][kk] == row@[kk]);
                        assert(prims@.take(j + 1)[j as int] == p);
                    }
                }
            }
            assert(b.arc_members() =~= arc_edges(layers, stack@, prims@.take(j + 1), root)) by {
                assert forall|e: ArcDependency| b.arc_members().contains(e) <==> arc_edges(layers, stack@, prims@.take(j + 1), root).contains(e) by {
                    if arc_edges(layers, stack@, prims@.take(j + 1), root).contains(e) {
                        let (jj, arc) = choose|jj: int, arc: PathArc|
                            0 <= jj < prims@.take(j + 1).len() && (#[trigger] resolved_arc(layers, stack@, prims@.take(j + 1)[jj], arc)).contains(e.source)
                                && e.target == prims@.take(j + 1)[jj] && e.arc_kind == path_arc_kind(arc) && e.layer == root;
                        if jj < j {
                            assert(prims@.take(j as int)[jj] == prims@.take(j + 1)[jj]);
                            assert(arc_edges(layers, stack@, prims@.take(j as int), root).contains(e));
                        } else {
                            assert(prims@.take(j + 1)[jj] == p);
                            match arc {
                                PathArc::Inherits => {},
                                PathArc::Specializes => {},
                            }
                        }
                    }
                    if arcs_before.contains(e) {
                        let (jj, arc) = choose|jj: int, arc: PathArc|
                            0 <= jj < prims@.take(j as int).len() && (#[trigger] resolved_arc(layers, stack@, prims@.take(j as int)[jj], arc)).contains(e.source)
                                && e.target == prims@.take(j as int)[jj] && e.arc_kind == path_arc_kind(arc) && e.layer == root;
                        assert(prims@.take(j as int)[jj] == prims@.take(j + 1)[jj]);
                    }
                    if inh@.contains(e.source) && e.target == p && e.arc_kind == ArcKind::Inherits && e.layer == root {
                        assert(prims@.take(j + 1)[j as int] == p);
                        assert(resolved_arc(layers, stack@, prims@.take(j + 1)[j as int], PathArc::Inherits).contains(e.source));
                    }
                    if spc@.contains(e.source) && e.target == p && e.arc_kind == ArcKind::Specializes && e.layer == root {
                        assert(prims@.take(j + 1)[j as int] == p);
                        assert(resolved_arc(layers, stack@, prims@.take(j + 1)[j as int], PathArc::Specializes).contains(e.source));
                    }
                }
            }
        }
        j = j + 1;
    }
    proof {
        assert(prims@.take(n as int) =~= prims@);
    }
    b.finish()
}

/// A composed stage: its prims in ascending id order, the sources of each
/// (strongest first), and the children index.
pub struct Stage {
    /// The populated prims that survive deactivation, in ascending id order.
    pub prims: Vec<PathId>,
    /// The sources of each prim of `prims`, strongest first.
    pub sources: Vec<Vec<OpinionKey>>,
    /// The children of each prim, ordered.
    pub children: ChildrenIndex,
    /// The dependency edges recorded while composing, when asked for.
    pub dependencies: Option<DependencyMap>,
}

/// The index of `p` in `prims`, if it is there.
fn position_of(prims: &[PathId], p: PathId) -> (r: Option<usize>)
    ensures
        match r {
            Some(i) => i < prims@.len() && prims@[i as int] == p,
            None => !prims@.contains(p),
        },
{
    let n = prims.len();
    let mut i: usize = 0;
    while i < n
        invariant
            n == prims@.len(),
            i <= n,
            forall|j: int| 0 <= j < i ==> prims@[j] != p,
        decreases n - i,
    {
        if prims[i] == p {
            return Some(i);
        }
        i = i + 1;
    }
    None
}

/// Composes the stage rooted at `root`: gathers the layer stack; populates
/// the prims it authors and the places their inherit and specialize arcs
/// bring in, with their ancestors (under the options' mask); indexes their
/// children; gives each prim its local sources and the sources the inherit
/// and specialize arcs bring to it, sorted strongest first; orders the
/// children by the authored children and `reorder nameChildren` opinions;
/// drops the children that only unselected variants introduce; and drops
/// deactivated prims with their subtrees. The interners grow by the paths
/// interned on the way. `None` when a prim or mask id does not name an
/// interned path whose segments name tokens, or when the path interner
/// would run out of 32-bit ids.
#[verifier::spinoff_prover]
pub fn compose_stage(store: &mut InMemoryStore, root: LayerId, options: StageOptions) -> (r: Option<Stage>)
    ensures
        store_layers(*final(store)) == store_layers(*old(store)),
        final(store).tokens == old(store).tokens,
        extends(final(store).paths@, old(store).paths@),
        r matches Some(st) ==> (st.dependencies is Some <==> options.with_dependencies),
        r matches Some(st) ==> {
            let layers = store_layers(*old(store));
            let stack = stack_layers(layers, root);
            &&& st.prims@.len() == st.sources@.len()
            &&& st.prims@.no_duplicates()
            &&& exists|gp: Seq<Seq<TokenId>>, anc: Seq<Seq<TokenId>>, masked: Seq<Seq<TokenId>>, pop: Seq<PathId>, srcs: Seq<Seq<OpinionKey>>, actives: Seq<Vec<Option<bool>>>|
                #![trigger extends(anc, gp), extends(masked, anc), increasing(pop), actives_read(layers, srcs, actives)]
                {
                    &&& extends(gp, old(store).paths@)
                    &&& extends(anc, gp)
                    &&& extends(masked, anc)
                    &&& extends(final(store).paths@, masked)
                    &&& increasing(pop)
                    &&& (forall|q: PathId| #[trigger] pop.contains(q) <==> populated(layers, stack, old(store).paths@, gp, anc, masked, options.mask, q))
                    &&& srcs.len() == pop.len()
                    &&& (forall|j: int| 0 <= j < pop.len() ==> sorted_composed_sources(layers, stack, final(store).paths@, pop, #[trigger] pop[j], srcs[j]))
                    &&& actives_read(layers, srcs, actives)
                    &&& (st.dependencies matches Some(d) ==> d.opinion_seq().to_set() == opinion_edges(pop, srcs)
                        && d.arc_seq().to_set() == arc_edges(layers, stack, pop, root))
                    &&& st.prims@ == pop.filter(survives(final(store).paths@, pop, actives))
                    &&& forall|j: int|
                        0 <= j < st.prims@.len() ==> sorted_composed_sources(
                            layers,
                            stack,
                            final(store).paths@,
                            pop,
                            #[trigger] st.prims@[j],
                            st.sources@[j]@,
                        )
                }
        },
{
    let ghost layers = store_layers(*store);
    let ghost p0 = store.paths@;
    proof {
        assert(p0.subrange(0, p0.len() as int) =~= p0);
    }
    let stack = store.gather_stack(root);
    proof {
        assert(stack.layers@ =~= stack_layers(layers, root));
    }
    let authored_set = stack_prim_paths(store, stack.layers.as_slice());
    let authored_ids = authored_set.to_vec();
    if !all_interned(&store.paths, authored_ids.as_slice()) {
        return None;
    }
    proof {
        assert forall|r: PathId|
            #![trigger authored_in_stack(store_layers(*store), stack.layers@, r)]
            authored_in_stack(store_layers(*store), stack.layers@, r) implies store.paths.contains_id(r) by {
            assert(authored_set@.contains(r));
            assert(authored_ids@.to_set().contains(r));
            let k = choose|k: int| 0 <= k < authored_ids@.len() && authored_ids@[k] == r;
        }
    }
    let mut set = match crate::expansion::gather_populated_paths(store, stack.layers.as_slice()) {
        Some(g) => g,
        None => {
            return None;
        },
    };
    let ghost gp = store.paths@;
    proof {
        assert(gp.subrange(0, gp.len() as int) =~= gp);
    }
    let ids = set.to_vec();
    if !all_interned(&store.paths, ids.as_slice()) {
        return None;
    }
    match depth_sum(&store.paths, ids.as_slice()) {
        None => {
            return None;
        },
        Some(d) => {
            let plen = store.paths.len() as u64;
            if plen >= 0xffff_ffffu64 || d >= 0xffff_ffffu64 - plen {
                return None;
            }
        },
    }
    proof {
        assert forall|x: PathId| #[trigger] set@.contains(x) implies store.paths.contains_id(x) by {
            assert(ids@.to_set().contains(x));
            let k = choose|k: int| 0 <= k < ids@.len() && ids@[k] == x;
        }
    }
    let ghost set0 = set@;
    add_ancestor_paths(&mut store.paths, &mut set);
    let ghost anc = store.paths@;
    proof {
        assert(anc.subrange(0, anc.len() as int) =~= anc);
        lemma_extends_trans(anc, gp, p0);
    }
    let ghost set1 = set@;
    let mask: Option<&PopulationMask> = match &options.mask {
        Some(m) => Some(m),
        None => None,
    };
    match mask {
        Some(m) => {
            if !all_interned(&store.paths, m.included.as_slice()) {
                return None;
            }
            match depth_sum(&store.paths, m.included.as_slice()) {
                None => {
                    return None;
                },
                Some(d) => {
                    let plen = store.paths.len() as u64;
                    if plen >= 0xffff_fffeu64 || d >= 0xffff_fffeu64 - plen {
                        return None;
                    }
                },
            }
        },
        None => {},
    }
    apply_population_mask(&mut store.paths, &mut set, mask);
    let ghost masked = store.paths@;
    proof {
        lemma_extends_trans(masked, anc, p0);
        assert(masked.subrange(0, masked.len() as int) =~= masked);
    }
    let prims = set.to_vec();
    if !all_interned(&store.paths, prims.as_slice()) {
        return None;
    }
    if !all_resolvable(&store.tokens, &store.paths, prims.as_slice()) {
        return None;
    }
    if prims.len() >= 0xffff_ffffusize || store.paths.len() >= 0xffff_ffffusize - prims.len() {
        return None;
    }
    let mut children = build_children_index(&store.tokens, &mut store.paths, prims.as_slice());
    proof {
        lemma_extends_trans(store.paths@, masked, p0);
    }
    if !all_interned(&store.paths, prims.as_slice()) {
        return None;
    }
    if !children_interned(&store.paths, &children) {
        return None;
    }
    proof {
        lemma_increasing_distinct(prims@);
    }
    let mut authored = OpinionsByPrim::new();
    let mut orders = OpinionsByPrim::new();
    let mut raw = add_local_opinions(&*store, stack.layers.as_slice(), prims.as_slice(), &mut authored, &mut orders);
    let ghost local_rows = raw@;
    // Add the opinions the inherit and specialize arcs bring in.
    add_all_arc_sources(&*store, stack.layers.as_slice(), prims.as_slice(), &mut raw);
    // Sort the sources of each prim strongest first.
    let mut sources: Vec<Vec<OpinionKey>> = Vec::new();
    let n = raw.len();
    let mut i: usize = 0;
    while i < n
        invariant
            n == raw@.len(),
            n == prims@.len(),
            i <= n,
            sources@.len() == i,
            forall|j: int| 0 <= j < i ==> #[trigger] sorted_keys(raw@[j]@, sources@[j]@),
        decreases n - i,
    {
        let mut keys = crate::listop::concat(raw[i].as_slice(), &[]);
        sort_strongest_first(&mut keys);
        sources.push(keys);
        proof {
            assert(sources@[i as int] == keys);
        }
        i = i + 1;
    }
    proof {
        assert forall|k: PathId| #[trigger] opinions_contents(authored).dom().contains(k) implies positions_fit(
            opinion_keys(opinions_contents(authored)[k]),
        ) by {
            let c = opinions_contents(authored)[k];
            assert(opinion_list(authored, k) == opinion_views(c));
            let keys = opinion_keys(c);
            if prims@.contains(k) {
                let j = choose|j: int| 0 <= j < prims@.len() && prims@[j] == k;
                let d = depth_of(store.paths@[k.index()].len() as int);
                lemma_local_children_keys(layers, stack.layers@, k, d, stack.layers@.len() as int);
                assert forall|q: int| 0 <= q < keys.len() implies (#[trigger] keys[q]).is_local && keys[q].nested_arc_kind is None by {
                    assert(keys[q] == c[q].0);
                    assert(opinion_views(c)[q].0 == c[q].0);
                }
            } else {
                assert(opinion_views(c).len() == 0);
            }
            lemma_local_positions_fit(keys);
        }
    }
    apply_child_order(&store.paths, &authored, &orders, &mut children);
    // Drop the children only unselected variants introduce.
    let mut staged = Stage { prims, sources, children, dependencies: None };
    crate::variants::filter_variant_children(&*store, &mut staged);
    let Stage { prims, sources, mut children, dependencies: _ } = staged;
    let ghost children_mid = children;
    let kept = prune_deactivated_in_store(&*store, prims.as_slice(), sources.as_slice(), &mut children);
    let ghost srcs = sources@.map_values(|v: Vec<OpinionKey>| v@);
    let ghost actives = choose|actives: Seq<Vec<Option<bool>>>|
        {
            &&& actives.len() == prims@.len()
            &&& forall|i: int|
                0 <= i < prims@.len() ==> (#[trigger] actives[i])@.len() == sources@[i]@.len() && forall|j: int|
                    0 <= j < sources@[i]@.len() ==> actives[i]@[j] == source_flag(
                        store_layers(*store),
                        sources@[i]@[j],
                        SpecFlag::Active,
                    )
            &&& kept@ == prims@.filter(survives(store.paths@, prims@, actives))
            &&& forall|k: PathId| #[trigger]
                children_contents(children).dom().contains(k) <==> (children_contents(
                    children_mid,
                ).dom().contains(k) && !crate::compose::pruned(store.paths@, prims@, actives, k))
            &&& forall|k: PathId| #[trigger]
                children_contents(children).dom().contains(k) ==> children_contents(
                    children,
                )[k] == children_contents(children_mid)[k].filter(survives(store.paths@, prims@, actives))
        };
    proof {
        assert forall|q: int| 0 <= q < kept@.len() implies prims@.contains(#[trigger] kept@[q]) by {
            let pred = survives(store.paths@, prims@, actives);
            assert(prims@.filter(pred).contains(kept@[q]));
            prims@.lemma_filter_contains_rev(pred, kept@[q]);
        }
    }
    // The sources of the kept prims.
    let mut kept_sources: Vec<Vec<OpinionKey>> = Vec::new();
    let m = kept.len();
    let mut k: usize = 0;
    while k < m
        invariant
            m == kept@.len(),
            k <= m,
            kept_sources@.len() == k,
            n == prims@.len(),
            sources@.len() == n,
            forall|q: int| 0 <= q < kept@.len() ==> prims@.contains(#[trigger] kept@[q]),
            forall|j: int| 0 <= j < k ==> exists|a: int| 0 <= a < n && prims@[a] == kept@[j] && (#[trigger] kept_sources@[j])@ == sources@[a]@,
        decreases m - k,
    {
        let a = position_of(prims.as_slice(), kept[k]).unwrap();
        let copy = crate::listop::concat(sources[a].as_slice(), &[]);
        kept_sources.push(copy);
        proof {
            assert(kept_sources@[k as int]@ == sources@[a as int]@);
        }
        k = k + 1;
    }
    proof {
        let stk = stack.layers@;
        let fp = store.paths@;
        assert forall|j: int| 0 <= j < kept@.len() implies sorted_composed_sources(
            layers,
            stk,
            fp,
            prims@,
            #[trigger] kept@[j],
            kept_sources@[j]@,
        ) by {
            let a = choose|a: int| 0 <= a < n && prims@[a] == kept@[j] && kept_sources@[j]@ == sources@[a]@;
            assert(sorted_keys(raw@[a]@, sources@[a]@));
            assert(local_rows[a]@ == local_sources(layers, stk, prims@[a], depth_of(fp[prims@[a].index()].len() as int), stk.len() as int));
            assert(raw@[a]@ == composed_sources(layers, stk, fp, prims@, prims@[a]));
        }
        assert forall|q: PathId| #[trigger] prims@.contains(q) <==> populated(layers, stk, p0, gp, anc, masked, options.mask, q) by {
            assert(prims@.contains(q) <==> set@.contains(q)) by {
                assert(prims@.to_set().contains(q) <==> prims@.contains(q));
            }
            assert(set0.contains(q) <==> gathered_prim(layers, stk, p0, gp, q));
            assert(set1.contains(q) <==> (set0.contains(q) || exists|x: PathId| set0.contains(x) && is_ancestor(anc, q, x)));
            if exists|x: PathId| gathered_prim(layers, stk, p0, gp, x) && #[trigger] is_ancestor(anc, q, x) {
                let x = choose|x: PathId| gathered_prim(layers, stk, p0, gp, x) && #[trigger] is_ancestor(anc, q, x);
                assert(set0.contains(x));
            }
            if exists|x: PathId| set0.contains(x) && is_ancestor(anc, q, x) {
                let x = choose|x: PathId| set0.contains(x) && is_ancestor(anc, q, x);
                assert(gathered_prim(layers, stk, p0, gp, x));
            }
        }
        assert(srcs.len() == prims@.len());
        assert forall|j: int| 0 <= j < prims@.len() implies sorted_composed_sources(layers, stk, fp, prims@, #[trigger] prims@[j], srcs[j]) by {
            assert(srcs[j] == sources@[j]@);
            assert(sorted_keys(raw@[j]@, sources@[j]@));
            assert(local_rows[j]@ == local_sources(layers, stk, prims@[j], depth_of(fp[prims@[j].index()].len() as int), stk.len() as int));
            assert(raw@[j]@ == composed_sources(layers, stk, fp, prims@, prims@[j]));
        }
        assert(kept@.no_duplicates()) by {
            let pred = survives(store.paths@, prims@, actives);
            lemma_increasing_distinct(prims@);
            assert forall|a: int, b: int| 0 <= a < kept@.len() && 0 <= b < kept@.len() && a != b implies kept@[a] != kept@[b] by {
                lemma_filter_distinct(prims@, pred);
            }
        }
        assert(actives_read(layers, srcs, actives)) by {
            assert forall|i: int| 0 <= i < srcs.len() implies (#[trigger] actives[i])@.len() == srcs[i].len() && forall|j: int|
                0 <= j < srcs[i].len() ==> actives[i]@[j] == source_flag(layers, srcs[i][j], SpecFlag::Active) by {
                assert(srcs[i] == sources@[i]@);
            }
        }
    }
    let dependencies = if options.with_dependencies {
        Some(record_dependencies(&*store, stack.layers.as_slice(), root, prims.as_slice(), &sources))
    } else {
        None
    };
    Some(Stage { prims: kept, sources: kept_sources, children, dependencies })
}

/// The strongest defining specifier (`def` or `class`) among the specs
/// behind `sources` (strongest first), if any.
pub open spec fn defining_specifier(layers: Map<u64, Layer>, sources: Seq<OpinionKey>) -> Option<Specifier>
    decreases sources.len(),
{
    if sources.len() == 0 {
        None
    } else {
        match source_spec(layers, sources[0]) {
            Some(spec) => match spec.specifier {
                Some(Specifier::Def) => Some(Specifier::Def),
                Some(Specifier::Class) => Some(Specifier::Class),
                _ => defining_specifier(layers, sources.drop_first()),
            },
            None => defining_specifier(layers, sources.drop_first()),
        }
    }
}

impl Stage {
    /// Whether `p` is a prim of the stage.
    pub fn has_prim(&self, p: PathId) -> (r: bool)
        ensures
            r == self.prims@.contains(p),
    {
        position_of(self.prims.as_slice(), p).is_some()
    }

    /// The sources of prim `p`, strongest first; `None` when `p` is not a
    /// prim of the stage.
    pub fn sources_of(&self, p: PathId) -> (r: Option<&Vec<OpinionKey>>)
        ensures
            r is Some <==> self.prims@.contains(p) && self.prims@.len() == self.sources@.len(),
            r matches Some(v) ==> exists|i: int| 0 <= i < self.prims@.len() && self.prims@[i] == p && *v == self.sources@[i],
    {
        if self.prims.len() != self.sources.len() {
            return None;
        }
        match position_of(self.prims.as_slice(), p) {
            Some(i) => Some(&self.sources[i]),
            None => None,
        }
    }

    /// The `(layer, spec path)` of each source of prim `p`, strongest first.
    pub fn prim_stack(&self, p: PathId) -> (r: Option<Vec<(LayerId, PathId)>>)
        ensures
            r is Some <==> self.prims@.contains(p) && self.prims@.len() == self.sources@.len(),
            r matches Some(v) ==> exists|i: int|
                0 <= i < self.prims@.len() && self.prims@[i] == p && v@.len() == self.sources@[i]@.len() && forall|j: int|
                    0 <= j < v@.len() ==> #[trigger] v@[j] == (self.sources@[i]@[j].layer_id, self.sources@[i]@[j].spec_path),
    {
        match self.sources_of(p) {
            Some(keys) => {
                let mut out: Vec<(LayerId, PathId)> = Vec::new();
                let n = keys.len();
                let mut j: usize = 0;
                while j < n
                    invariant
                        n == keys@.len(),
                        j <= n,
                        out@.len() == j,
                        forall|q: int| 0 <= q < j ==> #[trigger] out@[q] == (keys@[q].layer_id, keys@[q].spec_path),
                    decreases n - j,
                {
                    out.push((keys[j].layer_id, keys[j].spec_path));
                    j = j + 1;
                }
                Some(out)
            },
            None => None,
        }
    }

    /// The ordered children of prim `p`, if it has any.
    pub fn children_of(&self, p: PathId) -> (r: Option<&Vec<PathId>>)
        ensures
            r is Some <==> children_contents(self.children).dom().contains(p),
            r matches Some(v) ==> v@ == children_contents(self.children)[p],
    {
        children_get(&self.children, p)
    }

    /// `p` is a prim whose resolved specifier is defining (`def` or
    /// `class`).
    pub fn is_defined(&self, p: PathId, store: &InMemoryStore) -> (r: bool)
        ensures
            r ==> exists|i: int|
                0 <= i < self.prims@.len() && self.prims@[i] == p && defining_specifier(
                    store_layers(*store),
                    self.sources@[i]@,
                ) is Some,
            self.prims@.no_duplicates() && self.prims@.len() == self.sources@.len() ==> (r <==> exists|i: int|
                0 <= i < self.prims@.len() && self.prims@[i] == p && defining_specifier(
                    store_layers(*store),
                    self.sources@[i]@,
                ) is Some),
    {
        proof {
            lemma_unique_prim(self.prims@, p);
        }
        let r = match self.resolve_specifier(p, store) {
            Some(Specifier::Def) => true,
            Some(Specifier::Class) => true,
            _ => false,
        };
        proof {
            assert forall|i: int| 0 <= i < self.prims@.len() && self.prims@[i] == p implies (defining_specifier(
                store_layers(*store),
                self.sources@[i]@,
            ) is Some ==> defining_specifier(store_layers(*store), self.sources@[i]@) == Some(Specifier::Def)
                || defining_specifier(store_layers(*store), self.sources@[i]@) == Some(Specifier::Class)) by {
                lemma_defining_kinds(store_layers(*store), self.sources@[i]@);
            }
        }
        r
    }

    /// `p` is a prim whose resolved specifier is `class`.
    pub fn is_abstract(&self, p: PathId, store: &InMemoryStore) -> (r: bool)
        ensures
            r ==> exists|i: int|
                0 <= i < self.prims@.len() && self.prims@[i] == p && defining_specifier(
                    store_layers(*store),
                    self.sources@[i]@,
                ) == Some(Specifier::Class),
            self.prims@.no_duplicates() && self.prims@.len() == self.sources@.len() ==> (r <==> exists|i: int|
                0 <= i < self.prims@.len() && self.prims@[i] == p && defining_specifier(
                    store_layers(*store),
                    self.sources@[i]@,
                ) == Some(Specifier::Class)),
    {
        proof {
            lemma_unique_prim(self.prims@, p);
        }
        match self.resolve_specifier(p, store) {
            Some(Specifier::Class) => true,
            _ => false,
        }
    }

    /// The resolved specifier of prim `p`: the strongest defining opinion
    /// (`def` or `class`), else `over`; `None` when `p` is not a prim.
    pub fn resolve_specifier(&self, p: PathId, store: &InMemoryStore) -> (r: Option<Specifier>)
        ensures
            r is Some <==> self.prims@.contains(p) && self.prims@.len() == self.sources@.len(),
            r matches Some(sp) ==> exists|i: int|
                0 <= i < self.prims@.len() && self.prims@[i] == p && sp == match defining_specifier(
                    store_layers(*store),
                    self.sources@[i]@,
                ) {
                    Some(d) => d,
                    None => Specifier::Over,
                },
    {
        let keys = match self.sources_of(p) {
            Some(k) => k,
            None => {
                return None;
            },
        };
        let ghost layers = store_layers(*store);
        let n = keys.len();
        let mut i: usize = n;
        let mut found: Option<Specifier> = None;
        proof {
            assert(keys@.subrange(n as int, n as int) =~= Seq::<OpinionKey>::empty());
        }
        while i > 0
            invariant
                n == keys@.len(),
                i <= n,
                layers == store_layers(*store),
                found == defining_specifier(layers, keys@.subrange(i as int, n as int)),
            decreases i,
        {
            i = i - 1;
            let ghost sub = keys@.subrange(i as int, n as int);
            proof {
                assert(sub[0] == keys@[i as int]);
                assert(sub.drop_first() =~= keys@.subrange(i + 1, n as int));
            }
            match store.layer(keys[i].layer_id) {
                Some(layer) => match layer.prim(keys[i].spec_path) {
                    Some(spec) => match spec.specifier {
                        Some(Specifier::Def) => {
                            found = Some(Specifier::Def);
                        },
                        Some(Specifier::Class) => {
                            found = Some(Specifier::Class);
                        },
                        _ => {},
                    },
                    None => {},
                },
                None => {},
            }
        }
        proof {
            assert(keys@.subrange(0, n as int) =~= keys@);
        }
        match found {
            Some(d) => Some(d),
            None => Some(Specifier::Over),
        }
    }

    /// The strongest scalar opinion on `field` of prim `p` (a value block
    /// gives `None`); `None` as well when `p` is not a prim.
    pub fn resolve_field<'a>(&self, store: &'a InMemoryStore, p: PathId, field: TokenId) -> (r: Option<&'a Value>)
        ensures
            r is Some ==> self.prims@.contains(p),
            forall|i: int|
                0 <= i < self.prims@.len() && self.prims@[i] == p && self.prims@.len() == self.sources@.len()
                    && self.prims@.no_duplicates() ==> match strongest_value(
                    store_layers(*store),
                    #[trigger] self.sources@[i]@,
                    field,
                ) {
                    Some(FieldValue::Value(Value::Blocked)) => r is None,
                    Some(FieldValue::Value(v)) => r == Some(&v),
                    _ => r is None,
                },
    {
        match self.sources_of(p) {
            Some(keys) => {
                proof {
                    lemma_unique_prim(self.prims@, p);
                }
                resolve_scalar(store, keys.as_slice(), field)
            },
            None => None,
        }
    }

    /// The token list resolved for `field` of prim `p` (when its strongest
    /// opinion is a token list edit).
    pub fn resolve_token_list(&self, store: &InMemoryStore, p: PathId, field: TokenId) -> (r: Option<Vec<TokenId>>)
        ensures
            r is Some ==> self.prims@.contains(p),
            forall|i: int|
                0 <= i < self.prims@.len() && self.prims@[i] == p && self.prims@.len() == self.sources@.len()
                    && self.prims@.no_duplicates() ==> match strongest_value(
                    store_layers(*store),
                    #[trigger] self.sources@[i]@,
                    field,
                ) {
                    Some(FieldValue::TokenListOp(_)) => r matches Some(v) && v@ == list_chain(
                        Seq::<TokenId>::empty(),
                        token_list_ops(store_layers(*store), self.sources@[i]@, field),
                    ),
                    _ => r is None,
                },
    {
        match self.sources_of(p) {
            Some(keys) => {
                proof {
                    lemma_unique_prim(self.prims@, p);
                }
                resolve_token_list(store, keys.as_slice(), field)
            },
            None => None,
        }
    }

    /// Whether dependency edges were recorded while composing.
    pub fn has_dependencies(&self) -> (r: bool)
        ensures
            r == self.dependencies is Some,
    {
        self.dependencies.is_some()
    }

    /// The recorded layers with opinions on prim `p` (none when no edges
    /// were recorded).
    pub fn layers_affecting_prim(&self, p: PathId) -> (r: Vec<LayerId>)
        ensures
            match self.dependencies {
                Some(d) => r@ == layers_to_prim(d.opinion_seq(), p),
                None => r@.len() == 0,
            },
    {
        match &self.dependencies {
            Some(d) => d.layers_affecting_prim(p),
            None => Vec::new(),
        }
    }

    /// The recorded prims that `layer` has opinions on (none when no edges
    /// were recorded).
    pub fn prims_affected_by_layer(&self, layer: LayerId) -> (r: Vec<PathId>)
        ensures
            match self.dependencies {
                Some(d) => r@ == prims_from_layer(d.opinion_seq(), layer),
                None => r@.len() == 0,
            },
    {
        match &self.dependencies {
            Some(d) => d.prims_affected_by_layer(layer),
            None => Vec::new(),
        }
    }

    /// The recorded arc edges (none when no edges were recorded).
    pub fn arc_dependencies(&self) -> (r: &[ArcDependency])
        ensures
            match self.dependencies {
                Some(d) => r@ == d.arc_seq(),
                None => r@.len() == 0,
            },
    {
        match &self.dependencies {
            Some(d) => d.arcs(),
            None => &[],
        }
    }

    /// The recorded arc edges whose target is `p`.
    pub fn arcs_targeting(&self, p: PathId) -> (r: Vec<&ArcDependency>)
        ensures
            match self.dependencies {
                Some(d) => r@.map_values(|a: &ArcDependency| *a) == arcs_to(d.arc_seq(), p),
                None => r@.len() == 0,
            },
    {
        match &self.dependencies {
            Some(d) => d.arcs_targeting(p),
            None => Vec::new(),
        }
    }

    /// Where the resolved opinion on `field` of prim `p` comes from: the
    /// layer and spec path of the strongest source that authors it.
    pub fn field_provenance(&self, store: &InMemoryStore, p: PathId, field: TokenId) -> (r: Option<(LayerId, PathId)>)
        ensures
            r is Some ==> self.prims@.contains(p),
            forall|i: int|
                0 <= i < self.prims@.len() && self.prims@[i] == p && self.prims@.len() == self.sources@.len()
                    && self.prims@.no_duplicates() ==> {
                    let authors = (#[trigger] self.sources@[i]@).filter(authors_field(store_layers(*store), field));
                    match r {
                        Some(pv) => authors.len() > 0 && pv == (authors[0].layer_id, authors[0].spec_path),
                        None => authors.len() == 0,
                    }
                },
    {
        match self.explain_field(store, p, field) {
            Some(v) => Some((v[0].layer_id, v[0].spec_path)),
            None => None,
        }
    }

    /// The sources of prim `p` that author `field`, strongest first; `None`
    /// when `p` is not a prim or none of its sources authors the field.
    pub fn explain_field(&self, store: &InMemoryStore, p: PathId, field: TokenId) -> (r: Option<Vec<OpinionKey>>)
        ensures
            r is Some ==> self.prims@.contains(p),
            r matches Some(v) ==> v@.len() > 0,
            forall|i: int|
                0 <= i < self.prims@.len() && self.prims@[i] == p && self.prims@.len() == self.sources@.len()
                    && self.prims@.no_duplicates() ==> match r {
                    Some(v) => v@ == (#[trigger] self.sources@[i]@).filter(authors_field(store_layers(*store), field)),
                    None => self.sources@[i]@.filter(authors_field(store_layers(*store), field)).len() == 0,
                },
    {
        match self.sources_of(p) {
            Some(keys) => {
                proof {
                    lemma_unique_prim(self.prims@, p);
                }
                let v = crate::resolve::authoring_sources(store, keys.as_slice(), field);
                if v.len() == 0 {
                    None
                } else {
                    Some(v)
                }
            },
            None => None,
        }
    }

    /// The value resolved for `field` of prim `p`, by the kind of its
    /// strongest opinion (nothing when it is blocked or time-sampled).
    pub fn resolve_value(&self, store: &InMemoryStore, p: PathId, field: TokenId) -> (r: Option<ResolvedValue>)
        ensures
            r is Some ==> self.prims@.contains(p),
            forall|i: int|
                0 <= i < self.prims@.len() && self.prims@[i] == p && self.prims@.len() == self.sources@.len()
                    && self.prims@.no_duplicates() ==> resolves_to(
                    store_layers(*store),
                    #[trigger] self.sources@[i]@,
                    field,
                    r,
                ),
    {
        match self.sources_of(p) {
            Some(keys) => {
                proof {
                    lemma_unique_prim(self.prims@, p);
                }
                crate::resolve::resolve_value(store, keys.as_slice(), field)
            },
            None => None,
        }
    }

    /// The dictionary resolved for `field` of prim `p` (when its strongest
    /// opinion is a dictionary): all its dictionary opinions combined.
    pub fn resolve_dictionary(&self, store: &InMemoryStore, p: PathId, field: TokenId) -> (r: Option<
        Vec<(String, Value)>,
    >)
        ensures
            r is Some ==> self.prims@.contains(p),
            forall|i: int|
                0 <= i < self.prims@.len() && self.prims@[i] == p && self.prims@.len() == self.sources@.len()
                    && self.prims@.no_duplicates() ==> match strongest_value(
                    store_layers(*store),
                    #[trigger] self.sources@[i]@,
                    field,
                ) {
                    Some(FieldValue::Value(Value::Dictionary(_))) => r matches Some(d) && dict_view(d@)
                        == combined_chain(dictionary_opinions(store_layers(*store), self.sources@[i]@, field)),
                    _ => r is None,
                },
    {
        match self.sources_of(p) {
            Some(keys) => {
                proof {
                    lemma_unique_prim(self.prims@, p);
                }
                crate::resolve::resolve_dictionary(store, keys.as_slice(), field)
            },
            None => None,
        }
    }

    /// The path list resolved for `field` of prim `p` (when its strongest
    /// opinion is a path list edit).
    pub fn resolve_path_list(&self, store: &InMemoryStore, p: PathId, field: TokenId) -> (r: Option<Vec<PathId>>)
        ensures
            r is Some ==> self.prims@.contains(p),
            forall|i: int|
                0 <= i < self.prims@.len() && self.prims@[i] == p && self.prims@.len() == self.sources@.len()
                    && self.prims@.no_duplicates() ==> match strongest_value(
                    store_layers(*store),
                    #[trigger] self.sources@[i]@,
                    field,
                ) {
                    Some(FieldValue::PathListOp(_)) => r matches Some(v) && v@ == list_chain(
                        Seq::<PathId>::empty(),
                        path_list_ops(store_layers(*store), self.sources@[i]@, field),
                    ),
                    _ => r is None,
                },
    {
        match self.sources_of(p) {
            Some(keys) => {
                proof {
                    lemma_unique_prim(self.prims@, p);
                }
                resolve_path_list(store, keys.as_slice(), field)
            },
            None => None,
        }
    }
}

/// In a list without duplicates, an id sits at one position only.
/// A defining specifier is `def` or `class`.
proof fn lemma_defining_kinds(layers: Map<u64, Layer>, sources: Seq<OpinionKey>)
    ensures
        defining_specifier(layers, sources) is Some ==> defining_specifier(layers, sources) == Some(Specifier::Def)
            || defining_specifier(layers, sources) == Some(Specifier::Class),
    decreases sources.len(),
{
    if sources.len() > 0 {
        lemma_defining_kinds(layers, sources.drop_first());
    }
}

proof fn lemma_unique_prim(prims: Seq<PathId>, p: PathId)
    ensures
        prims.no_duplicates() ==> forall|i: int, j: int|
            0 <= i < prims.len() && 0 <= j < prims.len() && prims[i] == p && prims[j] == p ==> i == j,
{
}

} // verus!

//! Per-prim arc lists resolved across a layer stack, and the prims a layer
//! stack authors.

use vstd::prelude::*;

use crate::doc::LayerId;
use crate::interner::TokenId;
use crate::listop::{list_chain, ListOp};
use crate::path::PathId;
use crate::population::OrderedPathSet;
use crate::store::{layer_prims, store_layers, InMemoryStore, Layer, PrimSpec};

verus! {

/// The arc lists a prim spec authors as list edits of paths.
#[derive(Clone, Copy, Debug, PartialEq, Eq, Structural)]
pub enum PathArc {
    /// The inherit arcs.
    Inherits,
    /// The specialize arcs.
    Specializes,
}

/// The list edit of `spec` for `arc`.
pub open spec fn arc_list(spec: PrimSpec, arc: PathArc) -> ListOp<PathId> {
    match arc {
        PathArc::Inherits => spec.inherits,
        PathArc::Specializes => spec.specializes,
    }
}

/// The edits of `arc` that the layers of `stack` author for `prim`, in
/// stack order (strongest first); layers missing from the store and layers
/// without a spec for `prim` contribute nothing.
pub open spec fn stack_arc_ops(
    layers: Map<u64, Layer>,
    stack: Seq<LayerId>,
    prim: PathId,
    arc: PathArc,
) -> Seq<ListOp<PathId>>
    decreases stack.len(),
{
    if stack.len() == 0 {
        Seq::empty()
    } else {
        let rest = stack_arc_ops(layers, stack.drop_first(), prim, arc);
        let id = stack[0].0;
        if layers.dom().contains(id) && layer_prims(layers[id]).dom().contains(prim) {
            seq![arc_list(layer_prims(layers[id])[prim], arc)] + rest
        } else {
            rest
        }
    }
}

/// The resolved targets of `arc` for `prim`: the stack's edits chained over
/// an empty list.
pub open spec fn resolved_arc(layers: Map<u64, Layer>, stack: Seq<LayerId>, prim: PathId, arc: PathArc) -> Seq<
    PathId,
> {
    list_chain(Seq::empty(), stack_arc_ops(layers, stack, prim, arc))
}

/// Resolves the targets of `arc` for `prim` across the layer stack
/// `stack` (strongest first): the weakest layer's edit applies first.
pub fn resolve_path_arc(store: &InMemoryStore, stack: &[LayerId], prim: PathId, arc: PathArc) -> (r: Vec<
    PathId,
>)
    ensures
        r@ == resolved_arc(store_layers(*store), stack@, prim, arc),
{
    let ghost layers = store_layers(*store);
    let mut acc: Vec<PathId> = Vec::new();
    let n = stack.len();
    let mut i: usize = n;
    proof {
        assert(stack@.subrange(n as int, n as int) =~= Seq::<LayerId>::empty());
    }
    while i > 0
        invariant
            n == stack@.len(),
            i <= n,
            layers == store_layers(*store),
            acc@ == list_chain(Seq::<PathId>::empty(), stack_arc_ops(layers, stack@.subrange(i as int, n as int), prim, arc)),
        decreases i,
    {
        i = i - 1;
        let ghost sub = stack@.subrange(i as int, n as int);
        proof {
            assert(sub[0] == stack@[i as int]);
            assert(sub.drop_first() =~= stack@.subrange(i + 1, n as int));
        }
        match store.layer(stack[i]) {
            Some(layer) => match layer.prim(prim) {
                Some(spec) => {
                    let next = match arc {
                        PathArc::Inherits => spec.inherits.apply(acc.as_slice()),
                        PathArc::Specializes => spec.specializes.apply(acc.as_slice()),
                    };
                    proof {
                        let rest = stack_arc_ops(layers, stack@.subrange(i + 1, n as int), prim, arc);
                        let ops = stack_arc_ops(layers, sub, prim, arc);
                        assert(ops == seq![arc_list(*spec, arc)] + rest);
                        assert(ops.drop_first() =~= rest);
                        assert(ops[0] == arc_list(*spec, arc));
                    }
                    acc = next;
                },
                None => {},
            },
            None => {},
        }
    }
    proof {
        assert(stack@.subrange(0, n as int) =~= stack@);
    }
    acc
}

/// Resolves the inherit targets of `prim` across a layer stack.
pub fn resolve_inherits_for_prim(store: &InMemoryStore, stack: &[LayerId], prim: PathId) -> (r: Vec<PathId>)
    ensures
        r@ == resolved_arc(store_layers(*store), stack@, prim, PathArc::Inherits),
{
    resolve_path_arc(store, stack, prim, PathArc::Inherits)
}

/// Resolves the specialize targets of `prim` across a layer stack.
pub fn resolve_specializes_for_prim(store: &InMemoryStore, stack: &[LayerId], prim: PathId) -> (r: Vec<
    PathId,
>)
    ensures
        r@ == resolved_arc(store_layers(*store), stack@, prim, PathArc::Specializes),
{
    resolve_path_arc(store, stack, prim, PathArc::Specializes)
}

/// `p` has a spec in some layer of `stack` that the store holds.
pub open spec fn authored_in_stack(layers: Map<u64, Layer>, stack: Seq<LayerId>, p: PathId) -> bool {
    exists|i: int|
        0 <= i < stack.len() && layers.dom().contains((#[trigger] stack[i]).0) && layer_prims(
            layers[stack[i].0],
        ).dom().contains(p)
}

/// The prims the layers of a stack author: the starting set of stage
/// population.
pub fn stack_prim_paths(store: &InMemoryStore, stack: &[LayerId]) -> (r: OrderedPathSet)
    ensures
        forall|p: PathId| #[trigger] r@.contains(p) <==> authored_in_stack(store_layers(*store), stack@, p),
{
    let ghost layers = store_layers(*store);
    let mut set = OrderedPathSet::new();
    let n = stack.len();
    let mut i: usize = 0;
    while i < n
        invariant
            n == stack@.len(),
            i <= n,
            layers == store_layers(*store),
            forall|p: PathId| #[trigger] set@.contains(p) <==> authored_in_stack(layers, stack@.take(i as int), p),
        decreases n - i,
    {
        let ghost set0 = set@;
        match store.layer(stack[i]) {
            Some(layer) => {
                let keys = crate::hashed::prim_table_keys(&layer.prims);
                let m = keys.len();
                let mut k: usize = 0;
                while k < m
                    invariant
                        m == keys@.len(),
                        k <= m,
                        forall|p: PathId| #[trigger] set@.contains(p) <==> (set0.contains(p) || keys@.take(k as int).contains(p)),
                    decreases m - k,
                {
                    let ghost before = set@;
                    set.insert(keys[k]);
                    proof {
                        assert(keys@.take(k + 1) =~= keys@.take(k as int).push(keys@[k as int]));
                        assert forall|p: PathId| #[trigger] set@.contains(p) <==> (set0.contains(p)
                            || keys@.take(k + 1).contains(p)) by {
                            vstd::seq_lib::lemma_seq_contains_after_push(keys@.take(k as int), keys@[k as int], p);
                            assert(before.contains(p) <==> (set0.contains(p) || keys@.take(k as int).contains(p)));
                        }
                    }
                    k = k + 1;
                }
                proof {
                    assert(keys@.take(m as int) =~= keys@);
                    assert forall|p: PathId| #[trigger] set@.contains(p) <==> authored_in_stack(
                        layers,
                        stack@.take(i + 1),
                        p,
                    ) by {
                        assert(set0.contains(p) <==> authored_in_stack(layers, stack@.take(i as int), p));
                        assert(keys@.contains(p) <==> keys@.to_set().contains(p));
                        if authored_in_stack(layers, stack@.take(i + 1), p) {
                            let j = choose|j: int|
                                0 <= j < i + 1 && layers.dom().contains((#[trigger] stack@.take(i + 1)[j]).0)
                                    && layer_prims(layers[stack@.take(i + 1)[j].0]).dom().contains(p);
                            if j < i {
                                assert(stack@.take(i as int)[j] == stack@.take(i + 1)[j]);
                            }
                        }
                        if authored_in_stack(layers, stack@.take(i as int), p) {
                            let j = choose|j: int|
                                0 <= j < i && layers.dom().contains((#[trigger] stack@.take(i as int)[j]).0)
                                    && layer_prims(layers[stack@.take(i as int)[j].0]).dom().contains(p);
                            assert(stack@.take(i + 1)[j] == stack@.take(i as int)[j]);
                        }
                        if keys@.contains(p) {
                            assert(stack@.take(i + 1)[i as int] == stack@[i as int]);
                        }
                    }
                }
            },
            None => {
                proof {
                    assert forall|p: PathId| #[trigger] set@.contains(p) <==> authored_in_stack(
                        layers,
                        stack@.take(i + 1),
                        p,
                    ) by {
                        if authored_in_stack(layers, stack@.take(i + 1), p) {
                            let j = choose|j: int|
                                0 <= j < i + 1 && layers.dom().contains((#[trigger] stack@.take(i + 1)[j]).0)
                                    && layer_prims(layers[stack@.take(i + 1)[j].0]).dom().contains(p);
                            assert(j != i);
                            assert(stack@.take(i as int)[j] == stack@.take(i + 1)[j]);
                        }
                        if authored_in_stack(layers, stack@.take(i as int), p) {
                            let j = choose|j: int|
                                0 <= j < i && layers.dom().contains((#[trigger] stack@.take(i as int)[j]).0)
                                    && layer_prims(layers[stack@.take(i as int)[j].0]).dom().contains(p);
                            assert(stack@.take(i + 1)[j] == stack@.take(i as int)[j]);
                        }
                    }
                }
            },
        }
        i = i + 1;
    }
    proof {
        assert(stack@.take(n as int) =~= stack@);
    }
    set
}

/// The variant selected for `set` in a list of selections: the first one
/// for that set.
pub open spec fn selection_in(ps: Seq<(TokenId, TokenId)>, set: TokenId) -> Option<TokenId>
    decreases ps.len(),
{
    if ps.len() == 0 {
        None
    } else {
        let prev = selection_in(ps.drop_last(), set);
        if prev is Some {
            prev
        } else if ps.last().0 == set {
            Some(ps.last().1)
        } else {
            None
        }
    }
}

/// The variant selected for `set` by the first `i` layers of the stack: the
/// strongest layer whose spec for `prim` selects a variant of `set`.
pub open spec fn stack_selection(
    layers: Map<u64, Layer>,
    stack: Seq<LayerId>,
    prim: PathId,
    set: TokenId,
    i: int,
) -> Option<TokenId>
    decreases i,
{
    if i <= 0 {
        None
    } else {
        let prev = stack_selection(layers, stack, prim, set, i - 1);
        let id = stack[i - 1].0;
        if prev is Some {
            prev
        } else if layers.dom().contains(id) && layer_prims(layers[id]).dom().contains(prim) {
            selection_in(layer_prims(layers[id])[prim].variant_selections@, set)
        } else {
            None
        }
    }
}

/// A list with no selection for `set` holds no pair for `set`.
proof fn lemma_selection_none(ps: Seq<(TokenId, TokenId)>, set: TokenId)
    ensures
        selection_in(ps, set) is None ==> forall|i: int| 0 <= i < ps.len() ==> (#[trigger] ps[i]).0 != set,
    decreases ps.len(),
{
    if ps.len() > 0 {
        lemma_selection_none(ps.drop_last(), set);
        if selection_in(ps, set) is None {
            assert forall|i: int| 0 <= i < ps.len() implies (#[trigger] ps[i]).0 != set by {
                if i < ps.len() - 1 {
                    assert(ps.drop_last()[i] == ps[i]);
                }
            }
        }
    }
}

/// Whether some selection of `out` is for `set`.
fn selects_set(out: &[(TokenId, TokenId)], set: TokenId) -> (r: bool)
    ensures
        r == (selection_in(out@, set) is Some),
{
    let n = out.len();
    let mut i: usize = 0;
    while i < n
        invariant
            n == out@.len(),
            i <= n,
            selection_in(out@.take(i as int), set) is None,
        decreases n - i,
    {
        proof {
            assert(out@.take(i + 1).drop_last() =~= out@.take(i as int));
        }
        if out[i].0 == set {
            proof {
                lemma_selection_prefix(out@, i + 1, set);
            }
            return true;
        }
        i = i + 1;
    }
    proof {
        assert(out@.take(n as int) =~= out@);
    }
    false
}

/// A selection found in a prefix stays the selection of the whole list.
proof fn lemma_selection_prefix(ps: Seq<(TokenId, TokenId)>, k: int, set: TokenId)
    requires
        0 <= k <= ps.len(),
        selection_in(ps.take(k), set) is Some,
    ensures
        selection_in(ps, set) == selection_in(ps.take(k), set),
    decreases ps.len() - k,
{
    if k < ps.len() {
        assert(ps.take(k + 1).drop_last() =~= ps.take(k));
        lemma_selection_prefix(ps, k + 1, set);
    } else {
        assert(ps.take(k) =~= ps);
    }
}

/// Resolves the variant selections of `prim` across a layer stack: for
/// each set, the variant the strongest layer selects, once per set.
pub fn resolve_variant_selections_for_prim(store: &InMemoryStore, stack: &[LayerId], prim: PathId) -> (r: Vec<
    (TokenId, TokenId),
>)
    ensures
        forall|set: TokenId|
            #[trigger] selection_in(r@, set) == stack_selection(store_layers(*store), stack@, prim, set, stack@.len() as int),
        forall|i: int, j: int| 0 <= i < j < r@.len() ==> r@[i].0 != r@[j].0,
{
    let ghost layers = store_layers(*store);
    let mut out: Vec<(TokenId, TokenId)> = Vec::new();
    let n = stack.len();
    let mut i: usize = 0;
    while i < n
        invariant
            n == stack@.len(),
            i <= n,
            layers == store_layers(*store),
            forall|set: TokenId|
                #[trigger] selection_in(out@, set) == stack_selection(layers, stack@, prim, set, i as int),
            forall|a: int, b: int| 0 <= a < b < out@.len() ==> out@[a].0 != out@[b].0,
        decreases n - i,
    {
        match store.layer(stack[i]) {
            Some(layer) => match layer.prim(prim) {
                Some(spec) => {
                    let ghost out0 = out@;
                    let ps = &spec.variant_selections;
                    let m = ps.len();
                    let mut j: usize = 0;
                    while j < m
                        invariant
                            m == ps@.len(),
                            j <= m,
                            forall|a: int, b: int| 0 <= a < b < out@.len() ==> out@[a].0 != out@[b].0,
                            forall|set: TokenId|
                                #[trigger] selection_in(out@, set) == (if selection_in(out0, set) is Some {
                                    selection_in(out0, set)
                                } else {
                                    selection_in(ps@.take(j as int), set)
                                }),
                        decreases m - j,
                    {
                        let (set, variant) = ps[j];
                        proof {
                            assert(ps@.take(j + 1).drop_last() =~= ps@.take(j as int));
                            assert(ps@.take(j + 1).last() == ps@[j as int]);
                        }
                        let ghost before = out@;
                        if !selects_set(out.as_slice(), set) {
                            proof {
                                lemma_selection_none(before, set);
                            }
                            out.push((set, variant));
                            proof {
                                assert(out@.drop_last() =~= before);
                                assert(out@.last() == (set, variant));
                                assert forall|a: int, b: int| 0 <= a < b < out@.len() implies out@[a].0 != out@[b].0 by {
                                    if b == out@.len() - 1 {
                                        assert(out@[a] == before[a]);
                                    } else {
                                        assert(out@[a] == before[a] && out@[b] == before[b]);
                                    }
                                }
                            }
                        }
                        proof {
                            assert forall|s: TokenId| #[trigger] selection_in(out@, s) == (if selection_in(
                                out0,
                                s,
                            ) is Some {
                                selection_in(out0, s)
                            } else {
                                selection_in(ps@.take(j + 1), s)
                            }) by {
                                assert(selection_in(before, s) == (if selection_in(out0, s) is Some {
                                    selection_in(out0, s)
                                } else {
                                    selection_in(ps@.take(j as int), s)
                                }));
                            }
                        }
                        j = j + 1;
                    }
                    proof {
                        assert(ps@.take(m as int) =~= ps@);
                    }
                },
                None => {},
            },
            None => {},
        }
        i = i + 1;
    }
    out
}

} // verus!

//! Variant children of a composed stage: a child that only variants
//! introduce stays only when one of the selected variants introduces it.
use crate::arcs::selection_in;
use crate::composition::Stage;
use crate::hashed::{children_contents, children_get, children_insert, children_keys, children_new};
use crate::interner::TokenId;
use crate::path::PathId;
use crate::prim_index::OpinionKey;
use crate::resolve::source_spec;
use crate::store::{store_layers, InMemoryStore, Layer, VariantSetSpec, VariantSpec};
use vstd::prelude::*;

verus! {

/// The variant selected for `set` by the first `i` sources (strongest
/// first): the first whose spec selects a variant of `set`.
pub open spec fn source_selection(layers: Map<u64, Layer>, sources: Seq<OpinionKey>, set: TokenId, i: int) -> Option<
    TokenId,
>
    decreases i,
{
    if i <= 0 {
        None
    } else {
        let prev = source_selection(layers, sources, set, i - 1);
        if prev is Some {
            prev
        } else {
            match source_spec(layers, sources[i - 1]) {
                Some(s) => selection_in(s.variant_selections@, set),
                None => None,
            }
        }
    }
}

/// Some of the first `b` variants introduces `t` (only the variant named
/// `only`, when one is given).
pub open spec fn variant_has(vs: Seq<VariantSpec>, t: TokenId, b: int, only: Option<TokenId>) -> bool
    decreases b,
{
    if b <= 0 {
        false
    } else {
        variant_has(vs, t, b - 1, only) || ((only is None || only == Some(vs[b - 1].name))
            && vs[b - 1].authored_children@.contains(t))
    }
}

/// Some variant of the first `a` sets introduces `t`; with `selected`, only
/// the variant the sources select for each set counts.
pub open spec fn sets_have(
    layers: Map<u64, Layer>,
    sources: Seq<OpinionKey>,
    sets: Seq<VariantSetSpec>,
    t: TokenId,
    a: int,
    selected: bool,
) -> bool
    decreases a,
{
    if a <= 0 {
        false
    } else {
        let set = sets[a - 1];
        sets_have(layers, sources, sets, t, a - 1, selected) || if selected {
            match source_selection(layers, sources, set.name, sources.len() as int) {
                Some(v) => variant_has(set.variants@, t, set.variants@.len() as int, Some(v)),
                None => false,
            }
        } else {
            variant_has(set.variants@, t, set.variants@.len() as int, None)
        }
    }
}

/// Some variant of the specs behind the first `k` sources introduces `t`
/// (with `selected`, a selected one).
pub open spec fn sources_have(
    layers: Map<u64, Layer>,
    sources: Seq<OpinionKey>,
    t: TokenId,
    k: int,
    selected: bool,
) -> bool
    decreases k,
{
    if k <= 0 {
        false
    } else {
        sources_have(layers, sources, t, k - 1, selected) || match source_spec(layers, sources[k - 1]) {
            Some(s) => sets_have(layers, sources, s.variant_sets@, t, s.variant_sets@.len() as int, selected),
            None => false,
        }
    }
}

/// A child stays unless its name is introduced by variants of the prim's
/// sources and by none of the selected ones.
pub open spec fn variant_kept(paths: Seq<Seq<TokenId>>, layers: Map<u64, Layer>, sources: Seq<OpinionKey>) -> spec_fn(
    PathId,
) -> bool {
    |c: PathId|
        !(0 <= c.index() < paths.len() && paths[c.index()].len() > 0 && sources_have(
            layers,
            sources,
            paths[c.index()].last(),
            sources.len() as int,
            false,
        ) && !sources_have(layers, sources, paths[c.index()].last(), sources.len() as int, true))
}

/// The first row of `prims` that is `p`, among the first `n`.
pub open spec fn first_row(prims: Seq<PathId>, p: PathId, n: int) -> Option<int>
    decreases n,
{
    if n <= 0 {
        None
    } else {
        let prev = first_row(prims, p, n - 1);
        if prev is Some {
            prev
        } else if prims[n - 1] == p {
            Some(n - 1)
        } else {
            None
        }
    }
}

/// The children list under `k` after variant filtering.
pub open spec fn variant_filtered(
    paths: Seq<Seq<TokenId>>,
    layers: Map<u64, Layer>,
    prims: Seq<PathId>,
    sources: Seq<Vec<OpinionKey>>,
    kids: Map<PathId, Seq<PathId>>,
    k: PathId,
) -> Seq<PathId> {
    match first_row(prims, k, prims.len() as int) {
        Some(j) => kids[k].filter(variant_kept(paths, layers, sources[j]@)),
        None => kids[k],
    }
}

/// The variant `sources` select for `set`, strongest first.
fn selection_among(store: &InMemoryStore, sources: &[OpinionKey], set: TokenId) -> (r: Option<TokenId>)
    ensures
        r == source_selection(store_layers(*store), sources@, set, sources@.len() as int),
{
    let n = sources.len();
    let mut i: usize = 0;
    while i < n
        invariant
            n == sources@.len(),
            i <= n,
            source_selection(store_layers(*store), sources@, set, i as int) is None,
        decreases n - i,
    {
        let found = match store.layer(sources[i].layer_id) {
            Some(layer) => match layer.prim(sources[i].spec_path) {
                Some(spec) => selection_of_pairs(spec.variant_selections.as_slice(), set),
                None => None,
            },
            None => None,
        };
        proof {
            assert(found == match source_spec(store_layers(*store), sources@[i as int]) {
                Some(s) => selection_in(s.variant_selections@, set),
                None => None,
            });
        }
        if found.is_some() {
            proof {
                lemma_selection_settles(store_layers(*store), sources@, set, i + 1, n as int);
            }
            return found;
        }
        i = i + 1;
    }
    None
}

/// Once the first `i` sources select a variant, more sources keep it.
proof fn lemma_selection_settles(layers: Map<u64, Layer>, sources: Seq<OpinionKey>, set: TokenId, i: int, n: int)
    requires
        0 <= i <= n,
        source_selection(layers, sources, set, i) is Some,
    ensures
        source_selection(layers, sources, set, n) == source_selection(layers, sources, set, i),
    decreases n - i,
{
    if i < n {
        lemma_selection_settles(layers, sources, set, i, n - 1);
    }
}

/// The variant `ps` selects for `set`: the first pair for `set`.
fn selection_of_pairs(ps: &[(TokenId, TokenId)], set: TokenId) -> (r: Option<TokenId>)
    ensures
        r == selection_in(ps@, set),
{
    let n = ps.len();
    let mut i: usize = 0;
    while i < n
        invariant
            n == ps@.len(),
            i <= n,
            selection_in(ps@.take(i as int), set) is None,
        decreases n - i,
    {
        proof {
            assert(ps@.take(i + 1).drop_last() =~= ps@.take(i as int));
        }
        if ps[i].0 == set {
            proof {
                lemma_selection_prefix(ps@, set, i + 1, n as int);
            }
            return Some(ps[i].1);
        }
        i = i + 1;
    }
    proof {
        assert(ps@.take(n as int) =~= ps@);
    }
    None
}

/// A selection made by a prefix is the selection of the whole list.
proof fn lemma_selection_prefix(ps: Seq<(TokenId, TokenId)>, set: TokenId, i: int, n: int)
    requires
        0 <= i <= n,
        n == ps.len(),
        selection_in(ps.take(i), set) is Some,
    ensures
        selection_in(ps, set) == selection_in(ps.take(i), set),
    decreases n - i,
{
    if i < n {
        assert(ps.take(i + 1).drop_last() =~= ps.take(i));
        lemma_selection_prefix(ps, set, i + 1, n);
    } else {
        assert(ps.take(n) =~= ps);
    }
}

/// `t` is one of `list`.
fn holds_token(list: &[TokenId], t: TokenId) -> (r: bool)
    ensures
        r == list@.contains(t),
{
    let n = list.len();
    let mut i: usize = 0;
    while i < n
        invariant
            n == list@.len(),
            i <= n,
            forall|q: int| 0 <= q < i ==> list@[q] != t,
        decreases n - i,
    {
        if list[i] == t {
            return true;
        }
        i = i + 1;
    }
    false
}

/// Whether some variant of `vs` (only the one named `only`, if given)
/// introduces `t`.
fn variants_introduce(vs: &[VariantSpec], t: TokenId, only: Option<TokenId>) -> (r: bool)
    ensures
        r == variant_has(vs@, t, vs@.len() as int, only),
{
    let n = vs.len();
    let mut found = false;
    let mut i: usize = 0;
    while i < n
        invariant
            n == vs@.len(),
            i <= n,
            found == variant_has(vs@, t, i as int, only),
        decreases n - i,
    {
        let name_ok = match only {
            Some(v) => vs[i].name == v,
            None => true,
        };
        if name_ok && holds_token(vs[i].authored_children.as_slice(), t) {
            found = true;
        }
        i = i + 1;
    }
    found
}

/// Whether some variant of `sets` introduces `t` (with `selected`, the
/// variant `sources` select for its set).
fn sets_introduce(
    store: &InMemoryStore,
    sources: &[OpinionKey],
    sets: &[VariantSetSpec],
    t: TokenId,
    selected: bool,
) -> (r: bool)
    ensures
        r == sets_have(store_layers(*store), sources@, sets@, t, sets@.len() as int, selected),
{
    let n = sets.len();
    let mut found = false;
    let mut i: usize = 0;
    while i < n
        invariant
            n == sets@.len(),
            i <= n,
            found == sets_have(store_layers(*store), sources@, sets@, t, i as int, selected),
        decreases n - i,
    {
        let here = if selected {
            match selection_among(store, sources, sets[i].name) {
                Some(v) => variants_introduce(sets[i].variants.as_slice(), t, Some(v)),
                None => false,
            }
        } else {
            variants_introduce(sets[i].variants.as_slice(), t, None)
        };
        if here {
            found = true;
        }
        i = i + 1;
    }
    found
}

/// Whether a variant of the specs behind `sources` introduces `t` (with
/// `selected`, a selected one).
fn sources_introduce(store: &InMemoryStore, sources: &[OpinionKey], t: TokenId, selected: bool) -> (r: bool)
    ensures
        r == sources_have(store_layers(*store), sources@, t, sources@.len() as int, selected),
{
    let n = sources.len();
    let mut found = false;
    let mut i: usize = 0;
    while i < n
        invariant
            n == sources@.len(),
            i <= n,
            found == sources_have(store_layers(*store), sources@, t, i as int, selected),
        decreases n - i,
    {
        let here = match store.layer(sources[i].layer_id) {
            Some(layer) => match layer.prim(sources[i].spec_path) {
                Some(spec) => sets_introduce(store, sources, spec.variant_sets.as_slice(), t, selected),
                None => false,
            },
            None => false,
        };
        proof {
            assert(here == match source_spec(store_layers(*store), sources@[i as int]) {
                Some(s) => sets_have(store_layers(*store), sources@, s.variant_sets@, t, s.variant_sets@.len() as int, selected),
                None => false,
            });
        }
        if here {
            found = true;
        }
        i = i + 1;
    }
    found
}

/// The members of `list` that variant filtering keeps for a prim with
/// `sources`, in order.
fn keep_variant_children(store: &InMemoryStore, sources: &[OpinionKey], list: &[PathId]) -> (r: Vec<PathId>)
    ensures
        r@ == list@.filter(variant_kept(store.paths@, store_layers(*store), sources@)),
{
    let ghost pred = variant_kept(store.paths@, store_layers(*store), sources@);
    let mut out: Vec<PathId> = Vec::new();
    let n = list.len();
    let mut i: usize = 0;
    while i < n
        invariant
            n == list@.len(),
            i <= n,
            pred == variant_kept(store.paths@, store_layers(*store), sources@),
            out@ == list@.take(i as int).filter(pred),
        decreases n - i,
    {
        let c = list[i];
        let keep = if (c.get() as usize) < store.paths.len() {
            let cp = store.paths.resolve(c);
            match cp.leaf() {
                Some(leaf) => !(sources_introduce(store, sources, leaf, false) && !sources_introduce(
                    store,
                    sources,
                    leaf,
                    true,
                )),
                None => true,
            }
        } else {
            true
        };
        proof {
            assert(keep == pred(c));
            crate::compose::lemma_filter_take_step(list@, pred, i as int);
        }
        if keep {
            out.push(c);
        }
        i = i + 1;
    }
    proof {
        assert(list@.take(n as int) =~= list@);
    }
    out
}

/// The first row of `prims` that is `p`.
fn row_of(prims: &[PathId], p: PathId) -> (r: Option<usize>)
    ensures
        r matches Some(j) ==> j < prims@.len(),
        r matches Some(j) ==> first_row(prims@, p, prims@.len() as int) == Some(j as int),
        r is None ==> first_row(prims@, p, prims@.len() as int) is None,
{
    let n = prims.len();
    let mut i: usize = 0;
    while i < n
        invariant
            n == prims@.len(),
            i <= n,
            first_row(prims@, p, i as int) is None,
        decreases n - i,
    {
        if prims[i] == p {
            proof {
                lemma_first_row_settles(prims@, p, i + 1, n as int);
            }
            return Some(i);
        }
        i = i + 1;
    }
    None
}

/// Once a prefix has a first row for `p`, longer prefixes keep it.
proof fn lemma_first_row_settles(prims: Seq<PathId>, p: PathId, i: int, n: int)
    requires
        0 <= i <= n,
        first_row(prims, p, i) is Some,
    ensures
        first_row(prims, p, n) == first_row(prims, p, i),
    decreases n - i,
{
    if i < n {
        lemma_first_row_settles(prims, p, i, n - 1);
    }
}

/// Filters every children list of the stage by the variant selections of
/// its prim: a child whose name variants of the prim's sources introduce,
/// but none of the selected variants does, is removed. Lists of entries
/// that are not prims of the stage, and children whose ids name no
/// interned path, stay as they are.
pub fn filter_variant_children(store: &InMemoryStore, st: &mut Stage)
    requires
        old(st).prims@.len() == old(st).sources@.len(),
    ensures
        final(st).prims == old(st).prims,
        final(st).sources == old(st).sources,
        children_contents(final(st).children).dom() == children_contents(old(st).children).dom(),
        forall|k: PathId| #[trigger]
            children_contents(final(st).children).dom().contains(k) ==> children_contents(final(st).children)[k]
                == variant_filtered(
                store.paths@,
                store_layers(*store),
                old(st).prims@,
                old(st).sources@,
                children_contents(old(st).children),
                k,
            ),
{
    let ghost kids = children_contents(st.children);
    let keys = children_keys(&st.children);
    let mut out = children_new();
    let m = keys.len();
    let mut i: usize = 0;
    while i < m
        invariant
            m == keys@.len(),
            i <= m,
            keys@.no_duplicates(),
            keys@.to_set() == kids.dom(),
            kids == children_contents(st.children),
            st.prims@.len() == st.sources@.len(),
            forall|k: PathId| #[trigger] children_contents(out).dom().contains(k) <==> keys@.take(i as int).contains(k),
            forall|k: PathId| #[trigger]
                children_contents(out).dom().contains(k) ==> children_contents(out)[k] == variant_filtered(
                    store.paths@,
                    store_layers(*store),
                    st.prims@,
                    st.sources@,
                    kids,
                    k,
                ),
        decreases m - i,
    {
        let k = keys[i];
        proof {
            assert(keys@.take(i + 1) =~= keys@.take(i as int).push(k));
            assert(keys@.to_set().contains(k));
        }
        match children_get(&st.children, k) {
            Some(list) => {
                let filtered = match row_of(st.prims.as_slice(), k) {
                    Some(j) => {
                        let r = keep_variant_children(store, st.sources[j].as_slice(), list.as_slice());
                        proof {
                            let j0 = first_row(st.prims@, k, st.prims@.len() as int)->0;
                            assert(j0 == j as int);
                            assert(list@ == kids[k]);
                            assert(r@ == kids[k].filter(variant_kept(store.paths@, store_layers(*store), st.sources@[j0]@)));
                        }
                        r
                    },
                    None => {
                        let r = crate::listop::concat(list.as_slice(), &[]);
                        proof {
                            assert(list@ == kids[k]);
                            assert(r@ =~= kids[k]);
                        }
                        r
                    },
                };
                proof {
                    assert(filtered@ =~= variant_filtered(
                        store.paths@,
                        store_layers(*store),
                        st.prims@,
                        st.sources@,
                        kids,
                        k,
                    ));
                }
                children_insert(&mut out, k, filtered);
            },
            None => {},
        }
        proof {
            assert forall|x: PathId| #[trigger] children_contents(out).dom().contains(x) <==> keys@.take(i + 1).contains(x) by {
                if x != k {
                    assert(keys@.take(i + 1).contains(x) <==> keys@.take(i as int).contains(x));
                } else {
                    assert(keys@.take(i + 1)[i as int] == k);
                }
            }
        }
        i = i + 1;
    }
    proof {
        assert(keys@.take(m as int) =~= keys@);
        assert forall|k: PathId| keys@.contains(k) <==> kids.dom().contains(k) by {
            assert(keys@.to_set().contains(k) <==> keys@.contains(k));
        }
        assert(children_contents(out).dom() =~= kids.dom());
    }
    st.children = out;
}

} // verus!

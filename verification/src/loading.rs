//! Building a layer of the store from the prim records read from a layer
//! file: each record outside a variant branch becomes a prim spec with its
//! specifier and the names of the records directly below it.
use crate::doc::{LayerId, Specifier};
use crate::interner::TokenId;
use crate::path::{extends, has_empty_segment, is_root_text, names_tokens, path_segments, Path, PathId};
use crate::prim_defs::PrimDef;
use crate::store::{layer_prims, store_layers, InMemoryStore, Layer, PrimSpec};
use vstd::prelude::*;

verus! {

/// `s` is an absolute path text: `/` alone, or `/` followed by non-empty
/// `/`-separated names.
pub open spec fn absolute_path_text(s: Seq<char>) -> bool {
    &&& s.len() > 0
    &&& s[0] == '/'
    &&& (is_root_text(s) || !has_empty_segment(s))
}

/// The token path `ids` spells the path text `s` in `tokens`.
pub open spec fn spells(tokens: Seq<Seq<char>>, ids: Seq<TokenId>, s: Seq<char>) -> bool {
    if is_root_text(s) {
        ids.len() == 0
    } else {
        names_tokens(tokens, ids, path_segments(s))
    }
}

/// The record is outside every variant branch.
pub open spec fn plain_record(d: PrimDef) -> bool {
    d.variant_parent is None
}

/// The total length of the path texts of the first `n` records.
pub open spec fn path_text_total(defs: Seq<PrimDef>, n: int) -> int
    decreases n,
{
    if n <= 0 {
        0
    } else {
        path_text_total(defs, n - 1) + defs[n - 1].path@.len()
    }
}

/// The names of the children of `q` among the first `n` record paths, in
/// first-seen order, each once.
pub open spec fn child_names(paths: Seq<Seq<TokenId>>, ids: Seq<Option<PathId>>, q: PathId, n: int) -> Seq<
    TokenId,
>
    decreases n,
{
    if n <= 0 {
        Seq::empty()
    } else {
        let prev = child_names(paths, ids, q, n - 1);
        match ids[n - 1] {
            Some(m) => {
                let pm = paths[m.index()];
                if pm.len() > 0 && pm.drop_last() == paths[q.index()] && !prev.contains(pm.last()) {
                    prev.push(pm.last())
                } else {
                    prev
                }
            },
            None => prev,
        }
    }
}

/// The specifier of the last of the first `n` records at `p`, if any.
pub open spec fn last_specifier(ids: Seq<Option<PathId>>, defs: Seq<PrimDef>, p: PathId, n: int) -> Option<
    Specifier,
>
    decreases n,
{
    if n <= 0 {
        None
    } else if ids[n - 1] == Some(p) {
        Some(defs[n - 1].specifier)
    } else {
        last_specifier(ids, defs, p, n - 1)
    }
}

/// `spec` authors its specifier and children and nothing else.
pub open spec fn spec_with(spec: PrimSpec, specifier: Option<Specifier>, children: Seq<TokenId>) -> bool {
    &&& spec.specifier == specifier
    &&& spec.authored_children@ == children
    &&& spec.schema_type is None
    &&& spec.fields@.len() == 0
    &&& spec.variant_set_order@.len() == 0
    &&& spec.variant_selections@.len() == 0
    &&& spec.variant_sets@.len() == 0
    &&& spec.inherits.explicit is None
    &&& spec.inherits.prepend@.len() == 0
    &&& spec.inherits.append@.len() == 0
    &&& spec.inherits.delete@.len() == 0
    &&& spec.specializes.explicit is None
    &&& spec.specializes.prepend@.len() == 0
    &&& spec.specializes.append@.len() == 0
    &&& spec.specializes.delete@.len() == 0
    &&& spec.prim_order is None
    &&& spec.instanceable is None
    &&& spec.active is None
}

/// The ids of the record paths: `None` for a record inside a variant
/// branch, the interned id of its path otherwise.
pub open spec fn record_ids_ok(
    tokens: Seq<Seq<char>>,
    paths: Seq<Seq<TokenId>>,
    defs: Seq<PrimDef>,
    ids: Seq<Option<PathId>>,
) -> bool {
    &&& ids.len() == defs.len()
    &&& forall|k: int| 0 <= k < ids.len() ==> ((#[trigger] ids[k]) is None <==> !plain_record(defs[k]))
    &&& forall|k: int|
        0 <= k < ids.len() && ids[k] is Some ==> 0 <= (#[trigger] ids[k])->0.index() < paths.len() && spells(
            tokens,
            paths[ids[k]->0.index()],
            defs[k].path@,
        )
}

/// Parses and interns the path of each record outside a variant branch.
/// `None` when such a path is not an absolute path text, or the interners
/// would run out of 32-bit ids.
#[verifier::spinoff_prover]
fn intern_record_paths(store: &mut InMemoryStore, defs: &[PrimDef]) -> (r: Option<Vec<Option<PathId>>>)
    ensures
        store_layers(*final(store)) == store_layers(*old(store)),
        extends(final(store).tokens@, old(store).tokens@),
        extends(final(store).paths@, old(store).paths@),
        r matches Some(ids) ==> record_ids_ok(final(store).tokens@, final(store).paths@, defs@, ids@),
        r is None ==> (exists|k: int|
            0 <= k < defs@.len() && plain_record(defs@[k]) && !absolute_path_text(#[trigger] defs@[k].path@))
            || old(store).tokens@.len() + path_text_total(defs@, defs@.len() as int) >= u32::MAX
            || old(store).paths@.len() + defs@.len() >= u32::MAX,
{
    let ghost t0 = store.tokens@;
    let ghost p0 = store.paths@;
    let mut ids: Vec<Option<PathId>> = Vec::new();
    let n = defs.len();
    let mut k: usize = 0;
    proof {
        lemma_extends_refl(t0);
        lemma_extends_refl(p0);
    }
    while k < n
        invariant
            n == defs@.len(),
            k <= n,
            store_layers(*store) == store_layers(*old(store)),
            t0 == old(store).tokens@,
            p0 == old(store).paths@,
            extends(store.tokens@, t0),
            extends(store.paths@, p0),
            store.tokens@.len() <= t0.len() + path_text_total(defs@, k as int),
            store.paths@.len() <= p0.len() + k,
            record_ids_ok(store.tokens@, store.paths@, defs@.take(k as int), ids@),
            forall|j: int|
                0 <= j < k && plain_record(defs@[j]) ==> absolute_path_text(#[trigger] defs@[j].path@),
        decreases n - k,
    {
        let d = &defs[k];
        let ghost tk = store.tokens@;
        let ghost pk = store.paths@;
        proof {
            assert(defs@.take(k + 1).drop_last() =~= defs@.take(k as int));
            assert(path_text_total(defs@, k + 1) == path_text_total(defs@, k as int) + defs@[k as int].path@.len());
            assert(path_text_total(defs@, k as int) >= 0) by {
                lemma_total_nonneg(defs@, k as int);
            }
        }
        match &d.variant_parent {
            Some(_) => {
                ids.push(None);
            },
            None => {
                let text_len = crate::text::chars_of(d.path.as_str()).len();
                if store.tokens.len() >= u32::MAX as usize || text_len >= u32::MAX as usize
                    - store.tokens.len() || store.paths.len() >= u32::MAX as usize - 1 {
                    proof {
                        lemma_total_mono(defs@, k + 1, n as int);
                        lemma_extends_refl(store.tokens@);
                    }
                    return None;
                }
                let parsed = Path::parse_absolute(d.path.as_str(), &mut store.tokens);
                match parsed {
                    Ok(p) => {
                        let ghost pv = p@;
                        let id = store.paths.intern(p);
                        proof {
                            assert(absolute_path_text(d.path@)) by {
                                if !(d.path@.len() > 0 && d.path@[0] == '/') {
                                } else if !is_root_text(d.path@) {
                                }
                            }
                            assert(store.paths@ =~= crate::interner::interned(pk, pv));
                            assert(extends(store.paths@, pk)) by {
                                assert(store.paths@.subrange(0, pk.len() as int) =~= pk);
                            }
                            assert(spells(store.tokens@, store.paths@[id.index()], d.path@));
                        }
                        ids.push(Some(id));
                    },
                    Err(_) => {
                        proof {
                            lemma_extends_trans(t0, tk, store.tokens@);
                            assert(!absolute_path_text(d.path@));
                            assert(defs@[k as int] == *d);
                        }
                        return None;
                    },
                }
            },
        }
        proof {
            if store.tokens@ == tk {
                lemma_extends_refl(tk);
            }
            if store.paths@ == pk {
                lemma_extends_refl(pk);
            }
            lemma_extends_trans(t0, tk, store.tokens@);
            lemma_extends_trans(p0, pk, store.paths@);
            let dk = defs@.take(k + 1);
            assert forall|j: int| 0 <= j < ids@.len() && ids@[j] is Some implies 0 <= (#[trigger] ids@[j])->0.index()
                < store.paths@.len() && spells(store.tokens@, store.paths@[ids@[j]->0.index()], dk[j].path@) by {
                if j < k {
                    let q = ids@[j]->0.index();
                    assert(store.paths@[q] == pk[q]);
                    lemma_spells_grow(tk, store.tokens@, pk[q], dk[j].path@);
                }
            }
        }
        k = k + 1;
    }
    proof {
        assert(defs@.take(n as int) =~= defs@);
    }
    Some(ids)
}

/// Every sequence extends itself.
proof fn lemma_extends_refl<T>(a: Seq<T>)
    ensures
        extends(a, a),
{
    assert(a.subrange(0, a.len() as int) =~= a);
}

/// Extension is transitive.
proof fn lemma_extends_trans<T>(a: Seq<T>, b: Seq<T>, c: Seq<T>)
    requires
        extends(b, a),
        extends(c, b),
    ensures
        extends(c, a),
{
    assert(c.subrange(0, a.len() as int) =~= a) by {
        assert forall|i: int| 0 <= i < a.len() implies c.subrange(0, a.len() as int)[i] == a[i] by {
            assert(c.subrange(0, b.len() as int)[i] == b[i]);
            assert(b.subrange(0, a.len() as int)[i] == a[i]);
        }
    }
}

/// The path-text total never goes down.
proof fn lemma_total_nonneg(defs: Seq<PrimDef>, n: int)
    ensures
        path_text_total(defs, n) >= 0,
    decreases n,
{
    if n > 0 {
        lemma_total_nonneg(defs, n - 1);
    }
}

/// The path-text total grows with the number of records.
proof fn lemma_total_mono(defs: Seq<PrimDef>, a: int, b: int)
    requires
        a <= b,
    ensures
        path_text_total(defs, a) <= path_text_total(defs, b),
    decreases b - a,
{
    if a < b {
        lemma_total_mono(defs, a, b - 1);
    }
}

/// Spelling survives growing the token interner.
proof fn lemma_spells_grow(t0: Seq<Seq<char>>, t1: Seq<Seq<char>>, ids: Seq<TokenId>, s: Seq<char>)
    requires
        extends(t1, t0),
        spells(t0, ids, s),
    ensures
        spells(t1, ids, s),
{
    if !is_root_text(s) {
        assert forall|k: int| 0 <= k < ids.len() implies 0 <= #[trigger] ids[k].index() < t1.len() && t1[ids[k].index()]
            == path_segments(s)[k] by {
            assert(t1.subrange(0, t0.len() as int)[ids[k].index()] == t1[ids[k].index()]);
        }
    }
}

/// The names of the children of `q` among the record paths `ids`.
fn children_among(store: &InMemoryStore, ids: &[Option<PathId>], q: PathId) -> (r: Vec<TokenId>)
    requires
        store.paths.contains_id(q),
        forall|k: int| 0 <= k < ids@.len() && ids@[k] is Some ==> store.paths.contains_id((#[trigger] ids@[k])->0),
    ensures
        r@ == child_names(store.paths@, ids@, q, ids@.len() as int),
{
    let qp = store.paths.resolve(q);
    let mut out: Vec<TokenId> = Vec::new();
    let n = ids.len();
    let mut k: usize = 0;
    while k < n
        invariant
            n == ids@.len(),
            k <= n,
            qp@ == store.paths@[q.index()],
            forall|j: int| 0 <= j < ids@.len() && ids@[j] is Some ==> store.paths.contains_id((#[trigger] ids@[j])->0),
            out@ == child_names(store.paths@, ids@, q, k as int),
        decreases n - k,
    {
        match ids[k] {
            Some(m) => {
                proof {
                    assert(ids@[k as int] is Some);
                }
                let pm = store.paths.resolve(m);
                match pm.parent() {
                    Some(parent) => {
                        if qp.is_prefix_of(&parent) && parent.depth() == qp.depth() {
                            match pm.leaf() {
                                Some(leaf) => {
                                    let mut seen = false;
                                    let c = out.len();
                                    let mut i: usize = 0;
                                    while i < c
                                        invariant
                                            c == out@.len(),
                                            i <= c,
                                            seen == out@.take(i as int).contains(leaf),
                                        decreases c - i,
                                    {
                                        proof {
                                            assert(out@.take(i + 1) =~= out@.take(i as int).push(out@[i as int]));
                                        }
                                        if out[i] == leaf {
                                            seen = true;
                                            proof {
                                                assert(out@.take(i + 1)[i as int] == leaf);
                                            }
                                        } else {
                                            proof {
                                                if out@.take(i + 1).contains(leaf) {
                                                    let x = choose|x: int|
                                                        0 <= x < i + 1 && #[trigger] out@.take(i + 1)[x] == leaf;
                                                    assert(out@.take(i as int)[x] == leaf);
                                                }
                                            }
                                        }
                                        i = i + 1;
                                    }
                                    proof {
                                        assert(out@.take(c as int) =~= out@);
                                        assert(parent@ =~= qp@);
                                    }
                                    if !seen {
                                        out.push(leaf);
                                    }
                                },
                                None => {},
                            }
                        } else {
                            proof {
                                if pm@.len() > 0 && pm@.drop_last() == qp@ {
                                    assert(parent@.subrange(0, qp@.len() as int) =~= qp@);
                                }
                            }
                        }
                    },
                    None => {},
                }
            },
            None => {},
        }
        k = k + 1;
    }
    out
}

/// Builds the layer `id` from the records of a layer file and its
/// sublayer list, and adds it to the store: each record outside a variant
/// branch becomes a spec at its interned path, with the specifier of the
/// last record at that path and, as authored children, the names of the
/// records directly below it in first-seen order; nothing else is
/// authored. `None`, with no layer added, when a record's path is not an
/// absolute path text or the interners would run out of 32-bit ids.
pub fn layer_from_defs(store: &mut InMemoryStore, id: LayerId, defs: &[PrimDef], sublayers: &[LayerId]) -> (r:
    Option<LayerId>)
    ensures
        extends(final(store).tokens@, old(store).tokens@),
        extends(final(store).paths@, old(store).paths@),
        r is None ==> store_layers(*final(store)) == store_layers(*old(store)),
        r is None ==> (exists|k: int|
            0 <= k < defs@.len() && plain_record(defs@[k]) && !absolute_path_text(#[trigger] defs@[k].path@))
            || old(store).tokens@.len() + path_text_total(defs@, defs@.len() as int) >= u32::MAX
            || old(store).paths@.len() + defs@.len() >= u32::MAX,
        r matches Some(x) ==> x == id && exists|ids: Seq<Option<PathId>>|
            #![trigger record_ids_ok(final(store).tokens@, final(store).paths@, defs@, ids)]
            {
                let layers = store_layers(*final(store));
                &&& record_ids_ok(final(store).tokens@, final(store).paths@, defs@, ids)
                &&& layers == store_layers(*old(store)).insert(id.0, layers[id.0])
                &&& layers[id.0].id == id
                &&& layers[id.0].sublayers@ == sublayers@
                &&& forall|p: PathId|
                    #![trigger layer_prims(layers[id.0]).dom().contains(p)]
                    layer_prims(layers[id.0]).dom().contains(p) <==> last_specifier(
                        ids,
                        defs@,
                        p,
                        defs@.len() as int,
                    ) is Some
                &&& forall|p: PathId|
                    #![trigger layer_prims(layers[id.0])[p]]
                    layer_prims(layers[id.0]).dom().contains(p) ==> spec_with(
                        layer_prims(layers[id.0])[p],
                        last_specifier(ids, defs@, p, defs@.len() as int),
                        child_names(final(store).paths@, ids, p, defs@.len() as int),
                    )
            },
{
    let ids = match intern_record_paths(store, defs) {
        Some(v) => v,
        None => {
            return None;
        },
    };
    let ghost layers0 = store_layers(*store);
    let mut layer = Layer::new(id);
    layer.sublayers = crate::listop::concat(sublayers, &[]);
    let n = ids.len();
    let mut k: usize = 0;
    while k < n
        invariant
            n == ids@.len(),
            n == defs@.len(),
            k <= n,
            layer.id == id,
            layer.sublayers@ == sublayers@,
            record_ids_ok(store.tokens@, store.paths@, defs@, ids@),
            forall|p: PathId|
                #![trigger layer_prims(layer).dom().contains(p)]
                layer_prims(layer).dom().contains(p) <==> last_specifier(ids@, defs@, p, k as int) is Some,
            forall|p: PathId|
                #![trigger layer_prims(layer)[p]]
                layer_prims(layer).dom().contains(p) ==> spec_with(
                    layer_prims(layer)[p],
                    last_specifier(ids@, defs@, p, k as int),
                    child_names(store.paths@, ids@, p, n as int),
                ),
        decreases n - k,
    {
        match ids[k] {
            Some(p) => {
                proof {
                    assert(ids@[k as int] is Some);
                    assert forall|j: int| 0 <= j < ids@.len() && ids@[j] is Some implies store.paths.contains_id(
                        (#[trigger] ids@[j])->0,
                    ) by {}
                }
                let names = children_among(store, ids.as_slice(), p);
                let spec = PrimSpec::with_specifier(Some(defs[k].specifier)).with_children(names);
                layer.insert_prim(p, spec);
            },
            None => {},
        }
        k = k + 1;
    }
    store.insert_layer(layer);
    proof {
        let layers = store_layers(*store);
        assert(layers =~= layers0.insert(id.0, layers[id.0]));
        assert(record_ids_ok(store.tokens@, store.paths@, defs@, ids@));
    }
    Some(id)
}

} // verus!

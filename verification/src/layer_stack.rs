//! Layer stack gathering.
//!
//! A [`LayerStack`] is an ordered list of layers from strongest to weakest,
//! gathered recursively by following sublayers: a layer comes before (is
//! stronger than) every layer it pulls in. A layer may appear more than once;
//! a sublayer cycle is cut where it would revisit a layer on the current
//! chain.

use vstd::prelude::*;

use crate::doc::LayerId;
use crate::hashed::{LayerTable, U64Set, layer_table_contents, u64_set_contents};

verus! {

broadcast use vstd::set::group_set_axioms;

/// The sublayer lists of a set of layers, keyed by layer id.
#[derive(Debug)]
pub struct SublayerGraph {
    table: LayerTable,
}

impl View for SublayerGraph {
    type V = Map<u64, Seq<LayerId>>;

    closed spec fn view(&self) -> Map<u64, Seq<LayerId>> {
        layer_table_contents(self.table)
    }
}

impl SublayerGraph {
    /// The graph has finitely many layers.
    #[verifier::type_invariant]
    closed spec fn inv(self) -> bool {
        layer_table_contents(self.table).dom().finite()
    }

    /// A graph with no layers.
    pub fn new() -> (r: Self)
        ensures
            r@.dom() == Set::<u64>::empty(),
    {
        SublayerGraph { table: crate::hashed::layer_table_new() }
    }

    /// Inserts (or replaces) the sublayer list of layer `id`.
    pub fn insert_layer(&mut self, id: LayerId, sublayers: Vec<LayerId>)
        ensures
            final(self)@ == old(self)@.insert(id.0, sublayers@),
    {
        proof {
            use_type_invariant(&*self);
        }
        let mut table = crate::hashed::layer_table_new();
        std::mem::swap(&mut table, &mut self.table);
        crate::hashed::layer_table_insert(&mut table, id.0, sublayers);
        self.table = table;
    }

    /// The sublayer list of layer `id`, if the graph holds the layer.
    pub fn sublayers(&self, id: LayerId) -> (r: Option<&Vec<LayerId>>)
        ensures
            r is Some <==> self@.dom().contains(id.0),
            r matches Some(v) ==> v@ == self@[id.0],
    {
        crate::hashed::layer_table_get(&self.table, id.0)
    }
}

/// One entry of a gathered stack: the layer, and where it came from — the
/// stack index of the layer that lists it and its position in that layer's
/// sublayer list (`None` for the root).
#[derive(Clone, Copy, Debug, PartialEq, Eq)]
pub struct StackEntry {
    /// The layer.
    pub layer: LayerId,
    /// `(parent stack index, sublayer position)`, or `None` for the root.
    pub origin: Option<(usize, usize)>,
}

/// Removing an element of a finite set from the difference shrinks it.
pub proof fn lemma_difference_shrinks(s: Set<u64>, v: Set<u64>, x: u64)
    requires
        s.finite(),
        s.contains(x),
        !v.contains(x),
    ensures
        s.difference(v.insert(x)).len() < s.difference(v).len(),
{
    assert(s.difference(v.insert(x)) =~= s.difference(v).remove(x));
}

/// The entries contributed by visiting `id` with `vis` on the current chain,
/// the entry for `id` landing at stack index `base`.
pub open spec fn visit_entries(
    g: Map<u64, Seq<LayerId>>,
    id: LayerId,
    vis: Set<u64>,
    origin: Option<(usize, usize)>,
    base: int,
) -> Seq<StackEntry>
    decreases g.dom().difference(vis).len(), 0nat, 0int,
{
    if vis.contains(id.0) {
        Seq::empty()
    } else if !g.dom().finite() || !g.dom().contains(id.0) {
        seq![StackEntry { layer: id, origin }]
    } else {
        proof {
            lemma_difference_shrinks(g.dom(), vis, id.0);
        }
        seq![StackEntry { layer: id, origin }] + visit_children(
            g,
            g[id.0],
            0,
            vis.insert(id.0),
            base,
            base + 1,
        )
    }
}

/// The entries contributed by the sublayers `subs[k..]` of the layer at
/// stack index `parent`, the first landing at index `base`.
pub open spec fn visit_children(
    g: Map<u64, Seq<LayerId>>,
    subs: Seq<LayerId>,
    k: int,
    vis: Set<u64>,
    parent: int,
    base: int,
) -> Seq<StackEntry>
    decreases g.dom().difference(vis).len(), 1nat, subs.len() - k,
{
    if k < 0 || k >= subs.len() {
        Seq::empty()
    } else {
        let first = visit_entries(g, subs[k], vis, Some((parent as usize, k as usize)), base);
        first + visit_children(g, subs, k + 1, vis, parent, base + first.len())
    }
}

/// The stack gathered from `root`.
pub open spec fn gathered(g: Map<u64, Seq<LayerId>>, root: LayerId) -> Seq<StackEntry> {
    visit_entries(g, root, Set::empty(), None, 0)
}

/// Every sublayer list of the graph fits a `usize` index.
pub open spec fn lists_fit(g: Map<u64, Seq<LayerId>>) -> bool {
    forall|l: u64| #[trigger] g.dom().contains(l) ==> g[l].len() <= usize::MAX
}

/// Entry `i` of `es` was pulled in by entry `p` as sublayer `k` of that
/// entry's layer.
pub open spec fn pulled_in_by(g: Map<u64, Seq<LayerId>>, es: Seq<StackEntry>, i: int, p: int, k: int) -> bool {
    &&& 0 <= p < i
    &&& g.dom().contains(es[p].layer.0)
    &&& 0 <= k < g[es[p].layer.0].len()
    &&& g[es[p].layer.0][k] == es[i].layer
}

/// Entry `i` of `es` (whose first entry sits at stack index `base`) records
/// an origin inside `es` that pulled it in.
pub open spec fn origin_inside(g: Map<u64, Seq<LayerId>>, es: Seq<StackEntry>, base: int, i: int) -> bool {
    es[i].origin matches Some((p, k)) && pulled_in_by(g, es, i, p - base, k as int)
}

/// Entry `i` of a sublayer run `cs` (first entry at stack index `base`)
/// records as origin either the run's parent, as one of `subs[k0..]`, or an
/// earlier entry of the run that pulled it in.
pub open spec fn origin_in_run(
    g: Map<u64, Seq<LayerId>>,
    subs: Seq<LayerId>,
    k0: int,
    parent: int,
    cs: Seq<StackEntry>,
    base: int,
    i: int,
) -> bool {
    cs[i].origin matches Some((p, k)) && ((p == parent && k0 <= k < subs.len() && subs[k as int]
        == cs[i].layer) || pulled_in_by(g, cs, i, p - base, k as int))
}

/// Shape of the entries contributed by one visit: the visited layer first
/// (unless it is on the chain), and every later entry pulled in by an earlier
/// entry of the same visit.
pub proof fn lemma_visit_shape(
    g: Map<u64, Seq<LayerId>>,
    id: LayerId,
    vis: Set<u64>,
    origin: Option<(usize, usize)>,
    base: int,
)
    requires
        0 <= base,
        base + visit_entries(g, id, vis, origin, base).len() <= usize::MAX + 1,
        lists_fit(g),
    ensures
        vis.contains(id.0) ==> visit_entries(g, id, vis, origin, base).len() == 0,
        !vis.contains(id.0) ==> visit_entries(g, id, vis, origin, base).len() >= 1
            && visit_entries(g, id, vis, origin, base)[0] == (StackEntry { layer: id, origin }),
        forall|i: int|
            1 <= i < visit_entries(g, id, vis, origin, base).len() ==> #[trigger] origin_inside(
                g,
                visit_entries(g, id, vis, origin, base),
                base,
                i,
            ),
    decreases g.dom().difference(vis).len(), 0nat, 0int,
{
    let es = visit_entries(g, id, vis, origin, base);
    if vis.contains(id.0) || !g.dom().finite() || !g.dom().contains(id.0) {
    } else {
        let inner = vis.insert(id.0);
        lemma_difference_shrinks(g.dom(), vis, id.0);
        let subs = g[id.0];
        let cs = visit_children(g, subs, 0, inner, base, base + 1);
        assert(es == seq![StackEntry { layer: id, origin }] + cs);
        lemma_children_shape(g, subs, 0, inner, base, base + 1);
        assert forall|i: int| 1 <= i < es.len() implies #[trigger] origin_inside(g, es, base, i) by {
            assert(es[i] == cs[i - 1]);
            assert(origin_in_run(g, subs, 0, base, cs, base + 1, i - 1));
            let (p, k) = cs[i - 1].origin->0;
            if p == base {
                assert(es[0].layer == id);
            } else {
                assert(es[p - base] == cs[p - base - 1]);
            }
        }
    }
}

/// Shape of the entries contributed by the sublayers `subs[k0..]` of the
/// layer at stack index `parent`.
pub proof fn lemma_children_shape(
    g: Map<u64, Seq<LayerId>>,
    subs: Seq<LayerId>,
    k0: int,
    vis: Set<u64>,
    parent: int,
    base: int,
)
    requires
        0 <= parent < base,
        0 <= k0,
        subs.len() <= usize::MAX,
        base + visit_children(g, subs, k0, vis, parent, base).len() <= usize::MAX + 1,
        lists_fit(g),
    ensures
        forall|i: int|
            0 <= i < visit_children(g, subs, k0, vis, parent, base).len() ==> #[trigger] origin_in_run(
                g,
                subs,
                k0,
                parent,
                visit_children(g, subs, k0, vis, parent, base),
                base,
                i,
            ),
    decreases g.dom().difference(vis).len(), 1nat, subs.len() - k0,
{
    let cs = visit_children(g, subs, k0, vis, parent, base);
    if k0 < subs.len() {
        let f = visit_entries(g, subs[k0], vis, Some((parent as usize, k0 as usize)), base);
        let rest = visit_children(g, subs, k0 + 1, vis, parent, base + f.len());
        assert(cs == f + rest);
        lemma_visit_shape(g, subs[k0], vis, Some((parent as usize, k0 as usize)), base);
        lemma_children_shape(g, subs, k0 + 1, vis, parent, base + f.len());
        assert forall|i: int| 0 <= i < cs.len() implies #[trigger] origin_in_run(
            g,
            subs,
            k0,
            parent,
            cs,
            base,
            i,
        ) by {
            if i < f.len() {
                assert(cs[i] == f[i]);
                if i > 0 {
                    assert(origin_inside(g, f, base, i));
                    let (p, k) = f[i].origin->0;
                    assert(cs[p - base] == f[p - base]);
                }
            } else {
                assert(cs[i] == rest[i - f.len()]);
                assert(origin_in_run(g, subs, k0 + 1, parent, rest, base + f.len(), i - f.len()));
                let (p, k) = rest[i - f.len()].origin->0;
                if p != parent {
                    assert(cs[p - base] == rest[p - base - f.len()]);
                }
            }
        }
    }
}

/// The gathered stack starts with the root layer, and every later entry was
/// pulled in as a sublayer by an earlier entry: a layer is always stronger
/// than the sublayers it pulls in.
pub proof fn law_layer_before_its_sublayers(g: Map<u64, Seq<LayerId>>, root: LayerId)
    requires
        lists_fit(g),
        gathered(g, root).len() <= usize::MAX,
    ensures
        gathered(g, root).len() >= 1,
        gathered(g, root)[0] == (StackEntry { layer: root, origin: None }),
        forall|i: int|
            1 <= i < gathered(g, root).len() ==> #[trigger] origin_inside(g, gathered(g, root), 0, i),
{
    lemma_visit_shape(g, root, Set::empty(), None, 0);
}

/// Whether layer `l` lies on the chain of entries that pulled entry `i` of
/// `es` in (its origin, that entry's origin, ...), following origins while
/// they point to earlier entries of `es` (whose first entry sits at stack
/// index `base`).
pub open spec fn on_chain(es: Seq<StackEntry>, base: int, i: int, l: u64) -> bool
    decreases i,
{
    if 0 <= i < es.len() {
        match es[i].origin {
            Some((p, _)) => {
                let q = p - base;
                0 <= q < i && (es[q].layer.0 == l || on_chain(es, base, q, l))
            },
            None => false,
        }
    } else {
        false
    }
}

/// Chains of entries of `f` embedded in `es` at offset `a` are the same in
/// both, when every origin in `f` points to an earlier entry of `f` or
/// before `es`.
proof fn lemma_chain_embed(es: Seq<StackEntry>, base: int, a: int, f: Seq<StackEntry>, j: int, l: u64)
    requires
        0 <= a,
        a + f.len() <= es.len(),
        forall|x: int| 0 <= x < f.len() ==> es[a + x] == #[trigger] f[x],
        forall|x: int|
            0 <= x < f.len() ==> ((#[trigger] f[x]).origin matches Some((p, k)) ==> (0 <= p - (base
                + a) < x || p < base)),
        0 <= j < f.len(),
    ensures
        on_chain(es, base, a + j, l) == on_chain(f, base + a, j, l),
    decreases j,
{
    assert(es[a + j] == f[j]);
    match f[j].origin {
        Some((p, k)) => {
            let qf = p - (base + a);
            if 0 <= qf < j {
                lemma_chain_embed(es, base, a, f, qf, l);
                assert(es[a + qf] == f[qf]);
            }
        },
        None => {},
    }
}

/// Below an entry `e0` whose origin points before the stack, the chains of
/// a run `c` pulled in under `e0` are the run's own chains plus `e0`.
proof fn lemma_chain_parent(es: Seq<StackEntry>, base: int, c: Seq<StackEntry>, t: int, l: u64)
    requires
        es.len() == c.len() + 1,
        forall|x: int| 0 <= x < c.len() ==> es[1 + x] == #[trigger] c[x],
        es[0].origin matches Some((p, k)) ==> p < base,
        forall|x: int|
            0 <= x < c.len() ==> ((#[trigger] c[x]).origin matches Some((p, k)) && (p == base || 0
                <= p - (base + 1) < x)),
        0 <= t < c.len(),
    ensures
        on_chain(es, base, 1 + t, l) == (on_chain(c, base + 1, t, l) || l == es[0].layer.0),
    decreases t,
{
    assert(es[1 + t] == c[t]);
    assert(!on_chain(es, base, 0, l));
    let (p, k) = c[t].origin->0;
    if p != base {
        let qc = p - (base + 1);
        lemma_chain_parent(es, base, c, qc, l);
        assert(es[1 + qc] == c[qc]);
    }
}

/// The entries of one visit: none lies on the current chain `vis`, and none
/// lies on its own chain of entries within the visit.
proof fn lemma_visit_no_cycle(
    g: Map<u64, Seq<LayerId>>,
    id: LayerId,
    vis: Set<u64>,
    origin: Option<(usize, usize)>,
    base: int,
)
    requires
        0 <= base,
        base + visit_entries(g, id, vis, origin, base).len() <= usize::MAX + 1,
        lists_fit(g),
        origin matches Some((p, k)) ==> p < base,
    ensures
        forall|t: int|
            0 <= t < visit_entries(g, id, vis, origin, base).len() ==> !vis.contains(
                (#[trigger] visit_entries(g, id, vis, origin, base)[t]).layer.0,
            ) && !on_chain(
                visit_entries(g, id, vis, origin, base),
                base,
                t,
                visit_entries(g, id, vis, origin, base)[t].layer.0,
            ),
    decreases g.dom().difference(vis).len(), 0nat, 0int,
{
    let es = visit_entries(g, id, vis, origin, base);
    if vis.contains(id.0) {
    } else if !g.dom().finite() || !g.dom().contains(id.0) {
        assert(!on_chain(es, base, 0, id.0));
    } else {
        let inner = vis.insert(id.0);
        lemma_difference_shrinks(g.dom(), vis, id.0);
        let subs = g[id.0];
        let cs = visit_children(g, subs, 0, inner, base, base + 1);
        assert(es == seq![StackEntry { layer: id, origin }] + cs);
        lemma_children_shape(g, subs, 0, inner, base, base + 1);
        lemma_children_no_cycle(g, subs, 0, inner, base, base + 1);
        assert forall|x: int| 0 <= x < cs.len() implies ((#[trigger] cs[x]).origin matches Some((p, k))
            && (p == base || 0 <= p - (base + 1) < x)) by {
            assert(origin_in_run(g, subs, 0, base, cs, base + 1, x));
        }
        assert forall|t: int| 0 <= t < es.len() implies !vis.contains((#[trigger] es[t]).layer.0)
            && !on_chain(es, base, t, es[t].layer.0) by {
            if t == 0 {
                assert(!on_chain(es, base, 0, id.0));
            } else {
                assert(es[t] == cs[t - 1]);
                lemma_chain_parent(es, base, cs, t - 1, es[t].layer.0);
                assert(1 + (t - 1) == t);
            }
        }
    }
}

/// The entries of the sublayers `subs[k0..]`: none lies on the current
/// chain `vis`, and none lies on its own chain of entries within the run.
proof fn lemma_children_no_cycle(
    g: Map<u64, Seq<LayerId>>,
    subs: Seq<LayerId>,
    k0: int,
    vis: Set<u64>,
    parent: int,
    base: int,
)
    requires
        0 <= parent < base,
        0 <= k0,
        subs.len() <= usize::MAX,
        base + visit_children(g, subs, k0, vis, parent, base).len() <= usize::MAX + 1,
        lists_fit(g),
    ensures
        forall|t: int|
            0 <= t < visit_children(g, subs, k0, vis, parent, base).len() ==> !vis.contains(
                (#[trigger] visit_children(g, subs, k0, vis, parent, base)[t]).layer.0,
            ) && !on_chain(
                visit_children(g, subs, k0, vis, parent, base),
                base,
                t,
                visit_children(g, subs, k0, vis, parent, base)[t].layer.0,
            ),
    decreases g.dom().difference(vis).len(), 1nat, subs.len() - k0,
{
    let cs = visit_children(g, subs, k0, vis, parent, base);
    if k0 < subs.len() {
        let org = Some((parent as usize, k0 as usize));
        let f = visit_entries(g, subs[k0], vis, org, base);
        let rest = visit_children(g, subs, k0 + 1, vis, parent, base + f.len());
        assert(cs == f + rest);
        lemma_visit_shape(g, subs[k0], vis, org, base);
        lemma_visit_no_cycle(g, subs[k0], vis, org, base);
        lemma_children_shape(g, subs, k0 + 1, vis, parent, base + f.len());
        lemma_children_no_cycle(g, subs, k0 + 1, vis, parent, base + f.len());
        assert forall|x: int| 0 <= x < f.len() implies ((#[trigger] f[x]).origin matches Some((p, k))
            ==> (0 <= p - (base + 0) < x || p < base)) by {
            if x > 0 {
                assert(origin_inside(g, f, base, x));
            }
        }
        assert forall|x: int| 0 <= x < rest.len() implies ((#[trigger] rest[x]).origin matches Some((p, k))
            ==> (0 <= p - (base + f.len()) < x || p < base)) by {
            assert(origin_in_run(g, subs, k0 + 1, parent, rest, base + f.len(), x));
        }
        assert forall|t: int| 0 <= t < cs.len() implies !vis.contains((#[trigger] cs[t]).layer.0)
            && !on_chain(cs, base, t, cs[t].layer.0) by {
            if t < f.len() {
                assert(cs[t] == f[t]);
                assert forall|x: int| 0 <= x < f.len() implies cs[0 + x] == #[trigger] f[x] by {}
                lemma_chain_embed(cs, base, 0, f, t, cs[t].layer.0);
            } else {
                let u = t - f.len();
                assert(cs[t] == rest[u]);
                assert forall|x: int| 0 <= x < rest.len() implies cs[f.len() + x] == #[trigger] rest[x] by {}
                lemma_chain_embed(cs, base, f.len() as int, rest, u, cs[t].layer.0);
            }
        }
    }
}

/// Sublayer cycles are cut: no entry of the gathered stack lies on the
/// chain of entries that pulled it in, so no layer is reached again through
/// its own sublayers.
pub proof fn law_no_layer_on_its_own_chain(g: Map<u64, Seq<LayerId>>, root: LayerId)
    requires
        lists_fit(g),
        gathered(g, root).len() <= usize::MAX,
    ensures
        forall|i: int|
            0 <= i < gathered(g, root).len() ==> !on_chain(
                gathered(g, root),
                0,
                i,
                (#[trigger] gathered(g, root)[i]).layer.0,
            ),
{
    lemma_visit_no_cycle(g, root, Set::empty(), None, 0);
}

/// An ordered set of layers gathered recursively from sublayers, strongest
/// first, with the origin of each entry (for composing time offsets).
#[derive(Clone, Debug, PartialEq)]
pub struct LayerStack {
    /// Ordered strongest → weakest.
    pub layers: Vec<LayerId>,
    /// For each entry of `layers`: the stack index of the layer listing it and
    /// its position in that layer's sublayer list (`None` for the root).
    pub origins: Vec<Option<(usize, usize)>>,
}


/// Visits `id` with the layers on the current chain in `visiting`, pushing the
/// entries it contributes; `visiting` is restored on return.
fn visit(
    graph: &SublayerGraph,
    id: LayerId,
    origin: Option<(usize, usize)>,
    visiting: &mut U64Set,
    out: &mut Vec<StackEntry>,
)
    requires
        graph@.dom().finite(),
    ensures
        u64_set_contents(*final(visiting)) == u64_set_contents(*old(visiting)),
        final(out)@ == old(out)@ + visit_entries(
            graph@,
            id,
            u64_set_contents(*old(visiting)),
            origin,
            old(out)@.len() as int,
        ),
    decreases graph@.dom().difference(u64_set_contents(*old(visiting))).len(),
{
    let ghost vis = u64_set_contents(*visiting);
    let fresh = crate::hashed::u64_set_insert(visiting, id.0);
    if !fresh {
        proof {
            assert(u64_set_contents(*visiting) =~= vis);
            assert(out@ =~= old(out)@ + Seq::<StackEntry>::empty());
        }
        return;
    }
    let base = out.len();
    out.push(StackEntry { layer: id, origin });
    match graph.sublayers(id) {
        None => {},
        Some(subs) => {
            let ghost inner = vis.insert(id.0);
            let ghost g = graph@;
            proof {
                lemma_difference_shrinks(g.dom(), vis, id.0);
            }
            let n = subs.len();
            let mut k: usize = 0;
            let ghost mut done: Seq<StackEntry> = Seq::empty();
            while k < n
                invariant
                    g == graph@,
                    vis == u64_set_contents(*old(visiting)),
                    g.dom().finite(),
                    g.dom().contains(id.0),
                    !vis.contains(id.0),
                    inner == vis.insert(id.0),
                    g.dom().difference(inner).len() < g.dom().difference(vis).len(),
                    subs@ == g[id.0],
                    n == subs@.len(),
                    k <= n,
                    base == old(out)@.len(),
                    u64_set_contents(*visiting) == inner,
                    out@ == old(out)@ + seq![StackEntry { layer: id, origin }] + done,
                    visit_children(g, subs@, 0, inner, base as int, base + 1) == done
                        + visit_children(g, subs@, k as int, inner, base as int, out@.len() as int),
                decreases n - k,
            {
                let ghost before = out@;
                visit(graph, subs[k], Some((base, k)), visiting, out);
                proof {
                    let first = visit_entries(g, subs@[k as int], inner, Some((base, k)), before.len() as int);
                    assert(out@ == before + first);
                    assert(visit_children(g, subs@, k as int, inner, base as int, before.len() as int)
                        == first + visit_children(g, subs@, k + 1, inner, base as int, out@.len() as int));
                    assert(done + (first + visit_children(g, subs@, k + 1, inner, base as int, out@.len() as int))
                        =~= (done + first) + visit_children(g, subs@, k + 1, inner, base as int, out@.len() as int));
                    done = done + first;
                    assert(out@ =~= old(out)@ + seq![StackEntry { layer: id, origin }] + done);
                }
                k = k + 1;
            }
            proof {
                assert(visit_children(g, subs@, n as int, inner, base as int, out@.len() as int) =~= Seq::<StackEntry>::empty());
                assert(done + Seq::<StackEntry>::empty() =~= done);
            }
        },
    }
    crate::hashed::u64_set_remove(visiting, id.0);
    proof {
        assert(u64_set_contents(*visiting) =~= vis);
        assert(out@ =~= old(out)@ + visit_entries(graph@, id, vis, origin, old(out)@.len() as int));
    }
}

impl LayerStack {
    /// Gathers the layer stack rooted at `root`: the root first, then each
    /// sublayer's own stack in sublayer order. A layer already on the current
    /// sublayer chain is skipped (cycles are not fatal), but the same layer
    /// reached along different chains appears each time.
    pub fn gather(graph: &SublayerGraph, root: LayerId) -> (r: Self)
        ensures
            r.layers@.len() == gathered(graph@, root).len(),
            r.origins@.len() == gathered(graph@, root).len(),
            forall|i: int|
                0 <= i < r.layers@.len() ==> r.layers@[i] == (#[trigger] gathered(graph@, root)[i]).layer,
            forall|i: int|
                0 <= i < r.origins@.len() ==> r.origins@[i] == (#[trigger] gathered(graph@, root)[i]).origin,
    {
        proof {
            use_type_invariant(graph);
        }
        let mut visiting = crate::hashed::u64_set_new();
        let mut entries: Vec<StackEntry> = Vec::new();
        visit(graph, root, None, &mut visiting, &mut entries);
        proof {
            assert(entries@ =~= gathered(graph@, root));
        }
        let mut layers: Vec<LayerId> = Vec::new();
        let mut origins: Vec<Option<(usize, usize)>> = Vec::new();
        let n = entries.len();
        let mut i: usize = 0;
        while i < n
            invariant
                n == entries@.len(),
                entries@ == gathered(graph@, root),
                i <= n,
                layers@.len() == i,
                origins@.len() == i,
                forall|j: int|
                    0 <= j < i ==> #[trigger] layers@[j] == entries@[j].layer && origins@[j]
                        == entries@[j].origin,
            decreases n - i,
        {
            layers.push(entries[i].layer);
            origins.push(entries[i].origin);
            i = i + 1;
        }
        proof {
            assert forall|j: int| 0 <= j < layers@.len() implies layers@[j]
                == (#[trigger] gathered(graph@, root)[j]).layer && origins@[j] == gathered(graph@, root)[j].origin by {
                assert(layers@[j] == entries@[j].layer);
            }
        }
        LayerStack { layers, origins }
    }
}

} // verus!

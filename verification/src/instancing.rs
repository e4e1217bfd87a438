//! Instancing over a composed stage: each effective instance keeps only the
//! children its non-identity sources introduce, loses the subtrees of the
//! others, and its remaining descendants lose the local sources that lie
//! below its identity paths.
use crate::compose::{
    cut_below, instance_identity, keeps_source, named_in, non_identity_child, non_identity_child_names,
    retain_named_children, source_instanceables, store_instance_identity, strip_identity_local_sources,
    stripped_subtrees,
};
use crate::composition::Stage;
use crate::doc::LayerId;
use crate::hashed::{
    children_contents, children_get, children_insert, children_keys, children_new, opinions_contents,
    opinions_get, OpinionsByPrim,
};
use crate::interner::TokenId;
use crate::path::{extends, PathId, PathInterner};
use crate::prim_index::OpinionKey;
use crate::store::{store_layers, InMemoryStore, Layer};
use vstd::prelude::*;

verus! {

/// The contents of a stage's prim table: each prim with its sources, and
/// the children index.
pub struct TableView {
    pub rows: Seq<(PathId, Seq<OpinionKey>)>,
    pub children: Map<PathId, Seq<PathId>>,
}

/// The table view of a stage.
pub open spec fn stage_table(st: Stage) -> TableView {
    TableView {
        rows: Seq::new(st.prims@.len(), |j: int| (st.prims@[j], st.sources@[j]@)),
        children: children_contents(st.children),
    }
}

/// Every id the table holds names an interned path.
pub open spec fn table_wf(paths: Seq<Seq<TokenId>>, t: TableView) -> bool {
    &&& forall|j: int| 0 <= j < t.rows.len() ==> 0 <= (#[trigger] t.rows[j]).0.index() < paths.len()
    &&& forall|j: int, k: int|
        0 <= j < t.rows.len() && 0 <= k < t.rows[j].1.len() ==> 0 <= (#[trigger] t.rows[j].1[k]).spec_path.index()
            < paths.len()
    &&& forall|p: PathId| #[trigger] t.children.dom().contains(p) ==> 0 <= p.index() < paths.len()
    &&& forall|p: PathId, c: int|
        t.children.dom().contains(p) && 0 <= c < t.children[p].len() ==> 0 <= (
        #[trigger] t.children[p][c]).index() < paths.len()
}

/// `q` lies strictly below `inst` in namespace.
pub open spec fn strictly_below(paths: Seq<Seq<TokenId>>, q: PathId, inst: PathId) -> bool {
    &&& extends(paths[q.index()], paths[inst.index()])
    &&& paths[q.index()].len() > paths[inst.index()].len()
}

/// The authored-children opinions `authored` holds for `p` (none when it
/// holds no entry).
pub open spec fn opinions_of(authored: OpinionsByPrim, p: PathId) -> Seq<(OpinionKey, Vec<TokenId>)> {
    if opinions_contents(authored).dom().contains(p) {
        opinions_contents(authored)[p]
    } else {
        Seq::empty()
    }
}

/// A child survives instancing when a non-identity opinion names it.
pub open spec fn kept_name(
    paths: Seq<Seq<TokenId>>,
    opinions: Seq<(OpinionKey, Vec<TokenId>)>,
    identity: Seq<(LayerId, PathId)>,
) -> spec_fn(PathId) -> bool {
    |c: PathId| paths[c.index()].len() > 0 && non_identity_child(opinions, identity, paths[c.index()].last())
}

/// The rows after stripping the local sources below the identity paths
/// from every prim strictly below `inst`.
pub open spec fn stripped_rows(
    paths: Seq<Seq<TokenId>>,
    rows: Seq<(PathId, Seq<OpinionKey>)>,
    inst: PathId,
    identity: Seq<(LayerId, PathId)>,
) -> Seq<(PathId, Seq<OpinionKey>)> {
    rows.map_values(
        |r: (PathId, Seq<OpinionKey>)|
            if strictly_below(paths, r.0, inst) {
                (r.0, r.1.filter(keeps_source(paths, identity)))
            } else {
                r
            },
    )
}

/// The children index after keeping, under `inst`, only the children a
/// non-identity opinion names.
pub open spec fn kept_children(
    paths: Seq<Seq<TokenId>>,
    kids: Map<PathId, Seq<PathId>>,
    opinions: Seq<(OpinionKey, Vec<TokenId>)>,
    inst: PathId,
    identity: Seq<(LayerId, PathId)>,
) -> Map<PathId, Seq<PathId>> {
    if kids.dom().contains(inst) {
        kids.insert(inst, kids[inst].filter(kept_name(paths, opinions, identity)))
    } else {
        kids
    }
}

/// The children of `inst` in `kids` (none when it has no entry).
pub open spec fn children_at(kids: Map<PathId, Seq<PathId>>, inst: PathId) -> Seq<PathId> {
    if kids.dom().contains(inst) {
        kids[inst]
    } else {
        Seq::empty()
    }
}

/// `c` has a row with at least one source.
pub open spec fn live_in(rows: Seq<(PathId, Seq<OpinionKey>)>) -> spec_fn(PathId) -> bool {
    |c: PathId| exists|j: int| 0 <= j < rows.len() && (#[trigger] rows[j]).0 == c && rows[j].1.len() > 0
}

/// The children list under `k` after stripping: below the instance, only
/// children whose prims kept a source stay.
pub open spec fn list_after(
    paths: Seq<Seq<TokenId>>,
    kids: Map<PathId, Seq<PathId>>,
    rows: Seq<(PathId, Seq<OpinionKey>)>,
    inst: PathId,
    k: PathId,
) -> Seq<PathId> {
    if strictly_below(paths, k, inst) {
        kids[k].filter(live_in(rows))
    } else {
        kids[k]
    }
}

/// A row survives when its prim is not cut below the instance.
pub open spec fn row_kept(paths: Seq<Seq<TokenId>>, inst: PathId, surviving: Seq<PathId>) -> spec_fn(
    (PathId, Seq<OpinionKey>),
) -> bool {
    |r: (PathId, Seq<OpinionKey>)| !cut_below(paths, inst, surviving)(r.0)
}

/// One instance's stripping: local sources below the identity paths leave
/// the descendants, the instance keeps only the children that non-identity
/// opinions name, the children lists below it keep only children whose
/// prims still have a source, and every prim and children entry below a
/// child of the instance that did not survive is removed.
pub open spec fn strip_one(
    paths: Seq<Seq<TokenId>>,
    opinions: Seq<(OpinionKey, Vec<TokenId>)>,
    t: TableView,
    inst: PathId,
    identity: Seq<(LayerId, PathId)>,
) -> TableView {
    let rows1 = stripped_rows(paths, t.rows, inst, identity);
    let kids1 = kept_children(paths, t.children, opinions, inst, identity);
    let cut = cut_below(paths, inst, children_at(kids1, inst));
    TableView {
        rows: rows1.filter(row_kept(paths, inst, children_at(kids1, inst))),
        children: Map::new(
            |k: PathId| kids1.dom().contains(k) && !cut(k),
            |k: PathId| list_after(paths, kids1, rows1, inst, k),
        ),
    }
}

/// The effective instances among the first `n` rows, in row order, each
/// with its identity paths.
pub open spec fn instances(layers: Map<u64, Layer>, rows: Seq<(PathId, Seq<OpinionKey>)>, n: int) -> Seq<
    (PathId, Seq<(LayerId, PathId)>),
>
    decreases n,
{
    if n <= 0 {
        Seq::empty()
    } else {
        let prev = instances(layers, rows, n - 1);
        let r = rows[n - 1];
        match instance_identity(r.1, source_instanceables(layers, r.1)) {
            Some(ids) => prev.push((r.0, ids)),
            None => prev,
        }
    }
}

/// The table after stripping the first `n` instances of `insts`, in order.
pub open spec fn strip_all(
    paths: Seq<Seq<TokenId>>,
    authored: OpinionsByPrim,
    t: TableView,
    insts: Seq<(PathId, Seq<(LayerId, PathId)>)>,
    n: int,
) -> TableView
    decreases n,
{
    if n <= 0 {
        t
    } else {
        let prev = strip_all(paths, authored, t, insts, n - 1);
        strip_one(paths, opinions_of(authored, insts[n - 1].0), prev, insts[n - 1].0, insts[n - 1].1)
    }
}

/// `p` is one of `list`.
fn holds_path(list: &[PathId], p: PathId) -> (r: bool)
    ensures
        r == list@.contains(p),
{
    let n = list.len();
    let mut i: usize = 0;
    while i < n
        invariant
            n == list@.len(),
            i <= n,
            forall|q: int| 0 <= q < i ==> list@[q] != p,
        decreases n - i,
    {
        if list[i] == p {
            return true;
        }
        i = i + 1;
    }
    false
}

/// The members of `list` that have a row with at least one source, in
/// order; row `j` is `prims[j]` with `rows[j]`.
fn live_children(list: &[PathId], prims: &[PathId], rows: &Vec<Vec<OpinionKey>>, view: Ghost<
    Seq<(PathId, Seq<OpinionKey>)>,
>) -> (r: Vec<PathId>)
    requires
        prims@.len() == rows@.len(),
        view@.len() == prims@.len(),
        forall|q: int| 0 <= q < prims@.len() ==> #[trigger] view@[q] == (prims@[q], rows@[q]@),
    ensures
        r@ == list@.filter(live_in(view@)),
{
    let ghost pred = live_in(view@);
    let mut out: Vec<PathId> = Vec::new();
    let n = list.len();
    let mut i: usize = 0;
    while i < n
        invariant
            n == list@.len(),
            i <= n,
            pred == live_in(view@),
            prims@.len() == rows@.len(),
            view@.len() == prims@.len(),
            forall|q: int| 0 <= q < prims@.len() ==> #[trigger] view@[q] == (prims@[q], rows@[q]@),
            out@ == list@.take(i as int).filter(pred),
        decreases n - i,
    {
        let c = list[i];
        let m = prims.len();
        let mut live = false;
        let mut j: usize = 0;
        while j < m
            invariant
                m == prims@.len(),
                j <= m,
                prims@.len() == rows@.len(),
                view@.len() == prims@.len(),
                forall|q: int| 0 <= q < prims@.len() ==> #[trigger] view@[q] == (prims@[q], rows@[q]@),
                live == exists|q: int| 0 <= q < j && (#[trigger] view@[q]).0 == c && view@[q].1.len() > 0,
            decreases m - j,
        {
            if prims[j] == c && rows[j].len() > 0 {
                live = true;
                proof {
                    assert(view@[j as int].0 == c && view@[j as int].1.len() > 0);
                }
            }
            j = j + 1;
        }
        proof {
            assert(live == pred(c));
            crate::compose::lemma_filter_take_step(list@, pred, i as int);
        }
        if live {
            out.push(c);
        }
        i = i + 1;
    }
    proof {
        assert(list@.take(n as int) =~= list@);
    }
    out
}

/// Every identity path of an instance is one of its sources' spec paths.
proof fn lemma_identity_from_sources(sources: Seq<OpinionKey>, insts: Seq<Option<bool>>, n: int)
    requires
        0 <= n <= sources.len(),
        insts.len() == sources.len(),
    ensures
        forall|i: int|
            0 <= i < identity_prefix_len(sources, insts, n) ==> exists|k: int|
                0 <= k < n && (#[trigger] crate::compose::identity_prefix(sources, insts, n)[i]).1
                    == sources[k].spec_path,
    decreases n,
{
    if n > 0 {
        lemma_identity_from_sources(sources, insts, n - 1);
        let prev = crate::compose::identity_prefix(sources, insts, n - 1);
        let cur = crate::compose::identity_prefix(sources, insts, n);
        assert forall|i: int| 0 <= i < identity_prefix_len(sources, insts, n) implies exists|k: int|
            0 <= k < n && (#[trigger] cur[i]).1 == sources[k].spec_path by {
            if i < prev.len() {
                assert(cur[i] == prev[i]);
                let k = choose|k: int| 0 <= k < n - 1 && prev[i].1 == sources[k].spec_path;
                assert(0 <= k < n && cur[i].1 == sources[k].spec_path);
            } else {
                assert(cur[i].1 == sources[n - 1].spec_path);
            }
        }
    }
}

/// The length of the identity prefix.
pub open spec fn identity_prefix_len(sources: Seq<OpinionKey>, insts: Seq<Option<bool>>, n: int) -> int {
    crate::compose::identity_prefix(sources, insts, n).len() as int
}

/// Strips one effective instance `inst` with identity paths `identity`
/// from the stage, as [`strip_one`] states.
#[verifier::spinoff_prover]
pub fn strip_instance(
    store: &InMemoryStore,
    st: &mut Stage,
    authored: &OpinionsByPrim,
    inst: PathId,
    identity: &[(LayerId, PathId)],
)
    requires
        old(st).prims@.len() == old(st).sources@.len(),
        table_wf(store.paths@, stage_table(*old(st))),
        store.paths.contains_id(inst),
        forall|i: int| 0 <= i < identity@.len() ==> store.paths.contains_id((#[trigger] identity@[i]).1),
    ensures
        final(st).prims@.len() == final(st).sources@.len(),
        table_wf(store.paths@, stage_table(*final(st))),
        stage_table(*final(st)) == strip_one(
            store.paths@,
            opinions_of(*authored, inst),
            stage_table(*old(st)),
            inst,
            identity@,
        ),
{
    let paths: &PathInterner = &store.paths;
    let ghost t0 = stage_table(*st);
    let ghost opinions = opinions_of(*authored, inst);
    let empty: Vec<(OpinionKey, Vec<TokenId>)> = Vec::new();
    let names = match opinions_get(authored, inst) {
        Some(v) => non_identity_child_names(v.as_slice(), identity),
        None => non_identity_child_names(empty.as_slice(), identity),
    };
    proof {
        assert(named_in(paths@, names@) =~= kept_name(paths@, opinions, identity@));
    }
    // Strip the local sources below the identity paths from the descendants.
    let ghost rows1 = stripped_rows(paths@, t0.rows, inst, identity@);
    let ip = paths.resolve(inst);
    let n = st.prims.len();
    let mut new_sources: Vec<Vec<OpinionKey>> = Vec::new();
    let mut j: usize = 0;
    while j < n
        invariant
            n == st.prims@.len(),
            n == st.sources@.len(),
            j <= n,
            t0 == stage_table(*st),
            table_wf(paths@, t0),
            ip@ == paths@[inst.index()],
            rows1 == stripped_rows(paths@, t0.rows, inst, identity@),
            forall|i: int| 0 <= i < identity@.len() ==> paths.contains_id((#[trigger] identity@[i]).1),
            new_sources@.len() == j,
            forall|q: int| 0 <= q < j ==> #[trigger] new_sources@[q]@ == rows1[q].1,
        decreases n - j,
    {
        let p = st.prims[j];
        proof {
            assert(t0.rows[j as int].0 == p);
        }
        let pp = paths.resolve(p);
        let below = ip.is_prefix_of(pp) && pp.depth() > ip.depth();
        let mut row = crate::listop::concat(st.sources[j].as_slice(), &[]);
        proof {
            assert(row@ =~= t0.rows[j as int].1);
        }
        if below {
            proof {
                assert forall|k: int|
                    0 <= k < row@.len() && (#[trigger] row@[k]).is_local implies paths.contains_id(row@[k].spec_path) by {
                    assert(t0.rows[j as int].1[k] == row@[k]);
                }
            }
            strip_identity_local_sources(paths, &mut row, identity);
        }
        new_sources.push(row);
        j = j + 1;
    }
    // Keep, under the instance, only the children a non-identity opinion names.
    let ghost kids1 = kept_children(paths@, t0.children, opinions, inst, identity@);
    match children_get(&st.children, inst) {
        Some(list) => {
            let mut kept = crate::listop::concat(list.as_slice(), &[]);
            proof {
                assert forall|i: int| 0 <= i < kept@.len() implies paths.contains_id(#[trigger] kept@[i]) by {
                    assert(kept@[i] == t0.children[inst][i]);
                }
            }
            retain_named_children(paths, &mut kept, names.as_slice());
            children_insert(&mut st.children, inst, kept);
        },
        None => {},
    }
    proof {
        assert(children_contents(st.children) =~= kids1);
    }
    let surviving: Vec<PathId> = match children_get(&st.children, inst) {
        Some(list) => crate::listop::concat(list.as_slice(), &[]),
        None => Vec::new(),
    };
    proof {
        assert(surviving@ =~= children_at(kids1, inst));
        assert forall|k: int| 0 <= k < surviving@.len() implies paths.contains_id(#[trigger] surviving@[k]) by {
            if kids1.dom().contains(inst) && t0.children.dom().contains(inst) {
                let c = surviving@[k];
                assert(t0.children[inst].filter(kept_name(paths@, opinions, identity@)).contains(c));
                (t0.children[inst]).lemma_filter_contains_rev(kept_name(paths@, opinions, identity@), c);
                let x = choose|x: int| 0 <= x < t0.children[inst].len() && t0.children[inst][x] == c;
                assert(0 <= t0.children[inst][x].index() < paths@.len());
            }
        }
        assert forall|k: int| 0 <= k < st.prims@.len() implies paths.contains_id(#[trigger] st.prims@[k]) by {
            assert(t0.rows[k].0 == st.prims@[k]);
        }
    }
    let ghost cut = cut_below(paths@, inst, children_at(kids1, inst));
    let ghost keep_row = row_kept(paths@, inst, children_at(kids1, inst));
    // Remove the prims below the children that did not survive.
    let gone = stripped_subtrees(paths, inst, st.prims.as_slice(), surviving.as_slice());
    let mut out_prims: Vec<PathId> = Vec::new();
    let mut out_sources: Vec<Vec<OpinionKey>> = Vec::new();
    let mut j: usize = 0;
    while j < n
        invariant
            n == st.prims@.len(),
            n == new_sources@.len(),
            j <= n,
            rows1.len() == n,
            forall|q: int| 0 <= q < n ==> #[trigger] new_sources@[q]@ == rows1[q].1,
            forall|q: int| 0 <= q < n ==> #[trigger] rows1[q].0 == st.prims@[q],
            gone@ == st.prims@.filter(cut),
            keep_row == row_kept(paths@, inst, children_at(kids1, inst)),
            cut == cut_below(paths@, inst, children_at(kids1, inst)),
            out_prims@.len() == out_sources@.len(),
            Seq::new(out_prims@.len(), |q: int| (out_prims@[q], out_sources@[q]@)) == rows1.take(j as int).filter(
                keep_row,
            ),
        decreases n - j,
    {
        let p = st.prims[j];
        let is_gone = holds_path(gone.as_slice(), p);
        proof {
            assert(st.prims@[j as int] == p);
            if cut(p) {
                st.prims@.lemma_filter_contains(cut, j as int);
            }
            if st.prims@.filter(cut).contains(p) {
                let x = choose|x: int| 0 <= x < st.prims@.filter(cut).len() && st.prims@.filter(cut)[x] == p;
                st.prims@.lemma_filter_pred(cut, x);
            }
            assert(is_gone == cut(p));
            assert(rows1.take(j + 1).drop_last() =~= rows1.take(j as int));
            assert(rows1.take(j + 1).last() == rows1[j as int]);
            assert(rows1[j as int].0 == p);
            assert(keep_row(rows1[j as int]) == !cut(p));
            crate::compose::lemma_filter_take_step(rows1, keep_row, j as int);
        }
        let ghost before = Seq::new(out_prims@.len(), |q: int| (out_prims@[q], out_sources@[q]@));
        if !is_gone {
            let row = crate::listop::concat(new_sources[j].as_slice(), &[]);
            proof {
                assert(row@ =~= new_sources@[j as int]@);
                assert(rows1[j as int] == (p, row@));
            }
            out_prims.push(p);
            out_sources.push(row);
            proof {
                assert(Seq::new(out_prims@.len(), |q: int| (out_prims@[q], out_sources@[q]@)) =~= before.push(
                    rows1[j as int],
                ));
            }
        } else {
            proof {
                assert(Seq::new(out_prims@.len(), |q: int| (out_prims@[q], out_sources@[q]@)) =~= before);
            }
        }
        j = j + 1;
    }
    proof {
        assert(rows1.take(n as int) =~= rows1);
    }
    // Remove the children entries below the children that did not survive.
    let keys = children_keys(&st.children);
    proof {
        assert forall|k: int| 0 <= k < keys@.len() implies paths.contains_id(#[trigger] keys@[k]) by {
            assert(keys@.to_set().contains(keys@[k]));
            assert(kids1.dom().contains(keys@[k]));
            if keys@[k] != inst {
                assert(t0.children.dom().contains(keys@[k]));
            }
        }
    }
    let gone_keys = stripped_subtrees(paths, inst, keys.as_slice(), surviving.as_slice());
    let mut out_children = children_new();
    let m = keys.len();
    let mut i: usize = 0;
    while i < m
        invariant
            m == keys@.len(),
            i <= m,
            keys@.no_duplicates(),
            keys@.to_set() == kids1.dom(),
            kids1 == children_contents(st.children),
            gone_keys@ == keys@.filter(cut),
            forall|k: PathId| #[trigger]
                children_contents(out_children).dom().contains(k) <==> (keys@.take(i as int).contains(k) && !cut(k)),
            forall|k: PathId| #[trigger]
                children_contents(out_children).dom().contains(k) ==> children_contents(out_children)[k]
                    == list_after(paths@, kids1, rows1, inst, k),
            ip@ == paths@[inst.index()],
            forall|q: int| 0 <= q < keys@.len() ==> paths.contains_id(#[trigger] keys@[q]),
            n == st.prims@.len(),
            n == new_sources@.len(),
            rows1.len() == n,
            forall|q: int| 0 <= q < n ==> #[trigger] new_sources@[q]@ == rows1[q].1,
            forall|q: int| 0 <= q < n ==> #[trigger] rows1[q].0 == st.prims@[q],
        decreases m - i,
    {
        let k = keys[i];
        let is_gone = holds_path(gone_keys.as_slice(), k);
        proof {
            assert(keys@.take(i + 1) =~= keys@.take(i as int).push(k));
            if cut(k) {
                (keys@).lemma_filter_contains(cut, i as int);
            }
            if keys@.filter(cut).contains(k) {
                let x = choose|x: int| 0 <= x < keys@.filter(cut).len() && keys@.filter(cut)[x] == k;
                keys@.lemma_filter_pred(cut, x);
            }
            assert(is_gone == cut(k));
            assert(keys@.to_set().contains(k));
        }
        if !is_gone {
            match children_get(&st.children, k) {
                Some(list) => {
                    proof {
                        assert(paths.contains_id(keys@[i as int]));
                    }
                    let kp = paths.resolve(k);
                    let below = ip.is_prefix_of(kp) && kp.depth() > ip.depth();
                    let copy = if below {
                        proof {
                            assert forall|q: int| 0 <= q < n implies #[trigger] rows1[q] == (
                                st.prims@[q],
                                new_sources@[q]@,
                            ) by {}
                        }
                        live_children(list.as_slice(), st.prims.as_slice(), &new_sources, Ghost(rows1))
                    } else {
                        crate::listop::concat(list.as_slice(), &[])
                    };
                    proof {
                        assert(copy@ =~= list_after(paths@, kids1, rows1, inst, k));
                    }
                    children_insert(&mut out_children, k, copy);
                },
                None => {},
            }
        }
        proof {
            assert forall|x: PathId| #[trigger]
                children_contents(out_children).dom().contains(x) <==> (keys@.take(i + 1).contains(x) && !cut(x)) by {
                if x != k {
                    assert(keys@.take(i + 1).contains(x) <==> keys@.take(i as int).contains(x));
                } else {
                    assert(keys@.take(i + 1)[i as int] == k);
                }
            }
        }
        i = i + 1;
    }
    proof {
        assert(keys@.take(m as int) =~= keys@);
        assert forall|k: PathId| keys@.contains(k) <==> kids1.dom().contains(k) by {
            assert(keys@.to_set().contains(k) <==> keys@.contains(k));
        }
        assert(children_contents(out_children) =~= Map::new(
            |k: PathId| kids1.dom().contains(k) && !cut(k),
            |k: PathId| list_after(paths@, kids1, rows1, inst, k),
        ));
    }
    st.prims = out_prims;
    st.sources = out_sources;
    st.children = out_children;
    proof {
        let t1 = stage_table(*st);
        let want = strip_one(paths@, opinions, t0, inst, identity@);
        assert(t1.rows =~= want.rows);
        assert(t1.children =~= want.children);
        lemma_strip_one_wf(paths@, opinions, t0, inst, identity@);
    }
}

/// Stripping keeps every id of the table interned.
proof fn lemma_strip_one_wf(
    paths: Seq<Seq<TokenId>>,
    opinions: Seq<(OpinionKey, Vec<TokenId>)>,
    t: TableView,
    inst: PathId,
    identity: Seq<(LayerId, PathId)>,
)
    requires
        table_wf(paths, t),
    ensures
        table_wf(paths, strip_one(paths, opinions, t, inst, identity)),
{
    let rows1 = stripped_rows(paths, t.rows, inst, identity);
    let kids1 = kept_children(paths, t.children, opinions, inst, identity);
    let cut = cut_below(paths, inst, children_at(kids1, inst));
    let keep = row_kept(paths, inst, children_at(kids1, inst));
    let out = strip_one(paths, opinions, t, inst, identity);
    assert forall|j: int| 0 <= j < out.rows.len() implies 0 <= (#[trigger] out.rows[j]).0.index() < paths.len()
        && forall|k: int| 0 <= k < out.rows[j].1.len() ==> 0 <= (#[trigger] out.rows[j].1[k]).spec_path.index()
        < paths.len() by {
        (rows1).lemma_filter_contains_rev(keep, out.rows[j]);
        let x = choose|x: int| 0 <= x < rows1.len() && rows1[x] == out.rows[j];
        assert(rows1[x].0 == t.rows[x].0);
        assert forall|k: int| 0 <= k < out.rows[j].1.len() implies 0 <= (#[trigger] out.rows[j].1[k]).spec_path.index()
            < paths.len() by {
            if strictly_below(paths, t.rows[x].0, inst) {
                let e = out.rows[j].1[k];
                assert(t.rows[x].1.filter(keeps_source(paths, identity)).contains(e));
                (t.rows[x].1).lemma_filter_contains_rev(keeps_source(paths, identity), e);
                let y = choose|y: int| 0 <= y < t.rows[x].1.len() && t.rows[x].1[y] == e;
                assert(0 <= t.rows[x].1[y].spec_path.index() < paths.len());
            } else {
                assert(0 <= t.rows[x].1[k].spec_path.index() < paths.len());
            }
        }
    }
    assert forall|p: PathId, c: int|
        out.children.dom().contains(p) && 0 <= c < out.children[p].len() implies 0 <= (
        #[trigger] out.children[p][c]).index() < paths.len() by {
        if p == inst && t.children.dom().contains(inst) {
            let e = out.children[p][c];
            assert(t.children[inst].filter(kept_name(paths, opinions, identity)).contains(e));
            (t.children[inst]).lemma_filter_contains_rev(kept_name(paths, opinions, identity), e);
            let y = choose|y: int| 0 <= y < t.children[inst].len() && t.children[inst][y] == e;
            assert(0 <= t.children[inst][y].index() < paths.len());
        } else if strictly_below(paths, p, inst) {
            let e = out.children[p][c];
            assert(kids1[p] == t.children[p]);
            assert(t.children[p].filter(live_in(rows1)).contains(e));
            (t.children[p]).lemma_filter_contains_rev(live_in(rows1), e);
            let y = choose|y: int| 0 <= y < t.children[p].len() && t.children[p][y] == e;
            assert(0 <= t.children[p][y].index() < paths.len());
        } else {
            assert(out.children[p] == t.children[p]);
        }
    }
}

/// Strips every effective instance of the stage: the instances and their
/// identity paths are read from the store through the prims' sources (a
/// prim is an effective instance when its strongest `instanceable` opinion
/// is `true`, it has a non-local reference, payload or inherit source, and
/// it has identity paths), then each is stripped in prim order as
/// [`strip_one`] states, with the authored-children opinions of `authored`.
#[verifier::spinoff_prover]
pub fn strip_instance_descendants(store: &InMemoryStore, st: &mut Stage, authored: &OpinionsByPrim)
    requires
        old(st).prims@.len() == old(st).sources@.len(),
        table_wf(store.paths@, stage_table(*old(st))),
    ensures
        final(st).prims@.len() == final(st).sources@.len(),
        ({
            let t0 = stage_table(*old(st));
            let insts = instances(store_layers(*store), t0.rows, t0.rows.len() as int);
            stage_table(*final(st)) == strip_all(store.paths@, *authored, t0, insts, insts.len() as int)
        }),
{
    let ghost t0 = stage_table(*st);
    let ghost layers = store_layers(*store);
    // Step 1: the effective instances of the table as it stands.
    let mut insts: Vec<(PathId, Vec<(LayerId, PathId)>)> = Vec::new();
    let n = st.prims.len();
    let mut j: usize = 0;
    while j < n
        invariant
            n == st.prims@.len(),
            n == st.sources@.len(),
            j <= n,
            t0 == stage_table(*st),
            layers == store_layers(*store),
            table_wf(store.paths@, t0),
            insts@.map_values(|e: (PathId, Vec<(LayerId, PathId)>)| (e.0, e.1@)) == instances(layers, t0.rows, j as int),
            forall|a: int, b: int|
                0 <= a < insts@.len() && 0 <= b < insts@[a].1@.len() ==> store.paths.contains_id(
                    (#[trigger] insts@[a].1@[b]).1,
                ),
            forall|a: int| 0 <= a < insts@.len() ==> store.paths.contains_id((#[trigger] insts@[a]).0),
        decreases n - j,
    {
        let ghost before = insts@;
        match store_instance_identity(store, st.sources[j].as_slice()) {
            Some(ids) => {
                let ghost ids_v = ids@;
                proof {
                    let srcs = st.sources@[j as int]@;
                    let fl = source_instanceables(layers, srcs);
                    lemma_identity_from_sources(srcs, fl, srcs.len() as int);
                    assert forall|b: int| 0 <= b < ids_v.len() implies store.paths.contains_id(#[trigger] ids_v[b].1) by {
                        assert(identity_prefix_len(srcs, fl, srcs.len() as int) == ids_v.len());
                        let k = choose|k: int|
                            0 <= k < srcs.len() && (#[trigger] crate::compose::identity_prefix(srcs, fl, srcs.len() as int)[b]).1
                                == srcs[k].spec_path;
                        assert(t0.rows[j as int].1[k] == srcs[k]);
                    }
                    assert(t0.rows[j as int].0 == st.prims@[j as int]);
                }
                insts.push((st.prims[j], ids));
                proof {
                    assert forall|a: int, b: int|
                        0 <= a < insts@.len() && 0 <= b < insts@[a].1@.len() implies store.paths.contains_id(
                        (#[trigger] insts@[a].1@[b]).1,
                    ) by {
                        if a < before.len() {
                            assert(insts@[a] == before[a]);
                            assert(store.paths.contains_id(before[a].1@[b].1));
                        } else {
                            assert(insts@[a].1@ == ids_v);
                            assert(insts@[a].1@[b] == ids_v[b]);
                        }
                    }
                    assert(insts@.map_values(|e: (PathId, Vec<(LayerId, PathId)>)| (e.0, e.1@)) =~= before.map_values(
                        |e: (PathId, Vec<(LayerId, PathId)>)| (e.0, e.1@),
                    ).push((st.prims@[j as int], ids@)));
                }
            },
            None => {},
        }
        proof {
            assert(t0.rows[j as int] == (st.prims@[j as int], st.sources@[j as int]@));
        }
        j = j + 1;
    }
    let ghost ilist = instances(layers, t0.rows, n as int);
    proof {
        assert(t0.rows.len() == n);
    }
    // Step 2: strip each instance in turn.
    let m = insts.len();
    let mut i: usize = 0;
    while i < m
        invariant
            m == insts@.len(),
            i <= m,
            st.prims@.len() == st.sources@.len(),
            insts@.map_values(|e: (PathId, Vec<(LayerId, PathId)>)| (e.0, e.1@)) == ilist,
            forall|a: int, b: int|
                0 <= a < insts@.len() && 0 <= b < insts@[a].1@.len() ==> store.paths.contains_id(
                    (#[trigger] insts@[a].1@[b]).1,
                ),
            forall|a: int| 0 <= a < insts@.len() ==> store.paths.contains_id((#[trigger] insts@[a]).0),
            table_wf(store.paths@, stage_table(*st)),
            stage_table(*st) == strip_all(store.paths@, *authored, t0, ilist, i as int),
        decreases m - i,
    {
        let inst = insts[i].0;
        proof {
            assert(ilist[i as int] == (insts@[i as int].0, insts@[i as int].1@));
            assert forall|b: int| 0 <= b < insts@[i as int].1@.len() implies store.paths.contains_id(
                (#[trigger] insts@[i as int].1@[b]).1,
            ) by {}
        }
        strip_instance(store, st, authored, inst, insts[i].1.as_slice());
        i = i + 1;
    }
    proof {
        assert(ilist.len() == m);
    }
}

} // verus!

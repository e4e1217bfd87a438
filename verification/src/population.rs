//! Stage population: completing the set of populated prims with their
//! ancestors, restricting it by a population mask, and indexing the
//! children of each prim in namespace order.

use std::collections::BTreeSet;

use vstd::prelude::*;
use vstd::std_specs::btree::{increasing_seq, spec_btree_keys_iter};
use vstd::std_specs::iter::IteratorSpec;

use crate::hashed::{
    children_contents, children_get, children_insert, children_keys, children_new, children_push,
    path_set_contains, path_set_contents, path_set_insert, path_set_new, ChildrenIndex,
};
use crate::interner::{interned, law_intern_stable, TokenId, TokenInterner};
use crate::path::{
    extends, law_namespace_less_strict_total, lemma_path_id_at, namespace_less, path_id_at, resolvable,
    resolve_all, Path, PathId, PathInterner,
};
use crate::stage::PopulationMask;
use crate::sorting::{lemma_insert_sorted, lemma_sorted_unique, sorted_positions, strict_total_on};

verus! {

impl ChildrenIndex {
    /// The children of `parent`, if it has any.
    pub fn children_of(&self, parent: PathId) -> (r: Option<&Vec<PathId>>)
        ensures
            r is Some <==> children_contents(*self).dom().contains(parent),
            r matches Some(v) ==> v@ == children_contents(*self)[parent],
    {
        children_get(self, parent)
    }

    /// The prims that have children, each once (in no fixed order).
    pub fn parents(&self) -> (r: Vec<PathId>)
        ensures
            r@.no_duplicates(),
            r@.to_set() == children_contents(*self).dom(),
    {
        children_keys(self)
    }
}

/// The interned paths after interning the parent of each prim in turn
/// (the root has none).
pub open spec fn parents_interned(t: Seq<Seq<TokenId>>, prims: Seq<PathId>) -> Seq<Seq<TokenId>>
    decreases prims.len(),
{
    if prims.len() == 0 {
        t
    } else {
        let t0 = parents_interned(t, prims.drop_last());
        let p = t0[prims.last().index()];
        if p.len() > 0 {
            interned(t0, p.drop_last())
        } else {
            t0
        }
    }
}

/// The prims whose parent path is `parent`, in their listed order.
pub open spec fn children_with_parent(paths: Seq<Seq<TokenId>>, prims: Seq<PathId>, parent: Seq<TokenId>) -> Seq<
    PathId,
>
    decreases prims.len(),
{
    if prims.len() == 0 {
        Seq::empty()
    } else {
        let s = children_with_parent(paths, prims.drop_last(), parent);
        let p = paths[prims.last().index()];
        if p.len() > 0 && p.drop_last() == parent {
            s.push(prims.last())
        } else {
            s
        }
    }
}

/// Child `i` of `kids` comes before child `j`: earlier in namespace order,
/// or the same path text and listed first.
pub open spec fn namespace_first(
    tokens: Seq<Seq<char>>,
    paths: Seq<Seq<TokenId>>,
    kids: Seq<PathId>,
    i: int,
    j: int,
) -> bool {
    let a = resolve_all(tokens, paths[kids[i].index()]);
    let b = resolve_all(tokens, paths[kids[j].index()]);
    namespace_less(a, b) || (a == b && i < j)
}

/// `sorted` is `kids` stably sorted into namespace order.
pub open spec fn in_namespace_order(
    tokens: Seq<Seq<char>>,
    paths: Seq<Seq<TokenId>>,
    kids: Seq<PathId>,
    sorted: Seq<PathId>,
) -> bool {
    exists|pos: Seq<usize>|
        sorted_positions(|i: int, j: int| namespace_first(tokens, paths, kids, i, j), kids.len() as int, pos)
            && sorted == Seq::new(pos.len(), |k: int| kids[pos[k] as int])
}

/// `namespace_first` is a strict total order on the positions of `kids`.
proof fn lemma_namespace_first_total(tokens: Seq<Seq<char>>, paths: Seq<Seq<TokenId>>, kids: Seq<PathId>)
    ensures
        strict_total_on(|i: int, j: int| namespace_first(tokens, paths, kids, i, j), kids.len() as int),
{
    let before = |i: int, j: int| namespace_first(tokens, paths, kids, i, j);
    let name = |i: int| resolve_all(tokens, paths[kids[i].index()]);
    assert forall|i: int, j: int|
        #![trigger before(i, j), before(j, i)]
        0 <= i < kids.len() && 0 <= j < kids.len() implies !(before(i, j) && before(j, i)) by {
        law_namespace_less_strict_total(name(i), name(j), name(i));
    }
    assert forall|i: int| 0 <= i < kids.len() implies !#[trigger] before(i, i) by {
        law_namespace_less_strict_total(name(i), name(i), name(i));
    }
    assert forall|i: int, j: int|
        #![trigger before(i, j)]
        0 <= i < kids.len() && 0 <= j < kids.len() && i != j implies before(i, j) || before(j, i) by {
        law_namespace_less_strict_total(name(i), name(j), name(i));
    }
    assert forall|i: int, j: int, k: int|
        #![trigger before(i, j), before(j, k)]
        0 <= i < kids.len() && 0 <= j < kids.len() && 0 <= k < kids.len() && before(i, j) && before(
            j,
            k,
        ) implies before(i, k) by {
        law_namespace_less_strict_total(name(i), name(j), name(k));
        law_namespace_less_strict_total(name(i), name(k), name(i));
    }
}

/// `kids` in namespace order (a stable sort).
fn namespace_sorted(tokens: &TokenInterner, paths: &PathInterner, kids: &[PathId]) -> (r: Vec<PathId>)
    requires
        forall|i: int| 0 <= i < kids@.len() ==> paths.contains_id(#[trigger] kids@[i]),
        forall|i: int| 0 <= i < kids@.len() ==> resolvable(tokens@, paths@[(#[trigger] kids@[i]).index()]),
    ensures
        in_namespace_order(tokens@, paths@, kids@, r@),
{
    let ghost before = |i: int, j: int| namespace_first(tokens@, paths@, kids@, i, j);
    proof {
        lemma_namespace_first_total(tokens@, paths@, kids@);
    }
    let n = kids.len();
    let mut pos: Vec<usize> = Vec::new();
    let mut i: usize = 0;
    proof {
        assert(sorted_positions(before, 0, pos@));
    }
    while i < n
        invariant
            n == kids@.len(),
            forall|k: int| 0 <= k < kids@.len() ==> paths.contains_id(#[trigger] kids@[k]),
            forall|k: int| 0 <= k < kids@.len() ==> resolvable(tokens@, paths@[(#[trigger] kids@[k]).index()]),
            before == (|i: int, j: int| namespace_first(tokens@, paths@, kids@, i, j)),
            strict_total_on(before, n as int),
            i <= n,
            sorted_positions(before, i as int, pos@),
        decreases n - i,
    {
        let mut p: usize = pos.len();
        while p > 0 && paths.resolve(kids[i]).namespace_less_than(paths.resolve(kids[pos[p - 1]]), tokens)
            invariant
                p <= pos@.len(),
                i < n,
                n == kids@.len(),
                forall|k: int| 0 <= k < kids@.len() ==> paths.contains_id(#[trigger] kids@[k]),
                forall|k: int| 0 <= k < kids@.len() ==> resolvable(tokens@, paths@[(#[trigger] kids@[k]).index()]),
                before == (|i: int, j: int| namespace_first(tokens@, paths@, kids@, i, j)),
                sorted_positions(before, i as int, pos@),
                forall|q: int| p <= q < pos@.len() ==> before(i as int, #[trigger] pos@[q] as int),
            decreases p,
        {
            proof {
                assert(pos@[p - 1] < i);
            }
            p = p - 1;
        }
        proof {
            if p > 0 {
                assert(pos@[p - 1] < i);
            }
            lemma_insert_sorted(before, n as int, pos@, p as int, i);
        }
        pos.insert(p, i);
        i = i + 1;
    }
    let mut out: Vec<PathId> = Vec::new();
    let mut k: usize = 0;
    while k < n
        invariant
            n == kids@.len(),
            sorted_positions(before, n as int, pos@),
            k <= n,
            out@ == Seq::new(k as nat, |j: int| kids@[pos@[j] as int]),
        decreases n - k,
    {
        out.push(kids[pos[k]]);
        proof {
            assert(out@ =~= Seq::new((k + 1) as nat, |j: int| kids@[pos@[j] as int]));
        }
        k = k + 1;
    }
    proof {
        assert(out@ =~= Seq::new(pos@.len(), |j: int| kids@[pos@[j] as int]));
    }
    out
}

/// Interning keeps the strings interned before in place.
proof fn lemma_interned_extends(t: Seq<Seq<TokenId>>, s: Seq<TokenId>)
    ensures
        interned(t, s).len() >= t.len(),
        interned(t, s).len() <= t.len() + 1,
        interned(t, s).subrange(0, t.len() as int) == t,
{
    assert(interned(t, s).subrange(0, t.len() as int) =~= t);
}

/// The children of a parent do not change when more paths are interned.
proof fn lemma_children_stable(t: Seq<Seq<TokenId>>, u: Seq<Seq<TokenId>>, prims: Seq<PathId>, parent: Seq<TokenId>)
    requires
        forall|i: int| 0 <= i < prims.len() ==> 0 <= (#[trigger] prims[i]).index() < t.len(),
        t.len() <= u.len(),
        u.subrange(0, t.len() as int) == t,
    ensures
        children_with_parent(u, prims, parent) == children_with_parent(t, prims, parent),
    decreases prims.len(),
{
    if prims.len() > 0 {
        let init = prims.drop_last();
        assert forall|i: int| 0 <= i < init.len() implies 0 <= (#[trigger] init[i]).index() < t.len() by {
            assert(init[i] == prims[i]);
        }
        lemma_children_stable(t, u, init, parent);
        let k = prims.last().index();
        assert(prims.last() == prims[prims.len() - 1]);
        assert(u.subrange(0, t.len() as int)[k] == u[k]);
    }
}

/// The children of a parent are prims.
proof fn lemma_children_drawn(paths: Seq<Seq<TokenId>>, prims: Seq<PathId>, parent: Seq<TokenId>)
    ensures
        forall|i: int|
            0 <= i < children_with_parent(paths, prims, parent).len() ==> prims.contains(
                #[trigger] children_with_parent(paths, prims, parent)[i],
            ),
    decreases prims.len(),
{
    if prims.len() > 0 {
        let init = prims.drop_last();
        lemma_children_drawn(paths, init, parent);
        let s = children_with_parent(paths, init, parent);
        let r = children_with_parent(paths, prims, parent);
        assert forall|i: int| 0 <= i < r.len() implies prims.contains(#[trigger] r[i]) by {
            if i < s.len() {
                assert(r[i] == s[i]);
                assert(init.contains(s[i]));
                let j = choose|j: int| 0 <= j < init.len() && init[j] == s[i];
                assert(prims[j] == s[i]);
            } else {
                assert(prims[prims.len() - 1] == r[i]);
            }
        }
    }
}

/// The children index of a set of prims: each prim that has children among
/// the prims maps to them, in namespace order. The parent of every prim is
/// interned on the way.
pub fn build_children_index(tokens: &TokenInterner, paths: &mut PathInterner, prims: &[PathId]) -> (r:
    ChildrenIndex)
    requires
        forall|i: int| 0 <= i < prims@.len() ==> old(paths).contains_id(#[trigger] prims@[i]),
        forall|i: int|
            0 <= i < prims@.len() ==> resolvable(tokens@, old(paths)@[(#[trigger] prims@[i]).index()]),
        old(paths)@.len() + prims@.len() < u32::MAX,
    ensures
        final(paths)@ == parents_interned(old(paths)@, prims@),
        extends(final(paths)@, old(paths)@),
        forall|q: PathId| #[trigger]
            children_contents(r).dom().contains(q) <==> prims@.contains(q) && children_with_parent(
                final(paths)@,
                prims@,
                final(paths)@[q.index()],
            ).len() > 0,
        forall|q: PathId| #[trigger]
            children_contents(r).dom().contains(q) ==> in_namespace_order(
                tokens@,
                final(paths)@,
                children_with_parent(final(paths)@, prims@, final(paths)@[q.index()]),
                children_contents(r)[q],
            ),
{
    let ghost start = paths@;
    let ghost ps = prims@;
    let n = prims.len();
    let mut prim_set = path_set_new();
    let mut i: usize = 0;
    while i < n
        invariant
            n == ps.len(),
            ps == prims@,
            i <= n,
            forall|x: PathId| #[trigger] path_set_contents(prim_set).contains(x) <==> ps.take(i as int).contains(x),
        decreases n - i,
    {
        let x = prims[i];
        path_set_insert(&mut prim_set, x);
        proof {
            let before = ps.take(i as int);
            let after = ps.take(i + 1);
            assert(after =~= before.push(x));
            assert forall|y: PathId| #[trigger] path_set_contents(prim_set).contains(y) <==> after.contains(y) by {
                if y == x {
                    assert(after[i as int] == x);
                }
                if after.contains(y) && y != x {
                    let w = choose|w: int| 0 <= w < after.len() && after[w] == y;
                    assert(before[w] == y);
                }
                if before.contains(y) {
                    let w = choose|w: int| 0 <= w < before.len() && before[w] == y;
                    assert(after[w] == y);
                }
            }
        }
        i = i + 1;
    }
    proof {
        assert(ps.take(n as int) =~= ps);
    }
    let mut children = children_new();
    let mut i: usize = 0;
    while i < n
        invariant
            n == ps.len(),
            ps == prims@,
            i <= n,
            forall|k: int| 0 <= k < ps.len() ==> 0 <= (#[trigger] ps[k]).index() < start.len(),
            forall|x: PathId| #[trigger] path_set_contents(prim_set).contains(x) <==> ps.contains(x),
            paths@ == parents_interned(start, ps.take(i as int)),
            start.len() <= paths@.len() <= start.len() + i,
            paths@.subrange(0, start.len() as int) == start,
            start.len() + ps.len() < u32::MAX,
            forall|q: PathId| #[trigger]
                children_contents(children).dom().contains(q) <==> ps.contains(q) && children_with_parent(
                    paths@,
                    ps.take(i as int),
                    paths@[q.index()],
                ).len() > 0,
            forall|q: PathId| #[trigger]
                children_contents(children).dom().contains(q) ==> children_contents(children)[q]
                    == children_with_parent(paths@, ps.take(i as int), paths@[q.index()]),
        decreases n - i,
    {
        let path_id = prims[i];
        let ghost cur = paths@;
        let ghost old_contents = children_contents(children);
        let ghost before = ps.take(i as int);
        let ghost after = ps.take(i + 1);
        proof {
            assert(after.drop_last() =~= before);
            assert(after.last() == path_id);
            assert(0 <= path_id.index() < start.len());
            assert(paths@.subrange(0, start.len() as int)[path_id.index()] == paths@[path_id.index()]);
            assert forall|k: int| 0 <= k < before.len() implies 0 <= (#[trigger] before[k]).index() < start.len() by {
                assert(before[k] == ps[k]);
            }
            assert forall|k: int| 0 <= k < after.len() implies 0 <= (#[trigger] after[k]).index() < start.len() by {
                assert(after[k] == ps[k]);
            }
        }
        let ghost pv = paths@[path_id.index()];
        match paths.resolve(path_id).parent() {
            None => {
                proof {
                    assert forall|q: PathId| #[trigger] children_contents(children).dom().contains(q) implies children_contents(children)[q]
                        == children_with_parent(paths@, after, paths@[q.index()]) by {}
                    assert forall|q: PathId| #[trigger] children_contents(children).dom().contains(q) <==> ps.contains(q) && children_with_parent(
                        paths@,
                        after,
                        paths@[q.index()],
                    ).len() > 0 by {}
                }
            },
            Some(pp) => {
                let parent_id = paths.intern(pp);
                proof {
                    lemma_interned_extends(cur, pv.drop_last());
                    assert(paths@.subrange(0, start.len() as int) =~= start) by {
                        assert(paths@.subrange(0, cur.len() as int) == cur);
                        assert forall|k: int| 0 <= k < start.len() implies paths@.subrange(0, start.len() as int)[k] == start[k] by {
                            assert(paths@.subrange(0, cur.len() as int)[k] == paths@[k]);
                            assert(cur.subrange(0, start.len() as int)[k] == cur[k]);
                        }
                    }
                    lemma_children_stable(cur, paths@, before, pv.drop_last());
                }
                if path_set_contains(&prim_set, parent_id) {
                    children_push(&mut children, parent_id, path_id);
                }
                proof {
                    let np = paths@;
                    assert forall|q: PathId| ps.contains(q) implies np[q.index()] == cur[q.index()] by {
                        let w = choose|w: int| 0 <= w < ps.len() && ps[w] == q;
                        assert(np.subrange(0, cur.len() as int)[q.index()] == np[q.index()]);
                    }
                    assert forall|q: PathId| ps.contains(q) implies children_with_parent(np, before, np[q.index()])
                        == children_with_parent(cur, before, cur[q.index()]) by {
                        lemma_children_stable(cur, np, before, cur[q.index()]);
                    }
                    assert forall|q: PathId|
                        ps.contains(q) && np[q.index()] == pv.drop_last() implies q == parent_id by {
                        let w = choose|w: int| 0 <= w < ps.len() && ps[w] == q;
                        assert(np[parent_id.index()] == pv.drop_last());
                        crate::path::lemma_path_id_index_injective(q, parent_id);
                    }
                    assert forall|q: PathId| #[trigger] children_contents(children).dom().contains(q) <==> ps.contains(q)
                        && children_with_parent(np, after, np[q.index()]).len() > 0 by {
                        if ps.contains(q) {
                            assert(children_with_parent(np, after, np[q.index()]) == (if pv.len() > 0 && pv.drop_last()
                                == np[q.index()] {
                                children_with_parent(np, before, np[q.index()]).push(path_id)
                            } else {
                                children_with_parent(np, before, np[q.index()])
                            }));
                        }
                    }
                    assert forall|q: PathId| #[trigger] children_contents(children).dom().contains(q) implies children_contents(children)[q]
                        == children_with_parent(np, after, np[q.index()]) by {
                        assert(children_with_parent(np, after, np[q.index()]) == (if pv.len() > 0 && pv.drop_last()
                            == np[q.index()] {
                            children_with_parent(np, before, np[q.index()]).push(path_id)
                        } else {
                            children_with_parent(np, before, np[q.index()])
                        }));
                    }
                }
            },
        }
        i = i + 1;
    }
    proof {
        assert(ps.take(n as int) =~= ps);
    }
    let ghost fp = paths@;
    let ghost dom = children_contents(children).dom();
    let keys = children_keys(&children);
    let ghost ks = keys@;
    let mut j: usize = 0;
    while j < keys.len()
        invariant
            ks == keys@,
            ks.no_duplicates(),
            ks.to_set() == dom,
            j <= ks.len(),
            fp == paths@,
            children_contents(children).dom() == dom,
            forall|k: int| 0 <= k < ps.len() ==> paths.contains_id(#[trigger] ps[k]),
            forall|k: int| 0 <= k < ps.len() ==> resolvable(tokens@, fp[(#[trigger] ps[k]).index()]),
            forall|q: PathId| #[trigger]
                dom.contains(q) ==> (if ks.take(j as int).contains(q) {
                    in_namespace_order(
                        tokens@,
                        fp,
                        children_with_parent(fp, ps, fp[q.index()]),
                        children_contents(children)[q],
                    )
                } else {
                    children_contents(children)[q] == children_with_parent(fp, ps, fp[q.index()])
                }),
        decreases ks.len() - j,
    {
        let k = keys[j];
        proof {
            assert(ks.to_set().contains(k));
            assert(!ks.take(j as int).contains(k)) by {
                let prev = ks.take(j as int);
                if prev.contains(k) {
                    let w = choose|w: int| 0 <= w < prev.len() && prev[w] == k;
                    assert(ks[w] == ks[j as int]);
                }
            }
        }
        match children_get(&children, k) {
            Some(list) => {
                let ghost kids = list@;
                proof {
                    lemma_children_drawn(fp, ps, fp[k.index()]);
                    assert(kids == children_with_parent(fp, ps, fp[k.index()]));
                    assert forall|a: int| 0 <= a < kids.len() implies paths.contains_id(#[trigger] kids[a]) by {
                        let w = choose|w: int| 0 <= w < ps.len() && ps[w] == kids[a];
                    }
                    assert forall|a: int| 0 <= a < kids.len() implies resolvable(tokens@, paths@[(#[trigger] kids[a]).index()]) by {
                        let w = choose|w: int| 0 <= w < ps.len() && ps[w] == kids[a];
                    }
                }
                let sorted = namespace_sorted(tokens, paths, list.as_slice());
                children_insert(&mut children, k, sorted);
            },
            None => {},
        }
        proof {
            assert(ks.take(j + 1) =~= ks.take(j as int).push(k));
            assert forall|q: PathId| #[trigger] dom.contains(q) implies (if ks.take(j + 1).contains(q) {
                in_namespace_order(
                    tokens@,
                    fp,
                    children_with_parent(fp, ps, fp[q.index()]),
                    children_contents(children)[q],
                )
            } else {
                children_contents(children)[q] == children_with_parent(fp, ps, fp[q.index()])
            }) by {
                if q != k {
                    let next = ks.take(j + 1);
                    if next.contains(q) {
                        let w = choose|w: int| 0 <= w < next.len() && next[w] == q;
                        assert(ks.take(j as int)[w] == q);
                    }
                    let prev = ks.take(j as int);
                    if prev.contains(q) {
                        let w = choose|w: int| 0 <= w < prev.len() && prev[w] == q;
                        assert(ks.take(j + 1)[w] == q);
                    }
                } else {
                    assert(ks.take(j + 1)[j as int] == k);
                }
            }
        }
        j = j + 1;
    }
    proof {
        assert(ks.take(ks.len() as int) =~= ks);
        assert forall|q: PathId| #[trigger] dom.contains(q) implies ks.contains(q) by {
            assert(ks.to_set().contains(q));
        }
    }
    children
}

/// `s` is strictly increasing by id.
pub open spec fn increasing(s: Seq<PathId>) -> bool {
    forall|a: int, b: int| 0 <= a < b < s.len() ==> (#[trigger] s[a]).index() < (#[trigger] s[b]).index()
}

/// A set of path ids kept in ascending id order: a `BTreeSet` of their raw
/// numbers.
#[derive(Debug)]
pub struct OrderedPathSet {
    ids: BTreeSet<u32>,
}

impl View for OrderedPathSet {
    type V = Set<PathId>;

    closed spec fn view(&self) -> Set<PathId> {
        self.ids@.map(|x: u32| path_id_at(x))
    }
}

/// A raw number names the path id with that index, and no other.
proof fn lemma_path_id_at_iff(x: u32, p: PathId)
    ensures
        (path_id_at(x) == p) <==> (x == p.index()),
{
    lemma_path_id_at(x);
    if x == p.index() {
        crate::path::lemma_path_id_index_injective(path_id_at(x), p);
    }
}

/// Two increasing sequences with the same members are equal.
proof fn lemma_increasing_unique(s: Seq<PathId>, t: Seq<PathId>)
    requires
        increasing(s),
        increasing(t),
        s.to_set() == t.to_set(),
    ensures
        s == t,
    decreases s.len(),
{
    if s.len() == 0 || t.len() == 0 {
        if s.len() > 0 {
            assert(s.to_set().contains(s[0]));
        }
        if t.len() > 0 {
            assert(t.to_set().contains(t[0]));
        }
        assert(s =~= t);
    } else {
        assert(t.to_set().contains(s[0]));
        assert(s.to_set().contains(t[0]));
        let j = choose|j: int| 0 <= j < s.len() && s[j] == t[0];
        let k = choose|k: int| 0 <= k < t.len() && t[k] == s[0];
        if j > 0 {
            assert(s[0].index() < s[j].index());
        }
        if k > 0 {
            assert(t[0].index() < t[k].index());
        }
        assert(s[0] == t[0]);
        let s1 = s.drop_first();
        let t1 = t.drop_first();
        assert forall|p: PathId| #[trigger] s1.to_set().contains(p) <==> t1.to_set().contains(p) by {
            if s1.contains(p) {
                let a = choose|a: int| 0 <= a < s1.len() && s1[a] == p;
                assert(s[a + 1] == p);
                assert(s.to_set().contains(p));
                let b = choose|b: int| 0 <= b < t.len() && t[b] == p;
                if b == 0 {
                    assert(s[0].index() < s[a + 1].index());
                }
                assert(t1[b - 1] == p);
            }
            if t1.contains(p) {
                let a = choose|a: int| 0 <= a < t1.len() && t1[a] == p;
                assert(t[a + 1] == p);
                assert(t.to_set().contains(p));
                let b = choose|b: int| 0 <= b < s.len() && s[b] == p;
                if b == 0 {
                    assert(t[0].index() < t[a + 1].index());
                }
                assert(s1[b - 1] == p);
            }
        }
        assert(s1.to_set() =~= t1.to_set());
        assert forall|a: int, b: int| 0 <= a < b < s1.len() implies (#[trigger] s1[a]).index() < (
        #[trigger] s1[b]).index() by {
            assert(s1[a] == s[a + 1] && s1[b] == s[b + 1]);
        }
        assert forall|a: int, b: int| 0 <= a < b < t1.len() implies (#[trigger] t1[a]).index() < (
        #[trigger] t1[b]).index() by {
            assert(t1[a] == t[a + 1] && t1[b] == t[b + 1]);
        }
        lemma_increasing_unique(s1, t1);
        assert(s =~= seq![s[0]] + s1);
        assert(t =~= seq![t[0]] + t1);
    }
}

impl OrderedPathSet {
    /// The members in ascending id order.
    pub closed spec fn ordered(self) -> Seq<PathId> {
        choose|s: Seq<PathId>| increasing(s) && s.to_set() == self@
    }

    /// The members in ascending order are increasing, hold each member once,
    /// and hold nothing else.
    proof fn lemma_ordered(&self)
        ensures
            increasing(self.ordered()),
            self.ordered().to_set() == self@,
            self.ordered().len() == self.ids@.len(),
            self.ordered() == spec_btree_keys_iter(&self.ids).remaining().map_values(
                |x: &u32| path_id_at(*x),
            ),
    {
        broadcast use vstd::laws_cmp::group_laws_cmp, vstd::std_specs::btree::group_btree_axioms;

        let r = spec_btree_keys_iter(&self.ids).remaining();
        let o = r.map_values(|x: &u32| path_id_at(*x));
        assert(vstd::laws_cmp::obeys_cmp::<u32>());
        assert(vstd::laws_cmp::obeys_cmp::<&u32>());
        assert(increasing_seq(r));
        assert forall|a: int, b: int| 0 <= a < b < o.len() implies (#[trigger] o[a]).index() < (
        #[trigger] o[b]).index() by {
            assert(vstd::std_specs::cmp::OrdSpec::cmp_spec(&r[a], &r[b]) is Less);
            assert(*r[a] < *r[b]);
            lemma_path_id_at(*r[a]);
            lemma_path_id_at(*r[b]);
        }
        assert forall|p: PathId| #[trigger] o.to_set().contains(p) <==> self@.contains(p) by {
            if o.contains(p) {
                let k = choose|k: int| 0 <= k < o.len() && o[k] == p;
                assert(r.unref()[k] == *r[k]);
                assert(r.unref().contains(*r[k]));
                assert(r.unref().to_set().contains(*r[k]));
                assert(self.ids@.contains(*r[k]));
            }
            if self@.contains(p) {
                let x = choose|x: u32| self.ids@.contains(x) && path_id_at(x) == p;
                assert(r.unref().to_set().contains(x));
                let k = choose|k: int| 0 <= k < r.unref().len() && r.unref()[k] == x;
                assert(o[k] == p);
            }
        }
        assert(o.to_set() =~= self@);
        let c = self.ordered();
        lemma_increasing_unique(c, o);
    }

    /// An empty set.
    pub fn new() -> (r: Self)
        ensures
            r@ == Set::<PathId>::empty(),
            r.ordered() == Seq::<PathId>::empty(),
    {
        let r = OrderedPathSet { ids: BTreeSet::new() };
        proof {
            r.lemma_ordered();
            assert(r@ =~= Set::<PathId>::empty());
            assert(r.ordered() =~= Seq::<PathId>::empty());
        }
        r
    }

    /// Whether `id` is a member.
    pub fn contains(&self, id: PathId) -> (r: bool)
        ensures
            r == self@.contains(id),
    {
        broadcast use vstd::laws_cmp::group_laws_cmp, vstd::std_specs::btree::group_btree_axioms;

        let raw = id.get();
        let r = self.ids.contains(&raw);
        proof {
            lemma_path_id_at_iff(raw, id);
            if self@.contains(id) {
                let x = choose|x: u32| self.ids@.contains(x) && path_id_at(x) == id;
                lemma_path_id_at_iff(x, id);
            }
        }
        r
    }

    /// Adds `id`; `true` when it was not a member.
    pub fn insert(&mut self, id: PathId) -> (r: bool)
        ensures
            final(self)@ == old(self)@.insert(id),
            r == !old(self)@.contains(id),
    {
        broadcast use vstd::laws_cmp::group_laws_cmp, vstd::std_specs::btree::group_btree_axioms;

        let ghost before = self.ids@;
        let raw = id.get();
        let r = self.ids.insert(raw);
        proof {
            lemma_path_id_at_iff(raw, id);
            assert forall|p: PathId| #[trigger] self@.contains(p) <==> old(self)@.insert(id).contains(p) by {
                if self@.contains(p) {
                    let x = choose|x: u32| self.ids@.contains(x) && path_id_at(x) == p;
                    if x != raw {
                        assert(before.contains(x));
                    } else {
                        lemma_path_id_at_iff(x, p);
                        lemma_path_id_at_iff(x, id);
                        crate::path::lemma_path_id_index_injective(p, id);
                    }
                }
                if old(self)@.contains(p) {
                    let x = choose|x: u32| before.contains(x) && path_id_at(x) == p;
                    assert(self.ids@.contains(x));
                }
                if p == id {
                    assert(self.ids@.contains(raw));
                }
            }
            assert(self@ =~= old(self)@.insert(id));
            if old(self)@.contains(id) {
                let x = choose|x: u32| before.contains(x) && path_id_at(x) == id;
                lemma_path_id_at_iff(x, id);
            }
        }
        r
    }

    /// The members in ascending id order.
    pub fn to_vec(&self) -> (r: Vec<PathId>)
        ensures
            r@ == self.ordered(),
            increasing(r@),
            r@.to_set() == self@,
    {
        broadcast use vstd::laws_cmp::group_laws_cmp, vstd::std_specs::btree::group_btree_axioms;

        proof {
            self.lemma_ordered();
        }
        let ghost o = self.ordered();
        let mut out: Vec<PathId> = Vec::new();
        for x in it: self.ids.iter()
            invariant
                o == self.ordered(),
                it.seq() == spec_btree_keys_iter(&self.ids).remaining(),
                out@ == it.seq().take(it.index()).map_values(|x: &u32| path_id_at(*x)),
        {
            let ghost i = it.index();
            out.push(PathId::from_raw(*x));
            proof {
                lemma_path_id_at(*x);
                crate::path::lemma_path_id_index_injective(out@.last(), path_id_at(*x));
                assert(it.seq().take(i + 1).map_values(|x: &u32| path_id_at(*x)) =~= it.seq().take(
                    i,
                ).map_values(|x: &u32| path_id_at(*x)).push(path_id_at(*x)));
            }
        }
        proof {
            assert(out@ =~= o);
        }
        out
    }

    /// The number of members.
    pub fn len(&self) -> (r: usize)
        ensures
            r == self.ordered().len(),
    {
        broadcast use vstd::laws_cmp::group_laws_cmp, vstd::std_specs::btree::group_btree_axioms;

        proof {
            self.lemma_ordered();
        }
        self.ids.len()
    }
}

/// The interned paths after interning the prefixes of `p` shorter than `m`,
/// longest first (`p.take(m - 1)`, ..., `p.take(0)`, the root).
pub open spec fn prefixes_interned(t: Seq<Seq<TokenId>>, p: Seq<TokenId>, m: int) -> Seq<Seq<TokenId>>
    decreases m,
{
    if m <= 0 {
        t
    } else {
        prefixes_interned(interned(t, p.take(m - 1)), p, m - 1)
    }
}

/// The interned paths after interning the proper prefixes of each listed
/// path in turn.
pub open spec fn ancestors_interned(t: Seq<Seq<TokenId>>, ids: Seq<PathId>) -> Seq<Seq<TokenId>>
    decreases ids.len(),
{
    if ids.len() == 0 {
        t
    } else {
        let t0 = ancestors_interned(t, ids.drop_last());
        let p = t0[ids.last().index()];
        prefixes_interned(t0, p, p.len() as int)
    }
}

/// The sum of the depths of the listed paths.
pub open spec fn total_depth(paths: Seq<Seq<TokenId>>, ids: Seq<PathId>) -> int
    decreases ids.len(),
{
    if ids.len() == 0 {
        0
    } else {
        total_depth(paths, ids.drop_last()) + paths[ids.last().index()].len()
    }
}

/// `q` names a proper ancestor of the path that `x` names.
pub open spec fn is_ancestor(paths: Seq<Seq<TokenId>>, q: PathId, x: PathId) -> bool {
    &&& 0 <= q.index() < paths.len()
    &&& 0 <= x.index() < paths.len()
    &&& paths[q.index()].len() < paths[x.index()].len()
    &&& extends(paths[x.index()], paths[q.index()])
}

/// `u` starts with `t`.
spec fn grows(t: Seq<Seq<TokenId>>, u: Seq<Seq<TokenId>>) -> bool {
    t.len() <= u.len() && u.subrange(0, t.len() as int) == t
}

/// Growing is transitive.
proof fn lemma_grows_trans(t: Seq<Seq<TokenId>>, u: Seq<Seq<TokenId>>, v: Seq<Seq<TokenId>>)
    requires
        grows(t, u),
        grows(u, v),
    ensures
        grows(t, v),
{
    assert forall|k: int| 0 <= k < t.len() implies v.subrange(0, t.len() as int)[k] == t[k] by {
        assert(v.subrange(0, u.len() as int)[k] == v[k]);
        assert(u.subrange(0, t.len() as int)[k] == u[k]);
    }
    assert(v.subrange(0, t.len() as int) =~= t);
}

/// The depths summed over more listed paths grow.
proof fn lemma_total_depth_prefix(paths: Seq<Seq<TokenId>>, ids: Seq<PathId>, i: int)
    requires
        0 <= i < ids.len(),
    ensures
        total_depth(paths, ids.take(i + 1)) == total_depth(paths, ids.take(i)) + paths[ids[i].index()].len(),
{
    assert(ids.take(i + 1).drop_last() =~= ids.take(i));
}

/// The depths summed over a prefix of the list are at most the total.
proof fn lemma_total_depth_mono(paths: Seq<Seq<TokenId>>, ids: Seq<PathId>, k: int)
    requires
        0 <= k <= ids.len(),
    ensures
        total_depth(paths, ids.take(k)) <= total_depth(paths, ids),
    decreases ids.len() - k,
{
    if k < ids.len() {
        lemma_total_depth_prefix(paths, ids, k);
        lemma_total_depth_mono(paths, ids, k + 1);
    } else {
        assert(ids.take(k) =~= ids);
    }
}

/// Some entry of `extra` names the path `s`.
pub open spec fn covered(paths: Seq<Seq<TokenId>>, extra: Seq<PathId>, s: Seq<TokenId>) -> bool {
    exists|j: int| 0 <= j < extra.len() && paths[(#[trigger] extra[j]).index()] == s
}

/// `e` names a proper prefix of the path of one of the first `i` members.
pub open spec fn below_member(
    paths: Seq<Seq<TokenId>>,
    e: PathId,
    start: Seq<Seq<TokenId>>,
    members: Seq<PathId>,
    i: int,
) -> bool {
    exists|a: int|
        0 <= a < i && paths[e.index()].len() < start[(#[trigger] members[a]).index()].len() && extends(
            start[members[a].index()],
            paths[e.index()],
        )
}

/// Interns the proper prefixes of the path `x` names, longest first, and
/// appends their ids to `extra`.
fn intern_ancestors(paths: &mut PathInterner, x: PathId, extra: &mut Vec<PathId>)
    requires
        old(paths).contains_id(x),
        old(paths)@.len() + old(paths)@[x.index()].len() < u32::MAX,
    ensures
        final(paths)@ == prefixes_interned(old(paths)@, old(paths)@[x.index()], old(paths)@[x.index()].len() as int),
        grows(old(paths)@, final(paths)@),
        final(paths)@.len() <= old(paths)@.len() + old(paths)@[x.index()].len(),
        old(paths)@[x.index()].len() > 0 ==> final(paths)@.no_duplicates(),
        final(extra)@.len() == old(extra)@.len() + old(paths)@[x.index()].len(),
        forall|j: int| 0 <= j < old(extra)@.len() ==> final(extra)@[j] == old(extra)@[j],
        forall|t: int|
            0 <= t < old(paths)@[x.index()].len() ==> 0 <= (#[trigger] final(extra)@[old(extra)@.len() + t]).index()
                < final(paths)@.len() && final(paths)@[final(extra)@[old(extra)@.len() + t].index()]
                == old(paths)@[x.index()].take(old(paths)@[x.index()].len() - 1 - t),
{
    let ghost t0 = paths@;
    let ghost e0 = extra@;
    let ghost p = t0[x.index()];
    let mut current = paths.resolve(x).clone();
    let ghost mut m: int = p.len() as int;
    proof {
        assert(p.take(m) =~= p);
        assert(t0.subrange(0, t0.len() as int) =~= t0);
    }
    loop
        invariant
            0 <= m <= p.len(),
            current@ == p.take(m),
            t0.len() + p.len() < u32::MAX,
            prefixes_interned(paths@, p, m) == prefixes_interned(t0, p, p.len() as int),
            grows(t0, paths@),
            paths@.len() <= t0.len() + (p.len() - m),
            m < p.len() ==> paths@.no_duplicates(),
            extra@.len() == e0.len() + (p.len() - m),
            forall|j: int| 0 <= j < e0.len() ==> extra@[j] == e0[j],
            forall|t: int|
                0 <= t < p.len() - m ==> 0 <= (#[trigger] extra@[e0.len() + t]).index() < paths@.len()
                    && paths@[extra@[e0.len() + t].index()] == p.take(p.len() - 1 - t),
        ensures
            m == 0,
            paths@ == prefixes_interned(t0, p, p.len() as int),
        decreases m,
    {
        match current.parent() {
            Some(parent) => {
                let ghost before = paths@;
                proof {
                    assert(parent@ =~= p.take(m - 1));
                }
                let pid = paths.intern(parent.clone());
                proof {
                    lemma_interned_extends(before, p.take(m - 1));
                    lemma_grows_trans(t0, before, paths@);
                }
                extra.push(pid);
                current = parent;
                proof {
                    let np = paths@;
                    assert forall|t: int| 0 <= t < p.len() - (m - 1) implies 0 <= (#[trigger] extra@[e0.len() + t]).index()
                        < np.len() && np[extra@[e0.len() + t].index()] == p.take(p.len() - 1 - t) by {
                        if t < p.len() - m {
                            assert(np.subrange(0, before.len() as int)[extra@[e0.len() + t].index()]
                                == np[extra@[e0.len() + t].index()]);
                        }
                    }
                    m = m - 1;
                }
            },
            None => {
                break;
            },
        }
    }
}

/// Adds to `set` the proper ancestors of its members, interning each
/// ancestor path on the way (members in ascending id order, each member's
/// ancestors from its parent up to the root).
#[verifier::rlimit(30)]
pub fn add_ancestor_paths(paths: &mut PathInterner, set: &mut OrderedPathSet)
    requires
        forall|x: PathId| #[trigger] old(set)@.contains(x) ==> old(paths).contains_id(x),
        old(paths)@.len() + total_depth(old(paths)@, old(set).ordered()) < u32::MAX,
    ensures
        final(paths)@ == ancestors_interned(old(paths)@, old(set).ordered()),
        extends(final(paths)@, old(paths)@),
        forall|q: PathId| #[trigger]
            final(set)@.contains(q) <==> old(set)@.contains(q) || exists|x: PathId|
                old(set)@.contains(x) && is_ancestor(final(paths)@, q, x),
{
    let ids = set.to_vec();
    let ghost start = paths@;
    let ghost os = ids@;
    proof {
        assert forall|a: int| 0 <= a < os.len() implies 0 <= (#[trigger] os[a]).index() < start.len() by {
            assert(os.to_set().contains(os[a]));
        }
        assert(start.subrange(0, start.len() as int) =~= start);
        assert(os.take(0) =~= Seq::<PathId>::empty());
    }
    let n = ids.len();
    let mut extra: Vec<PathId> = Vec::new();
    let ghost mut any: bool = false;
    let mut i: usize = 0;
    while i < n
        invariant
            n == os.len(),
            os == ids@,
            i <= n,
            forall|a: int| 0 <= a < os.len() ==> 0 <= (#[trigger] os[a]).index() < start.len(),
            start.len() + total_depth(start, os) < u32::MAX,
            grows(start, paths@),
            paths@ == ancestors_interned(start, os.take(i as int)),
            paths@.len() <= start.len() + total_depth(start, os.take(i as int)),
            any ==> paths@.no_duplicates(),
            forall|a: int| 0 <= a < i && start[(#[trigger] os[a]).index()].len() > 0 ==> any,
            forall|j: int| 0 <= j < extra@.len() ==> 0 <= (#[trigger] extra@[j]).index() < paths@.len(),
            forall|j: int| 0 <= j < extra@.len() ==> below_member(paths@, #[trigger] extra@[j], start, os, i as int),
            forall|a: int, k: int|
                0 <= a < i && 0 <= k < start[os[a].index()].len() ==> covered(
                    paths@,
                    extra@,
                    #[trigger] start[(#[trigger] os[a]).index()].take(k),
                ),
        decreases n - i,
    {
        let x = ids[i];
        let ghost ti = paths@;
        let ghost e0 = extra@;
        proof {
            assert(os.take(i + 1).drop_last() =~= os.take(i as int));
            assert(os.take(i + 1).last() == x);
            lemma_total_depth_prefix(start, os, i as int);
            lemma_total_depth_mono(start, os, i + 1);
            assert(ti.subrange(0, start.len() as int)[x.index()] == ti[x.index()]);
        }
        let ghost p = ti[x.index()];
        intern_ancestors(paths, x, &mut extra);
        proof {
            let np = paths@;
            lemma_grows_trans(start, ti, np);
            assert(np == ancestors_interned(start, os.take(i + 1)));
            assert forall|j: int| 0 <= j < extra@.len() implies 0 <= (#[trigger] extra@[j]).index() < np.len() by {
                if j < e0.len() {
                    assert(extra@[j] == e0[j]);
                } else {
                    assert(extra@[e0.len() + (j - e0.len())] == extra@[j]);
                }
            }
            assert forall|j: int| 0 <= j < extra@.len() implies below_member(np, #[trigger] extra@[j], start, os, i + 1) by {
                if j < e0.len() {
                    assert(extra@[j] == e0[j]);
                    assert(below_member(ti, e0[j], start, os, i as int));
                    let a = choose|a: int|
                        0 <= a < i && ti[e0[j].index()].len() < start[(#[trigger] os[a]).index()].len() && extends(
                            start[os[a].index()],
                            ti[e0[j].index()],
                        );
                    assert(np.subrange(0, ti.len() as int)[e0[j].index()] == np[e0[j].index()]);
                } else {
                    let t = j - e0.len();
                    assert(extra@[e0.len() + t] == extra@[j]);
                    assert(np[extra@[j].index()] == p.take(p.len() - 1 - t));
                    assert(os[i as int] == x);
                    assert(p.subrange(0, p.len() - 1 - t) =~= p.take(p.len() - 1 - t));
                }
            }
            assert forall|a: int, k: int|
                0 <= a < i + 1 && 0 <= k < start[os[a].index()].len() implies covered(
                np,
                extra@,
                #[trigger] start[(#[trigger] os[a]).index()].take(k),
            ) by {
                if a < i {
                    assert(covered(ti, e0, start[os[a].index()].take(k)));
                    let j = choose|j: int| 0 <= j < e0.len() && ti[(#[trigger] e0[j]).index()] == start[os[a].index()].take(k);
                    assert(np.subrange(0, ti.len() as int)[e0[j].index()] == np[e0[j].index()]);
                    assert(extra@[j] == e0[j]);
                } else {
                    assert(os[a] == x);
                    let t = p.len() - 1 - k;
                    assert(np[extra@[e0.len() + t].index()] == p.take(k));
                }
            }
            if p.len() > 0 {
                any = true;
            }
        }
        i = i + 1;
    }
    proof {
        assert(os.take(n as int) =~= os);
    }
    let ghost fp = paths@;
    let ghost es = extra@;
    let mut j: usize = 0;
    while j < extra.len()
        invariant
            es == extra@,
            j <= es.len(),
            forall|q: PathId| #[trigger] set@.contains(q) <==> os.to_set().contains(q) || es.take(j as int).contains(q),
        decreases es.len() - j,
    {
        let e = extra[j];
        set.insert(e);
        proof {
            let prev = es.take(j as int);
            let next = es.take(j + 1);
            assert(next =~= prev.push(e));
            assert forall|q: PathId| #[trigger] set@.contains(q) <==> os.to_set().contains(q) || next.contains(q) by {
                if q == e {
                    assert(next[j as int] == e);
                }
                if next.contains(q) && q != e {
                    let w = choose|w: int| 0 <= w < next.len() && next[w] == q;
                    assert(prev[w] == q);
                }
                if prev.contains(q) {
                    let w = choose|w: int| 0 <= w < prev.len() && prev[w] == q;
                    assert(next[w] == q);
                }
            }
        }
        j = j + 1;
    }
    proof {
        assert(es.take(es.len() as int) =~= es);
        assert forall|q: PathId| #[trigger] set@.contains(q) <==> old(set)@.contains(q) || exists|x: PathId|
            old(set)@.contains(x) && is_ancestor(fp, q, x) by {
            if es.contains(q) {
                let w = choose|w: int| 0 <= w < es.len() && es[w] == q;
                assert(below_member(fp, es[w], start, os, n as int));
                let a = choose|a: int|
                    0 <= a < n && fp[es[w].index()].len() < start[(#[trigger] os[a]).index()].len() && extends(
                        start[os[a].index()],
                        fp[es[w].index()],
                    );
                let x = os[a];
                assert(os.to_set().contains(x));
                assert(fp.subrange(0, start.len() as int)[x.index()] == fp[x.index()]);
                assert(is_ancestor(fp, q, x));
            }
            if exists|x: PathId| old(set)@.contains(x) && is_ancestor(fp, q, x) {
                let x = choose|x: PathId| old(set)@.contains(x) && is_ancestor(fp, q, x);
                assert(os.to_set().contains(x));
                let a = choose|a: int| 0 <= a < os.len() && os[a] == x;
                assert(fp.subrange(0, start.len() as int)[x.index()] == fp[x.index()]);
                let k = fp[q.index()].len();
                assert(fp[q.index()] =~= start[x.index()].take(k as int));
                assert(covered(fp, es, start[os[a].index()].take(k as int)));
                let w = choose|w: int| 0 <= w < es.len() && fp[(#[trigger] es[w]).index()] == start[os[a].index()].take(k as int);
                assert(any);
                assert(fp.no_duplicates());
                assert(es[w].index() == q.index());
                crate::path::lemma_path_id_index_injective(es[w], q);
                assert(es.contains(q));
            }
        }
    }
}

/// `q` is kept by a population mask over `included`: it names the root, or
/// a prefix of (or the same path as) an included path.
pub open spec fn kept_by_mask(paths: Seq<Seq<TokenId>>, included: Seq<PathId>, q: PathId) -> bool {
    &&& 0 <= q.index() < paths.len()
    &&& (paths[q.index()].len() == 0 || exists|i: int|
        0 <= i < included.len() && extends(paths[(#[trigger] included[i]).index()], paths[q.index()]))
}

/// Interning a path that is already there changes nothing.
proof fn lemma_intern_present(t: Seq<Seq<TokenId>>, k: int)
    requires
        0 <= k < t.len(),
    ensures
        interned(t, t[k]) == t,
{
    assert(t.contains(t[k]));
}

/// Restricts `set` to the prims a population mask keeps: the included paths,
/// their ancestors and the root (interning those paths on the way). Without
/// a mask nothing changes.
#[verifier::rlimit(30)]
pub fn apply_population_mask(paths: &mut PathInterner, set: &mut OrderedPathSet, mask: Option<&PopulationMask>)
    requires
        mask matches Some(m) ==> forall|i: int|
            0 <= i < m.included@.len() ==> old(paths).contains_id(#[trigger] m.included@[i]),
        mask matches Some(m) ==> old(paths)@.len() + total_depth(old(paths)@, m.included@) + 1 < u32::MAX,
    ensures
        extends(final(paths)@, old(paths)@),
        mask is None ==> final(paths)@ == old(paths)@ && final(set)@ == old(set)@,
        mask matches Some(m) ==> final(paths)@ == interned(
            ancestors_interned(old(paths)@, m.included@),
            Seq::<TokenId>::empty(),
        ),
        mask matches Some(m) ==> forall|q: PathId| #[trigger]
            final(set)@.contains(q) <==> old(set)@.contains(q) && kept_by_mask(final(paths)@, m.included@, q),
{
    let mask = match mask {
        Some(m) => m,
        None => {
            proof {
                assert(paths@.subrange(0, paths@.len() as int) =~= paths@);
            }
            return;
        },
    };
    let ghost start = paths@;
    let ghost inc = mask.included@;
    let n = mask.included.len();
    let mut allowed_ids: Vec<PathId> = Vec::new();
    let mut prefixes: Vec<PathId> = Vec::new();
    proof {
        assert(start.subrange(0, start.len() as int) =~= start);
        assert(inc.take(0) =~= Seq::<PathId>::empty());
    }
    let mut i: usize = 0;
    while i < n
        invariant
            n == inc.len(),
            inc == mask.included@,
            i <= n,
            forall|a: int| 0 <= a < inc.len() ==> 0 <= (#[trigger] inc[a]).index() < start.len(),
            start.len() + total_depth(start, inc) + 1 < u32::MAX,
            grows(start, paths@),
            paths@ == ancestors_interned(start, inc.take(i as int)),
            paths@.len() <= start.len() + total_depth(start, inc.take(i as int)),
            i > 0 ==> paths@.no_duplicates(),
            allowed_ids@ == inc.take(i as int),
            forall|j: int| 0 <= j < prefixes@.len() ==> 0 <= (#[trigger] prefixes@[j]).index() < paths@.len(),
            forall|j: int| 0 <= j < prefixes@.len() ==> below_member(paths@, #[trigger] prefixes@[j], start, inc, i as int),
            forall|a: int, k: int|
                0 <= a < i && 0 <= k < start[inc[a].index()].len() ==> covered(
                    paths@,
                    prefixes@,
                    #[trigger] start[(#[trigger] inc[a]).index()].take(k),
                ),
        decreases n - i,
    {
        let x = mask.included[i];
        let ghost ti = paths@;
        let ghost e0 = prefixes@;
        proof {
            assert(inc.take(i + 1).drop_last() =~= inc.take(i as int));
            assert(inc.take(i + 1).last() == x);
            lemma_total_depth_prefix(start, inc, i as int);
            lemma_total_depth_mono(start, inc, i + 1);
            assert(ti.subrange(0, start.len() as int)[x.index()] == ti[x.index()]);
        }
        let ghost p = ti[x.index()];
        let current = paths.resolve(x).clone();
        let include_id = paths.intern(current);
        proof {
            lemma_intern_present(ti, x.index());
            assert(ti.no_duplicates());
            assert(ti.index_of(ti[x.index()]) == x.index()) by {
                let k = ti.index_of(ti[x.index()]);
                assert(ti[k] == ti[x.index()]);
            }
            crate::path::lemma_path_id_index_injective(include_id, x);
        }
        allowed_ids.push(include_id);
        intern_ancestors(paths, x, &mut prefixes);
        proof {
            let np = paths@;
            lemma_grows_trans(start, ti, np);
            assert(np == ancestors_interned(start, inc.take(i + 1)));
            assert(allowed_ids@ =~= inc.take(i + 1));
            if p.len() == 0 {
                assert(np == ti);
            }
            assert forall|j: int| 0 <= j < prefixes@.len() implies 0 <= (#[trigger] prefixes@[j]).index() < np.len() by {
                if j < e0.len() {
                    assert(prefixes@[j] == e0[j]);
                } else {
                    assert(prefixes@[e0.len() + (j - e0.len())] == prefixes@[j]);
                }
            }
            assert forall|j: int| 0 <= j < prefixes@.len() implies below_member(np, #[trigger] prefixes@[j], start, inc, i + 1) by {
                if j < e0.len() {
                    assert(prefixes@[j] == e0[j]);
                    assert(below_member(ti, e0[j], start, inc, i as int));
                    let a = choose|a: int|
                        0 <= a < i && ti[e0[j].index()].len() < start[(#[trigger] inc[a]).index()].len() && extends(
                            start[inc[a].index()],
                            ti[e0[j].index()],
                        );
                    assert(np.subrange(0, ti.len() as int)[e0[j].index()] == np[e0[j].index()]);
                } else {
                    let t = j - e0.len();
                    assert(prefixes@[e0.len() + t] == prefixes@[j]);
                    assert(np[prefixes@[j].index()] == p.take(p.len() - 1 - t));
                    assert(inc[i as int] == x);
                    assert(p.subrange(0, p.len() - 1 - t) =~= p.take(p.len() - 1 - t));
                }
            }
            assert forall|a: int, k: int|
                0 <= a < i + 1 && 0 <= k < start[inc[a].index()].len() implies covered(
                np,
                prefixes@,
                #[trigger] start[(#[trigger] inc[a]).index()].take(k),
            ) by {
                if a < i {
                    assert(covered(ti, e0, start[inc[a].index()].take(k)));
                    let j = choose|j: int| 0 <= j < e0.len() && ti[(#[trigger] e0[j]).index()] == start[inc[a].index()].take(k);
                    assert(np.subrange(0, ti.len() as int)[e0[j].index()] == np[e0[j].index()]);
                    assert(prefixes@[j] == e0[j]);
                } else {
                    assert(inc[a] == x);
                    let t = p.len() - 1 - k;
                    assert(np[prefixes@[e0.len() + t].index()] == p.take(k));
                }
            }
        }
        i = i + 1;
    }
    proof {
        assert(inc.take(n as int) =~= inc);
        assert(allowed_ids@ =~= inc);
    }
    let ghost before_root = paths@;
    let root_id = paths.intern(Path::root());
    let ghost fp = paths@;
    proof {
        lemma_interned_extends(before_root, Seq::<TokenId>::empty());
        lemma_grows_trans(start, before_root, fp);
    }
    // The allowed paths, as a hash set.
    let mut allowed = path_set_new();
    let mut j: usize = 0;
    while j < n
        invariant
            n == inc.len(),
            allowed_ids@ == inc,
            j <= n,
            forall|q: PathId| #[trigger] path_set_contents(allowed).contains(q) <==> inc.take(j as int).contains(q),
        decreases n - j,
    {
        let e = allowed_ids[j];
        path_set_insert(&mut allowed, e);
        proof {
            let prev = inc.take(j as int);
            let next = inc.take(j + 1);
            assert(next =~= prev.push(e));
            assert forall|q: PathId| #[trigger] path_set_contents(allowed).contains(q) <==> next.contains(q) by {
                if q == e {
                    assert(next[j as int] == e);
                }
                if next.contains(q) && q != e {
                    let w = choose|w: int| 0 <= w < next.len() && next[w] == q;
                    assert(prev[w] == q);
                }
                if prev.contains(q) {
                    let w = choose|w: int| 0 <= w < prev.len() && prev[w] == q;
                    assert(next[w] == q);
                }
            }
        }
        j = j + 1;
    }
    let ghost es = prefixes@;
    let mut j: usize = 0;
    while j < prefixes.len()
        invariant
            es == prefixes@,
            j <= es.len(),
            forall|q: PathId| #[trigger]
                path_set_contents(allowed).contains(q) <==> inc.contains(q) || es.take(j as int).contains(q),
        decreases es.len() - j,
    {
        let e = prefixes[j];
        path_set_insert(&mut allowed, e);
        proof {
            let prev = es.take(j as int);
            let next = es.take(j + 1);
            assert(next =~= prev.push(e));
            assert forall|q: PathId| #[trigger]
                path_set_contents(allowed).contains(q) <==> inc.contains(q) || next.contains(q) by {
                if q == e {
                    assert(next[j as int] == e);
                }
                if next.contains(q) && q != e {
                    let w = choose|w: int| 0 <= w < next.len() && next[w] == q;
                    assert(prev[w] == q);
                }
                if prev.contains(q) {
                    let w = choose|w: int| 0 <= w < prev.len() && prev[w] == q;
                    assert(next[w] == q);
                }
            }
        }
        j = j + 1;
    }
    path_set_insert(&mut allowed, root_id);
    proof {
        assert(es.take(es.len() as int) =~= es);
        assert(inc.take(n as int) =~= inc);
        assert(fp.no_duplicates());
        assert forall|q: PathId| #[trigger] path_set_contents(allowed).contains(q) <==> kept_by_mask(fp, inc, q) by {
            if inc.contains(q) {
                let a = choose|a: int| 0 <= a < inc.len() && inc[a] == q;
                assert(fp.subrange(0, start.len() as int)[q.index()] == fp[q.index()]);
                assert(fp[inc[a].index()].subrange(0, fp[q.index()].len() as int) =~= fp[q.index()]);
            }
            if es.contains(q) {
                let w = choose|w: int| 0 <= w < es.len() && es[w] == q;
                assert(below_member(before_root, es[w], start, inc, n as int));
                let a = choose|a: int|
                    0 <= a < n && before_root[es[w].index()].len() < start[(#[trigger] inc[a]).index()].len()
                        && extends(start[inc[a].index()], before_root[es[w].index()]);
                assert(fp.subrange(0, before_root.len() as int)[q.index()] == fp[q.index()]);
                assert(fp.subrange(0, start.len() as int)[inc[a].index()] == fp[inc[a].index()]);
            }
            if q == root_id {
                assert(fp[q.index()] == Seq::<TokenId>::empty());
            }
            if kept_by_mask(fp, inc, q) {
                if fp[q.index()].len() == 0 {
                    assert(fp[q.index()] =~= fp[root_id.index()]);
                    crate::path::lemma_path_id_index_injective(q, root_id);
                } else {
                    let a = choose|a: int|
                        0 <= a < inc.len() && extends(fp[(#[trigger] inc[a]).index()], fp[q.index()]);
                    let x = inc[a];
                    assert(fp.subrange(0, start.len() as int)[x.index()] == fp[x.index()]);
                    let k = fp[q.index()].len();
                    if k == fp[x.index()].len() {
                        assert(fp[q.index()] =~= fp[x.index()]);
                        crate::path::lemma_path_id_index_injective(q, x);
                        assert(inc.contains(x));
                    } else {
                        assert(fp[q.index()] =~= start[x.index()].take(k as int));
                        assert(covered(before_root, es, start[inc[a].index()].take(k as int)));
                        let w = choose|w: int| 0 <= w < es.len() && before_root[(#[trigger] es[w]).index()] == start[inc[a].index()].take(k as int);
                        assert(fp.subrange(0, before_root.len() as int)[es[w].index()] == fp[es[w].index()]);
                        crate::path::lemma_path_id_index_injective(es[w], q);
                        assert(es.contains(q));
                    }
                }
            }
        }
    }
    // Keep the members that are allowed.
    let members = set.to_vec();
    let ghost ms = members@;
    let mut kept = OrderedPathSet::new();
    let mut j: usize = 0;
    while j < members.len()
        invariant
            ms == members@,
            ms.to_set() == old(set)@,
            j <= ms.len(),
            forall|q: PathId| #[trigger] path_set_contents(allowed).contains(q) <==> kept_by_mask(fp, inc, q),
            forall|q: PathId| #[trigger]
                kept@.contains(q) <==> ms.take(j as int).contains(q) && kept_by_mask(fp, inc, q),
        decreases ms.len() - j,
    {
        let e = members[j];
        if path_set_contains(&allowed, e) {
            kept.insert(e);
        }
        proof {
            let prev = ms.take(j as int);
            let next = ms.take(j + 1);
            assert(next =~= prev.push(e));
            assert forall|q: PathId| #[trigger]
                kept@.contains(q) <==> next.contains(q) && kept_by_mask(fp, inc, q) by {
                if q == e {
                    assert(next[j as int] == e);
                }
                if next.contains(q) && q != e {
                    let w = choose|w: int| 0 <= w < next.len() && next[w] == q;
                    assert(prev[w] == q);
                }
                if prev.contains(q) {
                    let w = choose|w: int| 0 <= w < prev.len() && prev[w] == q;
                    assert(next[w] == q);
                }
            }
        }
        j = j + 1;
    }
    proof {
        assert(ms.take(ms.len() as int) =~= ms);
    }
    *set = kept;
}

/// A set completed with the ancestors of its members (as
/// [`add_ancestor_paths`] leaves it) holds every ancestor of each of its
/// members.
pub proof fn law_ancestors_closed(paths: Seq<Seq<TokenId>>, before: Set<PathId>, after: Set<PathId>)
    requires
        forall|q: PathId| #[trigger]
            after.contains(q) <==> before.contains(q) || exists|x: PathId| before.contains(x) && is_ancestor(paths, q, x),
    ensures
        forall|x: PathId, q: PathId| after.contains(x) && #[trigger] is_ancestor(paths, q, x) ==> after.contains(q),
{
    assert forall|x: PathId, q: PathId| after.contains(x) && #[trigger] is_ancestor(paths, q, x) implies after.contains(q) by {
        if !before.contains(x) {
            let y = choose|y: PathId| before.contains(y) && is_ancestor(paths, x, y);
            let px = paths[x.index()];
            let py = paths[y.index()];
            let pq = paths[q.index()];
            assert(py.subrange(0, px.len() as int) == px);
            assert(px.subrange(0, pq.len() as int) == pq);
            assert(py.subrange(0, pq.len() as int) =~= pq) by {
                assert forall|k: int| 0 <= k < pq.len() implies py.subrange(0, pq.len() as int)[k] == pq[k] by {
                    assert(py.subrange(0, px.len() as int)[k] == py[k]);
                    assert(px.subrange(0, pq.len() as int)[k] == px[k]);
                }
            }
            assert(is_ancestor(paths, q, y));
        }
    }
}

/// A deterministic preorder walk over a children index: a prim, then the
/// walks under each of its children in order.
pub struct Traverse<'a> {
    children: &'a ChildrenIndex,
    stack: Vec<PathId>,
}

impl<'a> Traverse<'a> {
    /// The prims still to visit, the next one last.
    pub closed spec fn pending(&self) -> Seq<PathId> {
        self.stack@
    }

    /// The index being walked.
    pub closed spec fn walked(&self) -> ChildrenIndex {
        *self.children
    }

    /// A walk starting at `root`.
    pub fn new(children: &'a ChildrenIndex, root: PathId) -> (r: Self)
        ensures
            r.pending() == seq![root],
            r.walked() == *children,
    {
        let mut stack: Vec<PathId> = Vec::new();
        stack.push(root);
        Traverse { children, stack }
    }

    /// The next prim of the walk: the last pending one, whose children are
    /// then pending in reverse order (so the first child comes next).
    pub fn next(&mut self) -> (r: Option<PathId>)
        ensures
            final(self).walked() == old(self).walked(),
            old(self).pending().len() == 0 ==> r is None && final(self).pending() == old(self).pending(),
            old(self).pending().len() > 0 ==> r == Some(old(self).pending().last()) && final(self).pending() == old(
                self,
            ).pending().drop_last() + (if children_contents(old(self).walked()).dom().contains(
                old(self).pending().last(),
            ) {
                children_contents(old(self).walked())[old(self).pending().last()].reverse()
            } else {
                Seq::<PathId>::empty()
            }),
    {
        let next = match self.stack.pop() {
            Some(p) => p,
            None => {
                return None;
            },
        };
        let ghost base = self.stack@;
        match children_get(self.children, next) {
            Some(kids) => {
                let n = kids.len();
                let mut i: usize = n;
                while i > 0
                    invariant
                        i <= n,
                        n == kids@.len(),
                        self.children == old(self).children,
                        self.stack@ == base + kids@.subrange(i as int, n as int).reverse(),
                    decreases i,
                {
                    i = i - 1;
                    self.stack.push(kids[i]);
                    proof {
                        assert(kids@.subrange(i as int, n as int).reverse() =~= kids@.subrange(
                            (i + 1) as int,
                            n as int,
                        ).reverse().push(kids@[i as int]));
                    }
                }
                proof {
                    assert(kids@.subrange(0, n as int) =~= kids@);
                }
            },
            None => {
                proof {
                    assert(base + Seq::<PathId>::empty() =~= base);
                }
            },
        }
        Some(next)
    }
}

} // verus!

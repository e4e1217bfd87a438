//! Child ordering of composed prims.
//!
//! A prim's children are first put in their authored base order (the
//! `children` lists of its opinions, grouped by layer position, weakest
//! first), then rearranged by the chain of its `reorder nameChildren`
//! statements, weakest opinion first.

use vstd::prelude::*;

use crate::doc::LayerId;
use crate::hashed::{
    children_contents, children_get, children_insert, children_keys, children_new, opinions_contents, opinions_get,
    opinions_new, opinions_push,
    ChildrenIndex, OpinionsByPrim,
    path_set_contents, path_set_insert, path_set_new, position_contents, position_get, position_insert,
    position_new, position_stored, position_values, segment_contents, segment_get, segment_new, segment_push, segment_touch,
    token_path_contents, token_path_get, token_path_insert, token_path_new, token_set_contains,
    token_set_contents, token_set_insert, token_set_new, LayerPositionMap, TokenPathMap,
};
use crate::interner::TokenId;
use crate::path::{PathId, PathInterner};
use crate::prim_index::{law_stronger_strict_total, stronger, OpinionKey};
use crate::sorting::{lemma_insert_sorted, lemma_sorted_unique, sorted_positions, strict_total_on};

verus! {

/// The leaf name of the path that `c` names in `paths`.
pub open spec fn leaf_name(paths: Seq<Seq<TokenId>>, c: PathId) -> Option<TokenId> {
    let p = paths[c.index()];
    if p.len() == 0 {
        None
    } else {
        Some(p.last())
    }
}

/// `true` when every child names a path of `paths`.
pub open spec fn all_named(paths: Seq<Seq<TokenId>>, ch: Seq<PathId>) -> bool {
    forall|i: int| 0 <= i < ch.len() ==> 0 <= #[trigger] ch[i].index() < paths.len()
}

/// Each leaf name borne by a child, mapped to the last child that bears it.
pub open spec fn children_by_name(paths: Seq<Seq<TokenId>>, ch: Seq<PathId>) -> Map<TokenId, PathId>
    decreases ch.len(),
{
    if ch.len() == 0 {
        Map::empty()
    } else {
        let m = children_by_name(paths, ch.drop_last());
        match leaf_name(paths, ch.last()) {
            Some(n) => m.insert(n, ch.last()),
            None => m,
        }
    }
}

/// The names of `order` that some child bears, in their listed order.
pub open spec fn known_names(order: Seq<TokenId>, m: Map<TokenId, PathId>) -> Seq<TokenId>
    decreases order.len(),
{
    if order.len() == 0 {
        Seq::empty()
    } else {
        let k = known_names(order.drop_last(), m);
        if m.dom().contains(order.last()) {
            k.push(order.last())
        } else {
            k
        }
    }
}

/// The listed name that owns the children following `ch`: the leaf of the
/// last child of `ch` whose leaf is listed, if any.
pub open spec fn owner_after(paths: Seq<Seq<TokenId>>, ch: Seq<PathId>, listed: Set<TokenId>) -> Option<
    TokenId,
>
    decreases ch.len(),
{
    if ch.len() == 0 {
        None
    } else {
        match leaf_name(paths, ch.last()) {
            Some(n) => if listed.contains(n) {
                Some(n)
            } else {
                owner_after(paths, ch.drop_last(), listed)
            },
            None => owner_after(paths, ch.drop_last(), listed),
        }
    }
}

/// The children of `ch` with an unlisted leaf whose owner is `owner`
/// (`None`: those before any listed child), in order.
pub open spec fn owned_run(
    paths: Seq<Seq<TokenId>>,
    ch: Seq<PathId>,
    listed: Set<TokenId>,
    owner: Option<TokenId>,
) -> Seq<PathId>
    decreases ch.len(),
{
    if ch.len() == 0 {
        Seq::empty()
    } else {
        let rest = owned_run(paths, ch.drop_last(), listed, owner);
        match leaf_name(paths, ch.last()) {
            Some(n) => if !listed.contains(n) && owner_after(paths, ch.drop_last(), listed) == owner {
                rest.push(ch.last())
            } else {
                rest
            },
            None => rest,
        }
    }
}

/// For each of `names` in turn: the child that bears it, then the run it owns.
pub open spec fn listed_runs(
    paths: Seq<Seq<TokenId>>,
    ch: Seq<PathId>,
    listed: Set<TokenId>,
    m: Map<TokenId, PathId>,
    names: Seq<TokenId>,
) -> Seq<PathId>
    decreases names.len(),
{
    if names.len() == 0 {
        Seq::empty()
    } else {
        listed_runs(paths, ch, listed, m, names.drop_last()).push(m[names.last()]) + owned_run(
            paths,
            ch,
            listed,
            Some(names.last()),
        )
    }
}

/// `base`, then each item of `extra` not yet present (first occurrence only).
pub open spec fn append_unseen(base: Seq<PathId>, extra: Seq<PathId>) -> Seq<PathId>
    decreases extra.len(),
{
    if extra.len() == 0 {
        base
    } else {
        let s = append_unseen(base, extra.drop_last());
        if s.contains(extra.last()) {
            s
        } else {
            s.push(extra.last())
        }
    }
}

/// The children after one `reorder nameChildren` statement.
///
/// Names that no child bears are dropped from `order`; if none is left the
/// children stay as they are. Otherwise the children are cut into runs: each
/// child with a listed name owns the unlisted children that follow it, and the
/// unlisted children before any listed one form a prefix. The result is the
/// first listed child, the prefix, its run, then each further listed child
/// with its run, followed by any child not yet placed.
pub open spec fn reordered(paths: Seq<Seq<TokenId>>, ch: Seq<PathId>, order: Seq<TokenId>) -> Seq<PathId> {
    let m = children_by_name(paths, ch);
    let kept = known_names(order, m);
    if kept.len() == 0 {
        ch
    } else {
        let listed = kept.to_set();
        let head = seq![m[kept[0]]] + owned_run(paths, ch, listed, None) + owned_run(
            paths,
            ch,
            listed,
            Some(kept[0]),
        );
        append_unseen(head + listed_runs(paths, ch, listed, m, kept.drop_first()), ch)
    }
}

/// Every name kept from `order` is a key of `m`.
proof fn lemma_known_names_in(order: Seq<TokenId>, m: Map<TokenId, PathId>)
    ensures
        forall|i: int|
            0 <= i < known_names(order, m).len() ==> m.dom().contains(#[trigger] known_names(order, m)[i]),
    decreases order.len(),
{
    if order.len() > 0 {
        let k = known_names(order.drop_last(), m);
        lemma_known_names_in(order.drop_last(), m);
        assert forall|i: int| 0 <= i < known_names(order, m).len() implies m.dom().contains(
            #[trigger] known_names(order, m)[i],
        ) by {
            if i < k.len() {
                assert(known_names(order, m)[i] == k[i]);
            }
        }
    }
}

/// Appends every item of `xs` to `out`.
fn push_all(out: &mut Vec<PathId>, xs: &[PathId])
    ensures
        final(out)@ == old(out)@ + xs@,
{
    let n = xs.len();
    let mut i: usize = 0;
    while i < n
        invariant
            n == xs@.len(),
            i <= n,
            out@ == old(out)@ + xs@.take(i as int),
        decreases n - i,
    {
        out.push(xs[i]);
        proof {
            assert(xs@.take(i + 1) =~= xs@.take(i as int).push(xs@[i as int]));
        }
        i = i + 1;
    }
    proof {
        assert(xs@.take(n as int) =~= xs@);
    }
}

/// Maps each leaf name of `children` to the last child that bears it.
fn children_by_name_map(paths: &PathInterner, children: &Vec<PathId>) -> (r: TokenPathMap)
    requires
        all_named(paths@, children@),
    ensures
        token_path_contents(r) == children_by_name(paths@, children@),
{
    let ghost ch = children@;
    let n = children.len();
    let mut by_name = token_path_new();
    let mut i: usize = 0;
    while i < n
        invariant
            n == ch.len(),
            children@ == ch,
            all_named(paths@, ch),
            i <= n,
            token_path_contents(by_name) == children_by_name(paths@, ch.take(i as int)),
        decreases n - i,
    {
        let c = children[i];
        let leaf = paths.resolve(c).leaf();
        proof {
            assert(ch.take(i + 1).drop_last() =~= ch.take(i as int));
        }
        match leaf {
            Some(name) => token_path_insert(&mut by_name, name, c),
            None => {},
        }
        i = i + 1;
    }
    proof {
        assert(ch.take(n as int) =~= ch);
    }
    by_name
}

/// Applies one `reorder nameChildren` statement to a prim's children.
pub fn apply_reorder_op(paths: &PathInterner, children: &mut Vec<PathId>, order: &[TokenId])
    requires
        all_named(paths@, old(children)@),
    ensures
        final(children)@ == reordered(paths@, old(children)@, order@),
{
    let ghost ch = children@;
    let ghost ps = paths@;
    let n = children.len();
    let by_name = children_by_name_map(paths, children);
    let ghost m = children_by_name(ps, ch);
    let mut kept: Vec<TokenId> = Vec::new();
    let mut j: usize = 0;
    while j < order.len()
        invariant
            j <= order@.len(),
            token_path_contents(by_name) == m,
            kept@ == known_names(order@.take(j as int), m),
        decreases order@.len() - j,
    {
        let name = order[j];
        proof {
            assert(order@.take(j + 1).drop_last() =~= order@.take(j as int));
        }
        if token_path_get(&by_name, name).is_some() {
            kept.push(name);
        }
        j = j + 1;
    }
    proof {
        assert(order@.take(order@.len() as int) =~= order@);
        lemma_known_names_in(order@, m);
    }
    if kept.len() == 0 {
        return;
    }
    let ghost listed_set = kept@.to_set();
    let mut listed = token_set_new();
    let mut k: usize = 0;
    while k < kept.len()
        invariant
            k <= kept@.len(),
            forall|t: TokenId| #[trigger]
                token_set_contents(listed).contains(t) <==> kept@.take(k as int).contains(t),
        decreases kept@.len() - k,
    {
        let name = kept[k];
        token_set_insert(&mut listed, name);
        proof {
            let before = kept@.take(k as int);
            let after = kept@.take(k + 1);
            assert(after =~= before.push(name));
            assert forall|t: TokenId| #[trigger]
                token_set_contents(listed).contains(t) <==> after.contains(t) by {
                if t == name {
                    assert(after[k as int] == name);
                }
                if after.contains(t) && t != name {
                    let q = choose|q: int| 0 <= q < after.len() && after[q] == t;
                    assert(before[q] == t);
                }
                if before.contains(t) {
                    let q = choose|q: int| 0 <= q < before.len() && before[q] == t;
                    assert(after[q] == t);
                }
            }
        }
        k = k + 1;
    }
    proof {
        assert(kept@.take(kept@.len() as int) =~= kept@);
        assert(token_set_contents(listed) =~= listed_set);
    }
    let mut prefix: Vec<PathId> = Vec::new();
    let mut segments = segment_new();
    let mut current: Option<TokenId> = None;
    let mut i: usize = 0;
    while i < n
        invariant
            n == ch.len(),
            children@ == ch,
            ps == paths@,
            all_named(ps, ch),
            i <= n,
            token_set_contents(listed) == listed_set,
            current == owner_after(ps, ch.take(i as int), listed_set),
            prefix@ == owned_run(ps, ch.take(i as int), listed_set, None),
            forall|t: TokenId| #[trigger]
                segment_contents(segments).dom().contains(t) ==> segment_contents(segments)[t]
                    == owned_run(ps, ch.take(i as int), listed_set, Some(t)),
            forall|t: TokenId|
                !segment_contents(segments).dom().contains(t) ==> #[trigger] owned_run(
                    ps,
                    ch.take(i as int),
                    listed_set,
                    Some(t),
                ) == Seq::<PathId>::empty(),
            current matches Some(t) ==> segment_contents(segments).dom().contains(t),
        decreases n - i,
    {
        let c = children[i];
        let leaf = paths.resolve(c).leaf();
        let ghost before = ch.take(i as int);
        let ghost after = ch.take(i + 1);
        let ghost old_segments = segment_contents(segments);
        proof {
            assert(after.drop_last() =~= before);
            assert(after.last() == c);
        }
        match leaf {
            None => {},
            Some(name) => {
                if token_set_contains(&listed, name) {
                    segment_touch(&mut segments, name);
                    current = Some(name);
                } else {
                    match current {
                        Some(owner) => segment_push(&mut segments, owner, c),
                        None => prefix.push(c),
                    }
                }
            },
        }
        proof {
            let sc = segment_contents(segments);
            assert forall|t: TokenId| #[trigger] sc.dom().contains(t) implies sc[t] == owned_run(
                ps,
                after,
                listed_set,
                Some(t),
            ) by {
                assert(owned_run(ps, after, listed_set, Some(t)) == (match leaf_name(ps, c) {
                    Some(nm) => if !listed_set.contains(nm) && owner_after(ps, before, listed_set) == Some(t) {
                        owned_run(ps, before, listed_set, Some(t)).push(c)
                    } else {
                        owned_run(ps, before, listed_set, Some(t))
                    },
                    None => owned_run(ps, before, listed_set, Some(t)),
                }));
            }
            assert forall|t: TokenId| !sc.dom().contains(t) implies #[trigger] owned_run(
                ps,
                after,
                listed_set,
                Some(t),
            ) == Seq::<PathId>::empty() by {
                assert(!old_segments.dom().contains(t));
                assert(owned_run(ps, after, listed_set, Some(t)) == (match leaf_name(ps, c) {
                    Some(nm) => if !listed_set.contains(nm) && owner_after(ps, before, listed_set) == Some(t) {
                        owned_run(ps, before, listed_set, Some(t)).push(c)
                    } else {
                        owned_run(ps, before, listed_set, Some(t))
                    },
                    None => owned_run(ps, before, listed_set, Some(t)),
                }));
            }
        }
        i = i + 1;
    }
    proof {
        assert(ch.take(n as int) =~= ch);
    }
    let first = kept[0];
    let mut out: Vec<PathId> = Vec::new();
    match token_path_get(&by_name, first) {
        Some(id) => out.push(id),
        None => {},
    }
    push_all(&mut out, prefix.as_slice());
    match segment_get(&segments, first) {
        Some(seg) => push_all(&mut out, seg.as_slice()),
        None => {},
    }
    let ghost head = out@;
    let mut j: usize = 1;
    while j < kept.len()
        invariant
            1 <= j <= kept@.len(),
            token_path_contents(by_name) == m,
            forall|q: int| 0 <= q < kept@.len() ==> m.dom().contains(#[trigger] kept@[q]),
            forall|t: TokenId| #[trigger]
                segment_contents(segments).dom().contains(t) ==> segment_contents(segments)[t]
                    == owned_run(ps, ch, listed_set, Some(t)),
            forall|t: TokenId|
                !segment_contents(segments).dom().contains(t) ==> #[trigger] owned_run(
                    ps,
                    ch,
                    listed_set,
                    Some(t),
                ) == Seq::<PathId>::empty(),
            out@ == head + listed_runs(ps, ch, listed_set, m, kept@.subrange(1, j as int)),
        decreases kept@.len() - j,
    {
        let name = kept[j];
        let ghost before = out@;
        match token_path_get(&by_name, name) {
            Some(id) => out.push(id),
            None => {},
        }
        match segment_get(&segments, name) {
            Some(seg) => push_all(&mut out, seg.as_slice()),
            None => {},
        }
        proof {
            let names = kept@.subrange(1, j + 1);
            assert(names.drop_last() =~= kept@.subrange(1, j as int));
            assert(names.last() == name);
            assert(out@ =~= head + listed_runs(ps, ch, listed_set, m, names));
        }
        j = j + 1;
    }
    proof {
        assert(kept@.subrange(1, kept@.len() as int) =~= kept@.drop_first());
    }
    let ghost base = out@;
    let mut seen = path_set_new();
    let mut q: usize = 0;
    while q < out.len()
        invariant
            out@ == base,
            q <= base.len(),
            forall|p: PathId| #[trigger]
                path_set_contents(seen).contains(p) <==> base.take(q as int).contains(p),
        decreases base.len() - q,
    {
        let p = out[q];
        path_set_insert(&mut seen, p);
        proof {
            let before = base.take(q as int);
            let after = base.take(q + 1);
            assert(after =~= before.push(p));
            assert forall|t: PathId| #[trigger]
                path_set_contents(seen).contains(t) <==> after.contains(t) by {
                if t == p {
                    assert(after[q as int] == p);
                }
                if after.contains(t) && t != p {
                    let w = choose|w: int| 0 <= w < after.len() && after[w] == t;
                    assert(before[w] == t);
                }
                if before.contains(t) {
                    let w = choose|w: int| 0 <= w < before.len() && before[w] == t;
                    assert(after[w] == t);
                }
            }
        }
        q = q + 1;
    }
    proof {
        assert(base.take(base.len() as int) =~= base);
    }
    let mut i: usize = 0;
    while i < n
        invariant
            n == ch.len(),
            children@ == ch,
            i <= n,
            out@ == append_unseen(base, ch.take(i as int)),
            forall|p: PathId| #[trigger] path_set_contents(seen).contains(p) <==> out@.contains(p),
        decreases n - i,
    {
        let c = children[i];
        let ghost prev = out@;
        proof {
            assert(ch.take(i + 1).drop_last() =~= ch.take(i as int));
        }
        if path_set_insert(&mut seen, c) {
            out.push(c);
            proof {
                assert forall|p: PathId| #[trigger] path_set_contents(seen).contains(p) <==> out@.contains(p) by {
                    if p == c {
                        assert(out@[prev.len() as int] == c);
                    }
                    if out@.contains(p) && p != c {
                        let w = choose|w: int| 0 <= w < out@.len() && out@[w] == p;
                        assert(prev[w] == p);
                    }
                    if prev.contains(p) {
                        let w = choose|w: int| 0 <= w < prev.len() && prev[w] == p;
                        assert(out@[w] == p);
                    }
                }
            }
        }
        i = i + 1;
    }
    proof {
        assert(ch.take(n as int) =~= ch);
    }
    *children = out;
}

/// Every entry of `s` is an entry of `ch`.
pub open spec fn drawn_from(s: Seq<PathId>, ch: Seq<PathId>) -> bool {
    forall|i: int| 0 <= i < s.len() ==> ch.contains(#[trigger] s[i])
}

/// Entries drawn from the first entries of `ch` are drawn from `ch`.
proof fn lemma_drawn_from_prefix(s: Seq<PathId>, ch: Seq<PathId>, k: int)
    requires
        0 <= k <= ch.len(),
        drawn_from(s, ch.take(k)),
    ensures
        drawn_from(s, ch),
{
    assert forall|i: int| 0 <= i < s.len() implies ch.contains(#[trigger] s[i]) by {
        assert(ch.take(k).contains(s[i]));
        let j = choose|j: int| 0 <= j < ch.take(k).len() && ch.take(k)[j] == s[i];
        assert(ch[j] == s[i]);
    }
}

/// Joining two lists drawn from `ch` gives a list drawn from `ch`.
proof fn lemma_drawn_concat(a: Seq<PathId>, b: Seq<PathId>, ch: Seq<PathId>)
    requires
        drawn_from(a, ch),
        drawn_from(b, ch),
    ensures
        drawn_from(a + b, ch),
{
    assert forall|i: int| 0 <= i < (a + b).len() implies ch.contains(#[trigger] (a + b)[i]) by {
        if i < a.len() {
            assert((a + b)[i] == a[i]);
        } else {
            assert((a + b)[i] == b[i - a.len()]);
        }
    }
}

/// Every child that a name maps to is one of the children.
proof fn lemma_by_name_drawn(paths: Seq<Seq<TokenId>>, ch: Seq<PathId>)
    ensures
        forall|t: TokenId| #[trigger]
            children_by_name(paths, ch).dom().contains(t) ==> ch.contains(children_by_name(paths, ch)[t]),
    decreases ch.len(),
{
    if ch.len() > 0 {
        let init = ch.drop_last();
        lemma_by_name_drawn(paths, init);
        let m = children_by_name(paths, init);
        assert(init =~= ch.take(ch.len() - 1));
        assert(ch.contains(ch[ch.len() - 1]));
        assert forall|t: TokenId| #[trigger]
            children_by_name(paths, ch).dom().contains(t) implies ch.contains(children_by_name(paths, ch)[t]) by {
            let in_init = match leaf_name(paths, ch.last()) {
                Some(n) => t != n,
                None => true,
            };
            if in_init {
                assert(m.dom().contains(t));
                let x = m[t];
                assert(init.contains(x));
                let j = choose|j: int| 0 <= j < init.len() && init[j] == x;
                assert(ch[j] == x);
            }
        }
    }
}

/// A run of children is drawn from the children.
proof fn lemma_owned_run_drawn(
    paths: Seq<Seq<TokenId>>,
    ch: Seq<PathId>,
    listed: Set<TokenId>,
    owner: Option<TokenId>,
)
    ensures
        drawn_from(owned_run(paths, ch, listed, owner), ch),
    decreases ch.len(),
{
    if ch.len() > 0 {
        let init = ch.drop_last();
        lemma_owned_run_drawn(paths, init, listed, owner);
        assert(init =~= ch.take(ch.len() - 1));
        lemma_drawn_from_prefix(owned_run(paths, init, listed, owner), ch, ch.len() - 1);
        assert(ch.contains(ch[ch.len() - 1]));
    }
}

/// The runs of listed names are drawn from the children.
proof fn lemma_listed_runs_drawn(
    paths: Seq<Seq<TokenId>>,
    ch: Seq<PathId>,
    listed: Set<TokenId>,
    names: Seq<TokenId>,
)
    requires
        forall|i: int| 0 <= i < names.len() ==> children_by_name(paths, ch).dom().contains(#[trigger] names[i]),
    ensures
        drawn_from(listed_runs(paths, ch, listed, children_by_name(paths, ch), names), ch),
    decreases names.len(),
{
    if names.len() > 0 {
        let m = children_by_name(paths, ch);
        let init = names.drop_last();
        assert forall|i: int| 0 <= i < init.len() implies m.dom().contains(#[trigger] init[i]) by {
            assert(init[i] == names[i]);
        }
        lemma_listed_runs_drawn(paths, ch, listed, init);
        lemma_by_name_drawn(paths, ch);
        assert(m.dom().contains(names[names.len() - 1]));
        let front = listed_runs(paths, ch, listed, m, init).push(m[names.last()]);
        assert(drawn_from(front, ch)) by {
            assert forall|i: int| 0 <= i < front.len() implies ch.contains(#[trigger] front[i]) by {
                if i < front.len() - 1 {
                    assert(front[i] == listed_runs(paths, ch, listed, m, init)[i]);
                }
            }
        }
        lemma_owned_run_drawn(paths, ch, listed, Some(names.last()));
        lemma_drawn_concat(front, owned_run(paths, ch, listed, Some(names.last())), ch);
    }
}

/// Appending unseen entries drawn from `ch` to a list drawn from `ch` keeps
/// it drawn from `ch`.
proof fn lemma_append_unseen_drawn(base: Seq<PathId>, extra: Seq<PathId>, ch: Seq<PathId>)
    requires
        drawn_from(base, ch),
        drawn_from(extra, ch),
    ensures
        drawn_from(append_unseen(base, extra), ch),
    decreases extra.len(),
{
    if extra.len() > 0 {
        assert(extra.last() == extra[extra.len() - 1]);
        let init = extra.drop_last();
        assert forall|i: int| 0 <= i < init.len() implies ch.contains(#[trigger] init[i]) by {
            assert(init[i] == extra[i]);
        }
        lemma_append_unseen_drawn(base, init, ch);
    }
}

/// Appending unseen entries keeps every entry of the base and every entry
/// of `extra`; starting from a list without repeats it adds none.
proof fn lemma_append_unseen_covers(base: Seq<PathId>, extra: Seq<PathId>)
    ensures
        forall|i: int| 0 <= i < base.len() ==> append_unseen(base, extra).contains(#[trigger] base[i]),
        forall|i: int| 0 <= i < extra.len() ==> append_unseen(base, extra).contains(#[trigger] extra[i]),
        base.no_duplicates() ==> append_unseen(base, extra).no_duplicates(),
    decreases extra.len(),
{
    if extra.len() > 0 {
        let init = extra.drop_last();
        let s = append_unseen(base, init);
        lemma_append_unseen_covers(base, init);
        let x = extra.last();
        assert forall|i: int| 0 <= i < base.len() implies append_unseen(base, extra).contains(#[trigger] base[i]) by {
            assert(s.contains(base[i]));
            if !s.contains(x) {
                let j = choose|j: int| 0 <= j < s.len() && s[j] == base[i];
                assert(s.push(x)[j] == base[i]);
            }
        }
        assert forall|i: int| 0 <= i < extra.len() implies append_unseen(base, extra).contains(#[trigger] extra[i]) by {
            if i < extra.len() - 1 {
                assert(init[i] == extra[i]);
                assert(s.contains(extra[i]));
                if !s.contains(x) {
                    let j = choose|j: int| 0 <= j < s.len() && s[j] == extra[i];
                    assert(s.push(x)[j] == extra[i]);
                }
            } else if !s.contains(x) {
                assert(s.push(x)[s.len() as int] == x);
            }
        }
        if base.no_duplicates() && !s.contains(x) {
            assert forall|a: int, b: int| 0 <= a < b < s.push(x).len() implies s.push(x)[a] != s.push(x)[b] by {
                if b == s.len() {
                    assert(s.push(x)[a] == s[a]);
                }
            }
        }
    }
}

/// An order applied to named children keeps them named.
proof fn lemma_drawn_named(paths: Seq<Seq<TokenId>>, s: Seq<PathId>, ch: Seq<PathId>)
    requires
        all_named(paths, ch),
        drawn_from(s, ch),
    ensures
        all_named(paths, s),
{
    assert forall|i: int| 0 <= i < s.len() implies 0 <= #[trigger] s[i].index() < paths.len() by {
        assert(ch.contains(s[i]));
        let j = choose|j: int| 0 <= j < ch.len() && ch[j] == s[i];
        assert(0 <= ch[j].index() < paths.len());
    }
}

/// A `reorder nameChildren` statement neither loses nor invents children:
/// every child is still there afterwards, and every entry of the result is
/// one of the children.
pub proof fn law_reorder_keeps_children(paths: Seq<Seq<TokenId>>, ch: Seq<PathId>, order: Seq<TokenId>)
    ensures
        forall|i: int| 0 <= i < ch.len() ==> reordered(paths, ch, order).contains(#[trigger] ch[i]),
        drawn_from(reordered(paths, ch, order), ch),
{
    let m = children_by_name(paths, ch);
    let kept = known_names(order, m);
    if kept.len() == 0 {
        assert forall|i: int| 0 <= i < ch.len() implies ch.contains(#[trigger] ch[i]) by {}
    } else {
        let listed = kept.to_set();
        lemma_known_names_in(order, m);
        lemma_by_name_drawn(paths, ch);
        assert(m.dom().contains(kept[0]));
        let one = seq![m[kept[0]]];
        assert(drawn_from(one, ch)) by {
            assert forall|i: int| 0 <= i < one.len() implies ch.contains(#[trigger] one[i]) by {
                assert(one[i] == m[kept[0]]);
            }
        }
        lemma_owned_run_drawn(paths, ch, listed, None);
        lemma_owned_run_drawn(paths, ch, listed, Some(kept[0]));
        lemma_drawn_concat(one, owned_run(paths, ch, listed, None), ch);
        lemma_drawn_concat(
            one + owned_run(paths, ch, listed, None),
            owned_run(paths, ch, listed, Some(kept[0])),
            ch,
        );
        let rest = kept.drop_first();
        assert forall|i: int| 0 <= i < rest.len() implies m.dom().contains(#[trigger] rest[i]) by {
            assert(rest[i] == kept[i + 1]);
        }
        lemma_listed_runs_drawn(paths, ch, listed, rest);
        let head = one + owned_run(paths, ch, listed, None) + owned_run(paths, ch, listed, Some(kept[0]));
        lemma_drawn_concat(head, listed_runs(paths, ch, listed, m, rest), ch);
        assert forall|i: int| 0 <= i < ch.len() implies ch.contains(#[trigger] ch[i]) by {}
        lemma_append_unseen_drawn(head + listed_runs(paths, ch, listed, m, rest), ch, ch);
        lemma_append_unseen_covers(head + listed_runs(paths, ch, listed, m, rest), ch);
    }
}

/// Reordering named children yields named children.
proof fn lemma_reordered_named(paths: Seq<Seq<TokenId>>, ch: Seq<PathId>, order: Seq<TokenId>)
    requires
        all_named(paths, ch),
    ensures
        all_named(paths, reordered(paths, ch, order)),
{
    law_reorder_keeps_children(paths, ch, order);
    lemma_drawn_named(paths, reordered(paths, ch, order), ch);
}

/// The keys of a list of opinions.
pub open spec fn opinion_keys(ops: Seq<(OpinionKey, Vec<TokenId>)>) -> Seq<OpinionKey> {
    ops.map_values(|o: (OpinionKey, Vec<TokenId>)| o.0)
}

/// Opinion `i` comes before opinion `j` strongest first: its key is
/// stronger, or the keys are equal and it is listed first.
pub open spec fn comes_first(keys: Seq<OpinionKey>, i: int, j: int) -> bool {
    stronger(keys[i], keys[j]) || (keys[i] == keys[j] && i < j)
}

/// `r` lists each position of `keys` once, strongest first, equal keys in
/// their listed order (the result of a stable sort).
pub open spec fn strongest_first_order(keys: Seq<OpinionKey>, r: Seq<usize>) -> bool {
    sorted_positions(|i: int, j: int| comes_first(keys, i, j), keys.len() as int, r)
}

/// `comes_first` is a strict total order on the positions of `keys`.
proof fn lemma_comes_first_total(keys: Seq<OpinionKey>)
    ensures
        strict_total_on(|i: int, j: int| comes_first(keys, i, j), keys.len() as int),
{
    let before = |i: int, j: int| comes_first(keys, i, j);
    assert forall|i: int, j: int|
        #![trigger before(i, j), before(j, i)]
        0 <= i < keys.len() && 0 <= j < keys.len() implies !(before(i, j) && before(j, i)) by {
        law_stronger_strict_total(keys[i], keys[j], keys[i]);
        law_stronger_strict_total(keys[i], keys[i], keys[i]);
    }
    assert forall|i: int| 0 <= i < keys.len() implies !#[trigger] before(i, i) by {
        law_stronger_strict_total(keys[i], keys[i], keys[i]);
    }
    assert forall|i: int, j: int|
        #![trigger before(i, j)]
        0 <= i < keys.len() && 0 <= j < keys.len() && i != j implies before(i, j) || before(j, i) by {
        law_stronger_strict_total(keys[i], keys[j], keys[i]);
    }
    assert forall|i: int, j: int, k: int|
        #![trigger before(i, j), before(j, k)]
        0 <= i < keys.len() && 0 <= j < keys.len() && 0 <= k < keys.len() && before(i, j) && before(
            j,
            k,
        ) implies before(i, k) by {
        law_stronger_strict_total(keys[i], keys[j], keys[k]);
        law_stronger_strict_total(keys[i], keys[k], keys[i]);
    }
}

/// A stable strongest-first order of a list of keys is unique: any two
/// orders that both list each position once, strongest first and equal keys
/// in listed order, are the same.
pub proof fn law_strongest_first_unique(keys: Seq<OpinionKey>, r: Seq<usize>, s: Seq<usize>)
    requires
        strongest_first_order(keys, r),
        strongest_first_order(keys, s),
    ensures
        r == s,
{
    lemma_comes_first_total(keys);
    lemma_sorted_unique(|i: int, j: int| comes_first(keys, i, j), keys.len() as int, r, s);
}

/// The keys of `opinions`, in order.
fn keys_of(opinions: &[(OpinionKey, Vec<TokenId>)]) -> (r: Vec<OpinionKey>)
    ensures
        r@ == opinion_keys(opinions@),
{
    let mut out: Vec<OpinionKey> = Vec::new();
    let n = opinions.len();
    let mut i: usize = 0;
    while i < n
        invariant
            n == opinions@.len(),
            i <= n,
            out@ == opinion_keys(opinions@.take(i as int)),
        decreases n - i,
    {
        out.push(opinions[i].0);
        proof {
            assert(opinion_keys(opinions@.take(i + 1)) =~= opinion_keys(opinions@.take(i as int)).push(
                opinions@[i as int].0,
            ));
        }
        i = i + 1;
    }
    proof {
        assert(opinions@.take(n as int) =~= opinions@);
    }
    out
}

/// Positions of `keys`, strongest first, equal keys in listed order.
fn strongest_first_positions(keys: &[OpinionKey]) -> (r: Vec<usize>)
    ensures
        strongest_first_order(keys@, r@),
{
    let ghost ks = keys@;
    let ghost before = |i: int, j: int| comes_first(ks, i, j);
    proof {
        lemma_comes_first_total(ks);
    }
    let n = keys.len();
    let mut r: Vec<usize> = Vec::new();
    let mut i: usize = 0;
    proof {
        assert(sorted_positions(before, 0, r@));
    }
    while i < n
        invariant
            n == ks.len(),
            ks == keys@,
            before == (|i: int, j: int| comes_first(ks, i, j)),
            strict_total_on(before, n as int),
            i <= n,
            sorted_positions(before, i as int, r@),
        decreases n - i,
    {
        let mut p: usize = r.len();
        while p > 0 && keys[i].is_stronger_than(&keys[r[p - 1]])
            invariant
                p <= r@.len(),
                i < n,
                n == ks.len(),
                ks == keys@,
                before == (|i: int, j: int| comes_first(ks, i, j)),
                sorted_positions(before, i as int, r@),
                forall|q: int| p <= q < r@.len() ==> before(i as int, #[trigger] r@[q] as int),
            decreases p,
        {
            proof {
                assert(r@[p - 1] < i);
            }
            p = p - 1;
        }
        proof {
            if p > 0 {
                assert(r@[p - 1] < i);
            }
            lemma_insert_sorted(before, n as int, r@, p as int, i);
        }
        r.insert(p, i);
        i = i + 1;
    }
    r
}

/// The keys at positions `r`, in that order.
pub open spec fn keys_at(keys: Seq<OpinionKey>, r: Seq<usize>) -> Seq<OpinionKey> {
    Seq::new(r.len(), |a: int| keys[r[a] as int])
}

/// A strongest-first order puts no key after a weaker one, and keeps every
/// key: each listed key appears, and the length is unchanged.
pub proof fn law_sorted_keys_strongest_first(keys: Seq<OpinionKey>, r: Seq<usize>)
    requires
        strongest_first_order(keys, r),
        keys.len() <= usize::MAX,
    ensures
        keys_at(keys, r).len() == keys.len(),
        forall|a: int, b: int|
            0 <= a < b < keys.len() ==> !stronger(
                #[trigger] keys_at(keys, r)[b],
                #[trigger] keys_at(keys, r)[a],
            ),
        forall|i: int| 0 <= i < keys.len() ==> keys_at(keys, r).contains(#[trigger] keys[i]),
{
    let out = keys_at(keys, r);
    assert forall|a: int, b: int| 0 <= a < b < keys.len() implies !stronger(
        #[trigger] out[b],
        #[trigger] out[a],
    ) by {
        assert(comes_first(keys, r[a] as int, r[b] as int));
        law_stronger_strict_total(keys[r[a] as int], keys[r[b] as int], keys[r[a] as int]);
    }
    assert forall|i: int| 0 <= i < keys.len() implies out.contains(#[trigger] keys[i]) by {
        let x = i as usize;
        assert(x == i);
        assert(r.contains(x));
        let a = choose|a: int| 0 <= a < r.len() && r[a] == x;
        assert(out[a] == keys[i]);
    }
}

/// Sorts opinion keys strongest first, keeping equal keys in their listed
/// order (a stable sort, as a prim index orders its sources once composed).
pub fn sort_strongest_first(keys: &mut Vec<OpinionKey>)
    ensures
        exists|r: Seq<usize>|
            strongest_first_order(old(keys)@, r) && final(keys)@ == #[trigger] keys_at(old(keys)@, r),
{
    let ghost ks = keys@;
    let r = strongest_first_positions(keys.as_slice());
    let mut out: Vec<OpinionKey> = Vec::new();
    let n = r.len();
    let mut a: usize = 0;
    while a < n
        invariant
            n == r@.len(),
            a <= n,
            ks == keys@,
            strongest_first_order(ks, r@),
            out@ == keys_at(ks, r@.take(a as int)),
        decreases n - a,
    {
        proof {
            assert(r@.contains(r@[a as int]));
            assert(r@[a as int] < ks.len());
        }
        out.push(keys[r[a]]);
        proof {
            assert(keys_at(ks, r@.take(a + 1)) =~= keys_at(ks, r@.take(a as int)).push(ks[r@[a as int] as int]));
        }
        a = a + 1;
    }
    proof {
        assert(r@.take(n as int) =~= r@);
        assert(strongest_first_order(ks, r@) && out@ == keys_at(ks, r@));
    }
    *keys = out;
}

/// The children after applying each order of `orders` in turn.
pub open spec fn reorder_all(paths: Seq<Seq<TokenId>>, ch: Seq<PathId>, orders: Seq<Seq<TokenId>>) -> Seq<
    PathId,
>
    decreases orders.len(),
{
    if orders.len() == 0 {
        ch
    } else {
        reordered(paths, reorder_all(paths, ch, orders.drop_last()), orders.last())
    }
}

/// The name orders of `opinions`, weakest first, given their
/// strongest-first positions `r`.
pub open spec fn weakest_first_orders(opinions: Seq<(OpinionKey, Vec<TokenId>)>, r: Seq<usize>) -> Seq<
    Seq<TokenId>,
> {
    Seq::new(r.len(), |a: int| opinions[r[r.len() - 1 - a] as int].1@)
}

/// Applies the `reorder nameChildren` statements of a prim's opinions as a
/// chain, weakest opinion first (each acting on the previous result).
pub fn apply_prim_order_chain(
    paths: &PathInterner,
    children: &mut Vec<PathId>,
    opinions: &[(OpinionKey, Vec<TokenId>)],
)
    requires
        all_named(paths@, old(children)@),
    ensures
        exists|r: Seq<usize>| strongest_first_order(opinion_keys(opinions@), r),
        forall|r: Seq<usize>|
            strongest_first_order(opinion_keys(opinions@), r) ==> final(children)@ == reorder_all(
                paths@,
                old(children)@,
                #[trigger] weakest_first_orders(opinions@, r),
            ),
{
    let ghost ch = children@;
    let opinion_key_list = keys_of(opinions);
    let sorted = strongest_first_positions(opinion_key_list.as_slice());
    let ghost orders = weakest_first_orders(opinions@, sorted@);
    let n = sorted.len();
    let mut k: usize = 0;
    while k < n
        invariant
            n == sorted@.len(),
            n == opinions@.len(),
            strongest_first_order(opinion_keys(opinions@), sorted@),
            orders == weakest_first_orders(opinions@, sorted@),
            k <= n,
            children@ == reorder_all(paths@, ch, orders.take(k as int)),
            all_named(paths@, children@),
        decreases n - k,
    {
        let idx = sorted[n - 1 - k];
        let ghost before = children@;
        apply_reorder_op(paths, children, opinions[idx].1.as_slice());
        proof {
            assert(orders.take(k + 1).drop_last() =~= orders.take(k as int));
            assert(orders.take(k + 1).last() == opinions@[idx as int].1@);
            lemma_reordered_named(paths@, before, opinions@[idx as int].1@);
        }
        k = k + 1;
    }
    proof {
        assert(orders.take(n as int) =~= orders);
        assert forall|r: Seq<usize>|
            strongest_first_order(opinion_keys(opinions@), r) implies children@ == reorder_all(
                paths@,
                ch,
                #[trigger] weakest_first_orders(opinions@, r),
            ) by {
            law_strongest_first_unique(opinion_keys(opinions@), r, sorted@);
        }
    }
}

/// The smallest layer strength among the nested opinions of `keys` in layer
/// `l`, if any.
pub open spec fn nested_position(keys: Seq<OpinionKey>, l: LayerId) -> Option<int>
    decreases keys.len(),
{
    if keys.len() == 0 {
        None
    } else {
        let p = nested_position(keys.drop_last(), l);
        let k = keys.last();
        if k.nested_arc_kind is Some && k.layer_id == l {
            match p {
                Some(v) => Some(
                    if (k.layer_strength as int) < v {
                        k.layer_strength as int
                    } else {
                        v
                    },
                ),
                None => Some(k.layer_strength as int),
            }
        } else {
            p
        }
    }
}

/// The largest nested position over the layers of the nested opinions among
/// the first `n` keys (0 when there is none).
pub open spec fn max_nested_position(keys: Seq<OpinionKey>, n: int) -> int
    decreases n,
{
    if n <= 0 {
        0
    } else {
        let m = max_nested_position(keys, n - 1);
        let k = keys[n - 1];
        if k.nested_arc_kind is Some {
            let v = nested_position(keys, k.layer_id)->0;
            if v > m {
                v
            } else {
                m
            }
        } else {
            m
        }
    }
}

/// The first key of `keys` in layer `l`, if any.
pub open spec fn first_in_layer(keys: Seq<OpinionKey>, l: LayerId) -> Option<OpinionKey>
    decreases keys.len(),
{
    if keys.len() == 0 {
        None
    } else {
        let f = first_in_layer(keys.drop_last(), l);
        if f is Some {
            f
        } else if keys.last().layer_id == l {
            Some(keys.last())
        } else {
            None
        }
    }
}

/// The position given to layer `l` once the keys of `seen` (a prefix of
/// `keys`) have been visited: its nested position if it has one; else 0 when
/// its first key is local, or past every nested position by one plus that
/// key's namespace depth.
pub open spec fn position_after(keys: Seq<OpinionKey>, seen: Seq<OpinionKey>, l: LayerId) -> Option<int> {
    match nested_position(keys, l) {
        Some(p) => Some(p),
        None => match first_in_layer(seen, l) {
            Some(k) => Some(
                if k.is_local {
                    0
                } else {
                    max_nested_position(keys, keys.len() as int) + 1 + k.namespace_depth
                },
            ),
            None => None,
        },
    }
}

/// The position of layer `l` among the layers of `keys`.
pub open spec fn layer_position(keys: Seq<OpinionKey>, l: LayerId) -> int {
    position_after(keys, keys, l)->0
}

/// Every layer position fits in 16 bits (the positions are computed as
/// `u16`).
pub open spec fn positions_fit(keys: Seq<OpinionKey>) -> bool {
    forall|l: LayerId| #[trigger] position_after(keys, keys, l) is Some ==> layer_position(keys, l) <= u16::MAX
}

/// The rank by which opinion `i` is placed: its layer's position, local
/// before remote, direct before nested, then its layer strength.
pub open spec fn base_rank(keys: Seq<OpinionKey>, i: int) -> (int, int, int, int) {
    (
        layer_position(keys, keys[i].layer_id),
        if keys[i].is_local {
            0
        } else {
            1
        },
        if keys[i].nested_arc_kind is Some {
            1
        } else {
            0
        },
        keys[i].layer_strength as int,
    )
}

/// Lexicographic order of ranks.
pub open spec fn rank_less(a: (int, int, int, int), b: (int, int, int, int)) -> bool {
    a.0 < b.0 || (a.0 == b.0 && (a.1 < b.1 || (a.1 == b.1 && (a.2 < b.2 || (a.2 == b.2 && a.3 < b.3)))))
}

/// Opinion `i` is placed before opinion `j`: a smaller rank, or an equal
/// rank and listed first.
pub open spec fn grouped_first(keys: Seq<OpinionKey>, i: int, j: int) -> bool {
    rank_less(base_rank(keys, i), base_rank(keys, j)) || (base_rank(keys, i) == base_rank(keys, j) && i < j)
}

/// `r` lists each position of `keys` once, by rank, equal ranks in listed
/// order (the result of a stable sort).
pub open spec fn layer_grouped_order(keys: Seq<OpinionKey>, r: Seq<usize>) -> bool {
    sorted_positions(|i: int, j: int| grouped_first(keys, i, j), keys.len() as int, r)
}

/// The children that `names` name, in order (names no child bears skipped).
pub open spec fn named_children(m: Map<TokenId, PathId>, names: Seq<TokenId>) -> Seq<PathId>
    decreases names.len(),
{
    if names.len() == 0 {
        Seq::empty()
    } else {
        let s = named_children(m, names.drop_last());
        if m.dom().contains(names.last()) {
            s.push(m[names.last()])
        } else {
            s
        }
    }
}

/// The children that each list of names names, list after list.
pub open spec fn gathered(m: Map<TokenId, PathId>, lists: Seq<Seq<TokenId>>) -> Seq<PathId>
    decreases lists.len(),
{
    if lists.len() == 0 {
        Seq::empty()
    } else {
        gathered(m, lists.drop_last()) + named_children(m, lists.last())
    }
}

/// The children in their authored base order: the children named by each
/// opinion's `children` list, weakest opinion first (given the opinions'
/// ranked positions `r`), then every child; each child where it first
/// appears.
pub open spec fn base_ordered(
    paths: Seq<Seq<TokenId>>,
    ch: Seq<PathId>,
    opinions: Seq<(OpinionKey, Vec<TokenId>)>,
    r: Seq<usize>,
) -> Seq<PathId> {
    append_unseen(Seq::empty(), gathered(children_by_name(paths, ch), weakest_first_orders(opinions, r)) + ch)
}

/// Appending the items of `a + b` is appending those of `a`, then those of
/// `b`.
proof fn lemma_append_unseen_concat(base: Seq<PathId>, a: Seq<PathId>, b: Seq<PathId>)
    ensures
        append_unseen(base, a + b) == append_unseen(append_unseen(base, a), b),
    decreases b.len(),
{
    if b.len() == 0 {
        assert(a + b =~= a);
    } else {
        assert((a + b).drop_last() =~= a + b.drop_last());
        assert((a + b).last() == b.last());
        lemma_append_unseen_concat(base, a, b.drop_last());
    }
}

/// A nested position exists exactly for the layers of nested opinions.
proof fn lemma_nested_position_some(keys: Seq<OpinionKey>, l: LayerId)
    ensures
        nested_position(keys, l) is Some <==> exists|i: int|
            0 <= i < keys.len() && (#[trigger] keys[i]).nested_arc_kind is Some && keys[i].layer_id == l,
        nested_position(keys, l) matches Some(v) ==> 0 <= v <= u16::MAX,
    decreases keys.len(),
{
    if keys.len() > 0 {
        let init = keys.drop_last();
        lemma_nested_position_some(init, l);
        if nested_position(init, l) is Some {
            let i = choose|i: int| 0 <= i < init.len() && (#[trigger] init[i]).nested_arc_kind is Some && init[i].layer_id == l;
            assert(keys[i] == init[i]);
        }
        if exists|i: int| 0 <= i < keys.len() && (#[trigger] keys[i]).nested_arc_kind is Some && keys[i].layer_id == l {
            let i = choose|i: int| 0 <= i < keys.len() && (#[trigger] keys[i]).nested_arc_kind is Some && keys[i].layer_id == l;
            if i < keys.len() - 1 {
                assert(init[i] == keys[i]);
            }
        }
    }
}

/// The nested position of a nested opinion's layer is at most the largest.
proof fn lemma_max_nested_bounds(keys: Seq<OpinionKey>, n: int)
    requires
        0 <= n <= keys.len(),
    ensures
        forall|i: int|
            0 <= i < n && (#[trigger] keys[i]).nested_arc_kind is Some ==> nested_position(keys, keys[i].layer_id)->0
                <= max_nested_position(keys, n),
        max_nested_position(keys, n) == 0 || exists|j: int|
            0 <= j < n && (#[trigger] keys[j]).nested_arc_kind is Some && max_nested_position(keys, n)
                == nested_position(keys, keys[j].layer_id)->0,
        max_nested_position(keys, n) >= 0,
    decreases n,
{
    if n > 0 {
        lemma_max_nested_bounds(keys, n - 1);
        if max_nested_position(keys, n) != 0 && max_nested_position(keys, n) != max_nested_position(keys, n - 1) {
            assert(keys[n - 1].nested_arc_kind is Some);
        }
    }
}

/// The first key of layer `l` in a prefix that has one is the first in the
/// whole list.
proof fn lemma_first_in_layer_prefix(keys: Seq<OpinionKey>, j: int, l: LayerId)
    requires
        0 <= j <= keys.len(),
        first_in_layer(keys.take(j), l) is Some,
    ensures
        first_in_layer(keys, l) == first_in_layer(keys.take(j), l),
    decreases keys.len() - j,
{
    if j < keys.len() {
        assert(keys.take(j + 1).drop_last() =~= keys.take(j));
        lemma_first_in_layer_prefix(keys, j + 1, l);
    } else {
        assert(keys.take(j) =~= keys);
    }
}

/// Every key's layer has a first key.
proof fn lemma_first_in_layer_some(keys: Seq<OpinionKey>, i: int)
    requires
        0 <= i < keys.len(),
    ensures
        first_in_layer(keys, keys[i].layer_id) is Some,
    decreases keys.len(),
{
    if i < keys.len() - 1 {
        lemma_first_in_layer_some(keys.drop_last(), i);
        assert(keys.drop_last()[i] == keys[i]);
    }
}

/// `grouped_first` is a strict total order on the positions of `keys`.
proof fn lemma_grouped_total(keys: Seq<OpinionKey>)
    ensures
        strict_total_on(|i: int, j: int| grouped_first(keys, i, j), keys.len() as int),
{
}

/// Compares the ranks of opinions `i` and `j`, given the positions of their
/// layers.
fn rank_before(positions: &Vec<u16>, opinions: &[(OpinionKey, Vec<TokenId>)], i: usize, j: usize) -> (r: bool)
    requires
        positions@.len() == opinions@.len(),
        i < opinions@.len(),
        j < opinions@.len(),
        forall|q: int|
            0 <= q < positions@.len() ==> #[trigger] positions@[q] == layer_position(
                opinion_keys(opinions@),
                opinion_keys(opinions@)[q].layer_id,
            ),
    ensures
        r == rank_less(base_rank(opinion_keys(opinions@), i as int), base_rank(opinion_keys(opinions@), j as int)),
{
    let a = &opinions[i].0;
    let b = &opinions[j].0;
    let pa = positions[i];
    let pb = positions[j];
    if pa != pb {
        return pa < pb;
    }
    if a.is_local != b.is_local {
        return a.is_local;
    }
    let na = a.nested_arc_kind.is_some();
    let nb = b.nested_arc_kind.is_some();
    if na != nb {
        return nb;
    }
    a.layer_strength < b.layer_strength
}

/// The largest stored layer position: `None` for an empty map.
fn largest_position(t: &LayerPositionMap) -> (r: Option<u16>)
    ensures
        r is None <==> position_contents(*t).dom() == Set::<LayerId>::empty(),
        r matches Some(v) ==> (exists|k: LayerId| #[trigger]
            position_contents(*t).dom().contains(k) && position_contents(*t)[k] == v),
        r matches Some(v) ==> (forall|k: LayerId| #[trigger]
            position_contents(*t).dom().contains(k) ==> position_contents(*t)[k] <= v),
{
    let vals = position_values(t);
    let n = vals.len();
    let mut best: Option<u16> = None;
    let mut i: usize = 0;
    while i < n
        invariant
            n == vals@.len(),
            i <= n,
            forall|a: int| 0 <= a < vals@.len() ==> position_stored(*t, #[trigger] vals@[a]),
            best is None <==> i == 0,
            best matches Some(v) ==> exists|a: int| 0 <= a < i && vals@[a] == v,
            best matches Some(v) ==> forall|a: int| 0 <= a < i ==> vals@[a] <= v,
        decreases n - i,
    {
        let x = vals[i];
        best = match best {
            Some(v) => if x > v { Some(x) } else { Some(v) },
            None => Some(x),
        };
        i = i + 1;
    }
    proof {
        let d = position_contents(*t).dom();
        if n == 0 {
            assert forall|k: LayerId| !d.contains(k) by {
                if d.contains(k) {
                    assert(vals@.contains(position_contents(*t)[k]));
                }
            }
            assert(d =~= Set::<LayerId>::empty());
        } else {
            let v = best->0;
            let a = choose|a: int| 0 <= a < i && vals@[a] == v;
            assert(position_stored(*t, vals@[a]));
            let k = choose|k: LayerId| #[trigger] d.contains(k) && position_contents(*t)[k] == vals@[a];
            assert(d.contains(k));
            assert forall|k2: LayerId| #[trigger] d.contains(k2) implies position_contents(*t)[k2] <= v by {
                assert(vals@.contains(position_contents(*t)[k2]));
                let b = choose|b: int| 0 <= b < vals@.len() && vals@[b] == position_contents(*t)[k2];
            }
        }
    }
    best
}

/// Orders a prim's children by the `children` lists that its opinions
/// author.
///
/// Layers get positions: a layer with nested (inherit or specialize)
/// opinions takes the smallest layer strength among them; any other layer
/// takes 0 when its first opinion is local, else one past the largest nested
/// position plus that opinion's namespace depth. Opinions are ranked by their
/// layer's position, local before remote, direct before nested, and layer
/// strength (a stable sort). Walking them weakest first, each named child is
/// placed where it first appears; children no opinion names follow in their
/// current order.
pub fn apply_authored_children_base_order(
    paths: &PathInterner,
    children: &mut Vec<PathId>,
    opinions: &[(OpinionKey, Vec<TokenId>)],
)
    requires
        all_named(paths@, old(children)@),
        positions_fit(opinion_keys(opinions@)),
    ensures
        exists|r: Seq<usize>| layer_grouped_order(opinion_keys(opinions@), r),
        forall|r: Seq<usize>|
            layer_grouped_order(opinion_keys(opinions@), r) ==> final(children)@ == #[trigger] base_ordered(
                paths@,
                old(children)@,
                opinions@,
                r,
            ),
{
    let ghost ch = children@;
    let ghost keys = opinion_keys(opinions@);
    let n = opinions.len();
    let by_name = children_by_name_map(paths, children);
    let ghost m = children_by_name(paths@, ch);
    // Nested positions.
    let mut pos = position_new();
    let mut i: usize = 0;
    while i < n
        invariant
            n == keys.len(),
            n == opinions@.len(),
            keys == opinion_keys(opinions@),
            i <= n,
            forall|l: LayerId| #[trigger]
                position_contents(pos).dom().contains(l) <==> nested_position(keys.take(i as int), l) is Some,
            forall|l: LayerId| #[trigger]
                position_contents(pos).dom().contains(l) ==> position_contents(pos)[l] == nested_position(
                    keys.take(i as int),
                    l,
                )->0,
        decreases n - i,
    {
        let key = opinions[i].0;
        proof {
            assert(keys.take(i + 1).drop_last() =~= keys.take(i as int));
            assert(keys.take(i + 1).last() == key);
        }
        if key.nested_arc_kind.is_some() {
            match position_get(&pos, key.layer_id) {
                Some(p) => {
                    let v = if key.layer_strength < p {
                        key.layer_strength
                    } else {
                        p
                    };
                    position_insert(&mut pos, key.layer_id, v);
                },
                None => position_insert(&mut pos, key.layer_id, key.layer_strength),
            }
        }
        i = i + 1;
    }
    proof {
        assert(keys.take(n as int) =~= keys);
    }
    let max_pos: u16 = match largest_position(&pos) {
        Some(v) => v,
        None => 0,
    };
    proof {
        lemma_max_nested_bounds(keys, n as int);
        let mx = max_nested_position(keys, n as int);
        let t = position_contents(pos);
        if mx != 0 {
            let j = choose|j: int|
                0 <= j < n && (#[trigger] keys[j]).nested_arc_kind is Some && mx == nested_position(
                    keys,
                    keys[j].layer_id,
                )->0;
            lemma_nested_position_some(keys, keys[j].layer_id);
            assert(t.dom().contains(keys[j].layer_id));
        }
        if t.dom() != Set::<LayerId>::empty() {
            let l = choose|l: LayerId| #[trigger] t.dom().contains(l) && t[l] == max_pos;
            lemma_nested_position_some(keys, l);
            let q = choose|q: int| 0 <= q < keys.len() && (#[trigger] keys[q]).nested_arc_kind is Some && keys[q].layer_id == l;
            assert(max_pos as int <= mx);
            assert(max_pos as int >= mx);
        }
        assert(max_pos as int == mx);
    }
    // Positions of the remaining layers.
    let mut i: usize = 0;
    while i < n
        invariant
            n == keys.len(),
            n == opinions@.len(),
            keys == opinion_keys(opinions@),
            positions_fit(keys),
            max_pos as int == max_nested_position(keys, n as int),
            i <= n,
            forall|l: LayerId| #[trigger]
                position_contents(pos).dom().contains(l) <==> position_after(keys, keys.take(i as int), l) is Some,
            forall|l: LayerId| #[trigger]
                position_contents(pos).dom().contains(l) ==> position_contents(pos)[l] == position_after(
                    keys,
                    keys.take(i as int),
                    l,
                )->0,
        decreases n - i,
    {
        let key = opinions[i].0;
        let ghost before = keys.take(i as int);
        let ghost after = keys.take(i + 1);
        proof {
            assert(after.drop_last() =~= before);
            assert(after.last() == key);
        }
        if position_get(&pos, key.layer_id).is_none() {
            proof {
                assert(first_in_layer(after, key.layer_id) == Some(key));
                lemma_first_in_layer_prefix(keys, i + 1, key.layer_id);
                assert(position_after(keys, keys, key.layer_id) == position_after(keys, after, key.layer_id));
            }
            let v: u16 = if key.is_local {
                0
            } else {
                max_pos + 1 + key.namespace_depth
            };
            position_insert(&mut pos, key.layer_id, v);
        }
        proof {
            assert forall|l: LayerId| #[trigger]
                position_contents(pos).dom().contains(l) <==> position_after(keys, after, l) is Some by {
                if first_in_layer(before, l) is Some {
                    assert(first_in_layer(after, l) == first_in_layer(before, l));
                }
            }
            assert forall|l: LayerId| #[trigger]
                position_contents(pos).dom().contains(l) implies position_contents(pos)[l] == position_after(
                keys,
                after,
                l,
            )->0 by {
                if first_in_layer(before, l) is Some {
                    assert(first_in_layer(after, l) == first_in_layer(before, l));
                }
            }
        }
        i = i + 1;
    }
    proof {
        assert(keys.take(n as int) =~= keys);
    }
    // Each opinion's layer position.
    let mut positions: Vec<u16> = Vec::new();
    let mut i: usize = 0;
    while i < n
        invariant
            n == keys.len(),
            n == opinions@.len(),
            keys == opinion_keys(opinions@),
            i <= n,
            positions@.len() == i,
            forall|l: LayerId| #[trigger]
                position_contents(pos).dom().contains(l) <==> position_after(keys, keys, l) is Some,
            forall|l: LayerId| #[trigger]
                position_contents(pos).dom().contains(l) ==> position_contents(pos)[l] == layer_position(keys, l),
            forall|q: int|
                0 <= q < positions@.len() ==> #[trigger] positions@[q] == layer_position(keys, keys[q].layer_id),
        decreases n - i,
    {
        let key = opinions[i].0;
        proof {
            lemma_first_in_layer_some(keys, i as int);
            assert(keys[i as int] == key);
        }
        let v: u16 = match position_get(&pos, key.layer_id) {
            Some(v) => v,
            None => u16::MAX,
        };
        positions.push(v);
        i = i + 1;
    }
    // Stable sort by rank.
    let ghost before = |i: int, j: int| grouped_first(keys, i, j);
    proof {
        lemma_grouped_total(keys);
    }
    let mut sorted: Vec<usize> = Vec::new();
    let mut i: usize = 0;
    proof {
        assert(sorted_positions(before, 0, sorted@));
    }
    while i < n
        invariant
            n == keys.len(),
            n == opinions@.len(),
            keys == opinion_keys(opinions@),
            positions@.len() == n,
            forall|q: int|
                0 <= q < positions@.len() ==> #[trigger] positions@[q] == layer_position(keys, keys[q].layer_id),
            before == (|i: int, j: int| grouped_first(keys, i, j)),
            strict_total_on(before, n as int),
            i <= n,
            sorted_positions(before, i as int, sorted@),
        decreases n - i,
    {
        let mut p: usize = sorted.len();
        while p > 0 && rank_before(&positions, opinions, i, sorted[p - 1])
            invariant
                p <= sorted@.len(),
                i < n,
                n == opinions@.len(),
                keys == opinion_keys(opinions@),
                positions@.len() == n,
                forall|q: int|
                    0 <= q < positions@.len() ==> #[trigger] positions@[q] == layer_position(keys, keys[q].layer_id),
                before == (|i: int, j: int| grouped_first(keys, i, j)),
                sorted_positions(before, i as int, sorted@),
                forall|q: int| p <= q < sorted@.len() ==> before(i as int, #[trigger] sorted@[q] as int),
            decreases p,
        {
            proof {
                assert(sorted@[p - 1] < i);
            }
            p = p - 1;
        }
        proof {
            if p > 0 {
                assert(sorted@[p - 1] < i);
            }
            lemma_insert_sorted(before, n as int, sorted@, p as int, i);
        }
        sorted.insert(p, i);
        i = i + 1;
    }
    // Gather the named children, weakest opinion first.
    let ghost orders = weakest_first_orders(opinions@, sorted@);
    let mut out: Vec<PathId> = Vec::new();
    let mut seen = path_set_new();
    let mut k: usize = 0;
    while k < n
        invariant
            n == sorted@.len(),
            n == opinions@.len(),
            orders == weakest_first_orders(opinions@, sorted@),
            sorted_positions(before, n as int, sorted@),
            token_path_contents(by_name) == m,
            k <= n,
            out@ == append_unseen(Seq::empty(), gathered(m, orders.take(k as int))),
            forall|p: PathId| #[trigger] path_set_contents(seen).contains(p) <==> out@.contains(p),
        decreases n - k,
    {
        let idx = sorted[n - 1 - k];
        let names = &opinions[idx].1;
        let ghost g = gathered(m, orders.take(k as int));
        proof {
            assert(orders[k as int] == names@);
        }
        let mut j: usize = 0;
        while j < names.len()
            invariant
                token_path_contents(by_name) == m,
                j <= names@.len(),
                out@ == append_unseen(Seq::empty(), g + named_children(m, names@.take(j as int))),
                forall|p: PathId| #[trigger] path_set_contents(seen).contains(p) <==> out@.contains(p),
            decreases names@.len() - j,
        {
            let name = names[j];
            let ghost prev = out@;
            let ghost nc = named_children(m, names@.take(j as int));
            proof {
                assert(names@.take(j + 1).drop_last() =~= names@.take(j as int));
                assert(names@.take(j + 1).last() == name);
            }
            match token_path_get(&by_name, name) {
                Some(c) => {
                    proof {
                        assert(g + named_children(m, names@.take(j + 1)) =~= (g + nc).push(c));
                        assert((g + nc).push(c).drop_last() =~= g + nc);
                    }
                    if path_set_insert(&mut seen, c) {
                        out.push(c);
                        proof {
                            assert forall|p: PathId| #[trigger]
                                path_set_contents(seen).contains(p) <==> out@.contains(p) by {
                                if p == c {
                                    assert(out@[prev.len() as int] == c);
                                }
                                if out@.contains(p) && p != c {
                                    let w = choose|w: int| 0 <= w < out@.len() && out@[w] == p;
                                    assert(prev[w] == p);
                                }
                                if prev.contains(p) {
                                    let w = choose|w: int| 0 <= w < prev.len() && prev[w] == p;
                                    assert(out@[w] == p);
                                }
                            }
                        }
                    }
                },
                None => {
                    proof {
                        assert(g + named_children(m, names@.take(j + 1)) =~= g + nc);
                    }
                },
            }
            j = j + 1;
        }
        proof {
            assert(names@.take(names@.len() as int) =~= names@);
            assert(orders.take(k + 1).drop_last() =~= orders.take(k as int));
            assert(orders.take(k + 1).last() == names@);
        }
        k = k + 1;
    }
    proof {
        assert(orders.take(n as int) =~= orders);
    }
    let ghost base = out@;
    let mut i: usize = 0;
    while i < children.len()
        invariant
            children@ == ch,
            i <= ch.len(),
            out@ == append_unseen(base, ch.take(i as int)),
            forall|p: PathId| #[trigger] path_set_contents(seen).contains(p) <==> out@.contains(p),
        decreases ch.len() - i,
    {
        let c = children[i];
        let ghost prev = out@;
        proof {
            assert(ch.take(i + 1).drop_last() =~= ch.take(i as int));
        }
        if path_set_insert(&mut seen, c) {
            out.push(c);
            proof {
                assert forall|p: PathId| #[trigger] path_set_contents(seen).contains(p) <==> out@.contains(p) by {
                    if p == c {
                        assert(out@[prev.len() as int] == c);
                    }
                    if out@.contains(p) && p != c {
                        let w = choose|w: int| 0 <= w < out@.len() && out@[w] == p;
                        assert(prev[w] == p);
                    }
                    if prev.contains(p) {
                        let w = choose|w: int| 0 <= w < prev.len() && prev[w] == p;
                        assert(out@[w] == p);
                    }
                }
            }
        }
        i = i + 1;
    }
    proof {
        assert(ch.take(ch.len() as int) =~= ch);
        lemma_append_unseen_concat(Seq::empty(), gathered(m, orders), ch);
        assert forall|r: Seq<usize>| layer_grouped_order(keys, r) implies out@ == #[trigger] base_ordered(
            paths@,
            ch,
            opinions@,
            r,
        ) by {
            lemma_sorted_unique(before, n as int, r, sorted@);
        }
        assert(layer_grouped_order(keys, sorted@));
    }
    *children = out;
}

/// A chain of `reorder nameChildren` statements neither loses nor invents
/// children.
pub proof fn law_reorder_chain_keeps_children(
    paths: Seq<Seq<TokenId>>,
    ch: Seq<PathId>,
    orders: Seq<Seq<TokenId>>,
)
    ensures
        forall|i: int| 0 <= i < ch.len() ==> reorder_all(paths, ch, orders).contains(#[trigger] ch[i]),
        drawn_from(reorder_all(paths, ch, orders), ch),
    decreases orders.len(),
{
    if orders.len() > 0 {
        let prev = reorder_all(paths, ch, orders.drop_last());
        let r = reorder_all(paths, ch, orders);
        law_reorder_chain_keeps_children(paths, ch, orders.drop_last());
        law_reorder_keeps_children(paths, prev, orders.last());
        assert forall|i: int| 0 <= i < ch.len() implies r.contains(#[trigger] ch[i]) by {
            assert(prev.contains(ch[i]));
            let j = choose|j: int| 0 <= j < prev.len() && prev[j] == ch[i];
            assert(r.contains(prev[j]));
        }
        assert forall|i: int| 0 <= i < r.len() implies ch.contains(#[trigger] r[i]) by {
            assert(prev.contains(r[i]));
            let j = choose|j: int| 0 <= j < prev.len() && prev[j] == r[i];
            assert(ch.contains(prev[j]));
        }
    }
}

/// The children that names name are children.
proof fn lemma_gathered_drawn(m: Map<TokenId, PathId>, lists: Seq<Seq<TokenId>>, ch: Seq<PathId>)
    requires
        forall|t: TokenId| #[trigger] m.dom().contains(t) ==> ch.contains(m[t]),
    ensures
        drawn_from(gathered(m, lists), ch),
    decreases lists.len(),
{
    if lists.len() > 0 {
        lemma_gathered_drawn(m, lists.drop_last(), ch);
        lemma_named_children_drawn(m, lists.last(), ch);
        lemma_drawn_concat(gathered(m, lists.drop_last()), named_children(m, lists.last()), ch);
    }
}

/// The children that one list of names names are children.
proof fn lemma_named_children_drawn(m: Map<TokenId, PathId>, names: Seq<TokenId>, ch: Seq<PathId>)
    requires
        forall|t: TokenId| #[trigger] m.dom().contains(t) ==> ch.contains(m[t]),
    ensures
        drawn_from(named_children(m, names), ch),
    decreases names.len(),
{
    if names.len() > 0 {
        lemma_named_children_drawn(m, names.drop_last(), ch);
        let s = named_children(m, names.drop_last());
        if m.dom().contains(names.last()) {
            assert forall|i: int| 0 <= i < s.push(m[names.last()]).len() implies ch.contains(
                #[trigger] s.push(m[names.last()])[i],
            ) by {
                if i < s.len() {
                    assert(s.push(m[names.last()])[i] == s[i]);
                }
            }
        }
    }
}

/// The authored base order is a permutation of the distinct children: each
/// child appears exactly once, and nothing else appears.
pub proof fn law_base_order_permutes_children(
    paths: Seq<Seq<TokenId>>,
    ch: Seq<PathId>,
    opinions: Seq<(OpinionKey, Vec<TokenId>)>,
    r: Seq<usize>,
)
    ensures
        base_ordered(paths, ch, opinions, r).no_duplicates(),
        forall|x: PathId| #[trigger] base_ordered(paths, ch, opinions, r).contains(x) <==> ch.contains(x),
{
    let m = children_by_name(paths, ch);
    let g = gathered(m, weakest_first_orders(opinions, r));
    let all = g + ch;
    let out = base_ordered(paths, ch, opinions, r);
    lemma_by_name_drawn(paths, ch);
    lemma_gathered_drawn(m, weakest_first_orders(opinions, r), ch);
    assert forall|i: int| 0 <= i < ch.len() implies ch.contains(#[trigger] ch[i]) by {}
    lemma_drawn_concat(g, ch, ch);
    lemma_append_unseen_drawn(Seq::empty(), all, ch);
    lemma_append_unseen_covers(Seq::empty(), all);
    assert forall|x: PathId| #[trigger] out.contains(x) <==> ch.contains(x) by {
        if out.contains(x) {
            let j = choose|j: int| 0 <= j < out.len() && out[j] == x;
            assert(ch.contains(out[j]));
        }
        if ch.contains(x) {
            let j = choose|j: int| 0 <= j < ch.len() && ch[j] == x;
            assert(all[g.len() + j] == x);
        }
    }
}

/// `c` bears a name, and not a listed one.
pub open spec fn unlisted_leaf(paths: Seq<Seq<TokenId>>, c: PathId, listed: Set<TokenId>) -> bool {
    match leaf_name(paths, c) {
        Some(n) => !listed.contains(n),
        None => false,
    }
}

/// The child a name maps to bears that name.
proof fn lemma_by_name_leaf(paths: Seq<Seq<TokenId>>, ch: Seq<PathId>)
    ensures
        forall|t: TokenId| #[trigger]
            children_by_name(paths, ch).dom().contains(t) ==> leaf_name(paths, children_by_name(paths, ch)[t])
                == Some(t),
    decreases ch.len(),
{
    if ch.len() > 0 {
        lemma_by_name_leaf(paths, ch.drop_last());
    }
}

/// A run holds children with unlisted names; without repeated children it
/// has no repeats.
proof fn lemma_run_facts(paths: Seq<Seq<TokenId>>, ch: Seq<PathId>, listed: Set<TokenId>, owner: Option<TokenId>)
    ensures
        forall|i: int|
            0 <= i < owned_run(paths, ch, listed, owner).len() ==> unlisted_leaf(
                paths,
                #[trigger] owned_run(paths, ch, listed, owner)[i],
                listed,
            ),
        ch.no_duplicates() ==> owned_run(paths, ch, listed, owner).no_duplicates(),
    decreases ch.len(),
{
    if ch.len() > 0 {
        let init = ch.drop_last();
        lemma_run_facts(paths, init, listed, owner);
        lemma_owned_run_drawn(paths, init, listed, owner);
        let r0 = owned_run(paths, init, listed, owner);
        let r = owned_run(paths, ch, listed, owner);
        assert forall|i: int| 0 <= i < r.len() implies unlisted_leaf(paths, #[trigger] r[i], listed) by {
            if i < r0.len() {
                assert(r[i] == r0[i]);
            }
        }
        if ch.no_duplicates() && r.len() > r0.len() {
            assert forall|a: int, b: int| 0 <= a < b < r.len() implies r[a] != r[b] by {
                if b == r0.len() {
                    assert(r[b] == ch.last());
                    assert(init.contains(r0[a]));
                    let j = choose|j: int| 0 <= j < init.len() && init[j] == r0[a];
                    assert(ch[j] == r0[a]);
                    assert(ch[ch.len() - 1] == ch.last());
                } else {
                    assert(r[a] == r0[a] && r[b] == r0[b]);
                }
            }
        }
    }
}

/// Runs of different owners share no child when no child repeats.
proof fn lemma_runs_disjoint(
    paths: Seq<Seq<TokenId>>,
    ch: Seq<PathId>,
    listed: Set<TokenId>,
    o1: Option<TokenId>,
    o2: Option<TokenId>,
)
    requires
        ch.no_duplicates(),
        o1 != o2,
    ensures
        forall|i: int, j: int|
            0 <= i < owned_run(paths, ch, listed, o1).len() && 0 <= j < owned_run(paths, ch, listed, o2).len()
                ==> #[trigger] owned_run(paths, ch, listed, o1)[i] != #[trigger] owned_run(paths, ch, listed, o2)[j],
    decreases ch.len(),
{
    if ch.len() > 0 {
        let init = ch.drop_last();
        assert(init.no_duplicates());
        lemma_runs_disjoint(paths, init, listed, o1, o2);
        lemma_owned_run_drawn(paths, init, listed, o1);
        lemma_owned_run_drawn(paths, init, listed, o2);
        let a0 = owned_run(paths, init, listed, o1);
        let b0 = owned_run(paths, init, listed, o2);
        let a = owned_run(paths, ch, listed, o1);
        let b = owned_run(paths, ch, listed, o2);
        assert forall|i: int, j: int| 0 <= i < a.len() && 0 <= j < b.len() implies #[trigger] a[i] != #[trigger] b[j] by {
            if i < a0.len() && j < b0.len() {
                assert(a[i] == a0[i] && b[j] == b0[j]);
            } else if i >= a0.len() && j < b0.len() {
                assert(a[i] == ch.last());
                assert(init.contains(b0[j]));
                let k = choose|k: int| 0 <= k < init.len() && init[k] == b0[j];
                assert(ch[k] == b0[j]);
                assert(b[j] == b0[j]);
            } else if i < a0.len() && j >= b0.len() {
                assert(b[j] == ch.last());
                assert(init.contains(a0[i]));
                let k = choose|k: int| 0 <= k < init.len() && init[k] == a0[i];
                assert(ch[k] == a0[i]);
                assert(a[i] == a0[i]);
            }
        }
    }
}

/// The names kept from an order without repeats have no repeats.
proof fn lemma_known_names_distinct(order: Seq<TokenId>, m: Map<TokenId, PathId>)
    requires
        order.no_duplicates(),
    ensures
        known_names(order, m).no_duplicates(),
        forall|i: int| 0 <= i < known_names(order, m).len() ==> order.contains(#[trigger] known_names(order, m)[i]),
    decreases order.len(),
{
    if order.len() > 0 {
        let init = order.drop_last();
        assert(init.no_duplicates());
        lemma_known_names_distinct(init, m);
        let k = known_names(init, m);
        let x = order.last();
        assert forall|i: int| 0 <= i < known_names(order, m).len() implies order.contains(
            #[trigger] known_names(order, m)[i],
        ) by {
            if i < k.len() {
                assert(known_names(order, m)[i] == k[i]);
                assert(init.contains(k[i]));
                let j = choose|j: int| 0 <= j < init.len() && init[j] == k[i];
                assert(order[j] == k[i]);
            } else {
                assert(order[order.len() - 1] == x);
            }
        }
        if m.dom().contains(x) {
            assert forall|a: int, b: int| 0 <= a < b < k.push(x).len() implies k.push(x)[a] != k.push(x)[b] by {
                if b == k.len() {
                    assert(init.contains(k[a]));
                    let j = choose|j: int| 0 <= j < init.len() && init[j] == k[a];
                    assert(order[j] == k[a]);
                    assert(order[order.len() - 1] == x);
                } else {
                    assert(k.push(x)[a] == k[a] && k.push(x)[b] == k[b]);
                }
            }
        }
    }
}

/// The runs of listed names, for names without repeats, have no repeats;
/// each entry is the child bearing one of the names or in the run of one.
proof fn lemma_listed_runs_distinct(
    paths: Seq<Seq<TokenId>>,
    ch: Seq<PathId>,
    listed: Set<TokenId>,
    names: Seq<TokenId>,
)
    requires
        ch.no_duplicates(),
        names.no_duplicates(),
        forall|i: int| 0 <= i < names.len() ==> listed.contains(#[trigger] names[i]),
        forall|i: int| 0 <= i < names.len() ==> children_by_name(paths, ch).dom().contains(#[trigger] names[i]),
    ensures
        listed_runs(paths, ch, listed, children_by_name(paths, ch), names).no_duplicates(),
        forall|x: PathId| #[trigger]
            listed_runs(paths, ch, listed, children_by_name(paths, ch), names).contains(x) ==> exists|k: int|
                0 <= k < names.len() && (x == children_by_name(paths, ch)[names[k]] || owned_run(
                    paths,
                    ch,
                    listed,
                    Some(names[k]),
                ).contains(x)),
    decreases names.len(),
{
    let m = children_by_name(paths, ch);
    if names.len() > 0 {
        let init = names.drop_last();
        let last = names.last();
        assert(init.no_duplicates());
        assert forall|i: int| 0 <= i < init.len() implies listed.contains(#[trigger] init[i]) by {
            assert(init[i] == names[i]);
        }
        assert forall|i: int| 0 <= i < init.len() implies m.dom().contains(#[trigger] init[i]) by {
            assert(init[i] == names[i]);
        }
        lemma_listed_runs_distinct(paths, ch, listed, init);
        lemma_by_name_leaf(paths, ch);
        lemma_run_facts(paths, ch, listed, Some(last));
        assert(listed.contains(names[names.len() - 1]));
        assert(m.dom().contains(names[names.len() - 1]));
        let front = listed_runs(paths, ch, listed, m, init);
        let run = owned_run(paths, ch, listed, Some(last));
        let whole = listed_runs(paths, ch, listed, m, names);
        assert(whole == front.push(m[last]) + run);
        // Where each entry of the front comes from.
        assert forall|y: PathId| #[trigger] front.contains(y) implies y != m[last] && !run.contains(y) by {
            let k = choose|k: int| 0 <= k < init.len() && (y == m[init[k]] || owned_run(paths, ch, listed, Some(init[k])).contains(y));
            assert(init[k] == names[k]);
            assert(init[k] != last);
            if y == m[init[k]] {
                assert(leaf_name(paths, m[init[k]]) == Some(init[k]));
                assert(leaf_name(paths, m[last]) == Some(last));
                if run.contains(y) {
                    let j = choose|j: int| 0 <= j < run.len() && run[j] == y;
                    assert(unlisted_leaf(paths, run[j], listed));
                }
            } else {
                let other = owned_run(paths, ch, listed, Some(init[k]));
                lemma_run_facts(paths, ch, listed, Some(init[k]));
                let j = choose|j: int| 0 <= j < other.len() && other[j] == y;
                assert(unlisted_leaf(paths, other[j], listed));
                assert(leaf_name(paths, m[last]) == Some(last));
                if run.contains(y) {
                    let q = choose|q: int| 0 <= q < run.len() && run[q] == y;
                    lemma_runs_disjoint(paths, ch, listed, Some(init[k]), Some(last));
                    assert(other[j] != run[q]);
                }
            }
        }
        assert forall|a: int, b: int| 0 <= a < b < whole.len() implies whole[a] != whole[b] by {
            let fl = front.len();
            if b < fl {
                assert(whole[a] == front[a] && whole[b] == front[b]);
            } else if a < fl {
                assert(whole[a] == front[a]);
                assert(front.contains(front[a]));
                if b == fl {
                    assert(whole[b] == m[last]);
                } else {
                    assert(whole[b] == run[b - fl - 1]);
                }
            } else if a == fl {
                assert(whole[a] == m[last]);
                assert(whole[b] == run[b - fl - 1]);
                assert(unlisted_leaf(paths, run[b - fl - 1], listed));
                assert(leaf_name(paths, m[last]) == Some(last));
            } else {
                assert(whole[a] == run[a - fl - 1] && whole[b] == run[b - fl - 1]);
            }
        }
        assert forall|x: PathId| #[trigger] whole.contains(x) implies exists|k: int|
            0 <= k < names.len() && (x == m[names[k]] || owned_run(paths, ch, listed, Some(names[k])).contains(x)) by {
            let j = choose|j: int| 0 <= j < whole.len() && whole[j] == x;
            let fl = front.len();
            if j < fl {
                assert(front[j] == x);
                assert(front.contains(x));
                let k = choose|k: int| 0 <= k < init.len() && (x == m[init[k]] || owned_run(paths, ch, listed, Some(init[k])).contains(x));
                assert(names[k] == init[k]);
            } else if j == fl {
                assert(names[names.len() - 1] == last);
            } else {
                assert(run[j - fl - 1] == x);
                assert(run.contains(x));
                assert(names[names.len() - 1] == last);
            }
        }
    }
}

/// Joining two lists without repeats that share no entry gives a list
/// without repeats.
proof fn lemma_concat_distinct(a: Seq<PathId>, b: Seq<PathId>)
    requires
        a.no_duplicates(),
        b.no_duplicates(),
        forall|x: PathId| #[trigger] a.contains(x) ==> !b.contains(x),
    ensures
        (a + b).no_duplicates(),
{
    assert forall|i: int, j: int| 0 <= i < j < (a + b).len() implies (a + b)[i] != (a + b)[j] by {
        if j < a.len() {
            assert((a + b)[i] == a[i] && (a + b)[j] == a[j]);
        } else if i >= a.len() {
            assert((a + b)[i] == b[i - a.len()] && (a + b)[j] == b[j - a.len()]);
        } else {
            assert((a + b)[i] == a[i] && (a + b)[j] == b[j - a.len()]);
            assert(a.contains(a[i]));
            assert(b.contains(b[j - a.len()]));
        }
    }
}

/// Reordering distinct children by an order that repeats no name only
/// rearranges them: each child appears exactly once in the result.
pub proof fn law_reorder_permutes_distinct_children(
    paths: Seq<Seq<TokenId>>,
    ch: Seq<PathId>,
    order: Seq<TokenId>,
)
    requires
        ch.no_duplicates(),
        order.no_duplicates(),
    ensures
        reordered(paths, ch, order).no_duplicates(),
        forall|x: PathId| #[trigger] reordered(paths, ch, order).contains(x) <==> ch.contains(x),
{
    let r = reordered(paths, ch, order);
    law_reorder_keeps_children(paths, ch, order);
    assert forall|x: PathId| #[trigger] r.contains(x) <==> ch.contains(x) by {
        if r.contains(x) {
            let j = choose|j: int| 0 <= j < r.len() && r[j] == x;
            assert(ch.contains(r[j]));
        }
        if ch.contains(x) {
            let j = choose|j: int| 0 <= j < ch.len() && ch[j] == x;
            assert(r.contains(ch[j]));
        }
    }
    let m = children_by_name(paths, ch);
    let kept = known_names(order, m);
    if kept.len() > 0 {
        lemma_known_names_distinct(order, m);
        lemma_known_names_in(order, m);
        lemma_by_name_leaf(paths, ch);
        let listed = kept.to_set();
        let k0 = kept[0];
        let rest = kept.drop_first();
        assert(rest.no_duplicates()) by {
            assert forall|a: int, b: int| 0 <= a < b < rest.len() implies rest[a] != rest[b] by {
                assert(rest[a] == kept[a + 1] && rest[b] == kept[b + 1]);
            }
        }
        assert forall|i: int| 0 <= i < rest.len() implies listed.contains(#[trigger] rest[i]) by {
            assert(rest[i] == kept[i + 1]);
            assert(kept.contains(kept[i + 1]));
        }
        assert forall|i: int| 0 <= i < rest.len() implies m.dom().contains(#[trigger] rest[i]) by {
            assert(rest[i] == kept[i + 1]);
        }
        assert(kept.contains(k0));
        assert(listed.contains(k0));
        assert(m.dom().contains(k0));
        let one = seq![m[k0]];
        let rn = owned_run(paths, ch, listed, None);
        let rk = owned_run(paths, ch, listed, Some(k0));
        let lr = listed_runs(paths, ch, listed, m, rest);
        lemma_run_facts(paths, ch, listed, None);
        lemma_run_facts(paths, ch, listed, Some(k0));
        lemma_runs_disjoint(paths, ch, listed, None, Some(k0));
        lemma_listed_runs_distinct(paths, ch, listed, rest);
        assert(leaf_name(paths, m[k0]) == Some(k0));
        assert forall|x: PathId| #[trigger] one.contains(x) implies !rn.contains(x) by {
            assert(one[0] == m[k0]);
            if rn.contains(x) {
                let j = choose|j: int| 0 <= j < rn.len() && rn[j] == x;
                assert(unlisted_leaf(paths, rn[j], listed));
            }
        }
        lemma_concat_distinct(one, rn);
        assert forall|x: PathId| #[trigger] (one + rn).contains(x) implies !rk.contains(x) by {
            let i = choose|i: int| 0 <= i < (one + rn).len() && (one + rn)[i] == x;
            if rk.contains(x) {
                let j = choose|j: int| 0 <= j < rk.len() && rk[j] == x;
                assert(unlisted_leaf(paths, rk[j], listed));
                if i >= 1 {
                    assert((one + rn)[i] == rn[i - 1]);
                    assert(rn[i - 1] != rk[j]);
                }
            }
        }
        lemma_concat_distinct(one + rn, rk);
        let head = one + rn + rk;
        assert forall|x: PathId| #[trigger] head.contains(x) implies !lr.contains(x) by {
            if lr.contains(x) {
                let k = choose|k: int| 0 <= k < rest.len() && (x == m[rest[k]] || owned_run(paths, ch, listed, Some(rest[k])).contains(x));
                assert(rest[k] == kept[k + 1]);
                assert(rest[k] != k0);
                let i = choose|i: int| 0 <= i < head.len() && head[i] == x;
                let other = owned_run(paths, ch, listed, Some(rest[k]));
                lemma_run_facts(paths, ch, listed, Some(rest[k]));
                lemma_runs_disjoint(paths, ch, listed, None, Some(rest[k]));
                lemma_runs_disjoint(paths, ch, listed, Some(k0), Some(rest[k]));
                assert(leaf_name(paths, m[rest[k]]) == Some(rest[k]));
                if i == 0 {
                    assert(head[i] == m[k0]);
                    if other.contains(x) {
                        let q = choose|q: int| 0 <= q < other.len() && other[q] == x;
                        assert(unlisted_leaf(paths, other[q], listed));
                    }
                } else if i < 1 + rn.len() {
                    assert(head[i] == rn[i - 1]);
                    assert(unlisted_leaf(paths, rn[i - 1], listed));
                    if other.contains(x) {
                        let q = choose|q: int| 0 <= q < other.len() && other[q] == x;
                        assert(rn[i - 1] != other[q]);
                    }
                } else {
                    assert(head[i] == rk[i - 1 - rn.len()]);
                    assert(unlisted_leaf(paths, rk[i - 1 - rn.len()], listed));
                    if other.contains(x) {
                        let q = choose|q: int| 0 <= q < other.len() && other[q] == x;
                        assert(rk[i - 1 - rn.len()] != other[q]);
                    }
                }
            }
        }
        lemma_concat_distinct(head, lr);
        lemma_append_unseen_covers(head + lr, ch);
    }
}

/// `r` orders the opinions of `a` as the base order needs, or `a` is absent.
pub open spec fn base_order_of(a: Option<Seq<(OpinionKey, Vec<TokenId>)>>, r: Seq<usize>) -> bool {
    match a {
        Some(ops) => layer_grouped_order(opinion_keys(ops), r),
        None => true,
    }
}

/// `r` orders the opinions of `o` strongest first, or `o` is absent.
pub open spec fn chain_order_of(o: Option<Seq<(OpinionKey, Vec<TokenId>)>>, r: Seq<usize>) -> bool {
    match o {
        Some(ops) => strongest_first_order(opinion_keys(ops), r),
        None => true,
    }
}

/// A child list after the authored base order (when there are
/// authored-children opinions) and then the `reorder nameChildren` chain
/// (when there are child-order opinions).
pub open spec fn child_order_applied(
    paths: Seq<Seq<TokenId>>,
    ch: Seq<PathId>,
    a: Option<Seq<(OpinionKey, Vec<TokenId>)>>,
    o: Option<Seq<(OpinionKey, Vec<TokenId>)>>,
    ra: Seq<usize>,
    ro: Seq<usize>,
) -> Seq<PathId> {
    let m = match a {
        Some(ops) => base_ordered(paths, ch, ops, ra),
        None => ch,
    };
    match o {
        Some(ops) => reorder_all(paths, m, weakest_first_orders(ops, ro)),
        None => m,
    }
}

/// The opinions a map holds for `k`, if any.
pub open spec fn opinions_at(t: OpinionsByPrim, k: PathId) -> Option<Seq<(OpinionKey, Vec<TokenId>)>> {
    if opinions_contents(t).dom().contains(k) {
        Some(opinions_contents(t)[k])
    } else {
        None
    }
}

/// Orders every child list of `children`: first by the authored base order
/// of its parent's authored-children opinions, then by its parent's chain
/// of `reorder nameChildren` opinions.
pub fn apply_child_order(
    paths: &PathInterner,
    authored: &OpinionsByPrim,
    orders: &OpinionsByPrim,
    children: &mut ChildrenIndex,
)
    requires
        forall|k: PathId| #[trigger]
            children_contents(*old(children)).dom().contains(k) ==> all_named(paths@, children_contents(*old(children))[k]),
        forall|k: PathId| #[trigger]
            opinions_contents(*authored).dom().contains(k) ==> positions_fit(opinion_keys(opinions_contents(*authored)[k])),
    ensures
        children_contents(*final(children)).dom() == children_contents(*old(children)).dom(),
        forall|k: PathId| #[trigger]
            children_contents(*final(children)).dom().contains(k) ==> (exists|ra: Seq<usize>| base_order_of(opinions_at(*authored, k), ra))
                && (exists|ro: Seq<usize>| chain_order_of(opinions_at(*orders, k), ro)),
        forall|k: PathId, ra: Seq<usize>, ro: Seq<usize>|
            #![trigger children_contents(*final(children))[k], base_order_of(opinions_at(*authored, k), ra), chain_order_of(opinions_at(*orders, k), ro)]
            children_contents(*old(children)).dom().contains(k) && base_order_of(opinions_at(*authored, k), ra)
                && chain_order_of(opinions_at(*orders, k), ro) ==> children_contents(*final(children))[k]
                == child_order_applied(paths@, children_contents(*old(children))[k], opinions_at(*authored, k), opinions_at(*orders, k), ra, ro),
{
    let ghost before = children_contents(*children);
    let keys = children_keys(children);
    let mut out = children_new();
    let n = keys.len();
    let mut i: usize = 0;
    while i < n
        invariant
            n == keys@.len(),
            i <= n,
            keys@.to_set() == before.dom(),
            before == children_contents(*children),
            forall|k: PathId| #[trigger] before.dom().contains(k) ==> all_named(paths@, before[k]),
            forall|k: PathId| #[trigger]
                opinions_contents(*authored).dom().contains(k) ==> positions_fit(opinion_keys(opinions_contents(*authored)[k])),
            forall|k: PathId| #[trigger] children_contents(out).dom().contains(k) <==> keys@.take(i as int).contains(k),
            forall|k: PathId| #[trigger]
                children_contents(out).dom().contains(k) ==> (exists|ra: Seq<usize>| base_order_of(opinions_at(*authored, k), ra))
                    && (exists|ro: Seq<usize>| chain_order_of(opinions_at(*orders, k), ro)),
            forall|k: PathId, ra: Seq<usize>, ro: Seq<usize>|
                #![trigger children_contents(out)[k], base_order_of(opinions_at(*authored, k), ra), chain_order_of(opinions_at(*orders, k), ro)]
                children_contents(out).dom().contains(k) && base_order_of(opinions_at(*authored, k), ra)
                    && chain_order_of(opinions_at(*orders, k), ro) ==> children_contents(out)[k]
                    == child_order_applied(paths@, before[k], opinions_at(*authored, k), opinions_at(*orders, k), ra, ro),
        decreases n - i,
    {
        let k = keys[i];
        proof {
            assert(keys@.to_set().contains(k));
            assert(keys@.take(i + 1) =~= keys@.take(i as int).push(k));
        }
        let src = children_get(children, k).unwrap();
        let mut list = crate::listop::concat(src.as_slice(), &[]);
        let ghost ch = list@;
        let ghost a = opinions_at(*authored, k);
        let ghost o = opinions_at(*orders, k);
        match opinions_get(authored, k) {
            Some(ops) => {
                apply_authored_children_base_order(paths, &mut list, ops.as_slice());
                proof {
                    let w = choose|r: Seq<usize>| layer_grouped_order(opinion_keys(ops@), r);
                    assert(base_order_of(a, w));
                    assert forall|j: int| 0 <= j < list@.len() implies 0 <= #[trigger] list@[j].index() < paths@.len() by {
                        let r = choose|r: Seq<usize>| layer_grouped_order(opinion_keys(ops@), r);
                        law_base_order_permutes_children(paths@, ch, ops@, r);
                        assert(base_ordered(paths@, ch, ops@, r).contains(list@[j]));
                        let q = choose|q: int| 0 <= q < ch.len() && ch[q] == list@[j];
                    }
                }
            },
            None => {
                proof {
                    assert(base_order_of(a, Seq::<usize>::empty()));
                }
            },
        }
        let ghost mid = list@;
        match opinions_get(orders, k) {
            Some(ops) => {
                apply_prim_order_chain(paths, &mut list, ops.as_slice());
                proof {
                    let w = choose|r: Seq<usize>| strongest_first_order(opinion_keys(ops@), r);
                    assert(chain_order_of(o, w));
                }
            },
            None => {
                proof {
                    assert(chain_order_of(o, Seq::<usize>::empty()));
                }
            },
        }
        let ghost before_out = children_contents(out);
        children_insert(&mut out, k, list);
        proof {
            assert forall|x: PathId| #[trigger] children_contents(out).dom().contains(x) <==> keys@.take(i + 1).contains(x) by {
                vstd::seq_lib::lemma_seq_contains_after_push(keys@.take(i as int), k, x);
            }
            assert forall|x: PathId, ra: Seq<usize>, ro: Seq<usize>|
                #![trigger children_contents(out)[x], base_order_of(opinions_at(*authored, x), ra), chain_order_of(opinions_at(*orders, x), ro)]
                children_contents(out).dom().contains(x) && base_order_of(opinions_at(*authored, x), ra)
                    && chain_order_of(opinions_at(*orders, x), ro) implies children_contents(out)[x]
                    == child_order_applied(paths@, before[x], opinions_at(*authored, x), opinions_at(*orders, x), ra, ro) by {
                if x != k {
                    assert(before_out.dom().contains(x));
                    assert(children_contents(out)[x] == before_out[x]);
                } else {
                    assert(ch == before[k]);
                }
            }
        }
        i = i + 1;
    }
    proof {
        assert(keys@.take(n as int) =~= keys@);
        assert forall|x: PathId| children_contents(out).dom().contains(x) <==> before.dom().contains(x) by {
            assert(keys@.to_set().contains(x) <==> keys@.contains(x));
        }
        assert(children_contents(out).dom() =~= before.dom());
    }
    *children = out;
}

impl OpinionsByPrim {
    /// A map with no opinions.
    pub fn new() -> (r: Self)
        ensures
            opinions_contents(r).dom() == Set::<PathId>::empty(),
    {
        opinions_new()
    }

    /// Appends an opinion to the list of `prim`.
    pub fn push(&mut self, prim: PathId, opinion: (OpinionKey, Vec<TokenId>))
        ensures
            opinions_contents(*final(self)) == opinions_contents(*old(self)).insert(
                prim,
                (if opinions_contents(*old(self)).dom().contains(prim) {
                    opinions_contents(*old(self))[prim]
                } else {
                    Seq::<(OpinionKey, Vec<TokenId>)>::empty()
                }).push(opinion),
            ),
    {
        opinions_push(self, prim, opinion);
    }
}

} // verus!

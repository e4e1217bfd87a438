//! Composition helpers: variant selections of nested branches, path
//! remapping across reference arcs, and the identity test of instancing.

use vstd::prelude::*;

use crate::doc::LayerId;
use crate::prim_index::{ArcKind, OpinionKey};
use crate::store::{layer_prims, store_layers, InMemoryStore, Layer};
use crate::resolve::{source_flag, source_flags, SpecFlag};
use crate::hashed::{
    children_contents, children_get, children_insert, children_keys, children_new, opinions_contents, ChildrenIndex,
    OpinionsByPrim,
};
use crate::interner::{intern_index, interned, TokenId, TokenInterner};
use crate::path::{extends, Path, PathId, PathInterner};
use crate::text::{
    chars_of, starts_with_char, starts_with_char_vec, string_from_chars, strip_prefix, strip_prefix_vec,
};

verus! {

/// The variant selections in force inside a nested variant branch: the
/// outer selections followed by the current one.
pub fn combined_variant_selections(
    outer: &[(TokenId, TokenId)],
    current: (TokenId, TokenId),
) -> (r: Vec<(TokenId, TokenId)>)
    ensures
        r@ == outer@.push(current),
{
    let mut out: Vec<(TokenId, TokenId)> = Vec::new();
    let n = outer.len();
    let mut i: usize = 0;
    while i < n
        invariant
            n == outer@.len(),
            i <= n,
            out@ == outer@.take(i as int),
        decreases n - i,
    {
        out.push(outer[i]);
        proof {
            assert(outer@.take(i + 1) =~= outer@.take(i as int).push(outer@[i as int]));
        }
        i = i + 1;
    }
    proof {
        assert(outer@.take(n as int) =~= outer@);
    }
    out.push(current);
    out
}

/// `t` names a token of `tokens`.
pub open spec fn names_token(tokens: Seq<Seq<char>>, t: TokenId) -> bool {
    0 <= t.index() < tokens.len()
}

/// `p` and `src` are sibling paths of equal, non-zero depth (`p` not under
/// `src`), so `p` may name a property of `src`'s prim.
pub open spec fn sibling_of_root(src: Seq<TokenId>, p: Seq<TokenId>) -> bool {
    &&& !extends(p, src)
    &&& p.len() >= 1
    &&& src.len() >= 1
    &&& p.len() == src.len()
    &&& p.drop_last() == src.drop_last()
}

/// The property suffix (starting with `.`) of `p`'s leaf after `src`'s
/// leaf, when `p` is a sibling of `src` whose leaf extends it so.
pub open spec fn property_suffix(tokens: Seq<Seq<char>>, src: Seq<TokenId>, p: Seq<TokenId>) -> Option<
    Seq<char>,
> {
    if sibling_of_root(src, p) {
        match strip_prefix(tokens[p.last().index()], tokens[src.last().index()]) {
            Some(sfx) => if starts_with_char(sfx, '.') {
                Some(sfx)
            } else {
                None
            },
            None => None,
        }
    } else {
        None
    }
}

/// Remaps the path `path` from under `src_root` to under `dest_root`: a path
/// under `src_root` moves to the same place under `dest_root`; a property
/// path beside `src_root` whose leaf is `src_root`'s leaf followed by
/// `.name` moves beside `dest_root`, with `dest_root`'s leaf and the same
/// suffix; any other path stays as it is. New tokens and paths are interned.
pub fn remap_path_id(
    tokens: &mut TokenInterner,
    paths: &mut PathInterner,
    dest_root: &Path,
    src_root: &Path,
    path: PathId,
) -> (r: PathId)
    requires
        old(paths).contains_id(path),
        old(paths)@.len() < u32::MAX,
        old(tokens)@.len() < u32::MAX,
        sibling_of_root(src_root@, old(paths)@[path.index()]) ==> names_token(
            old(tokens)@,
            old(paths)@[path.index()].last(),
        ) && names_token(old(tokens)@, src_root@.last()),
        property_suffix(old(tokens)@, src_root@, old(paths)@[path.index()]) is Some ==> dest_root@.len() > 0
            && names_token(old(tokens)@, dest_root@.last()),
    ensures
        ({
            let p = old(paths)@[path.index()];
            if extends(p, src_root@) {
                let moved = dest_root@ + p.subrange(src_root@.len() as int, p.len() as int);
                &&& final(tokens)@ == old(tokens)@
                &&& final(paths)@ == interned(old(paths)@, moved)
                &&& r.index() == intern_index(old(paths)@, moved)
            } else if property_suffix(old(tokens)@, src_root@, p) is Some {
                let leaf = old(tokens)@[dest_root@.last().index()] + property_suffix(
                    old(tokens)@,
                    src_root@,
                    p,
                )->0;
                &&& final(tokens)@ == interned(old(tokens)@, leaf)
                &&& exists|t: TokenId|
                    t.index() == intern_index(old(tokens)@, leaf) && final(paths)@ == interned(
                        old(paths)@,
                        #[trigger] dest_root@.drop_last().push(t),
                    ) && r.index() == intern_index(old(paths)@, dest_root@.drop_last().push(t))
            } else {
                &&& final(tokens)@ == old(tokens)@
                &&& final(paths)@ == old(paths)@
                &&& r == path
            }
        }),
{
    let p = paths.resolve(path).clone();
    let ghost pv = p@;
    match p.strip_prefix(src_root) {
        Some(rel) => {
            let target = dest_root.join(rel);
            return paths.intern(target);
        },
        None => {},
    }
    let src_depth = src_root.depth();
    if p.depth() >= 1 && src_depth >= 1 && p.depth() == src_depth {
        let p_parent = p.parent();
        let src_parent = src_root.parent();
        match (p_parent, src_parent) {
            (Some(pp), Some(sp)) => {
                if sp.is_prefix_of(&pp) {
                    proof {
                        assert(pp@ =~= sp@);
                        assert(sibling_of_root(src_root@, pv));
                    }
                    match (p.leaf(), src_root.leaf()) {
                        (Some(p_leaf_tok), Some(src_leaf_tok)) => {
                            let p_leaf = chars_of(tokens.resolve(p_leaf_tok));
                            let src_leaf = chars_of(tokens.resolve(src_leaf_tok));
                            match strip_prefix_vec(&p_leaf, &src_leaf) {
                                Some(suffix) => {
                                    if starts_with_char_vec(&suffix, '.') {
                                        let dest_leaf_tok = match dest_root.leaf() {
                                            Some(t) => t,
                                            None => {
                                                return path;
                                            },
                                        };
                                        let mut new_leaf = chars_of(tokens.resolve(dest_leaf_tok));
                                        let ghost dest_text = new_leaf@;
                                        let mut i: usize = 0;
                                        while i < suffix.len()
                                            invariant
                                                i <= suffix@.len(),
                                                new_leaf@ == dest_text + suffix@.take(i as int),
                                            decreases suffix@.len() - i,
                                        {
                                            new_leaf.push(suffix[i]);
                                            proof {
                                                assert(suffix@.take(i + 1) =~= suffix@.take(i as int).push(
                                                    suffix@[i as int],
                                                ));
                                            }
                                            i = i + 1;
                                        }
                                        proof {
                                            assert(suffix@.take(suffix@.len() as int) =~= suffix@);
                                        }
                                        let text = string_from_chars(new_leaf.as_slice());
                                        let tok = tokens.intern(text.as_str());
                                        let dest_parent = match dest_root.parent() {
                                            Some(dp) => dp,
                                            None => Path::root(),
                                        };
                                        let one = vec![tok];
                                        let target = dest_parent.join(one.as_slice());
                                        proof {
                                            assert(target@ =~= dest_root@.drop_last().push(tok));
                                        }
                                        return paths.intern(target);
                                    }
                                },
                                None => {},
                            }
                        },
                        _ => {},
                    }
                } else {
                    proof {
                        if pv.drop_last() == src_root@.drop_last() {
                            assert(pp@.subrange(0, sp@.len() as int) =~= sp@);
                        }
                    }
                }
            },
            _ => {},
        }
    }
    path
}

/// `spec_path` lies strictly below (not at) one of the identity paths of
/// its layer.
pub open spec fn below_identity(
    paths: Seq<Seq<TokenId>>,
    layer_id: LayerId,
    spec_path: PathId,
    identity_paths: Seq<(LayerId, PathId)>,
) -> bool {
    exists|i: int|
        0 <= i < identity_paths.len() && (#[trigger] identity_paths[i]).0 == layer_id && extends(
            paths[spec_path.index()],
            paths[identity_paths[i].1.index()],
        ) && spec_path != identity_paths[i].1
}

/// Whether the opinion at `(layer_id, spec_path)` lies strictly below an
/// identity path (one whose opinions instancing keeps) of the same layer.
pub fn is_identity_descendant(
    paths: &PathInterner,
    layer_id: LayerId,
    spec_path: PathId,
    identity_paths: &[(LayerId, PathId)],
) -> (r: bool)
    requires
        paths.contains_id(spec_path),
        forall|i: int|
            0 <= i < identity_paths@.len() && (#[trigger] identity_paths@[i]).0 == layer_id ==> paths.contains_id(
                identity_paths@[i].1,
            ),
    ensures
        r == below_identity(paths@, layer_id, spec_path, identity_paths@),
{
    let spec_resolved = paths.resolve(spec_path);
    let n = identity_paths.len();
    let mut i: usize = 0;
    while i < n
        invariant
            n == identity_paths@.len(),
            i <= n,
            spec_resolved@ == paths@[spec_path.index()],
            forall|k: int|
                0 <= k < identity_paths@.len() && (#[trigger] identity_paths@[k]).0 == layer_id ==> paths.contains_id(
                    identity_paths@[k].1,
                ),
            forall|k: int|
                0 <= k < i ==> !((#[trigger] identity_paths@[k]).0 == layer_id && extends(
                    paths@[spec_path.index()],
                    paths@[identity_paths@[k].1.index()],
                ) && spec_path != identity_paths@[k].1),
        decreases n - i,
    {
        let (id_layer, id_path) = identity_paths[i];
        if layer_id == id_layer {
            let id_resolved = paths.resolve(id_path);
            if id_resolved.is_prefix_of(spec_resolved) && spec_path != id_path {
                return true;
            }
        }
        i = i + 1;
    }
    false
}


/// The strongest authored value of a flag (such as `active` or
/// `instanceable`) among opinions listed strongest first: the first one
/// present, or `None` when none is authored.
pub open spec fn strongest_flag(ops: Seq<Option<bool>>) -> Option<bool>
    decreases ops.len(),
{
    if ops.len() == 0 {
        None
    } else if ops[0] is Some {
        ops[0]
    } else {
        strongest_flag(ops.drop_first())
    }
}

/// Opinions that are all absent before `i` leave the strongest one to the
/// rest.
proof fn lemma_strongest_flag_skip(ops: Seq<Option<bool>>, i: int)
    requires
        0 <= i <= ops.len(),
        forall|k: int| 0 <= k < i ==> (#[trigger] ops[k]) is None,
    ensures
        strongest_flag(ops) == strongest_flag(ops.subrange(i, ops.len() as int)),
    decreases i,
{
    if i > 0 {
        let rest = ops.drop_first();
        assert forall|k: int| 0 <= k < i - 1 implies (#[trigger] rest[k]) is None by {
            assert(rest[k] == ops[k + 1]);
        }
        lemma_strongest_flag_skip(rest, i - 1);
        assert(rest.subrange(i - 1, rest.len() as int) =~= ops.subrange(i, ops.len() as int));
    } else {
        assert(ops.subrange(0, ops.len() as int) =~= ops);
    }
}

/// Resolves a flag from the opinions of a prim's sources, listed strongest
/// first: the strongest authored value wins.
pub fn resolve_strongest_flag(ops: &[Option<bool>]) -> (r: Option<bool>)
    ensures
        r == strongest_flag(ops@),
{
    let n = ops.len();
    let mut i: usize = 0;
    while i < n
        invariant
            n == ops@.len(),
            i <= n,
            forall|k: int| 0 <= k < i ==> (#[trigger] ops@[k]) is None,
        decreases n - i,
    {
        if let Some(v) = ops[i] {
            proof {
                lemma_strongest_flag_skip(ops@, i as int);
                let t = ops@.subrange(i as int, n as int);
                assert(t[0] == ops@[i as int]);
            }
            return Some(v);
        }
        i = i + 1;
    }
    proof {
        lemma_strongest_flag_skip(ops@, n as int);
    }
    None
}

/// Prim `i` is deactivated: the strongest `active` opinion of its sources
/// is `false`.
pub open spec fn deactivated(actives: Seq<Vec<Option<bool>>>, i: int) -> bool {
    strongest_flag(actives[i]@) == Some(false)
}

/// `q` is one of `prims` and lies at or below a deactivated one of them.
pub open spec fn pruned(
    paths: Seq<Seq<TokenId>>,
    prims: Seq<PathId>,
    actives: Seq<Vec<Option<bool>>>,
    q: PathId,
) -> bool {
    &&& prims.contains(q)
    &&& exists|i: int|
        0 <= i < prims.len() && #[trigger] deactivated(actives, i) && extends(
            paths[q.index()],
            paths[prims[i].index()],
        )
}

/// What deactivation keeps.
pub open spec fn survives(
    paths: Seq<Seq<TokenId>>,
    prims: Seq<PathId>,
    actives: Seq<Vec<Option<bool>>>,
) -> spec_fn(PathId) -> bool {
    |q: PathId| !pruned(paths, prims, actives, q)
}

/// Whether `q` (one of `prims`) lies at or below a deactivated prim, given
/// the deactivation of each prim in `flags`.
fn below_deactivated(
    paths: &PathInterner,
    prims: &[PathId],
    actives: Ghost<Seq<Vec<Option<bool>>>>,
    flags: &[bool],
    q: PathId,
) -> (r: bool)
    requires
        prims@.len() == flags@.len(),
        prims@.len() == actives@.len(),
        forall|k: int| 0 <= k < flags@.len() ==> #[trigger] flags@[k] == deactivated(actives@, k),
        forall|k: int| 0 <= k < prims@.len() ==> paths.contains_id(#[trigger] prims@[k]),
        paths.contains_id(q),
    ensures
        r == exists|i: int|
            0 <= i < prims@.len() && #[trigger] deactivated(actives@, i) && extends(
                paths@[q.index()],
                paths@[prims@[i].index()],
            ),
{
    let target = paths.resolve(q);
    let n = prims.len();
    let mut i: usize = 0;
    while i < n
        invariant
            n == prims@.len(),
            n == flags@.len(),
            i <= n,
            target@ == paths@[q.index()],
            forall|k: int| 0 <= k < flags@.len() ==> #[trigger] flags@[k] == deactivated(actives@, k),
            forall|k: int| 0 <= k < prims@.len() ==> paths.contains_id(#[trigger] prims@[k]),
            forall|k: int|
                0 <= k < i ==> !(#[trigger] deactivated(actives@, k) && extends(
                    paths@[q.index()],
                    paths@[prims@[k].index()],
                )),
        decreases n - i,
    {
        if flags[i] {
            let host = paths.resolve(prims[i]);
            if host.is_prefix_of(target) {
                proof {
                    assert(flags@[i as int] == deactivated(actives@, i as int));
                }
                return true;
            }
        }
        proof {
            assert(flags@[i as int] == deactivated(actives@, i as int));
        }
        i = i + 1;
    }
    false
}

/// Whether `q` is pruned: one of `prims`, at or below a deactivated prim.
fn is_pruned(
    paths: &PathInterner,
    prims: &[PathId],
    actives: Ghost<Seq<Vec<Option<bool>>>>,
    flags: &[bool],
    q: PathId,
) -> (r: bool)
    requires
        prims@.len() == flags@.len(),
        prims@.len() == actives@.len(),
        forall|k: int| 0 <= k < flags@.len() ==> #[trigger] flags@[k] == deactivated(actives@, k),
        forall|k: int| 0 <= k < prims@.len() ==> paths.contains_id(#[trigger] prims@[k]),
    ensures
        r == pruned(paths@, prims@, actives@, q),
{
    let n = prims.len();
    let mut j: usize = 0;
    while j < n
        invariant
            n == prims@.len(),
            j <= n,
            prims@.len() == flags@.len(),
            prims@.len() == actives@.len(),
            forall|k: int| 0 <= k < flags@.len() ==> #[trigger] flags@[k] == deactivated(actives@, k),
            forall|k: int| 0 <= k < prims@.len() ==> paths.contains_id(#[trigger] prims@[k]),
            forall|k: int| 0 <= k < j ==> #[trigger] prims@[k] != q,
        decreases n - j,
    {
        if prims[j] == q {
            proof {
                assert(prims@[j as int] == q);
            }
            return below_deactivated(paths, prims, actives, flags, q);
        }
        j = j + 1;
    }
    false
}


/// Filtering one more element of `s` appends it when it passes.
pub proof fn lemma_filter_take_step<A>(s: Seq<A>, pred: spec_fn(A) -> bool, j: int)
    requires
        0 <= j < s.len(),
    ensures
        s.take(j + 1).filter(pred) == (if pred(s[j]) {
            s.take(j).filter(pred).push(s[j])
        } else {
            s.take(j).filter(pred)
        }),
{
    reveal(Seq::filter);
    assert(s.take(j + 1).drop_last() =~= s.take(j));
    assert(s.take(j + 1).last() == s[j]);
}

/// The members of `list` that deactivation keeps, in order.
fn kept_members(
    paths: &PathInterner,
    prims: &[PathId],
    actives: Ghost<Seq<Vec<Option<bool>>>>,
    flags: &[bool],
    list: &[PathId],
) -> (r: Vec<PathId>)
    requires
        prims@.len() == flags@.len(),
        prims@.len() == actives@.len(),
        forall|k: int| 0 <= k < flags@.len() ==> #[trigger] flags@[k] == deactivated(actives@, k),
        forall|k: int| 0 <= k < prims@.len() ==> paths.contains_id(#[trigger] prims@[k]),
    ensures
        r@ == list@.filter(survives(paths@, prims@, actives@)),
{
    let ghost pred = survives(paths@, prims@, actives@);
    let mut out: Vec<PathId> = Vec::new();
    let n = list.len();
    let mut j: usize = 0;
    proof {
        reveal(Seq::filter);
        assert(list@.take(0) =~= Seq::<PathId>::empty());
    }
    while j < n
        invariant
            n == list@.len(),
            j <= n,
            prims@.len() == flags@.len(),
            prims@.len() == actives@.len(),
            forall|k: int| 0 <= k < flags@.len() ==> #[trigger] flags@[k] == deactivated(actives@, k),
            forall|k: int| 0 <= k < prims@.len() ==> paths.contains_id(#[trigger] prims@[k]),
            pred == survives(paths@, prims@, actives@),
            out@ == list@.take(j as int).filter(pred),
        decreases n - j,
    {
        let c = list[j];
        let gone = is_pruned(paths, prims, actives, flags, c);
        proof {
            lemma_filter_take_step(list@, pred, j as int);
        }
        if !gone {
            out.push(c);
        }
        j = j + 1;
    }
    proof {
        assert(list@.take(n as int) =~= list@);
    }
    out
}

/// Removes deactivated prims and their namespace descendants. `prims` lists
/// the prims of the composed index and `actives[i]` the `active` opinions
/// of the sources of `prims[i]`, strongest first; a prim is deactivated
/// when the strongest of them is `false`. Returns the prims kept, in their
/// order, and removes the pruned prims from `children`, both their own
/// entries and their places in the other lists.
pub fn prune_deactivated(
    paths: &PathInterner,
    prims: &[PathId],
    actives: &[Vec<Option<bool>>],
    children: &mut ChildrenIndex,
) -> (kept: Vec<PathId>)
    requires
        prims@.len() == actives@.len(),
        forall|k: int| 0 <= k < prims@.len() ==> paths.contains_id(#[trigger] prims@[k]),
    ensures
        kept@ == prims@.filter(survives(paths@, prims@, actives@)),
        forall|k: PathId| #[trigger]
            children_contents(*final(children)).dom().contains(k) <==> (children_contents(
                *old(children),
            ).dom().contains(k) && !pruned(paths@, prims@, actives@, k)),
        forall|k: PathId| #[trigger]
            children_contents(*final(children)).dom().contains(k) ==> children_contents(
                *final(children),
            )[k] == children_contents(*old(children))[k].filter(survives(paths@, prims@, actives@)),
{
    let ghost g = actives@;
    let n = prims.len();
    let mut flags: Vec<bool> = Vec::new();
    let mut i: usize = 0;
    while i < n
        invariant
            n == prims@.len(),
            n == actives@.len(),
            g == actives@,
            i <= n,
            flags@.len() == i,
            forall|k: int| 0 <= k < i ==> #[trigger] flags@[k] == deactivated(g, k),
        decreases n - i,
    {
        let active = resolve_strongest_flag(actives[i].as_slice());
        flags.push(active == Some(false));
        i = i + 1;
    }
    let kept = kept_members(paths, prims, Ghost(g), flags.as_slice(), prims);
    let ghost before = children_contents(*children);
    let ghost pred = survives(paths@, prims@, g);
    let keys = children_keys(children);
    let mut out = children_new();
    let m = keys.len();
    let mut j: usize = 0;
    while j < m
        invariant
            m == keys@.len(),
            j <= m,
            keys@.no_duplicates(),
            keys@.to_set() == before.dom(),
            before == children_contents(*children),
            n == prims@.len(),
            prims@.len() == flags@.len(),
            prims@.len() == g.len(),
            forall|k: int| 0 <= k < flags@.len() ==> #[trigger] flags@[k] == deactivated(g, k),
            forall|k: int| 0 <= k < prims@.len() ==> paths.contains_id(#[trigger] prims@[k]),
            pred == survives(paths@, prims@, g),
            forall|k: PathId| #[trigger]
                children_contents(out).dom().contains(k) <==> (keys@.take(j as int).contains(k)
                    && !pruned(paths@, prims@, g, k)),
            forall|k: PathId| #[trigger]
                children_contents(out).dom().contains(k) ==> children_contents(out)[k]
                    == before[k].filter(pred),
        decreases m - j,
    {
        let k = keys[j];
        let gone = is_pruned(paths, prims, Ghost(g), flags.as_slice(), k);
        let ghost out0 = children_contents(out);
        proof {
            assert(keys@.take(j + 1) =~= keys@.take(j as int).push(k));
            assert(keys@.to_set().contains(k));
            assert(!keys@.take(j as int).contains(k)) by {
                if keys@.take(j as int).contains(k) {
                    let x = choose|x: int| 0 <= x < j && keys@.take(j as int)[x] == k;
                    assert(keys@[x] == keys@[j as int]);
                }
            }
            assert(!out0.dom().contains(k));
        }
        if !gone {
            match children_get(children, k) {
                Some(list) => {
                    let filtered = kept_members(paths, prims, Ghost(g), flags.as_slice(), list.as_slice());
                    children_insert(&mut out, k, filtered);
                },
                None => {},
            }
        }
        proof {
            assert forall|x: PathId| #[trigger]
                children_contents(out).dom().contains(x) <==> (keys@.take(j + 1).contains(x)
                    && !pruned(paths@, prims@, g, x)) by {
                if x != k {
                    assert(keys@.take(j + 1).contains(x) <==> keys@.take(j as int).contains(x));
                } else {
                    assert(keys@.take(j + 1)[j as int] == k);
                }
            }
        }
        j = j + 1;
    }
    proof {
        assert(keys@.take(m as int) =~= keys@);
        assert forall|k: PathId| keys@.contains(k) <==> before.dom().contains(k) by {
            assert(keys@.to_set().contains(k) <==> keys@.contains(k));
        }
    }
    *children = out;
    kept
}


/// Deactivation removes whole subtrees: a prim survives pruning exactly
/// when it is one of the prims and lies neither at nor below a deactivated
/// prim (one whose strongest `active` opinion is `false`).
pub proof fn law_deactivation_prunes_subtrees(
    paths: Seq<Seq<TokenId>>,
    prims: Seq<PathId>,
    actives: Seq<Vec<Option<bool>>>,
    q: PathId,
)
    ensures
        prims.filter(survives(paths, prims, actives)).contains(q) <==> (prims.contains(q) && !exists|i: int|
            0 <= i < prims.len() && #[trigger] deactivated(actives, i) && extends(
                paths[q.index()],
                paths[prims[i].index()],
            )),
{
    let pred = survives(paths, prims, actives);
    let f = prims.filter(pred);
    if f.contains(q) {
        prims.lemma_filter_contains_rev(pred, q);
        let k = choose|k: int| 0 <= k < f.len() && f[k] == q;
        prims.lemma_filter_pred(pred, k);
    }
    if prims.contains(q) && !pruned(paths, prims, actives, q) {
        let k = choose|k: int| 0 <= k < prims.len() && prims[k] == q;
        prims.lemma_filter_contains(pred, k);
    }
}


/// A source through which an instance gets shared contents: a non-local
/// reference, payload or inherit.
pub open spec fn instancing_arc(k: OpinionKey) -> bool {
    &&& !k.is_local
    &&& (k.arc_kind == ArcKind::References || k.arc_kind == ArcKind::Payloads || k.arc_kind
        == ArcKind::Inherits)
}

/// The identity paths among the first `n` sources: the `(layer, path)` of
/// each local source and of each source whose spec says `instanceable =
/// true`, in source order.
pub open spec fn identity_prefix(sources: Seq<OpinionKey>, insts: Seq<Option<bool>>, n: int) -> Seq<
    (LayerId, PathId),
>
    decreases n,
{
    if n <= 0 {
        Seq::empty()
    } else {
        let prev = identity_prefix(sources, insts, n - 1);
        let k = sources[n - 1];
        if k.is_local || insts[n - 1] == Some(true) {
            prev.push((k.layer_id, k.spec_path))
        } else {
            prev
        }
    }
}

/// The identity paths of a prim that is an effective instance: its
/// strongest `instanceable` opinion is `true`, it has an instancing arc,
/// and it has at least one identity path. `None` for any other prim.
/// `sources` are the prim's sources, strongest first, and `insts[i]` the
/// `instanceable` opinion of the spec behind `sources[i]`.
pub open spec fn instance_identity(sources: Seq<OpinionKey>, insts: Seq<Option<bool>>) -> Option<
    Seq<(LayerId, PathId)>,
> {
    let ids = identity_prefix(sources, insts, sources.len() as int);
    if strongest_flag(insts) == Some(true) && (exists|i: int|
        0 <= i < sources.len() && instancing_arc(#[trigger] sources[i])) && ids.len() > 0 {
        Some(ids)
    } else {
        None
    }
}

/// Decides whether a prim is an effective instance and, if so, collects its
/// identity paths (the local sources and the sources authored
/// `instanceable = true`, in source order).
pub fn instance_identity_paths(sources: &[OpinionKey], insts: &[Option<bool>]) -> (r: Option<
    Vec<(LayerId, PathId)>,
>)
    requires
        sources@.len() == insts@.len(),
    ensures
        r is Some <==> instance_identity(sources@, insts@) is Some,
        r matches Some(v) ==> instance_identity(sources@, insts@) == Some(v@),
{
    let instanceable = resolve_strongest_flag(insts);
    if instanceable != Some(true) {
        return None;
    }
    let n = sources.len();
    let mut has_arcs = false;
    let mut i: usize = 0;
    while i < n
        invariant
            n == sources@.len(),
            i <= n,
            has_arcs <==> exists|k: int| 0 <= k < i && instancing_arc(#[trigger] sources@[k]),
        decreases n - i,
    {
        let k = sources[i];
        let arc = match k.arc_kind {
            ArcKind::References => true,
            ArcKind::Payloads => true,
            ArcKind::Inherits => true,
            _ => false,
        };
        if arc && !k.is_local {
            has_arcs = true;
        }
        proof {
            assert(sources@[i as int] == k);
            if has_arcs && !(exists|q: int| 0 <= q < i && instancing_arc(#[trigger] sources@[q])) {
                assert(instancing_arc(sources@[i as int]));
            }
        }
        i = i + 1;
    }
    if !has_arcs {
        return None;
    }
    let mut ids: Vec<(LayerId, PathId)> = Vec::new();
    let mut j: usize = 0;
    while j < n
        invariant
            n == sources@.len(),
            n == insts@.len(),
            j <= n,
            ids@ == identity_prefix(sources@, insts@, j as int),
        decreases n - j,
    {
        let k = sources[j];
        if k.is_local || insts[j] == Some(true) {
            ids.push((k.layer_id, k.spec_path));
        }
        j = j + 1;
    }
    if ids.len() == 0 {
        return None;
    }
    Some(ids)
}

/// What stripping an instance's descendant keeps of its sources: every
/// non-local source, and each local one not strictly below an identity
/// path of its layer.
pub open spec fn keeps_source(paths: Seq<Seq<TokenId>>, identity: Seq<(LayerId, PathId)>) -> spec_fn(
    OpinionKey,
) -> bool {
    |k: OpinionKey| !k.is_local || !below_identity(paths, k.layer_id, k.spec_path, identity)
}

/// Strips from a descendant of an instance the local sources that lie
/// strictly below an identity path of the instance; variant, inherit and
/// reference sources survive.
pub fn strip_identity_local_sources(
    paths: &PathInterner,
    sources: &mut Vec<OpinionKey>,
    identity: &[(LayerId, PathId)],
)
    requires
        forall|i: int|
            0 <= i < old(sources)@.len() && (#[trigger] old(sources)@[i]).is_local ==> paths.contains_id(
                old(sources)@[i].spec_path,
            ),
        forall|i: int| 0 <= i < identity@.len() ==> paths.contains_id((#[trigger] identity@[i]).1),
    ensures
        final(sources)@ == old(sources)@.filter(keeps_source(paths@, identity@)),
{
    let ghost pred = keeps_source(paths@, identity@);
    let ghost before = sources@;
    let mut out: Vec<OpinionKey> = Vec::new();
    let n = sources.len();
    let mut j: usize = 0;
    proof {
        reveal(Seq::filter);
        assert(before.take(0) =~= Seq::<OpinionKey>::empty());
    }
    while j < n
        invariant
            n == before.len(),
            before == sources@,
            j <= n,
            pred == keeps_source(paths@, identity@),
            forall|i: int|
                0 <= i < before.len() && (#[trigger] before[i]).is_local ==> paths.contains_id(
                    before[i].spec_path,
                ),
            forall|i: int| 0 <= i < identity@.len() ==> paths.contains_id((#[trigger] identity@[i]).1),
            out@ == before.take(j as int).filter(pred),
        decreases n - j,
    {
        let k = sources[j];
        proof {
            lemma_filter_take_step(before, pred, j as int);
            assert(before[j as int] == k);
        }
        if !k.is_local {
            out.push(k);
        } else if !is_identity_descendant(paths, k.layer_id, k.spec_path, identity) {
            out.push(k);
        }
        j = j + 1;
    }
    proof {
        assert(before.take(n as int) =~= before);
    }
    *sources = out;
}


/// `t` is one of `names`.
fn contains_token(names: &[TokenId], t: TokenId) -> (r: bool)
    ensures
        r == names@.contains(t),
{
    let n = names.len();
    let mut i: usize = 0;
    while i < n
        invariant
            n == names@.len(),
            i <= n,
            forall|k: int| 0 <= k < i ==> #[trigger] names@[k] != t,
        decreases n - i,
    {
        if names[i] == t {
            proof {
                assert(names@[i as int] == t);
            }
            return true;
        }
        i = i + 1;
    }
    false
}

/// The children an instance keeps: those whose name (leaf segment) is one
/// of `names`.
pub open spec fn named_in(paths: Seq<Seq<TokenId>>, names: Seq<TokenId>) -> spec_fn(PathId) -> bool {
    |c: PathId| paths[c.index()].len() > 0 && names.contains(paths[c.index()].last())
}

/// Strips from an instance's child list the children whose name is not
/// among `names` (the children some non-identity source introduces).
pub fn retain_named_children(paths: &PathInterner, child_list: &mut Vec<PathId>, names: &[TokenId])
    requires
        forall|i: int| 0 <= i < old(child_list)@.len() ==> paths.contains_id(#[trigger] old(child_list)@[i]),
    ensures
        final(child_list)@ == old(child_list)@.filter(named_in(paths@, names@)),
{
    let ghost pred = named_in(paths@, names@);
    let ghost before = child_list@;
    let mut out: Vec<PathId> = Vec::new();
    let n = child_list.len();
    let mut j: usize = 0;
    proof {
        reveal(Seq::filter);
        assert(before.take(0) =~= Seq::<PathId>::empty());
    }
    while j < n
        invariant
            n == before.len(),
            before == child_list@,
            j <= n,
            pred == named_in(paths@, names@),
            forall|i: int| 0 <= i < before.len() ==> paths.contains_id(#[trigger] before[i]),
            out@ == before.take(j as int).filter(pred),
        decreases n - j,
    {
        let c = child_list[j];
        proof {
            lemma_filter_take_step(before, pred, j as int);
            assert(before[j as int] == c);
        }
        match paths.resolve(c).leaf() {
            Some(name) => {
                if contains_token(names, name) {
                    out.push(c);
                }
            },
            None => {},
        }
        j = j + 1;
    }
    proof {
        assert(before.take(n as int) =~= before);
    }
    *child_list = out;
}

/// `k` comes from an identity source of the instance.
pub open spec fn from_identity(identity: Seq<(LayerId, PathId)>, k: OpinionKey) -> bool {
    identity.contains((k.layer_id, k.spec_path))
}

/// `t` is a child some non-identity opinion among `opinions` authors.
pub open spec fn non_identity_child(
    opinions: Seq<(OpinionKey, Vec<TokenId>)>,
    identity: Seq<(LayerId, PathId)>,
    t: TokenId,
) -> bool {
    exists|i: int|
        0 <= i < opinions.len() && !from_identity(identity, #[trigger] opinions[i].0)
            && opinions[i].1@.contains(t)
}

/// `(layer, path)` is one of `identity`.
fn contains_identity(identity: &[(LayerId, PathId)], layer: LayerId, path: PathId) -> (r: bool)
    ensures
        r == identity@.contains((layer, path)),
{
    let n = identity.len();
    let mut i: usize = 0;
    while i < n
        invariant
            n == identity@.len(),
            i <= n,
            forall|k: int| 0 <= k < i ==> #[trigger] identity@[k] != (layer, path),
        decreases n - i,
    {
        let (l, p) = identity[i];
        if l == layer && p == path {
            proof {
                assert(identity@[i as int] == (layer, path));
            }
            return true;
        }
        i = i + 1;
    }
    false
}

/// The names of the children that opinions from non-identity sources of an
/// instance author, each once: the children that survive instancing.
pub fn non_identity_child_names(
    opinions: &[(OpinionKey, Vec<TokenId>)],
    identity: &[(LayerId, PathId)],
) -> (r: Vec<TokenId>)
    ensures
        r@.no_duplicates(),
        forall|t: TokenId| r@.contains(t) <==> non_identity_child(opinions@, identity@, t),
{
    let mut out: Vec<TokenId> = Vec::new();
    let n = opinions.len();
    let mut i: usize = 0;
    while i < n
        invariant
            n == opinions@.len(),
            i <= n,
            out@.no_duplicates(),
            forall|t: TokenId|
                #[trigger] out@.contains(t) <==> exists|k: int|
                    0 <= k < i && !from_identity(identity@, #[trigger] opinions@[k].0)
                        && opinions@[k].1@.contains(t),
        decreases n - i,
    {
        let key = opinions[i].0;
        let names = &opinions[i].1;
        let ghost out_i = out@;
        let is_id = contains_identity(identity, key.layer_id, key.spec_path);
        if !is_id {
            let m = names.len();
            let mut j: usize = 0;
            while j < m
                invariant
                    m == names@.len(),
                    j <= m,
                    out@.no_duplicates(),
                    forall|u: TokenId|
                        #[trigger] out@.contains(u) <==> (out_i.contains(u) || names@.take(
                            j as int,
                        ).contains(u)),
                decreases m - j,
            {
                let t = names[j];
                let ghost o = out@;
                proof {
                    assert(names@.take(j + 1) =~= names@.take(j as int).push(t));
                }
                if !contains_token(out.as_slice(), t) {
                    out.push(t);
                    proof {
                        assert forall|x: int, y: int|
                            0 <= x < out@.len() && 0 <= y < out@.len() && x != y implies out@[x]
                            != out@[y] by {
                            if x < o.len() && y < o.len() {
                                assert(o[x] != o[y]);
                            } else if x == o.len() {
                                assert(out@[y] == o[y]);
                                assert(o.contains(o[y]));
                            } else {
                                assert(out@[x] == o[x]);
                                assert(o.contains(o[x]));
                            }
                        }
                        assert forall|u: TokenId| #[trigger] out@.contains(u) <==> (out_i.contains(u)
                            || names@.take(j + 1).contains(u)) by {
                            assert(o.contains(u) == (out_i.contains(u) || names@.take(j as int).contains(u)));
                            vstd::seq_lib::lemma_seq_contains_after_push(o, t, u);
                            vstd::seq_lib::lemma_seq_contains_after_push(names@.take(j as int), t, u);
                        }
                    }
                } else {
                    proof {
                        assert forall|u: TokenId| #[trigger] out@.contains(u) <==> (out_i.contains(u)
                            || names@.take(j + 1).contains(u)) by {
                            assert(o.contains(u) == (out_i.contains(u) || names@.take(j as int).contains(u)));
                            vstd::seq_lib::lemma_seq_contains_after_push(names@.take(j as int), t, u);
                        }
                    }
                }
                j = j + 1;
            }
            proof {
                assert(names@.take(m as int) =~= names@);
            }
        }
        proof {
            assert(opinions@[i as int].0 == key);
            assert(opinions@[i as int].1@ == names@);
            assert(is_id == from_identity(identity@, key));
            assert forall|t: TokenId|
                #[trigger] out@.contains(t) <==> exists|k: int|
                    0 <= k < i + 1 && !from_identity(identity@, #[trigger] opinions@[k].0)
                        && opinions@[k].1@.contains(t) by {
                assert(out_i.contains(t) <==> exists|k: int|
                    0 <= k < i && !from_identity(identity@, #[trigger] opinions@[k].0)
                        && opinions@[k].1@.contains(t));
                if !is_id {
                    assert(out@.contains(t) <==> (out_i.contains(t) || names@.contains(t)));
                }
                if exists|k: int|
                    0 <= k < i + 1 && !from_identity(identity@, #[trigger] opinions@[k].0)
                        && opinions@[k].1@.contains(t) {
                    let k = choose|k: int|
                        0 <= k < i + 1 && !from_identity(identity@, #[trigger] opinions@[k].0)
                            && opinions@[k].1@.contains(t);
                    if k < i {
                        assert(out_i.contains(t));
                    }
                }
            }
        }
        i = i + 1;
    }
    out
}


/// The child of `ip` on the way down to `dp` (which lies strictly below it).
pub open spec fn child_toward(ip: Seq<TokenId>, dp: Seq<TokenId>) -> Seq<TokenId> {
    ip.push(dp[ip.len() as int])
}

/// A prim strictly below the instance is cut when the child of the
/// instance on its way down is an interned path that is not among the
/// surviving children.
pub open spec fn cut_below(paths: Seq<Seq<TokenId>>, inst: PathId, surviving: Seq<PathId>) -> spec_fn(
    PathId,
) -> bool {
    |d: PathId|
        {
            let ip = paths[inst.index()];
            let dp = paths[d.index()];
            &&& extends(dp, ip)
            &&& dp.len() > ip.len()
            &&& paths.contains(child_toward(ip, dp))
            &&& !(exists|k: int|
                0 <= k < surviving.len() && paths[(#[trigger] surviving[k]).index()] == child_toward(
                    ip,
                    dp,
                ))
        }
}

/// The prims of `prims` that instancing removes below `inst`: those whose
/// child of the instance on the way down was stripped (is not among
/// `surviving`, the instance's remaining children).
pub fn stripped_subtrees(paths: &PathInterner, inst: PathId, prims: &[PathId], surviving: &[PathId]) -> (r:
    Vec<PathId>)
    requires
        paths.contains_id(inst),
        forall|k: int| 0 <= k < prims@.len() ==> paths.contains_id(#[trigger] prims@[k]),
        forall|k: int| 0 <= k < surviving@.len() ==> paths.contains_id(#[trigger] surviving@[k]),
    ensures
        r@ == prims@.filter(cut_below(paths@, inst, surviving@)),
{
    let ghost pred = cut_below(paths@, inst, surviving@);
    let ip = paths.resolve(inst);
    let mut out: Vec<PathId> = Vec::new();
    let n = prims.len();
    let mut j: usize = 0;
    proof {
        reveal(Seq::filter);
        assert(prims@.take(0) =~= Seq::<PathId>::empty());
    }
    while j < n
        invariant
            n == prims@.len(),
            j <= n,
            ip@ == paths@[inst.index()],
            pred == cut_below(paths@, inst, surviving@),
            forall|k: int| 0 <= k < prims@.len() ==> paths.contains_id(#[trigger] prims@[k]),
            forall|k: int| 0 <= k < surviving@.len() ==> paths.contains_id(#[trigger] surviving@[k]),
            out@ == prims@.take(j as int).filter(pred),
        decreases n - j,
    {
        let d = prims[j];
        proof {
            lemma_filter_take_step(prims@, pred, j as int);
        }
        let dp = paths.resolve(d);
        let mut cut = false;
        match dp.strip_prefix(ip) {
            Some(rel) => {
                if rel.len() > 0 {
                    let child = ip.join(&[rel[0]]);
                    proof {
                        assert(rel@[0] == paths@[d.index()][ip@.len() as int]);
                        assert(child@ == child_toward(ip@, dp@));
                    }
                    match paths.lookup(&child) {
                        Some(cid) => {
                            let m = surviving.len();
                            let mut found = false;
                            let mut k: usize = 0;
                            while k < m
                                invariant
                                    m == surviving@.len(),
                                    k <= m,
                                    paths@.no_duplicates(),
                                    paths.contains_id(cid),
                                    paths@[cid.index()] == child@,
                                    forall|q: int| 0 <= q < surviving@.len() ==> paths.contains_id(#[trigger] surviving@[q]),
                                    found <==> exists|q: int| 0 <= q < k && paths@[(#[trigger] surviving@[q]).index()] == child@,
                                decreases m - k,
                            {
                                if surviving[k] == cid {
                                    found = true;
                                }
                                proof {
                                    let sk = surviving@[k as int];
                                    if paths@[sk.index()] == child@ {
                                        // The interner holds each path once.
                                        assert(sk.index() == cid.index());
                                        crate::path::lemma_path_id_index_injective(sk, cid);
                                    }
                                }
                                k = k + 1;
                            }
                            cut = !found;
                            proof {
                                assert(paths@.contains(child@)) by {
                                    assert(paths@[cid.index()] == child@);
                                }
                            }
                        },
                        None => {},
                    }
                }
            },
            None => {},
        }
        if cut {
            out.push(d);
        }
        j = j + 1;
    }
    proof {
        assert(prims@.take(n as int) =~= prims@);
    }
    out
}

/// A stack position as a layer strength, saturating at the largest `u16`.
pub open spec fn strength_at(pos: int) -> u16 {
    if pos <= u16::MAX {
        pos as u16
    } else {
        u16::MAX
    }
}

/// The key of a local opinion on `path` from the layer at stack position
/// `pos`.
pub open spec fn local_key(layer: LayerId, pos: int, depth: u16, path: PathId) -> OpinionKey {
    OpinionKey {
        is_local: true,
        arc_kind: ArcKind::Local,
        nested_arc_kind: None,
        namespace_depth: depth,
        authored: true,
        arc_list_index: 0,
        layer_strength: strength_at(pos),
        layer_id: layer,
        spec_path: path,
    }
}

/// The local sources of `path` among the first `i` layers of the stack:
/// one key per layer that the store holds and that has a spec for `path`,
/// in stack order.
pub open spec fn local_sources(
    layers: Map<u64, Layer>,
    stack: Seq<LayerId>,
    path: PathId,
    depth: u16,
    i: int,
) -> Seq<OpinionKey>
    decreases i,
{
    if i <= 0 {
        Seq::empty()
    } else {
        let prev = local_sources(layers, stack, path, depth, i - 1);
        let id = stack[i - 1];
        if layers.dom().contains(id.0) && layer_prims(layers[id.0]).dom().contains(path) {
            prev.push(local_key(id, i - 1, depth, path))
        } else {
            prev
        }
    }
}

/// The local authored-children opinions of `path` among the first `i`
/// layers: for each layer whose spec for `path` names children, its key and
/// those names.
pub open spec fn local_children(
    layers: Map<u64, Layer>,
    stack: Seq<LayerId>,
    path: PathId,
    depth: u16,
    i: int,
) -> Seq<(OpinionKey, Seq<TokenId>)>
    decreases i,
{
    if i <= 0 {
        Seq::empty()
    } else {
        let prev = local_children(layers, stack, path, depth, i - 1);
        let id = stack[i - 1];
        if layers.dom().contains(id.0) && layer_prims(layers[id.0]).dom().contains(path)
            && layer_prims(layers[id.0])[path].authored_children@.len() > 0 {
            prev.push((local_key(id, i - 1, depth, path), layer_prims(layers[id.0])[path].authored_children@))
        } else {
            prev
        }
    }
}

/// The local `reorder nameChildren` opinions of `path` among the first `i`
/// layers: for each layer whose spec for `path` authors one, its key and
/// the names.
pub open spec fn local_orders(
    layers: Map<u64, Layer>,
    stack: Seq<LayerId>,
    path: PathId,
    depth: u16,
    i: int,
) -> Seq<(OpinionKey, Seq<TokenId>)>
    decreases i,
{
    if i <= 0 {
        Seq::empty()
    } else {
        let prev = local_orders(layers, stack, path, depth, i - 1);
        let id = stack[i - 1];
        if layers.dom().contains(id.0) && layer_prims(layers[id.0]).dom().contains(path)
            && layer_prims(layers[id.0])[path].prim_order is Some {
            prev.push((local_key(id, i - 1, depth, path), layer_prims(layers[id.0])[path].prim_order->0@))
        } else {
            prev
        }
    }
}

/// The views of a list of `(key, names)` opinions.
pub open spec fn opinion_views(ops: Seq<(OpinionKey, Vec<TokenId>)>) -> Seq<(OpinionKey, Seq<TokenId>)> {
    ops.map_values(|o: (OpinionKey, Vec<TokenId>)| (o.0, o.1@))
}

/// The local opinions the layer stack authors for one prim.
pub struct LocalOpinions {
    /// One source per layer with a spec for the prim, strongest first.
    pub sources: Vec<OpinionKey>,
    /// The authored-children opinions, strongest first.
    pub authored_children: Vec<(OpinionKey, Vec<TokenId>)>,
    /// The `reorder nameChildren` opinions, strongest first.
    pub prim_orders: Vec<(OpinionKey, Vec<TokenId>)>,
}

/// Gathers the local opinions of `path` (at namespace depth `depth`) from
/// the layers of `stack`, strongest first: a local source for each layer
/// with a spec for the prim, and the authored children and child orders
/// those specs carry, each keyed by its layer's stack position.
pub fn local_opinions_for_prim(store: &InMemoryStore, stack: &[LayerId], path: PathId, depth: u16) -> (r:
    LocalOpinions)
    ensures
        r.sources@ == local_sources(store_layers(*store), stack@, path, depth, stack@.len() as int),
        opinion_views(r.authored_children@) == local_children(store_layers(*store), stack@, path, depth, stack@.len() as int),
        opinion_views(r.prim_orders@) == local_orders(store_layers(*store), stack@, path, depth, stack@.len() as int),
{
    let ghost layers = store_layers(*store);
    let mut sources: Vec<OpinionKey> = Vec::new();
    let mut children: Vec<(OpinionKey, Vec<TokenId>)> = Vec::new();
    let mut orders: Vec<(OpinionKey, Vec<TokenId>)> = Vec::new();
    let n = stack.len();
    let mut i: usize = 0;
    while i < n
        invariant
            n == stack@.len(),
            i <= n,
            layers == store_layers(*store),
            sources@ == local_sources(layers, stack@, path, depth, i as int),
            opinion_views(children@) == local_children(layers, stack@, path, depth, i as int),
            opinion_views(orders@) == local_orders(layers, stack@, path, depth, i as int),
        decreases n - i,
    {
        let id = stack[i];
        let strength: u16 = if i <= 65535 { i as u16 } else { 65535 };
        match store.layer(id) {
            Some(layer) => match layer.prim(path) {
                Some(spec) => {
                    let key = OpinionKey {
                        is_local: true,
                        arc_kind: ArcKind::Local,
                        nested_arc_kind: None,
                        namespace_depth: depth,
                        authored: true,
                        arc_list_index: 0,
                        layer_strength: strength,
                        layer_id: id,
                        spec_path: path,
                    };
                    proof {
                        assert(key == local_key(id, i as int, depth, path));
                    }
                    sources.push(key);
                    if spec.authored_children.len() > 0 {
                        let names = crate::listop::concat(spec.authored_children.as_slice(), &[]);
                        let ghost c0 = children@;
                        children.push((key, names));
                        proof {
                            assert(children@.drop_last() == c0);
                            assert(opinion_views(children@) =~= opinion_views(c0).push((key, names@)));
                        }
                    }
                    match &spec.prim_order {
                        Some(order) => {
                            let names = crate::listop::concat(order.as_slice(), &[]);
                            let ghost o0 = orders@;
                            orders.push((key, names));
                            proof {
                                assert(opinion_views(orders@) =~= opinion_views(o0).push((key, names@)));
                            }
                        },
                        None => {},
                    }
                },
                None => {},
            },
            None => {},
        }
        i = i + 1;
    }
    LocalOpinions { sources, authored_children: children, prim_orders: orders }
}

/// The `instanceable` opinions of a prim's sources, read from the store.
pub open spec fn source_instanceables(layers: Map<u64, Layer>, sources: Seq<OpinionKey>) -> Seq<Option<bool>> {
    Seq::new(sources.len(), |i: int| source_flag(layers, sources[i], SpecFlag::Instanceable))
}

/// Decides from the store whether a prim with the given sources (strongest
/// first) is an effective instance, and if so collects its identity paths.
pub fn store_instance_identity(store: &InMemoryStore, sources: &[OpinionKey]) -> (r: Option<Vec<(LayerId, PathId)>>)
    ensures
        r is Some <==> instance_identity(sources@, source_instanceables(store_layers(*store), sources@)) is Some,
        r matches Some(v) ==> instance_identity(sources@, source_instanceables(store_layers(*store), sources@))
            == Some(v@),
{
    let flags = source_flags(store, sources, SpecFlag::Instanceable);
    proof {
        assert(flags@ =~= source_instanceables(store_layers(*store), sources@));
    }
    instance_identity_paths(sources, flags.as_slice())
}

/// Removes deactivated prims and their descendants, reading each prim's
/// `active` opinions from the store through its sources (`sources[i]` are
/// the sources of `prims[i]`, strongest first). Returns the prims kept.
pub fn prune_deactivated_in_store(
    store: &InMemoryStore,
    prims: &[PathId],
    sources: &[Vec<OpinionKey>],
    children: &mut ChildrenIndex,
) -> (kept: Vec<PathId>)
    requires
        prims@.len() == sources@.len(),
        forall|k: int| 0 <= k < prims@.len() ==> store.paths.contains_id(#[trigger] prims@[k]),
    ensures
        exists|actives: Seq<Vec<Option<bool>>>|
            {
                &&& actives.len() == prims@.len()
                &&& forall|i: int|
                    0 <= i < prims@.len() ==> (#[trigger] actives[i])@.len() == sources@[i]@.len() && forall|j: int|
                        0 <= j < sources@[i]@.len() ==> actives[i]@[j] == source_flag(
                            store_layers(*store),
                            sources@[i]@[j],
                            SpecFlag::Active,
                        )
                &&& kept@ == prims@.filter(survives(store.paths@, prims@, actives))
                &&& forall|k: PathId| #[trigger]
                    children_contents(*final(children)).dom().contains(k) <==> (children_contents(
                        *old(children),
                    ).dom().contains(k) && !pruned(store.paths@, prims@, actives, k))
                &&& forall|k: PathId| #[trigger]
                    children_contents(*final(children)).dom().contains(k) ==> children_contents(
                        *final(children),
                    )[k] == children_contents(*old(children))[k].filter(survives(store.paths@, prims@, actives))
            },
{
    let mut actives: Vec<Vec<Option<bool>>> = Vec::new();
    let n = sources.len();
    let mut i: usize = 0;
    while i < n
        invariant
            n == sources@.len(),
            i <= n,
            actives@.len() == i,
            forall|a: int|
                0 <= a < i ==> (#[trigger] actives@[a])@.len() == sources@[a]@.len() && forall|j: int|
                    0 <= j < sources@[a]@.len() ==> actives@[a]@[j] == source_flag(
                        store_layers(*store),
                        sources@[a]@[j],
                        SpecFlag::Active,
                    ),
        decreases n - i,
    {
        let flags = source_flags(store, sources[i].as_slice(), SpecFlag::Active);
        actives.push(flags);
        i = i + 1;
    }
    let kept = prune_deactivated(&store.paths, prims, actives.as_slice(), children);
    proof {
        let a = actives@;
        assert(a.len() == prims@.len());
    }
    kept
}

/// The namespace depth of a path with `n` segments, saturating at the
/// largest `u16`.
pub open spec fn depth_of(n: int) -> u16 {
    if n <= u16::MAX {
        n as u16
    } else {
        u16::MAX
    }
}

/// The opinions a map holds for `p`, as views (none when it holds no entry).
pub open spec fn opinion_list(t: OpinionsByPrim, p: PathId) -> Seq<(OpinionKey, Seq<TokenId>)> {
    if opinions_contents(t).dom().contains(p) {
        opinion_views(opinions_contents(t)[p])
    } else {
        Seq::empty()
    }
}

/// Adds the local opinions of each prim of `prims` (distinct, interned):
/// returns the local sources of each, strongest first, and appends to
/// `authored_out` and `order_out` the authored-children and child-order
/// opinions of each prim that has any.
pub fn add_local_opinions(
    store: &InMemoryStore,
    stack: &[LayerId],
    prims: &[PathId],
    authored_out: &mut OpinionsByPrim,
    order_out: &mut OpinionsByPrim,
) -> (r: Vec<Vec<OpinionKey>>)
    requires
        prims@.no_duplicates(),
        forall|i: int| 0 <= i < prims@.len() ==> store.paths.contains_id(#[trigger] prims@[i]),
    ensures
        r@.len() == prims@.len(),
        forall|i: int|
            0 <= i < prims@.len() ==> (#[trigger] r@[i])@ == local_sources(
                store_layers(*store),
                stack@,
                prims@[i],
                depth_of(store.paths@[prims@[i].index()].len() as int),
                stack@.len() as int,
            ),
        forall|p: PathId| !prims@.contains(p) ==> #[trigger] opinion_list(*final(authored_out), p) == opinion_list(*old(authored_out), p),
        forall|p: PathId| !prims@.contains(p) ==> #[trigger] opinion_list(*final(order_out), p) == opinion_list(*old(order_out), p),
        forall|i: int|
            0 <= i < prims@.len() ==> #[trigger] opinion_list(*final(authored_out), prims@[i]) == opinion_list(
                *old(authored_out),
                prims@[i],
            ) + local_children(
                store_layers(*store),
                stack@,
                prims@[i],
                depth_of(store.paths@[prims@[i].index()].len() as int),
                stack@.len() as int,
            ),
        forall|i: int|
            0 <= i < prims@.len() ==> #[trigger] opinion_list(*final(order_out), prims@[i]) == opinion_list(
                *old(order_out),
                prims@[i],
            ) + local_orders(
                store_layers(*store),
                stack@,
                prims@[i],
                depth_of(store.paths@[prims@[i].index()].len() as int),
                stack@.len() as int,
            ),
{
    let ghost layers = store_layers(*store);
    let ghost a0 = *authored_out;
    let ghost o0 = *order_out;
    let mut out: Vec<Vec<OpinionKey>> = Vec::new();
    let n = prims.len();
    let mut i: usize = 0;
    while i < n
        invariant
            n == prims@.len(),
            i <= n,
            layers == store_layers(*store),
            prims@.no_duplicates(),
            forall|j: int| 0 <= j < prims@.len() ==> store.paths.contains_id(#[trigger] prims@[j]),
            out@.len() == i,
            forall|j: int|
                0 <= j < i ==> (#[trigger] out@[j])@ == local_sources(
                    layers,
                    stack@,
                    prims@[j],
                    depth_of(store.paths@[prims@[j].index()].len() as int),
                    stack@.len() as int,
                ),
            forall|p: PathId| !prims@.take(i as int).contains(p) ==> #[trigger] opinion_list(*authored_out, p) == opinion_list(a0, p),
            forall|p: PathId| !prims@.take(i as int).contains(p) ==> #[trigger] opinion_list(*order_out, p) == opinion_list(o0, p),
            forall|j: int|
                0 <= j < i ==> #[trigger] opinion_list(*authored_out, prims@[j]) == opinion_list(a0, prims@[j]) + local_children(
                    layers,
                    stack@,
                    prims@[j],
                    depth_of(store.paths@[prims@[j].index()].len() as int),
                    stack@.len() as int,
                ),
            forall|j: int|
                0 <= j < i ==> #[trigger] opinion_list(*order_out, prims@[j]) == opinion_list(o0, prims@[j]) + local_orders(
                    layers,
                    stack@,
                    prims@[j],
                    depth_of(store.paths@[prims@[j].index()].len() as int),
                    stack@.len() as int,
                ),
        decreases n - i,
    {
        let p = prims[i];
        let d = store.paths.resolve(p).depth();
        let depth: u16 = if d <= 65535 { d as u16 } else { 65535 };
        let local = local_opinions_for_prim(store, stack, p, depth);
        let ghost lc = local_children(layers, stack@, p, depth, stack@.len() as int);
        let ghost lo = local_orders(layers, stack@, p, depth, stack@.len() as int);
        proof {
            assert(!prims@.take(i as int).contains(p)) by {
                if prims@.take(i as int).contains(p) {
                    let q = choose|q: int| 0 <= q < i && prims@.take(i as int)[q] == p;
                    assert(prims@[q] == prims@[i as int]);
                }
            }
            assert(prims@.take(i + 1) =~= prims@.take(i as int).push(p));
        }
        push_all(authored_out, p, local.authored_children);
        push_all(order_out, p, local.prim_orders);
        out.push(local.sources);
        proof {
            assert forall|q: PathId| !prims@.take(i + 1).contains(q) implies #[trigger] opinion_list(*authored_out, q) == opinion_list(a0, q) by {
                vstd::seq_lib::lemma_seq_contains_after_push(prims@.take(i as int), p, q);
            }
            assert forall|q: PathId| !prims@.take(i + 1).contains(q) implies #[trigger] opinion_list(*order_out, q) == opinion_list(o0, q) by {
                vstd::seq_lib::lemma_seq_contains_after_push(prims@.take(i as int), p, q);
            }
            assert forall|j: int| 0 <= j < i + 1 implies #[trigger] opinion_list(*authored_out, prims@[j]) == opinion_list(a0, prims@[j]) + local_children(
                layers,
                stack@,
                prims@[j],
                depth_of(store.paths@[prims@[j].index()].len() as int),
                stack@.len() as int,
            ) by {
                if j < i {
                    assert(prims@[j] != p);
                }
            }
            assert forall|j: int| 0 <= j < i + 1 implies #[trigger] opinion_list(*order_out, prims@[j]) == opinion_list(o0, prims@[j]) + local_orders(
                layers,
                stack@,
                prims@[j],
                depth_of(store.paths@[prims@[j].index()].len() as int),
                stack@.len() as int,
            ) by {
                if j < i {
                    assert(prims@[j] != p);
                }
            }
        }
        i = i + 1;
    }
    proof {
        assert(prims@.take(n as int) =~= prims@);
    }
    out
}

/// Appends each of `ops` to the list of `p`, in order.
fn push_all(t: &mut OpinionsByPrim, p: PathId, ops: Vec<(OpinionKey, Vec<TokenId>)>)
    ensures
        forall|q: PathId| q != p ==> #[trigger] opinion_list(*final(t), q) == opinion_list(*old(t), q),
        opinion_list(*final(t), p) == opinion_list(*old(t), p) + opinion_views(ops@),
{
    let ghost all = ops@;
    let mut ops = ops;
    let mut rest: Vec<(OpinionKey, Vec<TokenId>)> = Vec::new();
    // Take the opinions out in reverse, then push them back in order.
    while ops.len() > 0
        invariant
            all == ops@ + rest@.reverse(),
        decreases ops.len(),
    {
        let x = ops.pop().unwrap();
        let ghost r0 = rest@;
        rest.push(x);
        proof {
            assert(rest@.reverse() =~= seq![x] + r0.reverse());
        }
    }
    let ghost t0 = *t;
    let ghost done: Seq<(OpinionKey, Vec<TokenId>)> = Seq::empty();
    while rest.len() > 0
        invariant
            all == done + rest@.reverse(),
            forall|q: PathId| q != p ==> #[trigger] opinion_list(*t, q) == opinion_list(t0, q),
            opinion_list(*t, p) == opinion_list(t0, p) + opinion_views(done),
        decreases rest.len(),
    {
        let x = rest.pop().unwrap();
        let ghost before = *t;
        t.push(p, x);
        proof {
            assert(opinion_views(done.push(x)) =~= opinion_views(done).push((x.0, x.1@)));
            assert(opinion_list(*t, p) =~= opinion_list(before, p).push((x.0, x.1@)));
            assert forall|q: PathId| q != p implies #[trigger] opinion_list(*t, q) == opinion_list(before, q) by {}
            done = done.push(x);
        }
    }
    proof {
        assert(done =~= all);
    }
}

} // verus!

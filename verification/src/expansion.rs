//! Growing the populated prims across composition arcs: an arc from a
//! destination root to a source root populates, under the destination, the
//! place of every prim its layer stack authors under the source.
use crate::arcs::{authored_in_stack, resolve_inherits_for_prim, resolve_specializes_for_prim, resolved_arc, stack_prim_paths, PathArc};
use crate::doc::LayerId;
use crate::edges::stack_layers_of;
use crate::interner::TokenId;
use crate::path::{extends, PathId};
use crate::population::OrderedPathSet;
use crate::store::{store_layers, InMemoryStore, Layer};
use vstd::prelude::*;

verus! {

/// `v` is the place under `dest` of a prim that `stack` authors under
/// `src`.
pub open spec fn moved_target(
    paths: Seq<Seq<TokenId>>,
    layers: Map<u64, Layer>,
    stack: Seq<LayerId>,
    dest: PathId,
    src: PathId,
    v: Seq<TokenId>,
) -> bool {
    exists|r: PathId|
        #![trigger authored_in_stack(layers, stack, r)]
        authored_in_stack(layers, stack, r) && 0 <= r.index() < paths.len() && extends(
            paths[r.index()],
            paths[src.index()],
        ) && v == paths[dest.index()] + paths[r.index()].subrange(
            paths[src.index()].len() as int,
            paths[r.index()].len() as int,
        )
}

/// The queue grew from `q0` by exactly the members `set` gained over
/// `s0`, each once.
pub open spec fn queue_tracks(s0: Set<PathId>, set: Set<PathId>, q0: Seq<PathId>, queue: Seq<PathId>) -> bool {
    &&& extends(queue, q0)
    &&& queue.subrange(q0.len() as int, queue.len() as int).no_duplicates()
    &&& forall|q: PathId|
        #![trigger set.contains(q)]
        (set.contains(q) && !s0.contains(q)) <==> queue.subrange(q0.len() as int, queue.len() as int).contains(q)
}

/// What one expansion did: the interner grew only by moved targets, the
/// set gained exactly the ids of the moved targets, and the queue gained
/// exactly the ids that were new to the set, each once.
pub open spec fn expanded(
    old_paths: Seq<Seq<TokenId>>,
    new_paths: Seq<Seq<TokenId>>,
    layers: Map<u64, Layer>,
    stack: Seq<LayerId>,
    dest: PathId,
    src: PathId,
    old_set: Set<PathId>,
    new_set: Set<PathId>,
    old_queue: Seq<PathId>,
    new_queue: Seq<PathId>,
) -> bool {
    &&& extends(new_paths, old_paths)
    &&& forall|i: int|
        old_paths.len() <= i < new_paths.len() ==> moved_target(old_paths, layers, stack, dest, src, #[trigger] new_paths[i])
    &&& forall|q: PathId| #[trigger]
        new_set.contains(q) <==> old_set.contains(q) || (0 <= q.index() < new_paths.len() && moved_target(
            old_paths,
            layers,
            stack,
            dest,
            src,
            new_paths[q.index()],
        ))
    &&& queue_tracks(old_set, new_set, old_queue, new_queue)
}

/// Populates, under `dest`, the place of every prim that `stack` authors
/// under `src`: each such place is interned, added to `set`, and queued
/// when it was not in `set` yet. `false`, with nothing changed, when the
/// path interner could run out of 32-bit ids.
#[verifier::spinoff_prover]
fn expand_paths_under(
    store: &mut InMemoryStore,
    stack: &[LayerId],
    dest: PathId,
    src: PathId,
    set: &mut OrderedPathSet,
    queue: &mut Vec<PathId>,
) -> (ok: bool)
    requires
        old(store).paths.contains_id(dest),
        old(store).paths.contains_id(src),
        forall|r: PathId|
            #![trigger authored_in_stack(store_layers(*old(store)), stack@, r)]
            authored_in_stack(store_layers(*old(store)), stack@, r) ==> old(store).paths.contains_id(r),
    ensures
        store_layers(*final(store)) == store_layers(*old(store)),
        final(store).tokens == old(store).tokens,
        !ok ==> final(store).paths@ == old(store).paths@ && final(set)@ == old(set)@ && final(queue)@ == old(
            queue,
        )@,
        ok ==> expanded(
            old(store).paths@,
            final(store).paths@,
            store_layers(*old(store)),
            stack@,
            dest,
            src,
            old(set)@,
            final(set)@,
            old(queue)@,
            final(queue)@,
        ),
{
    let ghost layers = store_layers(*store);
    let ghost p0 = store.paths@;
    let ghost s0 = set@;
    let ghost q0 = queue@;
    let remotes = stack_prim_paths(store, stack).to_vec();
    if remotes.len() >= u32::MAX as usize || store.paths.len() >= u32::MAX as usize - remotes.len() {
        return false;
    }
    let src_path = store.paths.resolve(src).clone();
    let dest_path = store.paths.resolve(dest).clone();
    proof {
        assert(src_path@ == p0[src.index()]);
        assert(dest_path@ == p0[dest.index()]);
        assert(store.paths@.subrange(0, p0.len() as int) =~= p0);
        assert(queue@.subrange(0, q0.len() as int) =~= q0);
        assert(queue@.subrange(q0.len() as int, queue@.len() as int) =~= Seq::<PathId>::empty());
    }
    let n = remotes.len();
    let mut i: usize = 0;
    while i < n
        invariant
            n == remotes@.len(),
            i <= n,
            remotes@.to_set() == stack_prim_paths_set(layers, stack@),
            layers == store_layers(*store),
            store_layers(*store) == store_layers(*old(store)),
            store.tokens == old(store).tokens,
            p0 == old(store).paths@,
            s0 == old(set)@,
            q0 == old(queue)@,
            src_path@ == p0[src.index()],
            dest_path@ == p0[dest.index()],
            0 <= src.index() < p0.len(),
            0 <= dest.index() < p0.len(),
            forall|r: PathId|
                #![trigger authored_in_stack(layers, stack@, r)]
                authored_in_stack(layers, stack@, r) ==> 0 <= r.index() < p0.len(),
            store.paths@.len() <= p0.len() + i,
            p0.len() + n < u32::MAX,
            extends(store.paths@, p0),
            forall|k: int| p0.len() <= k < store.paths@.len() ==> moved_target(p0, layers, stack@, dest, src, #[trigger] store.paths@[k]),
            forall|q: PathId| #[trigger]
                set@.contains(q) <==> s0.contains(q) || (0 <= q.index() < store.paths@.len() && moved_from_first(
                    p0,
                    layers,
                    stack@,
                    dest,
                    src,
                    remotes@,
                    i as int,
                    store.paths@[q.index()],
                )),
            queue_tracks(s0, set@, q0, queue@),
        decreases n - i,
    {
        let r = remotes[i];
        proof {
            assert(remotes@.to_set().contains(r));
            assert(authored_in_stack(layers, stack@, r));
        }
        let rp = store.paths.resolve(r).clone();
        proof {
            assert(store.paths@[r.index()] == p0[r.index()]);
        }
        // Bookkeeping facts for the step from `i` to `i + 1`.
        match rp.strip_prefix(&src_path) {
            Some(rel) => {
                let target = dest_path.join(rel);
                let ghost before = store.paths@;
                let ghost set_before = set@;
                let ghost queue_before = queue@;
                let id = store.paths.intern(target);
                proof {
                    assert(moved_target(p0, layers, stack@, dest, src, target@));
                    assert(extends(store.paths@, before)) by {
                        assert(store.paths@.subrange(0, before.len() as int) =~= before);
                    }
                    lemma_extends_trans(p0, before, store.paths@);
                }
                let fresh = set.insert(id);
                if fresh {
                    queue.push(id);
                }
                proof {
                    lemma_expand_step(
                        p0, before, store.paths@, layers, stack@, dest, src, remotes@, i as int, s0, set_before, set@,
                        q0, queue_before, queue@, id, fresh,
                    );
                }
            },
            None => {
                proof {
                    lemma_skip_step(p0, store.paths@, layers, stack@, dest, src, remotes@, i as int);
                }
            },
        }
        i = i + 1;
    }
    proof {
        lemma_first_all(p0, store.paths@, layers, stack@, dest, src, remotes@, s0, set@);
    }
    true
}

/// The prims the layers of `stack` author.
pub open spec fn stack_prim_paths_set(layers: Map<u64, Layer>, stack: Seq<LayerId>) -> Set<PathId> {
    Set::new(|p: PathId| authored_in_stack(layers, stack, p))
}

/// `v` is the place under `dest` of one of the first `i` remotes that lie
/// under `src`.
pub open spec fn moved_from_first(
    paths: Seq<Seq<TokenId>>,
    layers: Map<u64, Layer>,
    stack: Seq<LayerId>,
    dest: PathId,
    src: PathId,
    remotes: Seq<PathId>,
    i: int,
    v: Seq<TokenId>,
) -> bool {
    exists|k: int|
        0 <= k < i && extends(paths[(#[trigger] remotes[k]).index()], paths[src.index()]) && v == paths[dest.index()]
            + paths[remotes[k].index()].subrange(paths[src.index()].len() as int, paths[remotes[k].index()].len() as int)
}


/// After handling remote `i` when it lies under `src`: its place was
/// interned as `id`, added to the set, and queued when new.
proof fn lemma_expand_step(
    p0: Seq<Seq<TokenId>>,
    before: Seq<Seq<TokenId>>,
    after: Seq<Seq<TokenId>>,
    layers: Map<u64, Layer>,
    stack: Seq<LayerId>,
    dest: PathId,
    src: PathId,
    remotes: Seq<PathId>,
    i: int,
    s0: Set<PathId>,
    set_before: Set<PathId>,
    set_after: Set<PathId>,
    q0: Seq<PathId>,
    queue_before: Seq<PathId>,
    queue_after: Seq<PathId>,
    id: PathId,
    fresh: bool,
)
    requires
        0 <= i < remotes.len(),
        0 <= remotes[i].index() < p0.len(),
        0 <= src.index() < p0.len(),
        0 <= dest.index() < p0.len(),
        extends(p0[remotes[i].index()], p0[src.index()]),
        extends(before, p0),
        extends(after, p0),
        after == crate::interner::interned(before, p0[dest.index()] + p0[remotes[i].index()].subrange(
            p0[src.index()].len() as int,
            p0[remotes[i].index()].len() as int,
        )),
        after.no_duplicates(),
        0 <= id.index() < after.len(),
        after[id.index()] == p0[dest.index()] + p0[remotes[i].index()].subrange(
            p0[src.index()].len() as int,
            p0[remotes[i].index()].len() as int,
        ),
        set_after == set_before.insert(id),
        fresh == !set_before.contains(id),
        fresh ==> queue_after == queue_before.push(id),
        !fresh ==> queue_after == queue_before,
        queue_tracks(s0, set_before, q0, queue_before),
        forall|q: PathId| #[trigger]
            set_before.contains(q) <==> s0.contains(q) || (0 <= q.index() < before.len() && moved_from_first(
                p0,
                layers,
                stack,
                dest,
                src,
                remotes,
                i,
                before[q.index()],
            )),
    ensures
        forall|q: PathId| #[trigger]
            set_after.contains(q) <==> s0.contains(q) || (0 <= q.index() < after.len() && moved_from_first(
                p0,
                layers,
                stack,
                dest,
                src,
                remotes,
                i + 1,
                after[q.index()],
            )),
        queue_tracks(s0, set_after, q0, queue_after),
{
    let target = after[id.index()];
    assert(moved_from_first(p0, layers, stack, dest, src, remotes, i + 1, target)) by {
        assert(0 <= i < i + 1);
        assert(extends(p0[remotes[i].index()], p0[src.index()]));
    }
    assert forall|q: PathId|
        #![trigger set_after.contains(q)]
        set_after.contains(q) <==> s0.contains(q) || (0 <= q.index() < after.len() && moved_from_first(
            p0,
            layers,
            stack,
            dest,
            src,
            remotes,
            i + 1,
            after[q.index()],
        )) by {
        if q == id {
        } else {
            if 0 <= q.index() < after.len() {
                if q.index() >= before.len() {
                    // The only new entry is the target, at `id`.
                    assert(after.len() == before.len() + 1);
                    assert(after[before.len() as int] == target);
                    assert(id.index() == before.len()) by {
                        if id.index() != before.len() {
                            assert(after[id.index()] == after[before.len() as int]);
                        }
                    }
                    crate::path::lemma_path_id_index_injective(q, id);
                }
                assert(after[q.index()] == before[q.index()]) by {
                    assert(after.subrange(0, before.len() as int)[q.index()] == before[q.index()]);
                }
                let v = after[q.index()];
                assert(v != target) by {
                    if v == target {
                        crate::path::lemma_path_id_index_injective(q, id);
                    }
                }
                if moved_from_first(p0, layers, stack, dest, src, remotes, i + 1, v) {
                    let k = choose|k: int|
                        0 <= k < i + 1 && extends(p0[(#[trigger] remotes[k]).index()], p0[src.index()]) && v
                            == p0[dest.index()] + p0[remotes[k].index()].subrange(
                            p0[src.index()].len() as int,
                            p0[remotes[k].index()].len() as int,
                        );
                    assert(k < i);
                }
            }
        }
    }
    let sub_b = queue_before.subrange(q0.len() as int, queue_before.len() as int);
    let sub_a = queue_after.subrange(q0.len() as int, queue_after.len() as int);
    if fresh {
        assert(sub_a =~= sub_b.push(id));
        assert(!sub_b.contains(id)) by {
            if sub_b.contains(id) {
                assert(set_before.contains(id));
            }
        }
        assert(!s0.contains(id)) by {
            if s0.contains(id) {
                assert(set_before.contains(id));
            }
        }
        assert(queue_after.subrange(0, q0.len() as int) =~= q0) by {
            assert(queue_before.subrange(0, q0.len() as int) =~= q0);
        }
        assert forall|q: PathId|
            #![trigger set_after.contains(q)]
            (set_after.contains(q) && !s0.contains(q)) <==> sub_a.contains(q) by {
            if q != id {
                assert(sub_a.contains(q) <==> sub_b.contains(q)) by {
                    if sub_a.contains(q) {
                        let x = choose|x: int| 0 <= x < sub_a.len() && sub_a[x] == q;
                        assert(x < sub_b.len());
                        assert(sub_b[x] == q);
                    }
                    if sub_b.contains(q) {
                        let x = choose|x: int| 0 <= x < sub_b.len() && sub_b[x] == q;
                        assert(sub_a[x] == q);
                    }
                }
            } else {
                assert(sub_a[sub_b.len() as int] == id);
            }
        }
    } else {
        assert(sub_a =~= sub_b);
    }
}

/// After passing over remote `i` when it does not lie under `src`.
proof fn lemma_skip_step(
    p0: Seq<Seq<TokenId>>,
    paths: Seq<Seq<TokenId>>,
    layers: Map<u64, Layer>,
    stack: Seq<LayerId>,
    dest: PathId,
    src: PathId,
    remotes: Seq<PathId>,
    i: int,
)
    requires
        0 <= i < remotes.len(),
        !extends(p0[remotes[i].index()], p0[src.index()]),
    ensures
        forall|v: Seq<TokenId>|
            moved_from_first(p0, layers, stack, dest, src, remotes, i + 1, v) == moved_from_first(
                p0,
                layers,
                stack,
                dest,
                src,
                remotes,
                i,
                v,
            ),
{
    assert forall|v: Seq<TokenId>|
        moved_from_first(p0, layers, stack, dest, src, remotes, i + 1, v) implies moved_from_first(
            p0,
            layers,
            stack,
            dest,
            src,
            remotes,
            i,
            v,
        ) by {
        let k = choose|k: int|
            0 <= k < i + 1 && extends(p0[(#[trigger] remotes[k]).index()], p0[src.index()]) && v == p0[dest.index()]
                + p0[remotes[k].index()].subrange(p0[src.index()].len() as int, p0[remotes[k].index()].len() as int);
        assert(k != i);
    }
}

/// Over all remotes, being a place of one of them is being a moved target.
proof fn lemma_first_all(
    p0: Seq<Seq<TokenId>>,
    paths: Seq<Seq<TokenId>>,
    layers: Map<u64, Layer>,
    stack: Seq<LayerId>,
    dest: PathId,
    src: PathId,
    remotes: Seq<PathId>,
    s0: Set<PathId>,
    set: Set<PathId>,
)
    requires
        remotes.to_set() == stack_prim_paths_set(layers, stack),
        forall|r: PathId|
            #![trigger authored_in_stack(layers, stack, r)]
            authored_in_stack(layers, stack, r) ==> 0 <= r.index() < p0.len(),
        forall|q: PathId| #[trigger]
            set.contains(q) <==> s0.contains(q) || (0 <= q.index() < paths.len() && moved_from_first(
                p0,
                layers,
                stack,
                dest,
                src,
                remotes,
                remotes.len() as int,
                paths[q.index()],
            )),
    ensures
        forall|q: PathId| #[trigger]
            set.contains(q) <==> s0.contains(q) || (0 <= q.index() < paths.len() && moved_target(
                p0,
                layers,
                stack,
                dest,
                src,
                paths[q.index()],
            )),
{
    assert forall|v: Seq<TokenId>|
        moved_from_first(p0, layers, stack, dest, src, remotes, remotes.len() as int, v) <==> moved_target(
            p0,
            layers,
            stack,
            dest,
            src,
            v,
        ) by {
        if moved_from_first(p0, layers, stack, dest, src, remotes, remotes.len() as int, v) {
            let k = choose|k: int|
                0 <= k < remotes.len() && extends(p0[(#[trigger] remotes[k]).index()], p0[src.index()]) && v
                    == p0[dest.index()] + p0[remotes[k].index()].subrange(
                    p0[src.index()].len() as int,
                    p0[remotes[k].index()].len() as int,
                );
            assert(remotes.to_set().contains(remotes[k]));
            assert(authored_in_stack(layers, stack, remotes[k]));
        }
        if moved_target(p0, layers, stack, dest, src, v) {
            let r = choose|r: PathId|
                #![trigger authored_in_stack(layers, stack, r)]
                authored_in_stack(layers, stack, r) && 0 <= r.index() < p0.len() && extends(
                    p0[r.index()],
                    p0[src.index()],
                ) && v == p0[dest.index()] + p0[r.index()].subrange(
                    p0[src.index()].len() as int,
                    p0[r.index()].len() as int,
                );
            assert(stack_prim_paths_set(layers, stack).contains(r));
            assert(remotes.to_set().contains(r));
            let k = choose|k: int| 0 <= k < remotes.len() && remotes[k] == r;
            assert(extends(p0[remotes[k].index()], p0[src.index()]));
        }
    }
}

/// `edge` is one of `visited`.
fn seen_edge(visited: &Vec<(PathId, PathId)>, edge: (PathId, PathId)) -> (r: bool)
    ensures
        r == visited@.contains(edge),
{
    let n = visited.len();
    let mut i: usize = 0;
    while i < n
        invariant
            n == visited@.len(),
            i <= n,
            forall|q: int| 0 <= q < i ==> visited@[q] != edge,
        decreases n - i,
    {
        if visited[i].0 == edge.0 && visited[i].1 == edge.1 {
            return true;
        }
        i = i + 1;
    }
    false
}

/// `edge` is one of `visited`.
fn seen_layer_edge(visited: &Vec<(PathId, LayerId, PathId)>, edge: (PathId, LayerId, PathId)) -> (r: bool)
    ensures
        r == visited@.contains(edge),
{
    let n = visited.len();
    let mut i: usize = 0;
    while i < n
        invariant
            n == visited@.len(),
            i <= n,
            forall|q: int| 0 <= q < i ==> visited@[q] != edge,
        decreases n - i,
    {
        if visited[i].0 == edge.0 && visited[i].1.0 == edge.1.0 && visited[i].2 == edge.2 {
            return true;
        }
        i = i + 1;
    }
    false
}

/// Populates the places an inherit (or specialize) arc from `dest_root` to
/// `inherited_root` brings in, once per edge: under `dest_root`, the place of
/// every prim `stack` authors under `inherited_root` is interned, added to
/// `paths` and queued when new. An edge already in `visited` changes
/// nothing; `false`, with nothing changed but the edge recorded, when the
/// path interner could run out of 32-bit ids.
pub fn expand_inherit_paths(
    store: &mut InMemoryStore,
    stack: &[LayerId],
    dest_root: PathId,
    inherited_root: PathId,
    paths: &mut OrderedPathSet,
    queue: &mut Vec<PathId>,
    visited: &mut Vec<(PathId, PathId)>,
) -> (ok: bool)
    requires
        old(store).paths.contains_id(dest_root),
        old(store).paths.contains_id(inherited_root),
        forall|r: PathId|
            #![trigger authored_in_stack(store_layers(*old(store)), stack@, r)]
            authored_in_stack(store_layers(*old(store)), stack@, r) ==> old(store).paths.contains_id(r),
    ensures
        store_layers(*final(store)) == store_layers(*old(store)),
        final(store).tokens == old(store).tokens,
        old(visited)@.contains((dest_root, inherited_root)) ==> ok && final(store).paths@ == old(store).paths@
            && final(paths)@ == old(paths)@ && final(queue)@ == old(queue)@ && final(visited)@ == old(visited)@,
        !old(visited)@.contains((dest_root, inherited_root)) ==> final(visited)@ == old(visited)@.push(
            (dest_root, inherited_root),
        ),
        !old(visited)@.contains((dest_root, inherited_root)) && !ok ==> final(store).paths@ == old(store).paths@
            && final(paths)@ == old(paths)@ && final(queue)@ == old(queue)@,
        !old(visited)@.contains((dest_root, inherited_root)) && ok ==> expanded(
            old(store).paths@,
            final(store).paths@,
            store_layers(*old(store)),
            stack@,
            dest_root,
            inherited_root,
            old(paths)@,
            final(paths)@,
            old(queue)@,
            final(queue)@,
        ),
{
    if seen_edge(visited, (dest_root, inherited_root)) {
        return true;
    }
    visited.push((dest_root, inherited_root));
    expand_paths_under(store, stack, dest_root, inherited_root, paths, queue)
}

/// Populates the places a reference (or payload) from `dest_root` to
/// `target` in the stack of `layer` brings in, once per edge, reading the
/// referenced layer's own stack, as [`expand_inherit_paths`] does.
pub fn expand_reference_paths(
    store: &mut InMemoryStore,
    dest_root: PathId,
    layer: LayerId,
    target: PathId,
    paths: &mut OrderedPathSet,
    queue: &mut Vec<PathId>,
    visited: &mut Vec<(PathId, LayerId, PathId)>,
) -> (ok: bool)
    requires
        old(store).paths.contains_id(dest_root),
        old(store).paths.contains_id(target),
        forall|r: PathId|
            #![trigger authored_in_stack(store_layers(*old(store)), stack_layers_of(store_layers(*old(store)), layer), r)]
            authored_in_stack(store_layers(*old(store)), stack_layers_of(store_layers(*old(store)), layer), r)
                ==> old(store).paths.contains_id(r),
    ensures
        store_layers(*final(store)) == store_layers(*old(store)),
        final(store).tokens == old(store).tokens,
        old(visited)@.contains((dest_root, layer, target)) ==> ok && final(store).paths@ == old(store).paths@
            && final(paths)@ == old(paths)@ && final(queue)@ == old(queue)@ && final(visited)@ == old(visited)@,
        !old(visited)@.contains((dest_root, layer, target)) ==> final(visited)@ == old(visited)@.push(
            (dest_root, layer, target),
        ),
        !old(visited)@.contains((dest_root, layer, target)) && !ok ==> final(store).paths@ == old(store).paths@
            && final(paths)@ == old(paths)@ && final(queue)@ == old(queue)@,
        !old(visited)@.contains((dest_root, layer, target)) && ok ==> expanded(
            old(store).paths@,
            final(store).paths@,
            store_layers(*old(store)),
            stack_layers_of(store_layers(*old(store)), layer),
            dest_root,
            target,
            old(paths)@,
            final(paths)@,
            old(queue)@,
            final(queue)@,
        ),
{
    if seen_layer_edge(visited, (dest_root, layer, target)) {
        return true;
    }
    visited.push((dest_root, layer, target));
    let remote = store.gather_stack(layer);
    proof {
        assert(remote.layers@ =~= stack_layers_of(store_layers(*store), layer));
    }
    expand_paths_under(store, remote.layers.as_slice(), dest_root, target, paths, queue)
}

/// The inherit and specialize targets the stack resolves for `a`.
pub open spec fn arc_targets(layers: Map<u64, Layer>, stack: Seq<LayerId>, a: PathId) -> Seq<PathId> {
    resolved_arc(layers, stack, a, PathArc::Inherits) + resolved_arc(layers, stack, a, PathArc::Specializes)
}

/// `v` is a place an inherit or specialize arc of an authored prim
/// populates: under the prim, the place of a prim the stack authors under
/// one of its (interned) targets.
pub open spec fn arc_populated(paths: Seq<Seq<TokenId>>, layers: Map<u64, Layer>, stack: Seq<LayerId>, v: Seq<TokenId>) -> bool {
    exists|a: PathId, t: PathId|
        #![trigger authored_in_stack(layers, stack, a), arc_targets(layers, stack, a).contains(t)]
        authored_in_stack(layers, stack, a) && arc_targets(layers, stack, a).contains(t) && 0 <= t.index()
            < paths.len() && moved_target(paths, layers, stack, a, t, v)
}

/// `v` is populated by the arcs of the first `i` roots (and, for root `i`,
/// by its first `j` targets).
pub open spec fn populated_by(
    paths: Seq<Seq<TokenId>>,
    layers: Map<u64, Layer>,
    stack: Seq<LayerId>,
    roots: Seq<PathId>,
    i: int,
    v: Seq<TokenId>,
) -> bool {
    exists|k: int, t: PathId|
        #![trigger roots[k], arc_targets(layers, stack, roots[k]).contains(t)]
        0 <= k < i && arc_targets(layers, stack, roots[k]).contains(t) && 0 <= t.index() < paths.len()
            && moved_target(paths, layers, stack, roots[k], t, v)
}

/// `v` is populated by one of the first `j` targets of `a`.
pub open spec fn populated_by_targets(
    paths: Seq<Seq<TokenId>>,
    layers: Map<u64, Layer>,
    stack: Seq<LayerId>,
    a: PathId,
    targets: Seq<PathId>,
    j: int,
    v: Seq<TokenId>,
) -> bool {
    exists|jj: int|
        0 <= jj < j && 0 <= (#[trigger] targets[jj]).index() < paths.len() && moved_target(paths, layers, stack, a, targets[jj], v)
}

/// A moved target reads only old ids, so growing the interner keeps it.
proof fn lemma_moved_stable(
    p0: Seq<Seq<TokenId>>,
    pk: Seq<Seq<TokenId>>,
    layers: Map<u64, Layer>,
    stack: Seq<LayerId>,
    dest: PathId,
    src: PathId,
    v: Seq<TokenId>,
)
    requires
        extends(pk, p0),
        0 <= dest.index() < p0.len(),
        0 <= src.index() < p0.len(),
        forall|r: PathId|
            #![trigger authored_in_stack(layers, stack, r)]
            authored_in_stack(layers, stack, r) ==> 0 <= r.index() < p0.len(),
    ensures
        moved_target(pk, layers, stack, dest, src, v) == moved_target(p0, layers, stack, dest, src, v),
{
    assert(pk[dest.index()] == p0[dest.index()]) by {
        assert(pk.subrange(0, p0.len() as int)[dest.index()] == pk[dest.index()]);
    }
    assert(pk[src.index()] == p0[src.index()]) by {
        assert(pk.subrange(0, p0.len() as int)[src.index()] == pk[src.index()]);
    }
    if moved_target(pk, layers, stack, dest, src, v) {
        let r = choose|r: PathId|
            #![trigger authored_in_stack(layers, stack, r)]
            authored_in_stack(layers, stack, r) && 0 <= r.index() < pk.len() && extends(pk[r.index()], pk[src.index()])
                && v == pk[dest.index()] + pk[r.index()].subrange(pk[src.index()].len() as int, pk[r.index()].len() as int);
        assert(pk.subrange(0, p0.len() as int)[r.index()] == pk[r.index()]);
    }
    if moved_target(p0, layers, stack, dest, src, v) {
        let r = choose|r: PathId|
            #![trigger authored_in_stack(layers, stack, r)]
            authored_in_stack(layers, stack, r) && 0 <= r.index() < p0.len() && extends(p0[r.index()], p0[src.index()])
                && v == p0[dest.index()] + p0[r.index()].subrange(p0[src.index()].len() as int, p0[r.index()].len() as int);
        assert(pk.subrange(0, p0.len() as int)[r.index()] == pk[r.index()]);
    }
}

/// Populates the prims a layer stack authors and, under each of them, the
/// places its inherit and specialize arcs bring in: for each authored prim
/// (in ascending id order) and each of its interned targets, the place
/// under the prim of every prim the stack authors under the target.
/// `None` when the path interner could run out of 32-bit ids.
#[verifier::spinoff_prover]
pub fn gather_populated_paths(store: &mut InMemoryStore, stack: &[LayerId]) -> (r: Option<OrderedPathSet>)
    requires
        forall|r: PathId|
            #![trigger authored_in_stack(store_layers(*old(store)), stack@, r)]
            authored_in_stack(store_layers(*old(store)), stack@, r) ==> old(store).paths.contains_id(r),
    ensures
        store_layers(*final(store)) == store_layers(*old(store)),
        final(store).tokens == old(store).tokens,
        extends(final(store).paths@, old(store).paths@),
        r matches Some(set) ==> forall|q: PathId| #[trigger]
            set@.contains(q) <==> authored_in_stack(store_layers(*old(store)), stack@, q) || (0 <= q.index()
                < final(store).paths@.len() && arc_populated(
                old(store).paths@,
                store_layers(*old(store)),
                stack@,
                final(store).paths@[q.index()],
            )),
{
    let ghost layers = store_layers(*store);
    let ghost p0 = store.paths@;
    let base_len = store.paths.len();
    let mut set = stack_prim_paths(store, stack);
    let roots = set.to_vec();
    let mut queue: Vec<PathId> = Vec::new();
    proof {
        assert(p0.subrange(0, p0.len() as int) =~= p0);
        assert forall|q: PathId| #[trigger] set@.contains(q) <==> authored_in_stack(layers, stack@, q) || (0 <= q.index()
            < store.paths@.len() && populated_by(p0, layers, stack@, roots@, 0, store.paths@[q.index()])) by {}
    }
    let n = roots.len();
    let mut i: usize = 0;
    while i < n
        invariant
            n == roots@.len(),
            i <= n,
            base_len == p0.len(),
            layers == store_layers(*store),
            store_layers(*store) == store_layers(*old(store)),
            store.tokens == old(store).tokens,
            p0 == old(store).paths@,
            extends(store.paths@, p0),
            roots@.to_set() == stack_prim_paths_set(layers, stack@),
            forall|r: PathId|
                #![trigger authored_in_stack(layers, stack@, r)]
                authored_in_stack(layers, stack@, r) ==> 0 <= r.index() < p0.len(),
            forall|q: PathId| #[trigger]
                set@.contains(q) <==> authored_in_stack(layers, stack@, q) || (0 <= q.index() < store.paths@.len()
                    && populated_by(p0, layers, stack@, roots@, i as int, store.paths@[q.index()])),
        decreases n - i,
    {
        let a = roots[i];
        proof {
            assert(roots@.to_set().contains(a));
            assert(authored_in_stack(layers, stack@, a));
        }
        let inh = resolve_inherits_for_prim(store, stack, a);
        let spc = resolve_specializes_for_prim(store, stack, a);
        let targets = crate::listop::concat(inh.as_slice(), spc.as_slice());
        proof {
            assert(targets@ == arc_targets(layers, stack@, a));
        }
        let m = targets.len();
        let mut j: usize = 0;
        while j < m
            invariant
                m == targets@.len(),
                j <= m,
                n == roots@.len(),
                i < n,
                a == roots@[i as int],
                targets@ == arc_targets(layers, stack@, a),
                base_len == p0.len(),
                layers == store_layers(*store),
                store_layers(*store) == store_layers(*old(store)),
                store.tokens == old(store).tokens,
                p0 == old(store).paths@,
                extends(store.paths@, p0),
                0 <= a.index() < p0.len(),
                forall|r: PathId|
                    #![trigger authored_in_stack(layers, stack@, r)]
                    authored_in_stack(layers, stack@, r) ==> 0 <= r.index() < p0.len(),
                forall|q: PathId| #[trigger]
                    set@.contains(q) <==> authored_in_stack(layers, stack@, q) || (0 <= q.index() < store.paths@.len()
                        && (populated_by(p0, layers, stack@, roots@, i as int, store.paths@[q.index()])
                        || populated_by_targets(p0, layers, stack@, a, targets@, j as int, store.paths@[q.index()]))),
            decreases m - j,
        {
            let t = targets[j];
            if (t.get() as usize) < base_len {
                let ghost pb = store.paths@;
                let ghost sb = set@;
                let ghost qb = queue@;
                proof {
                    assert(pb.subrange(0, p0.len() as int) =~= p0);
                    assert forall|r: PathId|
                        #![trigger authored_in_stack(store_layers(*store), stack@, r)]
                        authored_in_stack(store_layers(*store), stack@, r) implies store.paths.contains_id(r) by {}
                }
                let ok = expand_paths_under(store, stack, a, t, &mut set, &mut queue);
                if !ok {
                    return None;
                }
                proof {
                    lemma_extends_trans(p0, pb, store.paths@);
                    assert forall|q: PathId| #[trigger]
                        set@.contains(q) <==> authored_in_stack(layers, stack@, q) || (0 <= q.index() < store.paths@.len()
                            && (populated_by(p0, layers, stack@, roots@, i as int, store.paths@[q.index()])
                            || populated_by_targets(p0, layers, stack@, a, targets@, j + 1, store.paths@[q.index()]))) by {
                        let v = store.paths@[q.index()];
                        if 0 <= q.index() < pb.len() {
                            assert(store.paths@[q.index()] == pb[q.index()]) by {
                                assert(store.paths@.subrange(0, pb.len() as int)[q.index()] == store.paths@[q.index()]);
                            }
                        }
                        lemma_moved_stable(p0, pb, layers, stack@, a, t, v);
                        if populated_by_targets(p0, layers, stack@, a, targets@, j + 1, v) {
                            let jj = choose|jj: int|
                                0 <= jj < j + 1 && 0 <= (#[trigger] targets@[jj]).index() < p0.len() && moved_target(
                                    p0,
                                    layers,
                                    stack@,
                                    a,
                                    targets@[jj],
                                    v,
                                );
                            if jj < j {
                                assert(populated_by_targets(p0, layers, stack@, a, targets@, j as int, v));
                            }
                        }
                        if moved_target(p0, layers, stack@, a, t, v) {
                            assert(targets@[j as int] == t);
                            assert(populated_by_targets(p0, layers, stack@, a, targets@, j + 1, v));
                        }
                        if populated_by_targets(p0, layers, stack@, a, targets@, j as int, v) {
                            let jj = choose|jj: int|
                                0 <= jj < j && 0 <= (#[trigger] targets@[jj]).index() < p0.len() && moved_target(
                                    p0,
                                    layers,
                                    stack@,
                                    a,
                                    targets@[jj],
                                    v,
                                );
                            assert(populated_by_targets(p0, layers, stack@, a, targets@, j + 1, v));
                        }
                    }
                }
            } else {
                proof {
                    assert forall|v: Seq<TokenId>|
                        populated_by_targets(p0, layers, stack@, a, targets@, j + 1, v) == populated_by_targets(
                            p0,
                            layers,
                            stack@,
                            a,
                            targets@,
                            j as int,
                            v,
                        ) by {
                        if populated_by_targets(p0, layers, stack@, a, targets@, j + 1, v) {
                            let jj = choose|jj: int|
                                0 <= jj < j + 1 && 0 <= (#[trigger] targets@[jj]).index() < p0.len() && moved_target(
                                    p0,
                                    layers,
                                    stack@,
                                    a,
                                    targets@[jj],
                                    v,
                                );
                            assert(jj != j);
                        }
                    }
                }
            }
            j = j + 1;
        }
        proof {
            assert forall|v: Seq<TokenId>|
                (populated_by(p0, layers, stack@, roots@, i as int, v) || populated_by_targets(
                    p0,
                    layers,
                    stack@,
                    a,
                    targets@,
                    m as int,
                    v,
                )) == populated_by(p0, layers, stack@, roots@, i + 1, v) by {
                if populated_by_targets(p0, layers, stack@, a, targets@, m as int, v) {
                    let jj = choose|jj: int|
                        0 <= jj < m && 0 <= (#[trigger] targets@[jj]).index() < p0.len() && moved_target(
                            p0,
                            layers,
                            stack@,
                            a,
                            targets@[jj],
                            v,
                        );
                    assert(roots@[i as int] == a);
                    assert(arc_targets(layers, stack@, roots@[i as int]).contains(targets@[jj]));
                }
                if populated_by(p0, layers, stack@, roots@, i as int, v) {
                    let (k, t) = choose|k: int, t: PathId|
                        #![trigger roots@[k], arc_targets(layers, stack@, roots@[k]).contains(t)]
                        0 <= k < i && arc_targets(layers, stack@, roots@[k]).contains(t) && 0 <= t.index() < p0.len()
                            && moved_target(p0, layers, stack@, roots@[k], t, v);
                    assert(populated_by(p0, layers, stack@, roots@, i + 1, v));
                }
                if populated_by(p0, layers, stack@, roots@, i + 1, v) {
                    let (k, t) = choose|k: int, t: PathId|
                        #![trigger roots@[k], arc_targets(layers, stack@, roots@[k]).contains(t)]
                        0 <= k < i + 1 && arc_targets(layers, stack@, roots@[k]).contains(t) && 0 <= t.index()
                            < p0.len() && moved_target(p0, layers, stack@, roots@[k], t, v);
                    if k < i {
                        assert(populated_by(p0, layers, stack@, roots@, i as int, v));
                    } else {
                        let jj = choose|jj: int| 0 <= jj < targets@.len() && targets@[jj] == t;
                        assert(populated_by_targets(p0, layers, stack@, a, targets@, m as int, v));
                    }
                }
            }
            assert forall|q: PathId| #[trigger]
                set@.contains(q) <==> authored_in_stack(layers, stack@, q) || (0 <= q.index() < store.paths@.len()
                    && populated_by(p0, layers, stack@, roots@, i + 1, store.paths@[q.index()])) by {
                if 0 <= q.index() < store.paths@.len() {
                    let v = store.paths@[q.index()];
                    assert((populated_by(p0, layers, stack@, roots@, i as int, v) || populated_by_targets(
                        p0,
                        layers,
                        stack@,
                        a,
                        targets@,
                        m as int,
                        v,
                    )) == populated_by(p0, layers, stack@, roots@, i + 1, v));
                }
            }
        }
        i = i + 1;
    }
    proof {
        assert forall|v: Seq<TokenId>|
            populated_by(p0, layers, stack@, roots@, n as int, v) == arc_populated(p0, layers, stack@, v) by {
            if populated_by(p0, layers, stack@, roots@, n as int, v) {
                let (k, t) = choose|k: int, t: PathId|
                    #![trigger roots@[k], arc_targets(layers, stack@, roots@[k]).contains(t)]
                    0 <= k < n && arc_targets(layers, stack@, roots@[k]).contains(t) && 0 <= t.index() < p0.len()
                        && moved_target(p0, layers, stack@, roots@[k], t, v);
                assert(roots@.to_set().contains(roots@[k]));
                assert(authored_in_stack(layers, stack@, roots@[k]));
            }
            if arc_populated(p0, layers, stack@, v) {
                let (a, t) = choose|a: PathId, t: PathId|
                    #![trigger authored_in_stack(layers, stack@, a), arc_targets(layers, stack@, a).contains(t)]
                    authored_in_stack(layers, stack@, a) && arc_targets(layers, stack@, a).contains(t) && 0 <= t.index()
                        < p0.len() && moved_target(p0, layers, stack@, a, t, v);
                assert(stack_prim_paths_set(layers, stack@).contains(a));
                assert(roots@.to_set().contains(a));
                let k = choose|k: int| 0 <= k < roots@.len() && roots@[k] == a;
                assert(arc_targets(layers, stack@, roots@[k]).contains(t));
            }
        }
    }
    Some(set)
}

/// Extension is transitive.
proof fn lemma_extends_trans<T>(a: Seq<T>, b: Seq<T>, c: Seq<T>)
    requires
        extends(b, a),
        extends(c, b),
    ensures
        extends(c, a),
{
    assert(c.subrange(0, a.len() as int) =~= a) by {
        assert forall|i: int| 0 <= i < a.len() implies c.subrange(0, a.len() as int)[i] == a[i] by {
            assert(c.subrange(0, b.len() as int)[i] == b[i]);
            assert(b.subrange(0, a.len() as int)[i] == a[i]);
        }
    }
}

} // verus!

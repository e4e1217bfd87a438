//! Dependency edges discovered during stage composition.
//!
//! Composition records every arc and layer-opinion edge it discovers in a
//! [`DependencyMapBuilder`], which drops repeated edges; the finished
//! [`DependencyMap`] answers queries about them.

use vstd::prelude::*;

use crate::doc::LayerId;
use crate::hashed::{
    ArcDependencySet, LayerDependencySet, U64Set, arc_set_contents, layer_set_contents,
    u64_set_contents,
};
use crate::path::PathId;
use crate::prim_index::ArcKind;

verus! {

/// A composition arc edge discovered during composition.
///
/// Direction: source was composed into target. "If source changes,
/// target may need recomposition."
#[derive(Clone, Copy, Debug, PartialEq, Eq, Hash, Structural)]
pub struct ArcDependency {
    /// The prim that authored the arc (or the arc target, for inherits).
    pub source: PathId,
    /// The composed prim that received opinions through this arc.
    pub target: PathId,
    /// Which arc type introduced this dependency.
    pub arc_kind: ArcKind,
    /// The layer providing the referenced opinions.
    pub layer: LayerId,
}

/// Layer-to-prim opinion dependency.
#[derive(Clone, Copy, Debug, PartialEq, Eq, Hash, Structural)]
pub struct LayerDependency {
    /// The layer contributing opinions.
    pub layer: LayerId,
    /// The composed prim receiving opinions from this layer.
    pub prim: PathId,
}

/// Dependency edges discovered during stage composition.
#[derive(Clone, Debug)]
pub struct DependencyMap {
    arcs: Vec<ArcDependency>,
    layer_opinions: Vec<LayerDependency>,
}

/// The arc edges of `arcs` whose target is `prim`, in order.
pub open spec fn arcs_to(arcs: Seq<ArcDependency>, prim: PathId) -> Seq<ArcDependency>
    decreases arcs.len(),
{
    if arcs.len() == 0 {
        Seq::empty()
    } else {
        let prev = arcs_to(arcs.drop_last(), prim);
        if arcs.last().target == prim {
            prev.push(arcs.last())
        } else {
            prev
        }
    }
}

/// The prims receiving opinions from `layer`, each once, in order of first
/// appearance.
pub open spec fn prims_from_layer(deps: Seq<LayerDependency>, layer: LayerId) -> Seq<PathId>
    decreases deps.len(),
{
    if deps.len() == 0 {
        Seq::empty()
    } else {
        let prev = prims_from_layer(deps.drop_last(), layer);
        if deps.last().layer == layer && !prev.contains(deps.last().prim) {
            prev.push(deps.last().prim)
        } else {
            prev
        }
    }
}

/// The layers contributing opinions to `prim`, each once, in order of first
/// appearance.
pub open spec fn layers_to_prim(deps: Seq<LayerDependency>, prim: PathId) -> Seq<LayerId>
    decreases deps.len(),
{
    if deps.len() == 0 {
        Seq::empty()
    } else {
        let prev = layers_to_prim(deps.drop_last(), prim);
        if deps.last().prim == prim && !prev.contains(deps.last().layer) {
            prev.push(deps.last().layer)
        } else {
            prev
        }
    }
}

impl DependencyMap {
    /// The recorded arc edges.
    pub closed spec fn arc_seq(&self) -> Seq<ArcDependency> {
        self.arcs@
    }

    /// The recorded layer-opinion edges.
    pub closed spec fn opinion_seq(&self) -> Seq<LayerDependency> {
        self.layer_opinions@
    }

    /// A map with no edges.
    pub fn new() -> (r: Self)
        ensures
            r.arc_seq().len() == 0,
            r.opinion_seq().len() == 0,
    {
        DependencyMap { arcs: Vec::new(), layer_opinions: Vec::new() }
    }

    /// Returns all arc dependencies.
    pub fn arcs(&self) -> (r: &[ArcDependency])
        ensures
            r@ == self.arc_seq(),
    {
        self.arcs.as_slice()
    }

    /// Returns all layer-opinion dependencies.
    pub fn layer_opinions(&self) -> (r: &[LayerDependency])
        ensures
            r@ == self.opinion_seq(),
    {
        self.layer_opinions.as_slice()
    }

    /// Returns arc dependencies targeting the given prim, in recorded order.
    pub fn arcs_targeting(&self, prim: PathId) -> (r: Vec<&ArcDependency>)
        ensures
            r@.map_values(|a: &ArcDependency| *a) == arcs_to(self.arc_seq(), prim),
    {
        let mut out: Vec<&ArcDependency> = Vec::new();
        let n = self.arcs.len();
        let mut i: usize = 0;
        while i < n
            invariant
                n == self.arcs@.len(),
                i <= n,
                out@.map_values(|a: &ArcDependency| *a) == arcs_to(self.arcs@.take(i as int), prim),
            decreases n - i,
        {
            let a = &self.arcs[i];
            proof {
                assert(self.arcs@.take(i + 1).drop_last() =~= self.arcs@.take(i as int));
            }
            if a.target == prim {
                out.push(a);
            }
            proof {
                assert(out@.map_values(|a: &ArcDependency| *a) =~= arcs_to(
                    self.arcs@.take(i + 1),
                    prim,
                ));
            }
            i = i + 1;
        }
        proof {
            assert(self.arcs@.take(n as int) =~= self.arcs@);
        }
        out
    }

    /// Returns prims affected by opinions from the given layer, each once, in
    /// order of first appearance.
    pub fn prims_affected_by_layer(&self, layer: LayerId) -> (r: Vec<PathId>)
        ensures
            r@ == prims_from_layer(self.opinion_seq(), layer),
    {
        let mut seen = crate::hashed::u64_set_new();
        let mut out: Vec<PathId> = Vec::new();
        let n = self.layer_opinions.len();
        let mut i: usize = 0;
        while i < n
            invariant
                n == self.layer_opinions@.len(),
                i <= n,
                out@ == prims_from_layer(self.layer_opinions@.take(i as int), layer),
                forall|v: u64|
                    #[trigger] u64_set_contents(seen).contains(v) <==> exists|k: int|
                        0 <= k < out@.len() && out@[k].index() == v,
            decreases n - i,
        {
            let d = self.layer_opinions[i];
            proof {
                assert(self.layer_opinions@.take(i + 1).drop_last() =~= self.layer_opinions@.take(
                    i as int,
                ));
            }
            if d.layer == layer {
                let key = d.prim.get() as u64;
                let fresh = crate::hashed::u64_set_insert(&mut seen, key);
                proof {
                    if out@.contains(d.prim) {
                        let k = choose|k: int| 0 <= k < out@.len() && out@[k] == d.prim;
                        assert(out@[k].index() == key);
                    }
                    if !fresh {
                        let k = choose|k: int| 0 <= k < out@.len() && out@[k].index() == key;
                        crate::path::lemma_path_id_index_injective(out@[k], d.prim);
                        assert(out@.contains(d.prim));
                    }
                }
                if fresh {
                    let ghost before = out@;
                    out.push(d.prim);
                    proof {
                        assert forall|v: u64| #[trigger]
                            u64_set_contents(seen).contains(v) <==> exists|k: int|
                                0 <= k < out@.len() && out@[k].index() == v by {
                            if u64_set_contents(seen).contains(v) && v != key {
                                let k = choose|k: int|
                                    0 <= k < before.len() && before[k].index() == v;
                                assert(out@[k] == before[k]);
                            }
                            if v == key {
                                assert(out@[before.len() as int].index() == v);
                            }
                        }
                    }
                }
            }
            i = i + 1;
        }
        proof {
            assert(self.layer_opinions@.take(n as int) =~= self.layer_opinions@);
        }
        out
    }

    /// Returns layers that contribute opinions to the given prim, each once,
    /// in order of first appearance.
    pub fn layers_affecting_prim(&self, prim: PathId) -> (r: Vec<LayerId>)
        ensures
            r@ == layers_to_prim(self.opinion_seq(), prim),
    {
        let mut seen = crate::hashed::u64_set_new();
        let mut out: Vec<LayerId> = Vec::new();
        let n = self.layer_opinions.len();
        let mut i: usize = 0;
        while i < n
            invariant
                n == self.layer_opinions@.len(),
                i <= n,
                out@ == layers_to_prim(self.layer_opinions@.take(i as int), prim),
                forall|v: u64|
                    #[trigger] u64_set_contents(seen).contains(v) <==> exists|k: int|
                        0 <= k < out@.len() && out@[k].0 == v,
            decreases n - i,
        {
            let d = self.layer_opinions[i];
            proof {
                assert(self.layer_opinions@.take(i + 1).drop_last() =~= self.layer_opinions@.take(
                    i as int,
                ));
            }
            if d.prim == prim {
                let key = d.layer.0;
                let fresh = crate::hashed::u64_set_insert(&mut seen, key);
                proof {
                    if out@.contains(d.layer) {
                        let k = choose|k: int| 0 <= k < out@.len() && out@[k] == d.layer;
                        assert(out@[k].0 == key);
                    }
                    if !fresh {
                        let k = choose|k: int| 0 <= k < out@.len() && out@[k].0 == key;
                        assert(out@[k] == d.layer);
                        assert(out@.contains(d.layer));
                    }
                }
                if fresh {
                    let ghost before = out@;
                    out.push(d.layer);
                    proof {
                        assert forall|v: u64| #[trigger]
                            u64_set_contents(seen).contains(v) <==> exists|k: int|
                                0 <= k < out@.len() && out@[k].0 == v by {
                            if u64_set_contents(seen).contains(v) && v != key {
                                let k = choose|k: int| 0 <= k < before.len() && before[k].0 == v;
                                assert(out@[k] == before[k]);
                            }
                            if v == key {
                                assert(out@[before.len() as int].0 == v);
                            }
                        }
                    }
                }
            }
            i = i + 1;
        }
        proof {
            assert(self.layer_opinions@.take(n as int) =~= self.layer_opinions@);
        }
        out
    }

    /// Returns the total number of dependency edges.
    pub fn len(&self) -> (r: usize)
        requires
            self.arc_seq().len() + self.opinion_seq().len() <= usize::MAX,
        ensures
            r == self.arc_seq().len() + self.opinion_seq().len(),
    {
        self.arcs.len() + self.layer_opinions.len()
    }

    /// Returns `true` if no dependency edges were recorded.
    pub fn is_empty(&self) -> (r: bool)
        ensures
            r == (self.arc_seq().len() == 0 && self.opinion_seq().len() == 0),
    {
        self.arcs.len() == 0 && self.layer_opinions.len() == 0
    }
}

/// A dependency map is empty exactly when it records no edge: its edge count
/// is zero exactly when both its arc list and its layer-opinion list are
/// empty.
pub proof fn law_empty_iff_no_edges(m: &DependencyMap)
    ensures
        (m.arc_seq().len() + m.opinion_seq().len() == 0) <==> (m.arc_seq().len() == 0
            && m.opinion_seq().len() == 0),
{
}

impl Default for DependencyMap {
    fn default() -> (r: Self)
        ensures
            r.arc_seq().len() == 0,
            r.opinion_seq().len() == 0,
    {
        DependencyMap::new()
    }
}

/// Builder for [`DependencyMap`], used during composition. Repeated edges are
/// recorded once.
#[derive(Debug)]
pub struct DependencyMapBuilder {
    arc_set: ArcDependencySet,
    layer_set: LayerDependencySet,
}

impl DependencyMapBuilder {
    /// The arc edges recorded so far.
    pub closed spec fn arc_members(&self) -> Set<ArcDependency> {
        arc_set_contents(self.arc_set)
    }

    /// The layer-opinion edges recorded so far.
    pub closed spec fn opinion_members(&self) -> Set<LayerDependency> {
        layer_set_contents(self.layer_set)
    }

    /// A builder with no edges.
    pub fn new() -> (r: Self)
        ensures
            r.arc_members() == Set::<ArcDependency>::empty(),
            r.opinion_members() == Set::<LayerDependency>::empty(),
    {
        DependencyMapBuilder {
            arc_set: crate::hashed::arc_set_new(),
            layer_set: crate::hashed::layer_set_new(),
        }
    }

    /// Records an arc dependency edge.
    pub fn add_arc(&mut self, dep: ArcDependency)
        ensures
            final(self).arc_members() == old(self).arc_members().insert(dep),
            final(self).opinion_members() == old(self).opinion_members(),
    {
        crate::hashed::arc_set_insert(&mut self.arc_set, dep);
    }

    /// Records a layer-opinion dependency edge.
    pub fn add_layer_opinion(&mut self, dep: LayerDependency)
        ensures
            final(self).opinion_members() == old(self).opinion_members().insert(dep),
            final(self).arc_members() == old(self).arc_members(),
    {
        crate::hashed::layer_set_insert(&mut self.layer_set, dep);
    }

    /// Consumes the builder and produces a [`DependencyMap`] holding each
    /// recorded edge exactly once.
    pub fn finish(self) -> (r: DependencyMap)
        ensures
            r.arc_seq().no_duplicates(),
            r.arc_seq().to_set() == self.arc_members(),
            r.opinion_seq().no_duplicates(),
            r.opinion_seq().to_set() == self.opinion_members(),
    {
        DependencyMap {
            arcs: crate::hashed::arc_set_into_vec(self.arc_set),
            layer_opinions: crate::hashed::layer_set_into_vec(self.layer_set),
        }
    }
}

} // verus!

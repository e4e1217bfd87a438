//! The layer data model the composition engine reads: prim specs, layers
//! and an in-memory store of layers with the shared interners, together
//! with the per-prim arc lists a layer stack resolves.

use vstd::prelude::*;

use crate::doc::{LayerId, Specifier, Value};
use crate::hashed::{
    layer_map_contents, layer_map_get, layer_map_insert, layer_map_keys, layer_map_new,
    prim_table_contents, prim_table_get, prim_table_insert, prim_table_keys, prim_table_new,
    LayerMap, PrimTable,
};
use crate::interner::{TokenId, TokenInterner};
use crate::layer_stack::{gathered, LayerStack, SublayerGraph};
use crate::listop::ListOp;
use crate::path::{PathId, PathInterner};

verus! {

/// A field value stored on a prim spec.
#[derive(Debug)]
pub enum FieldValue {
    /// A scalar (the strongest opinion wins).
    Value(Value),
    /// A list edit over tokens (resolved by chaining).
    TokenListOp(ListOp<TokenId>),
    /// A list edit over paths (resolved by chaining).
    PathListOp(ListOp<PathId>),
    /// Time samples: `(time code as the bits of its f64, value)` pairs.
    TimeSamples(Vec<(u64, Value)>),
}

/// One authored field of a prim spec.
#[derive(Debug)]
pub struct FieldEntry {
    /// The field's name.
    pub name: TokenId,
    /// The field's value.
    pub value: FieldValue,
}

/// One variant of a variant set: its name and the children it introduces.
#[derive(Debug)]
pub struct VariantSpec {
    /// The variant's name.
    pub name: TokenId,
    /// Names of the children the variant introduces, in authored order.
    pub authored_children: Vec<TokenId>,
}

/// A variant set a prim spec authors: its name and its variants.
#[derive(Debug)]
pub struct VariantSetSpec {
    /// The set's name.
    pub name: TokenId,
    /// The variants, in authored order.
    pub variants: Vec<VariantSpec>,
}

/// The opinions a layer authors for one prim: specifier, children, flags
/// and the inherit and specialize arcs.
#[derive(Debug)]
pub struct PrimSpec {
    /// Specifier (`def`, `over` or `class`), if authored.
    pub specifier: Option<Specifier>,
    /// Schema type name, if authored.
    pub schema_type: Option<TokenId>,
    /// Authored fields, in authored order.
    pub fields: Vec<FieldEntry>,
    /// Names of the children this spec introduces, in authored order.
    pub authored_children: Vec<TokenId>,
    /// Authored order of the variant sets.
    pub variant_set_order: Vec<TokenId>,
    /// Authored variant selections, `(set, variant)`, one per set.
    pub variant_selections: Vec<(TokenId, TokenId)>,
    /// Authored variant sets, in authored order.
    pub variant_sets: Vec<VariantSetSpec>,
    /// Inherit arcs, a list edit chained across the layer stack.
    pub inherits: ListOp<PathId>,
    /// Specialize arcs, a list edit chained across the layer stack.
    pub specializes: ListOp<PathId>,
    /// Authored `reorder nameChildren` statement, if any.
    pub prim_order: Option<Vec<TokenId>>,
    /// Authored `instanceable` value, if any.
    pub instanceable: Option<bool>,
    /// Authored `active` value, if any.
    pub active: Option<bool>,
}

/// `spec` authors nothing but (possibly) its specifier.
pub open spec fn bare_spec(spec: PrimSpec, specifier: Option<Specifier>) -> bool {
    &&& spec.specifier == specifier
    &&& spec.schema_type is None
    &&& spec.fields@.len() == 0
    &&& spec.authored_children@.len() == 0
    &&& spec.variant_set_order@.len() == 0
    &&& spec.variant_selections@.len() == 0
    &&& spec.variant_sets@.len() == 0
    &&& spec.inherits.explicit is None
    &&& spec.inherits.prepend@.len() == 0
    &&& spec.inherits.append@.len() == 0
    &&& spec.inherits.delete@.len() == 0
    &&& spec.specializes.explicit is None
    &&& spec.specializes.prepend@.len() == 0
    &&& spec.specializes.append@.len() == 0
    &&& spec.specializes.delete@.len() == 0
    &&& spec.prim_order is None
    &&& spec.instanceable is None
    &&& spec.active is None
}

impl PrimSpec {
    /// A spec with the given specifier and nothing else authored.
    pub fn with_specifier(specifier: Option<Specifier>) -> (r: Self)
        ensures
            bare_spec(r, specifier),
    {
        PrimSpec {
            specifier,
            schema_type: None,
            fields: Vec::new(),
            authored_children: Vec::new(),
            variant_set_order: Vec::new(),
            variant_selections: Vec::new(),
            variant_sets: Vec::new(),
            inherits: ListOp::new(),
            specializes: ListOp::new(),
            prim_order: None,
            instanceable: None,
            active: None,
        }
    }

    /// A defining (`def`) spec.
    pub fn def() -> (r: Self)
        ensures
            bare_spec(r, Some(Specifier::Def)),
    {
        PrimSpec::with_specifier(Some(Specifier::Def))
    }

    /// A non-defining (`over`) spec.
    pub fn over() -> (r: Self)
        ensures
            bare_spec(r, Some(Specifier::Over)),
    {
        PrimSpec::with_specifier(Some(Specifier::Over))
    }

    /// An abstract (`class`) spec.
    pub fn class() -> (r: Self)
        ensures
            bare_spec(r, Some(Specifier::Class)),
    {
        PrimSpec::with_specifier(Some(Specifier::Class))
    }

    /// Appends an inherit arc.
    pub fn add_inherit(&mut self, path: PathId)
        ensures
            final(self).inherits.append@ == old(self).inherits.append@.push(path),
            final(self).inherits.explicit == old(self).inherits.explicit,
            final(self).inherits.prepend == old(self).inherits.prepend,
            final(self).inherits.delete == old(self).inherits.delete,
            final(self).specializes == old(self).specializes,
            final(self).active == old(self).active,
            final(self).instanceable == old(self).instanceable,
            final(self).authored_children == old(self).authored_children,
    {
        self.inherits.append.push(path);
    }

    /// This spec with an inherit arc appended.
    pub fn with_inherit(self, path: PathId) -> (r: Self)
        ensures
            r.inherits.append@ == self.inherits.append@.push(path),
            r.inherits.explicit == self.inherits.explicit,
            r.inherits.prepend == self.inherits.prepend,
            r.inherits.delete == self.inherits.delete,
            r.specializes == self.specializes,
            r.active == self.active,
            r.instanceable == self.instanceable,
            r.authored_children == self.authored_children,
    {
        let mut s = self;
        s.add_inherit(path);
        s
    }

    /// Appends a specialize arc.
    pub fn add_specialize(&mut self, path: PathId)
        ensures
            final(self).specializes.append@ == old(self).specializes.append@.push(path),
            final(self).specializes.explicit == old(self).specializes.explicit,
            final(self).specializes.prepend == old(self).specializes.prepend,
            final(self).specializes.delete == old(self).specializes.delete,
            final(self).inherits == old(self).inherits,
            final(self).active == old(self).active,
            final(self).instanceable == old(self).instanceable,
            final(self).authored_children == old(self).authored_children,
    {
        self.specializes.append.push(path);
    }

    /// This spec with a specialize arc appended.
    pub fn with_specialize(self, path: PathId) -> (r: Self)
        ensures
            r.specializes.append@ == self.specializes.append@.push(path),
            r.specializes.explicit == self.specializes.explicit,
            r.specializes.prepend == self.specializes.prepend,
            r.specializes.delete == self.specializes.delete,
            r.inherits == self.inherits,
            r.active == self.active,
            r.instanceable == self.instanceable,
            r.authored_children == self.authored_children,
    {
        let mut s = self;
        s.add_specialize(path);
        s
    }

    /// This spec with the given authored children.
    pub fn with_children(self, children: Vec<TokenId>) -> (r: Self)
        ensures
            r.authored_children == children,
            r.specifier == self.specifier,
            r.schema_type == self.schema_type,
            r.fields == self.fields,
            r.variant_set_order == self.variant_set_order,
            r.variant_selections == self.variant_selections,
            r.variant_sets == self.variant_sets,
            r.prim_order == self.prim_order,
            r.inherits == self.inherits,
            r.specializes == self.specializes,
            r.active == self.active,
            r.instanceable == self.instanceable,
    {
        let mut s = self;
        s.authored_children = children;
        s
    }

    /// This spec with `instanceable` authored.
    pub fn with_instanceable(self, instanceable: bool) -> (r: Self)
        ensures
            r.instanceable == Some(instanceable),
            r.inherits == self.inherits,
            r.specializes == self.specializes,
            r.active == self.active,
            r.authored_children == self.authored_children,
    {
        let mut s = self;
        s.instanceable = Some(instanceable);
        s
    }

    /// This spec with `active` authored.
    pub fn with_active(self, active: bool) -> (r: Self)
        ensures
            r.active == Some(active),
            r.inherits == self.inherits,
            r.specializes == self.specializes,
            r.instanceable == self.instanceable,
            r.authored_children == self.authored_children,
    {
        let mut s = self;
        s.active = Some(active);
        s
    }
}

/// A layer: its id, its sublayers (strongest first) and its prim specs.
#[derive(Debug)]
pub struct Layer {
    /// Stable identifier of this layer.
    pub id: LayerId,
    /// Sublayers, strongest first; the layer itself is stronger than all of them.
    pub sublayers: Vec<LayerId>,
    /// Prim specs keyed by prim path.
    pub prims: PrimTable,
}

/// The prim specs of a layer.
pub open spec fn layer_prims(l: Layer) -> Map<PathId, PrimSpec> {
    prim_table_contents(l.prims)
}

impl Layer {
    /// An empty layer with no sublayers or prims.
    pub fn new(id: LayerId) -> (r: Self)
        ensures
            r.id == id,
            r.sublayers@.len() == 0,
            layer_prims(r).dom() == Set::<PathId>::empty(),
    {
        Layer { id, sublayers: Vec::new(), prims: prim_table_new() }
    }

    /// Inserts (or replaces) the prim spec at `path`.
    pub fn insert_prim(&mut self, path: PathId, spec: PrimSpec)
        ensures
            final(self).id == old(self).id,
            final(self).sublayers == old(self).sublayers,
            layer_prims(*final(self)) == layer_prims(*old(self)).insert(path, spec),
    {
        prim_table_insert(&mut self.prims, path, spec);
    }

    /// The prim spec at `path`, if the layer has one.
    pub fn prim(&self, path: PathId) -> (r: Option<&PrimSpec>)
        ensures
            r is Some <==> layer_prims(*self).dom().contains(path),
            r matches Some(s) ==> *s == layer_prims(*self)[path],
    {
        prim_table_get(&self.prims, path)
    }
}

/// Layers with the token and path interners they share.
#[derive(Debug)]
pub struct InMemoryStore {
    /// Shared token interner.
    pub tokens: TokenInterner,
    /// Shared path interner.
    pub paths: PathInterner,
    /// Layers keyed by numeric layer id.
    pub layers: LayerMap,
}

/// The layers of a store, keyed by numeric layer id.
pub open spec fn store_layers(s: InMemoryStore) -> Map<u64, Layer> {
    layer_map_contents(s.layers)
}

/// The sublayer lists of a store's layers.
pub open spec fn store_graph(layers: Map<u64, Layer>) -> Map<u64, Seq<LayerId>> {
    Map::new(|k: u64| layers.dom().contains(k), |k: u64| layers[k].sublayers@)
}

impl InMemoryStore {
    /// A store with no layers and empty interners.
    pub fn new() -> (r: Self)
        ensures
            store_layers(r).dom() == Set::<u64>::empty(),
            r.tokens@.len() == 0,
            r.paths@.len() == 0,
    {
        InMemoryStore { tokens: TokenInterner::new(), paths: PathInterner::new(), layers: layer_map_new() }
    }

    /// Inserts (or replaces) a layer under its id.
    pub fn insert_layer(&mut self, layer: Layer)
        ensures
            store_layers(*final(self)) == store_layers(*old(self)).insert(layer.id.0, layer),
            final(self).tokens == old(self).tokens,
            final(self).paths == old(self).paths,
    {
        let key = layer.id.0;
        layer_map_insert(&mut self.layers, key, layer);
    }

    /// The layer with id `id`, if the store holds it.
    pub fn layer(&self, id: LayerId) -> (r: Option<&Layer>)
        ensures
            r is Some <==> store_layers(*self).dom().contains(id.0),
            r matches Some(l) ==> *l == store_layers(*self)[id.0],
    {
        layer_map_get(&self.layers, id.0)
    }

    /// The sublayer graph of the store's layers.
    pub fn sublayer_graph(&self) -> (r: SublayerGraph)
        ensures
            r@ == store_graph(store_layers(*self)),
    {
        let ghost layers = store_layers(*self);
        let keys = layer_map_keys(&self.layers);
        let mut graph = SublayerGraph::new();
        let n = keys.len();
        let mut i: usize = 0;
        while i < n
            invariant
                n == keys@.len(),
                i <= n,
                layers == store_layers(*self),
                keys@.to_set() == layers.dom(),
                graph@ == store_graph(layers).restrict(keys@.take(i as int).to_set()),
            decreases n - i,
        {
            let k = keys[i];
            proof {
                assert(keys@.to_set().contains(k));
            }
            let layer = layer_map_get(&self.layers, k).unwrap();
            let subs = copy_ids(layer.sublayers.as_slice());
            let ghost before = graph@;
            graph.insert_layer(LayerId(k), subs);
            proof {
                assert(keys@.take(i + 1) =~= keys@.take(i as int).push(k));
                assert forall|x: u64| #[trigger] keys@.take(i + 1).to_set().contains(x) <==> keys@.take(
                    i as int,
                ).to_set().insert(k).contains(x) by {
                    vstd::seq_lib::lemma_seq_contains_after_push(keys@.take(i as int), k, x);
                }
                assert(keys@.take(i + 1).to_set() =~= keys@.take(i as int).to_set().insert(k));
                assert(graph@ =~= store_graph(layers).restrict(keys@.take(i + 1).to_set()));
            }
            i = i + 1;
        }
        proof {
            assert(keys@.take(n as int) =~= keys@);
            assert(graph@ =~= store_graph(layers));
        }
        graph
    }

    /// Gathers the layer stack rooted at `root` from the store's sublayer
    /// lists: the root first, then each sublayer's own stack in order (a
    /// layer already on the current chain is skipped).
    pub fn gather_stack(&self, root: LayerId) -> (r: LayerStack)
        ensures
            r.layers@.len() == gathered(store_graph(store_layers(*self)), root).len(),
            forall|i: int|
                0 <= i < r.layers@.len() ==> r.layers@[i] == (#[trigger] gathered(
                    store_graph(store_layers(*self)),
                    root,
                )[i]).layer,
    {
        let graph = self.sublayer_graph();
        LayerStack::gather(&graph, root)
    }
}

/// A copy of a list of layer ids.
fn copy_ids(ids: &[LayerId]) -> (r: Vec<LayerId>)
    ensures
        r@ == ids@,
{
    let mut out: Vec<LayerId> = Vec::new();
    let n = ids.len();
    let mut i: usize = 0;
    while i < n
        invariant
            n == ids@.len(),
            i <= n,
            out@ == ids@.take(i as int),
        decreases n - i,
    {
        out.push(ids[i]);
        proof {
            assert(ids@.take(i + 1) =~= ids@.take(i as int).push(ids@[i as int]));
        }
        i = i + 1;
    }
    proof {
        assert(ids@.take(n as int) =~= ids@);
    }
    out
}

} // verus!

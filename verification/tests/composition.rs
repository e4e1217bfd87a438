use layerstack::composition::{compose_stage, Stage};
use layerstack::hashed::OpinionsByPrim;
use layerstack::instancing::strip_instance_descendants;
use layerstack::population::build_children_index;
use layerstack::doc::{LayerId, Specifier, Value};
use layerstack::edges::{
    add_inherit_edge_opinions, add_payload_edge_opinions, add_reference_edge_opinions,
    add_specializes_edge_opinions, Reference,
};
use layerstack::listop::ListOp;
use layerstack::loading::layer_from_defs;
use layerstack::expansion::{expand_inherit_paths, expand_reference_paths, gather_populated_paths};
use layerstack::population::OrderedPathSet;
use layerstack::prim_defs::parse_prim_defs;
use layerstack::path::{Path, PathId};
use layerstack::prim_index::{ArcKind, OpinionKey};
use layerstack::stage::StageOptions;
use layerstack::store::{FieldEntry, FieldValue, InMemoryStore, Layer, PrimSpec, VariantSetSpec, VariantSpec};
use layerstack::variants::filter_variant_children;

fn path(store: &mut InMemoryStore, s: &str) -> PathId {
    let p = Path::parse_absolute(s, &mut store.tokens).unwrap();
    store.paths.intern(p)
}

fn key(kind: ArcKind, nested: Option<ArcKind>, strength: u16, layer: u64, spec: PathId) -> OpinionKey {
    OpinionKey {
        is_local: false,
        arc_kind: kind,
        nested_arc_kind: nested,
        namespace_depth: 1,
        authored: true,
        arc_list_index: 0,
        layer_strength: strength,
        layer_id: LayerId(layer),
        spec_path: spec,
    }
}

#[test]
fn compose_stage_populates_orders_and_resolves() {
    let mut store = InMemoryStore::new();
    let p = path(&mut store, "/P");
    let a = path(&mut store, "/P/A");
    let b = path(&mut store, "/P/B");
    let gone = path(&mut store, "/Gone");
    let gone_child = path(&mut store, "/Gone/Kid");
    let a_tok = store.tokens.intern("A");
    let b_tok = store.tokens.intern("B");
    let size = store.tokens.intern("size");
    let tags = store.tokens.intern("tags");

    let mut root = Layer::new(LayerId(1));
    root.sublayers = vec![LayerId(2)];
    let mut strong = PrimSpec::over();
    strong.prim_order = Some(vec![b_tok, a_tok]);
    strong.fields.push(FieldEntry { name: size, value: FieldValue::Value(Value::Int64(5)) });
    strong.fields.push(FieldEntry {
        name: tags,
        value: FieldValue::TokenListOp(ListOp { append: vec![b_tok], ..ListOp::default() }),
    });
    root.insert_prim(p, strong);
    root.insert_prim(gone, PrimSpec::def().with_active(false));
    store.insert_layer(root);

    let mut sub = Layer::new(LayerId(2));
    let mut weak = PrimSpec::def().with_children(vec![a_tok, b_tok]);
    weak.fields.push(FieldEntry { name: size, value: FieldValue::Value(Value::Int64(1)) });
    weak.fields.push(FieldEntry {
        name: tags,
        value: FieldValue::TokenListOp(ListOp { explicit: Some(vec![a_tok]), ..ListOp::default() }),
    });
    sub.insert_prim(p, weak);
    sub.insert_prim(a, PrimSpec::def());
    sub.insert_prim(b, PrimSpec::def());
    sub.insert_prim(gone_child, PrimSpec::def());
    store.insert_layer(sub);

    let stage = compose_stage(&mut store, LayerId(1), StageOptions::default()).unwrap();
    assert!(stage.has_prim(p));
    assert!(stage.has_prim(a));
    assert!(stage.has_prim(b));
    assert!(!stage.has_prim(gone));
    assert!(!stage.has_prim(gone_child));
    assert_eq!(stage.children_of(p).unwrap(), &vec![b, a]);
    assert_eq!(stage.prim_stack(p).unwrap(), vec![(LayerId(1), p), (LayerId(2), p)]);
    assert_eq!(stage.resolve_specifier(p, &store), Some(Specifier::Def));
    match stage.resolve_field(&store, p, size) {
        Some(Value::Int64(v)) => assert_eq!(*v, 5),
        _ => panic!("size should resolve to the strongest opinion"),
    }
    assert_eq!(stage.resolve_token_list(&store, p, tags).unwrap(), vec![a_tok, b_tok]);
}

#[test]
fn compose_stage_over_only_prim_stays_over() {
    let mut store = InMemoryStore::new();
    let q = path(&mut store, "/Q");
    let mut root = Layer::new(LayerId(1));
    root.insert_prim(q, PrimSpec::over());
    store.insert_layer(root);
    let stage = compose_stage(&mut store, LayerId(1), StageOptions::default()).unwrap();
    assert_eq!(stage.resolve_specifier(q, &store), Some(Specifier::Over));
}

#[test]
fn inherit_edge_adds_class_opinions_once() {
    let mut store = InMemoryStore::new();
    let p = path(&mut store, "/P");
    let child = path(&mut store, "/P/C");
    let class = path(&mut store, "/_Class");
    let class_child = path(&mut store, "/_Class/C");
    let mut root = Layer::new(LayerId(1));
    root.sublayers = vec![LayerId(2)];
    root.insert_prim(class, PrimSpec::class());
    store.insert_layer(root);
    let mut sub = Layer::new(LayerId(2));
    sub.insert_prim(class, PrimSpec::class());
    sub.insert_prim(class_child, PrimSpec::def());
    store.insert_layer(sub);
    let stack = vec![LayerId(1), LayerId(2)];

    let prims = vec![p, child];
    let mut sources: Vec<Vec<OpinionKey>> = vec![Vec::new(), Vec::new()];
    let mut visited: Vec<(PathId, PathId)> = Vec::new();
    add_inherit_edge_opinions(&store, &stack, p, class, None, 1, 0, &prims, &mut sources, &mut visited);
    assert_eq!(
        sources[0],
        vec![
            key(ArcKind::Inherits, None, 0, 1, class),
            key(ArcKind::Inherits, None, 1, 2, class),
        ]
    );
    assert_eq!(sources[1], vec![key(ArcKind::Inherits, None, 1, 2, class_child)]);
    assert_eq!(visited, vec![(p, class)]);

    // The same edge again changes nothing.
    add_inherit_edge_opinions(&store, &stack, p, class, None, 1, 0, &prims, &mut sources, &mut visited);
    assert_eq!(sources[0].len(), 2);
    assert_eq!(sources[1].len(), 1);

    // A specializes edge nested under a reference is keyed by the outer arc.
    let mut sources2: Vec<Vec<OpinionKey>> = vec![Vec::new(), Vec::new()];
    let mut visited2: Vec<(PathId, PathId)> = Vec::new();
    add_specializes_edge_opinions(
        &store,
        &stack,
        p,
        class,
        Some(ArcKind::References),
        1,
        0,
        &prims,
        &mut sources2,
        &mut visited2,
    );
    assert_eq!(
        sources2[1],
        vec![key(ArcKind::References, Some(ArcKind::Specializes), 1, 2, class_child)]
    );
}

#[test]
fn reference_edge_reads_the_referenced_stack() {
    let mut store = InMemoryStore::new();
    let p = path(&mut store, "/P");
    let model = path(&mut store, "/Model");
    let mut stage_layer = Layer::new(LayerId(1));
    stage_layer.insert_prim(p, PrimSpec::def());
    store.insert_layer(stage_layer);
    let mut asset = Layer::new(LayerId(5));
    asset.sublayers = vec![LayerId(6)];
    asset.insert_prim(model, PrimSpec::def());
    store.insert_layer(asset);
    let mut asset_sub = Layer::new(LayerId(6));
    asset_sub.insert_prim(model, PrimSpec::over());
    store.insert_layer(asset_sub);

    let prims = vec![p];
    let reference = Reference::new(LayerId(5), model);
    let mut sources: Vec<Vec<OpinionKey>> = vec![Vec::new()];
    let mut visited: Vec<(PathId, LayerId, PathId)> = Vec::new();
    add_reference_edge_opinions(&store, p, &reference, 1, 0, &prims, &mut sources, &mut visited);
    assert_eq!(
        sources[0],
        vec![
            key(ArcKind::References, None, 0, 5, model),
            key(ArcKind::References, None, 1, 6, model),
        ]
    );
    assert_eq!(visited, vec![(p, LayerId(5), model)]);

    let mut payload_sources: Vec<Vec<OpinionKey>> = vec![Vec::new()];
    let mut payload_visited: Vec<(PathId, LayerId, PathId)> = Vec::new();
    add_payload_edge_opinions(&store, p, &reference, 1, 0, &prims, &mut payload_sources, &mut payload_visited);
    assert_eq!(payload_sources[0][0], key(ArcKind::Payloads, None, 0, 5, model));

    // A destination that is not populated takes nothing.
    let other = path(&mut store, "/Other");
    let mut untouched: Vec<Vec<OpinionKey>> = vec![Vec::new()];
    let mut none_visited: Vec<(PathId, LayerId, PathId)> = Vec::new();
    add_reference_edge_opinions(&store, other, &reference, 1, 0, &prims, &mut untouched, &mut none_visited);
    assert!(untouched[0].is_empty());
    assert!(none_visited.is_empty());
}

fn local(layer: u64, spec: PathId) -> OpinionKey {
    OpinionKey {
        is_local: true,
        arc_kind: ArcKind::Local,
        nested_arc_kind: None,
        namespace_depth: 1,
        authored: true,
        arc_list_index: 0,
        layer_strength: 0,
        layer_id: LayerId(layer),
        spec_path: spec,
    }
}

#[test]
fn instancing_keeps_only_children_from_the_shared_arc() {
    let mut store = InMemoryStore::new();
    let inst = path(&mut store, "/Inst");
    let a = path(&mut store, "/Inst/A");
    let b = path(&mut store, "/Inst/B");
    let deep = path(&mut store, "/Inst/B/Deep");
    let a_own = path(&mut store, "/Inst/A/Own");
    let model = path(&mut store, "/Model");
    let model_a = path(&mut store, "/Model/A");
    let a_tok = store.tokens.intern("A");
    let b_tok = store.tokens.intern("B");

    let mut own = Layer::new(LayerId(1));
    own.insert_prim(inst, PrimSpec::def().with_instanceable(true));
    own.insert_prim(a, PrimSpec::over());
    own.insert_prim(b, PrimSpec::def());
    own.insert_prim(deep, PrimSpec::def());
    store.insert_layer(own);
    let mut shared = Layer::new(LayerId(5));
    shared.insert_prim(model, PrimSpec::def());
    shared.insert_prim(model_a, PrimSpec::def());
    store.insert_layer(shared);

    let reference = key(ArcKind::References, None, 0, 5, model);
    let reference_a = key(ArcKind::References, None, 0, 5, model_a);
    let prims = vec![inst, a, b, deep, a_own];
    let children = build_children_index(&store.tokens, &mut store.paths, &prims);
    let mut stage = Stage {
        dependencies: None,
        prims,
        sources: vec![
            vec![local(1, inst), reference],
            vec![local(1, a), reference_a],
            vec![local(1, b)],
            vec![local(1, deep)],
            vec![local(1, a_own)],
        ],
        children,
    };
    let mut authored = OpinionsByPrim::new();
    authored.push(inst, (reference, vec![a_tok]));
    authored.push(inst, (local(1, inst), vec![b_tok]));

    strip_instance_descendants(&store, &mut stage, &authored);
    assert_eq!(stage.prims, vec![inst, a, a_own]);
    assert_eq!(stage.sources, vec![vec![local(1, inst), reference], vec![reference_a], vec![]]);
    assert_eq!(stage.children_of(inst).unwrap(), &vec![a]);
    assert!(stage.children_of(a).unwrap().is_empty());
    assert!(stage.children_of(b).is_none());
}

#[test]
fn instancing_needs_an_instanceable_prim() {
    let mut store = InMemoryStore::new();
    let inst = path(&mut store, "/Inst");
    let b = path(&mut store, "/Inst/B");
    let model = path(&mut store, "/Model");
    let mut own = Layer::new(LayerId(1));
    own.insert_prim(inst, PrimSpec::def());
    own.insert_prim(b, PrimSpec::def());
    store.insert_layer(own);
    let reference = key(ArcKind::References, None, 0, 5, model);
    let prims = vec![inst, b];
    let children = build_children_index(&store.tokens, &mut store.paths, &prims);
    let mut stage =
        Stage { prims, sources: vec![vec![local(1, inst), reference], vec![local(1, b)]], children, dependencies: None };
    let authored = OpinionsByPrim::new();
    strip_instance_descendants(&store, &mut stage, &authored);
    assert_eq!(stage.prims, vec![inst, b]);
    assert_eq!(stage.sources[1], vec![local(1, b)]);
}

#[test]
fn layer_from_defs_builds_specs_with_children() {
    let text = "#usda 1.0\n\ndef Xform \"World\"\n{\n    def \"A\"\n    {\n    }\n    over \"B\"\n    {\n    }\n    def \"A\"\n    {\n    }\n}\n\nclass \"_C\"\n{\n}\n";
    let defs = parse_prim_defs(text);
    let mut store = InMemoryStore::new();
    let r = layer_from_defs(&mut store, LayerId(3), &defs, &[LayerId(4)]);
    assert_eq!(r, Some(LayerId(3)));
    let world = store.paths.lookup(&Path::parse_absolute("/World", &mut store.tokens).unwrap()).unwrap();
    let a = store.paths.lookup(&Path::parse_absolute("/World/A", &mut store.tokens).unwrap()).unwrap();
    let b = store.paths.lookup(&Path::parse_absolute("/World/B", &mut store.tokens).unwrap()).unwrap();
    let c = store.paths.lookup(&Path::parse_absolute("/_C", &mut store.tokens).unwrap()).unwrap();
    let a_tok = store.tokens.lookup("A").unwrap();
    let b_tok = store.tokens.lookup("B").unwrap();
    let layer = store.layer(LayerId(3)).unwrap();
    assert_eq!(layer.sublayers, vec![LayerId(4)]);
    let world_spec = layer.prim(world).unwrap();
    assert_eq!(world_spec.specifier, Some(Specifier::Def));
    assert_eq!(world_spec.authored_children, vec![a_tok, b_tok]);
    assert_eq!(layer.prim(b).unwrap().specifier, Some(Specifier::Over));
    assert!(layer.prim(a).unwrap().authored_children.is_empty());
    assert_eq!(layer.prim(c).unwrap().specifier, Some(Specifier::Class));
}

#[test]
fn layer_from_defs_refuses_a_relative_path() {
    let text = "#usda 1.0\n\ndef \"World\"\n{\n}\n";
    let mut defs = parse_prim_defs(text);
    defs[0].path = "World".to_string();
    let mut store = InMemoryStore::new();
    assert_eq!(layer_from_defs(&mut store, LayerId(1), &defs, &[]), None);
    assert!(store.layer(LayerId(1)).is_none());
}

#[test]
fn inherit_expansion_populates_class_children_under_the_prim() {
    let mut store = InMemoryStore::new();
    let p = path(&mut store, "/P");
    let class = path(&mut store, "/_Class");
    let class_kid = path(&mut store, "/_Class/Kid");
    let mut root = Layer::new(LayerId(1));
    root.insert_prim(p, PrimSpec::def());
    root.insert_prim(class, PrimSpec::class());
    root.insert_prim(class_kid, PrimSpec::def());
    store.insert_layer(root);
    let stack = vec![LayerId(1)];

    let mut set = OrderedPathSet::new();
    set.insert(p);
    let mut queue: Vec<PathId> = Vec::new();
    let mut visited: Vec<(PathId, PathId)> = Vec::new();
    assert!(expand_inherit_paths(&mut store, &stack, p, class, &mut set, &mut queue, &mut visited));
    let p_kid = store.paths.lookup(&Path::parse_absolute("/P/Kid", &mut store.tokens).unwrap()).unwrap();
    assert!(set.contains(p_kid));
    assert!(set.contains(p));
    assert_eq!(queue, vec![p_kid]);
    assert_eq!(visited, vec![(p, class)]);

    // The same edge again adds nothing.
    assert!(expand_inherit_paths(&mut store, &stack, p, class, &mut set, &mut queue, &mut visited));
    assert_eq!(queue, vec![p_kid]);
}

#[test]
fn reference_expansion_reads_the_referenced_stack() {
    let mut store = InMemoryStore::new();
    let p = path(&mut store, "/P");
    let model = path(&mut store, "/Model");
    let geom = path(&mut store, "/Model/Geom");
    let mut asset = Layer::new(LayerId(5));
    asset.insert_prim(model, PrimSpec::def());
    asset.insert_prim(geom, PrimSpec::def());
    store.insert_layer(asset);

    let mut set = OrderedPathSet::new();
    set.insert(p);
    let mut queue: Vec<PathId> = Vec::new();
    let mut visited: Vec<(PathId, LayerId, PathId)> = Vec::new();
    assert!(expand_reference_paths(&mut store, p, LayerId(5), model, &mut set, &mut queue, &mut visited));
    let p_geom = store.paths.lookup(&Path::parse_absolute("/P/Geom", &mut store.tokens).unwrap()).unwrap();
    assert!(set.contains(p_geom));
    assert_eq!(queue, vec![p_geom]);
}

#[test]
fn variant_children_follow_the_selection() {
    let mut store = InMemoryStore::new();
    let p = path(&mut store, "/P");
    let hi = path(&mut store, "/P/Hi");
    let lo = path(&mut store, "/P/Lo");
    let plain = path(&mut store, "/P/Plain");
    let lod = store.tokens.intern("lod");
    let high = store.tokens.intern("high");
    let low = store.tokens.intern("low");
    let hi_tok = store.tokens.intern("Hi");
    let lo_tok = store.tokens.intern("Lo");

    let mut spec = PrimSpec::def();
    spec.variant_selections.push((lod, low));
    spec.variant_sets.push(VariantSetSpec {
        name: lod,
        variants: vec![
            VariantSpec { name: high, authored_children: vec![hi_tok] },
            VariantSpec { name: low, authored_children: vec![lo_tok] },
        ],
    });
    let mut root = Layer::new(LayerId(1));
    root.insert_prim(p, spec);
    store.insert_layer(root);

    let prims = vec![p, hi, lo, plain];
    let children = build_children_index(&store.tokens, &mut store.paths, &prims);
    let mut stage = Stage { prims, sources: vec![vec![local(1, p)], vec![], vec![], vec![]], children, dependencies: None };
    assert_eq!(stage.children_of(p).unwrap(), &vec![hi, lo, plain]);
    filter_variant_children(&store, &mut stage);
    assert_eq!(stage.children_of(p).unwrap(), &vec![lo, plain]);
}

#[test]
fn population_follows_inherits_and_specializes() {
    let mut store = InMemoryStore::new();
    let p = path(&mut store, "/P");
    let q = path(&mut store, "/Q");
    let class = path(&mut store, "/_C");
    let class_kid = path(&mut store, "/_C/Kid");
    let base = path(&mut store, "/_Base");
    let base_part = path(&mut store, "/_Base/Part");
    let mut root = Layer::new(LayerId(1));
    root.insert_prim(p, PrimSpec::def().with_inherit(class));
    root.insert_prim(q, PrimSpec::def().with_specialize(base));
    root.insert_prim(class, PrimSpec::class());
    root.insert_prim(class_kid, PrimSpec::def());
    root.insert_prim(base, PrimSpec::class());
    root.insert_prim(base_part, PrimSpec::def());
    store.insert_layer(root);

    let set = gather_populated_paths(&mut store, &[LayerId(1)]).unwrap();
    let p_kid = store.paths.lookup(&Path::parse_absolute("/P/Kid", &mut store.tokens).unwrap()).unwrap();
    let q_part = store.paths.lookup(&Path::parse_absolute("/Q/Part", &mut store.tokens).unwrap()).unwrap();
    for id in [p, q, class, class_kid, base, base_part, p_kid, q_part] {
        assert!(set.contains(id));
    }
    assert_eq!(set.to_vec().len(), 8);
}

#[test]
fn compose_stage_drops_unselected_variant_children() {
    let mut store = InMemoryStore::new();
    let p = path(&mut store, "/P");
    let hi = path(&mut store, "/P/Hi");
    let lo = path(&mut store, "/P/Lo");
    let lod = store.tokens.intern("lod");
    let high = store.tokens.intern("high");
    let low = store.tokens.intern("low");
    let hi_tok = store.tokens.intern("Hi");
    let lo_tok = store.tokens.intern("Lo");
    let mut spec = PrimSpec::def();
    spec.variant_selections.push((lod, high));
    spec.variant_sets.push(VariantSetSpec {
        name: lod,
        variants: vec![
            VariantSpec { name: high, authored_children: vec![hi_tok] },
            VariantSpec { name: low, authored_children: vec![lo_tok] },
        ],
    });
    let mut root = Layer::new(LayerId(1));
    root.insert_prim(p, spec);
    root.insert_prim(hi, PrimSpec::over());
    root.insert_prim(lo, PrimSpec::over());
    store.insert_layer(root);
    let stage = compose_stage(&mut store, LayerId(1), StageOptions::default()).unwrap();
    assert_eq!(stage.children_of(p).unwrap(), &vec![hi]);
}

#[test]
fn compose_stage_brings_in_class_opinions() {
    let mut store = InMemoryStore::new();
    let p = path(&mut store, "/P");
    let class = path(&mut store, "/_C");
    let class_kid = path(&mut store, "/_C/Kid");
    let size = store.tokens.intern("size");
    let mut root = Layer::new(LayerId(1));
    root.insert_prim(p, PrimSpec::def().with_inherit(class));
    let mut class_spec = PrimSpec::class();
    class_spec.fields.push(FieldEntry { name: size, value: FieldValue::Value(Value::Int64(7)) });
    root.insert_prim(class, class_spec);
    root.insert_prim(class_kid, PrimSpec::def());
    store.insert_layer(root);

    let stage = compose_stage(&mut store, LayerId(1), StageOptions::default()).unwrap();
    let p_kid = store.paths.lookup(&Path::parse_absolute("/P/Kid", &mut store.tokens).unwrap()).unwrap();
    assert!(stage.has_prim(p_kid));
    assert_eq!(stage.prim_stack(p).unwrap(), vec![(LayerId(1), p), (LayerId(1), class)]);
    assert_eq!(stage.prim_stack(p_kid).unwrap(), vec![(LayerId(1), class_kid)]);
    match stage.resolve_field(&store, p, size) {
        Some(Value::Int64(v)) => assert_eq!(*v, 7),
        _ => panic!("size should come from the inherited class"),
    }
    assert_eq!(stage.resolve_specifier(p_kid, &store), Some(Specifier::Def));
    assert_eq!(stage.children_of(p).unwrap(), &vec![p_kid]);
}

#[test]
fn compose_stage_reads_active_through_arcs() {
    let mut store = InMemoryStore::new();
    let p = path(&mut store, "/P");
    let q = path(&mut store, "/Q");
    let class = path(&mut store, "/_Off");
    let mut root = Layer::new(LayerId(1));
    root.insert_prim(p, PrimSpec::def().with_inherit(class));
    root.insert_prim(q, PrimSpec::def().with_inherit(class).with_active(true));
    root.insert_prim(class, PrimSpec::class().with_active(false));
    store.insert_layer(root);

    let stage = compose_stage(&mut store, LayerId(1), StageOptions::default()).unwrap();
    assert!(!stage.has_prim(p));
    assert!(stage.has_prim(q));
    assert!(!stage.has_prim(class));
}

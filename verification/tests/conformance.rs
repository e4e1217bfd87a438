use layerstack::composition::compose_stage;
use layerstack::doc::{LayerId, Specifier, Value};
use layerstack::listop::ListOp;
use layerstack::prim_index::ArcKind;
use layerstack::resolve::ResolvedValue;
use layerstack::path::{Path, PathId};
use layerstack::stage::StageOptions;
use layerstack::store::{FieldEntry, FieldValue, InMemoryStore, Layer, PrimSpec};

fn path(store: &mut InMemoryStore, s: &str) -> PathId {
    let p = Path::parse_absolute(s, &mut store.tokens).unwrap();
    store.paths.intern(p)
}

fn with_field(mut spec: PrimSpec, name: layerstack::interner::TokenId, value: Value) -> PrimSpec {
    spec.fields.push(FieldEntry { name, value: FieldValue::Value(value) });
    spec
}

#[test]
fn specifier_resolution_follows_strongest_defining() {
    let mut store = InMemoryStore::new();
    let prim = path(&mut store, "/P");

    let mut root_layer = Layer::new(LayerId(1));
    root_layer.sublayers = vec![LayerId(2), LayerId(3)];
    root_layer.insert_prim(prim, PrimSpec::over());
    store.insert_layer(root_layer);

    let mut sub1 = Layer::new(LayerId(2));
    sub1.insert_prim(prim, PrimSpec::def());
    store.insert_layer(sub1);

    let mut sub2 = Layer::new(LayerId(3));
    sub2.insert_prim(prim, PrimSpec::class());
    store.insert_layer(sub2);

    let stage = compose_stage(&mut store, LayerId(1), StageOptions::default()).unwrap();

    assert_eq!(stage.resolve_specifier(prim, &store), Some(Specifier::Def));
    assert!(stage.is_defined(prim, &store));
    assert!(!stage.is_abstract(prim, &store));
}

#[test]
fn specifier_all_over_is_undefining() {
    let mut store = InMemoryStore::new();
    let prim = path(&mut store, "/P");

    let mut root_layer = Layer::new(LayerId(1));
    root_layer.sublayers = vec![LayerId(2)];
    root_layer.insert_prim(prim, PrimSpec::over());
    store.insert_layer(root_layer);

    let mut sub = Layer::new(LayerId(2));
    sub.insert_prim(prim, PrimSpec::over());
    store.insert_layer(sub);

    let stage = compose_stage(&mut store, LayerId(1), StageOptions::default()).unwrap();

    assert_eq!(stage.resolve_specifier(prim, &store), Some(Specifier::Over));
    assert!(!stage.is_defined(prim, &store));
}

#[test]
fn specifier_class_is_abstract() {
    let mut store = InMemoryStore::new();
    let prim = path(&mut store, "/P");

    let mut root_layer = Layer::new(LayerId(1));
    root_layer.insert_prim(prim, PrimSpec::class());
    store.insert_layer(root_layer);

    let stage = compose_stage(&mut store, LayerId(1), StageOptions::default()).unwrap();

    assert_eq!(stage.resolve_specifier(prim, &store), Some(Specifier::Class));
    assert!(stage.is_defined(prim, &store));
    assert!(stage.is_abstract(prim, &store));
}

#[test]
fn value_blocked_only_affects_blocked_field() {
    let mut store = InMemoryStore::new();
    let prim = path(&mut store, "/P");
    let field_x = store.tokens.intern("x");
    let field_y = store.tokens.intern("y");

    let mut layer = Layer::new(LayerId(1));
    let spec = with_field(with_field(PrimSpec::with_specifier(None), field_x, Value::Blocked), field_y, Value::Int64(99));
    layer.insert_prim(prim, spec);
    store.insert_layer(layer);

    let stage = compose_stage(&mut store, LayerId(1), StageOptions::default()).unwrap();

    assert!(stage.resolve_field(&store, prim, field_x).is_none());
    assert_eq!(*stage.resolve_field(&store, prim, field_y).expect("y exists"), Value::Int64(99));
}

#[test]
fn deactivated_prim_excluded_from_stage() {
    let mut store = InMemoryStore::new();
    let root = path(&mut store, "/");
    let p = path(&mut store, "/Active");
    let q = path(&mut store, "/Inactive");
    let active_tok = store.tokens.intern("Active");
    let inactive_tok = store.tokens.intern("Inactive");

    let mut layer = Layer::new(LayerId(1));
    layer.insert_prim(root, PrimSpec::with_specifier(None).with_children(vec![active_tok, inactive_tok]));
    layer.insert_prim(p, PrimSpec::def());
    layer.insert_prim(q, PrimSpec::def().with_active(false));
    store.insert_layer(layer);

    let stage = compose_stage(&mut store, LayerId(1), StageOptions::default()).unwrap();

    assert!(stage.has_prim(p), "active prim should be present");
    assert!(!stage.has_prim(q), "deactivated prim should be excluded");
}

#[test]
fn deactivated_prim_descendants_excluded() {
    let mut store = InMemoryStore::new();
    let root = path(&mut store, "/");
    let parent = path(&mut store, "/Parent");
    let child = path(&mut store, "/Parent/Child");
    let grandchild = path(&mut store, "/Parent/Child/Grandchild");
    let parent_tok = store.tokens.intern("Parent");
    let child_tok = store.tokens.intern("Child");
    let gc_tok = store.tokens.intern("Grandchild");

    let mut layer = Layer::new(LayerId(1));
    layer.insert_prim(root, PrimSpec::with_specifier(None).with_children(vec![parent_tok]));
    layer.insert_prim(parent, PrimSpec::def().with_active(false).with_children(vec![child_tok]));
    layer.insert_prim(child, PrimSpec::def().with_children(vec![gc_tok]));
    layer.insert_prim(grandchild, PrimSpec::def());
    store.insert_layer(layer);

    let stage = compose_stage(&mut store, LayerId(1), StageOptions::default()).unwrap();

    assert!(!stage.has_prim(parent), "deactivated parent excluded");
    assert!(!stage.has_prim(child), "child of deactivated parent excluded");
    assert!(!stage.has_prim(grandchild), "grandchild of deactivated parent excluded");
}

#[test]
fn explicitly_active_prim_remains() {
    let mut store = InMemoryStore::new();
    let root = path(&mut store, "/");
    let p = path(&mut store, "/P");
    let p_tok = store.tokens.intern("P");

    let mut layer = Layer::new(LayerId(1));
    layer.insert_prim(root, PrimSpec::with_specifier(None).with_children(vec![p_tok]));
    layer.insert_prim(p, PrimSpec::def().with_active(true));
    store.insert_layer(layer);

    let stage = compose_stage(&mut store, LayerId(1), StageOptions::default()).unwrap();

    assert!(stage.has_prim(p), "explicitly active prim should remain");
}

#[test]
fn active_strongest_opinion_wins() {
    let mut store = InMemoryStore::new();
    let root = path(&mut store, "/");
    let p = path(&mut store, "/P");
    let p_tok = store.tokens.intern("P");
    let field_x = store.tokens.intern("x");

    let mut root_layer = Layer::new(LayerId(1));
    root_layer.sublayers = vec![LayerId(2)];
    root_layer.insert_prim(root, PrimSpec::with_specifier(None).with_children(vec![p_tok]));
    root_layer.insert_prim(p, with_field(PrimSpec::def().with_active(true), field_x, Value::Int64(1)));
    store.insert_layer(root_layer);

    let mut sub_layer = Layer::new(LayerId(2));
    sub_layer.insert_prim(p, PrimSpec::def().with_active(false));
    store.insert_layer(sub_layer);

    let stage = compose_stage(&mut store, LayerId(1), StageOptions::default()).unwrap();

    assert!(stage.has_prim(p), "stronger active=true should override weaker active=false");
    assert_eq!(*stage.resolve_field(&store, p, field_x).expect("field exists"), Value::Int64(1));
}

#[test]
fn weaker_active_false_deactivates() {
    let mut store = InMemoryStore::new();
    let root = path(&mut store, "/");
    let p = path(&mut store, "/P");
    let p_tok = store.tokens.intern("P");

    let mut root_layer = Layer::new(LayerId(1));
    root_layer.sublayers = vec![LayerId(2)];
    root_layer.insert_prim(root, PrimSpec::with_specifier(None).with_children(vec![p_tok]));
    root_layer.insert_prim(p, PrimSpec::def());
    store.insert_layer(root_layer);

    let mut sub_layer = Layer::new(LayerId(2));
    sub_layer.insert_prim(p, PrimSpec::def().with_active(false));
    store.insert_layer(sub_layer);

    let stage = compose_stage(&mut store, LayerId(1), StageOptions::default()).unwrap();

    assert!(!stage.has_prim(p), "only opinion is active=false; prim should be excluded");
}

fn with_tokens(
    mut spec: PrimSpec,
    name: layerstack::interner::TokenId,
    op: ListOp<layerstack::interner::TokenId>,
) -> PrimSpec {
    spec.fields.push(FieldEntry { name, value: FieldValue::TokenListOp(op) });
    spec
}

#[test]
fn listop_chain_is_applied_strong_to_weak() {
    let mut store = InMemoryStore::new();
    let field_classes = store.tokens.intern("classes");
    let class_a = store.tokens.intern("a");
    let class_b = store.tokens.intern("b");
    let prim = path(&mut store, "/P");

    let mut root_layer = Layer::new(LayerId(1));
    root_layer.sublayers = vec![LayerId(2)];
    root_layer.insert_prim(
        prim,
        with_tokens(PrimSpec::with_specifier(None), field_classes, ListOp { append: vec![class_a], ..ListOp::default() }),
    );
    store.insert_layer(root_layer);

    let mut sub_layer = Layer::new(LayerId(2));
    sub_layer.insert_prim(
        prim,
        with_tokens(PrimSpec::with_specifier(None), field_classes, ListOp { append: vec![class_b], ..ListOp::default() }),
    );
    store.insert_layer(sub_layer);

    let stage = compose_stage(&mut store, LayerId(1), StageOptions::default()).unwrap();
    let resolved = stage.resolve_token_list(&store, prim, field_classes).expect("field exists");
    assert_eq!(resolved, vec![class_b, class_a]);
}

#[test]
fn token_listop_append_reorders_duplicates() {
    let mut store = InMemoryStore::new();
    let prim = path(&mut store, "/P");
    let field_classes = store.tokens.intern("classes");
    let class_a = store.tokens.intern("a");
    let class_b = store.tokens.intern("b");

    let mut root_layer = Layer::new(LayerId(1));
    root_layer.sublayers = vec![LayerId(2)];
    root_layer.insert_prim(
        prim,
        with_tokens(PrimSpec::with_specifier(None), field_classes, ListOp { append: vec![class_a], ..ListOp::default() }),
    );
    store.insert_layer(root_layer);

    let mut sub_layer = Layer::new(LayerId(2));
    sub_layer.insert_prim(
        prim,
        with_tokens(
            PrimSpec::with_specifier(None),
            field_classes,
            ListOp { explicit: Some(vec![class_a, class_b]), ..ListOp::default() },
        ),
    );
    store.insert_layer(sub_layer);

    let stage = compose_stage(&mut store, LayerId(1), StageOptions::default()).unwrap();
    let resolved = stage.resolve_token_list(&store, prim, field_classes).expect("field exists");
    assert_eq!(resolved, vec![class_b, class_a]);
}

#[test]
fn token_listop_prepend_and_append_match_supplemental_list_editing_order() {
    let mut store = InMemoryStore::new();
    let prim = path(&mut store, "/A");
    let field_targets = store.tokens.intern("targets");
    let root_prepend = store.tokens.intern("root_prepend");
    let sub1_prepend = store.tokens.intern("sub1_prepend");
    let sub2_prepend = store.tokens.intern("sub2_prepend");
    let sub2_append = store.tokens.intern("sub2_append");
    let sub1_append = store.tokens.intern("sub1_append");
    let root_append = store.tokens.intern("root_append");

    let mut root_layer = Layer::new(LayerId(1));
    root_layer.sublayers = vec![LayerId(2), LayerId(3)];
    root_layer.insert_prim(
        prim,
        with_tokens(
            PrimSpec::with_specifier(None),
            field_targets,
            ListOp { prepend: vec![root_prepend], append: vec![root_append], ..ListOp::default() },
        ),
    );
    store.insert_layer(root_layer);

    let mut sub1_layer = Layer::new(LayerId(2));
    sub1_layer.insert_prim(
        prim,
        with_tokens(
            PrimSpec::with_specifier(None),
            field_targets,
            ListOp { prepend: vec![sub1_prepend], append: vec![sub1_append], ..ListOp::default() },
        ),
    );
    store.insert_layer(sub1_layer);

    let mut sub2_layer = Layer::new(LayerId(3));
    sub2_layer.insert_prim(
        prim,
        with_tokens(
            PrimSpec::with_specifier(None),
            field_targets,
            ListOp { prepend: vec![sub2_prepend], append: vec![sub2_append], ..ListOp::default() },
        ),
    );
    store.insert_layer(sub2_layer);

    let stage = compose_stage(&mut store, LayerId(1), StageOptions::default()).unwrap();
    let resolved = stage.resolve_token_list(&store, prim, field_targets).expect("field exists");
    assert_eq!(
        resolved,
        vec![root_prepend, sub1_prepend, sub2_prepend, sub2_append, sub1_append, root_append]
    );
}

#[test]
fn token_listop_prepend_composes_before_explicit() {
    let mut store = InMemoryStore::new();
    let prim = path(&mut store, "/Card");
    let api_schemas = store.tokens.intern("apiSchemas");
    let original = store.tokens.intern("OriginalAPI");
    let prepended = store.tokens.intern("PrependedAPI");

    let mut sub_layer = Layer::new(LayerId(2));
    sub_layer.insert_prim(
        prim,
        with_tokens(PrimSpec::with_specifier(None), api_schemas, ListOp { explicit: Some(vec![original]), ..ListOp::default() }),
    );
    store.insert_layer(sub_layer);

    let mut root_layer = Layer::new(LayerId(1));
    root_layer.sublayers = vec![LayerId(2)];
    root_layer.insert_prim(
        prim,
        with_tokens(PrimSpec::with_specifier(None), api_schemas, ListOp { prepend: vec![prepended], ..ListOp::default() }),
    );
    store.insert_layer(root_layer);

    let stage = compose_stage(&mut store, LayerId(1), StageOptions::default()).unwrap();
    let resolved = stage.resolve_token_list(&store, prim, api_schemas).expect("apiSchemas field");
    assert_eq!(resolved, vec![prepended, original], "prepend should appear before the explicit list");
}

#[test]
fn array_value_strongest_wins() {
    let mut store = InMemoryStore::new();
    let field = store.tokens.intern("points");
    let p = path(&mut store, "/P");

    let mut root_layer = Layer::new(LayerId(1));
    root_layer.sublayers.push(LayerId(2));
    root_layer.insert_prim(
        p,
        with_field(
            PrimSpec::def(),
            field,
            Value::Array(vec![Value::Float(1.0f32.to_bits()), Value::Float(2.0f32.to_bits())]),
        ),
    );
    store.insert_layer(root_layer);

    let mut sub_layer = Layer::new(LayerId(2));
    sub_layer.insert_prim(
        p,
        with_field(
            PrimSpec::with_specifier(None),
            field,
            Value::Array(vec![
                Value::Float(9.0f32.to_bits()),
                Value::Float(8.0f32.to_bits()),
                Value::Float(7.0f32.to_bits()),
            ]),
        ),
    );
    store.insert_layer(sub_layer);

    let stage = compose_stage(&mut store, LayerId(1), StageOptions::default()).unwrap();
    let resolved = stage.resolve_field(&store, p, field).expect("array resolves");
    assert_eq!(*resolved, Value::Array(vec![Value::Float(1.0f32.to_bits()), Value::Float(2.0f32.to_bits())]));
}

fn dict_entry(key: &str, val: Value) -> (String, Value) {
    (key.to_string(), val)
}

#[test]
fn dictionary_combining_across_sublayers() {
    let mut store = InMemoryStore::new();
    let field = store.tokens.intern("customData");
    let p = path(&mut store, "/P");

    let mut root_layer = Layer::new(LayerId(1));
    root_layer.sublayers.push(LayerId(2));
    root_layer.insert_prim(p, with_field(PrimSpec::def(), field, Value::Dictionary(vec![dict_entry("a", Value::Int(1))])));
    store.insert_layer(root_layer);

    let mut sub_layer = Layer::new(LayerId(2));
    sub_layer.insert_prim(
        p,
        with_field(
            PrimSpec::with_specifier(None),
            field,
            Value::Dictionary(vec![dict_entry("a", Value::Int(99)), dict_entry("b", Value::Int(2))]),
        ),
    );
    store.insert_layer(sub_layer);

    let stage = compose_stage(&mut store, LayerId(1), StageOptions::default()).unwrap();
    let resolved = stage.resolve_dictionary(&store, p, field).expect("dictionary resolved");
    assert_eq!(resolved, vec![dict_entry("a", Value::Int(1)), dict_entry("b", Value::Int(2))]);
}

#[test]
fn dictionary_nested_combining() {
    let mut store = InMemoryStore::new();
    let field = store.tokens.intern("customData");
    let p = path(&mut store, "/P");

    let mut root_layer = Layer::new(LayerId(1));
    root_layer.sublayers.push(LayerId(2));
    root_layer.insert_prim(
        p,
        with_field(
            PrimSpec::def(),
            field,
            Value::Dictionary(vec![dict_entry("sub", Value::Dictionary(vec![dict_entry("x", Value::Int(10))]))]),
        ),
    );
    store.insert_layer(root_layer);

    let mut sub_layer = Layer::new(LayerId(2));
    sub_layer.insert_prim(
        p,
        with_field(
            PrimSpec::with_specifier(None),
            field,
            Value::Dictionary(vec![dict_entry(
                "sub",
                Value::Dictionary(vec![dict_entry("x", Value::Int(99)), dict_entry("y", Value::Int(20))]),
            )]),
        ),
    );
    store.insert_layer(sub_layer);

    let stage = compose_stage(&mut store, LayerId(1), StageOptions::default()).unwrap();
    let resolved = stage.resolve_dictionary(&store, p, field).expect("nested dict resolved");
    assert_eq!(
        resolved,
        vec![dict_entry(
            "sub",
            Value::Dictionary(vec![dict_entry("x", Value::Int(10)), dict_entry("y", Value::Int(20))])
        )]
    );
}

#[test]
fn dictionary_blocked_value_suppresses() {
    let mut store = InMemoryStore::new();
    let field = store.tokens.intern("customData");
    let p = path(&mut store, "/P");

    let mut root_layer = Layer::new(LayerId(1));
    root_layer.sublayers.push(LayerId(2));
    root_layer.insert_prim(p, with_field(PrimSpec::def(), field, Value::Blocked));
    store.insert_layer(root_layer);

    let mut sub_layer = Layer::new(LayerId(2));
    sub_layer.insert_prim(
        p,
        with_field(PrimSpec::with_specifier(None), field, Value::Dictionary(vec![dict_entry("a", Value::Int(1))])),
    );
    store.insert_layer(sub_layer);

    let stage = compose_stage(&mut store, LayerId(1), StageOptions::default()).unwrap();
    let resolved = stage.resolve_dictionary(&store, p, field);
    assert!(resolved.is_none(), "blocked should suppress dictionary");
}

#[test]
fn value_blocked_suppresses_weaker_opinions() {
    let mut store = InMemoryStore::new();
    let prim = path(&mut store, "/P");
    let field_x = store.tokens.intern("x");

    let mut root_layer = Layer::new(LayerId(1));
    root_layer.sublayers = vec![LayerId(2)];
    root_layer.insert_prim(prim, with_field(PrimSpec::with_specifier(None), field_x, Value::Blocked));
    store.insert_layer(root_layer);

    let mut sub_layer = Layer::new(LayerId(2));
    sub_layer.insert_prim(prim, with_field(PrimSpec::with_specifier(None), field_x, Value::Int64(42)));
    store.insert_layer(sub_layer);

    let stage = compose_stage(&mut store, LayerId(1), StageOptions::default()).unwrap();

    assert!(stage.resolve_field(&store, prim, field_x).is_none());
    assert!(stage.resolve_value(&store, prim, field_x).is_none());
}

#[test]
fn resolve_value_returns_dictionary_variant() {
    let mut store = InMemoryStore::new();
    let field = store.tokens.intern("customData");
    let p = path(&mut store, "/P");

    let mut layer = Layer::new(LayerId(1));
    layer.insert_prim(
        p,
        with_field(PrimSpec::def(), field, Value::Dictionary(vec![dict_entry("x", Value::Double(1.5f64.to_bits()))])),
    );
    store.insert_layer(layer);

    let stage = compose_stage(&mut store, LayerId(1), StageOptions::default()).unwrap();
    let resolved = stage.resolve_value(&store, p, field).expect("dictionary resolves");
    match resolved {
        ResolvedValue::Dictionary(d) => {
            assert_eq!(d, vec![dict_entry("x", Value::Double(1.5f64.to_bits()))]);
        },
        other => panic!("expected ResolvedValue::Dictionary, got {:?}", other),
    }
}

#[test]
fn child_order_reorder_name_children_matches_supplemental_fixture() {
    let mut store = InMemoryStore::new();

    let a = store.tokens.intern("a");
    let b = store.tokens.intern("b");
    let c = store.tokens.intern("c");
    let f = store.tokens.intern("f");
    let x = store.tokens.intern("x");
    let y = store.tokens.intern("y");
    let z = store.tokens.intern("z");

    let prim_a = path(&mut store, "/A");
    let a_a = path(&mut store, "/A/a");
    let a_b = path(&mut store, "/A/b");
    let a_c = path(&mut store, "/A/c");
    let a_f = path(&mut store, "/A/f");
    let a_x = path(&mut store, "/A/x");
    let a_y = path(&mut store, "/A/y");
    let a_z = path(&mut store, "/A/z");

    let mut root_layer = Layer::new(LayerId(1));
    root_layer.sublayers = vec![LayerId(2), LayerId(3)];
    let mut root_spec = PrimSpec::with_specifier(None).with_children(vec![f]);
    root_spec.prim_order = Some(vec![z, f, y]);
    root_layer.insert_prim(prim_a, root_spec);
    root_layer.insert_prim(a_f, PrimSpec::with_specifier(None));
    store.insert_layer(root_layer);

    let mut sub1_layer = Layer::new(LayerId(2));
    let mut sub1_spec = PrimSpec::with_specifier(None).with_children(vec![a, b, c]);
    sub1_spec.prim_order = Some(vec![z, x, b]);
    sub1_layer.insert_prim(prim_a, sub1_spec);
    sub1_layer.insert_prim(a_a, PrimSpec::with_specifier(None));
    sub1_layer.insert_prim(a_b, PrimSpec::with_specifier(None));
    sub1_layer.insert_prim(a_c, PrimSpec::with_specifier(None));
    store.insert_layer(sub1_layer);

    let mut sub2_layer = Layer::new(LayerId(3));
    let sub2_spec = PrimSpec::with_specifier(None).with_children(vec![x, y, z]);
    sub2_layer.insert_prim(prim_a, sub2_spec);
    sub2_layer.insert_prim(a_x, PrimSpec::with_specifier(None));
    sub2_layer.insert_prim(a_y, PrimSpec::with_specifier(None));
    sub2_layer.insert_prim(a_z, PrimSpec::with_specifier(None));
    store.insert_layer(sub2_layer);

    let stage = compose_stage(&mut store, LayerId(1), StageOptions::default()).unwrap();
    let actual = stage.children_of(prim_a).expect("children list");
    assert_eq!(actual.as_slice(), &[a_z, a_a, a_x, a_f, a_y, a_b, a_c]);
}

#[test]
fn explain_field_returns_sorted_opinion_stack() {
    let mut store = InMemoryStore::new();
    let prim = path(&mut store, "/P");
    let field_x = store.tokens.intern("x");

    let mut root_layer = Layer::new(LayerId(1));
    root_layer.sublayers = vec![LayerId(2)];
    root_layer.insert_prim(prim, with_field(PrimSpec::with_specifier(None), field_x, Value::Int64(1)));
    store.insert_layer(root_layer);

    let mut sub_layer = Layer::new(LayerId(2));
    sub_layer.insert_prim(prim, with_field(PrimSpec::with_specifier(None), field_x, Value::Int64(2)));
    store.insert_layer(sub_layer);

    let stage = compose_stage(&mut store, LayerId(1), StageOptions::default()).unwrap();
    let stack = stage.explain_field(&store, prim, field_x).expect("opinions exist");
    assert_eq!(stack.len(), 2);
    assert_eq!(stack[0].layer_id, LayerId(1));
    assert_eq!(stack[1].layer_id, LayerId(2));
    assert_eq!(*stage.resolve_field(&store, prim, field_x).expect("scalar"), Value::Int64(1));
}

#[test]
fn sublayer_strength_local_beats_sublayer() {
    let mut store = InMemoryStore::new();
    let field_x = store.tokens.intern("x");
    let p = path(&mut store, "/P");

    let mut root_layer = Layer::new(LayerId(1));
    root_layer.sublayers = vec![LayerId(2)];
    root_layer.insert_prim(p, with_field(PrimSpec::with_specifier(None), field_x, Value::Int64(1)));
    store.insert_layer(root_layer);

    let mut sub_layer = Layer::new(LayerId(2));
    sub_layer.insert_prim(p, with_field(PrimSpec::with_specifier(None), field_x, Value::Int64(2)));
    store.insert_layer(sub_layer);

    let stage = compose_stage(&mut store, LayerId(1), StageOptions { with_provenance: true, ..StageOptions::default() })
        .unwrap();

    let resolved = stage.resolve_field(&store, p, field_x).expect("field exists");
    assert_eq!(*resolved, Value::Int64(1));
    let prov = stage.field_provenance(&store, p, field_x).expect("provenance enabled");
    assert_eq!(prov.0, LayerId(1));
}

#[test]
fn resolve_value_distinguishes_scalar_and_list() {
    let mut store = InMemoryStore::new();
    let prim = path(&mut store, "/P");
    let field_x = store.tokens.intern("x");
    let field_classes = store.tokens.intern("classes");
    let class_a = store.tokens.intern("a");

    let mut layer = Layer::new(LayerId(1));
    let spec = with_tokens(
        with_field(PrimSpec::with_specifier(None), field_x, Value::Int64(123)),
        field_classes,
        ListOp { append: vec![class_a], ..ListOp::default() },
    );
    layer.insert_prim(prim, spec);
    store.insert_layer(layer);

    let stage = compose_stage(&mut store, LayerId(1), StageOptions { with_provenance: true, ..StageOptions::default() })
        .unwrap();

    match stage.resolve_value(&store, prim, field_x).expect("field exists") {
        ResolvedValue::Scalar(v) => assert_eq!(v, Value::Int64(123)),
        other => panic!("expected a scalar, got {:?}", other),
    }
    assert_eq!(stage.field_provenance(&store, prim, field_x).unwrap().0, LayerId(1));

    match stage.resolve_value(&store, prim, field_classes).expect("field exists") {
        ResolvedValue::TokenList(v) => assert_eq!(v, vec![class_a]),
        other => panic!("expected a token list, got {:?}", other),
    }
    assert_eq!(stage.field_provenance(&store, prim, field_classes).unwrap().0, LayerId(1));

    assert_eq!(*stage.resolve_field(&store, prim, field_x).expect("scalar"), Value::Int64(123));
    assert!(stage.resolve_field(&store, prim, field_classes).is_none());
}

#[test]
fn dependency_map_none_by_default() {
    let mut store = InMemoryStore::new();
    let p = path(&mut store, "/P");

    let mut layer = Layer::new(LayerId(1));
    layer.insert_prim(p, PrimSpec::with_specifier(None));
    store.insert_layer(layer);

    let stage = compose_stage(&mut store, LayerId(1), StageOptions::default()).unwrap();
    assert!(!stage.has_dependencies(), "dependencies should be disabled by default");
}

#[test]
fn dependency_map_records_local_layer_opinions() {
    let mut store = InMemoryStore::new();
    let field_x = store.tokens.intern("x");
    let p = path(&mut store, "/P");

    let mut root = Layer::new(LayerId(1));
    root.sublayers = vec![LayerId(2)];
    root.insert_prim(p, with_field(PrimSpec::with_specifier(None), field_x, Value::Int64(1)));
    store.insert_layer(root);

    let mut sub = Layer::new(LayerId(2));
    sub.insert_prim(p, with_field(PrimSpec::with_specifier(None), field_x, Value::Int64(2)));
    store.insert_layer(sub);

    let stage = compose_stage(&mut store, LayerId(1), StageOptions { with_dependencies: true, ..StageOptions::default() })
        .unwrap();

    assert!(stage.has_dependencies());
    let layers = stage.layers_affecting_prim(p);
    assert!(layers.contains(&LayerId(1)));
    assert!(layers.contains(&LayerId(2)));
    assert!(stage.prims_affected_by_layer(LayerId(1)).contains(&p));
    assert!(stage.prims_affected_by_layer(LayerId(2)).contains(&p));
    assert!(stage.arc_dependencies().is_empty());
}

#[test]
fn dependency_map_records_inherit_arc() {
    let mut store = InMemoryStore::new();
    let field_x = store.tokens.intern("x");
    let p = path(&mut store, "/P");
    let base = path(&mut store, "/Base");

    let mut layer = Layer::new(LayerId(1));
    layer.insert_prim(p, PrimSpec::with_specifier(None).with_inherit(base));
    layer.insert_prim(base, with_field(PrimSpec::with_specifier(None), field_x, Value::Int64(10)));
    store.insert_layer(layer);

    let stage = compose_stage(&mut store, LayerId(1), StageOptions { with_dependencies: true, ..StageOptions::default() })
        .unwrap();

    assert!(stage.has_dependencies());
    let arcs = stage.arcs_targeting(p);
    let inh_arc = arcs.iter().find(|a| a.arc_kind == ArcKind::Inherits).expect("inherit arc exists");
    assert_eq!(inh_arc.source, base);
}

#[test]
fn dependency_map_records_specializes_arc() {
    let mut store = InMemoryStore::new();
    let field_x = store.tokens.intern("x");
    let p = path(&mut store, "/P");
    let base = path(&mut store, "/Base");

    let mut layer = Layer::new(LayerId(1));
    layer.insert_prim(p, PrimSpec::with_specifier(None).with_specialize(base));
    layer.insert_prim(base, with_field(PrimSpec::with_specifier(None), field_x, Value::Int64(10)));
    store.insert_layer(layer);

    let stage = compose_stage(&mut store, LayerId(1), StageOptions { with_dependencies: true, ..StageOptions::default() })
        .unwrap();

    assert!(stage.has_dependencies());
    let arcs = stage.arcs_targeting(p);
    let spec_arc = arcs.iter().find(|a| a.arc_kind == ArcKind::Specializes).expect("specializes arc exists");
    assert_eq!(spec_arc.source, base);
}

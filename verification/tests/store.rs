use layerstack::child_order::{
    apply_authored_children_base_order, apply_child_order, apply_prim_order_chain,
};
use layerstack::hashed::OpinionsByPrim;
use layerstack::arcs::{
    resolve_inherits_for_prim, resolve_specializes_for_prim, resolve_variant_selections_for_prim,
    stack_prim_paths,
};
use layerstack::compose::local_opinions_for_prim;
use layerstack::doc::{LayerId, Specifier};
use layerstack::interner::TokenId;
use layerstack::listop::{resolve_list_chain, ListOp};
use layerstack::path::{Path, PathId};
use layerstack::prim_index::ArcKind;
use layerstack::store::{FieldEntry, FieldValue, InMemoryStore, Layer, PrimSpec};
use layerstack::resolve::{resolve_path_list, resolve_scalar, resolve_token_list, source_flags, SpecFlag};
use layerstack::compose::{add_local_opinions, prune_deactivated_in_store, store_instance_identity};
use layerstack::population::build_children_index;
use layerstack::doc::Value;

fn pid(n: u32) -> PathId {
    PathId::from_raw(n)
}

fn path(store: &mut InMemoryStore, s: &str) -> PathId {
    let p = Path::parse_absolute(s, &mut store.tokens).unwrap();
    store.paths.intern(p)
}

#[test]
fn appends_chain_weakest_first() {
    let a = pid(1);
    let b = pid(2);
    let stronger = ListOp { append: vec![a], ..ListOp::default() };
    let weaker = ListOp { append: vec![b], ..ListOp::default() };
    assert_eq!(resolve_list_chain(&[], &[stronger, weaker]), vec![b, a]);
}

#[test]
fn list_op_edits() {
    let (a, b, c, d) = (pid(1), pid(2), pid(3), pid(4));
    let op = ListOp {
        explicit: None,
        prepend: vec![c],
        append: vec![a],
        delete: vec![b],
    };
    // b deleted, c moved to the front, a moved to the end.
    assert_eq!(op.apply(&[a, b, c, d]), vec![c, d, a]);
    let explicit = ListOp { explicit: Some(vec![d, b]), ..ListOp::default() };
    assert_eq!(explicit.apply(&[a, c]), vec![d, b]);
    // A stronger explicit list overrides weaker edits; a stronger delete
    // removes what a weaker edit added.
    let del = ListOp { delete: vec![a], ..ListOp::default() };
    let add = ListOp { append: vec![a, b], ..ListOp::default() };
    assert_eq!(resolve_list_chain(&[c], &[del, add]), vec![c, b]);
    let tokens: Vec<TokenId> = resolve_list_chain(&[], &[ListOp::<TokenId>::default()]);
    assert!(tokens.is_empty());
}

#[test]
fn store_resolves_arcs_across_the_stack() {
    let mut store = InMemoryStore::new();
    let prim = path(&mut store, "/P");
    let class_a = path(&mut store, "/_A");
    let class_b = path(&mut store, "/_B");
    let set = store.tokens.intern("lod");
    let high = store.tokens.intern("high");
    let low = store.tokens.intern("low");

    let mut root = Layer::new(LayerId(1));
    root.sublayers = vec![LayerId(2)];
    let mut strong = PrimSpec::over().with_inherit(class_a);
    strong.variant_selections.push((set, high));
    root.insert_prim(prim, strong);
    store.insert_layer(root);

    let mut sub = Layer::new(LayerId(2));
    let mut weak = PrimSpec::def().with_inherit(class_b).with_specialize(class_a);
    weak.variant_selections.push((set, low));
    sub.insert_prim(prim, weak);
    sub.insert_prim(class_b, PrimSpec::class());
    store.insert_layer(sub);

    let stack = store.gather_stack(LayerId(1));
    assert_eq!(stack.layers, vec![LayerId(1), LayerId(2)]);
    assert_eq!(resolve_inherits_for_prim(&store, &stack.layers, prim), vec![class_b, class_a]);
    assert_eq!(resolve_specializes_for_prim(&store, &stack.layers, prim), vec![class_a]);
    assert_eq!(resolve_variant_selections_for_prim(&store, &stack.layers, prim), vec![(set, high)]);
    assert_eq!(stack_prim_paths(&store, &stack.layers).to_vec(), {
        let mut v = vec![prim, class_b];
        v.sort();
        v
    });
    assert_eq!(store.layer(LayerId(2)).unwrap().prim(class_b).unwrap().specifier, Some(Specifier::Class));
    assert!(store.layer(LayerId(3)).is_none());
}

#[test]
fn local_opinions_follow_stack_order() {
    let mut store = InMemoryStore::new();
    let prim = path(&mut store, "/P");
    let x = store.tokens.intern("x");
    let y = store.tokens.intern("y");
    let mut root = Layer::new(LayerId(7));
    root.sublayers = vec![LayerId(8)];
    root.insert_prim(prim, PrimSpec::over());
    store.insert_layer(root);
    let mut sub = Layer::new(LayerId(8));
    let mut spec = PrimSpec::def().with_children(vec![x, y]);
    spec.prim_order = Some(vec![y, x]);
    sub.insert_prim(prim, spec);
    store.insert_layer(sub);

    let stack = store.gather_stack(LayerId(7));
    let local = local_opinions_for_prim(&store, &stack.layers, prim, 1);
    assert_eq!(local.sources.len(), 2);
    assert_eq!(local.sources[0].layer_id, LayerId(7));
    assert_eq!(local.sources[0].layer_strength, 0);
    assert_eq!(local.sources[1].layer_strength, 1);
    assert!(local.sources.iter().all(|k| k.is_local && k.arc_kind == ArcKind::Local));
    assert_eq!(local.authored_children.len(), 1);
    assert_eq!(local.authored_children[0].0.layer_id, LayerId(8));
    assert_eq!(local.authored_children[0].1, vec![x, y]);
    assert_eq!(local.prim_orders[0].1, vec![y, x]);
}

#[test]
fn token_list_chains_across_sublayers() {
    let mut store = InMemoryStore::new();
    let prim = path(&mut store, "/P");
    let classes = store.tokens.intern("classes");
    let x = store.tokens.intern("x");
    let a = store.tokens.intern("a");
    let b = store.tokens.intern("b");

    let mut root = Layer::new(LayerId(1));
    root.sublayers = vec![LayerId(2)];
    let mut spec = PrimSpec::def();
    spec.fields.push(FieldEntry {
        name: classes,
        value: FieldValue::TokenListOp(ListOp { append: vec![a], ..ListOp::default() }),
    });
    spec.fields.push(FieldEntry { name: x, value: FieldValue::Value(Value::Int64(123)) });
    root.insert_prim(prim, spec);
    store.insert_layer(root);

    let mut sub = Layer::new(LayerId(2));
    let mut weak = PrimSpec::def();
    weak.fields.push(FieldEntry {
        name: classes,
        value: FieldValue::TokenListOp(ListOp { append: vec![b], ..ListOp::default() }),
    });
    weak.fields.push(FieldEntry { name: x, value: FieldValue::Value(Value::Int64(7)) });
    sub.insert_prim(prim, weak);
    store.insert_layer(sub);

    let stack = store.gather_stack(LayerId(1));
    let local = local_opinions_for_prim(&store, &stack.layers, prim, 1);
    assert_eq!(resolve_token_list(&store, &local.sources, classes), Some(vec![b, a]));
    assert_eq!(resolve_scalar(&store, &local.sources, x), Some(&Value::Int64(123)));
    assert_eq!(resolve_token_list(&store, &local.sources, x), None);
    assert_eq!(resolve_scalar(&store, &local.sources, classes), None);
    let missing = store.tokens.intern("missing");
    assert_eq!(resolve_scalar(&store, &local.sources, missing), None);
}

#[test]
fn blocked_value_suppresses_weaker_opinions() {
    let mut store = InMemoryStore::new();
    let prim = path(&mut store, "/P");
    let x = store.tokens.intern("x");
    let mut root = Layer::new(LayerId(1));
    root.sublayers = vec![LayerId(2)];
    let mut spec = PrimSpec::over();
    spec.fields.push(FieldEntry { name: x, value: FieldValue::Value(Value::Blocked) });
    root.insert_prim(prim, spec);
    store.insert_layer(root);
    let mut sub = Layer::new(LayerId(2));
    let mut weak = PrimSpec::def();
    weak.fields.push(FieldEntry { name: x, value: FieldValue::Value(Value::Int(1)) });
    sub.insert_prim(prim, weak);
    store.insert_layer(sub);
    let stack = store.gather_stack(LayerId(1));
    let local = local_opinions_for_prim(&store, &stack.layers, prim, 1);
    assert_eq!(resolve_scalar(&store, &local.sources, x), None);
}

#[test]
fn flags_are_read_through_sources_and_prune_subtrees() {
    let mut store = InMemoryStore::new();
    let root_path = path(&mut store, "/");
    let a = path(&mut store, "/A");
    let ab = path(&mut store, "/A/B");
    let c = path(&mut store, "/C");
    let mut layer = Layer::new(LayerId(1));
    layer.insert_prim(a, PrimSpec::def().with_active(false));
    layer.insert_prim(ab, PrimSpec::def());
    layer.insert_prim(c, PrimSpec::def().with_instanceable(true));
    store.insert_layer(layer);
    let stack = store.gather_stack(LayerId(1));
    let prims = vec![root_path, a, ab, c];
    let sources: Vec<_> = prims
        .iter()
        .map(|p| local_opinions_for_prim(&store, &stack.layers, *p, 1).sources)
        .collect();
    assert_eq!(source_flags(&store, &sources[1], SpecFlag::Active), vec![Some(false)]);
    assert_eq!(source_flags(&store, &sources[3], SpecFlag::Instanceable), vec![Some(true)]);
    assert!(source_flags(&store, &sources[0], SpecFlag::Active).is_empty());
    // Only local sources: not an effective instance.
    assert_eq!(store_instance_identity(&store, &sources[3]), None);
    let mut children = build_children_index(&store.tokens, &mut store.paths, &prims);
    let kept = prune_deactivated_in_store(&store, &prims, &sources, &mut children);
    assert_eq!(kept, vec![root_path, c]);
    assert_eq!(children.children_of(root_path).unwrap(), &vec![c]);
    assert!(children.children_of(a).is_none());
}

#[test]
fn child_order_applies_base_order_then_reorder_chain() {
    let mut store = InMemoryStore::new();
    let p = path(&mut store, "/P");
    let a = path(&mut store, "/P/a");
    let b = path(&mut store, "/P/b");
    let c = path(&mut store, "/P/c");
    let ta = store.tokens.intern("a");
    let tb = store.tokens.intern("b");
    let tc = store.tokens.intern("c");
    let prims = vec![p, a, b, c];
    let mut children = build_children_index(&store.tokens, &mut store.paths, &prims);
    assert_eq!(children.children_of(p).unwrap(), &vec![a, b, c]);

    let mut layer = Layer::new(LayerId(1));
    layer.insert_prim(p, PrimSpec::def());
    store.insert_layer(layer);
    let stack = store.gather_stack(LayerId(1));
    let key = local_opinions_for_prim(&store, &stack.layers, p, 1).sources[0];

    let mut authored = OpinionsByPrim::new();
    authored.push(p, (key, vec![tc, tb]));
    let mut orders = OpinionsByPrim::new();
    orders.push(p, (key, vec![ta, tc]));
    apply_child_order(&store.paths, &authored, &orders, &mut children);

    let mut expected = vec![a, b, c];
    apply_authored_children_base_order(&store.paths, &mut expected, &[(key, vec![tc, tb])]);
    assert_eq!(expected, vec![c, b, a]);
    apply_prim_order_chain(&store.paths, &mut expected, &[(key, vec![ta, tc])]);
    assert_eq!(children.children_of(p).unwrap(), &expected);
    assert!(children.children_of(a).is_none());
}

#[test]
fn local_opinions_are_collected_per_prim() {
    let mut store = InMemoryStore::new();
    let p = path(&mut store, "/P");
    let q = path(&mut store, "/P/Q");
    let x = store.tokens.intern("x");
    let mut layer = Layer::new(LayerId(4));
    let mut spec = PrimSpec::def().with_children(vec![x]);
    spec.prim_order = Some(vec![x]);
    layer.insert_prim(p, spec);
    layer.insert_prim(q, PrimSpec::over());
    store.insert_layer(layer);
    let stack = store.gather_stack(LayerId(4));
    let mut authored = OpinionsByPrim::new();
    let mut orders = OpinionsByPrim::new();
    let sources = add_local_opinions(&store, &stack.layers, &[p, q], &mut authored, &mut orders);
    assert_eq!(sources.len(), 2);
    assert_eq!(sources[0][0].namespace_depth, 1);
    assert_eq!(sources[1][0].namespace_depth, 2);
    assert_eq!(sources[1][0].layer_id, LayerId(4));
    // Applying the collected opinions to P's children orders them.
    let prims = vec![p, q];
    let mut children = build_children_index(&store.tokens, &mut store.paths, &prims);
    apply_child_order(&store.paths, &authored, &orders, &mut children);
    assert_eq!(children.children_of(p).unwrap(), &vec![q]);
}

#[test]
fn path_list_chains_with_explicit_override() {
    let mut store = InMemoryStore::new();
    let prim = path(&mut store, "/P");
    let t1 = path(&mut store, "/T1");
    let t2 = path(&mut store, "/T2");
    let targets = store.tokens.intern("targets");
    let mut root = Layer::new(LayerId(1));
    root.sublayers = vec![LayerId(2)];
    let mut spec = PrimSpec::over();
    spec.fields.push(FieldEntry {
        name: targets,
        value: FieldValue::PathListOp(ListOp { delete: vec![t1], prepend: vec![t2], ..ListOp::default() }),
    });
    root.insert_prim(prim, spec);
    store.insert_layer(root);
    let mut sub = Layer::new(LayerId(2));
    let mut weak = PrimSpec::def();
    weak.fields.push(FieldEntry {
        name: targets,
        value: FieldValue::PathListOp(ListOp { explicit: Some(vec![t1]), ..ListOp::default() }),
    });
    sub.insert_prim(prim, weak);
    store.insert_layer(sub);
    let stack = store.gather_stack(LayerId(1));
    let local = local_opinions_for_prim(&store, &stack.layers, prim, 1);
    assert_eq!(resolve_path_list(&store, &local.sources, targets), Some(vec![t2]));
    assert_eq!(resolve_token_list(&store, &local.sources, targets), None);
}

use layerstack::child_order::{
    apply_authored_children_base_order, apply_prim_order_chain, apply_reorder_op,
};
use layerstack::compose::{
    combined_variant_selections, instance_identity_paths, is_identity_descendant,
    non_identity_child_names, prune_deactivated, remap_path_id, resolve_strongest_flag,
    retain_named_children, strip_identity_local_sources, stripped_subtrees,
};
use layerstack::population::build_children_index;
use layerstack::path::{Path, PathInterner};
use layerstack::prim_index::{ArcKind, OpinionKey};
use layerstack::interner::TokenId;
use layerstack::doc::{InterpolationType, LayerId};
use layerstack::interner::TokenInterner;
use layerstack::path::PathId;
use layerstack::stage::{PopulationMask, Provenance, Resolved, StageOptions};

#[test]
fn combined_selections_append_current() {
    let mut tokens = TokenInterner::default();
    let a = (tokens.intern("lod"), tokens.intern("high"));
    let b = (tokens.intern("shading"), tokens.intern("red"));
    assert_eq!(combined_variant_selections(&[a], b), vec![a, b]);
    assert_eq!(combined_variant_selections(&[], b), vec![b]);
}

#[test]
fn resolved_value_and_defaults() {
    let mut tokens = TokenInterner::default();
    let field = tokens.intern("size");
    let r = Resolved {
        value: 7u32,
        provenance: Some(Provenance {
            layer: LayerId(3),
            spec_path: PathId::from_raw(1),
            field,
        }),
    };
    assert_eq!(*r.value(), 7);
    let opts = StageOptions::default();
    assert!(opts.mask.is_none());
    assert!(!opts.with_provenance);
    assert!(!opts.with_dependencies);
    assert!(PopulationMask::default().included.is_empty());
    assert_eq!(InterpolationType::default(), InterpolationType::Held);
}

/// Interns `/P/<name>` for each name; returns the ids and the leaf tokens.
fn child_paths(
    tokens: &mut TokenInterner,
    paths: &mut PathInterner,
    names: &[&str],
) -> (Vec<PathId>, Vec<TokenId>) {
    let mut ids = Vec::new();
    let mut leaves = Vec::new();
    for name in names {
        let p = Path::parse_absolute(&format!("/P/{name}"), tokens).unwrap();
        leaves.push(p.leaf().unwrap());
        ids.push(paths.intern(p));
    }
    (ids, leaves)
}

fn opinion(is_local: bool, nested: Option<ArcKind>, depth: u16, strength: u16, layer: u64) -> OpinionKey {
    OpinionKey {
        is_local,
        arc_kind: if is_local { ArcKind::Local } else { ArcKind::References },
        nested_arc_kind: nested,
        namespace_depth: depth,
        authored: true,
        arc_list_index: 0,
        layer_strength: strength,
        layer_id: LayerId(layer),
        spec_path: PathId::from_raw(0),
    }
}

#[test]
fn reorder_moves_listed_children_with_their_runs() {
    let mut tokens = TokenInterner::default();
    let mut paths = PathInterner::default();
    let (ids, t) = child_paths(&mut tokens, &mut paths, &["a", "b", "c", "d"]);
    let mut children = ids.clone();
    apply_reorder_op(&paths, &mut children, &[t[2], t[0]]);
    assert_eq!(children, vec![ids[2], ids[3], ids[0], ids[1]]);
}

#[test]
fn reorder_skips_unknown_names_and_keeps_prefix() {
    let mut tokens = TokenInterner::default();
    let mut paths = PathInterner::default();
    let (ids, t) = child_paths(&mut tokens, &mut paths, &["a", "b", "c", "d"]);
    let unknown = tokens.intern("zz");
    let mut children = ids.clone();
    apply_reorder_op(&paths, &mut children, &[unknown, t[1]]);
    assert_eq!(children, vec![ids[1], ids[0], ids[2], ids[3]]);
}

#[test]
fn reorder_without_known_names_changes_nothing() {
    let mut tokens = TokenInterner::default();
    let mut paths = PathInterner::default();
    let (ids, _) = child_paths(&mut tokens, &mut paths, &["a", "b", "c"]);
    let unknown = tokens.intern("zz");
    let mut children = ids.clone();
    apply_reorder_op(&paths, &mut children, &[]);
    assert_eq!(children, ids);
    apply_reorder_op(&paths, &mut children, &[unknown]);
    assert_eq!(children, ids);
}

#[test]
fn prim_order_chain_applies_weakest_first() {
    let mut tokens = TokenInterner::default();
    let mut paths = PathInterner::default();
    let (ids, t) = child_paths(&mut tokens, &mut paths, &["a", "b", "c"]);
    let strong = opinion(true, None, 0, 0, 1);
    let weak = opinion(false, None, 0, 1, 2);
    // Listed strongest last, to show that the chain sorts first.
    let opinions = vec![(weak, vec![t[2]]), (strong, vec![t[1]])];
    let mut children = ids.clone();
    apply_prim_order_chain(&paths, &mut children, &opinions);
    assert_eq!(children, vec![ids[1], ids[2], ids[0]]);
    let mut children = ids.clone();
    apply_prim_order_chain(&paths, &mut children, &opinions[1..]);
    assert_eq!(children, vec![ids[1], ids[0], ids[2]]);
}

#[test]
fn base_order_places_weakest_opinion_names_first() {
    let mut tokens = TokenInterner::default();
    let mut paths = PathInterner::default();
    let (ids, t) = child_paths(&mut tokens, &mut paths, &["a", "b", "c", "d"]);
    let local = opinion(true, None, 0, 0, 1);
    let referenced = opinion(false, None, 0, 1, 2);
    let opinions = vec![(local, vec![t[1], t[0]]), (referenced, vec![t[2], t[0]])];
    let mut children = ids.clone();
    apply_authored_children_base_order(&paths, &mut children, &opinions);
    assert_eq!(children, vec![ids[2], ids[0], ids[1], ids[3]]);
}

#[test]
fn base_order_groups_layers_by_nested_position() {
    let mut tokens = TokenInterner::default();
    let mut paths = PathInterner::default();
    let (ids, t) = child_paths(&mut tokens, &mut paths, &["a", "b", "c"]);
    // Layer 7 has an inherited opinion at strength 3 (position 3); layer 8
    // only a direct reference at depth 2 (position 3 + 1 + 2 = 6, weaker).
    let inherited = opinion(false, Some(ArcKind::Inherits), 0, 3, 7);
    let direct = opinion(false, None, 2, 0, 8);
    let opinions = vec![(direct, vec![t[0]]), (inherited, vec![t[2], t[1]])];
    let mut children = ids.clone();
    apply_authored_children_base_order(&paths, &mut children, &opinions);
    // Weakest (layer 8) first: a; then layer 7: c, b.
    assert_eq!(children, vec![ids[0], ids[2], ids[1]]);
}

#[test]
fn reorder_keeps_every_child_even_with_repeated_names() {
    let mut tokens = TokenInterner::default();
    let mut paths = PathInterner::default();
    let (ids, t) = child_paths(&mut tokens, &mut paths, &["a", "b", "c"]);
    let mut children = ids.clone();
    apply_reorder_op(&paths, &mut children, &[t[0], t[0]]);
    assert_eq!(children, vec![ids[0], ids[1], ids[2], ids[0], ids[1], ids[2]]);
    for id in &ids {
        assert!(children.contains(id));
    }
}

fn intern_text(tokens: &mut TokenInterner, paths: &mut PathInterner, s: &str) -> PathId {
    let p = Path::parse_absolute(s, tokens).unwrap();
    paths.intern(p)
}

fn text_of(tokens: &TokenInterner, paths: &PathInterner, id: PathId) -> String {
    paths.resolve(id).display(tokens)
}

#[test]
fn remap_moves_descendants_under_destination() {
    let mut tokens = TokenInterner::default();
    let mut paths = PathInterner::default();
    let src = Path::parse_absolute("/Model", &mut tokens).unwrap();
    let dest = Path::parse_absolute("/World/Inst", &mut tokens).unwrap();
    let child = intern_text(&mut tokens, &mut paths, "/Model/Geom/Mesh");
    let r = remap_path_id(&mut tokens, &mut paths, &dest, &src, child);
    assert_eq!(text_of(&tokens, &paths, r), "/World/Inst/Geom/Mesh");
    let root = intern_text(&mut tokens, &mut paths, "/Model");
    let r = remap_path_id(&mut tokens, &mut paths, &dest, &src, root);
    assert_eq!(text_of(&tokens, &paths, r), "/World/Inst");
}

#[test]
fn remap_moves_property_of_source_root() {
    let mut tokens = TokenInterner::default();
    let mut paths = PathInterner::default();
    let src = Path::parse_absolute("/Model", &mut tokens).unwrap();
    let dest = Path::parse_absolute("/World/Inst", &mut tokens).unwrap();
    let prop = intern_text(&mut tokens, &mut paths, "/Model.size");
    let r = remap_path_id(&mut tokens, &mut paths, &dest, &src, prop);
    assert_eq!(text_of(&tokens, &paths, r), "/World/Inst.size");
}

#[test]
fn remap_leaves_other_paths() {
    let mut tokens = TokenInterner::default();
    let mut paths = PathInterner::default();
    let src = Path::parse_absolute("/Model", &mut tokens).unwrap();
    let dest = Path::parse_absolute("/World/Inst", &mut tokens).unwrap();
    let other = intern_text(&mut tokens, &mut paths, "/Other/X");
    let longer = intern_text(&mut tokens, &mut paths, "/Modelx");
    let before = paths.len();
    assert_eq!(remap_path_id(&mut tokens, &mut paths, &dest, &src, other), other);
    assert_eq!(remap_path_id(&mut tokens, &mut paths, &dest, &src, longer), longer);
    assert_eq!(paths.len(), before);
}

#[test]
fn identity_descendants_are_strictly_below_in_same_layer() {
    let mut tokens = TokenInterner::default();
    let mut paths = PathInterner::default();
    let a = intern_text(&mut tokens, &mut paths, "/A");
    let ab = intern_text(&mut tokens, &mut paths, "/A/B");
    let c = intern_text(&mut tokens, &mut paths, "/C");
    let identity = [(LayerId(1), a)];
    assert!(is_identity_descendant(&paths, LayerId(1), ab, &identity));
    assert!(!is_identity_descendant(&paths, LayerId(1), a, &identity));
    assert!(!is_identity_descendant(&paths, LayerId(2), ab, &identity));
    assert!(!is_identity_descendant(&paths, LayerId(1), c, &identity));
}

#[test]
fn reorder_of_distinct_children_is_a_permutation() {
    let mut tokens = TokenInterner::default();
    let mut paths = PathInterner::default();
    let (ids, t) = child_paths(&mut tokens, &mut paths, &["a", "b", "c", "d", "e"]);
    let mut children = ids.clone();
    apply_reorder_op(&paths, &mut children, &[t[4], t[1], t[3]]);
    assert_eq!(children, vec![ids[4], ids[0], ids[1], ids[2], ids[3]]);
    let mut sorted = children.clone();
    sorted.sort();
    assert_eq!(sorted, ids);
}

#[test]
fn strongest_authored_flag_wins() {
    assert_eq!(resolve_strongest_flag(&[]), None);
    assert_eq!(resolve_strongest_flag(&[None, None]), None);
    assert_eq!(resolve_strongest_flag(&[None, Some(false), Some(true)]), Some(false));
    assert_eq!(resolve_strongest_flag(&[Some(true), Some(false)]), Some(true));
}

#[test]
fn deactivated_prim_and_descendants_are_pruned() {
    let mut tokens = TokenInterner::default();
    let mut paths = PathInterner::default();
    let mut id = |s: &str| {
        let p = Path::parse_absolute(s, &mut tokens).unwrap();
        paths.intern(p)
    };
    let root = id("/");
    let a = id("/A");
    let ab = id("/A/B");
    let c = id("/C");
    let cd = id("/C/D");
    let prims = vec![root, a, ab, c, cd];
    let mut children = build_children_index(&tokens, &mut paths, &prims);
    assert_eq!(children.children_of(root).unwrap(), &vec![a, c]);
    let actives = vec![
        vec![],
        vec![None, Some(false), Some(true)],
        vec![Some(true)],
        vec![Some(true), Some(false)],
        vec![None],
    ];
    let kept = prune_deactivated(&paths, &prims, &actives, &mut children);
    assert_eq!(kept, vec![root, c, cd]);
    assert_eq!(children.children_of(root).unwrap(), &vec![c]);
    assert!(children.children_of(a).is_none());
    assert_eq!(children.children_of(c).unwrap(), &vec![cd]);
}

#[test]
fn nothing_deactivated_keeps_everything() {
    let mut tokens = TokenInterner::default();
    let mut paths = PathInterner::default();
    let p = Path::parse_absolute("/A", &mut tokens).unwrap();
    let a = paths.intern(p);
    let root = paths.intern(Path::root());
    let prims = vec![root, a];
    let mut children = build_children_index(&tokens, &mut paths, &prims);
    let kept = prune_deactivated(&paths, &prims, &[vec![Some(true)], vec![]], &mut children);
    assert_eq!(kept, prims);
    assert_eq!(children.children_of(root).unwrap(), &vec![a]);
}

#[test]
fn test_layer_grouped_sort() {
    let mut tokens = TokenInterner::default();
    let mut paths = PathInterner::default();
    let root_layer = LayerId(1);
    let set_layer = LayerId(2);
    let prop_layer = LayerId(3);

    let from_root = tokens.intern("From_root");
    let from_set = tokens.intern("From_set");
    let from_class_root = tokens.intern("From_class_in_root");
    let from_class_set = tokens.intern("From_class_in_set");
    let geom_tok = tokens.intern("geom");

    let c_geom = intern_text(&mut tokens, &mut paths, "/P/I/geom");
    let c_fr = intern_text(&mut tokens, &mut paths, "/P/I/From_root");
    let c_fs = intern_text(&mut tokens, &mut paths, "/P/I/From_set");
    let c_fcr = intern_text(&mut tokens, &mut paths, "/P/I/From_class_in_root");
    let c_fcs = intern_text(&mut tokens, &mut paths, "/P/I/From_class_in_set");

    let sp_local = intern_text(&mut tokens, &mut paths, "/P/I");
    let sp_set = intern_text(&mut tokens, &mut paths, "/S/I");
    let sp_prop = intern_text(&mut tokens, &mut paths, "/Prop");
    let sp_class = intern_text(&mut tokens, &mut paths, "/_C");

    let opinions: Vec<(OpinionKey, Vec<TokenId>)> = vec![
        (
            OpinionKey {
                is_local: true,
                arc_kind: ArcKind::Local,
                nested_arc_kind: None,
                namespace_depth: 2,
                authored: true,
                arc_list_index: 0,
                layer_strength: 0,
                layer_id: root_layer,
                spec_path: sp_local,
            },
            vec![from_root, geom_tok],
        ),
        (
            OpinionKey {
                is_local: false,
                arc_kind: ArcKind::References,
                nested_arc_kind: None,
                namespace_depth: 1,
                authored: true,
                arc_list_index: 0,
                layer_strength: 0,
                layer_id: set_layer,
                spec_path: sp_set,
            },
            vec![from_set, geom_tok],
        ),
        (
            OpinionKey {
                is_local: false,
                arc_kind: ArcKind::References,
                nested_arc_kind: None,
                namespace_depth: 2,
                authored: true,
                arc_list_index: 0,
                layer_strength: 0,
                layer_id: prop_layer,
                spec_path: sp_prop,
            },
            vec![geom_tok],
        ),
        (
            OpinionKey {
                is_local: false,
                arc_kind: ArcKind::References,
                nested_arc_kind: Some(ArcKind::Inherits),
                namespace_depth: 2,
                authored: true,
                arc_list_index: 0,
                layer_strength: 0,
                layer_id: root_layer,
                spec_path: sp_class,
            },
            vec![from_class_root, geom_tok],
        ),
        (
            OpinionKey {
                is_local: false,
                arc_kind: ArcKind::References,
                nested_arc_kind: Some(ArcKind::Inherits),
                namespace_depth: 2,
                authored: true,
                arc_list_index: 0,
                layer_strength: 1,
                layer_id: set_layer,
                spec_path: sp_class,
            },
            vec![from_class_set, geom_tok],
        ),
    ];

    let mut children = vec![c_geom, c_fr, c_fs, c_fcr, c_fcs];
    apply_authored_children_base_order(&paths, &mut children, &opinions);

    let result: Vec<String> = children
        .iter()
        .map(|c| {
            tokens
                .resolve(paths.resolve(*c).leaf().unwrap())
                .to_string()
        })
        .collect();

    assert_eq!(
        result,
        vec![
            "geom",
            "From_class_in_set",
            "From_set",
            "From_class_in_root",
            "From_root"
        ]
    );
}

fn source(is_local: bool, kind: ArcKind, layer: u64, path: PathId) -> OpinionKey {
    OpinionKey {
        is_local,
        arc_kind: kind,
        nested_arc_kind: None,
        namespace_depth: 1,
        authored: true,
        arc_list_index: 0,
        layer_strength: 0,
        layer_id: LayerId(layer),
        spec_path: path,
    }
}

#[test]
fn effective_instance_collects_identity_paths() {
    let mut tokens = TokenInterner::default();
    let mut paths = PathInterner::default();
    let inst = intern_text(&mut tokens, &mut paths, "/Inst");
    let proto = intern_text(&mut tokens, &mut paths, "/Proto");
    let other = intern_text(&mut tokens, &mut paths, "/Other");
    let sources = vec![
        source(true, ArcKind::Local, 1, inst),
        source(false, ArcKind::References, 2, proto),
        source(false, ArcKind::Inherits, 3, other),
    ];
    // Strongest instanceable opinion is true; the referenced spec is itself
    // authored instanceable, the inherited one is not.
    let insts = vec![Some(true), Some(true), Some(false)];
    assert_eq!(
        instance_identity_paths(&sources, &insts),
        Some(vec![(LayerId(1), inst), (LayerId(2), proto)])
    );
    // Not instanceable: the strongest opinion is false.
    assert_eq!(instance_identity_paths(&sources, &[Some(false), Some(true), None]), None);
    // No instancing arc: only local sources.
    let local_only = vec![source(true, ArcKind::Local, 1, inst)];
    assert_eq!(instance_identity_paths(&local_only, &[Some(true)]), None);
    // No identity path: a remote arc not authored instanceable.
    let remote_only = vec![source(false, ArcKind::Payloads, 2, proto)];
    assert_eq!(instance_identity_paths(&remote_only, &[None]), None);
}

#[test]
fn local_sources_below_identity_are_stripped() {
    let mut tokens = TokenInterner::default();
    let mut paths = PathInterner::default();
    let inst = intern_text(&mut tokens, &mut paths, "/Inst");
    let child = intern_text(&mut tokens, &mut paths, "/Inst/Child");
    let elsewhere = intern_text(&mut tokens, &mut paths, "/Else/Child");
    let identity = vec![(LayerId(1), inst)];
    let mut sources = vec![
        source(true, ArcKind::Local, 1, child),
        source(true, ArcKind::Local, 2, child),
        source(false, ArcKind::Variants, 1, child),
        source(true, ArcKind::Local, 1, elsewhere),
        source(true, ArcKind::Local, 1, inst),
    ];
    strip_identity_local_sources(&paths, &mut sources, &identity);
    assert_eq!(
        sources,
        vec![
            source(true, ArcKind::Local, 2, child),
            source(false, ArcKind::Variants, 1, child),
            source(true, ArcKind::Local, 1, elsewhere),
            source(true, ArcKind::Local, 1, inst),
        ]
    );
}

#[test]
fn identity_only_children_are_dropped() {
    let mut tokens = TokenInterner::default();
    let mut paths = PathInterner::default();
    let (ids, t) = child_paths(&mut tokens, &mut paths, &["a", "b", "c"]);
    let identity = vec![(LayerId(1), PathId::from_raw(7))];
    let mine = OpinionKey { spec_path: PathId::from_raw(7), ..opinion(true, None, 1, 0, 1) };
    let theirs = OpinionKey { spec_path: PathId::from_raw(8), ..opinion(false, None, 1, 0, 2) };
    let opinions = vec![(mine, vec![t[0], t[1]]), (theirs, vec![t[2], t[1], t[2]])];
    let names = non_identity_child_names(&opinions, &identity);
    assert_eq!(names, vec![t[2], t[1]]);
    let mut children = ids.clone();
    retain_named_children(&paths, &mut children, &names);
    assert_eq!(children, vec![ids[1], ids[2]]);
}

#[test]
fn subtrees_of_stripped_children_are_removed() {
    let mut tokens = TokenInterner::default();
    let mut paths = PathInterner::default();
    let inst = intern_text(&mut tokens, &mut paths, "/I");
    let kept_child = intern_text(&mut tokens, &mut paths, "/I/Keep");
    let kept_leaf = intern_text(&mut tokens, &mut paths, "/I/Keep/Leaf");
    let gone_child = intern_text(&mut tokens, &mut paths, "/I/Gone");
    let gone_leaf = intern_text(&mut tokens, &mut paths, "/I/Gone/Leaf");
    let outside = intern_text(&mut tokens, &mut paths, "/Other/Gone");
    let prims = vec![inst, kept_child, kept_leaf, gone_child, gone_leaf, outside];
    let removed = stripped_subtrees(&paths, inst, &prims, &[kept_child]);
    assert_eq!(removed, vec![gone_child, gone_leaf]);
    // With every child surviving nothing is removed.
    assert!(stripped_subtrees(&paths, inst, &prims, &[kept_child, gone_child]).is_empty());
}

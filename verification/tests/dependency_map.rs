use layerstack::dependency_map::{
    ArcDependency, DependencyMap, DependencyMapBuilder, LayerDependency,
};
use layerstack::doc::LayerId;
use layerstack::path::PathId;
use layerstack::prim_index::ArcKind;

#[test]
fn builder_deduplicates_arcs() {
    let mut builder = DependencyMapBuilder::new();
    let dep = ArcDependency {
        source: PathId::from_raw(1),
        target: PathId::from_raw(2),
        arc_kind: ArcKind::References,
        layer: LayerId(10),
    };
    builder.add_arc(dep);
    builder.add_arc(dep);
    let map = builder.finish();
    assert_eq!(map.arcs().len(), 1);
}

#[test]
fn builder_deduplicates_layer_opinions() {
    let mut builder = DependencyMapBuilder::new();
    let dep = LayerDependency {
        layer: LayerId(1),
        prim: PathId::from_raw(5),
    };
    builder.add_layer_opinion(dep);
    builder.add_layer_opinion(dep);
    let map = builder.finish();
    assert_eq!(map.layer_opinions().len(), 1);
}

#[test]
fn query_arcs_targeting() {
    let mut builder = DependencyMapBuilder::new();
    let target = PathId::from_raw(2);
    builder.add_arc(ArcDependency {
        source: PathId::from_raw(1),
        target,
        arc_kind: ArcKind::Inherits,
        layer: LayerId(1),
    });
    builder.add_arc(ArcDependency {
        source: PathId::from_raw(3),
        target,
        arc_kind: ArcKind::References,
        layer: LayerId(2),
    });
    builder.add_arc(ArcDependency {
        source: PathId::from_raw(4),
        target: PathId::from_raw(99),
        arc_kind: ArcKind::Payloads,
        layer: LayerId(3),
    });
    let map = builder.finish();
    assert_eq!(map.arcs_targeting(target).len(), 2);
    assert_eq!(map.arcs_targeting(PathId::from_raw(99)).len(), 1);
    assert_eq!(map.arcs_targeting(PathId::from_raw(0)).len(), 0);
}

#[test]
fn query_prims_affected_by_layer() {
    let mut builder = DependencyMapBuilder::new();
    let layer = LayerId(1);
    builder.add_layer_opinion(LayerDependency {
        layer,
        prim: PathId::from_raw(10),
    });
    builder.add_layer_opinion(LayerDependency {
        layer,
        prim: PathId::from_raw(20),
    });
    builder.add_layer_opinion(LayerDependency {
        layer: LayerId(2),
        prim: PathId::from_raw(30),
    });
    let map = builder.finish();
    let affected = map.prims_affected_by_layer(layer);
    assert_eq!(affected.len(), 2);
    assert!(affected.contains(&PathId::from_raw(10)));
    assert!(affected.contains(&PathId::from_raw(20)));
}

#[test]
fn query_layers_affecting_prim() {
    let mut builder = DependencyMapBuilder::new();
    let prim = PathId::from_raw(5);
    builder.add_layer_opinion(LayerDependency {
        layer: LayerId(1),
        prim,
    });
    builder.add_layer_opinion(LayerDependency {
        layer: LayerId(2),
        prim,
    });
    builder.add_layer_opinion(LayerDependency {
        layer: LayerId(3),
        prim: PathId::from_raw(99),
    });
    let map = builder.finish();
    let layers = map.layers_affecting_prim(prim);
    assert_eq!(layers.len(), 2);
    assert!(layers.contains(&LayerId(1)));
    assert!(layers.contains(&LayerId(2)));
}

#[test]
fn len_and_is_empty() {
    let map = DependencyMap::default();
    assert!(map.is_empty());
    assert_eq!(map.len(), 0);

    let mut builder = DependencyMapBuilder::new();
    builder.add_arc(ArcDependency {
        source: PathId::from_raw(1),
        target: PathId::from_raw(2),
        arc_kind: ArcKind::Inherits,
        layer: LayerId(1),
    });
    builder.add_layer_opinion(LayerDependency {
        layer: LayerId(1),
        prim: PathId::from_raw(3),
    });
    let map = builder.finish();
    assert!(!map.is_empty());
    assert_eq!(map.len(), 2);
}

#[test]
fn arcs_targeting_keeps_recorded_order() {
    let mut builder = DependencyMapBuilder::new();
    let target = PathId::from_raw(7);
    let first = ArcDependency {
        source: PathId::from_raw(1),
        target,
        arc_kind: ArcKind::Specializes,
        layer: LayerId(4),
    };
    let second = ArcDependency {
        source: PathId::from_raw(2),
        target,
        arc_kind: ArcKind::Payloads,
        layer: LayerId(5),
    };
    builder.add_arc(first);
    builder.add_arc(second);
    let map = builder.finish();
    let found = map.arcs_targeting(target);
    assert_eq!(found.len(), 2);
    assert!(found.contains(&&first));
    assert!(found.contains(&&second));
    for arc in found {
        assert_eq!(arc.target, target);
    }
}

#[test]
fn queries_on_empty_map_are_empty() {
    let map = DependencyMap::new();
    assert!(map.arcs().is_empty());
    assert!(map.layer_opinions().is_empty());
    assert!(map.prims_affected_by_layer(LayerId(1)).is_empty());
    assert!(map.layers_affecting_prim(PathId::from_raw(1)).is_empty());
}

#[test]
fn repeated_layer_opinions_report_each_prim_once() {
    let mut builder = DependencyMapBuilder::new();
    for prim in [3u32, 4, 3, 4, 3] {
        builder.add_layer_opinion(LayerDependency {
            layer: LayerId(9),
            prim: PathId::from_raw(prim),
        });
    }
    let map = builder.finish();
    assert_eq!(map.layer_opinions().len(), 2);
    let prims = map.prims_affected_by_layer(LayerId(9));
    assert_eq!(prims.len(), 2);
    assert!(prims.contains(&PathId::from_raw(3)));
    assert!(prims.contains(&PathId::from_raw(4)));
}

use layerstack::doc::LayerId;
use layerstack::layer_stack::{LayerStack, SublayerGraph};

fn graph(layers: &[(u64, &[u64])]) -> SublayerGraph {
    let mut g = SublayerGraph::new();
    for (id, subs) in layers {
        g.insert_layer(LayerId(*id), subs.iter().map(|&s| LayerId(s)).collect());
    }
    g
}

#[test]
fn duplicates_are_preserved_in_layer_stack() {
    let g = graph(&[(1, &[2, 3]), (2, &[3]), (3, &[])]);
    let stack = LayerStack::gather(&g, LayerId(1));
    assert_eq!(
        stack.layers,
        vec![LayerId(1), LayerId(2), LayerId(3), LayerId(3)]
    );
}

#[test]
fn cycles_do_not_infinite_loop() {
    let g = graph(&[(1, &[2]), (2, &[3]), (3, &[2])]);
    let stack = LayerStack::gather(&g, LayerId(1));
    assert_eq!(stack.layers, vec![LayerId(1), LayerId(2), LayerId(3)]);
}

#[test]
fn origins_name_the_listing_layer_and_position() {
    let g = graph(&[(1, &[2, 3]), (2, &[3]), (3, &[])]);
    let stack = LayerStack::gather(&g, LayerId(1));
    assert_eq!(
        stack.origins,
        vec![None, Some((0, 0)), Some((1, 0)), Some((0, 1))]
    );
}

#[test]
fn unknown_root_gives_only_the_root() {
    let g = graph(&[(1, &[2])]);
    let stack = LayerStack::gather(&g, LayerId(42));
    assert_eq!(stack.layers, vec![LayerId(42)]);
    assert_eq!(stack.origins, vec![None]);
}

#[test]
fn missing_sublayer_is_still_listed() {
    let g = graph(&[(1, &[5, 2]), (2, &[])]);
    let stack = LayerStack::gather(&g, LayerId(1));
    assert_eq!(stack.layers, vec![LayerId(1), LayerId(5), LayerId(2)]);
}

#[test]
fn self_cycle_is_cut() {
    let g = graph(&[(1, &[1, 2]), (2, &[1])]);
    let stack = LayerStack::gather(&g, LayerId(1));
    assert_eq!(stack.layers, vec![LayerId(1), LayerId(2)]);
}

#[test]
fn replacing_a_layer_uses_the_new_sublayers() {
    let mut g = graph(&[(1, &[2])]);
    g.insert_layer(LayerId(1), vec![LayerId(3)]);
    let stack = LayerStack::gather(&g, LayerId(1));
    assert_eq!(stack.layers, vec![LayerId(1), LayerId(3)]);
    assert_eq!(g.sublayers(LayerId(1)).unwrap(), &vec![LayerId(3)]);
    assert!(g.sublayers(LayerId(2)).is_none());
}

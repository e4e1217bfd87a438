use layerstack::child_order::sort_strongest_first;
use core::cmp::Ordering;

use layerstack::doc::LayerId;
use layerstack::path::PathId;
use layerstack::prim_index::{ArcKind, OpinionKey};

#[allow(clippy::too_many_arguments)]
fn key(
    is_local: bool,
    arc_kind: ArcKind,
    nested_arc_kind: Option<ArcKind>,
    namespace_depth: u16,
    authored: bool,
    arc_list_index: u16,
    layer_strength: u16,
    layer_id: u64,
    spec_path: u32,
) -> OpinionKey {
    OpinionKey {
        is_local,
        arc_kind,
        nested_arc_kind,
        namespace_depth,
        authored,
        arc_list_index,
        layer_strength,
        layer_id: LayerId(layer_id),
        spec_path: PathId::from_raw(spec_path),
    }
}

fn assert_stronger(a: OpinionKey, b: OpinionKey) {
    assert_eq!(a.cmp_strongest_first(&b), Ordering::Less);
    assert_eq!(b.cmp_strongest_first(&a), Ordering::Greater);
}

#[test]
fn local_beats_remote() {
    let local = key(true, ArcKind::Local, None, 1, true, 0, 5, 10, 1);
    let remote = key(false, ArcKind::Inherits, None, 999, false, 999, 0, 0, 0);
    assert_stronger(local, remote);
}

#[test]
fn arc_kind_follows_liverps_order() {
    let is_local = false;
    let namespace_depth = 3;
    let authored = true;
    let arc_list_index = 0;
    let layer_strength = 0;
    let layer_id = 1;
    let spec_path = 1;
    let mk = |kind| {
        key(
            is_local,
            kind,
            None,
            namespace_depth,
            authored,
            arc_list_index,
            layer_strength,
            layer_id,
            spec_path,
        )
    };
    let inherits = mk(ArcKind::Inherits);
    let variants = mk(ArcKind::Variants);
    let relocates = mk(ArcKind::Relocates);
    let references = mk(ArcKind::References);
    let payloads = mk(ArcKind::Payloads);
    let specializes = mk(ArcKind::Specializes);

    assert_stronger(inherits, variants);
    assert_stronger(variants, relocates);
    assert_stronger(relocates, references);
    assert_stronger(references, payloads);
    assert_stronger(payloads, specializes);
}

#[test]
fn deeper_namespace_wins_ties() {
    let shallow = key(false, ArcKind::References, None, 1, true, 0, 0, 0, 0);
    let deep = key(false, ArcKind::References, None, 2, true, 0, 0, 0, 0);
    assert_stronger(deep, shallow);
}

#[test]
fn authored_beats_implied() {
    let implied = key(false, ArcKind::References, None, 1, false, 0, 0, 0, 0);
    let authored = key(false, ArcKind::References, None, 1, true, 0, 0, 0, 0);
    assert_stronger(authored, implied);
}

#[test]
fn earlier_arc_in_list_is_stronger() {
    let first = key(false, ArcKind::References, None, 1, true, 0, 0, 0, 0);
    let second = key(false, ArcKind::References, None, 1, true, 1, 0, 0, 0);
    assert_stronger(first, second);
}

#[test]
fn stronger_layer_in_stack_wins_ties() {
    let stronger_layer = key(true, ArcKind::Local, None, 1, true, 0, 0, 0, 0);
    let weaker_layer = key(true, ArcKind::Local, None, 1, true, 0, 1, 0, 0);
    assert_stronger(stronger_layer, weaker_layer);
}

#[test]
fn stable_ids_break_remaining_ties() {
    let a = key(true, ArcKind::Local, None, 1, true, 0, 0, 1, 1);
    let b = key(true, ArcKind::Local, None, 1, true, 0, 0, 2, 0);
    assert_stronger(a, b);

    let c = key(true, ArcKind::Local, None, 1, true, 0, 0, 1, 1);
    let d = key(true, ArcKind::Local, None, 1, true, 0, 0, 1, 2);
    assert_stronger(c, d);
}

#[test]
fn sorting_produces_strongest_first() {
    let mut keys: Vec<OpinionKey> = vec![
        key(false, ArcKind::Specializes, None, 1, true, 0, 0, 0, 0),
        key(true, ArcKind::Local, None, 1, true, 0, 1, 0, 0),
        key(true, ArcKind::Local, None, 2, true, 0, 0, 0, 0),
        key(false, ArcKind::Variants, None, 3, true, 0, 0, 0, 0),
    ];

    keys.sort_by(|a, b| a.cmp_strongest_first(b));

    assert!(keys[0].is_local);
    assert_eq!(keys[0].namespace_depth, 2);

    assert!(keys[1].is_local);
    assert_eq!(keys[1].layer_strength, 1);

    assert_eq!(keys[2].arc_kind, ArcKind::Variants);
    assert_eq!(keys[3].arc_kind, ArcKind::Specializes);
}

#[test]
fn shorter_arc_chain_is_stronger() {
    let base = key(false, ArcKind::References, None, 1, true, 0, 0, 1, 1);
    let nested = key(
        false,
        ArcKind::References,
        Some(ArcKind::Inherits),
        1,
        true,
        0,
        0,
        1,
        1,
    );
    assert_stronger(base, nested);
}

#[test]
fn identical_keys_tie() {
    let a = key(false, ArcKind::Payloads, Some(ArcKind::Specializes), 4, false, 2, 3, 7, 9);
    assert_eq!(a.cmp_strongest_first(&a), Ordering::Equal);
}

#[test]
fn nested_arc_rank_breaks_ties() {
    let a = key(false, ArcKind::References, Some(ArcKind::Inherits), 1, true, 0, 0, 1, 1);
    let b = key(false, ArcKind::References, Some(ArcKind::Payloads), 1, true, 0, 0, 1, 1);
    assert_stronger(a, b);
}

#[test]
fn strength_rank_values() {
    assert_eq!(ArcKind::Local.strength_rank(), 0);
    assert_eq!(ArcKind::Variants.strength_rank(), 2);
    assert_eq!(ArcKind::Specializes.strength_rank(), 6);
}

#[test]
fn verified_sort_orders_strongest_first_and_keeps_ties_in_order() {
    let mut keys: Vec<OpinionKey> = vec![
        key(false, ArcKind::Specializes, None, 1, true, 0, 0, 0, 0),
        key(true, ArcKind::Local, None, 1, true, 0, 1, 0, 0),
        key(true, ArcKind::Local, None, 2, true, 0, 0, 0, 0),
        key(false, ArcKind::Variants, None, 3, true, 0, 0, 0, 0),
        key(false, ArcKind::Specializes, None, 1, true, 0, 0, 0, 0),
    ];
    let mut expected = keys.clone();
    expected.sort_by(|a, b| a.cmp_strongest_first(b));
    sort_strongest_first(&mut keys);
    assert_eq!(keys, expected);
    assert!(keys[0].is_local);
    assert_eq!(keys[0].namespace_depth, 2);
    assert_eq!(keys[2].arc_kind, ArcKind::Variants);
    assert_eq!(keys[3].arc_kind, ArcKind::Specializes);
    assert_eq!(keys[4].arc_kind, ArcKind::Specializes);
}

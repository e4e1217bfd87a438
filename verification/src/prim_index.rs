//! Strength ordering of composed opinions.
//!
//! Every authored opinion that composition gathers for a prim carries an
//! [`OpinionKey`]; [`OpinionKey::cmp_strongest_first`] orders keys from the
//! strongest opinion to the weakest (LIVERPS arc order, then tie-breakers).

use core::cmp::Ordering;

use vstd::prelude::*;

use crate::doc::LayerId;
use crate::path::PathId;

verus! {

/// Composition arc kind (LIVERPS ordering).
#[derive(Clone, Copy, Debug, PartialEq, Eq, Hash, Structural)]
pub enum ArcKind {
    /// Local opinions from the layer stack.
    Local,
    /// Inherits arc.
    Inherits,
    /// Variants arc.
    Variants,
    /// Relocates arc.
    Relocates,
    /// References arc.
    References,
    /// Payloads arc.
    Payloads,
    /// Specializes arc.
    Specializes,
}

/// The LIVERPS position of an arc kind (0 is strongest).
pub open spec fn arc_rank(k: ArcKind) -> u8 {
    match k {
        ArcKind::Local => 0,
        ArcKind::Inherits => 1,
        ArcKind::Variants => 2,
        ArcKind::Relocates => 3,
        ArcKind::References => 4,
        ArcKind::Payloads => 5,
        ArcKind::Specializes => 6,
    }
}

impl ArcKind {
    /// The LIVERPS position of this arc kind (0 is strongest).
    pub fn strength_rank(self) -> (r: u8)
        ensures
            r == arc_rank(self),
    {
        match self {
            ArcKind::Local => 0,
            ArcKind::Inherits => 1,
            ArcKind::Variants => 2,
            ArcKind::Relocates => 3,
            ArcKind::References => 4,
            ArcKind::Payloads => 5,
            ArcKind::Specializes => 6,
        }
    }
}

/// A comparable strength key for a single authored opinion.
#[derive(Clone, Copy, Debug, PartialEq, Eq, Structural)]
pub struct OpinionKey {
    /// `true` for local opinions (layer stack), `false` for opinions introduced by arcs.
    pub is_local: bool,
    /// Arc kind of this opinion (for non-local opinions).
    pub arc_kind: ArcKind,
    /// Optional nested arc kind for opinions introduced inside another arc;
    /// shorter arc chains are stronger when the outer arc kind ties.
    pub nested_arc_kind: Option<ArcKind>,
    /// Namespace depth of the site where the opinion is introduced; deeper
    /// sites are stronger.
    pub namespace_depth: u16,
    /// `true` for authored (vs implied) opinions.
    pub authored: bool,
    /// Index within an arc list (e.g. the Nth reference).
    pub arc_list_index: u16,
    /// Strength position within the relevant layer stack (0 is strongest).
    pub layer_strength: u16,
    /// Source layer identifier.
    pub layer_id: LayerId,
    /// Source spec path identifier.
    pub spec_path: PathId,
}

/// The numeric fields of a key, as integers (strongest-first comparison
/// reads them in this order).
pub open spec fn key_fields(k: OpinionKey) -> (int, int, int, int, int, int) {
    (
        arc_rank(k.arc_kind) as int,
        k.namespace_depth as int,
        k.arc_list_index as int,
        k.layer_strength as int,
        k.layer_id.0 as int,
        k.spec_path.index(),
    )
}

/// The LIVERPS rank of a nested arc kind, as an integer.
pub open spec fn rank_of(k: ArcKind) -> int {
    arc_rank(k) as int
}

/// Orders two booleans with `true` first.
pub open spec fn true_first(a: bool, b: bool) -> Ordering {
    if a == b {
        Ordering::Equal
    } else if a {
        Ordering::Less
    } else {
        Ordering::Greater
    }
}

/// Orders two integers ascending.
pub open spec fn ascending(a: int, b: int) -> Ordering {
    if a < b {
        Ordering::Less
    } else if b < a {
        Ordering::Greater
    } else {
        Ordering::Equal
    }
}

/// Orders two optional nested arcs: no nesting first, then by LIVERPS rank.
pub open spec fn nested_order(a: Option<ArcKind>, b: Option<ArcKind>) -> Ordering {
    match (a, b) {
        (None, None) => Ordering::Equal,
        (None, Some(_)) => Ordering::Less,
        (Some(_), None) => Ordering::Greater,
        (Some(x), Some(y)) => ascending(rank_of(x), rank_of(y)),
    }
}

/// The first decisive comparison of a chain, or `Equal` if all tie.
pub open spec fn then_order(first: Ordering, rest: Ordering) -> Ordering {
    if first == Ordering::Equal {
        rest
    } else {
        first
    }
}

/// Strongest-first order of opinion keys: local before remote, then LIVERPS
/// arc kind, then shorter arc chains, deeper introduction sites, authored
/// before implied, earlier arc-list entries, stronger layers, and finally
/// layer id and spec path ascending.
pub open spec fn key_order(a: OpinionKey, b: OpinionKey) -> Ordering {
    then_order(
        true_first(a.is_local, b.is_local),
        then_order(
            ascending(key_fields(a).0, key_fields(b).0),
            then_order(
                nested_order(a.nested_arc_kind, b.nested_arc_kind),
                then_order(
                    ascending(key_fields(b).1, key_fields(a).1),
                    then_order(
                        true_first(a.authored, b.authored),
                        then_order(
                            ascending(key_fields(a).2, key_fields(b).2),
                            then_order(
                                ascending(key_fields(a).3, key_fields(b).3),
                                then_order(
                                    ascending(key_fields(a).4, key_fields(b).4),
                                    ascending(key_fields(a).5, key_fields(b).5),
                                ),
                            ),
                        ),
                    ),
                ),
            ),
        ),
    )
}



impl OpinionKey {
    /// Compares keys with "strongest first" ordering: `Less` means `self`
    /// is the stronger opinion.
    pub fn cmp_strongest_first(&self, other: &Self) -> (r: Ordering)
        ensures
            r == key_order(*self, *other),
    {
        if self.is_local != other.is_local {
            return if self.is_local {
                Ordering::Less
            } else {
                Ordering::Greater
            };
        }
        let a = self.arc_kind.strength_rank();
        let b = other.arc_kind.strength_rank();
        if a < b {
            return Ordering::Less;
        }
        if b < a {
            return Ordering::Greater;
        }
        match (self.nested_arc_kind, other.nested_arc_kind) {
            (None, Some(_)) => {
                return Ordering::Less;
            },
            (Some(_), None) => {
                return Ordering::Greater;
            },
            (Some(x), Some(y)) => {
                let rx = x.strength_rank();
                let ry = y.strength_rank();
                if rx < ry {
                    return Ordering::Less;
                }
                if ry < rx {
                    return Ordering::Greater;
                }
            },
            (None, None) => {},
        }
        if other.namespace_depth < self.namespace_depth {
            return Ordering::Less;
        }
        if self.namespace_depth < other.namespace_depth {
            return Ordering::Greater;
        }
        if self.authored != other.authored {
            return if self.authored {
                Ordering::Less
            } else {
                Ordering::Greater
            };
        }
        if self.arc_list_index < other.arc_list_index {
            return Ordering::Less;
        }
        if other.arc_list_index < self.arc_list_index {
            return Ordering::Greater;
        }
        if self.layer_strength < other.layer_strength {
            return Ordering::Less;
        }
        if other.layer_strength < self.layer_strength {
            return Ordering::Greater;
        }
        if self.layer_id.0 < other.layer_id.0 {
            return Ordering::Less;
        }
        if other.layer_id.0 < self.layer_id.0 {
            return Ordering::Greater;
        }
        let p = self.spec_path.get();
        let q = other.spec_path.get();
        if p < q {
            Ordering::Less
        } else if q < p {
            Ordering::Greater
        } else {
            Ordering::Equal
        }
    }
}

/// The LIVERPS position of an arc kind: Local, Inherits, Variants,
/// Relocates, References, Payloads, Specializes.
pub open spec fn liverps_position(k: ArcKind) -> int {
    match k {
        ArcKind::Local => 0,
        ArcKind::Inherits => 1,
        ArcKind::Variants => 2,
        ArcKind::Relocates => 3,
        ArcKind::References => 4,
        ArcKind::Payloads => 5,
        ArcKind::Specializes => 6,
    }
}

/// Two keys come through the same arc: same locality, arc kind and nested
/// arc kind.
pub open spec fn same_arc(a: OpinionKey, b: OpinionKey) -> bool {
    &&& a.is_local == b.is_local
    &&& a.arc_kind == b.arc_kind
    &&& a.nested_arc_kind == b.nested_arc_kind
}

/// Two keys come through the same arc, introduced at the same namespace
/// depth and both authored or both implied.
pub open spec fn same_site(a: OpinionKey, b: OpinionKey) -> bool {
    &&& same_arc(a, b)
    &&& a.namespace_depth == b.namespace_depth
    &&& a.authored == b.authored
}

/// What makes an opinion stronger, in priority order: a local opinion beats
/// one brought by an arc; an earlier LIVERPS arc kind beats a later one; an
/// unnested arc beats a nested one, and an earlier nested kind a later one;
/// a deeper introduction site beats a shallower one; an authored opinion
/// beats an implied one; an earlier entry of the arc list beats a later one,
/// from whatever layer of its stack it comes; a stronger layer of the stack
/// beats a weaker one; then the smaller layer id, then the smaller spec
/// path. Each criterion decides only when all earlier ones tie.
pub proof fn law_strength_priority(a: OpinionKey, b: OpinionKey)
    ensures
        a.is_local && !b.is_local ==> key_order(a, b) == Ordering::Less,
        a.is_local == b.is_local && liverps_position(a.arc_kind) < liverps_position(b.arc_kind) ==> key_order(a, b)
            == Ordering::Less,
        a.is_local == b.is_local && a.arc_kind == b.arc_kind && a.nested_arc_kind is None
            && b.nested_arc_kind is Some ==> key_order(a, b) == Ordering::Less,
        a.is_local == b.is_local && a.arc_kind == b.arc_kind && a.nested_arc_kind is Some
            && b.nested_arc_kind is Some && liverps_position(a.nested_arc_kind->0) < liverps_position(
            b.nested_arc_kind->0,
        ) ==> key_order(a, b) == Ordering::Less,
        same_arc(a, b) && a.namespace_depth > b.namespace_depth ==> key_order(a, b) == Ordering::Less,
        same_arc(a, b) && a.namespace_depth == b.namespace_depth && a.authored && !b.authored ==> key_order(a, b)
            == Ordering::Less,
        same_site(a, b) && a.arc_list_index < b.arc_list_index ==> key_order(a, b) == Ordering::Less,
        same_site(a, b) && a.arc_list_index == b.arc_list_index && a.layer_strength < b.layer_strength ==> key_order(
            a,
            b,
        ) == Ordering::Less,
        same_site(a, b) && a.arc_list_index == b.arc_list_index && a.layer_strength == b.layer_strength
            && a.layer_id.0 < b.layer_id.0 ==> key_order(a, b) == Ordering::Less,
        same_site(a, b) && a.arc_list_index == b.arc_list_index && a.layer_strength == b.layer_strength
            && a.layer_id == b.layer_id && a.spec_path.index() < b.spec_path.index() ==> key_order(a, b)
            == Ordering::Less,
{
}

/// Swapping the operands of the strength order reverses it: `a` is stronger
/// than `b` exactly when `b` is weaker than `a`, and ties are symmetric.
pub proof fn law_key_order_antisymmetric(a: OpinionKey, b: OpinionKey)
    ensures
        key_order(a, b) == Ordering::Less <==> key_order(b, a) == Ordering::Greater,
        key_order(a, b) == Ordering::Equal <==> key_order(b, a) == Ordering::Equal,
{
}

/// Two keys tie exactly when they are the same key, so the order never
/// conflates distinct opinions.
pub proof fn law_key_order_equal_iff_same(a: OpinionKey, b: OpinionKey)
    ensures
        key_order(a, b) == Ordering::Equal <==> a == b,
{
    if key_order(a, b) == Ordering::Equal {
        assert(a.arc_kind == b.arc_kind) by {
            assert(arc_rank(a.arc_kind) == arc_rank(b.arc_kind));
        }
        assert(a.nested_arc_kind == b.nested_arc_kind) by {
            match (a.nested_arc_kind, b.nested_arc_kind) {
                (Some(x), Some(y)) => {
                    assert(arc_rank(x) == arc_rank(y));
                },
                _ => {},
            }
        }
        assert(a.layer_id == b.layer_id);
        assert(a.spec_path.index() == b.spec_path.index());
        crate::path::lemma_path_id_index_injective(a.spec_path, b.spec_path);
    }
}

/// The strength order is transitive: stronger than a stronger key means
/// stronger.
pub proof fn law_key_order_transitive(a: OpinionKey, b: OpinionKey, c: OpinionKey)
    requires
        key_order(a, b) == Ordering::Less,
        key_order(b, c) == Ordering::Less,
    ensures
        key_order(a, c) == Ordering::Less,
{
}

/// `a` is strictly stronger than `b` in the strongest-first order.
pub open spec fn stronger(a: OpinionKey, b: OpinionKey) -> bool {
    key_order(a, b) == Ordering::Less
}

impl OpinionKey {
    /// `true` when `self` is strictly stronger than `other`.
    pub fn is_stronger_than(&self, other: &Self) -> (r: bool)
        ensures
            r == stronger(*self, *other),
    {
        match self.cmp_strongest_first(other) {
            Ordering::Less => true,
            Ordering::Equal => false,
            Ordering::Greater => false,
        }
    }
}

/// Strict strength is a strict total order on keys: never both ways, and
/// for two distinct keys exactly one is the stronger; it is transitive.
pub proof fn law_stronger_strict_total(a: OpinionKey, b: OpinionKey, c: OpinionKey)
    ensures
        !(stronger(a, b) && stronger(b, a)),
        a != b ==> (stronger(a, b) || stronger(b, a)),
        !stronger(a, a),
        stronger(a, b) && stronger(b, c) ==> stronger(a, c),
{
    law_key_order_antisymmetric(a, b);
    law_key_order_equal_iff_same(a, b);
    law_key_order_equal_iff_same(a, a);
    if stronger(a, b) && stronger(b, c) {
        law_key_order_transitive(a, b, c);
    }
}

} // verus!

//! Reading a prim's opinions back from the store through its sources:
//! flags such as `active` and `instanceable`, and the strongest authored
//! value of a field.

use vstd::prelude::*;

use crate::doc::{clone_entries, clone_value, combine_dictionary_chain, combined_chain, dict_view, Value, ValueView};
use crate::interner::TokenId;
use crate::path::PathId;
use crate::prim_index::OpinionKey;
use crate::listop::{list_chain, ListOp};
use crate::store::{layer_prims, store_layers, FieldEntry, FieldValue, InMemoryStore, Layer, PrimSpec};

verus! {

/// The spec behind a source: the spec of the source's layer at its path,
/// when the store holds both.
pub open spec fn source_spec(layers: Map<u64, Layer>, k: OpinionKey) -> Option<PrimSpec> {
    if layers.dom().contains(k.layer_id.0) && layer_prims(layers[k.layer_id.0]).dom().contains(k.spec_path) {
        Some(layer_prims(layers[k.layer_id.0])[k.spec_path])
    } else {
        None
    }
}

/// The spec behind `k`, read from the store.
fn spec_of<'a>(store: &'a InMemoryStore, k: &OpinionKey) -> (r: Option<&'a PrimSpec>)
    ensures
        match source_spec(store_layers(*store), *k) {
            Some(s) => r matches Some(v) && *v == s,
            None => r is None,
        },
{
    match store.layer(k.layer_id) {
        Some(layer) => layer.prim(k.spec_path),
        None => None,
    }
}

/// A boolean flag a prim spec may author.
#[derive(Clone, Copy, Debug, PartialEq, Eq, Structural)]
pub enum SpecFlag {
    /// The `active` flag.
    Active,
    /// The `instanceable` flag.
    Instanceable,
}

/// The value `spec` authors for `flag`, if any.
pub open spec fn flag_of(spec: PrimSpec, flag: SpecFlag) -> Option<bool> {
    match flag {
        SpecFlag::Active => spec.active,
        SpecFlag::Instanceable => spec.instanceable,
    }
}

/// The value of `flag` the spec behind `k` authors (`None` when there is no
/// such spec or it authors none).
pub open spec fn source_flag(layers: Map<u64, Layer>, k: OpinionKey, flag: SpecFlag) -> Option<bool> {
    match source_spec(layers, k) {
        Some(s) => flag_of(s, flag),
        None => None,
    }
}

/// Reads `flag` from the spec behind each source, in source order: the
/// opinions from which the strongest authored value is resolved.
pub fn source_flags(store: &InMemoryStore, sources: &[OpinionKey], flag: SpecFlag) -> (r: Vec<Option<bool>>)
    ensures
        r@.len() == sources@.len(),
        forall|i: int| 0 <= i < sources@.len() ==> #[trigger] r@[i] == source_flag(store_layers(*store), sources@[i], flag),
{
    let mut out: Vec<Option<bool>> = Vec::new();
    let n = sources.len();
    let mut i: usize = 0;
    while i < n
        invariant
            n == sources@.len(),
            i <= n,
            out@.len() == i,
            forall|j: int| 0 <= j < i ==> #[trigger] out@[j] == source_flag(store_layers(*store), sources@[j], flag),
        decreases n - i,
    {
        let v = match spec_of(store, &sources[i]) {
            Some(spec) => match flag {
                SpecFlag::Active => spec.active,
                SpecFlag::Instanceable => spec.instanceable,
            },
            None => None,
        };
        out.push(v);
        i = i + 1;
    }
    out
}

/// The position of the first entry of `fields` for `field`.
pub open spec fn field_position(fields: Seq<FieldEntry>, field: TokenId) -> Option<int>
    decreases fields.len(),
{
    if fields.len() == 0 {
        None
    } else if fields[0].name == field {
        Some(0)
    } else {
        match field_position(fields.drop_first(), field) {
            Some(p) => Some(p + 1),
            None => None,
        }
    }
}

/// A field position lies in range and names the field.
proof fn lemma_field_position(fields: Seq<FieldEntry>, field: TokenId)
    ensures
        field_position(fields, field) matches Some(p) ==> 0 <= p < fields.len() && fields[p].name == field,
    decreases fields.len(),
{
    if fields.len() > 0 && fields[0].name != field {
        lemma_field_position(fields.drop_first(), field);
    }
}

/// The spec behind source `k` authors `field`.
pub open spec fn source_authors(layers: Map<u64, Layer>, k: OpinionKey, field: TokenId) -> bool {
    match source_spec(layers, k) {
        Some(s) => field_position(s.fields@, field) is Some,
        None => false,
    }
}

/// The position of the first entry for `field`.
fn find_field(fields: &[FieldEntry], field: TokenId) -> (r: Option<usize>)
    ensures
        r matches Some(p) ==> field_position(fields@, field) == Some(p as int) && p < fields@.len(),
        r is None ==> field_position(fields@, field) is None,
{
    proof {
        lemma_field_position(fields@, field);
        assert(fields@.subrange(0, fields@.len() as int) =~= fields@);
    }
    let n = fields.len();
    let mut i: usize = 0;
    while i < n
        invariant
            n == fields@.len(),
            i <= n,
            field_position(fields@, field) == (match field_position(fields@.subrange(i as int, n as int), field) {
                Some(p) => Some(p + i),
                None => None,
            }),
        decreases n - i,
    {
        let ghost rest = fields@.subrange(i as int, n as int);
        proof {
            assert(rest[0] == fields@[i as int]);
            assert(rest.drop_first() =~= fields@.subrange(i + 1, n as int));
        }
        if fields[i].name == field {
            return Some(i);
        }
        i = i + 1;
    }
    proof {
        assert(fields@.subrange(n as int, n as int).len() == 0);
    }
    None
}

/// Resolves `field` from a prim's sources listed strongest first: the first
/// source whose spec authors the field, with the value that spec authors
/// (its first entry for the field). `None` when no source authors it.
pub fn resolve_field_value<'a>(store: &'a InMemoryStore, sources: &[OpinionKey], field: TokenId) -> (r: Option<
    (usize, &'a FieldValue),
>)
    ensures
        r is None <==> forall|i: int| 0 <= i < sources@.len() ==> !source_authors(store_layers(*store), #[trigger] sources@[i], field),
        r matches Some((i, v)) ==> {
            &&& i < sources@.len()
            &&& source_authors(store_layers(*store), sources@[i as int], field)
            &&& forall|j: int| 0 <= j < i ==> !source_authors(store_layers(*store), #[trigger] sources@[j], field)
            &&& source_spec(store_layers(*store), sources@[i as int]) matches Some(s) && *v == s.fields@[field_position(s.fields@, field)->0].value
        },
{
    let n = sources.len();
    let mut i: usize = 0;
    while i < n
        invariant
            n == sources@.len(),
            i <= n,
            forall|j: int| 0 <= j < i ==> !source_authors(store_layers(*store), #[trigger] sources@[j], field),
        decreases n - i,
    {
        match spec_of(store, &sources[i]) {
            Some(spec) => match find_field(spec.fields.as_slice(), field) {
                Some(p) => {
                    proof {
                        assert(source_spec(store_layers(*store), sources@[i as int]) == Some(*spec));
                        assert(field_position(spec.fields@, field) == Some(p as int));
                        assert(source_authors(store_layers(*store), sources@[i as int], field));
                    }
                    let v = &spec.fields[p].value;
                    proof {
                        assert(*v == spec.fields@[p as int].value);
                    }
                    return Some((i, v));
                },
                None => {},
            },
            None => {},
        }
        i = i + 1;
    }
    None
}

/// The value of `field` the spec behind source `k` authors (its first entry
/// for the field), if any.
pub open spec fn source_value(layers: Map<u64, Layer>, k: OpinionKey, field: TokenId) -> Option<FieldValue> {
    match source_spec(layers, k) {
        Some(s) => match field_position(s.fields@, field) {
            Some(p) => Some(s.fields@[p].value),
            None => None,
        },
        None => None,
    }
}

/// The strongest opinion on `field` among sources listed strongest first:
/// the value of the first source that authors it.
pub open spec fn strongest_value(layers: Map<u64, Layer>, sources: Seq<OpinionKey>, field: TokenId) -> Option<
    FieldValue,
>
    decreases sources.len(),
{
    if sources.len() == 0 {
        None
    } else if source_value(layers, sources[0], field) is Some {
        source_value(layers, sources[0], field)
    } else {
        strongest_value(layers, sources.drop_first(), field)
    }
}

/// The token list edits of `field` among the sources, in source order.
pub open spec fn token_list_ops(layers: Map<u64, Layer>, sources: Seq<OpinionKey>, field: TokenId) -> Seq<
    ListOp<TokenId>,
>
    decreases sources.len(),
{
    if sources.len() == 0 {
        Seq::empty()
    } else {
        let rest = token_list_ops(layers, sources.drop_first(), field);
        match source_value(layers, sources[0], field) {
            Some(FieldValue::TokenListOp(op)) => seq![op] + rest,
            _ => rest,
        }
    }
}

/// The path list edits of `field` among the sources, in source order.
pub open spec fn path_list_ops(layers: Map<u64, Layer>, sources: Seq<OpinionKey>, field: TokenId) -> Seq<
    ListOp<PathId>,
>
    decreases sources.len(),
{
    if sources.len() == 0 {
        Seq::empty()
    } else {
        let rest = path_list_ops(layers, sources.drop_first(), field);
        match source_value(layers, sources[0], field) {
            Some(FieldValue::PathListOp(op)) => seq![op] + rest,
            _ => rest,
        }
    }
}

/// `source_value` agrees with `source_authors`, and the first authoring
/// source gives the strongest value.
proof fn lemma_strongest_value(layers: Map<u64, Layer>, sources: Seq<OpinionKey>, field: TokenId, i: int)
    requires
        0 <= i <= sources.len(),
        forall|j: int| 0 <= j < i ==> !source_authors(layers, #[trigger] sources[j], field),
        i < sources.len() ==> source_authors(layers, sources[i], field),
    ensures
        i < sources.len() ==> strongest_value(layers, sources, field) == source_value(layers, sources[i], field),
        i == sources.len() ==> strongest_value(layers, sources, field) is None,
    decreases i,
{
    if i > 0 {
        let rest = sources.drop_first();
        assert(!source_authors(layers, sources[0], field));
        assert forall|j: int| 0 <= j < i - 1 implies !source_authors(layers, #[trigger] rest[j], field) by {
            assert(rest[j] == sources[j + 1]);
        }
        if i < sources.len() {
            assert(rest[i - 1] == sources[i]);
        }
        lemma_strongest_value(layers, rest, field, i - 1);
    }
}

/// Resolves a token-list field: when the strongest opinion on `field` is a
/// token list edit, the list edits of all sources (strongest first) chained
/// over an empty list; otherwise `None`.
pub fn resolve_token_list(store: &InMemoryStore, sources: &[OpinionKey], field: TokenId) -> (r: Option<Vec<TokenId>>)
    ensures
        match strongest_value(store_layers(*store), sources@, field) {
            Some(FieldValue::TokenListOp(_)) => r matches Some(v) && v@ == list_chain(
                Seq::<TokenId>::empty(),
                token_list_ops(store_layers(*store), sources@, field),
            ),
            _ => r is None,
        },
{
    let ghost layers = store_layers(*store);
    match resolve_field_value(store, sources, field) {
        None => {
            proof {
                lemma_strongest_value(layers, sources@, field, sources@.len() as int);
            }
            return None;
        },
        Some((i, v)) => {
            proof {
                lemma_strongest_value(layers, sources@, field, i as int);
                lemma_field_position(source_spec(layers, sources@[i as int])->0.fields@, field);
            }
            match v {
                FieldValue::TokenListOp(_) => {},
                _ => {
                    return None;
                },
            }
        },
    }
    let mut acc: Vec<TokenId> = Vec::new();
    let n = sources.len();
    let mut i: usize = n;
    proof {
        assert(sources@.subrange(n as int, n as int) =~= Seq::<OpinionKey>::empty());
    }
    while i > 0
        invariant
            n == sources@.len(),
            i <= n,
            layers == store_layers(*store),
            acc@ == list_chain(Seq::<TokenId>::empty(), token_list_ops(layers, sources@.subrange(i as int, n as int), field)),
        decreases i,
    {
        i = i - 1;
        let ghost sub = sources@.subrange(i as int, n as int);
        proof {
            assert(sub[0] == sources@[i as int]);
            assert(sub.drop_first() =~= sources@.subrange(i + 1, n as int));
        }
        match spec_of(store, &sources[i]) {
            Some(spec) => match find_field(spec.fields.as_slice(), field) {
                Some(p) => {
                    proof {
                        lemma_field_position(spec.fields@, field);
                        assert(source_value(layers, sources@[i as int], field) == Some(spec.fields@[p as int].value));
                    }
                    match &spec.fields[p].value {
                        FieldValue::TokenListOp(op) => {
                            let next = op.apply(acc.as_slice());
                            proof {
                                let rest = token_list_ops(layers, sources@.subrange(i + 1, n as int), field);
                                let ops = token_list_ops(layers, sub, field);
                                assert(ops == seq![*op] + rest);
                                assert(ops.drop_first() =~= rest);
                            }
                            acc = next;
                        },
                        _ => {},
                    }
                },
                None => {},
            },
            None => {},
        }
    }
    proof {
        assert(sources@.subrange(0, n as int) =~= sources@);
    }
    Some(acc)
}

/// Resolves a path-list field: when the strongest opinion on `field` is a
/// path list edit, the list edits of all sources (strongest first) chained
/// over an empty list; otherwise `None`.
pub fn resolve_path_list(store: &InMemoryStore, sources: &[OpinionKey], field: TokenId) -> (r: Option<Vec<PathId>>)
    ensures
        match strongest_value(store_layers(*store), sources@, field) {
            Some(FieldValue::PathListOp(_)) => r matches Some(v) && v@ == list_chain(
                Seq::<PathId>::empty(),
                path_list_ops(store_layers(*store), sources@, field),
            ),
            _ => r is None,
        },
{
    let ghost layers = store_layers(*store);
    match resolve_field_value(store, sources, field) {
        None => {
            proof {
                lemma_strongest_value(layers, sources@, field, sources@.len() as int);
            }
            return None;
        },
        Some((i, v)) => {
            proof {
                lemma_strongest_value(layers, sources@, field, i as int);
                lemma_field_position(source_spec(layers, sources@[i as int])->0.fields@, field);
            }
            match v {
                FieldValue::PathListOp(_) => {},
                _ => {
                    return None;
                },
            }
        },
    }
    let mut acc: Vec<PathId> = Vec::new();
    let n = sources.len();
    let mut i: usize = n;
    proof {
        assert(sources@.subrange(n as int, n as int) =~= Seq::<OpinionKey>::empty());
    }
    while i > 0
        invariant
            n == sources@.len(),
            i <= n,
            layers == store_layers(*store),
            acc@ == list_chain(Seq::<PathId>::empty(), path_list_ops(layers, sources@.subrange(i as int, n as int), field)),
        decreases i,
    {
        i = i - 1;
        let ghost sub = sources@.subrange(i as int, n as int);
        proof {
            assert(sub[0] == sources@[i as int]);
            assert(sub.drop_first() =~= sources@.subrange(i + 1, n as int));
        }
        match spec_of(store, &sources[i]) {
            Some(spec) => match find_field(spec.fields.as_slice(), field) {
                Some(p) => {
                    proof {
                        lemma_field_position(spec.fields@, field);
                        assert(source_value(layers, sources@[i as int], field) == Some(spec.fields@[p as int].value));
                    }
                    match &spec.fields[p].value {
                        FieldValue::PathListOp(op) => {
                            let next = op.apply(acc.as_slice());
                            proof {
                                let rest = path_list_ops(layers, sources@.subrange(i + 1, n as int), field);
                                let ops = path_list_ops(layers, sub, field);
                                assert(ops == seq![*op] + rest);
                                assert(ops.drop_first() =~= rest);
                            }
                            acc = next;
                        },
                        _ => {},
                    }
                },
                None => {},
            },
            None => {},
        }
    }
    proof {
        assert(sources@.subrange(0, n as int) =~= sources@);
    }
    Some(acc)
}

/// Resolves a scalar field: the strongest opinion's value when it is a
/// scalar other than a value block; `None` when no source authors the
/// field, the strongest opinion blocks it, or it is not a scalar.
pub fn resolve_scalar<'a>(store: &'a InMemoryStore, sources: &[OpinionKey], field: TokenId) -> (r: Option<&'a Value>)
    ensures
        match strongest_value(store_layers(*store), sources@, field) {
            Some(FieldValue::Value(Value::Blocked)) => r is None,
            Some(FieldValue::Value(v)) => r == Some(&v),
            _ => r is None,
        },
{
    let ghost layers = store_layers(*store);
    match resolve_field_value(store, sources, field) {
        None => {
            proof {
                lemma_strongest_value(layers, sources@, field, sources@.len() as int);
            }
            None
        },
        Some((i, v)) => {
            proof {
                lemma_strongest_value(layers, sources@, field, i as int);
                lemma_field_position(source_spec(layers, sources@[i as int])->0.fields@, field);
            }
            match v {
                FieldValue::Value(Value::Blocked) => None,
                FieldValue::Value(x) => Some(x),
                _ => None,
            }
        },
    }
}

/// The dictionary opinions on `field` among the sources, in source order.
pub open spec fn dictionary_opinions(layers: Map<u64, Layer>, sources: Seq<OpinionKey>, field: TokenId) -> Seq<
    Seq<(Seq<char>, ValueView)>,
>
    decreases sources.len(),
{
    if sources.len() == 0 {
        Seq::empty()
    } else {
        let rest = dictionary_opinions(layers, sources.drop_first(), field);
        match source_value(layers, sources[0], field) {
            Some(FieldValue::Value(Value::Dictionary(d))) => seq![dict_view(d@)] + rest,
            _ => rest,
        }
    }
}

/// Resolves a dictionary field: when the strongest opinion on `field` is a
/// dictionary, the dictionary opinions of all sources (strongest first)
/// combined, each stronger entry kept over weaker ones; otherwise `None`.
pub fn resolve_dictionary(store: &InMemoryStore, sources: &[OpinionKey], field: TokenId) -> (r: Option<
    Vec<(String, Value)>,
>)
    ensures
        match strongest_value(store_layers(*store), sources@, field) {
            Some(FieldValue::Value(Value::Dictionary(_))) => r matches Some(d) && dict_view(d@) == combined_chain(
                dictionary_opinions(store_layers(*store), sources@, field),
            ),
            _ => r is None,
        },
{
    let ghost layers = store_layers(*store);
    match resolve_field_value(store, sources, field) {
        None => {
            proof {
                lemma_strongest_value(layers, sources@, field, sources@.len() as int);
            }
            return None;
        },
        Some((i, v)) => {
            proof {
                lemma_strongest_value(layers, sources@, field, i as int);
                lemma_field_position(source_spec(layers, sources@[i as int])->0.fields@, field);
            }
            match v {
                FieldValue::Value(Value::Dictionary(_)) => {},
                _ => {
                    return None;
                },
            }
        },
    }
    let mut dicts: Vec<Vec<(String, Value)>> = Vec::new();
    let n = sources.len();
    let mut i: usize = n;
    proof {
        assert(sources@.subrange(n as int, n as int) =~= Seq::<OpinionKey>::empty());
        assert(crate::doc::dict_views(dicts@) =~= Seq::<Seq<(Seq<char>, ValueView)>>::empty());
    }
    while i > 0
        invariant
            n == sources@.len(),
            i <= n,
            layers == store_layers(*store),
            crate::doc::dict_views(dicts@) == dictionary_opinions(layers, sources@.subrange(i as int, n as int), field),
        decreases i,
    {
        i = i - 1;
        let ghost sub = sources@.subrange(i as int, n as int);
        proof {
            assert(sub[0] == sources@[i as int]);
            assert(sub.drop_first() =~= sources@.subrange(i + 1, n as int));
        }
        match spec_of(store, &sources[i]) {
            Some(spec) => match find_field(spec.fields.as_slice(), field) {
                Some(p) => {
                    proof {
                        lemma_field_position(spec.fields@, field);
                        assert(source_value(layers, sources@[i as int], field) == Some(spec.fields@[p as int].value));
                    }
                    match &spec.fields[p].value {
                        FieldValue::Value(Value::Dictionary(d)) => {
                            let copy = clone_entries(d.as_slice());
                            let ghost before = dicts@;
                            dicts.insert(0, copy);
                            proof {
                                assert(dicts@ == seq![copy].add(before));
                                assert(crate::doc::dict_views(dicts@) =~= seq![dict_view(d@)] + crate::doc::dict_views(before));
                            }
                        },
                        _ => {},
                    }
                },
                None => {},
            },
            None => {},
        }
    }
    proof {
        assert(sources@.subrange(0, n as int) =~= sources@);
    }
    Some(combine_dictionary_chain(dicts.as_slice()))
}

/// A resolved field value, by the kind of its strongest opinion.
#[derive(Debug)]
pub enum ResolvedValue {
    /// A scalar value (the strongest opinion wins).
    Scalar(Value),
    /// A token list resolved by chaining list edits.
    TokenList(Vec<TokenId>),
    /// A path list resolved by chaining list edits.
    PathList(Vec<PathId>),
    /// A dictionary resolved by combining dictionary opinions.
    Dictionary(Vec<(String, Value)>),
}

/// What resolving `field` through `sources` gives: nothing for a blocked
/// or time-sampled strongest opinion, the combined dictionaries for a
/// dictionary, the chained list edits for a list edit, and the strongest
/// value for any other scalar.
pub open spec fn resolves_to(
    layers: Map<u64, Layer>,
    sources: Seq<OpinionKey>,
    field: TokenId,
    r: Option<ResolvedValue>,
) -> bool {
    match strongest_value(layers, sources, field) {
        Some(FieldValue::Value(Value::Blocked)) => r is None,
        Some(FieldValue::Value(Value::Dictionary(_))) => r matches Some(ResolvedValue::Dictionary(d)) && dict_view(d@)
            == combined_chain(dictionary_opinions(layers, sources, field)),
        Some(FieldValue::Value(v)) => r matches Some(ResolvedValue::Scalar(x)) && x@ == v@,
        Some(FieldValue::TokenListOp(_)) => r matches Some(ResolvedValue::TokenList(t)) && t@ == list_chain(
            Seq::<TokenId>::empty(),
            token_list_ops(layers, sources, field),
        ),
        Some(FieldValue::PathListOp(_)) => r matches Some(ResolvedValue::PathList(t)) && t@ == list_chain(
            Seq::<PathId>::empty(),
            path_list_ops(layers, sources, field),
        ),
        _ => r is None,
    }
}

/// Resolves `field` through `sources` (strongest first) by the kind of its
/// strongest opinion, as [`resolves_to`] states.
pub fn resolve_value(store: &InMemoryStore, sources: &[OpinionKey], field: TokenId) -> (r: Option<ResolvedValue>)
    ensures
        resolves_to(store_layers(*store), sources@, field, r),
{
    let ghost layers = store_layers(*store);
    let v = match resolve_field_value(store, sources, field) {
        None => {
            proof {
                lemma_strongest_value(layers, sources@, field, sources@.len() as int);
            }
            return None;
        },
        Some((i, v)) => {
            proof {
                lemma_strongest_value(layers, sources@, field, i as int);
                lemma_field_position(source_spec(layers, sources@[i as int])->0.fields@, field);
            }
            v
        },
    };
    match v {
        FieldValue::Value(Value::Blocked) => None,
        FieldValue::Value(Value::Dictionary(_)) => match resolve_dictionary(store, sources, field) {
            Some(d) => Some(ResolvedValue::Dictionary(d)),
            None => None,
        },
        FieldValue::Value(x) => Some(ResolvedValue::Scalar(clone_value(x))),
        FieldValue::TokenListOp(_) => match resolve_token_list(store, sources, field) {
            Some(t) => Some(ResolvedValue::TokenList(t)),
            None => None,
        },
        FieldValue::PathListOp(_) => match resolve_path_list(store, sources, field) {
            Some(t) => Some(ResolvedValue::PathList(t)),
            None => None,
        },
        FieldValue::TimeSamples(_) => None,
    }
}

/// The sources that author `field`.
pub open spec fn authors_field(layers: Map<u64, Layer>, field: TokenId) -> spec_fn(OpinionKey) -> bool {
    |k: OpinionKey| source_authors(layers, k, field)
}

/// The sources (strongest first) whose specs author `field`, in order.
pub fn authoring_sources(store: &InMemoryStore, sources: &[OpinionKey], field: TokenId) -> (r: Vec<OpinionKey>)
    ensures
        r@ == sources@.filter(authors_field(store_layers(*store), field)),
{
    let ghost pred = authors_field(store_layers(*store), field);
    let mut out: Vec<OpinionKey> = Vec::new();
    let n = sources.len();
    let mut i: usize = 0;
    while i < n
        invariant
            n == sources@.len(),
            i <= n,
            pred == authors_field(store_layers(*store), field),
            out@ == sources@.take(i as int).filter(pred),
        decreases n - i,
    {
        let authored = match spec_of(store, &sources[i]) {
            Some(spec) => find_field(spec.fields.as_slice(), field).is_some(),
            None => false,
        };
        proof {
            assert(authored == pred(sources@[i as int]));
            crate::compose::lemma_filter_take_step(sources@, pred, i as int);
        }
        if authored {
            out.push(sources[i]);
        }
        i = i + 1;
    }
    proof {
        assert(sources@.take(n as int) =~= sources@);
    }
    out
}

} // verus!

//! Document model: identifiers, enumerations and values.
//!
//! Layers are named by stable [`LayerId`]s; prim specs carry a
//! [`Specifier`]; time-varying values use an [`InterpolationType`].
//! Dictionary-valued opinions combine key by key
//! ([`combine_dictionaries`], [`combine_dictionary_chain`]).

use vstd::prelude::*;

use crate::interner::TokenId;

verus! {

/// Identifies a layer by stable ID.
#[derive(Clone, Copy, Debug, PartialEq, Eq, PartialOrd, Ord, Hash, Structural)]
pub struct LayerId(pub u64);

/// Prim specifier: determines how a prim spec contributes to composition.
#[derive(Clone, Copy, Debug, PartialEq, Eq, Hash, Structural)]
pub enum Specifier {
    /// Concretely defining (`def`). The prim is fully defined.
    Def,
    /// Non-defining (`over`). Provides opinions without defining a new prim.
    Over,
    /// Abstractly defining (`class`). Defines a prim template not meant for
    /// direct use.
    Class,
}

/// Interpolation method for time-varying attribute resolution.
#[derive(Clone, Copy, Debug, PartialEq, Eq, Hash, Structural)]
pub enum InterpolationType {
    /// Step function — value holds until the next time sample.
    Held,
    /// Linearly interpolate between bracketing samples.
    /// Non-numeric types fall back to held.
    Linear,
}

impl Default for InterpolationType {
    fn default() -> (r: Self)
        ensures
            r == InterpolationType::Held,
    {
        InterpolationType::Held
    }
}

/// A scene description value.
///
/// Floating-point payloads (`float`, `double`, `timecode`) are held as their
/// IEEE 754 bit patterns, as `half` is. Equality compares those bit
/// patterns: `Double` of `-0.0` differs from `Double` of `0.0`, and a NaN
/// equals the same NaN, where IEEE comparison of the floats would say
/// otherwise.
#[derive(Debug, PartialEq)]
pub enum Value {
    /// No value.
    Null,
    /// A boolean (`bool`).
    Bool(bool),
    /// An unsigned 8-bit integer (`uchar`).
    UChar(u8),
    /// A signed 32-bit integer (`int`).
    Int(i32),
    /// An unsigned 32-bit integer (`uint`).
    UInt(u32),
    /// A signed 64-bit integer (`int64`).
    Int64(i64),
    /// An unsigned 64-bit integer (`uint64`).
    UInt64(u64),
    /// An IEEE 754 half-precision float (`half`), stored as raw bits.
    Half(u16),
    /// A 32-bit float (`float`), stored as raw bits.
    Float(u32),
    /// A 64-bit float (`double`), stored as raw bits.
    Double(u64),
    /// A UTF-8 string (`string`).
    String(String),
    /// A token (interned string, `token`).
    Token(TokenId),
    /// An asset path, distinct from a plain string.
    Asset(String),
    /// A time code value (`timecode`), stored as the raw bits of its `f64`.
    TimeCode(u64),
    /// Opaque bytes tagged with a type name.
    Opaque {
        /// The (interned) type name for these bytes.
        type_token: TokenId,
        /// The opaque payload.
        bytes: Vec<u8>,
    },
    /// Value block sentinel: suppresses weaker opinions.
    Blocked,
    /// An ordered sequence of values (tuples and arrays).
    Array(Vec<Value>),
    /// A dictionary of string-keyed values, in insertion order.
    Dictionary(Vec<(String, Value)>),
}

/// The mathematical content of a [`Value`]: strings as character sequences,
/// lists as sequences.
#[verifier::ext_equal]
pub enum ValueView {
    /// No value.
    Null,
    /// A boolean.
    Bool(bool),
    /// An unsigned 8-bit integer.
    UChar(u8),
    /// A signed 32-bit integer.
    Int(i32),
    /// An unsigned 32-bit integer.
    UInt(u32),
    /// A signed 64-bit integer.
    Int64(i64),
    /// An unsigned 64-bit integer.
    UInt64(u64),
    /// Half-precision bits.
    Half(u16),
    /// Single-precision bits.
    Float(u32),
    /// Double-precision bits.
    Double(u64),
    /// A string.
    String(Seq<char>),
    /// A token.
    Token(TokenId),
    /// An asset path.
    Asset(Seq<char>),
    /// Time code bits.
    TimeCode(u64),
    /// Opaque bytes tagged with a type name.
    Opaque {
        /// The type name.
        type_token: TokenId,
        /// The payload.
        bytes: Seq<u8>,
    },
    /// The value block sentinel.
    Blocked,
    /// A sequence of values.
    Array(Seq<ValueView>),
    /// String-keyed entries, in order.
    Dictionary(Seq<(Seq<char>, ValueView)>),
}

/// The content of a value.
pub open spec fn value_view(v: Value) -> ValueView
    decreases v,
{
    match v {
        Value::Null => ValueView::Null,
        Value::Bool(b) => ValueView::Bool(b),
        Value::UChar(x) => ValueView::UChar(x),
        Value::Int(x) => ValueView::Int(x),
        Value::UInt(x) => ValueView::UInt(x),
        Value::Int64(x) => ValueView::Int64(x),
        Value::UInt64(x) => ValueView::UInt64(x),
        Value::Half(x) => ValueView::Half(x),
        Value::Float(x) => ValueView::Float(x),
        Value::Double(x) => ValueView::Double(x),
        Value::String(s) => ValueView::String(s@),
        Value::Token(t) => ValueView::Token(t),
        Value::Asset(s) => ValueView::Asset(s@),
        Value::TimeCode(x) => ValueView::TimeCode(x),
        Value::Opaque { type_token, bytes } => ValueView::Opaque { type_token, bytes: bytes@ },
        Value::Blocked => ValueView::Blocked,
        Value::Array(items) => ValueView::Array(
            Seq::new(
                items@.len(),
                |i: int|
                    if 0 <= i < items@.len() {
                        value_view(items@[i])
                    } else {
                        ValueView::Null
                    },
            ),
        ),
        Value::Dictionary(entries) => ValueView::Dictionary(
            Seq::new(
                entries@.len(),
                |i: int|
                    if 0 <= i < entries@.len() {
                        (entries@[i].0@, value_view(entries@[i].1))
                    } else {
                        (Seq::empty(), ValueView::Null)
                    },
            ),
        ),
    }
}

impl View for Value {
    type V = ValueView;

    open spec fn view(&self) -> ValueView {
        value_view(*self)
    }
}

impl Clone for Value {
    /// A deep copy.
    fn clone(&self) -> (r: Self)
        ensures
            r@ == self@,
    {
        clone_value(self)
    }
}

impl Value {
    /// Creates a string value.
    pub fn string(s: &str) -> (r: Self)
        ensures
            r@ == ValueView::String(s@),
    {
        Value::String(s.to_owned())
    }
}

impl From<bool> for Value {
    fn from(v: bool) -> (r: Self) {
        Value::Bool(v)
    }
}

impl vstd::std_specs::convert::FromSpecImpl<bool> for Value {
    open spec fn obeys_from_spec() -> bool {
        true
    }

    open spec fn from_spec(v: bool) -> Value {
        Value::Bool(v)
    }
}

impl From<i32> for Value {
    fn from(v: i32) -> (r: Self) {
        Value::Int(v)
    }
}

impl vstd::std_specs::convert::FromSpecImpl<i32> for Value {
    open spec fn obeys_from_spec() -> bool {
        true
    }

    open spec fn from_spec(v: i32) -> Value {
        Value::Int(v)
    }
}

/// The content of a list of dictionary entries.
pub open spec fn dict_view(entries: Seq<(String, Value)>) -> Seq<(Seq<char>, ValueView)> {
    Seq::new(entries.len(), |i: int| (entries[i].0@, value_view(entries[i].1)))
}

/// A dictionary value's content is the content of its entries.
pub proof fn lemma_dictionary_view(entries: Vec<(String, Value)>)
    ensures
        value_view(Value::Dictionary(entries)) == ValueView::Dictionary(dict_view(entries@)),
{
    let v = value_view(Value::Dictionary(entries))->Dictionary_0;
    assert(v.len() == dict_view(entries@).len());
    assert forall|j: int| 0 <= j < v.len() implies v[j] == dict_view(entries@)[j] by {}
    assert(v =~= dict_view(entries@));
}

/// A deep copy of `v`.
pub fn clone_value(v: &Value) -> (r: Value)
    ensures
        r@ == v@,
    decreases v,
{
    match v {
        Value::Null => Value::Null,
        Value::Bool(b) => Value::Bool(*b),
        Value::UChar(x) => Value::UChar(*x),
        Value::Int(x) => Value::Int(*x),
        Value::UInt(x) => Value::UInt(*x),
        Value::Int64(x) => Value::Int64(*x),
        Value::UInt64(x) => Value::UInt64(*x),
        Value::Half(x) => Value::Half(*x),
        Value::Float(x) => Value::Float(*x),
        Value::Double(x) => Value::Double(*x),
        Value::String(s) => Value::String(s.clone()),
        Value::Token(t) => Value::Token(*t),
        Value::Asset(s) => Value::Asset(s.clone()),
        Value::TimeCode(x) => Value::TimeCode(*x),
        Value::Opaque { type_token, bytes } => {
            let mut copy: Vec<u8> = Vec::new();
            let mut i: usize = 0;
            while i < bytes.len()
                invariant
                    i <= bytes@.len(),
                    copy@ == bytes@.take(i as int),
                decreases bytes@.len() - i,
            {
                copy.push(bytes[i]);
                proof {
                    assert(bytes@.take(i + 1) =~= bytes@.take(i as int).push(bytes@[i as int]));
                }
                i = i + 1;
            }
            proof {
                assert(bytes@.take(bytes@.len() as int) =~= bytes@);
            }
            Value::Opaque { type_token: *type_token, bytes: copy }
        },
        Value::Blocked => Value::Blocked,
        Value::Array(items) => {
            let mut out: Vec<Value> = Vec::new();
            let mut i: usize = 0;
            while i < items.len()
                invariant
                    *v == Value::Array(*items),
                    i <= items@.len(),
                    out@.len() == i,
                    forall|j: int| 0 <= j < i ==> value_view(#[trigger] out@[j]) == value_view(items@[j]),
                decreases items@.len() - i,
            {
                proof {
                    vstd::std_specs::vec::axiom_vec_index_decreases(*items, i as int);
                    assert(decreases_to!(*v => v->Array_0));
                    assert(decreases_to!(*v => items@[i as int]));
                }
                let c = clone_value(&items[i]);
                out.push(c);
                i = i + 1;
            }
            let ghost copy = out@;
            let r = Value::Array(out);
            proof {
                let va = value_view(r)->Array_0;
                let vb = value_view(*v)->Array_0;
                assert forall|j: int| 0 <= j < va.len() implies va[j] == vb[j] by {
                    assert(va[j] == value_view(copy[j]));
                    assert(vb[j] == value_view(items@[j]));
                }
                assert(va =~= vb);
            }
            r
        },
        Value::Dictionary(entries) => {
            let mut out: Vec<(String, Value)> = Vec::new();
            let mut i: usize = 0;
            while i < entries.len()
                invariant
                    *v == Value::Dictionary(*entries),
                    i <= entries@.len(),
                    out@.len() == i,
                    forall|j: int|
                        0 <= j < i ==> (#[trigger] out@[j]).0@ == entries@[j].0@ && value_view(out@[j].1)
                            == value_view(entries@[j].1),
                decreases entries@.len() - i,
            {
                proof {
                    vstd::std_specs::vec::axiom_vec_index_decreases(*entries, i as int);
                    assert(decreases_to!(*v => v->Dictionary_0));
                    assert(decreases_to!(entries@[i as int] => entries@[i as int].1));
                    assert(decreases_to!(*v => entries@[i as int].1));
                }
                let k = entries[i].0.clone();
                let c = clone_value(&entries[i].1);
                out.push((k, c));
                i = i + 1;
            }
            let ghost copy = out@;
            let r = Value::Dictionary(out);
            proof {
                let va = value_view(r)->Dictionary_0;
                let vb = value_view(*v)->Dictionary_0;
                assert forall|j: int| 0 <= j < va.len() implies va[j] == vb[j] by {
                    assert(va[j] == (copy[j].0@, value_view(copy[j].1)));
                    assert(vb[j] == (entries@[j].0@, value_view(entries@[j].1)));
                }
                assert(va =~= vb);
            }
            r
        },
    }
}

/// `i` is the first position of `key` among the keys of `d`.
pub open spec fn first_key_at(d: Seq<(Seq<char>, ValueView)>, key: Seq<char>, i: int) -> bool {
    &&& 0 <= i < d.len()
    &&& d[i].0 == key
    &&& forall|j: int| 0 <= j < i ==> d[j].0 != key
}

/// The first position of `key` among the keys of `d`, if it is a key of `d`.
pub open spec fn key_position(d: Seq<(Seq<char>, ValueView)>, key: Seq<char>) -> Option<int> {
    if exists|i: int| first_key_at(d, key, i) {
        Some(choose|i: int| first_key_at(d, key, i))
    } else {
        None
    }
}

/// Dictionary combining: the stronger entries, then each weaker entry in
/// turn: a key already present keeps its value, except that two dictionary
/// values are combined recursively; a new key is appended with its value.
pub open spec fn combined(s: Seq<(Seq<char>, ValueView)>, w: Seq<(Seq<char>, ValueView)>) -> Seq<
    (Seq<char>, ValueView),
>
    decreases w,
{
    if w.len() == 0 {
        s
    } else {
        let acc = combined(s, w.drop_last());
        let e = w.last();
        match key_position(acc, e.0) {
            Some(p) => match (acc[p].1, e.1) {
                (ValueView::Dictionary(sd), ValueView::Dictionary(wd)) => acc.update(
                    p,
                    (acc[p].0, ValueView::Dictionary(combined(sd, wd))),
                ),
                _ => acc,
            },
            None => acc.push(e),
        }
    }
}

/// The position of the first entry of `d` whose key is `key`.
fn find_key(d: &Vec<(String, Value)>, key: &String) -> (r: Option<usize>)
    ensures
        match r {
            Some(p) => key_position(dict_view(d@), key@) == Some(p as int),
            None => key_position(dict_view(d@), key@) is None,
        },
{
    let ghost dv = dict_view(d@);
    let mut i: usize = 0;
    while i < d.len()
        invariant
            dv == dict_view(d@),
            i <= d@.len(),
            forall|j: int| 0 <= j < i ==> dv[j].0 != key@,
        decreases d@.len() - i,
    {
        if d[i].0 == *key {
            proof {
                assert(first_key_at(dv, key@, i as int));
                let c = choose|c: int| first_key_at(dv, key@, c);
                if c > i {
                    assert(dv[i as int].0 != key@);
                }
            }
            return Some(i);
        }
        i = i + 1;
    }
    None
}

/// A deep copy of a list of dictionary entries.
pub fn clone_entries(e: &[(String, Value)]) -> (r: Vec<(String, Value)>)
    ensures
        dict_view(r@) == dict_view(e@),
{
    let mut out: Vec<(String, Value)> = Vec::new();
    let mut i: usize = 0;
    while i < e.len()
        invariant
            i <= e@.len(),
            out@.len() == i,
            forall|j: int|
                0 <= j < i ==> (#[trigger] out@[j]).0@ == e@[j].0@ && value_view(out@[j].1) == value_view(e@[j].1),
        decreases e@.len() - i,
    {
        let k = e[i].0.clone();
        let v = clone_value(&e[i].1);
        out.push((k, v));
        i = i + 1;
    }
    assert(dict_view(out@) =~= dict_view(e@));
    out
}

/// Combines two dictionaries: stronger non-dictionary values win per key,
/// two dictionary values at the same key combine recursively, and keys only
/// the weaker has are appended in their order.
pub fn combine_dictionaries(stronger: &[(String, Value)], weaker: &[(String, Value)]) -> (r: Vec<
    (String, Value),
>)
    ensures
        dict_view(r@) == combined(dict_view(stronger@), dict_view(weaker@)),
    decreases weaker@,
{
    let mut result = clone_entries(stronger);
    let mut i: usize = 0;
    while i < weaker.len()
        invariant
            i <= weaker@.len(),
            dict_view(result@) == combined(dict_view(stronger@), dict_view(weaker@.take(i as int))),
        decreases weaker@.len() - i,
    {
        let ghost acc = dict_view(result@);
        let ghost wv = dict_view(weaker@.take(i + 1));
        proof {
            assert(wv.drop_last() =~= dict_view(weaker@.take(i as int)));
            assert(wv.last() == dict_view(weaker@)[i as int]);
        }
        let key = &weaker[i].0;
        let weak_val = &weaker[i].1;
        match find_key(&result, key) {
            Some(p) => {
                let ghost mut sdv: Seq<(Seq<char>, ValueView)> = Seq::empty();
                let ghost mut wdv: Seq<(Seq<char>, ValueView)> = Seq::empty();
                let merged: Option<Vec<(String, Value)>> = match (&result[p].1, weak_val) {
                    (Value::Dictionary(sd), Value::Dictionary(wd)) => {
                        proof {
                            lemma_dictionary_view(*sd);
                            lemma_dictionary_view(*wd);
                            sdv = dict_view(sd@);
                            wdv = dict_view(wd@);
                            assert(decreases_to!(weaker@ => weaker@[i as int]));
                            assert(decreases_to!(weaker@[i as int] => weaker@[i as int].1));
                            assert(decreases_to!(weaker@[i as int].1 => weaker@[i as int].1->Dictionary_0));
                            assert(decreases_to!(*wd => wd@));
                            assert(decreases_to!(weaker@ => wd@));
                        }
                        Some(combine_dictionaries(sd.as_slice(), wd.as_slice()))
                    },
                    _ => None,
                };
                match merged {
                    Some(c) => {
                        let k = result[p].0.clone();
                        proof {
                            lemma_dictionary_view(c);
                            assert(acc[p as int].1 == ValueView::Dictionary(sdv));
                            assert(wv.last().1 == ValueView::Dictionary(wdv));
                        }
                        result.set(p, (k, Value::Dictionary(c)));
                        proof {
                            assert(dict_view(result@) =~= acc.update(
                                p as int,
                                (acc[p as int].0, ValueView::Dictionary(combined(sdv, wdv))),
                            ));
                        }
                    },
                    None => {},
                }
            },
            None => {
                let k = key.clone();
                let v = clone_value(weak_val);
                result.push((k, v));
                proof {
                    assert(dict_view(result@) =~= acc.push(wv.last()));
                }
            },
        }
        i = i + 1;
    }
    proof {
        assert(weaker@.take(weaker@.len() as int) =~= weaker@);
    }
    result
}

/// Combining a chain of dictionaries, strongest first: the first, combined
/// with each weaker one in turn (empty for no dictionaries).
pub open spec fn combined_chain(ds: Seq<Seq<(Seq<char>, ValueView)>>) -> Seq<(Seq<char>, ValueView)>
    decreases ds.len(),
{
    if ds.len() == 0 {
        Seq::empty()
    } else if ds.len() == 1 {
        ds[0]
    } else {
        combined(combined_chain(ds.drop_last()), ds.last())
    }
}

/// The contents of a list of dictionaries.
pub open spec fn dict_views(ds: Seq<Vec<(String, Value)>>) -> Seq<Seq<(Seq<char>, ValueView)>> {
    Seq::new(ds.len(), |i: int| dict_view(ds[i]@))
}

/// Combines a chain of dictionary opinions given strongest first.
pub fn combine_dictionary_chain(opinions: &[Vec<(String, Value)>]) -> (r: Vec<(String, Value)>)
    ensures
        dict_view(r@) == combined_chain(dict_views(opinions@)),
{
    let ghost ds = dict_views(opinions@);
    if opinions.len() == 0 {
        return Vec::new();
    }
    let mut acc = clone_entries(opinions[0].as_slice());
    proof {
        assert(ds.take(1).drop_last().len() == 0);
    }
    let mut i: usize = 1;
    while i < opinions.len()
        invariant
            ds == dict_views(opinions@),
            1 <= i <= opinions@.len(),
            dict_view(acc@) == combined_chain(ds.take(i as int)),
        decreases opinions@.len() - i,
    {
        acc = combine_dictionaries(acc.as_slice(), opinions[i].as_slice());
        proof {
            assert(ds.take(i + 1).drop_last() =~= ds.take(i as int));
            assert(ds.take(i + 1).last() == dict_view(opinions@[i as int]@));
        }
        i = i + 1;
    }
    proof {
        assert(ds.take(opinions@.len() as int) =~= ds);
    }
    acc
}

/// When `key` is a key of `d`, its first position holds it.
proof fn lemma_key_position_some(d: Seq<(Seq<char>, ValueView)>, key: Seq<char>)
    ensures
        key_position(d, key) matches Some(p) ==> 0 <= p < d.len() && d[p].0 == key,
        key_position(d, key) is None ==> forall|i: int| 0 <= i < d.len() ==> d[i].0 != key,
{
    if key_position(d, key) is None {
        assert forall|i: int| 0 <= i < d.len() implies d[i].0 != key by {
            if d[i].0 == key {
                lemma_first_key_exists(d, key, i);
            }
        }
    }
}

/// A key at position `i` has a first position.
proof fn lemma_first_key_exists(d: Seq<(Seq<char>, ValueView)>, key: Seq<char>, i: int)
    requires
        0 <= i < d.len(),
        d[i].0 == key,
    ensures
        exists|k: int| first_key_at(d, key, k),
    decreases i,
{
    if exists|j: int| 0 <= j < i && d[j].0 == key {
        let j = choose|j: int| 0 <= j < i && d[j].0 == key;
        lemma_first_key_exists(d, key, j);
    } else {
        assert(first_key_at(d, key, i));
    }
}

/// Combining keeps the stronger entries in front, in order and with their
/// keys; a stronger value that is not a dictionary is kept as it is.
pub proof fn law_combine_keeps_stronger(s: Seq<(Seq<char>, ValueView)>, w: Seq<(Seq<char>, ValueView)>)
    ensures
        combined(s, w).len() >= s.len(),
        forall|i: int| 0 <= i < s.len() ==> (#[trigger] combined(s, w)[i]).0 == s[i].0,
        forall|i: int|
            0 <= i < s.len() && !(s[i].1 is Dictionary) ==> (#[trigger] combined(s, w)[i]).1 == s[i].1,
    decreases w.len(),
{
    if w.len() > 0 {
        law_combine_keeps_stronger(s, w.drop_last());
        let acc = combined(s, w.drop_last());
        lemma_key_position_some(acc, w.last().0);
    }
}

/// `k` is a key of `d`.
pub open spec fn has_key(d: Seq<(Seq<char>, ValueView)>, k: Seq<char>) -> bool {
    exists|j: int| 0 <= j < d.len() && d[j].0 == k
}

/// Every key of the weaker dictionary is a key of the result, and every key
/// of the result is a key of one of the two.
pub proof fn law_combine_keys(s: Seq<(Seq<char>, ValueView)>, w: Seq<(Seq<char>, ValueView)>)
    ensures
        forall|j: int| 0 <= j < w.len() ==> has_key(combined(s, w), #[trigger] w[j].0),
        forall|i: int|
            0 <= i < combined(s, w).len() ==> has_key(s, #[trigger] combined(s, w)[i].0) || has_key(
                w,
                combined(s, w)[i].0,
            ),
    decreases w.len(),
{
    let r = combined(s, w);
    if w.len() == 0 {
        assert forall|i: int| 0 <= i < r.len() implies has_key(s, #[trigger] r[i].0) by {
            assert(s[i].0 == r[i].0);
        }
    } else {
        let init = w.drop_last();
        law_combine_keys(s, init);
        let acc = combined(s, init);
        let e = w.last();
        lemma_key_position_some(acc, e.0);
        assert forall|j: int| 0 <= j < w.len() implies has_key(r, #[trigger] w[j].0) by {
            if j < w.len() - 1 {
                assert(init[j] == w[j]);
                assert(has_key(acc, init[j].0));
                let i = choose|i: int| 0 <= i < acc.len() && acc[i].0 == init[j].0;
                assert(r[i].0 == acc[i].0);
            } else {
                match key_position(acc, e.0) {
                    Some(p) => {
                        assert(r[p].0 == acc[p].0);
                    },
                    None => {
                        assert(r[acc.len() as int] == e);
                    },
                }
            }
        }
        assert forall|i: int| 0 <= i < r.len() implies has_key(s, #[trigger] r[i].0) || has_key(w, r[i].0) by {
            if i < acc.len() {
                assert(r[i].0 == acc[i].0);
                assert(has_key(s, acc[i].0) || has_key(init, acc[i].0));
                if has_key(init, acc[i].0) {
                    let j = choose|j: int| 0 <= j < init.len() && init[j].0 == acc[i].0;
                    assert(w[j] == init[j]);
                }
            } else {
                assert(r[i] == e);
                assert(w[w.len() - 1] == e);
            }
        }
    }
}

/// `d` has no two entries with the same key.
pub open spec fn distinct_keys(d: Seq<(Seq<char>, ValueView)>) -> bool {
    forall|i: int, j: int| 0 <= i < j < d.len() ==> d[i].0 != d[j].0
}

/// Weaker entries whose keys the stronger dictionary lacks are appended in
/// their order: with no shared keys (and no repeated weaker key) the result
/// is the stronger entries followed by the weaker ones.
pub proof fn law_combine_disjoint_appends(s: Seq<(Seq<char>, ValueView)>, w: Seq<(Seq<char>, ValueView)>)
    requires
        distinct_keys(w),
        forall|i: int, j: int| 0 <= i < s.len() && 0 <= j < w.len() ==> s[i].0 != w[j].0,
    ensures
        combined(s, w) == s + w,
    decreases w.len(),
{
    if w.len() > 0 {
        let init = w.drop_last();
        law_combine_disjoint_appends(s, init);
        let acc = s + init;
        let e = w.last();
        assert forall|k: int| 0 <= k < acc.len() implies acc[k].0 != e.0 by {
            if k >= s.len() {
                assert(acc[k] == w[k - s.len()]);
            }
        }
        if key_position(acc, e.0) is Some {
            lemma_key_position_some(acc, e.0);
        }
        assert(acc.push(e) =~= s + w);
    }
}

/// Combining never repeats a key: when the stronger dictionary has each key
/// once, so has the result (a weaker entry whose key is already there is
/// merged into it or dropped, never appended).
pub proof fn law_combine_distinct_keys(s: Seq<(Seq<char>, ValueView)>, w: Seq<(Seq<char>, ValueView)>)
    requires
        distinct_keys(s),
    ensures
        distinct_keys(combined(s, w)),
    decreases w.len(),
{
    if w.len() > 0 {
        let init = w.drop_last();
        law_combine_distinct_keys(s, init);
        let acc = combined(s, init);
        let e = w.last();
        let r = combined(s, w);
        lemma_key_position_some(acc, e.0);
        match key_position(acc, e.0) {
            Some(p) => {
                assert forall|i: int, j: int| 0 <= i < j < r.len() implies r[i].0 != r[j].0 by {
                    assert(r[i].0 == acc[i].0);
                    assert(r[j].0 == acc[j].0);
                }
            },
            None => {
                assert forall|i: int, j: int| 0 <= i < j < r.len() implies r[i].0 != r[j].0 by {
                    if j == acc.len() {
                        assert(r[j] == e);
                        assert(r[i] == acc[i]);
                    } else {
                        assert(r[i] == acc[i] && r[j] == acc[j]);
                    }
                }
            },
        }
    }
}

/// The weaker entries whose key the stronger dictionary lacks.
pub open spec fn new_to(s: Seq<(Seq<char>, ValueView)>) -> spec_fn((Seq<char>, ValueView)) -> bool {
    |e: (Seq<char>, ValueView)| !has_key(s, e.0)
}

/// After the stronger entries, the result holds the weaker entries whose
/// key the stronger dictionary lacks, in the weaker dictionary's order
/// (when the weaker dictionary has each key once).
pub proof fn law_combine_appends_new_weaker(s: Seq<(Seq<char>, ValueView)>, w: Seq<(Seq<char>, ValueView)>)
    requires
        distinct_keys(w),
    ensures
        combined(s, w).subrange(s.len() as int, combined(s, w).len() as int) == w.filter(new_to(s)),
    decreases w.len(),
{
    let pred = new_to(s);
    let r = combined(s, w);
    law_combine_keeps_stronger(s, w);
    if w.len() == 0 {
        reveal(Seq::filter);
        assert(r.subrange(s.len() as int, r.len() as int) =~= Seq::<(Seq<char>, ValueView)>::empty());
    } else {
        let init = w.drop_last();
        let e = w.last();
        assert(distinct_keys(init)) by {
            assert forall|i: int, j: int| 0 <= i < j < init.len() implies init[i].0 != init[j].0 by {
                assert(init[i] == w[i] && init[j] == w[j]);
            }
        }
        law_combine_appends_new_weaker(s, init);
        law_combine_keeps_stronger(s, init);
        let acc = combined(s, init);
        let tail = acc.subrange(s.len() as int, acc.len() as int);
        assert(tail == init.filter(pred));
        assert(w.filter(pred) == if pred(e) {
            init.filter(pred).push(e)
        } else {
            init.filter(pred)
        }) by {
            reveal(Seq::filter);
        }
        lemma_key_position_some(acc, e.0);
        match key_position(acc, e.0) {
            Some(p) => {
                if p < s.len() {
                    assert(acc[p].0 == s[p].0);
                    assert(has_key(s, e.0));
                } else {
                    let x = tail[p - s.len()];
                    assert(x == acc[p]);
                    assert(init.filter(pred).contains(x));
                    init.lemma_filter_contains_rev(pred, x);
                    let j = choose|j: int| 0 <= j < init.len() && init[j] == x;
                    assert(w[j] == init[j]);
                    assert(w[w.len() - 1] == e);
                    assert(false);
                }
                assert(r.subrange(s.len() as int, r.len() as int) =~= tail);
            },
            None => {
                assert(!has_key(s, e.0)) by {
                    if has_key(s, e.0) {
                        let i = choose|i: int| 0 <= i < s.len() && s[i].0 == e.0;
                        assert(acc[i].0 == s[i].0);
                    }
                }
                assert(r.subrange(s.len() as int, r.len() as int) =~= tail.push(e));
            },
        }
    }
}

/// A first position, when there is one, is what `key_position` gives.
proof fn lemma_key_position_at(d: Seq<(Seq<char>, ValueView)>, key: Seq<char>, i: int)
    requires
        first_key_at(d, key, i),
    ensures
        key_position(d, key) == Some(i),
{
    let j = choose|j: int| first_key_at(d, key, j);
    if j < i {
        assert(d[j].0 != key);
    } else if i < j {
        assert(d[i].0 != key);
    }
}

/// The value the weaker dictionary holds under `key`, if any.
pub open spec fn value_under(w: Seq<(Seq<char>, ValueView)>, key: Seq<char>) -> Option<ValueView> {
    match key_position(w, key) {
        Some(p) => Some(w[p].1),
        None => None,
    }
}

/// A stronger value combined with the weaker value under the same key: two
/// dictionaries combine, anything else keeps the stronger value.
pub open spec fn merged_value(sv: ValueView, wv: Option<ValueView>) -> ValueView {
    match (sv, wv) {
        (ValueView::Dictionary(sd), Some(ValueView::Dictionary(wd))) => ValueView::Dictionary(combined(sd, wd)),
        _ => sv,
    }
}

/// With each key once on both sides, every stronger entry keeps its place
/// and key, and its value is merged with the weaker value under that key:
/// two dictionaries are combined, any other shared key keeps the stronger
/// value.
pub proof fn law_combine_merges_shared(s: Seq<(Seq<char>, ValueView)>, w: Seq<(Seq<char>, ValueView)>)
    requires
        distinct_keys(s),
        distinct_keys(w),
    ensures
        forall|i: int|
            0 <= i < s.len() ==> #[trigger] combined(s, w)[i] == (s[i].0, merged_value(s[i].1, value_under(w, s[i].0))),
    decreases w.len(),
{
    law_combine_keeps_stronger(s, w);
    if w.len() == 0 {
        assert forall|i: int| 0 <= i < s.len() implies #[trigger] combined(s, w)[i] == (s[i].0, merged_value(
            s[i].1,
            value_under(w, s[i].0),
        )) by {
            assert(key_position(w, s[i].0) is None);
        }
    } else {
        let init = w.drop_last();
        let e = w.last();
        assert(distinct_keys(init)) by {
            assert forall|a: int, b: int| 0 <= a < b < init.len() implies init[a].0 != init[b].0 by {
                assert(init[a] == w[a] && init[b] == w[b]);
            }
        }
        law_combine_merges_shared(s, init);
        law_combine_keeps_stronger(s, init);
        let acc = combined(s, init);
        let r = combined(s, w);
        lemma_key_position_some(acc, e.0);
        assert forall|i: int| 0 <= i < s.len() implies #[trigger] r[i] == (s[i].0, merged_value(
            s[i].1,
            value_under(w, s[i].0),
        )) by {
            let k = s[i].0;
            assert(acc[i] == (k, merged_value(s[i].1, value_under(init, k))));
            if e.0 == k {
                // The key is not among the earlier weaker entries.
                assert(key_position(init, k) is None) by {
                    lemma_key_position_some(init, k);
                    if key_position(init, k) is Some {
                        let p = key_position(init, k)->0;
                        assert(w[p].0 == k && w[w.len() - 1].0 == k);
                    }
                }
                assert(first_key_at(w, k, w.len() - 1)) by {
                    assert forall|j: int| 0 <= j < w.len() - 1 implies w[j].0 != k by {
                        assert(w[j].0 != w[w.len() - 1].0);
                    }
                }
                lemma_key_position_at(w, k, w.len() - 1);
                assert(first_key_at(acc, k, i)) by {
                    assert forall|j: int| 0 <= j < i implies acc[j].0 != k by {
                        assert(acc[j].0 == s[j].0);
                    }
                }
                lemma_key_position_at(acc, k, i);
                assert(acc[i] == s[i]);
            } else {
                assert(value_under(w, k) == value_under(init, k)) by {
                    lemma_key_position_some(init, k);
                    lemma_key_position_some(w, k);
                    match key_position(init, k) {
                        Some(p) => {
                            assert(first_key_at(init, k, p));
                            assert(first_key_at(w, k, p)) by {
                                assert forall|j: int| 0 <= j < p implies w[j].0 != k by {
                                    assert(w[j] == init[j]);
                                }
                                assert(w[p] == init[p]);
                            }
                            lemma_key_position_at(w, k, p);
                        },
                        None => {
                            if key_position(w, k) is Some {
                                let q = key_position(w, k)->0;
                                if q < w.len() - 1 {
                                    assert(init[q] == w[q]);
                                }
                            }
                        },
                    }
                }
                match key_position(acc, e.0) {
                    Some(p) => {
                        if p == i {
                            assert(acc[p].0 == e.0);
                        }
                    },
                    None => {},
                }
            }
        }
    }
}

/// The bits of a single-precision NaN.
pub open spec fn f32_is_nan(b: u32) -> bool {
    (b & 0x7f80_0000u32) == 0x7f80_0000u32 && (b & 0x007f_ffffu32) != 0
}

/// The bits of a double-precision NaN.
pub open spec fn f64_is_nan(b: u64) -> bool {
    (b & 0x7ff0_0000_0000_0000u64) == 0x7ff0_0000_0000_0000u64 && (b & 0x000f_ffff_ffff_ffffu64) != 0
}

/// IEEE equality of two single-precision floats given by their bits: no
/// NaN equals anything, the two zeros are equal, other values are equal
/// when their bits are.
pub open spec fn f32_ieee_eq(a: u32, b: u32) -> bool {
    !f32_is_nan(a) && !f32_is_nan(b) && (a == b || ((a & 0x7fff_ffffu32) == 0 && (b & 0x7fff_ffffu32) == 0))
}

/// IEEE equality of two double-precision floats given by their bits.
pub open spec fn f64_ieee_eq(a: u64, b: u64) -> bool {
    !f64_is_nan(a) && !f64_is_nan(b) && (a == b || ((a & 0x7fff_ffff_ffff_ffffu64) == 0 && (b
        & 0x7fff_ffff_ffff_ffffu64) == 0))
}

/// Equality of values as the floats they hold compare: `float`, `double`
/// and `timecode` payloads compare as IEEE numbers, lists and dictionaries
/// entry by entry, everything else by content.
pub open spec fn value_ieee_eq(a: ValueView, b: ValueView) -> bool
    decreases a,
{
    match (a, b) {
        (ValueView::Float(x), ValueView::Float(y)) => f32_ieee_eq(x, y),
        (ValueView::Double(x), ValueView::Double(y)) => f64_ieee_eq(x, y),
        (ValueView::TimeCode(x), ValueView::TimeCode(y)) => f64_ieee_eq(x, y),
        (ValueView::Array(xs), ValueView::Array(ys)) => xs.len() == ys.len() && forall|i: int|
            0 <= i < xs.len() ==> value_ieee_eq(#[trigger] xs[i], ys[i]),
        (ValueView::Dictionary(xs), ValueView::Dictionary(ys)) => xs.len() == ys.len() && forall|i: int|
            0 <= i < xs.len() ==> (#[trigger] xs[i]).0 == ys[i].0 && value_ieee_eq(xs[i].1, ys[i].1),
        _ => a == b,
    }
}

fn f32_eq_bits(a: u32, b: u32) -> (r: bool)
    ensures
        r == f32_ieee_eq(a, b),
{
    let nan_a = (a & 0x7f80_0000u32) == 0x7f80_0000u32 && (a & 0x007f_ffffu32) != 0;
    let nan_b = (b & 0x7f80_0000u32) == 0x7f80_0000u32 && (b & 0x007f_ffffu32) != 0;
    !nan_a && !nan_b && (a == b || ((a & 0x7fff_ffffu32) == 0 && (b & 0x7fff_ffffu32) == 0))
}

fn f64_eq_bits(a: u64, b: u64) -> (r: bool)
    ensures
        r == f64_ieee_eq(a, b),
{
    let nan_a = (a & 0x7ff0_0000_0000_0000u64) == 0x7ff0_0000_0000_0000u64 && (a & 0x000f_ffff_ffff_ffffu64) != 0;
    let nan_b = (b & 0x7ff0_0000_0000_0000u64) == 0x7ff0_0000_0000_0000u64 && (b & 0x000f_ffff_ffff_ffffu64) != 0;
    !nan_a && !nan_b && (a == b || ((a & 0x7fff_ffff_ffff_ffffu64) == 0 && (b & 0x7fff_ffff_ffff_ffffu64) == 0))
}

fn bytes_eq(a: &Vec<u8>, b: &Vec<u8>) -> (r: bool)
    ensures
        r == (a@ == b@),
{
    if a.len() != b.len() {
        return false;
    }
    let mut i: usize = 0;
    while i < a.len()
        invariant
            a@.len() == b@.len(),
            i <= a@.len(),
            forall|j: int| 0 <= j < i ==> a@[j] == b@[j],
        decreases a@.len() - i,
    {
        if a[i] != b[i] {
            return false;
        }
        i = i + 1;
    }
    proof {
        assert(a@ =~= b@);
    }
    true
}

impl Value {
    /// Compares two values as their floats compare under IEEE 754 (unlike
    /// `==`, which compares the stored bit patterns): a NaN equals nothing,
    /// `-0.0` equals `0.0`; lists and dictionaries compare entry by entry.
    pub fn value_eq(&self, other: &Value) -> (r: bool)
        ensures
            r == value_ieee_eq(self@, other@),
        decreases self,
    {
        match (self, other) {
            (Value::Null, Value::Null) => true,
            (Value::Bool(x), Value::Bool(y)) => *x == *y,
            (Value::UChar(x), Value::UChar(y)) => *x == *y,
            (Value::Int(x), Value::Int(y)) => *x == *y,
            (Value::UInt(x), Value::UInt(y)) => *x == *y,
            (Value::Int64(x), Value::Int64(y)) => *x == *y,
            (Value::UInt64(x), Value::UInt64(y)) => *x == *y,
            (Value::Half(x), Value::Half(y)) => *x == *y,
            (Value::Float(x), Value::Float(y)) => f32_eq_bits(*x, *y),
            (Value::Double(x), Value::Double(y)) => f64_eq_bits(*x, *y),
            (Value::String(x), Value::String(y)) => *x == *y,
            (Value::Token(x), Value::Token(y)) => *x == *y,
            (Value::Asset(x), Value::Asset(y)) => *x == *y,
            (Value::TimeCode(x), Value::TimeCode(y)) => f64_eq_bits(*x, *y),
            (Value::Opaque { type_token: t1, bytes: b1 }, Value::Opaque { type_token: t2, bytes: b2 }) => {
                *t1 == *t2 && bytes_eq(b1, b2)
            },
            (Value::Blocked, Value::Blocked) => true,
            (Value::Array(xs), Value::Array(ys)) => {
                if xs.len() != ys.len() {
                    return false;
                }
                let ghost vx = self@->Array_0;
                let ghost vy = other@->Array_0;
                let mut i: usize = 0;
                while i < xs.len()
                    invariant
                        *self == Value::Array(*xs),
                        *other == Value::Array(*ys),
                        xs@.len() == ys@.len(),
                        i <= xs@.len(),
                        vx == self@->Array_0,
                        vy == other@->Array_0,
                        vx.len() == xs@.len(),
                        vy.len() == ys@.len(),
                        forall|j: int| 0 <= j < xs@.len() ==> vx[j] == value_view(#[trigger] xs@[j]),
                        forall|j: int| 0 <= j < ys@.len() ==> vy[j] == value_view(#[trigger] ys@[j]),
                        forall|j: int| 0 <= j < i ==> value_ieee_eq(#[trigger] vx[j], vy[j]),
                    decreases xs@.len() - i,
                {
                    proof {
                        assert(vx[i as int] == value_view(xs@[i as int]));
                        assert(vy[i as int] == value_view(ys@[i as int]));
                        vstd::std_specs::vec::axiom_vec_index_decreases(*xs, i as int);
                        assert(decreases_to!(*self => self->Array_0));
                        assert(decreases_to!(*self => xs@[i as int]));
                    }
                    if !xs[i].value_eq(&ys[i]) {
                        proof {
                            assert(!value_ieee_eq(vx[i as int], vy[i as int]));
                        }
                        return false;
                    }
                    i = i + 1;
                }
                true
            },
            (Value::Dictionary(xs), Value::Dictionary(ys)) => {
                if xs.len() != ys.len() {
                    return false;
                }
                let ghost vx = self@->Dictionary_0;
                let ghost vy = other@->Dictionary_0;
                let mut i: usize = 0;
                while i < xs.len()
                    invariant
                        *self == Value::Dictionary(*xs),
                        *other == Value::Dictionary(*ys),
                        xs@.len() == ys@.len(),
                        i <= xs@.len(),
                        vx == self@->Dictionary_0,
                        vy == other@->Dictionary_0,
                        vx.len() == xs@.len(),
                        vy.len() == ys@.len(),
                        forall|j: int| 0 <= j < xs@.len() ==> vx[j] == (xs@[j].0@, value_view(#[trigger] xs@[j].1)),
                        forall|j: int| 0 <= j < ys@.len() ==> vy[j] == (ys@[j].0@, value_view(#[trigger] ys@[j].1)),
                        forall|j: int| 0 <= j < i ==> (#[trigger] vx[j]).0 == vy[j].0 && value_ieee_eq(vx[j].1, vy[j].1),
                    decreases xs@.len() - i,
                {
                    proof {
                        assert(vx[i as int] == (xs@[i as int].0@, value_view(xs@[i as int].1)));
                        assert(vy[i as int] == (ys@[i as int].0@, value_view(ys@[i as int].1)));
                        vstd::std_specs::vec::axiom_vec_index_decreases(*xs, i as int);
                        assert(decreases_to!(*self => self->Dictionary_0));
                        assert(decreases_to!(xs@[i as int] => xs@[i as int].1));
                        assert(decreases_to!(*self => xs@[i as int].1));
                    }
                    if xs[i].0 != ys[i].0 {
                        proof {
                            assert(vx[i as int].0 != vy[i as int].0);
                        }
                        return false;
                    }
                    if !xs[i].1.value_eq(&ys[i].1) {
                        proof {
                            assert(!value_ieee_eq(vx[i as int].1, vy[i as int].1));
                        }
                        return false;
                    }
                    i = i + 1;
                }
                true
            },
            _ => false,
        }
    }
}

} // verus!

//! Readers for single lines of the minimal USDA loader.
//!
//! Each reader takes one (already joined) line of USDA text and recognises a
//! single construct: a list-op over references, inherits, specializes,
//! payloads or relationship targets, a variant-set header, an attribute
//! declaration, a `subLayers` list. Every reader is specified over the
//! characters of its input by the same `str` operations (`trim`, `find`,
//! `split`, ...) that describe the accepted syntax.

use vstd::prelude::*;

use crate::text::{
    chars_of, contains_sub, find_char, find_sub, find_sub_vec, find_vec, lemma_sub_from_bounds, split_once_char, split_once_vec, strip_prefix, strip_prefix_vec,
    trim_end_char, trim_end_char_vec, lemma_char_from_bounds, lemma_rfind_char, opt_text, rfind_char,
    rfind_vec, split_char, split_vec, starts_with_char, starts_with_char_vec, sub_vec, text_of,
    is_ws, is_ws_char, join_with, split_sub, split_sub_vec, texts, trim, trim_char, trim_char_vec, trim_vec, views,
};

verus! {

broadcast use vstd::string::group_string_axioms;

/// How a list-op line edits the list it names.
#[derive(Clone, Copy, Debug, PartialEq, Eq, Structural)]
pub enum RefOp {
    /// `references = ...`: replaces the list.
    Explicit,
    /// `prepend references = ...`.
    Prepend,
    /// `add` / `append references = ...`.
    Append,
}

/// How an inherits or specializes line edits its list.
#[derive(Clone, Copy, Debug, PartialEq, Eq, Structural)]
pub enum InheritOp {
    /// The list is replaced.
    Explicit,
    /// Items go in front.
    Prepend,
    /// Items go at the back.
    Append,
}

/// How a relationship or connection line edits its targets.
#[derive(Clone, Copy, Debug, PartialEq, Eq, Structural)]
pub enum TargetOp {
    /// The targets are replaced.
    Explicit,
    /// Targets go in front.
    Prepend,
    /// Targets go at the back.
    Append,
}

/// A reference or payload as written: `@asset@</Prim>`, or `</Prim>` for a
/// reference inside the same layer (empty `asset`).
#[derive(Clone, Debug)]
pub struct ReferenceSpec {
    /// The asset path between the `@` signs.
    pub asset: String,
    /// The prim path between `<` and `>`, trimmed.
    pub prim_path: String,
}

impl View for ReferenceSpec {
    type V = (Seq<char>, Seq<char>);

    open spec fn view(&self) -> (Seq<char>, Seq<char>) {
        (self.asset@, self.prim_path@)
    }
}

/// The views of a list of reference specs.
pub open spec fn ref_views(v: Seq<ReferenceSpec>) -> Seq<(Seq<char>, Seq<char>)> {
    v.map_values(|r: ReferenceSpec| r@)
}

// ---------------------------------------------------------------------------
// Lists of items separated by a character.
// ---------------------------------------------------------------------------

/// Reads `parts` left to right with `f`, which yields the items a part adds
/// (none for a part that is skipped) or `None` when the part is malformed;
/// the first malformed part makes the whole list `None`.
pub open spec fn gather<T>(parts: Seq<Seq<char>>, f: spec_fn(Seq<char>) -> Option<Seq<T>>) -> Option<
    Seq<T>,
>
    decreases parts.len(),
{
    if parts.len() == 0 {
        Some(Seq::empty())
    } else {
        match gather(parts.drop_last(), f) {
            Some(acc) => match f(parts.last()) {
                Some(xs) => Some(acc + xs),
                None => None,
            },
            None => None,
        }
    }
}

/// Every part that `gather` reaches satisfies `ok`.
pub open spec fn gather_ok<T>(
    parts: Seq<Seq<char>>,
    f: spec_fn(Seq<char>) -> Option<Seq<T>>,
    ok: spec_fn(Seq<char>) -> bool,
) -> bool
    decreases parts.len(),
{
    parts.len() == 0 || (gather_ok(parts.drop_last(), f, ok) && (gather(parts.drop_last(), f) is Some
        ==> ok(parts.last())))
}

/// Once a prefix of the parts is malformed, the whole list is.
pub proof fn lemma_gather_stuck<T>(
    parts: Seq<Seq<char>>,
    f: spec_fn(Seq<char>) -> Option<Seq<T>>,
    i: int,
)
    requires
        0 <= i <= parts.len(),
        gather(parts.take(i), f) is None,
    ensures
        gather(parts, f) is None,
    decreases parts.len() - i,
{
    if i < parts.len() {
        assert(parts.take(i + 1).drop_last() =~= parts.take(i));
        lemma_gather_stuck(parts, f, i + 1);
    } else {
        assert(parts.take(i) =~= parts);
    }
}

/// `gather_ok` holds of every prefix.
pub proof fn lemma_gather_ok_prefix<T>(
    parts: Seq<Seq<char>>,
    f: spec_fn(Seq<char>) -> Option<Seq<T>>,
    ok: spec_fn(Seq<char>) -> bool,
    i: int,
)
    requires
        0 <= i <= parts.len(),
        gather_ok(parts, f, ok),
    ensures
        gather_ok(parts.take(i), f, ok),
    decreases parts.len() - i,
{
    if i < parts.len() {
        assert(parts.drop_last().take(i) =~= parts.take(i));
        lemma_gather_ok_prefix(parts.drop_last(), f, ok, i);
    } else {
        assert(parts.take(i) =~= parts);
    }
}

// ---------------------------------------------------------------------------
// `<...>` spans, path lists and reference lists.
// ---------------------------------------------------------------------------

/// The trimmed text between the first `<` and the first `>` of `s`.
pub open spec fn angle_text(s: Seq<char>) -> Option<Seq<char>> {
    match find_char(s, '<') {
        Some(lt) => match find_char(s, '>') {
            Some(gt) => Some(trim(s.subrange(lt + 1, gt))),
            None => None,
        },
        None => None,
    }
}

/// The first `>` does not come before the first `<` (else the span cannot be
/// sliced).
pub open spec fn angle_ok(s: Seq<char>) -> bool {
    match (find_char(s, '<'), find_char(s, '>')) {
        (Some(lt), Some(gt)) => lt < gt,
        _ => true,
    }
}

fn angle_text_vec(s: &Vec<char>) -> (r: Option<Vec<char>>)
    requires
        angle_ok(s@),
    ensures
        match r {
            Some(v) => angle_text(s@) == Some(v@),
            None => angle_text(s@) is None,
        },
{
    let lt = match find_vec(s, '<') {
        Some(i) => i,
        None => return None,
    };
    let gt = match find_vec(s, '>') {
        Some(i) => i,
        None => return None,
    };
    let inner = sub_vec(s, lt + 1, gt);
    Some(trim_vec(&inner))
}

/// The prim path of a path spec such as `</World/Prim>`.
pub open spec fn path_spec(spec: Seq<char>) -> Option<Seq<char>> {
    angle_text(trim(spec))
}

/// Reads the prim path out of `<...>`; `None` when either bracket is
/// missing. The first `>` must not come before the first `<`.
pub fn parse_path_spec(spec: &str) -> (r: Option<String>)
    requires
        angle_ok(trim(spec@)),
    ensures
        opt_text(r) == path_spec(spec@),
{
    let cs = chars_of(spec);
    let t = trim_vec(&cs);
    match angle_text_vec(&t) {
        Some(v) => Some(text_of(&v)),
        None => None,
    }
}

/// What one comma-separated part of a path list adds.
pub open spec fn path_item(part: Seq<char>) -> Option<Seq<Seq<char>>> {
    let p = trim(part);
    if p.len() == 0 {
        Some(Seq::empty())
    } else {
        match path_spec(p) {
            Some(x) => Some(seq![x]),
            None => None,
        }
    }
}

/// `path_item` as a function value.
pub open spec fn path_items() -> spec_fn(Seq<char>) -> Option<Seq<Seq<char>>> {
    |p: Seq<char>| path_item(p)
}

/// A part of a path list can be read without an inverted `<...>` span.
pub open spec fn path_item_ok() -> spec_fn(Seq<char>) -> bool {
    |p: Seq<char>| angle_ok(trim(trim(p)))
}

/// A path list: `[<a>, <b>]` or a single `<a>`.
pub open spec fn path_list(rhs: Seq<char>) -> Option<Seq<Seq<char>>> {
    let r = trim(rhs);
    if starts_with_char(r, '[') {
        match (find_char(r, '['), rfind_char(r, ']')) {
            (Some(lb), Some(rb)) => gather(split_char(r.subrange(lb + 1, rb), ','), path_items()),
            _ => None,
        }
    } else {
        match path_spec(r) {
            Some(x) => Some(seq![x]),
            None => None,
        }
    }
}

/// `path_list` never slices an inverted span.
pub open spec fn path_list_ok(rhs: Seq<char>) -> bool {
    let r = trim(rhs);
    if starts_with_char(r, '[') {
        match (find_char(r, '['), rfind_char(r, ']')) {
            (Some(lb), Some(rb)) => gather_ok(
                split_char(r.subrange(lb + 1, rb), ','),
                path_items(),
                path_item_ok(),
            ),
            _ => true,
        }
    } else {
        angle_ok(trim(r))
    }
}

fn collect_paths(parts: &Vec<Vec<char>>) -> (r: Option<Vec<String>>)
    requires
        gather_ok(views(parts@), path_items(), path_item_ok()),
    ensures
        match r {
            Some(v) => gather(views(parts@), path_items()) == Some(texts(v@)),
            None => gather(views(parts@), path_items()) is None,
        },
{
    let ghost ps = views(parts@);
    let mut out: Vec<String> = Vec::new();
    let mut i: usize = 0;
    proof {
        assert(ps.take(0) =~= Seq::<Seq<char>>::empty());
        assert(texts(out@) =~= Seq::<Seq<char>>::empty());
    }
    while i < parts.len()
        invariant
            i <= parts@.len(),
            ps == views(parts@),
            gather_ok(ps, path_items(), path_item_ok()),
            gather(ps.take(i as int), path_items()) == Some(texts(out@)),
        decreases parts.len() - i,
    {
        proof {
            lemma_gather_ok_prefix(ps, path_items(), path_item_ok(), i + 1);
            assert(ps.take(i + 1).drop_last() =~= ps.take(i as int));
            assert(ps.take(i + 1).last() == parts@[i as int]@);
        }
        let p = trim_vec(&parts[i]);
        if p.len() > 0 {
            let s = text_of(&p);
            match parse_path_spec(s.as_str()) {
                Some(x) => {
                    let ghost before = texts(out@);
                    out.push(x);
                    proof {
                        assert(texts(out@) =~= before + seq![x@]);
                    }
                },
                None => {
                    proof {
                        lemma_gather_stuck(ps, path_items(), i + 1);
                    }
                    return None;
                },
            }
        } else {
            proof {
                assert(texts(out@) =~= texts(out@) + Seq::<Seq<char>>::empty());
            }
        }
        i = i + 1;
    }
    proof {
        assert(ps.take(i as int) =~= ps);
    }
    Some(out)
}

/// Reads a path list: `[</A>, </B>]` or a single `</A>`. `None` when a
/// part has no `<...>` span or a `[` list has no closing `]`.
pub fn parse_path_list_rhs(rhs: &str) -> (r: Option<Vec<String>>)
    requires
        path_list_ok(rhs@),
    ensures
        match r {
            Some(v) => path_list(rhs@) == Some(texts(v@)),
            None => path_list(rhs@) is None,
        },
{
    let cs = chars_of(rhs);
    let t = trim_vec(&cs);
    if starts_with_char_vec(&t, '[') {
        let lb = match find_vec(&t, '[') {
            Some(i) => i,
            None => return None,
        };
        let rb = match rfind_vec(&t, ']') {
            Some(i) => i,
            None => return None,
        };
        proof {
            lemma_char_from_bounds(t@, 0, '[');
            lemma_rfind_char(t@, ']');
        }
        let inside = sub_vec(&t, lb + 1, rb);
        let parts = split_vec(&inside, ',');
        collect_paths(&parts)
    } else {
        let s = text_of(&t);
        match parse_path_spec(s.as_str()) {
            Some(x) => {
                let v = vec![x];
                proof {
                    assert(texts(v@) =~= seq![x@]);
                }
                Some(v)
            },
            None => None,
        }
    }
}

/// What one comma-separated part of a quoted string list adds: the part
/// without surrounding quotes, unless that leaves nothing.
pub open spec fn string_item(part: Seq<char>) -> Option<Seq<Seq<char>>> {
    let p = trim(part);
    let u = trim_char(p, '"');
    if p.len() == 0 || u.len() == 0 {
        Some(Seq::empty())
    } else {
        Some(seq![u])
    }
}

/// `string_item` as a function value.
pub open spec fn string_items() -> spec_fn(Seq<char>) -> Option<Seq<Seq<char>>> {
    |p: Seq<char>| string_item(p)
}

/// A string list `["a", "b"]`: the text between the first `[` and the last
/// `]`, split at commas.
pub open spec fn string_list(rhs: Seq<char>) -> Option<Seq<Seq<char>>> {
    let r = trim(rhs);
    match (find_char(r, '['), rfind_char(r, ']')) {
        (Some(lb), Some(rb)) => gather(split_char(r.subrange(lb + 1, rb), ','), string_items()),
        _ => None,
    }
}

/// The last `]` does not come before the first `[`.
pub open spec fn string_list_ok(rhs: Seq<char>) -> bool {
    let r = trim(rhs);
    match (find_char(r, '['), rfind_char(r, ']')) {
        (Some(lb), Some(rb)) => lb < rb,
        _ => true,
    }
}

fn collect_strings(parts: &Vec<Vec<char>>) -> (r: Vec<String>)
    ensures
        gather(views(parts@), string_items()) == Some(texts(r@)),
{
    let ghost ps = views(parts@);
    let mut out: Vec<String> = Vec::new();
    let mut i: usize = 0;
    proof {
        assert(ps.take(0) =~= Seq::<Seq<char>>::empty());
        assert(texts(out@) =~= Seq::<Seq<char>>::empty());
    }
    while i < parts.len()
        invariant
            i <= parts@.len(),
            ps == views(parts@),
            gather(ps.take(i as int), string_items()) == Some(texts(out@)),
        decreases parts.len() - i,
    {
        proof {
            assert(ps.take(i + 1).drop_last() =~= ps.take(i as int));
            assert(ps.take(i + 1).last() == parts@[i as int]@);
        }
        let p = trim_vec(&parts[i]);
        let u = trim_char_vec(&p, '"');
        if p.len() > 0 && u.len() > 0 {
            let ghost before = texts(out@);
            out.push(text_of(&u));
            proof {
                assert(texts(out@) =~= before + seq![u@]);
            }
        } else {
            proof {
                assert(texts(out@) =~= texts(out@) + Seq::<Seq<char>>::empty());
            }
        }
        i = i + 1;
    }
    proof {
        assert(ps.take(i as int) =~= ps);
    }
    out
}

/// Reads a quoted string list `["a", "b"]` between the first `[` and the
/// last `]`; unquoted empty items are dropped. `None` without both brackets.
/// The last `]` must not come before the first `[`.
pub fn parse_string_list_rhs(rhs: &str) -> (r: Option<Vec<String>>)
    requires
        string_list_ok(rhs@),
    ensures
        match r {
            Some(v) => string_list(rhs@) == Some(texts(v@)),
            None => string_list(rhs@) is None,
        },
{
    let cs = chars_of(rhs);
    let t = trim_vec(&cs);
    let lb = match find_vec(&t, '[') {
        Some(i) => i,
        None => return None,
    };
    let rb = match rfind_vec(&t, ']') {
        Some(i) => i,
        None => return None,
    };
    proof {
        lemma_rfind_char(t@, ']');
    }
    let inside = sub_vec(&t, lb + 1, rb);
    let parts = split_vec(&inside, ',');
    Some(collect_strings(&parts))
}

/// A reference as written: `@asset@</Prim>` gives the asset and the prim
/// path; without an `@`, `</Prim>` gives an empty asset.
pub open spec fn reference_spec(spec: Seq<char>) -> Option<(Seq<char>, Seq<char>)> {
    let s = trim(spec);
    match find_char(s, '@') {
        Some(a1) => {
            let rest = s.skip(a1 + 1);
            match find_char(rest, '@') {
                Some(a2) => match angle_text(rest.skip(a2 + 1)) {
                    Some(p) => Some((rest.take(a2), p)),
                    None => None,
                },
                None => None,
            }
        },
        None => match angle_text(s) {
            Some(p) => Some((Seq::empty(), p)),
            None => None,
        },
    }
}

/// `reference_spec` never slices an inverted `<...>` span.
pub open spec fn reference_ok(spec: Seq<char>) -> bool {
    let s = trim(spec);
    match find_char(s, '@') {
        Some(a1) => {
            let rest = s.skip(a1 + 1);
            match find_char(rest, '@') {
                Some(a2) => angle_ok(rest.skip(a2 + 1)),
                None => true,
            }
        },
        None => angle_ok(s),
    }
}

/// Reads `@asset@</Prim>` or `</Prim>`. `None` when the second `@` or a
/// bracket of the prim path is missing. The first `>` after the asset must
/// not come before the first `<`.
pub fn parse_reference_spec(spec: &str) -> (r: Option<ReferenceSpec>)
    requires
        reference_ok(spec@),
    ensures
        match r {
            Some(x) => reference_spec(spec@) == Some(x@),
            None => reference_spec(spec@) is None,
        },
{
    let cs = chars_of(spec);
    let s = trim_vec(&cs);
    let n = s.len();
    match find_vec(&s, '@') {
        Some(a1) => {
            let rest = sub_vec(&s, a1 + 1, n);
            proof {
                assert(rest@ =~= s@.skip(a1 + 1));
            }
            let a2 = match find_vec(&rest, '@') {
                Some(i) => i,
                None => return None,
            };
            let m = rest.len();
            let tail = sub_vec(&rest, a2 + 1, m);
            let asset = sub_vec(&rest, 0, a2);
            proof {
                assert(tail@ =~= rest@.skip(a2 + 1));
                assert(asset@ =~= rest@.take(a2 as int));
            }
            match angle_text_vec(&tail) {
                Some(p) => Some(ReferenceSpec { asset: text_of(&asset), prim_path: text_of(&p) }),
                None => None,
            }
        },
        None => match angle_text_vec(&s) {
            Some(p) => {
                let empty: Vec<char> = Vec::new();
                let r = ReferenceSpec { asset: text_of(&empty), prim_path: text_of(&p) };
                proof {
                    assert(r.asset@ =~= Seq::<char>::empty());
                }
                Some(r)
            },
            None => None,
        },
    }
}

/// What one comma-separated part of a reference list adds.
pub open spec fn reference_item(part: Seq<char>) -> Option<Seq<(Seq<char>, Seq<char>)>> {
    let p = trim(part);
    if p.len() == 0 {
        Some(Seq::empty())
    } else {
        match reference_spec(p) {
            Some(x) => Some(seq![x]),
            None => None,
        }
    }
}

/// `reference_item` as a function value.
pub open spec fn reference_items() -> spec_fn(Seq<char>) -> Option<Seq<(Seq<char>, Seq<char>)>> {
    |p: Seq<char>| reference_item(p)
}

/// A part of a reference list can be read without an inverted span.
pub open spec fn reference_item_ok() -> spec_fn(Seq<char>) -> bool {
    |p: Seq<char>| reference_ok(trim(p))
}

/// A reference list: `[@a@</A>, </B>]` or a single reference.
pub open spec fn reference_list(rhs: Seq<char>) -> Option<Seq<(Seq<char>, Seq<char>)>> {
    let r = trim(rhs);
    if starts_with_char(r, '[') {
        match (find_char(r, '['), rfind_char(r, ']')) {
            (Some(lb), Some(rb)) => gather(
                split_char(r.subrange(lb + 1, rb), ','),
                reference_items(),
            ),
            _ => None,
        }
    } else {
        match reference_spec(r) {
            Some(x) => Some(seq![x]),
            None => None,
        }
    }
}

/// `reference_list` never slices an inverted span.
pub open spec fn reference_list_ok(rhs: Seq<char>) -> bool {
    let r = trim(rhs);
    if starts_with_char(r, '[') {
        match (find_char(r, '['), rfind_char(r, ']')) {
            (Some(lb), Some(rb)) => gather_ok(
                split_char(r.subrange(lb + 1, rb), ','),
                reference_items(),
                reference_item_ok(),
            ),
            _ => true,
        }
    } else {
        reference_ok(r)
    }
}

fn collect_references(parts: &Vec<Vec<char>>) -> (r: Option<Vec<ReferenceSpec>>)
    requires
        gather_ok(views(parts@), reference_items(), reference_item_ok()),
    ensures
        match r {
            Some(v) => gather(views(parts@), reference_items()) == Some(ref_views(v@)),
            None => gather(views(parts@), reference_items()) is None,
        },
{
    let ghost ps = views(parts@);
    let mut out: Vec<ReferenceSpec> = Vec::new();
    let mut i: usize = 0;
    proof {
        assert(ps.take(0) =~= Seq::<Seq<char>>::empty());
        assert(ref_views(out@) =~= Seq::<(Seq<char>, Seq<char>)>::empty());
    }
    while i < parts.len()
        invariant
            i <= parts@.len(),
            ps == views(parts@),
            gather_ok(ps, reference_items(), reference_item_ok()),
            gather(ps.take(i as int), reference_items()) == Some(ref_views(out@)),
        decreases parts.len() - i,
    {
        proof {
            lemma_gather_ok_prefix(ps, reference_items(), reference_item_ok(), i + 1);
            assert(ps.take(i + 1).drop_last() =~= ps.take(i as int));
            assert(ps.take(i + 1).last() == parts@[i as int]@);
        }
        let p = trim_vec(&parts[i]);
        if p.len() > 0 {
            let s = text_of(&p);
            match parse_reference_spec(s.as_str()) {
                Some(x) => {
                    let ghost before = ref_views(out@);
                    out.push(x);
                    proof {
                        assert(ref_views(out@) =~= before + seq![x@]);
                    }
                },
                None => {
                    proof {
                        lemma_gather_stuck(ps, reference_items(), i + 1);
                    }
                    return None;
                },
            }
        } else {
            proof {
                assert(ref_views(out@) =~= ref_views(out@) + Seq::<(Seq<char>, Seq<char>)>::empty());
            }
        }
        i = i + 1;
    }
    proof {
        assert(ps.take(i as int) =~= ps);
    }
    Some(out)
}

/// Reads a reference list: `[@a.usda@</A>, </B>]` or a single reference.
/// `None` when a part is malformed or a `[` list has no closing `]`.
pub fn parse_reference_rhs(rhs: &str) -> (r: Option<Vec<ReferenceSpec>>)
    requires
        reference_list_ok(rhs@),
    ensures
        match r {
            Some(v) => reference_list(rhs@) == Some(ref_views(v@)),
            None => reference_list(rhs@) is None,
        },
{
    let cs = chars_of(rhs);
    let t = trim_vec(&cs);
    if starts_with_char_vec(&t, '[') {
        let lb = match find_vec(&t, '[') {
            Some(i) => i,
            None => return None,
        };
        let rb = match rfind_vec(&t, ']') {
            Some(i) => i,
            None => return None,
        };
        proof {
            lemma_char_from_bounds(t@, 0, '[');
            lemma_rfind_char(t@, ']');
        }
        let inside = sub_vec(&t, lb + 1, rb);
        let parts = split_vec(&inside, ',');
        collect_references(&parts)
    } else {
        let s = text_of(&t);
        match parse_reference_spec(s.as_str()) {
            Some(x) => {
                let v = vec![x];
                proof {
                    assert(ref_views(v@) =~= seq![x@]);
                }
                Some(v)
            },
            None => None,
        }
    }
}

// ---------------------------------------------------------------------------
// List-op lines.
// ---------------------------------------------------------------------------

/// A metadata line without surrounding white space and trailing commas.
pub open spec fn line_body(line: Seq<char>) -> Seq<char> {
    trim(trim_end_char(trim(line), ','))
}

/// The trimmed text after the first `=`.
pub open spec fn eq_rhs(rest: Seq<char>) -> Option<Seq<char>> {
    match split_once_char(rest, '=') {
        Some((_, r)) => Some(trim(r)),
        None => None,
    }
}

fn line_body_vec(line: &str) -> (r: Vec<char>)
    ensures
        r@ == line_body(line@),
{
    let cs = chars_of(line);
    let t = trim_vec(&cs);
    let u = trim_end_char_vec(&t, ',');
    trim_vec(&u)
}

fn eq_rhs_vec(rest: &Vec<char>) -> (r: Option<Vec<char>>)
    ensures
        match r {
            Some(v) => eq_rhs(rest@) == Some(v@),
            None => eq_rhs(rest@) is None,
        },
{
    match split_once_vec(rest, '=') {
        Some((_, b)) => Some(trim_vec(&b)),
        None => None,
    }
}

fn strip_lit(s: &Vec<char>, p: &str) -> (r: Option<Vec<char>>)
    ensures
        match r {
            Some(v) => strip_prefix(s@, p@) == Some(v@),
            None => strip_prefix(s@, p@) is None,
        },
{
    let pc = chars_of(p);
    strip_prefix_vec(s, &pc)
}

/// The operation and remainder of a references line.
pub open spec fn references_head(l: Seq<char>) -> Option<(RefOp, Seq<char>)> {
    match strip_prefix(l, "references"@) {
        Some(rest) => Some((RefOp::Explicit, rest)),
        None => match strip_prefix(l, "add references"@) {
            Some(rest) => Some((RefOp::Append, rest)),
            None => match strip_prefix(l, "prepend references"@) {
                Some(rest) => Some((RefOp::Prepend, rest)),
                None => None,
            },
        },
    }
}

/// A references line: `[add|prepend] references = <reference list>`.
pub open spec fn references_line(line: Seq<char>) -> Option<(RefOp, Seq<(Seq<char>, Seq<char>)>)> {
    let l = line_body(line);
    if l.len() == 0 {
        None
    } else {
        match references_head(l) {
            Some((op, rest)) => match eq_rhs(rest) {
                Some(rhs) => match reference_list(rhs) {
                    Some(v) => Some((op, v)),
                    None => None,
                },
                None => None,
            },
            None => None,
        }
    }
}

/// The reference list of a references line can be read.
pub open spec fn references_line_ok(line: Seq<char>) -> bool {
    match references_head(line_body(line)) {
        Some((op, rest)) => match eq_rhs(rest) {
            Some(rhs) => reference_list_ok(rhs),
            None => true,
        },
        None => true,
    }
}

/// Reads `references = ...`, `add references = ...` or
/// `prepend references = ...` (`add` appends).
pub fn parse_references_line(line: &str) -> (r: Option<(RefOp, Vec<ReferenceSpec>)>)
    requires
        references_line_ok(line@),
    ensures
        match r {
            Some((op, v)) => references_line(line@) == Some((op, ref_views(v@))),
            None => references_line(line@) is None,
        },
{
    let l = line_body_vec(line);
    if l.len() == 0 {
        return None;
    }
    let (op, rest) = if let Some(rest) = strip_lit(&l, "references") {
        (RefOp::Explicit, rest)
    } else if let Some(rest) = strip_lit(&l, "add references") {
        (RefOp::Append, rest)
    } else if let Some(rest) = strip_lit(&l, "prepend references") {
        (RefOp::Prepend, rest)
    } else {
        return None;
    };
    let rhs = match eq_rhs_vec(&rest) {
        Some(v) => v,
        None => return None,
    };
    let rs = text_of(&rhs);
    match parse_reference_rhs(rs.as_str()) {
        Some(specs) => Some((op, specs)),
        None => None,
    }
}

/// The operation and remainder of a payload line (`payload` or `payloads`).
pub open spec fn payloads_head(l: Seq<char>) -> Option<(RefOp, Seq<char>)> {
    let h = match strip_prefix(l, "prepend payload"@) {
        Some(rest) => Some((RefOp::Prepend, rest)),
        None => match strip_prefix(l, "append payload"@) {
            Some(rest) => Some((RefOp::Append, rest)),
            None => match strip_prefix(l, "add payload"@) {
                Some(rest) => Some((RefOp::Append, rest)),
                None => match strip_prefix(l, "payload"@) {
                    Some(rest) => Some((RefOp::Explicit, rest)),
                    None => None,
                },
            },
        },
    };
    match h {
        Some((op, rest)) => if starts_with_char(rest, 's') {
            Some((op, rest.skip(1)))
        } else {
            Some((op, rest))
        },
        None => None,
    }
}

/// A payload line: `[prepend|append|add] payload[s] = <reference list>`.
pub open spec fn payloads_line(line: Seq<char>) -> Option<(RefOp, Seq<(Seq<char>, Seq<char>)>)> {
    let l = line_body(line);
    if l.len() == 0 {
        None
    } else {
        match payloads_head(l) {
            Some((op, rest)) => match eq_rhs(rest) {
                Some(rhs) => match reference_list(rhs) {
                    Some(v) => Some((op, v)),
                    None => None,
                },
                None => None,
            },
            None => None,
        }
    }
}

/// The reference list of a payload line can be read.
pub open spec fn payloads_line_ok(line: Seq<char>) -> bool {
    match payloads_head(line_body(line)) {
        Some((op, rest)) => match eq_rhs(rest) {
            Some(rhs) => reference_list_ok(rhs),
            None => true,
        },
        None => true,
    }
}

/// Reads a payload line; the keyword may be `payload` or `payloads`.
pub fn parse_payloads_line(line: &str) -> (r: Option<(RefOp, Vec<ReferenceSpec>)>)
    requires
        payloads_line_ok(line@),
    ensures
        match r {
            Some((op, v)) => payloads_line(line@) == Some((op, ref_views(v@))),
            None => payloads_line(line@) is None,
        },
{
    let l = line_body_vec(line);
    if l.len() == 0 {
        return None;
    }
    let (op, rest) = if let Some(rest) = strip_lit(&l, "prepend payload") {
        (RefOp::Prepend, rest)
    } else if let Some(rest) = strip_lit(&l, "append payload") {
        (RefOp::Append, rest)
    } else if let Some(rest) = strip_lit(&l, "add payload") {
        (RefOp::Append, rest)
    } else if let Some(rest) = strip_lit(&l, "payload") {
        (RefOp::Explicit, rest)
    } else {
        return None;
    };
    let rest = if starts_with_char_vec(&rest, 's') {
        let n = rest.len();
        let v = sub_vec(&rest, 1, n);
        proof {
            assert(v@ =~= rest@.skip(1));
        }
        v
    } else {
        rest
    };
    let rhs = match eq_rhs_vec(&rest) {
        Some(v) => v,
        None => return None,
    };
    let rs = text_of(&rhs);
    match parse_reference_rhs(rs.as_str()) {
        Some(specs) => Some((op, specs)),
        None => None,
    }
}

/// The operation and remainder of an inherits line.
pub open spec fn inherits_head(l: Seq<char>) -> Option<(InheritOp, Seq<char>)> {
    match strip_prefix(l, "inherits"@) {
        Some(rest) => Some((InheritOp::Explicit, rest)),
        None => match strip_prefix(l, "add inherits"@) {
            Some(rest) => Some((InheritOp::Append, rest)),
            None => match strip_prefix(l, "prepend inherits"@) {
                Some(rest) => Some((InheritOp::Prepend, rest)),
                None => match strip_prefix(l, "append inherits"@) {
                    Some(rest) => Some((InheritOp::Append, rest)),
                    None => None,
                },
            },
        },
    }
}

/// The operation and remainder of a specializes line.
pub open spec fn specializes_head(l: Seq<char>) -> Option<(InheritOp, Seq<char>)> {
    match strip_prefix(l, "prepend specializes"@) {
        Some(rest) => Some((InheritOp::Prepend, rest)),
        None => match strip_prefix(l, "append specializes"@) {
            Some(rest) => Some((InheritOp::Append, rest)),
            None => match strip_prefix(l, "add specializes"@) {
                Some(rest) => Some((InheritOp::Append, rest)),
                None => match strip_prefix(l, "specializes"@) {
                    Some(rest) => Some((InheritOp::Explicit, rest)),
                    None => None,
                },
            },
        },
    }
}

/// The operation and remainder of a `rel targets` line.
pub open spec fn rel_targets_head(l: Seq<char>) -> Option<(TargetOp, Seq<char>)> {
    match strip_prefix(l, "rel targets"@) {
        Some(rest) => Some((TargetOp::Explicit, rest)),
        None => match strip_prefix(l, "add rel targets"@) {
            Some(rest) => Some((TargetOp::Append, rest)),
            None => match strip_prefix(l, "prepend rel targets"@) {
                Some(rest) => Some((TargetOp::Prepend, rest)),
                None => match strip_prefix(l, "append rel targets"@) {
                    Some(rest) => Some((TargetOp::Append, rest)),
                    None => None,
                },
            },
        },
    }
}

/// A line made of a head, `=` and a path list.
pub open spec fn path_list_line<O>(line: Seq<char>, head: Option<(O, Seq<char>)>) -> Option<
    (O, Seq<Seq<char>>),
> {
    if line_body(line).len() == 0 {
        None
    } else {
        match head {
            Some((op, rest)) => match eq_rhs(rest) {
                Some(rhs) => match path_list(rhs) {
                    Some(v) => Some((op, v)),
                    None => None,
                },
                None => None,
            },
            None => None,
        }
    }
}

/// The path list of such a line can be read.
pub open spec fn path_list_line_ok<O>(head: Option<(O, Seq<char>)>) -> bool {
    match head {
        Some((op, rest)) => match eq_rhs(rest) {
            Some(rhs) => path_list_ok(rhs),
            None => true,
        },
        None => true,
    }
}

fn read_path_list_rest(rest: &Vec<char>) -> (r: Option<Vec<String>>)
    requires
        eq_rhs(rest@) matches Some(rhs) ==> path_list_ok(rhs),
    ensures
        match r {
            Some(v) => eq_rhs(rest@) matches Some(rhs) && path_list(rhs) == Some(texts(v@)),
            None => eq_rhs(rest@) matches Some(rhs) ==> path_list(rhs) is None,
        },
{
    let rhs = match eq_rhs_vec(rest) {
        Some(v) => v,
        None => return None,
    };
    let rs = text_of(&rhs);
    parse_path_list_rhs(rs.as_str())
}

/// Reads `inherits = ...`, `add inherits = ...`, `prepend inherits = ...` or
/// `append inherits = ...`.
pub fn parse_inherits_line(line: &str) -> (r: Option<(InheritOp, Vec<String>)>)
    requires
        path_list_line_ok(inherits_head(line_body(line@))),
    ensures
        match r {
            Some((op, v)) => path_list_line(line@, inherits_head(line_body(line@))) == Some(
                (op, texts(v@)),
            ),
            None => path_list_line(line@, inherits_head(line_body(line@))) is None,
        },
{
    let l = line_body_vec(line);
    if l.len() == 0 {
        return None;
    }
    let (op, rest) = if let Some(rest) = strip_lit(&l, "inherits") {
        (InheritOp::Explicit, rest)
    } else if let Some(rest) = strip_lit(&l, "add inherits") {
        (InheritOp::Append, rest)
    } else if let Some(rest) = strip_lit(&l, "prepend inherits") {
        (InheritOp::Prepend, rest)
    } else if let Some(rest) = strip_lit(&l, "append inherits") {
        (InheritOp::Append, rest)
    } else {
        return None;
    };
    match read_path_list_rest(&rest) {
        Some(v) => Some((op, v)),
        None => None,
    }
}

/// Reads `prepend|append|add specializes = ...` or `specializes = ...`.
pub fn parse_specializes_line(line: &str) -> (r: Option<(InheritOp, Vec<String>)>)
    requires
        path_list_line_ok(specializes_head(line_body(line@))),
    ensures
        match r {
            Some((op, v)) => path_list_line(line@, specializes_head(line_body(line@))) == Some(
                (op, texts(v@)),
            ),
            None => path_list_line(line@, specializes_head(line_body(line@))) is None,
        },
{
    let l = line_body_vec(line);
    if l.len() == 0 {
        return None;
    }
    let (op, rest) = if let Some(rest) = strip_lit(&l, "prepend specializes") {
        (InheritOp::Prepend, rest)
    } else if let Some(rest) = strip_lit(&l, "append specializes") {
        (InheritOp::Append, rest)
    } else if let Some(rest) = strip_lit(&l, "add specializes") {
        (InheritOp::Append, rest)
    } else if let Some(rest) = strip_lit(&l, "specializes") {
        (InheritOp::Explicit, rest)
    } else {
        return None;
    };
    match read_path_list_rest(&rest) {
        Some(v) => Some((op, v)),
        None => None,
    }
}

/// Reads `rel targets = ...` with an optional `add`, `prepend` or `append`.
pub fn parse_rel_targets_line(line: &str) -> (r: Option<(TargetOp, Vec<String>)>)
    requires
        path_list_line_ok(rel_targets_head(line_body(line@))),
    ensures
        match r {
            Some((op, v)) => path_list_line(line@, rel_targets_head(line_body(line@))) == Some(
                (op, texts(v@)),
            ),
            None => path_list_line(line@, rel_targets_head(line_body(line@))) is None,
        },
{
    let l = line_body_vec(line);
    if l.len() == 0 {
        return None;
    }
    let (op, rest) = if let Some(rest) = strip_lit(&l, "rel targets") {
        (TargetOp::Explicit, rest)
    } else if let Some(rest) = strip_lit(&l, "add rel targets") {
        (TargetOp::Append, rest)
    } else if let Some(rest) = strip_lit(&l, "prepend rel targets") {
        (TargetOp::Prepend, rest)
    } else if let Some(rest) = strip_lit(&l, "append rel targets") {
        (TargetOp::Append, rest)
    } else {
        return None;
    };
    match read_path_list_rest(&rest) {
        Some(v) => Some((op, v)),
        None => None,
    }
}

/// The name, operation and path-list text of a named relationship line.
pub open spec fn named_rel_parts(line: Seq<char>) -> Option<(Seq<char>, TargetOp, Seq<char>)> {
    let l = line_body(line);
    let head = match strip_prefix(l, "add rel "@) {
        Some(rest) => Some((TargetOp::Append, rest)),
        None => match strip_prefix(l, "prepend rel "@) {
            Some(rest) => Some((TargetOp::Prepend, rest)),
            None => match strip_prefix(l, "append rel "@) {
                Some(rest) => Some((TargetOp::Append, rest)),
                None => match strip_prefix(l, "custom rel "@) {
                    Some(rest) => if find_char(rest, '=') is Some {
                        Some((TargetOp::Explicit, rest))
                    } else {
                        None
                    },
                    None => match strip_prefix(l, "rel "@) {
                        Some(rest) => Some((TargetOp::Explicit, rest)),
                        None => None,
                    },
                },
            },
        },
    };
    match head {
        Some((op, rest)) => if strip_prefix(rest, "targets"@) is Some {
            None
        } else {
            match split_once_char(rest, '=') {
                Some((name, rhs)) => Some((trim(name), op, trim(rhs))),
                None => None,
            }
        },
        None => None,
    }
}

/// A named relationship line such as `add rel controls = </Target>`.
pub open spec fn named_rel_line(line: Seq<char>) -> Option<(Seq<char>, TargetOp, Seq<Seq<char>>)> {
    match named_rel_parts(line) {
        Some((name, op, rhs)) => match path_list(rhs) {
            Some(v) => Some((name, op, v)),
            None => None,
        },
        None => None,
    }
}

/// The path list of a named relationship line can be read.
pub open spec fn named_rel_line_ok(line: Seq<char>) -> bool {
    match named_rel_parts(line) {
        Some((name, op, rhs)) => path_list_ok(rhs),
        None => true,
    }
}

/// Reads a named relationship line: `[add|prepend|append|custom] rel name =
/// <path list>`; `rel targets` lines and `custom rel` declarations without
/// `=` are not read here.
pub fn parse_named_rel_line(line: &str) -> (r: Option<(String, TargetOp, Vec<String>)>)
    requires
        named_rel_line_ok(line@),
    ensures
        match r {
            Some((name, op, v)) => named_rel_line(line@) == Some((name@, op, texts(v@))),
            None => named_rel_line(line@) is None,
        },
{
    let l = line_body_vec(line);
    let (op, rest) = if let Some(rest) = strip_lit(&l, "add rel ") {
        (TargetOp::Append, rest)
    } else if let Some(rest) = strip_lit(&l, "prepend rel ") {
        (TargetOp::Prepend, rest)
    } else if let Some(rest) = strip_lit(&l, "append rel ") {
        (TargetOp::Append, rest)
    } else if let Some(rest) = strip_lit(&l, "custom rel ") {
        if find_vec(&rest, '=').is_none() {
            return None;
        }
        (TargetOp::Explicit, rest)
    } else if let Some(rest) = strip_lit(&l, "rel ") {
        (TargetOp::Explicit, rest)
    } else {
        return None;
    };
    if strip_lit(&rest, "targets").is_some() {
        return None;
    }
    let (name, rhs) = match split_once_vec(&rest, '=') {
        Some(pair) => pair,
        None => return None,
    };
    let name = trim_vec(&name);
    let rhs = trim_vec(&rhs);
    let rs = text_of(&rhs);
    match parse_path_list_rhs(rs.as_str()) {
        Some(v) => Some((text_of(&name), op, v)),
        None => None,
    }
}

/// How many attribute type keywords the readers recognise.
pub const ATTR_TYPE_COUNT: usize = 24;

/// The recognised attribute type keywords, `custom`/`uniform` forms first,
/// each with its trailing space.
pub open spec fn attr_type_prefix_at(i: int) -> Seq<char> {
    if i == 0 {
        "custom uniform token "@
    } else if i == 1 {
        "custom uniform string "@
    } else if i == 2 {
        "custom uniform int "@
    } else if i == 3 {
        "custom uniform double "@
    } else if i == 4 {
        "custom uniform float "@
    } else if i == 5 {
        "custom uniform bool "@
    } else if i == 6 {
        "uniform token "@
    } else if i == 7 {
        "uniform string "@
    } else if i == 8 {
        "uniform int "@
    } else if i == 9 {
        "uniform double "@
    } else if i == 10 {
        "uniform float "@
    } else if i == 11 {
        "uniform bool "@
    } else if i == 12 {
        "custom double "@
    } else if i == 13 {
        "custom float "@
    } else if i == 14 {
        "custom int "@
    } else if i == 15 {
        "custom string "@
    } else if i == 16 {
        "custom token "@
    } else if i == 17 {
        "custom bool "@
    } else if i == 18 {
        "double "@
    } else if i == 19 {
        "float "@
    } else if i == 20 {
        "int "@
    } else if i == 21 {
        "string "@
    } else if i == 22 {
        "token "@
    } else {
        "bool "@
    }
}

fn attr_type_prefix(i: usize) -> (r: &'static str)
    requires
        i < ATTR_TYPE_COUNT,
    ensures
        r@ == attr_type_prefix_at(i as int),
{
    match i {
        0 => "custom uniform token ",
        1 => "custom uniform string ",
        2 => "custom uniform int ",
        3 => "custom uniform double ",
        4 => "custom uniform float ",
        5 => "custom uniform bool ",
        6 => "uniform token ",
        7 => "uniform string ",
        8 => "uniform int ",
        9 => "uniform double ",
        10 => "uniform float ",
        11 => "uniform bool ",
        12 => "custom double ",
        13 => "custom float ",
        14 => "custom int ",
        15 => "custom string ",
        16 => "custom token ",
        17 => "custom bool ",
        18 => "double ",
        19 => "float ",
        20 => "int ",
        21 => "string ",
        22 => "token ",
        _ => "bool ",
    }
}

/// `l` after the first keyword, in list order, that it starts with.
pub open spec fn strip_attr_prefix_from(l: Seq<char>, i: int) -> Option<Seq<char>>
    decreases ATTR_TYPE_COUNT - i,
{
    if i < 0 || i >= ATTR_TYPE_COUNT {
        None
    } else {
        match strip_prefix(l, attr_type_prefix_at(i)) {
            Some(rest) => Some(rest),
            None => strip_attr_prefix_from(l, i + 1),
        }
    }
}

/// `l` after its attribute type keyword, if it starts with one.
pub open spec fn strip_attr_prefix(l: Seq<char>) -> Option<Seq<char>> {
    strip_attr_prefix_from(l, 0)
}

fn strip_attr_prefix_vec(l: &Vec<char>) -> (r: Option<Vec<char>>)
    ensures
        match r {
            Some(v) => strip_attr_prefix(l@) == Some(v@),
            None => strip_attr_prefix(l@) is None,
        },
{
    let mut i: usize = 0;
    while i < ATTR_TYPE_COUNT
        invariant
            i <= ATTR_TYPE_COUNT,
            strip_attr_prefix(l@) == strip_attr_prefix_from(l@, i as int),
        decreases ATTR_TYPE_COUNT - i,
    {
        let p = attr_type_prefix(i);
        if let Some(rest) = strip_lit(l, p) {
            return Some(rest);
        }
        i = i + 1;
    }
    None
}

/// The name, operation and path-list text of an attribute connection line.
pub open spec fn connection_parts(line: Seq<char>) -> Option<(Seq<char>, TargetOp, Seq<char>)> {
    let l = line_body(line);
    if !contains_sub(l, ".connect"@) {
        None
    } else {
        let (op, rest0) = match strip_prefix(l, "add "@) {
            Some(rest) => (TargetOp::Append, rest),
            None => match strip_prefix(l, "prepend "@) {
                Some(rest) => (TargetOp::Prepend, rest),
                None => match strip_prefix(l, "append "@) {
                    Some(rest) => (TargetOp::Append, rest),
                    None => (TargetOp::Explicit, l),
                },
            },
        };
        let rest = trim(
            match strip_attr_prefix(rest0) {
                Some(r) => r,
                None => rest0,
            },
        );
        match find_sub(rest, ".connect"@) {
            Some(dot) => match eq_rhs(rest.skip(dot + ".connect"@.len())) {
                Some(rhs) => Some((trim(rest.take(dot)), op, rhs)),
                None => None,
            },
            None => None,
        }
    }
}

/// An attribute connection line such as `add double focal.connect = </Cam.f>`.
pub open spec fn connection_line(line: Seq<char>) -> Option<(Seq<char>, TargetOp, Seq<Seq<char>>)> {
    match connection_parts(line) {
        Some((name, op, rhs)) => match path_list(rhs) {
            Some(v) => Some((name, op, v)),
            None => None,
        },
        None => None,
    }
}

/// The path list of a connection line can be read.
pub open spec fn connection_line_ok(line: Seq<char>) -> bool {
    match connection_parts(line) {
        Some((name, op, rhs)) => path_list_ok(rhs),
        None => true,
    }
}

/// Reads an attribute connection line: an optional list-op word, an
/// optional type keyword, `name.connect = <path list>`.
pub fn parse_connection_line(line: &str) -> (r: Option<(String, TargetOp, Vec<String>)>)
    requires
        connection_line_ok(line@),
    ensures
        match r {
            Some((name, op, v)) => connection_line(line@) == Some((name@, op, texts(v@))),
            None => connection_line(line@) is None,
        },
{
    let l = line_body_vec(line);
    let pat = chars_of(".connect");
    if find_sub_vec(&l, &pat).is_none() {
        return None;
    }
    let (op, rest0) = if let Some(rest) = strip_lit(&l, "add ") {
        (TargetOp::Append, rest)
    } else if let Some(rest) = strip_lit(&l, "prepend ") {
        (TargetOp::Prepend, rest)
    } else if let Some(rest) = strip_lit(&l, "append ") {
        (TargetOp::Append, rest)
    } else {
        (TargetOp::Explicit, l)
    };
    let rest1 = match strip_attr_prefix_vec(&rest0) {
        Some(r) => r,
        None => rest0,
    };
    let rest = trim_vec(&rest1);
    let dot = match find_sub_vec(&rest, &pat) {
        Some(d) => d,
        None => return None,
    };
    proof {
        lemma_sub_from_bounds(rest@, pat@, 0);
    }
    let n = rest.len();
    let after = sub_vec(&rest, dot + pat.len(), n);
    let name = sub_vec(&rest, 0, dot);
    proof {
        assert(after@ =~= rest@.skip(dot + pat@.len()));
        assert(name@ =~= rest@.take(dot as int));
    }
    let rhs = match eq_rhs_vec(&after) {
        Some(v) => v,
        None => return None,
    };
    let name = trim_vec(&name);
    let rs = text_of(&rhs);
    match parse_path_list_rhs(rs.as_str()) {
        Some(v) => Some((text_of(&name), op, v)),
        None => None,
    }
}

/// The list text of a `reorder nameChildren = [...]` line.
pub open spec fn reorder_rhs(line: Seq<char>) -> Option<Seq<char>> {
    match strip_prefix(line_body(line), "reorder nameChildren"@) {
        Some(rest) => eq_rhs(rest),
        None => None,
    }
}

/// The child order of a `reorder nameChildren = [...]` line.
pub open spec fn reorder_name_children(line: Seq<char>) -> Option<Seq<Seq<char>>> {
    match reorder_rhs(line) {
        Some(rhs) => string_list(rhs),
        None => None,
    }
}

/// Reads `reorder nameChildren = ["a", "b"]`.
pub fn parse_reorder_name_children(line: &str) -> (r: Option<Vec<String>>)
    requires
        reorder_rhs(line@) matches Some(rhs) ==> string_list_ok(rhs),
    ensures
        match r {
            Some(v) => reorder_name_children(line@) == Some(texts(v@)),
            None => reorder_name_children(line@) is None,
        },
{
    let l = line_body_vec(line);
    let rest = match strip_lit(&l, "reorder nameChildren") {
        Some(r) => r,
        None => return None,
    };
    let rhs = match eq_rhs_vec(&rest) {
        Some(v) => v,
        None => return None,
    };
    let rs = text_of(&rhs);
    parse_string_list_rhs(rs.as_str())
}

// ---------------------------------------------------------------------------
// Variant metadata.
// ---------------------------------------------------------------------------

/// The views of a list of string pairs.
pub open spec fn pair_views(v: Seq<(String, String)>) -> Seq<(Seq<char>, Seq<char>)> {
    v.map_values(|p: (String, String)| (p.0@, p.1@))
}

/// What one `string name = "value"` entry of a `variants` block adds: the
/// pair when both sides are non-empty; a part without `=` is malformed.
pub open spec fn selection_item(part: Seq<char>) -> Option<Seq<(Seq<char>, Seq<char>)>> {
    let p = trim(trim_end_char(trim(part), ','));
    if p.len() == 0 {
        Some(Seq::empty())
    } else {
        match split_once_char(p, '=') {
            Some((name, vp)) => {
                let n = trim(name);
                let v = trim_char(trim(vp), '"');
                if n.len() > 0 && v.len() > 0 {
                    Some(seq![(n, v)])
                } else {
                    Some(Seq::empty())
                }
            },
            None => None,
        }
    }
}

/// `selection_item` as a function value.
pub open spec fn selection_items() -> spec_fn(Seq<char>) -> Option<Seq<(Seq<char>, Seq<char>)>> {
    |p: Seq<char>| selection_item(p)
}

/// The braced text of a `variants = { ... }` line.
pub open spec fn selections_rhs(line: Seq<char>) -> Option<Seq<char>> {
    match strip_prefix(trim(line), "variants"@) {
        Some(rest) => match eq_rhs(rest) {
            Some(rhs) => Some(trim(rhs)),
            None => None,
        },
        None => None,
    }
}

/// The selections of `variants = { string a = "x", string b = "y" }`, read
/// between the first `{` and the last `}`, entries split at `string `.
pub open spec fn variant_selections_line(line: Seq<char>) -> Option<Seq<(Seq<char>, Seq<char>)>> {
    match selections_rhs(line) {
        Some(rhs) => match (find_char(rhs, '{'), rfind_char(rhs, '}')) {
            (Some(lb), Some(rb)) => gather(
                split_sub(rhs.subrange(lb + 1, rb), "string "@),
                selection_items(),
            ),
            _ => None,
        },
        None => None,
    }
}

/// The last `}` does not come before the first `{`.
pub open spec fn variant_selections_line_ok(line: Seq<char>) -> bool {
    match selections_rhs(line) {
        Some(rhs) => match (find_char(rhs, '{'), rfind_char(rhs, '}')) {
            (Some(lb), Some(rb)) => lb < rb,
            _ => true,
        },
        None => true,
    }
}

fn collect_selections(parts: &Vec<Vec<char>>) -> (r: Option<Vec<(String, String)>>)
    ensures
        match r {
            Some(v) => gather(views(parts@), selection_items()) == Some(pair_views(v@)),
            None => gather(views(parts@), selection_items()) is None,
        },
{
    let ghost ps = views(parts@);
    let mut out: Vec<(String, String)> = Vec::new();
    let mut i: usize = 0;
    proof {
        assert(ps.take(0) =~= Seq::<Seq<char>>::empty());
        assert(pair_views(out@) =~= Seq::<(Seq<char>, Seq<char>)>::empty());
    }
    while i < parts.len()
        invariant
            i <= parts@.len(),
            ps == views(parts@),
            gather(ps.take(i as int), selection_items()) == Some(pair_views(out@)),
        decreases parts.len() - i,
    {
        proof {
            assert(ps.take(i + 1).drop_last() =~= ps.take(i as int));
            assert(ps.take(i + 1).last() == parts@[i as int]@);
        }
        let t = trim_vec(&parts[i]);
        let u = trim_end_char_vec(&t, ',');
        let p = trim_vec(&u);
        if p.len() > 0 {
            match split_once_vec(&p, '=') {
                Some((name, vp)) => {
                    let n = trim_vec(&name);
                    let vt = trim_vec(&vp);
                    let v = trim_char_vec(&vt, '"');
                    if n.len() > 0 && v.len() > 0 {
                        let ghost before = pair_views(out@);
                        out.push((text_of(&n), text_of(&v)));
                        proof {
                            assert(pair_views(out@) =~= before + seq![(n@, v@)]);
                        }
                    } else {
                        proof {
                            assert(pair_views(out@) =~= pair_views(out@) + Seq::<
                                (Seq<char>, Seq<char>),
                            >::empty());
                        }
                    }
                },
                None => {
                    proof {
                        lemma_gather_stuck(ps, selection_items(), i + 1);
                    }
                    return None;
                },
            }
        } else {
            proof {
                assert(pair_views(out@) =~= pair_views(out@) + Seq::<(Seq<char>, Seq<char>)>::empty());
            }
        }
        i = i + 1;
    }
    proof {
        assert(ps.take(i as int) =~= ps);
    }
    Some(out)
}

/// Reads `variants = { string v1 = "C", string v2 = "Z" }`; entries may be
/// separated by commas or by spaces.
pub fn parse_variant_selections_line(line: &str) -> (r: Option<Vec<(String, String)>>)
    requires
        variant_selections_line_ok(line@),
    ensures
        match r {
            Some(v) => variant_selections_line(line@) == Some(pair_views(v@)),
            None => variant_selections_line(line@) is None,
        },
{
    let cs = chars_of(line);
    let l = trim_vec(&cs);
    let rest = match strip_lit(&l, "variants") {
        Some(r) => r,
        None => return None,
    };
    let rhs = match eq_rhs_vec(&rest) {
        Some(v) => trim_vec(&v),
        None => return None,
    };
    let lb = match find_vec(&rhs, '{') {
        Some(i) => i,
        None => return None,
    };
    let rb = match rfind_vec(&rhs, '}') {
        Some(i) => i,
        None => return None,
    };
    proof {
        lemma_rfind_char(rhs@, '}');
    }
    let inside = sub_vec(&rhs, lb + 1, rb);
    let sep = chars_of("string ");
    proof {
        reveal_strlit("string ");
    }
    let parts = split_sub_vec(&inside, &sep);
    collect_selections(&parts)
}

/// The value text of a `variantSets` line.
pub open spec fn set_names_rhs(line: Seq<char>) -> Option<Seq<char>> {
    let l = trim(line);
    let rest = match strip_prefix(l, "add variantSets"@) {
        Some(r) => Some(r),
        None => match strip_prefix(l, "prepend variantSets"@) {
            Some(r) => Some(r),
            None => strip_prefix(l, "variantSets"@),
        },
    };
    match rest {
        Some(r) => match eq_rhs(r) {
            Some(rhs) => Some(trim(rhs)),
            None => None,
        },
        None => None,
    }
}

/// The set names of `variantSets = ["a", "b"]` or `add variantSets = "a"`.
pub open spec fn variant_set_names_line(line: Seq<char>) -> Option<Seq<Seq<char>>> {
    match set_names_rhs(line) {
        Some(rhs) => if starts_with_char(rhs, '[') {
            string_list(rhs)
        } else {
            let v = trim_char(rhs, '"');
            if v.len() == 0 {
                None
            } else {
                Some(seq![v])
            }
        },
        None => None,
    }
}

/// Reads `variantSets = [...]`, `add variantSets = "x"` or
/// `prepend variantSets = ...`.
pub fn parse_variant_set_names_line(line: &str) -> (r: Option<Vec<String>>)
    requires
        set_names_rhs(line@) matches Some(rhs) ==> (starts_with_char(rhs, '[') ==> string_list_ok(
            rhs,
        )),
    ensures
        match r {
            Some(v) => variant_set_names_line(line@) == Some(texts(v@)),
            None => variant_set_names_line(line@) is None,
        },
{
    let cs = chars_of(line);
    let l = trim_vec(&cs);
    let rest = if let Some(r) = strip_lit(&l, "add variantSets") {
        r
    } else if let Some(r) = strip_lit(&l, "prepend variantSets") {
        r
    } else if let Some(r) = strip_lit(&l, "variantSets") {
        r
    } else {
        return None;
    };
    let rhs = match eq_rhs_vec(&rest) {
        Some(v) => trim_vec(&v),
        None => return None,
    };
    if starts_with_char_vec(&rhs, '[') {
        let rs = text_of(&rhs);
        parse_string_list_rhs(rs.as_str())
    } else {
        let v = trim_char_vec(&rhs, '"');
        if v.len() == 0 {
            None
        } else {
            let out = vec![text_of(&v)];
            proof {
                assert(texts(out@) =~= seq![v@]);
            }
            Some(out)
        }
    }
}

/// The set name of a `variantSet "name" = {` header.
pub open spec fn variant_set_start(line: Seq<char>) -> Option<Seq<char>> {
    match strip_prefix(trim(line), "variantSet "@) {
        Some(rest) => match find_char(rest, '"') {
            Some(q1) => {
                let after = rest.skip(q1 + 1);
                match find_char(after, '"') {
                    Some(q2) => if find_char(after.skip(q2 + 1), '=') is Some {
                        Some(after.take(q2))
                    } else {
                        None
                    },
                    None => None,
                }
            },
            None => None,
        },
        None => None,
    }
}

/// Reads the set name of `variantSet "name" = {`; an `=` must follow the
/// quoted name.
pub fn parse_variant_set_start(line: &str) -> (r: Option<String>)
    ensures
        opt_text(r) == variant_set_start(line@),
{
    let cs = chars_of(line);
    let l = trim_vec(&cs);
    let rest = match strip_lit(&l, "variantSet ") {
        Some(r) => r,
        None => return None,
    };
    let q1 = match find_vec(&rest, '"') {
        Some(i) => i,
        None => return None,
    };
    let n = rest.len();
    let after = sub_vec(&rest, q1 + 1, n);
    proof {
        assert(after@ =~= rest@.skip(q1 + 1));
    }
    let q2 = match find_vec(&after, '"') {
        Some(i) => i,
        None => return None,
    };
    let m = after.len();
    let remaining = sub_vec(&after, q2 + 1, m);
    let name = sub_vec(&after, 0, q2);
    proof {
        assert(remaining@ =~= after@.skip(q2 + 1));
        assert(name@ =~= after@.take(q2 as int));
    }
    if find_vec(&remaining, '=').is_some() {
        Some(text_of(&name))
    } else {
        None
    }
}

/// The branch name of a `"branch" {` line inside a variant set.
pub open spec fn variant_branch_name(line: Seq<char>) -> Option<Seq<char>> {
    let l = trim(line);
    if !starts_with_char(l, '"') {
        None
    } else {
        let rest = l.skip(1);
        match find_char(rest, '"') {
            Some(end) => {
                let after = trim(rest.skip(end + 1));
                if starts_with_char(after, '{') || starts_with_char(after, '(') || after.len()
                    == 0 {
                    Some(rest.take(end))
                } else {
                    None
                }
            },
            None => None,
        }
    }
}

/// Reads the quoted name at the start of a variant branch line; the name
/// must be followed by `{`, `(` or nothing.
pub fn parse_variant_branch_name(line: &str) -> (r: Option<String>)
    ensures
        opt_text(r) == variant_branch_name(line@),
{
    let cs = chars_of(line);
    let l = trim_vec(&cs);
    if !starts_with_char_vec(&l, '"') {
        return None;
    }
    let n = l.len();
    let rest = sub_vec(&l, 1, n);
    proof {
        assert(rest@ =~= l@.skip(1));
    }
    let end = match find_vec(&rest, '"') {
        Some(i) => i,
        None => return None,
    };
    let m = rest.len();
    let tail = sub_vec(&rest, end + 1, m);
    let name = sub_vec(&rest, 0, end);
    proof {
        assert(tail@ =~= rest@.skip(end + 1));
        assert(name@ =~= rest@.take(end as int));
    }
    let after = trim_vec(&tail);
    if starts_with_char_vec(&after, '{') || starts_with_char_vec(&after, '(') || after.len() == 0 {
        Some(text_of(&name))
    } else {
        None
    }
}

// ---------------------------------------------------------------------------
// Attribute and prim names.
// ---------------------------------------------------------------------------

/// `s`, unless it is empty.
pub open spec fn nonempty(s: Seq<char>) -> Option<Seq<char>> {
    if s.len() > 0 {
        Some(s)
    } else {
        None
    }
}

/// A character that ends an unquoted attribute name.
pub open spec fn is_name_stop(c: char) -> bool {
    is_ws(c) || c == '=' || c == ';' || c == '.'
}

/// The first index at or after `i` holding a name stop, or the length.
pub open spec fn name_stop_from(s: Seq<char>, i: int) -> int
    decreases s.len() - i,
{
    if i < 0 || i >= s.len() {
        s.len() as int
    } else if is_name_stop(s[i]) {
        i
    } else {
        name_stop_from(s, i + 1)
    }
}

/// `name_stop_from` lies between `i` and the length.
pub proof fn lemma_name_stop_bounds(s: Seq<char>, i: int)
    requires
        0 <= i <= s.len(),
    ensures
        i <= name_stop_from(s, i) <= s.len(),
    decreases s.len() - i,
{
    if i < s.len() && !is_name_stop(s[i]) {
        lemma_name_stop_bounds(s, i + 1);
    }
}

/// The attribute name declared on a line that starts with a type keyword:
/// the quoted name, or the text up to the first white space, `=`, `;` or `.`.
pub open spec fn any_attr(line: Seq<char>) -> Option<Seq<char>> {
    match strip_attr_prefix(trim(line)) {
        Some(r0) => {
            let rest = trim(r0);
            if starts_with_char(rest, '"') {
                let r2 = rest.skip(1);
                match find_char(r2, '"') {
                    Some(end) => nonempty(trim(r2.take(end))),
                    None => None,
                }
            } else {
                nonempty(trim(rest.take(name_stop_from(rest, 0))))
            }
        },
        None => None,
    }
}

/// Reads the attribute name of a declaration such as `custom double x = 1`
/// or `string "v" = "ref"`.
pub fn parse_any_attr(line: &str) -> (r: Option<String>)
    ensures
        opt_text(r) == any_attr(line@),
{
    let cs = chars_of(line);
    let l = trim_vec(&cs);
    let r0 = match strip_attr_prefix_vec(&l) {
        Some(r) => r,
        None => return None,
    };
    let rest = trim_vec(&r0);
    let n = rest.len();
    if starts_with_char_vec(&rest, '"') {
        let r2 = sub_vec(&rest, 1, n);
        proof {
            assert(r2@ =~= rest@.skip(1));
        }
        let end = match find_vec(&r2, '"') {
            Some(i) => i,
            None => return None,
        };
        let name0 = sub_vec(&r2, 0, end);
        proof {
            assert(name0@ =~= r2@.take(end as int));
        }
        let name = trim_vec(&name0);
        if name.len() > 0 {
            Some(text_of(&name))
        } else {
            None
        }
    } else {
        let mut end: usize = 0;
        while end < n && !(is_ws_char(rest[end]) || rest[end] == '=' || rest[end] == ';'
            || rest[end] == '.')
            invariant
                end <= n,
                n == rest@.len(),
                name_stop_from(rest@, 0) == name_stop_from(rest@, end as int),
            decreases n - end,
        {
            end = end + 1;
        }
        let name0 = sub_vec(&rest, 0, end);
        proof {
            assert(name0@ =~= rest@.take(end as int));
        }
        let name = trim_vec(&name0);
        if name.len() > 0 {
            Some(text_of(&name))
        } else {
            None
        }
    }
}

/// The attribute name of a `<type> name.timeSamples = {` line.
pub open spec fn time_samples_attr(line: Seq<char>) -> Option<Seq<char>> {
    match strip_attr_prefix(trim(line)) {
        Some(r0) => {
            let rest = trim(r0);
            match find_sub(rest, ".timeSamples"@) {
                Some(dot) => nonempty(trim(rest.take(dot))),
                None => None,
            }
        },
        None => None,
    }
}

/// Reads the attribute name of a `.timeSamples` declaration, e.g.
/// `int root.timeSamples = {` gives `root`.
pub fn parse_time_samples_attr(line: &str) -> (r: Option<String>)
    ensures
        opt_text(r) == time_samples_attr(line@),
{
    let cs = chars_of(line);
    let l = trim_vec(&cs);
    let r0 = match strip_attr_prefix_vec(&l) {
        Some(r) => r,
        None => return None,
    };
    let rest = trim_vec(&r0);
    let pat = chars_of(".timeSamples");
    let dot = match find_sub_vec(&rest, &pat) {
        Some(d) => d,
        None => return None,
    };
    proof {
        lemma_sub_from_bounds(rest@, pat@, 0);
    }
    let name0 = sub_vec(&rest, 0, dot);
    proof {
        assert(name0@ =~= rest@.take(dot as int));
    }
    let name = trim_vec(&name0);
    if name.len() > 0 {
        Some(text_of(&name))
    } else {
        None
    }
}

/// The text between the first two `"` of a line.
pub open spec fn prim_name(line: Seq<char>) -> Option<Seq<char>> {
    match find_char(line, '"') {
        Some(q1) => {
            let rest = line.skip(q1 + 1);
            match find_char(rest, '"') {
                Some(q2) => Some(rest.take(q2)),
                None => None,
            }
        },
        None => None,
    }
}

/// Reads the quoted prim name of a `def Xform "Name"` line.
pub fn parse_prim_name(line: &str) -> (r: Option<String>)
    ensures
        opt_text(r) == prim_name(line@),
{
    let l = chars_of(line);
    let q1 = match find_vec(&l, '"') {
        Some(i) => i,
        None => return None,
    };
    let n = l.len();
    let rest = sub_vec(&l, q1 + 1, n);
    proof {
        assert(rest@ =~= l@.skip(q1 + 1));
    }
    let q2 = match find_vec(&rest, '"') {
        Some(i) => i,
        None => return None,
    };
    let name = sub_vec(&rest, 0, q2);
    proof {
        assert(name@ =~= rest@.take(q2 as int));
    }
    Some(text_of(&name))
}

// ---------------------------------------------------------------------------
// Relative prim paths and sublayer lists.
// ---------------------------------------------------------------------------

/// The pieces of `ps` that are not empty, in order.
pub open spec fn drop_empty(ps: Seq<Seq<char>>) -> Seq<Seq<char>>
    decreases ps.len(),
{
    if ps.len() == 0 {
        Seq::empty()
    } else if ps.last().len() == 0 {
        drop_empty(ps.drop_last())
    } else {
        drop_empty(ps.drop_last()).push(ps.last())
    }
}

/// Applies the components of a relative path to a list of segments: `..`
/// drops the last segment (if any), `.` and empty components do nothing,
/// any other component is appended.
pub open spec fn walk_components(segs: Seq<Seq<char>>, comps: Seq<Seq<char>>) -> Seq<Seq<char>>
    decreases comps.len(),
{
    if comps.len() == 0 {
        segs
    } else {
        let s = walk_components(segs, comps.drop_last());
        let c = comps.last();
        if c == seq!['.', '.'] {
            if s.len() > 0 {
                s.drop_last()
            } else {
                s
            }
        } else if c == seq!['.'] || c.len() == 0 {
            s
        } else {
            s.push(c)
        }
    }
}

/// `path` resolved against the prim path `base`: an absolute path is kept,
/// a relative one is walked from the segments of `base`.
pub open spec fn relative_path(path: Seq<char>, base: Seq<char>) -> Seq<char> {
    if starts_with_char(path, '/') {
        path
    } else {
        seq!['/'] + join_with(
            walk_components(drop_empty(split_char(base, '/')), split_char(path, '/')),
            '/',
        )
    }
}

/// A resolved path is always absolute: it starts with `/`, and a relative
/// input walked to nothing resolves to `/`.
pub proof fn law_relative_path_is_absolute(path: Seq<char>, base: Seq<char>)
    ensures
        relative_path(path, base).len() > 0,
        relative_path(path, base)[0] == '/',
        !starts_with_char(path, '/') && walk_components(
            drop_empty(split_char(base, '/')),
            split_char(path, '/'),
        ).len() == 0 ==> relative_path(path, base) == seq!['/'],
{
    if !starts_with_char(path, '/') {
        let segs = walk_components(drop_empty(split_char(base, '/')), split_char(path, '/'));
        assert((seq!['/'] + join_with(segs, '/'))[0] == '/');
        if segs.len() == 0 {
            assert(seq!['/'] + join_with(segs, '/') =~= seq!['/']);
        }
    }
}

fn copy_chars(v: &Vec<char>) -> (r: Vec<char>)
    ensures
        r@ == v@,
{
    let n = v.len();
    let r = sub_vec(v, 0, n);
    proof {
        assert(r@ =~= v@);
    }
    r
}

/// Resolves a possibly relative prim path (`../Foo`, `./Bar`) against the
/// prim path `base_prim_path`.
pub fn resolve_relative_path(path: &str, base_prim_path: &str) -> (r: String)
    ensures
        r@ == relative_path(path@, base_prim_path@),
{
    let p = chars_of(path);
    if starts_with_char_vec(&p, '/') {
        return text_of(&p);
    }
    let b = chars_of(base_prim_path);
    let base_parts = split_vec(&b, '/');
    let ghost bp = views(base_parts@);
    let mut segs: Vec<Vec<char>> = Vec::new();
    let mut i: usize = 0;
    proof {
        assert(bp.take(0) =~= Seq::<Seq<char>>::empty());
        assert(views(segs@) =~= Seq::<Seq<char>>::empty());
    }
    while i < base_parts.len()
        invariant
            i <= base_parts@.len(),
            bp == views(base_parts@),
            views(segs@) == drop_empty(bp.take(i as int)),
        decreases base_parts.len() - i,
    {
        proof {
            assert(bp.take(i + 1).drop_last() =~= bp.take(i as int));
            assert(bp.take(i + 1).last() == base_parts@[i as int]@);
        }
        if base_parts[i].len() > 0 {
            let piece = copy_chars(&base_parts[i]);
            let ghost before = views(segs@);
            segs.push(piece);
            proof {
                assert(views(segs@) =~= before.push(piece@));
            }
        }
        i = i + 1;
    }
    proof {
        assert(bp.take(i as int) =~= bp);
    }
    let comps = split_vec(&p, '/');
    let ghost cp = views(comps@);
    let ghost start = views(segs@);
    let mut k: usize = 0;
    proof {
        assert(cp.take(0) =~= Seq::<Seq<char>>::empty());
    }
    while k < comps.len()
        invariant
            k <= comps@.len(),
            cp == views(comps@),
            views(segs@) == walk_components(start, cp.take(k as int)),
        decreases comps.len() - k,
    {
        proof {
            assert(cp.take(k + 1).drop_last() =~= cp.take(k as int));
            assert(cp.take(k + 1).last() == comps@[k as int]@);
        }
        let c = &comps[k];
        if c.len() == 2 && c[0] == '.' && c[1] == '.' {
            proof {
                assert(c@ =~= seq!['.', '.']);
            }
            if segs.len() > 0 {
                let ghost before = views(segs@);
                segs.pop();
                proof {
                    assert(views(segs@) =~= before.drop_last());
                }
            }
        } else if (c.len() == 1 && c[0] == '.') || c.len() == 0 {
            proof {
                if c.len() == 1 {
                    assert(c@ =~= seq!['.']);
                }
            }
        } else {
            proof {
                if c@ == seq!['.', '.'] {
                    assert(c@[0] == '.' && c@[1] == '.');
                }
                if c@ == seq!['.'] {
                    assert(c@[0] == '.');
                }
            }
            let piece = copy_chars(c);
            let ghost before = views(segs@);
            segs.push(piece);
            proof {
                assert(views(segs@) =~= before.push(piece@));
            }
        }
        k = k + 1;
    }
    proof {
        assert(cp.take(k as int) =~= cp);
    }
    let mut out: Vec<char> = Vec::new();
    out.push('/');
    let ghost sg = views(segs@);
    let mut j: usize = 0;
    proof {
        assert(sg.take(0) =~= Seq::<Seq<char>>::empty());
        assert(out@ =~= seq!['/'] + join_with(sg.take(0), '/'));
    }
    while j < segs.len()
        invariant
            j <= segs@.len(),
            sg == views(segs@),
            out@ == seq!['/'] + join_with(sg.take(j as int), '/'),
        decreases segs.len() - j,
    {
        proof {
            assert(sg.take(j + 1).drop_last() =~= sg.take(j as int));
            assert(sg.take(j + 1).last() == segs@[j as int]@);
        }
        if j > 0 {
            out.push('/');
        }
        let seg = &segs[j];
        let m = seg.len();
        let mut t: usize = 0;
        let ghost mid = out@;
        while t < m
            invariant
                t <= m,
                m == seg@.len(),
                out@ == mid + seg@.take(t as int),
            decreases m - t,
        {
            proof {
                assert(seg@.take(t + 1) =~= seg@.take(t as int).push(seg@[t as int]));
            }
            out.push(seg[t]);
            t = t + 1;
        }
        proof {
            assert(seg@.take(m as int) =~= seg@);
            if j == 0 {
                assert(sg.take(1) =~= seq![sg[0]]);
                assert(join_with(sg.take(1), '/') == sg[0]);
                assert(out@ =~= seq!['/'] + join_with(sg.take(1), '/'));
            } else {
                assert(out@ =~= seq!['/'] + join_with(sg.take(j + 1), '/'));
            }
        }
        j = j + 1;
    }
    proof {
        assert(sg.take(j as int) =~= sg);
    }
    text_of(&out)
}

/// What one `@`-separated part of a `subLayers` list adds: the asset path
/// without a leading `./`; separators, blanks and the keyword itself add
/// nothing.
pub open spec fn sublayer_item(part: Seq<char>) -> Option<Seq<Seq<char>>> {
    let p = trim(part);
    if p.len() == 0 || contains_sub(p, "subLayers"@) {
        Some(Seq::empty())
    } else {
        let q = trim(trim_end_char(trim(p), ','));
        if q.len() == 0 {
            Some(Seq::empty())
        } else {
            Some(
                seq![
                    match strip_prefix(q, "./"@) {
                        Some(x) => x,
                        None => q,
                    },
                ],
            )
        }
    }
}

/// `sublayer_item` as a function value.
pub open spec fn sublayer_items() -> spec_fn(Seq<char>) -> Option<Seq<Seq<char>>> {
    |p: Seq<char>| sublayer_item(p)
}

/// The text between the first `[` and the first `]` after `subLayers`.
pub open spec fn sublayer_inside(text: Seq<char>) -> Option<Seq<char>> {
    match find_sub(text, "subLayers"@) {
        Some(idx) => {
            let rest = text.skip(idx);
            match (find_char(rest, '['), find_char(rest, ']')) {
                (Some(lb), Some(rb)) => Some(rest.subrange(lb + 1, rb)),
                _ => None,
            }
        },
        None => None,
    }
}

/// The sublayer asset paths listed in a layer's text, in order.
pub open spec fn sublayer_names(text: Seq<char>) -> Seq<Seq<char>> {
    match sublayer_inside(text) {
        Some(inside) => match gather(split_char(inside, '@'), sublayer_items()) {
            Some(v) => v,
            None => Seq::empty(),
        },
        None => Seq::empty(),
    }
}

/// After `subLayers`, the first `]` does not come before the first `[`.
pub open spec fn sublayers_ok(text: Seq<char>) -> bool {
    match find_sub(text, "subLayers"@) {
        Some(idx) => {
            let rest = text.skip(idx);
            match (find_char(rest, '['), find_char(rest, ']')) {
                (Some(lb), Some(rb)) => lb < rb,
                _ => true,
            }
        },
        None => true,
    }
}

/// Reads the `subLayers = [@./a.usda@, @b.usda@]` list of a layer's text:
/// the asset paths in order, without a leading `./`. The caller joins them
/// to the directory of the layer.
pub fn parse_sublayers(text: &str) -> (r: Vec<String>)
    requires
        sublayers_ok(text@),
    ensures
        texts(r@) == sublayer_names(text@),
{
    let t = chars_of(text);
    let key = chars_of("subLayers");
    let idx = match find_sub_vec(&t, &key) {
        Some(i) => i,
        None => return Vec::new(),
    };
    proof {
        lemma_sub_from_bounds(t@, key@, 0);
    }
    let n = t.len();
    let rest = sub_vec(&t, idx, n);
    proof {
        assert(rest@ =~= t@.skip(idx as int));
    }
    let lb = match find_vec(&rest, '[') {
        Some(i) => i,
        None => return Vec::new(),
    };
    let rb = match find_vec(&rest, ']') {
        Some(i) => i,
        None => return Vec::new(),
    };
    let inside = sub_vec(&rest, lb + 1, rb);
    let parts = split_vec(&inside, '@');
    let ghost ps = views(parts@);
    let mut out: Vec<String> = Vec::new();
    let mut i: usize = 0;
    proof {
        assert(ps.take(0) =~= Seq::<Seq<char>>::empty());
        assert(texts(out@) =~= Seq::<Seq<char>>::empty());
    }
    while i < parts.len()
        invariant
            i <= parts@.len(),
            ps == views(parts@),
            key@ == "subLayers"@,
            gather(ps.take(i as int), sublayer_items()) == Some(texts(out@)),
        decreases parts.len() - i,
    {
        proof {
            assert(ps.take(i + 1).drop_last() =~= ps.take(i as int));
            assert(ps.take(i + 1).last() == parts@[i as int]@);
        }
        let p = trim_vec(&parts[i]);
        if p.len() == 0 || find_sub_vec(&p, &key).is_some() {
            proof {
                assert(texts(out@) =~= texts(out@) + Seq::<Seq<char>>::empty());
            }
        } else {
            let p2 = trim_vec(&p);
            let u = trim_end_char_vec(&p2, ',');
            let q = trim_vec(&u);
            if q.len() == 0 {
                proof {
                    assert(texts(out@) =~= texts(out@) + Seq::<Seq<char>>::empty());
                }
            } else {
                let name = match strip_lit(&q, "./") {
                    Some(x) => x,
                    None => q,
                };
                let ghost before = texts(out@);
                out.push(text_of(&name));
                proof {
                    assert(texts(out@) =~= before + seq![name@]);
                }
            }
        }
        i = i + 1;
    }
    proof {
        assert(ps.take(i as int) =~= ps);
    }
    out
}

/// The time and value texts of a time-sample entry such as `-10: 100,`:
/// the trimmed texts before and after the first `:`.
pub open spec fn time_sample_texts(entry: Seq<char>) -> Option<(Seq<char>, Seq<char>)> {
    let e = trim_end_char(trim(entry), ',');
    match find_char(e, ':') {
        Some(colon) => Some((trim(e.take(colon)), trim(e.skip(colon + 1)))),
        None => None,
    }
}

/// Splits a time-sample entry `time: value` into its trimmed time and value
/// texts; `None` without a `:`. Reading the time as a number is left to the
/// caller.
pub fn split_time_sample_entry(entry: &str) -> (r: Option<(String, String)>)
    ensures
        match r {
            Some((t, v)) => time_sample_texts(entry@) == Some((t@, v@)),
            None => time_sample_texts(entry@) is None,
        },
{
    let cs = chars_of(entry);
    let t = trim_vec(&cs);
    let e = trim_end_char_vec(&t, ',');
    let colon = match find_vec(&e, ':') {
        Some(i) => i,
        None => return None,
    };
    let n = e.len();
    let before = sub_vec(&e, 0, colon);
    let after = sub_vec(&e, colon + 1, n);
    proof {
        assert(before@ =~= e@.take(colon as int));
        assert(after@ =~= e@.skip(colon + 1));
    }
    let time = trim_vec(&before);
    let value = trim_vec(&after);
    Some((text_of(&time), text_of(&value)))
}

} // verus!

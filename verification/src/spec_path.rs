//! Variant-qualified spec paths used for composed opinion provenance.
//!
//! These paths are not the same as concrete prim namespace paths. They can
//! carry variant selections and property suffixes while still resolving to a
//! concrete authored prim site.

use vstd::prelude::*;

use crate::interner::{interned, interned_all, lemma_token_id_index_injective, TokenId, TokenInterner};
use crate::path::{extends, lemma_names_tokens_extend, Path, PathId, PathInterner, PathError};
use crate::text::{char_from, chars_of, lemma_char_from_bounds, string_from_chars};

verus! {

/// A single spec-path component.
#[derive(Clone, Copy, Debug, PartialEq, Eq, Hash, PartialOrd, Ord, Structural)]
pub enum SpecComponent {
    /// A concrete prim namespace segment.
    Prim(TokenId),
    /// A variant selection inserted after the preceding prim segment.
    VariantSelection {
        /// Variant set name.
        set: TokenId,
        /// Selected variant name.
        variant: TokenId,
    },
}

/// A variant-qualified spec path.
#[derive(Debug, PartialEq, Eq, Hash, PartialOrd, Ord)]
pub struct SpecPath {
    prim_path: PathId,
    components: Vec<SpecComponent>,
    property: Option<TokenId>,
}

/// Errors that can occur while parsing a [`SpecPath`].
#[derive(Clone, Copy, Debug, PartialEq, Eq, Structural)]
pub enum SpecPathError {
    /// Path is not absolute (doesn't start with `/`).
    NotAbsolute,
    /// Path contains an empty prim segment.
    EmptySegment,
    /// A variant selection was malformed.
    MalformedVariantSelection,
    /// Property suffix was present but empty.
    EmptyPropertyName,
    /// Underlying concrete prim path was invalid.
    InvalidPrimPath(PathError),
}

impl From<PathError> for SpecPathError {
    fn from(value: PathError) -> (r: Self)
        ensures
            r == SpecPathError::InvalidPrimPath(value),
    {
        SpecPathError::InvalidPrimPath(value)
    }
}

impl vstd::std_specs::convert::FromSpecImpl<PathError> for SpecPathError {
    open spec fn obeys_from_spec() -> bool {
        true
    }

    open spec fn from_spec(v: PathError) -> Self {
        SpecPathError::InvalidPrimPath(v)
    }
}

/// A component read from spec-path text, before interning.
pub enum SpecPiece {
    /// A prim segment name.
    Segment(Seq<char>),
    /// A variant selection `{set=variant}`.
    Selection(Seq<char>, Seq<char>),
}

/// The components read from spec-path text and its property suffix.
pub type SpecScan = Result<(Seq<SpecPiece>, Option<Seq<char>>), SpecPathError>;

/// `true` for the characters that end a prim segment.
pub open spec fn ends_segment(c: char) -> bool {
    c == '/' || c == '{' || c == '.'
}

/// The first index at or after `i` holding a segment terminator, or
/// `s.len()` if none.
pub open spec fn segment_end(s: Seq<char>, i: int) -> int
    decreases s.len() - i,
{
    if i < 0 || i >= s.len() {
        s.len() as int
    } else if ends_segment(s[i]) {
        i
    } else {
        segment_end(s, i + 1)
    }
}

/// `segment_end` lies between `i` and the length.
pub proof fn lemma_segment_end_bounds(s: Seq<char>, i: int)
    requires
        0 <= i <= s.len(),
    ensures
        i <= segment_end(s, i) <= s.len(),
    decreases s.len() - i,
{
    if i < s.len() && !ends_segment(s[i]) {
        lemma_segment_end_bounds(s, i + 1);
    }
}

/// Puts `p` in front of the components of a scan result.
pub open spec fn prepend_piece(p: SpecPiece, r: SpecScan) -> SpecScan {
    match r {
        Ok((ps, prop)) => Ok((seq![p] + ps, prop)),
        Err(e) => Err(e),
    }
}

/// Puts `ps` in front of the components of a scan result.
pub open spec fn prepend_pieces(ps: Seq<SpecPiece>, r: SpecScan) -> SpecScan {
    match r {
        Ok((qs, prop)) => Ok((ps + qs, prop)),
        Err(e) => Err(e),
    }
}

/// Reads spec-path text from index `i`: `/` separates segments (a `/` right
/// after another `/`, or ending the text, leaves an empty prim segment and is
/// an error), `{set=variant}`
/// is a variant selection (set runs to the first `=`, variant to the next
/// `}`), `.` starts the property suffix (the rest of the text), and any other
/// run of characters up to `/`, `{` or `.` is a prim segment.
pub open spec fn scan_spec_path(s: Seq<char>, i: int) -> SpecScan
    decreases s.len() - i,
{
    if i < 0 || i >= s.len() {
        Ok((Seq::empty(), None))
    } else if s[i] == '/' {
        if i + 1 >= s.len() || (i >= 1 && s[i - 1] == '/') {
            Err(SpecPathError::EmptySegment)
        } else {
            scan_spec_path(s, i + 1)
        }
    } else if s[i] == '{' {
        let e = char_from(s, i + 1, '=');
        if e >= s.len() {
            Err(SpecPathError::MalformedVariantSelection)
        } else {
            let v = char_from(s, e + 1, '}');
            if v >= s.len() {
                Err(SpecPathError::MalformedVariantSelection)
            } else {
                proof {
                    lemma_char_from_bounds(s, i + 1, '=');
                    lemma_char_from_bounds(s, e + 1, '}');
                }
                prepend_piece(
                    SpecPiece::Selection(s.subrange(i + 1, e), s.subrange(e + 1, v)),
                    scan_spec_path(s, v + 1),
                )
            }
        }
    } else if s[i] == '.' {
        if i + 1 >= s.len() {
            Err(SpecPathError::EmptyPropertyName)
        } else {
            Ok((Seq::empty(), Some(s.subrange(i + 1, s.len() as int))))
        }
    } else {
        let e = segment_end(s, i);
        proof {
            lemma_segment_end_bounds(s, i + 1);
        }
        prepend_piece(SpecPiece::Segment(s.subrange(i, e)), scan_spec_path(s, e))
    }
}

/// The result of reading a whole spec-path text.
pub open spec fn parse_spec_path_text(s: Seq<char>) -> SpecScan {
    if s.len() > 0 && s[0] == '/' {
        scan_spec_path(s, 1)
    } else {
        Err(SpecPathError::NotAbsolute)
    }
}

/// The names a scan from index `i` interns, in order: the set and variant
/// of each selection, each segment name, and the property name; a scan that
/// fails interns the names read before the failure.
pub open spec fn scanned_names(s: Seq<char>, i: int) -> Seq<Seq<char>>
    decreases s.len() - i,
{
    if i < 0 || i >= s.len() {
        Seq::empty()
    } else if s[i] == '/' {
        if i + 1 >= s.len() || (i >= 1 && s[i - 1] == '/') {
            Seq::empty()
        } else {
            scanned_names(s, i + 1)
        }
    } else if s[i] == '{' {
        let e = char_from(s, i + 1, '=');
        if e >= s.len() {
            Seq::empty()
        } else {
            let v = char_from(s, e + 1, '}');
            if v >= s.len() {
                Seq::empty()
            } else {
                proof {
                    lemma_char_from_bounds(s, i + 1, '=');
                    lemma_char_from_bounds(s, e + 1, '}');
                }
                seq![s.subrange(i + 1, e), s.subrange(e + 1, v)] + scanned_names(s, v + 1)
            }
        }
    } else if s[i] == '.' {
        if i + 1 >= s.len() {
            Seq::empty()
        } else {
            seq![s.subrange(i + 1, s.len() as int)]
        }
    } else {
        let e = segment_end(s, i);
        proof {
            lemma_segment_end_bounds(s, i + 1);
        }
        seq![s.subrange(i, e)] + scanned_names(s, e)
    }
}

/// The names reading a whole spec-path text interns, in order.
pub open spec fn spec_path_names(s: Seq<char>) -> Seq<Seq<char>> {
    if s.len() > 0 && s[0] == '/' {
        scanned_names(s, 1)
    } else {
        Seq::empty()
    }
}

/// `true` when the component names `piece` under `tokens`.
pub open spec fn component_names(tokens: Seq<Seq<char>>, c: SpecComponent, piece: SpecPiece) -> bool {
    match (c, piece) {
        (SpecComponent::Prim(t), SpecPiece::Segment(n)) => 0 <= t.index() < tokens.len()
            && tokens[t.index()] == n,
        (SpecComponent::VariantSelection { set, variant }, SpecPiece::Selection(a, b)) => 0
            <= set.index() < tokens.len() && tokens[set.index()] == a && 0 <= variant.index()
            < tokens.len() && tokens[variant.index()] == b,
        _ => false,
    }
}

/// `true` when the components name the pieces one for one.
pub open spec fn components_name(
    tokens: Seq<Seq<char>>,
    cs: Seq<SpecComponent>,
    pieces: Seq<SpecPiece>,
) -> bool {
    &&& cs.len() == pieces.len()
    &&& forall|k: int| 0 <= k < cs.len() ==> component_names(tokens, #[trigger] cs[k], pieces[k])
}

/// The prim segment tokens among the components, in order.
pub open spec fn prim_tokens(cs: Seq<SpecComponent>) -> Seq<TokenId>
    decreases cs.len(),
{
    if cs.len() == 0 {
        Seq::empty()
    } else {
        match cs.last() {
            SpecComponent::Prim(t) => prim_tokens(cs.drop_last()).push(t),
            _ => prim_tokens(cs.drop_last()),
        }
    }
}

/// Component names stay valid when the interner grows.
pub proof fn lemma_components_name_extend(
    t1: Seq<Seq<char>>,
    t2: Seq<Seq<char>>,
    cs: Seq<SpecComponent>,
    pieces: Seq<SpecPiece>,
)
    requires
        components_name(t1, cs, pieces),
        extends(t2, t1),
    ensures
        components_name(t2, cs, pieces),
{
    assert forall|k: int| 0 <= k < cs.len() implies component_names(t2, #[trigger] cs[k], pieces[k]) by {
        assert(component_names(t1, cs[k], pieces[k]));
        match cs[k] {
            SpecComponent::Prim(t) => {
                assert(t2.subrange(0, t1.len() as int)[t.index()] == t2[t.index()]);
            },
            SpecComponent::VariantSelection { set, variant } => {
                assert(t2.subrange(0, t1.len() as int)[set.index()] == t2[set.index()]);
                assert(t2.subrange(0, t1.len() as int)[variant.index()] == t2[variant.index()]);
            },
        }
    }
}


/// The text of a component list: `/` first, `/` between consecutive prim
/// segments, and `{set=variant}` for each variant selection.
pub open spec fn components_text(tokens: Seq<Seq<char>>, cs: Seq<SpecComponent>) -> Seq<char>
    decreases cs.len(),
{
    if cs.len() == 0 {
        seq!['/']
    } else {
        let prev = components_text(tokens, cs.drop_last());
        match cs.last() {
            SpecComponent::Prim(t) => if cs.len() >= 2 && cs[cs.len() - 2] is Prim {
                prev + seq!['/'] + tokens[t.index()]
            } else {
                prev + tokens[t.index()]
            },
            SpecComponent::VariantSelection { set, variant } => prev + seq!['{'] + tokens[set.index()]
                + seq!['='] + tokens[variant.index()] + seq!['}'],
        }
    }
}

/// The text of a spec path: its components, then `.property` if any.
pub open spec fn spec_path_text(
    tokens: Seq<Seq<char>>,
    cs: Seq<SpecComponent>,
    prop: Option<TokenId>,
) -> Seq<char> {
    components_text(tokens, cs) + match prop {
        Some(t) => seq!['.'] + tokens[t.index()],
        None => Seq::empty(),
    }
}

/// `true` when every token of the components and property is interned.
pub open spec fn spec_path_resolvable(
    tokens: Seq<Seq<char>>,
    cs: Seq<SpecComponent>,
    prop: Option<TokenId>,
) -> bool {
    &&& forall|k: int|
        0 <= k < cs.len() ==> match #[trigger] cs[k] {
            SpecComponent::Prim(t) => 0 <= t.index() < tokens.len(),
            SpecComponent::VariantSelection { set, variant } => 0 <= set.index() < tokens.len() && 0
                <= variant.index() < tokens.len(),
        }
    &&& (prop matches Some(t) ==> 0 <= t.index() < tokens.len())
}

/// The components naming the prim segments `ts`.
pub open spec fn prims_of(ts: Seq<TokenId>) -> Seq<SpecComponent> {
    ts.map_values(|t: TokenId| SpecComponent::Prim(t))
}

/// The components naming variant selections `(set, variant)`.
pub open spec fn selections_of(sel: Seq<(TokenId, TokenId)>) -> Seq<SpecComponent> {
    sel.map_values(|p: (TokenId, TokenId)| SpecComponent::VariantSelection { set: p.0, variant: p.1 })
}

/// Appends the characters of `s` to `out`.
fn push_str_chars(out: &mut Vec<char>, s: &str)
    ensures
        final(out)@ == old(out)@ + s@,
{
    let cs = chars_of(s);
    let n = cs.len();
    let mut i: usize = 0;
    while i < n
        invariant
            n == cs@.len(),
            cs@ == s@,
            i <= n,
            out@ == old(out)@ + cs@.take(i as int),
        decreases n - i,
    {
        out.push(cs[i]);
        proof {
            assert(cs@.take(i + 1) =~= cs@.take(i as int).push(cs@[i as int]));
        }
        i = i + 1;
    }
    proof {
        assert(cs@.take(n as int) =~= cs@);
    }
}

/// Appends `Prim` components for each token of `ts`.
fn push_prims(out: &mut Vec<SpecComponent>, ts: &[TokenId])
    ensures
        final(out)@ == old(out)@ + prims_of(ts@),
{
    let n = ts.len();
    let mut i: usize = 0;
    while i < n
        invariant
            n == ts@.len(),
            i <= n,
            out@ == old(out)@ + prims_of(ts@.take(i as int)),
        decreases n - i,
    {
        out.push(SpecComponent::Prim(ts[i]));
        proof {
            assert(prims_of(ts@.take(i + 1)) =~= prims_of(ts@.take(i as int)).push(
                SpecComponent::Prim(ts@[i as int]),
            ));
        }
        i = i + 1;
    }
    proof {
        assert(ts@.take(n as int) =~= ts@);
    }
}

/// The first index at or after `i` holding `c`, or the length if none.
fn find_from(cs: &Vec<char>, i: usize, c: char) -> (r: usize)
    requires
        i <= cs@.len(),
    ensures
        r == char_from(cs@, i as int, c),
        i <= r <= cs@.len(),
{
    let len = cs.len();
    let mut j = i;
    while j < len && cs[j] != c
        invariant
            i <= j <= len,
            len == cs@.len(),
            char_from(cs@, i as int, c) == char_from(cs@, j as int, c),
        decreases len - j,
    {
        j = j + 1;
    }
    j
}

/// The first index at or after `i` ending a prim segment, or the length.
fn segment_end_from(cs: &Vec<char>, i: usize) -> (r: usize)
    requires
        i < cs@.len(),
        !ends_segment(cs@[i as int]),
    ensures
        r == segment_end(cs@, i as int),
        i < r <= cs@.len(),
{
    let len = cs.len();
    let mut j = i + 1;
    while j < len && cs[j] != '/' && cs[j] != '{' && cs[j] != '.'
        invariant
            i < j <= len,
            len == cs@.len(),
            segment_end(cs@, i as int) == segment_end(cs@, j as int),
        decreases len - j,
    {
        j = j + 1;
    }
    j
}

/// `extends` is transitive.
pub proof fn lemma_extends_trans<T>(a: Seq<T>, b: Seq<T>, c: Seq<T>)
    requires
        extends(a, b),
        extends(b, c),
    ensures
        extends(a, c),
{
    assert(a.subrange(0, c.len() as int) =~= b.subrange(0, c.len() as int));
}

/// An extension keeps the elements of what it extends.
pub proof fn lemma_extends_index<T>(a: Seq<T>, b: Seq<T>, k: int)
    requires
        extends(a, b),
        0 <= k < b.len(),
    ensures
        a[k] == b[k],
{
    assert(a.subrange(0, b.len() as int)[k] == a[k]);
}

/// An error passes through any leading components.
pub proof fn lemma_prepend_err(ps: Seq<SpecPiece>, e: SpecPathError)
    ensures
        prepend_pieces(ps, Err(e)) == Err::<(Seq<SpecPiece>, Option<Seq<char>>), SpecPathError>(e),
{
}

/// Moving one piece from the front of a result to the end of the prefix.
pub proof fn lemma_prepend_push(ps: Seq<SpecPiece>, p: SpecPiece, r: SpecScan)
    ensures
        prepend_pieces(ps, prepend_piece(p, r)) == prepend_pieces(ps.push(p), r),
{
    match r {
        Ok((qs, pr)) => {
            assert(ps + (seq![p] + qs) =~= ps.push(p) + qs);
        },
        Err(e) => {},
    }
}

/// Appending a matching component keeps the naming relation.
pub proof fn lemma_components_push(
    tokens: Seq<Seq<char>>,
    cs: Seq<SpecComponent>,
    ps: Seq<SpecPiece>,
    c: SpecComponent,
    p: SpecPiece,
)
    requires
        components_name(tokens, cs, ps),
        component_names(tokens, c, p),
    ensures
        components_name(tokens, cs.push(c), ps.push(p)),
{
    assert forall|k: int| 0 <= k < cs.push(c).len() implies component_names(
        tokens,
        #[trigger] cs.push(c)[k],
        ps.push(p)[k],
    ) by {
        if k < cs.len() {
            assert(cs.push(c)[k] == cs[k]);
            assert(ps.push(p)[k] == ps[k]);
        }
    }
}

/// Interns `cs[start..end]` as a token.
fn intern_range(cs: &Vec<char>, start: usize, end: usize, tokens: &mut TokenInterner) -> (r: TokenId)
    requires
        start <= end <= cs@.len(),
        old(tokens)@.len() < u32::MAX,
    ensures
        final(tokens).contains_id(r),
        final(tokens)@[r.index()] == cs@.subrange(start as int, end as int),
        extends(final(tokens)@, old(tokens)@),
        final(tokens)@.len() <= old(tokens)@.len() + 1,
        final(tokens)@ == interned(old(tokens)@, cs@.subrange(start as int, end as int)),
{
    let mut piece: Vec<char> = Vec::new();
    let mut j = start;
    while j < end
        invariant
            start <= j <= end,
            end <= cs@.len(),
            piece@ == cs@.subrange(start as int, j as int),
        decreases end - j,
    {
        piece.push(cs[j]);
        proof {
            assert(cs@.subrange(start as int, j + 1) =~= cs@.subrange(start as int, j as int).push(
                cs@[j as int],
            ));
        }
        j = j + 1;
    }
    let name = string_from_chars(piece.as_slice());
    let r = tokens.intern(name.as_str());
    proof {
        assert(final(tokens)@.subrange(0, old(tokens)@.len() as int) =~= old(tokens)@);
    }
    r
}

impl Clone for SpecPath {
    fn clone(&self) -> (r: Self)
        ensures
            r.prim() == self.prim(),
            r.comps() == self.comps(),
            r.prop() == self.prop(),
    {
        let components = self.components.clone();
        proof {
            assert(components@ =~= self.components@);
        }
        SpecPath { prim_path: self.prim_path, components, property: self.property }
    }
}

impl SpecPath {
    /// Builds a plain prim spec path from a concrete prim path.
    pub fn from_prim_path(prim_path: PathId, paths: &PathInterner) -> (r: Self)
        requires
            paths.contains_id(prim_path),
        ensures
            r.prim() == prim_path,
            r.comps() == prims_of(paths@[prim_path.index()]),
            r.prop() is None,
    {
        let mut components: Vec<SpecComponent> = Vec::new();
        push_prims(&mut components, paths.resolve(prim_path).segments());
        proof {
            assert(components@ =~= prims_of(paths@[prim_path.index()]));
        }
        SpecPath { prim_path, components, property: None }
    }

    /// Builds a variant-qualified spec path by inserting `selections` after
    /// `variant_host` in `prim_path`; `variant_host` must be equal to or a
    /// prefix of `prim_path`.
    pub fn from_variant_qualified_prim_path(
        prim_path: PathId,
        variant_host: PathId,
        selections: &[(TokenId, TokenId)],
        paths: &PathInterner,
    ) -> (r: Self)
        requires
            paths.contains_id(prim_path),
            paths.contains_id(variant_host),
            extends(paths@[prim_path.index()], paths@[variant_host.index()]),
        ensures
            r.prim() == prim_path,
            r.comps() == prims_of(paths@[variant_host.index()]) + selections_of(selections@)
                + prims_of(
                paths@[prim_path.index()].subrange(
                    paths@[variant_host.index()].len() as int,
                    paths@[prim_path.index()].len() as int,
                ),
            ),
            r.prop() is None,
    {
        let prim = paths.resolve(prim_path);
        let host = paths.resolve(variant_host);
        let remainder = match prim.strip_prefix(host) {
            Some(rest) => rest,
            None => {
                proof {
                    assert(false);
                }
                host.segments()
            },
        };
        let mut components: Vec<SpecComponent> = Vec::new();
        push_prims(&mut components, host.segments());
        let n = selections.len();
        let ghost base = components@;
        let mut i: usize = 0;
        while i < n
            invariant
                n == selections@.len(),
                i <= n,
                components@ == base + selections_of(selections@.take(i as int)),
            decreases n - i,
        {
            let (set, variant) = selections[i];
            components.push(SpecComponent::VariantSelection { set, variant });
            proof {
                assert(selections_of(selections@.take(i + 1)) =~= selections_of(
                    selections@.take(i as int),
                ).push(SpecComponent::VariantSelection { set, variant }));
            }
            i = i + 1;
        }
        proof {
            assert(selections@.take(n as int) =~= selections@);
        }
        push_prims(&mut components, remainder);
        SpecPath { prim_path, components, property: None }
    }

    /// Returns the concrete prim path used to look up authored data.
    pub fn prim_path(&self) -> (r: PathId)
        ensures
            r == self.prim(),
    {
        self.prim_path
    }

    /// Returns the property suffix, if any.
    pub fn property(&self) -> (r: Option<TokenId>)
        ensures
            r == self.prop(),
    {
        self.property
    }

    /// Returns the structured components.
    pub fn components(&self) -> (r: &[SpecComponent])
        ensures
            r@ == self.comps(),
    {
        self.components.as_slice()
    }

    /// Returns a copy of this path with a property suffix attached.
    pub fn with_property(&self, property: TokenId) -> (r: Self)
        ensures
            r.prim() == self.prim(),
            r.comps() == self.comps(),
            r.prop() == Some(property),
    {
        let mut out = self.clone();
        out.property = Some(property);
        out
    }

    /// Formats this path in spec-path syntax, e.g. `/A{v=red}B/C.attr`.
    pub fn display(&self, tokens: &TokenInterner) -> (r: String)
        requires
            spec_path_resolvable(tokens@, self.comps(), self.prop()),
        ensures
            r@ == spec_path_text(tokens@, self.comps(), self.prop()),
    {
        let mut out: Vec<char> = Vec::new();
        out.push('/');
        let mut need_slash = false;
        let n = self.components.len();
        let mut i: usize = 0;
        while i < n
            invariant
                n == self.components@.len(),
                i <= n,
                spec_path_resolvable(tokens@, self.components@, self.property),
                out@ == components_text(tokens@, self.components@.take(i as int)),
                need_slash == (i > 0 && self.components@[i - 1] is Prim),
            decreases n - i,
        {
            let ghost cs = self.components@.take(i + 1);
            proof {
                assert(cs.drop_last() =~= self.components@.take(i as int));
                assert(cs.last() == self.components@[i as int]);
                if i > 0 {
                    assert(cs[cs.len() - 2] == self.components@[i - 1]);
                }
                assert(self.components@.take(0) =~= Seq::<SpecComponent>::empty());
            }
            match self.components[i] {
                SpecComponent::Prim(segment) => {
                    if need_slash {
                        out.push('/');
                    }
                    push_str_chars(&mut out, tokens.resolve(segment));
                    need_slash = true;
                },
                SpecComponent::VariantSelection { set, variant } => {
                    out.push('{');
                    push_str_chars(&mut out, tokens.resolve(set));
                    out.push('=');
                    push_str_chars(&mut out, tokens.resolve(variant));
                    out.push('}');
                    need_slash = false;
                },
            }
            i = i + 1;
        }
        proof {
            assert(self.components@.take(n as int) =~= self.components@);
        }
        if let Some(property) = self.property {
            out.push('.');
            push_str_chars(&mut out, tokens.resolve(property));
        }
        string_from_chars(out.as_slice())
    }

    /// The concrete prim path.
    pub closed spec fn prim(&self) -> PathId {
        self.prim_path
    }

    /// The structured components.
    pub closed spec fn comps(&self) -> Seq<SpecComponent> {
        self.components@
    }

    /// The property suffix.
    pub closed spec fn prop(&self) -> Option<TokenId> {
        self.property
    }

    /// Parses a spec path like `/A{v=red}B/C.attr`, interning every name and
    /// the concrete prim path (the prim segments in order).
    pub fn parse(s: &str, tokens: &mut TokenInterner, paths: &mut PathInterner) -> (r: Result<
        Self,
        SpecPathError,
    >)
        requires
            old(tokens)@.len() + s@.len() < u32::MAX,
            old(paths)@.len() < u32::MAX,
        ensures
            extends(final(tokens)@, old(tokens)@),
            extends(final(paths)@, old(paths)@),
            final(tokens)@ == interned_all(old(tokens)@, spec_path_names(s@)),
            final(tokens)@.len() <= old(tokens)@.len() + s@.len(),
            r is Err ==> final(paths)@ == old(paths)@,
            r is Err <==> parse_spec_path_text(s@) is Err,
            r matches Err(e) ==> parse_spec_path_text(s@) == Err::<(Seq<SpecPiece>, Option<Seq<char>>), SpecPathError>(e),
            r matches Ok(sp) ==> (parse_spec_path_text(s@) matches Ok((pieces, prop)) && {
                &&& components_name(final(tokens)@, sp.comps(), pieces)
                &&& (prop is None <==> sp.prop() is None)
                &&& (sp.prop() matches Some(t) ==> final(tokens).contains_id(t) && final(tokens)@[t.index()] == prop->0)
                &&& final(paths).contains_id(sp.prim())
                &&& final(paths)@[sp.prim().index()] == prim_tokens(sp.comps())
                &&& final(paths)@ == interned(old(paths)@, prim_tokens(sp.comps()))
            }),
    {
        proof {
            assert(old(tokens)@.subrange(0, old(tokens)@.len() as int) =~= old(tokens)@);
            assert(old(paths)@.subrange(0, old(paths)@.len() as int) =~= old(paths)@);
        }
        let cs = chars_of(s);
        let len = cs.len();
        if len == 0 || cs[0] != '/' {
            return Err(SpecPathError::NotAbsolute);
        }
        let mut components: Vec<SpecComponent> = Vec::new();
        let mut prim_segments: Vec<TokenId> = Vec::new();
        let mut property: Option<TokenId> = None;
        let mut idx: usize = 1;
        let ghost mut pieces: Seq<SpecPiece> = Seq::empty();
        let ghost mut rest: SpecScan = scan_spec_path(cs@, 1);
        let ghost mut names: Seq<Seq<char>> = Seq::empty();
        while idx < len
            invariant
                tokens@ == interned_all(old(tokens)@, names),
                scanned_names(cs@, 1) == names + (if property is None {
                    scanned_names(cs@, idx as int)
                } else {
                    Seq::<Seq<char>>::empty()
                }),
                1 <= idx <= len,
                len == cs@.len(),
                cs@ == s@,
                cs@[0] == '/',
                old(tokens)@.len() + len < u32::MAX,
                scan_spec_path(cs@, 1) == prepend_pieces(pieces, rest),
                property is None ==> rest == scan_spec_path(cs@, idx as int),
                property matches Some(t) ==> (idx == len && tokens.contains_id(t) && (rest matches Ok((ps, Some(pn))) && ps.len() == 0 && tokens@[t.index()] == pn)),
                components_name(tokens@, components@, pieces),
                prim_segments@ == prim_tokens(components@),
                extends(tokens@, old(tokens)@),
                tokens@.len() <= old(tokens)@.len() + idx,
                paths@ == old(paths)@,
                old(paths)@.subrange(0, old(paths)@.len() as int) == old(paths)@,
            decreases len - idx,
        {
            let c = cs[idx];
            let ghost t0 = tokens@;
            let ghost cbefore = components@;
            if c == '/' {
                if idx + 1 >= len || cs[idx - 1] == '/' {
                    proof {
                        assert(rest == scan_spec_path(cs@, idx as int));
                        assert(rest == Err::<(Seq<SpecPiece>, Option<Seq<char>>), SpecPathError>(SpecPathError::EmptySegment));
                        lemma_prepend_err(pieces, SpecPathError::EmptySegment);
                        assert(names + Seq::<Seq<char>>::empty() =~= names);
                    }
                    return Err(SpecPathError::EmptySegment);
                }
                proof {
                    assert(scan_spec_path(cs@, idx as int) == scan_spec_path(cs@, idx + 1));
                }
                idx = idx + 1;
            } else if c == '{' {
                let open = idx;
                let eq = find_from(&cs, idx + 1, '=');
                if eq == len {
                    proof {
                        assert(rest == scan_spec_path(cs@, open as int));
                        assert(rest == Err::<(Seq<SpecPiece>, Option<Seq<char>>), SpecPathError>(SpecPathError::MalformedVariantSelection));
                        lemma_prepend_err(pieces, SpecPathError::MalformedVariantSelection);
                        assert(names + Seq::<Seq<char>>::empty() =~= names);
                    }
                    return Err(SpecPathError::MalformedVariantSelection);
                }
                let close = find_from(&cs, eq + 1, '}');
                if close == len {
                    proof {
                        assert(rest == scan_spec_path(cs@, open as int));
                        assert(rest == Err::<(Seq<SpecPiece>, Option<Seq<char>>), SpecPathError>(SpecPathError::MalformedVariantSelection));
                        lemma_prepend_err(pieces, SpecPathError::MalformedVariantSelection);
                        assert(names + Seq::<Seq<char>>::empty() =~= names);
                    }
                    return Err(SpecPathError::MalformedVariantSelection);
                }
                let set = intern_range(&cs, open + 1, eq, tokens);
                let ghost t1 = tokens@;
                let variant = intern_range(&cs, eq + 1, close, tokens);
                idx = close + 1;
                let ghost piece = SpecPiece::Selection(
                    cs@.subrange(open + 1, eq as int),
                    cs@.subrange(eq + 1, close as int),
                );
                components.push(SpecComponent::VariantSelection { set, variant });
                proof {
                    lemma_extends_trans(tokens@, t1, t0);
                    lemma_extends_trans(tokens@, t0, old(tokens)@);
                    lemma_extends_index(tokens@, t1, set.index());
                    lemma_components_name_extend(t0, tokens@, cbefore, pieces);
                    assert(components@.drop_last() =~= cbefore);
                    lemma_components_push(tokens@, cbefore, pieces, SpecComponent::VariantSelection { set, variant }, piece);
                    lemma_prepend_push(pieces, piece, scan_spec_path(cs@, idx as int));
                    pieces = pieces.push(piece);
                    rest = scan_spec_path(cs@, idx as int);
                    let a = cs@.subrange(open + 1, eq as int);
                    let b = cs@.subrange(eq + 1, close as int);
                    assert(names.push(a).push(b).drop_last() =~= names.push(a));
                    assert(names.push(a).drop_last() =~= names);
                    assert(names + (seq![a, b] + scanned_names(cs@, idx as int)) =~= names.push(a).push(b)
                        + scanned_names(cs@, idx as int));
                    assert(interned_all(old(tokens)@, names.push(a)) == interned(
                        interned_all(old(tokens)@, names),
                        a,
                    ));
                    assert(interned_all(old(tokens)@, names.push(a).push(b)) == interned(
                        interned_all(old(tokens)@, names.push(a)),
                        b,
                    ));
                    names = names.push(a).push(b);
                }
            } else if c == '.' {
                if idx + 1 >= len {
                    proof {
                        assert(rest == scan_spec_path(cs@, idx as int));
                        assert(rest == Err::<(Seq<SpecPiece>, Option<Seq<char>>), SpecPathError>(SpecPathError::EmptyPropertyName));
                        lemma_prepend_err(pieces, SpecPathError::EmptyPropertyName);
                        assert(names + Seq::<Seq<char>>::empty() =~= names);
                    }
                    return Err(SpecPathError::EmptyPropertyName);
                }
                let t = intern_range(&cs, idx + 1, len, tokens);
                proof {
                    lemma_components_name_extend(t0, tokens@, components@, pieces);
                    lemma_extends_trans(tokens@, t0, old(tokens)@);
                }
                proof {
                    let pn = cs@.subrange(idx + 1, len as int);
                    assert(names.push(pn).drop_last() =~= names);
                    assert(names + seq![pn] =~= names.push(pn) + Seq::<Seq<char>>::empty());
                    assert(interned_all(old(tokens)@, names.push(pn)) == interned(
                        interned_all(old(tokens)@, names),
                        pn,
                    ));
                    names = names.push(pn);
                }
                property = Some(t);
                idx = len;
            } else {
                let start = idx;
                let end = segment_end_from(&cs, idx);
                let token = intern_range(&cs, start, end, tokens);
                idx = end;
                let ghost piece = SpecPiece::Segment(cs@.subrange(start as int, end as int));
                prim_segments.push(token);
                components.push(SpecComponent::Prim(token));
                proof {
                    lemma_components_name_extend(t0, tokens@, cbefore, pieces);
                    lemma_extends_trans(tokens@, t0, old(tokens)@);
                    assert(components@.drop_last() =~= cbefore);
                    assert(prim_tokens(components@) == prim_tokens(cbefore).push(token));
                    lemma_components_push(tokens@, cbefore, pieces, SpecComponent::Prim(token), piece);
                    lemma_prepend_push(pieces, piece, scan_spec_path(cs@, idx as int));
                    pieces = pieces.push(piece);
                    rest = scan_spec_path(cs@, idx as int);
                    let nm = cs@.subrange(start as int, end as int);
                    assert(names.push(nm).drop_last() =~= names);
                    assert(names + (seq![nm] + scanned_names(cs@, idx as int)) =~= names.push(nm)
                        + scanned_names(cs@, idx as int));
                    assert(interned_all(old(tokens)@, names.push(nm)) == interned(
                        interned_all(old(tokens)@, names),
                        nm,
                    ));
                    names = names.push(nm);
                }
            }
        }
        proof {
            if property is None {
                assert(scanned_names(cs@, idx as int) == Seq::<Seq<char>>::empty());
            }
            assert(names + Seq::<Seq<char>>::empty() =~= names);
        }
        let root = Path::root();
        let prim = root.join(prim_segments.as_slice());
        let prim_path = paths.intern(prim);
        proof {
            assert(paths@.subrange(0, old(paths)@.len() as int) =~= old(paths)@);
            match rest {
                Ok((qs, pr)) => {
                    if property is None {
                        assert(qs.len() == 0);
                    }
                    assert(pieces + qs =~= pieces);
                },
                Err(e) => {},
            }
        }
        Ok(SpecPath { prim_path, components, property })
    }
}

// ---------------------------------------------------------------------------
// Reading back displayed spec paths.
// ---------------------------------------------------------------------------

/// The text a piece adds after what precedes it; a segment that follows
/// another segment gets a `/` in front.
pub open spec fn piece_head(p: SpecPiece, after_segment: bool) -> Seq<char> {
    match p {
        SpecPiece::Segment(n) => if after_segment {
            seq!['/'] + n
        } else {
            n
        },
        SpecPiece::Selection(a, b) => seq!['{'] + a + seq!['='] + b + seq!['}'],
    }
}

/// The text of a run of pieces.
pub open spec fn pieces_run(ps: Seq<SpecPiece>, after_segment: bool) -> Seq<char>
    decreases ps.len(),
{
    if ps.len() == 0 {
        Seq::empty()
    } else {
        piece_head(ps[0], after_segment) + pieces_run(ps.drop_first(), ps[0] is Segment)
    }
}

/// The spec-path text of pieces and an optional property name.
pub open spec fn pieces_text(ps: Seq<SpecPiece>, prop: Option<Seq<char>>) -> Seq<char> {
    seq!['/'] + pieces_run(ps, false) + match prop {
        Some(n) => seq!['.'] + n,
        None => Seq::empty(),
    }
}

/// A piece whose names read back unchanged: a segment name is non-empty and
/// holds no `/`, `{` or `.`; a set name holds no `=`; a variant name no `}`.
pub open spec fn piece_plain(p: SpecPiece) -> bool {
    match p {
        SpecPiece::Segment(n) => n.len() > 0 && forall|k: int|
            0 <= k < n.len() ==> !ends_segment(#[trigger] n[k]),
        SpecPiece::Selection(a, b) => (forall|k: int| 0 <= k < a.len() ==> #[trigger] a[k] != '=')
            && (forall|k: int| 0 <= k < b.len() ==> #[trigger] b[k] != '}'),
    }
}

/// The piece a component names under `tokens`.
pub open spec fn component_piece(tokens: Seq<Seq<char>>, c: SpecComponent) -> SpecPiece {
    match c {
        SpecComponent::Prim(t) => SpecPiece::Segment(tokens[t.index()]),
        SpecComponent::VariantSelection { set, variant } => SpecPiece::Selection(
            tokens[set.index()],
            tokens[variant.index()],
        ),
    }
}

/// The pieces the components name under `tokens`.
pub open spec fn component_pieces(tokens: Seq<Seq<char>>, cs: Seq<SpecComponent>) -> Seq<SpecPiece> {
    cs.map_values(|c: SpecComponent| component_piece(tokens, c))
}

/// The name of an optional property token.
pub open spec fn prop_name(tokens: Seq<Seq<char>>, prop: Option<TokenId>) -> Option<Seq<char>> {
    match prop {
        Some(t) => Some(tokens[t.index()]),
        None => None,
    }
}

/// Whether the last piece of a run (or, for an empty run, what precedes it)
/// is a segment.
pub open spec fn ends_with_segment(ps: Seq<SpecPiece>, after_segment: bool) -> bool {
    if ps.len() == 0 {
        after_segment
    } else {
        ps.last() is Segment
    }
}

proof fn lemma_pieces_run_push(ps: Seq<SpecPiece>, p: SpecPiece, a: bool)
    ensures
        pieces_run(ps.push(p), a) == pieces_run(ps, a) + piece_head(p, ends_with_segment(ps, a)),
    decreases ps.len(),
{
    if ps.len() == 0 {
        let q = ps.push(p);
        assert(q[0] == p);
        assert(q.drop_first() =~= Seq::<SpecPiece>::empty());
        assert(pieces_run(q.drop_first(), p is Segment) == Seq::<char>::empty());
        assert(pieces_run(ps, a) == Seq::<char>::empty());
        assert(pieces_run(q, a) =~= Seq::<char>::empty() + piece_head(p, a));
    } else {
        assert(ps.push(p).drop_first() =~= ps.drop_first().push(p));
        lemma_pieces_run_push(ps.drop_first(), p, ps[0] is Segment);
        if ps.len() >= 2 {
            assert(ps.drop_first().last() == ps.last());
        }
        assert(piece_head(ps[0], a) + (pieces_run(ps.drop_first(), ps[0] is Segment) + piece_head(
            p,
            ends_with_segment(ps, a),
        )) =~= (piece_head(ps[0], a) + pieces_run(ps.drop_first(), ps[0] is Segment)) + piece_head(
            p,
            ends_with_segment(ps, a),
        ));
    }
}

/// The display text of components is the text of the pieces they name.
proof fn lemma_components_text_pieces(tokens: Seq<Seq<char>>, cs: Seq<SpecComponent>)
    ensures
        components_text(tokens, cs) == seq!['/'] + pieces_run(component_pieces(tokens, cs), false),
    decreases cs.len(),
{
    if cs.len() == 0 {
        assert(component_pieces(tokens, cs) =~= Seq::<SpecPiece>::empty());
        assert(seq!['/'] + Seq::<char>::empty() =~= seq!['/']);
    } else {
        let prev = cs.drop_last();
        lemma_components_text_pieces(tokens, prev);
        let pp = component_pieces(tokens, prev);
        let c = cs.last();
        assert(component_pieces(tokens, cs) =~= pp.push(component_piece(tokens, c)));
        lemma_pieces_run_push(pp, component_piece(tokens, c), false);
        if cs.len() >= 2 {
            assert(pp.last() == component_piece(tokens, cs[cs.len() - 2]));
        }
        match c {
            SpecComponent::Prim(t) => {
                if cs.len() >= 2 && cs[cs.len() - 2] is Prim {
                    assert(components_text(tokens, prev) + seq!['/'] + tokens[t.index()] =~= seq!['/']
                        + (pieces_run(pp, false) + (seq!['/'] + tokens[t.index()])));
                } else {
                    assert(components_text(tokens, prev) + tokens[t.index()] =~= seq!['/'] + (
                    pieces_run(pp, false) + tokens[t.index()]));
                }
            },
            SpecComponent::VariantSelection { set, variant } => {
                assert(components_text(tokens, prev) + seq!['{'] + tokens[set.index()] + seq!['=']
                    + tokens[variant.index()] + seq!['}'] =~= seq!['/'] + (pieces_run(pp, false) + (
                seq!['{'] + tokens[set.index()] + seq!['='] + tokens[variant.index()] + seq![
                    '}',
                ])));
            },
        }
    }
}

proof fn lemma_segment_end_at(s: Seq<char>, i: int, m: int)
    requires
        0 <= i <= m <= s.len(),
        forall|x: int| i <= x < m ==> !ends_segment(#[trigger] s[x]),
        m == s.len() || ends_segment(s[m]),
    ensures
        segment_end(s, i) == m,
    decreases m - i,
{
    if i < m {
        lemma_segment_end_at(s, i + 1, m);
    }
}

proof fn lemma_char_from_at(s: Seq<char>, i: int, m: int, c: char)
    requires
        0 <= i <= m < s.len(),
        forall|x: int| i <= x < m ==> #[trigger] s[x] != c,
        s[m] == c,
    ensures
        char_from(s, i, c) == m,
    decreases m - i,
{
    if i < m {
        lemma_char_from_at(s, i + 1, m, c);
    }
}

/// `prepend_pieces` of nothing changes nothing, and prepending twice
/// prepends the concatenation.
proof fn lemma_prepend_pieces(p: SpecPiece, ps: Seq<SpecPiece>, r: SpecScan)
    ensures
        prepend_pieces(Seq::empty(), r) == r,
        prepend_piece(p, prepend_pieces(ps, r)) == prepend_pieces(seq![p] + ps, r),
{
    match r {
        Ok((qs, prop)) => {
            assert(Seq::<SpecPiece>::empty() + qs =~= qs);
            assert(seq![p] + (ps + qs) =~= (seq![p] + ps) + qs);
        },
        Err(e) => {},
    }
}

/// Scanning the text of a run of plain pieces reads the pieces back.
proof fn lemma_scan_run(s: Seq<char>, i: int, ps: Seq<SpecPiece>, a: bool)
    requires
        0 <= i,
        i + pieces_run(ps, a).len() <= s.len(),
        s.subrange(i, i + pieces_run(ps, a).len()) == pieces_run(ps, a),
        forall|k: int| 0 <= k < ps.len() ==> piece_plain(#[trigger] ps[k]),
        a ==> (i >= 1 && s[i - 1] != '/'),
        ps.len() > 0 && ps.last() is Segment ==> (i + pieces_run(ps, a).len() == s.len() || ends_segment(
            s[i + pieces_run(ps, a).len()],
        )),
    ensures
        scan_spec_path(s, i) == prepend_pieces(ps, scan_spec_path(s, i + pieces_run(ps, a).len())),
    decreases ps.len(),
{
    let run = pieces_run(ps, a);
    let j = i + run.len();
    if ps.len() == 0 {
        lemma_prepend_pieces(SpecPiece::Segment(Seq::empty()), ps, scan_spec_path(s, j));
    } else {
        let rest = ps.drop_first();
        let head = piece_head(ps[0], a);
        let tail = pieces_run(rest, ps[0] is Segment);
        assert(run == head + tail);
        assert(forall|x: int| 0 <= x < head.len() ==> s[i + x] == #[trigger] head[x]) by {
            assert forall|x: int| 0 <= x < head.len() implies s[i + x] == #[trigger] head[x] by {
                assert(s.subrange(i, j)[x] == run[x]);
            }
        }
        let k = i + head.len();
        assert(s.subrange(k, k + tail.len()) =~= tail) by {
            assert forall|x: int| 0 <= x < tail.len() implies s.subrange(k, k + tail.len())[x]
                == tail[x] by {
                assert(s.subrange(i, j)[head.len() + x] == run[head.len() + x]);
            }
        }
        assert forall|q: int| 0 <= q < rest.len() implies piece_plain(#[trigger] rest[q]) by {
            assert(rest[q] == ps[q + 1]);
        }
        if rest.len() > 0 {
            assert(rest.last() == ps.last());
        }
        match ps[0] {
            SpecPiece::Segment(n) => {
                assert(piece_plain(ps[0]));
                let start = if a {
                    i + 1
                } else {
                    i
                };
                if a {
                    assert(s[i] == head[0]);
                    assert(s[i + 1] == head[1]);
                    assert(scan_spec_path(s, i) == scan_spec_path(s, i + 1));
                }
                assert(forall|x: int| 0 <= x < n.len() ==> s[start + x] == #[trigger] n[x]) by {
                    assert forall|x: int| 0 <= x < n.len() implies s[start + x] == #[trigger] n[x] by {
                        if a {
                            assert(head[1 + x] == n[x]);
                            assert(s[i + (1 + x)] == head[1 + x]);
                        } else {
                            assert(s[i + x] == head[x]);
                        }
                    }
                }
                assert(start + n.len() == k);
                assert forall|x: int| start <= x < k implies !ends_segment(#[trigger] s[x]) by {
                    assert(s[start + (x - start)] == n[x - start]);
                }
                if rest.len() > 0 {
                    assert(tail == piece_head(rest[0], true) + pieces_run(rest.drop_first(), rest[0] is Segment));
                    assert(s[k] == tail[0]);
                    match rest[0] {
                        SpecPiece::Segment(_) => {
                            assert(tail[0] == '/');
                        },
                        SpecPiece::Selection(_, _) => {
                            assert(tail[0] == '{');
                        },
                    }
                } else {
                    assert(j == k);
                }
                lemma_segment_end_at(s, start, k);
                assert(s[start] == n[0]);
                assert(s.subrange(start, k) =~= n);
                assert(s[k - 1] == n[n.len() - 1]) by {
                    assert(s[start + (n.len() - 1)] == n[n.len() - 1]);
                }
                lemma_scan_run(s, k, rest, true);
                lemma_prepend_pieces(ps[0], rest, scan_spec_path(s, j));
                assert(seq![ps[0]] + rest =~= ps);
            },
            SpecPiece::Selection(x, y) => {
                assert(piece_plain(ps[0]));
                assert(s[i] == head[0]);
                assert(head[0] == '{');
                let e = i + 1 + x.len();
                let v = e + 1 + y.len();
                assert(v + 1 == k);
                assert forall|q: int| i + 1 <= q < e implies #[trigger] s[q] != '=' by {
                    assert(s[i + (q - i)] == head[q - i]);
                    assert(head[q - i] == x[q - i - 1]);
                }
                assert(s[i + (e - i)] == head[e - i]);
                assert(s[e] == '=');
                lemma_char_from_at(s, i + 1, e, '=');
                assert forall|q: int| e + 1 <= q < v implies #[trigger] s[q] != '}' by {
                    assert(s[i + (q - i)] == head[q - i]);
                    assert(head[q - i] == y[q - e - 1]);
                }
                assert(s[i + (v - i)] == head[v - i]);
                assert(s[v] == '}');
                lemma_char_from_at(s, e + 1, v, '}');
                assert(s.subrange(i + 1, e) =~= x) by {
                    assert forall|q: int| 0 <= q < x.len() implies s.subrange(i + 1, e)[q] == x[q] by {
                        assert(s[i + (1 + q)] == head[1 + q]);
                    }
                }
                assert(s.subrange(e + 1, v) =~= y) by {
                    assert forall|q: int| 0 <= q < y.len() implies s.subrange(e + 1, v)[q] == y[q] by {
                        assert(s[i + (x.len() + 2 + q)] == head[x.len() + 2 + q]);
                    }
                }
                lemma_scan_run(s, k, rest, false);
                lemma_prepend_pieces(ps[0], rest, scan_spec_path(s, j));
                assert(seq![ps[0]] + rest =~= ps);
            },
        }
    }
}

/// Reading the display text of a spec path gives back the names of its
/// components and of its property, whenever every prim name is non-empty
/// and free of `/`, `{` and `.`, no variant set name holds `=`, no variant
/// name holds `}`, and a property name is non-empty.
pub proof fn law_parse_display_round_trip(
    tokens: Seq<Seq<char>>,
    cs: Seq<SpecComponent>,
    prop: Option<TokenId>,
)
    requires
        forall|k: int| 0 <= k < cs.len() ==> piece_plain(#[trigger] component_piece(tokens, cs[k])),
        prop matches Some(t) ==> tokens[t.index()].len() > 0,
    ensures
        parse_spec_path_text(spec_path_text(tokens, cs, prop)) == Ok::<
            (Seq<SpecPiece>, Option<Seq<char>>),
            SpecPathError,
        >((component_pieces(tokens, cs), prop_name(tokens, prop))),
        spec_path_resolvable(tokens, cs, prop) ==> components_name(
            tokens,
            cs,
            component_pieces(tokens, cs),
        ),
{
    let ps = component_pieces(tokens, cs);
    if spec_path_resolvable(tokens, cs, prop) {
        assert forall|k: int| 0 <= k < cs.len() implies component_names(
            tokens,
            #[trigger] cs[k],
            component_pieces(tokens, cs)[k],
        ) by {
            match cs[k] {
                SpecComponent::Prim(t) => {},
                SpecComponent::VariantSelection { set, variant } => {},
            }
        }
    }
    let pn = prop_name(tokens, prop);
    let s = spec_path_text(tokens, cs, prop);
    lemma_components_text_pieces(tokens, cs);
    let run = pieces_run(ps, false);
    let suffix = match pn {
        Some(n) => seq!['.'] + n,
        None => Seq::<char>::empty(),
    };
    assert(s =~= seq!['/'] + run + suffix);
    assert(s[0] == '/');
    let j: int = 1 + run.len() as int;
    assert(s.subrange(1, j) =~= run);
    match pn {
        Some(n) => {
            assert(s[j] == '.');
        },
        None => {
            assert(j == s.len());
        },
    }
    assert forall|k: int| 0 <= k < ps.len() implies piece_plain(#[trigger] ps[k]) by {
        assert(ps[k] == component_piece(tokens, cs[k]));
    }
    lemma_scan_run(s, 1, ps, false);
    match pn {
        Some(n) => {
            assert(s.subrange(j + 1, s.len() as int) =~= n);
            assert(scan_spec_path(s, j) == Ok::<(Seq<SpecPiece>, Option<Seq<char>>), SpecPathError>(
                (Seq::empty(), Some(n)),
            ));
        },
        None => {},
    }
    assert(ps + Seq::<SpecPiece>::empty() =~= ps);
}

/// Components are determined by the names they give: two component lists
/// that name the same pieces, one under an interner and one under an
/// extension of it without duplicate names, are equal.
pub proof fn law_components_determined_by_names(
    t1: Seq<Seq<char>>,
    t2: Seq<Seq<char>>,
    c1: Seq<SpecComponent>,
    c2: Seq<SpecComponent>,
    pieces: Seq<SpecPiece>,
)
    requires
        components_name(t1, c1, pieces),
        components_name(t2, c2, pieces),
        extends(t2, t1),
        t2.no_duplicates(),
    ensures
        c1 == c2,
{
    assert forall|k: int| 0 <= k < c1.len() implies c1[k] == c2[k] by {
        assert(component_names(t1, c1[k], pieces[k]));
        assert(component_names(t2, c2[k], pieces[k]));
        match (c1[k], c2[k]) {
            (SpecComponent::Prim(a), SpecComponent::Prim(b)) => {
                assert(t2.subrange(0, t1.len() as int)[a.index()] == t2[a.index()]);
                lemma_token_id_index_injective(a, b);
            },
            (
                SpecComponent::VariantSelection { set: a, variant: x },
                SpecComponent::VariantSelection { set: b, variant: y },
            ) => {
                assert(t2.subrange(0, t1.len() as int)[a.index()] == t2[a.index()]);
                assert(t2.subrange(0, t1.len() as int)[x.index()] == t2[x.index()]);
                lemma_token_id_index_injective(a, b);
                lemma_token_id_index_injective(x, y);
            },
            _ => {},
        }
    }
    assert(c1 =~= c2);
}

} // verus!

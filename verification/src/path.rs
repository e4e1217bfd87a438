//! Paths for `layerstack`.
//!
//! Segmented absolute paths (similar to prim paths), interned to stable ids.

use core::cmp::Ordering;

use vstd::prelude::*;

use crate::hashed::{PathIdTable, path_table_contents};
use crate::interner::{interned_all, intern_index, interned, TokenId, TokenInterner};
use crate::text::{
    char_code, char_less, chars_of, join_with, lemma_char_code_injective, lemma_join_empty_first, lemma_join_split, lemma_split_append_plain, lemma_split_push_sep, split_char,
    string_from_chars,
};

verus! {

/// A stable identifier for an interned path.
#[derive(Clone, Copy, Debug, PartialEq, Eq, PartialOrd, Ord, Hash, Structural)]
pub struct PathId(u32);

impl PathId {
    /// The index of this path in its interner.
    pub closed spec fn index(self) -> int {
        self.0 as int
    }

    /// Returns the underlying numeric identifier.
    pub fn get(self) -> (r: u32)
        ensures
            r == self.index(),
    {
        self.0
    }

    /// Creates a `PathId` from a raw integer (synthetic identifiers for tests
    /// and callers that build dependency records by hand).
    pub fn from_raw(raw: u32) -> (r: Self)
        ensures
            r.index() == raw,
    {
        PathId(raw)
    }
}

/// The path id with raw number `raw`.
pub closed spec fn path_id_at(raw: u32) -> PathId {
    PathId(raw)
}

/// The path id with raw number `raw` has index `raw`.
pub proof fn lemma_path_id_at(raw: u32)
    ensures
        #[trigger] path_id_at(raw).index() == raw,
{
}

/// Path ids with equal indexes are equal.
pub proof fn lemma_path_id_index_injective(a: PathId, b: PathId)
    requires
        a.index() == b.index(),
    ensures
        a == b,
{
}

/// A segmented absolute path; its view is the sequence of segment tokens.
#[derive(Debug, PartialEq, Eq, PartialOrd, Ord, Hash)]
pub struct Path {
    segments: Vec<TokenId>,
}

impl View for Path {
    type V = Seq<TokenId>;

    closed spec fn view(&self) -> Seq<TokenId> {
        self.segments@
    }
}

impl Clone for Path {
    fn clone(&self) -> (r: Self)
        ensures
            r@ == self@,
    {
        Path { segments: self.segments.clone() }
    }
}

/// Errors that can occur when parsing a path.
#[derive(Clone, Copy, Debug, PartialEq, Eq, Structural)]
pub enum PathError {
    /// Path is not absolute (doesn't start with `/`).
    NotAbsolute,
    /// Path contains an empty segment (e.g. `//`).
    EmptySegment,
}

/// `true` when the strings that `ids` name in `tokens` are exactly `names`.
pub open spec fn names_tokens(tokens: Seq<Seq<char>>, ids: Seq<TokenId>, names: Seq<Seq<char>>) -> bool {
    &&& ids.len() == names.len()
    &&& forall|k: int|
        0 <= k < ids.len() ==> 0 <= #[trigger] ids[k].index() < tokens.len() && tokens[ids[k].index()]
            == names[k]
}

/// `true` when `longer` keeps `shorter` as its prefix.
pub open spec fn extends<T>(longer: Seq<T>, shorter: Seq<T>) -> bool {
    shorter.len() <= longer.len() && longer.subrange(0, shorter.len() as int) == shorter
}

/// The segment strings of an absolute path text: the `/`-separated pieces
/// after the leading `/`.
pub open spec fn path_segments(s: Seq<char>) -> Seq<Seq<char>> {
    split_char(s, '/').drop_first()
}

/// The segments before the first empty one (all of them when none is
/// empty).
pub open spec fn leading_named(segs: Seq<Seq<char>>) -> Seq<Seq<char>>
    decreases segs.len(),
{
    if segs.len() == 0 {
        Seq::empty()
    } else {
        let p = leading_named(segs.drop_last());
        if p.len() == segs.len() - 1 && segs.last().len() > 0 {
            p.push(segs.last())
        } else {
            p
        }
    }
}

/// With the first `k` segments non-empty and segment `k` (if any) empty, the
/// leading named segments are the first `k`.
pub proof fn lemma_leading_named(segs: Seq<Seq<char>>, k: int)
    requires
        0 <= k <= segs.len(),
        forall|j: int| 0 <= j < k ==> #[trigger] segs[j].len() > 0,
        k < segs.len() ==> segs[k].len() == 0,
    ensures
        leading_named(segs) == segs.take(k),
    decreases segs.len(),
{
    if segs.len() == 0 {
        assert(segs.take(k) =~= Seq::<Seq<char>>::empty());
    } else if segs.len() == k {
        let init = segs.drop_last();
        assert forall|j: int| 0 <= j < k - 1 implies #[trigger] init[j].len() > 0 by {
            assert(init[j] == segs[j]);
        }
        lemma_leading_named(init, k - 1);
        assert(init.take(k - 1) =~= init);
        assert(segs[k - 1].len() > 0);
        assert(init.push(segs.last()) =~= segs);
        assert(segs.take(k) =~= segs);
    } else {
        let init = segs.drop_last();
        assert forall|j: int| 0 <= j < k implies #[trigger] init[j].len() > 0 by {
            assert(init[j] == segs[j]);
        }
        if k < init.len() {
            assert(init[k] == segs[k]);
        }
        lemma_leading_named(init, k);
        assert(init.take(k) =~= segs.take(k));
    }
}

/// `true` when the text is exactly `/`.
pub open spec fn is_root_text(s: Seq<char>) -> bool {
    s == seq!['/']
}

/// `true` when some segment of the path text is empty.
pub open spec fn has_empty_segment(s: Seq<char>) -> bool {
    exists|k: int| 0 <= k < path_segments(s).len() && #[trigger] path_segments(s)[k].len() == 0
}

/// Lexicographic order of two character sequences by code point, then length.
pub open spec fn text_order(a: Seq<char>, b: Seq<char>) -> Ordering
    decreases a.len(),
{
    if a.len() == 0 && b.len() == 0 {
        Ordering::Equal
    } else if a.len() == 0 {
        Ordering::Less
    } else if b.len() == 0 {
        Ordering::Greater
    } else if char_code(a[0]) < char_code(b[0]) {
        Ordering::Less
    } else if char_code(b[0]) < char_code(a[0]) {
        Ordering::Greater
    } else {
        text_order(a.drop_first(), b.drop_first())
    }
}

/// Namespace order of two resolved segment sequences: the first differing
/// segment decides, otherwise the shorter path comes first.
pub open spec fn segments_order(a: Seq<Seq<char>>, b: Seq<Seq<char>>) -> Ordering
    decreases a.len(),
{
    if a.len() == 0 && b.len() == 0 {
        Ordering::Equal
    } else if a.len() == 0 {
        Ordering::Less
    } else if b.len() == 0 {
        Ordering::Greater
    } else if text_order(a[0], b[0]) != Ordering::Equal {
        text_order(a[0], b[0])
    } else {
        segments_order(a.drop_first(), b.drop_first())
    }
}

/// `true` when every segment token of a path is interned in `tokens`.
pub open spec fn resolvable(tokens: Seq<Seq<char>>, ids: Seq<TokenId>) -> bool {
    forall|k: int| 0 <= k < ids.len() ==> 0 <= #[trigger] ids[k].index() < tokens.len()
}

/// The text of a path with the given segment strings: `/` for the root,
/// otherwise `/` before each segment.
pub open spec fn path_text(names: Seq<Seq<char>>) -> Seq<char>
    decreases names.len(),
{
    if names.len() == 0 {
        seq!['/']
    } else if names.len() == 1 {
        seq!['/'] + names[0]
    } else {
        path_text(names.drop_last()) + seq!['/'] + names.last()
    }
}

/// Compares two character sequences by code point, then by length.
pub fn compare_text(a: &[char], b: &[char]) -> (r: Ordering)
    ensures
        r == text_order(a@, b@),
{
    let n = a.len();
    let m = b.len();
    let mut i: usize = 0;
    let ghost mut gi: int = 0;
    proof {
        assert(a@.skip(0) =~= a@);
        assert(b@.skip(0) =~= b@);
    }
    while i < n && i < m
        invariant
            gi == i,
            n == a@.len(),
            m == b@.len(),
            i <= n,
            i <= m,
            text_order(a@, b@) == text_order(a@.skip(gi), b@.skip(gi)),
        decreases n - i,
    {
        proof {
            assert(a@.skip(gi)[0] == a@[gi]);
            assert(b@.skip(gi)[0] == b@[gi]);
            assert(a@.skip(gi).drop_first() =~= a@.skip(gi + 1));
            assert(b@.skip(gi).drop_first() =~= b@.skip(gi + 1));
        }
        if char_less(a[i], b[i]) {
            return Ordering::Less;
        }
        if char_less(b[i], a[i]) {
            return Ordering::Greater;
        }
        i = i + 1;
        proof {
            gi = gi + 1;
        }
    }
    proof {
        assert(a@.skip(gi).len() == 0 || b@.skip(gi).len() == 0);
    }
    if n < m {
        Ordering::Less
    } else if m < n {
        Ordering::Greater
    } else {
        Ordering::Equal
    }
}

/// The strings that `ids` name in `tokens`.
pub open spec fn resolve_all(tokens: Seq<Seq<char>>, ids: Seq<TokenId>) -> Seq<Seq<char>> {
    ids.map_values(|t: TokenId| tokens[t.index()])
}


/// Elements `t < a.len() - 1` of the split of a prefix stay in the split of
/// any longer prefix.
pub proof fn lemma_split_char_prefix(s: Seq<char>, c: char, i: int, k: int)
    requires
        0 <= i <= k <= s.len(),
    ensures
        split_char(s.take(k), c).len() >= split_char(s.take(i), c).len(),
        forall|t: int|
            0 <= t < split_char(s.take(i), c).len() - 1 ==> #[trigger] split_char(s.take(k), c)[t]
                == split_char(s.take(i), c)[t],
    decreases k - i,
{
    crate::text::lemma_split_char_nonempty(s.take(i), c);
    if k > i {
        lemma_split_char_prefix(s, c, i, k - 1);
        assert(s.take(k).drop_last() =~= s.take(k - 1));
        crate::text::lemma_split_char_nonempty(s.take(k - 1), c);
    }
}

/// Token names stay valid when the interner grows.
pub proof fn lemma_names_tokens_extend(
    t1: Seq<Seq<char>>,
    t2: Seq<Seq<char>>,
    ids: Seq<TokenId>,
    names: Seq<Seq<char>>,
)
    requires
        names_tokens(t1, ids, names),
        extends(t2, t1),
    ensures
        names_tokens(t2, ids, names),
{
    assert forall|k: int| 0 <= k < ids.len() implies 0 <= #[trigger] ids[k].index() < t2.len()
        && t2[ids[k].index()] == names[k] by {
        assert(t2.subrange(0, t1.len() as int)[ids[k].index()] == t2[ids[k].index()]);
    }
}

/// `path_text` of a non-empty name list is `/` followed by the names joined
/// with `/`.
proof fn lemma_path_text_join(names: Seq<Seq<char>>)
    requires
        names.len() >= 1,
    ensures
        path_text(names) == seq!['/'] + join_with(names, '/'),
    decreases names.len(),
{
    if names.len() >= 2 {
        lemma_path_text_join(names.drop_last());
        assert((seq!['/'] + join_with(names.drop_last(), '/')) + seq!['/'] + names.last() =~= seq!['/']
            + (join_with(names.drop_last(), '/').push('/') + names.last()));
    }
}

/// The names that `names_tokens` speaks of are the resolved ids.
proof fn lemma_names_tokens_resolve(tokens: Seq<Seq<char>>, ids: Seq<TokenId>, names: Seq<Seq<char>>)
    requires
        names_tokens(tokens, ids, names),
    ensures
        resolvable(tokens, ids),
        resolve_all(tokens, ids) == names,
{
    assert(resolve_all(tokens, ids) =~= names);
}

/// Displaying a parsed path gives back the text it was parsed from: every
/// text that `parse_absolute` accepts (`/`, or `/` followed by non-empty
/// `/`-separated names) is already the display form of its path.
pub proof fn law_display_parse_round_trip(s: Seq<char>, tokens: Seq<Seq<char>>, ids: Seq<TokenId>)
    requires
        s.len() > 0,
        s[0] == '/',
        (is_root_text(s) && ids.len() == 0) || (!is_root_text(s) && names_tokens(
            tokens,
            ids,
            path_segments(s),
        )),
    ensures
        resolvable(tokens, ids),
        path_text(resolve_all(tokens, ids)) == s,
{
    if is_root_text(s) {
        assert(resolve_all(tokens, ids) =~= Seq::<Seq<char>>::empty());
    } else {
        lemma_names_tokens_resolve(tokens, ids, path_segments(s));
        let parts = split_char(s, '/');
        lemma_split_char_prefix(s, '/', 1, s.len() as int);
        assert(s.take(1) =~= seq!['/']);
        assert(seq!['/'].drop_last() =~= Seq::<char>::empty());
        assert(s.take(1).drop_last() =~= Seq::<char>::empty());
        assert(s.take(1).last() == '/');
        assert(split_char(Seq::<char>::empty(), '/') == seq![Seq::<char>::empty()]);
        assert(split_char(s.take(1), '/') =~= seq![Seq::<char>::empty(), Seq::<char>::empty()]);
        assert(s.take(s.len() as int) =~= s);
        assert(parts[0].len() == 0);
        lemma_join_split(s, '/');
        lemma_join_empty_first(parts, '/');
        lemma_path_text_join(parts.drop_first());
    }
}

/// A path name that reads back unchanged: non-empty, without `/`.
pub open spec fn plain_name(n: Seq<char>) -> bool {
    n.len() > 0 && forall|k: int| 0 <= k < n.len() ==> n[k] != '/'
}

proof fn lemma_split_path_text(names: Seq<Seq<char>>)
    requires
        names.len() >= 1,
        forall|k: int| 0 <= k < names.len() ==> plain_name(#[trigger] names[k]),
    ensures
        split_char(path_text(names), '/') == seq![Seq::<char>::empty()] + names,
    decreases names.len(),
{
    let last = names.last();
    assert(plain_name(names[names.len() - 1]));
    if names.len() == 1 {
        lemma_split_push_sep(Seq::<char>::empty(), '/');
        assert(Seq::<char>::empty().push('/') =~= seq!['/']);
        assert(split_char(Seq::<char>::empty(), '/') == seq![Seq::<char>::empty()]);
        lemma_split_append_plain(seq!['/'], last, '/');
        assert(path_text(names) == seq!['/'] + names[0]);
        assert(seq![Seq::<char>::empty()] + names =~= seq![Seq::<char>::empty(), names[0]]);
        assert(Seq::<char>::empty() + last =~= last);
    } else {
        let prev = names.drop_last();
        assert forall|k: int| 0 <= k < prev.len() implies plain_name(#[trigger] prev[k]) by {
            assert(prev[k] == names[k]);
        }
        lemma_split_path_text(prev);
        let pt = path_text(prev);
        lemma_split_push_sep(pt, '/');
        assert(pt + seq!['/'] =~= pt.push('/'));
        lemma_split_append_plain(pt.push('/'), last, '/');
        assert(path_text(names) == pt + seq!['/'] + last);
        assert(pt.push('/') + last =~= pt + seq!['/'] + last);
        assert((seq![Seq::<char>::empty()] + prev).push(Seq::<char>::empty()).update(
            prev.len() + 1 as int,
            Seq::<char>::empty() + last,
        ) =~= seq![Seq::<char>::empty()] + names);
    }
}

/// Parsing the display text of a path reads back its segment names, when
/// every name is non-empty and free of `/`: the text is `/` exactly for the
/// root, and otherwise has no empty segment and its segments are the names.
pub proof fn law_parse_display_path(names: Seq<Seq<char>>)
    requires
        forall|k: int| 0 <= k < names.len() ==> plain_name(#[trigger] names[k]),
    ensures
        path_text(names).len() > 0,
        path_text(names)[0] == '/',
        is_root_text(path_text(names)) <==> names.len() == 0,
        names.len() > 0 ==> !has_empty_segment(path_text(names)) && path_segments(path_text(names))
            == names,
{
    if names.len() > 0 {
        lemma_split_path_text(names);
        lemma_path_text_join(names);
        let s = path_text(names);
        assert(s == seq!['/'] + join_with(names, '/'));
        assert(path_segments(s) =~= names);
        assert(plain_name(names[0]));
        if names.len() == 1 {
            assert(s.len() == 1 + names[0].len());
        } else {
            assert(join_with(names, '/') == join_with(names.drop_last(), '/').push('/') + names.last());
        }
        assert(s.len() > 1);
        assert(!is_root_text(s));
        assert forall|k: int| 0 <= k < path_segments(s).len() implies #[trigger] path_segments(s)[k].len()
            != 0 by {
            assert(plain_name(names[k]));
        }
    }
}

/// Ids that name the same strings, one list under an interner and one under
/// an extension of it without duplicate strings, are the same ids.
pub proof fn law_ids_determined_by_names(
    t1: Seq<Seq<char>>,
    t2: Seq<Seq<char>>,
    ids1: Seq<TokenId>,
    ids2: Seq<TokenId>,
    names: Seq<Seq<char>>,
)
    requires
        names_tokens(t1, ids1, names),
        names_tokens(t2, ids2, names),
        extends(t2, t1),
        t2.no_duplicates(),
    ensures
        ids1 == ids2,
{
    assert forall|k: int| 0 <= k < ids1.len() implies ids1[k] == ids2[k] by {
        assert(t2.subrange(0, t1.len() as int)[ids1[k].index()] == t2[ids1[k].index()]);
        crate::interner::lemma_token_id_index_injective(ids1[k], ids2[k]);
    }
    assert(ids1 =~= ids2);
}

/// Joining the remainder that `strip_prefix` leaves back onto the prefix
/// gives the path back, and stripping a prefix from a join gives back
/// what was joined.
pub proof fn law_strip_prefix_join(p: Seq<TokenId>, prefix: Seq<TokenId>, extra: Seq<TokenId>)
    ensures
        extends(p, prefix) ==> prefix + p.subrange(prefix.len() as int, p.len() as int) == p,
        extends(prefix + extra, prefix),
        (prefix + extra).subrange(prefix.len() as int, (prefix + extra).len() as int) == extra,
{
    if extends(p, prefix) {
        assert(prefix + p.subrange(prefix.len() as int, p.len() as int) =~= p);
    }
    assert((prefix + extra).subrange(0, prefix.len() as int) =~= prefix);
    assert((prefix + extra).subrange(prefix.len() as int, (prefix + extra).len() as int) =~= extra);
}

/// Joining adds depth, and the parent of a path joined with one segment is
/// the path itself.
pub proof fn law_parent_of_join(p: Seq<TokenId>, extra: Seq<TokenId>)
    ensures
        (p + extra).len() == p.len() + extra.len(),
        extra.len() == 1 ==> (p + extra).drop_last() == p,
        extra.len() == 1 ==> (p + extra).last() == extra[0],
{
    if extra.len() == 1 {
        assert((p + extra).drop_last() =~= p);
    }
}

/// `reversed(o)` swaps `Less` and `Greater`.
pub open spec fn reversed(o: Ordering) -> Ordering {
    match o {
        Ordering::Less => Ordering::Greater,
        Ordering::Equal => Ordering::Equal,
        Ordering::Greater => Ordering::Less,
    }
}

proof fn lemma_text_order_total(a: Seq<char>, b: Seq<char>, c: Seq<char>)
    ensures
        text_order(a, b) == reversed(text_order(b, a)),
        (text_order(a, b) == Ordering::Equal) == (a == b),
        text_order(a, b) == Ordering::Less && text_order(b, c) == Ordering::Less ==> text_order(
            a,
            c,
        ) == Ordering::Less,
    decreases a.len(),
{
    if a.len() > 0 && b.len() > 0 {
        if c.len() > 0 {
            lemma_text_order_total(a.drop_first(), b.drop_first(), c.drop_first());
        } else {
            lemma_text_order_total(a.drop_first(), b.drop_first(), c);
        }
        if a == b {
            assert(a.drop_first() == b.drop_first());
        }
        lemma_char_code_injective(a[0], b[0]);
        if char_code(a[0]) == char_code(b[0]) && a.drop_first() == b.drop_first() {
            assert(a =~= a.drop_first().insert(0, a[0]));
            assert(b =~= b.drop_first().insert(0, b[0]));
        }
    }
    if a.len() == 0 && b.len() == 0 {
        assert(a =~= b);
    }
}

proof fn lemma_segments_order_total(a: Seq<Seq<char>>, b: Seq<Seq<char>>, c: Seq<Seq<char>>)
    ensures
        segments_order(a, b) == reversed(segments_order(b, a)),
        (segments_order(a, b) == Ordering::Equal) == (a == b),
        segments_order(a, b) == Ordering::Less && segments_order(b, c) == Ordering::Less
            ==> segments_order(a, c) == Ordering::Less,
    decreases a.len(),
{
    if a.len() > 0 && b.len() > 0 {
        lemma_text_order_total(a[0], b[0], b[0]);
        if c.len() > 0 {
            lemma_text_order_total(a[0], b[0], c[0]);
            lemma_text_order_total(b[0], c[0], a[0]);
            lemma_text_order_total(a[0], c[0], b[0]);
            lemma_segments_order_total(a.drop_first(), b.drop_first(), c.drop_first());
        } else {
            lemma_segments_order_total(a.drop_first(), b.drop_first(), c);
        }
        if a == b {
            assert(a.drop_first() == b.drop_first());
        }
        if a[0] == b[0] && a.drop_first() == b.drop_first() {
            assert(a =~= a.drop_first().insert(0, a[0]));
            assert(b =~= b.drop_first().insert(0, b[0]));
        }
    }
    if a.len() == 0 && b.len() == 0 {
        assert(a =~= b);
    }
}

/// Namespace text order puts a proper prefix first: a segment text sorts
/// before every longer text that begins with it (so `Mesh` comes before
/// `Mesh1`), and after it when the operands are swapped.
pub proof fn law_text_prefix_first(s: Seq<char>, t: Seq<char>)
    requires
        t.len() > 0,
    ensures
        text_order(s, s + t) == Ordering::Less,
        text_order(s + t, s) == Ordering::Greater,
    decreases s.len(),
{
    if s.len() > 0 {
        assert((s + t)[0] == s[0]);
        assert((s + t).drop_first() =~= s.drop_first() + t);
        law_text_prefix_first(s.drop_first(), t);
    }
}

/// The first position where two segment texts differ decides their order,
/// by Unicode code point: the text with the smaller code point there comes
/// first, whatever follows.
pub proof fn law_text_first_difference(s: Seq<char>, t: Seq<char>, i: int)
    requires
        0 <= i < s.len(),
        i < t.len(),
        s.take(i) == t.take(i),
        crate::text::code_point_below(s[i], t[i]),
    ensures
        text_order(s, t) == Ordering::Less,
        text_order(t, s) == Ordering::Greater,
    decreases i,
{
    if i > 0 {
        assert(s[0] == s.take(i)[0]);
        assert(t[0] == t.take(i)[0]);
        assert(s.drop_first().take(i - 1) =~= t.drop_first().take(i - 1)) by {
            assert forall|k: int| 0 <= k < i - 1 implies #[trigger] s.drop_first().take(i - 1)[k] == t.drop_first().take(
                i - 1,
            )[k] by {
                assert(s.drop_first().take(i - 1)[k] == s[k + 1]);
                assert(t.drop_first().take(i - 1)[k] == t[k + 1]);
                assert(s.take(i)[k + 1] == s[k + 1]);
                assert(t.take(i)[k + 1] == t[k + 1]);
                assert(s.take(i)[k + 1] == t.take(i)[k + 1]);
            }
        }
        law_text_first_difference(s.drop_first(), t.drop_first(), i - 1);
    }
}

/// Two segment texts tie exactly when they are equal.
pub proof fn law_text_equal_iff(s: Seq<char>, t: Seq<char>)
    ensures
        (text_order(s, t) == Ordering::Equal) == (s == t),
{
    lemma_text_order_total(s, t, t);
}

/// Namespace order puts an ancestor first: a path sorts before every path
/// below it, and after it when the operands are swapped.
pub proof fn law_segments_prefix_first(a: Seq<Seq<char>>, b: Seq<Seq<char>>)
    requires
        b.len() > 0,
    ensures
        segments_order(a, a + b) == Ordering::Less,
        segments_order(a + b, a) == Ordering::Greater,
    decreases a.len(),
{
    if a.len() > 0 {
        assert((a + b)[0] == a[0]);
        assert((a + b).drop_first() =~= a.drop_first() + b);
        law_text_equal_iff(a[0], a[0]);
        law_segments_prefix_first(a.drop_first(), b);
    }
}

/// The first segment where two paths differ decides their namespace order,
/// by the order of the two segment texts.
pub proof fn law_segments_first_difference(a: Seq<Seq<char>>, b: Seq<Seq<char>>, i: int)
    requires
        0 <= i < a.len(),
        i < b.len(),
        a.take(i) == b.take(i),
        text_order(a[i], b[i]) == Ordering::Less,
    ensures
        segments_order(a, b) == Ordering::Less,
        segments_order(b, a) == Ordering::Greater,
    decreases i,
{
    lemma_text_order_total(a[i], b[i], b[i]);
    if i > 0 {
        assert(a[0] == a.take(i)[0]);
        assert(b[0] == b.take(i)[0]);
        law_text_equal_iff(a[0], b[0]);
        assert(a.drop_first().take(i - 1) =~= b.drop_first().take(i - 1)) by {
            assert forall|k: int| 0 <= k < i - 1 implies #[trigger] a.drop_first().take(i - 1)[k] == b.drop_first().take(
                i - 1,
            )[k] by {
                assert(a.take(i)[k + 1] == b.take(i)[k + 1]);
            }
        }
        law_segments_first_difference(a.drop_first(), b.drop_first(), i - 1);
    }
}

/// Namespace order (what `cmp_with_tokens` computes) is a total order on
/// resolved paths: swapping the arguments reverses it, `Equal` means the
/// same segment strings, and it is transitive.
pub proof fn law_namespace_order_total(a: Seq<Seq<char>>, b: Seq<Seq<char>>, c: Seq<Seq<char>>)
    ensures
        segments_order(a, b) == reversed(segments_order(b, a)),
        (segments_order(a, b) == Ordering::Equal) == (a == b),
        segments_order(a, b) == Ordering::Less && segments_order(b, c) == Ordering::Less
            ==> segments_order(a, c) == Ordering::Less,
{
    lemma_segments_order_total(a, b, c);
}

/// `a` comes strictly before `b` in namespace order.
pub open spec fn namespace_less(a: Seq<Seq<char>>, b: Seq<Seq<char>>) -> bool {
    segments_order(a, b) == Ordering::Less
}

/// Strict namespace order is a strict total order on resolved paths.
pub proof fn law_namespace_less_strict_total(a: Seq<Seq<char>>, b: Seq<Seq<char>>, c: Seq<Seq<char>>)
    ensures
        !(namespace_less(a, b) && namespace_less(b, a)),
        !namespace_less(a, a),
        a != b ==> namespace_less(a, b) || namespace_less(b, a),
        namespace_less(a, b) && namespace_less(b, c) ==> namespace_less(a, c),
{
    lemma_segments_order_total(a, b, c);
    lemma_segments_order_total(a, a, a);
}

impl Path {
    /// Returns the root path (`/`).
    pub fn root() -> (r: Self)
        ensures
            r@ == Seq::<TokenId>::empty(),
    {
        Path { segments: Vec::new() }
    }

    /// Parses an absolute path and interns each segment as a token.
    ///
    /// A text that does not start with `/` is `NotAbsolute`; `/` alone is the
    /// root; otherwise every `/`-separated segment after the leading `/` must
    /// be non-empty. Segments are interned left to right until an empty one
    /// is met, so the interner only grows.
    pub fn parse_absolute(s: &str, tokens: &mut TokenInterner) -> (r: Result<Self, PathError>)
        requires
            old(tokens)@.len() + s@.len() < u32::MAX,
        ensures
            extends(final(tokens)@, old(tokens)@),
            !(s@.len() > 0 && s@[0] == '/') ==> (r matches Err(PathError::NotAbsolute)) && final(tokens)@ == old(tokens)@,
            is_root_text(s@) ==> (r matches Ok(p) && p@.len() == 0) && final(tokens)@ == old(tokens)@,
            (s@.len() > 0 && s@[0] == '/' && !is_root_text(s@)) ==> {
                &&& (r is Err <==> has_empty_segment(s@))
                &&& (r is Err ==> r matches Err(PathError::EmptySegment))
                &&& (r matches Ok(p) ==> names_tokens(final(tokens)@, p@, path_segments(s@)))
                &&& final(tokens)@ == interned_all(old(tokens)@, leading_named(path_segments(s@)))
            },
            final(tokens)@.len() <= old(tokens)@.len() + s@.len(),
    {
        proof {
            assert(old(tokens)@.subrange(0, old(tokens)@.len() as int) =~= old(tokens)@);
        }
        let cs = chars_of(s);
        let n = cs.len();
        if n == 0 || cs[0] != '/' {
            return Err(PathError::NotAbsolute);
        }
        if n == 1 {
            proof {
                assert(s@ =~= seq!['/']);
            }
            return Ok(Path::root());
        }
        proof {
            assert(!is_root_text(s@)) by {
                if is_root_text(s@) {
                    assert(s@.len() == 1);
                }
            }
            assert(cs@.take(1) =~= seq!['/']);
            assert(cs@.take(1).drop_last() =~= Seq::<char>::empty());
            reveal_with_fuel(split_char, 2);
            assert(split_char(cs@.take(1), '/') =~= seq![Seq::<char>::empty(), Seq::<char>::empty()]);
        }
        let mut segs: Vec<TokenId> = Vec::new();
        let mut cur: Vec<char> = Vec::new();
        let ghost mut done: Seq<Seq<char>> = Seq::empty();
        let mut i: usize = 1;
        while i < n
            invariant
                1 <= i <= n,
                n == cs@.len(),
                cs@ == s@,
                n >= 2,
                s@[0] == '/',
                split_char(cs@.take(i as int), '/') == seq![Seq::<char>::empty()] + done.push(cur@),
                names_tokens(tokens@, segs@, done),
                forall|k: int| 0 <= k < done.len() ==> #[trigger] done[k].len() > 0,
                extends(tokens@, old(tokens)@),
                tokens@ == interned_all(old(tokens)@, done),
                tokens@.len() <= old(tokens)@.len() + done.len(),
                done.len() < i,
                old(tokens)@.len() + s@.len() < u32::MAX,
            decreases n - i,
        {
            let c = cs[i];
            let ghost before = cs@.take(i as int);
            proof {
                assert(cs@.take(i + 1).drop_last() =~= before);
            }
            if c == '/' {
                if cur.len() == 0 {
                    proof {
                        let a = split_char(cs@.take(i + 1), '/');
                        assert(a == seq![Seq::<char>::empty()] + done.push(cur@).push(
                            Seq::<char>::empty(),
                        ));
                        lemma_split_char_prefix(cs@, '/', i + 1, n as int);
                        assert(cs@.take(n as int) =~= s@);
                        let t = done.len() as int;
                        assert(a[t + 1] == cur@);
                        assert(path_segments(s@)[t] == split_char(s@, '/')[t + 1]);
                        assert(path_segments(s@)[t].len() == 0);
                        assert forall|j: int| 0 <= j < t implies #[trigger] path_segments(s@)[j] == done[j] by {
                            assert(path_segments(s@)[j] == split_char(s@, '/')[j + 1]);
                            assert(a[j + 1] == done[j]);
                        }
                        assert(path_segments(s@).take(t) =~= done);
                        lemma_leading_named(path_segments(s@), t);
                    }
                    return Err(PathError::EmptySegment);
                }
                let name = string_from_chars(cur.as_slice());
                let ghost t_before = tokens@;
                let id = tokens.intern(name.as_str());
                proof {
                    assert(tokens@.subrange(0, t_before.len() as int) =~= t_before);
                    lemma_names_tokens_extend(t_before, tokens@, segs@, done);
                    assert(tokens@.subrange(0, old(tokens)@.len() as int) =~= t_before.subrange(
                        0,
                        old(tokens)@.len() as int,
                    ));
                }
                segs.push(id);
                proof {
                    assert(done.push(cur@).drop_last() =~= done);
                    done = done.push(cur@);
                    assert(names_tokens(tokens@, segs@, done));
                }
                cur = Vec::new();
                proof {
                    assert(split_char(cs@.take(i + 1), '/') =~= seq![Seq::<char>::empty()]
                        + done.push(cur@));
                }
            } else {
                cur.push(c);
                proof {
                    assert(split_char(cs@.take(i + 1), '/') =~= seq![Seq::<char>::empty()]
                        + done.push(cur@));
                }
            }
            i = i + 1;
        }
        proof {
            assert(cs@.take(n as int) =~= s@);
        }
        if cur.len() == 0 {
            proof {
                let t = done.len() as int;
                assert(path_segments(s@)[t] == split_char(s@, '/')[t + 1]);
                assert(path_segments(s@) =~= done.push(cur@));
                assert(path_segments(s@).take(t) =~= done);
                lemma_leading_named(path_segments(s@), t);
            }
            return Err(PathError::EmptySegment);
        }
        let name = string_from_chars(cur.as_slice());
        let ghost t_before = tokens@;
        let id = tokens.intern(name.as_str());
        proof {
            assert(tokens@.subrange(0, t_before.len() as int) =~= t_before);
            lemma_names_tokens_extend(t_before, tokens@, segs@, done);
            assert(tokens@.subrange(0, old(tokens)@.len() as int) =~= t_before.subrange(
                0,
                old(tokens)@.len() as int,
            ));
        }
        segs.push(id);
        proof {
            assert(done.push(cur@).drop_last() =~= done);
            done = done.push(cur@);
            assert(path_segments(s@) =~= done);
            assert(!has_empty_segment(s@));
            lemma_leading_named(done, done.len() as int);
            assert(done.take(done.len() as int) =~= done);
        }
        Ok(Path { segments: segs })
    }

    /// Returns the segments of this path.
    pub fn segments(&self) -> (r: &[TokenId])
        ensures
            r@ == self@,
    {
        self.segments.as_slice()
    }

    /// Returns the namespace depth.
    pub fn depth(&self) -> (r: usize)
        ensures
            r == self@.len(),
    {
        self.segments.len()
    }

    /// Returns the parent path, or `None` if this is the root.
    pub fn parent(&self) -> (r: Option<Self>)
        ensures
            self@.len() == 0 ==> r is None,
            self@.len() > 0 ==> (r matches Some(p) && p@ == self@.drop_last()),
    {
        if self.segments.len() == 0 {
            return None;
        }
        let mut v = self.segments.clone();
        proof {
            assert(v@ =~= self@);
        }
        v.pop();
        Some(Path { segments: v })
    }

    /// Returns `true` if `self` is a prefix of `other`.
    pub fn is_prefix_of(&self, other: &Self) -> (r: bool)
        ensures
            r == extends(other@, self@),
    {
        let n = self.segments.len();
        if n > other.segments.len() {
            return false;
        }
        let mut i: usize = 0;
        while i < n
            invariant
                n == self@.len(),
                n <= other@.len(),
                i <= n,
                forall|j: int| 0 <= j < i ==> other@[j] == self@[j],
            decreases n - i,
        {
            if other.segments[i] != self.segments[i] {
                proof {
                    assert(other@.subrange(0, n as int)[i as int] != self@[i as int]);
                }
                return false;
            }
            i = i + 1;
        }
        proof {
            assert(other@.subrange(0, n as int) =~= self@);
        }
        true
    }

    /// Strips `prefix` from `self`, returning the remainder segments if
    /// `prefix` matches.
    pub fn strip_prefix(&self, prefix: &Self) -> (r: Option<&[TokenId]>)
        ensures
            r is Some <==> extends(self@, prefix@),
            r matches Some(rest) ==> rest@ == self@.subrange(prefix@.len() as int, self@.len() as int),
    {
        if !prefix.is_prefix_of(self) {
            return None;
        }
        Some(vstd::slice::slice_subrange(self.segments.as_slice(), prefix.segments.len(), self.segments.len()))
    }

    /// Joins additional segments onto this path.
    pub fn join(&self, extra: &[TokenId]) -> (r: Self)
        ensures
            r@ == self@ + extra@,
    {
        let mut out = self.segments.clone();
        proof {
            assert(out@ =~= self@);
        }
        let m = extra.len();
        let mut i: usize = 0;
        while i < m
            invariant
                m == extra@.len(),
                i <= m,
                out@ == self@ + extra@.take(i as int),
            decreases m - i,
        {
            out.push(extra[i]);
            proof {
                assert(extra@.take(i + 1) =~= extra@.take(i as int).push(extra@[i as int]));
            }
            i = i + 1;
        }
        proof {
            assert(extra@.take(m as int) =~= extra@);
        }
        Path { segments: out }
    }

    /// Compares paths using namespace ordering: segment strings compare
    /// lexicographically by code point, and ties go to the shorter path.
    pub fn cmp_with_tokens(&self, other: &Self, tokens: &TokenInterner) -> (r: Ordering)
        requires
            resolvable(tokens@, self@),
            resolvable(tokens@, other@),
        ensures
            r == segments_order(resolve_all(tokens@, self@), resolve_all(tokens@, other@)),
    {
        let n = self.segments.len();
        let m = other.segments.len();
        let ghost sa = resolve_all(tokens@, self@);
        let ghost sb = resolve_all(tokens@, other@);
        let mut i: usize = 0;
        let ghost mut gi: int = 0;
        proof {
            assert(sa.skip(0) =~= sa);
            assert(sb.skip(0) =~= sb);
        }
        while i < n && i < m
            invariant
                gi == i,
                n == self@.len(),
                m == other@.len(),
                sa.len() == n,
                sb.len() == m,
                i <= n,
                i <= m,
                sa == resolve_all(tokens@, self@),
                sb == resolve_all(tokens@, other@),
                resolvable(tokens@, self@),
                resolvable(tokens@, other@),
                segments_order(sa, sb) == segments_order(sa.skip(gi), sb.skip(gi)),
            decreases n - i,
        {
            let a = chars_of(tokens.resolve(self.segments[i]));
            let b = chars_of(tokens.resolve(other.segments[i]));
            let seg = compare_text(a.as_slice(), b.as_slice());
            proof {
                assert(sa.skip(gi)[0] == a@);
                assert(sb.skip(gi)[0] == b@);
                assert(sa.skip(gi).drop_first() =~= sa.skip(gi + 1));
                assert(sb.skip(gi).drop_first() =~= sb.skip(gi + 1));
            }
            match seg {
                Ordering::Equal => {},
                _ => {
                    return seg;
                },
            }
            i = i + 1;
            proof {
                gi = gi + 1;
            }
        }
        proof {
            assert(sa.skip(gi).len() == 0 || sb.skip(gi).len() == 0);
        }
        if n < m {
            Ordering::Less
        } else if m < n {
            Ordering::Greater
        } else {
            Ordering::Equal
        }
    }

    /// `true` when `self` comes strictly before `other` in namespace order.
    pub fn namespace_less_than(&self, other: &Self, tokens: &TokenInterner) -> (r: bool)
        requires
            resolvable(tokens@, self@),
            resolvable(tokens@, other@),
        ensures
            r == namespace_less(resolve_all(tokens@, self@), resolve_all(tokens@, other@)),
    {
        match self.cmp_with_tokens(other, tokens) {
            Ordering::Less => true,
            Ordering::Equal => false,
            Ordering::Greater => false,
        }
    }

    /// Formats this path as `/A/B/C` (the root is `/`).
    pub fn display(&self, tokens: &TokenInterner) -> (r: String)
        requires
            resolvable(tokens@, self@),
        ensures
            r@ == path_text(resolve_all(tokens@, self@)),
    {
        let ghost names = resolve_all(tokens@, self@);
        let mut out: Vec<char> = Vec::new();
        out.push('/');
        let n = self.segments.len();
        let mut i: usize = 0;
        while i < n
            invariant
                n == self@.len(),
                i <= n,
                names == resolve_all(tokens@, self@),
                resolvable(tokens@, self@),
                i == 0 ==> out@ == seq!['/'],
                i > 0 ==> out@ == path_text(names.take(i as int)),
            decreases n - i,
        {
            if i > 0 {
                out.push('/');
            }
            let seg = chars_of(tokens.resolve(self.segments[i]));
            let ghost before = out@;
            let k = seg.len();
            let mut j: usize = 0;
            while j < k
                invariant
                    k == seg@.len(),
                    j <= k,
                    out@ == before + seg@.take(j as int),
                decreases k - j,
            {
                out.push(seg[j]);
                proof {
                    assert(seg@.take(j + 1) =~= seg@.take(j as int).push(seg@[j as int]));
                }
                j = j + 1;
            }
            proof {
                assert(seg@.take(k as int) =~= seg@);
                assert(names.take(i + 1).drop_last() =~= names.take(i as int));
                assert(names.take(i + 1).last() == seg@);
                if i == 0 {
                    assert(names.take(1).len() == 1);
                }
            }
            i = i + 1;
        }
        proof {
            assert(names.take(n as int) =~= names);
        }
        string_from_chars(out.as_slice())
    }

    /// Returns the leaf name segment, if any.
    pub fn leaf(&self) -> (r: Option<TokenId>)
        ensures
            self@.len() == 0 ==> r is None,
            self@.len() > 0 ==> r == Some(self@.last()),
    {
        let n = self.segments.len();
        if n == 0 {
            None
        } else {
            Some(self.segments[n - 1])
        }
    }
}


/// Interns [`Path`] values to stable [`PathId`]s.
///
/// Its view is the sequence of interned paths; an id is an index into it.
#[derive(Debug)]
pub struct PathInterner {
    by_path: PathIdTable,
    paths: Vec<Path>,
}

impl View for PathInterner {
    type V = Seq<Seq<TokenId>>;

    closed spec fn view(&self) -> Seq<Seq<TokenId>> {
        self.paths@.map_values(|p: Path| p@)
    }
}

impl PathInterner {
    /// The table maps each interned path to its index, and nothing else.
    #[verifier::type_invariant]
    closed spec fn inv(self) -> bool {
        let t = path_table_contents(self.by_path);
        &&& self.paths@.len() <= u32::MAX
        &&& forall|k: Seq<TokenId>| #[trigger]
            t.dom().contains(k) ==> 0 <= t[k].index() < self.paths@.len() && self.paths@[t[k].index()]@
                == k
        &&& forall|i: int|
            0 <= i < self.paths@.len() ==> t.dom().contains(#[trigger] self.paths@[i]@) && t[self.paths@[i]@].index()
                == i
    }

    /// The view of a well-formed interner has no duplicates.
    proof fn lemma_distinct(&self)
        requires
            self.inv(),
        ensures
            self@.no_duplicates(),
    {
        let t = path_table_contents(self.by_path);
        assert forall|i: int, j: int|
            0 <= i < self@.len() && 0 <= j < self@.len() && i != j implies self@[i] != self@[j] by {
            assert(self@[i] == self.paths@[i]@);
            assert(self@[j] == self.paths@[j]@);
            assert(t[self.paths@[i]@].index() == i);
            assert(t[self.paths@[j]@].index() == j);
        }
    }

    /// `true` when `id` names a path of this interner.
    pub open spec fn contains_id(&self, id: PathId) -> bool {
        0 <= id.index() < self@.len()
    }

    /// Creates an empty interner.
    pub fn new() -> (r: Self)
        ensures
            r@ == Seq::<Seq<TokenId>>::empty(),
    {
        let r = PathInterner { by_path: crate::hashed::path_table_new(), paths: Vec::new() };
        proof {
            assert(r@ =~= Seq::<Seq<TokenId>>::empty());
        }
        r
    }

    /// Number of interned paths.
    pub fn len(&self) -> (r: usize)
        ensures
            r == self@.len(),
    {
        self.paths.len()
    }

    /// Interns a path, returning a stable [`PathId`].
    ///
    /// A path interned before keeps its id and leaves the interner
    /// unchanged; a new path is appended and gets the next id.
    pub fn intern(&mut self, path: Path) -> (r: PathId)
        requires
            old(self)@.len() < u32::MAX,
        ensures
            final(self).contains_id(r),
            final(self)@[r.index()] == path@,
            final(self)@ == interned(old(self)@, path@),
            r.index() == intern_index(old(self)@, path@),
            final(self)@.no_duplicates(),
    {
        proof {
            use_type_invariant(&*self);
            self.lemma_distinct();
        }
        match crate::hashed::path_table_get(&self.by_path, &path) {
            Some(id) => {
                proof {
                    assert(self@[id.index()] == path@);
                    let k = self@.index_of(path@);
                    assert(self@.contains(path@));
                    assert(self@[k] == path@);
                }
                return id;
            },
            None => {},
        }
        proof {
            if self@.contains(path@) {
                let k = choose|k: int| 0 <= k < self@.len() && self@[k] == path@;
                assert(self.paths@[k]@ == path@);
            }
        }
        let mut whole = PathInterner::new();
        std::mem::swap(&mut whole, self);
        proof {
            use_type_invariant(&whole);
        }
        let PathInterner { mut by_path, mut paths } = whole;
        let n = paths.len();
        let id = PathId(n as u32);
        let copy = path.clone();
        paths.push(copy);
        crate::hashed::path_table_insert(&mut by_path, path, id);
        proof {
            let t = path_table_contents(by_path);
            assert forall|i: int| 0 <= i < paths@.len() implies t.dom().contains(
                #[trigger] paths@[i]@,
            ) && t[paths@[i]@].index() == i by {
                if i < n {
                    assert(paths@[i] == old(self).paths@[i]);
                }
            }
        }
        *self = PathInterner { by_path, paths };
        proof {
            assert(self@ =~= old(self)@.push(path@));
            use_type_invariant(&*self);
            self.lemma_distinct();
        }
        id
    }

    /// Resolves a [`PathId`] back to its [`Path`].
    pub fn resolve(&self, id: PathId) -> (r: &Path)
        requires
            self.contains_id(id),
        ensures
            r@ == self@[id.index()],
    {
        &self.paths[id.0 as usize]
    }

    /// Looks up a path without interning. Returns `None` if the path hasn't
    /// been interned.
    pub fn lookup(&self, path: &Path) -> (r: Option<PathId>)
        ensures
            self@.no_duplicates(),
            match r {
                Some(id) => self.contains_id(id) && self@[id.index()] == path@,
                None => !self@.contains(path@),
            },
    {
        proof {
            use_type_invariant(self);
            self.lemma_distinct();
        }
        let r = crate::hashed::path_table_get(&self.by_path, path);
        proof {
            if r is None && self@.contains(path@) {
                let k = choose|k: int| 0 <= k < self@.len() && self@[k] == path@;
                assert(self.paths@[k]@ == path@);
            }
        }
        r
    }
}

impl Default for PathInterner {
    fn default() -> (r: Self)
        ensures
            r@ == Seq::<Seq<TokenId>>::empty(),
    {
        PathInterner::new()
    }
}

} // verus!

//! Character-sequence helpers shared by the path and line readers.

use vstd::prelude::*;

verus! {

broadcast use vstd::string::group_string_axioms;

/// Copies the characters of `s` into a vector.
pub fn chars_of(s: &str) -> (r: Vec<char>)
    ensures
        r@ == s@,
{
    let mut out: Vec<char> = Vec::new();
    for c in it: s.chars()
        invariant
            out@ == it.seq().take(it.index() as int),
    {
        out.push(c);
    }
    out
}

/// The code point of a character.
pub open spec fn char_code(c: char) -> u32 {
    c as u32
}

/// `x` has a smaller Unicode code point than `y`.
pub open spec fn code_point_below(x: char, y: char) -> bool {
    (x as u32) < (y as u32)
}

/// Different characters have different code points.
pub proof fn lemma_char_code_injective(x: char, y: char)
    ensures
        char_code(x) == char_code(y) ==> x == y,
{
    vstd::utf8::char_u32_cast(x, x as u32);
    vstd::utf8::char_u32_cast(y, y as u32);
}

/// Whether `x` comes before `y` by code point.
pub fn char_less(x: char, y: char) -> (r: bool)
    ensures
        r == (char_code(x) < char_code(y)),
{
    (x as u32) < (y as u32)
}

/// Builds a string from a sequence of characters.
///
/// Trusted: `String::from_iter` over `&char` appends each character in order,
/// so the string's characters are exactly `cs`.
#[verifier::external_body]
pub(crate) fn string_from_chars(cs: &[char]) -> (r: String)
    ensures
        r@ == cs@,
{
    String::from_iter(cs)
}

/// The pieces of `s` between occurrences of `c`, as `str::split` yields them:
/// an empty input gives one empty piece, and each separator starts a new piece.
pub open spec fn split_char(s: Seq<char>, c: char) -> Seq<Seq<char>>
    decreases s.len(),
{
    if s.len() == 0 {
        seq![Seq::<char>::empty()]
    } else {
        let r = split_char(s.drop_last(), c);
        if s.last() == c {
            r.push(Seq::<char>::empty())
        } else {
            r.update(r.len() - 1, r.last().push(s.last()))
        }
    }
}

/// `split_char` never yields an empty list of pieces.
pub proof fn lemma_split_char_nonempty(s: Seq<char>, c: char)
    ensures
        split_char(s, c).len() >= 1,
    decreases s.len(),
{
    if s.len() > 0 {
        lemma_split_char_nonempty(s.drop_last(), c);
    }
}


/// The segments joined with `sep` between them.
pub open spec fn join_with(segs: Seq<Seq<char>>, sep: char) -> Seq<char>
    decreases segs.len(),
{
    if segs.len() == 0 {
        Seq::empty()
    } else if segs.len() == 1 {
        segs[0]
    } else {
        join_with(segs.drop_last(), sep).push(sep) + segs.last()
    }
}

/// `join_with(r.update(last, y.push(x)))` appends `x` to `join_with(r)`.
proof fn lemma_join_extend_last(r: Seq<Seq<char>>, sep: char, x: char)
    requires
        r.len() >= 1,
    ensures
        join_with(r.update(r.len() - 1, r.last().push(x)), sep) == join_with(r, sep).push(x),
{
    let r2 = r.update(r.len() - 1, r.last().push(x));
    if r.len() >= 2 {
        assert(r2.drop_last() =~= r.drop_last());
    }
}

/// Joining the pieces of a split with the separator gives back the text.
pub proof fn lemma_join_split(s: Seq<char>, c: char)
    ensures
        join_with(split_char(s, c), c) == s,
    decreases s.len(),
{
    if s.len() > 0 {
        let r = split_char(s.drop_last(), c);
        lemma_join_split(s.drop_last(), c);
        lemma_split_char_nonempty(s.drop_last(), c);
        if s.last() == c {
            assert(r.push(Seq::<char>::empty()).drop_last() =~= r);
            assert(join_with(r, c).push(c) + Seq::<char>::empty() =~= s);
        } else {
            lemma_join_extend_last(r, c, s.last());
            assert(s.drop_last().push(s.last()) =~= s);
        }
    }
}

/// A join whose first piece is empty starts with the separator.
pub proof fn lemma_join_empty_first(x: Seq<Seq<char>>, sep: char)
    requires
        x.len() >= 2,
        x[0].len() == 0,
    ensures
        join_with(x, sep) == seq![sep] + join_with(x.drop_first(), sep),
    decreases x.len(),
{
    if x.len() == 2 {
        assert(x.drop_last() =~= seq![x[0]]);
        assert(x.drop_first() =~= seq![x[1]]);
        assert(join_with(x.drop_last(), sep) == x[0]);
        assert(join_with(x.drop_first(), sep) == x[1]);
        assert(x[0].push(sep) =~= seq![sep]);
        assert(join_with(x, sep) == join_with(x.drop_last(), sep).push(sep) + x.last());
        assert(join_with(x, sep) =~= seq![sep] + x[1]);
    } else {
        lemma_join_empty_first(x.drop_last(), sep);
        assert(x.drop_first().drop_last() =~= x.drop_last().drop_first());
        assert(x.drop_first().last() == x.last());
        assert(join_with(x, sep) == join_with(x.drop_last(), sep).push(sep) + x.last());
        assert(join_with(x.drop_first(), sep) == join_with(x.drop_first().drop_last(), sep).push(sep)
            + x.drop_first().last());
        assert((seq![sep] + join_with(x.drop_last().drop_first(), sep)).push(sep) + x.last() =~= seq![
            sep,
        ] + (join_with(x.drop_last().drop_first(), sep).push(sep) + x.last()));
    }
}

/// Splitting after an appended separator adds an empty last piece.
pub proof fn lemma_split_push_sep(s: Seq<char>, c: char)
    ensures
        split_char(s.push(c), c) == split_char(s, c).push(Seq::<char>::empty()),
{
    assert(s.push(c).drop_last() =~= s);
}

/// Appending text without the separator extends the last piece.
pub proof fn lemma_split_append_plain(s: Seq<char>, b: Seq<char>, c: char)
    requires
        forall|k: int| 0 <= k < b.len() ==> b[k] != c,
    ensures
        split_char(s + b, c) == split_char(s, c).update(
            split_char(s, c).len() - 1,
            split_char(s, c).last() + b,
        ),
    decreases b.len(),
{
    lemma_split_char_nonempty(s, c);
    let r0 = split_char(s, c);
    if b.len() == 0 {
        assert(s + b =~= s);
        assert(r0.last() + b =~= r0.last());
        assert(r0.update(r0.len() - 1, r0.last()) =~= r0);
    } else {
        let bl = b.drop_last();
        lemma_split_append_plain(s, bl, c);
        assert((s + b).drop_last() =~= s + bl);
        assert((s + b).last() == b.last());
        let r = split_char(s + bl, c);
        assert(r.update(r.len() - 1, r.last().push(b.last())) =~= r0.update(
            r0.len() - 1,
            r0.last() + b,
        )) by {
            assert((r0.last() + bl).push(b.last()) =~= r0.last() + b);
        }
    }
}

/// Unicode `White_Space`: the characters `char::is_whitespace` accepts and
/// `str::trim` removes.
pub open spec fn is_ws(c: char) -> bool {
    let n = char_code(c);
    ||| 9 <= n <= 13
    ||| n == 32
    ||| n == 0x85
    ||| n == 0xA0
    ||| n == 0x1680
    ||| 0x2000 <= n <= 0x200A
    ||| n == 0x2028
    ||| n == 0x2029
    ||| n == 0x202F
    ||| n == 0x205F
    ||| n == 0x3000
}

/// Whether `c` is Unicode white space.
pub fn is_ws_char(c: char) -> (r: bool)
    ensures
        r == is_ws(c),
{
    let n = c as u32;
    (9 <= n && n <= 13) || n == 32 || n == 0x85 || n == 0xA0 || n == 0x1680 || (0x2000 <= n && n
        <= 0x200A) || n == 0x2028 || n == 0x2029 || n == 0x202F || n == 0x205F || n == 0x3000
}

/// `s` without leading white space.
pub open spec fn trim_start(s: Seq<char>) -> Seq<char>
    decreases s.len(),
{
    if s.len() > 0 && is_ws(s[0]) {
        trim_start(s.drop_first())
    } else {
        s
    }
}

/// `s` without trailing white space.
pub open spec fn trim_end(s: Seq<char>) -> Seq<char>
    decreases s.len(),
{
    if s.len() > 0 && is_ws(s.last()) {
        trim_end(s.drop_last())
    } else {
        s
    }
}

/// `s` without leading or trailing white space (`str::trim`).
pub open spec fn trim(s: Seq<char>) -> Seq<char> {
    trim_end(trim_start(s))
}

/// `s` without leading copies of `c`.
pub open spec fn trim_start_char(s: Seq<char>, c: char) -> Seq<char>
    decreases s.len(),
{
    if s.len() > 0 && s[0] == c {
        trim_start_char(s.drop_first(), c)
    } else {
        s
    }
}

/// `s` without trailing copies of `c` (`str::trim_end_matches`).
pub open spec fn trim_end_char(s: Seq<char>, c: char) -> Seq<char>
    decreases s.len(),
{
    if s.len() > 0 && s.last() == c {
        trim_end_char(s.drop_last(), c)
    } else {
        s
    }
}

/// `s` without leading or trailing copies of `c` (`str::trim_matches`).
pub open spec fn trim_char(s: Seq<char>, c: char) -> Seq<char> {
    trim_end_char(trim_start_char(s, c), c)
}

/// The first index at or after `i` holding `c`, or `s.len()` if none.
pub open spec fn char_from(s: Seq<char>, i: int, c: char) -> int
    decreases s.len() - i,
{
    if i < 0 || i >= s.len() {
        s.len() as int
    } else if s[i] == c {
        i
    } else {
        char_from(s, i + 1, c)
    }
}

/// `char_from` lies between `i` and the length, and skips no `c`.
pub proof fn lemma_char_from_bounds(s: Seq<char>, i: int, c: char)
    requires
        0 <= i <= s.len(),
    ensures
        i <= char_from(s, i, c) <= s.len(),
        char_from(s, i, c) < s.len() ==> s[char_from(s, i, c)] == c,
        forall|j: int| i <= j < char_from(s, i, c) ==> s[j] != c,
    decreases s.len() - i,
{
    if i < s.len() && s[i] != c {
        lemma_char_from_bounds(s, i + 1, c);
    }
}

/// The index of the first `c` in `s` (`str::find` with a character).
pub open spec fn find_char(s: Seq<char>, c: char) -> Option<int> {
    if char_from(s, 0, c) < s.len() {
        Some(char_from(s, 0, c))
    } else {
        None
    }
}

/// The index of the last `c` in `s` (`str::rfind` with a character).
pub open spec fn rfind_char(s: Seq<char>, c: char) -> Option<int>
    decreases s.len(),
{
    if s.len() == 0 {
        None
    } else if s.last() == c {
        Some(s.len() - 1)
    } else {
        rfind_char(s.drop_last(), c)
    }
}

/// `rfind_char` finds a `c`, the last one.
pub proof fn lemma_rfind_char(s: Seq<char>, c: char)
    ensures
        rfind_char(s, c) matches Some(i) ==> 0 <= i < s.len() && s[i] == c && forall|j: int|
            i < j < s.len() ==> s[j] != c,
        rfind_char(s, c) is None ==> forall|j: int| 0 <= j < s.len() ==> s[j] != c,
    decreases s.len(),
{
    if s.len() > 0 && s.last() != c {
        lemma_rfind_char(s.drop_last(), c);
        assert forall|j: int| 0 <= j < s.len() - 1 implies s.drop_last()[j] == s[j] by {}
    }
}

/// `true` when `p` occurs in `s` at index `i`.
pub open spec fn occurs_at(s: Seq<char>, p: Seq<char>, i: int) -> bool {
    0 <= i && i + p.len() <= s.len() && s.subrange(i, i + p.len()) == p
}

/// The first index at or after `i` where `p` occurs in `s`.
pub open spec fn sub_from(s: Seq<char>, p: Seq<char>, i: int) -> Option<int>
    decreases s.len() + 1 - i,
{
    if i < 0 || i + p.len() > s.len() {
        None
    } else if occurs_at(s, p, i) {
        Some(i)
    } else {
        sub_from(s, p, i + 1)
    }
}

/// The index of the first occurrence of `p` in `s` (`str::find` with a
/// string pattern).
pub open spec fn find_sub(s: Seq<char>, p: Seq<char>) -> Option<int> {
    sub_from(s, p, 0)
}

/// `true` when `p` occurs in `s` (`str::contains`).
pub open spec fn contains_sub(s: Seq<char>, p: Seq<char>) -> bool {
    find_sub(s, p) is Some
}

/// `s` after the prefix `p`, if it starts with it (`str::strip_prefix`).
pub open spec fn strip_prefix(s: Seq<char>, p: Seq<char>) -> Option<Seq<char>> {
    if p.len() <= s.len() && s.take(p.len() as int) == p {
        Some(s.skip(p.len() as int))
    } else {
        None
    }
}

/// `true` when `s` starts with `c`.
pub open spec fn starts_with_char(s: Seq<char>, c: char) -> bool {
    s.len() > 0 && s[0] == c
}

/// The parts of `s` before and after its first `c` (`str::split_once`).
pub open spec fn split_once_char(s: Seq<char>, c: char) -> Option<(Seq<char>, Seq<char>)> {
    match find_char(s, c) {
        Some(i) => Some((s.take(i), s.skip(i + 1))),
        None => None,
    }
}

/// The pieces of `s[i..]` between non-overlapping occurrences of `p`, found
/// left to right (`str::split` with a non-empty string pattern).
pub open spec fn split_sub_from(s: Seq<char>, p: Seq<char>, i: int) -> Seq<Seq<char>>
    decreases s.len() - i,
{
    if p.len() == 0 || i < 0 || i > s.len() {
        seq![s.skip(i)]
    } else {
        match sub_from(s, p, i) {
            Some(j) => {
                proof {
                    lemma_sub_from_bounds(s, p, i);
                }
                seq![s.subrange(i, j)] + split_sub_from(s, p, j + p.len())
            },
            None => seq![s.skip(i)],
        }
    }
}

/// `sub_from` finds an occurrence at or after `i`, the first one.
pub proof fn lemma_sub_from_bounds(s: Seq<char>, p: Seq<char>, i: int)
    requires
        0 <= i,
    ensures
        sub_from(s, p, i) matches Some(j) ==> i <= j && occurs_at(s, p, j) && forall|k: int|
            i <= k < j ==> !occurs_at(s, p, k),
        sub_from(s, p, i) is None ==> forall|k: int| i <= k ==> !occurs_at(s, p, k),
    decreases s.len() + 1 - i,
{
    if i + p.len() <= s.len() && !occurs_at(s, p, i) {
        lemma_sub_from_bounds(s, p, i + 1);
    }
}

/// The pieces of `s` between occurrences of `p`.
pub open spec fn split_sub(s: Seq<char>, p: Seq<char>) -> Seq<Seq<char>> {
    split_sub_from(s, p, 0)
}

/// The character views of a list of strings.
pub open spec fn texts(v: Seq<String>) -> Seq<Seq<char>> {
    v.map_values(|s: String| s@)
}

/// The character views of a list of character vectors.
pub open spec fn views(v: Seq<Vec<char>>) -> Seq<Seq<char>> {
    v.map_values(|x: Vec<char>| x@)
}

/// The character view of an optional string.
pub open spec fn opt_text(v: Option<String>) -> Option<Seq<char>> {
    match v {
        Some(s) => Some(s@),
        None => None,
    }
}

/// Copies `s[a..b]`.
pub fn sub_vec(s: &Vec<char>, a: usize, b: usize) -> (r: Vec<char>)
    requires
        a <= b <= s@.len(),
    ensures
        r@ == s@.subrange(a as int, b as int),
{
    let mut out: Vec<char> = Vec::new();
    let mut j = a;
    while j < b
        invariant
            a <= j <= b,
            b <= s@.len(),
            out@ == s@.subrange(a as int, j as int),
        decreases b - j,
    {
        out.push(s[j]);
        proof {
            assert(s@.subrange(a as int, j + 1) =~= s@.subrange(a as int, j as int).push(s@[j as int]));
        }
        j = j + 1;
    }
    out
}

/// `str::trim` on a character vector.
pub fn trim_vec(s: &Vec<char>) -> (r: Vec<char>)
    ensures
        r@ == trim(s@),
{
    let n = s.len();
    let mut a: usize = 0;
    proof {
        assert(s@.skip(0) =~= s@);
    }
    while a < n && is_ws_char(s[a])
        invariant
            a <= n,
            n == s@.len(),
            trim_start(s@) == trim_start(s@.skip(a as int)),
        decreases n - a,
    {
        proof {
            assert(s@.skip(a as int).drop_first() =~= s@.skip(a + 1));
        }
        a = a + 1;
    }
    let ghost front = s@.skip(a as int);
    let mut b: usize = n;
    proof {
        assert(s@.subrange(a as int, n as int) =~= front);
    }
    while b > a && is_ws_char(s[b - 1])
        invariant
            a <= b <= n,
            n == s@.len(),
            front == s@.skip(a as int),
            trim_end(front) == trim_end(s@.subrange(a as int, b as int)),
        decreases b - a,
    {
        proof {
            assert(s@.subrange(a as int, b as int).drop_last() =~= s@.subrange(a as int, b - 1));
        }
        b = b - 1;
    }
    sub_vec(s, a, b)
}

/// `str::trim_end_matches` with a character, on a character vector.
pub fn trim_end_char_vec(s: &Vec<char>, c: char) -> (r: Vec<char>)
    ensures
        r@ == trim_end_char(s@, c),
{
    let n = s.len();
    let mut b: usize = n;
    proof {
        assert(s@.subrange(0, n as int) =~= s@);
    }
    while b > 0 && s[b - 1] == c
        invariant
            b <= n,
            n == s@.len(),
            trim_end_char(s@, c) == trim_end_char(s@.subrange(0, b as int), c),
        decreases b,
    {
        proof {
            assert(s@.subrange(0, b as int).drop_last() =~= s@.subrange(0, b - 1));
        }
        b = b - 1;
    }
    sub_vec(s, 0, b)
}

/// `str::trim_matches` with a character, on a character vector.
pub fn trim_char_vec(s: &Vec<char>, c: char) -> (r: Vec<char>)
    ensures
        r@ == trim_char(s@, c),
{
    let n = s.len();
    let mut a: usize = 0;
    proof {
        assert(s@.skip(0) =~= s@);
    }
    while a < n && s[a] == c
        invariant
            a <= n,
            n == s@.len(),
            trim_start_char(s@, c) == trim_start_char(s@.skip(a as int), c),
        decreases n - a,
    {
        proof {
            assert(s@.skip(a as int).drop_first() =~= s@.skip(a + 1));
        }
        a = a + 1;
    }
    let front = sub_vec(s, a, n);
    proof {
        assert(front@ =~= s@.skip(a as int));
    }
    trim_end_char_vec(&front, c)
}

/// `str::find` with a character, on a character vector.
pub fn find_vec(s: &Vec<char>, c: char) -> (r: Option<usize>)
    ensures
        match r {
            Some(i) => i < s@.len() && s@[i as int] == c && find_char(s@, c) == Some(i as int),
            None => find_char(s@, c) is None,
        },
{
    let n = s.len();
    let mut j: usize = 0;
    while j < n && s[j] != c
        invariant
            j <= n,
            n == s@.len(),
            char_from(s@, 0, c) == char_from(s@, j as int, c),
        decreases n - j,
    {
        j = j + 1;
    }
    proof {
        lemma_char_from_bounds(s@, 0, c);
    }
    if j < n {
        Some(j)
    } else {
        None
    }
}

/// `str::rfind` with a character, on a character vector.
pub fn rfind_vec(s: &Vec<char>, c: char) -> (r: Option<usize>)
    ensures
        match r {
            Some(i) => rfind_char(s@, c) == Some(i as int),
            None => rfind_char(s@, c) is None,
        },
{
    let n = s.len();
    let mut b: usize = n;
    proof {
        assert(s@.subrange(0, n as int) =~= s@);
    }
    while b > 0 && s[b - 1] != c
        invariant
            b <= n,
            n == s@.len(),
            rfind_char(s@, c) == rfind_char(s@.subrange(0, b as int), c),
        decreases b,
    {
        proof {
            assert(s@.subrange(0, b as int).drop_last() =~= s@.subrange(0, b - 1));
        }
        b = b - 1;
    }
    if b > 0 {
        Some(b - 1)
    } else {
        None
    }
}

/// Whether `p` occurs in `s` at index `i`.
pub fn occurs_at_vec(s: &Vec<char>, p: &Vec<char>, i: usize) -> (r: bool)
    ensures
        r == occurs_at(s@, p@, i as int),
{
    let m = p.len();
    let n = s.len();
    if i > n || m > n - i {
        return false;
    }
    let mut k: usize = 0;
    while k < m
        invariant
            k <= m,
            m == p@.len(),
            n == s@.len(),
            i + m <= n,
            forall|t: int| 0 <= t < k ==> s@[i + t] == p@[t],
        decreases m - k,
    {
        if s[i + k] != p[k] {
            proof {
                assert(s@.subrange(i as int, i + m)[k as int] != p@[k as int]);
            }
            return false;
        }
        k = k + 1;
    }
    proof {
        assert(s@.subrange(i as int, i + m) =~= p@);
    }
    true
}

/// The first index at or after `i` where `p` occurs in `s`.
pub fn sub_from_vec(s: &Vec<char>, p: &Vec<char>, i: usize) -> (r: Option<usize>)
    ensures
        match r {
            Some(j) => sub_from(s@, p@, i as int) == Some(j as int),
            None => sub_from(s@, p@, i as int) is None,
        },
{
    let n = s.len();
    let m = p.len();
    if m == 0 {
        if i <= n {
            proof {
                assert(occurs_at(s@, p@, i as int)) by {
                    assert(s@.subrange(i as int, i as int) =~= p@);
                }
            }
            return Some(i);
        }
        return None;
    }
    let mut j = i;
    while m <= n && j <= n - m
        invariant
            i <= j,
            n == s@.len(),
            m == p@.len(),
            m >= 1,
            sub_from(s@, p@, i as int) == sub_from(s@, p@, j as int),
        decreases n - j,
    {
        if occurs_at_vec(s, p, j) {
            return Some(j);
        }
        j = j + 1;
    }
    None
}

/// `str::find` with a string pattern, on character vectors.
pub fn find_sub_vec(s: &Vec<char>, p: &Vec<char>) -> (r: Option<usize>)
    ensures
        match r {
            Some(j) => find_sub(s@, p@) == Some(j as int),
            None => find_sub(s@, p@) is None,
        },
{
    sub_from_vec(s, p, 0)
}

/// `str::strip_prefix`, on character vectors.
pub fn strip_prefix_vec(s: &Vec<char>, p: &Vec<char>) -> (r: Option<Vec<char>>)
    ensures
        match r {
            Some(v) => strip_prefix(s@, p@) == Some(v@),
            None => strip_prefix(s@, p@) is None,
        },
{
    if occurs_at_vec(s, p, 0) {
        proof {
            assert(s@.take(p@.len() as int) =~= s@.subrange(0, p@.len() as int));
        }
        let rest = sub_vec(s, p.len(), s.len());
        proof {
            assert(rest@ =~= s@.skip(p@.len() as int));
        }
        Some(rest)
    } else {
        proof {
            if p@.len() <= s@.len() && s@.take(p@.len() as int) == p@ {
                assert(s@.subrange(0, p@.len() as int) =~= s@.take(p@.len() as int));
            }
        }
        None
    }
}

/// `str::split_once` with a character, on a character vector.
pub fn split_once_vec(s: &Vec<char>, c: char) -> (r: Option<(Vec<char>, Vec<char>)>)
    ensures
        match r {
            Some((a, b)) => split_once_char(s@, c) == Some((a@, b@)),
            None => split_once_char(s@, c) is None,
        },
{
    let n = s.len();
    match find_vec(s, c) {
        Some(i) => {
            proof {
                lemma_char_from_bounds(s@, 0, c);
            }
            let a = sub_vec(s, 0, i);
            let b = sub_vec(s, i + 1, n);
            proof {
                assert(a@ =~= s@.take(i as int));
                assert(b@ =~= s@.skip(i + 1));
            }
            Some((a, b))
        },
        None => None,
    }
}

/// `str::split` with a character, on a character vector.
pub fn split_vec(s: &Vec<char>, c: char) -> (r: Vec<Vec<char>>)
    ensures
        views(r@) == split_char(s@, c),
{
    let n = s.len();
    let mut out: Vec<Vec<char>> = Vec::new();
    let mut cur: Vec<char> = Vec::new();
    let mut i: usize = 0;
    proof {
        assert(s@.take(0) =~= Seq::<char>::empty());
    }
    while i < n
        invariant
            i <= n,
            n == s@.len(),
            split_char(s@.take(i as int), c) == views(out@).push(cur@),
        decreases n - i,
    {
        proof {
            assert(s@.take(i + 1).drop_last() =~= s@.take(i as int));
            assert(s@.take(i + 1).last() == s@[i as int]);
        }
        if s[i] == c {
            let done = cur;
            out.push(done);
            cur = Vec::new();
            proof {
                assert(split_char(s@.take(i + 1), c) =~= views(out@).push(cur@));
            }
        } else {
            let ghost before = views(out@).push(cur@);
            cur.push(s[i]);
            proof {
                assert(split_char(s@.take(i + 1), c) =~= views(out@).push(cur@));
            }
        }
        i = i + 1;
    }
    proof {
        assert(s@.take(n as int) =~= s@);
    }
    out.push(cur);
    proof {
        assert(views(out@) =~= split_char(s@, c));
    }
    out
}

/// `str::split` with a non-empty string pattern, on character vectors.
pub fn split_sub_vec(s: &Vec<char>, p: &Vec<char>) -> (r: Vec<Vec<char>>)
    requires
        p@.len() > 0,
    ensures
        views(r@) == split_sub(s@, p@),
{
    let n = s.len();
    let mut out: Vec<Vec<char>> = Vec::new();
    let mut i: usize = 0;
    let mut finished = false;
    while !finished
        invariant
            i <= n,
            n == s@.len(),
            p@.len() > 0,
            !finished ==> split_sub(s@, p@) == views(out@) + split_sub_from(s@, p@, i as int),
            finished ==> split_sub(s@, p@) == views(out@),
        decreases n - i, if finished { 0int } else { 1int },
    {
        match sub_from_vec(s, p, i) {
            Some(j) => {
                proof {
                    lemma_sub_from_bounds(s@, p@, i as int);
                }
                let piece = sub_vec(s, i, j);
                let ghost before = views(out@);
                out.push(piece);
                proof {
                    assert(split_sub_from(s@, p@, i as int) == seq![s@.subrange(i as int, j as int)] + split_sub_from(s@, p@, j + p@.len()));
                    assert(views(out@) =~= before.push(piece@));
                    assert(before + (seq![piece@] + split_sub_from(s@, p@, j + p@.len())) =~= before.push(piece@) + split_sub_from(s@, p@, j + p@.len()));
                }
                i = j + p.len();
            },
            None => {
                let piece = sub_vec(s, i, n);
                let ghost before = views(out@);
                out.push(piece);
                proof {
                    assert(piece@ =~= s@.skip(i as int));
                    assert(views(out@) =~= before + split_sub_from(s@, p@, i as int));
                }
                finished = true;
            },
        }
    }
    out
}

/// Whether the vector starts with `c`.
pub fn starts_with_char_vec(s: &Vec<char>, c: char) -> (r: bool)
    ensures
        r == starts_with_char(s@, c),
{
    s.len() > 0 && s[0] == c
}

/// The string with the given characters.
pub fn text_of(v: &Vec<char>) -> (r: String)
    ensures
        r@ == v@,
{
    string_from_chars(v.as_slice())
}

} // verus!

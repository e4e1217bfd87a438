//! Stable sorting of positions under a strict total order.
//!
//! A stable sort of `n` items lists the positions `0..n` so that each comes
//! before the next under an order that breaks ties by position; such a list
//! is unique, and inserting positions one at a time keeps it sorted.

use vstd::prelude::*;

verus! {

/// `before` is a strict total order on the positions below `n`.
pub open spec fn strict_total_on(before: spec_fn(int, int) -> bool, n: int) -> bool {
    &&& forall|i: int, j: int|
        #![trigger before(i, j), before(j, i)]
        0 <= i < n && 0 <= j < n ==> !(before(i, j) && before(j, i))
    &&& forall|i: int| 0 <= i < n ==> !#[trigger] before(i, i)
    &&& forall|i: int, j: int|
        #![trigger before(i, j)]
        0 <= i < n && 0 <= j < n && i != j ==> before(i, j) || before(j, i)
    &&& forall|i: int, j: int, k: int|
        #![trigger before(i, j), before(j, k)]
        0 <= i < n && 0 <= j < n && 0 <= k < n && before(i, j) && before(j, k) ==> before(i, k)
}

/// `r` is ordered by `before`.
pub open spec fn ordered_by(before: spec_fn(int, int) -> bool, r: Seq<usize>) -> bool {
    forall|a: int, b: int|
        #![trigger r[a], r[b]]
        0 <= a < b < r.len() ==> before(r[a] as int, r[b] as int)
}

/// `r` lists each position below `n` once, ordered by `before`.
pub open spec fn sorted_positions(before: spec_fn(int, int) -> bool, n: int, r: Seq<usize>) -> bool {
    &&& r.len() == n
    &&& r.no_duplicates()
    &&& forall|a: int| 0 <= a < r.len() ==> #[trigger] r[a] < n
    &&& forall|x: usize| x < n ==> #[trigger] r.contains(x)
    &&& ordered_by(before, r)
}

/// Under a strict total order, the sorted list of the positions below `n`
/// is unique.
pub proof fn lemma_sorted_unique(before: spec_fn(int, int) -> bool, n: int, r: Seq<usize>, s: Seq<usize>)
    requires
        strict_total_on(before, n),
        sorted_positions(before, n, r),
        sorted_positions(before, n, s),
    ensures
        r == s,
{
    assert forall|x: usize| #![trigger r.contains(x)] #![trigger s.contains(x)] r.contains(x) <==> s.contains(x) by {
        if r.contains(x) {
            let a = choose|a: int| 0 <= a < r.len() && r[a] == x;
            assert(x < n);
        }
        if s.contains(x) {
            let a = choose|a: int| 0 <= a < s.len() && s[a] == x;
            assert(x < n);
        }
    }
    lemma_ordered_unique(before, n, r, s);
}

/// Two sequences of distinct positions below `n` with the same members, both
/// ordered by the strict total order `before`, are equal.
pub proof fn lemma_ordered_unique(before: spec_fn(int, int) -> bool, n: int, r: Seq<usize>, s: Seq<usize>)
    requires
        strict_total_on(before, n),
        r.no_duplicates(),
        s.no_duplicates(),
        forall|a: int| 0 <= a < r.len() ==> #[trigger] r[a] < n,
        forall|x: usize| #![trigger r.contains(x)] #![trigger s.contains(x)] r.contains(x) <==> s.contains(x),
        ordered_by(before, r),
        ordered_by(before, s),
    ensures
        r == s,
    decreases r.len(),
{
    if r.len() == 0 {
        if s.len() > 0 {
            assert(s.contains(s[0]));
        }
        assert(r =~= s);
    } else {
        assert(r.contains(r[0]));
        assert(s.len() > 0);
        assert(s.contains(s[0]));
        let x = r[0];
        let y = s[0];
        let b = choose|b: int| 0 <= b < s.len() && s[b] == x;
        let c = choose|c: int| 0 <= c < r.len() && r[c] == y;
        if x != y {
            assert(b != 0 && c != 0);
            assert(before(s[0] as int, s[b] as int));
            assert(before(r[0] as int, r[c] as int));
            assert(r[c] < n);
            assert(!(before(x as int, y as int) && before(y as int, x as int)));
        }
        let r2 = r.drop_first();
        let s2 = s.drop_first();
        assert forall|z: usize| #![trigger r2.contains(z)] #![trigger s2.contains(z)] r2.contains(z) <==> s2.contains(z) by {
            if r2.contains(z) {
                let i = choose|i: int| 0 <= i < r2.len() && r2[i] == z;
                assert(r[i + 1] == z);
                assert(r.contains(z));
                assert(z != x);
                let k = choose|k: int| 0 <= k < s.len() && s[k] == z;
                assert(k != 0);
                assert(s2[k - 1] == z);
            }
            if s2.contains(z) {
                let i = choose|i: int| 0 <= i < s2.len() && s2[i] == z;
                assert(s[i + 1] == z);
                assert(s.contains(z));
                assert(z != y);
                let k = choose|k: int| 0 <= k < r.len() && r[k] == z;
                assert(k != 0);
                assert(r2[k - 1] == z);
            }
        }
        assert forall|a: int, b: int|
            #![trigger r2[a], r2[b]]
            0 <= a < b < r2.len() implies before(r2[a] as int, r2[b] as int) by {
            assert(r2[a] == r[a + 1] && r2[b] == r[b + 1]);
        }
        assert forall|a: int, b: int|
            #![trigger s2[a], s2[b]]
            0 <= a < b < s2.len() implies before(s2[a] as int, s2[b] as int) by {
            assert(s2[a] == s[a + 1] && s2[b] == s[b + 1]);
        }
        assert forall|a: int| 0 <= a < r2.len() implies #[trigger] r2[a] < n by {
            assert(r2[a] == r[a + 1]);
        }
        lemma_ordered_unique(before, n, r2, s2);
        assert(r =~= seq![x] + r2);
        assert(s =~= seq![y] + s2);
    }
}

/// Inserting position `i` into the sorted positions below it, just before
/// the first entry that `i` goes before, gives the sorted positions below
/// `i + 1`.
pub proof fn lemma_insert_sorted(before: spec_fn(int, int) -> bool, n: int, r: Seq<usize>, p: int, i: usize)
    requires
        strict_total_on(before, n),
        i < n,
        sorted_positions(before, i as int, r),
        0 <= p <= r.len(),
        forall|q: int| p <= q < r.len() ==> before(i as int, #[trigger] r[q] as int),
        p > 0 ==> !before(i as int, r[p - 1] as int),
    ensures
        sorted_positions(before, i + 1, r.insert(p, i)),
{
    let s = r.insert(p, i);
    assert forall|a: int, b: int|
        #![trigger s[a], s[b]]
        0 <= a < b < s.len() implies before(s[a] as int, s[b] as int) by {
        if a == p {
            assert(s[b] == r[b - 1]);
        } else if b == p {
            assert(s[a] == r[a]);
            let last = r[p - 1];
            assert(last < i);
            assert(before(last as int, i as int));
            if a < p - 1 {
                assert(before(r[a] as int, r[p - 1] as int));
                assert(r[a] < i);
            }
        } else {
            let a1 = if a < p { a } else { a - 1 };
            let b1 = if b < p { b } else { b - 1 };
            assert(s[a] == r[a1] && s[b] == r[b1]);
        }
    }
    assert forall|x: usize| x < i + 1 implies #[trigger] s.contains(x) by {
        if x == i {
            assert(s[p] == i);
        } else {
            assert(r.contains(x));
            let k = choose|k: int| 0 <= k < r.len() && r[k] == x;
            if k < p {
                assert(s[k] == x);
            } else {
                assert(s[k + 1] == x);
            }
        }
    }
    assert forall|a: int, b: int| 0 <= a < b < s.len() implies s[a] != s[b] by {
        if a != p && b != p {
            let a1 = if a < p { a } else { a - 1 };
            let b1 = if b < p { b } else { b - 1 };
            assert(s[a] == r[a1] && s[b] == r[b1]);
        } else if a == p {
            assert(s[b] == r[b - 1]);
        } else {
            assert(s[a] == r[a]);
        }
    }
    assert forall|a: int| 0 <= a < s.len() implies #[trigger] s[a] < i + 1 by {
        if a < p {
            assert(s[a] == r[a]);
        } else if a > p {
            assert(s[a] == r[a - 1]);
        }
    }
}

} // verus!

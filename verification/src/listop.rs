//! List operations (`ListOp`): edits of an ordered list that compose across
//! the opinions of a layer stack.
//!
//! An explicit list replaces the list; otherwise the deleted items are
//! removed, the prepended items are moved (or added) to the front, and the
//! appended items are moved (or added) to the end. A chain of list
//! operations given strongest first is applied weakest first.

use vstd::prelude::*;

use crate::interner::TokenId;
use crate::path::PathId;

verus! {

/// Items a list operation can hold: copyable values whose equality can be
/// tested.
pub trait ListItem: Copy + Sized {
    /// Whether two items are the same item.
    fn same_item(&self, other: &Self) -> (r: bool)
        ensures
            r == (*self == *other),
    ;
}

impl ListItem for PathId {
    fn same_item(&self, other: &Self) -> (r: bool) {
        *self == *other
    }
}

impl ListItem for u32 {
    fn same_item(&self, other: &Self) -> (r: bool) {
        *self == *other
    }
}

impl ListItem for TokenId {
    fn same_item(&self, other: &Self) -> (r: bool) {
        *self == *other
    }
}

/// An edit of an ordered list.
#[derive(Clone, Debug, PartialEq, Eq)]
pub struct ListOp<T> {
    /// When present, the list is replaced by these items.
    pub explicit: Option<Vec<T>>,
    /// Items moved (or added) to the front, in this order.
    pub prepend: Vec<T>,
    /// Items moved (or added) to the end, in this order.
    pub append: Vec<T>,
    /// Items removed.
    pub delete: Vec<T>,
}

impl<T> ListOp<T> {
    /// An edit that changes nothing.
    pub fn new() -> (r: Self)
        ensures
            r.explicit is None,
            r.prepend@.len() == 0,
            r.append@.len() == 0,
            r.delete@.len() == 0,
    {
        ListOp { explicit: None, prepend: Vec::new(), append: Vec::new(), delete: Vec::new() }
    }
}

impl<T> Default for ListOp<T> {
    fn default() -> (r: Self)
        ensures
            r.explicit is None,
            r.prepend@.len() == 0,
            r.append@.len() == 0,
            r.delete@.len() == 0,
    {
        ListOp::new()
    }
}

/// The items of `l` that are not among `xs`, in order.
pub open spec fn without<T>(l: Seq<T>, xs: Seq<T>) -> Seq<T> {
    l.filter(|x: T| !xs.contains(x))
}

/// The explicit items of `op`, if it has them.
pub open spec fn explicit_items<T>(op: ListOp<T>) -> Option<Seq<T>> {
    match op.explicit {
        Some(v) => Some(v@),
        None => None,
    }
}

/// The list `l` after the edit `op`.
pub open spec fn list_op_applied<T>(l: Seq<T>, op: ListOp<T>) -> Seq<T> {
    match explicit_items(op) {
        Some(e) => e,
        None => {
            let d = without(l, op.delete@);
            let p = op.prepend@ + without(d, op.prepend@);
            without(p, op.append@) + op.append@
        },
    }
}

/// The list `base` after the edits `ops`, given strongest first and applied
/// weakest first.
pub open spec fn list_chain<T>(base: Seq<T>, ops: Seq<ListOp<T>>) -> Seq<T>
    decreases ops.len(),
{
    if ops.len() == 0 {
        base
    } else {
        list_op_applied(list_chain(base, ops.drop_first()), ops[0])
    }
}

/// Filtering one more element appends it when it passes.
proof fn lemma_filter_step<T>(s: Seq<T>, pred: spec_fn(T) -> bool, j: int)
    requires
        0 <= j < s.len(),
    ensures
        s.take(j + 1).filter(pred) == (if pred(s[j]) {
            s.take(j).filter(pred).push(s[j])
        } else {
            s.take(j).filter(pred)
        }),
{
    reveal(Seq::filter);
    assert(s.take(j + 1).drop_last() =~= s.take(j));
    assert(s.take(j + 1).last() == s[j]);
}

/// Whether `x` is one of `xs`.
fn contains_item<T: ListItem>(xs: &[T], x: &T) -> (r: bool)
    ensures
        r == xs@.contains(*x),
{
    let n = xs.len();
    let mut i: usize = 0;
    while i < n
        invariant
            n == xs@.len(),
            i <= n,
            forall|k: int| 0 <= k < i ==> xs@[k] != *x,
        decreases n - i,
    {
        if xs[i].same_item(x) {
            proof {
                assert(xs@[i as int] == *x);
            }
            return true;
        }
        i = i + 1;
    }
    false
}

/// The items of `l` that are not among `xs`, in order.
fn remove_items<T: ListItem>(l: &[T], xs: &[T]) -> (r: Vec<T>)
    ensures
        r@ == without(l@, xs@),
{
    let ghost pred = |x: T| !xs@.contains(x);
    let mut out: Vec<T> = Vec::new();
    let n = l.len();
    let mut j: usize = 0;
    proof {
        reveal(Seq::filter);
        assert(l@.take(0) =~= Seq::<T>::empty());
    }
    while j < n
        invariant
            n == l@.len(),
            j <= n,
            pred == (|x: T| !xs@.contains(x)),
            out@ == l@.take(j as int).filter(pred),
        decreases n - j,
    {
        let x = l[j];
        proof {
            lemma_filter_step(l@, pred, j as int);
        }
        if !contains_item(xs, &x) {
            out.push(x);
        }
        j = j + 1;
    }
    proof {
        assert(l@.take(n as int) =~= l@);
    }
    out
}

/// `a` followed by `b`.
pub(crate) fn concat<T: Copy>(a: &[T], b: &[T]) -> (r: Vec<T>)
    ensures
        r@ == a@ + b@,
{
    let mut out: Vec<T> = Vec::new();
    let n = a.len();
    let mut i: usize = 0;
    while i < n
        invariant
            n == a@.len(),
            i <= n,
            out@ == a@.take(i as int),
        decreases n - i,
    {
        out.push(a[i]);
        proof {
            assert(a@.take(i + 1) =~= a@.take(i as int).push(a@[i as int]));
        }
        i = i + 1;
    }
    let m = b.len();
    let mut k: usize = 0;
    proof {
        assert(a@.take(n as int) =~= a@);
    }
    while k < m
        invariant
            m == b@.len(),
            k <= m,
            out@ == a@ + b@.take(k as int),
        decreases m - k,
    {
        out.push(b[k]);
        proof {
            assert(a@ + b@.take(k + 1) =~= (a@ + b@.take(k as int)).push(b@[k as int]));
        }
        k = k + 1;
    }
    proof {
        assert(b@.take(m as int) =~= b@);
    }
    out
}

impl<T: ListItem> ListOp<T> {
    /// Applies this edit to `list`.
    pub fn apply(&self, list: &[T]) -> (r: Vec<T>)
        ensures
            r@ == list_op_applied(list@, *self),
    {
        match &self.explicit {
            Some(items) => concat(items.as_slice(), &[]),
            None => {
                let d = remove_items(list, self.delete.as_slice());
                let rest = remove_items(d.as_slice(), self.prepend.as_slice());
                let p = concat(self.prepend.as_slice(), rest.as_slice());
                let kept = remove_items(p.as_slice(), self.append.as_slice());
                concat(kept.as_slice(), self.append.as_slice())
            },
        }
    }
}

/// Resolves a chain of list edits, given strongest first, over `base`: the
/// weakest edit applies first and each stronger one edits its result.
pub fn resolve_list_chain<T: ListItem>(base: &[T], ops: &[ListOp<T>]) -> (r: Vec<T>)
    ensures
        r@ == list_chain(base@, ops@),
{
    let mut acc = concat(base, &[]);
    let n = ops.len();
    let mut i: usize = n;
    proof {
        assert(ops@.subrange(n as int, n as int) =~= Seq::<ListOp<T>>::empty());
    }
    while i > 0
        invariant
            n == ops@.len(),
            i <= n,
            acc@ == list_chain(base@, ops@.subrange(i as int, n as int)),
        decreases i,
    {
        i = i - 1;
        let next = ops[i].apply(acc.as_slice());
        proof {
            let s = ops@.subrange(i as int, n as int);
            assert(s[0] == ops@[i as int]);
            assert(s.drop_first() =~= ops@.subrange(i + 1, n as int));
        }
        acc = next;
    }
    proof {
        assert(ops@.subrange(0, n as int) =~= ops@);
    }
    acc
}

/// An item is kept by `without` exactly when it is in the list and not
/// among the removed items.
pub proof fn lemma_without_contains<T>(l: Seq<T>, xs: Seq<T>, x: T)
    ensures
        without(l, xs).contains(x) <==> (l.contains(x) && !xs.contains(x)),
{
    let pred = |y: T| !xs.contains(y);
    if without(l, xs).contains(x) {
        l.lemma_filter_contains_rev(pred, x);
        let k = choose|k: int| 0 <= k < l.filter(pred).len() && l.filter(pred)[k] == x;
        l.lemma_filter_pred(pred, k);
    }
    if l.contains(x) && !xs.contains(x) {
        let k = choose|k: int| 0 <= k < l.len() && l[k] == x;
        l.lemma_filter_contains(pred, k);
    }
}

/// What an edit without an explicit list does: an explicit list replaces
/// the list; otherwise the result ends with the appended items in order,
/// holds every prepended or appended item, drops the deleted items that it
/// does not prepend or append, and keeps every other item of the list.
pub proof fn law_list_op_edits<T>(l: Seq<T>, op: ListOp<T>, x: T)
    ensures
        explicit_items(op) matches Some(e) ==> list_op_applied(l, op) == e,
        explicit_items(op) is None ==> {
            let r = list_op_applied(l, op);
            &&& r.len() >= op.append@.len()
            &&& r.subrange(r.len() - op.append@.len(), r.len() as int) == op.append@
            &&& (op.prepend@.contains(x) || op.append@.contains(x)) ==> r.contains(x)
            &&& (op.delete@.contains(x) && !op.prepend@.contains(x) && !op.append@.contains(x))
                ==> !r.contains(x)
            &&& (l.contains(x) && !op.delete@.contains(x)) ==> r.contains(x)
            &&& r.contains(x) ==> (l.contains(x) || op.prepend@.contains(x) || op.append@.contains(x))
        },
{
    if explicit_items(op) is None {
        let d = without(l, op.delete@);
        let p = op.prepend@ + without(d, op.prepend@);
        let k = without(p, op.append@);
        let r = k + op.append@;
        assert(r == list_op_applied(l, op));
        assert(r.subrange(k.len() as int, r.len() as int) =~= op.append@);
        lemma_without_contains(l, op.delete@, x);
        lemma_without_contains(d, op.prepend@, x);
        lemma_without_contains(p, op.append@, x);
        assert(p.contains(x) <==> (op.prepend@.contains(x) || without(d, op.prepend@).contains(x))) by {
            if p.contains(x) {
                let i = choose|i: int| 0 <= i < p.len() && p[i] == x;
                if i >= op.prepend@.len() {
                    assert(without(d, op.prepend@)[i - op.prepend@.len()] == x);
                }
            }
            if op.prepend@.contains(x) {
                let i = choose|i: int| 0 <= i < op.prepend@.len() && op.prepend@[i] == x;
                assert(p[i] == x);
            }
            if without(d, op.prepend@).contains(x) {
                let i = choose|i: int| 0 <= i < without(d, op.prepend@).len() && without(d, op.prepend@)[i] == x;
                assert(p[op.prepend@.len() + i] == x);
            }
        }
        assert(r.contains(x) <==> (k.contains(x) || op.append@.contains(x))) by {
            if r.contains(x) {
                let i = choose|i: int| 0 <= i < r.len() && r[i] == x;
                if i >= k.len() {
                    assert(op.append@[i - k.len()] == x);
                }
            }
            if k.contains(x) {
                let i = choose|i: int| 0 <= i < k.len() && k[i] == x;
                assert(r[i] == x);
            }
            if op.append@.contains(x) {
                let i = choose|i: int| 0 <= i < op.append@.len() && op.append@[i] == x;
                assert(r[k.len() + i] == x);
            }
        }
    }
}

} // verus!

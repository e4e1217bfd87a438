//! Interned string tokens.
//!
//! A [`TokenInterner`] maps each distinct string to a stable [`TokenId`],
//! handed out in first-interned order.

use vstd::prelude::*;

verus! {

/// The interned strings after interning `s`: unchanged when `s` is already
/// there, otherwise `s` appended.
pub open spec fn interned<T>(t: Seq<T>, s: T) -> Seq<T> {
    if t.contains(s) {
        t
    } else {
        t.push(s)
    }
}

/// The interned strings after interning each of `xs` in turn.
pub open spec fn interned_all<T>(t: Seq<T>, xs: Seq<T>) -> Seq<T>
    decreases xs.len(),
{
    if xs.len() == 0 {
        t
    } else {
        interned(interned_all(t, xs.drop_last()), xs.last())
    }
}

/// The index `s` has after interning it: its (only) index when already
/// there, otherwise the next index.
pub open spec fn intern_index<T>(t: Seq<T>, s: T) -> int {
    if t.contains(s) {
        t.index_of(s)
    } else {
        t.len() as int
    }
}

/// Interning is stable: interning `s` again returns the same index and
/// changes nothing, the index names `s`, and the indices of the strings
/// interned before keep naming the same strings.
pub proof fn law_intern_stable<T>(t: Seq<T>, s: T)
    requires
        t.no_duplicates(),
    ensures
        interned(t, s).no_duplicates(),
        0 <= intern_index(t, s) < interned(t, s).len(),
        interned(t, s)[intern_index(t, s)] == s,
        interned(interned(t, s), s) == interned(t, s),
        intern_index(interned(t, s), s) == intern_index(t, s),
        interned(t, s).subrange(0, t.len() as int) == t,
{
    let u = interned(t, s);
    if t.contains(s) {
        assert(t.subrange(0, t.len() as int) =~= t);
    } else {
        assert(u[t.len() as int] == s);
        assert(u.contains(s));
        let k = u.index_of(s);
        assert(u[k] == s);
        if k != t.len() {
            assert(t[k] == s);
        }
        assert(u.subrange(0, t.len() as int) =~= t);
    }
}

/// A string not yet interned gets the next index, one already interned keeps
/// its earlier index, and after interning `s` any other string `q` gets an
/// index different from the one `s` got.
pub proof fn law_intern_distinct<T>(t: Seq<T>, s: T, q: T)
    requires
        t.no_duplicates(),
    ensures
        !t.contains(s) ==> intern_index(t, s) == t.len(),
        t.contains(s) ==> 0 <= intern_index(t, s) < t.len() && t[intern_index(t, s)] == s,
        q != s ==> intern_index(interned(t, s), q) != intern_index(t, s),
{
    law_intern_stable(t, s);
    let u = interned(t, s);
    if t.contains(s) {
        let k = t.index_of(s);
        assert(t[k] == s);
    }
    if q != s && u.contains(q) {
        let k = u.index_of(q);
        assert(u[k] == q);
    }
}

/// A stable identifier for an interned token string.
#[derive(Clone, Copy, Debug, PartialEq, Eq, PartialOrd, Ord, Hash, Structural)]
pub struct TokenId(u32);

impl TokenId {
    /// The index of this token in its interner.
    pub closed spec fn index(self) -> int {
        self.0 as int
    }

    /// Returns the underlying numeric identifier.
    pub fn get(self) -> (r: u32)
        ensures
            r == self.index(),
    {
        self.0
    }
}

/// Token ids with equal indexes are equal.
pub proof fn lemma_token_id_index_injective(a: TokenId, b: TokenId)
    requires
        a.index() == b.index(),
    ensures
        a == b,
{
}

/// Interns strings to [`TokenId`]s.
///
/// Its view is the sequence of interned strings; a token's id is its index.
#[derive(Debug)]
pub struct TokenInterner {
    strings: Vec<String>,
}

impl View for TokenInterner {
    type V = Seq<Seq<char>>;

    closed spec fn view(&self) -> Seq<Seq<char>> {
        self.strings@.map_values(|s: String| s@)
    }
}

impl TokenInterner {
    /// No string occurs twice, and every index fits a `u32`.
    #[verifier::type_invariant]
    closed spec fn inv(self) -> bool {
        &&& self.strings@.len() <= u32::MAX
        &&& forall|i: int, j: int|
            0 <= i < self.strings@.len() && 0 <= j < self.strings@.len() && i != j
                ==> self.strings@[i]@ != self.strings@[j]@
    }

    /// The view of a well-formed interner has no duplicates.
    proof fn lemma_distinct(&self)
        requires
            self.inv(),
        ensures
            self@.no_duplicates(),
    {
        assert forall|i: int, j: int|
            0 <= i < self@.len() && 0 <= j < self@.len() && i != j implies self@[i] != self@[j] by {
            assert(self@[i] == self.strings@[i]@);
            assert(self@[j] == self.strings@[j]@);
        }
    }

    /// `true` when `id` names a token of this interner.
    pub open spec fn contains_id(&self, id: TokenId) -> bool {
        0 <= id.index() < self@.len()
    }

    /// Creates an empty interner.
    pub fn new() -> (r: Self)
        ensures
            r@ == Seq::<Seq<char>>::empty(),
            r@.no_duplicates(),
    {
        let r = TokenInterner { strings: Vec::new() };
        proof {
            assert(r@ =~= Seq::<Seq<char>>::empty());
        }
        r
    }

    /// Number of interned tokens.
    pub fn len(&self) -> (r: usize)
        ensures
            r == self@.len(),
    {
        self.strings.len()
    }

    /// Looks up a string without interning it.
    pub fn lookup(&self, s: &str) -> (r: Option<TokenId>)
        ensures
            self@.no_duplicates(),
            match r {
                Some(id) => self.contains_id(id) && self@[id.index()] == s@,
                None => !self@.contains(s@),
            },
    {
        proof {
            use_type_invariant(self);
            self.lemma_distinct();
        }
        let key = String::from_str(s);
        let n = self.strings.len();
        let mut i: usize = 0;
        while i < n
            invariant
                n == self.strings@.len(),
                n <= u32::MAX,
                i <= n,
                key@ == s@,
                self@.no_duplicates(),
                forall|j: int| 0 <= j < i ==> self.strings@[j]@ != s@,
            decreases n - i,
        {
            if self.strings[i] == key {
                return Some(TokenId(i as u32));
            }
            i = i + 1;
        }
        proof {
            if self@.contains(s@) {
                let k = choose|k: int| 0 <= k < self@.len() && self@[k] == s@;
                assert(self.strings@[k]@ == s@);
            }
        }
        None
    }

    /// Interns `s`, returning its stable id.
    ///
    /// A string interned before keeps its id and leaves the interner unchanged;
    /// a new string is appended and gets the next id.
    pub fn intern(&mut self, s: &str) -> (r: TokenId)
        requires
            old(self)@.len() < u32::MAX,
        ensures
            final(self).contains_id(r),
            final(self)@[r.index()] == s@,
            final(self)@ == interned(old(self)@, s@),
            r.index() == intern_index(old(self)@, s@),
            final(self)@.no_duplicates(),
    {
        proof {
            use_type_invariant(&*self);
            self.lemma_distinct();
        }
        match self.lookup(s) {
            Some(id) => {
                proof {
                    let k = self@.index_of(s@);
                    assert(self@.contains(s@));
                    assert(self@[k] == s@);
                }
                id
            },
            None => {
                proof {
                    use_type_invariant(&*self);
                }
                let n = self.strings.len();
                let owned = String::from_str(s);
                proof {
                    assert forall|j: int| 0 <= j < self.strings@.len() implies self.strings@[j]@
                        != owned@ by {
                        assert(self@[j] == self.strings@[j]@);
                    }
                }
                let mut strings: Vec<String> = Vec::new();
                std::mem::swap(&mut strings, &mut self.strings);
                strings.push(owned);
                self.strings = strings;
                proof {
                    assert(self@ =~= old(self)@.push(s@));
                    use_type_invariant(&*self);
                    self.lemma_distinct();
                }
                TokenId(n as u32)
            }
        }
    }

    /// Returns the string of an interned token.
    pub fn resolve(&self, id: TokenId) -> (r: &str)
        requires
            self.contains_id(id),
        ensures
            r@ == self@[id.index()],
    {
        self.strings[id.0 as usize].as_str()
    }
}

impl Default for TokenInterner {
    fn default() -> (r: Self)
        ensures
            r@ == Seq::<Seq<char>>::empty(),
            r@.no_duplicates(),
    {
        TokenInterner::new()
    }
}

} // verus!

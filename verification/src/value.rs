//! The runtime value model: a tagged union over nil, booleans, signed 64-bit
//! integers and interned strings, together with the session-wide string
//! intern pool.
//!
//! Two string values with textually equal contents always resolve to the
//! same intern handle, so string equality is handle equality.  The pool never
//! evicts entries; a handle stays valid for the life of the session.

use vstd::prelude::*;

verus! {

/// A runtime value.  A `Str` holds a handle into the session's intern pool;
/// by the interning invariant, textually equal strings carry equal handles.
///
/// Equality is value equality per variant and never coerces across variants:
/// an `Integer` never equals a `Bool`, and `Nil` equals only `Nil`.
#[derive(Copy, Clone, Debug, PartialEq, Eq, Structural)]
pub enum Value {
    Nil,
    Bool(bool),
    Integer(i64),
    Str(usize),
}

impl Value {
    /// Runtime equality between two values: `Nil` equals `Nil`, `Bool`,
    /// `Integer` and `Str` compare their payloads, and no two distinct
    /// variants are ever equal (no cross-type coercion).
    pub fn equals(self, other: Value) -> (r: bool)
        ensures
            r == (self == other),
    {
        match (self, other) {
            (Value::Nil, Value::Nil) => true,
            (Value::Bool(a), Value::Bool(b)) => a == b,
            (Value::Integer(a), Value::Integer(b)) => a == b,
            (Value::Str(a), Value::Str(b)) => a == b,
            _ => false,
        }
    }
}

/// `b` extends `a`: every entry of `a` is still at its index in `b`.
/// Handles into the intern pool and operands into a constant pool stay
/// valid as the pool grows.
pub open spec fn seq_extends<T>(a: Seq<T>, b: Seq<T>) -> bool {
    a.len() <= b.len() && forall|i: int| 0 <= i < a.len() ==> b[i] == a[i]
}

/// True when no two entries of the pool hold the same text.
pub open spec fn pool_distinct(pool: Seq<Seq<char>>) -> bool {
    forall|i: int, j: int| 0 <= i < j < pool.len() ==> pool[i] != pool[j]
}

/// The pool after interning `text`: unchanged when the text is already
/// present, extended by one entry otherwise.
pub open spec fn pool_after(pool: Seq<Seq<char>>, text: Seq<char>) -> Seq<Seq<char>> {
    if pool.contains(text) {
        pool
    } else {
        pool.push(text)
    }
}

/// The first index of `text` in the pool, or the pool's length when the
/// text is absent.
pub open spec fn pool_find(pool: Seq<Seq<char>>, text: Seq<char>) -> int
    decreases pool.len(),
{
    if pool.len() == 0 {
        0
    } else if pool[0] == text {
        0
    } else {
        1 + pool_find(pool.drop_first(), text)
    }
}

/// What `pool_find` returns: an in-range index of `text` exactly when the
/// pool contains it, with no earlier occurrence.
pub proof fn lemma_pool_find(pool: Seq<Seq<char>>, text: Seq<char>)
    ensures
        0 <= pool_find(pool, text) <= pool.len(),
        pool_find(pool, text) < pool.len() <==> pool.contains(text),
        pool_find(pool, text) < pool.len() ==> pool[pool_find(pool, text)] == text,
        forall|k: int| 0 <= k < pool_find(pool, text) ==> pool[k] != text,
    decreases pool.len(),
{
    if pool.len() == 0 {
        assert(!pool.contains(text));
    } else if pool[0] == text {
        assert(pool.contains(text));
    } else {
        let rest = pool.drop_first();
        lemma_pool_find(rest, text);
        assert forall|k: int| 0 <= k < pool_find(pool, text) implies pool[k] != text by {
            if k > 0 {
                assert(pool[k] == rest[k - 1]);
            }
        }
        if pool_find(rest, text) < rest.len() {
            assert(pool[1 + pool_find(rest, text)] == rest[pool_find(rest, text)]);
            assert(pool.contains(text));
        } else {
            if pool.contains(text) {
                let w = choose|w: int| 0 <= w < pool.len() && pool[w] == text;
                assert(rest[w - 1] == text);
                assert(rest.contains(text));
            }
        }
    }
}

/// The session-wide string intern pool.  Its entries are pairwise distinct,
/// so a handle (an index into the pool) identifies a text uniquely and equal
/// texts always intern to equal handles.
pub struct Interner {
    entries: Vec<Vec<char>>,
}

impl View for Interner {
    type V = Seq<Seq<char>>;

    closed spec fn view(&self) -> Seq<Seq<char>> {
        self.entries@.map_values(|e: Vec<char>| e@)
    }
}

/// Character-by-character equality of two character vectors.
pub fn chars_eq(a: &Vec<char>, b: &Vec<char>) -> (r: bool)
    ensures
        r == (a@ == b@),
{
    if a.len() != b.len() {
        return false;
    }
    let n = a.len();
    let mut i: usize = 0;
    while i < n
        invariant
            n == a.len() == b.len(),
            0 <= i <= n,
            forall|k: int| 0 <= k < i ==> a@[k] == b@[k],
        decreases n - i,
    {
        if a[i] != b[i] {
            return false;
        }
        i += 1;
    }
    proof {
        assert(a@ =~= b@);
    }
    true
}

impl Interner {
    /// The pool's entries are pairwise distinct texts.
    #[verifier::type_invariant]
    spec fn inv(self) -> bool {
        pool_distinct(self@)
    }

    /// A fresh, empty intern pool.
    pub fn new() -> (r: Interner)
        ensures
            r@ == Seq::<Seq<char>>::empty(),
    {
        let r = Interner { entries: Vec::new() };
        proof {
            assert(r@ =~= Seq::<Seq<char>>::empty());
        }
        r
    }

    /// How many distinct texts the pool holds.
    pub fn len(&self) -> (r: usize)
        ensures
            r == self@.len(),
    {
        self.entries.len()
    }

    /// The text behind a handle, or `None` when no such handle was ever
    /// returned by `intern`.
    pub fn lookup(&self, handle: usize) -> (r: Option<&Vec<char>>)
        ensures
            r matches Some(v) ==> handle < self@.len() && v@ == self@[handle as int],
            r is None <==> self@.len() <= handle,
    {
        if handle < self.entries.len() {
            Some(&self.entries[handle])
        } else {
            None
        }
    }

    /// Intern a text: return the handle of the pool entry holding it,
    /// adding the entry if the text was never interned before.  Equal texts
    /// always yield equal handles; distinct texts yield distinct handles.
    pub fn intern(&mut self, text: Vec<char>) -> (h: usize)
        ensures
            final(self)@ == pool_after(old(self)@, text@),
            seq_extends(old(self)@, final(self)@),
            h == pool_find(final(self)@, text@),
            h < final(self)@.len(),
            final(self)@[h as int] == text@,
            forall|j: int| 0 <= j < final(self)@.len() && final(self)@[j] == text@ ==> j == h,
    {
        proof {
            use_type_invariant(&*self);
            lemma_pool_find(self@, text@);
        }
        let n = self.entries.len();
        let mut i: usize = 0;
        while i < n
            invariant
                n == self.entries.len(),
                0 <= i <= n,
                forall|k: int| 0 <= k < i ==> self@[k] != text@,
                pool_distinct(self@),
            decreases n - i,
        {
            if chars_eq(&self.entries[i], &text) {
                proof {
                    assert(self@[i as int] == text@);
                    assert(self@.contains(text@));
                    lemma_pool_find(self@, text@);
                    assert(pool_find(self@, text@) == i);
                }
                return i;
            }
            i += 1;
        }
        proof {
            if self@.contains(text@) {
                let w = choose|w: int| 0 <= w < self@.len() && self@[w] == text@;
                assert(false);
            }
        }
        let ghost old_view = self@;
        let ghost tv = text@;
        let mut es: Vec<Vec<char>> = Vec::new();
        std::mem::swap(&mut es, &mut self.entries);
        es.push(text);
        proof {
            assert(es@.map_values(|e: Vec<char>| e@) =~= old_view.push(tv));
            assert(forall|k: int| 0 <= k < old_view.len() ==> old_view[k] != tv);
            assert(pool_distinct(old_view.push(tv)));
        }
        self.entries = es;
        proof {
            assert(self@ == old_view.push(tv));
            assert(!old_view.contains(tv));
            assert(self@ == pool_after(old_view, tv));
            lemma_pool_find(self@, tv);
            assert(self@[n as int] == tv);
            assert(pool_find(self@, tv) == n);
        }
        n
    }
}

/// The interning law: within one pool, interning the same text twice yields
/// handles that compare equal, and interning two different texts yields
/// handles that compare unequal.
pub proof fn lemma_intern_handles(pool: Seq<Seq<char>>, t1: Seq<char>, t2: Seq<char>)
    ensures
        ({
            let p1 = pool_after(pool, t1);
            let h1 = pool_find(p1, t1);
            let p2 = pool_after(p1, t2);
            let h2 = pool_find(p2, t2);
            (h1 == h2) <==> (t1 == t2)
        }),
{
    let p1 = pool_after(pool, t1);
    let h1 = pool_find(p1, t1);
    let p2 = pool_after(p1, t2);
    let h2 = pool_find(p2, t2);
    if !pool.contains(t1) {
        assert(p1[pool.len() as int] == t1);
        assert(p1.contains(t1));
    }
    lemma_pool_find(p1, t1);
    if !p1.contains(t2) {
        assert(p2[p1.len() as int] == t2);
        assert(p2.contains(t2));
    }
    lemma_pool_find(p2, t2);
    if t1 == t2 {
        assert(p1.contains(t1));
        assert(p2 == p1);
    } else {
        assert(h1 < p1.len());
        assert(p2[h1] == t1);
        assert(p2[h2] == t2);
    }
}

} // verus!

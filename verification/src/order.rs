//! The recursive order on constructions `{ left | right }`.
//!
//! A construction names at most one earlier value on each side; it stands for
//! the simplest value above its left operand and below its right operand.
//! Operands are positions in a table of earlier constructions, so the whole
//! theory is stated over a `Seq<Form>` and a pair of forms, whether or not the
//! forms themselves are stored in the table.
use vstd::prelude::*;

verus! {

/// A construction `{ left | right }` whose operands are positions in a table.
pub struct Form {
    pub left: Option<int>,
    pub right: Option<int>,
}

impl Form {
    /// Every operand that is present lies in `0..n`.
    pub open spec fn fits(self, n: int) -> bool {
        &&& self.left matches Some(l) ==> 0 <= l < n
        &&& self.right matches Some(r) ==> 0 <= r < n
    }

    /// One more than the largest operand, or zero for a form without operands.
    pub open spec fn rank(self) -> nat {
        let l: nat = match self.left {
            Some(l) if l >= 0 => (l + 1) as nat,
            _ => 0,
        };
        let r: nat = match self.right {
            Some(r) if r >= 0 => (r + 1) as nat,
            _ => 0,
        };
        if l >= r {
            l
        } else {
            r
        }
    }
}

/// The form without operands: the identity element.
pub open spec fn zero_form() -> Form {
    Form { left: None, right: None }
}

/// Every form in the table names only forms stored strictly before it, so
/// that chains of operands are acyclic.
pub open spec fn grounded(t: Seq<Form>) -> bool {
    forall|i: int| 0 <= i < t.len() ==> (#[trigger] t[i]).fits(i)
}

/// `a` is at most `b`: `b` is not at most the left operand of `a`, and the
/// right operand of `b` is not at most `a`.
pub open spec fn le(t: Seq<Form>, a: Form, b: Form) -> bool
    decreases a.rank() + b.rank(),
    when grounded(t) && a.fits(t.len() as int) && b.fits(t.len() as int)
{
    &&& a.left matches Some(l) ==> !le(t, b, t[l])
    &&& b.right matches Some(r) ==> !le(t, t[r], a)
}

/// `a` and `b` denote the same value.
pub open spec fn equal(t: Seq<Form>, a: Form, b: Form) -> bool {
    le(t, a, b) && le(t, b, a)
}

/// `a` is strictly below `b`.
pub open spec fn lt(t: Seq<Form>, a: Form, b: Form) -> bool {
    le(t, a, b) && !le(t, b, a)
}

/// Where `x` has both operands, the left one is strictly below the right one.
pub open spec fn numeric(t: Seq<Form>, x: Form) -> bool {
    x.left is Some && x.right is Some ==> lt(t, t[x.left->0], t[x.right->0])
}

/// Every form stored in the table is numeric.
pub open spec fn all_numeric(t: Seq<Form>) -> bool {
    forall|i: int| 0 <= i < t.len() ==> numeric(t, #[trigger] t[i])
}

/// `z` lies strictly above the left operand of `x` and strictly below its
/// right operand.
pub open spec fn inside(t: Seq<Form>, x: Form, z: Form) -> bool {
    &&& x.left matches Some(l) ==> lt(t, t[l], z)
    &&& x.right matches Some(r) ==> lt(t, z, t[r])
}

/// `t` is an initial segment of `u`.
pub open spec fn extends(u: Seq<Form>, t: Seq<Form>) -> bool {
    &&& t.len() <= u.len()
    &&& forall|i: int| 0 <= i < t.len() ==> u[i] == t[i]
}

/// Every value is at most itself, strictly above its left operand and
/// strictly below its right operand in the sense that the reverse comparison
/// fails.
pub proof fn lemma_le_reflexive(t: Seq<Form>, x: Form)
    requires
        grounded(t),
        x.fits(t.len() as int),
    ensures
        le(t, x, x),
        x.left matches Some(l) ==> !le(t, x, t[l]),
        x.right matches Some(r) ==> !le(t, t[r], x),
    decreases x.rank(),
{
    if let Some(l) = x.left {
        lemma_le_reflexive(t, t[l]);
        assert(!le(t, x, t[l]));
    }
    if let Some(r) = x.right {
        lemma_le_reflexive(t, t[r]);
        assert(!le(t, t[r], x));
    }
}

/// `le` is transitive.
pub proof fn lemma_le_transitive(t: Seq<Form>, x: Form, y: Form, z: Form)
    requires
        grounded(t),
        x.fits(t.len() as int),
        y.fits(t.len() as int),
        z.fits(t.len() as int),
        le(t, x, y),
        le(t, y, z),
    ensures
        le(t, x, z),
    decreases x.rank() + y.rank() + z.rank(),
{
    if let Some(l) = x.left {
        if le(t, z, t[l]) {
            lemma_le_transitive(t, y, z, t[l]);
        }
    }
    if let Some(r) = z.right {
        if le(t, t[r], x) {
            lemma_le_transitive(t, t[r], x, y);
        }
    }
}

/// A strict step followed by a weak one, or a weak step followed by a strict
/// one, is strict.
pub proof fn lemma_lt_transitive(t: Seq<Form>, x: Form, y: Form, z: Form)
    requires
        grounded(t),
        x.fits(t.len() as int),
        y.fits(t.len() as int),
        z.fits(t.len() as int),
        le(t, x, y),
        le(t, y, z),
        !le(t, y, x) || !le(t, z, y),
    ensures
        lt(t, x, z),
{
    lemma_le_transitive(t, x, y, z);
    if le(t, z, x) {
        if !le(t, y, x) {
            lemma_le_transitive(t, y, z, x);
        } else {
            lemma_le_transitive(t, z, x, y);
        }
    }
}

/// A numeric form over a numeric table lies strictly between its operands.
pub proof fn lemma_between_operands(t: Seq<Form>, x: Form)
    requires
        grounded(t),
        all_numeric(t),
        x.fits(t.len() as int),
        numeric(t, x),
    ensures
        inside(t, x, x),
    decreases x.rank(),
{
    lemma_le_reflexive(t, x);
    if let Some(l) = x.left {
        let a = t[l];
        if let Some(ll) = a.left {
            lemma_between_operands(t, a);
            if le(t, x, t[ll]) {
                lemma_le_transitive(t, x, t[ll], a);
            }
        }
        assert(le(t, a, x));
    }
    if let Some(r) = x.right {
        let b = t[r];
        if let Some(rr) = b.right {
            lemma_between_operands(t, b);
            if le(t, t[rr], x) {
                lemma_le_transitive(t, b, t[rr], x);
            }
        }
        assert(le(t, x, b));
    }
}

/// Any two numeric forms over a numeric table are comparable.
pub proof fn lemma_le_total(t: Seq<Form>, x: Form, y: Form)
    requires
        grounded(t),
        all_numeric(t),
        x.fits(t.len() as int),
        y.fits(t.len() as int),
        numeric(t, x),
        numeric(t, y),
    ensures
        le(t, x, y) || le(t, y, x),
{
    if !le(t, x, y) {
        lemma_between_operands(t, x);
        lemma_between_operands(t, y);
        if x.left is Some && le(t, y, t[x.left->0]) {
            lemma_le_transitive(t, y, t[x.left->0], x);
        } else {
            lemma_le_transitive(t, y, t[y.right->0], x);
        }
    }
}

/// Comparisons between forms that fit a table are unchanged when the table
/// is extended.
pub proof fn lemma_le_stable(t: Seq<Form>, u: Seq<Form>, a: Form, b: Form)
    requires
        grounded(u),
        extends(u, t),
        a.fits(t.len() as int),
        b.fits(t.len() as int),
    ensures
        grounded(t),
        le(t, a, b) == le(u, a, b),
    decreases a.rank() + b.rank(),
{
    assert(grounded(t)) by {
        assert forall|i: int| 0 <= i < t.len() implies (#[trigger] t[i]).fits(i) by {
            assert(u[i].fits(i));
        }
    }
    if let Some(l) = a.left {
        assert(u[l].fits(l));
        lemma_le_stable(t, u, b, t[l]);
    }
    if let Some(r) = b.right {
        assert(u[r].fits(r));
        lemma_le_stable(t, u, t[r], a);
    }
}

/// The simplicity rule: a numeric form `x` equals any numeric form `z` that
/// lies strictly between the operands of `x` while neither operand of `z`
/// does.
pub proof fn lemma_simplest_inside(t: Seq<Form>, x: Form, z: Form)
    requires
        grounded(t),
        all_numeric(t),
        x.fits(t.len() as int),
        z.fits(t.len() as int),
        numeric(t, x),
        numeric(t, z),
        inside(t, x, z),
        z.left matches Some(l) ==> !inside(t, x, t[l]),
        z.right matches Some(r) ==> !inside(t, x, t[r]),
    ensures
        equal(t, x, z),
{
    lemma_le_reflexive(t, x);
    lemma_between_operands(t, z);
    lemma_between_operands(t, x);
    if let Some(zr) = z.right {
        // The right operand of `z` is above the left operand of `x`, so it is
        // not below the right operand of `x`.
        let b = t[zr];
        assert(b.fits(zr));
        if let Some(l) = x.left {
            lemma_lt_transitive(t, t[l], z, b);
        }
        if le(t, b, x) {
            let r = x.right->0;
            assert(x.right is Some);
            assert(numeric(t, b));
            assert(numeric(t, t[r]));
            assert(t[r].fits(r));
            lemma_le_total(t, b, t[r]);
            lemma_le_transitive(t, t[r], b, x);
        }
    }
    if let Some(zl) = z.left {
        let a = t[zl];
        assert(a.fits(zl));
        if let Some(r) = x.right {
            lemma_lt_transitive(t, a, z, t[r]);
        }
        if le(t, x, a) {
            let l = x.left->0;
            assert(x.left is Some);
            assert(numeric(t, a));
            assert(numeric(t, t[l]));
            assert(t[l].fits(l));
            lemma_le_total(t, t[l], a);
            lemma_le_transitive(t, x, a, t[l]);
        }
    }
}

} // verus!

//! What a well formed table guarantees of the identities it hands out:
//! distinct identities are distinct values, any two are comparable, and a
//! numeric construction over stored values always has a stored equal after at
//! most one more generation.
use crate::arena::Arena;
use crate::growth::{lemma_grow_keeps_order, lemma_grow_shape, lemma_grow_wf};
use crate::order::{
    equal, inside, lemma_le_reflexive, lemma_le_stable, lemma_le_transitive, lemma_lt_transitive,
    lemma_simplest_inside, numeric, Form,
};
use vstd::prelude::*;

verus! {

/// Two identities compare as their positions on the frontier do.
pub proof fn lemma_order_is_position(a: Arena, p: int, q: int)
    requires
        a.wf(),
        0 <= p < a.line.len(),
        0 <= q < a.line.len(),
    ensures
        a.id_le(a.line[p], a.line[q]) <==> p <= q,
{
    let t = a.entries;
    let i = a.line[p];
    let j = a.line[q];
    assert(a.has(i) && a.has(j));
    assert(t[i].fits(i) && t[j].fits(j));
    if p == q {
        lemma_le_reflexive(t, t[i]);
    } else if p < q {
        assert(a.id_lt(a.line[p], a.line[q]));
    } else {
        assert(a.id_lt(a.line[q], a.line[p]));
    }
}

/// Any two stored values are comparable, and each is at most the other only
/// when they are one and the same identity: of `i < j`, `i == j`, `j < i`
/// exactly one holds.
pub proof fn lemma_identities_totally_ordered(a: Arena, i: int, j: int)
    requires
        a.wf(),
        a.has(i),
        a.has(j),
    ensures
        a.id_le(i, j) || a.id_le(j, i),
        a.id_le(i, j) && a.id_le(j, i) <==> i == j,
        a.id_lt(i, j) <==> !a.id_le(j, i),
        a.id_lt(i, j) || i == j || a.id_lt(j, i),
        !(a.id_lt(i, j) && a.id_lt(j, i)),
        !a.id_lt(i, i),
{
    assert(a.on_line(i) && a.on_line(j));
    let p = choose|p: int| #[trigger] a.at(p, i);
    let q = choose|q: int| #[trigger] a.at(q, j);
    lemma_order_is_position(a, p, q);
    lemma_order_is_position(a, q, p);
    lemma_order_is_position(a, p, p);
}

/// Of two distinct identities exactly one is at most the other, and the two
/// are not equal. (An identity is at most itself and equals itself, so of
/// one identity taken twice all three hold.)
pub proof fn lemma_distinct_one_way(a: Arena, i: int, j: int)
    requires
        a.wf(),
        a.has(i),
        a.has(j),
        i != j,
    ensures
        a.id_le(i, j) != a.id_le(j, i),
        !equal(a.entries, a.entries[i], a.entries[j]),
{
    lemma_identities_totally_ordered(a, i, j);
}

/// No two distinct identities denote equal values.
pub proof fn lemma_identities_distinct(a: Arena, i: int, j: int)
    requires
        a.wf(),
        a.has(i),
        a.has(j),
        equal(a.entries, a.entries[i], a.entries[j]),
    ensures
        i == j,
{
    lemma_identities_totally_ordered(a, i, j);
}

/// The order on identities is transitive.
pub proof fn lemma_identities_transitive(a: Arena, i: int, j: int, k: int)
    requires
        a.wf(),
        a.has(i),
        a.has(j),
        a.has(k),
        a.id_le(i, j),
        a.id_le(j, k),
    ensures
        a.id_le(i, k),
        a.id_lt(i, j) || a.id_lt(j, k) ==> a.id_lt(i, k),
{
    let t = a.entries;
    assert(t[i].fits(i) && t[j].fits(j) && t[k].fits(k));
    lemma_le_transitive(t, t[i], t[j], t[k]);
    if a.id_lt(i, j) || a.id_lt(j, k) {
        lemma_lt_transitive(t, t[i], t[j], t[k]);
    }
}

/// A form has at most one stored equal.
pub proof fn lemma_match_unique(a: Arena, c: Form, i: int, j: int)
    requires
        a.wf(),
        c.fits(a.len()),
        a.has(i),
        a.has(j),
        equal(a.entries, c, a.entries[i]),
        equal(a.entries, c, a.entries[j]),
    ensures
        i == j,
{
    let t = a.entries;
    assert(t[i].fits(i) && t[j].fits(j));
    lemma_le_transitive(t, t[i], c, t[j]);
    lemma_le_transitive(t, t[j], c, t[i]);
    lemma_identities_distinct(a, i, j);
}

/// A form with a stored equal is numeric.
pub proof fn lemma_match_is_numeric(a: Arena, c: Form, i: int)
    requires
        a.wf(),
        c.fits(a.len()),
        a.has(i),
        equal(a.entries, c, a.entries[i]),
    ensures
        numeric(a.entries, c),
{
    let t = a.entries;
    if c.left is Some && c.right is Some {
        let l = c.left->0;
        let r = c.right->0;
        assert(t[i].fits(i) && t[l].fits(l) && t[r].fits(r));
        lemma_identities_totally_ordered(a, l, i);
        lemma_identities_totally_ordered(a, i, r);
        lemma_lt_transitive(t, t[l], t[i], t[r]);
    }
}

/// A stored equal of a form stays its equal in every later generation, and a
/// form without a stored equal gains none among the values it was compared
/// with.
pub proof fn lemma_match_stable(a: Arena, c: Form, i: int)
    requires
        a.wf(),
        c.fits(a.len()),
        a.has(i),
    ensures
        equal(a.grow().entries, c, a.grow().entries[i]) == equal(a.entries, c, a.entries[i]),
        numeric(a.grow().entries, c) == numeric(a.entries, c),
{
    lemma_grow_shape(a);
    let t = a.entries;
    let u = a.grow().entries;
    assert(t[i].fits(i));
    lemma_le_stable(t, u, c, t[i]);
    lemma_le_stable(t, u, t[i], c);
    if c.left is Some && c.right is Some {
        lemma_grow_keeps_order(a, c.left->0, c.right->0);
    }
}

/// The least identity whose value lies strictly between the operands of `c`,
/// given that `z` is one.
pub proof fn lemma_least_inside(a: Arena, c: Form, z: int) -> (m: int)
    requires
        a.has(z),
        inside(a.entries, c, a.entries[z]),
    ensures
        a.has(m),
        m <= z,
        inside(a.entries, c, a.entries[m]),
        forall|i: int| 0 <= i < m ==> !inside(a.entries, c, #[trigger] a.entries[i]),
    decreases z,
{
    if exists|i: int| 0 <= i < z && inside(a.entries, c, #[trigger] a.entries[i]) {
        let i = choose|i: int| 0 <= i < z && inside(a.entries, c, #[trigger] a.entries[i]);
        lemma_least_inside(a, c, i)
    } else {
        z
    }
}

/// A numeric form equals the earliest stored value that lies strictly
/// between its operands.
pub proof fn lemma_inside_gives_match(a: Arena, c: Form, z: int)
    requires
        a.wf(),
        c.fits(a.len()),
        numeric(a.entries, c),
        a.has(z),
        inside(a.entries, c, a.entries[z]),
    ensures
        a.holds(c),
{
    let t = a.entries;
    let m = lemma_least_inside(a, c, z);
    assert(t[m].fits(m));
    assert(numeric(t, t[m]));
    lemma_simplest_inside(t, c, t[m]);
}

/// After one more generation some stored value lies strictly between the
/// operands of any numeric form over the values stored before it.
pub proof fn lemma_grow_fills_gap(a: Arena, c: Form) -> (z: int)
    requires
        a.wf(),
        c.fits(a.len()),
        numeric(a.entries, c),
    ensures
        a.grow().has(z),
        inside(a.grow().entries, c, a.grow().entries[z]),
{
    lemma_grow_wf(a);
    lemma_grow_shape(a);
    let g = a.grow();
    let u = g.entries;
    match (c.left, c.right) {
        (None, None) => 0,
        (Some(l), None) => {
            assert(a.on_line(l));
            let p = choose|p: int| #[trigger] a.at(p, l);
            assert(g.line[2 * p + 1] == l);
            let z = g.line[2 * p + 2];
            assert(g.id_lt(g.line[2 * p + 1], g.line[2 * p + 2]));
            z
        },
        (None, Some(r)) => {
            assert(a.on_line(r));
            let q = choose|q: int| #[trigger] a.at(q, r);
            assert(g.line[2 * q + 1] == r);
            let z = g.line[2 * q];
            assert(g.id_lt(g.line[2 * q], g.line[2 * q + 1]));
            z
        },
        (Some(l), Some(r)) => {
            assert(a.on_line(l));
            assert(a.on_line(r));
            let p = choose|p: int| #[trigger] a.at(p, l);
            let q = choose|q: int| #[trigger] a.at(q, r);
            lemma_order_is_position(a, q, p);
            assert(p < q);
            assert(g.line[2 * p + 1] == l);
            assert(g.line[2 * q + 1] == r);
            let z = g.line[2 * p + 2];
            assert(g.id_lt(g.line[2 * p + 1], g.line[2 * p + 2]));
            assert(g.id_lt(g.line[2 * p + 2], g.line[2 * q + 1]));
            z
        },
    }
}

/// Every numeric form over stored values has a stored equal after at most
/// one more generation.
pub proof fn lemma_numeric_is_held(a: Arena, c: Form)
    requires
        a.wf(),
        c.fits(a.len()),
        numeric(a.entries, c),
    ensures
        a.grow().holds(c),
{
    lemma_grow_wf(a);
    lemma_grow_shape(a);
    lemma_match_stable(a, c, 0);
    let z = lemma_grow_fills_gap(a, c);
    lemma_inside_gives_match(a.grow(), c, z);
}

/// A form has a stored equal, now or after one more generation, exactly when
/// it is numeric.
pub proof fn lemma_held_iff_numeric(a: Arena, c: Form)
    requires
        a.wf(),
        c.fits(a.len()),
    ensures
        a.holds(c) ==> numeric(a.entries, c),
        a.holds(c) ==> a.grow().holds(c),
        a.grow().holds(c) <==> numeric(a.entries, c),
{
    lemma_grow_wf(a);
    lemma_grow_shape(a);
    lemma_match_stable(a, c, 0);
    let g = a.grow();
    if a.holds(c) {
        let i = choose|i: int| a.has(i) && equal(a.entries, c, #[trigger] a.entries[i]);
        lemma_match_is_numeric(a, c, i);
        lemma_match_stable(a, c, i);
        assert(g.has(i));
    }
    if g.holds(c) {
        let i = choose|i: int| g.has(i) && equal(g.entries, c, #[trigger] g.entries[i]);
        lemma_match_is_numeric(g, c, i);
    }
    if numeric(a.entries, c) {
        lemma_numeric_is_held(a, c);
    }
}

/// A stored form names only values that the table holds.
pub proof fn lemma_fits_own_place(a: Arena, i: int)
    requires
        a.wf(),
        a.has(i),
    ensures
        a.entries[i].fits(i),
        a.entries[i].fits(a.len()),
{
}

/// The identity that a request for `c` yields is the one stored equal.
pub proof fn lemma_lookup_is(a: Arena, c: Form, i: int)
    requires
        a.wf(),
        c.fits(a.len()),
        a.has(i),
        equal(a.entries, c, a.entries[i]),
    ensures
        a.holds(c),
        a.lookup(c) == Some(i),
{
    let j = a.lookup(c)->0;
    lemma_match_unique(a, c, i, j);
}

/// The operands of `c` and `d` denote the same values, side by side.
pub open spec fn same_operands(a: Arena, c: Form, d: Form) -> bool {
    &&& c.left is Some <==> d.left is Some
    &&& c.right is Some <==> d.right is Some
    &&& c.left is Some ==> equal(a.entries, a.entries[c.left->0], a.entries[d.left->0])
    &&& c.right is Some ==> equal(a.entries, a.entries[c.right->0], a.entries[d.right->0])
}

/// Interning is idempotent: a request for a construction whose operands
/// equal those of an earlier request yields the identity that the earlier
/// request yielded, and where there is one, leaves the table as the earlier
/// request left it.
pub proof fn lemma_intern_idempotent(a: Arena, c: Form, d: Form)
    requires
        a.wf(),
        c.fits(a.len()),
        d.fits(a.len()),
        same_operands(a, c, d),
    ensures
        d == c,
        a.settled(c).wf(),
        a.settled(c).settled(d).lookup(d) == a.settled(c).lookup(c),
        a.settled(c).lookup(c) is Some ==> a.settled(c).settled(d) == a.settled(c),
        a.settled(c).lookup(c) is Some <==> numeric(a.entries, c),
{
    if c.left is Some {
        lemma_identities_distinct(a, c.left->0, d.left->0);
    }
    if c.right is Some {
        lemma_identities_distinct(a, c.right->0, d.right->0);
    }
    let first = a.settled(c);
    lemma_grow_wf(a);
    lemma_grow_shape(a);
    lemma_held_iff_numeric(a, c);
    lemma_match_stable(a, c, 0);
    if !first.holds(c) {
        lemma_held_iff_numeric(first, c);
    }
}

} // verus!

//! What stays true of a table as generations are added to it: it stays well
//! formed, identities keep their order, and a construction keeps its stored
//! equal. A table is determined by its day.
use crate::arena::Arena;
use crate::growth::{lemma_grow_keeps_order, lemma_grow_shape, lemma_grow_wf};
use crate::identity::{lemma_lookup_is, lemma_match_stable};
use crate::order::{equal, numeric, Form};
use vstd::prelude::*;

verus! {

/// Generations add up.
pub proof fn lemma_grown_sum(a: Arena, n: nat, m: nat)
    ensures
        a.grown(n).grown(m) == a.grown(n + m),
    decreases m,
{
    if m > 0 {
        lemma_grown_sum(a, n, (m - 1) as nat);
        assert(a.grown(n + m) == a.grown((n + m - 1) as nat).grow());
    }
}

/// A table reaches itself, and what a table that it reaches reaches.
pub proof fn lemma_reaches_chain(a: Arena, b: Arena, c: Arena)
    requires
        a.reaches(b),
        b.reaches(c),
    ensures
        a.reaches(a),
        a.reaches(c),
{
    assert(a == a.grown(0));
    let n = choose|n: nat| b == #[trigger] a.grown(n);
    let m = choose|m: nat| c == #[trigger] b.grown(m);
    lemma_grown_sum(a, n, m);
}

/// A table reaches itself and the next generation.
pub proof fn lemma_reaches_next(a: Arena)
    ensures
        a.reaches(a),
        a.reaches(a.grow()),
{
    assert(a == a.grown(0));
    assert(a.grow() == a.grown(1)) by {
        assert(a.grown(1) == a.grown(0).grow());
    }
}

/// Generations keep a table well formed and keep every identity.
pub proof fn lemma_grown_wf(a: Arena, n: nat)
    requires
        a.wf(),
    ensures
        a.grown(n).wf(),
        a.len() <= a.grown(n).len(),
    decreases n,
{
    if n > 0 {
        lemma_grown_wf(a, (n - 1) as nat);
        lemma_grow_wf(a.grown((n - 1) as nat));
        lemma_grow_shape(a.grown((n - 1) as nat));
    }
}

/// Each generation adds a day.
pub proof fn lemma_grown_day(a: Arena, n: nat)
    ensures
        a.grown(n).day == a.day + n,
    decreases n,
{
    if n > 0 {
        lemma_grown_day(a, (n - 1) as nat);
    }
}

/// A later table is the earlier one after as many generations as their
/// days differ by.
pub proof fn lemma_reaches_by_day(a: Arena, later: Arena)
    requires
        a.reaches(later),
    ensures
        a.day <= later.day,
        later == a.grown((later.day - a.day) as nat),
{
    let n = choose|n: nat| later == #[trigger] a.grown(n);
    lemma_grown_day(a, n);
}

/// A table is determined by its day: of two well formed tables, the one
/// with the earlier day reaches the other, so that an identity stands for
/// the same value in both.
pub proof fn lemma_tables_agree(a: Arena, b: Arena)
    requires
        a.wf(),
        b.wf(),
        a.day <= b.day,
    ensures
        a.reaches(b),
{
    reveal(Arena::canonical);
    lemma_grown_sum(Arena::seed(), a.day, (b.day - a.day) as nat);
    assert(b == a.grown((b.day - a.day) as nat));
}

/// The order between two identities is the same after any number of
/// generations.
pub proof fn lemma_grown_keeps_order(a: Arena, n: nat, i: int, j: int)
    requires
        a.wf(),
        a.has(i),
        a.has(j),
    ensures
        a.grown(n).id_le(i, j) == a.id_le(i, j),
        a.grown(n).id_lt(i, j) == a.id_lt(i, j),
        equal(a.grown(n).entries, a.grown(n).entries[i], a.grown(n).entries[j]) == equal(
            a.entries,
            a.entries[i],
            a.entries[j],
        ),
    decreases n,
{
    if n > 0 {
        let before = a.grown((n - 1) as nat);
        lemma_grown_keeps_order(a, (n - 1) as nat, i, j);
        lemma_grown_wf(a, (n - 1) as nat);
        lemma_grow_keeps_order(before, i, j);
        lemma_grow_keeps_order(before, j, i);
    }
}

/// The order between two identities is the same in every later table.
pub proof fn lemma_reaches_keeps_order(a: Arena, later: Arena, i: int, j: int)
    requires
        a.wf(),
        a.reaches(later),
        a.has(i),
        a.has(j),
    ensures
        later.id_le(i, j) == a.id_le(i, j),
        later.id_lt(i, j) == a.id_lt(i, j),
{
    let n = choose|n: nat| later == #[trigger] a.grown(n);
    lemma_grown_keeps_order(a, n, i, j);
}

/// A construction keeps its stored equal, and whether it is numeric, in
/// every later table.
pub proof fn lemma_grown_keeps_lookup(a: Arena, n: nat, c: Form)
    requires
        a.wf(),
        c.fits(a.len()),
    ensures
        a.lookup(c) is Some ==> a.grown(n).lookup(c) == a.lookup(c),
        numeric(a.grown(n).entries, c) == numeric(a.entries, c),
    decreases n,
{
    if n > 0 {
        let before = a.grown((n - 1) as nat);
        lemma_grown_keeps_lookup(a, (n - 1) as nat, c);
        lemma_grown_wf(a, (n - 1) as nat);
        lemma_match_stable(before, c, 0);
        if a.lookup(c) is Some {
            let i = before.lookup(c)->0;
            lemma_match_stable(before, c, i);
            lemma_grow_wf(before);
            lemma_grow_shape(before);
            lemma_lookup_is(before.grow(), c, i);
        }
    }
}

/// A construction keeps its stored equal, and whether it is numeric, in
/// every later table.
pub proof fn lemma_reaches_keeps_lookup(a: Arena, later: Arena, c: Form)
    requires
        a.wf(),
        a.reaches(later),
        c.fits(a.len()),
    ensures
        a.lookup(c) is Some ==> later.lookup(c) == a.lookup(c),
        numeric(later.entries, c) == numeric(a.entries, c),
{
    let n = choose|n: nat| later == #[trigger] a.grown(n);
    lemma_grown_keeps_lookup(a, n, c);
}

} // verus!

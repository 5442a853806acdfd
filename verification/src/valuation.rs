//! The value of a position across tables: a later table holds the same
//! value, any two tables that hold one agree on it, and the positions with
//! no edge or a single edge have the values one expects.
use crate::arena::Arena;
use crate::board::{lemma_cut_valid, Board};
use crate::choices::{lemma_choice_is, lemma_choice_none, lemma_standing_stable, priced};
use crate::hackenbush::Color;
use crate::identity::{
    lemma_fits_own_place, lemma_held_iff_numeric, lemma_lookup_is, lemma_match_is_numeric,
};
use crate::lineage::{
    lemma_grown_sum, lemma_grown_wf, lemma_reaches_by_day, lemma_reaches_keeps_lookup,
    lemma_reaches_next, lemma_tables_agree,
};
use crate::order::{
    equal, lemma_between_operands, lemma_le_reflexive, lemma_lt_transitive, numeric, zero_form,
};
use crate::worth::{
    best, choice, earliest, first_best, lemma_value_unfold, moves_valued, outcome, settles,
    standing, suits, value, worths,
};
use vstd::prelude::*;

verus! {

/// A position keeps its value in every later table.
pub proof fn lemma_value_stable(a: Arena, later: Arena, b: Board)
    requires
        a.wf(),
        a.reaches(later),
        b.valid(),
        value(a, b) is Some,
    ensures
        value(later, b) == value(a, b),
        a.has(value(a, b)->0),
        priced(a, b, worths(a, b)),
        worths(later, b) == worths(a, b),
    decreases b.edges.dom().len(),
{
    lemma_value_unfold(a, b);
    lemma_value_unfold(later, b);
    assert forall|e: int| b.edges.dom().contains(e) implies outcome(later, b, e) == outcome(
        a,
        b,
        e,
    ) && a.has(#[trigger] worths(a, b)[e]) by {
        lemma_cut_valid(b, e);
        assert(outcome(a, b, e) is Some);
        lemma_value_stable(a, later, b.cut(e));
    }
    assert(moves_valued(later, b));
    assert(worths(later, b) =~= worths(a, b));
    lemma_standing_stable(a, later, b, worths(a, b));
    lemma_reaches_keeps_lookup(a, later, standing(a, b, worths(a, b)));
    let c = standing(a, b, worths(a, b));
    assert(a.holds(c));
}

/// Where every move of a position leads to a valued position, it does so
/// in every later table, and to the same values.
pub proof fn lemma_moves_stable(a: Arena, later: Arena, b: Board)
    requires
        a.wf(),
        a.reaches(later),
        b.valid(),
        moves_valued(a, b),
    ensures
        moves_valued(later, b),
        worths(later, b) == worths(a, b),
        priced(a, b, worths(a, b)),
{
    lemma_value_unfold(a, b);
    lemma_value_unfold(later, b);
    assert forall|e: int| #[trigger] b.edges.dom().contains(e) implies outcome(later, b, e)
        == outcome(a, b, e) && a.has(worths(a, b)[e]) by {
        lemma_cut_valid(b, e);
        lemma_value_stable(a, later, b.cut(e));
    }
    assert(worths(later, b) =~= worths(a, b));
    assert forall|e: int| b.edges.dom().contains(e) implies a.has(#[trigger] worths(a, b)[e]) by {}
}

/// A position has the same value in every well formed table that holds a
/// value for it.
pub proof fn lemma_value_agrees(a: Arena, b: Arena, board: Board)
    requires
        a.wf(),
        b.wf(),
        board.valid(),
        value(a, board) is Some,
        value(b, board) is Some,
    ensures
        value(a, board) == value(b, board),
{
    if a.day <= b.day {
        lemma_tables_agree(a, b);
        lemma_value_stable(a, b, board);
    } else {
        lemma_tables_agree(b, a);
        lemma_value_stable(b, a, board);
    }
}

/// Where `before` is no later than a table from `start` on that holds a
/// value for `child`, neither is the earliest table from `before` on that
/// holds one.
pub proof fn lemma_earliest_step(start: Arena, before: Arena, now: Arena, child: Board, n: nat)
    requires
        start.reaches(before),
        before.day <= start.day + n,
        earliest(before, now, child),
        value(start.grown(n), child) is Some,
    ensures
        now.day <= start.day + n,
{
    lemma_reaches_by_day(start, before);
    let k = (before.day - start.day) as nat;
    let m = (start.day + n - before.day) as nat;
    lemma_grown_sum(start, k, m);
    assert(before.grown(m) == start.grown(n));
    assert(value(before.grown(m), child) is Some);
}

/// A position that settles from a table settles from every table that it
/// reaches.
pub proof fn lemma_settles_later(a: Arena, later: Arena, b: Board)
    requires
        a.wf(),
        a.reaches(later),
        b.valid(),
        settles(a, b),
    ensures
        settles(later, b),
{
    let n = choose|n: nat| (#[trigger] value(a.grown(n), b)) is Some;
    let k = choose|k: nat| later == #[trigger] a.grown(k);
    lemma_grown_wf(a, n);
    lemma_grown_wf(a, k);
    if n <= k {
        lemma_grown_sum(a, n, (k - n) as nat);
        assert(a.grown(n).reaches(later));
        lemma_value_stable(a.grown(n), later, b);
        assert(later == later.grown(0));
        assert(value(later.grown(0), b) is Some);
    } else {
        lemma_grown_sum(a, k, (n - k) as nat);
        assert(value(later.grown((n - k) as nat), b) is Some);
    }
}

/// A position whose moves are all valued settles exactly when the
/// construction that stands for it is numeric.
pub proof fn lemma_settles_iff_numeric(a: Arena, b: Board)
    requires
        a.wf(),
        b.valid(),
        moves_valued(a, b),
    ensures
        settles(a, b) <==> numeric(a.entries, standing(a, b, worths(a, b))),
{
    let w = worths(a, b);
    let c = standing(a, b, w);
    lemma_reaches_next(a);
    lemma_moves_stable(a, a, b);
    lemma_standing_stable(a, a, b, w);
    if settles(a, b) {
        let n = choose|n: nat| (#[trigger] value(a.grown(n), b)) is Some;
        let later = a.grown(n);
        lemma_grown_wf(a, n);
        lemma_moves_stable(a, later, b);
        lemma_standing_stable(a, later, b, w);
        lemma_value_unfold(later, b);
        let v = later.lookup(c)->0;
        lemma_match_is_numeric(later, c, v);
        lemma_reaches_keeps_lookup(a, later, c);
    }
    if numeric(a.entries, c) {
        let later = a.grow();
        lemma_held_iff_numeric(a, c);
        lemma_moves_stable(a, later, b);
        lemma_standing_stable(a, later, b, w);
        lemma_value_unfold(later, b);
        assert(later == a.grown(1)) by {
            assert(a.grown(1) == a.grown(0).grow());
        }
        assert(value(a.grown(1), b) is Some);
    }
}

/// A position without edges has the identity element for its value, in
/// every table, and neither player has a move to choose.
pub proof fn lemma_terminal_value(a: Arena, b: Board, color: Color)
    requires
        a.wf(),
        b.valid(),
        b.is_terminal(),
    ensures
        value(a, b) == Some(0int),
        choice(a, b, worths(a, b), color) is None,
        settles(a, b),
{
    lemma_value_unfold(a, b);
    let w = worths(a, b);
    lemma_choice_none(a, b, w, Color::Blue);
    lemma_choice_none(a, b, w, Color::Red);
    let c = standing(a, b, w);
    assert(c == zero_form());
    lemma_le_reflexive(a.entries, c);
    lemma_lookup_is(a, c, 0);
    assert(a == a.grown(0));
    assert(value(a.grown(0), b) is Some);
}

/// A position with a single edge: its owner chooses that edge and the
/// other player has no move; the position settles, and its value is
/// strictly above the identity element where the edge is Blue and strictly
/// below it where the edge is Red.
pub proof fn lemma_single_edge(a: Arena, b: Board, e: int)
    requires
        a.wf(),
        b.valid(),
        b.edges.dom() =~= set![e],
    ensures
        choice(a, b, worths(a, b), b.edges[e].2) == Some(e),
        choice(a, b, worths(a, b), b.edges[e].2.inverted()) is None,
        settles(a, b),
        value(a, b) matches Some(v) ==> a.has(v) && match b.edges[e].2 {
            Color::Blue => a.id_lt(0, v),
            Color::Red => a.id_lt(v, 0),
        },
{
    let color = b.edges[e].2;
    let t = a.entries;
    lemma_cut_valid(b, e);
    let after = b.cut(e);
    assert(after.edges.dom() =~= Set::<int>::empty());
    lemma_terminal_value(a, after, color);
    lemma_value_unfold(a, b);
    let w = worths(a, b);
    assert(moves_valued(a, b));
    assert(w[e] == 0);
    lemma_le_reflexive(t, t[0]);
    assert(first_best(a, b, w, color, e)) by {
        assert(b.legal(e, color));
        assert forall|f: int| #[trigger] b.legal(f, color) implies suits(a, color, w[e], w[f]) by {
            assert(f == e);
        }
        assert forall|f: int| f < e implies !#[trigger] best(a, b, w, color, f) by {
            assert(!b.legal(f, color));
        }
    }
    lemma_choice_is(a, b, w, color, e);
    assert forall|f: int| !b.legal(f, color.inverted()) by {
        if b.legal(f, color.inverted()) {
            assert(f == e);
        }
    }
    lemma_choice_none(a, b, w, color.inverted());
    let c = standing(a, b, w);
    assert(c.fits(a.len()));
    assert(numeric(t, c));
    lemma_settles_iff_numeric(a, b);
    if value(a, b) is Some {
        let v = value(a, b)->0;
        assert(a.holds(c));
        assert(a.has(v) && equal(t, c, t[v]));
        lemma_between_operands(t, c);
        lemma_fits_own_place(a, v);
        lemma_fits_own_place(a, 0);
        match color {
            Color::Blue => {
                lemma_lt_transitive(t, t[0], c, t[v]);
            },
            Color::Red => {
                lemma_lt_transitive(t, t[v], c, t[0]);
            },
        }
    }
}

} // verus!

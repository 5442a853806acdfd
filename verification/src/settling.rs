//! Every valid position has a value. What a Blue move leads to lies strictly
//! below what a Red move leads to, so the construction that stands for a
//! position is numeric, and its value lies strictly between the two.
use crate::arena::Arena;
use crate::board::{lemma_cut_valid, Board};
use crate::cuts::{lemma_cut_absent, lemma_cuts_commute, lemma_one_survives};
use crate::growth::{lemma_grow_shape, lemma_grow_wf};
use crate::hackenbush::Color;
use crate::identity::{
    lemma_fits_own_place, lemma_held_iff_numeric, lemma_identities_totally_ordered,
    lemma_identities_transitive,
};
use crate::choices::{
    lemma_choice_is, lemma_choice_stable, lemma_standing_stable, lemma_suits_chain, priced,
};
use crate::lineage::{
    lemma_grown_sum, lemma_grown_wf, lemma_reaches_keeps_lookup, lemma_reaches_keeps_order,
    lemma_reaches_next,
};
use crate::valuation::{lemma_moves_stable, lemma_value_stable};
use crate::order::{equal, lemma_between_operands, lemma_lt_transitive, numeric};
use crate::worth::{
    best, choice, first_best, lemma_value_needs_valid, lemma_value_unfold, moves_valued, outcome,
    settles, standing, suits, value, worths,
};
use vstd::prelude::*;

verus! {

/// The two positions have the same nodes and the same edges.
pub open spec fn same_graph(b1: Board, b2: Board) -> bool {
    b1.nodes == b2.nodes && b1.edges == b2.edges
}

/// Who is to move has no part in what a player chooses.
pub proof fn lemma_choice_ignores_turn(
    t: Arena,
    b1: Board,
    b2: Board,
    worth: Map<int, int>,
    color: Color,
)
    requires
        same_graph(b1, b2),
    ensures
        choice(t, b1, worth, color) == choice(t, b2, worth, color),
{
    assert forall|e: int|
        #![trigger best(t, b1, worth, color, e)]
        #![trigger best(t, b2, worth, color, e)]
        best(t, b1, worth, color, e) == best(t, b2, worth, color, e) by {
        assert forall|f: int| b1.legal(f, color) == b2.legal(f, color) by {}
    }
    if exists|e: int| first_best(t, b1, worth, color, e) {
        let e = choose|e: int| first_best(t, b1, worth, color, e);
        assert(first_best(t, b2, worth, color, e));
        lemma_choice_is(t, b2, worth, color, e);
    } else if exists|e: int| first_best(t, b2, worth, color, e) {
        let e = choose|e: int| first_best(t, b2, worth, color, e);
        assert(first_best(t, b1, worth, color, e));
    }
}

/// Who is to move has no part in the value of a position.
pub proof fn lemma_value_ignores_turn(t: Arena, b1: Board, b2: Board)
    requires
        same_graph(b1, b2),
    ensures
        value(t, b1) == value(t, b2),
    decreases b1.edges.dom().len(),
{
    if !b1.valid() {
        lemma_value_needs_valid(t, b1);
        lemma_value_needs_valid(t, b2);
    } else {
        lemma_value_unfold(t, b1);
        lemma_value_unfold(t, b2);
        assert forall|e: int| #[trigger] b1.edges.dom().contains(e) implies outcome(t, b1, e)
            == outcome(t, b2, e) by {
            lemma_cut_valid(b1, e);
            assert(b1.cut(e).nodes =~= b2.cut(e).nodes);
            assert(b1.cut(e).edges =~= b2.cut(e).edges);
            lemma_value_ignores_turn(t, b1.cut(e), b2.cut(e));
        }
        assert(worths(t, b1) =~= worths(t, b2));
        lemma_choice_ignores_turn(t, b1, b2, worths(t, b1), Color::Blue);
        lemma_choice_ignores_turn(t, b1, b2, worths(t, b1), Color::Red);
    }
}

/// Some number bounds what `need` asks for over a finite set.
pub proof fn lemma_common_bound(s: Set<int>, need: spec_fn(int) -> nat) -> (bound: nat)
    requires
        s.finite(),
    ensures
        forall|e: int| s.contains(e) ==> #[trigger] need(e) <= bound,
    decreases s.len(),
{
    if s.len() == 0 {
        0
    } else {
        let x = s.choose();
        let rest = lemma_common_bound(s.remove(x), need);
        let bound = if need(x) <= rest {
            rest
        } else {
            need(x)
        };
        assert forall|e: int| s.contains(e) implies #[trigger] need(e) <= bound by {
            if e != x {
                assert(s.remove(x).contains(e));
            }
        }
        bound
    }
}

/// Among finitely many valued moves, one suits `color` at least as well as
/// every other.
pub proof fn lemma_has_best(t: Arena, color: Color, worth: Map<int, int>, s: Set<int>) -> (m: int)
    requires
        t.wf(),
        s.finite(),
        s.len() > 0,
        forall|e: int| s.contains(e) ==> t.has(#[trigger] worth[e]),
    ensures
        s.contains(m),
        forall|f: int| s.contains(f) ==> suits(t, color, worth[m], #[trigger] worth[f]),
    decreases s.len(),
{
    let x = s.choose();
    let rest = s.remove(x);
    lemma_identities_totally_ordered(t, worth[x], worth[x]);
    if rest.len() == 0 {
        assert forall|f: int| s.contains(f) implies suits(
            t,
            color,
            worth[x],
            #[trigger] worth[f],
        ) by {
            if f != x {
                assert(rest.contains(f));
            }
        }
        x
    } else {
        let m = lemma_has_best(t, color, worth, rest);
        lemma_identities_totally_ordered(t, worth[x], worth[m]);
        lemma_identities_totally_ordered(t, worth[m], worth[x]);
        if suits(t, color, worth[x], worth[m]) {
            assert forall|f: int| s.contains(f) implies suits(
                t,
                color,
                worth[x],
                #[trigger] worth[f],
            ) by {
                if f != x {
                    assert(rest.contains(f));
                    lemma_suits_chain(t, color, worth[x], worth[m], worth[f]);
                }
            }
            x
        } else {
            assert forall|f: int| s.contains(f) implies suits(
                t,
                color,
                worth[m],
                #[trigger] worth[f],
            ) by {
                if f != x {
                    assert(rest.contains(f));
                }
            }
            m
        }
    }
}

/// Below a best move there is a first best move.
pub proof fn lemma_least_best(
    t: Arena,
    b: Board,
    worth: Map<int, int>,
    color: Color,
    m: int,
) -> (first: int)
    requires
        b.in_range(),
        best(t, b, worth, color, m),
    ensures
        first_best(t, b, worth, color, first),
    decreases m,
{
    if exists|f: int| f < m && best(t, b, worth, color, f) {
        let f = choose|f: int| f < m && best(t, b, worth, color, f);
        assert(b.edges.dom().contains(f));
        lemma_least_best(t, b, worth, color, f)
    } else {
        m
    }
}

/// A player with a move has a move to choose.
pub proof fn lemma_choice_exists(t: Arena, b: Board, worth: Map<int, int>, color: Color, e: int)
    requires
        t.wf(),
        b.valid(),
        priced(t, b, worth),
        b.legal(e, color),
    ensures
        choice(t, b, worth, color) is Some,
{
    let s = b.edges.dom().filter(|f: int| b.legal(f, color));
    assert(s.contains(e));
    assert(s.subset_of(b.edges.dom()));
    vstd::set_lib::lemma_set_subset_finite(b.edges.dom(), s);
    if s.len() == 0 {
        assert(s =~= Set::<int>::empty());
    }
    let m = lemma_has_best(t, color, worth, s);
    assert(best(t, b, worth, color, m)) by {
        assert forall|f: int| #[trigger] b.legal(f, color) implies suits(
            t,
            color,
            worth[m],
            worth[f],
        ) by {
            assert(s.contains(f));
        }
    }
    let first = lemma_least_best(t, b, worth, color, m);
    lemma_choice_is(t, b, worth, color, first);
}

/// The table holds a value for `b`, strictly above what every Blue move
/// leads to and strictly below what every Red move leads to.
pub open spec fn between(t: Arena, b: Board) -> bool {
    &&& value(t, b) is Some
    &&& forall|e: int| #[trigger]
        b.edges.dom().contains(e) ==> match b.edges[e].2 {
            Color::Blue => t.id_lt(outcome(t, b, e)->0, value(t, b)->0),
            Color::Red => t.id_lt(value(t, b)->0, outcome(t, b, e)->0),
        }
}

/// What holds between a position and its moves in one table holds in every
/// later table.
pub proof fn lemma_between_stable(t: Arena, later: Arena, b: Board)
    requires
        t.wf(),
        t.reaches(later),
        b.valid(),
        between(t, b),
    ensures
        between(later, b),
{
    lemma_value_stable(t, later, b);
    lemma_value_unfold(t, b);
    assert forall|e: int| #[trigger] b.edges.dom().contains(e) implies match b.edges[e].2 {
        Color::Blue => later.id_lt(outcome(later, b, e)->0, value(later, b)->0),
        Color::Red => later.id_lt(value(later, b)->0, outcome(later, b, e)->0),
    } by {
        lemma_cut_valid(b, e);
        assert(outcome(t, b, e) is Some);
        lemma_value_stable(t, later, b.cut(e));
        lemma_reaches_keeps_order(t, later, outcome(t, b, e)->0, value(t, b)->0);
        lemma_reaches_keeps_order(t, later, value(t, b)->0, outcome(t, b, e)->0);
    }
}

/// What a Blue move leads to lies strictly below what a Red move leads to,
/// given that both of these positions have their values strictly between
/// what their own moves lead to.
pub proof fn lemma_opposed_moves(t: Arena, b: Board, e: int, f: int)
    requires
        t.wf(),
        b.valid(),
        b.legal(e, Color::Blue),
        b.legal(f, Color::Red),
        between(t, b.cut(e)),
        between(t, b.cut(f)),
    ensures
        t.id_lt(value(t, b.cut(e))->0, value(t, b.cut(f))->0),
{
    let after_e = b.cut(e);
    let after_f = b.cut(f);
    let after_both = after_e.cut(f);
    lemma_cut_valid(b, e);
    lemma_cut_valid(b, f);
    lemma_cuts_commute(b, e, f);
    lemma_one_survives(b, e, f);
    lemma_reaches_next(t);
    lemma_value_stable(t, t, after_e);
    lemma_value_stable(t, t, after_f);
    lemma_value_unfold(t, after_e);
    lemma_value_unfold(t, after_f);
    let low = value(t, after_e)->0;
    let high = value(t, after_f)->0;
    if after_e.edges.dom().contains(f) {
        assert(after_e.edges[f] == b.edges[f]);
        assert(outcome(t, after_e, f) is Some);
        lemma_cut_valid(after_e, f);
        lemma_value_stable(t, t, after_both);
    } else {
        lemma_cut_absent(b, e, f);
        lemma_value_ignores_turn(t, after_both, after_e);
    }
    if after_f.edges.dom().contains(e) {
        assert(after_f.edges[e] == b.edges[e]);
        assert(outcome(t, after_f, e) is Some);
    } else {
        lemma_cut_absent(b, f, e);
        lemma_value_ignores_turn(t, after_both, after_f);
    }
    let middle = value(t, after_both)->0;
    lemma_identities_totally_ordered(t, low, middle);
    lemma_identities_totally_ordered(t, middle, high);
    lemma_identities_transitive(t, low, middle, high);
}

/// Every valid position has a value in some later table, strictly between
/// what its moves lead to.
pub proof fn lemma_position_between(a: Arena, b: Board) -> (n: nat)
    requires
        a.wf(),
        b.valid(),
    ensures
        between(a.grown(n), b),
    decreases b.edges.dom().len(),
{
    let need = |e: int| choose|k: nat| between(a.grown(k), b.cut(e));
    assert forall|e: int| b.edges.dom().contains(e) implies between(
        a.grown(#[trigger] need(e)),
        b.cut(e),
    ) by {
        lemma_cut_valid(b, e);
        let k = lemma_position_between(a, b.cut(e));
    }
    let m = lemma_common_bound(b.edges.dom(), need);
    let t = a.grown(m);
    lemma_grown_wf(a, m);
    assert forall|e: int| #[trigger] b.edges.dom().contains(e) implies between(t, b.cut(e)) by {
        lemma_cut_valid(b, e);
        lemma_grown_wf(a, need(e));
        assert(need(e) <= m);
        lemma_grown_sum(a, need(e), (m - need(e)) as nat);
        assert(a.grown(need(e)).reaches(t));
        lemma_between_stable(a.grown(need(e)), t, b.cut(e));
    }
    lemma_value_unfold(t, b);
    assert(moves_valued(t, b));
    let w = worths(t, b);
    let c = standing(t, b, w);
    lemma_reaches_next(t);
    lemma_moves_stable(t, t, b);
    lemma_standing_stable(t, t, b, w);
    lemma_choice_stable(t, t, b, w, Color::Blue);
    lemma_choice_stable(t, t, b, w, Color::Red);
    assert(numeric(t.entries, c)) by {
        if c.left is Some && c.right is Some {
            let e = choice(t, b, w, Color::Blue)->0;
            let f = choice(t, b, w, Color::Red)->0;
            lemma_opposed_moves(t, b, e, f);
        }
    }
    lemma_held_iff_numeric(t, c);
    let later = t.grow();
    lemma_grow_wf(t);
    lemma_grow_shape(t);
    lemma_moves_stable(t, later, b);
    lemma_standing_stable(t, later, b, w);
    lemma_value_unfold(later, b);
    lemma_reaches_keeps_lookup(t, later, c);
    let v = value(later, b)->0;
    assert(later.has(v) && equal(later.entries, c, later.entries[v]));
    lemma_between_operands(later.entries, c);
    lemma_fits_own_place(later, v);
    assert forall|e: int| #[trigger] b.edges.dom().contains(e) implies match b.edges[e].2 {
        Color::Blue => later.id_lt(outcome(later, b, e)->0, value(later, b)->0),
        Color::Red => later.id_lt(value(later, b)->0, outcome(later, b, e)->0),
    } by {
        let color = b.edges[e].2;
        assert(b.legal(e, color));
        lemma_choice_exists(t, b, w, color, e);
        let top = choice(t, b, w, color)->0;
        assert(first_best(t, b, w, color, top));
        assert(suits(t, color, w[top], w[e]));
        assert(t.has(w[top]) && t.has(w[e]));
        lemma_reaches_keeps_order(t, later, w[e], w[top]);
        lemma_reaches_keeps_order(t, later, w[top], w[e]);
        lemma_fits_own_place(later, w[top]);
        lemma_fits_own_place(later, w[e]);
        let u = later.entries;
        match color {
            Color::Blue => {
                assert(c.left == Some(w[top]));
                lemma_lt_transitive(u, u[w[top]], c, u[v]);
                lemma_lt_transitive(u, u[w[e]], u[w[top]], u[v]);
            },
            Color::Red => {
                assert(c.right == Some(w[top]));
                lemma_lt_transitive(u, u[v], c, u[w[top]]);
                lemma_lt_transitive(u, u[v], u[w[top]], u[w[e]]);
            },
        }
    }
    assert(later == a.grown(m + 1)) by {
        assert(a.grown(m + 1) == a.grown(m).grow());
    }
    m + 1
}

/// Every valid position settles: from any table on, some later table holds
/// its value.
pub proof fn lemma_every_position_settles(a: Arena, b: Board)
    requires
        a.wf(),
        b.valid(),
    ensures
        settles(a, b),
{
    let n = lemma_position_between(a, b);
    assert(value(a.grown(n), b) is Some);
}

} // verus!

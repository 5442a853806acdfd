//! What the players choose: the first of the moves that suit them best.
//! The choice is unique, and the same in every later table.
use crate::arena::Arena;
use crate::board::Board;
use crate::hackenbush::Color;
use crate::identity::lemma_fits_own_place;
use crate::lineage::lemma_reaches_keeps_order;
use crate::order::{lemma_le_reflexive, lemma_le_transitive};
use crate::worth::{best, choice, first_best, standing, suits};
use vstd::prelude::*;

verus! {

/// Every move of `b` has, in `worth`, a value that the table holds.
pub open spec fn priced(a: Arena, b: Board, worth: Map<int, int>) -> bool {
    forall|e: int| b.edges.dom().contains(e) ==> a.has(#[trigger] worth[e])
}

/// Order among what suits a player: as good as something as good is as
/// good, and better than something as good is better.
pub proof fn lemma_suits_chain(a: Arena, color: Color, x: int, y: int, z: int)
    requires
        a.wf(),
        a.has(x),
        a.has(y),
        a.has(z),
        suits(a, color, x, y),
        suits(a, color, y, z),
    ensures
        suits(a, color, x, z),
        !suits(a, color, y, x) ==> !suits(a, color, z, x),
        suits(a, color, y, y),
{
    let t = a.entries;
    lemma_fits_own_place(a, x);
    lemma_fits_own_place(a, y);
    lemma_fits_own_place(a, z);
    lemma_le_reflexive(t, t[y]);
    match color {
        Color::Blue => {
            lemma_le_transitive(t, t[z], t[y], t[x]);
            if suits(a, color, z, x) {
                lemma_le_transitive(t, t[x], t[z], t[y]);
            }
        },
        Color::Red => {
            lemma_le_transitive(t, t[x], t[y], t[z]);
            if suits(a, color, z, x) {
                lemma_le_transitive(t, t[y], t[z], t[x]);
            }
        },
    }
}

/// At most one move is the first of the best.
pub proof fn lemma_first_best_unique(
    a: Arena,
    b: Board,
    worth: Map<int, int>,
    color: Color,
    e1: int,
    e2: int,
)
    requires
        first_best(a, b, worth, color, e1),
        first_best(a, b, worth, color, e2),
    ensures
        e1 == e2,
{
}

/// The first of the best moves is the chosen one.
pub proof fn lemma_choice_is(a: Arena, b: Board, worth: Map<int, int>, color: Color, e: int)
    requires
        first_best(a, b, worth, color, e),
    ensures
        choice(a, b, worth, color) == Some(e),
{
    let chosen = choose|e: int| first_best(a, b, worth, color, e);
    lemma_first_best_unique(a, b, worth, color, e, chosen);
}

/// A player without a move chooses none.
pub proof fn lemma_choice_none(a: Arena, b: Board, worth: Map<int, int>, color: Color)
    requires
        forall|e: int| !b.legal(e, color),
    ensures
        choice(a, b, worth, color) is None,
{
}

/// Which moves are best is the same in every later table.
pub proof fn lemma_best_stable(
    a: Arena,
    later: Arena,
    b: Board,
    worth: Map<int, int>,
    color: Color,
    e: int,
)
    requires
        a.wf(),
        a.reaches(later),
        priced(a, b, worth),
    ensures
        best(later, b, worth, color, e) == best(a, b, worth, color, e),
{
    if b.legal(e, color) {
        assert forall|f: int| #[trigger] b.legal(f, color) implies suits(
            later,
            color,
            worth[e],
            worth[f],
        ) == suits(a, color, worth[e], worth[f]) by {
            assert(a.has(worth[e]) && a.has(worth[f]));
            lemma_reaches_keeps_order(a, later, worth[e], worth[f]);
            lemma_reaches_keeps_order(a, later, worth[f], worth[e]);
        }
    }
}

/// The move that a player chooses is the same in every later table.
pub proof fn lemma_choice_stable(
    a: Arena,
    later: Arena,
    b: Board,
    worth: Map<int, int>,
    color: Color,
)
    requires
        a.wf(),
        a.reaches(later),
        priced(a, b, worth),
    ensures
        choice(later, b, worth, color) == choice(a, b, worth, color),
        choice(a, b, worth, color) matches Some(e) ==> b.legal(e, color),
{
    assert forall|e: int|
        first_best(later, b, worth, color, e) == first_best(a, b, worth, color, e) by {
        lemma_best_stable(a, later, b, worth, color, e);
        assert forall|f: int|
            #![trigger best(later, b, worth, color, f)]
            #![trigger best(a, b, worth, color, f)]
            best(later, b, worth, color, f) == best(a, b, worth, color, f) by {
            lemma_best_stable(a, later, b, worth, color, f);
        }
    }
    if exists|e: int| first_best(a, b, worth, color, e) {
        let e = choose|e: int| first_best(a, b, worth, color, e);
        assert(first_best(later, b, worth, color, e));
        lemma_choice_is(later, b, worth, color, e);
    } else {
        if exists|e: int| first_best(later, b, worth, color, e) {
            let e = choose|e: int| first_best(later, b, worth, color, e);
            assert(first_best(a, b, worth, color, e));
        }
    }
}

/// The construction that stands for a position is the same in every later
/// table, and names only values that the earlier table holds.
pub proof fn lemma_standing_stable(a: Arena, later: Arena, b: Board, worth: Map<int, int>)
    requires
        a.wf(),
        a.reaches(later),
        priced(a, b, worth),
    ensures
        standing(later, b, worth) == standing(a, b, worth),
        standing(a, b, worth).fits(a.len()),
{
    lemma_choice_stable(a, later, b, worth, Color::Blue);
    lemma_choice_stable(a, later, b, worth, Color::Red);
}

} // verus!

//! The value of a position, stated over the model of the value table and the
//! model of the position: what the search computes, without the search.
use crate::arena::Arena;
use crate::board::{lemma_cut_valid, Board};
use crate::hackenbush::Color;
use crate::order::Form;
use vstd::prelude::*;

verus! {

/// The value `x` suits `color` at least as well as `y`: Blue plays for the
/// greater value, Red for the lesser.
pub open spec fn suits(a: Arena, color: Color, x: int, y: int) -> bool {
    match color {
        Color::Blue => a.id_le(y, x),
        Color::Red => a.id_le(x, y),
    }
}

/// Cutting `e` is a move of `color` that no other move of `color` betters,
/// where `worth` gives the value that each move leads to.
pub open spec fn best(a: Arena, b: Board, worth: Map<int, int>, color: Color, e: int) -> bool {
    &&& b.legal(e, color)
    &&& forall|f: int| #[trigger] b.legal(f, color) ==> suits(a, color, worth[e], worth[f])
}

/// Cutting `e` is the first of the best moves of `color`.
pub open spec fn first_best(
    a: Arena,
    b: Board,
    worth: Map<int, int>,
    color: Color,
    e: int,
) -> bool {
    &&& best(a, b, worth, color, e)
    &&& forall|f: int| f < e ==> !#[trigger] best(a, b, worth, color, f)
}

/// The move that `color` chooses, if it has one.
pub open spec fn choice(a: Arena, b: Board, worth: Map<int, int>, color: Color) -> Option<int> {
    if exists|e: int| first_best(a, b, worth, color, e) {
        Some(choose|e: int| first_best(a, b, worth, color, e))
    } else {
        None
    }
}

/// The value that the chosen move of `color` leads to, if it has a move.
pub open spec fn prospect(a: Arena, b: Board, worth: Map<int, int>, color: Color) -> Option<int> {
    match choice(a, b, worth, color) {
        Some(e) => Some(worth[e]),
        None => None,
    }
}

/// The construction that stands for a position: the best that Blue can
/// reach on the left, the best that Red can reach on the right.
pub open spec fn standing(a: Arena, b: Board, worth: Map<int, int>) -> Form {
    Form {
        left: prospect(a, b, worth, Color::Blue),
        right: prospect(a, b, worth, Color::Red),
    }
}

/// Every move of `b` leads to a position whose value the table holds.
pub open spec fn moves_valued(a: Arena, b: Board) -> bool
    decreases b.edges.dom().len(), 0nat,
    when b.valid()
    via moves_valued_decreases
{
    forall|e: int| #[trigger] b.edges.dom().contains(e) ==> value(a, b.cut(e)) is Some
}

/// The value that each move of `b` leads to.
pub open spec fn worths(a: Arena, b: Board) -> Map<int, int>
    decreases b.edges.dom().len(), 0nat,
    when b.valid()
    via worths_decreases
{
    Map::new(
        |e: int| b.edges.dom().contains(e),
        |e: int|
            if b.edges.dom().contains(e) {
                value(a, b.cut(e))->0
            } else {
                0
            },
    )
}

/// The value of the position `b` as an identity of the table `a`, where the
/// table holds it: the stored equal of the construction whose left operand
/// is the greatest value that a Blue move leads to and whose right operand
/// is the least value that a Red move leads to. There is none where the
/// position is not valid, or where the table has not grown far enough to
/// hold the value or that of a position that some move leads to.
#[verifier::opaque]
pub open spec fn value(a: Arena, b: Board) -> Option<int>
    decreases b.edges.dom().len(), 1nat,
{
    if b.valid() && moves_valued(a, b) {
        a.lookup(standing(a, b, worths(a, b)))
    } else {
        None
    }
}

#[via_fn]
proof fn moves_valued_decreases(a: Arena, b: Board) {
    assert forall|e: int| b.edges.dom().contains(e) implies b.cut(e).edges.dom().len()
        < b.edges.dom().len() by {
        lemma_cut_valid(b, e);
    }
}

#[via_fn]
proof fn worths_decreases(a: Arena, b: Board) {
    assert forall|e: int| b.edges.dom().contains(e) implies b.cut(e).edges.dom().len()
        < b.edges.dom().len() by {
        lemma_cut_valid(b, e);
    }
}

/// The value of the position that cutting `e` leads to, where the table
/// holds it.
pub open spec fn outcome(a: Arena, b: Board, e: int) -> Option<int> {
    value(a, b.cut(e))
}

/// Some table from `a` on holds a value for the position `b`.
pub open spec fn settles(a: Arena, b: Board) -> bool {
    exists|n: nat| (#[trigger] value(a.grown(n), b)) is Some
}

/// The table `later` is no later than any table from `a` on that holds a
/// value for `b`.
pub open spec fn earliest(a: Arena, later: Arena, b: Board) -> bool {
    forall|n: nat| (#[trigger] value(a.grown(n), b)) is Some ==> later.day <= a.day + n
}

/// The value of a position in terms of the values that its moves lead to.
pub proof fn lemma_value_unfold(a: Arena, b: Board)
    requires
        b.valid(),
    ensures
        value(a, b) == if moves_valued(a, b) {
            a.lookup(standing(a, b, worths(a, b)))
        } else {
            None
        },
        moves_valued(a, b) <==> forall|e: int|
            #[trigger] b.edges.dom().contains(e) ==> outcome(a, b, e) is Some,
        worths(a, b).dom() == b.edges.dom(),
        forall|e: int|
            #[trigger] b.edges.dom().contains(e) ==> worths(a, b)[e] == outcome(a, b, e)->0,
{
    reveal(value);
    assert(worths(a, b).dom() =~= b.edges.dom());
}

/// Only a valid position has a value.
pub proof fn lemma_value_needs_valid(a: Arena, b: Board)
    requires
        !b.valid(),
    ensures
        value(a, b) is None,
{
    reveal(value);
}

} // verus!

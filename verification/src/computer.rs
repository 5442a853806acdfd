//! The search: the value of a position, and the move that a player chooses.
use crate::arena::Arena;
use crate::board::{lemma_cut_valid, Board};
use crate::error::Error;
use crate::graph::graph_edge_references;
use crate::hackenbush::{Color, Game};
use crate::identity::lemma_identities_totally_ordered;
use crate::choices::{
    lemma_choice_is, lemma_choice_none, lemma_choice_stable, lemma_standing_stable,
    lemma_suits_chain, priced,
};
use crate::lineage::{lemma_reaches_by_day, lemma_reaches_chain, lemma_reaches_next};
use crate::settling::lemma_every_position_settles;
use crate::valuation::{
    lemma_earliest_step, lemma_settles_iff_numeric, lemma_settles_later, lemma_terminal_value,
    lemma_value_stable,
};
use crate::surreals::{construction, operand, Surreal, SurrealNumbers};
use crate::worth::{
    best, choice, earliest, lemma_value_unfold, moves_valued, outcome, prospect, standing, suits,
    value, worths,
};
use std::cmp::Ordering;
use vstd::prelude::*;

verus! {

/// A position as the search rates it: its value, and the move that the
/// player asked about chooses.
#[derive(Copy, Clone, Debug, PartialEq, Eq)]
pub struct Position {
    pub score: Surreal,
    pub best_move: Option<usize>,
}

/// Whether `x` suits `color` strictly better than `y`.
fn betters(x: &Surreal, y: &Surreal, color: Color, table: &SurrealNumbers) -> (b: bool)
    requires
        table@.wf(),
        table@.has(x@),
        table@.has(y@),
    ensures
        b == !suits(table@, color, y@, x@),
{
    proof {
        lemma_identities_totally_ordered(table@, x@, y@);
        lemma_identities_totally_ordered(table@, y@, x@);
    }
    let o = x.cmp(y, table);
    match color {
        Color::Blue => matches!(o, Ordering::Greater),
        Color::Red => matches!(o, Ordering::Less),
    }
}

/// The place in `values` of the first entry that no other entry betters for
/// `color`.
fn select(values: &Vec<(Position, usize)>, color: Color, table: &SurrealNumbers) -> (chosen: Option<
    usize,
>)
    requires
        table@.wf(),
        forall|i: int| 0 <= i < values.len() ==> table@.has((#[trigger] values[i]).0.score@),
    ensures
        chosen is None <==> values.len() == 0,
        chosen matches Some(at) ==> at < values.len() && (forall|j: int|
            0 <= j < values.len() ==> suits(
                table@,
                color,
                values[at as int].0.score@,
                (#[trigger] values[j]).0.score@,
            )) && (forall|j: int|
            0 <= j < at ==> !suits(
                table@,
                color,
                (#[trigger] values[j]).0.score@,
                values[at as int].0.score@,
            )),
{
    if values.len() == 0 {
        return None;
    }
    let mut at: usize = 0;
    let mut k: usize = 1;
    proof {
        lemma_identities_totally_ordered(table@, values[0].0.score@, values[0].0.score@);
    }
    while k < values.len()
        invariant
            table@.wf(),
            forall|i: int| 0 <= i < values.len() ==> table@.has((#[trigger] values[i]).0.score@),
            at < k <= values.len(),
            forall|j: int|
                0 <= j < k ==> suits(
                    table@,
                    color,
                    values[at as int].0.score@,
                    (#[trigger] values[j]).0.score@,
                ),
            forall|j: int|
                0 <= j < at ==> !suits(
                    table@,
                    color,
                    (#[trigger] values[j]).0.score@,
                    values[at as int].0.score@,
                ),
        decreases values.len() - k,
    {
        if betters(&values[k].0.score, &values[at].0.score, color, table) {
            proof {
                let x = values[k as int].0.score@;
                let y = values[at as int].0.score@;
                lemma_identities_totally_ordered(table@, x, y);
                lemma_identities_totally_ordered(table@, y, x);
                assert(suits(table@, color, x, y));
                assert forall|j: int| 0 <= j < k + 1 implies suits(
                    table@,
                    color,
                    x,
                    (#[trigger] values[j]).0.score@,
                ) by {
                    if j < k {
                        lemma_suits_chain(table@, color, x, y, values[j].0.score@);
                    } else {
                        lemma_suits_chain(table@, color, x, y, y);
                        lemma_identities_totally_ordered(table@, x, x);
                    }
                }
                assert forall|j: int| 0 <= j < k implies !suits(
                    table@,
                    color,
                    (#[trigger] values[j]).0.score@,
                    x,
                ) by {
                    lemma_suits_chain(table@, color, x, y, values[j].0.score@);
                }
            }
            at = k;
        }
        k += 1;
    }
    Some(at)
}

/// The entry `entry` of a player's list is the rated move at place `j` of
/// `positions`, which belongs to `color`.
pub open spec fn came_from(
    positions: Seq<(Position, usize, Color)>,
    color: Color,
    entry: (Position, usize),
    j: int,
) -> bool {
    &&& 0 <= j < positions.len()
    &&& positions[j].2 == color
    &&& positions[j].0 == entry.0
    &&& positions[j].1 == entry.1
}

/// The entry `entry` is one of the first `bound` rated moves, and belongs
/// to `color`.
pub open spec fn sourced(
    positions: Seq<(Position, usize, Color)>,
    color: Color,
    entry: (Position, usize),
    bound: int,
) -> bool {
    exists|j: int| j < bound && #[trigger] came_from(positions, color, entry, j)
}

/// The entries of `positions` whose move belongs to `color`, in order.
fn side_of(positions: &Vec<(Position, usize, Color)>, color: Color) -> (side: Vec<
    (Position, usize),
>)
    requires
        forall|i: int, j: int| 0 <= i < j < positions.len() ==> positions[i].1 < positions[j].1,
    ensures
        forall|i: int, j: int| 0 <= i < j < side.len() ==> side[i].1 < side[j].1,
        forall|i: int|
            0 <= i < side.len() ==> sourced(
                positions@,
                color,
                #[trigger] side[i],
                positions.len() as int,
            ),
        forall|j: int|
            0 <= j < positions.len() && (#[trigger] positions[j]).2 == color ==> exists|i: int|
                0 <= i < side.len() && #[trigger] came_from(positions@, color, side[i], j),
{
    let mut side: Vec<(Position, usize)> = Vec::new();
    let mut k: usize = 0;
    while k < positions.len()
        invariant
            k <= positions.len(),
            forall|i: int, j: int| 0 <= i < j < positions.len() ==> positions[i].1 < positions[j].1,
            forall|i: int, j: int| 0 <= i < j < side.len() ==> side[i].1 < side[j].1,
            forall|i: int|
                0 <= i < side.len() ==> sourced(positions@, color, #[trigger] side[i], k as int),
            forall|j: int|
                0 <= j < k && (#[trigger] positions[j]).2 == color ==> exists|i: int|
                    0 <= i < side.len() && #[trigger] came_from(positions@, color, side[i], j),
        decreases positions.len() - k,
    {
        let (position, edge, edge_color) = positions[k];
        if edge_color == color {
            let ghost before = side@;
            proof {
                assert forall|i: int| 0 <= i < side.len() implies (#[trigger] side[i]).1 < edge by {
                    let j = choose|j: int|
                        j < k && #[trigger] came_from(positions@, color, side[i], j);
                    assert(positions[j].1 < positions[k as int].1);
                }
            }
            side.push((position, edge));
            proof {
                assert forall|i: int| 0 <= i < side.len() implies sourced(
                    positions@,
                    color,
                    #[trigger] side[i],
                    k + 1,
                ) by {
                    if i < before.len() {
                        assert(side[i] == before[i]);
                        let j = choose|j: int|
                            j < k && #[trigger] came_from(positions@, color, before[i], j);
                        assert(came_from(positions@, color, side[i], j));
                    } else {
                        assert(came_from(positions@, color, side[i], k as int));
                    }
                }
                assert forall|j: int|
                    0 <= j < k + 1 && (#[trigger] positions[j]).2 == color implies exists|i: int|
                    0 <= i < side.len() && #[trigger] came_from(positions@, color, side[i], j) by {
                    if j < k {
                        let i = choose|i: int|
                            0 <= i < before.len() && #[trigger] came_from(
                                positions@,
                                color,
                                before[i],
                                j,
                            );
                        assert(side[i] == before[i]);
                        assert(came_from(positions@, color, side[i], j));
                    } else {
                        assert(came_from(positions@, color, side[before.len() as int], j));
                    }
                }
            }
        }
        k += 1;
    }
    side
}

/// The moves of `color` in `b`, each with the value it leads to, in
/// increasing order of the move.
pub open spec fn lists_side(
    b: Board,
    worth: Map<int, int>,
    color: Color,
    side: Seq<(Position, usize)>,
) -> bool {
    &&& forall|i: int, j: int| 0 <= i < j < side.len() ==> side[i].1 < side[j].1
    &&& forall|i: int|
        0 <= i < side.len() ==> b.legal((#[trigger] side[i]).1 as int, color) && side[i].0.score@
            == worth[side[i].1 as int]
    &&& forall|e: int|
        b.legal(e, color) ==> exists|i: int| 0 <= i < side.len() && (#[trigger] side[i]).1 == e
}

/// The place `at` holds the first entry of `side` that none betters.
pub open spec fn first_unbettered(
    a: Arena,
    color: Color,
    side: Seq<(Position, usize)>,
    at: int,
) -> bool {
    &&& 0 <= at < side.len()
    &&& forall|j: int|
        0 <= j < side.len() ==> suits(a, color, side[at].0.score@, (#[trigger] side[j]).0.score@)
    &&& forall|j: int|
        0 <= j < at ==> !suits(a, color, (#[trigger] side[j]).0.score@, side[at].0.score@)
}

/// The first unbettered entry of the list of a player's moves is the move
/// that the player chooses.
pub proof fn lemma_selected_is_choice(
    a: Arena,
    b: Board,
    worth: Map<int, int>,
    color: Color,
    side: Seq<(Position, usize)>,
    at: int,
)
    requires
        lists_side(b, worth, color, side),
        first_unbettered(a, color, side, at),
    ensures
        choice(a, b, worth, color) == Some(side[at].1 as int),
        prospect(a, b, worth, color) == Some(side[at].0.score@),
{
    let m = side[at].1 as int;
    assert(b.legal(m, color));
    assert forall|f: int| #[trigger] b.legal(f, color) implies suits(
        a,
        color,
        worth[m],
        worth[f],
    ) by {
        let j = choose|j: int| 0 <= j < side.len() && (#[trigger] side[j]).1 == f;
        assert(side[j].0.score@ == worth[f]);
    }
    assert forall|f: int| f < m implies !#[trigger] best(a, b, worth, color, f) by {
        if best(a, b, worth, color, f) {
            let j = choose|j: int| 0 <= j < side.len() && (#[trigger] side[j]).1 == f;
            assert(side[j].0.score@ == worth[f]);
            if j >= at {
                if j > at {
                    assert(side[at].1 < side[j].1);
                }
            }
            assert(j < at);
            assert(suits(a, color, worth[f], worth[m]));
        }
    }
    lemma_choice_is(a, b, worth, color, m);
}

/// A player whose list of moves is empty chooses none.
pub proof fn lemma_empty_is_no_choice(
    a: Arena,
    b: Board,
    worth: Map<int, int>,
    color: Color,
    side: Seq<(Position, usize)>,
)
    requires
        lists_side(b, worth, color, side),
        side.len() == 0,
    ensures
        choice(a, b, worth, color) is None,
        prospect(a, b, worth, color) is None,
{
    assert forall|e: int| !b.legal(e, color) by {
        if b.legal(e, color) {
            let i = choose|i: int| 0 <= i < side.len() && (#[trigger] side[i]).1 == e;
        }
    }
    lemma_choice_none(a, b, worth, color);
}

/// The list `side` holds the moves of `color` among the rated moves of
/// `b`, each with the value that the table gives to the position it leads
/// to.
proof fn lemma_side_lists(
    a: Arena,
    b: Board,
    edges: Seq<(Color, usize)>,
    positions: Seq<(Position, usize, Color)>,
    color: Color,
    side: Seq<(Position, usize)>,
)
    requires
        a.wf(),
        b.valid(),
        moves_valued(a, b),
        forall|i: int|
            0 <= i < edges.len() ==> b.edges.dom().contains((#[trigger] edges[i]).1 as int)
                && b.edges[edges[i].1 as int].2 == edges[i].0,
        forall|e: int|
            b.edges.dom().contains(e) ==> exists|i: int|
                0 <= i < edges.len() && (#[trigger] edges[i]).1 == e,
        positions.len() == edges.len(),
        forall|i: int|
            0 <= i < positions.len() ==> (#[trigger] positions[i]).1 == edges[i].1
                && positions[i].2 == edges[i].0 && outcome(a, b, edges[i].1 as int) == Some(
                positions[i].0.score@,
            ),
        forall|i: int, j: int| 0 <= i < j < side.len() ==> side[i].1 < side[j].1,
        forall|i: int|
            0 <= i < side.len() ==> sourced(
                positions,
                color,
                #[trigger] side[i],
                positions.len() as int,
            ),
        forall|j: int|
            0 <= j < positions.len() && (#[trigger] positions[j]).2 == color ==> exists|i: int|
                0 <= i < side.len() && #[trigger] came_from(positions, color, side[i], j),
    ensures
        lists_side(b, worths(a, b), color, side),
        priced(a, b, worths(a, b)),
        forall|i: int| 0 <= i < side.len() ==> a.has((#[trigger] side[i]).0.score@),
{
    lemma_value_unfold(a, b);
    lemma_reaches_next(a);
    assert forall|e: int| b.edges.dom().contains(e) implies a.has(#[trigger] worths(a, b)[e]) by {
        lemma_cut_valid(b, e);
        lemma_value_stable(a, a, b.cut(e));
    }
    assert forall|i: int| 0 <= i < side.len() implies b.legal(
        (#[trigger] side[i]).1 as int,
        color,
    ) && side[i].0.score@ == worths(a, b)[side[i].1 as int] && a.has(side[i].0.score@) by {
        let j = choose|j: int|
            j < positions.len() && #[trigger] came_from(positions, color, side[i], j);
        assert(positions[j].1 == edges[j].1);
        assert(b.edges.dom().contains(edges[j].1 as int));
    }
    assert forall|e: int| b.legal(e, color) implies exists|i: int|
        0 <= i < side.len() && (#[trigger] side[i]).1 == e by {
        let j = choose|j: int| 0 <= j < edges.len() && (#[trigger] edges[j]).1 == e;
        assert(positions[j].2 == color);
        let i = choose|i: int|
            0 <= i < side.len() && #[trigger] came_from(positions, color, side[i], j);
        assert(side[i].1 == e);
    }
}

/// The table `t` holds a value for the positions that the first `k` of the
/// moves `edges` of `b` lead to.
pub open spec fn rates_first(t: Arena, b: Board, edges: Seq<(Color, usize)>, k: int) -> bool {
    forall|i: int| 0 <= i < k ==> (#[trigger] value(t, b.cut(edges[i].1 as int))) is Some
}

/// The value of `game`, and the move that `player` chooses in it.
///
/// Every move is tried and the position it leads to is rated in turn; the
/// greatest value that a Blue move leads to and the least that a Red move
/// leads to are the operands of the construction whose stored equal is the
/// value. The table grows as far as the values met along the way need, and
/// no further. The search never fails: the construction is always numeric.
fn find_best_move_subgraph(game: &Game, player: Color, table: &mut SurrealNumbers) -> (found:
    Result<Position, Error>)
    requires
        game.valid(),
        old(table)@.wf(),
    ensures
        final(table)@.wf(),
        old(table)@.reaches(final(table)@),
        earliest(old(table)@, final(table)@, game@),
        found matches Ok(p) && value(final(table)@, game@) == Some(p.score@) && operand(
            p.best_move,
        ) == choice(final(table)@, game@, worths(final(table)@, game@), player),
    decreases game@.edges.dom().len(),
{
    let ghost b = game@;
    let ghost start = table@;
    proof {
        lemma_every_position_settles(start, b);
    }
    let edges = graph_edge_references(game.get_graph());
    proof {
        lemma_reaches_next(start);
    }
    let mut positions: Vec<(Position, usize, Color)> = Vec::new();
    let mut k: usize = 0;
    while k < edges.len()
        invariant
            game.valid(),
            b == game@,
            k <= edges.len(),
            forall|i: int, j: int| 0 <= i < j < edges.len() ==> edges[i].1 < edges[j].1,
            forall|i: int|
                0 <= i < edges.len() ==> b.edges.dom().contains((#[trigger] edges[i]).1 as int)
                    && b.edges[edges[i].1 as int].2 == edges[i].0,
            start == old(table)@,
            start.wf(),
            table@.wf(),
            start.reaches(table@),
            positions.len() == k,
            forall|i: int|
                0 <= i < k ==> (#[trigger] positions[i]).1 == edges[i].1 && positions[i].2
                    == edges[i].0 && outcome(table@, b, edges[i].1 as int) == Some(
                    positions[i].0.score@,
                ),
            forall|n: nat|
                #[trigger] rates_first(start.grown(n), b, edges@, k as int) ==> table@.day
                    <= start.day + n,
        decreases edges.len() - k,
    {
        let (color, index) = edges[k];
        proof {
            lemma_cut_valid(b, index as int);
        }
        let new_game = game.cut(index);
        let ghost before = table@;
        let rated = find_best_move_subgraph(&new_game, color.invert(), table);
        proof {
            lemma_reaches_chain(start, before, table@);
        }
        match rated {
            Ok(position) => {
                proof {
                    assert forall|i: int| 0 <= i < k implies outcome(
                        table@,
                        b,
                        (#[trigger] edges[i]).1 as int,
                    ) == Some(positions[i].0.score@) by {
                        lemma_cut_valid(b, edges[i].1 as int);
                        assert(outcome(before, b, edges[i].1 as int) == Some(
                            positions[i].0.score@,
                        ));
                        lemma_value_stable(before, table@, b.cut(edges[i].1 as int));
                    }
                    assert forall|n: nat| #[trigger] rates_first(
                        start.grown(n),
                        b,
                        edges@,
                        k + 1,
                    ) implies table@.day <= start.day + n by {
                        assert(rates_first(start.grown(n), b, edges@, k as int));
                        assert(value(start.grown(n), b.cut(edges[k as int].1 as int)) is Some);
                        lemma_earliest_step(start, before, table@, b.cut(index as int), n);
                    }
                }
                positions.push((position, index, color));
            },
            Err(e) => {
                return Err(e);
            },
        }
        k += 1;
    }
    let ghost mid = table@;
    let ghost worth = worths(mid, b);
    proof {
        lemma_value_unfold(mid, b);
        assert(moves_valued(mid, b)) by {
            assert forall|e: int| #[trigger] b.edges.dom().contains(e) implies outcome(
                mid,
                b,
                e,
            ) is Some by {
                let i = choose|i: int| 0 <= i < edges.len() && (#[trigger] edges[i]).1 == e;
                assert(positions[i].1 == edges[i].1);
            }
        }
    }
    let blue_values = side_of(&positions, Color::Blue);
    let red_values = side_of(&positions, Color::Red);
    proof {
        lemma_side_lists(mid, b, edges@, positions@, Color::Blue, blue_values@);
        lemma_side_lists(mid, b, edges@, positions@, Color::Red, red_values@);
    }
    let left_hand = select(&blue_values, Color::Blue, table);
    let right_hand = select(&red_values, Color::Red, table);
    let (left_score, left_move) = match left_hand {
        Some(at) => {
            proof {
                lemma_selected_is_choice(mid, b, worth, Color::Blue, blue_values@, at as int);
            }
            (Some(blue_values[at].0.score), Some(blue_values[at].1))
        },
        None => {
            proof {
                lemma_empty_is_no_choice(mid, b, worth, Color::Blue, blue_values@);
            }
            (None, None)
        },
    };
    let (right_score, right_move) = match right_hand {
        Some(at) => {
            proof {
                lemma_selected_is_choice(mid, b, worth, Color::Red, red_values@, at as int);
            }
            (Some(red_values[at].0.score), Some(red_values[at].1))
        },
        None => {
            proof {
                lemma_empty_is_no_choice(mid, b, worth, Color::Red, red_values@);
            }
            (None, None)
        },
    };
    let ghost c = construction(left_score, right_score);
    proof {
        lemma_reaches_next(mid);
        lemma_standing_stable(mid, mid, b, worth);
        assert(c == standing(mid, b, worth));
    }
    let surreal_value = Surreal::new(left_score, right_score, table);
    proof {
        lemma_reaches_chain(start, mid, table@);
        assert(mid.reaches(table@));
        lemma_value_unfold(table@, b);
        assert forall|e: int| #[trigger] b.edges.dom().contains(e) implies outcome(table@, b, e)
            == outcome(mid, b, e) by {
            lemma_cut_valid(b, e);
            lemma_value_stable(mid, table@, b.cut(e));
        }
        assert(moves_valued(table@, b));
        assert(worths(table@, b) =~= worth);
        lemma_standing_stable(mid, table@, b, worth);
        lemma_choice_stable(mid, table@, b, worth, player);
        lemma_settles_iff_numeric(mid, b);
        lemma_settles_later(start, mid, b);
        assert(surreal_value is Ok);
        assert forall|n: nat| (#[trigger] value(start.grown(n), b)) is Some implies table@.day
            <= start.day + n by {
            let there = start.grown(n);
            lemma_value_unfold(there, b);
            assert(rates_first(there, b, edges@, edges.len() as int)) by {
                assert forall|i: int| 0 <= i < edges.len() implies (#[trigger] value(
                    there,
                    b.cut(edges[i].1 as int),
                )) is Some by {
                    assert(b.edges.dom().contains(edges[i].1 as int));
                    assert(outcome(there, b, edges[i].1 as int) is Some);
                }
            }
            lemma_reaches_by_day(start, mid);
            if mid.day == start.day + n {
                assert(there == mid);
                lemma_value_unfold(mid, b);
            }
        }
    }
    match surreal_value {
        Ok(score) => {
            let best_move = match player {
                Color::Blue => left_move,
                Color::Red => right_move,
            };
            Ok(Position { score, best_move })
        },
        Err(e) => Err(e),
    }
}

/// The value of `game`, and the move that the player to move chooses. A
/// position that is not valid is refused; every valid position has a value.
pub fn find_best_move(game: &Game, table: &mut SurrealNumbers) -> (found: Result<Position, Error>)
    requires
        old(table)@.wf(),
    ensures
        final(table)@.wf(),
        old(table)@.reaches(final(table)@),
        found is Ok <==> game.valid(),
        found is Ok ==> earliest(old(table)@, final(table)@, game@),
        game.valid() && game@.is_terminal() ==> (found matches Ok(p) && p.score@ == 0
            && p.best_move is None),
        match found {
            Ok(p) => value(final(table)@, game@) == Some(p.score@) && operand(p.best_move)
                == choice(final(table)@, game@, worths(final(table)@, game@), game@.turn),
            Err(e) => e == Error::InvalidPosition && final(table)@ == old(table)@,
        },
{
    if !game.is_valid() {
        proof {
            lemma_reaches_next(table@);
        }
        return Err(Error::InvalidPosition);
    }
    let ghost start = table@;
    let found = find_best_move_subgraph(game, game.get_turn(), table);
    proof {
        if game@.is_terminal() {
            lemma_terminal_value(start, game@, game@.turn);
            lemma_terminal_value(table@, game@, game@.turn);
        }
    }
    found
}

} // verus!

use hackenbush::computer::{find_best_move, Position};
use hackenbush::error::Error;
use hackenbush::hackenbush::{Color, Game};
use hackenbush::surreals::{Surreal, SurrealNumbers};
use petgraph::stable_graph::NodeIndex;
use std::cmp::Ordering;

fn stalk(turn: Color, colors: &[Color]) -> (Game, Vec<usize>) {
    let mut game = Game::new(turn);
    let mut edges = Vec::new();
    let mut top = NodeIndex::new(0);
    for &color in colors {
        let graph = game.get_graph_mut();
        let next = graph.add_node(false);
        edges.push(graph.add_edge(top, next, color).index());
        top = next;
    }
    (game, edges)
}

#[test]
fn terminal_position_is_zero_without_a_move() {
    let mut table = SurrealNumbers::new();
    let zero = Surreal::new(None, None, &mut table).unwrap();
    for turn in [Color::Blue, Color::Red] {
        let found = find_best_move(&Game::new(turn), &mut table).unwrap();
        assert_eq!(found, Position { score: zero, best_move: None });
    }
    assert_eq!(table.day(), 0);
}

#[test]
fn single_blue_edge_is_won_by_blue() {
    let mut table = SurrealNumbers::new();
    let zero = Surreal::new(None, None, &mut table).unwrap();
    let (game, edges) = stalk(Color::Blue, &[Color::Blue]);
    let found = find_best_move(&game, &mut table).unwrap();
    assert_eq!(found.best_move, Some(edges[0]));
    assert_eq!(found.score.cmp(&zero, &table), Ordering::Greater);
    assert_eq!(found.score.index(), 1);

    let (game, _) = stalk(Color::Red, &[Color::Blue]);
    let found = find_best_move(&game, &mut table).unwrap();
    assert_eq!(found.best_move, None);
    assert_eq!(found.score.index(), 1);
}

#[test]
fn single_red_edge_is_won_by_red() {
    let mut table = SurrealNumbers::new();
    let zero = Surreal::new(None, None, &mut table).unwrap();
    let (game, edges) = stalk(Color::Red, &[Color::Red]);
    let found = find_best_move(&game, &mut table).unwrap();
    assert_eq!(found.best_move, Some(edges[0]));
    assert_eq!(found.score.cmp(&zero, &table), Ordering::Less);
    assert_eq!(found.score.index(), 2);

    let (game, _) = stalk(Color::Blue, &[Color::Red]);
    assert_eq!(find_best_move(&game, &mut table).unwrap().best_move, None);
}

#[test]
fn alternating_stalk_of_three_is_three_quarters() {
    let mut table = SurrealNumbers::new();
    let (game, edges) = stalk(Color::Blue, &[Color::Blue, Color::Red, Color::Blue]);
    let found = find_best_move(&game, &mut table).unwrap();
    // Blue cuts the top edge and leaves one half, rather than the bottom
    // edge, which leaves nothing.
    assert_eq!(found.best_move, Some(edges[2]));
    let zero = Surreal::new(None, None, &mut table).unwrap();
    let one = Surreal::new(Some(zero), None, &mut table).unwrap();
    let half = Surreal::new(Some(zero), Some(one), &mut table).unwrap();
    let three_quarters = Surreal::new(Some(half), Some(one), &mut table).unwrap();
    assert_eq!(found.score, three_quarters);
    assert_eq!(found.score.index(), 11);
    assert_eq!(table.day(), 3);

    let (game, edges) = stalk(Color::Red, &[Color::Blue, Color::Red, Color::Blue]);
    let found = find_best_move(&game, &mut table).unwrap();
    assert_eq!(found.best_move, Some(edges[1]));
    assert_eq!(found.score, three_quarters);
}

#[test]
fn blue_red_stalk_is_one_half() {
    let mut table = SurrealNumbers::new();
    let (game, edges) = stalk(Color::Blue, &[Color::Blue, Color::Red]);
    let found = find_best_move(&game, &mut table).unwrap();
    assert_eq!(found.best_move, Some(edges[0]));
    assert_eq!(found.score.index(), 4);
    assert_eq!(table.day(), 2);
}

#[test]
fn two_blue_edges_in_a_row_are_two() {
    let mut table = SurrealNumbers::new();
    let (game, edges) = stalk(Color::Blue, &[Color::Blue, Color::Blue]);
    let found = find_best_move(&game, &mut table).unwrap();
    // cutting the top leaves one, cutting the bottom leaves zero
    assert_eq!(found.best_move, Some(edges[1]));
    assert_eq!(found.score.index(), 5);
}

#[test]
fn equal_moves_are_settled_by_the_first() {
    let mut table = SurrealNumbers::new();
    let mut game = Game::new(Color::Blue);
    let graph = game.get_graph_mut();
    let a = graph.add_node(false);
    let b = graph.add_node(false);
    let first = graph.add_edge(NodeIndex::new(0), a, Color::Blue).index();
    let second = graph.add_edge(NodeIndex::new(0), b, Color::Blue).index();
    assert!(first < second);
    let found = find_best_move(&game, &mut table).unwrap();
    assert_eq!(found.best_move, Some(first));
    // two separate blue edges are worth two
    assert_eq!(found.score.index(), 5);
}

#[test]
fn opposed_edges_cancel() {
    let mut table = SurrealNumbers::new();
    let mut game = Game::new(Color::Red);
    let graph = game.get_graph_mut();
    let a = graph.add_node(false);
    let b = graph.add_node(false);
    graph.add_edge(NodeIndex::new(0), a, Color::Blue);
    let red = graph.add_edge(NodeIndex::new(0), b, Color::Red).index();
    let found = find_best_move(&game, &mut table).unwrap();
    assert_eq!(found.score.index(), 0);
    assert_eq!(found.best_move, Some(red));
}

#[test]
fn search_leaves_the_position_as_it_was() {
    let mut table = SurrealNumbers::new();
    let (game, _) = stalk(Color::Blue, &[Color::Blue, Color::Red, Color::Blue]);
    let first = find_best_move(&game, &mut table).unwrap();
    assert_eq!(game.get_graph().edge_count(), 3);
    assert_eq!(game.get_graph().node_count(), 4);
    let day = table.day();
    let second = find_best_move(&game, &mut table).unwrap();
    assert_eq!(first, second);
    assert_eq!(table.day(), day);
}

#[test]
fn search_refuses_an_invalid_position() {
    let mut table = SurrealNumbers::new();
    let (mut game, _) = stalk(Color::Blue, &[Color::Blue]);
    game.get_graph_mut().add_node(false);
    assert_eq!(find_best_move(&game, &mut table), Err(Error::InvalidPosition));
    assert_eq!(table.day(), 0);
}

#[test]
fn value_after_the_best_move_is_the_left_operand() {
    let mut table = SurrealNumbers::new();
    let (game, _) = stalk(Color::Blue, &[Color::Blue, Color::Red, Color::Blue]);
    let found = find_best_move(&game, &mut table).unwrap();
    let after = game.make_move(found.best_move.unwrap()).unwrap();
    let next = find_best_move(&after, &mut table).unwrap();
    assert_eq!(next.score.index(), 4);
    assert_eq!(table.numbers()[found.score.index()].left(), Some(4));
    assert_eq!(table.numbers()[found.score.index()].right(), Some(1));
}

#[test]
fn every_random_position_has_a_value() {
    let mut rng = rand::thread_rng();
    for size in [2usize, 3, 4, 4, 5] {
        let mut table = SurrealNumbers::new();
        let game = Game::random_triangles(size, &mut rng);
        let found = find_best_move(&game, &mut table).unwrap();
        assert!(found.score.index() < table.numbers().len());
        let mover = game.get_turn();
        assert_eq!(found.best_move.is_some(), !game.legal_moves(mover).is_empty());
        if let Some(edge) = found.best_move {
            assert!(game.legal_moves(mover).contains(&edge));
            // no other move of the mover leads to a better value
            let chosen = find_best_move(&game.make_move(edge).unwrap(), &mut table).unwrap();
            for other in game.legal_moves(mover) {
                let reached = find_best_move(&game.make_move(other).unwrap(), &mut table).unwrap();
                let order = chosen.score.cmp(&reached.score, &table);
                match mover {
                    Color::Blue => assert_ne!(order, Ordering::Less),
                    Color::Red => assert_ne!(order, Ordering::Greater),
                }
                // and the value of the position lies strictly on its far side
                let side = found.score.cmp(&reached.score, &table);
                match mover {
                    Color::Blue => assert_eq!(side, Ordering::Greater),
                    Color::Red => assert_eq!(side, Ordering::Less),
                }
            }
        }
    }
}

#[test]
fn the_table_grows_no_further_than_the_value_needs() {
    let mut table = SurrealNumbers::new();
    let (game, _) = stalk(Color::Blue, &[Color::Blue, Color::Blue, Color::Blue]);
    let found = find_best_move(&game, &mut table).unwrap();
    // three blue edges in a row are worth three, born on day three
    assert_eq!(table.day(), 3);
    assert_eq!(found.score.index(), 13);
    let (small, _) = stalk(Color::Blue, &[Color::Red]);
    find_best_move(&small, &mut table).unwrap();
    assert_eq!(table.day(), 3);
}

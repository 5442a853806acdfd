use hackenbush::error::Error;
use hackenbush::hackenbush::{Color, Game};
use petgraph::stable_graph::{EdgeIndex, NodeIndex};

fn stalk(colors: &[Color]) -> (Game, Vec<usize>) {
    let mut game = Game::new(Color::Blue);
    let mut edges = Vec::new();
    let mut top = NodeIndex::new(0);
    for &color in colors {
        let graph = game.get_graph_mut();
        let next = graph.add_node(false);
        edges.push(graph.add_edge(top, next, color).index());
        top = next;
    }
    (game, edges)
}

fn triangle() -> (Game, Vec<usize>) {
    let mut game = Game::new(Color::Red);
    let graph = game.get_graph_mut();
    let a = graph.add_node(false);
    let b = graph.add_node(false);
    let ground = NodeIndex::new(0);
    let edges = vec![
        graph.add_edge(ground, a, Color::Blue).index(),
        graph.add_edge(a, b, Color::Red).index(),
        graph.add_edge(b, ground, Color::Blue).index(),
    ];
    (game, edges)
}

#[test]
fn invert_swaps_the_colours() {
    assert_eq!(Color::Red.invert(), Color::Blue);
    assert_eq!(Color::Blue.invert(), Color::Red);
    assert_eq!(Color::Blue.invert().invert(), Color::Blue);
}

#[test]
fn new_game_is_the_ground_alone() {
    let game = Game::new(Color::Red);
    assert!(game.is_valid());
    assert!(game.is_terminal());
    assert_eq!(game.get_turn(), Color::Red);
    assert_eq!(game.get_graph().node_count(), 1);
    assert_eq!(game.get_graph().edge_count(), 0);
    assert!(game.get_graph().contains_node(NodeIndex::new(0)));
    assert!(game.legal_moves(Color::Red).is_empty());
    assert!(game.legal_moves(Color::Blue).is_empty());
}

#[test]
fn switch_turn_passes_the_move() {
    let mut game = Game::new(Color::Red);
    game.switch_turn();
    assert_eq!(game.get_turn(), Color::Blue);
    game.switch_turn();
    assert_eq!(game.get_turn(), Color::Red);
    assert!(game.is_valid());
}

#[test]
fn legal_moves_follow_the_colour_in_increasing_order() {
    let (game, edges) = stalk(&[Color::Blue, Color::Red, Color::Blue, Color::Red]);
    assert!(game.is_valid());
    assert!(!game.is_terminal());
    assert_eq!(game.legal_moves(Color::Blue), vec![edges[0], edges[2]]);
    assert_eq!(game.legal_moves(Color::Red), vec![edges[1], edges[3]]);
}

#[test]
fn cutting_the_top_of_a_stalk_removes_one_node() {
    let (game, edges) = stalk(&[Color::Blue, Color::Red, Color::Blue]);
    let after = game.make_move(edges[2]).unwrap();
    assert!(after.is_valid());
    assert_eq!(after.get_graph().node_count(), 3);
    assert_eq!(after.get_graph().edge_count(), 2);
    assert_eq!(after.get_turn(), Color::Red);
    assert_eq!(after.legal_moves(Color::Blue), vec![edges[0]]);
    assert_eq!(after.legal_moves(Color::Red), vec![edges[1]]);
    // the position that was moved from is untouched
    assert_eq!(game.get_graph().node_count(), 4);
    assert_eq!(game.get_graph().edge_count(), 3);
    assert_eq!(game.get_turn(), Color::Blue);
}

#[test]
fn cutting_the_bottom_of_a_stalk_leaves_the_ground_alone() {
    let (game, edges) = stalk(&[Color::Blue, Color::Red, Color::Blue]);
    let after = game.make_move(edges[0]).unwrap();
    assert!(after.is_valid());
    assert!(after.is_terminal());
    assert_eq!(after.get_graph().node_count(), 1);
    assert!(after.get_graph().contains_node(NodeIndex::new(0)));
    assert_eq!(after.get_graph().edge_count(), 0);
}

#[test]
fn cutting_the_middle_of_a_stalk_drops_what_hangs_above() {
    let (game, edges) = stalk(&[Color::Blue, Color::Red, Color::Blue, Color::Blue]);
    let after = game.make_move(edges[1]).unwrap();
    assert_eq!(after.get_graph().node_count(), 2);
    assert_eq!(after.get_graph().edge_count(), 1);
    assert!(after.get_graph().edge_weight(EdgeIndex::new(edges[0])).is_some());
    assert!(after.get_graph().edge_weight(EdgeIndex::new(edges[2])).is_none());
    assert!(after.get_graph().edge_weight(EdgeIndex::new(edges[3])).is_none());
}

#[test]
fn a_cycle_holds_until_its_second_ground_edge_is_cut() {
    let (game, edges) = triangle();
    let once = game.make_move(edges[0]).unwrap();
    assert!(once.is_valid());
    assert_eq!(once.get_graph().node_count(), 3);
    assert_eq!(once.get_graph().edge_count(), 2);
    assert_eq!(once.get_turn(), Color::Blue);
    let twice = once.make_move(edges[2]).unwrap();
    assert!(twice.is_valid());
    assert!(twice.is_terminal());
    assert_eq!(twice.get_graph().node_count(), 1);
    assert_eq!(twice.get_turn(), Color::Red);
}

#[test]
fn cutting_inside_a_cycle_removes_the_edge_alone() {
    let (game, edges) = triangle();
    let after = game.make_move(edges[1]).unwrap();
    assert_eq!(after.get_graph().node_count(), 3);
    assert_eq!(after.get_graph().edge_count(), 2);
    assert_eq!(after.legal_moves(Color::Blue), vec![edges[0], edges[2]]);
    assert!(after.legal_moves(Color::Red).is_empty());
}

#[test]
fn every_node_left_by_a_move_is_connected_to_the_ground() {
    let (game, edges) = stalk(&[Color::Red, Color::Blue, Color::Red, Color::Blue, Color::Red]);
    for &edge in &edges {
        let after = game.make_move(edge).unwrap();
        assert!(after.is_valid());
        let graph = after.get_graph();
        let kept = edges.iter().position(|&e| e == edge).unwrap();
        assert_eq!(graph.edge_count(), kept);
        assert_eq!(graph.node_count(), kept + 1);
        for node in graph.node_indices() {
            assert!(petgraph::algo::has_path_connecting(graph, NodeIndex::new(0), node, None));
        }
    }
}

#[test]
fn a_stale_edge_is_an_invalid_move() {
    let (game, edges) = stalk(&[Color::Blue, Color::Red]);
    let after = game.make_move(edges[1]).unwrap();
    assert_eq!(after.make_move(edges[1]).err(), Some(Error::InvalidMove));
    assert_eq!(game.make_move(17).err(), Some(Error::InvalidMove));
    assert_eq!(game.make_move(usize::MAX).err(), Some(Error::InvalidMove));
}

#[test]
fn a_floating_node_is_an_invalid_position() {
    let (mut game, edges) = stalk(&[Color::Blue]);
    game.get_graph_mut().add_node(false);
    assert!(!game.is_valid());
    assert_eq!(game.make_move(edges[0]).err(), Some(Error::InvalidPosition));
}

#[test]
fn a_position_without_ground_is_invalid() {
    let mut game = Game::new(Color::Blue);
    game.get_graph_mut().remove_node(NodeIndex::new(0));
    assert!(!game.is_valid());
}

#[test]
fn a_node_with_a_stray_mark_is_an_invalid_position() {
    let mut game = Game::new(Color::Blue);
    let graph = game.get_graph_mut();
    let a = graph.add_node(true);
    graph.add_edge(NodeIndex::new(0), a, Color::Red);
    assert!(!game.is_valid());
}

#[test]
fn add_branch_grows_a_new_edge_of_the_mover() {
    let game = Game::new(Color::Red);
    let one = game.add_branch(0).unwrap();
    assert!(one.is_valid());
    assert_eq!(one.get_graph().node_count(), 2);
    assert_eq!(one.get_graph().edge_count(), 1);
    assert_eq!(one.legal_moves(Color::Red).len(), 1);
    assert!(one.legal_moves(Color::Blue).is_empty());
    assert_eq!(game.get_graph().node_count(), 1);
    assert!(game.add_branch(5).is_none());
    assert!(game.add_branch(usize::MAX).is_none());
}

#[test]
fn add_branch_after_a_move_keeps_the_position_valid() {
    let (game, edges) = stalk(&[Color::Blue, Color::Red]);
    let after = game.make_move(edges[1]).unwrap();
    let grown = after.add_branch(1).unwrap();
    assert!(grown.is_valid());
    let red = grown.legal_moves(Color::Red);
    assert_eq!(red.len(), 1);
    let cut = grown.make_move(edges[0]).unwrap();
    assert!(cut.is_terminal());
    assert_eq!(cut.get_graph().node_count(), 1);
}

#[test]
fn clone_is_a_separate_position() {
    let (game, edges) = stalk(&[Color::Blue, Color::Red]);
    let mut copy = game.clone();
    copy.get_graph_mut().remove_edge(EdgeIndex::new(edges[1]));
    assert_eq!(game.get_graph().edge_count(), 2);
    assert_eq!(copy.get_graph().edge_count(), 1);
}

#[test]
fn random_triangles_builds_a_valid_position() {
    let mut rng = rand::thread_rng();
    for size in [0usize, 1, 2, 3, 4, 9] {
        let game = Game::random_triangles(size, &mut rng);
        let nodes = size.max(2);
        assert!(game.is_valid());
        assert_eq!(game.get_graph().node_count(), nodes);
        assert_eq!(game.get_graph().edge_count(), 2 * nodes - 3);
        for n in 0..nodes {
            assert!(game.get_graph().contains_node(NodeIndex::new(n)));
        }
        // the colours alternate in the order in which the edges were made
        let blue = game.legal_moves(Color::Blue);
        let red = game.legal_moves(Color::Red);
        assert_eq!(blue.len() + red.len(), 2 * nodes - 3);
        for pair in blue.windows(2) {
            assert_eq!(pair[1] - pair[0], 2);
        }
        for pair in red.windows(2) {
            assert_eq!(pair[1] - pair[0], 2);
        }
    }
}

#[test]
fn random_triangles_hangs_each_node_over_an_edge() {
    let mut rng = rand::thread_rng();
    let game = Game::random_triangles(6, &mut rng);
    let graph = game.get_graph();
    for n in 2..6 {
        let ends: Vec<usize> = graph
            .edge_indices()
            .filter_map(|e| graph.edge_endpoints(e))
            .filter(|(a, _)| a.index() == n)
            .map(|(_, b)| b.index())
            .collect();
        assert_eq!(ends.len(), 2);
        assert!(ends[0] < n && ends[1] < n);
        assert!(graph.find_edge(NodeIndex::new(ends[0]), NodeIndex::new(ends[1])).is_some());
    }
}

#[test]
fn random_triangles_gives_the_first_edge_to_the_mover() {
    let mut rng = rand::thread_rng();
    for size in [1usize, 2, 5, 8] {
        let game = Game::random_triangles(size, &mut rng);
        let graph = game.get_graph();
        let first = EdgeIndex::new(0);
        let (from, to) = graph.edge_endpoints(first).unwrap();
        assert_eq!((from.index(), to.index()), (0, 1));
        assert_eq!(*graph.edge_weight(first).unwrap(), game.get_turn());
    }
}

#[test]
fn a_draw_of_zero_is_red_and_any_other_is_blue() {
    assert_eq!(Color::from_draw(0), Color::Red);
    assert_eq!(Color::from_draw(1), Color::Blue);
    assert_eq!(Color::from_draw(7), Color::Blue);
}

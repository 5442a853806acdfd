//! The game position: a graph anchored at the ground, whose edges belong to
//! one player or the other.
use crate::board::{
    lemma_branch_valid, lemma_cut_valid, lemma_ground_reachable, lemma_join_valid,
    lemma_reachable_step, lemma_swept_covers, reachable, swept, Board, GROUND,
};
use crate::chance::random_below;
use crate::cuts::lemma_ends_agree;
use crate::error::Error;
use crate::graph::{
    adjacent, detached, graph_add_edge, graph_add_node, graph_clone, graph_edge_count,
    graph_edge_endpoints, graph_edge_indices, graph_edge_references, graph_edges, graph_empty,
    graph_neighbors, graph_node_bound, graph_node_count, graph_node_indices, graph_node_weight,
    graph_nodes, graph_remove_edge, graph_remove_node, graph_set_node_weight, joins, lists,
    lists_neighbors, Graph, Link,
};
use rand::rngs::ThreadRng;
use vstd::prelude::*;

verus! {

/// The two players, each owning the edges of its own colour. Blue moves
/// for the greater value, Red for the lesser.
#[derive(Copy, Clone, Debug, PartialEq, Eq, Structural, Hash, PartialOrd, Ord)]
pub enum Color {
    Red,
    Blue,
}

impl Color {
    /// The opposing colour.
    pub open spec fn inverted(self) -> Color {
        match self {
            Color::Blue => Color::Red,
            Color::Red => Color::Blue,
        }
    }

    /// The opposing colour.
    pub fn invert(&self) -> (other: Color)
        ensures
            other == self.inverted(),
    {
        match self {
            Color::Blue => Color::Red,
            Color::Red => Color::Blue,
        }
    }

    /// The colour that a drawn number stands for: Red for zero, Blue for any
    /// other.
    pub open spec fn of_draw(draw: int) -> Color {
        if draw == 0 {
            Color::Red
        } else {
            Color::Blue
        }
    }

    /// The colour that a drawn number stands for.
    pub fn from_draw(draw: usize) -> (color: Color)
        ensures
            color == Color::of_draw(draw as int),
    {
        match draw {
            0 => Color::Red,
            _ => Color::Blue,
        }
    }
}

/// A colour drawn by chance: the colour that a number drawn below two stands
/// for. Of the colour nothing is known beforehand.
fn random_color(rng: &mut ThreadRng) -> Color {
    Color::from_draw(random_below(rng, 2))
}

/// What a graph holds, as a position with `turn` to move.
pub open spec fn board_of(g: Graph, turn: Color) -> Board {
    Board { nodes: graph_nodes(g).dom(), edges: graph_edges(g), turn }
}

/// Every node of the graph carries the mark `mark`.
pub open spec fn all_marked(g: Graph, mark: bool) -> bool {
    forall|n: int| graph_nodes(g).dom().contains(n) ==> #[trigger] graph_nodes(g)[n] == mark
}

/// A set of indices that a list covers is finite.
pub proof fn lemma_listed_finite(s: Set<int>, list: Seq<usize>)
    requires
        forall|a: int|
            s.contains(a) ==> exists|i: int| 0 <= i < list.len() && #[trigger] list[i] == a,
    ensures
        s.finite(),
{
    let ints = list.map_values(|x: usize| x as int);
    assert forall|a: int| s.contains(a) implies ints.to_set().contains(a) by {
        let i = choose|i: int| 0 <= i < list.len() && #[trigger] list[i] == a;
        assert(ints[i] == a);
    }
    assert(s.subset_of(ints.to_set()));
    vstd::seq_lib::seq_to_set_is_finite(ints);
    vstd::set_lib::lemma_set_subset_finite(ints.to_set(), s);
}

/// Marks every node that is connected to the ground with the opposite of
/// `base`, the mark that every node carries before.
fn sweep(graph: &mut Graph, base: bool)
    requires
        board_of(*old(graph), Color::Blue).shaped(),
        all_marked(*old(graph), base),
    ensures
        graph_edges(*final(graph)) == graph_edges(*old(graph)),
        graph_nodes(*final(graph)).dom() == graph_nodes(*old(graph)).dom(),
        graph_node_bound(*final(graph)) == graph_node_bound(*old(graph)),
        forall|n: int|
            graph_nodes(*final(graph)).dom().contains(n) ==> (#[trigger] graph_nodes(
                *final(graph),
            )[n] != base <==> reachable(graph_edges(*final(graph)), n)),
{
    let ghost edges = graph_edges(*graph);
    let ghost dom = graph_nodes(*graph).dom();
    graph_set_node_weight(graph, GROUND, !base);
    let mut stack: Vec<usize> = Vec::new();
    stack.push(GROUND);
    let ghost mut pending: Set<int> = dom.remove(GROUND as int);
    proof {
        lemma_ground_reachable(edges);
        assert(graph_nodes(*graph).dom() =~= dom);
        assert(stack[0] == GROUND);
    }
    while stack.len() > 0
        invariant
            graph_edges(*graph) == edges,
            graph_nodes(*graph).dom() == dom,
            graph_node_bound(*graph) == graph_node_bound(*old(graph)),
            board_of(*graph, Color::Blue).shaped(),
            pending.finite(),
            forall|n: int|
                #![trigger pending.contains(n)]
                #![trigger graph_nodes(*graph)[n]]
                pending.contains(n) <==> dom.contains(n) && graph_nodes(*graph)[n] == base,
            !pending.contains(GROUND as int),
            forall|n: int|
                dom.contains(n) && !#[trigger] pending.contains(n) ==> reachable(edges, n),
            forall|i: int|
                0 <= i < stack.len() ==> #[trigger] stack[i] <= u32::MAX && dom.contains(
                    stack[i] as int,
                ) && !pending.contains(stack[i] as int),
            forall|a: int, b: int|
                dom.contains(a) && !pending.contains(a) && #[trigger] adjacent(edges, a, b)
                    && pending.contains(b) ==> exists|i: int|
                    0 <= i < stack.len() && #[trigger] stack[i] == a,
        decreases 2 * pending.len() + stack.len(),
    {
        let ghost measure = 2 * pending.len() + stack.len();
        let ghost above = stack@;
        let node = stack.pop().unwrap();
        let near = graph_neighbors(graph, node);
        proof {
            assert forall|a: int, b: int|
                dom.contains(a) && !pending.contains(a) && #[trigger] adjacent(edges, a, b)
                    && pending.contains(b) implies a == node || exists|k: int|
                0 <= k < stack.len() && #[trigger] stack[k] == a by {
                let k = choose|k: int| 0 <= k < above.len() && #[trigger] above[k] == a;
                if a != node {
                    assert(stack[k] == a);
                }
            }
        }
        let mut i: usize = 0;
        while i < near.len()
            invariant
                graph_edges(*graph) == edges,
                graph_nodes(*graph).dom() == dom,
                graph_node_bound(*graph) == graph_node_bound(*old(graph)),
                board_of(*graph, Color::Blue).shaped(),
                i <= near.len(),
                node <= u32::MAX,
                dom.contains(node as int),
                !pending.contains(node as int),
                lists_neighbors(near@, edges, node as int),
                pending.finite(),
                forall|n: int|
                    #![trigger pending.contains(n)]
                    #![trigger graph_nodes(*graph)[n]]
                    pending.contains(n) <==> dom.contains(n) && graph_nodes(*graph)[n] == base,
                !pending.contains(GROUND as int),
                forall|n: int|
                    dom.contains(n) && !#[trigger] pending.contains(n) ==> reachable(edges, n),
                forall|k: int|
                    0 <= k < stack.len() ==> #[trigger] stack[k] <= u32::MAX && dom.contains(
                        stack[k] as int,
                    ) && !pending.contains(stack[k] as int),
                forall|j: int| 0 <= j < i ==> !pending.contains(#[trigger] near[j] as int),
                forall|a: int, b: int|
                    dom.contains(a) && !pending.contains(a) && #[trigger] adjacent(edges, a, b)
                        && pending.contains(b) ==> a == node || exists|k: int|
                        0 <= k < stack.len() && #[trigger] stack[k] == a,
                2 * pending.len() + stack.len() < measure,
            decreases near.len() - i,
        {
            let neighbor = near[i];
            proof {
                let e = choose|e: int|
                    edges.dom().contains(e) && joins(
                        #[trigger] edges[e],
                        node as int,
                        neighbor as int,
                    );
                assert(dom.contains(edges[e].0) && dom.contains(edges[e].1));
            }
            let tag = graph_node_weight(graph, neighbor);
            if tag == Some(base) {
                let ghost below = stack@;
                stack.push(neighbor);
                graph_set_node_weight(graph, neighbor, !base);
                proof {
                    lemma_reachable_step(edges, node as int, neighbor as int);
                    pending = pending.remove(neighbor as int);
                    assert(graph_nodes(*graph).dom() =~= dom);
                    assert forall|a: int, b: int|
                        dom.contains(a) && !pending.contains(a) && #[trigger] adjacent(
                            edges,
                            a,
                            b,
                        ) && pending.contains(b) implies a == node || exists|k: int|
                        0 <= k < stack.len() && #[trigger] stack[k] == a by {
                        if a == neighbor as int {
                            assert(stack[below.len() as int] == a);
                        } else if a != node {
                            let k = choose|k: int| 0 <= k < below.len() && #[trigger] below[k] == a;
                            assert(stack[k] == a);
                        }
                    }
                }
            }
            i += 1;
        }
        proof {
            assert forall|a: int, b: int|
                dom.contains(a) && !pending.contains(a) && #[trigger] adjacent(edges, a, b)
                    && pending.contains(b) implies exists|k: int|
                0 <= k < stack.len() && #[trigger] stack[k] == a by {
                if a == node {
                    let j = choose|j: int| 0 <= j < near.len() && #[trigger] near[j] == b;
                    assert(!pending.contains(near[j] as int));
                }
            }
        }
    }
    proof {
        let done = dom.difference(pending);
        assert forall|a: int, b: int| done.contains(a) && #[trigger] adjacent(
            edges,
            a,
            b,
        ) implies done.contains(b) by {
            let e = choose|e: int| edges.dom().contains(e) && joins(#[trigger] edges[e], a, b);
            assert(dom.contains(edges[e].0) && dom.contains(edges[e].1));
        }
        assert(swept(edges, done));
        assert forall|n: int| graph_nodes(*graph).dom().contains(n) implies (#[trigger] graph_nodes(
            *graph,
        )[n] != base <==> reachable(edges, n)) by {
            if reachable(edges, n) {
                lemma_swept_covers(edges, done, n);
            }
        }
    }
}

/// A position: the graph, and the player to move.
#[derive(Debug)]
pub struct Game {
    graph: Graph,
    turn: Color,
}

impl Clone for Game {
    fn clone(&self) -> (copy: Game)
        ensures
            copy@ == self@,
            copy.valid() == self.valid(),
    {
        Game { graph: graph_clone(&self.graph), turn: self.turn }
    }
}

impl View for Game {
    type V = Board;

    closed spec fn view(&self) -> Board {
        board_of(self.graph, self.turn)
    }
}

impl Game {
    /// Every node carries the mark of the ground, so that a sweep starts
    /// from a clean graph.
    pub closed spec fn level(&self) -> bool {
        all_marked(self.graph, graph_nodes(self.graph)[GROUND as int])
    }

    /// The invariant of a position: a finite graph in which every node is
    /// connected to the ground, with no sweep mark left behind.
    pub open spec fn valid(&self) -> bool {
        self@.valid() && self.level()
    }

    /// The position that holds the ground alone, with `turn` to move.
    pub fn new(turn: Color) -> (game: Game)
        ensures
            game.valid(),
            game@ == (Board { nodes: set![GROUND as int], edges: Map::empty(), turn }),
    {
        let mut graph = graph_empty();
        let ground = graph_add_node(&mut graph, false);
        assert(ground == GROUND);
        let game = Game { graph, turn };
        proof {
            lemma_ground_reachable(game@.edges);
            assert(game@.nodes =~= set![GROUND as int]);
        }
        game
    }

    /// Whether the position is valid.
    pub fn is_valid(&self) -> (ok: bool)
        ensures
            ok == self.valid(),
    {
        let ground_mark = match graph_node_weight(&self.graph, GROUND) {
            Some(mark) => mark,
            None => {
                return false;
            },
        };
        let nodes = graph_node_indices(&self.graph);
        let edges = graph_edge_indices(&self.graph);
        proof {
            lemma_listed_finite(self@.nodes, nodes@);
            lemma_listed_finite(self@.edges.dom(), edges@);
            assert(self@.in_range()) by {
                assert forall|n: int| #[trigger] self@.nodes.contains(n) implies 0 <= n
                    <= u32::MAX by {
                    let i = choose|i: int| 0 <= i < nodes.len() && #[trigger] nodes[i] == n;
                }
                assert forall|e: int| #[trigger] self@.edges.dom().contains(e) implies 0 <= e
                    <= u32::MAX by {
                    let i = choose|i: int| 0 <= i < edges.len() && #[trigger] edges[i] == e;
                }
            }
        }
        let mut i: usize = 0;
        while i < nodes.len()
            invariant
                i <= nodes.len(),
                forall|j: int|
                    0 <= j < nodes.len() ==> #[trigger] nodes[j] <= u32::MAX
                        && self@.nodes.contains(nodes[j] as int),
                forall|j: int|
                    0 <= j < i ==> graph_nodes(self.graph)[#[trigger] nodes[j] as int]
                        == ground_mark,
                ground_mark == graph_nodes(self.graph)[GROUND as int],
            decreases nodes.len() - i,
        {
            match graph_node_weight(&self.graph, nodes[i]) {
                Some(mark) => {
                    if mark != ground_mark {
                        return false;
                    }
                },
                None => {
                    return false;
                },
            }
            i += 1;
        }
        assert(self.level()) by {
            assert forall|n: int|
                graph_nodes(self.graph).dom().contains(n) implies #[trigger] graph_nodes(
                self.graph,
            )[n] == ground_mark by {
                let j = choose|j: int| 0 <= j < nodes.len() && #[trigger] nodes[j] == n;
            }
        }
        let mut i: usize = 0;
        while i < edges.len()
            invariant
                i <= edges.len(),
                forall|j: int|
                    0 <= j < edges.len() ==> #[trigger] edges[j] <= u32::MAX
                        && self@.edges.dom().contains(edges[j] as int),
                self@.in_range(),
                forall|j: int|
                    0 <= j < i ==> self@.nodes.contains(self@.edges[#[trigger] edges[j] as int].0)
                        && self@.nodes.contains(self@.edges[edges[j] as int].1),
            decreases edges.len() - i,
        {
            match graph_edge_endpoints(&self.graph, edges[i]) {
                Some((a, b)) => {
                    let first = a <= u32::MAX as usize && graph_node_weight(
                        &self.graph,
                        a,
                    ).is_some();
                    let second = b <= u32::MAX as usize && graph_node_weight(
                        &self.graph,
                        b,
                    ).is_some();
                    if !first || !second {
                        assert(!self@.closed());
                        return false;
                    }
                },
                None => {
                    return false;
                },
            }
            i += 1;
        }
        assert(self@.closed()) by {
            assert forall|e: int| self@.edges.dom().contains(e) implies self@.nodes.contains(
                (#[trigger] self@.edges[e]).0,
            ) && self@.nodes.contains(self@.edges[e].1) by {
                let j = choose|j: int| 0 <= j < edges.len() && #[trigger] edges[j] == e;
            }
        }
        assert(self@.shaped());
        let mut copy = graph_clone(&self.graph);
        sweep(&mut copy, ground_mark);
        let mut i: usize = 0;
        while i < nodes.len()
            invariant
                i <= nodes.len(),
                graph_nodes(copy).dom() == self@.nodes,
                graph_edges(copy) == self@.edges,
                forall|n: int|
                    self@.nodes.contains(n) ==> (#[trigger] graph_nodes(copy)[n] != ground_mark
                        <==> reachable(self@.edges, n)),
                forall|j: int|
                    0 <= j < nodes.len() ==> #[trigger] nodes[j] <= u32::MAX
                        && self@.nodes.contains(nodes[j] as int),
                forall|j: int| 0 <= j < i ==> reachable(self@.edges, #[trigger] nodes[j] as int),
            decreases nodes.len() - i,
        {
            match graph_node_weight(&copy, nodes[i]) {
                Some(mark) => {
                    if mark == ground_mark {
                        assert(!reachable(self@.edges, nodes[i as int] as int));
                        return false;
                    }
                },
                None => {
                    return false;
                },
            }
            i += 1;
        }
        assert(self@.anchored()) by {
            assert forall|n: int| self@.nodes.contains(n) implies reachable(self@.edges, n) by {
                let j = choose|j: int| 0 <= j < nodes.len() && #[trigger] nodes[j] == n;
            }
        }
        true
    }
}

/// The list `moves` holds the edge `e`.
pub open spec fn holds_move(moves: Seq<usize>, e: int) -> bool {
    exists|i: int| 0 <= i < moves.len() && #[trigger] moves[i] == e
}

/// The edge `k` of `rest` starts at a node that is connected to the ground.
pub open spec fn kept(rest: Map<int, Link>, k: int) -> bool {
    reachable(rest, rest[k].0)
}

/// A node that stands over an edge still does when edges are added.
pub proof fn lemma_stands_over_grows(fewer: Map<int, Link>, more: Map<int, Link>, n: int)
    requires
        fewer.submap_of(more),
        stands_over(fewer, n),
    ensures
        stands_over(more, n),
{
    let (toward_a, toward_b, under) = choose|toward_a: int, toward_b: int, under: int|
        #![trigger fewer[toward_a], fewer[toward_b], fewer[under]]
        {
            &&& fewer.dom().contains(toward_a)
            &&& fewer.dom().contains(toward_b)
            &&& fewer.dom().contains(under)
            &&& fewer[toward_a].0 == n
            &&& fewer[toward_b].0 == n
            &&& fewer[toward_a].1 < n
            &&& fewer[toward_b].1 < n
            &&& fewer[toward_a].2 != fewer[toward_b].2
            &&& joins(fewer[under], fewer[toward_a].1, fewer[toward_b].1)
        };
    assert(more.dom().contains(toward_a) && more[toward_a] == fewer[toward_a]);
    assert(more.dom().contains(toward_b) && more[toward_b] == fewer[toward_b]);
    assert(more.dom().contains(under) && more[under] == fewer[under]);
    assert(joins(more[under], more[toward_a].1, more[toward_b].1));
}

/// The node `n` stands over an edge between two earlier nodes: an edge of
/// one colour joins it to one of them, and an edge of the other colour to the
/// other.
pub open spec fn stands_over(edges: Map<int, Link>, n: int) -> bool {
    exists|toward_a: int, toward_b: int, under: int|
        #![trigger edges[toward_a], edges[toward_b], edges[under]]
        {
            &&& edges.dom().contains(toward_a)
            &&& edges.dom().contains(toward_b)
            &&& edges.dom().contains(under)
            &&& edges[toward_a].0 == n
            &&& edges[toward_b].0 == n
            &&& edges[toward_a].1 < n
            &&& edges[toward_b].1 < n
            &&& edges[toward_a].2 != edges[toward_b].2
            &&& joins(edges[under], edges[toward_a].1, edges[toward_b].1)
        }
}

impl Game {
    /// A random position of `size` nodes, or of two where `size` is less:
    /// one edge from the ground, then each further node over an edge that no
    /// node stands over yet, joined to both of its ends. The colours
    /// alternate in the order in which the edges are made, and the player to
    /// move owns the first of them.
    pub fn random_triangles(size: usize, rng: &mut ThreadRng) -> (game: Game)
        requires
            size <= 0x4000_0000,
        ensures
            game.valid(),
            game@.nodes =~= Set::new(|n: int| 0 <= n < size || 0 <= n < 2),
            game@.edges.dom().len() == if size < 2 {
                1
            } else {
                2 * size - 3
            },
            exists|e: int| game@.legal(e, game@.turn) && #[trigger] game@.edges[e].0 == 0
                && game@.edges[e].1 == 1,
            forall|n: int| 2 <= n < size ==> #[trigger] stands_over(game@.edges, n),
    {
        let mut current_color = random_color(rng);
        let mut graph = graph_empty();
        let ground = graph_add_node(&mut graph, false);
        let first = graph_add_node(&mut graph, false);
        let edge = graph_add_edge(&mut graph, ground, first, current_color);
        proof {
            let alone = Board {
                nodes: set![GROUND as int],
                edges: Map::empty(),
                turn: current_color,
            };
            lemma_ground_reachable(alone.edges);
            lemma_branch_valid(alone, GROUND as int, first as int, edge as int);
            let joined = alone.branch(GROUND as int, first as int, edge as int);
            assert(board_of(graph, Color::Blue).nodes =~= joined.nodes);
            assert(board_of(graph, Color::Blue).edges =~= joined.edges);
            assert(board_of(graph, Color::Blue) == Board { turn: Color::Blue, ..joined });
        }
        let ghost first_color = current_color;
        current_color = current_color.invert();
        let mut free_edges: Vec<usize> = Vec::new();
        free_edges.push(edge);
        let mut i: usize = 2;
        while i < size
            invariant
                size <= 0x4000_0000,
                2 <= i,
                i <= size || i == 2,
                current_color == first_color.inverted(),
                graph_edges(graph).dom().contains(edge as int),
                graph_edges(graph)[edge as int] == (0int, 1int, first_color),
                forall|n: int| 2 <= n < i ==> #[trigger] stands_over(graph_edges(graph), n),
                board_of(graph, Color::Blue).valid(),
                all_marked(graph, false),
                graph_nodes(graph).dom() =~= Set::new(|n: int| 0 <= n < i),
                graph_node_bound(graph) == i,
                graph_nodes(graph).dom().len() == i,
                graph_edges(graph).dom().len() == 2 * i - 3,
                free_edges.len() >= 1,
                forall|k: int|
                    0 <= k < free_edges.len() ==> graph_edges(graph).dom().contains(
                        #[trigger] free_edges[k] as int,
                    ),
            decreases size - i,
        {
            let edge_index = random_below(rng, free_edges.len());
            let under = free_edges[edge_index];
            free_edges.remove(edge_index);
            let (a, b) = match graph_edge_endpoints(&graph, under) {
                Some(ends) => ends,
                None => (GROUND, GROUND),
            };
            let ghost before = board_of(graph, Color::Blue);
            assert(before.nodes.contains(a as int) && before.nodes.contains(b as int));
            let node = graph_add_node(&mut graph, false);
            assert(node == i);
            let toward_a = graph_add_edge(&mut graph, node, a, current_color);
            let ghost hung = board_of(graph, Color::Blue);
            proof {
                lemma_join_valid(before, node as int, a as int, toward_a as int, current_color);
                assert(hung.nodes =~= before.nodes.insert(node as int));
                assert(hung.valid());
            }
            current_color = current_color.invert();
            let toward_b = graph_add_edge(&mut graph, node, b, current_color);
            proof {
                lemma_join_valid(hung, node as int, b as int, toward_b as int, current_color);
                assert(board_of(graph, Color::Blue).nodes =~= hung.nodes.insert(node as int));
                let links = graph_edges(graph);
                assert(before.edges.submap_of(links));
                assert(joins(links[under as int], a as int, b as int));
                assert(stands_over(links, node as int)) by {
                    assert(links[toward_a as int].0 == node && links[toward_b as int].0 == node
                        && joins(
                        links[under as int],
                        links[toward_a as int].1,
                        links[toward_b as int].1,
                    ));
                }
                assert forall|n: int| 2 <= n < i implies #[trigger] stands_over(links, n) by {
                    lemma_stands_over_grows(before.edges, links, n);
                }
            }
            current_color = current_color.invert();
            free_edges.push(toward_a);
            free_edges.push(toward_b);
            i += 1;
        }
        let game = Game { graph, turn: current_color.invert() };
        proof {
            assert(game@.nodes =~= Set::new(|n: int| 0 <= n < size || 0 <= n < 2));
        }
        game
    }

    /// The position with a new node, joined to `target` by a new edge of
    /// the colour of the player to move. There is none where `target` is no
    /// node of the position, or where the graph cannot take another node or
    /// edge.
    pub fn add_branch(&self, target: usize) -> (after: Option<Game>)
        ensures
            after is Some <==> target <= u32::MAX && self@.nodes.contains(target as int)
                && self@.nodes.len() < u32::MAX && self@.edges.dom().len() < u32::MAX,
            after matches Some(game) ==> exists|node: int, e: int|
                !self@.nodes.contains(node) && !self@.edges.dom().contains(e)
                    && #[trigger] self@.branch(target as int, node, e) == game@,
            after matches Some(game) ==> (self.valid() ==> game.valid()),
    {
        let nodes = graph_node_count(&self.graph);
        let edges = graph_edge_count(&self.graph);
        if nodes >= u32::MAX as usize || edges >= u32::MAX as usize || target > u32::MAX as usize {
            return None;
        }
        if graph_node_weight(&self.graph, target).is_none() {
            return None;
        }
        let mark = match graph_node_weight(&self.graph, GROUND) {
            Some(mark) => mark,
            None => false,
        };
        let mut graph = graph_clone(&self.graph);
        let node = graph_add_node(&mut graph, mark);
        let e = graph_add_edge(&mut graph, target, node, self.turn);
        let game = Game { graph, turn: self.turn };
        proof {
            assert(game@.nodes =~= self@.branch(target as int, node as int, e as int).nodes);
            assert(game@ == self@.branch(target as int, node as int, e as int));
            if self.valid() {
                lemma_branch_valid(self@, target as int, node as int, e as int);
            }
        }
        Some(game)
    }

    /// The graph of the position.
    pub fn get_graph(&self) -> (graph: &Graph)
        ensures
            board_of(*graph, self@.turn) == self@,
    {
        &self.graph
    }

    /// The graph of the position, open to change. Whoever changes it
    /// answers for the position: `is_valid` tells whether it still is one.
    /// A new node is to carry the mark of the ground.
    pub fn get_graph_mut(&mut self) -> (graph: &mut Graph)
        ensures
            board_of(*graph, old(self)@.turn) == old(self)@,
            final(self)@ == board_of(*final(graph), old(self)@.turn),
    {
        &mut self.graph
    }

    /// The position after the edge `target` is cut.
    pub(crate) fn cut(&self, target: usize) -> (after: Game)
        requires
            self.valid(),
            self@.edges.dom().contains(target as int),
        ensures
            after.valid(),
            after@ == self@.cut(target as int),
    {
        let mut graph = graph_clone(&self.graph);
        let turn = self.turn.invert();
        graph_remove_edge(&mut graph, target);
        let ghost rest = graph_edges(graph);
        let ghost dom = graph_nodes(graph).dom();
        let base = match graph_node_weight(&graph, GROUND) {
            Some(mark) => mark,
            None => false,
        };
        sweep(&mut graph, base);
        let ghost marks = graph_nodes(graph);

        let edges = graph_edge_indices(&graph);
        assert(lists(edges@, rest.dom()));
        let mut i: usize = 0;
        while i < edges.len()
            invariant
                i <= edges.len(),
                graph_nodes(graph) == marks,
                marks.dom() == dom,
                forall|n: int| #[trigger] dom.contains(n) ==> 0 <= n <= u32::MAX,
                forall|k: int|
                    #![trigger rest.dom().contains(k)]
                    rest.dom().contains(k) ==> dom.contains(rest[k].0) && dom.contains(rest[k].1),
                forall|n: int|
                    dom.contains(n) ==> (#[trigger] marks[n] != base <==> reachable(rest, n)),
                forall|j: int|
                    0 <= j < edges.len() ==> #[trigger] edges[j] <= u32::MAX && rest.dom().contains(
                        edges[j] as int,
                    ),
                graph_edges(graph).submap_of(rest),
                forall|k: int|
                    #![trigger rest.dom().contains(k)]
                    rest.dom().contains(k) && kept(rest, k) ==> graph_edges(
                        graph,
                    ).dom().contains(k),
                forall|j: int|
                    0 <= j < i && !kept(rest, #[trigger] edges[j] as int) ==> !graph_edges(
                        graph,
                    ).dom().contains(edges[j] as int),
            decreases edges.len() - i,
        {
            let edge = edges[i];
            match graph_edge_endpoints(&graph, edge) {
                Some((a, b)) => {
                    proof {
                        assert(rest.dom().contains(edge as int));
                        assert(graph_edges(graph)[edge as int] == rest[edge as int]);
                        assert(dom.contains(a as int) && dom.contains(b as int));
                        lemma_ends_agree(rest, edge as int);
                    }
                    let first = graph_node_weight(&graph, a);
                    let second = graph_node_weight(&graph, b);
                    if first == Some(base) && second == Some(base) {
                        graph_remove_edge(&mut graph, edge);
                    }
                },
                None => {},
            }
            i += 1;
        }
        let ghost links = graph_edges(graph);
        proof {
            let want = self@.cut(target as int).edges;
            assert(rest == self@.edges.remove(target as int));
            assert forall|k: int| links.dom().contains(k) implies kept(rest, k) by {
                assert(rest.dom().contains(k));
                let j = choose|j: int| 0 <= j < edges.len() && #[trigger] edges[j] == k;
                assert(edges[j] as int == k);
                if !kept(rest, k) {
                    assert(!links.dom().contains(edges[j] as int));
                }
            }
            assert forall|k: int| want.dom().contains(k) <==> links.dom().contains(k) by {
                if want.dom().contains(k) {
                    assert(rest.dom().contains(k) && kept(rest, k));
                }
                if links.dom().contains(k) {
                    assert(rest.dom().contains(k) && kept(rest, k));
                }
            }
            assert forall|k: int| links.dom().contains(k) implies links[k] == want[k] by {
                assert(rest.dom().contains(k) && links[k] == rest[k]);
            }
            assert(links =~= want);
        }

        let nodes = graph_node_indices(&graph);
        assert(lists(nodes@, dom));
        let mut i: usize = 0;
        while i < nodes.len()
            invariant
                i <= nodes.len(),
                graph_edges(graph) == links,
                links.submap_of(rest),
                forall|k: int| #[trigger] links.dom().contains(k) ==> kept(rest, k),
                forall|n: int|
                    dom.contains(n) ==> (#[trigger] marks[n] != base <==> reachable(rest, n)),
                forall|j: int|
                    0 <= j < nodes.len() ==> #[trigger] nodes[j] <= u32::MAX && dom.contains(
                        nodes[j] as int,
                    ),
                graph_nodes(graph).submap_of(marks),
                marks.dom() == dom,
                forall|n: int|
                    #![trigger dom.contains(n)]
                    dom.contains(n) && marks[n] != base ==> graph_nodes(graph).dom().contains(n),
                forall|j: int|
                    0 <= j < i && marks[#[trigger] nodes[j] as int] == base ==> !graph_nodes(
                        graph,
                    ).dom().contains(nodes[j] as int),
            decreases nodes.len() - i,
        {
            let node = nodes[i];
            let tag = graph_node_weight(&graph, node);
            if tag == Some(base) {
                proof {
                    assert(graph_nodes(graph)[node as int] == marks[node as int]);
                    assert(!reachable(rest, node as int));
                    assert(detached(links, node as int) =~= links) by {
                        assert forall|k: int| links.dom().contains(k) implies links[k].0 != node
                            && links[k].1 != node by {
                            assert(kept(rest, k));
                            assert(rest.dom().contains(k));
                            lemma_ends_agree(rest, k);
                        }
                    }
                }
                graph_remove_node(&mut graph, node);
            }
            i += 1;
        }
        let after = Game { graph, turn };
        proof {
            lemma_ground_reachable(rest);
            lemma_cut_valid(self@, target as int);
            let left = graph_nodes(after.graph);
            assert(left.submap_of(marks));
            assert forall|n: int| left.dom().contains(n) implies marks[n] != base by {
                assert(marks.dom().contains(n));
                assert(left[n] == marks[n]);
                assert(dom.contains(n));
                let j = choose|j: int| 0 <= j < nodes.len() && #[trigger] nodes[j] == n;
                assert(nodes[j] as int == n);
                if marks[n] == base {
                    assert(!left.dom().contains(nodes[j] as int));
                }
            }
            assert(after@.nodes =~= self@.cut(target as int).nodes) by {
                assert forall|n: int|
                    after@.nodes.contains(n) <==> self@.nodes.contains(n) && reachable(
                        rest,
                        n,
                    ) by {
                    if after@.nodes.contains(n) {
                        assert(dom.contains(n) && marks[n] != base);
                    }
                    if self@.nodes.contains(n) && reachable(rest, n) {
                        assert(dom.contains(n) && marks[n] != base);
                    }
                }
            }
            assert(after.level()) by {
                assert forall|n: int| left.dom().contains(n) implies #[trigger] left[n]
                    == !base by {
                    assert(dom.contains(n) && left[n] == marks[n]);
                }
                assert(left.dom().contains(GROUND as int));
            }
        }
        after
    }

    /// The position after `target` is cut: the edge leaves, and with it
    /// every node that it alone held to the ground.
    pub fn make_move(&self, target: usize) -> (after: Result<Game, Error>)
        ensures
            match after {
                Ok(game) => self.valid() && self@.edges.dom().contains(target as int)
                    && game.valid() && game@ == self@.cut(target as int),
                Err(Error::InvalidPosition) => !self.valid(),
                Err(Error::InvalidMove) => self.valid() && !self@.edges.dom().contains(
                    target as int,
                ),
                Err(Error::ArenaInvariantViolation) => false,
            },
    {
        if !self.is_valid() {
            return Err(Error::InvalidPosition);
        }
        if target > u32::MAX as usize {
            return Err(Error::InvalidMove);
        }
        if graph_edge_endpoints(&self.graph, target).is_none() {
            return Err(Error::InvalidMove);
        }
        Ok(self.cut(target))
    }

    /// Whether no edge is left to cut.
    pub fn is_terminal(&self) -> (done: bool)
        ensures
            done == self@.is_terminal(),
    {
        let count = graph_edge_count(&self.graph);
        proof {
            if count == 0 {
                assert(self@.edges.dom() =~= Set::<int>::empty());
            }
        }
        count == 0
    }

    /// The edges that `color` may cut, in increasing order.
    pub fn legal_moves(&self, color: Color) -> (moves: Vec<usize>)
        ensures
            forall|i: int, j: int| 0 <= i < j < moves.len() ==> moves[i] < moves[j],
            forall|i: int| 0 <= i < moves.len() ==> self@.legal(#[trigger] moves[i] as int, color),
            forall|e: int| self@.legal(e, color) ==> holds_move(moves@, e),
    {
        let all = graph_edge_references(&self.graph);
        let mut moves: Vec<usize> = Vec::new();
        let mut k: usize = 0;
        while k < all.len()
            invariant
                k <= all.len(),
                forall|i: int, j: int| 0 <= i < j < all.len() ==> all[i].1 < all[j].1,
                forall|i: int|
                    0 <= i < all.len() ==> self@.edges.dom().contains((#[trigger] all[i]).1 as int)
                        && self@.edges[all[i].1 as int].2 == all[i].0,
                forall|i: int, j: int| 0 <= i < j < moves.len() ==> moves[i] < moves[j],
                forall|i: int|
                    0 <= i < moves.len() ==> self@.legal(#[trigger] moves[i] as int, color),
                forall|i: int|
                    0 <= i < moves.len() && k < all.len() ==> #[trigger] moves[i]
                        < all[k as int].1,
                forall|j: int|
                    0 <= j < k && (#[trigger] all[j]).0 == color ==> holds_move(
                        moves@,
                        all[j].1 as int,
                    ),
            decreases all.len() - k,
        {
            let (edge_color, edge) = all[k];
            let ghost before = moves@;
            if edge_color == color {
                moves.push(edge);
                proof {
                    assert(moves[before.len() as int] == edge);
                    assert(holds_move(moves@, edge as int));
                }
            }
            proof {
                assert forall|j: int|
                    0 <= j < k && (#[trigger] all[j]).0 == color implies holds_move(
                    moves@,
                    all[j].1 as int,
                ) by {
                    let i = choose|i: int|
                        0 <= i < before.len() && #[trigger] before[i] == all[j].1;
                    assert(moves[i] == all[j].1);
                }
                if k + 1 < all.len() {
                    assert(all[k as int].1 < all[k + 1].1);
                }
            }
            k += 1;
        }
        proof {
            assert forall|e: int| self@.legal(e, color) implies holds_move(moves@, e) by {
                let j = choose|j: int| 0 <= j < all.len() && (#[trigger] all[j]).1 == e;
                assert(all[j].0 == color);
            }
        }
        moves
    }

    /// The player to move.
    pub fn get_turn(&self) -> (turn: Color)
        ensures
            turn == self@.turn,
    {
        self.turn
    }

    /// Passes the turn to the other player.
    pub fn switch_turn(&mut self)
        ensures
            final(self)@ == (Board { turn: old(self)@.turn.inverted(), ..old(self)@ }),
            final(self).valid() == old(self).valid(),
    {
        self.turn = self.turn.invert();
    }
}

} // verus!

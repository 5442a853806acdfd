//! The position's graph is a `petgraph` stable graph. This module names what
//! such a graph holds and states, call by call, what each operation that the
//! library uses does to it. Nothing here is proved: each function below
//! hands its arguments to `petgraph` and its contract records what the
//! implementation of `StableGraph` does.
use crate::hackenbush::Color;
use petgraph::stable_graph::{EdgeIndex, NodeIndex, StableGraph};
use petgraph::visit::{EdgeRef, IntoEdgeReferences};
use petgraph::Undirected;
use vstd::prelude::*;

verus! {

/// `petgraph`'s `StableGraph`, of which the contracts see only what the
/// names below say.
#[verifier::external_type_specification]
#[verifier::external_body]
#[verifier::reject_recursive_types(N)]
#[verifier::reject_recursive_types(E)]
#[verifier::reject_recursive_types(Ty)]
#[verifier::reject_recursive_types(Ix)]
pub struct ExStableGraph<N, E, Ty, Ix>(StableGraph<N, E, Ty, Ix>);

/// `petgraph`'s marker for graphs whose edges have no direction.
#[verifier::external_type_specification]
#[verifier::external_body]
pub struct ExUndirected(Undirected);

/// An undirected graph whose nodes carry a sweep mark and whose edges carry
/// the colour of the player who may cut them.
pub type Graph = StableGraph<bool, Color, Undirected, u32>;

/// An edge as the contracts see it: its two endpoints and its colour.
pub type Link = (int, int, Color);

/// The nodes of a graph: each node index that is in use, with its mark.
pub uninterp spec fn graph_nodes(g: StableGraph<bool, Color, Undirected, u32>) -> Map<int, bool>;

/// The edges of a graph: each edge index that is in use, with the edge's
/// source, target and colour.
pub uninterp spec fn graph_edges(g: StableGraph<bool, Color, Undirected, u32>) -> Map<
    int,
    (int, int, Color),
>;

/// The number of node slots of a graph, vacant ones included: every node
/// index that was ever handed out is below it.
pub uninterp spec fn graph_node_bound(g: StableGraph<bool, Color, Undirected, u32>) -> int;

/// The edge `link` joins `a` and `b`, in either direction.
pub open spec fn joins(link: Link, a: int, b: int) -> bool {
    (link.0 == a && link.1 == b) || (link.0 == b && link.1 == a)
}

/// Some edge joins `a` and `b`.
pub open spec fn adjacent(edges: Map<int, Link>, a: int, b: int) -> bool {
    exists|e: int| edges.dom().contains(e) && joins(#[trigger] edges[e], a, b)
}

/// The edges that do not touch the node `a`.
pub open spec fn detached(edges: Map<int, Link>, a: int) -> Map<int, Link> {
    edges.restrict(Set::new(|e: int| edges[e].0 != a && edges[e].1 != a))
}

/// The set `s` is finite and has `n` elements.
pub open spec fn counts(s: Set<int>, n: int) -> bool {
    s.finite() && s.len() == n
}

/// The list holds the indices in `s`, each once, in increasing order; every
/// one of them fits in 32 bits.
pub open spec fn lists(list: Seq<usize>, s: Set<int>) -> bool {
    &&& forall|i: int, j: int| 0 <= i < j < list.len() ==> list[i] < list[j]
    &&& forall|i: int|
        0 <= i < list.len() ==> #[trigger] list[i] <= u32::MAX && s.contains(list[i] as int)
    &&& forall|a: int|
        s.contains(a) ==> exists|i: int| 0 <= i < list.len() && #[trigger] list[i] == a
}

/// The list holds the edges in `edges`, each once with its colour, in
/// increasing order of the index; every index fits in 32 bits.
pub open spec fn lists_edges(list: Seq<(Color, usize)>, edges: Map<int, Link>) -> bool {
    &&& forall|i: int, j: int| 0 <= i < j < list.len() ==> list[i].1 < list[j].1
    &&& forall|i: int|
        0 <= i < list.len() ==> (#[trigger] list[i]).1 <= u32::MAX && edges.dom().contains(
            list[i].1 as int,
        ) && edges[list[i].1 as int].2 == list[i].0
    &&& forall|e: int|
        edges.dom().contains(e) ==> exists|i: int|
            0 <= i < list.len() && (#[trigger] list[i]).1 == e
}

/// The list holds the nodes that an edge of `edges` joins to `a`, and no
/// others; every one of them fits in 32 bits.
pub open spec fn lists_neighbors(list: Seq<usize>, edges: Map<int, Link>, a: int) -> bool {
    &&& forall|i: int|
        0 <= i < list.len() ==> #[trigger] list[i] <= u32::MAX && adjacent(edges, a, list[i] as int)
    &&& forall|b: int|
        adjacent(edges, a, b) ==> exists|i: int| 0 <= i < list.len() && #[trigger] list[i] == b
}

/// The empty set of nodes.
pub open spec fn no_nodes() -> Map<int, bool> {
    Map::empty()
}

/// The empty set of edges.
pub open spec fn no_edges() -> Map<int, Link> {
    Map::empty()
}

/// `StableGraph::default`: a graph without nodes, edges or vacant slots.
#[verifier::external_body]
pub(crate) fn graph_empty() -> (fresh: Graph)
    ensures
        graph_nodes(fresh) == no_nodes(),
        graph_edges(fresh) == no_edges(),
        graph_node_bound(fresh) == 0,
{
    StableGraph::default()
}

/// `Clone::clone` of a `StableGraph`: the copy holds the same nodes and
/// edges under the same indices, and has the same slots.
#[verifier::external_body]
pub(crate) fn graph_clone(g: &Graph) -> (copy: Graph)
    ensures
        graph_nodes(copy) == graph_nodes(*g),
        graph_edges(copy) == graph_edges(*g),
        graph_node_bound(copy) == graph_node_bound(*g),
{
    g.clone()
}

/// `StableGraph::node_count`: the number of nodes, which is finite.
#[verifier::external_body]
pub(crate) fn graph_node_count(g: &Graph) -> (n: usize)
    ensures
        counts(graph_nodes(*g).dom(), n as int),
{
    g.node_count()
}

/// `StableGraph::edge_count`: the number of edges, which is finite.
#[verifier::external_body]
pub(crate) fn graph_edge_count(g: &Graph) -> (n: usize)
    ensures
        counts(graph_edges(*g).dom(), n as int),
{
    g.edge_count()
}

/// `StableGraph::add_node`: the node takes a vacant slot or the next new
/// one, and nothing else changes. The call panics only when every index of
/// `u32` below its maximum is a node, which the precondition excludes.
#[verifier::external_body]
pub(crate) fn graph_add_node(g: &mut Graph, mark: bool) -> (a: usize)
    requires
        graph_nodes(*old(g)).dom().finite(),
        graph_nodes(*old(g)).dom().len() < u32::MAX,
    ensures
        !graph_nodes(*old(g)).dom().contains(a as int),
        a <= graph_node_bound(*old(g)),
        a < u32::MAX,
        graph_node_bound(*final(g)) == if a < graph_node_bound(*old(g)) {
            graph_node_bound(*old(g))
        } else {
            a + 1
        },
        graph_nodes(*final(g)) == graph_nodes(*old(g)).insert(a as int, mark),
        graph_edges(*final(g)) == graph_edges(*old(g)),
{
    g.add_node(mark).index()
}

/// `StableGraph::add_edge`: a new edge from `a` to `b` under an index that
/// was not in use. The call panics where an endpoint is no node or every
/// index of `u32` below its maximum is an edge, which the preconditions
/// exclude.
#[verifier::external_body]
pub(crate) fn graph_add_edge(g: &mut Graph, a: usize, b: usize, color: Color) -> (e: usize)
    requires
        a <= u32::MAX,
        b <= u32::MAX,
        graph_nodes(*old(g)).dom().contains(a as int),
        graph_nodes(*old(g)).dom().contains(b as int),
        graph_edges(*old(g)).dom().finite(),
        graph_edges(*old(g)).dom().len() < u32::MAX,
    ensures
        !graph_edges(*old(g)).dom().contains(e as int),
        e < u32::MAX,
        graph_edges(*final(g)) == graph_edges(*old(g)).insert(
            e as int,
            (a as int, b as int, color),
        ),
        graph_nodes(*final(g)) == graph_nodes(*old(g)),
        graph_node_bound(*final(g)) == graph_node_bound(*old(g)),
{
    g.add_edge(NodeIndex::new(a), NodeIndex::new(b), color).index()
}

/// `StableGraph::remove_edge`: the edge `e` leaves, if it is one, and its
/// colour is returned; no other index changes.
#[verifier::external_body]
pub(crate) fn graph_remove_edge(g: &mut Graph, e: usize) -> (removed: Option<Color>)
    requires
        e <= u32::MAX,
    ensures
        removed == if graph_edges(*old(g)).dom().contains(e as int) {
            Some(graph_edges(*old(g))[e as int].2)
        } else {
            None
        },
        graph_edges(*final(g)) == graph_edges(*old(g)).remove(e as int),
        graph_nodes(*final(g)) == graph_nodes(*old(g)),
        graph_node_bound(*final(g)) == graph_node_bound(*old(g)),
{
    g.remove_edge(EdgeIndex::new(e))
}

/// `StableGraph::remove_node`: the node `a` leaves, if it is one, together
/// with every edge that touches it, and its mark is returned; no other index
/// changes.
#[verifier::external_body]
pub(crate) fn graph_remove_node(g: &mut Graph, a: usize) -> (removed: Option<bool>)
    requires
        a <= u32::MAX,
    ensures
        removed == if graph_nodes(*old(g)).dom().contains(a as int) {
            Some(graph_nodes(*old(g))[a as int])
        } else {
            None
        },
        graph_nodes(*final(g)) == graph_nodes(*old(g)).remove(a as int),
        graph_edges(*final(g)) == if graph_nodes(*old(g)).dom().contains(a as int) {
            detached(graph_edges(*old(g)), a as int)
        } else {
            graph_edges(*old(g))
        },
        graph_node_bound(*final(g)) == graph_node_bound(*old(g)),
{
    g.remove_node(NodeIndex::new(a))
}

/// `StableGraph::node_weight`: the mark of the node `a`, if it is one.
#[verifier::external_body]
pub(crate) fn graph_node_weight(g: &Graph, a: usize) -> (mark: Option<bool>)
    requires
        a <= u32::MAX,
    ensures
        mark == if graph_nodes(*g).dom().contains(a as int) {
            Some(graph_nodes(*g)[a as int])
        } else {
            None
        },
{
    g.node_weight(NodeIndex::new(a)).copied()
}

/// `StableGraph::node_weight_mut`, written through: the node `a` gets the
/// mark `mark`, and nothing else changes.
#[verifier::external_body]
pub(crate) fn graph_set_node_weight(g: &mut Graph, a: usize, mark: bool)
    requires
        a <= u32::MAX,
        graph_nodes(*old(g)).dom().contains(a as int),
    ensures
        graph_nodes(*final(g)) == graph_nodes(*old(g)).insert(a as int, mark),
        graph_edges(*final(g)) == graph_edges(*old(g)),
        graph_node_bound(*final(g)) == graph_node_bound(*old(g)),
{
    *g.node_weight_mut(NodeIndex::new(a)).unwrap() = mark;
}

/// `StableGraph::edge_endpoints`: the source and the target of the edge `e`,
/// if it is one.
#[verifier::external_body]
pub(crate) fn graph_edge_endpoints(g: &Graph, e: usize) -> (ends: Option<(usize, usize)>)
    requires
        e <= u32::MAX,
    ensures
        ends is Some <==> graph_edges(*g).dom().contains(e as int),
        ends matches Some((a, b)) ==> a == graph_edges(*g)[e as int].0,
        ends matches Some((a, b)) ==> b == graph_edges(*g)[e as int].1,
{
    g.edge_endpoints(EdgeIndex::new(e)).map(|(a, b)| (a.index(), b.index()))
}

/// `StableGraph::neighbors` of an undirected graph: the far end of every
/// edge that touches `a`, in no stated order.
#[verifier::external_body]
pub(crate) fn graph_neighbors(g: &Graph, a: usize) -> (near: Vec<usize>)
    requires
        a <= u32::MAX,
    ensures
        lists_neighbors(near@, graph_edges(*g), a as int),
{
    g.neighbors(NodeIndex::new(a)).map(|b| b.index()).collect()
}

/// `StableGraph::node_indices`: every node index that is in use, once, in
/// increasing order.
#[verifier::external_body]
pub(crate) fn graph_node_indices(g: &Graph) -> (all: Vec<usize>)
    ensures
        lists(all@, graph_nodes(*g).dom()),
{
    g.node_indices().map(|a| a.index()).collect()
}

/// `StableGraph::edge_indices`: every edge index that is in use, once, in
/// increasing order.
#[verifier::external_body]
pub(crate) fn graph_edge_indices(g: &Graph) -> (all: Vec<usize>)
    ensures
        lists(all@, graph_edges(*g).dom()),
{
    g.edge_indices().map(|e| e.index()).collect()
}

/// `StableGraph::edge_references`: every edge in increasing order of its
/// index, as its colour and its index.
#[verifier::external_body]
pub(crate) fn graph_edge_references(g: &Graph) -> (all: Vec<(Color, usize)>)
    ensures
        lists_edges(all@, graph_edges(*g)),
{
    g.edge_references().map(|edge| (*edge.weight(), edge.id().index())).collect()
}

} // verus!

//! The mathematical model of a position: nodes, coloured edges, the player
//! to move, and what it means for a node to be connected to the ground.
use crate::graph::{adjacent, joins, Link};
use crate::hackenbush::Color;
use vstd::prelude::*;

verus! {

/// The node that anchors every position.
pub const GROUND: usize = 0;

/// A position as the contracts see it.
pub struct Board {
    pub nodes: Set<int>,
    pub edges: Map<int, Link>,
    pub turn: Color,
}

/// The step from place `i` of `path` to the next place follows an edge.
pub open spec fn hop(edges: Map<int, Link>, path: Seq<int>, i: int) -> bool {
    adjacent(edges, path[i], path[i + 1])
}

/// `path` starts at the ground and follows an edge at every step.
pub open spec fn walk(edges: Map<int, Link>, path: Seq<int>) -> bool {
    &&& path.len() > 0
    &&& path[0] == GROUND
    &&& forall|i: int| 0 <= i < path.len() - 1 ==> #[trigger] hop(edges, path, i)
}

/// Some walk from the ground ends at `n`.
pub open spec fn reachable(edges: Map<int, Link>, n: int) -> bool {
    exists|path: Seq<int>| #[trigger] walk(edges, path) && path.last() == n
}

/// The set `s` contains the ground and, with a node, every node that an edge
/// joins to it.
pub open spec fn swept(edges: Map<int, Link>, s: Set<int>) -> bool {
    &&& s.contains(GROUND as int)
    &&& forall|a: int, b: int| s.contains(a) && #[trigger] adjacent(edges, a, b) ==> s.contains(b)
}

impl Board {
    /// Both ends of every edge are nodes.
    pub open spec fn closed(self) -> bool {
        forall|e: int|
            self.edges.dom().contains(e) ==> self.nodes.contains((#[trigger] self.edges[e]).0)
                && self.nodes.contains(self.edges[e].1)
    }

    /// Every node index and every edge index fits in 32 bits.
    pub open spec fn in_range(self) -> bool {
        &&& forall|n: int| #[trigger] self.nodes.contains(n) ==> 0 <= n <= u32::MAX
        &&& forall|e: int| #[trigger] self.edges.dom().contains(e) ==> 0 <= e <= u32::MAX
    }

    /// A finite graph that holds the ground.
    pub open spec fn shaped(self) -> bool {
        &&& self.nodes.finite()
        &&& self.edges.dom().finite()
        &&& self.nodes.contains(GROUND as int)
        &&& self.closed()
        &&& self.in_range()
    }

    /// Every node is connected to the ground.
    pub open spec fn anchored(self) -> bool {
        forall|n: int| self.nodes.contains(n) ==> reachable(self.edges, n)
    }

    /// The invariant of a position.
    pub open spec fn valid(self) -> bool {
        self.shaped() && self.anchored()
    }

    /// No edge is left: the ground alone, or nothing that can be cut.
    pub open spec fn is_terminal(self) -> bool {
        self.edges.dom() =~= Set::<int>::empty()
    }

    /// The edge `e` may be cut by `color`.
    pub open spec fn legal(self, e: int, color: Color) -> bool {
        self.edges.dom().contains(e) && self.edges[e].2 == color
    }

    /// The position with a new node `node`, joined to `target` by a new
    /// edge `e` of the colour of the player to move.
    pub open spec fn branch(self, target: int, node: int, e: int) -> Board {
        Board {
            nodes: self.nodes.insert(node),
            edges: self.edges.insert(e, (target, node, self.turn)),
            turn: self.turn,
        }
    }

    /// The position after the edge `e` is cut: the edge leaves, then every
    /// node that is no longer connected to the ground leaves, with the edges
    /// that touched it; the turn passes to the other player.
    pub open spec fn cut(self, e: int) -> Board {
        let rest = self.edges.remove(e);
        Board {
            nodes: self.nodes.filter(|n: int| reachable(rest, n)),
            edges: rest.restrict(Set::new(|k: int| reachable(rest, rest[k].0))),
            turn: self.turn.inverted(),
        }
    }
}

/// The ground is connected to itself.
pub proof fn lemma_ground_reachable(edges: Map<int, Link>)
    ensures
        reachable(edges, GROUND as int),
{
    let path = seq![GROUND as int];
    assert(walk(edges, path));
    assert(path.last() == GROUND);
}

/// A node joined by an edge to a connected node is connected.
pub proof fn lemma_reachable_step(edges: Map<int, Link>, a: int, b: int)
    requires
        reachable(edges, a),
        adjacent(edges, a, b),
    ensures
        reachable(edges, b),
{
    let path = choose|path: Seq<int>| #[trigger] walk(edges, path) && path.last() == a;
    let longer = path.push(b);
    assert forall|i: int| 0 <= i < longer.len() - 1 implies #[trigger] hop(edges, longer, i) by {
        if i < path.len() - 1 {
            assert(hop(edges, path, i));
        }
    }
    assert(walk(edges, longer));
    assert(longer.last() == b);
}

/// Every place of a walk lies in a swept set.
pub proof fn lemma_walk_stays(edges: Map<int, Link>, s: Set<int>, path: Seq<int>, i: int)
    requires
        swept(edges, s),
        walk(edges, path),
        0 <= i < path.len(),
    ensures
        s.contains(path[i]),
    decreases i,
{
    if i > 0 {
        lemma_walk_stays(edges, s, path, i - 1);
        assert(hop(edges, path, i - 1));
    }
}

/// A swept set contains every connected node.
pub proof fn lemma_swept_covers(edges: Map<int, Link>, s: Set<int>, n: int)
    requires
        swept(edges, s),
        reachable(edges, n),
    ensures
        s.contains(n),
{
    let path = choose|path: Seq<int>| #[trigger] walk(edges, path) && path.last() == n;
    lemma_walk_stays(edges, s, path, path.len() - 1);
}

/// A walk over some edges is a walk over more edges.
pub proof fn lemma_reachable_grows(fewer: Map<int, Link>, more: Map<int, Link>, n: int)
    requires
        fewer.submap_of(more),
        reachable(fewer, n),
    ensures
        reachable(more, n),
{
    let path = choose|path: Seq<int>| #[trigger] walk(fewer, path) && path.last() == n;
    assert forall|i: int| 0 <= i < path.len() - 1 implies #[trigger] hop(more, path, i) by {
        assert(hop(fewer, path, i));
        let e = choose|e: int|
            fewer.dom().contains(e) && joins(#[trigger] fewer[e], path[i], path[i + 1]);
        assert(fewer.dom().contains(e));
        assert(joins(fewer[e], path[i], path[i + 1]));
        assert(more.dom().contains(e));
        assert(more[e] == fewer[e]);
        assert(joins(more[e], path[i], path[i + 1]));
    }
    assert(walk(more, path));
}

/// The nodes connected to the ground stay connected when only the edges
/// between connected nodes are kept.
pub proof fn lemma_reachable_within(rest: Map<int, Link>, n: int)
    requires
        reachable(rest, n),
    ensures
        reachable(rest.restrict(Set::new(|k: int| reachable(rest, rest[k].0))), n),
{
    let kept = rest.restrict(Set::new(|k: int| reachable(rest, rest[k].0)));
    let path = choose|path: Seq<int>| #[trigger] walk(rest, path) && path.last() == n;
    assert forall|i: int| 0 <= i < path.len() - 1 implies #[trigger] hop(kept, path, i) by {
        assert(hop(rest, path, i));
        lemma_prefix_reachable(rest, path, i);
        lemma_prefix_reachable(rest, path, i + 1);
        let e = choose|e: int|
            rest.dom().contains(e) && joins(#[trigger] rest[e], path[i], path[i + 1]);
        assert(kept.dom().contains(e) && joins(kept[e], path[i], path[i + 1]));
    }
    assert(walk(kept, path));
}

/// Every place of a walk is connected to the ground.
pub proof fn lemma_prefix_reachable(edges: Map<int, Link>, path: Seq<int>, i: int)
    requires
        walk(edges, path),
        0 <= i < path.len(),
    ensures
        reachable(edges, path[i]),
{
    let prefix = path.subrange(0, i + 1);
    assert forall|j: int| 0 <= j < prefix.len() - 1 implies #[trigger] hop(edges, prefix, j) by {
        assert(hop(edges, path, j));
    }
    assert(walk(edges, prefix));
    assert(prefix.last() == path[i]);
}

/// Cutting an edge of a valid position leaves a valid position with fewer
/// edges.
pub proof fn lemma_cut_valid(b: Board, e: int)
    requires
        b.valid(),
        b.edges.dom().contains(e),
    ensures
        b.cut(e).valid(),
        b.cut(e).nodes.subset_of(b.nodes),
        b.cut(e).edges.submap_of(b.edges.remove(e)),
        b.cut(e).edges.dom().len() < b.edges.dom().len(),
{
    let rest = b.edges.remove(e);
    let after = b.cut(e);
    lemma_ground_reachable(rest);
    assert forall|n: int| after.nodes.contains(n) implies reachable(after.edges, n) by {
        lemma_reachable_within(rest, n);
    }
    assert forall|k: int| after.edges.dom().contains(k) implies after.nodes.contains(
        (#[trigger] after.edges[k]).0,
    ) && after.nodes.contains(after.edges[k].1) by {
        assert(b.nodes.contains(b.edges[k].0) && b.nodes.contains(b.edges[k].1));
        assert(joins(rest[k], rest[k].0, rest[k].1));
        assert(adjacent(rest, rest[k].0, rest[k].1));
        lemma_reachable_step(rest, rest[k].0, rest[k].1);
    }
    assert(after.edges.dom().subset_of(rest.dom()));
    vstd::set_lib::lemma_len_subset(after.edges.dom(), rest.dom());
    vstd::set_lib::lemma_len_subset(after.nodes, b.nodes);
}

/// A new edge from a node `node`, new or not, to a node `other` of a valid
/// position leaves the position valid.
pub proof fn lemma_join_valid(b: Board, node: int, other: int, e: int, color: Color)
    requires
        b.valid(),
        b.nodes.contains(other),
        !b.edges.dom().contains(e),
        0 <= node <= u32::MAX,
        0 <= e <= u32::MAX,
    ensures
        (Board {
            nodes: b.nodes.insert(node),
            edges: b.edges.insert(e, (node, other, color)),
            turn: b.turn,
        }).valid(),
{
    let after = Board {
        nodes: b.nodes.insert(node),
        edges: b.edges.insert(e, (node, other, color)),
        turn: b.turn,
    };
    assert(b.edges.submap_of(after.edges));
    assert forall|n: int| after.nodes.contains(n) implies reachable(after.edges, n) by {
        lemma_reachable_grows(b.edges, after.edges, other);
        if b.nodes.contains(n) {
            lemma_reachable_grows(b.edges, after.edges, n);
        } else {
            assert(after.edges.dom().contains(e) && joins(after.edges[e], other, node));
            assert(adjacent(after.edges, other, node));
            lemma_reachable_step(after.edges, other, node);
        }
    }
    assert forall|k: int| after.edges.dom().contains(k) implies after.nodes.contains(
        (#[trigger] after.edges[k]).0,
    ) && after.nodes.contains(after.edges[k].1) by {
        if k != e {
            assert(b.nodes.contains(b.edges[k].0) && b.nodes.contains(b.edges[k].1));
        }
    }
}

/// A new node on a new edge from a node of a valid position leaves the
/// position valid.
pub proof fn lemma_branch_valid(b: Board, target: int, node: int, e: int)
    requires
        b.valid(),
        b.nodes.contains(target),
        !b.nodes.contains(node),
        !b.edges.dom().contains(e),
        0 <= node <= u32::MAX,
        0 <= e <= u32::MAX,
    ensures
        b.branch(target, node, e).valid(),
{
    let after = b.branch(target, node, e);
    assert(b.edges.submap_of(after.edges));
    assert forall|n: int| after.nodes.contains(n) implies reachable(after.edges, n) by {
        lemma_reachable_grows(b.edges, after.edges, target);
        if n == node {
            assert(after.edges.dom().contains(e) && joins(after.edges[e], target, node));
            assert(adjacent(after.edges, target, node));
            lemma_reachable_step(after.edges, target, node);
        } else {
            lemma_reachable_grows(b.edges, after.edges, n);
        }
    }
    assert forall|k: int| after.edges.dom().contains(k) implies after.nodes.contains(
        (#[trigger] after.edges[k]).0,
    ) && after.nodes.contains(after.edges[k].1) by {
        if k != e {
            assert(b.nodes.contains(b.edges[k].0) && b.nodes.contains(b.edges[k].1));
        }
    }
}

} // verus!

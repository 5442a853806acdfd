//! How two cuts of one position stand to each other: they commute, a cut of
//! an edge that an earlier cut has swept away changes nothing, and of two
//! edges of a valid position at least one survives the cut of the other.
use crate::board::{
    hop, lemma_cut_valid, lemma_ground_reachable, lemma_prefix_reachable, lemma_reachable_grows,
    lemma_reachable_step, reachable, walk, Board,
};
use crate::graph::{adjacent, joins, Link};
use vstd::prelude::*;

verus! {

/// The edges of `b` without `e` and `f`.
pub open spec fn without(b: Board, e: int, f: int) -> Map<int, Link> {
    b.edges.remove(e).remove(f)
}

/// Both ends of an edge are connected to the ground, or neither is.
pub proof fn lemma_ends_agree(rest: Map<int, Link>, k: int)
    requires
        rest.dom().contains(k),
    ensures
        reachable(rest, rest[k].0) == reachable(rest, rest[k].1),
{
    assert(joins(rest[k], rest[k].0, rest[k].1));
    assert(joins(rest[k], rest[k].1, rest[k].0));
    if reachable(rest, rest[k].0) {
        assert(adjacent(rest, rest[k].0, rest[k].1));
        lemma_reachable_step(rest, rest[k].0, rest[k].1);
    }
    if reachable(rest, rest[k].1) {
        assert(adjacent(rest, rest[k].1, rest[k].0));
        lemma_reachable_step(rest, rest[k].1, rest[k].0);
    }
}

/// After the cut of `e`, the nodes that stay connected without `f` are
/// those that are connected in `b` without `e` and `f`.
pub proof fn lemma_reachable_after_two(b: Board, e: int, f: int, n: int)
    ensures
        reachable(b.cut(e).edges.remove(f), n) <==> reachable(without(b, e, f), n),
{
    let rest = b.edges.remove(e);
    let kept = b.cut(e).edges.remove(f);
    let both = without(b, e, f);
    assert(kept.submap_of(both));
    assert(both.submap_of(rest));
    if reachable(kept, n) {
        lemma_reachable_grows(kept, both, n);
    }
    if reachable(both, n) {
        let path = choose|path: Seq<int>| #[trigger] walk(both, path) && path.last() == n;
        assert forall|i: int| 0 <= i < path.len() - 1 implies #[trigger] hop(kept, path, i) by {
            assert(hop(both, path, i));
            lemma_prefix_reachable(both, path, i);
            lemma_prefix_reachable(both, path, i + 1);
            lemma_reachable_grows(both, rest, path[i]);
            lemma_reachable_grows(both, rest, path[i + 1]);
            let k = choose|k: int|
                both.dom().contains(k) && joins(#[trigger] both[k], path[i], path[i + 1]);
            assert(rest.dom().contains(k) && rest[k] == both[k]);
            assert(kept.dom().contains(k) && joins(kept[k], path[i], path[i + 1]));
        }
        assert(walk(kept, path));
    }
}

/// What two cuts leave, in terms of the position they started from.
pub proof fn lemma_two_cuts(b: Board, e: int, f: int)
    ensures
        b.cut(e).cut(f).nodes =~= b.nodes.filter(|n: int| reachable(without(b, e, f), n)),
        b.cut(e).cut(f).edges =~= without(b, e, f).restrict(
            Set::new(|k: int| reachable(without(b, e, f), without(b, e, f)[k].0)),
        ),
        b.cut(e).cut(f).turn == b.turn,
{
    let rest = b.edges.remove(e);
    let first = b.cut(e);
    let kept = first.edges.remove(f);
    let both = without(b, e, f);
    let after = first.cut(f);
    assert(both.submap_of(rest));
    assert forall|n: int|
        after.nodes.contains(n) <==> b.nodes.contains(n) && reachable(both, n) by {
        lemma_reachable_after_two(b, e, f, n);
        if reachable(both, n) {
            lemma_reachable_grows(both, rest, n);
        }
    }
    assert forall|k: int|
        after.edges.dom().contains(k) <==> both.dom().contains(k) && reachable(
            both,
            both[k].0,
        ) by {
        if both.dom().contains(k) {
            assert(rest.dom().contains(k) && rest[k] == both[k]);
            lemma_reachable_after_two(b, e, f, both[k].0);
            if reachable(both, both[k].0) {
                lemma_reachable_grows(both, rest, both[k].0);
                assert(first.edges.dom().contains(k));
                assert(kept.dom().contains(k) && kept[k] == both[k]);
            }
            if after.edges.dom().contains(k) {
                assert(kept.dom().contains(k) && kept[k] == both[k]);
            }
        }
    }
    assert forall|k: int| after.edges.dom().contains(k) implies after.edges[k] == both[k] by {
        assert(kept.dom().contains(k));
    }
}

/// Two cuts commute.
pub proof fn lemma_cuts_commute(b: Board, e: int, f: int)
    ensures
        b.cut(e).cut(f) == b.cut(f).cut(e),
{
    lemma_two_cuts(b, e, f);
    lemma_two_cuts(b, f, e);
    assert(without(b, e, f) =~= without(b, f, e));
    assert(b.cut(e).cut(f).nodes =~= b.cut(f).cut(e).nodes);
    assert(b.cut(e).cut(f).edges =~= b.cut(f).cut(e).edges);
}

/// The cut of an edge that an earlier cut has swept away leaves the nodes
/// and the edges as they are.
pub proof fn lemma_cut_absent(b: Board, e: int, f: int)
    requires
        b.valid(),
        b.edges.dom().contains(e),
        !b.cut(e).edges.dom().contains(f),
    ensures
        b.cut(e).cut(f).nodes == b.cut(e).nodes,
        b.cut(e).cut(f).edges == b.cut(e).edges,
{
    lemma_cut_valid(b, e);
    let first = b.cut(e);
    assert(first.edges.remove(f) =~= first.edges);
    assert(first.cut(f).nodes =~= first.nodes);
    assert(first.cut(f).edges =~= first.edges) by {
        assert forall|k: int| first.edges.dom().contains(k) implies reachable(
            first.edges,
            first.edges[k].0,
        ) by {
            assert(first.nodes.contains(first.edges[k].0));
        }
    }
}

/// The first step of a walk that leaves the set `s`, given that the walk
/// starts inside `s` and its place `j` lies outside.
pub proof fn lemma_first_exit(s: Set<int>, path: Seq<int>, j: int) -> (i: int)
    requires
        0 <= j < path.len(),
        s.contains(path[0]),
        !s.contains(path[j]),
    ensures
        0 <= i < j,
        s.contains(path[i]),
        !s.contains(path[i + 1]),
    decreases j,
{
    if s.contains(path[j - 1]) {
        j - 1
    } else {
        lemma_first_exit(s, path, j - 1)
    }
}

/// Of two edges of a valid position, at least one survives the cut of the
/// other.
pub proof fn lemma_one_survives(b: Board, e: int, f: int)
    requires
        b.valid(),
        b.edges.dom().contains(e),
        b.edges.dom().contains(f),
        e != f,
    ensures
        b.cut(e).edges.dom().contains(f) || b.cut(f).edges.dom().contains(e),
{
    let all = b.edges;
    let rest_e = all.remove(e);
    let rest_f = all.remove(f);
    let both = without(b, e, f);
    if !b.cut(e).edges.dom().contains(f) {
        let u = all[f].0;
        assert(rest_e.dom().contains(f) && rest_e[f] == all[f]);
        assert(!reachable(rest_e, u));
        assert(b.nodes.contains(u));
        let path = choose|path: Seq<int>| #[trigger] walk(all, path) && path.last() == u;
        let s = Set::new(|n: int| reachable(both, n));
        lemma_ground_reachable(both);
        assert(both.submap_of(rest_e));
        assert(both.submap_of(rest_f));
        if s.contains(u) {
            lemma_reachable_grows(both, rest_e, u);
        }
        let i = lemma_first_exit(s, path, path.len() - 1);
        assert(hop(all, path, i));
        let k = choose|k: int|
            all.dom().contains(k) && joins(#[trigger] all[k], path[i], path[i + 1]);
        if both.dom().contains(k) {
            assert(both[k] == all[k]);
            assert(adjacent(both, path[i], path[i + 1]));
            lemma_reachable_step(both, path[i], path[i + 1]);
        }
        if k == f {
            lemma_reachable_grows(both, rest_e, path[i]);
            lemma_ends_agree(rest_e, f);
        } else {
            assert(k == e);
            lemma_reachable_grows(both, rest_f, path[i]);
            assert(rest_f.dom().contains(e) && rest_f[e] == all[e]);
            lemma_ends_agree(rest_f, e);
        }
    }
}

} // verus!

//! Proof that a generation keeps the table well formed, and what a well
//! formed table owes its users: a strict total order on identities that never
//! changes once two identities exist.
use crate::arena::{fresh, Arena};
use crate::order::{
    all_numeric, extends, grounded, lemma_between_operands, lemma_le_stable, lemma_lt_transitive,
    numeric,
};
use vstd::prelude::*;

verus! {

/// The neighbours at positions `p` and `p + 1` of the frontier are in strict
/// order.
pub open spec fn step_sorted(a: Arena, p: int) -> bool {
    a.id_lt(a.line[p], a.line[p + 1])
}

/// A generation appends to the table and leaves operands acyclic.
pub proof fn lemma_grow_shape(a: Arena)
    requires
        a.wf(),
    ensures
        extends(a.grow().entries, a.entries),
        grounded(a.grow().entries),
        a.grow().entries.len() == 2 * a.entries.len() + 1,
        a.grow().line.len() == 2 * a.entries.len() + 1,
        a.grow().day == a.day + 1,
        forall|p: int| 0 <= p < a.grow().line.len() ==> a.grow().has(#[trigger] a.grow().line[p]),
{
    let t = a.entries;
    let g = a.grow();
    let u = g.entries;
    let k = a.line.len() as int;
    assert forall|i: int| 0 <= i < u.len() implies (#[trigger] u[i]).fits(i) by {
        if i < t.len() {
            assert(t[i].fits(i));
        } else {
            let j = i - t.len();
            assert(u[i] == fresh(a.line)[j]);
            if j < k - 1 {
                assert(a.has(a.line[j]));
                assert(a.has(a.line[j + 1]));
            } else if j == k - 1 {
                assert(a.has(a.line[j]));
            } else {
                assert(a.has(a.line[0]));
            }
        }
    }
    assert forall|p: int| 0 <= p < g.line.len() implies g.has(#[trigger] g.line[p]) by {
        if p != 0 && p % 2 == 1 {
            assert(a.has(a.line[(p - 1) / 2]));
        }
    }
}

/// Comparisons between values that existed before a generation are the same
/// after it.
pub proof fn lemma_grow_keeps_order(a: Arena, i: int, j: int)
    requires
        a.wf(),
        a.has(i),
        a.has(j),
    ensures
        a.grow().id_le(i, j) == a.id_le(i, j),
        a.grow().id_lt(i, j) == a.id_lt(i, j),
{
    lemma_grow_shape(a);
    let t = a.entries;
    let u = a.grow().entries;
    assert(t[i].fits(i));
    assert(t[j].fits(j));
    lemma_le_stable(t, u, t[i], t[j]);
    lemma_le_stable(t, u, t[j], t[i]);
}

/// After a generation every stored form is numeric.
pub proof fn lemma_grow_numeric(a: Arena)
    requires
        a.wf(),
    ensures
        all_numeric(a.grow().entries),
{
    lemma_grow_shape(a);
    let t = a.entries;
    let g = a.grow();
    let u = g.entries;
    let k = a.line.len() as int;
    assert forall|i: int| 0 <= i < u.len() implies numeric(u, #[trigger] u[i]) by {
        let x = u[i];
        if x.left is Some && x.right is Some {
            let l = x.left->0;
            let r = x.right->0;
            if i < t.len() {
                assert(t[i].fits(i));
                assert(numeric(t, t[i]));
                lemma_grow_keeps_order(a, l, r);
                lemma_grow_keeps_order(a, r, l);
            } else {
                let j = i - t.len();
                assert(x == fresh(a.line)[j]);
                assert(j < k - 1);
                assert(a.has(a.line[j]));
                assert(a.has(a.line[j + 1]));
                assert(a.id_lt(a.line[j], a.line[j + 1]));
                lemma_grow_keeps_order(a, l, r);
                lemma_grow_keeps_order(a, r, l);
            }
        }
    }
}

/// After a generation, neighbours on the frontier are in strict order.
pub proof fn lemma_grow_step(a: Arena, p: int)
    requires
        a.wf(),
        0 <= p < 2 * a.line.len(),
    ensures
        step_sorted(a.grow(), p),
{
    lemma_grow_shape(a);
    lemma_grow_numeric(a);
    let g = a.grow();
    let u = g.entries;
    let n = a.entries.len() as int;
    let k = a.line.len() as int;
    if p == 0 {
        let x = u[n + k];
        assert(x == fresh(a.line)[k]);
        lemma_between_operands(u, x);
    } else if p % 2 == 1 {
        let j = (p - 1) / 2;
        let x = u[n + j];
        assert(x == fresh(a.line)[j]);
        assert(g.line[p] == a.line[j]);
        assert(g.line[p + 1] == n + j);
        lemma_between_operands(u, x);
    } else {
        let j = (p - 2) / 2;
        let x = u[n + j];
        assert(x == fresh(a.line)[j]);
        assert(g.line[p] == n + j);
        assert(g.line[p + 1] == a.line[j + 1]);
        lemma_between_operands(u, x);
    }
}

/// A frontier whose neighbours are in strict order is strictly increasing.
pub proof fn lemma_steps_sorted(a: Arena, p: int, q: int)
    requires
        grounded(a.entries),
        forall|i: int| 0 <= i < a.line.len() ==> a.has(#[trigger] a.line[i]),
        forall|i: int| 0 <= i < a.line.len() - 1 ==> #[trigger] step_sorted(a, i),
        0 <= p < q < a.line.len(),
    ensures
        a.id_lt(a.line[p], a.line[q]),
    decreases q - p,
{
    assert(step_sorted(a, q - 1));
    if p < q - 1 {
        lemma_steps_sorted(a, p, q - 1);
        let t = a.entries;
        let x = a.line[p];
        let y = a.line[q - 1];
        let z = a.line[q];
        assert(a.has(x) && a.has(y) && a.has(z));
        assert(t[x].fits(x) && t[y].fits(y) && t[z].fits(z));
        lemma_lt_transitive(t, t[x], t[y], t[z]);
    }
}

/// A generation keeps the table well formed.
pub proof fn lemma_grow_wf(a: Arena)
    requires
        a.wf(),
    ensures
        a.grow().wf(),
        extends(a.grow().entries, a.entries),
{
    lemma_grow_shape(a);
    lemma_grow_numeric(a);
    let g = a.grow();
    let n = a.entries.len() as int;
    let k = a.line.len() as int;
    assert(g.canonical()) by {
        reveal(Arena::canonical);
        assert(Arena::seed().grown(g.day) == Arena::seed().grown(a.day).grow());
    }
    assert forall|i: int| 0 <= i < g.line.len() - 1 implies #[trigger] step_sorted(g, i) by {
        lemma_grow_step(a, i);
    }
    assert forall|p: int, q: int| 0 <= p < q < g.line.len() implies g.id_lt(
        #[trigger] g.line[p],
        #[trigger] g.line[q],
    ) by {
        lemma_steps_sorted(g, p, q);
    }
    assert forall|i: int| g.has(i) implies #[trigger] g.on_line(i) by {
        if i < n {
            assert(a.on_line(i));
            let p = choose|p: int| #[trigger] a.at(p, i);
            assert(g.at(2 * p + 1, i));
        } else if i < n + k {
            assert(g.at(2 * (i - n) + 2, i));
        } else {
            assert(g.at(0, i));
        }
    }
}

} // verus!

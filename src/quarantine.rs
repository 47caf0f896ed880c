//! Finding cycles and making them, with the cells around them, faulty.

use vstd::prelude::*;
use crate::cell::{Category, Cell};
use crate::graph::{graph_edges, graph_neighbors, graph_nodes, graph_remove_edge, graph_toposort, on_cycle};
use crate::propagation::{is_faulty, lemma_ranked_acyclic};
use crate::spreadsheet::{covers, SpreadSheet};

verus! {

/// Number of formula cells in `s`.
pub open spec fn occur_count(s: Seq<Cell>) -> nat
    decreases s.len(),
{
    if s.len() == 0 {
        0
    } else {
        occur_count(s.drop_last()) + if s.last().category is OccurCell { 1nat } else { 0nat }
    }
}

proof fn lemma_occur_count_update(s: Seq<Cell>, i: int, c: Cell)
    requires
        0 <= i < s.len(),
        !(c.category is OccurCell),
    ensures
        occur_count(s.update(i, c)) + (if s[i].category is OccurCell { 1nat } else { 0nat }) == occur_count(s),
    decreases s.len(),
{
    if i < s.len() - 1 {
        assert(s.update(i, c).drop_last() =~= s.drop_last().update(i, c));
        lemma_occur_count_update(s.drop_last(), i, c);
    } else {
        assert(s.update(i, c).drop_last() =~= s.drop_last());
    }
}

/// Number of `false` entries in `s`.
pub open spec fn count_false(s: Seq<bool>) -> nat
    decreases s.len(),
{
    if s.len() == 0 {
        0
    } else {
        count_false(s.drop_last()) + if s.last() { 0nat } else { 1nat }
    }
}

proof fn lemma_count_false_set(s: Seq<bool>, i: int)
    requires
        0 <= i < s.len(),
        !s[i],
    ensures
        count_false(s.update(i, true)) + 1 == count_false(s),
    decreases s.len(),
{
    if i < s.len() - 1 {
        assert(s.update(i, true).drop_last() =~= s.drop_last().update(i, true));
        lemma_count_false_set(s.drop_last(), i);
    } else {
        assert(s.update(i, true).drop_last() =~= s.drop_last());
    }
}

proof fn lemma_count_false_all(n: nat)
    ensures
        count_false(Seq::new(n, |i: int| false)) == n,
    decreases n,
{
    if n > 0 {
        assert(Seq::new(n, |i: int| false).drop_last() =~= Seq::new((n - 1) as nat, |i: int| false));
        lemma_count_false_all((n - 1) as nat);
    }
}

proof fn lemma_take_contains(s: Seq<u32>, k: int)
    requires
        0 <= k < s.len(),
    ensures
        forall|v: u32| #[trigger] s.take(k + 1).contains(v) <==> (s.take(k).contains(v) || v == s[k]),
{
    assert forall|v: u32| #[trigger] s.take(k + 1).contains(v) <==> (s.take(k).contains(v) || v == s[k]) by {
        if s.take(k + 1).contains(v) {
            let j = choose|j: int| 0 <= j < k + 1 && #[trigger] s.take(k + 1)[j] == v;
            if j < k {
                assert(s.take(k)[j] == v);
            }
        }
        if s.take(k).contains(v) {
            let j = choose|j: int| 0 <= j < k && #[trigger] s.take(k)[j] == v;
            assert(s.take(k + 1)[j] == v);
        }
        if v == s[k] {
            assert(s.take(k + 1)[k] == v);
        }
    }
}

/// Whether `c` is a constant cell.
pub open spec fn is_static(c: Cell) -> bool {
    c.category is StaticCell
}

/// Edge between `x` and `y` in either direction.
pub open spec fn adjacent(edges: Set<(u32, u32)>, x: u32, y: u32) -> bool {
    edges.contains((x, y)) || edges.contains((y, x))
}

impl SpreadSheet {
    /// Removes every edge leaving `x`.
    pub(crate) fn remove_out_edges(&mut self, x: u32)
        ensures
            final(self).cells == old(self).cells,
            final(self).evals == old(self).evals,
            final(self).changes == old(self).changes,
            final(self).order == old(self).order,
            final(self).rank == old(self).rank,
            final(self).rows == old(self).rows,
            final(self).cols == old(self).cols,
            graph_nodes(final(self).graph) == graph_nodes(old(self).graph),
            forall|a: u32, b: u32| #[trigger] graph_edges(final(self).graph).contains((a, b)) <==> (
                graph_edges(old(self).graph).contains((a, b)) && a != x),
    {
        let out = graph_neighbors(&self.graph, x, false);
        let ghost g0 = graph_edges(self.graph);
        let mut k: usize = 0;
        while k < out.len()
            invariant
                k <= out@.len(),
                self.cells == old(self).cells,
                self.evals == old(self).evals,
                self.changes == old(self).changes,
                self.order == old(self).order,
                self.rank == old(self).rank,
                self.rows == old(self).rows,
                self.cols == old(self).cols,
                g0 == graph_edges(old(self).graph),
                forall|y: u32| out@.contains(y) <==> g0.contains((x, y)),
                graph_nodes(self.graph) == graph_nodes(old(self).graph),
                forall|a: u32, b: u32| #[trigger] graph_edges(self.graph).contains((a, b)) <==> (
                    g0.contains((a, b)) && !(a == x && out@.take(k as int).contains(b))),
            decreases out@.len() - k,
        {
            let y = out[k];
            graph_remove_edge(&mut self.graph, x, y);
            proof {
                lemma_take_contains(out@, k as int);
            }
            k = k + 1;
        }
        proof {
            assert(out@.take(k as int) =~= out@);
        }
    }

    /// Makes the cell at `x` faulty: it leaves the pending set and loses its
    /// outgoing edges.
    pub(crate) fn make_faulty(&mut self, x: u32)
        requires
            old(self).linked(),
            x < old(self).n(),
        ensures
            final(self).linked(),
            old(self).ranked() ==> final(self).ranked(),
            final(self).cells@ == old(self).cells@.update(
                x as int,
                Cell { category: Category::FaultyCell, ..old(self).cells@[x as int] },
            ),
            final(self).evals@ == old(self).evals@.update(x as int, false),
            final(self).changes == old(self).changes,
            final(self).order == old(self).order,
            final(self).rank == old(self).rank,
            final(self).rows == old(self).rows,
            final(self).cols == old(self).cols,
            forall|a: u32, b: u32| #[trigger] graph_edges(final(self).graph).contains((a, b)) <==>
                (graph_edges(old(self).graph).contains((a, b)) && a != x),
    {
        let mut cell = self.cells[x as usize];
        cell.set_category(Category::FaultyCell);
        self.cells.set(x as usize, cell);
        self.evals.set(x as usize, false);
        self.remove_out_edges(x);
        proof {
            assert forall|a: u32, b: u32|
                #[trigger] graph_edges(self.graph).contains((a, b)) <==> (a < self.n() && b < self.n()
                    && covers(self.cells@[a as int], self.cells@[b as int])) by {
                if b < self.n() {
                    assert(self.cells@[b as int].coordinates == old(self).cells@[b as int].coordinates);
                }
            }
        }
    }

    /// Makes every listed cell faulty (see `make_faulty`).
    pub fn update_cells(&mut self, cycle_cells: Vec<u32>)
        requires
            old(self).linked(),
            forall|k: int| 0 <= k < cycle_cells@.len() ==> #[trigger] cycle_cells@[k] < old(self).n(),
        ensures
            final(self).linked(),
            old(self).ranked() ==> final(self).ranked(),
            final(self).cells@.len() == old(self).cells@.len(),
            forall|i: int| 0 <= i < old(self).n() ==> #[trigger] final(self).cells@[i] == if cycle_cells@.contains(i as u32) {
                Cell { category: Category::FaultyCell, ..old(self).cells@[i] }
            } else {
                old(self).cells@[i]
            },
            forall|i: int| 0 <= i < old(self).n() ==> #[trigger] final(self).evals@[i] == (old(self).evals@[i]
                && !cycle_cells@.contains(i as u32)),
            final(self).changes == old(self).changes,
            final(self).order == old(self).order,
            final(self).rank == old(self).rank,
            final(self).rows == old(self).rows,
            final(self).cols == old(self).cols,
            occur_count(final(self).cells@) <= occur_count(old(self).cells@),
            forall|k: int| 0 <= k < cycle_cells@.len() && (old(self).cells@[cycle_cells@[k] as int].category is OccurCell)
                ==> occur_count(final(self).cells@) < occur_count(old(self).cells@),
            forall|k: (u32, u32)| graph_edges(final(self).graph).contains(k) ==> graph_edges(old(self).graph).contains(k),
            forall|k: (u32, u32)| graph_edges(old(self).graph).contains(k) && !cycle_cells@.contains(k.0)
                ==> graph_edges(final(self).graph).contains(k),
    {
        let mut k: usize = 0;
        while k < cycle_cells.len()
            invariant
                self.linked(),
                old(self).ranked() ==> self.ranked(),
                k <= cycle_cells@.len(),
                self.cells@.len() == old(self).cells@.len(),
                old(self).evals@.len() == old(self).n(),
                forall|j: int| 0 <= j < cycle_cells@.len() ==> #[trigger] cycle_cells@[j] < old(self).n(),
                forall|i: int| 0 <= i < old(self).n() ==> #[trigger] self.cells@[i] == if cycle_cells@.take(k as int).contains(i as u32) {
                    Cell { category: Category::FaultyCell, ..old(self).cells@[i] }
                } else {
                    old(self).cells@[i]
                },
                forall|i: int| 0 <= i < old(self).n() ==> #[trigger] self.evals@[i] == (old(self).evals@[i]
                    && !cycle_cells@.take(k as int).contains(i as u32)),
                self.changes == old(self).changes,
                self.order == old(self).order,
                self.rank == old(self).rank,
                self.rows == old(self).rows,
                self.cols == old(self).cols,
                occur_count(self.cells@) <= occur_count(old(self).cells@),
                forall|j: int| 0 <= j < k && (old(self).cells@[cycle_cells@[j] as int].category is OccurCell)
                    ==> occur_count(self.cells@) < occur_count(old(self).cells@),
                forall|e: (u32, u32)| graph_edges(self.graph).contains(e) ==> graph_edges(old(self).graph).contains(e),
                forall|e: (u32, u32)| graph_edges(old(self).graph).contains(e) && !cycle_cells@.take(k as int).contains(e.0)
                    ==> graph_edges(self.graph).contains(e),
            decreases cycle_cells@.len() - k,
        {
            let x = cycle_cells[k];
            let ghost before = self.cells@;
            let ghost before_edges = graph_edges(self.graph);
            self.make_faulty(x);
            proof {
                assert forall|e: (u32, u32)| graph_edges(self.graph).contains(e) implies graph_edges(old(self).graph).contains(e) by {
                    assert(e == (e.0, e.1));
                    assert(before_edges.contains(e));
                }
                lemma_take_contains(cycle_cells@, k as int);
                assert forall|e: (u32, u32)| graph_edges(old(self).graph).contains(e) && !cycle_cells@.take(k + 1).contains(e.0)
                    implies graph_edges(self.graph).contains(e) by {
                    assert(e == (e.0, e.1));
                    assert(before_edges.contains(e));
                }
                lemma_occur_count_update(before, x as int, Cell { category: Category::FaultyCell, ..before[x as int] });
                lemma_take_contains(cycle_cells@, k as int);
                if old(self).cells@[x as int].category is OccurCell && cycle_cells@.take(k as int).contains(x) {
                    let j = choose|j: int| 0 <= j < k && #[trigger] cycle_cells@.take(k as int)[j] == x;
                    assert(cycle_cells@[j] == x);
                }
            }
            k = k + 1;
        }
        proof {
            assert(cycle_cells@.take(k as int) =~= cycle_cells@);
        }
    }
}

/// A walk from `start` to `y` over edges taken in either direction, through
/// non-constant cells only.
pub open spec fn walk_to(edges: Set<(u32, u32)>, cells: Seq<Cell>, start: u32, y: u32) -> bool {
    exists|p: Seq<u32>| #![trigger p.len(), p.last()]
        p.len() >= 1 && p[0] == start && p.last() == y
        && (forall|i: int| 0 <= i < p.len() ==> (#[trigger] p[i] as int) < cells.len() && !is_static(cells[p[i] as int]))
        && (forall|i: int| 0 <= i < p.len() - 1 ==> adjacent(edges, #[trigger] p[i], p[i + 1]))
}

proof fn lemma_walk_extend(edges: Set<(u32, u32)>, cells: Seq<Cell>, start: u32, x: u32, y: u32)
    requires
        walk_to(edges, cells, start, x),
        adjacent(edges, x, y),
        (y as int) < cells.len(),
        !is_static(cells[y as int]),
    ensures
        walk_to(edges, cells, start, y),
{
    let p = choose|p: Seq<u32>| #![trigger p.len(), p.last()]
        p.len() >= 1 && p[0] == start && p.last() == x
        && (forall|i: int| 0 <= i < p.len() ==> (#[trigger] p[i] as int) < cells.len() && !is_static(cells[p[i] as int]))
        && (forall|i: int| 0 <= i < p.len() - 1 ==> adjacent(edges, #[trigger] p[i], p[i + 1]));
    let q = p.push(y);
    assert(q.len() >= 1 && q[0] == start && q.last() == y);
    assert forall|i: int| 0 <= i < q.len() implies (#[trigger] q[i] as int) < cells.len() && !is_static(cells[q[i] as int]) by {
        if i < p.len() {
            assert(q[i] == p[i]);
        }
    }
    assert forall|i: int| 0 <= i < q.len() - 1 implies adjacent(edges, #[trigger] q[i], q[i + 1]) by {
        if i < p.len() - 1 {
            assert(q[i] == p[i] && q[i + 1] == p[i + 1]);
        } else {
            assert(q[i] == x);
        }
    }
}

/// A walk in a graph stays a walk in any graph with more edges, over cells
/// that are constant at the same places.
proof fn lemma_walk_widen(e1: Set<(u32, u32)>, c1: Seq<Cell>, e0: Set<(u32, u32)>, c0: Seq<Cell>, start: u32, y: u32)
    requires
        walk_to(e1, c1, start, y),
        forall|k: (u32, u32)| e1.contains(k) ==> e0.contains(k),
        c1.len() == c0.len(),
        forall|i: int| 0 <= i < c0.len() ==> is_static(#[trigger] c1[i]) == is_static(c0[i]),
    ensures
        walk_to(e0, c0, start, y),
{
    let p = choose|p: Seq<u32>| #![trigger p.len(), p.last()]
        p.len() >= 1 && p[0] == start && p.last() == y
        && (forall|i: int| 0 <= i < p.len() ==> (#[trigger] p[i] as int) < c1.len() && !is_static(c1[p[i] as int]))
        && (forall|i: int| 0 <= i < p.len() - 1 ==> adjacent(e1, #[trigger] p[i], p[i + 1]));
    assert forall|i: int| 0 <= i < p.len() implies (#[trigger] p[i] as int) < c0.len() && !is_static(c0[p[i] as int]) by {
        assert(!is_static(c1[p[i] as int]));
    }
    assert forall|i: int| 0 <= i < p.len() - 1 implies adjacent(e0, #[trigger] p[i], p[i + 1]) by {
        assert(adjacent(e1, p[i], p[i + 1]));
    }
}

proof fn lemma_cycle_widen(e1: Set<(u32, u32)>, e0: Set<(u32, u32)>, x: u32)
    requires
        on_cycle(e1, x),
        forall|k: (u32, u32)| e1.contains(k) ==> e0.contains(k),
    ensures
        on_cycle(e0, x),
{
    let p = choose|p: Seq<u32>| #![trigger p.len(), p[0]] p.len() >= 2 && p[0] == x && p.last() == x
        && forall|i: int| 0 <= i < p.len() - 1 ==> #[trigger] e1.contains((p[i], p[i + 1]));
    assert(p.len() >= 2 && p[0] == x && p.last() == x);
    assert(forall|i: int| 0 <= i < p.len() - 1 ==> #[trigger] e0.contains((p[i], p[i + 1])));
}

/// A walk read backwards is a walk.
proof fn lemma_walk_reverse(edges: Set<(u32, u32)>, cells: Seq<Cell>, a: u32, b: u32)
    requires
        walk_to(edges, cells, a, b),
    ensures
        walk_to(edges, cells, b, a),
{
    let p = choose|p: Seq<u32>| #![trigger p.len(), p.last()]
        p.len() >= 1 && p[0] == a && p.last() == b
        && (forall|i: int| 0 <= i < p.len() ==> (#[trigger] p[i] as int) < cells.len() && !is_static(cells[p[i] as int]))
        && (forall|i: int| 0 <= i < p.len() - 1 ==> adjacent(edges, #[trigger] p[i], p[i + 1]));
    let q = Seq::new(p.len(), |i: int| p[p.len() - 1 - i]);
    assert(q.len() >= 1 && q[0] == b && q.last() == a);
    assert forall|i: int| 0 <= i < q.len() implies (#[trigger] q[i] as int) < cells.len() && !is_static(cells[q[i] as int]) by {
        assert(q[i] == p[p.len() - 1 - i]);
    }
    assert forall|i: int| 0 <= i < q.len() - 1 implies adjacent(edges, #[trigger] q[i], q[i + 1]) by {
        let j = p.len() - 2 - i;
        assert(adjacent(edges, p[j], p[j + 1]));
        assert(q[i] == p[j + 1] && q[i + 1] == p[j]);
    }
}

/// A family walked from a cell on a cycle of the current graph shares no cell
/// with a closed listing whose cells are faulty.
proof fn lemma_family_fresh(e0: Set<(u32, u32)>, c0: Seq<Cell>, memo: Seq<u32>, from: int, ek: Set<(u32, u32)>,
    ck: Seq<Cell>, family: Seq<u32>, x: u32)
    requires
        listing_closed(e0, c0, memo, from),
        on_cycle(ek, x),
        forall|k: int| 0 <= k < family.len() ==> walk_to(ek, ck, x, #[trigger] family[k]),
        forall|k: (u32, u32)| ek.contains(k) ==> e0.contains(k),
        ck.len() == c0.len(),
        forall|i: int| 0 <= i < c0.len() ==> is_static(#[trigger] ck[i]) == is_static(c0[i]),
        forall|a: u32| listed_after(memo, from, a) ==> (a as int) < ck.len() && is_faulty(ck[a as int]),
        forall|u: u32, v: u32| #[trigger] ek.contains((u, v)) ==> (u as int) < ck.len() && !is_faulty(ck[u as int]),
    ensures
        forall|k: int| 0 <= k < family.len() ==> !listed_after(memo, from, #[trigger] family[k]),
{
    assert forall|k: int| 0 <= k < family.len() implies !listed_after(memo, from, #[trigger] family[k]) by {
        if listed_after(memo, from, family[k]) {
            lemma_walk_widen(ek, ck, e0, c0, x, family[k]);
            lemma_walk_reverse(e0, c0, x, family[k]);
            lemma_walk_listed(e0, c0, memo, from, family[k], x);
            let p = choose|p: Seq<u32>| #![trigger p.len(), p[0]] p.len() >= 2 && p[0] == x && p.last() == x
                && forall|i: int| 0 <= i < p.len() - 1 ==> #[trigger] ek.contains((p[i], p[i + 1]));
            let t0: int = 0;
            assert(ek.contains((p[t0], p[t0 + 1])));
        }
    }
}

/// `a` is listed in `memo` at position `from` or later.
pub open spec fn listed_after(memo: Seq<u32>, from: int, a: u32) -> bool {
    exists|k: int| from <= k < memo.len() && memo[k] == a
}

/// Every non-constant neighbour of a listed cell is listed.
pub open spec fn listing_closed(edges: Set<(u32, u32)>, cells: Seq<Cell>, memo: Seq<u32>, from: int) -> bool {
    forall|a: u32, y: u32| listed_after(memo, from, a) && (y as int) < cells.len() && !is_static(cells[y as int])
        && #[trigger] adjacent(edges, a, y) ==> listed_after(memo, from, y)
}

/// Along a walk from a listed cell, in a closed listing, every cell is listed.
proof fn lemma_walk_listed(edges: Set<(u32, u32)>, cells: Seq<Cell>, memo: Seq<u32>, from: int, c: u32, z: u32)
    requires
        listing_closed(edges, cells, memo, from),
        listed_after(memo, from, c),
        walk_to(edges, cells, c, z),
    ensures
        listed_after(memo, from, z),
{
    let p = choose|p: Seq<u32>| #![trigger p.len(), p.last()]
        p.len() >= 1 && p[0] == c && p.last() == z
        && (forall|i: int| 0 <= i < p.len() ==> (#[trigger] p[i] as int) < cells.len() && !is_static(cells[p[i] as int]))
        && (forall|i: int| 0 <= i < p.len() - 1 ==> adjacent(edges, #[trigger] p[i], p[i + 1]));
    lemma_path_listed(edges, cells, memo, from, p, p.len() - 1);
}

proof fn lemma_path_listed(edges: Set<(u32, u32)>, cells: Seq<Cell>, memo: Seq<u32>, from: int, p: Seq<u32>, k: int)
    requires
        listing_closed(edges, cells, memo, from),
        0 <= k < p.len(),
        listed_after(memo, from, p[0]),
        forall|i: int| 0 <= i < p.len() ==> (#[trigger] p[i] as int) < cells.len() && !is_static(cells[p[i] as int]),
        forall|i: int| 0 <= i < p.len() - 1 ==> adjacent(edges, #[trigger] p[i], p[i + 1]),
    ensures
        listed_after(memo, from, p[k]),
    decreases k,
{
    if k > 0 {
        lemma_path_listed(edges, cells, memo, from, p, k - 1);
        assert(adjacent(edges, p[k - 1], p[k]));
        assert((p[k] as int) < cells.len() && !is_static(cells[p[k] as int]));
    }
}

proof fn lemma_unlisted_cycle_survives(e0: Set<(u32, u32)>, memo: Seq<u32>, from: int, g: Set<(u32, u32)>, c: u32, p: Seq<u32>)
    requires
        p.len() >= 2 && p[0] == c && p.last() == c,
        forall|i: int| 0 <= i < p.len() - 1 ==> #[trigger] e0.contains((p[i], p[i + 1])),
        forall|i: int| 0 <= i < p.len() - 1 ==> !listed_after(memo, from, #[trigger] p[i]),
        forall|e: (u32, u32)| e0.contains(e) && !listed_after(memo, from, e.0) ==> g.contains(e),
    ensures
        on_cycle(g, c),
{
    assert forall|i: int| 0 <= i < p.len() - 1 implies #[trigger] g.contains((p[i], p[i + 1])) by {
        assert(e0.contains((p[i], p[i + 1])));
        assert(!listed_after(memo, from, p[i]));
    }
}

proof fn lemma_cycle_tail(e0: Set<(u32, u32)>, cells: Seq<Cell>, c: u32, p: Seq<u32>, i: int)
    requires
        p.len() >= 2 && p[0] == c && p.last() == c,
        forall|t: int| 0 <= t < p.len() - 1 ==> #[trigger] e0.contains((p[t], p[t + 1])),
        0 <= i < p.len() - 1,
        forall|a: u32, b: u32| #[trigger] e0.contains((a, b)) ==> (a as int) < cells.len() && !is_static(cells[a as int]),
    ensures
        ({
            let q = p.subrange(i, p.len() as int);
            &&& q.len() >= 1 && q[0] == p[i] && q.last() == c
            &&& forall|t: int| 0 <= t < q.len() ==> (#[trigger] q[t] as int) < cells.len() && !is_static(cells[q[t] as int])
            &&& forall|t: int| 0 <= t < q.len() - 1 ==> adjacent(e0, #[trigger] q[t], q[t + 1])
        }),
{
    let q = p.subrange(i, p.len() as int);
    assert forall|t: int| 0 <= t < q.len() implies (#[trigger] q[t] as int) < cells.len() && !is_static(cells[q[t] as int]) by {
        if t < q.len() - 1 {
            assert(e0.contains((p[i + t], p[i + t + 1])));
        } else {
            assert(q[t] == p[0]);
            let t0: int = 0;
            assert(e0.contains((p[t0], p[t0 + 1])));
        }
    }
    assert forall|t: int| 0 <= t < q.len() - 1 implies adjacent(e0, #[trigger] q[t], q[t + 1]) by {
        assert(e0.contains((p[i + t], p[i + t + 1])));
    }
}

proof fn lemma_cycle_tail_listed(e0: Set<(u32, u32)>, cells: Seq<Cell>, memo: Seq<u32>, from: int, c: u32, p: Seq<u32>, i: int)
    requires
        p.len() >= 2 && p[0] == c && p.last() == c,
        forall|t: int| 0 <= t < p.len() - 1 ==> #[trigger] e0.contains((p[t], p[t + 1])),
        0 <= i < p.len() - 1,
        listed_after(memo, from, p[i]),
        forall|a: u32, b: u32| #[trigger] e0.contains((a, b)) ==> (a as int) < cells.len() && !is_static(cells[a as int]),
        listing_closed(e0, cells, memo, from),
    ensures
        listed_after(memo, from, c),
{
    lemma_cycle_tail(e0, cells, c, p, i);
    let q = p.subrange(i, p.len() as int);
    lemma_path_listed(e0, cells, memo, from, q, q.len() - 1);
}

/// If `g` has no cycle through `c` and keeps every edge of `e0` that leaves
/// an unlisted cell, then some cell of each cycle of `e0` through `c` is
/// listed, and with a closed listing `c` itself is.
proof fn lemma_cycle_listed(e0: Set<(u32, u32)>, cells: Seq<Cell>, memo: Seq<u32>, from: int, g: Set<(u32, u32)>, c: u32)
    requires
        on_cycle(e0, c),
        !on_cycle(g, c),
        forall|e: (u32, u32)| e0.contains(e) && !listed_after(memo, from, e.0) ==> g.contains(e),
        forall|a: u32, b: u32| #[trigger] e0.contains((a, b)) ==> (a as int) < cells.len() && !is_static(cells[a as int]),
        listing_closed(e0, cells, memo, from),
    ensures
        listed_after(memo, from, c),
{
    let p = choose|p: Seq<u32>| #![trigger p.len(), p[0]] p.len() >= 2 && p[0] == c && p.last() == c
        && forall|i: int| 0 <= i < p.len() - 1 ==> #[trigger] e0.contains((p[i], p[i + 1]));
    if exists|i: int| 0 <= i < p.len() - 1 && listed_after(memo, from, #[trigger] p[i]) {
        let i = choose|i: int| 0 <= i < p.len() - 1 && listed_after(memo, from, #[trigger] p[i]);
        lemma_cycle_tail_listed(e0, cells, memo, from, c, p, i);
    } else {
        lemma_unlisted_cycle_survives(e0, memo, from, g, c, p);
    }
}

/// Appending a family closed in the current graph keeps the listing closed
/// in the original graph, whose edges from unlisted cells are all still there.
proof fn lemma_listing_step(e0: Set<(u32, u32)>, c0: Seq<Cell>, g: Set<(u32, u32)>, ck: Seq<Cell>, memo: Seq<u32>, from: int,
    family: Seq<u32>)
    requires
        0 <= from <= memo.len(),
        listing_closed(e0, c0, memo, from),
        forall|e: (u32, u32)| e0.contains(e) && !listed_after(memo, from, e.0) ==> g.contains(e),
        ck.len() == c0.len(),
        forall|i: int| 0 <= i < c0.len() ==> is_static(#[trigger] ck[i]) == is_static(c0[i]),
        forall|k: int, y: u32| 0 <= k < family.len() && (y as int) < ck.len() && !is_static(ck[y as int])
            && #[trigger] adjacent(g, family[k], y) ==> family.contains(y),
    ensures
        listing_closed(e0, c0, memo + family, from),
{
    let all = memo + family;
    assert forall|a: u32, y: u32| listed_after(all, from, a) && (y as int) < c0.len() && !is_static(c0[y as int])
        && #[trigger] adjacent(e0, a, y) implies listed_after(all, from, y) by {
        if listed_after(memo, from, y) {
            let k = choose|k: int| from <= k < memo.len() && memo[k] == y;
            assert(all[k] == y);
        } else if listed_after(memo, from, a) {
        } else {
            let k = choose|k: int| from <= k < all.len() && all[k] == a;
            assert(k >= memo.len());
            assert(family[k - memo.len()] == a);
            assert(!is_static(ck[y as int]));
            if e0.contains((a, y)) {
                assert(g.contains((a, y)));
            } else {
                assert(g.contains((y, a)));
            }
            assert(adjacent(g, family[k - memo.len()], y));
            assert(family.contains(y));
            let w = choose|w: int| 0 <= w < family.len() && family[w] == y;
            assert(all[memo.len() + w] == y);
        }
    }
}

/// Every entry of `memo` from position `from` on is reached by a walk (see
/// `walk_to`) from a cell that lies on a cycle.
pub open spec fn from_cycles(edges: Set<(u32, u32)>, cells: Seq<Cell>, memo: Seq<u32>, from: int) -> bool {
    forall|k: int| from <= k < memo.len() ==> exists|c: u32| on_cycle(edges, c) && walk_to(edges, cells, c, #[trigger] memo[k])
}

proof fn lemma_from_cycles_extend(e0: Set<(u32, u32)>, c0: Seq<Cell>, memo: Seq<u32>, family: Seq<u32>, from: int,
    e1: Set<(u32, u32)>, c1: Seq<Cell>)
    requires
        0 <= from <= memo.len(),
        from_cycles(e0, c0, memo, from),
        exists|x: u32| on_cycle(e1, x) && forall|k: int| 0 <= k < family.len() ==> walk_to(e1, c1, x, #[trigger] family[k]),
        forall|k: (u32, u32)| e1.contains(k) ==> e0.contains(k),
        c1.len() == c0.len(),
        forall|i: int| 0 <= i < c0.len() ==> is_static(#[trigger] c1[i]) == is_static(c0[i]),
    ensures
        from_cycles(e0, c0, memo + family, from),
{
    let x = choose|x: u32| on_cycle(e1, x) && forall|k: int| 0 <= k < family.len() ==> walk_to(e1, c1, x, #[trigger] family[k]);
    lemma_cycle_widen(e1, e0, x);
    let all = memo + family;
    assert forall|k: int| from <= k < all.len() implies exists|c: u32| on_cycle(e0, c) && walk_to(e0, c0, c, #[trigger] all[k]) by {
        if k < memo.len() {
            assert(all[k] == memo[k]);
        } else {
            assert(all[k] == family[k - memo.len()]);
            assert(walk_to(e1, c1, x, family[k - memo.len()]));
            lemma_walk_widen(e1, c1, e0, c0, x, all[k]);
        }
    }
}

/// Every non-constant neighbour of `m` has been visited.
pub open spec fn closed_in(edges: Set<(u32, u32)>, cells: Seq<Cell>, visited: Seq<bool>, m: u32) -> bool {
    forall|z: u32| z < cells.len() && !is_static(cells[z as int]) && #[trigger] adjacent(edges, m, z) ==> visited[z as int]
}

impl SpreadSheet {
    /// Appends to `memo` the family of `node_index`: the cells reached from
    /// it over edges taken in either direction, walking through non-constant
    /// cells only. Cells already in `memo` are neither added nor walked through.
    pub fn get_family(&self, node_index: u32, memo: &mut Vec<u32>)
        requires
            self.linked(),
            node_index < self.n(),
            forall|k: int| 0 <= k < old(memo)@.len() ==> #[trigger] old(memo)@[k] < self.n(),
        ensures
            final(memo)@.len() >= old(memo)@.len(),
            final(memo)@.take(old(memo)@.len() as int) == old(memo)@,
            forall|k: int| 0 <= k < final(memo)@.len() ==> #[trigger] final(memo)@[k] < self.n(),
            forall|k: int| old(memo)@.len() <= k < final(memo)@.len() ==> !is_static(
                self.cells@[#[trigger] final(memo)@[k] as int]),
            !is_static(self.cells@[node_index as int]) ==> final(memo)@.contains(node_index),
            forall|i: int, j: int| old(memo)@.len() <= i < j < final(memo)@.len() ==> final(memo)@[i] != final(memo)@[j],
            forall|k: int| old(memo)@.len() <= k < final(memo)@.len() ==> !old(memo)@.contains(#[trigger] final(memo)@[k]),
            forall|k: int, y: u32| old(memo)@.len() <= k < final(memo)@.len() && y < self.n() && !is_static(self.cells@[y as int])
                && #[trigger] adjacent(graph_edges(self.graph), final(memo)@[k], y) ==> final(memo)@.contains(y),
            forall|k: int| old(memo)@.len() <= k < final(memo)@.len() ==> walk_to(graph_edges(self.graph), self.cells@,
                node_index, #[trigger] final(memo)@[k]),
    {
        let n = self.cells.len();
        let ghost m0 = memo@;
        let mut visited: Vec<bool> = Vec::new();
        let mut i: usize = 0;
        while i < n
            invariant
                i <= n,
                visited@ == Seq::new(i as nat, |j: int| false),
            decreases n - i,
        {
            visited.push(false);
            i = i + 1;
            assert(visited@ =~= Seq::new(i as nat, |j: int| false));
        }
        proof {
            lemma_count_false_all(n as nat);
        }
        let mut remaining: usize = n;
        let mut k: usize = 0;
        while k < memo.len()
            invariant
                n == self.n(),
                memo@ == m0,
                k <= memo@.len(),
                visited@.len() == n,
                remaining == count_false(visited@),
                forall|j: int| 0 <= j < m0.len() ==> #[trigger] m0[j] < n,
                forall|y: int| 0 <= y < n ==> #[trigger] visited@[y] ==> m0.contains(y as u32),
                forall|t: int| 0 <= t < k ==> visited@[#[trigger] m0[t] as int],
            decreases memo@.len() - k,
        {
            let x = memo[k] as usize;
            assert(m0[k as int] == x as u32);
            if !visited[x] {
                proof { lemma_count_false_set(visited@, x as int); }
                visited.set(x, true);
                remaining = remaining - 1;
            }
            k = k + 1;
        }
        let mut stack: Vec<u32> = Vec::new();
        if !visited[node_index as usize] && !self.cells[node_index as usize].is_static() {
            proof { lemma_count_false_set(visited@, node_index as int); }
            visited.set(node_index as usize, true);
            remaining = remaining - 1;
            let ghost before = memo@;
            memo.push(node_index);
            stack.push(node_index);
            proof {
                assert(stack@[0] == node_index);
                assert(memo@[m0.len() as int] == node_index);
                let p0 = seq![node_index];
                assert(p0.len() >= 1 && p0[0] == node_index && p0.last() == node_index);
                assert(walk_to(graph_edges(self.graph), self.cells@, node_index, node_index));
                assert forall|k: int| m0.len() <= k < memo@.len() implies walk_to(graph_edges(self.graph), self.cells@,
                    node_index, #[trigger] memo@[k]) by {
                    assert(memo@[k] == node_index);
                }
                assert(memo@.take(m0.len() as int) =~= m0);
                assert forall|z: int| 0 <= z < n && #[trigger] visited@[z] implies memo@.contains(z as u32) by {
                    if z != node_index {
                        let w = choose|w: int| 0 <= w < before.len() && #[trigger] before[w] == z as u32;
                        assert(memo@[w] == z as u32);
                    } else {
                        assert(memo@[before.len() as int] == node_index);
                    }
                }
            }
        } else {
            assert(memo@.take(m0.len() as int) =~= m0);
        }
        while stack.len() > 0
            invariant
                n == self.n(),
                self.linked(),
                node_index < n,
                visited@.len() == n,
                remaining == count_false(visited@),
                memo@.len() >= m0.len(),
                memo@.take(m0.len() as int) == m0,
                forall|j: int| 0 <= j < memo@.len() ==> #[trigger] memo@[j] < n,
                forall|j: int| m0.len() <= j < memo@.len() ==> !is_static(self.cells@[#[trigger] memo@[j] as int]),
                forall|j: int| 0 <= j < stack@.len() ==> #[trigger] stack@[j] < n,
                forall|y: int| 0 <= y < n ==> #[trigger] visited@[y] ==> memo@.contains(y as u32),
                visited@[node_index as int] || is_static(self.cells@[node_index as int]),
                forall|t: int| 0 <= t < memo@.len() ==> visited@[#[trigger] memo@[t] as int],
                forall|i: int, j: int| m0.len() <= i < j < memo@.len() ==> memo@[i] != memo@[j],
                forall|t: int| m0.len() <= t < memo@.len() ==> !m0.contains(#[trigger] memo@[t]),
                forall|k: int| m0.len() <= k < memo@.len() ==> stack@.contains(#[trigger] memo@[k])
                    || closed_in(graph_edges(self.graph), self.cells@, visited@, memo@[k]),
                forall|k: int| m0.len() <= k < memo@.len() ==> walk_to(graph_edges(self.graph), self.cells@, node_index,
                    #[trigger] memo@[k]),
                forall|t: int| 0 <= t < stack@.len() ==> walk_to(graph_edges(self.graph), self.cells@, node_index,
                    #[trigger] stack@[t]),
            decreases 2 * remaining + stack@.len(),
        {
            let ghost stack_before = stack@;
            let x = stack.pop().unwrap();
            let ghost bound = 2 * remaining + stack@.len();
            proof {
                assert(walk_to(graph_edges(self.graph), self.cells@, node_index, stack_before[stack_before.len() - 1]));
                assert forall|t: int| 0 <= t < stack@.len() implies walk_to(graph_edges(self.graph), self.cells@, node_index,
                    #[trigger] stack@[t]) by {
                    assert(stack@[t] == stack_before[t]);
                }
                assert forall|m: u32| stack_before.contains(m) && m != x implies stack@.contains(m) by {
                    let w = choose|w: int| 0 <= w < stack_before.len() && #[trigger] stack_before[w] == m;
                    assert(stack@[w] == m);
                }
            }
            let mut nbrs = graph_neighbors(&self.graph, x, false);
            let mut inc = graph_neighbors(&self.graph, x, true);
            let ghost out0 = nbrs@;
            let ghost inc0 = inc@;
            nbrs.append(&mut inc);
            proof {
                assert forall|t: int| 0 <= t < nbrs@.len() implies #[trigger] nbrs@[t] < n by {
                    if t < out0.len() {
                        assert(out0[t] == nbrs@[t]);
                        assert(out0.contains(nbrs@[t]));
                    } else {
                        assert(inc0[t - out0.len()] == nbrs@[t]);
                        assert(inc0.contains(nbrs@[t]));
                    }
                }
            }
            let mut j: usize = 0;
            while j < nbrs.len()
                invariant
                    n == self.n(),
                    self.linked(),
                    node_index < n,
                    j <= nbrs@.len(),
                    visited@.len() == n,
                    remaining == count_false(visited@),
                    memo@.len() >= m0.len(),
                    memo@.take(m0.len() as int) == m0,
                    forall|t: int| 0 <= t < nbrs@.len() ==> #[trigger] nbrs@[t] < n,
                    forall|t: int| 0 <= t < memo@.len() ==> #[trigger] memo@[t] < n,
                    forall|t: int| m0.len() <= t < memo@.len() ==> !is_static(self.cells@[#[trigger] memo@[t] as int]),
                    forall|t: int| 0 <= t < stack@.len() ==> #[trigger] stack@[t] < n,
                    forall|y: int| 0 <= y < n ==> #[trigger] visited@[y] ==> memo@.contains(y as u32),
                    visited@[node_index as int] || is_static(self.cells@[node_index as int]),
                forall|t: int| 0 <= t < memo@.len() ==> visited@[#[trigger] memo@[t] as int],
                forall|i: int, j: int| m0.len() <= i < j < memo@.len() ==> memo@[i] != memo@[j],
                forall|t: int| m0.len() <= t < memo@.len() ==> !m0.contains(#[trigger] memo@[t]),
                    2 * remaining + stack@.len() <= bound,
                    nbrs@ == out0 + inc0,
                    forall|y: u32| out0.contains(y) <==> graph_edges(self.graph).contains((x, y)),
                    forall|y: u32| inc0.contains(y) <==> graph_edges(self.graph).contains((y, x)),
                    forall|t: int| 0 <= t < j && !is_static(self.cells@[nbrs@[t] as int]) ==> visited@[#[trigger] nbrs@[t] as int],
                    forall|k: int| m0.len() <= k < memo@.len() ==> stack@.contains(#[trigger] memo@[k]) || memo@[k] == x
                        || closed_in(graph_edges(self.graph), self.cells@, visited@, memo@[k]),
                    walk_to(graph_edges(self.graph), self.cells@, node_index, x),
                    forall|k: int| m0.len() <= k < memo@.len() ==> walk_to(graph_edges(self.graph), self.cells@, node_index,
                        #[trigger] memo@[k]),
                    forall|t: int| 0 <= t < stack@.len() ==> walk_to(graph_edges(self.graph), self.cells@, node_index,
                        #[trigger] stack@[t]),
                decreases nbrs@.len() - j,
            {
                let y = nbrs[j];
                let ghost visited_before = visited@;
                let ghost stack_b = stack@;
                let ghost memo_b = memo@;
                if !visited[y as usize] && !self.cells[y as usize].is_static() {
                    proof { lemma_count_false_set(visited@, y as int); }
                    visited.set(y as usize, true);
                    remaining = remaining - 1;
                    let ghost before = memo@;
                    proof {
                        if j < out0.len() {
                            assert(out0[j as int] == y);
                            assert(out0.contains(y));
                        } else {
                            assert(inc0[j - out0.len()] == y);
                            assert(inc0.contains(y));
                        }
                        assert(adjacent(graph_edges(self.graph), x, y));
                        lemma_walk_extend(graph_edges(self.graph), self.cells@, node_index, x, y);
                    }
                    let ghost stack_pre = stack@;
                    let ghost memo_pre = memo@;
                    memo.push(y);
                    stack.push(y);
                    proof {
                        assert forall|t: int| 0 <= t < stack@.len() implies walk_to(graph_edges(self.graph), self.cells@,
                            node_index, #[trigger] stack@[t]) by {
                            if t < stack_pre.len() { assert(stack@[t] == stack_pre[t]); }
                        }
                        assert forall|k: int| m0.len() <= k < memo@.len() implies walk_to(graph_edges(self.graph), self.cells@,
                            node_index, #[trigger] memo@[k]) by {
                            if k < memo_pre.len() { assert(memo@[k] == memo_pre[k]); }
                        }
                        assert(memo@.take(m0.len() as int) =~= before.take(m0.len() as int));
                        assert forall|z: int| 0 <= z < n && #[trigger] visited@[z] implies memo@.contains(z as u32) by {
                            if z != y {
                                let w = choose|w: int| 0 <= w < before.len() && #[trigger] before[w] == z as u32;
                                assert(memo@[w] == z as u32);
                            } else {
                                assert(memo@[before.len() as int] == y);
                            }
                        }
                    }
                }
                proof {
                    assert forall|k: int| m0.len() <= k < memo@.len() implies stack@.contains(#[trigger] memo@[k]) || memo@[k] == x
                        || closed_in(graph_edges(self.graph), self.cells@, visited@, memo@[k]) by {
                        let m = memo@[k];
                        if k >= memo_b.len() {
                            assert(memo@[k] == y);
                            assert(stack@[stack_b.len() as int] == y);
                        } else if stack_b.contains(m) {
                            assert(memo_b[k] == m);
                            let w = choose|w: int| 0 <= w < stack_b.len() && #[trigger] stack_b[w] == m;
                            assert(stack@[w] == m);
                        } else if m != x && closed_in(graph_edges(self.graph), self.cells@, visited_before, m) {
                            assert forall|z: u32| z < n && !is_static(self.cells@[z as int]) && #[trigger] adjacent(graph_edges(self.graph), m, z)
                                implies visited@[z as int] by {
                                assert(visited_before[z as int]);
                            }
                        } else {
                            assert(memo_b[k] == m);
                        }
                    }
                }
                j = j + 1;
            }
            proof {
                assert forall|z: u32| z < n && !is_static(self.cells@[z as int]) && #[trigger] adjacent(graph_edges(self.graph), x, z)
                    implies visited@[z as int] by {
                    if graph_edges(self.graph).contains((x, z)) {
                        assert(out0.contains(z));
                        let w = choose|w: int| 0 <= w < out0.len() && #[trigger] out0[w] == z;
                        assert(nbrs@[w] == z);
                    } else {
                        assert(inc0.contains(z));
                        let w = choose|w: int| 0 <= w < inc0.len() && #[trigger] inc0[w] == z;
                        assert(nbrs@[out0.len() + w] == z);
                    }
                }
            }
        }
        proof {
            if !is_static(self.cells@[node_index as int]) {
                assert(visited@[node_index as int]);
            }
            assert forall|k: int, y: u32| m0.len() <= k < memo@.len() && y < self.n() && !is_static(self.cells@[y as int])
                && #[trigger] adjacent(graph_edges(self.graph), memo@[k], y) implies memo@.contains(y) by {
                assert(!stack@.contains(memo@[k]));
                assert(closed_in(graph_edges(self.graph), self.cells@, visited@, memo@[k]));
                assert(visited@[y as int]);
            }
        }
    }
}

/// Some handle listed in `f` holds a formula.
pub open spec fn holds_formula(cells: Seq<Cell>, f: Seq<u32>) -> bool {
    exists|k: int| 0 <= k < f.len() && (cells[#[trigger] f[k] as int].category is OccurCell)
}

/// What quarantine may do to a cell: leave it, or make it faulty.
pub open spec fn kept_or_faulty(new: Cell, old: Cell) -> bool {
    new == old || new == (Cell { category: Category::FaultyCell, ..old })
}

impl SpreadSheet {
    /// The family of `x`, a cell on a cycle; it holds at least one formula.
    fn cycle_family(&self, x: u32) -> (f: Vec<u32>)
        requires
            self.linked(),
            graph_nodes(self.graph).contains(x),
            on_cycle(graph_edges(self.graph), x),
        ensures
            forall|k: int| 0 <= k < f@.len() ==> #[trigger] f@[k] < self.n(),
            forall|k: int| 0 <= k < f@.len() ==> !is_static(self.cells@[#[trigger] f@[k] as int]),
            holds_formula(self.cells@, f@),
            forall|k: int| 0 <= k < f@.len() ==> walk_to(graph_edges(self.graph), self.cells@, x, #[trigger] f@[k]),
            forall|k: int, y: u32| 0 <= k < f@.len() && y < self.n() && !is_static(self.cells@[y as int])
                && #[trigger] adjacent(graph_edges(self.graph), f@[k], y) ==> f@.contains(y),
            f@.no_duplicates(),
    {
        let mut family: Vec<u32> = Vec::new();
        proof {
            let p = choose|p: Seq<u32>| #![trigger p.len(), p[0]] p.len() >= 2 && p[0] == x && p.last() == x
                && forall|i: int| 0 <= i < p.len() - 1 ==> #[trigger] graph_edges(self.graph).contains((p[i], p[i + 1]));
            let t0: int = 0;
            assert(graph_edges(self.graph).contains((p[t0], p[t0 + 1])));
            assert(covers(self.cells@[x as int], self.cells@[p[1] as int]));
        }
        self.get_family(x, &mut family);
        proof {
            assert(family@.contains(x));
            let k = choose|k: int| 0 <= k < family@.len() && #[trigger] family@[k] == x;
            assert(self.cells@[family@[k] as int].category is OccurCell);
        }
        family
    }

    /// Looks for a cycle with a topological sort. Without one, records the
    /// order found and returns `None`; with one, returns the family (see
    /// `get_family`) of a cell on it, which holds at least one formula.
    pub fn check_cycle(&mut self) -> (r: Option<Vec<u32>>)
        requires
            old(self).linked(),
        ensures
            final(self).linked(),
            final(self).cells == old(self).cells,
            final(self).evals == old(self).evals,
            final(self).changes == old(self).changes,
            final(self).rows == old(self).rows,
            final(self).cols == old(self).cols,
            final(self).graph == old(self).graph,
            r is None ==> final(self).ranked(),
            r is Some ==> final(self).order == old(self).order && final(self).rank == old(self).rank,
            r is Some ==> exists|x: u32| on_cycle(graph_edges(old(self).graph), x),
            r matches Some(f) ==> forall|k: int| 0 <= k < f@.len() ==> #[trigger] f@[k] < old(self).n(),
            r matches Some(f) ==> holds_formula(old(self).cells@, f@),
            r matches Some(f) ==> forall|k: int| 0 <= k < f@.len() ==> !is_static(old(self).cells@[#[trigger] f@[k] as int]),
            r matches Some(f) ==> f@.no_duplicates(),
            r matches Some(f) ==> exists|x: u32| on_cycle(graph_edges(old(self).graph), x) && forall|k: int| 0 <= k < f@.len()
                ==> walk_to(graph_edges(old(self).graph), old(self).cells@, x, #[trigger] f@[k]),
            r matches Some(f) ==> forall|k: int, y: u32| 0 <= k < f@.len() && y < old(self).n() && !is_static(old(self).cells@[y as int])
                && #[trigger] adjacent(graph_edges(old(self).graph), f@[k], y) ==> f@.contains(y),
    {
        match graph_toposort(&self.graph) {
            Err(x) => {
                let family = self.cycle_family(x);
                assert(family@.no_duplicates());
                Some(family)
            },
            Ok(order) => {
                self.record_order(order);
                None
            },
        }
    }

    /// Stores a topological order of the graph and the rank of each handle in it.
    fn record_order(&mut self, order: Vec<u32>)
        requires
            old(self).linked(),
            order@.no_duplicates(),
            forall|x: u32| order@.contains(x) <==> graph_nodes(old(self).graph).contains(x),
            forall|i: int, j: int|
                0 <= i < order@.len() && 0 <= j < order@.len() && graph_edges(old(self).graph).contains(
                    (#[trigger] order@[i], #[trigger] order@[j]),
                ) ==> i < j,
        ensures
            final(self).ranked(),
            final(self).cells == old(self).cells,
            final(self).evals == old(self).evals,
            final(self).changes == old(self).changes,
            final(self).rows == old(self).rows,
            final(self).cols == old(self).cols,
            final(self).graph == old(self).graph,
    {
        let n = self.cells.len();
        let mut rank: Vec<usize> = Vec::new();
        let mut i: usize = 0;
        while i < n
            invariant
                i <= n,
                rank@.len() == i,
            decreases n - i,
        {
            rank.push(0);
            i = i + 1;
        }
        proof {
            assert forall|j: int| 0 <= j < order@.len() implies #[trigger] order@[j] < n by {
                assert(order@.contains(order@[j]));
            }
        }
        let mut k: usize = 0;
        while k < order.len()
            invariant
                forall|j: int| 0 <= j < order@.len() ==> #[trigger] order@[j] < n,
                n == self.n(),
                self.linked(),
                k <= order@.len(),
                rank@.len() == n,
                order@.no_duplicates(),
                forall|x: u32| order@.contains(x) <==> graph_nodes(self.graph).contains(x),
                forall|j: int| 0 <= j < k ==> rank@[#[trigger] order@[j] as int] == j,
            decreases order@.len() - k,
        {
            let x = order[k];
            proof {
                assert(order@.contains(x));
            }
            rank.set(x as usize, k);
            k = k + 1;
        }
        self.order = order;
        self.rank = rank;
        proof {
            assert forall|j: int| 0 <= j < self.order@.len() implies (#[trigger] self.order@[j]) < self.n()
                && self.rank@[self.order@[j] as int] == j by {
                assert(self.order@.contains(self.order@[j]));
            }
            assert forall|i: int| 0 <= i < self.n() implies (#[trigger] self.rank@[i]) < self.order@.len()
                && self.order@[self.rank@[i] as int] == i by {
                assert(graph_nodes(self.graph).contains(i as u32));
                assert(self.order@.contains(i as u32));
                let j = choose|j: int| 0 <= j < self.order@.len() && #[trigger] self.order@[j] == i as u32;
                assert(self.rank@[self.order@[j] as int] == j);
            }
            assert forall|a: u32, b: u32| #[trigger] graph_edges(self.graph).contains((a, b))
                implies self.rank@[a as int] < self.rank@[b as int] by {
                let ia = self.rank@[a as int] as int;
                let ib = self.rank@[b as int] as int;
                assert(self.order@[ia] == a && self.order@[ib] == b);
            }
        }
    }

    /// Quarantines cycles: while a topological sort finds one, the family of
    /// a cell on it becomes faulty. Appends every quarantined handle to `memo`.
    /// Ends with an order where every formula precedes the cells it counts.
    ///
    /// Constants are never touched; a cell ends faulty only if it was faulty
    /// before or is quarantined; and the quarantined cells are exactly those
    /// reached from a cell on a cycle of the graph as it was given, by a walk
    /// over edges in either direction through non-constant cells.
    #[verifier::rlimit(100)]
    pub fn handle_cycles(&mut self, memo: &mut Vec<u32>)
        requires
            old(self).linked(),
        ensures
            final(self).ranked(),
            final(self).cells@.len() == old(self).cells@.len(),
            forall|i: int| 0 <= i < old(self).n() ==> kept_or_faulty(#[trigger] final(self).cells@[i], old(self).cells@[i]),
            forall|i: int| 0 <= i < old(self).n() ==> (#[trigger] final(self).cells@[i] != old(self).cells@[i])
                ==> final(memo)@.contains(i as u32),
            forall|i: int| 0 <= i < old(self).n() ==> #[trigger] final(self).evals@[i] == (old(self).evals@[i]
                && final(self).cells@[i].category is OccurCell),
            final(self).changes == old(self).changes,
            final(self).rows == old(self).rows,
            final(self).cols == old(self).cols,
            forall|i: int| 0 <= i < old(self).n() && is_static(old(self).cells@[i]) ==> #[trigger] final(self).cells@[i]
                == old(self).cells@[i],
            final(self).cells@.len() == old(self).cells@.len(),
            final(memo)@.len() >= old(memo)@.len(),
            forall|k: int| old(memo)@.len() <= k < final(memo)@.len() ==> #[trigger] final(memo)@[k] < old(self).n()
                && final(self).cells@[final(memo)@[k] as int].category is FaultyCell,
            forall|i: int| 0 <= i < old(self).n() && (#[trigger] final(self).cells@[i]).category is FaultyCell
                ==> old(self).cells@[i].category is FaultyCell || final(memo)@.contains(i as u32),
            from_cycles(graph_edges(old(self).graph), old(self).cells@, final(memo)@, old(memo)@.len() as int),
            forall|i: int, j: int| old(memo)@.len() <= i < j < final(memo)@.len() ==> final(memo)@[i] != final(memo)@[j],
            forall|c: u32, z: u32| on_cycle(graph_edges(old(self).graph), c) && #[trigger] walk_to(
                graph_edges(old(self).graph), old(self).cells@, c, z) ==> listed_after(final(memo)@, old(memo)@.len() as int, z),
    {
        let ghost m0 = memo@;
        loop
            invariant
                self.linked(),
                self.cells@.len() == old(self).cells@.len(),
                forall|i: int| 0 <= i < old(self).n() ==> kept_or_faulty(#[trigger] self.cells@[i], old(self).cells@[i]),
                forall|i: int| 0 <= i < old(self).n() ==> (#[trigger] self.cells@[i] != old(self).cells@[i])
                    ==> memo@.contains(i as u32),
                forall|i: int| 0 <= i < old(self).n() ==> #[trigger] self.evals@[i] == (old(self).evals@[i]
                    && self.cells@[i].category is OccurCell),
                self.changes == old(self).changes,
                self.rows == old(self).rows,
                self.cols == old(self).cols,
                forall|i: int| 0 <= i < old(self).n() && is_static(old(self).cells@[i]) ==> #[trigger] self.cells@[i]
                    == old(self).cells@[i],
                m0 == old(memo)@,
                memo@.len() >= m0.len(),
                forall|k: int| m0.len() <= k < memo@.len() ==> #[trigger] memo@[k] < old(self).n()
                    && self.cells@[memo@[k] as int].category is FaultyCell,
                from_cycles(graph_edges(old(self).graph), old(self).cells@, memo@, m0.len() as int),
                forall|i: int, j: int| m0.len() <= i < j < memo@.len() ==> memo@[i] != memo@[j],
                listing_closed(graph_edges(old(self).graph), old(self).cells@, memo@, m0.len() as int),
                forall|e: (u32, u32)| graph_edges(old(self).graph).contains(e) && !listed_after(memo@, m0.len() as int, e.0)
                    ==> graph_edges(self.graph).contains(e),
                forall|e: (u32, u32)| graph_edges(self.graph).contains(e) ==> graph_edges(old(self).graph).contains(e),
            ensures
                self.ranked(),
                self.cells@.len() == old(self).cells@.len(),
                forall|i: int| 0 <= i < old(self).n() ==> kept_or_faulty(#[trigger] self.cells@[i], old(self).cells@[i]),
                forall|i: int| 0 <= i < old(self).n() ==> (#[trigger] self.cells@[i] != old(self).cells@[i])
                    ==> memo@.contains(i as u32),
                forall|i: int| 0 <= i < old(self).n() ==> #[trigger] self.evals@[i] == (old(self).evals@[i]
                    && self.cells@[i].category is OccurCell),
                self.changes == old(self).changes,
                self.rows == old(self).rows,
                self.cols == old(self).cols,
                forall|i: int| 0 <= i < old(self).n() && is_static(old(self).cells@[i]) ==> #[trigger] self.cells@[i]
                    == old(self).cells@[i],
                memo@.len() >= m0.len(),
                forall|k: int| m0.len() <= k < memo@.len() ==> #[trigger] memo@[k] < old(self).n()
                    && self.cells@[memo@[k] as int].category is FaultyCell,
                from_cycles(graph_edges(old(self).graph), old(self).cells@, memo@, m0.len() as int),
                forall|i: int, j: int| m0.len() <= i < j < memo@.len() ==> memo@[i] != memo@[j],
                listing_closed(graph_edges(old(self).graph), old(self).cells@, memo@, m0.len() as int),
                forall|e: (u32, u32)| graph_edges(old(self).graph).contains(e) && !listed_after(memo@, m0.len() as int, e.0)
                    ==> graph_edges(self.graph).contains(e),
                forall|e: (u32, u32)| graph_edges(self.graph).contains(e) ==> graph_edges(old(self).graph).contains(e),
            decreases occur_count(self.cells@),
        {
            match self.check_cycle() {
                None => {
                    break;
                },
                Some(family) => {
                    let ghost before = self.cells@;
                    let ghost before_edges = graph_edges(self.graph);
                    let ghost head = *self;
                    let ghost m_before = memo@;
                    let mut k: usize = 0;
                    while k < family.len()
                        invariant
                            k <= family@.len(),
                            memo@.len() == m_before.len() + k,
                            forall|t: int| 0 <= t < m_before.len() ==> memo@[t] == m_before[t],
                            forall|t: int| 0 <= t < k ==> memo@[m_before.len() + t] == family@[t],
                        decreases family@.len() - k,
                    {
                        memo.push(family[k]);
                        k = k + 1;
                    }
                    self.update_cells(family);
                    proof {
                        assert(memo@ =~= m_before + family@);
                        assert forall|i: int| 0 <= i < old(self).n() implies is_static(#[trigger] before[i])
                            == is_static(old(self).cells@[i]) by {
                            assert(kept_or_faulty(before[i], old(self).cells@[i]));
                        }
                        lemma_listing_step(graph_edges(old(self).graph), old(self).cells@, before_edges, before, m_before,
                            m0.len() as int, family@);
                        assert forall|e: (u32, u32)| graph_edges(old(self).graph).contains(e)
                            && !listed_after(memo@, m0.len() as int, e.0) implies graph_edges(self.graph).contains(e) by {
                            if listed_after(m_before, m0.len() as int, e.0) {
                                let k = choose|k: int| m0.len() <= k < m_before.len() && m_before[k] == e.0;
                                assert(memo@[k] == e.0);
                            }
                            if family@.contains(e.0) {
                                let w = choose|w: int| 0 <= w < family@.len() && family@[w] == e.0;
                                assert(memo@[m_before.len() + w] == e.0);
                            }
                            assert(before_edges.contains(e));
                        }
                        lemma_from_cycles_extend(graph_edges(old(self).graph), old(self).cells@, m_before, family@,
                            m0.len() as int, before_edges, before);
                        let x = choose|x: u32| on_cycle(before_edges, x) && forall|k: int| 0 <= k < family@.len()
                            ==> walk_to(before_edges, before, x, #[trigger] family@[k]);
                        assert forall|a: u32| listed_after(m_before, m0.len() as int, a) implies (a as int) < before.len()
                            && is_faulty(before[a as int]) by {
                            let k = choose|k: int| m0.len() <= k < m_before.len() && m_before[k] == a;
                            assert(m_before[k] < old(self).n());
                        }
                        assert forall|u: u32, v: u32| #[trigger] before_edges.contains((u, v)) implies (u as int) < before.len()
                            && !is_faulty(before[u as int]) by {
                            assert(covers(head.cells@[u as int], head.cells@[v as int]));
                        }
                        lemma_family_fresh(graph_edges(old(self).graph), old(self).cells@, m_before, m0.len() as int,
                            before_edges, before, family@, x);
                        assert forall|i: int, j: int| m0.len() <= i < j < memo@.len() implies memo@[i] != memo@[j] by {
                            if j >= m_before.len() {
                                let fj = j - m_before.len();
                                assert(memo@[j] == family@[fj]);
                                if i >= m_before.len() {
                                    assert(memo@[i] == family@[i - m_before.len()]);
                                } else {
                                    assert(memo@[i] == m_before[i]);
                                    assert(listed_after(m_before, m0.len() as int, m_before[i]));
                                    assert(!listed_after(m_before, m0.len() as int, family@[fj]));
                                }
                            } else {
                                assert(memo@[i] == m_before[i] && memo@[j] == m_before[j]);
                            }
                        }
                        assert forall|k: int| m0.len() <= k < memo@.len() implies #[trigger] memo@[k] < old(self).n()
                            && self.cells@[memo@[k] as int].category is FaultyCell by {
                            if k < m_before.len() {
                                assert(memo@[k] == m_before[k]);
                            } else {
                                assert(memo@[k] == family@[k - m_before.len()]);
                                assert(family@.contains(memo@[k]));
                            }
                        }
                        assert forall|i: int| 0 <= i < old(self).n() && is_static(old(self).cells@[i]) implies
                            #[trigger] self.cells@[i] == old(self).cells@[i] by {
                            if family@.contains(i as u32) {
                                let w = choose|w: int| 0 <= w < family@.len() && #[trigger] family@[w] == i as u32;
                                assert(!is_static(before[family@[w] as int]));
                            }
                        }
                        assert forall|i: int| 0 <= i < old(self).n() && (#[trigger] self.cells@[i] != old(self).cells@[i])
                            implies memo@.contains(i as u32) by {
                            if before[i] != old(self).cells@[i] {
                                let w = choose|w: int| 0 <= w < m_before.len() && #[trigger] m_before[w] == i as u32;
                                assert(memo@[w] == i as u32);
                            } else {
                                let w = choose|w: int| 0 <= w < family@.len() && #[trigger] family@[w] == i as u32;
                                assert(memo@[m_before.len() + w] == i as u32);
                            }
                        }
                    }
                },
            }
        }
        proof {
            assert forall|a: u32, b: u32| #[trigger] graph_edges(old(self).graph).contains((a, b)) implies (a as int)
                < old(self).cells@.len() && !is_static(old(self).cells@[a as int]) by {
                assert(covers(old(self).cells@[a as int], old(self).cells@[b as int]));
            }
            assert forall|c: u32, z: u32| on_cycle(graph_edges(old(self).graph), c) && #[trigger] walk_to(
                graph_edges(old(self).graph), old(self).cells@, c, z) implies listed_after(memo@, m0.len() as int, z) by {
                lemma_ranked_acyclic(graph_edges(self.graph), self.rank@, c);
                lemma_cycle_listed(graph_edges(old(self).graph), old(self).cells@, memo@, m0.len() as int,
                    graph_edges(self.graph), c);
                lemma_walk_listed(graph_edges(old(self).graph), old(self).cells@, memo@, m0.len() as int, c, z);
            }
        }
    }
}

} // verus!

//! Passing an edited cell's change on to the formulas that count it, and
//! why every count stays right.

use vstd::prelude::*;
use crate::cell::{reported, Category, Cell, OccurCell, StaticCell};
use crate::graph::{graph_edges, graph_neighbors, on_cycle};
use crate::spreadsheet::{covers, same_but_count, count_rect, count_row, expected_count, handle, lemma_count_rect_frame,
    lemma_handle_bound, lemma_handle_unique, occurrences, SpreadSheet};

verus! {

/// `c` made to report `v`.
pub open spec fn with_report(c: Cell, v: Option<u32>) -> Cell {
    Cell {
        category: match v {
            Some(x) => Category::StaticCell(StaticCell { value: x }),
            None => Category::FaultyCell,
        },
        ..c
    }
}

/// Changes not yet passed on: `beliefs[z] == (v, s)` says that the formulas
/// of `s` still count the cell `z` as reporting `v`.
pub type Beliefs = Map<u32, (Option<u32>, Set<u32>)>;

/// The cells as the formula at `y` sees them under `beliefs`.
pub open spec fn believed(cells: Seq<Cell>, beliefs: Beliefs, y: int) -> Seq<Cell> {
    Seq::new(cells.len(), |h: int| if beliefs.contains_key(h as u32) && beliefs[h as u32].1.contains(y as u32) {
        with_report(cells[h], beliefs[h as u32].0)
    } else {
        cells[h]
    })
}

/// The handles listed in `s` from position `j` on.
pub open spec fn rest(s: Seq<u32>, j: int) -> Set<u32> {
    Set::new(|y: u32| exists|t: int| j <= t < s.len() && s[t] == y)
}

/// The formulas with an edge to `x`.
pub open spec fn parents_of(sheet: SpreadSheet, x: u32) -> Set<u32> {
    Set::new(|y: u32| graph_edges(sheet.graph).contains((y, x)))
}

/// `new` is `old` with at most its count changed, or `old` made faulty.
pub open spec fn evolved(new: Cell, old: Cell) -> bool {
    same_but_count(new, old) || new == (Cell { category: Category::FaultyCell, ..old })
}

impl SpreadSheet {
    /// The formula at `i` holds its expected count over the cells as it sees them.
    pub open spec fn count_ok_under(self, beliefs: Beliefs, i: int) -> bool {
        match self.cells@[i].category {
            Category::OccurCell(o) => o.occurrence == expected_count(
                believed(self.cells@, beliefs, i), self.cols as int, o),
            _ => true,
        }
    }

    pub open spec fn consistent(self, beliefs: Beliefs) -> bool {
        forall|i: int| 0 <= i < self.n() ==> #[trigger] self.count_ok_under(beliefs, i)
    }

    /// Every ancestor of `x` (a formula counting it, directly or through
    /// other formulas) has a region of at most 255 coordinates.
    pub open spec fn small_ancestors(self, x: u32) -> bool {
        forall|i: int| 0 <= i < self.n() && #[trigger] reaches(graph_edges(self.graph), i as u32, x) ==> self.small_at(i)
    }

    pub open spec fn small_at(self, i: int) -> bool {
        match self.cells@[i].category {
            Category::OccurCell(o) => o.rectangle.area() <= 255,
            _ => true,
        }
    }
}

/// Two views of the cells that report alike over `o`'s region give `o` the
/// same occurrences.
pub proof fn lemma_views_agree(v1: Seq<Cell>, v2: Seq<Cell>, rows: int, cols: int, o: OccurCell)
    requires
        v1.len() == rows * cols,
        v2.len() == rows * cols,
        o.rectangle.in_bounds(rows, cols),
        forall|h: int| 0 <= h < v1.len() && o.rectangle.contains(
            v1[h].coordinates.row as int, v1[h].coordinates.col as int) ==> reported(#[trigger] v1[h].category)
            == reported(v2[h].category),
        forall|h: int| 0 <= h < v1.len() ==> v1[h].coordinates.col < cols && handle(
            (#[trigger] v1[h]).coordinates.row as int, v1[h].coordinates.col as int, cols) == h,
    ensures
        occurrences(v1, cols, o) == occurrences(v2, cols, o),
{
    let rect = o.rectangle;
    assert forall|r: int, c: int| rect.begin.row <= r < rect.end.row + 1 && rect.begin.col <= c < rect.end.col + 1
        implies reported(v1[#[trigger] handle(r, c, cols)].category) == reported(v2[handle(r, c, cols)].category) by {
        lemma_handle_bound(r, c, rows, cols);
        let h = handle(r, c, cols);
        lemma_handle_unique(r, c, v1[h].coordinates.row as int, v1[h].coordinates.col as int, cols);
    }
    lemma_count_rect_frame(v1, v2, cols, rect.begin.row as int, rect.end.row + 1, rect.begin.col as int,
        rect.end.col + 1, o.value);
}

/// The number of coordinates of a well-formed region.
proof fn lemma_count_row_bound(cells: Seq<Cell>, cols: int, r: int, lo: int, hi: int, t: u32)
    requires
        lo <= hi,
    ensures
        count_row(cells, cols, r, lo, hi, t) <= hi - lo,
    decreases hi - lo,
{
    if hi > lo {
        lemma_count_row_bound(cells, cols, r, lo, hi - 1, t);
    }
}

proof fn lemma_count_rect_bound(cells: Seq<Cell>, cols: int, rlo: int, rhi: int, clo: int, chi: int, t: u32)
    requires
        rlo <= rhi,
        clo <= chi,
    ensures
        count_rect(cells, cols, rlo, rhi, clo, chi, t) <= (rhi - rlo) * (chi - clo),
    decreases rhi - rlo,
{
    if rhi > rlo {
        lemma_count_rect_bound(cells, cols, rlo, rhi - 1, clo, chi, t);
        lemma_count_row_bound(cells, cols, rhi - 1, clo, chi, t);
        assert((rhi - 1 - rlo) * (chi - clo) + (chi - clo) == (rhi - rlo) * (chi - clo)) by (nonlinear_arith);
    }
}

/// A formula's occurrences never exceed the area of its region.
pub proof fn lemma_occurrences_bound(cells: Seq<Cell>, cols: int, o: OccurCell)
    requires
        o.rectangle.well_formed(),
    ensures
        occurrences(cells, cols, o) <= o.rectangle.area(),
{
    lemma_count_rect_bound(cells, cols, o.rectangle.begin.row as int, o.rectangle.end.row + 1,
        o.rectangle.begin.col as int, o.rectangle.end.col + 1, o.value);
}

proof fn lemma_count_row_change(v: Seq<Cell>, x: int, c: Cell, rows: int, cols: int, r: int, lo: int, hi: int, t: u32)
    requires
        v.len() == rows * cols,
        0 <= x < v.len(),
        v[x].coordinates.col < cols,
        handle(v[x].coordinates.row as int, v[x].coordinates.col as int, cols) == x,
        0 <= r < rows,
        0 <= lo,
        hi <= cols,
    ensures
        count_row(v.update(x, c), cols, r, lo, hi, t) + (if r == v[x].coordinates.row && lo <= v[x].coordinates.col < hi
            && reported(v[x].category) == Some(t) { 1nat } else { 0nat })
            == count_row(v, cols, r, lo, hi, t) + (if r == v[x].coordinates.row && lo <= v[x].coordinates.col < hi
            && reported(c.category) == Some(t) { 1nat } else { 0nat }),
    decreases hi - lo,
{
    if hi > lo {
        lemma_count_row_change(v, x, c, rows, cols, r, lo, hi - 1, t);
        lemma_handle_bound(r, hi - 1, rows, cols);
        if handle(r, hi - 1, cols) == x {
            lemma_handle_unique(r, hi - 1, v[x].coordinates.row as int, v[x].coordinates.col as int, cols);
        }
        if r == v[x].coordinates.row && v[x].coordinates.col == hi - 1 {
            assert(handle(r, hi - 1, cols) == x);
        }
    }
}

proof fn lemma_count_rect_change(v: Seq<Cell>, x: int, c: Cell, rows: int, cols: int, rlo: int, rhi: int,
    clo: int, chi: int, t: u32)
    requires
        v.len() == rows * cols,
        0 <= x < v.len(),
        v[x].coordinates.col < cols,
        handle(v[x].coordinates.row as int, v[x].coordinates.col as int, cols) == x,
        0 <= rlo,
        rhi <= rows,
        0 <= clo,
        chi <= cols,
    ensures
        count_rect(v.update(x, c), cols, rlo, rhi, clo, chi, t) + (if rlo <= v[x].coordinates.row < rhi
            && clo <= v[x].coordinates.col < chi && reported(v[x].category) == Some(t) { 1nat } else { 0nat })
            == count_rect(v, cols, rlo, rhi, clo, chi, t) + (if rlo <= v[x].coordinates.row < rhi
            && clo <= v[x].coordinates.col < chi && reported(c.category) == Some(t) { 1nat } else { 0nat }),
    decreases rhi - rlo,
{
    if rhi > rlo {
        lemma_count_rect_change(v, x, c, rows, cols, rlo, rhi - 1, clo, chi, t);
        lemma_count_row_change(v, x, c, rows, cols, rhi - 1, clo, chi, t);
    }
}

/// Changing one cell of a region moves its occurrences by at most one: off
/// for the old value, on for the new.
pub proof fn lemma_occurrences_change(v: Seq<Cell>, x: int, c: Cell, rows: int, cols: int, o: OccurCell)
    requires
        v.len() == rows * cols,
        0 <= x < v.len(),
        v[x].coordinates.col < cols,
        handle(v[x].coordinates.row as int, v[x].coordinates.col as int, cols) == x,
        o.rectangle.in_bounds(rows, cols),
        o.rectangle.contains(v[x].coordinates.row as int, v[x].coordinates.col as int),
    ensures
        occurrences(v.update(x, c), cols, o) + (if reported(v[x].category) == Some(o.value) { 1nat } else { 0nat })
            == occurrences(v, cols, o) + (if reported(c.category) == Some(o.value) { 1nat } else { 0nat }),
{
    lemma_count_rect_change(v, x, c, rows, cols, o.rectangle.begin.row as int, o.rectangle.end.row + 1,
        o.rectangle.begin.col as int, o.rectangle.end.col + 1, o.value);
}

/// For a formula `i` other than `p`: once `p` has stopped counting `x` as
/// `ov` and `p` has changed, with `p`'s counters still counting its old value,
/// `i` sees every cell of its region report as before.
proof fn lemma_others_agree(old_cells: Seq<Cell>, new_cells: Seq<Cell>, b: Beliefs, x: u32, ov: Option<u32>,
    sj: Set<u32>, sj1: Set<u32>, p: u32, old_p: Option<u32>, pp: Set<u32>, i: int, h: int)
    requires
        !b.contains_key(x),
        !b.contains_key(p),
        x != p,
        sj == sj1.insert(p),
        i != p,
        0 <= i < u32::MAX,
        0 <= h < old_cells.len() < u32::MAX,
        new_cells.len() == old_cells.len(),
        h != p ==> new_cells[h] == old_cells[h],
        h == p ==> pp.contains(i as u32) && reported(old_cells[h].category) == old_p,
    ensures
        reported(believed(new_cells, b.insert(x, (ov, sj1)).insert(p, (old_p, pp)), i)[h].category)
            == reported(believed(old_cells, b.insert(x, (ov, sj)), i)[h].category),
{
    if h as u32 == x {
        assert(sj1.contains(i as u32) == sj.contains(i as u32));
    }
}

/// The same with `p` unchanged and believing nothing new.
proof fn lemma_others_agree_unchanged(cells: Seq<Cell>, b: Beliefs, x: u32, ov: Option<u32>,
    sj: Set<u32>, sj1: Set<u32>, p: u32, i: int, h: int)
    requires
        !b.contains_key(x),
        sj == sj1.insert(p),
        i != p,
        0 <= i < u32::MAX,
        0 <= h < cells.len() < u32::MAX,
    ensures
        believed(cells, b.insert(x, (ov, sj1)), i)[h] == believed(cells, b.insert(x, (ov, sj)), i)[h],
{
    if h as u32 == x {
        assert(sj1.contains(i as u32) == sj.contains(i as u32));
    }
}

/// What `p` itself sees after it stopped counting `x` as `ov`: the cells it
/// saw before, with `x` reporting its own value.
proof fn lemma_own_view(old_cells: Seq<Cell>, new_cells: Seq<Cell>, b: Beliefs, x: u32, ov: Option<u32>,
    sj: Set<u32>, sj1: Set<u32>, p: u32, old_p: Option<u32>, pp: Set<u32>, h: int)
    requires
        !b.contains_key(x),
        !b.contains_key(p),
        x != p,
        (x as int) < old_cells.len(),
        sj == sj1.insert(p),
        !sj1.contains(p),
        !pp.contains(p),
        0 <= h < old_cells.len() < u32::MAX,
        new_cells.len() == old_cells.len(),
        h != p,
        new_cells[h] == old_cells[h],
    ensures
        reported(believed(new_cells, b.insert(x, (ov, sj1)).insert(p, (old_p, pp)), p as int)[h].category)
            == reported(believed(old_cells, b.insert(x, (ov, sj)), p as int).update(x as int, old_cells[x as int])[h].category),
{
}

/// The same, `p` unchanged and believing nothing new.
proof fn lemma_own_view_unchanged(cells: Seq<Cell>, b: Beliefs, x: u32, ov: Option<u32>,
    sj: Set<u32>, sj1: Set<u32>, p: u32, h: int)
    requires
        !b.contains_key(x),
        (x as int) < cells.len(),
        sj == sj1.insert(p),
        !sj1.contains(p),
        0 <= h < cells.len() < u32::MAX,
    ensures
        believed(cells, b.insert(x, (ov, sj1)), p as int)[h]
            == believed(cells, b.insert(x, (ov, sj)), p as int).update(x as int, cells[x as int])[h],
{
}

impl SpreadSheet {
    /// Passes on the change of the cell `x`, which its counters still count
    /// as reporting `ov`, while the changes of `beliefs`, all below `x` in
    /// the order, wait further up the call chain.
    pub(crate) fn propagate(&mut self, x: u32, ov: Option<u32>, Ghost(b): Ghost<Beliefs>, Ghost(on): Ghost<bool>)
        requires
            old(self).ranked(),
            on ==> old(self).small_ancestors(x),
            x < old(self).n(),
            forall|z: u32| #[trigger] b.contains_key(z) ==> z < old(self).n()
                && old(self).rank@[z as int] > old(self).rank@[x as int],
            on ==> old(self).consistent(b.insert(x, (ov, parents_of(*old(self), x)))),
        ensures
            final(self).ranked(),
            on ==> final(self).consistent(b),
            final(self).cells@.len() == old(self).cells@.len(),
            final(self).order == old(self).order,
            final(self).rank == old(self).rank,
            final(self).rows == old(self).rows,
            final(self).cols == old(self).cols,
            forall|i: int| 0 <= i < old(self).n() ==> evolved(#[trigger] final(self).cells@[i], old(self).cells@[i]),
            forall|i: int| 0 <= i < old(self).n() && old(self).rank@[i] >= old(self).rank@[x as int]
                ==> #[trigger] final(self).cells@[i] == old(self).cells@[i],
            forall|i: int| 0 <= i < old(self).n() ==> #[trigger] final(self).evals@[i] ==> old(self).evals@[i],
            reported(old(self).cells@[x as int].category) == ov ==> *final(self) == *old(self),
            final(self).changes@[x as int] == (old(self).changes@[x as int] || reported(old(self).cells@[x as int].category) != ov),
            log_follows(*final(self), *old(self), x),
            faults_follow(*final(self), *old(self), x),
            reported(old(self).cells@[x as int].category) is None && ov is Some ==> faults_passed_up(*final(self), *old(self), x),
        decreases old(self).rank@[x as int],
    {
        let new_value = self.cells[x as usize].get_special();
        let ghost s0 = *self;
        let ghost n = self.n();
        let ghost rows = self.rows as int;
        let ghost cols = self.cols as int;
        if new_value == ov {
            proof {
              if on {
                let m = b.insert(x, (ov, parents_of(s0, x)));
                assert forall|i: int| 0 <= i < n implies #[trigger] self.count_ok_under(b, i) by {
                    assert(self.count_ok_under(m, i));
                    if let Category::OccurCell(o) = self.cells@[i].category {
                        assert forall|h: int| 0 <= h < n implies (#[trigger] believed(self.cells@, m, i)[h]).coordinates.col < cols
                            && handle(believed(self.cells@, m, i)[h].coordinates.row as int,
                                believed(self.cells@, m, i)[h].coordinates.col as int, cols) == h by {
                            assert(self.cells@[h].coordinates == believed(self.cells@, m, i)[h].coordinates);
                        }
                        lemma_views_agree(believed(self.cells@, m, i), believed(self.cells@, b, i), rows, cols, o);
                    }
                }
              }
            }
            return;
        }
        self.changes.set(x as usize, true);
        let parents = graph_neighbors(&self.graph, x, true);
        let ghost r0 = self.rank@;
        proof {
            assert forall|t: int| 0 <= t < parents@.len() implies #[trigger] parents@[t] < n
                && r0[parents@[t] as int] < r0[x as int] && covers(s0.cells@[parents@[t] as int], s0.cells@[x as int]) by {
                assert(parents@.contains(parents@[t]));
                assert(graph_edges(self.graph).contains((parents@[t], x)));
            }
            assert(rest(parents@, 0) =~= parents_of(s0, x)) by {
                assert forall|y: u32| rest(parents@, 0).contains(y) <==> parents_of(s0, x).contains(y) by {
                    if parents@.contains(y) {
                        let t = choose|t: int| 0 <= t < parents@.len() && parents@[t] == y;
                        assert(0 <= t < parents@.len() && parents@[t] == y);
                    }
                    if rest(parents@, 0).contains(y) {
                        let t = choose|t: int| 0 <= t < parents@.len() && parents@[t] == y;
                        assert(parents@.contains(y));
                    }
                }
            }
        }
        proof {
          if on {
            let m = b.insert(x, (ov, rest(parents@, 0)));
            assert(m == b.insert(x, (ov, parents_of(s0, x))));
            assert forall|i: int| 0 <= i < n implies #[trigger] self.count_ok_under(m, i) by {
                assert(s0.count_ok_under(m, i));
            }
          }
        }
        let mut j: usize = 0;
        while j < parents.len()
            invariant
                self.ranked(),
                on ==> forall|i: int| 0 <= i < n && #[trigger] reaches(graph_edges(s0.graph), i as u32, x) ==> self.small_at(i),
                n == self.n(),
                n == s0.n(),
                rows == self.rows,
                cols == self.cols,
                x < n,
                j <= parents@.len(),
                s0 == *old(self),
                self.order == s0.order,
                self.rank == s0.rank,
                r0 == s0.rank@,
                self.cells@[x as int] == s0.cells@[x as int],
                reported(s0.cells@[x as int].category) == new_value,
                new_value != ov,
                parents@.no_duplicates(),
                forall|z: u32| #[trigger] b.contains_key(z) ==> z < n && r0[z as int] > r0[x as int],
                forall|t: int| 0 <= t < parents@.len() ==> #[trigger] parents@[t] < n
                    && r0[parents@[t] as int] < r0[x as int] && covers(s0.cells@[parents@[t] as int], s0.cells@[x as int]),
                forall|i: int| 0 <= i < n ==> evolved(#[trigger] self.cells@[i], s0.cells@[i]),
                forall|i: int| 0 <= i < n && r0[i] >= r0[x as int] ==> #[trigger] self.cells@[i] == s0.cells@[i],
                forall|i: int| 0 <= i < n ==> #[trigger] self.evals@[i] ==> s0.evals@[i],
                on ==> self.consistent(b.insert(x, (ov, rest(parents@, j as int)))),
                self.changes@[x as int],
                log_follows(*self, s0, x),
                faults_follow(*self, s0, x),
                new_value is None ==> forall|t: int| 0 <= t < j ==> is_faulty(#[trigger] self.cells@[parents@[t] as int]),
                new_value is None ==> forall|a: u32, c: u32| #[trigger] graph_edges(s0.graph).contains((a, c))
                    && is_faulty(self.cells@[c as int]) && !is_faulty(s0.cells@[c as int]) ==> is_faulty(self.cells@[a as int]),
                forall|t: int| 0 <= t < parents@.len() ==> graph_edges(s0.graph).contains((#[trigger] parents@[t], x)),
                forall|a: u32, c: u32| #[trigger] graph_edges(s0.graph).contains((a, c)) ==> a < n && c < n,
            decreases parents@.len() - j,
        {
            let p = parents[j];
            let mut parent = self.cells[p as usize];
            let parent_old_value = parent.get_special();
            let ghost before = *self;
            let ghost sj = rest(parents@, j as int);
            let ghost sj1 = rest(parents@, j + 1);
            let ghost mj = b.insert(x, (ov, sj));
            let ghost mj1 = b.insert(x, (ov, sj1));
            proof {
                assert(sj =~= sj1.insert(p)) by {
                    assert forall|y: u32| sj.contains(y) <==> sj1.insert(p).contains(y) by {
                        if sj.contains(y) {
                            let t = choose|t: int| j <= t < parents@.len() && parents@[t] == y;
                            if t > j {
                                assert(sj1.contains(y));
                            }
                        }
                        if sj1.contains(y) {
                            let t = choose|t: int| j + 1 <= t < parents@.len() && parents@[t] == y;
                            assert(sj.contains(y));
                        }
                        if y == p {
                            assert(parents@[j as int] == y);
                        }
                    }
                }
                assert(!sj1.contains(p)) by {
                    if sj1.contains(p) {
                        let t = choose|t: int| j + 1 <= t < parents@.len() && parents@[t] == p;
                        assert(parents@[t] == parents@[j as int]);
                    }
                }
                assert(!b.contains_key(p));
                assert(!b.contains_key(x));
                assert(p != x);
            }
            if let Category::OccurCell(o) = parent.category {
                proof {
                    if on {
                        assert(before.count_ok_under(mj, p as int));
                    }
                }
                let mut changed = true;
                if new_value.is_none() {
                    self.make_faulty(p);
                } else if new_value == Some(o.value) {
                    parent.increment_occ();
                    self.set_count(p, parent);
                } else if ov == Some(o.value) {
                    parent.decrement_occ();
                    self.set_count(p, parent);
                } else {
                    changed = false;
                }
                if changed {
                    proof {
                        if on {
                            lemma_reaches_edge(graph_edges(s0.graph), p, x);
                            assert(before.small_at(p as int));
                            self.lemma_step_ready(before, b, x, ov, sj, sj1, p, parent_old_value);
                            assert forall|e: (u32, u32)| graph_edges(self.graph).contains(e) implies graph_edges(s0.graph).contains(e) by {
                                assert(e == (e.0, e.1));
                                assert(graph_edges(before.graph).contains(e));
                            }
                            assert forall|i: int| 0 <= i < n && #[trigger] reaches(graph_edges(self.graph), i as u32, p)
                                implies self.small_at(i) by {
                                lemma_reaches_extend(graph_edges(self.graph), graph_edges(s0.graph), i as u32, p, x);
                                assert(before.small_at(i));
                            }
                        }
                    }
                    let ghost mid = *self;
                    self.propagate(p, parent_old_value, Ghost(mj1), Ghost(on));
                    proof {
                        lemma_log_step(s0, before, mid, *self, x, p, parent_old_value, new_value is None);
                        if new_value is None {
                            assert forall|t: int| 0 <= t < j + 1 implies is_faulty(#[trigger] self.cells@[parents@[t] as int]) by {
                                assert(evolved(self.cells@[parents@[t] as int], mid.cells@[parents@[t] as int]));
                                if t < j {
                                    assert(is_faulty(before.cells@[parents@[t] as int]));
                                }
                            }
                        }
                    }
                    proof {
                        if on {
                        assert forall|i: int| 0 <= i < n && #[trigger] reaches(graph_edges(s0.graph), i as u32, x)
                            implies self.small_at(i) by {
                            assert(mid.small_at(i));
                            assert(evolved(self.cells@[i], mid.cells@[i]));
                        }
                        }
                    }
                } else {
                    proof {
                        if on {
                            before.lemma_step_unchanged(b, x, ov, sj, sj1, p);
                        }
                    }
                }
            } else {
                proof {
                  if on {
                    assert forall|i: int| 0 <= i < n implies #[trigger] self.count_ok_under(mj1, i) by {
                        assert(self.count_ok_under(mj, i));
                        if i != p {
                            if let Category::OccurCell(o) = self.cells@[i].category {
                                assert forall|h: int| 0 <= h < n implies believed(self.cells@, mj1, i)[h]
                                    == believed(self.cells@, mj, i)[h] by {
                                    lemma_others_agree_unchanged(self.cells@, b, x, ov, sj, sj1, p, i, h);
                                }
                                assert(believed(self.cells@, mj1, i) =~= believed(self.cells@, mj, i));
                            }
                        }
                    }
                  }
                }
            }
            j = j + 1;
        }
        proof {
            if new_value is None && ov is Some {
                assert forall|a: u32, c: u32| #[trigger] graph_edges(s0.graph).contains((a, c)) && (c == x || (is_faulty(self.cells@[c as int])
                    && !is_faulty(s0.cells@[c as int]))) implies is_faulty(self.cells@[a as int]) by {
                    if c == x {
                        assert(parents@.contains(a));
                        let t = choose|t: int| 0 <= t < parents@.len() && parents@[t] == a;
                        assert(is_faulty(self.cells@[parents@[t] as int]));
                    }
                }
            }
        }
        proof {
          if on {
            let m = b.insert(x, (ov, rest(parents@, parents@.len() as int)));
            assert forall|i: int| 0 <= i < n implies #[trigger] self.count_ok_under(b, i) by {
                assert(self.count_ok_under(m, i));
                assert(believed(self.cells@, m, i) =~= believed(self.cells@, b, i)) by {
                    assert forall|h: int| 0 <= h < n implies believed(self.cells@, m, i)[h] == believed(self.cells@, b, i)[h] by {
                        if h as u32 == x {
                            assert(!rest(parents@, parents@.len() as int).contains(i as u32));
                        }
                    }
                }
            }
          }
        }
    }
}

impl SpreadSheet {
    /// After the formula `p`, a counter of `x`, has taken in the change of
    /// `x` (count moved, or made faulty), every formula's count is right
    /// once the counters of `p` are taken to still see its old value.
    proof fn lemma_step_ready(self, before: SpreadSheet, b: Beliefs, x: u32, ov: Option<u32>, sj: Set<u32>,
        sj1: Set<u32>, p: u32, old_p: Option<u32>)
        requires
            before.ranked(),
            self.ranked(),
            before.small_at(p as int),
            x < before.n(),
            p < before.n(),
            self.rows == before.rows,
            self.cols == before.cols,
            self.rank == before.rank,
            forall|z: u32| #[trigger] b.contains_key(z) ==> z < before.n() && before.rank@[z as int] > before.rank@[x as int],
            before.rank@[p as int] < before.rank@[x as int],
            covers(before.cells@[p as int], before.cells@[x as int]),
            sj == sj1.insert(p),
            !sj1.contains(p),
            before.consistent(b.insert(x, (ov, sj))),
            self.cells@ == before.cells@.update(p as int, self.cells@[p as int]),
            old_p == reported(before.cells@[p as int].category),
            reported(before.cells@[x as int].category) != ov,
            before.cells@[p as int].category matches Category::OccurCell(o) && ({
                let t = o.value;
                let nv = reported(before.cells@[x as int].category);
                if nv is None {
                    self.cells@[p as int] == (Cell { category: Category::FaultyCell, ..before.cells@[p as int] })
                } else {
                    self.cells@[p as int].category matches Category::OccurCell(q) && same_but_count(
                        self.cells@[p as int], before.cells@[p as int]) && q.occurrence == if nv == Some(t) {
                        if o.occurrence >= 255 { 255 } else { (o.occurrence + 1) as u32 }
                    } else if ov == Some(t) {
                        if o.occurrence == 0 { 0 } else { (o.occurrence - 1) as u32 }
                    } else {
                        o.occurrence
                    } && (nv == Some(t) || ov == Some(t))
                }
            }),
        ensures
            self.small_at(p as int),
            self.consistent(b.insert(x, (ov, sj1)).insert(p, (old_p, parents_of(self, p)))),
            forall|z: u32| #[trigger] b.insert(x, (ov, sj1)).contains_key(z) ==> z < self.n()
                && self.rank@[z as int] > self.rank@[p as int],
    {
        let n = self.n();
        let rows = self.rows as int;
        let cols = self.cols as int;
        let pp = parents_of(self, p);
        let mj = b.insert(x, (ov, sj));
        let m = b.insert(x, (ov, sj1)).insert(p, (old_p, pp));
        assert(!b.contains_key(x) && !b.contains_key(p) && x != p);
        assert(before.small_at(p as int));
        assert forall|i: int| 0 <= i < n implies #[trigger] self.count_ok_under(m, i) by {
            assert(before.count_ok_under(mj, i));
            if let Category::OccurCell(oi) = self.cells@[i].category {
                let vn = believed(self.cells@, m, i);
                let vo = believed(before.cells@, mj, i);
                if i == p {
                    let o = before.cells@[p as int].category->OccurCell_0;
                    let vx = vo.update(x as int, before.cells@[x as int]);
                    assert(!pp.contains(p)) by {
                        if pp.contains(p) {
                            assert(graph_edges(self.graph).contains((p, p)));
                        }
                    }
                    assert forall|h: int| 0 <= h < n && oi.rectangle.contains(
                        vn[h].coordinates.row as int, vn[h].coordinates.col as int)
                        implies reported(#[trigger] vn[h].category) == reported(vx[h].category) by {
                        if h == p {
                            assert(covers(self.cells@[p as int], self.cells@[p as int]));
                            assert(graph_edges(self.graph).contains((p, p)));
                        } else {
                            lemma_own_view(before.cells@, self.cells@, b, x, ov, sj, sj1, p, old_p, pp, h);
                        }
                    }
                    assert forall|h: int| 0 <= h < n implies vn[h].coordinates.col < cols && handle(
                        (#[trigger] vn[h]).coordinates.row as int, vn[h].coordinates.col as int, cols) == h by {
                        assert(vn[h].coordinates == self.cells@[h].coordinates);
                    }
                    lemma_views_agree(vn, vx, rows, cols, oi);
                    assert(vo[x as int].coordinates == before.cells@[x as int].coordinates);
                    lemma_occurrences_change(vo, x as int, before.cells@[x as int], rows, cols, o);
                    lemma_occurrences_bound(vo, cols, o);
                } else {
                    assert(self.cells@[i] == before.cells@[i]);
                    assert forall|h: int| 0 <= h < n && oi.rectangle.contains(
                        vn[h].coordinates.row as int, vn[h].coordinates.col as int)
                        implies reported(#[trigger] vn[h].category) == reported(vo[h].category) by {
                        if h == p {
                            assert(covers(self.cells@[i], self.cells@[p as int]));
                            assert(graph_edges(self.graph).contains((i as u32, p)));
                        }
                        lemma_others_agree(before.cells@, self.cells@, b, x, ov, sj, sj1, p, old_p, pp, i, h);
                    }
                    assert forall|h: int| 0 <= h < n implies vn[h].coordinates.col < cols && handle(
                        (#[trigger] vn[h]).coordinates.row as int, vn[h].coordinates.col as int, cols) == h by {
                        assert(vn[h].coordinates == self.cells@[h].coordinates);
                    }
                    lemma_views_agree(vn, vo, rows, cols, oi);
                }
            }
        }
    }

    /// When `x`'s change moves neither of `p`'s counts (neither value is its
    /// target), `p` may stop counting `x` as `ov`.
    proof fn lemma_step_unchanged(self, b: Beliefs, x: u32, ov: Option<u32>, sj: Set<u32>, sj1: Set<u32>, p: u32)
        requires
            self.ranked(),
            x < self.n(),
            p < self.n(),
            !b.contains_key(x),
            sj == sj1.insert(p),
            !sj1.contains(p),
            self.consistent(b.insert(x, (ov, sj))),
            covers(self.cells@[p as int], self.cells@[x as int]),
            self.cells@[p as int].category matches Category::OccurCell(o)
                && reported(self.cells@[x as int].category) != Some(o.value) && ov != Some(o.value),
        ensures
            self.consistent(b.insert(x, (ov, sj1))),
    {
        let n = self.n();
        let rows = self.rows as int;
        let cols = self.cols as int;
        let mj = b.insert(x, (ov, sj));
        let mj1 = b.insert(x, (ov, sj1));
        assert forall|i: int| 0 <= i < n implies #[trigger] self.count_ok_under(mj1, i) by {
            assert(self.count_ok_under(mj, i));
            if let Category::OccurCell(oi) = self.cells@[i].category {
                let vo = believed(self.cells@, mj, i);
                if i == p {
                    let vx = vo.update(x as int, self.cells@[x as int]);
                    assert forall|h: int| 0 <= h < n implies believed(self.cells@, mj1, p as int)[h] == vx[h] by {
                        lemma_own_view_unchanged(self.cells@, b, x, ov, sj, sj1, p, h);
                    }
                    assert(believed(self.cells@, mj1, i) =~= vx);
                    assert(vo[x as int].coordinates == self.cells@[x as int].coordinates);
                    lemma_occurrences_change(vo, x as int, self.cells@[x as int], rows, cols, oi);
                } else {
                    assert forall|h: int| 0 <= h < n implies believed(self.cells@, mj1, i)[h] == vo[h] by {
                        lemma_others_agree_unchanged(self.cells@, b, x, ov, sj, sj1, p, i, h);
                    }
                    assert(believed(self.cells@, mj1, i) =~= vo);
                }
            }
        }
    }
}

impl SpreadSheet {
    /// Right after an edit has stored its cell at `h` (linked, checked for
    /// cycles and evaluated), the counts of an evaluated sheet are right for
    /// `h` still reporting its old value.
    pub(crate) proof fn lemma_edit_ready(self, s0: SpreadSheet, h: u32, old_value: Option<u32>)
        requires
            s0.evaluated(),
            s0.small_ancestors(h),
            forall|k: (u32, u32)| k.0 != h ==> (graph_edges(self.graph).contains(k) <==> graph_edges(s0.graph).contains(k)),
            self.ranked(),
            h < s0.n(),
            self.n() == s0.n(),
            self.rows == s0.rows,
            self.cols == s0.cols,
            old_value == reported(s0.cells@[h as int].category),
            forall|i: int| 0 <= i < s0.n() && i != h ==> #[trigger] self.cells@[i] == s0.cells@[i],
            forall|i: int| 0 <= i < s0.n() && i != h ==> #[trigger] self.evals@[i] == s0.evals@[i],
            !self.evals@[h as int],
            self.count_ok(h as int),
        ensures
            self.small_ancestors(h),
            self.consistent(Map::<u32, (Option<u32>, Set<u32>)>::empty().insert(h, (old_value, parents_of(self, h)))),
            forall|i: int| 0 <= i < self.n() ==> !(#[trigger] self.evals@[i]),
    {
        let n = self.n();
        let rows = self.rows as int;
        let cols = self.cols as int;
        let m = Map::<u32, (Option<u32>, Set<u32>)>::empty().insert(h, (old_value, parents_of(self, h)));
        assert forall|i: int| 0 <= i < n && #[trigger] reaches(graph_edges(self.graph), i as u32, h) implies self.small_at(i) by {
            lemma_reaches_into(graph_edges(self.graph), graph_edges(s0.graph), self.rank@, i as u32, h);
            lemma_ranked_acyclic(graph_edges(self.graph), self.rank@, h);
            assert(i != h);
            assert(s0.small_at(i));
        }
        assert forall|i: int| 0 <= i < n implies !(#[trigger] self.evals@[i]) by {
            if i != h {
                assert(!s0.evals@[i]);
            }
        }
        assert forall|i: int| 0 <= i < n implies #[trigger] self.count_ok_under(m, i) by {
            let v = believed(self.cells@, m, i);
            assert forall|k: int| 0 <= k < n implies v[k].coordinates.col < cols && handle(
                (#[trigger] v[k]).coordinates.row as int, v[k].coordinates.col as int, cols) == k by {
                assert(v[k].coordinates == self.cells@[k].coordinates);
            }
            if let Category::OccurCell(oi) = self.cells@[i].category {
                if i == h {
                    assert(!parents_of(self, h).contains(h)) by {
                        if parents_of(self, h).contains(h) {
                            assert(graph_edges(self.graph).contains((h, h)));
                        }
                    }
                    assert(v =~= self.cells@);
                    assert(self.count_ok(h as int));
                } else {
                    assert(s0.count_ok(i));
                    assert forall|k: int| 0 <= k < n && oi.rectangle.contains(
                        v[k].coordinates.row as int, v[k].coordinates.col as int)
                        implies reported(#[trigger] v[k].category) == reported(s0.cells@[k].category) by {
                        if k == h {
                            assert(covers(self.cells@[i], self.cells@[h as int]));
                            assert(graph_edges(self.graph).contains((i as u32, h)));
                            assert(parents_of(self, h).contains(i as u32));
                        }
                    }
                    lemma_views_agree(v, s0.cells@, rows, cols, oi);
                }
            }
        }
    }
}

proof fn lemma_walk_rises(edges: Set<(u32, u32)>, rank: Seq<usize>, p: Seq<u32>, k: int)
    requires
        forall|a: u32, b: u32| #[trigger] edges.contains((a, b)) ==> (a as int) < rank.len() && (b as int) < rank.len()
            && rank[a as int] < rank[b as int],
        1 <= k < p.len(),
        forall|i: int| 0 <= i < p.len() - 1 ==> #[trigger] edges.contains((p[i], p[i + 1])),
    ensures
        rank[p[0] as int] < rank[p[k] as int],
    decreases k,
{
    let j = k - 1;
    assert(edges.contains((p[j], p[j + 1])));
    if k > 1 {
        lemma_walk_rises(edges, rank, p, k - 1);
    }
}

/// No walk returns to where it started in a graph whose edges all go up in
/// `rank`.
pub proof fn lemma_ranked_acyclic(edges: Set<(u32, u32)>, rank: Seq<usize>, x: u32)
    requires
        forall|a: u32, b: u32| #[trigger] edges.contains((a, b)) ==> (a as int) < rank.len() && (b as int) < rank.len()
            && rank[a as int] < rank[b as int],
    ensures
        !on_cycle(edges, x),
{
    if on_cycle(edges, x) {
        let p = choose|p: Seq<u32>| #![trigger p.len(), p[0]] p.len() >= 2 && p[0] == x && p.last() == x
            && forall|i: int| 0 <= i < p.len() - 1 ==> #[trigger] edges.contains((p[i], p[i + 1]));
        lemma_walk_rises(edges, rank, p, p.len() - 1);
        assert(p[p.len() - 1] == p.last());
    }
}

pub open spec fn is_faulty(c: Cell) -> bool {
    c.category is FaultyCell
}

/// The changelog of `new` extends that of `old` by every cell whose
/// reported value changed, and by nothing but `x` and ancestors of `x`.
pub open spec fn log_follows(new: SpreadSheet, old: SpreadSheet, x: u32) -> bool {
    &&& new.changes@.len() == old.changes@.len()
    &&& forall|i: int| 0 <= i < old.n() && old.changes@[i] ==> #[trigger] new.changes@[i]
    &&& forall|i: int| 0 <= i < old.n() && #[trigger] new.changes@[i] ==> old.changes@[i] || i == x
        || reaches(graph_edges(old.graph), i as u32, x)
    &&& forall|i: int| 0 <= i < old.n() && reported((#[trigger] new.cells@[i]).category) != reported(old.cells@[i].category)
        ==> new.changes@[i]
}

/// Edges only go, and only from cells that are faulty in `new`; when `x`
/// reports a value, no cell becomes faulty.
pub open spec fn faults_follow(new: SpreadSheet, old: SpreadSheet, x: u32) -> bool {
    &&& forall|e: (u32, u32)| graph_edges(new.graph).contains(e) ==> graph_edges(old.graph).contains(e)
    &&& forall|e: (u32, u32)| graph_edges(old.graph).contains(e) && !graph_edges(new.graph).contains(e)
        ==> is_faulty(new.cells@[e.0 as int])
    &&& reported(old.cells@[x as int].category) is Some ==> forall|i: int| 0 <= i < old.n()
        && is_faulty(#[trigger] new.cells@[i]) ==> is_faulty(old.cells@[i])
}

/// Faultiness has passed up every edge into `x`, and into every cell that
/// became faulty.
pub open spec fn faults_passed_up(new: SpreadSheet, old: SpreadSheet, x: u32) -> bool {
    forall|a: u32, b: u32| #[trigger] graph_edges(old.graph).contains((a, b)) && (b == x || (is_faulty(new.cells@[b as int])
        && !is_faulty(old.cells@[b as int]))) ==> is_faulty(new.cells@[a as int])
}

/// A directed walk of at least one edge from `a` to `b`: `a` is an ancestor
/// of `b`, a formula counting `b` directly or through other formulas.
pub open spec fn reaches(edges: Set<(u32, u32)>, a: u32, b: u32) -> bool {
    exists|p: Seq<u32>| #![trigger p.len(), p[0]]
        p.len() >= 2 && p[0] == a && p.last() == b && forall|i: int|
            0 <= i < p.len() - 1 ==> #[trigger] edges.contains((p[i], p[i + 1]))
}

pub proof fn lemma_reaches_edge(edges: Set<(u32, u32)>, a: u32, b: u32)
    requires
        edges.contains((a, b)),
    ensures
        reaches(edges, a, b),
{
    let p = seq![a, b];
    assert(p.len() >= 2 && p[0] == a && p.last() == b);
    assert forall|i: int| 0 <= i < p.len() - 1 implies #[trigger] edges.contains((p[i], p[i + 1])) by {
        assert(i == 0);
    }
}

/// Walks survive in a graph with more edges, and extend by one edge.
pub proof fn lemma_reaches_extend(e1: Set<(u32, u32)>, e0: Set<(u32, u32)>, a: u32, b: u32, c: u32)
    requires
        reaches(e1, a, b),
        forall|e: (u32, u32)| e1.contains(e) ==> e0.contains(e),
        e0.contains((b, c)),
    ensures
        reaches(e0, a, c),
{
    let p = choose|p: Seq<u32>| #![trigger p.len(), p[0]]
        p.len() >= 2 && p[0] == a && p.last() == b && forall|i: int|
            0 <= i < p.len() - 1 ==> #[trigger] e1.contains((p[i], p[i + 1]));
    let q = p.push(c);
    assert(q.len() >= 2 && q[0] == a && q.last() == c);
    assert forall|i: int| 0 <= i < q.len() - 1 implies #[trigger] e0.contains((q[i], q[i + 1])) by {
        if i < p.len() - 1 {
            assert(e1.contains((p[i], p[i + 1])));
            assert(q[i] == p[i] && q[i + 1] == p[i + 1]);
        } else {
            assert(q[i] == b && q[i + 1] == c);
        }
    }
}

/// Every cell on a walk into `x` whose edges all leave formulas, in a graph
/// where a faulty end passes faultiness to the start of each edge into it,
/// is faulty.
proof fn lemma_walk_faulty(edges: Set<(u32, u32)>, old_cells: Seq<Cell>, new_cells: Seq<Cell>, x: u32, p: Seq<u32>, k: int)
    requires
        p.len() >= 2,
        p.last() == x,
        0 <= k < p.len() - 1,
        forall|i: int| 0 <= i < p.len() - 1 ==> #[trigger] edges.contains((p[i], p[i + 1])),
        forall|a: u32, b: u32| #[trigger] edges.contains((a, b)) ==> (a as int) < old_cells.len()
            && (b as int) < old_cells.len() && !(old_cells[a as int].category is FaultyCell),
        forall|a: u32, b: u32| #[trigger] edges.contains((a, b)) && (b == x || ((new_cells[b as int].category is FaultyCell)
            && !(old_cells[b as int].category is FaultyCell))) ==> new_cells[a as int].category is FaultyCell,
    ensures
        new_cells[p[k] as int].category is FaultyCell,
    decreases p.len() - k,
{
    assert(edges.contains((p[k], p[k + 1])));
    if k < p.len() - 2 {
        lemma_walk_faulty(edges, old_cells, new_cells, x, p, k + 1);
        let j = k + 1;
        assert(edges.contains((p[j], p[j + 1])));
    }
}

/// Every ancestor of `x` is faulty, given that faultiness passes up every edge
/// into `x` or into a cell that became faulty.
pub proof fn lemma_ancestors_faulty(edges: Set<(u32, u32)>, old_cells: Seq<Cell>, new_cells: Seq<Cell>, x: u32, a: u32)
    requires
        reaches(edges, a, x),
        forall|a: u32, b: u32| #[trigger] edges.contains((a, b)) ==> (a as int) < old_cells.len()
            && (b as int) < old_cells.len() && !(old_cells[a as int].category is FaultyCell),
        forall|a: u32, b: u32| #[trigger] edges.contains((a, b)) && (b == x || ((new_cells[b as int].category is FaultyCell)
            && !(old_cells[b as int].category is FaultyCell))) ==> new_cells[a as int].category is FaultyCell,
    ensures
        new_cells[a as int].category is FaultyCell,
{
    let p = choose|p: Seq<u32>| #![trigger p.len(), p[0]]
        p.len() >= 2 && p[0] == a && p.last() == x && forall|i: int|
            0 <= i < p.len() - 1 ==> #[trigger] edges.contains((p[i], p[i + 1]));
    lemma_walk_faulty(edges, old_cells, new_cells, x, p, 0);
}

/// One parent's step of `propagate` keeps the changelog and faultiness
/// invariants: `before` is the state before the parent `p` of `x` changed,
/// `mid` right after, `fin` after `p`'s own change was passed on.
proof fn lemma_log_step(s0: SpreadSheet, before: SpreadSheet, mid: SpreadSheet, fin: SpreadSheet, x: u32, p: u32,
    old_p: Option<u32>, x_faulty: bool)
    requires
        s0.n() < u32::MAX,
        x < s0.n(),
        p < s0.n(),
        p != x,
        graph_edges(s0.graph).contains((p, x)),
        forall|a: u32, c: u32| #[trigger] graph_edges(s0.graph).contains((a, c)) ==> a < s0.n() && c < s0.n(),
        before.n() == s0.n(),
        mid.n() == s0.n(),
        fin.n() == s0.n(),
        old_p == reported(before.cells@[p as int].category),
        before.cells@[p as int].category is OccurCell,
        log_follows(before, s0, x),
        faults_follow(before, s0, x),
        x_faulty == (reported(s0.cells@[x as int].category) is None),
        x_faulty ==> forall|a: u32, c: u32| #[trigger] graph_edges(s0.graph).contains((a, c))
            && is_faulty(before.cells@[c as int]) && !is_faulty(s0.cells@[c as int]) ==> is_faulty(before.cells@[a as int]),
        mid.changes == before.changes,
        mid.cells@ == before.cells@.update(p as int, mid.cells@[p as int]),
        x_faulty ==> is_faulty(mid.cells@[p as int]),
        !x_faulty ==> mid.cells@[p as int].category is OccurCell && mid.graph == before.graph,
        forall|a: u32, c: u32| #[trigger] graph_edges(mid.graph).contains((a, c)) <==> (graph_edges(before.graph).contains((a, c))
            && (!x_faulty || a != p)),
        fin.changes@[p as int] == (mid.changes@[p as int] || reported(mid.cells@[p as int].category) != old_p),
        log_follows(fin, mid, p),
        faults_follow(fin, mid, p),
        reported(mid.cells@[p as int].category) is None && old_p is Some ==> faults_passed_up(fin, mid, p),
        forall|i: int| 0 <= i < s0.n() ==> evolved(#[trigger] fin.cells@[i], mid.cells@[i]),
        forall|i: int| 0 <= i < s0.n() ==> evolved(#[trigger] before.cells@[i], s0.cells@[i]),
    ensures
        log_follows(fin, s0, x),
        faults_follow(fin, s0, x),
        x_faulty ==> forall|a: u32, c: u32| #[trigger] graph_edges(s0.graph).contains((a, c))
            && is_faulty(fin.cells@[c as int]) && !is_faulty(s0.cells@[c as int]) ==> is_faulty(fin.cells@[a as int]),
{
    let e0 = graph_edges(s0.graph);
    let eb = graph_edges(before.graph);
    let em = graph_edges(mid.graph);
    let ef = graph_edges(fin.graph);
    assert forall|e: (u32, u32)| em.contains(e) implies e0.contains(e) by {
        assert(e == (e.0, e.1));
    }
    assert forall|i: int| 0 <= i < s0.n() && #[trigger] fin.changes@[i] implies s0.changes@[i] || i == x
        || reaches(e0, i as u32, x) by {
        if !mid.changes@[i] {
            if i == p {
                lemma_reaches_edge(e0, p, x);
            } else {
                lemma_reaches_extend(em, e0, i as u32, p, x);
            }
        }
    }
    assert forall|i: int| 0 <= i < s0.n() && reported((#[trigger] fin.cells@[i]).category) != reported(s0.cells@[i].category)
        implies fin.changes@[i] by {
        if reported(before.cells@[i].category) != reported(s0.cells@[i].category) {
            assert(before.changes@[i]);
        } else if reported(mid.cells@[i].category) != reported(before.cells@[i].category) {
            assert(i == p);
        }
    }
    assert forall|e: (u32, u32)| ef.contains(e) implies e0.contains(e) by {
        assert(em.contains(e));
    }
    assert forall|e: (u32, u32)| e0.contains(e) && !ef.contains(e) implies is_faulty(fin.cells@[e.0 as int]) by {
        assert(e == (e.0, e.1));
        assert(e0.contains((e.0, e.1)));
        assert(evolved(fin.cells@[e.0 as int], mid.cells@[e.0 as int]));
        if !eb.contains(e) {
            assert(is_faulty(before.cells@[e.0 as int]));
        } else if !em.contains(e) {
            assert(e.0 == p);
        }
    }
    if reported(s0.cells@[x as int].category) is Some {
        assert forall|i: int| 0 <= i < s0.n() && is_faulty(#[trigger] fin.cells@[i]) implies is_faulty(s0.cells@[i]) by {
            assert(is_faulty(mid.cells@[i]));
            if i != p {
                assert(is_faulty(before.cells@[i]));
            }
        }
    }
    if x_faulty {
        assert forall|a: u32, c: u32| #[trigger] e0.contains((a, c)) && is_faulty(fin.cells@[c as int])
            && !is_faulty(s0.cells@[c as int]) implies is_faulty(fin.cells@[a as int]) by {
            assert(a < s0.n() && c < s0.n());
            assert(evolved(fin.cells@[a as int], mid.cells@[a as int]));
            if !em.contains((a, c)) {
                if eb.contains((a, c)) {
                    assert(a == p);
                } else {
                    assert(is_faulty(before.cells@[a as int]));
                }
            } else if c == p {
            } else if is_faulty(mid.cells@[c as int]) {
                assert(is_faulty(before.cells@[c as int]));
                assert(is_faulty(before.cells@[a as int]));
            }
        }
    }
}

/// In a graph whose edges go up in `rank`, a walk into `h` never leaves `h`,
/// so it stays a walk in any graph holding the same edges out of other cells.
pub proof fn lemma_reaches_into(e: Set<(u32, u32)>, e2: Set<(u32, u32)>, rank: Seq<usize>, a: u32, h: u32)
    requires
        reaches(e, a, h),
        forall|u: u32, v: u32| #[trigger] e.contains((u, v)) ==> (u as int) < rank.len() && (v as int) < rank.len()
            && rank[u as int] < rank[v as int],
        forall|k: (u32, u32)| e.contains(k) && k.0 != h ==> e2.contains(k),
    ensures
        reaches(e2, a, h),
{
    let p = choose|p: Seq<u32>| #![trigger p.len(), p[0]]
        p.len() >= 2 && p[0] == a && p.last() == h && forall|i: int|
            0 <= i < p.len() - 1 ==> #[trigger] e.contains((p[i], p[i + 1]));
    assert forall|i: int| 0 <= i < p.len() - 1 implies #[trigger] e2.contains((p[i], p[i + 1])) by {
        let q = p.subrange(i, p.len() as int);
        assert forall|t: int| 0 <= t < q.len() - 1 implies #[trigger] e.contains((q[t], q[t + 1])) by {
            assert(e.contains((p[i + t], p[i + t + 1])));
        }
        lemma_walk_rises(e, rank, q, q.len() - 1);
        assert(e.contains((p[i], p[i + 1])));
    }
    assert(p.len() >= 2 && p[0] == a && p.last() == h);
}

/// What an edit at `h` leaves, stated against the sheet before it: `mid` is
/// the sheet once the edited cell is stored, `fin` once its change is passed on.
pub proof fn lemma_edit_outcome(old: SpreadSheet, mid: SpreadSheet, fin: SpreadSheet, h: u32)
    requires
        old.ranked(),
        mid.ranked(),
        fin.ranked(),
        h < old.n(),
        mid.n() == old.n(),
        fin.n() == old.n(),
        mid.rows == old.rows && fin.rows == old.rows,
        mid.cols == old.cols && fin.cols == old.cols,
        forall|i: int| 0 <= i < old.n() && i != h ==> #[trigger] mid.cells@[i] == old.cells@[i],
        mid.changes == old.changes,
        forall|k: (u32, u32)| k.0 != h ==> (graph_edges(mid.graph).contains(k) <==> graph_edges(old.graph).contains(k)),
        mid.count_ok(h as int),
        fin.changes@[h as int] == (mid.changes@[h as int] || reported(mid.cells@[h as int].category) != reported(
            old.cells@[h as int].category)),
        log_follows(fin, mid, h),
        reported(mid.cells@[h as int].category) is None && reported(old.cells@[h as int].category) is Some
            ==> faults_passed_up(fin, mid, h),
        forall|i: int| 0 <= i < old.n() ==> evolved(#[trigger] fin.cells@[i], mid.cells@[i]),
        forall|i: int| 0 <= i < old.n() && mid.rank@[i] >= mid.rank@[h as int] ==> #[trigger] fin.cells@[i] == mid.cells@[i],
    ensures
        fin.cells@[h as int] == mid.cells@[h as int],
        forall|i: int| 0 <= i < old.n() && reported((#[trigger] fin.cells@[i]).category) != reported(old.cells@[i].category)
            ==> fin.changes@[i],
        fin.changes@[h as int] == (old.changes@[h as int] || reported(fin.cells@[h as int].category) != reported(
            old.cells@[h as int].category)),
        forall|i: int| 0 <= i < old.n() && #[trigger] fin.changes@[i] ==> old.changes@[i] || i == h
            || reaches(graph_edges(old.graph), i as u32, h),
        is_faulty(fin.cells@[h as int]) && !is_faulty(old.cells@[h as int]) ==> forall|a: u32| #[trigger] reaches(
            graph_edges(old.graph), a, h) ==> is_faulty(fin.cells@[a as int]),
        fin.count_ok(h as int),
{
    let eo = graph_edges(old.graph);
    let em = graph_edges(mid.graph);
    assert(fin.cells@[h as int] == mid.cells@[h as int]);
    assert forall|i: int| 0 <= i < old.n() && #[trigger] fin.changes@[i] implies old.changes@[i] || i == h
        || reaches(eo, i as u32, h) by {
        if !mid.changes@[i] && i != h {
            assert(reaches(em, i as u32, h));
            lemma_reaches_into(em, eo, mid.rank@, i as u32, h);
        }
    }
    assert forall|i: int| 0 <= i < old.n() && reported((#[trigger] fin.cells@[i]).category) != reported(old.cells@[i].category)
        implies fin.changes@[i] by {
        if i != h {
            assert(mid.cells@[i] == old.cells@[i]);
        }
    }
    if is_faulty(fin.cells@[h as int]) && !is_faulty(old.cells@[h as int]) {
        assert forall|a: u32| #[trigger] reaches(eo, a, h) implies is_faulty(fin.cells@[a as int]) by {
            lemma_reaches_into(eo, em, old.rank@, a, h);
            assert forall|u: u32, v: u32| #[trigger] em.contains((u, v)) implies (u as int) < mid.cells@.len()
                && (v as int) < mid.cells@.len() && !(mid.cells@[u as int].category is FaultyCell) by {
                assert(covers(mid.cells@[u as int], mid.cells@[v as int]));
            }
            lemma_ancestors_faulty(em, mid.cells@, fin.cells@, h, a);
        }
    }
    if let Category::OccurCell(q) = mid.cells@[h as int].category {
        let rows = old.rows as int;
        let cols = old.cols as int;
        assert forall|k: int| 0 <= k < fin.n() && q.rectangle.contains(fin.cells@[k].coordinates.row as int,
            fin.cells@[k].coordinates.col as int) implies reported((#[trigger] fin.cells@[k]).category)
            == reported(mid.cells@[k].category) by {
            assert(evolved(fin.cells@[k], mid.cells@[k]));
            assert(covers(mid.cells@[h as int], mid.cells@[k]));
            assert(em.contains((h, k as u32)));
        }
        assert forall|k: int| 0 <= k < fin.n() implies fin.cells@[k].coordinates.col < cols && handle(
            (#[trigger] fin.cells@[k]).coordinates.row as int, fin.cells@[k].coordinates.col as int, cols) == k by {}
        lemma_views_agree(fin.cells@, mid.cells@, rows, cols, q);
    }
}

} // verus!

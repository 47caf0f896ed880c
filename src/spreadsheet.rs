//! The sheet: loading, linking, evaluation and edits.

use vstd::prelude::*;
use vstd::string::StringSliceAdditionalSpecFns;
use crate::cell::{reported, stored, Category, Cell, OccurCell};
use crate::coordinates::Coordinates;
use crate::descriptor::classify_spec;
use crate::graph::{graph_add_edge, graph_add_node, graph_edges, graph_new, graph_nodes, on_cycle, DepGraph};
use crate::quarantine::{from_cycles, kept_or_faulty, listed_after, walk_to};
use crate::propagation::{
    believed, evolved, is_faulty, lemma_ancestors_faulty, lemma_edit_outcome, lemma_ranked_acyclic, log_follows,
    faults_follow, parents_of, reaches,
};

verus! {

/// The sheet: a grid of `rows` x `cols` cells, the dependency graph over
/// them, the formulas still to evaluate, and the cells changed by the edit
/// under way. The cell at (r, c) has handle `r * cols + c`.
pub struct SpreadSheet {
    pub graph: DepGraph,
    pub cells: Vec<Cell>,
    /// `evals[i]`: the formula at handle `i` still awaits its first evaluation.
    pub evals: Vec<bool>,
    /// `changes[i]`: the cell at handle `i` changed during the current edit.
    pub changes: Vec<bool>,
    /// Handles in an order where every formula comes before the cells it counts.
    pub order: Vec<u32>,
    /// `rank[i]`: position of handle `i` in `order`.
    pub rank: Vec<usize>,
    pub rows: u32,
    pub cols: u32,
}

/// The formula `a` counts the cell `b`.
pub open spec fn covers(a: Cell, b: Cell) -> bool {
    match a.category {
        Category::OccurCell(o) => o.rectangle.contains(b.coordinates.row as int, b.coordinates.col as int),
        _ => false,
    }
}

/// Handle of the cell at (r, c) in a grid with `cols` columns.
pub open spec fn handle(r: int, c: int, cols: int) -> int {
    r * cols + c
}

/// Whether the cell at (r, c) reports `t`.
pub open spec fn reports_at(cells: Seq<Cell>, cols: int, r: int, c: int, t: u32) -> bool {
    reported(cells[handle(r, c, cols)].category) == Some(t)
}

/// Number of columns c in [lo, hi) such that the cell at (r, c) reports `t`.
pub open spec fn count_row(cells: Seq<Cell>, cols: int, r: int, lo: int, hi: int, t: u32) -> nat
    decreases hi - lo,
{
    if hi <= lo {
        0
    } else {
        count_row(cells, cols, r, lo, hi - 1, t) + if reports_at(cells, cols, r, hi - 1, t) { 1nat } else { 0nat }
    }
}

/// Number of coordinates in rows [rlo, rhi) and columns [clo, chi) whose cell reports `t`.
pub open spec fn count_rect(cells: Seq<Cell>, cols: int, rlo: int, rhi: int, clo: int, chi: int, t: u32) -> nat
    decreases rhi - rlo,
{
    if rhi <= rlo {
        0
    } else {
        count_rect(cells, cols, rlo, rhi - 1, clo, chi, t) + count_row(cells, cols, rhi - 1, clo, chi, t)
    }
}

/// Number of coordinates of `o`'s region whose cell reports `o`'s target.
pub open spec fn occurrences(cells: Seq<Cell>, cols: int, o: OccurCell) -> nat {
    count_rect(
        cells,
        cols,
        o.rectangle.begin.row as int,
        o.rectangle.end.row + 1,
        o.rectangle.begin.col as int,
        o.rectangle.end.col + 1,
        o.value,
    )
}

pub open spec fn clamp255(n: nat) -> u32 {
    if n > 255 { 255 } else { n as u32 }
}

/// The count that formula `o` should hold: its occurrences, clamped to 255.
pub open spec fn expected_count(cells: Seq<Cell>, cols: int, o: OccurCell) -> u32 {
    clamp255(occurrences(cells, cols, o))
}

impl SpreadSheet {
    pub open spec fn n(self) -> int {
        self.cells@.len() as int
    }

    /// Grid shape, handles and coordinates, and the side tables' lengths.
    pub open spec fn wf_cells(self) -> bool {
        &&& self.cells@.len() == self.rows * self.cols
        &&& self.cells@.len() < u32::MAX
        &&& self.evals@.len() == self.cells@.len()
        &&& self.changes@.len() == self.cells@.len()
        &&& forall|i: int| 0 <= i < self.n() ==> {
            let c = #[trigger] self.cells@[i];
            &&& c.index == i
            &&& c.coordinates.row < self.rows
            &&& c.coordinates.col < self.cols
            &&& handle(c.coordinates.row as int, c.coordinates.col as int, self.cols as int) == i
        }
    }

    /// The graph holds one node per cell and exactly the edges from each
    /// formula to the cells of its region; every formula's region is well
    /// formed and inside the grid.
    pub open spec fn linked(self) -> bool {
        &&& self.wf_cells()
        &&& forall|x: u32| graph_nodes(self.graph).contains(x) <==> x < self.n()
        &&& forall|a: u32, b: u32|
            #[trigger] graph_edges(self.graph).contains((a, b)) <==> (a < self.n() && b < self.n()
                && covers(self.cells@[a as int], self.cells@[b as int]))
        &&& forall|i: int| 0 <= i < self.n() ==> match (#[trigger] self.cells@[i]).category {
            Category::OccurCell(o) => o.rectangle.well_formed() && o.rectangle.in_bounds(
                self.rows as int,
                self.cols as int,
            ),
            _ => true,
        }
        &&& forall|i: int| 0 <= i < self.n() ==> #[trigger] self.evals@[i] ==> (self.cells@[i].category is OccurCell)
    }

    /// `order` lists every handle once, each formula before the cells it counts.
    pub open spec fn ranked(self) -> bool {
        &&& self.linked()
        &&& self.rank@.len() == self.n()
        &&& forall|k: int| 0 <= k < self.order@.len() ==> (#[trigger] self.order@[k]) < self.n()
            && self.rank@[self.order@[k] as int] == k
        &&& forall|i: int| 0 <= i < self.n() ==> (#[trigger] self.rank@[i]) < self.order@.len()
            && self.order@[self.rank@[i] as int] == i
        &&& forall|a: u32, b: u32|
            #[trigger] graph_edges(self.graph).contains((a, b)) ==> self.rank@[a as int] < self.rank@[b as int]
    }

    /// Every formula that is not faulty holds its expected count.
    pub open spec fn counts_correct(self) -> bool {
        forall|i: int| 0 <= i < self.n() ==> #[trigger] self.count_ok(i)
    }

    /// The state after loading, quarantine and evaluation, kept by every edit.
    pub open spec fn evaluated(self) -> bool {
        &&& self.ranked()
        &&& self.counts_correct()
        &&& forall|i: int| 0 <= i < self.n() ==> !(#[trigger] self.evals@[i])
    }
}

pub proof fn lemma_handle_unique(r1: int, c1: int, r2: int, c2: int, cols: int)
    requires
        0 <= c1 < cols,
        0 <= c2 < cols,
        0 <= r1,
        0 <= r2,
        handle(r1, c1, cols) == handle(r2, c2, cols),
    ensures
        r1 == r2 && c1 == c2,
{
    if r1 < r2 {
        assert(r1 * cols + cols <= r2 * cols) by (nonlinear_arith)
            requires r1 < r2, cols > 0;
    } else if r2 < r1 {
        assert(r2 * cols + cols <= r1 * cols) by (nonlinear_arith)
            requires r2 < r1, cols > 0;
    }
}

pub proof fn lemma_handle_bound(r: int, c: int, rows: int, cols: int)
    requires
        0 <= r < rows,
        0 <= c < cols,
    ensures
        0 <= handle(r, c, cols) < rows * cols,
{
    assert((r + 1) * cols <= rows * cols) by (nonlinear_arith)
        requires r + 1 <= rows, cols > 0;
    assert(0 <= r * cols) by (nonlinear_arith)
        requires r >= 0, cols > 0;
    assert((r + 1) * cols == r * cols + cols) by (nonlinear_arith);
}

/// The category that a loaded descriptor gives a cell.
pub open spec fn loaded(grid: Seq<Vec<&str>>, c: Cell) -> Category {
    stored(classify_spec(grid[c.coordinates.row as int]@[c.coordinates.col as int].spec_bytes()))
}

impl SpreadSheet {
    /// An empty sheet of no rows.
    pub fn new() -> (r: SpreadSheet)
        ensures
            r.evaluated(),
            r.rows == 0 && r.cols == 0,
    {
        SpreadSheet {
            graph: graph_new(),
            cells: Vec::new(),
            evals: Vec::new(),
            changes: Vec::new(),
            order: Vec::new(),
            rank: Vec::new(),
            rows: 0,
            cols: 0,
        }
    }

    /// Builds the cells from descriptors given row by row: one node per cell,
    /// in row-major order, no edges yet; every formula is pending.
    pub fn from_rows(grid: &Vec<Vec<&str>>) -> (r: SpreadSheet)
        requires
            forall|i: int| 0 <= i < grid@.len() ==> (#[trigger] grid@[i])@.len() == grid@[0]@.len(),
            grid@.len() > 0 ==> grid@.len() * grid@[0]@.len() < u32::MAX,
            grid@.len() < u32::MAX,
        ensures
            r.wf_cells(),
            r.rows == grid@.len(),
            r.rows > 0 ==> r.cols == grid@[0]@.len(),
            forall|i: int| 0 <= i < r.n() ==> (#[trigger] r.cells@[i]).category == loaded(grid@, r.cells@[i]),
            forall|i: int| 0 <= i < r.n() ==> (#[trigger] r.evals@[i]) == (r.cells@[i].category is OccurCell),
            forall|i: int| 0 <= i < r.n() ==> !(#[trigger] r.changes@[i]),
            forall|x: u32| graph_nodes(r.graph).contains(x) <==> x < r.n(),
            graph_edges(r.graph) == Set::<(u32, u32)>::empty(),
    {
        let rows = grid.len();
        let cols: usize = if rows > 0 { grid[0].len() } else { 0 };
        let mut graph = graph_new();
        let mut cells: Vec<Cell> = Vec::new();
        let mut evals: Vec<bool> = Vec::new();
        let mut changes: Vec<bool> = Vec::new();
        let mut row: usize = 0;
        while row < rows
            invariant
                row <= rows == grid@.len(),
                rows > 0 ==> cols == grid@[0]@.len(),
                forall|i: int| 0 <= i < grid@.len() ==> (#[trigger] grid@[i])@.len() == grid@[0]@.len(),
                rows * cols < u32::MAX,
                cells@.len() == row * cols,
                evals@.len() == cells@.len(),
                changes@.len() == cells@.len(),
                forall|i: int| 0 <= i < cells@.len() ==> {
                    let c = #[trigger] cells@[i];
                    &&& c.index == i
                    &&& c.coordinates.row < row
                    &&& c.coordinates.col < cols
                    &&& handle(c.coordinates.row as int, c.coordinates.col as int, cols as int) == i
                    &&& c.category == loaded(grid@, c)
                },
                forall|i: int| 0 <= i < cells@.len() ==> #[trigger] evals@[i] == (cells@[i].category is OccurCell),
                forall|i: int| 0 <= i < cells@.len() ==> !(#[trigger] changes@[i]),
                forall|x: u32| graph_nodes(graph).contains(x) <==> x < cells@.len(),
                graph_edges(graph) == Set::<(u32, u32)>::empty(),
            decreases rows - row,
        {
            let line = &grid[row];
            let mut col: usize = 0;
            proof {
                assert(row * cols + cols <= rows * cols) by (nonlinear_arith)
                    requires row < rows;
                if cols > 0 {
                    assert(rows <= rows * cols && cols <= rows * cols) by (nonlinear_arith)
                        requires cols > 0, rows > 0;
                }
            }
            while col < cols
                invariant
                    row < rows == grid@.len(),
                    rows > 0 ==> cols == grid@[0]@.len(),
                    line@ == grid@[row as int]@,
                    line@.len() == cols,
                    row * cols + cols <= rows * cols,
                    rows * cols < u32::MAX,
                    col <= cols,
                    cells@.len() == row * cols + col,
                    evals@.len() == cells@.len(),
                    changes@.len() == cells@.len(),
                    forall|i: int| 0 <= i < cells@.len() ==> {
                        let c = #[trigger] cells@[i];
                        &&& c.index == i
                        &&& c.coordinates.row <= row
                        &&& c.coordinates.col < cols
                        &&& handle(c.coordinates.row as int, c.coordinates.col as int, cols as int) == i
                        &&& c.category == loaded(grid@, c)
                    },
                    forall|i: int| 0 <= i < cells@.len() ==> #[trigger] evals@[i] == (cells@[i].category is OccurCell),
                    forall|i: int| 0 <= i < cells@.len() ==> !(#[trigger] changes@[i]),
                    cols > 0 ==> row < u32::MAX && cols < u32::MAX,
                    forall|x: u32| graph_nodes(graph).contains(x) <==> x < cells@.len(),
                    graph_edges(graph) == Set::<(u32, u32)>::empty(),
                decreases cols - col,
            {
                let index = cells.len() as u32;
                let coordinates = Coordinates::from(row as u32, col as u32);
                let mut new_cell = Cell::new();
                new_cell.set_category(Cell::from_formula(line[col]));
                new_cell.set_coordinates(coordinates);
                new_cell.set_index(index);
                graph_add_node(&mut graph, index);
                let pending = match new_cell.category {
                    Category::OccurCell(_) => true,
                    _ => false,
                };
                assert(new_cell.category == loaded(grid@, new_cell));
                cells.push(new_cell);
                evals.push(pending);
                changes.push(false);
                col = col + 1;
            }
            assert((row + 1) * cols == row * cols + cols) by (nonlinear_arith);
            row = row + 1;
        }
        proof {
            if rows > 0 {
                assert(cols <= rows * cols) by (nonlinear_arith)
                    requires rows > 0;
            }
        }
        SpreadSheet {
            graph,
            cells,
            evals,
            changes,
            order: Vec::new(),
            rank: Vec::new(),
            rows: rows as u32,
            cols: cols as u32,
        }
    }
}

/// Cell `b` lies in `o`'s region at a coordinate before (r, c) in row-major order.
pub open spec fn covered_before(o: OccurCell, b: Cell, r: int, c: int) -> bool {
    &&& o.rectangle.contains(b.coordinates.row as int, b.coordinates.col as int)
    &&& (b.coordinates.row < r || (b.coordinates.row == r && b.coordinates.col < c))
}

/// `t` has the shape of `grid`, and each of its cells whose descriptor is
/// not a formula holds what that descriptor classifies to.
pub open spec fn loads_from(t: SpreadSheet, grid: Seq<Vec<&str>>) -> bool {
    &&& t.wf_cells()
    &&& t.rows == grid.len()
    &&& t.rows > 0 ==> t.cols == grid[0]@.len()
    &&& forall|i: int| 0 <= i < t.n() ==> !(loaded(grid, #[trigger] t.cells@[i]) is OccurCell)
        ==> t.cells@[i].category == loaded(grid, t.cells@[i])
}

/// The cells of `t` as loading and linking leave them, from `grid`.
pub open spec fn linked_cells(t: SpreadSheet, grid: Seq<Vec<&str>>) -> Seq<Cell> {
    Seq::new(t.cells@.len(), |i: int| linked_cell(Cell { category: loaded(grid, t.cells@[i]), ..t.cells@[i] },
        t.rows as int, t.cols as int))
}

/// The edges from each formula of `cells` to every cell of its region.
pub open spec fn region_edges(cells: Seq<Cell>) -> Set<(u32, u32)> {
    Set::new(|k: (u32, u32)| (k.0 as int) < cells.len() && (k.1 as int) < cells.len() && covers(cells[k.0 as int],
        cells[k.1 as int]))
}

/// What linking makes of a loaded cell: a formula whose region is not well
/// formed or leaves the grid becomes faulty.
pub open spec fn linked_cell(c: Cell, rows: int, cols: int) -> Cell {
    match c.category {
        Category::OccurCell(o) => if o.rectangle.well_formed() && o.rectangle.in_bounds(rows, cols) {
            c
        } else {
            Cell { category: Category::FaultyCell, ..c }
        },
        _ => c,
    }
}

impl SpreadSheet {
    /// Handle of the cell at `coordinates`: `row * cols + col`.
    pub fn get_index_node_from_crd(&self, coordinates: &Coordinates) -> (r: u32)
        requires
            self.wf_cells(),
            coordinates.row < self.rows,
            coordinates.col < self.cols,
        ensures
            r == handle(coordinates.row as int, coordinates.col as int, self.cols as int),
            r < self.n(),
            self.cells@[r as int].coordinates == *coordinates,
    {
        proof {
            lemma_handle_bound(coordinates.row as int, coordinates.col as int, self.rows as int, self.cols as int);
            let h = handle(coordinates.row as int, coordinates.col as int, self.cols as int);
            let c = self.cells@[h];
            lemma_handle_unique(c.coordinates.row as int, c.coordinates.col as int,
                coordinates.row as int, coordinates.col as int, self.cols as int);
        }
        coordinates.row * self.cols + coordinates.col
    }

    /// Adds an edge from the formula at `a` to every cell of `o`'s region.
    fn link_region(&mut self, a: u32, o: OccurCell)
        requires
            old(self).wf_cells(),
            a < old(self).n(),
            old(self).cells@[a as int].category == Category::OccurCell(o),
            o.rectangle.well_formed(),
            o.rectangle.in_bounds(old(self).rows as int, old(self).cols as int),
            forall|x: u32, b: u32| #[trigger] graph_edges(old(self).graph).contains((x, b)) ==> x != a,
            forall|x: u32| graph_nodes(old(self).graph).contains(x) <==> x < old(self).n(),
        ensures
            final(self).cells == old(self).cells,
            final(self).evals == old(self).evals,
            final(self).changes == old(self).changes,
            final(self).order == old(self).order,
            final(self).rank == old(self).rank,
            final(self).rows == old(self).rows,
            final(self).cols == old(self).cols,
            graph_nodes(final(self).graph) == graph_nodes(old(self).graph),
            forall|x: u32, b: u32|
                #[trigger] graph_edges(final(self).graph).contains((x, b)) <==> (graph_edges(old(self).graph).contains((x, b))
                    || (x == a && b < old(self).n() && covers(old(self).cells@[a as int], old(self).cells@[b as int]))),
    {
        let ghost g0 = graph_edges(self.graph);
        let ghost n = self.n();
        let rows = self.rows;
        let cols = self.cols;
        let mut r: u32 = o.rectangle.begin.row;
        while r <= o.rectangle.end.row
            invariant
                self.wf_cells(),
                n == self.n(),
                rows == self.rows,
                cols == self.cols,
                self.cells == old(self).cells,
                self.evals == old(self).evals,
                self.changes == old(self).changes,
                self.order == old(self).order,
                self.rank == old(self).rank,
                self.cells@[a as int].category == Category::OccurCell(o),
                o.rectangle.well_formed(),
                o.rectangle.in_bounds(rows as int, cols as int),
                a < n,
                o.rectangle.begin.row <= r <= o.rectangle.end.row + 1,
                graph_nodes(self.graph) == graph_nodes(old(self).graph),
                forall|x: u32| graph_nodes(old(self).graph).contains(x) <==> x < n,
                forall|x: u32, b: u32|
                    #[trigger] graph_edges(self.graph).contains((x, b)) <==> (g0.contains((x, b))
                        || (x == a && b < n && covered_before(o, self.cells@[b as int], r as int, 0))),
            decreases o.rectangle.end.row + 1 - r,
        {
            let mut c: u32 = o.rectangle.begin.col;
            while c <= o.rectangle.end.col
                invariant
                    self.wf_cells(),
                    n == self.n(),
                    rows == self.rows,
                    cols == self.cols,
                    self.cells == old(self).cells,
                    self.evals == old(self).evals,
                    self.changes == old(self).changes,
                    self.order == old(self).order,
                    self.rank == old(self).rank,
                    self.cells@[a as int].category == Category::OccurCell(o),
                    o.rectangle.well_formed(),
                    o.rectangle.in_bounds(rows as int, cols as int),
                    a < n,
                    o.rectangle.begin.row <= r <= o.rectangle.end.row,
                    o.rectangle.begin.col <= c <= o.rectangle.end.col + 1,
                    graph_nodes(self.graph) == graph_nodes(old(self).graph),
                    forall|x: u32| graph_nodes(old(self).graph).contains(x) <==> x < n,
                    forall|x: u32, b: u32|
                        #[trigger] graph_edges(self.graph).contains((x, b)) <==> (g0.contains((x, b))
                            || (x == a && b < n && (covered_before(o, self.cells@[b as int], r as int, 0)
                                || covered_before(o, self.cells@[b as int], r as int, c as int)))),
                decreases o.rectangle.end.col + 1 - c,
            {
                let b = self.get_index_node_from_crd(&Coordinates::from(r, c));
                graph_add_edge(&mut self.graph, a, b);
                proof {
                    assert(graph_nodes(self.graph) =~= graph_nodes(old(self).graph));
                    assert forall|x: u32, y: u32|
                        #[trigger] graph_edges(self.graph).contains((x, y)) <==> (g0.contains((x, y))
                            || (x == a && y < n && (covered_before(o, self.cells@[y as int], r as int, 0)
                                || covered_before(o, self.cells@[y as int], r as int, c + 1)))) by {
                        if y < n {
                            let cy = self.cells@[y as int];
                            if cy.coordinates.row == r && cy.coordinates.col == c {
                                lemma_handle_unique(r as int, c as int, cy.coordinates.row as int,
                                    cy.coordinates.col as int, cols as int);
                            }
                            if y == b {
                                assert(cy.coordinates.row == r && cy.coordinates.col == c);
                            }
                        }
                    }
                }
                c = c + 1;
            }
            r = r + 1;
        }
        proof {
            assert forall|x: u32, b: u32|
                #[trigger] graph_edges(self.graph).contains((x, b)) <==> (g0.contains((x, b))
                    || (x == a && b < n && covers(old(self).cells@[a as int], old(self).cells@[b as int]))) by {}
        }
    }

    /// Links every formula to the cells of its region. A formula whose region
    /// is not well formed or leaves the grid becomes faulty, gets no edges and
    /// leaves the pending set.
    pub fn link_nodes(&mut self)
        requires
            old(self).wf_cells(),
            forall|x: u32| graph_nodes(old(self).graph).contains(x) <==> x < old(self).n(),
            graph_edges(old(self).graph) == Set::<(u32, u32)>::empty(),
            forall|i: int| 0 <= i < old(self).n() ==> #[trigger] old(self).evals@[i] ==> (old(self).cells@[i].category is OccurCell),
        ensures
            final(self).linked(),
            final(self).cells@.len() == old(self).cells@.len(),
            forall|i: int| 0 <= i < old(self).n() ==> #[trigger] final(self).cells@[i] == linked_cell(
                old(self).cells@[i], old(self).rows as int, old(self).cols as int),
            forall|i: int| 0 <= i < old(self).n() ==> #[trigger] final(self).evals@[i] == (old(self).evals@[i]
                && final(self).cells@[i].category is OccurCell),
            final(self).changes == old(self).changes,
            final(self).order == old(self).order,
            final(self).rank == old(self).rank,
            final(self).rows == old(self).rows,
            final(self).cols == old(self).cols,
    {
        let n = self.cells.len();
        let mut a: usize = 0;
        while a < n
            invariant
                self.wf_cells(),
                n == self.n(),
                self.cells@.len() == old(self).cells@.len(),
                self.changes == old(self).changes,
                self.order == old(self).order,
                self.rank == old(self).rank,
                self.rows == old(self).rows,
                self.cols == old(self).cols,
                a <= n,
                forall|i: int| 0 <= i < n ==> #[trigger] old(self).evals@[i] ==> (old(self).cells@[i].category is OccurCell),
                forall|x: u32| graph_nodes(self.graph).contains(x) <==> x < n,
                forall|i: int| 0 <= i < a ==> #[trigger] self.cells@[i] == linked_cell(
                    old(self).cells@[i], old(self).rows as int, old(self).cols as int),
                forall|i: int| a <= i < n ==> #[trigger] self.cells@[i] == old(self).cells@[i],
                forall|i: int| 0 <= i < n ==> #[trigger] self.evals@[i] == (old(self).evals@[i]
                    && (i < a ==> self.cells@[i].category is OccurCell)),
                forall|x: u32, b: u32|
                    #[trigger] graph_edges(self.graph).contains((x, b)) <==> (x < a && b < n
                        && covers(self.cells@[x as int], self.cells@[b as int])),
            decreases n - a,
        {
            let cell = self.cells[a];
            if let Category::OccurCell(o) = cell.category {
                if o.rectangle.is_valid() && o.rectangle.end.row < self.rows && o.rectangle.end.col < self.cols {
                    self.link_region(a as u32, o);
                } else {
                    let mut faulty = cell;
                    faulty.set_category(Category::FaultyCell);
                    self.cells.set(a, faulty);
                    self.evals.set(a, false);
                }
            }
            proof {
                assert(old(self).evals@[a as int] ==> old(self).cells@[a as int].category is OccurCell);
                assert forall|x: u32, b: u32|
                    #[trigger] graph_edges(self.graph).contains((x, b)) <==> (x < a + 1 && b < n
                        && covers(self.cells@[x as int], self.cells@[b as int])) by {
                    if b < n {
                        assert(self.cells@[b as int].coordinates == old(self).cells@[b as int].coordinates);
                    }
                }
            }
            a = a + 1;
        }
    }
}

pub proof fn lemma_count_row_frame(c1: Seq<Cell>, c2: Seq<Cell>, cols: int, r: int, lo: int, hi: int, t: u32)
    requires
        forall|c: int| lo <= c < hi ==> reported(c1[#[trigger] handle(r, c, cols)].category) == reported(
            c2[handle(r, c, cols)].category),
    ensures
        count_row(c1, cols, r, lo, hi, t) == count_row(c2, cols, r, lo, hi, t),
    decreases hi - lo,
{
    if hi > lo {
        lemma_count_row_frame(c1, c2, cols, r, lo, hi - 1, t);
        let _ = handle(r, hi - 1, cols);
    }
}

pub proof fn lemma_count_rect_frame(c1: Seq<Cell>, c2: Seq<Cell>, cols: int, rlo: int, rhi: int, clo: int, chi: int, t: u32)
    requires
        forall|r: int, c: int| rlo <= r < rhi && clo <= c < chi ==> reported(c1[#[trigger] handle(r, c, cols)].category)
            == reported(c2[handle(r, c, cols)].category),
    ensures
        count_rect(c1, cols, rlo, rhi, clo, chi, t) == count_rect(c2, cols, rlo, rhi, clo, chi, t),
    decreases rhi - rlo,
{
    if rhi > rlo {
        lemma_count_rect_frame(c1, c2, cols, rlo, rhi - 1, clo, chi, t);
        lemma_count_row_frame(c1, c2, cols, rhi - 1, clo, chi, t);
    }
}

/// Changing the cell at `x` leaves the occurrences of `o` alone when `x`
/// lies outside `o`'s region.
proof fn lemma_outside_region(cells: Seq<Cell>, x: int, v: Cell, rows: int, cols: int, o: OccurCell)
    requires
        0 <= x < cells.len(),
        cells.len() == rows * cols,
        cells[x].coordinates.col < cols,
        handle(cells[x].coordinates.row as int, cells[x].coordinates.col as int, cols) == x,
        o.rectangle.in_bounds(rows, cols),
        !o.rectangle.contains(cells[x].coordinates.row as int, cells[x].coordinates.col as int),
    ensures
        occurrences(cells.update(x, v), cols, o) == occurrences(cells, cols, o),
{
    let rect = o.rectangle;
    assert forall|r: int, c: int| rect.begin.row <= r < rect.end.row + 1 && rect.begin.col <= c < rect.end.col + 1
        implies reported(cells.update(x, v)[#[trigger] handle(r, c, cols)].category) == reported(
            cells[handle(r, c, cols)].category) by {
        lemma_handle_bound(r, c, rows, cols);
        if handle(r, c, cols) == x {
            lemma_handle_unique(r, c, cells[x].coordinates.row as int, cells[x].coordinates.col as int, cols);
        }
    }
    lemma_count_rect_frame(cells.update(x, v), cells, cols, rect.begin.row as int, rect.end.row + 1,
        rect.begin.col as int, rect.end.col + 1, o.value);
}

impl SpreadSheet {
    /// The saturated count of cells in `o`'s region that report `o`'s target.
    fn count_region(&self, o: OccurCell) -> (r: u32)
        requires
            self.wf_cells(),
            o.rectangle.well_formed(),
            o.rectangle.in_bounds(self.rows as int, self.cols as int),
        ensures
            r == expected_count(self.cells@, self.cols as int, o),
    {
        let cols = self.cols;
        let ghost cs = self.cells@;
        let rect = o.rectangle;
        let mut count: u32 = 0;
        let mut r: u32 = rect.begin.row;
        while r <= rect.end.row
            invariant
                self.wf_cells(),
                cols == self.cols,
                cs == self.cells@,
                rect == o.rectangle,
                rect.well_formed(),
                rect.in_bounds(self.rows as int, cols as int),
                rect.begin.row <= r <= rect.end.row + 1,
                count == clamp255(count_rect(cs, cols as int, rect.begin.row as int, r as int,
                    rect.begin.col as int, rect.end.col + 1, o.value)),
            decreases rect.end.row + 1 - r,
        {
            let mut c: u32 = rect.begin.col;
            while c <= rect.end.col
                invariant
                    self.wf_cells(),
                    cols == self.cols,
                    cs == self.cells@,
                    rect == o.rectangle,
                    rect.well_formed(),
                    rect.in_bounds(self.rows as int, cols as int),
                    rect.begin.row <= r <= rect.end.row,
                    rect.begin.col <= c <= rect.end.col + 1,
                    count == clamp255(count_rect(cs, cols as int, rect.begin.row as int, r as int,
                        rect.begin.col as int, rect.end.col + 1, o.value)
                        + count_row(cs, cols as int, r as int, rect.begin.col as int, c as int, o.value)),
                decreases rect.end.col + 1 - c,
            {
                let h = self.get_index_node_from_crd(&Coordinates::from(r, c));
                if self.cells[h as usize].get_special() == Some(o.value) {
                    if count < 255 {
                        count = count + 1;
                    }
                }
                c = c + 1;
            }
            r = r + 1;
        }
        count
    }

    /// Sets the count of the formula at `coordinates` to the saturated number
    /// of cells of its region that report its target. Other cells are left as
    /// they are.
    pub fn evaluate_cell(&mut self, coordinates: &Coordinates)
        requires
            old(self).linked(),
            coordinates.row < old(self).rows,
            coordinates.col < old(self).cols,
        ensures
            final(self).linked(),
            old(self).ranked() ==> final(self).ranked(),
            final(self).graph == old(self).graph,
            final(self).evals == old(self).evals,
            final(self).changes == old(self).changes,
            final(self).order == old(self).order,
            final(self).rank == old(self).rank,
            final(self).rows == old(self).rows,
            final(self).cols == old(self).cols,
            ({
                let h = handle(coordinates.row as int, coordinates.col as int, old(self).cols as int);
                final(self).cells@ == old(self).cells@.update(h, match old(self).cells@[h].category {
                    Category::OccurCell(o) => Cell {
                        category: Category::OccurCell(OccurCell {
                            occurrence: expected_count(old(self).cells@, old(self).cols as int, o),
                            ..o
                        }),
                        ..old(self).cells@[h]
                    },
                    _ => old(self).cells@[h],
                })
            }),
    {
        let h = self.get_index_node_from_crd(coordinates);
        let mut cell = self.cells[h as usize];
        if let Category::OccurCell(o) = cell.category {
            let count = self.count_region(o);
            cell.set_occurrence(count);
            self.cells.set(h as usize, cell);
            proof {
                assert forall|a: u32, b: u32|
                    #[trigger] graph_edges(self.graph).contains((a, b)) <==> (a < self.n() && b < self.n()
                        && covers(self.cells@[a as int], self.cells@[b as int])) by {
                    if b < self.n() {
                        assert(self.cells@[b as int].coordinates == old(self).cells@[b as int].coordinates);
                    }
                }
            }
        } else {
            assert(self.cells@ =~= old(self).cells@.update(h as int, old(self).cells@[h as int]));
        }
    }
}

/// `new` is `old` with at most a formula's count changed.
pub open spec fn same_but_count(new: Cell, old: Cell) -> bool {
    &&& new.index == old.index
    &&& new.coordinates == old.coordinates
    &&& match old.category {
        Category::OccurCell(o) => match new.category {
            Category::OccurCell(p) => p.rectangle == o.rectangle && p.value == o.value,
            _ => false,
        },
        _ => new.category == old.category,
    }
}

impl SpreadSheet {
    /// The formula at `i` holds its expected count (trivially true of other cells).
    pub open spec fn count_ok(self, i: int) -> bool {
        match self.cells@[i].category {
            Category::OccurCell(o) => o.occurrence == expected_count(self.cells@, self.cols as int, o),
            _ => true,
        }
    }

    /// Evaluates every formula, each after all the formulas it counts (in
    /// reverse topological order), and empties the pending set. Afterwards
    /// every formula that is not faulty holds the saturated number of cells of
    /// its region that report its target.
    pub fn evaluate_all(&mut self)
        requires
            old(self).ranked(),
        ensures
            final(self).evaluated(),
            final(self).cells@.len() == old(self).cells@.len(),
            forall|i: int| 0 <= i < old(self).n() ==> same_but_count(#[trigger] final(self).cells@[i], old(self).cells@[i]),
            final(self).graph == old(self).graph,
            final(self).changes == old(self).changes,
            final(self).order == old(self).order,
            final(self).rank == old(self).rank,
            final(self).rows == old(self).rows,
            final(self).cols == old(self).cols,
    {
        let mut k: usize = self.order.len();
        while k > 0
            invariant
                self.ranked(),
                k <= self.order@.len(),
                self.cells@.len() == old(self).cells@.len(),
                forall|i: int| 0 <= i < old(self).n() ==> same_but_count(#[trigger] self.cells@[i], old(self).cells@[i]),
                self.graph == old(self).graph,
                self.changes == old(self).changes,
                self.order == old(self).order,
                self.rank == old(self).rank,
                self.rows == old(self).rows,
                self.cols == old(self).cols,
                forall|i: int| 0 <= i < self.n() && self.rank@[i] >= k ==> #[trigger] self.count_ok(i),
                forall|i: int| 0 <= i < self.n() && self.rank@[i] >= k ==> !(#[trigger] self.evals@[i]),
            decreases k,
        {
            let x = self.order[k - 1];
            let crd = self.cells[x as usize].coordinates;
            let ghost before = *self;
            self.evaluate_cell(&crd);
            self.evals.set(x as usize, false);
            proof {
                let xi = x as int;
                assert(self.rank@[xi] == k - 1);
                assert(self.cells@ == before.cells@.update(xi, self.cells@[xi]));
                assert forall|i: int| 0 <= i < self.n() && self.rank@[i] >= k - 1 implies #[trigger] self.count_ok(i) by {
                    if let Category::OccurCell(o) = before.cells@[i].category {
                        let cx = before.cells@[xi];
                        if o.rectangle.contains(cx.coordinates.row as int, cx.coordinates.col as int) {
                            assert(graph_edges(before.graph).contains((i as u32, x)));
                        }
                        lemma_outside_region(before.cells@, xi, self.cells@[xi], before.rows as int,
                            before.cols as int, o);
                        if i != xi {
                            assert(before.count_ok(i));
                        }
                    }
                }
            }
            k = k - 1;
        }
        assert forall|i: int| 0 <= i < self.n() implies #[trigger] self.count_ok(i) && !self.evals@[i] by {
            assert(self.rank@[i] >= 0);
        }
    }
}

impl SpreadSheet {
    /// Passes the change of the cell at `node`, which reported
    /// `old_cell_value` before, on to the formulas that count it: when its
    /// reported value differs, the cell is recorded as changed and each
    /// formula over it becomes faulty (the cell became faulty), gains one
    /// (the cell now reports its target), or loses one (the cell reported its
    /// target before), saturating at 255 and 0; every formula so changed
    /// passes its own change on in turn, before the next formula over `node`
    /// is taken.
    ///
    /// Only formulas before `node` in the order change, each only in its
    /// count or by becoming faulty; nothing changes when `node` still reports
    /// `old_cell_value`. The changelog gains every cell whose reported value
    /// changed and nothing but `node` and its ancestors; when `node` became
    /// faulty, all its ancestors do. If every count was right for `node`
    /// reporting `old_cell_value` and its ancestors have regions of at most
    /// 255 coordinates, every count is right afterwards.
    pub fn spread_information(&mut self, node: u32, old_cell_value: Option<u32>)
        requires
            old(self).ranked(),
            node < old(self).n(),
        ensures
            final(self).ranked(),
            final(self).cells@.len() == old(self).cells@.len(),
            final(self).order == old(self).order,
            final(self).rank == old(self).rank,
            final(self).rows == old(self).rows,
            final(self).cols == old(self).cols,
            forall|i: int| 0 <= i < old(self).n() ==> evolved(#[trigger] final(self).cells@[i], old(self).cells@[i]),
            forall|i: int| 0 <= i < old(self).n() && old(self).rank@[i] >= old(self).rank@[node as int]
                ==> #[trigger] final(self).cells@[i] == old(self).cells@[i],
            forall|i: int| 0 <= i < old(self).n() ==> #[trigger] final(self).evals@[i] ==> old(self).evals@[i],
            reported(old(self).cells@[node as int].category) == old_cell_value ==> *final(self) == *old(self),
            final(self).changes@[node as int] == (old(self).changes@[node as int]
                || reported(old(self).cells@[node as int].category) != old_cell_value),
            log_follows(*final(self), *old(self), node),
            faults_follow(*final(self), *old(self), node),
            reported(old(self).cells@[node as int].category) is None && old_cell_value is Some ==> forall|a: u32|
                #[trigger] reaches(graph_edges(old(self).graph), a, node) ==> is_faulty(final(self).cells@[a as int]),
            old(self).small_ancestors(node) && old(self).consistent(
                Map::<u32, (Option<u32>, Set<u32>)>::empty().insert(node, (old_cell_value, parents_of(*old(self), node))))
                ==> final(self).counts_correct(),
    {
        let ghost on = old(self).small_ancestors(node) && old(self).consistent(
            Map::<u32, (Option<u32>, Set<u32>)>::empty().insert(node, (old_cell_value, parents_of(*old(self), node))));
        self.propagate(node, old_cell_value, Ghost(Map::empty()), Ghost(on));
        proof {
            if reported(old(self).cells@[node as int].category) is None && old_cell_value is Some {
                let eo = graph_edges(old(self).graph);
                assert forall|a: u32| #[trigger] reaches(eo, a, node) implies is_faulty(self.cells@[a as int]) by {
                    assert forall|u: u32, v: u32| #[trigger] eo.contains((u, v)) implies (u as int) < old(self).cells@.len()
                        && (v as int) < old(self).cells@.len() && !(old(self).cells@[u as int].category is FaultyCell) by {
                        assert(covers(old(self).cells@[u as int], old(self).cells@[v as int]));
                    }
                    lemma_ancestors_faulty(eo, old(self).cells@, self.cells@, node, a);
                }
            }
            if on {
                assert forall|i: int| 0 <= i < self.n() implies #[trigger] self.count_ok(i) by {
                    assert(self.count_ok_under(Map::empty(), i));
                    assert(believed(self.cells@, Map::empty(), i) =~= self.cells@);
                }
            }
        }
    }

    /// Stores `cell`, a formula differing from the one at `x` in its count only.
    pub(crate) fn set_count(&mut self, x: u32, cell: Cell)
        requires
            old(self).ranked(),
            x < old(self).n(),
            same_but_count(cell, old(self).cells@[x as int]),
            old(self).cells@[x as int].category is OccurCell,
        ensures
            final(self).ranked(),
            final(self).cells@ == old(self).cells@.update(x as int, cell),
            final(self).graph == old(self).graph,
            final(self).evals == old(self).evals,
            final(self).changes == old(self).changes,
            final(self).order == old(self).order,
            final(self).rank == old(self).rank,
            final(self).rows == old(self).rows,
            final(self).cols == old(self).cols,
    {
        self.cells.set(x as usize, cell);
        proof {
            assert forall|a: u32, b: u32|
                #[trigger] graph_edges(self.graph).contains((a, b)) <==> (a < self.n() && b < self.n()
                    && covers(self.cells@[a as int], self.cells@[b as int])) by {
                if b < self.n() {
                    assert(self.cells@[b as int].coordinates == old(self).cells@[b as int].coordinates);
                }
            }
        }
    }
}

/// The cell that an edit stores: the descriptor's category, made faulty when
/// it is a formula whose region is not well formed or leaves the grid.
pub open spec fn edited_category(c: Category, rows: int, cols: int) -> Category {
    match stored(c) {
        Category::OccurCell(o) => if o.rectangle.in_bounds(rows, cols) {
            stored(c)
        } else {
            Category::FaultyCell
        },
        _ => stored(c),
    }
}

impl SpreadSheet {
    /// Two linked sheets whose cells differ at most at `h`, where both hold a
    /// formula over the same region, have the same edges.
    proof fn lemma_same_edges(self, s0: SpreadSheet, h: u32)
        requires
            self.linked(),
            s0.linked(),
            self.n() == s0.n(),
            h < s0.n(),
            forall|i: int| 0 <= i < s0.n() && i != h ==> #[trigger] self.cells@[i] == s0.cells@[i],
            self.cells@[h as int].coordinates == s0.cells@[h as int].coordinates,
            self.cells@[h as int].category matches Category::OccurCell(o) && s0.cells@[h as int].category matches Category::OccurCell(c)
                && o.rectangle == c.rectangle,
        ensures
            graph_edges(self.graph) == graph_edges(s0.graph),
    {
        assert forall|k: (u32, u32)| graph_edges(self.graph).contains(k) <==> graph_edges(s0.graph).contains(k) by {
            let a = k.0;
            let b = k.1;
            assert(k == (a, b));
            if a < self.n() && b < self.n() {
                assert(self.cells@[b as int].coordinates == s0.cells@[b as int].coordinates);
                if a != h {
                    assert(self.cells@[a as int] == s0.cells@[a as int]);
                }
            }
        }
        assert(graph_edges(self.graph) =~= graph_edges(s0.graph));
    }
}

/// The edges once an edit has stored `e` at `h`: those of `sheet` that leave
/// other cells, and one from `h` to each cell of its region if `e` is a formula.
pub open spec fn edit_edges(sheet: SpreadSheet, h: int, e: Category) -> Set<(u32, u32)> {
    Set::new(|k: (u32, u32)| (graph_edges(sheet.graph).contains(k) && k.0 != h) || (k.0 == h && (k.1 as int) < sheet.n()
        && covers(Cell { category: e, ..sheet.cells@[h] }, sheet.cells@[k.1 as int])))
}

/// The cell at `h` already holds what an edit storing `e` leaves there: the
/// same constant or faulty content, or (in an evaluated sheet) a formula over
/// the same region with the same target that is not faulty.
pub open spec fn already_applied(sheet: SpreadSheet, h: int, e: Category) -> bool {
    match e {
        Category::OccurCell(eo) => sheet.evaluated() && match sheet.cells@[h].category {
            Category::OccurCell(c) => c.rectangle == eo.rectangle && c.value == eo.value,
            _ => false,
        },
        _ => sheet.cells@[h].category == e,
    }
}

impl SpreadSheet {
    /// Stores the edited cell at `h`: its old edges go; a formula is linked
    /// to its region and then either made faulty, when that closes a cycle,
    /// or evaluated.
    #[verifier::rlimit(60)]
    fn store_edit(&mut self, h: u32, category: Category)
        requires
            old(self).ranked(),
            h < old(self).n(),
        ensures
            final(self).ranked(),
            final(self).n() == old(self).n(),
            final(self).rows == old(self).rows,
            final(self).cols == old(self).cols,
            final(self).changes == old(self).changes,
            forall|i: int| 0 <= i < old(self).n() && i != h ==> #[trigger] final(self).cells@[i] == old(self).cells@[i],
            forall|i: int| 0 <= i < old(self).n() && i != h ==> #[trigger] final(self).evals@[i] == old(self).evals@[i],
            !final(self).evals@[h as int],
            final(self).count_ok(h as int),
            evolved(final(self).cells@[h as int], Cell {
                category: edited_category(category, old(self).rows as int, old(self).cols as int),
                ..old(self).cells@[h as int]
            }),
            already_applied(*old(self), h as int, edited_category(category, old(self).rows as int, old(self).cols as int))
                ==> final(self).cells@ == old(self).cells@,
            forall|k: (u32, u32)| k.0 != h ==> (graph_edges(final(self).graph).contains(k) <==> graph_edges(old(self).graph).contains(k)),
            ({
                let e = edited_category(category, old(self).rows as int, old(self).cols as int);
                &&& !(e is OccurCell) ==> final(self).cells@[h as int] == (Cell { category: e, ..old(self).cells@[h as int] })
                &&& e is OccurCell ==> (is_faulty(final(self).cells@[h as int]) <==> exists|c: u32| on_cycle(
                    edit_edges(*old(self), h as int, e), c))
                &&& e is OccurCell && !is_faulty(final(self).cells@[h as int]) ==> final(self).cells@[h as int].category is OccurCell
            }),
    {
        let ghost e0 = graph_edges(self.graph);
        let ghost s0 = *self;
        let ghost e = edited_category(category, self.rows as int, self.cols as int);
        let ghost again = already_applied(s0, h as int, e);
        self.remove_out_edges(h);
        let mut cell = self.cells[h as usize];
        cell.set_category(category);
        if let Category::OccurCell(o) = cell.category {
            if !(o.rectangle.end.row < self.rows && o.rectangle.end.col < self.cols) {
                cell.set_category(Category::FaultyCell);
            }
        }
        let pending = match cell.category {
            Category::OccurCell(_) => true,
            _ => false,
        };
        self.cells.set(h as usize, cell);
        self.evals.set(h as usize, pending);
        proof {
            assert forall|a: u32, b: u32|
                #[trigger] graph_edges(self.graph).contains((a, b)) <==> (a != h && a < self.n() && b < self.n()
                    && covers(self.cells@[a as int], self.cells@[b as int])) by {
                if b < self.n() {
                    assert(self.cells@[b as int].coordinates == s0.cells@[b as int].coordinates);
                }
            }
            assert forall|i: int| 0 <= i < self.n() implies #[trigger] self.evals@[i] ==> (self.cells@[i].category is OccurCell) by {
                if i != h {
                    assert(s0.evals@[i] ==> (s0.cells@[i].category is OccurCell));
                }
            }
            assert forall|i: int| 0 <= i < self.n() implies match (#[trigger] self.cells@[i]).category {
                Category::OccurCell(o) => o.rectangle.well_formed() && o.rectangle.in_bounds(
                    self.rows as int,
                    self.cols as int,
                ),
                _ => true,
            } by {
                if i != h {
                    assert(s0.cells@[i] == self.cells@[i]);
                }
            }
        }
        if let Category::OccurCell(o) = cell.category {
            self.link_region(h, o);
            proof {
                assert forall|a: u32, b: u32|
                    #[trigger] graph_edges(self.graph).contains((a, b)) <==> (a < self.n() && b < self.n()
                        && covers(self.cells@[a as int], self.cells@[b as int])) by {}
                if again {
                    self.lemma_same_edges(s0, h);
                }
                assert(self.cells@[h as int] == (Cell { category: e, ..s0.cells@[h as int] }));
                assert forall|k: (u32, u32)| graph_edges(self.graph).contains(k) <==> edit_edges(s0, h as int, e).contains(k) by {
                    assert(k == (k.0, k.1));
                    if k.0 < self.n() && k.1 < self.n() {
                        assert(self.cells@[k.1 as int].coordinates == s0.cells@[k.1 as int].coordinates);
                        if k.0 != h {
                            assert(self.cells@[k.0 as int] == s0.cells@[k.0 as int]);
                        }
                    }
                }
                assert(graph_edges(self.graph) =~= edit_edges(s0, h as int, e));
            }
            match self.check_cycle() {
                None => {
                    proof {
                        assert forall|c: u32| !on_cycle(edit_edges(s0, h as int, e), c) by {
                            lemma_ranked_acyclic(graph_edges(self.graph), self.rank@, c);
                        }
                    }
                    let crd = cell.coordinates;
                    let ghost pre = self.cells@;
                    self.evaluate_cell(&crd);
                    self.evals.set(h as usize, false);
                    proof {
                        assert(!covers(pre[h as int], pre[h as int])) by {
                            if covers(pre[h as int], pre[h as int]) {
                                assert(graph_edges(self.graph).contains((h, h)));
                            }
                        }
                        lemma_outside_region(pre, h as int, self.cells@[h as int], self.rows as int, self.cols as int, o);
                        assert(self.count_ok(h as int));
                        if again {
                            let c = s0.cells@[h as int].category->OccurCell_0;
                            assert(!covers(s0.cells@[h as int], s0.cells@[h as int])) by {
                                if covers(s0.cells@[h as int], s0.cells@[h as int]) {
                                    assert(graph_edges(s0.graph).contains((h, h)));
                                }
                            }
                            lemma_outside_region(s0.cells@, h as int, pre[h as int], self.rows as int, self.cols as int, o);
                            assert(pre == s0.cells@.update(h as int, pre[h as int]));
                            assert(occurrences(s0.cells@, self.cols as int, o) == occurrences(s0.cells@, self.cols as int, c));
                            assert(s0.count_ok(h as int));
                            assert(self.cells@ =~= s0.cells@);
                        }
                    }
                },
                Some(_) => {
                    proof {
                        if again {
                            let x = choose|x: u32| on_cycle(graph_edges(self.graph), x);
                            lemma_ranked_acyclic(e0, s0.rank@, x);
                        }
                    }
                    self.make_faulty(h);
                    proof {
                        assert forall|a: u32, b: u32| #[trigger] graph_edges(self.graph).contains((a, b))
                            implies self.rank@[a as int] < self.rank@[b as int] by {
                            assert(e0.contains((a, b)));
                        }
                    }
                },
            }
        }
        proof {
            if !(cell.category is OccurCell) {
                assert forall|a: u32, b: u32|
                    #[trigger] graph_edges(self.graph).contains((a, b)) <==> (a < self.n() && b < self.n()
                        && covers(self.cells@[a as int], self.cells@[b as int])) by {}
                assert forall|a: u32, b: u32| #[trigger] graph_edges(self.graph).contains((a, b))
                    implies self.rank@[a as int] < self.rank@[b as int] by {
                    assert(e0.contains((a, b)));
                }
                if again {
                    assert(self.cells@ =~= s0.cells@);
                }
            }
        }
        proof {
            assert forall|k: (u32, u32)| k.0 != h implies (graph_edges(self.graph).contains(k) <==> graph_edges(s0.graph).contains(k)) by {
                assert(k == (k.0, k.1));
                if k.0 < self.n() && k.1 < self.n() {
                    assert(self.cells@[k.1 as int].coordinates == s0.cells@[k.1 as int].coordinates);
                    assert(self.cells@[k.0 as int] == s0.cells@[k.0 as int]);
                }
            }
        }
    }

    /// Applies one edit: the cell at `new_cell.coordinates` takes
    /// `new_cell.category`. A formula is linked to its region and, when that
    /// closes a cycle, becomes faulty; otherwise it is evaluated. The change
    /// is then passed on to the formulas over the cell (see
    /// `spread_information`).
    ///
    /// A constant, a faulty descriptor or a formula over a region that is
    /// ill formed or leaves the grid is stored as it is (the last two as
    /// faulty). A formula is faulty exactly when its edges close a cycle, and
    /// otherwise holds its count. Every cell whose reported value changed is
    /// recorded in the changelog, and only the edited cell and its ancestors
    /// are; the edited cell is recorded exactly when its value changed. When
    /// the edited cell becomes faulty, so do all its ancestors. Counts are all
    /// right afterwards when they were before and every ancestor of the
    /// edited cell has a region of at most 255 coordinates.
    pub fn insert_spread_cell(&mut self, new_cell: Cell)
        requires
            old(self).ranked(),
            new_cell.coordinates.row < old(self).rows,
            new_cell.coordinates.col < old(self).cols,
        ensures
            final(self).ranked(),
            final(self).cells@.len() == old(self).cells@.len(),
            final(self).rows == old(self).rows,
            final(self).cols == old(self).cols,
            ({
                let h = handle(new_cell.coordinates.row as int, new_cell.coordinates.col as int, old(self).cols as int);
                evolved(final(self).cells@[h], Cell {
                    category: edited_category(new_cell.category, old(self).rows as int, old(self).cols as int),
                    ..old(self).cells@[h]
                })
            }),
            forall|i: int| 0 <= i < old(self).n() && i != handle(new_cell.coordinates.row as int,
                new_cell.coordinates.col as int, old(self).cols as int)
                ==> evolved(#[trigger] final(self).cells@[i], old(self).cells@[i]),
            old(self).evaluated() && old(self).small_ancestors(handle(new_cell.coordinates.row as int,
                new_cell.coordinates.col as int, old(self).cols as int) as u32) ==> final(self).evaluated(),
            ({
                let h = handle(new_cell.coordinates.row as int, new_cell.coordinates.col as int, old(self).cols as int);
                reported(final(self).cells@[h].category) == reported(old(self).cells@[h].category) ==> (
                    final(self).changes == old(self).changes
                    && forall|i: int| 0 <= i < old(self).n() && i != h ==> #[trigger] final(self).cells@[i] == old(self).cells@[i])
            }),
            ({
                let h = handle(new_cell.coordinates.row as int, new_cell.coordinates.col as int, old(self).cols as int);
                let e = edited_category(new_cell.category, old(self).rows as int, old(self).cols as int);
                already_applied(*old(self), h, e) ==> final(self).cells@ == old(self).cells@ && final(self).changes == old(self).changes
            }),
            ({
                let h = handle(new_cell.coordinates.row as int, new_cell.coordinates.col as int, old(self).cols as int);
                let e = edited_category(new_cell.category, old(self).rows as int, old(self).cols as int);
                &&& forall|i: int| 0 <= i < old(self).n() && reported((#[trigger] final(self).cells@[i]).category)
                    != reported(old(self).cells@[i].category) ==> final(self).changes@[i]
                &&& final(self).changes@[h] == (old(self).changes@[h] || reported(final(self).cells@[h].category) != reported(
                    old(self).cells@[h].category))
                &&& forall|i: int| 0 <= i < old(self).n() && #[trigger] final(self).changes@[i] ==> old(self).changes@[i] || i == h
                    || reaches(graph_edges(old(self).graph), i as u32, h as u32)
                &&& is_faulty(final(self).cells@[h]) && !is_faulty(old(self).cells@[h]) ==> forall|a: u32| #[trigger] reaches(
                    graph_edges(old(self).graph), a, h as u32) ==> is_faulty(final(self).cells@[a as int])
                &&& !(e is OccurCell) ==> final(self).cells@[h] == (Cell { category: e, ..old(self).cells@[h] })
                &&& e is OccurCell ==> (is_faulty(final(self).cells@[h]) <==> exists|c: u32| on_cycle(edit_edges(*old(self), h, e), c))
                &&& e is OccurCell && !is_faulty(final(self).cells@[h]) ==> final(self).cells@[h].category is OccurCell
                    && final(self).count_ok(h)
            }),
    {
        let h = self.get_index_node_from_crd(&new_cell.coordinates);
        let old_value = self.cells[h as usize].get_special();
        let ghost s0 = *self;
        self.store_edit(h, new_cell.category);
        let ghost on = s0.evaluated() && s0.small_ancestors(h);
        proof {
            if on {
                self.lemma_edit_ready(s0, h, old_value);
            }
        }
        let ghost mid = *self;
        self.propagate(h, old_value, Ghost(Map::empty()), Ghost(on));
        proof {
            if on {
                assert forall|i: int| 0 <= i < self.n() implies #[trigger] self.count_ok(i) by {
                    assert(self.count_ok_under(Map::empty(), i));
                    assert(believed(self.cells@, Map::empty(), i) =~= self.cells@);
                }
            }
            lemma_edit_outcome(s0, mid, *self, h);
        }
    }

    /// Loads a grid of descriptors and brings it to its evaluated state:
    /// cells classified, formulas linked to their regions, cycles quarantined
    /// and every formula evaluated. Constants and faulty descriptors keep what
    /// they classify to.
    pub fn load(grid: &Vec<Vec<&str>>) -> (r: SpreadSheet)
        requires
            forall|i: int| 0 <= i < grid@.len() ==> (#[trigger] grid@[i])@.len() == grid@[0]@.len(),
            grid@.len() > 0 ==> grid@.len() * grid@[0]@.len() < u32::MAX,
            grid@.len() < u32::MAX,
        ensures
            r.evaluated(),
            loads_from(r, grid@),
            forall|i: int| 0 <= i < r.n() ==> (loaded(grid@, #[trigger] r.cells@[i]) matches Category::OccurCell(o)
                && !o.rectangle.in_bounds(r.rows as int, r.cols as int) ==> r.cells@[i].category is FaultyCell),
            ({
                let lc = linked_cells(r, grid@);
                &&& forall|i: int| 0 <= i < r.n() ==> (is_faulty(#[trigger] r.cells@[i]) <==> (is_faulty(lc[i])
                    || exists|c: u32| on_cycle(region_edges(lc), c) && walk_to(region_edges(lc), lc, c, i as u32)))
                &&& forall|i: int| 0 <= i < r.n() && !is_faulty(#[trigger] r.cells@[i]) ==> same_but_count(r.cells@[i], lc[i])
            }),
            forall|i: int| 0 <= i < r.n() ==> (reported((#[trigger] r.cells@[i]).category) matches Some(v) ==> v <= 255),
    {
        let mut sheet = SpreadSheet::from_rows(grid);
        let ghost s0 = sheet;
        sheet.link_nodes();
        let ghost s1 = sheet;
        let mut quarantined: Vec<u32> = Vec::new();
        sheet.handle_cycles(&mut quarantined);
        let ghost s2 = sheet;
        sheet.evaluate_all();
        proof {
            let lc = linked_cells(sheet, grid@);
            assert forall|i: int| 0 <= i < sheet.n() implies #[trigger] s1.cells@[i] == lc[i] by {
                assert(kept_or_faulty(s2.cells@[i], s1.cells@[i]));
                assert(same_but_count(sheet.cells@[i], s2.cells@[i]));
            }
            assert(s1.cells@ =~= lc);
            assert forall|k: (u32, u32)| graph_edges(s1.graph).contains(k) <==> region_edges(lc).contains(k) by {
                assert(k == (k.0, k.1));
            }
            assert(graph_edges(s1.graph) =~= region_edges(lc));
            assert forall|i: int| 0 <= i < sheet.n() implies (is_faulty(#[trigger] sheet.cells@[i]) <==> (is_faulty(lc[i])
                || exists|c: u32| on_cycle(region_edges(lc), c) && walk_to(region_edges(lc), lc, c, i as u32))) by {
                assert(same_but_count(sheet.cells@[i], s2.cells@[i]));
                assert(kept_or_faulty(s2.cells@[i], s1.cells@[i]));
                if exists|c: u32| on_cycle(region_edges(lc), c) && walk_to(region_edges(lc), lc, c, i as u32) {
                    let c = choose|c: u32| on_cycle(region_edges(lc), c) && walk_to(region_edges(lc), lc, c, i as u32);
                    assert(listed_after(quarantined@, 0, i as u32));
                    let k = choose|k: int| 0 <= k < quarantined@.len() && quarantined@[k] == i as u32;
                    assert(quarantined@[k] < s1.n());
                }
                if is_faulty(sheet.cells@[i]) && !is_faulty(lc[i]) {
                    assert(quarantined@.contains(i as u32));
                    let k = choose|k: int| 0 <= k < quarantined@.len() && quarantined@[k] == i as u32;
                    assert(from_cycles(graph_edges(s1.graph), s1.cells@, quarantined@, 0));
                    assert(exists|c: u32| on_cycle(graph_edges(s1.graph), c) && walk_to(graph_edges(s1.graph), s1.cells@, c,
                        quarantined@[k]));
                }
            }
            assert forall|i: int| 0 <= i < sheet.n() implies (reported((#[trigger] sheet.cells@[i]).category) matches Some(v)
                ==> v <= 255) by {
                assert(sheet.count_ok(i));
                if sheet.cells@[i].category is StaticCell {
                    assert(sheet.cells@[i].category == loaded(grid@, sheet.cells@[i]));
                }
            }
            assert forall|i: int| 0 <= i < sheet.n() && !is_faulty(#[trigger] sheet.cells@[i]) implies same_but_count(
                sheet.cells@[i], lc[i]) by {
                assert(same_but_count(sheet.cells@[i], s2.cells@[i]));
                assert(kept_or_faulty(s2.cells@[i], s1.cells@[i]));
            }
        }
        sheet
    }
}

/// Every coordinate of the grid has exactly one cell, at handle
/// `row * cols + col`, and that cell is exactly one of constant, formula or
/// faulty.
pub proof fn lemma_one_cell_per_coordinate(sheet: SpreadSheet, r: int, c: int)
    requires
        sheet.wf_cells(),
        0 <= r < sheet.rows,
        0 <= c < sheet.cols,
    ensures
        0 <= handle(r, c, sheet.cols as int) < sheet.n(),
        sheet.cells@[handle(r, c, sheet.cols as int)].coordinates.row == r,
        sheet.cells@[handle(r, c, sheet.cols as int)].coordinates.col == c,
        forall|i: int| 0 <= i < sheet.n() && (#[trigger] sheet.cells@[i]).coordinates.row == r
            && sheet.cells@[i].coordinates.col == c ==> i == handle(r, c, sheet.cols as int),
        ({
            let k = sheet.cells@[handle(r, c, sheet.cols as int)].category;
            (if k is StaticCell { 1int } else { 0int }) + (if k is OccurCell { 1int } else { 0int })
                + (if k is FaultyCell { 1int } else { 0int }) == 1
        }),
{
    let cols = sheet.cols as int;
    lemma_handle_bound(r, c, sheet.rows as int, cols);
    let h = handle(r, c, cols);
    let x = sheet.cells@[h];
    lemma_handle_unique(x.coordinates.row as int, x.coordinates.col as int, r, c, cols);
    assert forall|i: int| 0 <= i < sheet.n() && (#[trigger] sheet.cells@[i]).coordinates.row == r
        && sheet.cells@[i].coordinates.col == c implies i == h by {
        assert(handle(sheet.cells@[i].coordinates.row as int, sheet.cells@[i].coordinates.col as int, cols) == i);
    }
}


} // verus!

//! The grid and the changelog as text.

use vstd::prelude::*;
use vstd::string::StringSliceAdditionalSpecFns;
use crate::cell::{decimal, display, display_string, push_decimal, reported, Cell};
use crate::coordinates::Coordinates;
use crate::descriptor::{display_bytes, lemma_display_classifies};
use crate::spreadsheet::{handle, lemma_handle_bound, lemma_handle_unique, loads_from, SpreadSheet};

verus! {

/// Text of the cell with handle `i`: its reported value, or `P`.
pub open spec fn cell_text(cells: Seq<Cell>, i: int) -> Seq<char> {
    display(reported(cells[i].category))
}

/// The first `k` cells of row `r`, separated by `;`.
pub open spec fn row_text(cells: Seq<Cell>, cols: int, r: int, k: int) -> Seq<char>
    decreases k,
{
    if k <= 0 {
        Seq::empty()
    } else if k == 1 {
        cell_text(cells, handle(r, 0, cols))
    } else {
        row_text(cells, cols, r, k - 1) + seq![';'] + cell_text(cells, handle(r, k - 1, cols))
    }
}

/// The first `r` rows of the grid, each ended by a line feed.
pub open spec fn view_text(cells: Seq<Cell>, cols: int, r: int) -> Seq<char>
    decreases r,
{
    if r <= 0 {
        Seq::empty()
    } else {
        view_text(cells, cols, r - 1) + row_text(cells, cols, r - 1, cols) + seq!['\n']
    }
}

/// Changelog lines for the changed handles below `k`, in handle order, which
/// is coordinate order: `row col value` and a line feed each.
pub open spec fn change_lines(cells: Seq<Cell>, changes: Seq<bool>, k: int) -> Seq<char>
    decreases k,
{
    if k <= 0 {
        Seq::empty()
    } else if changes[k - 1] {
        change_lines(cells, changes, k - 1) + decimal(cells[k - 1].coordinates.row as nat) + seq![' ']
            + decimal(cells[k - 1].coordinates.col as nat) + seq![' '] + cell_text(cells, k - 1) + seq!['\n']
    } else {
        change_lines(cells, changes, k - 1)
    }
}

impl SpreadSheet {
    /// The grid as text: one line per row, cells separated by `;`, each
    /// shown as its reported value or `P`.
    pub fn view_string(&self) -> (r: String)
        requires
            self.wf_cells(),
        ensures
            r@ == view_text(self.cells@, self.cols as int, self.rows as int),
    {
        let mut out = String::new();
        let mut r: u32 = 0;
        proof { reveal_strlit(";"); reveal_strlit("\n"); }
        while r < self.rows
            invariant
                self.wf_cells(),
                r <= self.rows,
                out@ == view_text(self.cells@, self.cols as int, r as int),
            decreases self.rows - r,
        {
            let mut c: u32 = 0;
            let ghost before = out@;
            while c < self.cols
                invariant
                    self.wf_cells(),
                    r < self.rows,
                    c <= self.cols,
                    out@ == before + row_text(self.cells@, self.cols as int, r as int, c as int),
                decreases self.cols - c,
            {
                proof { reveal_strlit(";"); }
                if c > 0 {
                    out.append(";");
                }
                let h = self.get_index_node_from_crd(&Coordinates::from(r, c));
                let text = display_string(self.cells[h as usize].get_special());
                out.append(text.as_str());
                proof {
                    if c == 0 {
                        assert(out@ =~= before + row_text(self.cells@, self.cols as int, r as int, c + 1));
                    } else {
                        assert(out@ =~= before + row_text(self.cells@, self.cols as int, r as int, c + 1));
                    }
                }
                c = c + 1;
            }
            proof { reveal_strlit("\n"); }
            out.append("\n");
            proof {
                assert(out@ =~= view_text(self.cells@, self.cols as int, r + 1));
            }
            r = r + 1;
        }
        out
    }

    /// The changelog block of the edit `after`: the line `after "<after>":`,
    /// then one line `row col value` per changed cell, in coordinate order.
    pub fn changes_string(&self, after: &str) -> (r: String)
        requires
            self.wf_cells(),
        ensures
            r@ == seq!['a', 'f', 't', 'e', 'r', ' ', '"'] + after@ + seq!['"', ':', '\n'] + change_lines(
                self.cells@, self.changes@, self.n()),
    {
        proof { reveal_strlit("after \""); reveal_strlit("\":\n"); reveal_strlit(" "); reveal_strlit("\n"); }
        let mut out = String::from_str("after \"");
        out.append(after);
        out.append("\":\n");
        let ghost head = out@;
        let mut i: usize = 0;
        while i < self.cells.len()
            invariant
                self.wf_cells(),
                i <= self.n(),
                out@ == head + change_lines(self.cells@, self.changes@, i as int),
            decreases self.n() - i,
        {
            proof { reveal_strlit(" "); reveal_strlit("\n"); }
            if self.changes[i] {
                let cell = self.cells[i];
                push_decimal(&mut out, cell.coordinates.row);
                out.append(" ");
                push_decimal(&mut out, cell.coordinates.col);
                out.append(" ");
                let text = display_string(cell.get_special());
                out.append(text.as_str());
                out.append("\n");
            }
            proof {
                assert(out@ =~= head + change_lines(self.cells@, self.changes@, i + 1));
            }
            i = i + 1;
        }
        assert(head =~= seq!['a', 'f', 't', 'e', 'r', ' ', '"'] + after@ + seq!['"', ':', '\n']);
        out
    }

    /// Forgets the cells recorded as changed, before the next edit.
    pub fn clear_changes(&mut self)
        requires
            old(self).wf_cells(),
        ensures
            final(self).cells == old(self).cells,
            final(self).graph == old(self).graph,
            final(self).evals == old(self).evals,
            final(self).order == old(self).order,
            final(self).rank == old(self).rank,
            final(self).rows == old(self).rows,
            final(self).cols == old(self).cols,
            final(self).changes@.len() == old(self).changes@.len(),
            forall|i: int| 0 <= i < final(self).changes@.len() ==> !(#[trigger] final(self).changes@[i]),
    {
        let mut i: usize = 0;
        while i < self.changes.len()
            invariant
                i <= self.changes@.len(),
                self.cells == old(self).cells,
                self.graph == old(self).graph,
                self.evals == old(self).evals,
                self.order == old(self).order,
                self.rank == old(self).rank,
                self.rows == old(self).rows,
                self.cols == old(self).cols,
                self.changes@.len() == old(self).changes@.len(),
                forall|j: int| 0 <= j < i ==> !(#[trigger] self.changes@[j]),
            decreases self.changes@.len() - i,
        {
            self.changes.set(i, false);
            i = i + 1;
        }
    }
}

proof fn lemma_row_text_eq(a: Seq<Cell>, b: Seq<Cell>, cols: int, r: int, k: int)
    requires
        k <= cols,
        forall|c: int| 0 <= c < cols ==> #[trigger] cell_text(a, handle(r, c, cols)) == cell_text(b, handle(r, c, cols)),
    ensures
        row_text(a, cols, r, k) == row_text(b, cols, r, k),
    decreases k,
{
    if k > 1 {
        lemma_row_text_eq(a, b, cols, r, k - 1);
        assert(cell_text(a, handle(r, k - 1, cols)) == cell_text(b, handle(r, k - 1, cols)));
    } else if k == 1 {
        assert(cell_text(a, handle(r, 0, cols)) == cell_text(b, handle(r, 0, cols)));
    }
}

proof fn lemma_view_text_eq(a: Seq<Cell>, b: Seq<Cell>, cols: int, r: int, rows: int)
    requires
        r <= rows,
        forall|q: int, c: int| 0 <= q < rows && 0 <= c < cols ==> #[trigger] cell_text(a, handle(q, c, cols))
            == cell_text(b, handle(q, c, cols)),
    ensures
        view_text(a, cols, r) == view_text(b, cols, r),
    decreases r,
{
    if r > 0 {
        lemma_view_text_eq(a, b, cols, r - 1, rows);
        assert forall|c: int| 0 <= c < cols implies #[trigger] cell_text(a, handle(r - 1, c, cols)) == cell_text(
            b, handle(r - 1, c, cols)) by {}
        lemma_row_text_eq(a, b, cols, r - 1, cols);
    }
}

/// Round trip: a grid whose descriptors are the texts that a sheet's view
/// shows (digits or `P`, values in the byte range) loads to a sheet with the
/// same view.
pub proof fn lemma_view_round_trip(s: SpreadSheet, grid: Seq<Vec<&str>>, t: SpreadSheet)
    requires
        s.wf_cells(),
        forall|i: int| 0 <= i < s.n() ==> (reported((#[trigger] s.cells@[i]).category) matches Some(v) ==> v <= 255),
        grid.len() == s.rows,
        forall|r: int| 0 <= r < s.rows ==> (#[trigger] grid[r])@.len() == s.cols,
        forall|r: int, c: int| 0 <= r < s.rows && 0 <= c < s.cols ==> (#[trigger] grid[r]@[c]).spec_bytes()
            == display_bytes(reported(s.cells@[handle(r, c, s.cols as int)].category)),
        loads_from(t, grid),
    ensures
        view_text(t.cells@, t.cols as int, t.rows as int) == view_text(s.cells@, s.cols as int, s.rows as int),
{
    if s.rows > 0 {
        let cols = s.cols as int;
        let rows = s.rows as int;
        assert(t.cols == s.cols);
        assert forall|q: int, c: int| 0 <= q < rows && 0 <= c < cols implies #[trigger] cell_text(t.cells@, handle(q, c, cols))
            == cell_text(s.cells@, handle(q, c, cols)) by {
            lemma_handle_bound(q, c, rows, cols);
            let h = handle(q, c, cols);
            let tc = t.cells@[h];
            let sc = s.cells@[h];
            lemma_handle_unique(tc.coordinates.row as int, tc.coordinates.col as int, q, c, cols);
            lemma_display_classifies(reported(sc.category));
            assert(grid[q]@[c].spec_bytes() == display_bytes(reported(sc.category)));
        }
        lemma_view_text_eq(t.cells@, s.cells@, cols, rows, rows);
    }
}

} // verus!

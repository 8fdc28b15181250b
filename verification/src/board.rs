//! The board data model and the validity check.
//!
//! A `Board` holds 81 cells in row-major order.  The 27 constraint groups
//! (9 rows, 9 columns, 9 subsquares) are spec-level projections of the
//! cell sequence; `is_valid` checks that no group holds a duplicate digit.

use vstd::prelude::*;

verus! {

/// One cell: either a given clue, immutable for the puzzle's lifetime,
/// or a free cell that the solver may assign and retract.
#[derive(Clone, Copy, Debug)]
pub enum Cell {
    Fixed(u8),
    Free(Option<u8>),
}

/// The digit a cell currently holds, if any.
pub open spec fn digit_at(c: Cell) -> Option<u8> {
    match c {
        Cell::Fixed(d) => Some(d),
        Cell::Free(o) => o,
    }
}

/// A cell is well formed when any digit it holds lies in 1..=9.
pub open spec fn cell_wf(c: Cell) -> bool {
    match digit_at(c) {
        Some(d) => 1 <= d <= 9,
        None => true,
    }
}

/// A board view is well formed: exactly 81 cells, each well formed.
pub open spec fn board_wf(s: Seq<Cell>) -> bool {
    &&& s.len() == 81
    &&& forall|i: int| 0 <= i < 81 ==> cell_wf(#[trigger] s[i])
}

/// Row `g`: the digits of cells (g, 0..9).
pub open spec fn row_group(s: Seq<Cell>, g: int) -> Seq<Option<u8>> {
    Seq::new(9, |j: int| digit_at(s[g * 9 + j]))
}

/// Column `g`: the digits of cells (0..9, g).
pub open spec fn col_group(s: Seq<Cell>, g: int) -> Seq<Option<u8>> {
    Seq::new(9, |j: int| digit_at(s[j * 9 + g]))
}

/// The board index of the `j`-th cell (row-major within the block) of
/// subsquare `g`, whose top-left corner is row (g/3)*3, column (g%3)*3.
pub open spec fn box_index(g: int, j: int) -> int {
    ((g / 3) * 3 + j / 3) * 9 + (g % 3) * 3 + j % 3
}

/// Subsquare `g`: the digits of its nine cells.
pub open spec fn box_group(s: Seq<Cell>, g: int) -> Seq<Option<u8>> {
    Seq::new(9, |j: int| digit_at(s[box_index(g, j)]))
}

/// A constraint group passes when no assigned digit appears twice in it.
pub open spec fn group_ok(gr: Seq<Option<u8>>) -> bool {
    forall|x: int, y: int|
        0 <= x < y < gr.len() ==> (#[trigger] gr[x] is Some ==> #[trigger] gr[y] != gr[x])
}

/// The 27 constraint groups in a fixed order: rows for k in 0..9,
/// columns for k in 9..18, subsquares for k in 18..27.
pub open spec fn group_seq(s: Seq<Cell>, k: int) -> Seq<Option<u8>> {
    if k < 9 {
        row_group(s, k)
    } else if k < 18 {
        col_group(s, k - 9)
    } else {
        box_group(s, k - 18)
    }
}

/// Validity: every one of the 27 constraint groups is duplicate free.
pub open spec fn board_ok(s: Seq<Cell>) -> bool {
    forall|k: int| 0 <= k < 27 ==> group_ok(#[trigger] group_seq(s, k))
}

/// The board index of element `j` of constraint group `k`.
pub open spec fn group_index(k: int, j: int) -> int {
    if k < 9 {
        k * 9 + j
    } else if k < 18 {
        j * 9 + (k - 9)
    } else {
        box_index(k - 18, j)
    }
}

/// Element `j` of group `k` is the digit of the board cell at
/// `group_index(k, j)`, an in-range index.
pub proof fn lemma_group_index(k: int, j: int)
    requires
        0 <= k < 27,
        0 <= j < 9,
    ensures
        0 <= group_index(k, j) < 81,
        forall|s: Seq<Cell>|
            s.len() == 81 ==> #[trigger] group_seq(s, k)[j] == digit_at(s[group_index(k, j)]),
{
    if k >= 18 {
        let g = k - 18;
        assert(g / 3 <= 2 && j / 3 <= 2 && g % 3 <= 2 && j % 3 <= 2);
        assert(0 <= box_index(g, j) < 81);
    }
}

/// A 9x9 Sudoku board, 81 cells in row-major order.
pub struct Board {
    cells: Vec<Cell>,
}

impl View for Board {
    type V = Seq<Cell>;

    closed spec fn view(&self) -> Seq<Cell> {
        self.cells@
    }
}

impl Cell {
    /// The digit this cell currently holds, if any.
    pub fn digit(&self) -> (r: Option<u8>)
        ensures
            r == digit_at(*self),
    {
        match self {
            Cell::Fixed(d) => Some(*d),
            Cell::Free(o) => *o,
        }
    }
}

impl Board {
    /// Well-formedness: exactly 81 cells, digits in 1..=9.
    pub open spec fn wf(&self) -> bool {
        board_wf(self@)
    }

    /// Wraps a cell vector as a board.
    pub(crate) fn from_cells(cells: Vec<Cell>) -> (b: Board)
        ensures
            b@ == cells@,
    {
        Board { cells }
    }

    /// The cell at row-major index `i`.
    pub fn cell_at(&self, i: usize) -> (c: Cell)
        requires
            i < self@.len(),
        ensures
            c == self@[i as int],
    {
        self.cells[i]
    }

    /// Overwrites the cell at row-major index `i`.
    pub(crate) fn set_cell(&mut self, i: usize, c: Cell)
        requires
            i < old(self)@.len(),
        ensures
            final(self)@ == old(self)@.update(i as int, c),
    {
        self.cells.set(i, c);
    }

    /// The nine rows, each as its nine digits in column order.
    pub fn rows(&self) -> (r: Vec<Vec<Option<u8>>>)
        requires
            self.wf(),
        ensures
            r@.len() == 9,
            forall|g: int| 0 <= g < 9 ==> #[trigger] r@[g]@ == row_group(self@, g),
    {
        let mut r: Vec<Vec<Option<u8>>> = Vec::new();
        let mut g: usize = 0;
        while g < 9
            invariant
                self.wf(),
                g <= 9,
                r@.len() == g,
                forall|t: int| 0 <= t < g ==> #[trigger] r@[t]@ == row_group(self@, t),
            decreases 9 - g,
        {
            let mut row: Vec<Option<u8>> = Vec::new();
            let mut j: usize = 0;
            while j < 9
                invariant
                    self.wf(),
                    g < 9,
                    j <= 9,
                    row@.len() == j,
                    forall|t: int| 0 <= t < j ==> #[trigger] row@[t] == digit_at(self@[g * 9 + t]),
                decreases 9 - j,
            {
                row.push(self.cell_at(g * 9 + j).digit());
                j += 1;
            }
            proof {
                assert(row@ =~= row_group(self@, g as int));
            }
            r.push(row);
            g += 1;
        }
        r
    }

    /// The nine columns, each as its nine digits in row order.
    pub fn columns(&self) -> (r: Vec<Vec<Option<u8>>>)
        requires
            self.wf(),
        ensures
            r@.len() == 9,
            forall|g: int| 0 <= g < 9 ==> #[trigger] r@[g]@ == col_group(self@, g),
    {
        let mut r: Vec<Vec<Option<u8>>> = Vec::new();
        let mut g: usize = 0;
        while g < 9
            invariant
                self.wf(),
                g <= 9,
                r@.len() == g,
                forall|t: int| 0 <= t < g ==> #[trigger] r@[t]@ == col_group(self@, t),
            decreases 9 - g,
        {
            let mut col: Vec<Option<u8>> = Vec::new();
            let mut j: usize = 0;
            while j < 9
                invariant
                    self.wf(),
                    g < 9,
                    j <= 9,
                    col@.len() == j,
                    forall|t: int| 0 <= t < j ==> #[trigger] col@[t] == digit_at(self@[t * 9 + g]),
                decreases 9 - j,
            {
                col.push(self.cell_at(j * 9 + g).digit());
                j += 1;
            }
            proof {
                assert(col@ =~= col_group(self@, g as int));
            }
            r.push(col);
            g += 1;
        }
        r
    }

    /// The nine 3x3 subsquares, each as its nine digits, row-major within
    /// the block.
    pub fn subsquares(&self) -> (r: Vec<Vec<Option<u8>>>)
        requires
            self.wf(),
        ensures
            r@.len() == 9,
            forall|g: int| 0 <= g < 9 ==> #[trigger] r@[g]@ == box_group(self@, g),
    {
        let mut r: Vec<Vec<Option<u8>>> = Vec::new();
        let mut g: usize = 0;
        while g < 9
            invariant
                self.wf(),
                g <= 9,
                r@.len() == g,
                forall|t: int| 0 <= t < g ==> #[trigger] r@[t]@ == box_group(self@, t),
            decreases 9 - g,
        {
            let mut sq: Vec<Option<u8>> = Vec::new();
            let mut j: usize = 0;
            while j < 9
                invariant
                    self.wf(),
                    g < 9,
                    j <= 9,
                    sq@.len() == j,
                    forall|t: int| 0 <= t < j ==> #[trigger] sq@[t] == digit_at(self@[box_index(g as int, t)]),
                decreases 9 - j,
            {
                let idx = ((g / 3) * 3 + j / 3) * 9 + (g % 3) * 3 + j % 3;
                proof {
                    assert(idx == box_index(g as int, j as int));
                    assert(g / 3 <= 2 && j / 3 <= 2 && g % 3 <= 2 && j % 3 <= 2);
                    assert(box_index(g as int, j as int) < 81);
                }
                sq.push(self.cell_at(idx).digit());
                j += 1;
            }
            proof {
                assert(sq@ =~= box_group(self@, g as int));
            }
            r.push(sq);
            g += 1;
        }
        r
    }

    /// True iff no constraint group among the 27 holds a duplicate digit.
    pub fn is_valid(&self) -> (r: bool)
        requires
            self.wf(),
        ensures
            r == board_ok(self@),
    {
        let rows = self.rows();
        let mut g: usize = 0;
        while g < 9
            invariant
                self.wf(),
                g <= 9,
                rows@.len() == 9,
                forall|t: int| 0 <= t < 9 ==> #[trigger] rows@[t]@ == row_group(self@, t),
                forall|t: int| 0 <= t < g ==> group_ok(#[trigger] row_group(self@, t)),
            decreases 9 - g,
        {
            if group_has_dup(&rows[g]) {
                proof {
                    assert(group_seq(self@, g as int) == row_group(self@, g as int));
                }
                return false;
            }
            g += 1;
        }
        let cols = self.columns();
        let mut g: usize = 0;
        while g < 9
            invariant
                self.wf(),
                g <= 9,
                cols@.len() == 9,
                forall|t: int| 0 <= t < 9 ==> #[trigger] cols@[t]@ == col_group(self@, t),
                forall|t: int| 0 <= t < 9 ==> group_ok(#[trigger] row_group(self@, t)),
                forall|t: int| 0 <= t < g ==> group_ok(#[trigger] col_group(self@, t)),
            decreases 9 - g,
        {
            if group_has_dup(&cols[g]) {
                proof {
                    assert(group_seq(self@, 9 + g as int) == col_group(self@, g as int));
                }
                return false;
            }
            g += 1;
        }
        let boxes = self.subsquares();
        let mut g: usize = 0;
        while g < 9
            invariant
                self.wf(),
                g <= 9,
                boxes@.len() == 9,
                forall|t: int| 0 <= t < 9 ==> #[trigger] boxes@[t]@ == box_group(self@, t),
                forall|t: int| 0 <= t < 9 ==> group_ok(#[trigger] row_group(self@, t)),
                forall|t: int| 0 <= t < 9 ==> group_ok(#[trigger] col_group(self@, t)),
                forall|t: int| 0 <= t < g ==> group_ok(#[trigger] box_group(self@, t)),
            decreases 9 - g,
        {
            if group_has_dup(&boxes[g]) {
                proof {
                    assert(group_seq(self@, 18 + g as int) == box_group(self@, g as int));
                }
                return false;
            }
            g += 1;
        }
        proof {
            assert forall|k: int| 0 <= k < 27 implies group_ok(#[trigger] group_seq(self@, k)) by {
                if k < 9 {
                    assert(group_ok(row_group(self@, k)));
                } else if k < 18 {
                    assert(group_ok(col_group(self@, k - 9)));
                } else {
                    assert(group_ok(box_group(self@, k - 18)));
                }
            }
        }
        true
    }
}

/// True iff some assigned digit appears twice in the group.
fn group_has_dup(gr: &Vec<Option<u8>>) -> (r: bool)
    requires
        gr@.len() == 9,
    ensures
        r == !group_ok(gr@),
{
    let mut x: usize = 0;
    while x < 9
        invariant
            gr@.len() == 9,
            x <= 9,
            forall|a: int, b: int|
                0 <= a < b < 9 && a < x ==> (#[trigger] gr@[a] is Some ==> #[trigger] gr@[b] != gr@[a]),
        decreases 9 - x,
    {
        let mut y: usize = x + 1;
        while y < 9
            invariant
                gr@.len() == 9,
                x < 9,
                x < y <= 9,
                forall|a: int, b: int|
                    0 <= a < b < 9 && a < x ==> (#[trigger] gr@[a] is Some ==> #[trigger] gr@[b] != gr@[a]),
                forall|b: int| x < b < y ==> (gr@[x as int] is Some ==> #[trigger] gr@[b] != gr@[x as int]),
            decreases 9 - y,
        {
            if let Some(a) = gr[x] {
                if let Some(b) = gr[y] {
                    if a == b {
                        proof {
                            assert(gr@[x as int] is Some && gr@[y as int] == gr@[x as int]);
                        }
                        return true;
                    }
                }
            }
            y += 1;
        }
        x += 1;
    }
    false
}

} // verus!

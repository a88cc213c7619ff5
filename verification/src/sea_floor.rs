//! A sea floor on which two herds of sea cucumbers move: one herd east, one
//! south, each cucumber one cell at a time, onto cells that are empty, around
//! the edges of the floor.
//!
//! A floor has a number of rows and a number of columns, and holds its cells
//! row by row.  A row may be longer than the floor is wide: a cucumber that
//! stands beyond the last column stays there until it can move, and its move
//! brings it onto the floor.

use vstd::arithmetic::div_mod::{
    lemma_mod_add_multiples_vanish, lemma_mod_bound, lemma_mod_equivalence, lemma_mod_self_0,
    lemma_small_mod,
};
use vstd::prelude::*;
use vstd::string::StringSliceAdditionalSpecFns;

verus! {

/// A sea cucumber, by the direction in which it moves.
#[derive(Clone, Copy, PartialEq, Eq, Structural, Debug)]
pub enum Cucumber {
    South,
    East,
}

/// A cell of the sea floor: a cucumber, or nothing.
pub type Cell = Option<Cucumber>;

/// A place on the sea floor.
#[derive(Clone, Copy, PartialEq, Eq, Structural, Debug)]
pub struct Point {
    pub row: usize,
    pub col: usize,
}

impl Point {
    /// The place in row `row` and column `col`.
    pub fn new(row: usize, col: usize) -> (p: Self)
        ensures
            p.row == row,
            p.col == col,
    {
        Point { row, col }
    }
}

/// The cell at row `r`, column `c` of `grid`: nothing where `grid` has no
/// cell.
pub open spec fn cell_at(grid: Seq<Seq<Cell>>, r: int, c: int) -> Cell {
    if 0 <= r < grid.len() && 0 <= c < grid[r].len() {
        grid[r][c]
    } else {
        None
    }
}

/// Every row of `grid` has at least `cols` cells.
pub open spec fn wide(grid: Seq<Seq<Cell>>, cols: int) -> bool {
    forall|r: int| 0 <= r < grid.len() ==> (#[trigger] grid[r]).len() >= cols
}

/// Every row of `grid` has `cols` cells.
pub open spec fn rectangular(grid: Seq<Seq<Cell>>, cols: int) -> bool {
    forall|r: int| 0 <= r < grid.len() ==> (#[trigger] grid[r]).len() == cols
}

/// `grid` holds a cucumber of the herd `herd`.
pub open spec fn holds(grid: Seq<Seq<Cell>>, herd: Cucumber) -> bool {
    exists|r: int, c: int| #[trigger] cell_at(grid, r, c) == Some(herd)
}

/// The place to which a cucumber of the herd `herd` at row `r`, column `c`
/// moves on a floor of `rows` rows and `cols` columns: one cell on in its
/// direction, brought onto the floor around its edges.
pub open spec fn ahead(rows: int, cols: int, herd: Cucumber, r: int, c: int) -> (int, int) {
    match herd {
        Cucumber::East => (r % rows, (c + 1) % cols),
        Cucumber::South => ((r + 1) % rows, c % cols),
    }
}

/// At row `r`, column `c` of `grid` stands a cucumber of the herd `herd`,
/// and the cell ahead of it is empty.
pub open spec fn free(grid: Seq<Seq<Cell>>, cols: int, herd: Cucumber, r: int, c: int) -> bool {
    let to = ahead(grid.len() as int, cols, herd, r, c);
    cell_at(grid, r, c) == Some(herd) && cell_at(grid, to.0, to.1) is None
}

/// Some cucumber of the herd `herd` is free to move to row `r`, column `c`.
pub open spec fn arrives(grid: Seq<Seq<Cell>>, cols: int, herd: Cucumber, r: int, c: int) -> bool {
    exists|q: int, k: int|
        #![trigger free(grid, cols, herd, q, k)]
        free(grid, cols, herd, q, k) && ahead(grid.len() as int, cols, herd, q, k) == (r, c)
}

/// The cell at row `r`, column `c` after the herd `herd` has moved: a
/// cucumber that was free has left, one has come where one was free to come,
/// and every other cell is as it was.
pub open spec fn after(grid: Seq<Seq<Cell>>, cols: int, herd: Cucumber, r: int, c: int) -> Cell {
    if free(grid, cols, herd, r, c) {
        None
    } else if arrives(grid, cols, herd, r, c) {
        Some(herd)
    } else {
        grid[r][c]
    }
}

/// `grid` after every free cucumber of the herd `herd` has moved, all at
/// once.
pub open spec fn moved(grid: Seq<Seq<Cell>>, cols: int, herd: Cucumber) -> Seq<Seq<Cell>> {
    Seq::new(
        grid.len(),
        |r: int| Seq::new(grid[r].len(), |c: int| after(grid, cols, herd, r, c)),
    )
}

/// Some cucumber of the herd `herd` is free to move.
pub open spec fn can_move(grid: Seq<Seq<Cell>>, cols: int, herd: Cucumber) -> bool {
    exists|r: int, c: int| #[trigger] free(grid, cols, herd, r, c)
}

/// The row from which a cucumber of the herd `herd` comes to row `r`.
pub open spec fn source_row(rows: int, herd: Cucumber, r: int) -> int {
    match herd {
        Cucumber::East => r,
        Cucumber::South => if r == 0 {
            rows - 1
        } else {
            r - 1
        },
    }
}

/// By how many columns a cucumber of the herd `herd` goes on when it moves.
pub open spec fn stride(herd: Cucumber) -> int {
    match herd {
        Cucumber::East => 1,
        Cucumber::South => 0,
    }
}

/// In `row` stands a cucumber of the herd `herd` whose column, `shift`
/// columns on and brought within `cols` columns, is `c`.
pub open spec fn comes(row: Seq<Cell>, cols: int, herd: Cucumber, shift: int, c: int) -> bool {
    exists|k: int| 0 <= k < row.len() && #[trigger] row[k] == Some(herd) && (k + shift) % cols == c
}

/// The neighbour of index `i` around the edge of a row or column of `n`
/// cells.
pub proof fn lemma_neighbour(i: int, n: int)
    requires
        0 <= i < n,
    ensures
        i % n == i,
        (i + 1) % n == (if i + 1 == n {
            0
        } else {
            i + 1
        }),
{
    lemma_mod_self_0(n);
    lemma_small_mod(i as nat, n as nat);
    if i + 1 < n {
        lemma_small_mod((i + 1) as nat, n as nat);
    }
}

/// Two numbers less than `n` apart that leave the same remainder are one.
pub proof fn lemma_same_remainder(a: int, b: int, n: int)
    requires
        n > 0,
        a <= b < a + n,
        a % n == b % n,
    ensures
        a == b,
{
    lemma_mod_equivalence(b, a, n);
    lemma_small_mod((b - a) as nat, n as nat);
}

/// Onto an empty cell of the floor a cucumber comes from one row only: its
/// own row for the east-facing herd, the row before it for the south-facing
/// one.
pub proof fn lemma_arrival(grid: Seq<Seq<Cell>>, cols: int, herd: Cucumber, r: int, c: int)
    requires
        cols > 0,
        wide(grid, cols),
        0 <= r < grid.len(),
        0 <= c < cols,
        grid[r][c] is None,
    ensures
        arrives(grid, cols, herd, r, c) == comes(
            grid[source_row(grid.len() as int, herd, r)],
            cols,
            herd,
            stride(herd),
            c,
        ),
{
    let rows = grid.len() as int;
    let q = source_row(rows, herd, r);
    let shift = stride(herd);
    lemma_neighbour(q, rows);
    assert(grid[r].len() >= cols);
    assert(cell_at(grid, r, c) is None);
    if arrives(grid, cols, herd, r, c) {
        let (p, k) = choose|p: int, k: int|
            #![trigger free(grid, cols, herd, p, k)]
            free(grid, cols, herd, p, k) && ahead(rows, cols, herd, p, k) == (r, c);
        lemma_neighbour(p, rows);
        assert(p == q);
        assert(grid[q][k] == Some(herd) && (k + shift) % cols == c);
    }
    if comes(grid[q], cols, herd, shift, c) {
        let k = choose|k: int|
            0 <= k < grid[q].len() && #[trigger] grid[q][k] == Some(herd) && (k + shift) % cols == c;
        assert(ahead(rows, cols, herd, q, k) == (r, c));
        assert(free(grid, cols, herd, q, k));
    }
}

/// On a floor whose rows are all as long as the floor is wide, a cucumber
/// comes onto an empty cell from the cell just before it: the one to its
/// west for the east-facing herd, the one to its north for the south-facing
/// herd, around the edges.
pub proof fn lemma_arrival_rectangular(grid: Seq<Seq<Cell>>, cols: int, r: int, c: int)
    requires
        cols > 0,
        rectangular(grid, cols),
        0 <= r < grid.len(),
        0 <= c < cols,
        grid[r][c] is None,
    ensures
        arrives(grid, cols, Cucumber::East, r, c) == (grid[r][if c == 0 {
            cols - 1
        } else {
            c - 1
        }] == Some(Cucumber::East)),
        arrives(grid, cols, Cucumber::South, r, c) == (grid[if r == 0 {
            grid.len() - 1
        } else {
            r - 1
        }][c] == Some(Cucumber::South)),
{
    let west = if c == 0 {
        cols - 1
    } else {
        c - 1
    };
    let north = if r == 0 {
        grid.len() - 1
    } else {
        r - 1
    };
    assert(grid[r].len() == cols && grid[north].len() == cols);
    lemma_arrival(grid, cols, Cucumber::East, r, c);
    lemma_arrival(grid, cols, Cucumber::South, r, c);
    lemma_neighbour(west, cols);
    lemma_neighbour(c, cols);
    if comes(grid[r], cols, Cucumber::East, 1, c) {
        let k = choose|k: int|
            0 <= k < grid[r].len() && #[trigger] grid[r][k] == Some(Cucumber::East) && (k + 1) % cols
                == c;
        lemma_neighbour(k, cols);
    }
    if comes(grid[north], cols, Cucumber::South, 0, c) {
        let k = choose|k: int|
            0 <= k < grid[north].len() && #[trigger] grid[north][k] == Some(Cucumber::South) && (k
                + 0) % cols == c;
        lemma_neighbour(k, cols);
    }
}

/// Where no cucumber of a herd is free, the move of that herd changes
/// nothing.
pub proof fn lemma_still(grid: Seq<Seq<Cell>>, cols: int, herd: Cucumber)
    requires
        !can_move(grid, cols, herd),
    ensures
        moved(grid, cols, herd) == grid,
{
    let m = moved(grid, cols, herd);
    assert forall|r: int| 0 <= r < grid.len() implies #[trigger] m[r] == grid[r] by {
        assert forall|c: int| 0 <= c < grid[r].len() implies #[trigger] m[r][c] == grid[r][c] by {
            assert(!free(grid, cols, herd, r, c));
            if arrives(grid, cols, herd, r, c) {
                let (p, k) = choose|p: int, k: int|
                    #![trigger free(grid, cols, herd, p, k)]
                    free(grid, cols, herd, p, k) && ahead(grid.len() as int, cols, herd, p, k) == (
                        r,
                        c,
                    );
                assert(free(grid, cols, herd, p, k));
            }
        }
        assert(m[r] =~= grid[r]);
    }
    assert(m =~= grid);
}

/// The rows of cells that the vectors `rows` hold.
pub open spec fn cells_of(rows: Seq<Vec<Cell>>) -> Seq<Seq<Cell>> {
    Seq::new(rows.len(), |r: int| rows[r]@)
}

/// The length of the last row of `grid`, 0 where it has no row.
pub open spec fn last_len(grid: Seq<Seq<Cell>>) -> nat {
    if grid.len() == 0 {
        0
    } else {
        grid.last().len()
    }
}

/// `grid` with each row of fewer than `cols` cells filled up with empty
/// cells to that length.
pub open spec fn padded(grid: Seq<Seq<Cell>>, cols: int) -> Seq<Seq<Cell>> {
    Seq::new(
        grid.len(),
        |r: int|
            Seq::new(
                if grid[r].len() >= cols {
                    grid[r].len()
                } else {
                    cols as nat
                },
                |c: int| cell_at(grid, r, c),
            ),
    )
}

/// Filling up changes no cell.
pub proof fn lemma_padded_same_cells(grid: Seq<Seq<Cell>>, cols: int)
    ensures
        wide(padded(grid, cols), cols),
        forall|r: int, c: int| #[trigger] cell_at(padded(grid, cols), r, c) == cell_at(grid, r, c),
{
}

/// Rows that are long enough are not filled up.
pub proof fn lemma_padded_wide(grid: Seq<Seq<Cell>>, cols: int)
    requires
        wide(grid, cols),
    ensures
        padded(grid, cols) == grid,
{
    assert forall|r: int| 0 <= r < grid.len() implies #[trigger] padded(grid, cols)[r] == grid[r] by {
        assert(grid[r].len() >= cols);
        assert(padded(grid, cols)[r] =~= grid[r]);
    }
    assert(padded(grid, cols) =~= grid);
}

/// The cell that a byte of a map stands for: `>` is an east-facing cucumber,
/// `v` a south-facing one, anything else an empty cell.
pub open spec fn cell_of(byte: u8) -> Cell {
    if byte == 62 {
        Some(Cucumber::East)
    } else if byte == 118 {
        Some(Cucumber::South)
    } else {
        None
    }
}

/// `byte` goes on with a character that an earlier byte began, as the
/// second, third and fourth byte of a character in UTF-8 do.
pub open spec fn continues(byte: u8) -> bool {
    128 <= byte < 192
}

/// Where the reading of a map stands: the rows that are complete, the cells
/// of the line being read, and whether its last character was a carriage
/// return.
pub struct Reading {
    pub done: Seq<Seq<Cell>>,
    pub line: Seq<Cell>,
    pub cr: bool,
}

/// The reading of a map after `bytes`.  Each character is one cell.  A line
/// feed ends a line; a carriage return just before it is no cell of that
/// line.
pub open spec fn read(bytes: Seq<u8>) -> Reading
    decreases bytes.len(),
{
    if bytes.len() == 0 {
        Reading { done: Seq::empty(), line: Seq::empty(), cr: false }
    } else {
        let before = read(bytes.drop_last());
        let byte = bytes.last();
        if byte == 10 {
            Reading {
                done: before.done.push(
                    if before.cr {
                        before.line.drop_last()
                    } else {
                        before.line
                    },
                ),
                line: Seq::empty(),
                cr: false,
            }
        } else if continues(byte) {
            before
        } else {
            Reading { done: before.done, line: before.line.push(cell_of(byte)), cr: byte == 13 }
        }
    }
}

/// The rows of the map `bytes`: its lines, without an empty line at the end.
pub open spec fn rows_of(bytes: Seq<u8>) -> Seq<Seq<Cell>> {
    let reading = read(bytes);
    if reading.line.len() > 0 {
        reading.done.push(reading.line)
    } else {
        reading.done
    }
}

/// Whether `row` holds a cucumber of the herd `herd` whose column, `shift`
/// columns on and brought within `cols` columns, is `c`.
fn arrival(row: &Vec<Cell>, cols: usize, herd: Cucumber, shift: usize, c: usize) -> (b: bool)
    requires
        cols > 0,
        c < cols,
        shift <= 1,
    ensures
        b == comes(row@, cols as int, herd, shift as int, c as int),
{
    let n = row.len();
    let mut m: usize = c;
    proof {
        lemma_small_mod(c as nat, cols as nat);
        assert forall|k: int| 0 <= k < n && k + shift < m && (k + shift) % (cols as int) == c implies (
        #[trigger] row@[k]) != Some(herd) by {
            lemma_small_mod((k + shift) as nat, cols as nat);
        }
    }
    loop
        invariant
            cols > 0,
            c < cols,
            shift <= 1,
            n == row@.len(),
            c <= m,
            (m as int) % (cols as int) == c,
            forall|k: int|
                0 <= k < n && k + shift < m && (k + shift) % (cols as int) == c ==> (
                #[trigger] row@[k]) != Some(herd),
        decreases usize::MAX - m,
    {
        if m >= shift {
            let k: usize = m - shift;
            if k >= n {
                return false;
            }
            let found = match row[k] {
                Some(x) => x == herd,
                None => false,
            };
            if found {
                return true;
            }
        }
        if cols > usize::MAX - m {
            proof {
                if comes(row@, cols as int, herd, shift as int, c as int) {
                    let k = choose|k: int|
                        0 <= k < row@.len() && #[trigger] row@[k] == Some(herd) && (k + shift) % (
                        cols as int) == c;
                    if k + shift >= m {
                        lemma_same_remainder(m as int, k + shift, cols as int);
                    }
                }
            }
            return false;
        }
        proof {
            lemma_mod_add_multiples_vanish(m as int, cols as int);
            assert forall|k: int|
                0 <= k < n && k + shift < m + cols && (k + shift) % (cols as int) == c implies (
            #[trigger] row@[k]) != Some(herd) by {
                if k + shift >= m {
                    lemma_same_remainder(m as int, k + shift, cols as int);
                }
            }
        }
        m = m + cols;
    }
}

/// A sea floor: rows of cells, and the number of rows and of columns around
/// which the cucumbers move.
pub struct SeaFloor {
    cells: Vec<Vec<Cell>>,
    rows: usize,
    cols: usize,
}

impl SeaFloor {
    /// The cells, row by row.
    pub closed spec fn grid(&self) -> Seq<Seq<Cell>> {
        cells_of(self.cells@)
    }

    /// The number of rows.
    pub closed spec fn spec_rows(&self) -> usize {
        self.rows
    }

    /// The number of columns.
    pub closed spec fn spec_cols(&self) -> usize {
        self.cols
    }

    /// The floor has `rows` rows, each of at least `cols` cells.
    pub closed spec fn wf(&self) -> bool {
        &&& self.cells@.len() == self.rows
        &&& wide(self.grid(), self.cols as int)
    }

    /// Well-formedness, in terms of the grid.
    pub proof fn lemma_wf(&self)
        requires
            self.wf(),
        ensures
            self.grid().len() == self.spec_rows(),
            wide(self.grid(), self.spec_cols() as int),
    {
    }

    /// The number of rows.
    #[verifier::when_used_as_spec(spec_rows)]
    pub fn rows(&self) -> (n: usize)
        ensures
            n == self.spec_rows(),
    {
        self.rows
    }

    /// The number of columns.
    #[verifier::when_used_as_spec(spec_cols)]
    pub fn cols(&self) -> (n: usize)
        ensures
            n == self.spec_cols(),
    {
        self.cols
    }

    /// The floor with the given rows.  It has as many columns as the last
    /// row has cells, and none where there is no row; a shorter row is
    /// filled up with empty cells.
    pub fn from_rows(cells: Vec<Vec<Cell>>) -> (floor: Self)
        ensures
            floor.wf(),
            floor.spec_rows() == cells@.len(),
            floor.spec_cols() == last_len(cells_of(cells@)),
            floor.grid() == padded(cells_of(cells@), last_len(cells_of(cells@)) as int),
    {
        let ghost grid = cells_of(cells@);
        let rows = cells.len();
        let cols = if rows == 0 {
            0
        } else {
            cells[rows - 1].len()
        };
        assert(cols == last_len(grid));
        let mut filled: Vec<Vec<Cell>> = Vec::new();
        let mut r: usize = 0;
        while r < rows
            invariant
                rows == cells@.len(),
                grid == cells_of(cells@),
                r <= rows,
                filled@.len() == r,
                forall|i: int|
                    0 <= i < r ==> (#[trigger] filled@[i])@ == padded(grid, cols as int)[i],
            decreases rows - r,
        {
            let n = cells[r].len();
            let width = if n >= cols {
                n
            } else {
                cols
            };
            let mut row: Vec<Cell> = Vec::new();
            let mut c: usize = 0;
            while c < width
                invariant
                    r < rows,
                    rows == cells@.len(),
                    grid == cells_of(cells@),
                    n == cells@[r as int]@.len(),
                    c <= width,
                    row@.len() == c,
                    forall|j: int| 0 <= j < c ==> (#[trigger] row@[j]) == cell_at(grid, r as int, j),
                decreases width - c,
            {
                let cell = if c < n {
                    cells[r][c]
                } else {
                    None
                };
                row.push(cell);
                c += 1;
            }
            assert(row@ =~= padded(grid, cols as int)[r as int]);
            filled.push(row);
            r += 1;
        }
        let floor = SeaFloor { cells: filled, rows, cols };
        assert(floor.grid() =~= padded(grid, cols as int));
        floor
    }

    /// The cell at row `row`, column `col`: nothing where the floor holds no
    /// cell.
    pub fn get(&self, row: usize, col: usize) -> (cell: Cell)
        requires
            self.wf(),
        ensures
            cell == cell_at(self.grid(), row as int, col as int),
    {
        if row < self.rows && col < self.cells[row].len() {
            self.cells[row][col]
        } else {
            None
        }
    }

    /// Whether the floor holds a cucumber of the herd `herd`.
    pub fn has(&self, herd: Cucumber) -> (found: bool)
        requires
            self.wf(),
        ensures
            found == holds(self.grid(), herd),
    {
        let ghost g = self.grid();
        let mut r: usize = 0;
        while r < self.rows
            invariant
                self.wf(),
                g == self.grid(),
                r <= self.rows,
                forall|i: int, j: int| 0 <= i < r ==> #[trigger] cell_at(g, i, j) != Some(herd),
            decreases self.rows - r,
        {
            let n = self.cells[r].len();
            let mut c: usize = 0;
            while c < n
                invariant
                    self.wf(),
                    g == self.grid(),
                    r < self.rows,
                    n == g[r as int].len(),
                    c <= n,
                    forall|j: int| 0 <= j < c ==> #[trigger] cell_at(g, r as int, j) != Some(herd),
                decreases n - c,
            {
                let here = match self.cells[r][c] {
                    Some(x) => x == herd,
                    None => false,
                };
                if here {
                    assert(cell_at(g, r as int, c as int) == Some(herd));
                    return true;
                }
                c += 1;
            }
            r += 1;
        }
        false
    }

    /// The place `(row, col)` brought onto the floor around its edges.
    pub fn wrap(&self, row: usize, col: usize) -> (p: Point)
        requires
            self.wf(),
            self.spec_rows() > 0,
            self.spec_cols() > 0,
        ensures
            p.row == row % self.spec_rows(),
            p.col == col % self.spec_cols(),
            p.row < self.spec_rows(),
            p.col < self.spec_cols(),
    {
        Point { row: row % self.rows, col: col % self.cols }
    }

    /// The cell at row `r`, column `c` after the herd `herd` has moved, and
    /// whether the cucumber there is free to move.
    fn moved_cell(&self, herd: Cucumber, r: usize, c: usize) -> (out: (Cell, bool))
        requires
            self.wf(),
            self.spec_cols() > 0 || !holds(self.grid(), herd),
            r < self.spec_rows(),
            c < self.grid()[r as int].len(),
        ensures
            out.0 == after(self.grid(), self.spec_cols() as int, herd, r as int, c as int),
            out.1 == free(self.grid(), self.spec_cols() as int, herd, r as int, c as int),
    {
        let ghost g = self.grid();
        let ghost cols = self.cols as int;
        proof {
            if arrives(g, cols, herd, r as int, c as int) {
                let (p, k) = choose|p: int, k: int|
                    #![trigger free(g, cols, herd, p, k)]
                    free(g, cols, herd, p, k) && ahead(g.len() as int, cols, herd, p, k) == (
                        r as int,
                        c as int,
                    );
                assert(cell_at(g, p, k) == Some(herd));
                lemma_mod_bound(k + 1, cols);
                lemma_mod_bound(k, cols);
                assert(cell_at(g, r as int, c as int) is None && c < cols);
            }
        }
        match self.cells[r][c] {
            Some(x) => {
                if x == herd {
                    assert(cell_at(g, r as int, c as int) == Some(herd));
                    let n = self.cells[r].len();
                    assert(c < n);
                    let to = match herd {
                        Cucumber::East => self.wrap(r, c + 1),
                        Cucumber::South => self.wrap(r + 1, c),
                    };
                    proof {
                        lemma_neighbour(r as int, self.rows as int);
                        assert(g[to.row as int].len() >= cols);
                        assert((to.row as int, to.col as int) == ahead(
                            g.len() as int,
                            cols,
                            herd,
                            r as int,
                            c as int,
                        ));
                    }
                    if self.cells[to.row][to.col].is_none() {
                        (None, true)
                    } else {
                        (Some(x), false)
                    }
                } else {
                    (Some(x), false)
                }
            },
            None => {
                if c >= self.cols {
                    (None, false)
                } else {
                    let (from, shift): (usize, usize) = match herd {
                        Cucumber::East => (r, 1),
                        Cucumber::South => (
                            if r == 0 {
                                self.rows - 1
                            } else {
                                r - 1
                            },
                            0,
                        ),
                    };
                    proof {
                        lemma_arrival(g, cols, herd, r as int, c as int);
                    }
                    if arrival(&self.cells[from], self.cols, herd, shift, c) {
                        (Some(herd), false)
                    } else {
                        (None, false)
                    }
                }
            },
        }
    }

    /// Moves the herd `herd` one step, and says whether any cucumber moved.
    fn move_herd(&mut self, herd: Cucumber) -> (any: bool)
        requires
            old(self).wf(),
            old(self).spec_cols() > 0 || !holds(old(self).grid(), herd),
        ensures
            final(self).wf(),
            final(self).spec_rows() == old(self).spec_rows(),
            final(self).spec_cols() == old(self).spec_cols(),
            final(self).grid() == moved(old(self).grid(), old(self).spec_cols() as int, herd),
            any == can_move(old(self).grid(), old(self).spec_cols() as int, herd),
    {
        let ghost g = self.grid();
        let ghost cols = self.cols as int;
        let mut updated: Vec<Vec<Cell>> = Vec::new();
        let mut any = false;
        let ghost mut at: (int, int) = (0, 0);
        let mut r: usize = 0;
        while r < self.rows
            invariant
                self.wf(),
                *self == *old(self),
                g == self.grid(),
                cols == self.cols,
                cols > 0 || !holds(g, herd),
                r <= self.rows,
                updated@.len() == r,
                forall|i: int| 0 <= i < r ==> (#[trigger] updated@[i])@ == moved(g, cols, herd)[i],
                any ==> free(g, cols, herd, at.0, at.1),
                !any ==> forall|i: int, j: int|
                    0 <= i < r && 0 <= j < g[i].len() ==> !#[trigger] free(g, cols, herd, i, j),
            decreases self.rows - r,
        {
            let n = self.cells[r].len();
            let mut row: Vec<Cell> = Vec::new();
            let mut c: usize = 0;
            while c < n
                invariant
                    self.wf(),
                    g == self.grid(),
                    cols == self.cols,
                    cols > 0 || !holds(g, herd),
                    r < self.rows,
                    n == g[r as int].len(),
                    c <= n,
                    row@.len() == c,
                    forall|j: int|
                        0 <= j < c ==> (#[trigger] row@[j]) == after(g, cols, herd, r as int, j),
                    any ==> free(g, cols, herd, at.0, at.1),
                    !any ==> forall|i: int, j: int|
                        (0 <= i < r && 0 <= j < g[i].len() || i == r && 0 <= j < c) ==> !#[trigger] free(
                            g,
                            cols,
                            herd,
                            i,
                            j,
                        ),
                decreases n - c,
            {
                let (cell, can) = self.moved_cell(herd, r, c);
                row.push(cell);
                if can && !any {
                    any = true;
                    proof {
                        at = (r as int, c as int);
                    }
                }
                c += 1;
            }
            assert(row@ =~= moved(g, cols, herd)[r as int]);
            updated.push(row);
            r += 1;
        }
        proof {
            if !any {
                assert forall|i: int, j: int| !#[trigger] free(g, cols, herd, i, j) by {
                    if 0 <= i < g.len() && 0 <= j < g[i].len() {
                    } else {
                        assert(cell_at(g, i, j) is None);
                    }
                }
            }
        }
        self.cells = updated;
        assert(self.grid() =~= moved(g, cols, herd));
        assert forall|i: int| 0 <= i < self.grid().len() implies (#[trigger] self.grid()[i]).len()
            >= cols by {
            assert(g[i].len() >= cols);
        }
        any
    }

    /// Moves every east-facing cucumber that has an empty cell ahead of it
    /// onto that cell, all at once, and says whether any moved.
    pub fn move_east(&mut self) -> (any: bool)
        requires
            old(self).wf(),
            old(self).spec_cols() > 0 || !holds(old(self).grid(), Cucumber::East),
        ensures
            final(self).wf(),
            final(self).spec_rows() == old(self).spec_rows(),
            final(self).spec_cols() == old(self).spec_cols(),
            final(self).grid() == moved(
                old(self).grid(),
                old(self).spec_cols() as int,
                Cucumber::East,
            ),
            any == can_move(old(self).grid(), old(self).spec_cols() as int, Cucumber::East),
    {
        self.move_herd(Cucumber::East)
    }

    /// Moves every south-facing cucumber that has an empty cell ahead of it
    /// onto that cell, all at once, and says whether any moved.
    pub fn move_south(&mut self) -> (any: bool)
        requires
            old(self).wf(),
            old(self).spec_cols() > 0 || !holds(old(self).grid(), Cucumber::South),
        ensures
            final(self).wf(),
            final(self).spec_rows() == old(self).spec_rows(),
            final(self).spec_cols() == old(self).spec_cols(),
            final(self).grid() == moved(
                old(self).grid(),
                old(self).spec_cols() as int,
                Cucumber::South,
            ),
            any == can_move(old(self).grid(), old(self).spec_cols() as int, Cucumber::South),
    {
        self.move_herd(Cucumber::South)
    }

    /// One step of the two herds: the east-facing herd moves, then the
    /// south-facing one.  Says whether any cucumber moved.
    pub fn step(&mut self) -> (any: bool)
        requires
            old(self).wf(),
            old(self).spec_cols() > 0 || !(holds(old(self).grid(), Cucumber::East) || holds(
                old(self).grid(),
                Cucumber::South,
            )),
        ensures
            final(self).wf(),
            final(self).spec_rows() == old(self).spec_rows(),
            final(self).spec_cols() == old(self).spec_cols(),
            final(self).grid() == moved(
                moved(old(self).grid(), old(self).spec_cols() as int, Cucumber::East),
                old(self).spec_cols() as int,
                Cucumber::South,
            ),
            any == (can_move(old(self).grid(), old(self).spec_cols() as int, Cucumber::East)
                || can_move(
                moved(old(self).grid(), old(self).spec_cols() as int, Cucumber::East),
                old(self).spec_cols() as int,
                Cucumber::South,
            )),
    {
        proof {
            if self.cols == 0 {
                let g = self.grid();
                assert(!can_move(g, 0, Cucumber::East)) by {
                    assert forall|r: int, c: int| !#[trigger] free(g, 0, Cucumber::East, r, c) by {
                        assert(cell_at(g, r, c) != Some(Cucumber::East));
                    }
                }
                lemma_still(g, 0, Cucumber::East);
            }
        }
        let east = self.move_east();
        let south = self.move_south();
        east || south
    }

    /// Reads a map of the sea floor: one line for each row, one character
    /// for each cell, `>` for an east-facing cucumber, `v` for a south-facing
    /// one, any other character for an empty cell.  The floor has as many
    /// rows as the map has lines and as many columns as its last line has
    /// characters.
    pub fn parse(input: &str) -> (floor: Self)
        ensures
            floor.wf(),
            floor.spec_rows() == rows_of(input.spec_bytes()).len(),
            floor.spec_cols() == last_len(rows_of(input.spec_bytes())),
            floor.grid() == padded(
                rows_of(input.spec_bytes()),
                last_len(rows_of(input.spec_bytes())) as int,
            ),
            forall|r: int, c: int| #[trigger]
                cell_at(floor.grid(), r, c) == cell_at(rows_of(input.spec_bytes()), r, c),
    {
        let bytes = input.as_bytes();
        let mut rows: Vec<Vec<Cell>> = Vec::new();
        let mut line: Vec<Cell> = Vec::new();
        let mut cr = false;
        let mut i: usize = 0;
        while i < bytes.len()
            invariant
                i <= bytes@.len(),
                cells_of(rows@) == read(bytes@.take(i as int)).done,
                line@ == read(bytes@.take(i as int)).line,
                cr == read(bytes@.take(i as int)).cr,
                cr ==> line@.len() > 0,
            decreases bytes@.len() - i,
        {
            let byte = bytes[i];
            proof {
                assert(bytes@.take(i + 1).drop_last() =~= bytes@.take(i as int));
                assert(bytes@.take(i + 1).last() == byte);
            }
            let ghost before = cells_of(rows@);
            if byte == 10 {
                if cr {
                    line.pop();
                }
                let ghost ended = line@;
                rows.push(line);
                line = Vec::new();
                cr = false;
                assert(cells_of(rows@) =~= before.push(ended));
            } else if byte < 128 || byte >= 192 {
                let cell = if byte == 62 {
                    Some(Cucumber::East)
                } else if byte == 118 {
                    Some(Cucumber::South)
                } else {
                    None
                };
                line.push(cell);
                cr = byte == 13;
            }
            i += 1;
        }
        assert(bytes@.take(i as int) =~= bytes@);
        if line.len() > 0 {
            let ghost before = cells_of(rows@);
            let ghost last = line@;
            rows.push(line);
            assert(cells_of(rows@) =~= before.push(last));
        }
        proof {
            lemma_padded_same_cells(
                rows_of(input.spec_bytes()),
                last_len(rows_of(input.spec_bytes())) as int,
            );
        }
        Self::from_rows(rows)
    }
}

} // verus!

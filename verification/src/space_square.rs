use vstd::prelude::*;
use crate::error::Error;
use crate::space::{connected, crosses, far_end, fresh_way, is_chain, splits, tree_count, Space};

verus! {

/// A rectangular grid of `rows` by `cols` cells, numbered row by row. The edges
/// come in bands, one per row: first the `cols - 1` edges to the east of each
/// cell but the last, then the `cols` edges to the south of each cell. The last
/// row has no edges to the south.
#[derive(Debug)]
pub struct SpaceSquare {
    rows: usize,
    cols: usize,
}

/// Walks the up to four edges of one cell: north, west, east, south.
#[derive(Debug)]
pub struct SpaceSquareEdgeIterator<'a> {
    space: &'a SpaceSquare,
    row: usize,
    col: usize,
    step: u8,
}

/// Walks the two cells of one edge, given by its band and its place in the band.
pub struct SpaceSquareNodeIterator<'a> {
    space: &'a SpaceSquare,
    row: usize,
    col: usize,
    step: u8,
}

pub proof fn lemma_band_bound(row: int, rows: int, len: int, off: int)
    requires
        0 <= row < rows,
        0 <= off < len,
    ensures
        0 <= row * len,
        row * len + off < rows * len,
        row * len + len <= rows * len,
        (row * len + off) / len == row,
        (row * len + off) % len == off,
{
    assert(0 <= row * len) by (nonlinear_arith)
        requires 0 <= row, 0 <= len;
    assert(row * len + len <= rows * len) by (nonlinear_arith)
        requires row + 1 <= rows, 0 <= len;
    vstd::arithmetic::div_mod::lemma_fundamental_div_mod_converse(row * len + off, len, row, off);
}

pub proof fn lemma_band_split(e: int, len: int)
    requires
        0 <= e,
        0 < len,
    ensures
        e == (e / len) * len + e % len,
        0 <= e / len,
        0 <= e % len < len,
{
    vstd::arithmetic::div_mod::lemma_fundamental_div_mod(e, len);
    vstd::arithmetic::div_mod::lemma_div_pos_is_pos(e, len);
    vstd::arithmetic::div_mod::lemma_mod_bound(e, len);
    assert((e / len) * len == len * (e / len)) by (nonlinear_arith);
}

impl SpaceSquare {
    /// Number of rows.
    pub closed spec fn height(&self) -> nat {
        self.rows as nat
    }

    /// Number of columns.
    pub closed spec fn width(&self) -> nat {
        self.cols as nat
    }

    /// At least one row and one column, and all edge numbers fit.
    pub open spec fn valid(&self) -> bool {
        &&& self.height() >= 1
        &&& self.width() >= 1
        &&& self.height() * (2 * self.width()) <= usize::MAX
    }

    /// Number of edges in one band.
    pub open spec fn band(&self) -> int {
        2 * self.width() - 1
    }

    /// The edge to the east of the cell at `row`, `col`.
    pub open spec fn east_of(&self, row: int, col: int) -> int {
        row * self.band() + col
    }

    /// The edge to the south of the cell at `row`, `col`.
    pub open spec fn south_of(&self, row: int, col: int) -> int {
        row * self.band() + self.width() - 1 + col
    }

    /// The cell at `row`, `col`.
    pub open spec fn cell_at(&self, row: int, col: int) -> int {
        row * self.width() + col
    }

    /// The edges of the cell at `row`, `col`: north, west, east, south, without
    /// those that the rim of the grid cuts off.
    pub open spec fn cell_edges(&self, row: int, col: int) -> Seq<usize> {
        (if row > 0 { seq![self.south_of(row - 1, col) as usize] } else { Seq::<usize>::empty() })
        + (if col > 0 { seq![self.east_of(row, col - 1) as usize] } else { Seq::<usize>::empty() })
        + (if col < self.width() - 1 { seq![self.east_of(row, col) as usize] } else { Seq::<usize>::empty() })
        + (if row < self.height() - 1 { seq![self.south_of(row, col) as usize] } else { Seq::<usize>::empty() })
    }

    /// The two cells of the edge at place `off` of band `row`: for an edge to the
    /// east, the cell and its eastern neighbour; for one to the south, the cell
    /// and the one below.
    pub open spec fn band_cells(&self, row: int, off: int) -> Seq<usize> {
        if off < self.width() - 1 {
            seq![self.cell_at(row, off) as usize, self.cell_at(row, off + 1) as usize]
        } else {
            seq![
                self.cell_at(row, off - (self.width() - 1)) as usize,
                self.cell_at(row + 1, off - (self.width() - 1)) as usize,
            ]
        }
    }

    /// What looking at side `side` of the cell at `row`, `col` yields: one edge
    /// or nothing. The sides are north, west, east, south.
    pub open spec fn side(&self, row: int, col: int, side: int) -> Seq<usize> {
        if side == 0 && row > 0 {
            seq![self.south_of(row - 1, col) as usize]
        } else if side == 1 && col > 0 {
            seq![self.east_of(row, col - 1) as usize]
        } else if side == 2 && col < self.width() - 1 {
            seq![self.east_of(row, col) as usize]
        } else if side == 3 && row < self.height() - 1 {
            seq![self.south_of(row, col) as usize]
        } else {
            Seq::<usize>::empty()
        }
    }

    /// What the sides from `side` on yield.
    pub open spec fn sides_from(&self, row: int, col: int, side: int) -> Seq<usize>
        decreases 4 - side,
    {
        if side >= 4 || side < 0 {
            Seq::<usize>::empty()
        } else {
            self.side(row, col, side) + self.sides_from(row, col, side + 1)
        }
    }

    /// All four sides together are the cell's edges.
    pub proof fn lemma_all_sides(&self, row: int, col: int)
        ensures
            self.sides_from(row, col, 0) == self.cell_edges(row, col),
    {
        reveal_with_fuel(SpaceSquare::sides_from, 6);
        assert(self.sides_from(row, col, 0) =~= self.cell_edges(row, col));
    }

    /// What looking at end `end` of the edge at place `off` of band `row` yields:
    /// one cell or nothing. The first two ends are those of an edge to the east,
    /// the last two those of an edge to the south.
    pub open spec fn end(&self, row: int, off: int, end: int) -> Seq<usize> {
        if end == 0 && off < self.width() - 1 {
            seq![self.cell_at(row, off) as usize]
        } else if end == 1 && off < self.width() - 1 {
            seq![self.cell_at(row, off + 1) as usize]
        } else if end == 2 && off >= self.width() - 1 {
            seq![self.cell_at(row, off - (self.width() - 1)) as usize]
        } else if end == 3 && off >= self.width() - 1 {
            seq![self.cell_at(row + 1, off - (self.width() - 1)) as usize]
        } else {
            Seq::<usize>::empty()
        }
    }

    /// What the ends from `end` on yield.
    pub open spec fn ends_from(&self, row: int, off: int, end: int) -> Seq<usize>
        decreases 4 - end,
    {
        if end >= 4 || end < 0 {
            Seq::<usize>::empty()
        } else {
            self.end(row, off, end) + self.ends_from(row, off, end + 1)
        }
    }

    /// All four ends together are the edge's two cells.
    pub proof fn lemma_all_ends(&self, row: int, off: int)
        ensures
            self.ends_from(row, off, 0) == self.band_cells(row, off),
    {
        reveal_with_fuel(SpaceSquare::ends_from, 6);
        assert(self.ends_from(row, off, 0) =~= self.band_cells(row, off));
    }

    /// An edge to the south never lies in the last band.
    pub proof fn lemma_south_row(&self, row: int, off: int)
        requires
            self.valid(),
            0 <= row,
            0 <= off < self.band(),
            row * self.band() + off < self.walls(),
        ensures
            row < self.height(),
            off >= self.width() - 1 ==> row + 1 < self.height(),
            self.cell_at(row, 0) >= 0,
            self.cell_at(row + 1, 0) + self.width() <= self.height() * (2 * self.width()),
            self.cell_at(row, 0) + self.width() <= self.cells(),
            off >= self.width() - 1 ==> self.cell_at(row + 1, 0) + self.width() <= self.cells(),
    {
        let h = self.height() as int;
        let w = self.width() as int;
        let b = self.band();
        assert(row < h) by (nonlinear_arith)
            requires row * b + off < h * b - w, 0 <= off, b >= 1, w >= 1, 0 <= row;
        if off >= w - 1 {
            assert(row + 1 < h) by (nonlinear_arith)
                requires row * b + off < h * b - w, off >= w - 1, b == 2 * w - 1, w >= 1, 0 <= row;
        }
        assert(row * w >= 0) by (nonlinear_arith)
            requires row >= 0, w >= 1;
        assert((row + 1) * w + w <= h * (2 * w)) by (nonlinear_arith)
            requires row + 1 <= h, w >= 1, h >= 1;
        assert(row * w + w <= h * w) by (nonlinear_arith)
            requires row + 1 <= h, w >= 1;
        if off >= w - 1 {
            assert((row + 1) * w + w <= h * w) by (nonlinear_arith)
                requires row + 2 <= h, w >= 1;
        }
    }

    /// A cell of the grid has a number below the cell count, from which its row
    /// and column can be read back.
    pub proof fn lemma_cell(&self, row: int, col: int)
        requires
            self.valid(),
            0 <= row < self.height(),
            0 <= col < self.width(),
        ensures
            0 <= self.cell_at(row, col) < self.cells(),
            self.cell_at(row, col) / (self.width() as int) == row,
            self.cell_at(row, col) % (self.width() as int) == col,
    {
        lemma_band_bound(row, self.height() as int, self.width() as int, col);
        assert(self.height() * self.width() == (self.height() as int) * (self.width() as int));
    }

    /// The edge to the east of a cell that has one: its number, its band and
    /// place, and its two cells.
    pub proof fn lemma_east(&self, row: int, col: int)
        requires
            self.valid(),
            0 <= row < self.height(),
            0 <= col < self.width() - 1,
        ensures
            0 <= self.east_of(row, col) < self.walls(),
            self.east_of(row, col) / self.band() == row,
            self.east_of(row, col) % self.band() == col,
            self.band_cells(row, col) == seq![
                self.cell_at(row, col) as usize,
                self.cell_at(row, col + 1) as usize,
            ],
    {
        self.lemma_sizes();
        lemma_band_bound(row, self.height() as int, self.band(), col);
    }

    /// The edge to the south of a cell that has one: its number, its band and
    /// place, and its two cells.
    pub proof fn lemma_south(&self, row: int, col: int)
        requires
            self.valid(),
            0 <= row < self.height() - 1,
            0 <= col < self.width(),
        ensures
            0 <= self.south_of(row, col) < self.walls(),
            self.south_of(row, col) / self.band() == row,
            self.south_of(row, col) % self.band() == self.width() - 1 + col,
            self.band_cells(row, self.width() - 1 + col) == seq![
                self.cell_at(row, col) as usize,
                self.cell_at(row + 1, col) as usize,
            ],
    {
        self.lemma_sizes();
        lemma_band_bound(row, self.height() - 1, self.band(), self.width() - 1 + col);
        lemma_band_bound(row, self.height() as int, self.band(), self.width() - 1 + col);
        let h = self.height() as int;
        let b = self.band();
        assert((h - 1) * b == h * b - b) by (nonlinear_arith);
    }

    /// Each edge that a cell lists is an edge of the grid that joins this cell
    /// to another, and no edge is listed twice.
    pub proof fn lemma_cell_edges(&self, row: int, col: int)
        requires
            self.valid(),
            0 <= row < self.height(),
            0 <= col < self.width(),
        ensures
            forall|i: int|
                0 <= i < self.cell_edges(row, col).len() ==> {
                    &&& (#[trigger] self.cell_edges(row, col)[i]) < self.walls()
                    &&& self.band_cells(
                        self.cell_edges(row, col)[i] as int / self.band(),
                        self.cell_edges(row, col)[i] as int % self.band(),
                    ).contains(self.cell_at(row, col) as usize)
                },
            forall|i: int, j: int|
                0 <= i < j < self.cell_edges(row, col).len() ==> (
                #[trigger] self.cell_edges(row, col)[i]) != (#[trigger] self.cell_edges(
                    row,
                    col,
                )[j]),
    {
        self.lemma_sizes();
        self.lemma_cell(row, col);
        let me = self.cell_at(row, col) as usize;
        let b = self.band();
        lemma_band_bound(row, self.height() as int, b, 0);
        if row > 0 {
            self.lemma_south(row - 1, col);
            lemma_band_bound(row - 1, self.height() as int, b, self.width() - 1 + col);
            assert(self.band_cells(row - 1, self.width() - 1 + col)[1] == me);
        }
        if col > 0 {
            self.lemma_east(row, col - 1);
            assert(self.band_cells(row, col - 1)[1] == me);
        }
        if col < self.width() - 1 {
            self.lemma_east(row, col);
            assert(self.band_cells(row, col)[0] == me);
        }
        if row < self.height() - 1 {
            self.lemma_south(row, col);
            assert(self.band_cells(row, self.width() - 1 + col)[0] == me);
        }
    }

    /// The edge at a place of a band joins two distinct cells of the grid, each
    /// of which lists it.
    pub proof fn lemma_band_cells(&self, row: int, off: int)
        requires
            self.valid(),
            0 <= row,
            0 <= off < self.band(),
            row * self.band() + off < self.walls(),
        ensures
            self.band_cells(row, off).len() == 2,
            self.band_cells(row, off)[0] < self.cells(),
            self.band_cells(row, off)[1] < self.cells(),
            self.band_cells(row, off)[0] != self.band_cells(row, off)[1],
            forall|k: int|
                0 <= k < 2 ==> self.cell_edges(
                    (#[trigger] self.band_cells(row, off)[k]) as int / (self.width() as int),
                    self.band_cells(row, off)[k] as int % (self.width() as int),
                ).contains((row * self.band() + off) as usize),
    {
        self.lemma_sizes();
        self.lemma_south_row(row, off);
        let w = self.width() as int;
        if off < w - 1 {
            self.lemma_cell(row, off);
            self.lemma_cell(row, off + 1);
            self.lemma_lists_east(row, off);
        } else {
            let c = off - (w - 1);
            self.lemma_cell(row, c);
            self.lemma_cell(row + 1, c);
            self.lemma_lists_south(row, c);
        }
    }

    /// A cell and its eastern neighbour both list the edge between them.
    pub proof fn lemma_lists_east(&self, row: int, col: int)
        requires
            0 <= row,
            0 <= col < self.width() - 1,
        ensures
            self.cell_edges(row, col).contains(self.east_of(row, col) as usize),
            self.cell_edges(row, col + 1).contains(self.east_of(row, col) as usize),
    {
        let e = self.east_of(row, col) as usize;
        let i0 = if row > 0 { 1int } else { 0int } + if col > 0 { 1int } else { 0int };
        assert(self.cell_edges(row, col)[i0] == e);
        let i1 = if row > 0 { 1int } else { 0int };
        assert(self.cell_edges(row, col + 1)[i1] == e);
    }

    /// A cell and the cell below both list the edge between them.
    pub proof fn lemma_lists_south(&self, row: int, col: int)
        requires
            0 <= row < self.height() - 1,
            0 <= col < self.width(),
        ensures
            self.cell_edges(row, col).contains(self.south_of(row, col) as usize),
            self.cell_edges(row + 1, col).contains(self.south_of(row, col) as usize),
    {
        let e = self.south_of(row, col) as usize;
        let i0 = if row > 0 { 1int } else { 0int } + if col > 0 { 1int } else { 0int } + if col
            < self.width() - 1 { 1int } else { 0int };
        assert(self.cell_edges(row, col)[i0] == e);
        assert(self.cell_edges(row + 1, col)[0] == e);
    }

    /// Row and column of a cell number.
    pub proof fn lemma_row_col(&self, n: int)
        requires
            self.valid(),
            0 <= n < self.cells(),
        ensures
            0 <= n / (self.width() as int) < self.height(),
            0 <= n % (self.width() as int) < self.width(),
            self.cell_at(n / (self.width() as int), n % (self.width() as int)) == n,
    {
        let w = self.width() as int;
        let h = self.height() as int;
        lemma_band_split(n, w);
        assert(n / w < h) by (nonlinear_arith)
            requires n == (n / w) * w + n % w, n < h * w, 0 <= n % w, w >= 1;
    }

    /// On which side of a split a cell lies differs from the side of cell 0 only
    /// where some edge joins the two sides.
    proof fn lemma_crossing(&self, inside: Set<int>, n: int)
        requires
            self.valid(),
            0 <= n < self.cells(),
            inside.contains(n) != inside.contains(0),
        ensures
            exists|e: int| crosses(self, inside, e),
        decreases n,
    {
        let w = self.width() as int;
        self.lemma_row_col(n);
        self.lemma_sizes();
        let row = n / w;
        let col = n % w;
        if col > 0 {
            let p = n - 1;
            self.lemma_east(row, col - 1);
            let e = self.east_of(row, col - 1);
            assert(self.ends(e) == self.band_cells(row, col - 1));
            assert(self.ends(e)[0] == p as usize && self.ends(e)[1] == n as usize);
            if inside.contains(p) != inside.contains(n) {
                assert(crosses(self, inside, e));
            } else {
                self.lemma_crossing(inside, p);
            }
        } else {
            assert(row > 0) by (nonlinear_arith)
                requires
                    n == row * w + col,
                    col == 0,
                    n > 0,
                    row >= 0,
            ;
            let p = n - w;
            self.lemma_south(row - 1, 0);
            self.lemma_cell(row - 1, 0);
            let e = self.south_of(row - 1, 0);
            assert(self.ends(e) == self.band_cells(row - 1, w - 1));
            assert(self.cell_at(row - 1, 0) == p) by (nonlinear_arith)
                requires
                    self.cell_at(row - 1, 0) == (row - 1) * w + 0,
                    n == row * w + col,
                    col == 0,
                    p == n - w,
            ;
            assert(self.ends(e)[0] == p as usize && self.ends(e)[1] == n as usize);
            if inside.contains(p) != inside.contains(n) {
                assert(crosses(self, inside, e));
            } else {
                self.lemma_crossing(inside, p);
            }
        }
    }

    /// A grid is in one piece.
    pub proof fn lemma_connected(&self)
        requires
            self.valid(),
        ensures
            connected(self),
    {
        assert forall|inside: Set<int>| #[trigger] splits(self, inside) implies exists|e: int|
            crosses(self, inside, e) by {
            let a = choose|a: int| 0 <= a < self.node_count() && inside.contains(a);
            let b = choose|b: int| 0 <= b < self.node_count() && !inside.contains(b);
            if inside.contains(0) {
                self.lemma_crossing(inside, b);
            } else {
                self.lemma_crossing(inside, a);
            }
        }
    }

    /// How far two cells lie apart: rows between them plus columns between them.
    pub open spec fn apart(&self, a: int, b: int) -> int {
        let (ra, ca) = self.position(a);
        let (rb, cb) = self.position(b);
        (if ra < rb { rb - ra } else { ra - rb }) + (if ca < cb { cb - ca } else { ca - cb })
    }

    /// The two cells of an edge lie one row or one column apart, so that a step
    /// over the edge brings a cell one nearer to any other cell or one farther
    /// from it.
    pub proof fn lemma_step_apart(&self, e: int, a: int, b: int)
        requires
            self.valid(),
            0 <= e < self.walls(),
            self.ends(e).contains(a as usize),
            0 <= a < self.cells(),
            0 <= b < self.cells(),
        ensures
            0 <= far_end(self, e, a) < self.cells(),
            self.apart(far_end(self, e, a), b) == self.apart(a, b) + 1 || self.apart(
                far_end(self, e, a),
                b,
            ) == self.apart(a, b) - 1,
    {
        self.lemma_sizes();
        let band = self.band();
        let w = self.width() as int;
        lemma_band_split(e, band);
        let row = e / band;
        let off = e % band;
        self.lemma_south_row(row, off);
        self.lemma_band_cells(row, off);
        self.lemma_row_col(b);
        let k = choose|k: int| 0 <= k < self.ends(e).len() && self.ends(e)[k] == a as usize;
        if off < w - 1 {
            self.lemma_cell(row, off);
            self.lemma_cell(row, off + 1);
        } else {
            self.lemma_cell(row, off - (w - 1));
            self.lemma_cell(row + 1, off - (w - 1));
        }
    }

    /// A chain between two cells has at least as many edges as the cells lie
    /// apart, and an even number more.
    pub proof fn lemma_chain_apart(&self, path: Seq<usize>, a: int, b: int)
        requires
            self.valid(),
            0 <= a < self.cells(),
            0 <= b < self.cells(),
            is_chain(self, path, a, b),
        ensures
            path.len() >= self.apart(a, b),
            (path.len() - self.apart(a, b)) % 2 == 0,
        decreases path.len(),
    {
        if path.len() > 0 {
            let e = path[0] as int;
            self.lemma_sizes();
            assert(self.edge_count() == self.walls());
            self.lemma_step_apart(e, a, b);
            self.lemma_chain_apart(path.skip(1), far_end(self, e, a), b);
        }
    }

    /// A way of tree edges between two cells that takes no edge twice has at
    /// least as many edges as the cells lie apart, an even number more, and no
    /// more than there are tree edges.
    pub proof fn lemma_grid_way(&self, edges: Seq<crate::edge::Edge>, path: Seq<usize>, a: int, b: int)
        requires
            self.valid(),
            0 <= a < self.cells(),
            0 <= b < self.cells(),
            is_chain(self, path, a, b),
            fresh_way(edges, path),
        ensures
            self.apart(a, b) <= path.len() <= tree_count(edges),
            (path.len() - self.apart(a, b)) % 2 == 0,
    {
        self.lemma_chain_apart(path, a, b);
        crate::maze::lemma_tree_way_fits(edges, path);
    }

    /// Number of cells.
    pub open spec fn cells(&self) -> nat {
        self.height() * self.width()
    }

    /// Number of edges.
    pub open spec fn walls(&self) -> int {
        self.height() * self.band() - self.width()
    }

    /// The grid of `rows` by `cols` cells.
    pub closed spec fn new_spec(rows: usize, cols: usize) -> Self {
        Self { rows, cols }
    }

    /// A grid of `rows` by `cols` cells, whatever the two numbers are. Only a
    /// grid that `is_valid` is a geometry; `try_new` gives no other.
    pub fn new(rows: usize, cols: usize) -> (s: Self)
        ensures
            s == Self::new_spec(rows, cols),
            s.height() == rows,
            s.width() == cols,
    {
        Self { rows, cols }
    }

    /// A grid of `rows` by `cols` cells, or `InvalidGeometry` where there is no
    /// row or no column, or the edge numbers do not fit the machine.
    pub fn try_new(rows: usize, cols: usize) -> (r: Result<Self, Error>)
        ensures
            r.is_ok() <==> Self::new_spec(rows, cols).valid(),
            r.is_ok() <==> rows >= 1 && cols >= 1 && rows * (2 * cols) <= usize::MAX,
            r.is_ok() ==> r.unwrap() == Self::new_spec(rows, cols) && r.unwrap().valid()
                && r.unwrap().height() == rows && r.unwrap().width() == cols,
            r.is_err() ==> r.unwrap_err() == Error::InvalidGeometry,
    {
        let space = Self::new(rows, cols);
        if space.is_valid() {
            Ok(space)
        } else {
            Err(Error::InvalidGeometry)
        }
    }

    /// Whether the grid has a cell and its edge numbers fit the machine.
    pub fn is_valid(&self) -> (b: bool)
        ensures
            b == self.valid(),
    {
        if self.rows == 0 || self.cols == 0 {
            return false;
        }
        match self.cols.checked_mul(2) {
            None => {
                assert(self.height() * (2 * self.width()) > usize::MAX) by (nonlinear_arith)
                    requires self.height() >= 1, 2 * self.width() > usize::MAX;
                false
            },
            Some(twice) => {
                let fits = self.rows.checked_mul(twice).is_some();
                fits
            },
        }
    }

    proof fn lemma_sizes(&self)
        requires
            self.valid(),
        ensures
            self.band() >= 1,
            self.height() * self.band() <= usize::MAX,
            self.cells() <= usize::MAX,
            0 <= self.walls() < usize::MAX,
            self.height() * self.band() >= self.band(),
            2 * self.width() <= usize::MAX,
    {
        let h = self.height() as int;
        let w = self.width() as int;
        assert(h * (2 * w - 1) <= h * (2 * w)) by (nonlinear_arith)
            requires h >= 1, w >= 1;
        assert(h * w <= h * (2 * w)) by (nonlinear_arith)
            requires h >= 1, w >= 1;
        assert(h * (2 * w - 1) >= 2 * w - 1) by (nonlinear_arith)
            requires h >= 1, w >= 1;
        assert(h * (2 * w) >= 2 * w) by (nonlinear_arith)
            requires h >= 1, w >= 1;
    }

    #[inline]
    fn edge_row_len(&self) -> (n: usize)
        requires
            self.valid(),
        ensures
            n == self.band(),
    {
        proof {
            self.lemma_sizes();
        }
        self.cols * 2 - 1
    }

    #[inline]
    fn is_edge_horizontal(&self, col: usize) -> (b: bool)
        requires
            self.valid(),
        ensures
            b == (col >= self.width() - 1),
    {
        col >= self.cols - 1
    }

    /// Row and column of a cell.
    pub open spec fn position(&self, node_id: int) -> (int, int) {
        (node_id / (self.width() as int), node_id % (self.width() as int))
    }

    /// Row and column of a cell, for drawing.
    pub fn node_position(&self, node_id: usize) -> (p: (usize, usize))
        requires
            self.valid(),
        ensures
            (p.0 as int, p.1 as int) == self.position(node_id as int),
    {
        (node_id / self.cols, node_id % self.cols)
    }

    /// Row and column of each of the two cells of an edge, for drawing. The two
    /// lie in one row or in one column.
    pub fn edge_position(&self, edge_id: usize) -> (p: ((usize, usize), (usize, usize)))
        requires
            self.valid(),
            edge_id < self.walls(),
        ensures
            (p.0.0 as int, p.0.1 as int) == self.position(self.ends(edge_id as int)[0] as int),
            (p.1.0 as int, p.1.1 as int) == self.position(self.ends(edge_id as int)[1] as int),
            p.0.0 == p.1.0 || p.0.1 == p.1.1,
    {
        let ends = self.edge_nodes(edge_id);
        proof {
            self.lemma_sizes();
            let b = self.band();
            let w = self.width() as int;
            lemma_band_split(edge_id as int, b);
            let row = edge_id as int / b;
            let off = edge_id as int % b;
            self.lemma_south_row(row, off);
            self.lemma_band_cells(row, off);
            if off < w - 1 {
                self.lemma_cell(row, off);
                self.lemma_cell(row, off + 1);
            } else {
                self.lemma_cell(row, off - (w - 1));
                self.lemma_cell(row + 1, off - (w - 1));
            }
        }
        let start = self.node_position(ends[0]);
        let end = self.node_position(ends[1]);
        (start, end)
    }
}

impl<'a> SpaceSquareEdgeIterator<'a> {
    /// The grid that is walked.
    pub closed spec fn grid(&self) -> &SpaceSquare {
        self.space
    }

    /// Row of the cell.
    pub closed spec fn at_row(&self) -> int {
        self.row as int
    }

    /// Column of the cell.
    pub closed spec fn at_col(&self) -> int {
        self.col as int
    }

    /// How many of the four sides have been looked at.
    pub closed spec fn stage(&self) -> int {
        self.step as int
    }

    /// The cell lies on a valid grid.
    pub open spec fn wf(&self) -> bool {
        &&& self.grid().valid()
        &&& 0 <= self.at_row() < self.grid().height()
        &&& 0 <= self.at_col() < self.grid().width()
    }

    /// The edges still to come.
    pub open spec fn remaining(&self) -> Seq<usize> {
        self.grid().sides_from(self.at_row(), self.at_col(), self.stage())
    }

    /// A walk over the edges of the cell at `row`, `col`.
    pub fn new(space: &'a SpaceSquare, row: usize, col: usize) -> (it: Self)
        ensures
            it.grid() == space,
            it.at_row() == row,
            it.at_col() == col,
            it.stage() == 0,
    {
        Self { space, row, col, step: 0 }
    }

    fn east(&self, col: usize) -> (e: usize)
        requires
            self.wf(),
            col < self.grid().width() - 1,
        ensures
            e == self.grid().east_of(self.at_row(), col as int),
    {
        proof {
            self.space.lemma_sizes();
            lemma_band_bound(self.row as int, self.space.rows as int, self.space.band(), col as int);
        }
        (self.row * self.space.edge_row_len()) + col
    }

    fn south(&self, row: usize) -> (e: usize)
        requires
            self.wf(),
            row < self.grid().height() - 1,
        ensures
            e == self.grid().south_of(row as int, self.at_col()),
    {
        proof {
            self.space.lemma_sizes();
            lemma_band_bound(
                row as int,
                self.space.rows as int,
                self.space.band(),
                self.space.cols - 1 + self.col,
            );
        }
        (row * self.space.edge_row_len()) + self.space.cols - 1 + self.col
    }

    /// The next edge of the cell, or `None` when all four sides are done.
    pub fn next(&mut self) -> (r: Option<usize>)
        requires
            old(self).wf(),
        ensures
            final(self).wf(),
            final(self).grid() == old(self).grid(),
            final(self).at_row() == old(self).at_row(),
            final(self).at_col() == old(self).at_col(),
            match r {
                Some(e) => old(self).remaining() == seq![e] + final(self).remaining(),
                None => old(self).remaining().len() == 0 && final(self).remaining().len() == 0,
            },
    {
        reveal_with_fuel(SpaceSquare::sides_from, 2);
        loop
            invariant
                self.wf(),
                self.space == old(self).space,
                self.row == old(self).row,
                self.col == old(self).col,
                self.remaining() == old(self).remaining(),
            decreases 255 - self.step,
        {
            match self.step {
                0 => {
                    self.step = 1;
                    if self.row == 0 {
                        assert(old(self).remaining() =~= self.remaining());
                        continue ;
                    }
                    let e = self.south(self.row - 1);
                    assert(old(self).remaining() =~= seq![e] + self.remaining());
                    return Some(e);
                },
                1 => {
                    self.step = 2;
                    if self.col == 0 {
                        assert(old(self).remaining() =~= self.remaining());
                        continue ;
                    }
                    let e = self.east(self.col - 1);
                    assert(old(self).remaining() =~= seq![e] + self.remaining());
                    return Some(e);
                },
                2 => {
                    self.step = 3;
                    if self.col >= self.space.cols - 1 {
                        assert(old(self).remaining() =~= self.remaining());
                        continue ;
                    }
                    let e = self.east(self.col);
                    assert(old(self).remaining() =~= seq![e] + self.remaining());
                    return Some(e);
                },
                3 => {
                    self.step = 4;
                    if self.row >= self.space.rows - 1 {
                        assert(old(self).remaining() =~= self.remaining());
                        continue ;
                    }
                    let e = self.south(self.row);
                    assert(old(self).remaining() =~= seq![e] + self.remaining());
                    return Some(e);
                },
                _ => {
                    return None;
                },
            }
        }
    }
}

impl<'a> SpaceSquareNodeIterator<'a> {
    /// The grid that is walked.
    pub closed spec fn grid(&self) -> &SpaceSquare {
        self.space
    }

    /// Band of the edge.
    pub closed spec fn at_row(&self) -> int {
        self.row as int
    }

    /// Place of the edge in its band.
    pub closed spec fn at_off(&self) -> int {
        self.col as int
    }

    /// How many of the four ends have been looked at.
    pub closed spec fn stage(&self) -> int {
        self.step as int
    }

    /// The edge is one of a valid grid.
    pub open spec fn wf(&self) -> bool {
        &&& self.grid().valid()
        &&& 0 <= self.at_off() < self.grid().band()
        &&& self.at_row() * self.grid().band() + self.at_off() < self.grid().walls()
    }

    /// The cells still to come.
    pub open spec fn remaining(&self) -> Seq<usize> {
        self.grid().ends_from(self.at_row(), self.at_off(), self.stage())
    }

    /// A walk over the cells of the edge at place `col` of band `row`.
    pub fn new(space: &'a SpaceSquare, row: usize, col: usize) -> (it: Self)
        ensures
            it.grid() == space,
            it.at_row() == row,
            it.at_off() == col,
            it.stage() == 0,
    {
        Self { space, row, col, step: 0 }
    }

    #[inline]
    fn is_horizontal(&self) -> (b: bool)
        requires
            self.wf(),
        ensures
            b == (self.at_off() >= self.grid().width() - 1),
    {
        self.space.is_edge_horizontal(self.col)
    }

    fn west(&self, col: usize) -> (n: usize)
        requires
            self.wf(),
            col < self.grid().width(),
        ensures
            n == self.grid().cell_at(self.at_row(), col as int),
    {
        proof {
            self.space.lemma_sizes();
            self.space.lemma_south_row(self.row as int, self.col as int);
        }
        self.row * self.space.cols + col
    }

    fn north(&self, row: usize) -> (n: usize)
        requires
            self.wf(),
            self.at_off() >= self.grid().width() - 1,
            row == self.at_row() || row == self.at_row() + 1,
        ensures
            n == self.grid().cell_at(row as int, self.at_off() - (self.grid().width() - 1)),
    {
        proof {
            self.space.lemma_sizes();
            self.space.lemma_south_row(self.row as int, self.col as int);
            let w = self.space.cols as int;
            let h = self.space.rows as int;
            let r = self.row as int;
            assert(r * w <= (r + 1) * w && (r + 1) * w + 2 * w <= h * (2 * w) && 0 <= r * w)
                by (nonlinear_arith)
                requires w >= 1, r + 2 <= h, 0 <= r;
        }
        row * self.space.cols + self.col - (self.space.cols - 1)
    }

    /// The next cell of the edge, or `None` when both have been given.
    pub fn next(&mut self) -> (r: Option<usize>)
        requires
            old(self).wf(),
        ensures
            final(self).wf(),
            final(self).grid() == old(self).grid(),
            final(self).at_row() == old(self).at_row(),
            final(self).at_off() == old(self).at_off(),
            match r {
                Some(n) => old(self).remaining() == seq![n] + final(self).remaining(),
                None => old(self).remaining().len() == 0 && final(self).remaining().len() == 0,
            },
    {
        reveal_with_fuel(SpaceSquare::ends_from, 2);
        proof {
            self.space.lemma_south_row(self.row as int, self.col as int);
        }
        loop
            invariant
                self.wf(),
                self.space == old(self).space,
                self.row == old(self).row,
                self.col == old(self).col,
                self.remaining() == old(self).remaining(),
                self.at_off() >= self.grid().width() - 1 ==> self.at_row() + 1
                    < self.grid().height(),
            decreases 255 - self.step,
        {
            match self.step {
                0 => {
                    self.step = 1;
                    if self.is_horizontal() {
                        assert(old(self).remaining() =~= self.remaining());
                        continue ;
                    }
                    let n = self.west(self.col);
                    assert(old(self).remaining() =~= seq![n] + self.remaining());
                    return Some(n);
                },
                1 => {
                    self.step = 2;
                    if self.is_horizontal() {
                        assert(old(self).remaining() =~= self.remaining());
                        continue ;
                    }
                    if self.col >= self.space.cols - 1 {
                        continue ;
                    }
                    let n = self.west(self.col + 1);
                    assert(old(self).remaining() =~= seq![n] + self.remaining());
                    return Some(n);
                },
                2 => {
                    self.step = 3;
                    if !self.is_horizontal() {
                        assert(old(self).remaining() =~= self.remaining());
                        continue ;
                    }
                    let n = self.north(self.row);
                    assert(old(self).remaining() =~= seq![n] + self.remaining());
                    return Some(n);
                },
                3 => {
                    self.step = 4;
                    if !self.is_horizontal() {
                        assert(old(self).remaining() =~= self.remaining());
                        continue ;
                    }
                    if self.row >= self.space.rows {
                        continue ;
                    }
                    let n = self.north(self.row + 1);
                    assert(old(self).remaining() =~= seq![n] + self.remaining());
                    return Some(n);
                },
                _ => {
                    return None;
                },
            }
        }
    }
}

impl Space for SpaceSquare {
    open spec fn wf(&self) -> bool {
        self.valid()
    }

    open spec fn node_count(&self) -> nat {
        self.cells()
    }

    open spec fn edge_count(&self) -> nat {
        self.walls() as nat
    }

    open spec fn incident(&self, node_id: int) -> Seq<usize> {
        self.cell_edges(node_id / (self.width() as int), node_id % (self.width() as int))
    }

    open spec fn ends(&self, edge_id: int) -> Seq<usize> {
        self.band_cells(edge_id / self.band(), edge_id % self.band())
    }

    proof fn geometry(&self) {
        self.lemma_sizes();
        let w = self.width() as int;
        let h = self.height() as int;
        let b = self.band();
        assert forall|n: int, i: int|
            0 <= n < self.node_count() && 0 <= i < self.incident(n).len() implies {
            &&& (#[trigger] self.incident(n)[i]) < self.edge_count()
            &&& self.ends(self.incident(n)[i] as int).contains(n as usize)
        } by {
            self.lemma_row_col(n);
            self.lemma_cell_edges(n / w, n % w);
        }
        assert forall|n: int, i: int, j: int|
            0 <= n < self.node_count() && 0 <= i < j < self.incident(n).len() implies (
        #[trigger] self.incident(n)[i]) != (#[trigger] self.incident(n)[j]) by {
            self.lemma_row_col(n);
            self.lemma_cell_edges(n / w, n % w);
        }
        assert forall|e: int| 0 <= e < self.edge_count() implies {
            &&& (#[trigger] self.ends(e)).len() == 2
            &&& self.ends(e)[0] < self.node_count()
            &&& self.ends(e)[1] < self.node_count()
            &&& self.ends(e)[0] != self.ends(e)[1]
            &&& self.incident(self.ends(e)[0] as int).contains(e as usize)
            &&& self.incident(self.ends(e)[1] as int).contains(e as usize)
        } by {
            lemma_band_split(e, b);
            self.lemma_band_cells(e / b, e % b);
            assert(self.band_cells(e / b, e % b)[0] == self.ends(e)[0]);
            assert(self.band_cells(e / b, e % b)[1] == self.ends(e)[1]);
        }
    }

    fn num_nodes(&self) -> (n: usize) {
        proof {
            self.lemma_sizes();
        }
        self.rows * self.cols
    }

    fn num_edges(&self) -> (n: usize) {
        proof {
            self.lemma_sizes();
        }
        self.rows * self.edge_row_len() - self.cols
    }

    fn node_edges(&self, node_id: usize) -> (v: Vec<usize>) {
        let row = node_id / self.cols;
        let col = node_id % self.cols;
        proof {
            self.geometry();
            self.lemma_all_sides(row as int, col as int);
            self.lemma_row_col(node_id as int);
        }
        let mut it = SpaceSquareEdgeIterator::new(self, row, col);
        let mut v: Vec<usize> = Vec::new();
        loop
            invariant
                it.wf(),
                it.grid() == self,
                it.at_row() == row,
                it.at_col() == col,
                v@ + it.remaining() == self.cell_edges(row as int, col as int),
                self.cell_edges(row as int, col as int) == self.incident(node_id as int),
            decreases it.remaining().len(),
        {
            let ghost before = it.remaining();
            match it.next() {
                Some(e) => {
                    v.push(e);
                    assert(v@ + it.remaining() =~= (v@.drop_last() + before));
                },
                None => {
                    assert(v@ + it.remaining() =~= v@);
                    return v;
                },
            }
        }
    }

    fn edge_nodes(&self, edge_id: usize) -> (v: Vec<usize>) {
        proof {
            self.lemma_sizes();
        }
        let len = self.edge_row_len();
        let row = edge_id / len;
        let col = edge_id % len;
        proof {
            self.lemma_all_ends(row as int, col as int);
            lemma_band_split(edge_id as int, len as int);
        }
        let mut it = SpaceSquareNodeIterator::new(self, row, col);
        let mut v: Vec<usize> = Vec::new();
        loop
            invariant
                it.wf(),
                it.grid() == self,
                it.at_row() == row,
                it.at_off() == col,
                v@ + it.remaining() == self.band_cells(row as int, col as int),
                self.band_cells(row as int, col as int) == self.ends(edge_id as int),
            decreases it.remaining().len(),
        {
            let ghost before = it.remaining();
            match it.next() {
                Some(n) => {
                    v.push(n);
                    assert(v@ + it.remaining() =~= (v@.drop_last() + before));
                },
                None => {
                    assert(v@ + it.remaining() =~= v@);
                    return v;
                },
            }
        }
    }
}

} // verus!

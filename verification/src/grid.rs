use vstd::prelude::*;

verus! {

/// A position in cell coordinates, `(x, y, z)`.
pub type Cell = (usize, usize, usize);

/// The extent of a grid in cells along each axis.
///
/// Cells are addressed row-major, x varying fastest, then y, then z.
#[derive(Clone, Copy, Debug, PartialEq, Eq, Structural)]
pub struct Grid {
    /// Cells along the x axis.
    pub x_size: usize,
    /// Cells along the y axis.
    pub y_size: usize,
    /// Cells along the z axis.
    pub z_size: usize,
}

/// The row-major index of `(x, y, z)` in a grid that is `x_size` wide and `y_size` deep.
pub open spec fn flat_index(x_size: int, y_size: int, x: int, y: int, z: int) -> int {
    x + y * x_size + z * x_size * y_size
}

/// Every position inside a grid has an index below the number of cells.
pub proof fn lemma_flat_index_bound(xs: int, ys: int, zs: int, x: int, y: int, z: int)
    requires
        0 <= x < xs,
        0 <= y < ys,
        0 <= z < zs,
    ensures
        0 <= flat_index(xs, ys, x, y, z) < xs * ys * zs,
        0 <= y * xs,
        0 <= z * xs * ys,
        x + y * xs < xs * ys,
{
    assert(0 <= y * xs) by (nonlinear_arith)
        requires 0 <= y, 0 < xs;
    assert(x + y * xs < xs * ys) by (nonlinear_arith)
        requires 0 <= x < xs, 0 <= y < ys;
    assert(0 <= z * xs * ys && (z + 1) * (xs * ys) <= zs * (xs * ys)) by (nonlinear_arith)
        requires 0 <= z < zs, 0 < xs, 0 < ys;
    assert((z + 1) * (xs * ys) == z * xs * ys + xs * ys) by (nonlinear_arith);
    assert(zs * (xs * ys) == xs * ys * zs) by (nonlinear_arith);
}

/// An index splits back into the position it came from.
pub proof fn lemma_flat_index_split(xs: int, ys: int, x: int, y: int, z: int)
    requires
        0 <= x < xs,
        0 <= y < ys,
        0 <= z,
    ensures
        flat_index(xs, ys, x, y, z) % xs == x,
        (flat_index(xs, ys, x, y, z) / xs) % ys == y,
        flat_index(xs, ys, x, y, z) / (xs * ys) == z,
{
    let i = flat_index(xs, ys, x, y, z);
    let row = y + z * ys;
    assert(i == x + row * xs) by (nonlinear_arith)
        requires i == x + y * xs + z * xs * ys, row == y + z * ys;
    vstd::arithmetic::div_mod::lemma_fundamental_div_mod_converse(i, xs, row, x);
    assert(i / xs == row && i % xs == x);
    vstd::arithmetic::div_mod::lemma_fundamental_div_mod_converse(row, ys, z, y);
    assert(row % ys == y && row / ys == z);
    let plane = x + y * xs;
    assert(0 <= plane < xs * ys) by (nonlinear_arith)
        requires 0 <= x < xs, 0 <= y < ys, plane == x + y * xs;
    assert(i == plane + z * (xs * ys)) by (nonlinear_arith)
        requires i == x + y * xs + z * xs * ys, plane == x + y * xs;
    assert(0 < xs * ys) by (nonlinear_arith)
        requires 0 < xs, 0 < ys;
    vstd::arithmetic::div_mod::lemma_fundamental_div_mod_converse(i, xs * ys, z, plane);
}

/// An index below the cell count splits into a position inside the grid, and that position
/// has the index it was split from.
pub proof fn lemma_flat_index_unsplit(xs: int, ys: int, zs: int, index: int)
    requires
        0 <= xs,
        0 <= ys,
        0 <= zs,
        0 <= index < xs * ys * zs,
    ensures
        0 < xs,
        0 < ys,
        0 < zs,
        0 <= index % xs < xs,
        0 <= (index / xs) % ys < ys,
        0 <= index / (xs * ys) < zs,
        flat_index(xs, ys, index % xs, (index / xs) % ys, index / (xs * ys)) == index,
{
    assert(xs > 0 && ys > 0 && zs > 0) by (nonlinear_arith)
        requires 0 <= index < xs * ys * zs, xs >= 0, ys >= 0, zs >= 0;
    let row = index / xs;
    vstd::arithmetic::div_mod::lemma_fundamental_div_mod(index, xs);
    vstd::arithmetic::div_mod::lemma_mod_bound(index, xs);
    vstd::arithmetic::div_mod::lemma_fundamental_div_mod(row, ys);
    vstd::arithmetic::div_mod::lemma_mod_bound(row, ys);
    let x = index % xs;
    let y = row % ys;
    let z = row / ys;
    assert(0 <= row) by (nonlinear_arith)
        requires index == xs * row + x, 0 <= x < xs, 0 <= index, xs > 0;
    assert(0 <= z) by (nonlinear_arith)
        requires row == ys * z + y, 0 <= y < ys, 0 <= row, ys > 0;
    assert(index == x + y * xs + z * xs * ys) by (nonlinear_arith)
        requires index == xs * row + x, row == ys * z + y;
    assert(z < zs) by (nonlinear_arith)
        requires
            index == x + y * xs + z * xs * ys,
            index < xs * ys * zs,
            0 <= x,
            0 <= y,
            xs > 0,
            ys > 0;
    lemma_flat_index_split(xs, ys, x, y, z);
}

/// The number of neighbors that a cell exchanges heat with, at most.
pub const KERNEL_SIZE: usize = 6;

/// The offset of neighbor `k`: one step along +x, +y, +z, -x, -y, -z, in this order.
pub open spec fn kernel_offset(k: int) -> (int, int, int) {
    if k == 0 {
        (1, 0, 0)
    } else if k == 1 {
        (0, 1, 0)
    } else if k == 2 {
        (0, 0, 1)
    } else if k == 3 {
        (-1, 0, 0)
    } else if k == 4 {
        (0, -1, 0)
    } else {
        (0, 0, -1)
    }
}

fn cell_kernel(k: usize) -> (offset: (i8, i8, i8))
    requires
        k < KERNEL_SIZE,
    ensures
        (offset.0 as int, offset.1 as int, offset.2 as int) == kernel_offset(k as int),
{
    if k == 0 {
        (1, 0, 0)
    } else if k == 1 {
        (0, 1, 0)
    } else if k == 2 {
        (0, 0, 1)
    } else if k == 3 {
        (-1, 0, 0)
    } else if k == 4 {
        (0, -1, 0)
    } else {
        (0, 0, -1)
    }
}

impl Grid {
    /// The number of cells, as a mathematical integer.
    pub open spec fn cell_count(self) -> int {
        self.x_size * self.y_size * self.z_size
    }

    /// Whether the cell count can be held in a `usize`, so that every cell has an index.
    pub open spec fn addressable(self) -> bool {
        self.cell_count() <= usize::MAX
    }

    /// Whether `(x, y, z)` names a cell of the grid.
    pub open spec fn contains(self, x: int, y: int, z: int) -> bool {
        0 <= x < self.x_size && 0 <= y < self.y_size && 0 <= z < self.z_size
    }

    /// The row-major index of `(x, y, z)`.
    pub open spec fn index_of(self, x: int, y: int, z: int) -> int {
        flat_index(self.x_size as int, self.y_size as int, x, y, z)
    }

    /// The index of `(x, y, z)` if it names a cell, `None` otherwise.
    pub open spec fn pos_index(self, x: int, y: int, z: int) -> Option<usize> {
        if self.contains(x, y, z) {
            Some(self.index_of(x, y, z) as usize)
        } else {
            None
        }
    }

    /// The position that has index `index`.
    pub open spec fn position_of(self, index: int) -> (int, int, int) {
        (
            index % (self.x_size as int),
            (index / (self.x_size as int)) % (self.y_size as int),
            index / (self.x_size * self.y_size),
        )
    }

    /// Indices of cells stay below the cell count.
    pub proof fn lemma_index_in_range(self, x: int, y: int, z: int)
        requires
            self.contains(x, y, z),
        ensures
            0 <= self.index_of(x, y, z) < self.cell_count(),
            self.position_of(self.index_of(x, y, z)) == (x, y, z),
    {
        lemma_flat_index_bound(
            self.x_size as int,
            self.y_size as int,
            self.z_size as int,
            x,
            y,
            z,
        );
        lemma_flat_index_split(self.x_size as int, self.y_size as int, x, y, z);
    }

    /// Every index below the cell count is the index of the cell at its position.
    pub proof fn lemma_position_in_grid(self, index: int)
        requires
            0 <= index < self.cell_count(),
        ensures
            ({
                let p = self.position_of(index);
                self.contains(p.0, p.1, p.2) && self.index_of(p.0, p.1, p.2) == index
            }),
    {
        lemma_flat_index_unsplit(
            self.x_size as int,
            self.y_size as int,
            self.z_size as int,
            index,
        );
    }

    /// Whether `cell` is a cell of the grid.
    pub open spec fn holds(self, cell: Cell) -> bool {
        self.contains(cell.0 as int, cell.1 as int, cell.2 as int)
    }

    /// The row-major index of `cell`.
    pub open spec fn cell_index(self, cell: Cell) -> int {
        self.index_of(cell.0 as int, cell.1 as int, cell.2 as int)
    }

    /// The cell that has index `index`.
    pub open spec fn cell_of(self, index: int) -> Cell {
        let p = self.position_of(index);
        (p.0 as usize, p.1 as usize, p.2 as usize)
    }

    /// A cell of the grid has an index below the cell count, which leads back to the cell.
    pub proof fn lemma_cell_index(self, cell: Cell)
        requires
            self.holds(cell),
        ensures
            0 <= self.cell_index(cell) < self.cell_count(),
            self.cell_of(self.cell_index(cell)) == cell,
    {
        self.lemma_index_in_range(cell.0 as int, cell.1 as int, cell.2 as int);
    }

    /// An index below the cell count belongs to a cell of the grid, which has that index.
    pub proof fn lemma_cell_of(self, index: int)
        requires
            0 <= index < self.cell_count(),
        ensures
            self.holds(self.cell_of(index)),
            self.cell_index(self.cell_of(index)) == index,
    {
        self.lemma_position_in_grid(index);
    }

    /// The index of neighbor `k` of `cell`, or `None` where the grid ends.
    pub open spec fn neighbor(self, cell: Cell, k: int) -> Option<usize> {
        let d = kernel_offset(k);
        self.pos_index(cell.0 + d.0, cell.1 + d.1, cell.2 + d.2)
    }

    /// The indices of those among the first `n` neighbors of `cell` that lie in the grid.
    pub open spec fn neighbors_upto(self, cell: Cell, n: int) -> Seq<usize>
        decreases n,
    {
        if n <= 0 {
            Seq::empty()
        } else {
            let before = self.neighbors_upto(cell, n - 1);
            match self.neighbor(cell, n - 1) {
                Some(index) => before.push(index),
                None => before,
            }
        }
    }

    /// The indices of the neighbors of `cell` that lie in the grid, in kernel order.
    /// A cell on the boundary has fewer than six.
    pub open spec fn neighbors(self, cell: Cell) -> Seq<usize> {
        self.neighbors_upto(cell, KERNEL_SIZE as int)
    }

    /// The neighbors of a cell are cells of the grid.
    pub proof fn lemma_neighbors_in_grid(self, cell: Cell, n: int)
        requires
            self.addressable(),
        ensures
            forall|j: int|
                0 <= j < self.neighbors_upto(cell, n).len() ==> (#[trigger] self.neighbors_upto(
                    cell,
                    n,
                )[j]) < self.cell_count(),
        decreases n,
    {
        if n > 0 {
            self.lemma_neighbors_in_grid(cell, n - 1);
            let d = kernel_offset(n - 1);
            if self.contains(cell.0 + d.0, cell.1 + d.1, cell.2 + d.2) {
                self.lemma_index_in_range(cell.0 + d.0, cell.1 + d.1, cell.2 + d.2);
            }
            let before = self.neighbors_upto(cell, n - 1);
            let all = self.neighbors_upto(cell, n);
            assert forall|j: int| 0 <= j < all.len() implies (#[trigger] all[j])
                < self.cell_count() by {
                if j < before.len() {
                    assert(all[j] == before[j]);
                }
            }
        }
    }

    /// The number of cells, or `None` when it does not fit in a `usize`.
    pub fn checked_cell_count(&self) -> (count: Option<usize>)
        ensures
            count.is_some() <==> self.addressable(),
            count.is_some() ==> count.unwrap() == self.cell_count(),
    {
        if self.x_size == 0 || self.y_size == 0 || self.z_size == 0 {
            assert(self.cell_count() == 0) by (nonlinear_arith)
                requires
                    self.x_size == 0 || self.y_size == 0 || self.z_size == 0,
                    self.cell_count() == self.x_size * self.y_size * self.z_size;
            return Some(0);
        }
        match self.x_size.checked_mul(self.y_size) {
            Some(plane) => {
                let count = plane.checked_mul(self.z_size);
                count
            },
            None => {
                assert(self.x_size * self.y_size * self.z_size >= self.x_size * self.y_size)
                    by (nonlinear_arith)
                    requires self.z_size >= 1, self.x_size * self.y_size >= 0;
                None
            },
        }
    }

    /// Gets the index of a cell position, `None` if it lies outside the grid.
    pub fn get_pos_index(&self, x: usize, y: usize, z: usize) -> (index: Option<usize>)
        requires
            self.addressable(),
        ensures
            index == self.pos_index(x as int, y as int, z as int),
    {
        if x < self.x_size && y < self.y_size && z < self.z_size {
            proof {
                lemma_flat_index_bound(
                    self.x_size as int,
                    self.y_size as int,
                    self.z_size as int,
                    x as int,
                    y as int,
                    z as int,
                );
                assert(z * self.x_size <= z * self.x_size * self.y_size) by (nonlinear_arith)
                    requires self.y_size >= 1, z * self.x_size >= 0;
            }
            Some(x + y * self.x_size + z * self.x_size * self.y_size)
        } else {
            None
        }
    }

    /// Gets the cell position of an index, `None` if the grid has no such cell.
    pub fn get_index_pos(&self, index: usize) -> (cell: Option<Cell>)
        requires
            self.addressable(),
        ensures
            cell == if index < self.cell_count() {
                Some(self.cell_of(index as int))
            } else {
                None
            },
    {
        let count = self.checked_cell_count().unwrap();
        if index >= count {
            return None;
        }
        proof {
            lemma_flat_index_unsplit(
                self.x_size as int,
                self.y_size as int,
                self.z_size as int,
                index as int,
            );
            vstd::arithmetic::div_mod::lemma_div_denominator(
                index as int,
                self.x_size as int,
                self.y_size as int,
            );
        }
        let row: usize = index / self.x_size;
        Some((index % self.x_size, row % self.y_size, row / self.y_size))
    }

    /// Gets the index of a position given in signed coordinates, `None` if it lies
    /// outside the grid.
    pub fn get_ipos_index(&self, x: i128, y: i128, z: i128) -> (index: Option<usize>)
        requires
            self.addressable(),
        ensures
            index == self.pos_index(x as int, y as int, z as int),
    {
        if x < 0 || y < 0 || z < 0 {
            return None;
        }
        if x >= self.x_size as i128 || y >= self.y_size as i128 || z >= self.z_size as i128 {
            return None;
        }
        self.get_pos_index(x as usize, y as usize, z as usize)
    }

    /// Lists the indices of the neighbors of `(x, y, z)` that lie in the grid.
    pub fn neighbor_indices(&self, x: usize, y: usize, z: usize) -> (indices: Vec<usize>)
        requires
            self.addressable(),
        ensures
            indices@ == self.neighbors((x, y, z)),
            forall|j: int| 0 <= j < indices@.len() ==> (#[trigger] indices@[j]) < self.cell_count(),
    {
        proof {
            self.lemma_neighbors_in_grid((x, y, z), KERNEL_SIZE as int);
        }
        let mut indices: Vec<usize> = Vec::new();
        let mut k: usize = 0;
        while k < KERNEL_SIZE
            invariant
                k <= KERNEL_SIZE,
                self.addressable(),
                indices@ == self.neighbors_upto((x, y, z), k as int),
            decreases KERNEL_SIZE - k,
        {
            let offset = cell_kernel(k);
            let found = self.get_ipos_index(
                x as i128 + offset.0 as i128,
                y as i128 + offset.1 as i128,
                z as i128 + offset.2 as i128,
            );
            match found {
                Some(index) => {
                    indices.push(index);
                },
                None => {},
            }
            k = k + 1;
        }
        indices
    }
}

/// A box of cells, given by its lowest and highest corner, both inclusive.
///
/// A box is never empty: one whose corners coincide holds that single cell.
#[derive(Clone, Copy, Debug, PartialEq, Eq)]
pub struct CellBox {
    /// The corner with the lowest coordinate on every axis.
    pub min: Cell,
    /// The corner with the highest coordinate on every axis.
    pub max: Cell,
}

impl CellBox {
    /// The lowest corner does not exceed the highest on any axis.
    pub open spec fn wf(self) -> bool {
        self.min.0 <= self.max.0 && self.min.1 <= self.max.1 && self.min.2 <= self.max.2
    }

    /// Cells along the x axis.
    pub open spec fn width(self) -> int {
        self.max.0 - self.min.0 + 1
    }

    /// Cells along the y axis.
    pub open spec fn height(self) -> int {
        self.max.1 - self.min.1 + 1
    }

    /// Cells along the z axis.
    pub open spec fn depth(self) -> int {
        self.max.2 - self.min.2 + 1
    }

    /// The number of cells in the box.
    pub open spec fn cell_count(self) -> int {
        self.width() * self.height() * self.depth()
    }

    /// Whether `cell` lies in the box.
    pub open spec fn contains(self, cell: Cell) -> bool {
        &&& self.min.0 <= cell.0 <= self.max.0
        &&& self.min.1 <= cell.1 <= self.max.1
        &&& self.min.2 <= cell.2 <= self.max.2
    }

    /// The place of `cell` in the row-major walk of the box, x varying fastest.
    pub open spec fn rank(self, cell: Cell) -> int {
        flat_index(
            self.width(),
            self.height(),
            cell.0 - self.min.0,
            cell.1 - self.min.1,
            cell.2 - self.min.2,
        )
    }

    /// The cell at place `k` of the row-major walk of the box.
    pub open spec fn cell_at(self, k: int) -> Cell {
        (
            (self.min.0 + k % self.width()) as usize,
            (self.min.1 + (k / self.width()) % self.height()) as usize,
            (self.min.2 + k / (self.width() * self.height())) as usize,
        )
    }

    /// All cells of the box in row-major order, x varying fastest, then y, then z.
    pub open spec fn cells(self) -> Seq<Cell> {
        Seq::new(self.cell_count() as nat, |k: int| self.cell_at(k))
    }

    /// Whether the two boxes share a cell: their intervals overlap on all three axes.
    pub open spec fn intersects(self, other: CellBox) -> bool {
        &&& self.min.0 <= other.max.0 && other.min.0 <= self.max.0
        &&& self.min.1 <= other.max.1 && other.min.1 <= self.max.1
        &&& self.min.2 <= other.max.2 && other.min.2 <= self.max.2
    }

    /// A cell of the box has a place in the walk, and the walk holds that cell at that place.
    pub proof fn lemma_rank(self, cell: Cell)
        requires
            self.wf(),
            self.contains(cell),
        ensures
            0 <= self.rank(cell) < self.cell_count(),
            self.cell_at(self.rank(cell)) == cell,
            self.cells()[self.rank(cell)] == cell,
    {
        lemma_flat_index_bound(
            self.width(),
            self.height(),
            self.depth(),
            cell.0 - self.min.0,
            cell.1 - self.min.1,
            cell.2 - self.min.2,
        );
        lemma_flat_index_split(
            self.width(),
            self.height(),
            cell.0 - self.min.0,
            cell.1 - self.min.1,
            cell.2 - self.min.2,
        );
    }

    /// Every place of the walk holds a cell of the box, whose rank is that place.
    pub proof fn lemma_cell_at(self, k: int)
        requires
            self.wf(),
            0 <= k < self.cell_count(),
        ensures
            self.contains(self.cell_at(k)),
            self.rank(self.cell_at(k)) == k,
    {
        lemma_flat_index_unsplit(self.width(), self.height(), self.depth(), k);
    }

    /// The walk of a box visits exactly the cells of the box, each of them once.
    pub proof fn lemma_cells_are_box(self)
        requires
            self.wf(),
        ensures
            self.cells().len() == self.cell_count(),
            forall|cell: Cell| self.cells().contains(cell) <==> self.contains(cell),
            self.cells().no_duplicates(),
    {
        let cells = self.cells();
        assert forall|cell: Cell| cells.contains(cell) <==> self.contains(cell) by {
            if cells.contains(cell) {
                let k = choose|k: int| 0 <= k < cells.len() && cells[k] == cell;
                self.lemma_cell_at(k);
            }
            if self.contains(cell) {
                self.lemma_rank(cell);
            }
        }
        assert forall|i: int, j: int|
            0 <= i < cells.len() && 0 <= j < cells.len() && i != j implies cells[i] != cells[j] by {
            self.lemma_cell_at(i);
            self.lemma_cell_at(j);
        }
    }

    /// Whether `cell` lies in the box.
    pub fn contains_cell(&self, cell: Cell) -> (inside: bool)
        ensures
            inside == self.contains(cell),
    {
        self.min.0 <= cell.0 && cell.0 <= self.max.0 && self.min.1 <= cell.1 && cell.1
            <= self.max.1 && self.min.2 <= cell.2 && cell.2 <= self.max.2
    }

    /// Interval-overlap test on all three axes.
    pub fn overlaps(&self, other: &CellBox) -> (hit: bool)
        ensures
            hit == self.intersects(*other),
    {
        self.min.0 <= other.max.0 && other.min.0 <= self.max.0 && self.min.1 <= other.max.1
            && other.min.1 <= self.max.1 && self.min.2 <= other.max.2 && other.min.2
            <= self.max.2
    }
}

} // verus!

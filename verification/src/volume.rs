use vstd::prelude::*;
use crate::grid::{Cell, CellBox};

verus! {

/// The quotient `a / b` rounded towards negative infinity, for a positive `b`.
pub open spec fn floor_div(a: int, b: int) -> int {
    a / b
}

/// The quotient `a / b` rounded towards positive infinity, for a positive `b`.
pub open spec fn ceil_div(a: int, b: int) -> int {
    -((-a) / b)
}

/// The cell coordinate nearest to `v`: negative values become 0, values beyond
/// the largest coordinate become that coordinate.
pub open spec fn clamp_to_cell(v: int) -> usize {
    if v < 0 {
        0
    } else if v > usize::MAX {
        usize::MAX
    } else {
        v as usize
    }
}

/// For a positive length, rounding the quotient up adds one to the rounded-down
/// quotient exactly when there is a remainder.
pub proof fn lemma_ceil_div_positive(a: int, b: int)
    requires
        0 < a,
        0 < b,
    ensures
        ceil_div(a, b) == a / b + if a % b == 0 { 0int } else { 1int },
        ceil_div(a, b) >= 1,
{
    let q = a / b;
    let r = a % b;
    vstd::arithmetic::div_mod::lemma_fundamental_div_mod(a, b);
    vstd::arithmetic::div_mod::lemma_mod_bound(a, b);
    assert(0 <= q) by (nonlinear_arith)
        requires a == b * q + r, 0 <= r < b, 0 < a, 0 < b;
    if r == 0 {
        assert(-a == (-q) * b + 0) by (nonlinear_arith)
            requires a == b * q + r, r == 0;
        vstd::arithmetic::div_mod::lemma_fundamental_div_mod_converse(-a, b, -q, 0);
        assert(q >= 1) by (nonlinear_arith)
            requires a == b * q, 0 < a, 0 < b;
    } else {
        assert(-a == (-q - 1) * b + (b - r)) by (nonlinear_arith)
            requires a == b * q + r;
        vstd::arithmetic::div_mod::lemma_fundamental_div_mod_converse(-a, b, -q - 1, b - r);
    }
}

/// A length that is not positive rounds to a quotient that is not positive.
pub proof fn lemma_div_nonpositive(a: int, b: int)
    requires
        a <= 0,
        0 < b,
    ensures
        floor_div(a, b) <= 0,
        ceil_div(a, b) <= 0,
{
    vstd::arithmetic::div_mod::lemma_fundamental_div_mod(a, b);
    vstd::arithmetic::div_mod::lemma_mod_bound(a, b);
    let q = a / b;
    let r = a % b;
    assert(q <= 0) by (nonlinear_arith)
        requires a == b * q + r, 0 <= r < b, a <= 0, 0 < b;
    vstd::arithmetic::div_mod::lemma_fundamental_div_mod(-a, b);
    vstd::arithmetic::div_mod::lemma_mod_bound(-a, b);
    let q2 = (-a) / b;
    let r2 = (-a) % b;
    assert(q2 >= 0) by (nonlinear_arith)
        requires -a == b * q2 + r2, 0 <= r2 < b, a <= 0, 0 < b;
}

/// The cell that holds the coordinate `length`: `floor(length / cell_size)`, kept
/// within the range of cell coordinates.
pub fn floor_cells(length: i64, cell_size: i64) -> (cell: usize)
    requires
        cell_size > 0,
    ensures
        cell == clamp_to_cell(floor_div(length as int, cell_size as int)),
{
    if length <= 0 {
        proof {
            lemma_div_nonpositive(length as int, cell_size as int);
        }
        return 0;
    }
    let quotient: u64 = (length as u64) / (cell_size as u64);
    proof {
        vstd::arithmetic::div_mod::lemma_div_pos_is_pos(length as int, cell_size as int);
    }
    if quotient > usize::MAX as u64 {
        usize::MAX
    } else {
        quotient as usize
    }
}

/// The number of cells needed to span from `from` to `to`:
/// `ceil((to - from) / cell_size)`, kept within the range of cell coordinates.
pub fn ceil_cells(from: i64, to: i64, cell_size: i64) -> (cells: usize)
    requires
        cell_size > 0,
    ensures
        cells == clamp_to_cell(ceil_div(to - from, cell_size as int)),
{
    let span: i128 = to as i128 - from as i128;
    if span <= 0 {
        proof {
            lemma_div_nonpositive(span as int, cell_size as int);
        }
        return 0;
    }
    let span: u128 = span as u128;
    let size: u128 = cell_size as u128;
    let whole: u128 = span / size;
    let rest: u128 = span % size;
    proof {
        lemma_ceil_div_positive(span as int, cell_size as int);
        vstd::arithmetic::div_mod::lemma_div_pos_is_pos(span as int, cell_size as int);
        vstd::arithmetic::div_mod::lemma_div_is_ordered_by_denominator(span as int, 1, cell_size as int);
    }
    let count: u128 = if rest == 0 { whole } else { whole + 1 };
    if count > usize::MAX as u128 {
        usize::MAX
    } else {
        count as usize
    }
}

/// A finite walk over cells that hands out one cell at a time.
pub trait CellCursor {
    /// The cells still to come, in the order in which `next` hands them out.
    spec fn remaining(&self) -> Seq<Cell>;

    /// Hands out the next cell, or `None` when the walk is over.
    fn next(&mut self) -> (cell: Option<Cell>)
        ensures
            match cell {
                Some(c) => old(self).remaining().len() > 0 && c == old(self).remaining()[0]
                    && final(self).remaining() == old(self).remaining().skip(1),
                None => old(self).remaining().len() == 0 && final(self).remaining().len() == 0,
            },
    ;
}

/// A volume of world space that can list the cells it covers.
///
/// The cell size is the edge of a cell, in the unit in which the volume is given.
pub trait CellIterator {
    /// The walk that `cell_iter` starts.
    type Cursor: CellCursor;

    /// The cells that the volume covers at the given cell size, in the order of the walk.
    spec fn cells(&self, cell_size: i64) -> Seq<Cell>;

    /// A box that holds every covered cell.
    spec fn bounds(&self, cell_size: i64) -> CellBox;

    /// Starts a fresh walk over the covered cells. Every call starts from the first cell.
    fn cell_iter(&self, cell_size: i64) -> (cursor: Self::Cursor)
        requires
            cell_size > 0,
        ensures
            cursor.remaining() == self.cells(cell_size),
    ;

    /// The lowest corner of the bounding box, without walking the cells.
    fn get_min(&self, cell_size: i64) -> (min: Cell)
        requires
            cell_size > 0,
        ensures
            min == self.bounds(cell_size).min,
    ;

    /// The highest corner of the bounding box, without walking the cells.
    fn get_max(&self, cell_size: i64) -> (max: Cell)
        requires
            cell_size > 0,
        ensures
            max == self.bounds(cell_size).max,
    ;

    /// The bounding box is well formed and no covered cell lies outside it.
    proof fn lemma_cells_in_bounds(&self, cell_size: i64)
        requires
            cell_size > 0,
        ensures
            self.bounds(cell_size).wf(),
            forall|k: int|
                0 <= k < self.cells(cell_size).len() ==> self.bounds(cell_size).contains(
                    #[trigger] self.cells(cell_size)[k],
                ),
    ;
}

/// An axis-aligned box in world space, given by two corners.
#[derive(Debug, Clone, Copy)]
pub struct AABBVolume {
    min_x: i64,
    min_y: i64,
    min_z: i64,
    max_x: i64,
    max_y: i64,
    max_z: i64,
}

/// `a + b`, kept within the range of cell coordinates.
pub open spec fn saturating_cell_sum(a: usize, b: usize) -> usize {
    clamp_to_cell(a + b)
}

impl AABBVolume {
    /// Create a new AABB Volume
    pub fn new(min_x: i64, min_y: i64, min_z: i64, max_x: i64, max_y: i64, max_z: i64) -> (volume:
        AABBVolume)
        ensures
            volume.min_corner() == (min_x, min_y, min_z),
            volume.max_corner() == (max_x, max_y, max_z),
    {
        AABBVolume { min_x, min_y, min_z, max_x, max_y, max_z }
    }

    /// The corner given first, in world units.
    pub closed spec fn min_corner(self) -> (i64, i64, i64) {
        (self.min_x, self.min_y, self.min_z)
    }

    /// The corner given second, in world units.
    pub closed spec fn max_corner(self) -> (i64, i64, i64) {
        (self.max_x, self.max_y, self.max_z)
    }

    /// The cell of the first corner: `floor(min_corner / cell_size)` on each axis.
    pub open spec fn min_cell(self, cell_size: i64) -> Cell {
        (
            clamp_to_cell(floor_div(self.min_corner().0 as int, cell_size as int)),
            clamp_to_cell(floor_div(self.min_corner().1 as int, cell_size as int)),
            clamp_to_cell(floor_div(self.min_corner().2 as int, cell_size as int)),
        )
    }

    /// The length in cells: `ceil((max_corner - min_corner) / cell_size)` on each axis.
    pub open spec fn len_cells(self, cell_size: i64) -> Cell {
        (
            clamp_to_cell(ceil_div(self.max_corner().0 - self.min_corner().0, cell_size as int)),
            clamp_to_cell(ceil_div(self.max_corner().1 - self.min_corner().1, cell_size as int)),
            clamp_to_cell(ceil_div(self.max_corner().2 - self.min_corner().2, cell_size as int)),
        )
    }

    /// The last cell: the first cell plus the length, on each axis. The box of cells
    /// is closed, so a volume of length `n` covers `n + 1` cells along that axis.
    pub open spec fn max_cell(self, cell_size: i64) -> Cell {
        (
            saturating_cell_sum(self.min_cell(cell_size).0, self.len_cells(cell_size).0),
            saturating_cell_sum(self.min_cell(cell_size).1, self.len_cells(cell_size).1),
            saturating_cell_sum(self.min_cell(cell_size).2, self.len_cells(cell_size).2),
        )
    }
}

impl CellIterator for AABBVolume {
    type Cursor = AABBVolumeIter;

    open spec fn cells(&self, cell_size: i64) -> Seq<Cell> {
        self.bounds(cell_size).cells()
    }

    open spec fn bounds(&self, cell_size: i64) -> CellBox {
        CellBox { min: self.min_cell(cell_size), max: self.max_cell(cell_size) }
    }

    fn cell_iter(&self, cell_size: i64) -> (cursor: AABBVolumeIter) {
        let min = self.get_min(cell_size);
        let max = self.get_max(cell_size);
        AABBVolumeIter::over(CellBox { min, max })
    }

    fn get_min(&self, cell_size: i64) -> (min: Cell) {
        (
            floor_cells(self.min_x, cell_size),
            floor_cells(self.min_y, cell_size),
            floor_cells(self.min_z, cell_size),
        )
    }

    fn get_max(&self, cell_size: i64) -> (max: Cell) {
        let min = self.get_min(cell_size);
        (
            min.0.saturating_add(ceil_cells(self.min_x, self.max_x, cell_size)),
            min.1.saturating_add(ceil_cells(self.min_y, self.max_y, cell_size)),
            min.2.saturating_add(ceil_cells(self.min_z, self.max_z, cell_size)),
        )
    }

    proof fn lemma_cells_in_bounds(&self, cell_size: i64) {
        let b = self.bounds(cell_size);
        assert forall|k: int| 0 <= k < self.cells(cell_size).len() implies b.contains(
            #[trigger] self.cells(cell_size)[k],
        ) by {
            b.lemma_cell_at(k);
        }
    }
}

/// A walk over the cells of a box in row-major order, x varying fastest.
pub struct AABBVolumeIter {
    bounds: CellBox,
    x: usize,
    y: usize,
    z: usize,
    done: bool,
}

impl AABBVolumeIter {
    #[verifier::type_invariant]
    spec fn inv(self) -> bool {
        self.bounds.wf() && self.bounds.contains((self.x, self.y, self.z))
    }

    /// Starts a walk over all cells of `bounds`.
    pub fn over(bounds: CellBox) -> (cursor: AABBVolumeIter)
        requires
            bounds.wf(),
        ensures
            cursor.remaining() == bounds.cells(),
    {
        proof {
            bounds.lemma_rank(bounds.min);
            assert(bounds.rank(bounds.min) == 0) by (nonlinear_arith)
                requires
                    bounds.rank(bounds.min) == crate::grid::flat_index(
                        bounds.width(),
                        bounds.height(),
                        0,
                        0,
                        0,
                    ),
            ;
            assert(bounds.cells().skip(0) =~= bounds.cells());
        }
        AABBVolumeIter { bounds, x: bounds.min.0, y: bounds.min.1, z: bounds.min.2, done: false }
    }
}

impl CellCursor for AABBVolumeIter {
    closed spec fn remaining(&self) -> Seq<Cell> {
        if self.done {
            Seq::empty()
        } else {
            self.bounds.cells().skip(self.bounds.rank((self.x, self.y, self.z)))
        }
    }

    fn next(&mut self) -> (cell: Option<Cell>) {
        proof {
            use_type_invariant(&*self);
        }
        if self.done {
            return None;
        }
        let cell = (self.x, self.y, self.z);
        let ghost before = self.bounds.rank(cell);
        let ghost walk = self.bounds.cells();
        proof {
            self.bounds.lemma_rank(cell);
        }
        if self.x < self.bounds.max.0 {
            self.x = self.x + 1;
        } else {
            self.x = self.bounds.min.0;
            if self.y < self.bounds.max.1 {
                self.y = self.y + 1;
            } else {
                self.y = self.bounds.min.1;
                if self.z < self.bounds.max.2 {
                    self.z = self.z + 1;
                } else {
                    self.done = true;
                }
            }
        }
        proof {
            let b = self.bounds;
            let w = b.width();
            let h = b.height();
            if self.done {
                assert(before == w * h * b.depth() - 1) by (nonlinear_arith)
                    requires
                        before == (w - 1) + (h - 1) * w + (b.depth() - 1) * w * h,
                ;
                assert(walk.skip(before).skip(1) =~= Seq::<Cell>::empty());
            } else {
                let after = b.rank((self.x, self.y, self.z));
                assert(after == before + 1) by (nonlinear_arith)
                    requires
                        before == (cell.0 - b.min.0) + (cell.1 - b.min.1) * w + (cell.2 - b.min.2)
                            * w * h,
                        after == (self.x - b.min.0) + (self.y - b.min.1) * w + (self.z - b.min.2)
                            * w * h,
                        w == b.max.0 - b.min.0 + 1,
                        h == b.max.1 - b.min.1 + 1,
                        (self.x == cell.0 + 1 && self.y == cell.1 && self.z == cell.2) || (self.x
                            == b.min.0 && cell.0 == b.max.0 && self.y == cell.1 + 1 && self.z
                            == cell.2) || (self.x == b.min.0 && cell.0 == b.max.0 && self.y
                            == b.min.1 && cell.1 == b.max.1 && self.z == cell.2 + 1),
                ;
                assert(walk.skip(before).skip(1) =~= walk.skip(after));
            }
        }
        Some(cell)
    }
}

} // verus!

use vstd::prelude::*;
use crate::grid::{
    flat_index, lemma_flat_index_bound, lemma_flat_index_split, lemma_flat_index_unsplit, Cell,
    CellBox, Grid,
};
use crate::volume::{AABBVolumeIter, CellCursor};

verus! {

/// How many chunks of edge `chunk_size` it takes to span `cells` cells: all of them
/// full but possibly the last, which holds the remainder.
pub open spec fn chunks_along(cells: int, chunk_size: int) -> int {
    (cells + chunk_size - 1) / chunk_size
}

/// The first cell of chunk `i` along an axis.
pub open spec fn chunk_start(i: int, chunk_size: int) -> int {
    i * chunk_size
}

/// The last cell of chunk `i` along an axis that is `cells` long.
pub open spec fn chunk_end(i: int, chunk_size: int, cells: int) -> int {
    if (i + 1) * chunk_size <= cells {
        (i + 1) * chunk_size - 1
    } else {
        cells - 1
    }
}

/// Whether cell `x` lies in chunk `i` of an axis that is `cells` long.
pub open spec fn chunk_holds(i: int, chunk_size: int, cells: int, x: int) -> bool {
    chunk_start(i, chunk_size) <= x <= chunk_end(i, chunk_size, cells)
}

/// Along one axis the chunks are not empty, lie inside the axis, and each cell lies
/// in the chunk `x / chunk_size` and in no other.
pub proof fn lemma_chunks_along(cells: int, chunk_size: int)
    requires
        0 <= cells,
        0 < chunk_size,
    ensures
        0 <= chunks_along(cells, chunk_size) <= cells,
        cells > 0 ==> chunks_along(cells, chunk_size) > 0,
        forall|i: int|
            0 <= i < chunks_along(cells, chunk_size) ==> 0 <= #[trigger] chunk_start(i, chunk_size)
                <= chunk_end(i, chunk_size, cells) < cells,
        forall|x: int|
            0 <= x < cells ==> 0 <= #[trigger] (x / chunk_size) < chunks_along(cells, chunk_size)
                && chunk_holds(x / chunk_size, chunk_size, cells, x),
        forall|x: int, i: int|
            0 <= i && #[trigger] chunk_holds(i, chunk_size, cells, x) ==> i == x / chunk_size,
{
    let n = chunks_along(cells, chunk_size);
    let top = cells + chunk_size - 1;
    vstd::arithmetic::div_mod::lemma_fundamental_div_mod(top, chunk_size);
    vstd::arithmetic::div_mod::lemma_mod_bound(top, chunk_size);
    let r = top % chunk_size;
    assert(0 <= n <= cells && (cells > 0 ==> n > 0)) by (nonlinear_arith)
        requires
            top == chunk_size * n + r,
            0 <= r < chunk_size,
            top == cells + chunk_size - 1,
            0 <= cells,
            0 < chunk_size,
    ;
    assert forall|i: int| 0 <= i < n implies 0 <= #[trigger] chunk_start(i, chunk_size)
        <= chunk_end(i, chunk_size, cells) < cells by {
        assert(0 <= i * chunk_size && i * chunk_size < cells && (i + 1) * chunk_size == i
            * chunk_size + chunk_size) by (nonlinear_arith)
            requires
                0 <= i < n,
                top == chunk_size * n + r,
                0 <= r < chunk_size,
                top == cells + chunk_size - 1,
                0 < chunk_size,
        ;
    }
    assert forall|x: int| 0 <= x < cells implies 0 <= #[trigger] (x / chunk_size) < n
        && chunk_holds(x / chunk_size, chunk_size, cells, x) by {
        let i = x / chunk_size;
        let m = x % chunk_size;
        vstd::arithmetic::div_mod::lemma_fundamental_div_mod(x, chunk_size);
        vstd::arithmetic::div_mod::lemma_mod_bound(x, chunk_size);
        assert(0 <= i < n && i * chunk_size <= x && x < (i + 1) * chunk_size) by (nonlinear_arith)
            requires
                x == chunk_size * i + m,
                0 <= m < chunk_size,
                0 <= x < cells,
                top == chunk_size * n + r,
                0 <= r < chunk_size,
                top == cells + chunk_size - 1,
                0 < chunk_size,
        ;
    }
    assert forall|x: int, i: int|
        0 <= i && #[trigger] chunk_holds(i, chunk_size, cells, x) implies i == x / chunk_size by {
        let m = x - i * chunk_size;
        assert(0 <= m < chunk_size) by (nonlinear_arith)
            requires
                m == x - i * chunk_size,
                i * chunk_size <= x,
                x <= (i + 1) * chunk_size - 1,
        ;
        assert(x == i * chunk_size + m);
        vstd::arithmetic::div_mod::lemma_fundamental_div_mod_converse(x, chunk_size, i, m);
    }
}

/// The grid indices of the cells of a box, in the row-major order of the box.
pub open spec fn box_indices(grid: Grid, cells: CellBox) -> Seq<usize> {
    Seq::new(cells.cells().len(), |k: int| grid.cell_index(cells.cells()[k]) as usize)
}

/// The indices of a box inside the grid are indices of the grid, none of them twice, and
/// they are the indices of the cells that the box holds.
pub proof fn lemma_box_indices(grid: Grid, cells: CellBox)
    requires
        grid.addressable(),
        cells.wf(),
        forall|cell: Cell| #[trigger] cells.contains(cell) ==> grid.holds(cell),
    ensures
        box_indices(grid, cells).no_duplicates(),
        forall|index: int|
            0 <= index < grid.cell_count() ==> (box_indices(grid, cells).contains(index as usize)
                <==> cells.contains(#[trigger] grid.cell_of(index))),
        forall|k: int|
            0 <= k < box_indices(grid, cells).len() ==> (#[trigger] box_indices(grid, cells)[k])
                < grid.cell_count(),
{
    let walk = cells.cells();
    let list = box_indices(grid, cells);
    cells.lemma_cells_are_box();
    assert forall|k: int| 0 <= k < list.len() implies (#[trigger] list[k]) < grid.cell_count()
        && grid.cell_of(list[k] as int) == walk[k] by {
        cells.lemma_cell_at(k);
        grid.lemma_cell_index(walk[k]);
    }
    assert forall|a: int, b: int| 0 <= a < list.len() && 0 <= b < list.len() && a != b implies list[a]
        != list[b] by {
        assert(grid.cell_of(list[a] as int) == walk[a]);
        assert(grid.cell_of(list[b] as int) == walk[b]);
    }
    assert forall|index: int| 0 <= index < grid.cell_count() implies (list.contains(index as usize)
        <==> cells.contains(#[trigger] grid.cell_of(index))) by {
        let cell = grid.cell_of(index);
        grid.lemma_cell_of(index);
        if list.contains(index as usize) {
            let k = choose|k: int| 0 <= k < list.len() && list[k] == index as usize;
            assert(grid.cell_of(list[k] as int) == walk[k]);
            assert(walk.contains(cell));
        }
        if cells.contains(cell) {
            cells.lemma_rank(cell);
            assert(list[cells.rank(cell)] == index as usize);
        }
    }
}

/// Lists the grid indices of the cells of a box that lies inside the grid.
pub fn indices_in(grid: &Grid, cells: &CellBox) -> (indices: Vec<usize>)
    requires
        grid.addressable(),
        cells.wf(),
        forall|cell: Cell| #[trigger] cells.contains(cell) ==> grid.holds(cell),
    ensures
        indices@ == box_indices(*grid, *cells),
{
    let ghost walk = cells.cells();
    let mut cursor = AABBVolumeIter::over(*cells);
    let mut indices: Vec<usize> = Vec::new();
    proof {
        assert(walk.skip(0) =~= walk);
    }
    loop
        invariant_except_break
            cursor.remaining() == walk.skip(indices@.len() as int),
        invariant
            walk == cells.cells(),
            grid.addressable(),
            cells.wf(),
            forall|cell: Cell| #[trigger] cells.contains(cell) ==> grid.holds(cell),
            indices@.len() <= walk.len(),
            forall|k: int| 0 <= k < indices@.len() ==> indices@[k] == grid.cell_index(walk[k]),
        ensures
            indices@.len() == walk.len(),
        decreases walk.len() - indices@.len(),
    {
        let ghost seen = indices@.len() as int;
        match cursor.next() {
            None => {
                break ;
            },
            Some(cell) => {
                proof {
                    assert(cell == walk[seen]);
                    cells.lemma_cell_at(seen);
                    grid.lemma_cell_index(cell);
                    assert(walk.skip(seen).skip(1) =~= walk.skip(seen + 1));
                }
                let index = grid.get_pos_index(cell.0, cell.1, cell.2).unwrap();
                indices.push(index);
            },
        }
    }
    assert(indices@ =~= box_indices(*grid, *cells));
    indices
}

fn filled<T: Copy>(count: usize, fill: T) -> (buffer: Vec<T>)
    ensures
        buffer@.len() == count,
{
    let mut buffer: Vec<T> = Vec::new();
    let mut i: usize = 0;
    while i < count
        invariant
            i <= count,
            buffer@.len() == i,
        decreases count - i,
    {
        buffer.push(fill);
        i = i + 1;
    }
    buffer
}

/// The partition of a grid into cube chunks of a given edge.
///
/// Chunks at the far edge of an axis hold the remainder and may be smaller. Chunks
/// are numbered with the z chunk index varying fastest, then y, then x.
#[derive(Clone, Copy, Debug)]
pub struct ChunkLayout {
    grid: Grid,
    chunk_size: usize,
    x_chunks: usize,
    y_chunks: usize,
    z_chunks: usize,
}

impl ChunkLayout {
    #[verifier::type_invariant]
    spec fn inv(self) -> bool {
        self.wf()
    }

    /// The layout is one that `new` makes: the grid is addressable, the edge is
    /// positive, and the chunk counts are those of the grid.
    pub open spec fn wf(self) -> bool {
        &&& self.grid().addressable()
        &&& self.chunk_size() > 0
        &&& self.counted()
    }

    /// The chunk counts that the layout keeps are those of its grid and edge.
    pub closed spec fn counted(self) -> bool {
        &&& self.x_chunks == chunks_along(self.grid.x_size as int, self.chunk_size as int)
        &&& self.y_chunks == chunks_along(self.grid.y_size as int, self.chunk_size as int)
        &&& self.z_chunks == chunks_along(self.grid.z_size as int, self.chunk_size as int)
    }

    /// The grid that is partitioned.
    pub closed spec fn grid(self) -> Grid {
        self.grid
    }

    /// The edge of a full chunk, in cells.
    pub closed spec fn chunk_size(self) -> usize {
        self.chunk_size
    }

    /// The number of chunks.
    pub open spec fn count(self) -> int {
        chunks_along(self.grid().x_size as int, self.chunk_size() as int) * chunks_along(
            self.grid().y_size as int,
            self.chunk_size() as int,
        ) * chunks_along(self.grid().z_size as int, self.chunk_size() as int)
    }

    /// The chunk indices `(cx, cy, cz)` of chunk number `k`.
    pub open spec fn chunk_coords(self, k: int) -> (int, int, int) {
        let ny = chunks_along(self.grid().y_size as int, self.chunk_size() as int);
        let nz = chunks_along(self.grid().z_size as int, self.chunk_size() as int);
        (k / (nz * ny), (k / nz) % ny, k % nz)
    }

    /// The number of the chunk with chunk indices `(cx, cy, cz)`.
    pub open spec fn chunk_number(self, cx: int, cy: int, cz: int) -> int {
        let ny = chunks_along(self.grid().y_size as int, self.chunk_size() as int);
        let nz = chunks_along(self.grid().z_size as int, self.chunk_size() as int);
        flat_index(nz, ny, cz, cy, cx)
    }

    /// The box of cells with chunk indices `(cx, cy, cz)`.
    pub open spec fn chunk_box(self, cx: int, cy: int, cz: int) -> CellBox {
        let c = self.chunk_size() as int;
        CellBox {
            min: (
                chunk_start(cx, c) as usize,
                chunk_start(cy, c) as usize,
                chunk_start(cz, c) as usize,
            ),
            max: (
                chunk_end(cx, c, self.grid().x_size as int) as usize,
                chunk_end(cy, c, self.grid().y_size as int) as usize,
                chunk_end(cz, c, self.grid().z_size as int) as usize,
            ),
        }
    }

    /// The box of cells of chunk number `k`.
    pub open spec fn chunk_spec(self, k: int) -> CellBox {
        let at = self.chunk_coords(k);
        self.chunk_box(at.0, at.1, at.2)
    }

    /// The number of the chunk that holds `cell`.
    pub open spec fn chunk_of(self, cell: Cell) -> int {
        let c = self.chunk_size() as int;
        self.chunk_number(cell.0 as int / c, cell.1 as int / c, cell.2 as int / c)
    }

    /// The layout of `grid` in chunks of edge `chunk_size`.
    pub closed spec fn of(grid: Grid, chunk_size: usize) -> ChunkLayout {
        ChunkLayout {
            grid,
            chunk_size,
            x_chunks: chunks_along(grid.x_size as int, chunk_size as int) as usize,
            y_chunks: chunks_along(grid.y_size as int, chunk_size as int) as usize,
            z_chunks: chunks_along(grid.z_size as int, chunk_size as int) as usize,
        }
    }

    /// A positive edge lays out every grid that can be indexed.
    pub proof fn lemma_of(grid: Grid, chunk_size: usize)
        requires
            chunk_size > 0,
            grid.addressable(),
        ensures
            Self::of(grid, chunk_size).wf(),
            Self::of(grid, chunk_size).grid() == grid,
            Self::of(grid, chunk_size).chunk_size() == chunk_size,
    {
        lemma_chunks_along(grid.x_size as int, chunk_size as int);
        lemma_chunks_along(grid.y_size as int, chunk_size as int);
        lemma_chunks_along(grid.z_size as int, chunk_size as int);
    }

    /// Lays out the chunks of `grid`. There is no layout for a chunk edge of zero, nor for
    /// a grid with more cells than can be indexed.
    pub fn new(grid: Grid, chunk_size: usize) -> (layout: Option<ChunkLayout>)
        ensures
            layout.is_some() <==> chunk_size > 0 && grid.addressable(),
            layout.is_some() ==> layout.unwrap() == Self::of(grid, chunk_size)
                && layout.unwrap().wf() && layout.unwrap().grid() == grid
                && layout.unwrap().chunk_size() == chunk_size,
    {
        if chunk_size == 0 {
            return None;
        }
        if grid.checked_cell_count().is_none() {
            return None;
        }
        let x_chunks = Self::count_along(grid.x_size, chunk_size);
        let y_chunks = Self::count_along(grid.y_size, chunk_size);
        let z_chunks = Self::count_along(grid.z_size, chunk_size);
        Some(ChunkLayout { grid, chunk_size, x_chunks, y_chunks, z_chunks })
    }

    fn count_along(cells: usize, chunk_size: usize) -> (count: usize)
        requires
            chunk_size > 0,
        ensures
            count == chunks_along(cells as int, chunk_size as int),
    {
        let whole: usize = cells / chunk_size;
        let rest: usize = cells % chunk_size;
        proof {
            let q = whole as int;
            let r = rest as int;
            let c = chunk_size as int;
            vstd::arithmetic::div_mod::lemma_fundamental_div_mod(cells as int, c);
            if r == 0 {
                assert(cells + c - 1 == c * q + (c - 1));
                vstd::arithmetic::div_mod::lemma_fundamental_div_mod_converse(
                    cells + c - 1,
                    c,
                    q,
                    c - 1,
                );
            } else {
                assert(cells + c - 1 == c * (q + 1) + (r - 1)) by (nonlinear_arith)
                    requires
                        cells == c * q + r,
                ;
                vstd::arithmetic::div_mod::lemma_fundamental_div_mod_converse(
                    cells + c - 1,
                    c,
                    q + 1,
                    r - 1,
                );
            }
            lemma_chunks_along(cells as int, c);
        }
        if rest == 0 {
            whole
        } else {
            whole + 1
        }
    }

    /// The number of chunks does not exceed the number of cells.
    pub proof fn lemma_count_bound(self)
        requires
            self.wf(),
        ensures
            0 <= self.count() <= self.grid().cell_count(),
            self.grid().cell_count() > 0 ==> self.count() > 0,
    {
        let c = self.chunk_size() as int;
        let g = self.grid();
        lemma_chunks_along(g.x_size as int, c);
        lemma_chunks_along(g.y_size as int, c);
        lemma_chunks_along(g.z_size as int, c);
        let nx = chunks_along(g.x_size as int, c);
        let ny = chunks_along(g.y_size as int, c);
        let nz = chunks_along(g.z_size as int, c);
        assert(0 <= nx * ny * nz <= g.x_size * g.y_size * g.z_size) by (nonlinear_arith)
            requires
                0 <= nx <= g.x_size,
                0 <= ny <= g.y_size,
                0 <= nz <= g.z_size,
        ;
        if g.cell_count() > 0 {
            assert(g.x_size > 0 && g.y_size > 0 && g.z_size > 0) by (nonlinear_arith)
                requires
                    g.x_size * g.y_size * g.z_size > 0,
            ;
            assert(nx * ny * nz > 0) by (nonlinear_arith)
                requires
                    nx > 0,
                    ny > 0,
                    nz > 0,
            ;
        }
    }

    /// Get the grid that is partitioned
    pub fn get_grid(&self) -> (grid: Grid)
        ensures
            grid == self.grid(),
            self.wf(),
    {
        proof {
            use_type_invariant(self);
        }
        self.grid
    }

    /// The number of cells of the grid.
    pub fn cell_count(&self) -> (count: usize)
        ensures
            count == self.grid().cell_count(),
    {
        proof {
            use_type_invariant(self);
        }
        self.grid.checked_cell_count().unwrap()
    }

    /// The number of chunks.
    pub fn len(&self) -> (count: usize)
        ensures
            count == self.count(),
            self.wf(),
    {
        proof {
            use_type_invariant(self);
            self.lemma_count_bound();
        }
        if self.x_chunks == 0 || self.y_chunks == 0 || self.z_chunks == 0 {
            assert(self.count() == 0) by (nonlinear_arith)
                requires
                    self.count() == self.x_chunks * self.y_chunks * self.z_chunks,
                    self.x_chunks == 0 || self.y_chunks == 0 || self.z_chunks == 0,
            ;
            return 0;
        }
        assert(self.x_chunks * self.y_chunks <= self.x_chunks * self.y_chunks * self.z_chunks)
            by (nonlinear_arith)
            requires
                self.z_chunks >= 1,
                self.x_chunks * self.y_chunks >= 0,
        ;
        self.x_chunks * self.y_chunks * self.z_chunks
    }

    fn span(i: usize, chunk_size: usize, cells: usize) -> (ends: (usize, usize))
        requires
            chunk_size > 0,
            i < chunks_along(cells as int, chunk_size as int),
        ensures
            ends.0 == chunk_start(i as int, chunk_size as int),
            ends.1 == chunk_end(i as int, chunk_size as int, cells as int),
    {
        proof {
            lemma_chunks_along(cells as int, chunk_size as int);
            assert(chunk_start(i as int, chunk_size as int) < cells);
            assert((i + 1) * chunk_size == i * chunk_size + chunk_size) by (nonlinear_arith);
        }
        let start: usize = i * chunk_size;
        let left: usize = cells - start;
        if chunk_size <= left {
            (start, start + (chunk_size - 1))
        } else {
            (start, cells - 1)
        }
    }

    /// The box of cells of chunk number `k`.
    pub fn chunk(&self, k: usize) -> (cells: CellBox)
        requires
            k < self.count(),
        ensures
            cells == self.chunk_spec(k as int),
    {
        proof {
            use_type_invariant(self);
            self.lemma_chunk_coords(k as int);
        }
        let cz: usize = k % self.z_chunks;
        let row: usize = k / self.z_chunks;
        let cy: usize = row % self.y_chunks;
        let cx: usize = row / self.y_chunks;
        proof {
            let nz = self.z_chunks as int;
            let ny = self.y_chunks as int;
            vstd::arithmetic::div_mod::lemma_div_denominator(k as int, nz, ny);
        }
        let xs = Self::span(cx, self.chunk_size, self.grid.x_size);
        let ys = Self::span(cy, self.chunk_size, self.grid.y_size);
        let zs = Self::span(cz, self.chunk_size, self.grid.z_size);
        CellBox { min: (xs.0, ys.0, zs.0), max: (xs.1, ys.1, zs.1) }
    }

    /// The chunk indices of a chunk number lie within the chunk counts, and give the
    /// number back.
    pub proof fn lemma_chunk_coords(self, k: int)
        requires
            self.wf(),
            0 <= k < self.count(),
        ensures
            ({
                let at = self.chunk_coords(k);
                &&& 0 <= at.0 < chunks_along(self.grid().x_size as int, self.chunk_size() as int)
                &&& 0 <= at.1 < chunks_along(self.grid().y_size as int, self.chunk_size() as int)
                &&& 0 <= at.2 < chunks_along(self.grid().z_size as int, self.chunk_size() as int)
                &&& self.chunk_number(at.0, at.1, at.2) == k
            }),
    {
        let c = self.chunk_size() as int;
        let nx = chunks_along(self.grid().x_size as int, c);
        let ny = chunks_along(self.grid().y_size as int, c);
        let nz = chunks_along(self.grid().z_size as int, c);
        lemma_chunks_along(self.grid().x_size as int, c);
        lemma_chunks_along(self.grid().y_size as int, c);
        lemma_chunks_along(self.grid().z_size as int, c);
        assert(nz * ny * nx == nx * ny * nz) by (nonlinear_arith);
        lemma_flat_index_unsplit(nz, ny, nx, k);
    }

    /// Every chunk is a well-formed box inside the grid.
    pub proof fn lemma_chunk_in_grid(self, k: int)
        requires
            self.wf(),
            0 <= k < self.count(),
        ensures
            self.chunk_spec(k).wf(),
            forall|cell: Cell| #[trigger]
                self.chunk_spec(k).contains(cell) ==> self.grid().contains(
                    cell.0 as int,
                    cell.1 as int,
                    cell.2 as int,
                ),
    {
        let c = self.chunk_size() as int;
        self.lemma_chunk_coords(k);
        let at = self.chunk_coords(k);
        lemma_chunks_along(self.grid().x_size as int, c);
        lemma_chunks_along(self.grid().y_size as int, c);
        lemma_chunks_along(self.grid().z_size as int, c);
        assert(0 <= chunk_start(at.0, c) <= chunk_end(at.0, c, self.grid().x_size as int));
        assert(0 <= chunk_start(at.1, c) <= chunk_end(at.1, c, self.grid().y_size as int));
        assert(0 <= chunk_start(at.2, c) <= chunk_end(at.2, c, self.grid().z_size as int));
    }

    /// The chunks partition the grid: every cell of the grid lies in the chunk that
    /// `chunk_of` names, and in no other chunk.
    pub proof fn lemma_partition(self, cell: Cell)
        requires
            self.wf(),
            self.grid().contains(cell.0 as int, cell.1 as int, cell.2 as int),
        ensures
            0 <= self.chunk_of(cell) < self.count(),
            self.chunk_spec(self.chunk_of(cell)).contains(cell),
            forall|k: int|
                0 <= k < self.count() && #[trigger] self.chunk_spec(k).contains(cell) ==> k
                    == self.chunk_of(cell),
    {
        let c = self.chunk_size() as int;
        let g = self.grid();
        let nx = chunks_along(g.x_size as int, c);
        let ny = chunks_along(g.y_size as int, c);
        let nz = chunks_along(g.z_size as int, c);
        lemma_chunks_along(g.x_size as int, c);
        lemma_chunks_along(g.y_size as int, c);
        lemma_chunks_along(g.z_size as int, c);
        let cx = cell.0 as int / c;
        let cy = cell.1 as int / c;
        let cz = cell.2 as int / c;
        assert(0 <= cx < nx && 0 <= cy < ny && 0 <= cz < nz);
        lemma_flat_index_bound(nz, ny, nx, cz, cy, cx);
        lemma_flat_index_split(nz, ny, cz, cy, cx);
        assert(nz * ny * nx == nx * ny * nz) by (nonlinear_arith);
        let home = self.chunk_of(cell);
        assert(self.chunk_coords(home) == (cx, cy, cz));
        assert(chunk_holds(cx, c, g.x_size as int, cell.0 as int));
        assert(chunk_holds(cy, c, g.y_size as int, cell.1 as int));
        assert(chunk_holds(cz, c, g.z_size as int, cell.2 as int));
        assert(0 <= chunk_start(cx, c) <= chunk_end(cx, c, g.x_size as int));
        assert(0 <= chunk_start(cy, c) <= chunk_end(cy, c, g.y_size as int));
        assert(0 <= chunk_start(cz, c) <= chunk_end(cz, c, g.z_size as int));
        assert forall|k: int|
            0 <= k < self.count() && #[trigger] self.chunk_spec(k).contains(cell) implies k
            == home by {
            self.lemma_chunk_coords(k);
            let at = self.chunk_coords(k);
            assert(0 <= chunk_start(at.0, c) <= chunk_end(at.0, c, g.x_size as int));
            assert(0 <= chunk_start(at.1, c) <= chunk_end(at.1, c, g.y_size as int));
            assert(0 <= chunk_start(at.2, c) <= chunk_end(at.2, c, g.z_size as int));
            assert(chunk_holds(at.0, c, g.x_size as int, cell.0 as int));
            assert(chunk_holds(at.1, c, g.y_size as int, cell.1 as int));
            assert(chunk_holds(at.2, c, g.z_size as int, cell.2 as int));
            assert(at.0 == cx && at.1 == cy && at.2 == cz);
        }
    }

    /// The grid indices of the cells of chunk number `k`.
    pub open spec fn chunk_indices(self, k: int) -> Seq<usize> {
        box_indices(self.grid(), self.chunk_spec(k))
    }

    /// Lists the grid indices of the cells of chunk number `k`: the cells that the task
    /// of that chunk works on.
    pub fn cell_indices(&self, k: usize) -> (indices: Vec<usize>)
        requires
            k < self.count(),
        ensures
            indices@ == self.chunk_indices(k as int),
    {
        proof {
            use_type_invariant(self);
            self.lemma_chunk_in_grid(k as int);
        }
        let cells = self.chunk(k);
        indices_in(&self.grid, &cells)
    }

    /// The chunks share out the cells of the grid: the index of every cell is listed by
    /// the chunk that `chunk_of` names and by no other chunk, and no chunk lists an
    /// index twice.
    pub proof fn lemma_chunks_share_out_cells(self, index: int)
        requires
            self.wf(),
            0 <= index < self.grid().cell_count(),
        ensures
            0 <= self.chunk_of(self.grid().cell_of(index)) < self.count(),
            self.chunk_indices(self.chunk_of(self.grid().cell_of(index))).contains(index as usize),
            forall|k: int|
                0 <= k < self.count() && (#[trigger] self.chunk_indices(k)).contains(index as usize)
                    ==> k == self.chunk_of(self.grid().cell_of(index)),
            forall|k: int| 0 <= k < self.count() ==> (#[trigger] self.chunk_indices(k)).no_duplicates(),
    {
        let grid = self.grid();
        let cell = grid.cell_of(index);
        grid.lemma_cell_of(index);
        self.lemma_partition(cell);
        assert forall|k: int| 0 <= k < self.count() implies (#[trigger] self.chunk_indices(
            k,
        )).no_duplicates() && (self.chunk_indices(k).contains(index as usize)
            <==> self.chunk_spec(k).contains(cell)) by {
            self.lemma_chunk_in_grid(k);
            lemma_box_indices(grid, self.chunk_spec(k));
        }
    }

    /// Whether `parts` holds one part for each chunk, each with one value for each cell
    /// of its chunk.
    pub open spec fn parts_fit<T>(self, parts: Seq<Vec<T>>) -> bool {
        &&& parts.len() == self.count()
        &&& forall|k: int|
            0 <= k < parts.len() ==> (#[trigger] parts[k])@.len() == self.chunk_indices(k).len()
    }

    /// The value that the parts hold for the cell with index `index`: the part of the
    /// chunk of that cell holds it at the place of the cell in the chunk.
    pub open spec fn part_value<T>(self, parts: Seq<Vec<T>>, index: int) -> T {
        let cell = self.grid().cell_of(index);
        let home = self.chunk_of(cell);
        parts[home]@[self.chunk_spec(home).rank(cell)]
    }

    /// The chunk of a cell lists the index of the cell at the place of the cell in the chunk.
    pub proof fn lemma_place_in_chunk(self, index: int)
        requires
            self.wf(),
            0 <= index < self.grid().cell_count(),
        ensures
            ({
                let cell = self.grid().cell_of(index);
                let home = self.chunk_of(cell);
                let place = self.chunk_spec(home).rank(cell);
                &&& 0 <= home < self.count()
                &&& 0 <= place < self.chunk_indices(home).len()
                &&& self.chunk_indices(home)[place] == index
            }),
    {
        let grid = self.grid();
        let cell = grid.cell_of(index);
        grid.lemma_cell_of(index);
        self.lemma_partition(cell);
        let home = self.chunk_of(cell);
        self.lemma_chunk_in_grid(home);
        self.chunk_spec(home).lemma_rank(cell);
        self.chunk_spec(home).lemma_cells_are_box();
    }

    /// Puts parts that hold one value for each cell of each chunk together into one buffer
    /// for the whole grid, each value at the index of its cell. Every cell belongs to one chunk, so
    /// every place of the buffer is written once and `fill` stays nowhere. Parts that
    /// are not one per chunk, or not of the size of their chunk, are refused.
    pub fn gather<T: Copy>(&self, parts: &Vec<Vec<T>>, fill: T) -> (whole: Option<
        Vec<T>,
    >)
        ensures
            whole.is_some() <==> self.parts_fit(parts@),
            whole.is_some() ==> whole.unwrap()@.len() == self.grid().cell_count() && forall|
                index: int,
            |
                0 <= index < self.grid().cell_count() ==> #[trigger] whole.unwrap()@[index]
                    == self.part_value(parts@, index),
    {
        let chunk_count = self.len();
        if parts.len() != chunk_count {
            return None;
        }
        let ghost grid = self.grid();
        let mut whole = filled(self.cell_count(), fill);
        let mut k: usize = 0;
        proof {
            assert forall|index: int| 0 <= index < grid.cell_count() implies 0 <= self.chunk_of(
                #[trigger] grid.cell_of(index),
            ) by {
                self.lemma_place_in_chunk(index);
            }
        }
        while k < chunk_count
            invariant
                k <= chunk_count,
                chunk_count == self.count(),
                parts@.len() == chunk_count,
                self.wf(),
                grid == self.grid(),
                whole@.len() == grid.cell_count(),
                forall|t: int| 0 <= t < k ==> (#[trigger] parts@[t])@.len() == self.chunk_indices(t).len(),
                forall|index: int|
                    0 <= index < grid.cell_count() && self.chunk_of(grid.cell_of(index)) < k
                        ==> #[trigger] whole@[index] == self.part_value(parts@, index),
            decreases chunk_count - k,
        {
            let indices = self.cell_indices(k);
            let part = &parts[k];
            if part.len() != indices.len() {
                return None;
            }
            proof {
                self.lemma_chunk_in_grid(k as int);
                lemma_box_indices(grid, self.chunk_spec(k as int));
            }
            let ghost before = whole@;
            let mut j: usize = 0;
            while j < indices.len()
                invariant
                    j <= indices@.len(),
                    k < chunk_count,
                    chunk_count == self.count(),
                    self.wf(),
                    grid == self.grid(),
                    indices@ == self.chunk_indices(k as int),
                    indices@.no_duplicates(),
                    forall|t: int| 0 <= t < indices@.len() ==> (#[trigger] indices@[t]) < grid.cell_count(),
                    part@ == parts@[k as int]@,
                    part@.len() == indices@.len(),
                    whole@.len() == grid.cell_count(),
                    forall|t: int| 0 <= t < j ==> whole@[(#[trigger] indices@[t]) as int] == part@[t],
                    forall|index: int|
                        0 <= index < grid.cell_count() && !indices@.contains(index as usize)
                            ==> #[trigger] whole@[index] == before[index],
                decreases indices@.len() - j,
            {
                let ghost so_far = whole@;
                whole.set(indices[j], part[j]);
                proof {
                    assert forall|t: int| 0 <= t < j + 1 implies whole@[(
                    #[trigger] indices@[t]) as int] == part@[t] by {
                        if t < j {
                            assert(indices@[t] != indices@[j as int]);
                            assert(so_far[indices@[t] as int] == part@[t]);
                        }
                    }
                }
                j = j + 1;
            }
            proof {
                assert forall|index: int|
                    0 <= index < grid.cell_count() && self.chunk_of(grid.cell_of(index)) < k
                        + 1 implies #[trigger] whole@[index] == self.part_value(parts@, index) by {
                    self.lemma_place_in_chunk(index);
                    self.lemma_chunks_share_out_cells(index);
                    let home = self.chunk_of(grid.cell_of(index));
                    if home == k {
                        let place = self.chunk_spec(home).rank(grid.cell_of(index));
                        assert(indices@[place] == index);
                    } else {
                        if indices@.contains(index as usize) {
                            assert(self.chunk_indices(k as int).contains(index as usize));
                        }
                        assert(whole@[index] == before[index]);
                    }
                }
            }
            k = k + 1;
        }
        proof {
            assert forall|index: int| 0 <= index < grid.cell_count() implies #[trigger] whole@[index]
                == self.part_value(parts@, index) by {
                self.lemma_place_in_chunk(index);
            }
        }
        Some(whole)
    }
}

} // verus!

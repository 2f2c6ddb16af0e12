use vstd::prelude::*;
use crate::chunk::{box_indices, indices_in, ChunkLayout};
use crate::codec::{decode_chunk, decode_chunk_spec, encode_chunk, encode_chunk_spec, lemma_chunk_round_trip};
use crate::grid::{Cell, CellBox, Grid};
use crate::material::Material;
use crate::volume::{
    ceil_cells, ceil_div, clamp_to_cell, floor_cells, floor_div, CellCursor, CellIterator,
};

verus! {

/// The most materials that one world can hold: a cell names its material in one byte.
pub const MAX_MATERIALS: usize = 256;

/// Possible errors when operating on sim states
#[derive(Debug, Clone, Copy, PartialEq, Eq, Structural)]
pub enum SimStateOppError {
    /// Missmatch between sizes of a simulation state and a simulaton world
    StateSizeMissmatch,
}

/// Reasons for which a world cannot be built
#[derive(Debug, Clone, Copy, PartialEq, Eq, Structural)]
pub enum SimWorldBuildError {
    /// The voxel resolution is zero or negative
    InvalidResolution,
    /// The chunk edge is zero
    InvalidChunkSize,
    /// More than 256 distinct materials, the blank one included, are painted
    TooManyMaterials,
    /// The world has more cells than can be indexed
    WorldTooLarge,
}

/// Represents the distribution of thermal energy in a simulation world at a given state in time
///
/// Has little meaning on it's own, is only usefull in the context of a [SimWorld]: it holds
/// one energy for each cell of the world, in the row-major order of the cells. The type of
/// an energy is the caller's, and so is the arithmetic on energies.
#[derive(Debug, PartialEq)]
pub struct SimState<E> {
    energies: Vec<E>,
}

impl<E> View for SimState<E> {
    type V = Seq<E>;

    closed spec fn view(&self) -> Seq<E> {
        self.energies@
    }
}

/// Whether `after` is `before` with the deltas added: each cell that has a delta holds
/// what `plus` gives for its energy and its delta, and each other cell has kept its energy.
pub open spec fn applied<E, A: Fn(E, E) -> E>(
    plus: A,
    before: Seq<E>,
    deltas: Seq<E>,
    after: Seq<E>,
) -> bool {
    &&& after.len() == before.len()
    &&& forall|i: int|
        0 <= i < before.len() ==> if i < deltas.len() {
            call_ensures(plus, (before[i], deltas[i]), #[trigger] after[i])
        } else {
            after[i] == before[i]
        }
}

impl<E: Copy> SimState<E> {
    /// A state that holds the given energies, one for each cell
    pub fn new(energies: Vec<E>) -> (state: Self)
        ensures
            state@ == energies@,
    {
        SimState { energies }
    }

    /// Gets a non-mutable buffer of the energy of each cell
    pub fn get_energies(&self) -> (energies: &[E])
        ensures
            energies@ == self@,
    {
        self.energies.as_slice()
    }

    /// Gets the energy of the cell with the given index
    pub fn get_energy(&self, index: usize) -> (energy: E)
        requires
            index < self@.len(),
        ensures
            energy == self@[index as int],
    {
        self.energies[index]
    }

    /// The number of cells that the state holds an energy for
    pub fn len(&self) -> (len: usize)
        ensures
            len == self@.len(),
    {
        self.energies.len()
    }

    /// Adds a change of energy to each cell. Changes beyond the last cell are dropped, and
    /// cells beyond the last change stay as they are
    pub fn apply_deltas<A: Fn(E, E) -> E>(self, deltas: &Vec<E>, plus: &A) -> (next: Self)
        requires
            forall|energy: E, delta: E| call_requires(*plus, (energy, delta)),
        ensures
            applied(*plus, self@, deltas@, next@),
    {
        let ghost before = self@;
        let mut energies = self.energies;
        let mut i: usize = 0;
        while i < energies.len() && i < deltas.len()
            invariant
                forall|energy: E, delta: E| call_requires(*plus, (energy, delta)),
                energies@.len() == before.len(),
                i <= energies@.len(),
                i <= deltas@.len(),
                forall|k: int|
                    0 <= k < before.len() ==> if k < i {
                        call_ensures(*plus, (before[k], deltas@[k]), #[trigger] energies@[k])
                    } else {
                        energies@[k] == before[k]
                    },
            decreases energies@.len() - i,
        {
            let sum = plus(energies[i], deltas[i]);
            energies.set(i, sum);
            i = i + 1;
        }
        SimState { energies }
    }
}

impl<E: Copy> Clone for SimState<E> {
    /// A state with the same energies.
    fn clone(&self) -> (copy: Self)
        ensures
            copy@ == self@,
    {
        let mut energies: Vec<E> = Vec::new();
        let mut i: usize = 0;
        while i < self.energies.len()
            invariant
                i <= self.energies@.len(),
                energies@ == self.energies@.take(i as int),
            decreases self.energies@.len() - i,
        {
            energies.push(self.energies[i]);
            assert(self.energies@.take(i + 1) =~= self.energies@.take(i as int).push(
                self.energies@[i as int],
            ));
            i = i + 1;
        }
        assert(self.energies@.take(i as int) =~= self.energies@);
        SimState { energies }
    }
}

/// Represents a world in which a simulation can be run
#[derive(Debug, PartialEq, Eq)]
pub struct SimWorld {
    // The dimensions of the simulation world, in cells
    grid: Grid,
    // The side length of cells
    cell_size: i64,
    // The side length of chunks, in cells
    chunk_size: usize,
    // A list of all materials present in the simulation world
    material_map: Vec<Material>,
    // A map of all materials in the world, indexing into the material_map
    materials: Vec<u8>,
}

impl SimWorld {
    #[verifier::type_invariant]
    spec fn inv(self) -> bool {
        self.wf()
    }

    /// The dimensions of the world, in cells.
    pub closed spec fn grid(self) -> Grid {
        self.grid
    }

    /// The side length of a cell.
    pub closed spec fn cell_size(self) -> i64 {
        self.cell_size
    }

    /// The side length of a chunk, in cells.
    pub closed spec fn chunk_size(self) -> usize {
        self.chunk_size
    }

    /// The distinct materials of the world.
    pub closed spec fn material_map(self) -> Seq<Material> {
        self.material_map@
    }

    /// For each cell, in row-major order, the place of its material in the material map.
    pub closed spec fn materials(self) -> Seq<u8> {
        self.materials@
    }

    /// What holds of every world: each cell names a material of the map, the map is
    /// not empty, starts with the blank material, holds at most 256 materials and none
    /// of them twice, and the sizes of cells and chunks are positive.
    pub open spec fn wf(self) -> bool {
        &&& self.grid().addressable()
        &&& self.materials().len() == self.grid().cell_count()
        &&& 1 <= self.material_map().len() <= MAX_MATERIALS
        &&& self.material_map()[0] == Material::blank_spec()
        &&& self.material_map().no_duplicates()
        &&& forall|i: int|
            0 <= i < self.materials().len() ==> (#[trigger] self.materials()[i])
                < self.material_map().len()
        &&& self.cell_size() > 0
        &&& self.chunk_size() > 0
    }

    /// The material of the cell with index `index`.
    pub open spec fn index_material(self, index: int) -> Material {
        self.material_map()[self.materials()[index] as int]
    }

    /// The material of a cell of the world.
    pub open spec fn material_at(self, cell: Cell) -> Material {
        self.index_material(self.grid().cell_index(cell))
    }

    /// The material at a position in cell coordinates, `None` outside the world.
    pub open spec fn voxel_material(self, x: int, y: int, z: int) -> Option<Material> {
        if self.grid().contains(x, y, z) {
            Some(self.material_at((x as usize, y as usize, z as usize)))
        } else {
            None
        }
    }

    /// The index of the cell that holds a point given in world units,
    /// `floor(coordinate / cell_size)` on each axis; `None` outside the world.
    pub open spec fn sampled_index(self, x: i64, y: i64, z: i64) -> Option<usize> {
        self.grid().pos_index(
            floor_div(x as int, self.cell_size() as int),
            floor_div(y as int, self.cell_size() as int),
            floor_div(z as int, self.cell_size() as int),
        )
    }

    /// The material of the cell that holds a point given in world units; `None` outside
    /// the world.
    pub open spec fn sampled_material(self, x: i64, y: i64, z: i64) -> Option<Material> {
        match self.sampled_index(x, y, z) {
            Some(index) => Some(self.index_material(index as int)),
            None => None,
        }
    }

    /// The partition of the world into its chunks.
    pub open spec fn layout(self) -> ChunkLayout {
        ChunkLayout::of(self.grid(), self.chunk_size())
    }

    /// The material indices of the cells of a box, in the row-major order of the box.
    pub open spec fn cell_buffer(self, cells: CellBox) -> Seq<u8> {
        Seq::new(
            cells.cells().len(),
            |k: int| self.materials()[self.grid().cell_index(cells.cells()[k])],
        )
    }

    /// The stored form of chunk number `k`: the run-length code of its cell buffer, as
    /// printable text.
    pub open spec fn stored_chunk(self, k: int) -> Seq<u8> {
        encode_chunk_spec(self.cell_buffer(self.layout().chunk_spec(k)))
    }

    /// Get the dimensions of the world
    pub fn get_grid(&self) -> (grid: Grid)
        ensures
            grid == self.grid(),
            grid.addressable(),
    {
        proof {
            use_type_invariant(self);
        }
        self.grid
    }

    /// Get the x dimension of the world
    pub fn get_x_size(&self) -> (size: usize)
        ensures
            size == self.grid().x_size,
    {
        self.grid.x_size
    }

    /// Get the y dimension of the world
    pub fn get_y_size(&self) -> (size: usize)
        ensures
            size == self.grid().y_size,
    {
        self.grid.y_size
    }

    /// Get the z dimension of the world
    pub fn get_z_size(&self) -> (size: usize)
        ensures
            size == self.grid().z_size,
    {
        self.grid.z_size
    }

    /// Get the number of cells of the world
    pub fn get_cell_count(&self) -> (count: usize)
        ensures
            count == self.grid().cell_count(),
            count == self.materials().len(),
    {
        proof {
            use_type_invariant(self);
        }
        self.materials.len()
    }

    /// Get the side length of cells
    pub fn get_cell_length(&self) -> (length: i64)
        ensures
            length == self.cell_size(),
            length > 0,
    {
        proof {
            use_type_invariant(self);
        }
        self.cell_size
    }

    /// Get the side length of chunks, in cells
    pub fn get_chunk_size(&self) -> (size: usize)
        ensures
            size == self.chunk_size(),
            size > 0,
    {
        proof {
            use_type_invariant(self);
        }
        self.chunk_size
    }

    /// Gets a non-mutable buffer representing the world cell materials
    pub fn get_materials(&self) -> (buffer: &[u8])
        ensures
            buffer@ == self.materials(),
    {
        self.materials.as_slice()
    }

    /// Gets a non-mutable buffer representing the material map
    pub fn get_material_map(&self) -> (map: &[Material])
        ensures
            map@ == self.material_map(),
    {
        self.material_map.as_slice()
    }

    /// Gets the index of a cell position, returns None if out of bounds
    pub fn get_pos_index(&self, x: usize, y: usize, z: usize) -> (index: Option<usize>)
        ensures
            index == self.grid().pos_index(x as int, y as int, z as int),
    {
        proof {
            use_type_invariant(self);
        }
        self.grid.get_pos_index(x, y, z)
    }

    /// Gets the cell position of an index, returns None if out of bounds
    pub fn get_index_pos(&self, index: usize) -> (cell: Option<Cell>)
        ensures
            cell == if index < self.grid().cell_count() {
                Some(self.grid().cell_of(index as int))
            } else {
                None
            },
    {
        proof {
            use_type_invariant(self);
        }
        self.grid.get_index_pos(index)
    }

    /// Gets the index of a position in signed coordinates, returns None if out of bounds
    pub fn get_ipos_index(&self, x: i128, y: i128, z: i128) -> (index: Option<usize>)
        ensures
            index == self.grid().pos_index(x as int, y as int, z as int),
    {
        proof {
            use_type_invariant(self);
        }
        self.grid.get_ipos_index(x, y, z)
    }

    /// Lists the indices of the neighbors of a cell that lie in the world: the cells
    /// that it exchanges heat with in one step
    pub fn neighbor_indices(&self, x: usize, y: usize, z: usize) -> (indices: Vec<usize>)
        ensures
            indices@ == self.grid().neighbors((x, y, z)),
            forall|j: int|
                0 <= j < indices@.len() ==> (#[trigger] indices@[j]) < self.grid().cell_count(),
    {
        proof {
            use_type_invariant(self);
        }
        self.grid.neighbor_indices(x, y, z)
    }

    /// Gets the index of the voxel that holds the given point, returns None if given point
    /// is out of bounds
    pub fn sample_index(&self, x: i64, y: i64, z: i64) -> (index: Option<usize>)
        ensures
            index == self.sampled_index(x, y, z),
    {
        proof {
            use_type_invariant(self);
            lemma_floor_div_negative(x as int, self.cell_size as int);
            lemma_floor_div_negative(y as int, self.cell_size as int);
            lemma_floor_div_negative(z as int, self.cell_size as int);
        }
        if x < 0 || y < 0 || z < 0 {
            return None;
        }
        self.grid.get_pos_index(
            floor_cells(x, self.cell_size),
            floor_cells(y, self.cell_size),
            floor_cells(z, self.cell_size),
        )
    }

    /// Samples the material stats at the voxel that holds the given point, returns None if
    /// given point is out of bounds
    pub fn sample_material(&self, x: i64, y: i64, z: i64) -> (material: Option<&Material>)
        ensures
            match material {
                Some(m) => self.sampled_material(x, y, z) == Some(*m),
                None => self.sampled_material(x, y, z).is_none(),
            },
    {
        proof {
            use_type_invariant(self);
        }
        match self.sample_index(x, y, z) {
            Some(index) => {
                proof {
                    let cs = self.cell_size as int;
                    self.grid.lemma_index_in_range(
                        floor_div(x as int, cs),
                        floor_div(y as int, cs),
                        floor_div(z as int, cs),
                    );
                }
                Some(self.get_index_material(index))
            },
            None => None,
        }
    }

    /// Get the material value at a given voxel. Returns none if voxel is out of bounds.
    pub fn get_voxel_material(&self, x: usize, y: usize, z: usize) -> (material: Option<&Material>)
        ensures
            match material {
                Some(m) => self.voxel_material(x as int, y as int, z as int) == Some(*m),
                None => self.voxel_material(x as int, y as int, z as int).is_none(),
            },
    {
        proof {
            use_type_invariant(self);
        }
        let world_ind = match self.grid.get_pos_index(x, y, z) {
            Some(i) => i,
            None => {
                return None;
            },
        };
        proof {
            self.grid.lemma_cell_index((x, y, z));
        }
        let world_value = self.materials[world_ind] as usize;
        Some(&self.material_map[world_value])
    }

    /// Get the material of the cell with the given index
    pub fn get_index_material(&self, index: usize) -> (material: &Material)
        requires
            index < self.grid().cell_count(),
        ensures
            *material == self.index_material(index as int),
    {
        proof {
            use_type_invariant(self);
        }
        &self.material_map[self.materials[index] as usize]
    }

    /// Whether a simulation state is a state of this world: one energy for each cell
    pub fn is_state_valid<E: Copy>(&self, sim_state: &SimState<E>) -> (valid: bool)
        ensures
            valid == (sim_state@.len() == self.grid().cell_count()),
    {
        proof {
            use_type_invariant(self);
        }
        sim_state.len() == self.materials.len()
    }

    /// Gets a simulation state with no thermal energy: `zero` in every cell.
    pub fn get_blank_sim_state<E: Copy>(&self, zero: E) -> (state: SimState<E>)
        ensures
            state@.len() == self.grid().cell_count(),
            forall|i: int| 0 <= i < state@.len() ==> state@[i] == zero,
    {
        proof {
            use_type_invariant(self);
        }
        let count = self.materials.len();
        let mut energies: Vec<E> = Vec::new();
        let mut i: usize = 0;
        while i < count
            invariant
                i <= count,
                energies@.len() == i,
                forall|k: int| 0 <= k < i ==> energies@[k] == zero,
            decreases count - i,
        {
            energies.push(zero);
            i = i + 1;
        }
        SimState { energies }
    }

    /// Sets the temperature of a simulation state within a brush. Fails if state has a differnet
    ///  bounds size
    ///
    /// `energy_of` gives the energy that a cell of a material holds at a temperature. Every
    /// cell that the brush covers and that lies in bounds gets the energy of its own
    /// material; the other cells keep theirs.
    pub fn set_sim_state_temperature<E: Copy, T: Copy, V: CellIterator, F: Fn(T, Material) -> E>(
        &self,
        sim_state: SimState<E>,
        temperature: T,
        brush: &V,
        energy_of: &F,
    ) -> (result: Result<SimState<E>, SimStateOppError>)
        requires
            forall|material: Material| call_requires(*energy_of, (temperature, material)),
        ensures
            match result {
                Ok(state) => {
                    &&& sim_state@.len() == self.grid().cell_count()
                    &&& state@.len() == sim_state@.len()
                    &&& forall|i: int|
                        0 <= i < state@.len() ==> if brush.cells(self.cell_size()).contains(
                            self.grid().cell_of(i),
                        ) {
                            call_ensures(
                                *energy_of,
                                (temperature, self.index_material(i)),
                                #[trigger] state@[i],
                            )
                        } else {
                            state@[i] == sim_state@[i]
                        }
                },
                Err(error) => sim_state@.len() != self.grid().cell_count() && error
                    == SimStateOppError::StateSizeMissmatch,
            },
    {
        proof {
            use_type_invariant(self);
        }
        if sim_state.len() != self.materials.len() {
            return Err(SimStateOppError::StateSizeMissmatch);
        }
        let ghost grid = self.grid;
        let ghost before = sim_state@;
        let ghost walk = brush.cells(self.cell_size);
        let mut energies = sim_state.energies;
        let mut cursor = brush.cell_iter(self.cell_size);
        let ghost mut seen: int = 0;
        proof {
            assert(walk.skip(0) =~= walk);
            assert(walk.take(0) =~= Seq::<Cell>::empty());
        }
        loop
            invariant_except_break
                cursor.remaining() == walk.skip(seen),
            invariant
                0 <= seen <= walk.len(),
                grid == self.grid,
                self.wf(),
                forall|material: Material| call_requires(*energy_of, (temperature, material)),
                energies@.len() == before.len(),
                before.len() == grid.cell_count(),
                forall|i: int|
                    0 <= i < energies@.len() ==> if walk.take(seen).contains(grid.cell_of(i)) {
                        call_ensures(
                            *energy_of,
                            (temperature, self.index_material(i)),
                            #[trigger] energies@[i],
                        )
                    } else {
                        energies@[i] == before[i]
                    },
            ensures
                seen == walk.len(),
            decreases walk.len() - seen,
        {
            match cursor.next() {
                None => {
                    break ;
                },
                Some(cell) => {
                    assert(cell == walk[seen]);
                    let ghost so_far = energies@;
                    match self.grid.get_pos_index(cell.0, cell.1, cell.2) {
                        Some(index) => {
                            proof {
                                grid.lemma_cell_index(cell);
                            }
                            let energy = energy_of(temperature, *self.get_index_material(index));
                            energies.set(index, energy);
                        },
                        None => {},
                    }
                    proof {
                        assert forall|i: int| 0 <= i < energies@.len() implies if walk.take(
                            seen + 1,
                        ).contains(grid.cell_of(i)) {
                            call_ensures(
                                *energy_of,
                                (temperature, self.index_material(i)),
                                #[trigger] energies@[i],
                            )
                        } else {
                            energies@[i] == before[i]
                        } by {
                            lemma_take_step(walk, seen, grid.cell_of(i));
                            grid.lemma_cell_of(i);
                            if grid.holds(cell) {
                                grid.lemma_cell_index(cell);
                            }
                        }
                        assert(walk.skip(seen).skip(1) =~= walk.skip(seen + 1));
                        seen = seen + 1;
                    }
                },
            }
        }
        proof {
            assert(walk.take(seen) =~= walk);
        }
        Ok(SimState { energies })
    }

    /// Samples the temperature of a given voxel. Returns None if given position is out of bounds
    /// or simulation state is of the wrong size
    ///
    /// `temperature_of` gives the temperature of a cell from its energy and its material.
    pub fn sample_voxel_temperature<E: Copy, T, F: Fn(E, Material) -> T>(
        &self,
        sim_state: &SimState<E>,
        x: usize,
        y: usize,
        z: usize,
        temperature_of: &F,
    ) -> (sample: Option<T>)
        requires
            forall|energy: E, material: Material| call_requires(*temperature_of, (energy, material)),
        ensures
            match sample {
                Some(temperature) => {
                    &&& sim_state@.len() == self.grid().cell_count()
                    &&& self.grid().contains(x as int, y as int, z as int)
                    &&& call_ensures(
                        *temperature_of,
                        (
                            sim_state@[self.grid().index_of(x as int, y as int, z as int)],
                            self.material_at((x, y, z)),
                        ),
                        temperature,
                    )
                },
                None => sim_state@.len() != self.grid().cell_count() || !self.grid().contains(
                    x as int,
                    y as int,
                    z as int,
                ),
            },
    {
        proof {
            use_type_invariant(self);
        }
        if sim_state.len() != self.materials.len() {
            return None;
        }
        match self.grid.get_pos_index(x, y, z) {
            Some(index) => {
                proof {
                    self.grid.lemma_cell_index((x, y, z));
                }
                let cell_energy = sim_state.get_energy(index);
                Some(temperature_of(cell_energy, *self.get_index_material(index)))
            },
            None => None,
        }
    }

    /// Gets the material indices of the cells of a box inside the world, in the
    /// row-major order of the box
    pub fn get_cell_buffer(&self, cells: &CellBox) -> (buffer: Vec<u8>)
        requires
            cells.wf(),
            forall|cell: Cell| #[trigger] cells.contains(cell) ==> self.grid().holds(cell),
        ensures
            buffer@ == self.cell_buffer(*cells),
    {
        proof {
            use_type_invariant(self);
            crate::chunk::lemma_box_indices(self.grid, *cells);
        }
        let indices = indices_in(&self.grid, cells);
        let mut buffer: Vec<u8> = Vec::new();
        let mut k: usize = 0;
        proof {
            assert forall|t: int| 0 <= t < indices@.len() implies (#[trigger] indices@[t])
                < self.grid.cell_count() && indices@[t] == self.grid.cell_index(
                cells.cells()[t],
            ) by {
                cells.lemma_cell_at(t);
                self.grid.lemma_cell_index(cells.cells()[t]);
            }
        }
        while k < indices.len()
            invariant
                k <= indices@.len(),
                indices@.len() == cells.cells().len(),
                self.materials@.len() == self.grid.cell_count(),
                forall|t: int|
                    0 <= t < indices@.len() ==> (#[trigger] indices@[t]) < self.grid.cell_count()
                        && indices@[t] == self.grid.cell_index(cells.cells()[t]),
                buffer@.len() == k,
                forall|t: int| 0 <= t < k ==> (#[trigger] buffer@[t]) == self.materials@[indices@[t] as int],
            decreases indices@.len() - k,
        {
            buffer.push(self.materials[indices[k]]);
            k = k + 1;
        }
        assert(buffer@ =~= self.cell_buffer(*cells));
        buffer
    }

    /// Compacts the world chunk by chunk: for each chunk, in the order of the chunk
    /// layout, the run-length code of its cell buffer as printable text
    pub fn encode_chunks(&self) -> (chunks: Vec<Vec<u8>>)
        ensures
            chunks@.len() == self.layout().count(),
            forall|k: int|
                0 <= k < chunks@.len() ==> (#[trigger] chunks@[k])@ == self.stored_chunk(k)
                    && decode_chunk_spec(chunks@[k]@) == Some(
                    self.cell_buffer(self.layout().chunk_spec(k)),
                ),
    {
        proof {
            use_type_invariant(self);
        }
        let layout = ChunkLayout::new(self.grid, self.chunk_size).unwrap();
        let count = layout.len();
        let mut chunks: Vec<Vec<u8>> = Vec::new();
        let mut k: usize = 0;
        while k < count
            invariant
                k <= count,
                count == layout.count(),
                layout == self.layout(),
                layout.wf(),
                layout.grid() == self.grid(),
                chunks@.len() == k,
                forall|t: int|
                    0 <= t < k ==> (#[trigger] chunks@[t])@ == self.stored_chunk(t)
                        && decode_chunk_spec(chunks@[t]@) == Some(
                        self.cell_buffer(self.layout().chunk_spec(t)),
                    ),
            decreases count - k,
        {
            proof {
                layout.lemma_chunk_in_grid(k as int);
            }
            let cells = layout.chunk(k);
            let buffer = self.get_cell_buffer(&cells);
            chunks.push(encode_chunk(buffer.as_slice()));
            k = k + 1;
        }
        chunks
    }
}

/// Whether `text` is the stored form of a cell buffer for the box `cells` in a world of
/// `materials` materials: it decodes to one material index for each cell of the box.
pub open spec fn chunk_loadable(cells: CellBox, materials: nat, text: Seq<u8>) -> bool {
    match decode_chunk_spec(text) {
        Some(buffer) => buffer.len() == cells.cell_count() && forall|j: int|
            0 <= j < buffer.len() ==> (#[trigger] buffer[j]) < materials,
        None => false,
    }
}

/// Whether a world can be put together from these parts: the sizes of cells and chunks
/// are positive, the grid can be indexed, the material map is one that a world can have,
/// and there is one stored chunk for each chunk of the grid, each of them the stored form
/// of a cell buffer for its chunk.
pub open spec fn loadable(
    grid: Grid,
    cell_size: i64,
    chunk_size: usize,
    material_map: Seq<Material>,
    chunks: Seq<Seq<u8>>,
) -> bool {
    &&& cell_size > 0
    &&& chunk_size > 0
    &&& grid.addressable()
    &&& 1 <= material_map.len() <= MAX_MATERIALS
    &&& material_map[0] == Material::blank_spec()
    &&& material_map.no_duplicates()
    &&& chunks.len() == ChunkLayout::of(grid, chunk_size).count()
    &&& forall|k: int|
        0 <= k < chunks.len() ==> chunk_loadable(
            ChunkLayout::of(grid, chunk_size).chunk_spec(k),
            material_map.len(),
            #[trigger] chunks[k],
        )
}

/// The texts of stored chunks.
pub open spec fn chunk_texts(chunks: Seq<Vec<u8>>) -> Seq<Seq<u8>> {
    Seq::new(chunks.len(), |k: int| chunks[k]@)
}

/// The stored chunks of a world can be put together again, and a world that is put
/// together from them has the cells of the world that was stored.
pub proof fn lemma_stored_world_loads_back(stored: SimWorld, loaded: SimWorld)
    requires
        stored.wf(),
        loaded.wf(),
        loaded.grid() == stored.grid(),
        loaded.chunk_size() == stored.chunk_size(),
        forall|k: int|
            0 <= k < stored.layout().count() ==> decode_chunk_spec(#[trigger] stored.stored_chunk(k))
                == Some(loaded.cell_buffer(stored.layout().chunk_spec(k))),
    ensures
        loadable(
            stored.grid(),
            stored.cell_size(),
            stored.chunk_size(),
            stored.material_map(),
            Seq::new(stored.layout().count() as nat, |k: int| stored.stored_chunk(k)),
        ),
        loaded.materials() == stored.materials(),
{
    let layout = stored.layout();
    let grid = stored.grid();
    ChunkLayout::lemma_of(grid, stored.chunk_size());
    layout.lemma_count_bound();
    let texts = Seq::new(layout.count() as nat, |k: int| stored.stored_chunk(k));
    assert forall|k: int| 0 <= k < texts.len() implies chunk_loadable(
        layout.chunk_spec(k),
        stored.material_map().len(),
        #[trigger] texts[k],
    ) by {
        let cells = layout.chunk_spec(k);
        let buffer = stored.cell_buffer(cells);
        lemma_chunk_round_trip(buffer);
        layout.lemma_chunk_in_grid(k);
        assert forall|j: int| 0 <= j < buffer.len() implies (#[trigger] buffer[j])
            < stored.material_map().len() by {
            cells.lemma_cell_at(j);
            grid.lemma_cell_index(cells.cells()[j]);
        }
    }
    assert forall|i: int| 0 <= i < stored.materials().len() implies loaded.materials()[i]
        == stored.materials()[i] by {
        layout.lemma_place_in_chunk(i);
        let cell = grid.cell_of(i);
        let home = layout.chunk_of(cell);
        let place = layout.chunk_spec(home).rank(cell);
        let cells = layout.chunk_spec(home);
        layout.lemma_chunk_in_grid(home);
        lemma_chunk_round_trip(stored.cell_buffer(cells));
        assert(decode_chunk_spec(stored.stored_chunk(home)) == Some(loaded.cell_buffer(cells)));
        assert(loaded.cell_buffer(cells) == stored.cell_buffer(cells));
        grid.lemma_cell_of(i);
        layout.lemma_partition(cell);
        cells.lemma_rank(cell);
        assert(loaded.cell_buffer(cells)[place] == loaded.materials()[i]);
        assert(stored.cell_buffer(cells)[place] == stored.materials()[i]);
    }
    assert(loaded.materials() =~= stored.materials());
}

fn all_distinct(materials: &Vec<Material>) -> (distinct: bool)
    ensures
        distinct == materials@.no_duplicates(),
{
    let mut i: usize = 0;
    while i < materials.len()
        invariant
            i <= materials@.len(),
            forall|a: int, b: int| 0 <= a < b < i ==> materials@[a] != materials@[b],
        decreases materials@.len() - i,
    {
        let mut j: usize = 0;
        while j < i
            invariant
                j <= i,
                i < materials@.len(),
                forall|a: int| 0 <= a < j ==> materials@[a] != materials@[i as int],
            decreases i - j,
        {
            if materials[j].same_as(&materials[i]) {
                return false;
            }
            j = j + 1;
        }
        i = i + 1;
    }
    true
}

fn all_below(buffer: &Vec<u8>, bound: usize) -> (below: bool)
    ensures
        below == forall|j: int| 0 <= j < buffer@.len() ==> (#[trigger] buffer@[j]) < bound,
{
    let mut j: usize = 0;
    while j < buffer.len()
        invariant
            j <= buffer@.len(),
            forall|t: int| 0 <= t < j ==> (#[trigger] buffer@[t]) < bound,
        decreases buffer@.len() - j,
    {
        if buffer[j] as usize >= bound {
            return false;
        }
        j = j + 1;
    }
    true
}

impl SimWorld {
    /// Puts a world together from its stored parts: its dimensions, the sizes of its cells
    /// and chunks, its material map, and one stored chunk for each chunk of the grid, in
    /// the order of the chunk layout. Parts that no world has are refused.
    pub fn from_chunks(
        grid: Grid,
        cell_size: i64,
        chunk_size: usize,
        material_map: Vec<Material>,
        chunks: &Vec<Vec<u8>>,
    ) -> (loaded: Option<SimWorld>)
        ensures
            loaded.is_some() <==> loadable(
                grid,
                cell_size,
                chunk_size,
                material_map@,
                chunk_texts(chunks@),
            ),
            loaded.is_some() ==> {
                let world = loaded.unwrap();
                &&& world.wf()
                &&& world.grid() == grid
                &&& world.cell_size() == cell_size
                &&& world.chunk_size() == chunk_size
                &&& world.material_map() == material_map@
                &&& forall|k: int|
                    0 <= k < chunks@.len() ==> decode_chunk_spec((#[trigger] chunks@[k])@) == Some(
                        world.cell_buffer(world.layout().chunk_spec(k)),
                    )
            },
    {
        if cell_size <= 0 || chunk_size == 0 {
            return None;
        }
        let layout = match ChunkLayout::new(grid, chunk_size) {
            Some(layout) => layout,
            None => {
                return None;
            },
        };
        if material_map.len() == 0 || material_map.len() > MAX_MATERIALS {
            return None;
        }
        if !material_map[0].same_as(&Material::blank()) || !all_distinct(&material_map) {
            return None;
        }
        let chunk_count = layout.len();
        if chunks.len() != chunk_count {
            return None;
        }
        let ghost texts = chunk_texts(chunks@);
        let mut parts: Vec<Vec<u8>> = Vec::new();
        let mut k: usize = 0;
        while k < chunk_count
            invariant
                k <= chunk_count,
                chunk_count == layout.count(),
                chunks@.len() == chunk_count,
                layout.wf(),
                layout == ChunkLayout::of(grid, chunk_size),
                layout.grid() == grid,
                texts == chunk_texts(chunks@),
                parts@.len() == k,
                forall|t: int|
                    0 <= t < k ==> chunk_loadable(
                        layout.chunk_spec(t),
                        material_map@.len(),
                        #[trigger] texts[t],
                    ) && decode_chunk_spec(texts[t]) == Some(parts@[t]@),
            decreases chunk_count - k,
        {
            let cells = layout.chunk(k);
            proof {
                layout.lemma_chunk_in_grid(k as int);
                assert(cells.contains(cells.max));
                assert(texts[k as int] == chunks@[k as int]@);
            }
            let size = Grid {
                x_size: cells.max.0 - cells.min.0 + 1,
                y_size: cells.max.1 - cells.min.1 + 1,
                z_size: cells.max.2 - cells.min.2 + 1,
            };
            let buffer = match decode_chunk(chunks[k].as_slice()) {
                Some(buffer) => buffer,
                None => {
                    assert(!chunk_loadable(layout.chunk_spec(k as int), material_map@.len(), texts[k as int]));
                    return None;
                },
            };
            let fits = match size.checked_cell_count() {
                Some(count) => buffer.len() == count,
                None => false,
            };
            if !fits || !all_below(&buffer, material_map.len()) {
                assert(!chunk_loadable(layout.chunk_spec(k as int), material_map@.len(), texts[k as int]));
                return None;
            }
            parts.push(buffer);
            k = k + 1;
        }
        proof {
            assert forall|t: int| 0 <= t < parts@.len() implies (#[trigger] parts@[t])@.len()
                == layout.chunk_indices(t).len() by {
                assert(chunk_loadable(layout.chunk_spec(t), material_map@.len(), texts[t]));
            }
        }
        let materials = layout.gather(&parts, 0).unwrap();
        proof {
            assert forall|i: int| 0 <= i < materials@.len() implies (#[trigger] materials@[i])
                < material_map@.len() by {
                layout.lemma_place_in_chunk(i);
                let home = layout.chunk_of(grid.cell_of(i));
                assert(chunk_loadable(layout.chunk_spec(home), material_map@.len(), texts[home]));
            }
        }
        let world = SimWorld { grid, cell_size, chunk_size, material_map, materials };
        proof {
            assert forall|t: int| 0 <= t < chunks@.len() implies decode_chunk_spec(
                (#[trigger] chunks@[t])@,
            ) == Some(world.cell_buffer(world.layout().chunk_spec(t))) by {
                let cells = layout.chunk_spec(t);
                let buffer = world.cell_buffer(cells);
                layout.lemma_chunk_in_grid(t);
                assert(decode_chunk_spec(texts[t]) == Some(parts@[t]@));
                assert forall|j: int| 0 <= j < buffer.len() implies buffer[j] == parts@[t]@[j] by {
                    cells.lemma_cell_at(j);
                    let cell = cells.cells()[j];
                    grid.lemma_cell_index(cell);
                    layout.lemma_partition(cell);
                    layout.lemma_place_in_chunk(grid.cell_index(cell));
                }
                assert(buffer =~= parts@[t]@);
            }
        }
        Some(world)
    }
}

impl Clone for SimWorld {
    /// A world with the same dimensions, materials and cells.
    fn clone(&self) -> (copy: Self)
        ensures
            copy.grid() == self.grid(),
            copy.cell_size() == self.cell_size(),
            copy.chunk_size() == self.chunk_size(),
            copy.material_map() == self.material_map(),
            copy.materials() == self.materials(),
    {
        proof {
            use_type_invariant(self);
        }
        let material_map = self.material_map.clone();
        let materials = self.materials.clone();
        assert(material_map@ =~= self.material_map@);
        assert(materials@ =~= self.materials@);
        SimWorld {
            grid: self.grid,
            cell_size: self.cell_size,
            chunk_size: self.chunk_size,
            material_map,
            materials,
        }
    }
}

/// A negative coordinate lies in a cell with a negative coordinate.
proof fn lemma_floor_div_negative(a: int, b: int)
    requires
        0 < b,
    ensures
        a < 0 ==> floor_div(a, b) < 0,
{
    vstd::arithmetic::div_mod::lemma_fundamental_div_mod(a, b);
    vstd::arithmetic::div_mod::lemma_mod_bound(a, b);
    let q = a / b;
    let r = a % b;
    assert(a < 0 ==> q < 0) by (nonlinear_arith)
        requires
            a == b * q + r,
            0 <= r < b,
            0 < b,
    ;
}

/// The distinct materials among `painted` in the order in which they first occur,
/// after the blank material, which always comes first.
pub open spec fn material_table(painted: Seq<Material>) -> Seq<Material>
    decreases painted.len(),
{
    if painted.len() == 0 {
        seq![Material::blank_spec()]
    } else {
        let table = material_table(painted.drop_last());
        if table.contains(painted.last()) {
            table
        } else {
            table.push(painted.last())
        }
    }
}

/// The material that the first `n` paint operations leave in `cell`: that of the last of
/// them that covers the cell, the blank material if none does.
pub open spec fn painted_upto<V: CellIterator>(
    operations: Seq<(Material, V)>,
    cell_size: i64,
    cell: Cell,
    n: int,
) -> Material
    decreases n,
{
    if n <= 0 {
        Material::blank_spec()
    } else if operations[n - 1].1.cells(cell_size).contains(cell) {
        operations[n - 1].0
    } else {
        painted_upto(operations, cell_size, cell, n - 1)
    }
}

/// The material that the paint operations leave in `cell`: later operations take
/// precedence over earlier ones.
pub open spec fn painted_material<V: CellIterator>(
    operations: Seq<(Material, V)>,
    cell_size: i64,
    cell: Cell,
) -> Material {
    painted_upto(operations, cell_size, cell, operations.len() as int)
}

/// The materials of the paint operations, in order.
pub open spec fn painted_materials<V: CellIterator>(operations: Seq<(Material, V)>) -> Seq<
    Material,
> {
    Seq::new(operations.len(), |i: int| operations[i].0)
}

/// The table starts with the blank material, holds nothing twice, and holds the blank
/// material and the painted materials and nothing else.
pub proof fn lemma_material_table(painted: Seq<Material>)
    ensures
        1 <= material_table(painted).len() <= painted.len() + 1,
        material_table(painted)[0] == Material::blank_spec(),
        material_table(painted).no_duplicates(),
        forall|i: int| 0 <= i < painted.len() ==> material_table(painted).contains(#[trigger] painted[i]),
        forall|k: int|
            0 <= k < material_table(painted).len() ==> #[trigger] material_table(painted)[k]
                == Material::blank_spec() || painted.contains(material_table(painted)[k]),
    decreases painted.len(),
{
    let table = material_table(painted);
    if painted.len() == 0 {
    } else {
        let before = material_table(painted.drop_last());
        lemma_material_table(painted.drop_last());
        assert forall|i: int| 0 <= i < painted.len() implies table.contains(#[trigger] painted[i]) by {
            if i < painted.len() - 1 {
                assert(painted.drop_last()[i] == painted[i]);
                let k = choose|k: int| 0 <= k < before.len() && before[k] == painted[i];
                assert(table[k] == painted[i]);
            } else if before.contains(painted.last()) {
            } else {
                assert(table[before.len() as int] == painted[i]);
            }
        }
        assert forall|k: int| 0 <= k < table.len() implies #[trigger] table[k]
            == Material::blank_spec() || painted.contains(table[k]) by {
            if k < before.len() {
                assert(table[k] == before[k]);
                if before[k] != Material::blank_spec() {
                    let i = choose|i: int|
                        0 <= i < painted.drop_last().len() && painted.drop_last()[i] == before[k];
                    assert(painted[i] == before[k]);
                }
            } else {
                assert(painted[painted.len() - 1] == table[k]);
            }
        }
    }
}

/// The table of the first `n` painted materials is the start of the table of all of them.
pub proof fn lemma_material_table_grows(painted: Seq<Material>, n: int)
    requires
        0 <= n <= painted.len(),
    ensures
        material_table(painted.take(n)).len() <= material_table(painted).len(),
        forall|k: int|
            0 <= k < material_table(painted.take(n)).len() ==> #[trigger] material_table(
                painted.take(n),
            )[k] == material_table(painted)[k],
    decreases painted.len() - n,
{
    if n == painted.len() {
        assert(painted.take(n) =~= painted);
    } else {
        lemma_material_table_grows(painted, n + 1);
        assert(painted.take(n + 1).drop_last() =~= painted.take(n));
        let short = material_table(painted.take(n));
        let long = material_table(painted.take(n + 1));
        assert forall|k: int| 0 <= k < short.len() implies #[trigger] short[k] == material_table(
            painted,
        )[k] by {
            assert(short[k] == long[k]);
        }
    }
}

/// Painting with materials that are equal in value gives them one entry of the material
/// map between them: the map holds that value at exactly one place.
pub proof fn lemma_equal_materials_share_entry(painted: Seq<Material>, i: int, j: int)
    requires
        0 <= i < painted.len(),
        0 <= j < painted.len(),
        painted[i] == painted[j],
    ensures
        exists|k: int|
            0 <= k < material_table(painted).len() && #[trigger] material_table(painted)[k]
                == painted[i] && forall|other: int|
                0 <= other < material_table(painted).len() && #[trigger] material_table(
                    painted,
                )[other] == painted[j] ==> other == k,
{
    lemma_material_table(painted);
    let table = material_table(painted);
    assert(table.contains(painted[i]));
    let k = choose|k: int| 0 <= k < table.len() && table[k] == painted[i];
    assert(table[k] == painted[i]);
}

/// Where paint operations overlap, the later one takes precedence: a cell holds the
/// material of the last operation that covers it.
pub proof fn lemma_last_operation_wins<V: CellIterator>(
    operations: Seq<(Material, V)>,
    cell_size: i64,
    cell: Cell,
    last: int,
)
    requires
        0 <= last < operations.len(),
        operations[last].1.cells(cell_size).contains(cell),
        forall|later: int|
            last < later < operations.len() ==> !(#[trigger] operations[later]).1.cells(
                cell_size,
            ).contains(cell),
    ensures
        painted_material(operations, cell_size, cell) == operations[last].0,
{
    lemma_painted_after(operations, cell_size, cell, last + 1, operations.len() as int);
}

/// A cell that no paint operation covers holds the blank material.
pub proof fn lemma_unpainted_is_blank<V: CellIterator>(
    operations: Seq<(Material, V)>,
    cell_size: i64,
    cell: Cell,
)
    requires
        forall|k: int|
            0 <= k < operations.len() ==> !(#[trigger] operations[k]).1.cells(cell_size).contains(
                cell,
            ),
    ensures
        painted_material(operations, cell_size, cell) == Material::blank_spec(),
{
    lemma_painted_after(operations, cell_size, cell, 0, operations.len() as int);
}

/// Operations that do not cover a cell leave in it what the operations before them left.
proof fn lemma_painted_after<V: CellIterator>(
    operations: Seq<(Material, V)>,
    cell_size: i64,
    cell: Cell,
    from: int,
    to: int,
)
    requires
        0 <= from <= to <= operations.len(),
        forall|k: int|
            from <= k < to ==> !(#[trigger] operations[k]).1.cells(cell_size).contains(cell),
    ensures
        painted_upto(operations, cell_size, cell, to) == painted_upto(
            operations,
            cell_size,
            cell,
            from,
        ),
    decreases to - from,
{
    if from < to {
        assert(!operations[to - 1].1.cells(cell_size).contains(cell));
        lemma_painted_after(operations, cell_size, cell, from, to - 1);
    }
}

/// A builder for simulation worlds
///
/// Used to create a static simulation world: records the extent of the world and a list
/// of paint operations, each a material and the brush that it is applied with. The
/// extent, the brushes and the resolution are lengths in one and the same unit.
pub struct SimWorldBuilder<V: CellIterator> {
    x_size: i64,
    y_size: i64,
    z_size: i64,
    brush_opperations: Vec<(Material, V)>,
}

/// Whether `x` is among the first `n + 1` elements is whether it is among the first `n`
/// or is the one after them.
proof fn lemma_take_step<T>(s: Seq<T>, n: int, x: T)
    requires
        0 <= n < s.len(),
    ensures
        s.take(n + 1).contains(x) <==> s.take(n).contains(x) || x == s[n],
{
    let short = s.take(n);
    let long = s.take(n + 1);
    if short.contains(x) {
        let k = choose|k: int| 0 <= k < short.len() && short[k] == x;
        assert(long[k] == x);
    }
    if x == s[n] {
        assert(long[n] == x);
    }
    if long.contains(x) {
        let k = choose|k: int| 0 <= k < long.len() && long[k] == x;
        if k < n {
            assert(short[k] == x);
        }
    }
}

/// Sets every cell that lies both in `chunk` and in `brush` to `value`, and leaves the
/// other cells as they are. A brush whose bounding box misses the chunk is not walked.
fn paint_in_chunk<V: CellIterator>(
    materials: &mut Vec<u8>,
    grid: &Grid,
    chunk: &CellBox,
    brush: &V,
    cell_size: i64,
    value: u8,
)
    requires
        cell_size > 0,
        grid.addressable(),
        old(materials)@.len() == grid.cell_count(),
        chunk.wf(),
        forall|cell: Cell| #[trigger] chunk.contains(cell) ==> grid.holds(cell),
    ensures
        final(materials)@.len() == old(materials)@.len(),
        forall|i: int|
            0 <= i < grid.cell_count() ==> #[trigger] final(materials)@[i] == if chunk.contains(
                grid.cell_of(i),
            ) && brush.cells(cell_size).contains(grid.cell_of(i)) {
                value
            } else {
                old(materials)@[i]
            },
{
    let ghost walk = brush.cells(cell_size);
    let bounds = CellBox { min: brush.get_min(cell_size), max: brush.get_max(cell_size) };
    proof {
        brush.lemma_cells_in_bounds(cell_size);
    }
    if !bounds.overlaps(chunk) {
        proof {
            assert forall|i: int| 0 <= i < grid.cell_count() implies !(chunk.contains(
                grid.cell_of(i),
            ) && walk.contains(grid.cell_of(i))) by {
                let cell = grid.cell_of(i);
                if chunk.contains(cell) && walk.contains(cell) {
                    let k = choose|k: int| 0 <= k < walk.len() && walk[k] == cell;
                    assert(bounds.contains(walk[k]));
                }
            }
        }
        return ;
    }
    let mut cursor = brush.cell_iter(cell_size);
    let ghost mut seen: int = 0;
    proof {
        assert(walk.skip(0) =~= walk);
        assert(walk.take(0) =~= Seq::<Cell>::empty());
    }
    loop
        invariant_except_break
            cursor.remaining() == walk.skip(seen),
        invariant
            walk == brush.cells(cell_size),
            0 <= seen <= walk.len(),
            grid.addressable(),
            materials@.len() == grid.cell_count(),
            materials@.len() == old(materials)@.len(),
            chunk.wf(),
            forall|cell: Cell| #[trigger] chunk.contains(cell) ==> grid.holds(cell),
            forall|i: int|
                0 <= i < grid.cell_count() ==> #[trigger] materials@[i] == if chunk.contains(
                    grid.cell_of(i),
                ) && walk.take(seen).contains(grid.cell_of(i)) {
                    value
                } else {
                    old(materials)@[i]
                },
        ensures
            seen == walk.len(),
        decreases walk.len() - seen,
    {
        let ghost before = materials@;
        match cursor.next() {
            None => {
                break ;
            },
            Some(cell) => {
                assert(cell == walk[seen]);
                let inside = chunk.contains_cell(cell);
                if inside {
                    proof {
                        grid.lemma_cell_index(cell);
                    }
                    let index = grid.get_pos_index(cell.0, cell.1, cell.2).unwrap();
                    materials.set(index, value);
                }
                proof {
                    assert forall|i: int| 0 <= i < grid.cell_count() implies #[trigger] materials@[i]
                        == if chunk.contains(grid.cell_of(i)) && walk.take(seen + 1).contains(
                        grid.cell_of(i),
                    ) {
                        value
                    } else {
                        old(materials)@[i]
                    } by {
                        lemma_take_step(walk, seen, grid.cell_of(i));
                        grid.lemma_cell_of(i);
                        if inside {
                            grid.lemma_cell_index(cell);
                        }
                    }
                    assert(walk.skip(seen).skip(1) =~= walk.skip(seen + 1));
                    seen = seen + 1;
                }
            },
        }
    }
    proof {
        assert(walk.take(seen) =~= walk);
    }
}

fn blank_buffer(count: usize) -> (buffer: Vec<u8>)
    ensures
        buffer@.len() == count,
        forall|i: int| 0 <= i < count ==> buffer@[i] == 0,
{
    let mut buffer: Vec<u8> = Vec::new();
    let mut i: usize = 0;
    while i < count
        invariant
            i <= count,
            buffer@.len() == i,
            forall|k: int| 0 <= k < i ==> buffer@[k] == 0,
        decreases count - i,
    {
        buffer.push(0);
        i = i + 1;
    }
    buffer
}

fn material_slot(table: &Vec<Material>, material: &Material) -> (slot: Option<usize>)
    ensures
        match slot {
            Some(i) => i < table@.len() && table@[i as int] == *material,
            None => !table@.contains(*material),
        },
{
    let mut i: usize = 0;
    while i < table.len()
        invariant
            i <= table@.len(),
            forall|k: int| 0 <= k < i ==> table@[k] != *material,
        decreases table@.len() - i,
    {
        if table[i].same_as(material) {
            return Some(i);
        }
        i = i + 1;
    }
    None
}

impl<V: CellIterator> Default for SimWorldBuilder<V> {
    /// A builder for a world without extent and without paint operations.
    fn default() -> (builder: Self)
        ensures
            builder.extent() == (0i64, 0i64, 0i64),
            builder.operations() == Seq::<(Material, V)>::empty(),
    {
        SimWorldBuilder { x_size: 0, y_size: 0, z_size: 0, brush_opperations: Vec::new() }
    }
}

impl<V: CellIterator> SimWorldBuilder<V> {
    /// The extent of the world to be built, along x, y and z.
    pub closed spec fn extent(self) -> (i64, i64, i64) {
        (self.x_size, self.y_size, self.z_size)
    }

    /// The paint operations recorded so far, in the order in which they were given.
    pub closed spec fn operations(self) -> Seq<(Material, V)> {
        self.brush_opperations@
    }

    /// The dimensions in cells of the world built at `resolution`: `ceil(extent / resolution)`
    /// along each axis.
    pub open spec fn grid_at(self, resolution: i64) -> Grid {
        Grid {
            x_size: clamp_to_cell(ceil_div(self.extent().0 as int, resolution as int)),
            y_size: clamp_to_cell(ceil_div(self.extent().1 as int, resolution as int)),
            z_size: clamp_to_cell(ceil_div(self.extent().2 as int, resolution as int)),
        }
    }

    /// Why `build` fails on these arguments, or `None` if it succeeds.
    pub open spec fn build_error(self, resolution: i64, chunk_size: usize) -> Option<
        SimWorldBuildError,
    > {
        if resolution <= 0 {
            Some(SimWorldBuildError::InvalidResolution)
        } else if chunk_size == 0 {
            Some(SimWorldBuildError::InvalidChunkSize)
        } else if material_table(painted_materials(self.operations())).len() > MAX_MATERIALS {
            Some(SimWorldBuildError::TooManyMaterials)
        } else if !self.grid_at(resolution).addressable() {
            Some(SimWorldBuildError::WorldTooLarge)
        } else {
            None
        }
    }

    /// Create a new builder, defining the dimensions of the world to be built
    pub fn new(x_size: i64, y_size: i64, z_size: i64) -> (builder: Self)
        ensures
            builder.extent() == (x_size, y_size, z_size),
            builder.operations() == Seq::<(Material, V)>::empty(),
    {
        SimWorldBuilder { x_size, y_size, z_size, brush_opperations: Vec::new() }
    }

    /// Applies a material type to a volume defined by a brush
    pub fn with_material(self, material: Material, brush: V) -> (builder: Self)
        ensures
            builder.extent() == self.extent(),
            builder.operations() == self.operations().push((material, brush)),
    {
        let mut builder = self;
        builder.brush_opperations.push((material, brush));
        builder
    }

    /// Build the world with a given voxel resolution and chunk edge
    ///
    /// The world is painted chunk by chunk. In each chunk the operations are applied in
    /// order, so that a later one overwrites an earlier one.
    pub fn build(self, resolution: i64, chunk_size: usize) -> (built: Result<
        SimWorld,
        SimWorldBuildError,
    >)
        ensures
            match built {
                Ok(world) => {
                    &&& self.build_error(resolution, chunk_size).is_none()
                    &&& world.wf()
                    &&& world.grid() == self.grid_at(resolution)
                    &&& world.cell_size() == resolution
                    &&& world.chunk_size() == chunk_size
                    &&& world.material_map() == material_table(
                        painted_materials(self.operations()),
                    )
                    &&& forall|cell: Cell| #[trigger]
                        world.grid().holds(cell) ==> world.material_at(cell) == painted_material(
                            self.operations(),
                            resolution,
                            cell,
                        )
                },
                Err(error) => self.build_error(resolution, chunk_size) == Some(error),
            },
    {
        if resolution <= 0 {
            return Err(SimWorldBuildError::InvalidResolution);
        }
        if chunk_size == 0 {
            return Err(SimWorldBuildError::InvalidChunkSize);
        }
        let ghost ops = self.brush_opperations@;
        let ghost painted = painted_materials(ops);
        let op_count = self.brush_opperations.len();

        // Give each distinct material its place in the material map
        let mut table: Vec<Material> = Vec::new();
        table.push(Material::blank());
        let mut slots: Vec<u8> = Vec::new();
        let mut j: usize = 0;
        proof {
            assert(painted.take(0) =~= Seq::<Material>::empty());
            assert(table@ =~= material_table(painted.take(0)));
        }
        while j < op_count
            invariant
                j <= op_count,
                resolution > 0,
                chunk_size > 0,
                op_count == ops.len(),
                ops == self.brush_opperations@,
                painted == painted_materials(ops),
                table@ == material_table(painted.take(j as int)),
                table@.len() <= MAX_MATERIALS,
                slots@.len() == j,
                forall|t: int|
                    0 <= t < j ==> (#[trigger] slots@[t]) < table@.len() && table@[slots@[t] as int]
                        == ops[t].0,
            decreases op_count - j,
        {
            let material = self.brush_opperations[j].0;
            proof {
                assert(painted.take(j + 1).drop_last() =~= painted.take(j as int));
                assert(painted.take(j + 1).last() == material);
            }
            match material_slot(&table, &material) {
                Some(slot) => {
                    slots.push(slot as u8);
                },
                None => {
                    if table.len() >= MAX_MATERIALS {
                        proof {
                            lemma_material_table_grows(painted, j + 1);
                            assert(material_table(painted.take(j + 1)) == table@.push(material));
                        }
                        return Err(SimWorldBuildError::TooManyMaterials);
                    }
                    slots.push(table.len() as u8);
                    table.push(material);
                },
            }
            j = j + 1;
        }
        proof {
            assert(painted.take(op_count as int) =~= painted);
            lemma_material_table(painted);
        }

        // Get x y and z size of world in voxels
        let grid = Grid {
            x_size: ceil_cells(0, self.x_size, resolution),
            y_size: ceil_cells(0, self.y_size, resolution),
            z_size: ceil_cells(0, self.z_size, resolution),
        };
        let count = match grid.checked_cell_count() {
            Some(count) => count,
            None => {
                return Err(SimWorldBuildError::WorldTooLarge);
            },
        };
        let layout = ChunkLayout::new(grid, chunk_size).unwrap();

        // Create new material buffer
        let mut materials = blank_buffer(count);

        // Write brushes into buffer, one chunk after the other
        let chunk_count = layout.len();
        let mut k: usize = 0;
        while k < chunk_count
            invariant
                k <= chunk_count,
                chunk_count == layout.count(),
                layout.wf(),
                layout.grid() == grid,
                grid.addressable(),
                resolution > 0,
                op_count == ops.len(),
                ops == self.brush_opperations@,
                slots@.len() == op_count,
                table@.len() >= 1,
                table@[0] == Material::blank_spec(),
                forall|t: int|
                    0 <= t < op_count ==> (#[trigger] slots@[t]) < table@.len() && table@[slots@[t] as int]
                        == ops[t].0,
                materials@.len() == grid.cell_count(),
                forall|i: int|
                    0 <= i < grid.cell_count() ==> (#[trigger] materials@[i]) < table@.len()
                        && table@[materials@[i] as int] == if layout.chunk_of(grid.cell_of(i)) < k {
                        painted_upto(ops, resolution, grid.cell_of(i), op_count as int)
                    } else {
                        Material::blank_spec()
                    },
            decreases chunk_count - k,
        {
            let chunk = layout.chunk(k);
            proof {
                layout.lemma_chunk_in_grid(k as int);
            }
            let mut j: usize = 0;
            while j < op_count
                invariant
                    j <= op_count,
                    k < chunk_count,
                    chunk_count == layout.count(),
                    layout.wf(),
                    layout.grid() == grid,
                    chunk == layout.chunk_spec(k as int),
                    chunk.wf(),
                    forall|cell: Cell| #[trigger] chunk.contains(cell) ==> grid.holds(cell),
                    grid.addressable(),
                    resolution > 0,
                    op_count == ops.len(),
                    ops == self.brush_opperations@,
                    slots@.len() == op_count,
                    table@.len() >= 1,
                    table@[0] == Material::blank_spec(),
                    forall|t: int|
                        0 <= t < op_count ==> (#[trigger] slots@[t]) < table@.len()
                            && table@[slots@[t] as int] == ops[t].0,
                    materials@.len() == grid.cell_count(),
                    forall|i: int|
                        0 <= i < grid.cell_count() ==> (#[trigger] materials@[i]) < table@.len()
                            && table@[materials@[i] as int] == if layout.chunk_of(grid.cell_of(i))
                            < k {
                            painted_upto(ops, resolution, grid.cell_of(i), op_count as int)
                        } else if layout.chunk_of(grid.cell_of(i)) == k {
                            painted_upto(ops, resolution, grid.cell_of(i), j as int)
                        } else {
                            Material::blank_spec()
                        },
                decreases op_count - j,
            {
                let ghost before = materials@;
                let value = slots[j];
                paint_in_chunk(
                    &mut materials,
                    &grid,
                    &chunk,
                    &self.brush_opperations[j].1,
                    resolution,
                    value,
                );
                proof {
                    assert forall|i: int| 0 <= i < grid.cell_count() implies (
                    #[trigger] materials@[i]) < table@.len() && table@[materials@[i] as int]
                        == if layout.chunk_of(grid.cell_of(i)) < k {
                        painted_upto(ops, resolution, grid.cell_of(i), op_count as int)
                    } else if layout.chunk_of(grid.cell_of(i)) == k {
                        painted_upto(ops, resolution, grid.cell_of(i), j + 1)
                    } else {
                        Material::blank_spec()
                    } by {
                        let cell = grid.cell_of(i);
                        grid.lemma_cell_of(i);
                        layout.lemma_partition(cell);
                        assert(before[i] < table@.len());
                        assert(slots@[j as int] < table@.len());
                        assert(chunk.contains(cell) <==> layout.chunk_of(cell) == k);
                    }
                }
                j = j + 1;
            }
            k = k + 1;
        }
        proof {
            assert forall|i: int| 0 <= i < materials@.len() implies (#[trigger] materials@[i])
                < table@.len() by {}
        }
        let world = SimWorld {
            grid,
            cell_size: resolution,
            chunk_size,
            material_map: table,
            materials,
        };
        proof {
            assert forall|cell: Cell| #[trigger] world.grid().holds(cell) implies world.material_at(
                cell,
            ) == painted_material(self.operations(), resolution, cell) by {
                grid.lemma_cell_index(cell);
                layout.lemma_partition(cell);
                let i = grid.cell_index(cell);
                assert(materials@[i] < table@.len());
            }
        }
        Ok(world)
    }
}

} // verus!

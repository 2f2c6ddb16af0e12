use vstd::prelude::*;
use crate::chunk::{lemma_box_indices, ChunkLayout};
use crate::material::Material;
use crate::runner::{cell_delta, is_cell_delta, is_cell_step, is_step, SimError, SimRunner};
use crate::world::{applied, SimState, SimWorld};

verus! {

/// A multithreaded cpu based simulation runner
///
/// It cuts the grid into chunks and hands each chunk to a pool of workers as one task.
/// A task works out one value for each cell of its chunk, in the order in which the
/// chunk lists its cells; the values of all tasks are then put together into one
/// buffer for the whole grid.
#[derive(Debug, Clone, Copy)]
pub struct ThreadedRunner {
    workers: usize,
    chunk_size: usize,
}

/// Determinism under parallelism: whatever the edge of the chunks, and in whatever order
/// the tasks have run, where every task has worked out the energy deltas of the cells of
/// its chunk from the energies before the sub-step, putting the parts together and
/// applying them is a sub-step of the one pass over the whole grid.
pub proof fn lemma_chunked_step_is_step<
    E,
    F: Fn(E, Material, E, Material, i64) -> E,
    A: Fn(E, E) -> E,
>(
    flow_of: F,
    plus: A,
    world: SimWorld,
    layout: ChunkLayout,
    before: Seq<E>,
    deltatime: i64,
    zero: E,
    parts: Seq<Vec<E>>,
    deltas: Seq<E>,
    after: Seq<E>,
)
    requires
        layout.wf(),
        layout.grid() == world.grid(),
        before.len() == world.grid().cell_count(),
        layout.parts_fit(parts),
        forall|k: int, j: int|
            0 <= k < layout.count() && 0 <= j < layout.chunk_indices(k).len() ==> is_cell_delta(
                flow_of,
                plus,
                world,
                before,
                layout.chunk_indices(k)[j] as int,
                deltatime,
                zero,
                #[trigger] parts[k]@[j],
            ),
        deltas.len() == before.len(),
        forall|i: int| 0 <= i < deltas.len() ==> #[trigger] deltas[i] == layout.part_value(parts, i),
        applied(plus, before, deltas, after),
    ensures
        is_step(flow_of, plus, world, before, deltatime, zero, after),
{
    assert forall|i: int| 0 <= i < before.len() implies is_cell_step(
        flow_of,
        plus,
        world,
        before,
        i,
        deltatime,
        zero,
        #[trigger] after[i],
    ) by {
        layout.lemma_place_in_chunk(i);
        let cell = layout.grid().cell_of(i);
        let home = layout.chunk_of(cell);
        let place = layout.chunk_spec(home).rank(cell);
        assert(is_cell_delta(flow_of, plus, world, before, i, deltatime, zero, parts[home]@[place]));
        assert(deltas[i] == parts[home]@[place]);
    }
}

/// Works out the energy deltas of the cells of one chunk in a sub-step of `deltatime`
/// ticks, in the order in which the chunk lists its cells: the task of that chunk.
/// It reads the energies before the sub-step and writes nothing but its own part. There
/// is no part for a state or a layout that is not of this world, nor for a chunk that
/// the layout does not have.
pub fn chunk_deltas<E: Copy, F: Fn(E, Material, E, Material, i64) -> E, A: Fn(E, E) -> E>(
    world: &SimWorld,
    layout: &ChunkLayout,
    chunk: usize,
    state: &SimState<E>,
    deltatime: i64,
    zero: E,
    flow_of: &F,
    plus: &A,
) -> (deltas: Option<Vec<E>>)
    requires
        forall|e: E, m: Material, f: E, n: Material, dt: i64|
            call_requires(*flow_of, (e, m, f, n, dt)),
        forall|a: E, b: E| call_requires(*plus, (a, b)),
    ensures
        deltas.is_some() <==> state@.len() == world.grid().cell_count() && layout.grid()
            == world.grid() && chunk < layout.count(),
        deltas.is_some() ==> deltas.unwrap()@.len() == layout.chunk_indices(chunk as int).len()
            && forall|j: int|
            0 <= j < deltas.unwrap()@.len() ==> is_cell_delta(
                *flow_of,
                *plus,
                *world,
                state@,
                layout.chunk_indices(chunk as int)[j] as int,
                deltatime,
                zero,
                #[trigger] deltas.unwrap()@[j],
            ),
{
    if !world.is_state_valid(state) || layout.get_grid() != world.get_grid() || chunk
        >= layout.len() {
        return None;
    }
    let indices = layout.cell_indices(chunk);
    proof {
        layout.lemma_chunk_in_grid(chunk as int);
        lemma_box_indices(layout.grid(), layout.chunk_spec(chunk as int));
    }
    let mut deltas: Vec<E> = Vec::new();
    let mut j: usize = 0;
    while j < indices.len()
        invariant
            j <= indices@.len(),
            indices@ == layout.chunk_indices(chunk as int),
            forall|t: int| 0 <= t < indices@.len() ==> (#[trigger] indices@[t]) < world.grid().cell_count(),
            state@.len() == world.grid().cell_count(),
            forall|e: E, m: Material, f: E, n: Material, dt: i64|
                call_requires(*flow_of, (e, m, f, n, dt)),
            forall|a: E, b: E| call_requires(*plus, (a, b)),
            deltas@.len() == j,
            forall|t: int|
                0 <= t < j ==> is_cell_delta(
                    *flow_of,
                    *plus,
                    *world,
                    state@,
                    indices@[t] as int,
                    deltatime,
                    zero,
                    #[trigger] deltas@[t],
                ),
        decreases indices@.len() - j,
    {
        let delta = cell_delta(world, state, indices[j], deltatime, zero, flow_of, plus);
        deltas.push(delta);
        j = j + 1;
    }
    Some(deltas)
}

impl ThreadedRunner {
    /// The number of workers of the pool.
    pub closed spec fn workers(self) -> usize {
        self.workers
    }

    /// The edge of the chunks that the grid is cut into, in cells.
    pub closed spec fn chunk_size(self) -> usize {
        self.chunk_size
    }

    /// Create a new threaded runner with the given num threads and chunk size
    pub fn new(workers: usize, chunk_size: usize) -> (runner: Self)
        ensures
            runner.workers() == workers,
            runner.chunk_size() == chunk_size,
    {
        Self { workers, chunk_size }
    }

    /// Get the number of workers of the pool
    pub fn get_workers(&self) -> (workers: usize)
        ensures
            workers == self.workers(),
    {
        self.workers
    }

    /// Get the edge of the chunks, in cells
    pub fn get_chunk_size(&self) -> (chunk_size: usize)
        ensures
            chunk_size == self.chunk_size(),
    {
        self.chunk_size
    }

    /// Cuts the grid of a world into the chunks that the workers take, one task for each
    /// chunk. There is no such cut for a chunk edge of zero.
    pub fn tasks(&self, world: &SimWorld) -> (layout: Option<ChunkLayout>)
        ensures
            layout.is_some() <==> self.chunk_size() > 0,
            layout.is_some() ==> layout.unwrap() == ChunkLayout::of(
                world.grid(),
                self.chunk_size(),
            ) && layout.unwrap().wf() && layout.unwrap().grid() == world.grid()
                && layout.unwrap().chunk_size() == self.chunk_size(),
    {
        ChunkLayout::new(world.get_grid(), self.chunk_size)
    }
}

impl SimRunner for ThreadedRunner {
    open spec fn ready(&self) -> bool {
        self.chunk_size() > 0
    }

    /// Works through the tasks one after the other. A pool of workers takes the same
    /// tasks side by side; the parts are the same, and so is the state.
    fn advance_world_state<E: Copy, F: Fn(E, Material, E, Material, i64) -> E, A: Fn(E, E) -> E>(
        &self,
        world: &SimWorld,
        current_state: SimState<E>,
        deltatime: i64,
        zero: E,
        flow_of: &F,
        plus: &A,
    ) -> (next: Result<SimState<E>, SimError>) {
        if !world.is_state_valid(&current_state) {
            return Err(SimError::SimStateInvalid);
        }
        let layout = self.tasks(world).unwrap();
        let chunk_count = layout.len();
        let mut parts: Vec<Vec<E>> = Vec::new();
        let mut k: usize = 0;
        while k < chunk_count
            invariant
                k <= chunk_count,
                chunk_count == layout.count(),
                layout.wf(),
                layout.grid() == world.grid(),
                current_state@.len() == world.grid().cell_count(),
                forall|e: E, m: Material, f: E, n: Material, dt: i64|
                    call_requires(*flow_of, (e, m, f, n, dt)),
                forall|a: E, b: E| call_requires(*plus, (a, b)),
                parts@.len() == k,
                forall|t: int|
                    0 <= t < k ==> (#[trigger] parts@[t])@.len() == layout.chunk_indices(t).len(),
                forall|t: int, j: int|
                    0 <= t < k && 0 <= j < layout.chunk_indices(t).len() ==> is_cell_delta(
                        *flow_of,
                        *plus,
                        *world,
                        current_state@,
                        layout.chunk_indices(t)[j] as int,
                        deltatime,
                        zero,
                        #[trigger] parts@[t]@[j],
                    ),
            decreases chunk_count - k,
        {
            let part = chunk_deltas(
                world,
                &layout,
                k,
                &current_state,
                deltatime,
                zero,
                flow_of,
                plus,
            ).unwrap();
            parts.push(part);
            k = k + 1;
        }
        let energy_deltas = layout.gather(&parts, zero).unwrap();
        let ghost before = current_state@;
        let next = current_state.apply_deltas(&energy_deltas, plus);
        proof {
            lemma_chunked_step_is_step(
                *flow_of,
                *plus,
                *world,
                layout,
                before,
                deltatime,
                zero,
                parts@,
                energy_deltas@,
                next@,
            );
        }
        Ok(next)
    }
}

} // verus!

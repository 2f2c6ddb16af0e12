use vstd::prelude::*;
use crate::material::Material;
use crate::runner::{cell_delta, is_cell_delta, is_cell_step, SimError, SimRunner};
use crate::world::{SimState, SimWorld};

verus! {

/// Simulation Runner that uses a single CPU thread to execute
///
/// It works through the whole grid in one pass, cell after cell in row-major order.
#[derive(Debug, Clone, Copy, Default)]
pub struct CPUSimRunner {}

impl SimRunner for CPUSimRunner {
    open spec fn ready(&self) -> bool {
        true
    }

    fn advance_world_state<E: Copy, F: Fn(E, Material, E, Material, i64) -> E, A: Fn(E, E) -> E>(
        &self,
        world: &SimWorld,
        current_state: SimState<E>,
        deltatime: i64,
        zero: E,
        flow_of: &F,
        plus: &A,
    ) -> (next: Result<SimState<E>, SimError>) {
        if !world.is_state_valid(&current_state) {
            return Err(SimError::SimStateInvalid);
        }
        // Create energy delta vector
        let mut energy_deltas: Vec<E> = Vec::new();
        let cell_count = current_state.len();
        let mut cell_index: usize = 0;
        while cell_index < cell_count
            invariant
                cell_index <= cell_count,
                cell_count == current_state@.len(),
                current_state@.len() == world.grid().cell_count(),
                forall|e: E, m: Material, f: E, n: Material, dt: i64|
                    call_requires(*flow_of, (e, m, f, n, dt)),
                forall|a: E, b: E| call_requires(*plus, (a, b)),
                energy_deltas@.len() == cell_index,
                forall|i: int|
                    0 <= i < cell_index ==> is_cell_delta(
                        *flow_of,
                        *plus,
                        *world,
                        current_state@,
                        i,
                        deltatime,
                        zero,
                        #[trigger] energy_deltas@[i],
                    ),
            decreases cell_count - cell_index,
        {
            let delta = cell_delta(world, &current_state, cell_index, deltatime, zero, flow_of, plus);
            energy_deltas.push(delta);
            cell_index = cell_index + 1;
        }
        let ghost before = current_state@;
        let next = current_state.apply_deltas(&energy_deltas, plus);
        proof {
            assert forall|i: int| 0 <= i < before.len() implies is_cell_step(
                *flow_of,
                *plus,
                *world,
                before,
                i,
                deltatime,
                zero,
                #[trigger] next@[i],
            ) by {
                assert(is_cell_delta(
                    *flow_of,
                    *plus,
                    *world,
                    before,
                    i,
                    deltatime,
                    zero,
                    energy_deltas@[i],
                ));
            }
        }
        Ok(next)
    }
}

} // verus!

use vstd::prelude::*;
use crate::material::Material;
use crate::world::{SimState, SimWorld};

/// Single Threaded CPU based simulator
pub mod cpu;
/// Chunk-parallel CPU based simulator
pub mod threaded;

verus! {

/// Simulation Runtime Error
#[derive(Debug, Clone, Copy, PartialEq, Eq, Structural)]
pub enum SimError {
    /// The simulation state passed in is not a valid state of the simulatin
    SimStateInvalid,
    /// The timestep is zero or negative
    TimestepInvalid,
    /// A sub-step did not complete
    StepFailed,
}

/// How an advance is cut into sub-steps: `full_steps` steps of the timestep, then one
/// more of `remainder` if that is more than zero. Durations are whole ticks.
#[derive(Debug, Clone, Copy, PartialEq, Eq, Structural)]
pub struct SubSteps {
    /// The number of sub-steps that last a whole timestep
    pub full_steps: i64,
    /// The duration of the last, shorter sub-step; zero if there is none
    pub remainder: i64,
}

/// The sub-steps of an advance by `advance_time` with a positive `timestep`:
/// `floor(advance_time / timestep)` full steps and what is left of the time after them.
/// An advance that is not positive has no sub-steps.
pub open spec fn sub_steps(advance_time: i64, timestep: i64) -> SubSteps {
    if advance_time <= 0 {
        SubSteps { full_steps: 0, remainder: 0 }
    } else {
        SubSteps {
            full_steps: (advance_time as int / timestep as int) as i64,
            remainder: (advance_time as int % timestep as int) as i64,
        }
    }
}

/// Why an advance is refused, or `None` if it is not: a state of the wrong size comes
/// first, then a timestep that is not positive.
pub open spec fn advance_error(world: SimWorld, state_len: nat, timestep: i64) -> Option<SimError> {
    if state_len != world.grid().cell_count() {
        Some(SimError::SimStateInvalid)
    } else if timestep <= 0 {
        Some(SimError::TimestepInvalid)
    } else {
        None
    }
}

/// The state `to` can be had from `from` by `n` sub-steps of duration `dt`, where
/// `step(before, dt, after)` says that one sub-step can lead from `before` to `after`.
pub open spec fn reached<S>(
    step: spec_fn(S, i64, S) -> bool,
    from: S,
    dt: i64,
    n: int,
    to: S,
) -> bool
    decreases n,
{
    if n <= 0 {
        to == from
    } else {
        exists|mid: S| reached(step, from, dt, n - 1, mid) && #[trigger] step(mid, dt, to)
    }
}

/// The state `to` can be had from `from` by the sub-steps of `plan`: the full steps, then
/// the remainder if there is one. Each sub-step starts from the state that the sub-step
/// before it gave.
pub open spec fn advanced<S>(
    step: spec_fn(S, i64, S) -> bool,
    from: S,
    timestep: i64,
    plan: SubSteps,
    to: S,
) -> bool {
    exists|mid: S|
        #[trigger] reached(step, from, timestep, plan.full_steps as int, mid) && if plan.remainder
            > 0 {
            step(mid, plan.remainder, to)
        } else {
            to == mid
        }
}

/// The sub-steps of an advance last as long as the advance, each of them is at most one
/// timestep long, and the last one is shorter than a timestep.
pub proof fn lemma_sub_steps_span_advance(advance_time: i64, timestep: i64)
    requires
        advance_time >= 0,
        timestep > 0,
    ensures
        sub_steps(advance_time, timestep).full_steps * timestep + sub_steps(
            advance_time,
            timestep,
        ).remainder == advance_time,
        0 <= sub_steps(advance_time, timestep).remainder < timestep,
        0 <= sub_steps(advance_time, timestep).full_steps <= advance_time,
{
    let a = advance_time as int;
    let t = timestep as int;
    vstd::arithmetic::div_mod::lemma_fundamental_div_mod(a, t);
    vstd::arithmetic::div_mod::lemma_mod_bound(a, t);
    let q = a / t;
    let r = a % t;
    assert(0 <= q <= a && q * t == t * q) by (nonlinear_arith)
        requires
            a == t * q + r,
            0 <= r < t,
            0 <= a,
            0 < t,
    ;
}

/// An advance by no time at all has no sub-steps, so it leaves the state as it is,
/// whatever a sub-step does.
pub proof fn lemma_zero_duration_is_no_op<S>(
    step: spec_fn(S, i64, S) -> bool,
    from: S,
    timestep: i64,
    to: S,
)
    requires
        advanced(step, from, timestep, sub_steps(0, timestep), to),
    ensures
        sub_steps(0, timestep) == (SubSteps { full_steps: 0, remainder: 0 }),
        to == from,
{
}

/// Checks the size of a state against a world and cuts an advance into its sub-steps.
pub fn plan_advance(world: &SimWorld, state_len: usize, advance_time: i64, timestep: i64) -> (plan:
    Result<SubSteps, SimError>)
    ensures
        match plan {
            Ok(steps) => advance_error(*world, state_len as nat, timestep).is_none() && steps
                == sub_steps(advance_time, timestep),
            Err(error) => advance_error(*world, state_len as nat, timestep) == Some(error),
        },
{
    if state_len != world.get_cell_count() {
        return Err(SimError::SimStateInvalid);
    }
    if timestep <= 0 {
        return Err(SimError::TimestepInvalid);
    }
    if advance_time <= 0 {
        return Ok(SubSteps { full_steps: 0, remainder: 0 });
    }
    proof {
        lemma_sub_steps_span_advance(advance_time, timestep);
    }
    let full_steps: u64 = (advance_time as u64) / (timestep as u64);
    let remainder: u64 = (advance_time as u64) % (timestep as u64);
    Ok(SubSteps { full_steps: full_steps as i64, remainder: remainder as i64 })
}

/// What a step function says of one sub-step: that it can lead from `before` to `after`.
pub open spec fn succeeds<S, F: Fn(S, i64) -> Result<S, SimError>>(step: F) -> spec_fn(
    S,
    i64,
    S,
) -> bool {
    |before: S, dt: i64, after: S| call_ensures(step, (before, dt), Ok::<S, SimError>(after))
}

/// Some sub-step of `plan` can fail with `error` after the sub-steps before it have
/// succeeded.
pub open spec fn fails<S, F: Fn(S, i64) -> Result<S, SimError>>(
    step: F,
    from: S,
    timestep: i64,
    plan: SubSteps,
    error: SimError,
) -> bool {
    exists|taken: int, mid: S|
        0 <= taken <= plan.full_steps && #[trigger] reached(
            succeeds(step),
            from,
            timestep,
            taken,
            mid,
        ) && if taken < plan.full_steps {
            call_ensures(step, (mid, timestep), Err::<S, SimError>(error))
        } else {
            plan.remainder > 0 && call_ensures(
                step,
                (mid, plan.remainder),
                Err::<S, SimError>(error),
            )
        }
}

/// Advances a state by a given ammount of time in sub-steps that `step` takes
///
/// `step` computes the state after one sub-step from the state before it and the duration
/// of the sub-step, or fails. It is applied once for each sub-step, in order, each time to
/// the state that the sub-step before it gave. A state of the wrong size and a timestep
/// that is not positive are refused before any sub-step is taken. When a sub-step fails
/// the advance fails with it, and no state is given.
pub fn advance_by_steps<S, F: Fn(S, i64) -> Result<S, SimError>>(
    world: &SimWorld,
    state_len: usize,
    current_state: S,
    advace_time: i64,
    timestep: i64,
    step: &F,
) -> (next: Result<S, SimError>)
    requires
        forall|state: S, dt: i64| 0 < dt <= timestep ==> call_requires(*step, (state, dt)),
    ensures
        match next {
            Ok(state) => advance_error(*world, state_len as nat, timestep).is_none() && advanced(
                succeeds(*step),
                current_state,
                timestep,
                sub_steps(advace_time, timestep),
                state,
            ),
            Err(error) => advance_error(*world, state_len as nat, timestep) == Some(error) || (
            advance_error(*world, state_len as nat, timestep).is_none() && fails(
                *step,
                current_state,
                timestep,
                sub_steps(advace_time, timestep),
                error,
            )),
        },
{
    let plan = match plan_advance(world, state_len, advace_time, timestep) {
        Ok(plan) => plan,
        Err(error) => {
            return Err(error);
        },
    };
    proof {
        if advace_time >= 0 {
            lemma_sub_steps_span_advance(advace_time, timestep);
        }
    }
    let mut active_state = current_state;
    let mut taken: i64 = 0;
    while taken < plan.full_steps
        invariant
            0 <= taken <= plan.full_steps,
            timestep > 0,
            plan == sub_steps(advace_time, timestep),
            advance_error(*world, state_len as nat, timestep).is_none(),
            forall|state: S, dt: i64| 0 < dt <= timestep ==> call_requires(*step, (state, dt)),
            reached(succeeds(*step), current_state, timestep, taken as int, active_state),
        decreases plan.full_steps - taken,
    {
        let ghost before = active_state;
        match step(active_state, timestep) {
            Ok(state) => {
                proof {
                    assert(succeeds(*step)(before, timestep, state));
                    assert(reached(
                        succeeds(*step),
                        current_state,
                        timestep,
                        (taken + 1) - 1,
                        before,
                    ));
                }
                active_state = state;
            },
            Err(error) => {
                return Err(error);
            },
        }
        taken = taken + 1;
    }
    if plan.remainder > 0 {
        let ghost before = active_state;
        match step(active_state, plan.remainder) {
            Ok(state) => {
                proof {
                    assert(succeeds(*step)(before, plan.remainder, state));
                }
                active_state = state;
            },
            Err(error) => {
                return Err(error);
            },
        }
    }
    Ok(active_state)
}

/// Adding the heat that flows into the cell `cell` from the cell `neighbor` in `deltatime`
/// ticks to `before` can give `total`. `flow_of` gives the heat that flows into a cell
/// from one neighbor, from the energy and the material of each of the two.
pub open spec fn flow_added<E, F: Fn(E, Material, E, Material, i64) -> E, A: Fn(E, E) -> E>(
    flow_of: F,
    plus: A,
    world: SimWorld,
    energies: Seq<E>,
    cell: int,
    neighbor: int,
    deltatime: i64,
    before: E,
    total: E,
) -> bool {
    exists|flow: E|
        #[trigger] call_ensures(
            flow_of,
            (
                energies[cell],
                world.index_material(cell),
                energies[neighbor],
                world.index_material(neighbor),
                deltatime,
            ),
            flow,
        ) && call_ensures(plus, (before, flow), total)
}

/// The sum of the heat that flows into the cell `cell` from the cells `neighbors` in
/// `deltatime` ticks can be `total`: the flows are added up one after the other in the
/// order of the neighbors, starting from `zero`.
pub open spec fn flow_sum<E, F: Fn(E, Material, E, Material, i64) -> E, A: Fn(E, E) -> E>(
    flow_of: F,
    plus: A,
    world: SimWorld,
    energies: Seq<E>,
    cell: int,
    neighbors: Seq<usize>,
    deltatime: i64,
    zero: E,
    total: E,
) -> bool
    decreases neighbors.len(),
{
    if neighbors.len() == 0 {
        total == zero
    } else {
        exists|before: E|
            flow_sum(
                flow_of,
                plus,
                world,
                energies,
                cell,
                neighbors.drop_last(),
                deltatime,
                zero,
                before,
            ) && #[trigger] flow_added(
                flow_of,
                plus,
                world,
                energies,
                cell,
                neighbors.last() as int,
                deltatime,
                before,
                total,
            )
    }
}

/// The energy delta of the cell with index `cell` in a sub-step of `deltatime` ticks can be
/// `delta`: the sum of the flows from those of its six neighbors that lie in bounds. A
/// neighbor out of bounds does not contribute.
pub open spec fn is_cell_delta<E, F: Fn(E, Material, E, Material, i64) -> E, A: Fn(E, E) -> E>(
    flow_of: F,
    plus: A,
    world: SimWorld,
    energies: Seq<E>,
    cell: int,
    deltatime: i64,
    zero: E,
    delta: E,
) -> bool {
    flow_sum(
        flow_of,
        plus,
        world,
        energies,
        cell,
        world.grid().neighbors(world.grid().cell_of(cell)),
        deltatime,
        zero,
        delta,
    )
}

/// The cell with index `cell` can hold the energy `after` when a sub-step of `deltatime`
/// ticks has been taken from the energies `before`: its energy of before plus its delta.
pub open spec fn is_cell_step<E, F: Fn(E, Material, E, Material, i64) -> E, A: Fn(E, E) -> E>(
    flow_of: F,
    plus: A,
    world: SimWorld,
    before: Seq<E>,
    cell: int,
    deltatime: i64,
    zero: E,
    after: E,
) -> bool {
    exists|delta: E|
        #[trigger] is_cell_delta(flow_of, plus, world, before, cell, deltatime, zero, delta)
            && call_ensures(plus, (before[cell], delta), after)
}

/// One sub-step of `deltatime` ticks can lead from the energies `before` to the energies
/// `after`: every cell holds its energy of before plus its delta, and every delta is
/// worked out from the energies of before the sub-step alone.
pub open spec fn is_step<E, F: Fn(E, Material, E, Material, i64) -> E, A: Fn(E, E) -> E>(
    flow_of: F,
    plus: A,
    world: SimWorld,
    before: Seq<E>,
    deltatime: i64,
    zero: E,
    after: Seq<E>,
) -> bool {
    &&& after.len() == before.len()
    &&& forall|i: int|
        0 <= i < before.len() ==> is_cell_step(
            flow_of,
            plus,
            world,
            before,
            i,
            deltatime,
            zero,
            #[trigger] after[i],
        )
}

/// What a runner says of one sub-step in a world: that it can lead from the energies
/// `before` to the energies `after`.
pub open spec fn steps<E, F: Fn(E, Material, E, Material, i64) -> E, A: Fn(E, E) -> E>(
    flow_of: F,
    plus: A,
    world: SimWorld,
    zero: E,
) -> spec_fn(Seq<E>, i64, Seq<E>) -> bool {
    |before: Seq<E>, deltatime: i64, after: Seq<E>|
        is_step(flow_of, plus, world, before, deltatime, zero, after)
}

/// Whether `flow_of` is a function: it gives one flow for given energies, materials and
/// duration.
pub open spec fn flow_is_function<E, F: Fn(E, Material, E, Material, i64) -> E>(flow_of: F) -> bool {
    forall|e: E, m: Material, f: E, n: Material, dt: i64, a: E, b: E|
        #[trigger] call_ensures(flow_of, (e, m, f, n, dt), a) && #[trigger] call_ensures(
            flow_of,
            (e, m, f, n, dt),
            b,
        ) ==> a == b
}

/// Whether `plus` is a function: it gives one sum for given energies.
pub open spec fn plus_is_function<E, A: Fn(E, E) -> E>(plus: A) -> bool {
    forall|x: E, y: E, a: E, b: E|
        #[trigger] call_ensures(plus, (x, y), a) && #[trigger] call_ensures(plus, (x, y), b) ==> a
            == b
}

/// Whether `step` is a function: one sub-step leads from a state to one state.
pub open spec fn step_is_function<S>(step: spec_fn(S, i64, S) -> bool) -> bool {
    forall|from: S, dt: i64, a: S, b: S|
        #[trigger] step(from, dt, a) && #[trigger] step(from, dt, b) ==> a == b
}

/// With arithmetic that is a function, the sum of the flows into a cell is one value.
pub proof fn lemma_flow_sum_is_one<E, F: Fn(E, Material, E, Material, i64) -> E, A: Fn(E, E) -> E>(
    flow_of: F,
    plus: A,
    world: SimWorld,
    energies: Seq<E>,
    cell: int,
    neighbors: Seq<usize>,
    deltatime: i64,
    zero: E,
    a: E,
    b: E,
)
    requires
        flow_is_function(flow_of),
        plus_is_function(plus),
        flow_sum(flow_of, plus, world, energies, cell, neighbors, deltatime, zero, a),
        flow_sum(flow_of, plus, world, energies, cell, neighbors, deltatime, zero, b),
    ensures
        a == b,
    decreases neighbors.len(),
{
    if neighbors.len() > 0 {
        let rest = neighbors.drop_last();
        let last = neighbors.last() as int;
        let before_a = choose|before: E|
            flow_sum(flow_of, plus, world, energies, cell, rest, deltatime, zero, before)
                && #[trigger] flow_added(
                flow_of,
                plus,
                world,
                energies,
                cell,
                last,
                deltatime,
                before,
                a,
            );
        let before_b = choose|before: E|
            flow_sum(flow_of, plus, world, energies, cell, rest, deltatime, zero, before)
                && #[trigger] flow_added(
                flow_of,
                plus,
                world,
                energies,
                cell,
                last,
                deltatime,
                before,
                b,
            );
        lemma_flow_sum_is_one(
            flow_of,
            plus,
            world,
            energies,
            cell,
            rest,
            deltatime,
            zero,
            before_a,
            before_b,
        );
    }
}

/// With arithmetic that is a function, one sub-step leads from given energies to one
/// state: the order in which the cells are worked through does not matter.
pub proof fn lemma_step_is_function<E, F: Fn(E, Material, E, Material, i64) -> E, A: Fn(E, E) -> E>(
    flow_of: F,
    plus: A,
    world: SimWorld,
    zero: E,
)
    requires
        flow_is_function(flow_of),
        plus_is_function(plus),
    ensures
        step_is_function(steps(flow_of, plus, world, zero)),
{
    let step = steps(flow_of, plus, world, zero);
    assert forall|from: Seq<E>, dt: i64, a: Seq<E>, b: Seq<E>|
        #[trigger] step(from, dt, a) && #[trigger] step(from, dt, b) implies a == b by {
        assert forall|i: int| 0 <= i < from.len() implies a[i] == b[i] by {
            assert(is_cell_step(flow_of, plus, world, from, i, dt, zero, a[i]));
            assert(is_cell_step(flow_of, plus, world, from, i, dt, zero, b[i]));
            let delta_a = choose|delta: E|
                #[trigger] is_cell_delta(flow_of, plus, world, from, i, dt, zero, delta)
                    && call_ensures(plus, (from[i], delta), a[i]);
            let delta_b = choose|delta: E|
                #[trigger] is_cell_delta(flow_of, plus, world, from, i, dt, zero, delta)
                    && call_ensures(plus, (from[i], delta), b[i]);
            lemma_flow_sum_is_one(
                flow_of,
                plus,
                world,
                from,
                i,
                world.grid().neighbors(world.grid().cell_of(i)),
                dt,
                zero,
                delta_a,
                delta_b,
            );
        }
        assert(a =~= b);
    }
}

/// Where a sub-step is a function, so are any number of them.
pub proof fn lemma_reached_is_one<S>(
    step: spec_fn(S, i64, S) -> bool,
    from: S,
    dt: i64,
    n: int,
    a: S,
    b: S,
)
    requires
        step_is_function(step),
        reached(step, from, dt, n, a),
        reached(step, from, dt, n, b),
    ensures
        a == b,
    decreases n,
{
    if n > 0 {
        let mid_a = choose|mid: S| reached(step, from, dt, n - 1, mid) && #[trigger] step(mid, dt, a);
        let mid_b = choose|mid: S| reached(step, from, dt, n - 1, mid) && #[trigger] step(mid, dt, b);
        lemma_reached_is_one(step, from, dt, n - 1, mid_a, mid_b);
    }
}

/// Determinism under parallelism: two runners that advance the same state of the same
/// world by the same time with the same timestep give the same energies, whatever the
/// size of their chunks and the number of their workers, as long as the arithmetic on
/// energies gives one result for given operands.
pub proof fn lemma_runners_agree<E, F: Fn(E, Material, E, Material, i64) -> E, A: Fn(E, E) -> E>(
    flow_of: F,
    plus: A,
    world: SimWorld,
    zero: E,
    from: Seq<E>,
    timestep: i64,
    plan: SubSteps,
    one: Seq<E>,
    other: Seq<E>,
)
    requires
        flow_is_function(flow_of),
        plus_is_function(plus),
        advanced(steps(flow_of, plus, world, zero), from, timestep, plan, one),
        advanced(steps(flow_of, plus, world, zero), from, timestep, plan, other),
    ensures
        one == other,
{
    let step = steps(flow_of, plus, world, zero);
    lemma_step_is_function(flow_of, plus, world, zero);
    let mid_one = choose|mid: Seq<E>|
        #[trigger] reached(step, from, timestep, plan.full_steps as int, mid) && if plan.remainder
            > 0 {
            step(mid, plan.remainder, one)
        } else {
            one == mid
        };
    let mid_other = choose|mid: Seq<E>|
        #[trigger] reached(step, from, timestep, plan.full_steps as int, mid) && if plan.remainder
            > 0 {
            step(mid, plan.remainder, other)
        } else {
            other == mid
        };
    lemma_reached_is_one(step, from, timestep, plan.full_steps as int, mid_one, mid_other);
}

/// Whether no heat flows in a sub-step of `deltatime` ticks from the energies `energies`:
/// every flow between two cells is `zero`, and `zero` added to an energy leaves the energy.
pub open spec fn no_flow<E, F: Fn(E, Material, E, Material, i64) -> E, A: Fn(E, E) -> E>(
    flow_of: F,
    plus: A,
    world: SimWorld,
    energies: Seq<E>,
    deltatime: i64,
    zero: E,
) -> bool {
    &&& forall|cell: int, neighbor: int, flow: E|
        0 <= cell < energies.len() && 0 <= neighbor < energies.len() && #[trigger] call_ensures(
            flow_of,
            (
                energies[cell],
                world.index_material(cell),
                energies[neighbor],
                world.index_material(neighbor),
                deltatime,
            ),
            flow,
        ) ==> flow == zero
    &&& forall|energy: E, sum: E| #[trigger] call_ensures(plus, (energy, zero), sum) ==> sum == energy
}

/// Where no heat flows, the sum of the flows into a cell is `zero`.
proof fn lemma_no_flow_sums_to_zero<E, F: Fn(E, Material, E, Material, i64) -> E, A: Fn(E, E) -> E>(
    flow_of: F,
    plus: A,
    world: SimWorld,
    energies: Seq<E>,
    cell: int,
    neighbors: Seq<usize>,
    deltatime: i64,
    zero: E,
    total: E,
)
    requires
        no_flow(flow_of, plus, world, energies, deltatime, zero),
        0 <= cell < energies.len(),
        forall|j: int| 0 <= j < neighbors.len() ==> (#[trigger] neighbors[j]) < energies.len(),
        flow_sum(flow_of, plus, world, energies, cell, neighbors, deltatime, zero, total),
    ensures
        total == zero,
    decreases neighbors.len(),
{
    if neighbors.len() > 0 {
        let rest = neighbors.drop_last();
        let last = neighbors.last() as int;
        let before = choose|before: E|
            flow_sum(flow_of, plus, world, energies, cell, rest, deltatime, zero, before)
                && #[trigger] flow_added(
                flow_of,
                plus,
                world,
                energies,
                cell,
                last,
                deltatime,
                before,
                total,
            );
        assert forall|j: int| 0 <= j < rest.len() implies (#[trigger] rest[j]) < energies.len() by {
            assert(rest[j] == neighbors[j]);
        }
        lemma_no_flow_sums_to_zero(
            flow_of,
            plus,
            world,
            energies,
            cell,
            rest,
            deltatime,
            zero,
            before,
        );
    }
}

/// Where no heat flows, a sub-step leaves every energy as it is: so it is where every
/// material is a perfect insulator, and where no two neighbors differ in temperature.
pub proof fn lemma_no_flow_leaves_state<E, F: Fn(E, Material, E, Material, i64) -> E, A: Fn(E, E) -> E>(
    flow_of: F,
    plus: A,
    world: SimWorld,
    before: Seq<E>,
    deltatime: i64,
    zero: E,
    after: Seq<E>,
)
    requires
        world.wf(),
        before.len() == world.grid().cell_count(),
        no_flow(flow_of, plus, world, before, deltatime, zero),
        is_step(flow_of, plus, world, before, deltatime, zero, after),
    ensures
        after == before,
{
    assert forall|i: int| 0 <= i < before.len() implies after[i] == before[i] by {
        assert(is_cell_step(flow_of, plus, world, before, i, deltatime, zero, after[i]));
        let delta = choose|delta: E|
            #[trigger] is_cell_delta(flow_of, plus, world, before, i, deltatime, zero, delta)
                && call_ensures(plus, (before[i], delta), after[i]);
        let cell = world.grid().cell_of(i);
        world.grid().lemma_neighbors_in_grid(cell, crate::grid::KERNEL_SIZE as int);
        lemma_no_flow_sums_to_zero(
            flow_of,
            plus,
            world,
            before,
            i,
            world.grid().neighbors(cell),
            deltatime,
            zero,
            delta,
        );
    }
    assert(after =~= before);
}

/// Works out the energy delta of one cell in a sub-step of `deltatime` ticks from the
/// energies before the sub-step.
pub fn cell_delta<E: Copy, F: Fn(E, Material, E, Material, i64) -> E, A: Fn(E, E) -> E>(
    world: &SimWorld,
    state: &SimState<E>,
    cell_index: usize,
    deltatime: i64,
    zero: E,
    flow_of: &F,
    plus: &A,
) -> (delta: E)
    requires
        state@.len() == world.grid().cell_count(),
        cell_index < state@.len(),
        forall|e: E, m: Material, f: E, n: Material, dt: i64|
            call_requires(*flow_of, (e, m, f, n, dt)),
        forall|a: E, b: E| call_requires(*plus, (a, b)),
    ensures
        is_cell_delta(*flow_of, *plus, *world, state@, cell_index as int, deltatime, zero, delta),
{
    let cell = world.get_index_pos(cell_index).unwrap();
    let neighbors = world.neighbor_indices(cell.0, cell.1, cell.2);
    let cell_energy = state.get_energy(cell_index);
    let cell_material = *world.get_index_material(cell_index);
    let mut delta = zero;
    let mut k: usize = 0;
    proof {
        assert(neighbors@.take(0) =~= Seq::<usize>::empty());
    }
    while k < neighbors.len()
        invariant
            k <= neighbors@.len(),
            state@.len() == world.grid().cell_count(),
            cell_index < state@.len(),
            cell_energy == state@[cell_index as int],
            cell_material == world.index_material(cell_index as int),
            forall|j: int| 0 <= j < neighbors@.len() ==> (#[trigger] neighbors@[j]) < world.grid().cell_count(),
            forall|e: E, m: Material, f: E, n: Material, dt: i64|
                call_requires(*flow_of, (e, m, f, n, dt)),
            forall|a: E, b: E| call_requires(*plus, (a, b)),
            flow_sum(
                *flow_of,
                *plus,
                *world,
                state@,
                cell_index as int,
                neighbors@.take(k as int),
                deltatime,
                zero,
                delta,
            ),
        decreases neighbors@.len() - k,
    {
        let neighbor_index = neighbors[k];
        let flow = flow_of(
            cell_energy,
            cell_material,
            state.get_energy(neighbor_index),
            *world.get_index_material(neighbor_index),
            deltatime,
        );
        let ghost before = delta;
        delta = plus(delta, flow);
        proof {
            let upto = neighbors@.take(k + 1);
            assert(upto.drop_last() =~= neighbors@.take(k as int));
            assert(upto.last() == neighbor_index);
            assert(call_ensures(
                *flow_of,
                (
                    state@[cell_index as int],
                    world.index_material(cell_index as int),
                    state@[neighbor_index as int],
                    world.index_material(neighbor_index as int),
                    deltatime,
                ),
                flow,
            ));
            assert(flow_added(
                *flow_of,
                *plus,
                *world,
                state@,
                cell_index as int,
                neighbor_index as int,
                deltatime,
                before,
                delta,
            ));
            assert(flow_sum(
                *flow_of,
                *plus,
                *world,
                state@,
                cell_index as int,
                upto.drop_last(),
                deltatime,
                zero,
                before,
            ));
        }
        k = k + 1;
    }
    proof {
        assert(neighbors@.take(k as int) =~= neighbors@);
    }
    delta
}

/// Trait for simulation runners
///
/// Simulation runners are responsible for advacing the state of a thermal simulation in time.
/// The arithmetic on energies is the caller's: `flow_of` gives the heat that flows into a
/// cell from one neighbor in a sub-step, `plus` adds two energies, and `zero` is no energy.
/// Every runner gives what one pass over the whole grid gives, however it shares out
/// the work.
pub trait SimRunner {
    /// Whether the runner is set up so that it can run.
    spec fn ready(&self) -> bool;

    /// Advance the simulation by one sub-step of `deltatime` ticks
    ///
    /// All energy deltas are worked out from the energies before the sub-step, never from
    /// energies that the sub-step has already changed, and are then applied together.
    fn advance_world_state<E: Copy, F: Fn(E, Material, E, Material, i64) -> E, A: Fn(E, E) -> E>(
        &self,
        world: &SimWorld,
        current_state: SimState<E>,
        deltatime: i64,
        zero: E,
        flow_of: &F,
        plus: &A,
    ) -> (next: Result<SimState<E>, SimError>)
        requires
            self.ready(),
            forall|e: E, m: Material, f: E, n: Material, dt: i64|
                call_requires(*flow_of, (e, m, f, n, dt)),
            forall|a: E, b: E| call_requires(*plus, (a, b)),
        ensures
            match next {
                Ok(state) => current_state@.len() == world.grid().cell_count() && is_step(
                    *flow_of,
                    *plus,
                    *world,
                    current_state@,
                    deltatime,
                    zero,
                    state@,
                ),
                Err(error) => current_state@.len() != world.grid().cell_count() && error
                    == SimError::SimStateInvalid,
            },
    ;

    /// Advance the simulation by a given ammount of time, with the given timestep
    ///
    /// The time is cut into sub-steps of one timestep and a last one of what is left.
    /// A state of the wrong size and a timestep that is not positive are refused before
    /// any sub-step is taken.
    fn advance_simulation<E: Copy, F: Fn(E, Material, E, Material, i64) -> E, A: Fn(E, E) -> E>(
        &self,
        world: &SimWorld,
        current_state: SimState<E>,
        advace_time: i64,
        timestep: i64,
        zero: E,
        flow_of: &F,
        plus: &A,
    ) -> (next: Result<SimState<E>, SimError>)
        requires
            self.ready(),
            forall|e: E, m: Material, f: E, n: Material, dt: i64|
                call_requires(*flow_of, (e, m, f, n, dt)),
            forall|a: E, b: E| call_requires(*plus, (a, b)),
        ensures
            match next {
                Ok(state) => advance_error(*world, current_state@.len(), timestep).is_none()
                    && advanced(
                    steps(*flow_of, *plus, *world, zero),
                    current_state@,
                    timestep,
                    sub_steps(advace_time, timestep),
                    state@,
                ),
                Err(error) => advance_error(*world, current_state@.len(), timestep) == Some(error),
            },
    {
        let plan = match plan_advance(world, current_state.len(), advace_time, timestep) {
            Ok(plan) => plan,
            Err(error) => {
                return Err(error);
            },
        };
        let ghost relation = steps(*flow_of, *plus, *world, zero);
        let ghost start = current_state@;
        let mut active_state = current_state;
        let mut taken: i64 = 0;
        while taken < plan.full_steps
            invariant
                0 <= taken <= plan.full_steps,
                self.ready(),
                relation == steps(*flow_of, *plus, *world, zero),
                forall|e: E, m: Material, f: E, n: Material, dt: i64|
                    call_requires(*flow_of, (e, m, f, n, dt)),
                forall|a: E, b: E| call_requires(*plus, (a, b)),
                active_state@.len() == world.grid().cell_count(),
                reached(relation, start, timestep, taken as int, active_state@),
            decreases plan.full_steps - taken,
        {
            let ghost before = active_state@;
            match self.advance_world_state(world, active_state, timestep, zero, flow_of, plus) {
                Ok(state) => {
                    proof {
                        assert(relation(before, timestep, state@));
                        assert(reached(relation, start, timestep, (taken + 1) - 1, before));
                    }
                    active_state = state;
                },
                Err(error) => {
                    return Err(error);
                },
            }
            taken = taken + 1;
        }
        if plan.remainder > 0 {
            let ghost before = active_state@;
            match self.advance_world_state(
                world,
                active_state,
                plan.remainder,
                zero,
                flow_of,
                plus,
            ) {
                Ok(state) => {
                    assert(relation(before, plan.remainder, state@));
                    active_state = state;
                },
                Err(error) => {
                    return Err(error);
                },
            }
        }
        Ok(active_state)
    }
}

} // verus!

//! Voxelized thermal-diffusion worlds and the runners that advance them in time.
//!
//! A world is a static grid of material indices, baked from a list of paint
//! operations and stored chunk by chunk in a run-length code. A simulation state
//! holds one energy for each cell, and a runner advances it in sub-steps in which
//! every cell exchanges heat with its neighbors.
//!
//! Everything here is exact. Lengths, material properties and durations are whole
//! numbers of a small unit, and the type of an energy is left to the caller, who
//! also supplies the arithmetic on energies: how much heat flows between two
//! cells, and how two energies add up. The library decides which cells exchange
//! heat, in which order the flows are summed, and how the work is shared out.
pub mod chunk;
pub mod codec;
pub mod grid;
pub mod material;
pub mod runner;
pub mod volume;
pub mod world;

//! Discrete core of a dimension-generic molecular-dynamics simulation:
//! the lattice grid of the initial condition, the pair schedule of the
//! force loop, the step counter of the driver and the framing of the
//! checkpoint log. Every function here is proved against its contract.

pub mod d_vector;
pub mod job;
pub mod lattice;
pub mod lennard_jones;
pub mod potential;
pub mod prop;
pub mod track;

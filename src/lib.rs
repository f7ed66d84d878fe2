//! Kinematics of six-axis manipulators of the OPW geometry: the exact,
//! angle-level part of the solver.
//!
//! Angles are integers in nanodegrees, so that a full turn is an exact
//! integer and wrapping into a turn is exact.
//!
//! - `angle`: wrapping angles, and the nearest representative of an angle.
//! - `joints`: joint vectors and the per-joint offset and sign convention.
//! - `branches`: the eight branches of the inverse solution, and the
//!   selection of those that passed the round trip.
//! - `singularity`: classification of the aligned wrist.
//! - `continuation`: joint values continuous with a previous configuration.
//! - `ranking`: stable ordering by a distance key.
//! - `search`: the search for a singular solution near a pose.
//! - `parameters`: the parameter set of a manipulator and its file format.
pub mod angle;
pub mod joints;
pub mod branches;
pub mod singularity;
pub mod ranking;
pub mod continuation;
pub mod search;
pub mod parameters;

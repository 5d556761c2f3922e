//! Static verification of the determinism of arithmetic circuits.
//!
//! A circuit is a tree of components that produce rank-1 constraints
//! `A * B + C = 0` over a prime field. Some constraints are safe
//! assignments: they define one signal by the others. Given a witness, the
//! library decides as far as it can whether the outputs of the circuit are
//! determined by its inputs, and puts what it cannot decide as questions to
//! a computer algebra system.
//!
//! - [`numbers`], [`algebra`]: integers of any size, linear terms,
//!   constraints.
//! - [`input_data`], [`loader`], [`cli`]: the data of a run and the schema
//!   of the artifacts that it is read from.
//! - [`verification_graph`]: the graph of signals and edges of one
//!   component.
//! - [`propagation`]: the sweeps that fix signals and retire edges.
//! - [`components`], [`extraction`]: from the constraints that are left to
//!   polynomial systems.
//! - [`frame`], [`verdict`]: the verdict on a component and on a run.
//! - [`polynomial_system_fixer`]: the script for the computer algebra
//!   system.
//! - [`cas_driver`]: the protocol of its answers.
//! - [`diagram`]: a picture of the graph.
//!
//! The library neither reads nor writes files and starts no process.

pub mod algebra;
pub mod cas_driver;
pub mod cli;
pub mod components;
pub mod diagram;
pub mod extraction;
pub mod frame;
pub mod input_data;
pub mod loader;
pub mod numbers;
pub mod polynomial_system_fixer;
pub mod propagation;
pub mod signal_set;
pub mod text;
pub mod verdict;
pub mod verification_graph;

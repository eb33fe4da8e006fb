//! Verified core of a simulated-annealing solver for the travelling
//! salesman problem: the packed weight-matrix layout, the tour's swap
//! moves, instance parsing and report formatting.

pub mod matrix;
pub mod tour;
pub mod weights;
pub mod text;
pub mod instance_reader;
pub mod instance_writer;
pub mod db;
pub mod batch;
pub mod run_ids;
pub mod round_trip;

//! Genetic search for the capacitated vehicle routing problem with several
//! depots.
//!
//! A candidate solution is a [`chromosome::Chromosome`]: a flat sequence of
//! genes in which depot genes mark where one vehicle's route ends and the
//! next begins. The crate builds first solutions with a savings heuristic,
//! recombines and mutates chromosomes without ever losing or duplicating a
//! gene, and ranks a population by the cost of its tours.
//!
//! Distances, demands and costs are whole numbers: a [`model::Model`] is
//! given the distances between its nodes in whatever unit the caller
//! measures them, and a cost is a sum of such distances and of penalties.
//!
//! - [`model`], [`problem`]: the instance that is solved.
//! - [`heuristic`], [`construction`]: the savings method, for one depot and
//!   for a whole problem, and the first generation of a run.
//! - [`gene`], [`chromosome`], [`crossover`]: chromosomes and the operators
//!   that rearrange them.
//! - [`solution`], [`fitness`]: routes and chromosomes taken for each other,
//!   and what they cost.
//! - [`population`], [`simulation`]: a generation, the next one, and a run.
//! - [`random`], [`order`], [`parallel`]: what is drawn, sorted and done
//!   side by side by other crates.
//! - [`parser`], [`job`]: tables of numbers read from words, and the jobs of
//!   a shop.

pub mod chromosome;
pub mod config;
pub mod construction;
pub mod crossover;
pub mod error;
pub mod fitness;
pub mod gene;
pub mod heuristic;
pub mod job;
pub mod model;
pub mod order;
pub mod parallel;
pub mod parser;
pub mod population;
pub mod problem;
pub mod random;
pub mod simulation;
pub mod solution;

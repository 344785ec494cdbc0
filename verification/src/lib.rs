//! NEAT (NeuroEvolution of Augmenting Topologies): genomes, innovation bookkeeping,
//! structural mutation, crossover and the integer side of compatibility.
//!
//! Real-valued quantities (weights, biases, fitness) are carried as the IEEE-754 bit
//! patterns of `f32` values: the structural logic here copies them but never computes
//! with them.

pub mod neat;

pub use neat::compatibility;
pub use neat::connection_gene;
pub use neat::crossover;
pub use neat::genome;
pub use neat::innovation_tracker;
pub use neat::node_gene;
pub use neat::population;

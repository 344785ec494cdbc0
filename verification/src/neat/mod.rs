pub mod compatibility;
pub mod connection_gene;
pub mod crossover;
pub mod genome;
pub mod innovation_tracker;
pub mod node_gene;
pub mod population;
mod rng;

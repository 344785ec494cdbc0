use vstd::prelude::*;

use crate::neat::genome::{
    initial_connections, initial_nodes, initial_pairs, initial_tracker, is_feed_forward, Genome,
};
use crate::neat::innovation_tracker::{can_register_all, connection_steps, InnovationTracker};

verus! {

/// A set of genomes evolved together.
#[derive(Debug)]
pub struct Population {
    pub genomes: Vec<Genome>,
}

impl Population {
    /// A population of `size` fresh genomes, as [`Genome::create_initial_population`]
    /// builds them.
    pub fn new(
        size: usize,
        num_inputs: u32,
        num_outputs: u32,
        innov: &mut InnovationTracker,
        output_bias_bits: &Vec<Vec<u32>>,
        weight_bits: &Vec<Vec<u32>>,
    ) -> (p: Self)
        requires
            num_inputs + num_outputs <= u32::MAX,
            output_bias_bits@.len() == size,
            weight_bits@.len() == size,
            forall|k: int|
                0 <= k < size ==> (#[trigger] output_bias_bits@[k])@.len() == num_outputs,
            forall|k: int|
                0 <= k < size ==> (#[trigger] weight_bits@[k])@.len() == num_inputs * num_outputs,
            size > 0 ==> can_register_all(
                initial_tracker(old(innov)@, num_inputs, num_outputs),
                initial_pairs(num_inputs, num_outputs),
            ),
        ensures
            p.genomes@.len() == size,
            ({
                let (m, rs) = connection_steps(
                    initial_tracker(old(innov)@, num_inputs, num_outputs),
                    initial_pairs(num_inputs, num_outputs),
                );
                &&& final(innov)@ == (if size == 0 {
                    old(innov)@
                } else {
                    m
                })
                &&& forall|k: int|
                    0 <= k < size ==> {
                        &&& (#[trigger] p.genomes@[k]).nodes@ == initial_nodes(
                            num_inputs,
                            num_outputs,
                            output_bias_bits@[k]@,
                        )
                        &&& p.genomes@[k].connections@ == initial_connections(
                            initial_pairs(num_inputs, num_outputs),
                            weight_bits@[k]@,
                            rs,
                        )
                        &&& p.genomes@[k].fitness_bits == 0
                        &&& p.genomes@[k].wf()
                        &&& is_feed_forward(p.genomes@[k].connections@)
                    }
            }),
    {
        let genomes = Genome::create_initial_population(
            size,
            num_inputs,
            num_outputs,
            innov,
            output_bias_bits,
            weight_bits,
        );
        Population { genomes }
    }
}

} // verus!

use vstd::prelude::*;

verus! {

/// A connection gene; `weight_bits` is the bit pattern of the connection's `f32` weight.
#[derive(Debug, Clone, Copy, PartialEq, Eq, Structural)]
pub struct ConnectionGene {
    pub in_node_id: u32,
    pub out_node_id: u32,
    pub weight_bits: u32,
    pub enabled: bool,
    pub innov: u32,
}

impl ConnectionGene {
    pub fn new(in_node_id: u32, out_node_id: u32, weight_bits: u32, enabled: bool, innov: u32) -> (r:
        Self)
        ensures
            r == (ConnectionGene { in_node_id, out_node_id, weight_bits, enabled, innov }),
    {
        ConnectionGene { in_node_id, out_node_id, weight_bits, enabled, innov }
    }
}

} // verus!

use vstd::prelude::*;

verus! {

/// The activation applied to a node's summed input.
#[derive(Debug, Clone, Copy, PartialEq, Eq, Structural)]
pub enum ActivationFunction {
    Sigmoid,
    ReLU,
    Tanh,
    Softmax,
    Linear,
}

/// The role of a node in the network.
#[derive(Debug, Clone, Copy, PartialEq, Eq, Structural)]
pub enum NodeType {
    Input,
    Hidden,
    Output,
    Bias,
}

/// A node gene; `bias_bits` is the bit pattern of the node's `f32` bias.
#[derive(Debug, Clone, Copy, PartialEq, Eq, Structural)]
pub struct NodeGene {
    pub id: u32,
    pub node_type: NodeType,
    pub activation: ActivationFunction,
    pub bias_bits: u32,
}

impl NodeGene {
    pub fn new(id: u32, node_type: NodeType, activation: ActivationFunction, bias_bits: u32) -> (r:
        Self)
        ensures
            r == (NodeGene { id, node_type, activation, bias_bits }),
    {
        NodeGene { id, node_type, activation, bias_bits }
    }
}

} // verus!

use neat::compatibility::gene_alignment;
use neat::connection_gene::ConnectionGene;
use neat::crossover::{crossover, sorted_innovations};
use neat::genome::Genome;
use neat::node_gene::{ActivationFunction, NodeGene, NodeType};

fn node(id: u32, t: NodeType) -> Option<NodeGene> {
    Some(NodeGene::new(id, t, ActivationFunction::Linear, id))
}

fn genome(nodes: Vec<Option<NodeGene>>, conns: Vec<ConnectionGene>) -> Genome {
    Genome::new(nodes, conns)
}

#[test]
fn child_takes_disjoint_and_excess_genes_from_first_parent() {
    let p1 = genome(
        vec![node(0, NodeType::Input), node(1, NodeType::Output), node(5, NodeType::Hidden)],
        vec![
            ConnectionGene::new(0, 5, 10, true, 4),
            ConnectionGene::new(5, 1, 11, true, 2),
            ConnectionGene::new(0, 1, 12, false, 9),
        ],
    );
    let p2 = genome(
        vec![node(0, NodeType::Input), node(1, NodeType::Output)],
        vec![ConnectionGene::new(0, 1, 99, true, 7)],
    );
    let child = crossover(&p1, &p2);
    let innovs: Vec<u32> = child.connections.iter().map(|c| c.innov).collect();
    assert_eq!(innovs, vec![2, 4, 9]);
    assert_eq!(child.connections[0], ConnectionGene::new(5, 1, 11, true, 2));
    assert_eq!(child.connections[2], ConnectionGene::new(0, 1, 12, false, 9));
    assert_eq!(child.nodes.len(), 3);
    assert_eq!(child.nodes[&5], p1.nodes[&5]);
    assert_eq!(child.fitness_bits, 0);
}

#[test]
fn matching_gene_comes_from_either_parent() {
    let p1 = genome(
        vec![node(0, NodeType::Input), node(1, NodeType::Output)],
        vec![ConnectionGene::new(0, 1, 1, true, 0)],
    );
    let p2 = genome(
        vec![node(0, NodeType::Input), node(1, NodeType::Output)],
        vec![ConnectionGene::new(0, 1, 2, true, 0)],
    );
    let mut seen = [false, false];
    for _ in 0..200 {
        let child = crossover(&p1, &p2);
        assert_eq!(child.connections.len(), 1);
        let c = child.connections[0];
        assert!(c.enabled);
        seen[(c.weight_bits - 1) as usize] = true;
    }
    assert!(seen[0] && seen[1]);
}

#[test]
fn gene_with_a_disabled_copy_may_be_disabled() {
    let p1 = genome(
        vec![node(0, NodeType::Input), node(1, NodeType::Output)],
        vec![ConnectionGene::new(0, 1, 1, false, 0)],
    );
    let p2 = genome(
        vec![node(0, NodeType::Input), node(1, NodeType::Output)],
        vec![ConnectionGene::new(0, 1, 2, true, 0)],
    );
    let mut disabled = 0;
    for _ in 0..400 {
        if !crossover(&p1, &p2).connections[0].enabled {
            disabled += 1;
        }
    }
    assert!(disabled > 0);
}

#[test]
fn gene_whose_node_is_missing_is_dropped_and_second_parent_nodes_are_used() {
    let p1 = genome(
        vec![node(0, NodeType::Input), node(1, NodeType::Output)],
        vec![ConnectionGene::new(0, 3, 1, true, 0), ConnectionGene::new(0, 8, 1, true, 1)],
    );
    let p2 = genome(
        vec![node(3, NodeType::Hidden)],
        vec![],
    );
    let child = crossover(&p1, &p2);
    assert_eq!(child.connections, vec![ConnectionGene::new(0, 3, 1, true, 0)]);
    assert_eq!(child.nodes[&3], p2.nodes[&3]);
    assert!(!child.nodes.contains_key(&8));
}

#[test]
fn sorted_innovations_are_distinct_and_increasing() {
    let conns: Vec<ConnectionGene> = [5u32, 1, 5, 3, 1].iter().map(|&i| ConnectionGene::new(0, 1, 0, true, i)).collect();
    assert_eq!(sorted_innovations(&conns), vec![1, 3, 5]);
}

#[test]
fn alignment_counts_excess_disjoint_and_matching() {
    let g1 = genome(
        vec![],
        vec![
            ConnectionGene::new(0, 1, 10, true, 1),
            ConnectionGene::new(0, 1, 11, true, 2),
            ConnectionGene::new(0, 1, 12, true, 4),
            ConnectionGene::new(0, 1, 13, true, 8),
        ],
    );
    let g2 = genome(
        vec![],
        vec![
            ConnectionGene::new(0, 1, 20, true, 1),
            ConnectionGene::new(0, 1, 21, true, 3),
            ConnectionGene::new(0, 1, 22, true, 4),
            ConnectionGene::new(0, 1, 23, true, 5),
        ],
    );
    let a = gene_alignment(&g1, &g2);
    // bound = min(8, 5) = 5: 8 is excess; 2 and 3 are disjoint (5 is not above the bound)
    assert_eq!(a.excess, 1);
    assert_eq!(a.disjoint, 3);
    assert_eq!(a.matching_weight_bits, vec![(10, 20), (12, 22)]);
    assert_eq!(a.normalizer, 1);
}

#[test]
fn alignment_uses_last_gene_and_large_normalizer() {
    let mut c1 = Vec::new();
    for i in 0..25u32 {
        c1.push(ConnectionGene::new(0, 1, i, true, i));
    }
    c1.push(ConnectionGene::new(0, 1, 77, true, 0));
    let g1 = genome(vec![], c1);
    let g2 = genome(vec![], vec![ConnectionGene::new(0, 1, 5, true, 0)]);
    let a = gene_alignment(&g1, &g2);
    assert_eq!(a.matching_weight_bits, vec![(77, 5)]);
    assert_eq!(a.excess, 24);
    assert_eq!(a.disjoint, 0);
    assert_eq!(a.normalizer, 26);
}

#[test]
fn alignment_of_empty_genomes() {
    let g = genome(vec![], vec![]);
    let a = gene_alignment(&g, &g);
    assert_eq!((a.excess, a.disjoint, a.normalizer), (0, 0, 1));
    assert!(a.matching_weight_bits.is_empty());
}

#[test]
fn alignment_is_symmetric_and_zero_against_itself() {
    let g1 = genome(
        vec![],
        vec![
            ConnectionGene::new(0, 1, 10, true, 1),
            ConnectionGene::new(0, 1, 11, true, 6),
            ConnectionGene::new(0, 1, 12, true, 3),
        ],
    );
    let g2 = genome(
        vec![],
        vec![ConnectionGene::new(0, 1, 20, true, 1), ConnectionGene::new(0, 1, 21, true, 2)],
    );
    let a = gene_alignment(&g1, &g2);
    let b = gene_alignment(&g2, &g1);
    assert_eq!((a.excess, a.disjoint, a.normalizer), (b.excess, b.disjoint, b.normalizer));
    assert_eq!((a.excess, a.disjoint), (2, 1));
    let swapped: Vec<(u32, u32)> = b.matching_weight_bits.iter().map(|&(x, y)| (y, x)).collect();
    assert_eq!(a.matching_weight_bits, swapped);
    let s = gene_alignment(&g1, &g1);
    assert_eq!((s.excess, s.disjoint), (0, 0));
    assert!(s.matching_weight_bits.iter().all(|&(x, y)| x == y));
    assert_eq!(s.matching_weight_bits.len(), 3);
}

#[test]
fn child_nodes_are_keyed_by_node_id_whatever_the_parents_keys() {
    let mut p1 = genome(vec![], vec![ConnectionGene::new(0, 1, 7, true, 3)]);
    p1.nodes.insert(10, NodeGene::new(0, NodeType::Input, ActivationFunction::Linear, 1));
    p1.nodes.insert(11, NodeGene::new(1, NodeType::Output, ActivationFunction::Linear, 2));
    let mut p2 = genome(vec![], vec![]);
    p2.nodes.insert(20, NodeGene::new(0, NodeType::Input, ActivationFunction::Linear, 9));
    p2.nodes.insert(4, NodeGene::new(4, NodeType::Hidden, ActivationFunction::Linear, 9));
    let child = crossover(&p1, &p2);
    assert_eq!(child.connections, vec![ConnectionGene::new(0, 1, 7, true, 3)]);
    assert_eq!(child.nodes.len(), 2);
    assert_eq!(child.nodes[&0], p1.nodes[&10]);
    assert_eq!(child.nodes[&1], p1.nodes[&11]);
}

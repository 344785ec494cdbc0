use std::collections::HashSet;

use neat::connection_gene::ConnectionGene;
use neat::genome::{orient_pair, Genome, UNIT_WEIGHT_BITS};
use neat::innovation_tracker::InnovationTracker;
use neat::node_gene::{ActivationFunction, NodeGene, NodeType};
use neat::population::Population;

fn bits(x: f32) -> u32 {
    x.to_bits()
}

fn xor_genome(innov: &mut InnovationTracker) -> Genome {
    Genome::create_initial_genome(
        2,
        1,
        innov,
        &vec![bits(0.25)],
        &vec![bits(0.5), bits(-0.5)],
    )
}

fn has_cycle(g: &Genome) -> bool {
    // depth-first search for a back edge along enabled connections
    fn dfs(g: &Genome, n: u32, stack: &mut Vec<u32>, done: &mut HashSet<u32>) -> bool {
        if stack.contains(&n) {
            return true;
        }
        if done.contains(&n) {
            return false;
        }
        stack.push(n);
        for c in &g.connections {
            if c.enabled && c.in_node_id == n && dfs(g, c.out_node_id, stack, done) {
                return true;
            }
        }
        stack.pop();
        done.insert(n);
        false
    }
    let mut done = HashSet::new();
    let starts: Vec<u32> = g.connections.iter().map(|c| c.in_node_id).collect();
    starts.into_iter().any(|s| dfs(g, s, &mut Vec::new(), &mut done))
}

#[test]
fn new_keeps_last_node_of_an_id_and_skips_none() {
    let a = NodeGene::new(1, NodeType::Input, ActivationFunction::Linear, 0);
    let b = NodeGene::new(1, NodeType::Hidden, ActivationFunction::ReLU, bits(2.0));
    let c = NodeGene::new(4, NodeType::Output, ActivationFunction::Sigmoid, 0);
    let conn = ConnectionGene::new(1, 4, bits(0.3), true, 7);
    let g = Genome::new(vec![Some(a), None, Some(b), Some(c)], vec![conn]);
    assert_eq!(g.nodes.len(), 2);
    assert_eq!(g.get_node(1), Some(&b));
    assert_eq!(g.get_node(4), Some(&c));
    assert_eq!(g.get_node(2), None);
    assert_eq!(g.connections, vec![conn]);
    assert_eq!(g.fitness_bits, 0);
}

#[test]
fn initial_genome_layout() {
    let mut innov = InnovationTracker::new();
    let g = xor_genome(&mut innov);
    assert_eq!(g.nodes.len(), 3);
    assert_eq!(g.nodes[&0].node_type, NodeType::Input);
    assert_eq!(g.nodes[&1].activation, ActivationFunction::Linear);
    assert_eq!(g.nodes[&2], NodeGene::new(2, NodeType::Output, ActivationFunction::Sigmoid, bits(0.25)));
    assert_eq!(
        g.connections,
        vec![
            ConnectionGene::new(0, 2, bits(0.5), true, 0),
            ConnectionGene::new(1, 2, bits(-0.5), true, 1),
        ]
    );
    assert_eq!(innov.node_id_counter, 3);
    assert_eq!(innov.current_innovation, 2);
    assert!(!has_cycle(&g));
}

#[test]
fn initial_population_shares_innovations() {
    let mut innov = InnovationTracker::new();
    let biases = vec![vec![1, 2], vec![3, 4], vec![5, 6]];
    let weights = vec![vec![10, 11, 12, 13, 14, 15], vec![20, 21, 22, 23, 24, 25], vec![30, 31, 32, 33, 34, 35]];
    let pop = Genome::create_initial_population(3, 3, 2, &mut innov, &biases, &weights);
    assert_eq!(pop.len(), 3);
    for (k, g) in pop.iter().enumerate() {
        let innovs: Vec<u32> = g.connections.iter().map(|c| c.innov).collect();
        assert_eq!(innovs, vec![0, 1, 2, 3, 4, 5]);
        let pairs: Vec<(u32, u32)> = g.connections.iter().map(|c| (c.in_node_id, c.out_node_id)).collect();
        assert_eq!(pairs, vec![(0, 3), (0, 4), (1, 3), (1, 4), (2, 3), (2, 4)]);
        assert_eq!(g.connections[5].weight_bits, weights[k][5]);
        assert_eq!(g.nodes[&4].bias_bits, biases[k][1]);
    }
    assert_eq!(innov.current_innovation, 6);
    assert_eq!(innov.node_id_counter, 5);

    let p = Population::new(2, 3, 2, &mut innov, &biases[..2].to_vec(), &weights[..2].to_vec());
    assert_eq!(p.genomes.len(), 2);
    assert_eq!(p.genomes[1].connections, pop[1].connections);
    assert_eq!(innov.current_innovation, 6);
}

#[test]
fn empty_population_leaves_tracker_alone() {
    let mut innov = InnovationTracker::new();
    innov.node_id_counter = 42;
    let pop = Genome::create_initial_population(0, 2, 1, &mut innov, &vec![], &vec![]);
    assert!(pop.is_empty());
    assert_eq!(innov.node_id_counter, 42);
}

#[test]
fn add_node_splits_the_only_enabled_connection() {
    let mut innov = InnovationTracker::new();
    let mut g = xor_genome(&mut innov);
    g.connections[0].enabled = false;
    g.mutate_add_node(&mut innov, bits(0.75));
    assert_eq!(g.connections.len(), 4);
    assert!(!g.connections[1].enabled);
    assert_eq!(g.connections[2], ConnectionGene::new(1, 3, UNIT_WEIGHT_BITS, true, 2));
    assert_eq!(g.connections[3], ConnectionGene::new(3, 2, bits(-0.5), true, 3));
    assert_eq!(g.nodes[&3], NodeGene::new(3, NodeType::Hidden, ActivationFunction::ReLU, bits(0.75)));
    assert_eq!(f32::from_bits(UNIT_WEIGHT_BITS), 1.0);
    assert_eq!(innov.node_innovations[&1], (3, 2, 3));
    assert!(!has_cycle(&g));
}

#[test]
fn add_node_without_enabled_connection_changes_nothing() {
    let mut innov = InnovationTracker::new();
    let mut g = xor_genome(&mut innov);
    for c in g.connections.iter_mut() {
        c.enabled = false;
    }
    let before = g.clone();
    let tracker_before = innov.clone();
    g.mutate_add_node(&mut innov, 0);
    assert_eq!(g, before);
    assert_eq!(innov, tracker_before);
}

#[test]
fn add_connection_never_links_invalid_pairs_or_cycles() {
    for _ in 0..200 {
        let mut innov = InnovationTracker::new();
        let mut g = xor_genome(&mut innov);
        g.mutate_add_node(&mut innov, 0);
        g.mutate_add_node(&mut innov, 0);
        let before = g.connections.clone();
        g.mutate_add_connection(&mut innov, bits(0.1));
        assert!(!has_cycle(&g));
        if g.connections.len() == before.len() + 1 {
            let c = *g.connections.last().unwrap();
            assert_ne!(c.in_node_id, c.out_node_id);
            assert_ne!(g.nodes[&c.in_node_id].node_type, NodeType::Output);
            assert_ne!(g.nodes[&c.out_node_id].node_type, NodeType::Input);
            assert!(!before.iter().any(|b| (b.in_node_id == c.in_node_id && b.out_node_id == c.out_node_id)
                || (b.in_node_id == c.out_node_id && b.out_node_id == c.in_node_id)));
            assert!(c.enabled);
            assert_eq!(c.weight_bits, bits(0.1));
        } else {
            assert_eq!(g.connections, before);
        }
    }
}

#[test]
fn add_connection_on_a_full_genome_changes_nothing() {
    let mut innov = InnovationTracker::new();
    let mut g = xor_genome(&mut innov);
    let before = g.clone();
    // inputs cannot be linked to each other, and every input already feeds the output
    g.mutate_add_connection(&mut innov, 0);
    assert_eq!(g, before);
    assert_eq!(innov.current_innovation, 2);
}

#[test]
fn add_connection_links_the_only_free_pair() {
    // 0 (input) -> 1 (hidden) -> 2 (output); the only free pair is 0 -> 2
    let nodes = vec![
        Some(NodeGene::new(0, NodeType::Input, ActivationFunction::Linear, 0)),
        Some(NodeGene::new(1, NodeType::Hidden, ActivationFunction::ReLU, 0)),
        Some(NodeGene::new(2, NodeType::Output, ActivationFunction::Sigmoid, 0)),
    ];
    let conns = vec![ConnectionGene::new(0, 1, 0, true, 0), ConnectionGene::new(1, 2, 0, true, 1)];
    let mut added = false;
    for _ in 0..50 {
        let mut innov = InnovationTracker::new();
        innov.current_innovation = 2;
        let mut g = Genome::new(nodes.clone(), conns.clone());
        g.mutate_add_connection(&mut innov, 5);
        if g.connections.len() == 3 {
            assert_eq!(g.connections[2], ConnectionGene::new(0, 2, 5, true, 2));
            added = true;
        }
    }
    assert!(added);
}

#[test]
fn evaluation_order_respects_enabled_connections() {
    let mut innov = InnovationTracker::new();
    let mut g = xor_genome(&mut innov);
    g.mutate_add_node(&mut innov, 0);
    g.mutate_add_node(&mut innov, 0);
    let order = g.evaluation_order();
    assert_eq!(order.len(), g.nodes.len());
    let pos = |n: u32| order.iter().position(|&x| x == n).unwrap();
    for c in &g.connections {
        if c.enabled {
            assert!(pos(c.in_node_id) < pos(c.out_node_id));
        }
    }
    let edges = g.enabled_edges();
    assert_eq!(edges.len(), g.nodes.len());
    let enabled: usize = edges.values().map(|v| v.len()).sum();
    assert_eq!(enabled, g.connections.iter().filter(|c| c.enabled).count());
}

#[test]
fn link_pair_orients_and_checks() {
    let mut innov = InnovationTracker::new();
    let mut g = xor_genome(&mut innov);
    g.split_connection(&mut innov, 0, 0);
    // nodes: 0, 1 inputs, 2 output, 3 hidden; enabled: 1->2, 0->3, 3->2
    let input1 = g.nodes[&1];
    let output = g.nodes[&2];
    let hidden = g.nodes[&3];
    // output first is reversed to 3 -> 2, which already exists
    assert!(!g.link_pair(&mut innov, output, hidden, 9));
    // hidden with an input is reversed to 1 -> 3, which is new
    let before = g.connections.len();
    assert!(g.link_pair(&mut innov, hidden, input1, 9));
    assert_eq!(g.connections.len(), before + 1);
    assert_eq!(*g.connections.last().unwrap(), ConnectionGene::new(1, 3, 9, true, 4));
    // a node with itself is refused
    assert!(!g.link_pair(&mut innov, hidden, hidden, 9));
    // two inputs are refused
    let input0 = g.nodes[&0];
    assert!(!g.link_pair(&mut innov, input0, input1, 9));
    assert!(!has_cycle(&g));
}

#[test]
fn link_pair_refuses_a_cycle() {
    let nodes = vec![
        Some(NodeGene::new(0, NodeType::Hidden, ActivationFunction::ReLU, 0)),
        Some(NodeGene::new(1, NodeType::Hidden, ActivationFunction::ReLU, 0)),
        Some(NodeGene::new(2, NodeType::Hidden, ActivationFunction::ReLU, 0)),
    ];
    let conns = vec![ConnectionGene::new(0, 1, 0, true, 0), ConnectionGene::new(1, 2, 0, true, 1)];
    let mut g = Genome::new(nodes, conns);
    let mut innov = InnovationTracker::new();
    let n0 = g.nodes[&0];
    let n2 = g.nodes[&2];
    let tracker_before = innov.clone();
    assert!(!g.link_pair(&mut innov, n2, n0, 0));
    assert_eq!(innov, tracker_before);
    // a disabled link does not count as a path
    g.connections[1].enabled = false;
    assert!(g.link_pair(&mut innov, n2, n0, 0));
    assert_eq!(*g.connections.last().unwrap(), ConnectionGene::new(2, 0, 0, true, 0));
}

#[test]
fn split_connection_is_exact_and_reuses_a_known_split() {
    let mut innov = InnovationTracker::new();
    let mut g1 = xor_genome(&mut innov);
    let mut g2 = g1.clone();
    g1.split_connection(&mut innov, 1, bits(0.5));
    assert_eq!(
        g1.connections,
        vec![
            ConnectionGene::new(0, 2, bits(0.5), true, 0),
            ConnectionGene::new(1, 2, bits(-0.5), false, 1),
            ConnectionGene::new(1, 3, UNIT_WEIGHT_BITS, true, 2),
            ConnectionGene::new(3, 2, bits(-0.5), true, 3),
        ]
    );
    // the same split in another genome gets the same node and innovations
    g2.split_connection(&mut innov, 1, bits(-0.25));
    let innovs1: Vec<u32> = g1.connections.iter().map(|c| c.innov).collect();
    let innovs2: Vec<u32> = g2.connections.iter().map(|c| c.innov).collect();
    assert_eq!(innovs1, innovs2);
    assert_eq!(g2.nodes[&3].bias_bits, bits(-0.25));
    assert_eq!(innov.node_id_counter, 4);
    assert_eq!(innov.current_innovation, 4);
}

#[test]
fn add_node_picks_among_enabled_connections() {
    let mut seen = [false, false];
    for _ in 0..200 {
        let mut innov = InnovationTracker::new();
        let mut g = xor_genome(&mut innov);
        g.mutate_add_node(&mut innov, 0);
        let split = g.connections.iter().position(|c| !c.enabled).unwrap();
        seen[split] = true;
        assert_eq!(g.connections.len(), 4);
        assert_eq!(g.nodes.len(), 4);
    }
    assert!(seen[0] && seen[1]);
}

#[test]
fn add_connection_always_links_when_every_pair_may_be_linked() {
    // one input and one output, not yet connected: whichever order they are drawn in,
    // the link 0 -> 1 is made
    for _ in 0..50 {
        let nodes = vec![
            Some(NodeGene::new(0, NodeType::Input, ActivationFunction::Linear, 0)),
            Some(NodeGene::new(1, NodeType::Output, ActivationFunction::Sigmoid, 0)),
        ];
        let mut g = Genome::new(nodes, vec![]);
        let mut innov = InnovationTracker::new();
        g.mutate_add_connection(&mut innov, 3);
        assert_eq!(g.connections, vec![ConnectionGene::new(0, 1, 3, true, 0)]);
    }
}

#[test]
fn pairs_are_tried_towards_outputs_and_away_from_inputs() {
    let i = NodeGene::new(0, NodeType::Input, ActivationFunction::Linear, 0);
    let o = NodeGene::new(1, NodeType::Output, ActivationFunction::Linear, 0);
    let h = NodeGene::new(2, NodeType::Hidden, ActivationFunction::ReLU, 0);
    assert_eq!(orient_pair(o, i), (i, o));
    assert_eq!(orient_pair(h, i), (i, h));
    assert_eq!(orient_pair(h, o), (h, o));
    assert_eq!(orient_pair(i, h), (i, h));
}

#[test]
fn can_link_refuses_existing_links_and_cycles() {
    let i = NodeGene::new(0, NodeType::Input, ActivationFunction::Linear, 0);
    let o = NodeGene::new(1, NodeType::Output, ActivationFunction::Linear, 0);
    let h = NodeGene::new(2, NodeType::Hidden, ActivationFunction::ReLU, 0);
    let g = Genome::new(
        vec![Some(i), Some(o), Some(h)],
        vec![ConnectionGene::new(0, 1, 0, true, 0)],
    );
    assert!(!g.can_link(i, o));
    assert!(!g.can_link(o, i));
    assert!(g.can_link(o, h));
    assert!(g.can_link(i, h));
    assert!(!g.can_link(h, h));
    let n3 = NodeGene::new(3, NodeType::Hidden, ActivationFunction::ReLU, 0);
    let n4 = NodeGene::new(4, NodeType::Hidden, ActivationFunction::ReLU, 0);
    let g2 = Genome::new(
        vec![Some(h), Some(n3), Some(n4)],
        vec![ConnectionGene::new(2, 3, 0, true, 0), ConnectionGene::new(3, 4, 0, true, 1)],
    );
    assert!(!g2.can_link(n3, h));
    assert!(!g2.can_link(n4, h));
    assert!(g2.can_link(h, n4));
}

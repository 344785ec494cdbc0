use std::collections::HashMap;
use vstd::prelude::*;

use crate::neat::connection_gene::ConnectionGene;
use crate::neat::genome::{map_values, Genome};
use crate::neat::node_gene::{NodeGene, NodeType};

verus! {

broadcast use vstd::std_specs::hash::group_hash_axioms;

/// Some connection of `conns` has innovation `x`.
pub open spec fn has_innovation(conns: Seq<ConnectionGene>, x: u32) -> bool {
    exists|i: int| 0 <= i < conns.len() && (#[trigger] conns[i]).innov == x
}

/// The last connection of `conns` with innovation `x`: the one a map keyed by
/// innovation keeps when the connections are inserted in order.
pub open spec fn last_gene(conns: Seq<ConnectionGene>, x: u32) -> Option<ConnectionGene>
    decreases conns.len(),
{
    if conns.len() == 0 {
        None
    } else if conns.last().innov == x {
        Some(conns.last())
    } else {
        last_gene(conns.drop_last(), x)
    }
}

/// The values of `s` strictly increase.
pub open spec fn strictly_increasing(s: Seq<u32>) -> bool {
    forall|i: int, j: int| 0 <= i < j < s.len() ==> s[i] < s[j]
}

pub proof fn lemma_last_gene(conns: Seq<ConnectionGene>, x: u32)
    ensures
        last_gene(conns, x) is Some <==> has_innovation(conns, x),
        last_gene(conns, x) matches Some(g) ==> g.innov == x,
    decreases conns.len(),
{
    if conns.len() > 0 {
        let rest = conns.drop_last();
        lemma_last_gene(rest, x);
        if has_innovation(rest, x) {
            let i = choose|i: int| 0 <= i < rest.len() && (#[trigger] rest[i]).innov == x;
            assert(conns[i] == rest[i]);
        }
        if has_innovation(conns, x) && conns.last().innov != x {
            let i = choose|i: int| 0 <= i < conns.len() && (#[trigger] conns[i]).innov == x;
            assert(rest[i] == conns[i]);
        }
    }
}

/// The last connection of `conns` with innovation `innov`, if any.
pub fn find_last_gene(conns: &Vec<ConnectionGene>, innov: u32) -> (r: Option<ConnectionGene>)
    ensures
        r == last_gene(conns@, innov),
{
    let mut i: usize = conns.len();
    assert(conns@.take(i as int) == conns@);
    while i > 0
        invariant
            i <= conns.len(),
            last_gene(conns@, innov) == last_gene(conns@.take(i as int), innov),
        decreases i,
    {
        assert(conns@.take(i as int).drop_last() == conns@.take(i as int - 1));
        if conns[i - 1].innov == innov {
            return Some(conns[i - 1]);
        }
        i = i - 1;
    }
    None
}

/// The innovation numbers of `conns`, each once, in increasing order.
pub fn sorted_innovations(conns: &Vec<ConnectionGene>) -> (r: Vec<u32>)
    ensures
        strictly_increasing(r@),
        forall|x: u32| r@.contains(x) <==> has_innovation(conns@, x),
{
    let mut r: Vec<u32> = Vec::new();
    let mut i: usize = 0;
    while i < conns.len()
        invariant
            i <= conns.len(),
            strictly_increasing(r@),
            forall|x: u32| r@.contains(x) <==> has_innovation(conns@.take(i as int), x),
        decreases conns.len() - i,
    {
        let x = conns[i].innov;
        let mut pos: usize = 0;
        while pos < r.len() && r[pos] < x
            invariant
                pos <= r.len(),
                forall|t: int| 0 <= t < pos ==> r@[t] < x,
            decreases r.len() - pos,
        {
            pos = pos + 1;
        }
        let ghost before = r@;
        if pos == r.len() || r[pos] != x {
            r.insert(pos, x);
            proof {
                assert forall|a: int, b: int| 0 <= a < b < r@.len() implies r@[a] < r@[b] by {
                    if b < pos {
                    } else if b == pos {
                        assert(r@[a] == before[a]);
                    } else if a < pos {
                        assert(r@[b] == before[b - 1]);
                        assert(before[b - 1] >= x);
                    } else if a == pos {
                        assert(r@[b] == before[b - 1]);
                        assert(before[pos as int] > x);
                        if b - 1 > pos {
                            assert(before[pos as int] < before[b - 1]);
                        }
                    } else {
                        assert(r@[a] == before[a - 1] && r@[b] == before[b - 1]);
                    }
                }
            }
        }
        proof {
            let t0 = conns@.take(i as int);
            let t1 = conns@.take(i as int + 1);
            assert forall|y: u32| r@.contains(y) <==> has_innovation(t1, y) by {
                if has_innovation(t1, y) {
                    let k = choose|k: int| 0 <= k < t1.len() && (#[trigger] t1[k]).innov == y;
                    if k < i {
                        assert(t0[k] == t1[k]);
                        assert(before.contains(y));
                        let q = choose|q: int| 0 <= q < before.len() && before[q] == y;
                        if r@.len() > before.len() {
                            if q < pos {
                                assert(r@[q] == y);
                            } else {
                                assert(r@[q + 1] == y);
                            }
                        }
                    } else {
                        if r@.len() > before.len() {
                            assert(r@[pos as int] == x);
                        } else {
                            assert(r@[pos as int] == x);
                        }
                    }
                }
                if r@.contains(y) {
                    let q = choose|q: int| 0 <= q < r@.len() && r@[q] == y;
                    if r@.len() > before.len() && q == pos {
                        assert(t1[i as int].innov == y);
                    } else {
                        if r@.len() > before.len() && q > pos {
                            assert(before[q - 1] == y);
                        } else {
                            assert(before[q] == y);
                        }
                        assert(before.contains(y));
                        let k = choose|k: int| 0 <= k < t0.len() && (#[trigger] t0[k]).innov == y;
                        assert(t1[k] == t0[k]);
                    }
                }
            }
        }
        i = i + 1;
    }
    assert(conns@.take(conns.len() as int) == conns@);
    r
}

/// Some node of `nodes` has id `id`.
pub open spec fn has_node_id(nodes: Map<u32, NodeGene>, id: u32) -> bool {
    exists|k: u32| #![trigger nodes[k]] nodes.contains_key(k) && nodes[k].id == id
}

/// `pool` is a node map the child can draw from: keyed by node id, with an entry for each
/// id of a node of either parent, holding a node of the first parent with that id, or,
/// when the first parent has none, one of the second parent's. (When a parent holds two
/// nodes with the same id, which one is taken follows the map's iteration order.)
pub open spec fn node_pool(
    n1: Map<u32, NodeGene>,
    n2: Map<u32, NodeGene>,
    pool: Map<u32, NodeGene>,
) -> bool {
    &&& forall|id: u32| #[trigger]
        pool.contains_key(id) <==> has_node_id(n1, id) || has_node_id(n2, id)
    &&& forall|id: u32| #[trigger]
        pool.contains_key(id) ==> pool[id].id == id && (if has_node_id(n1, id) {
            n1.values().contains(pool[id])
        } else {
            n2.values().contains(pool[id])
        })
}

/// For parents that store every node under its own id: the first parent's nodes, then
/// the second parent's for ids the first lacks.
pub open spec fn parent_nodes(n1: Map<u32, NodeGene>, n2: Map<u32, NodeGene>) -> Map<u32, NodeGene> {
    n2.union_prefer_right(n1)
}

/// Every node is stored under its own id.
pub open spec fn keyed_by_id(nodes: Map<u32, NodeGene>) -> bool {
    forall|k: u32| #[trigger] nodes.contains_key(k) ==> nodes[k].id == k
}

/// For parents that store every node under its own id there is one pool: the first
/// parent's nodes, then the second's.
pub proof fn lemma_node_pool_keyed(n1: Map<u32, NodeGene>, n2: Map<u32, NodeGene>, pool: Map<u32, NodeGene>)
    requires
        keyed_by_id(n1),
        keyed_by_id(n2),
        node_pool(n1, n2, pool),
    ensures
        pool == parent_nodes(n1, n2),
{
    let pn = parent_nodes(n1, n2);
    assert forall|id: u32| #[trigger] pool.contains_key(id) <==> pn.contains_key(id) by {
        if has_node_id(n1, id) {
            let k = choose|k: u32| #![trigger n1[k]] n1.contains_key(k) && n1[k].id == id;
        }
        if has_node_id(n2, id) {
            let k = choose|k: u32| #![trigger n2[k]] n2.contains_key(k) && n2[k].id == id;
        }
        if n1.contains_key(id) {
            assert(n1[id].id == id);
        }
        if n2.contains_key(id) {
            assert(n2[id].id == id);
        }
    }
    assert forall|id: u32| pool.contains_key(id) implies pool[id] == pn[id] by {
        if has_node_id(n1, id) {
            let k = choose|k: u32| n1.contains_key(k) && n1[k] == pool[id];
            assert(n1[k].id == k);
            let k1 = choose|k: u32| #![trigger n1[k]] n1.contains_key(k) && n1[k].id == id;
        } else {
            let k = choose|k: u32| n2.contains_key(k) && n2[k] == pool[id];
            assert(n2[k].id == k);
            if n1.contains_key(id) {
                assert(n1[id].id == id);
            }
        }
    }
    assert(pool =~= pn);
}

/// The child's gene for innovation `x`: none when the first parent lacks `x`; the first
/// parent's gene when only it has `x`; otherwise the first parent's gene if `take_first`
/// and the second's if not, disabled when `disable` holds and either parent's gene is
/// disabled.
pub open spec fn offspring_gene(
    c1: Seq<ConnectionGene>,
    c2: Seq<ConnectionGene>,
    x: u32,
    take_first: bool,
    disable: bool,
) -> Option<ConnectionGene> {
    match last_gene(c1, x) {
        None => None,
        Some(g1) => match last_gene(c2, x) {
            None => Some(g1),
            Some(g2) => {
                let sel = if take_first {
                    g1
                } else {
                    g2
                };
                if (!g1.enabled || !g2.enabled) && disable {
                    Some(
                        ConnectionGene {
                            in_node_id: sel.in_node_id,
                            out_node_id: sel.out_node_id,
                            weight_bits: sel.weight_bits,
                            enabled: false,
                            innov: sel.innov,
                        },
                    )
                } else {
                    Some(sel)
                }
            },
        },
    }
}

/// The child's connections for the innovations and draws of `choices`, in order: each
/// gene kept when both its ends are among `nodes`.
pub open spec fn offspring_connections(
    c1: Seq<ConnectionGene>,
    c2: Seq<ConnectionGene>,
    nodes: Map<u32, NodeGene>,
    choices: Seq<(u32, bool, bool)>,
) -> Seq<ConnectionGene>
    decreases choices.len(),
{
    if choices.len() == 0 {
        Seq::empty()
    } else {
        let rest = offspring_connections(c1, c2, nodes, choices.drop_last());
        let (x, take_first, disable) = choices.last();
        match offspring_gene(c1, c2, x, take_first, disable) {
            Some(g) => if nodes.contains_key(g.in_node_id) && nodes.contains_key(g.out_node_id) {
                rest.push(g)
            } else {
                rest
            },
            None => rest,
        }
    }
}

/// Every gene of a child carries an innovation of the first parent, taken from the
/// choices; when the choices' innovations increase, so do the child's.
pub proof fn lemma_offspring_innovations(
    c1: Seq<ConnectionGene>,
    c2: Seq<ConnectionGene>,
    nodes: Map<u32, NodeGene>,
    choices: Seq<(u32, bool, bool)>,
)
    ensures
        ({
            let out = offspring_connections(c1, c2, nodes, choices);
            &&& forall|i: int|
                0 <= i < out.len() ==> has_innovation(c1, (#[trigger] out[i]).innov) && exists|
                    k: int,
                | 0 <= k < choices.len() && (#[trigger] choices[k]).0 == out[i].innov
            &&& strictly_increasing(choices.map_values(|c: (u32, bool, bool)| c.0))
                ==> strictly_increasing(out.map_values(|g: ConnectionGene| g.innov))
        }),
    decreases choices.len(),
{
    if choices.len() > 0 {
        let rest_choices = choices.drop_last();
        lemma_offspring_innovations(c1, c2, nodes, rest_choices);
        let rest = offspring_connections(c1, c2, nodes, rest_choices);
        let out = offspring_connections(c1, c2, nodes, choices);
        let (x, take_first, disable) = choices.last();
        lemma_last_gene(c1, x);
        lemma_last_gene(c2, x);
        assert forall|i: int| 0 <= i < out.len() implies has_innovation(c1, (#[trigger] out[i]).innov)
            && exists|k: int| 0 <= k < choices.len() && (#[trigger] choices[k]).0 == out[i].innov by {
            if i < rest.len() {
                assert(out[i] == rest[i]);
                let k = choose|k: int|
                    0 <= k < rest_choices.len() && (#[trigger] rest_choices[k]).0 == rest[i].innov;
                assert(choices[k] == rest_choices[k]);
            } else {
                assert(choices[choices.len() - 1].0 == x);
            }
        }
        if strictly_increasing(choices.map_values(|c: (u32, bool, bool)| c.0)) {
            let xs = choices.map_values(|c: (u32, bool, bool)| c.0);
            let xr = rest_choices.map_values(|c: (u32, bool, bool)| c.0);
            assert(strictly_increasing(xr)) by {
                assert forall|a: int, b: int| 0 <= a < b < xr.len() implies #[trigger] xr[a]
                    < #[trigger] xr[b] by {
                    assert(xs[a] < xs[b]);
                }
            }
            let ys = out.map_values(|g: ConnectionGene| g.innov);
            let yr = rest.map_values(|g: ConnectionGene| g.innov);
            assert forall|a: int, b: int| 0 <= a < b < ys.len() implies ys[a] < ys[b] by {
                if b < rest.len() {
                    assert(ys[a] == yr[a] && ys[b] == yr[b]);
                } else {
                    assert(out[a] == rest[a]);
                    let k = choose|k: int|
                        0 <= k < rest_choices.len() && (#[trigger] rest_choices[k]).0
                            == rest[a].innov;
                    assert(xs[k] < xs[choices.len() - 1]);
                }
            }
        }
    }
}

/// An input or output node.
pub open spec fn is_io(n: NodeGene) -> bool {
    n.node_type == NodeType::Input || n.node_type == NodeType::Output
}

/// The ids of the child's nodes: the first parent's inputs and outputs, and the ends of
/// the child's connections.
pub open spec fn offspring_node_ids(n1: Map<u32, NodeGene>, conns: Seq<ConnectionGene>) -> Set<u32> {
    Set::new(
        |id: u32|
            (exists|k: u32| #![trigger n1[k]] n1.contains_key(k) && n1[k].id == id && is_io(n1[k]))
                || exists|i: int|
                0 <= i < conns.len() && ((#[trigger] conns[i]).in_node_id == id
                    || conns[i].out_node_id == id),
    )
}

/// Every input and output node of the first parent gives the child a node of its id,
/// whatever genes the child inherits, and each of the child's nodes carries its own id.
pub proof fn lemma_offspring_keeps_io(
    n1: Map<u32, NodeGene>,
    n2: Map<u32, NodeGene>,
    pool: Map<u32, NodeGene>,
    conns: Seq<ConnectionGene>,
)
    requires
        node_pool(n1, n2, pool),
    ensures
        forall|k: u32|
            n1.contains_key(k) && (#[trigger] n1[k].node_type == NodeType::Input || n1[k].node_type
                == NodeType::Output) ==> pool.restrict(offspring_node_ids(n1, conns)).contains_key(
                n1[k].id,
            ),
        forall|id: u32|
            #[trigger] pool.restrict(offspring_node_ids(n1, conns)).contains_key(id) ==> pool[id].id
                == id,
{
    assert forall|k: u32|
        n1.contains_key(k) && (#[trigger] n1[k].node_type == NodeType::Input || n1[k].node_type
            == NodeType::Output) implies pool.restrict(offspring_node_ids(n1, conns)).contains_key(
        n1[k].id,
    ) by {
        assert(has_node_id(n1, n1[k].id));
        assert(pool.contains_key(n1[k].id));
        assert(offspring_node_ids(n1, conns).contains(n1[k].id));
    }
}

/// A child of two genomes, the first taken as the fitter. Genes are aligned by
/// innovation in increasing order; the first parent's genes decide which innovations the
/// child inherits; a gene both parents have comes from either at random and, when either
/// copy is disabled, is disabled with chance 3/4. A gene is kept when both its ends are
/// nodes of a parent. The child's nodes are the first parent's inputs and outputs and
/// the ends of its genes; its fitness is `0.0`.
pub fn crossover(parent1: &Genome, parent2: &Genome) -> (child: Genome)
    ensures
        child.wf(),
        child.fitness_bits == 0,
        forall|k: u32|
            parent1.nodes@.contains_key(k) && (#[trigger] parent1.nodes@[k].node_type
                == NodeType::Input || parent1.nodes@[k].node_type == NodeType::Output)
                ==> child.nodes@.contains_key(parent1.nodes@[k].id),
        forall|i: int|
            0 <= i < child.connections@.len() ==> has_innovation(
                parent1.connections@,
                (#[trigger] child.connections@[i]).innov,
            ),
        strictly_increasing(child.connections@.map_values(|g: ConnectionGene| g.innov)),
        exists|pool: Map<u32, NodeGene>, choices: Seq<(u32, bool, bool)>|
            #![trigger node_pool(parent1.nodes@, parent2.nodes@, pool), choices.len()]
            {
                &&& node_pool(parent1.nodes@, parent2.nodes@, pool)
                &&& strictly_increasing(choices.map_values(|c: (u32, bool, bool)| c.0))
                &&& forall|x: u32|
                    #![trigger has_innovation(parent1.connections@, x)]
                    choices.map_values(|c: (u32, bool, bool)| c.0).contains(x)
                        <==> has_innovation(parent1.connections@, x)
                &&& child.connections@ == offspring_connections(
                    parent1.connections@,
                    parent2.connections@,
                    pool,
                    choices,
                )
                &&& child.nodes@ == pool.restrict(
                    offspring_node_ids(parent1.nodes@, child.connections@),
                )
            },
{
    let ghost c1 = parent1.connections@;
    let ghost c2 = parent2.connections@;
    let ghost n1 = parent1.nodes@;
    let ghost n2 = parent2.nodes@;
    // the node pool, keyed by node id: the first parent's nodes, then the second's
    let list1 = map_values(&parent1.nodes);
    let mut pool: HashMap<u32, NodeGene> = HashMap::new();
    let mut io_ids: Vec<u32> = Vec::new();
    let mut i: usize = 0;
    while i < list1.len()
        invariant
            i <= list1.len(),
            n1 == parent1.nodes@,
            list1@.to_set() == n1.values(),
            forall|id: u32|
                #[trigger] pool@.contains_key(id) <==> exists|t: int|
                    0 <= t < i && (#[trigger] list1@[t]).id == id,
            forall|id: u32|
                #[trigger] pool@.contains_key(id) ==> pool@[id].id == id && n1.values().contains(
                    pool@[id],
                ),
            forall|id: u32|
                #[trigger] io_ids@.contains(id) <==> exists|t: int|
                    0 <= t < i && (#[trigger] list1@[t]).id == id && is_io(list1@[t]),
        decreases list1.len() - i,
    {
        let n = list1[i];
        proof {
            assert(list1@.contains(n));
            assert(list1@.to_set().contains(n));
        }
        let ghost io0 = io_ids@;
        pool.insert(n.id, n);
        if n.node_type == NodeType::Input || n.node_type == NodeType::Output {
            io_ids.push(n.id);
        }
        proof {
            assert forall|id: u32|
                #[trigger] io_ids@.contains(id) <==> exists|t: int|
                    0 <= t < i + 1 && (#[trigger] list1@[t]).id == id && is_io(list1@[t]) by {
                if io_ids@.contains(id) {
                    let q = choose|q: int| 0 <= q < io_ids@.len() && io_ids@[q] == id;
                    if q < io0.len() {
                        assert(io0.contains(id));
                    } else {
                        assert(list1@[i as int].id == id && is_io(list1@[i as int]));
                    }
                }
                if exists|t: int| 0 <= t < i + 1 && (#[trigger] list1@[t]).id == id && is_io(list1@[t]) {
                    let t = choose|t: int| 0 <= t < i + 1 && (#[trigger] list1@[t]).id == id && is_io(list1@[t]);
                    if t < i {
                        assert(io0.contains(id));
                        let q = choose|q: int| 0 <= q < io0.len() && io0[q] == id;
                        assert(io_ids@[q] == id);
                    } else {
                        assert(io_ids@[io0.len() as int] == id);
                    }
                }
            }
            assert forall|id: u32|
                #[trigger] pool@.contains_key(id) <==> exists|t: int|
                    0 <= t < i + 1 && (#[trigger] list1@[t]).id == id by {
                if id == n.id {
                    assert(list1@[i as int].id == id);
                }
            }
        }
        i = i + 1;
    }
    proof {
        assert forall|id: u32| #[trigger] pool@.contains_key(id) <==> has_node_id(n1, id) by {
            if pool@.contains_key(id) {
                let t = choose|t: int| 0 <= t < list1@.len() && (#[trigger] list1@[t]).id == id;
                assert(list1@.to_set().contains(list1@[t]));
                let k = choose|k: u32| n1.contains_key(k) && n1[k] == list1@[t];
                assert(n1[k].id == id);
            }
            if has_node_id(n1, id) {
                let k = choose|k: u32| #![trigger n1[k]] n1.contains_key(k) && n1[k].id == id;
                assert(n1.values().contains(n1[k]));
                assert(list1@.to_set().contains(n1[k]));
                let t = choose|t: int| 0 <= t < list1@.len() && list1@[t] == n1[k];
                assert(list1@[t].id == id);
            }
        }
        assert forall|id: u32| #[trigger] io_ids@.contains(id) <==> (exists|k: u32|
            #![trigger n1[k]]
            n1.contains_key(k) && n1[k].id == id && is_io(n1[k])) by {
            if io_ids@.contains(id) {
                let t = choose|t: int|
                    0 <= t < list1@.len() && (#[trigger] list1@[t]).id == id && is_io(list1@[t]);
                assert(list1@.to_set().contains(list1@[t]));
                let k = choose|k: u32| n1.contains_key(k) && n1[k] == list1@[t];
                assert(n1[k].id == id);
            }
            if exists|k: u32| #![trigger n1[k]] n1.contains_key(k) && n1[k].id == id && is_io(n1[k]) {
                let k = choose|k: u32| #![trigger n1[k]] n1.contains_key(k) && n1[k].id == id && is_io(n1[k]);
                assert(n1.values().contains(n1[k]));
                assert(list1@.to_set().contains(n1[k]));
                let t = choose|t: int| 0 <= t < list1@.len() && list1@[t] == n1[k];
                assert(list1@[t].id == id && is_io(list1@[t]));
            }
        }
    }
    let list2 = map_values(&parent2.nodes);
    let ghost pool1 = pool@;
    let mut j: usize = 0;
    while j < list2.len()
        invariant
            j <= list2.len(),
            n1 == parent1.nodes@,
            n2 == parent2.nodes@,
            list2@.to_set() == n2.values(),
            forall|id: u32| #[trigger] pool1.contains_key(id) <==> has_node_id(n1, id),
            forall|id: u32|
                #[trigger] pool1.contains_key(id) ==> pool1[id].id == id && n1.values().contains(
                    pool1[id],
                ),
            forall|id: u32|
                #[trigger] pool@.contains_key(id) <==> pool1.contains_key(id) || exists|t: int|
                    0 <= t < j && (#[trigger] list2@[t]).id == id,
            forall|id: u32|
                #[trigger] pool@.contains_key(id) ==> pool@[id].id == id && (if pool1.contains_key(
                    id,
                ) {
                    pool@[id] == pool1[id]
                } else {
                    n2.values().contains(pool@[id])
                }),
        decreases list2.len() - j,
    {
        let n = list2[j];
        proof {
            assert(list2@.contains(n));
            assert(list2@.to_set().contains(n));
        }
        if !pool.contains_key(&n.id) {
            pool.insert(n.id, n);
        }
        proof {
            assert forall|id: u32|
                #[trigger] pool@.contains_key(id) <==> pool1.contains_key(id) || exists|t: int|
                    0 <= t < j + 1 && (#[trigger] list2@[t]).id == id by {
                if id == n.id {
                    assert(list2@[j as int].id == id);
                }
            }
        }
        j = j + 1;
    }
    proof {
        assert forall|id: u32| #[trigger] pool@.contains_key(id) <==> has_node_id(n1, id)
            || has_node_id(n2, id) by {
            if pool@.contains_key(id) && !pool1.contains_key(id) {
                let t = choose|t: int| 0 <= t < list2@.len() && (#[trigger] list2@[t]).id == id;
                assert(list2@.to_set().contains(list2@[t]));
                let k = choose|k: u32| n2.contains_key(k) && n2[k] == list2@[t];
                assert(n2[k].id == id);
            }
            if has_node_id(n2, id) && !pool1.contains_key(id) {
                let k = choose|k: u32| #![trigger n2[k]] n2.contains_key(k) && n2[k].id == id;
                assert(n2.values().contains(n2[k]));
                assert(list2@.to_set().contains(n2[k]));
                let t = choose|t: int| 0 <= t < list2@.len() && list2@[t] == n2[k];
                assert(list2@[t].id == id);
            }
        }
        assert(node_pool(n1, n2, pool@));
    }
    let ghost all = pool@;
    // the child's input and output nodes, from the first parent
    let mut nodes: HashMap<u32, NodeGene> = HashMap::new();
    let mut k: usize = 0;
    while k < io_ids.len()
        invariant
            k <= io_ids.len(),
            pool@ == all,
            forall|id: u32| #[trigger] io_ids@.contains(id) ==> all.contains_key(id),
            nodes@ == all.restrict(io_ids@.take(k as int).to_set()),
        decreases io_ids.len() - k,
    {
        let id = io_ids[k];
        proof {
            assert(io_ids@.contains(id));
        }
        let n = *pool.get(&id).unwrap();
        nodes.insert(id, n);
        proof {
            let t0 = io_ids@.take(k as int);
            let t1 = io_ids@.take(k as int + 1);
            assert forall|y: u32| t1.to_set().contains(y) <==> (t0.to_set().contains(y) || y == id) by {
                if t1.contains(y) {
                    let q = choose|q: int| 0 <= q < t1.len() && t1[q] == y;
                    if q < k {
                        assert(t0[q] == y);
                    }
                }
                if t0.contains(y) {
                    let q = choose|q: int| 0 <= q < t0.len() && t0[q] == y;
                    assert(t1[q] == y);
                }
                if y == id {
                    assert(t1[k as int] == y);
                }
            }
            assert(nodes@ =~= all.restrict(t1.to_set()));
        }
        k = k + 1;
    }
    proof {
        assert(io_ids@.take(io_ids.len() as int) == io_ids@);
        assert(io_ids@.to_set() =~= offspring_node_ids(n1, Seq::empty()));
    }
    let innovs = sorted_innovations(&parent1.connections);
    let mut connections: Vec<ConnectionGene> = Vec::new();
    let ghost mut choices: Seq<(u32, bool, bool)> = Seq::empty();
    let mut j: usize = 0;
    while j < innovs.len()
        invariant
            j <= innovs.len(),
            c1 == parent1.connections@,
            c2 == parent2.connections@,
            n1 == parent1.nodes@,
            n2 == parent2.nodes@,
            pool@ == all,
            node_pool(n1, n2, all),
            strictly_increasing(innovs@),
            forall|x: u32| innovs@.contains(x) <==> has_innovation(c1, x),
            choices.len() == j,
            choices.map_values(|c: (u32, bool, bool)| c.0) == innovs@.take(j as int),
            connections@ == offspring_connections(c1, c2, all, choices),
            nodes@ == all.restrict(offspring_node_ids(n1, connections@)),
        decreases innovs.len() - j,
    {
        let x = innovs[j];
        proof {
            assert(innovs@.contains(x));
            lemma_last_gene(c1, x);
        }
        let g1 = find_last_gene(&parent1.connections, x).unwrap();
        let mut take_first = true;
        let mut disable = false;
        let gene = match find_last_gene(&parent2.connections, x) {
            Some(g2) => {
                take_first = crate::neat::rng::random_ratio(1, 2);
                let mut new_gene = if take_first {
                    g1
                } else {
                    g2
                };
                if !g1.enabled || !g2.enabled {
                    disable = crate::neat::rng::random_ratio(3, 4);
                    if disable {
                        new_gene.enabled = false;
                    }
                }
                new_gene
            },
            None => g1,
        };
        let ghost prev_choices = choices;
        let ghost prev_conns = connections@;
        let ghost prev_nodes = nodes@;
        proof {
            choices = choices.push((x, take_first, disable));
            assert(choices.drop_last() == prev_choices);
            assert(offspring_gene(c1, c2, x, take_first, disable) == Some(gene));
        }
        match (pool.get(&gene.in_node_id), pool.get(&gene.out_node_id)) {
            (Some(a), Some(b)) => {
                connections.push(gene);
                nodes.insert(gene.in_node_id, *a);
                nodes.insert(gene.out_node_id, *b);
                proof {
                    let ids0 = offspring_node_ids(n1, prev_conns);
                    let ids1 = offspring_node_ids(n1, connections@);
                    assert forall|id: u32| ids1.contains(id) <==> (ids0.contains(id) || id
                        == gene.in_node_id || id == gene.out_node_id) by {
                        let cs = connections@;
                        if exists|q: int|
                            0 <= q < cs.len() && ((#[trigger] cs[q]).in_node_id == id
                                || cs[q].out_node_id == id) {
                            let q = choose|q: int|
                                0 <= q < cs.len() && ((#[trigger] cs[q]).in_node_id == id
                                    || cs[q].out_node_id == id);
                            if q < prev_conns.len() {
                                assert(prev_conns[q] == cs[q]);
                            }
                        }
                        if exists|q: int|
                            0 <= q < prev_conns.len() && ((#[trigger] prev_conns[q]).in_node_id
                                == id || prev_conns[q].out_node_id == id) {
                            let q = choose|q: int|
                                0 <= q < prev_conns.len() && ((#[trigger] prev_conns[q]).in_node_id
                                    == id || prev_conns[q].out_node_id == id);
                            assert(cs[q] == prev_conns[q]);
                        }
                        if id == gene.in_node_id || id == gene.out_node_id {
                            assert(cs[prev_conns.len() as int] == gene);
                        }
                    }
                    assert(nodes@ =~= all.restrict(ids1));
                }
            },
            _ => {},
        }
        proof {
            assert(choices.map_values(|c: (u32, bool, bool)| c.0) =~= innovs@.take(j as int + 1));
        }
        j = j + 1;
    }
    proof {
        assert(innovs@.take(innovs.len() as int) == innovs@);
        lemma_offspring_innovations(c1, c2, all, choices);
        assert forall|k: u32| #[trigger] nodes@.contains_key(k) implies nodes@[k].id == k by {
            assert(all.contains_key(k));
        }
        assert(node_pool(parent1.nodes@, parent2.nodes@, all));
        assert(choices.len() == innovs.len());
        lemma_offspring_keeps_io(n1, n2, all, connections@);
    }
    Genome { nodes, connections, fitness_bits: 0 }
}

} // verus!

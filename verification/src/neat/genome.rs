use std::collections::HashMap;
use std::collections::HashSet;
use vstd::prelude::*;
use vstd::std_specs::iter::IteratorSpec;

use crate::neat::connection_gene::ConnectionGene;
use crate::neat::innovation_tracker::{
    can_register_all, connection_steps, lemma_can_register_prefix, lemma_connection_steps_idempotent,
    lemma_connection_steps_record, InnovationModel, InnovationTracker,
};
use crate::neat::node_gene::{ActivationFunction, NodeGene, NodeType};

verus! {

broadcast use vstd::std_specs::hash::group_hash_axioms;

/// The keys of `m`, each once, in the map's iteration order.
pub(crate) fn map_keys<V>(m: &HashMap<u32, V>) -> (r: Vec<u32>)
    ensures
        r@.no_duplicates(),
        r@.to_set() == m@.dom(),
        r@.len() == m@.dom().len(),
{
    let ghost s = vstd::std_specs::hash::spec_keys_iter(m).remaining();
    let mut r: Vec<u32> = Vec::new();
    for k in it: m.keys()
        invariant
            it.seq() == s,
            r@ == s.take(it.index()).map_values(|x: &u32| *x),
    {
        r.push(*k);
        assert(r@ =~= s.take(it.index() + 1).map_values(|x: &u32| *x));
    }
    assert(r@ =~= s.unref());
    r
}


/// The values of `m`, one per key, in the map's iteration order.
pub(crate) fn map_values<V: Copy>(m: &HashMap<u32, V>) -> (r: Vec<V>)
    ensures
        r@.to_set() == m@.values(),
        r@.len() == m@.dom().len(),
        exists|ks: Seq<u32>|
            #![trigger ks.no_duplicates()]
            {
                &&& ks.len() == r@.len()
                &&& ks.no_duplicates()
                &&& forall|i: int|
                    0 <= i < ks.len() ==> m@.contains_key(#[trigger] ks[i]) && r@[i] == m@[ks[i]]
            },
{
    let ghost s = vstd::std_specs::hash::spec_hash_map_iter(m).remaining();
    let mut r: Vec<V> = Vec::new();
    for kv in it: m.iter()
        invariant
            it.seq() == s,
            r@ == s.take(it.index()).map_values(|p: (&u32, &V)| *p.1),
    {
        r.push(*kv.1);
        assert(r@ =~= s.take(it.index() + 1).map_values(|p: (&u32, &V)| *p.1));
    }
    proof {
        assert(r@ =~= s.map_values(|p: (&u32, &V)| *p.1));
        let ks = s.map_values(|p: (&u32, &V)| *p.0);
        assert forall|i: int| 0 <= i < ks.len() implies m@.contains_key(#[trigger] ks[i]) && r@[i]
            == m@[ks[i]] by {
            assert(m@.contains_key(*s[i].0));
        }
        assert forall|i: int, j: int| 0 <= i < ks.len() && 0 <= j < ks.len() && i != j implies ks[i]
            != ks[j] by {
            assert(m@.contains_key(*s[i].0));
            assert(m@.contains_key(*s[j].0));
            if ks[i] == ks[j] {
                assert(s[i] == s[j]);
            }
        }
        assert(ks.no_duplicates());
        assert forall|v: V| r@.to_set().contains(v) <==> m@.values().contains(v) by {
            if r@.contains(v) {
                let i = choose|i: int| 0 <= i < r@.len() && r@[i] == v;
                assert(m@.contains_key(ks[i]));
            }
            if m@.values().contains(v) {
                let k = choose|k: u32| m@.contains_key(k) && m@[k] == v;
                assert(s.contains((&k, &m@[k])));
                let i = choose|i: int| 0 <= i < s.len() && s[i] == (&k, &m@[k]);
                assert(r@[i] == v);
            }
        }
    }
    r
}

} // verus!

verus! {

/// The nodes that `edges` lists as children of `n` (none if `n` is not a key).
pub open spec fn successors(edges: Map<u32, Vec<u32>>, n: u32) -> Seq<u32> {
    if edges.contains_key(n) {
        edges[n]@
    } else {
        Seq::empty()
    }
}

/// `edges` has an edge `a -> b`.
pub open spec fn has_edge(edges: Map<u32, Vec<u32>>, a: u32, b: u32) -> bool {
    successors(edges, a).contains(b)
}

/// Step `i` of `p` follows an edge.
pub open spec fn walk_step(edges: Map<u32, Vec<u32>>, p: Seq<u32>, i: int) -> bool {
    has_edge(edges, p[i], p[i + 1])
}

/// `p` is a non-empty walk along the edges.
pub open spec fn is_walk(edges: Map<u32, Vec<u32>>, p: Seq<u32>) -> bool {
    &&& p.len() >= 1
    &&& forall|i: int| 0 <= i < p.len() - 1 ==> #[trigger] walk_step(edges, p, i)
}

/// No walk of one or more steps returns to where it started.
pub open spec fn is_acyclic(edges: Map<u32, Vec<u32>>) -> bool {
    forall|p: Seq<u32>| #[trigger] is_walk(edges, p) && p.len() >= 2 ==> p[0] != p[p.len() - 1]
}

/// `n` is a key of `edges` or the child of some node.
pub open spec fn is_graph_node(edges: Map<u32, Vec<u32>>, n: u32) -> bool {
    edges.contains_key(n) || exists|k: u32| #[trigger] has_edge(edges, k, n)
}

/// The keys of `keys` followed, each, by its children.
spec fn listed_nodes(edges: Map<u32, Vec<u32>>, keys: Seq<u32>) -> Seq<u32>
    decreases keys.len(),
{
    if keys.len() == 0 {
        Seq::empty()
    } else {
        listed_nodes(edges, keys.drop_last()) + seq![keys.last()] + successors(
            edges,
            keys.last(),
        )
    }
}

proof fn lemma_listed_nodes(edges: Map<u32, Vec<u32>>, keys: Seq<u32>)
    ensures
        forall|i: int| 0 <= i < keys.len() ==> listed_nodes(edges, keys).contains(#[trigger] keys[i]),
        forall|i: int, c: u32|
            0 <= i < keys.len() && #[trigger] has_edge(edges, keys[i], c) ==> listed_nodes(
                edges,
                keys,
            ).contains(c),
    decreases keys.len(),
{
    if keys.len() > 0 {
        let rest = keys.drop_last();
        lemma_listed_nodes(edges, rest);
        let l = listed_nodes(edges, keys);
        let lr = listed_nodes(edges, rest);
        let last = keys.last();
        assert(l == lr + seq![last] + successors(edges, last));
        assert forall|i: int| 0 <= i < keys.len() implies l.contains(#[trigger] keys[i]) by {
            if i < keys.len() - 1 {
                assert(rest[i] == keys[i]);
                let j = choose|j: int| 0 <= j < lr.len() && lr[j] == keys[i];
                assert(l[j] == keys[i]);
            } else {
                assert(l[lr.len() as int] == last);
            }
        }
        assert forall|i: int, c: u32|
            0 <= i < keys.len() && #[trigger] has_edge(edges, keys[i], c) implies l.contains(c) by {
            if i < keys.len() - 1 {
                assert(rest[i] == keys[i]);
                assert(has_edge(edges, rest[i], c));
                let j = choose|j: int| 0 <= j < lr.len() && lr[j] == c;
                assert(l[j] == c);
            } else {
                let s = successors(edges, last);
                let j = choose|j: int| 0 <= j < s.len() && s[j] == c;
                assert(l[lr.len() + 1 + j] == c);
            }
        }
    }
}

/// The nodes of a graph given by a map are finitely many.
proof fn lemma_graph_nodes_finite(edges: Map<u32, Vec<u32>>, keys: Seq<u32>)
    requires
        keys.to_set() == edges.dom(),
    ensures
        Set::new(|n: u32| is_graph_node(edges, n)).finite(),
{
    lemma_listed_nodes(edges, keys);
    let all = listed_nodes(edges, keys);
    let g = Set::new(|n: u32| is_graph_node(edges, n));
    assert forall|n: u32| g.contains(n) implies all.to_set().contains(n) by {
        if edges.contains_key(n) {
            assert(keys.to_set().contains(n));
            let i = choose|i: int| 0 <= i < keys.len() && keys[i] == n;
            assert(all.contains(keys[i]));
        } else {
            let k = choose|k: u32| #[trigger] has_edge(edges, k, n);
            assert(edges.contains_key(k));
            assert(keys.to_set().contains(k));
            let i = choose|i: int| 0 <= i < keys.len() && keys[i] == k;
            assert(has_edge(edges, keys[i], n));
        }
    }
    vstd::seq_lib::seq_to_set_is_finite(all);
    vstd::set_lib::lemma_len_subset(g, all.to_set());
}

/// A node on the current walk that is also a child of the walk's last node closes a cycle.
proof fn lemma_back_edge_cycle(edges: Map<u32, Vec<u32>>, stack: Seq<u32>, c: u32)
    requires
        is_walk(edges, stack),
        stack.contains(c),
        has_edge(edges, stack.last(), c),
    ensures
        !is_acyclic(edges),
{
    let k = choose|k: int| 0 <= k < stack.len() && stack[k] == c;
    let p = stack.subrange(k, stack.len() as int).push(c);
    assert forall|i: int| 0 <= i < p.len() - 1 implies #[trigger] walk_step(edges, p, i) by {
        if i < stack.len() - k - 1 {
            assert(walk_step(edges, stack, k + i));
        }
    }
    assert(is_walk(edges, p));
    assert(p[0] == p[p.len() - 1]);
}

/// What a depth-first visit keeps: `order` holds the finished nodes, `stack` the nodes
/// being visited (a walk), every visited node is one or the other, every child of a
/// finished node has been visited, and on an acyclic graph every child of a finished node
/// finished before it.
spec fn visit_inv(
    edges: Map<u32, Vec<u32>>,
    universe: Set<u32>,
    visited: Set<u32>,
    order: Seq<u32>,
    stack: Seq<u32>,
) -> bool {
    &&& universe.finite()
    &&& forall|k: u32, c: u32| #[trigger] has_edge(edges, k, c) ==> universe.contains(c)
    &&& visited.subset_of(universe)
    &&& order.no_duplicates()
    &&& forall|x: u32| #[trigger] order.contains(x) ==> visited.contains(x)
    &&& forall|x: u32| #[trigger] visited.contains(x) ==> order.contains(x) || stack.contains(x)
    &&& forall|x: u32| #[trigger] stack.contains(x) ==> visited.contains(x) && !order.contains(x)
    &&& stack.len() > 0 ==> is_walk(edges, stack)
    &&& forall|x: u32, c: u32| order.contains(x) && #[trigger] has_edge(edges, x, c) ==> visited.contains(c)
    &&& is_acyclic(edges) ==> forall|x: u32, c: u32|
        order.contains(x) && #[trigger] has_edge(edges, x, c) ==> order.contains(c)
    &&& is_acyclic(edges) ==> forall|i: int, j: int|
        0 <= i < order.len() && 0 <= j < order.len() && #[trigger] has_edge(
            edges,
            order[i],
            order[j],
        ) ==> j < i
}

/// Depth-first visit from `n`: every node reachable from `n` is visited and a node is
/// appended to `order` after all its children.
fn visit(
    n: u32,
    visited: &mut HashSet<u32>,
    order: &mut Vec<u32>,
    edges: &HashMap<u32, Vec<u32>>,
    Ghost(universe): Ghost<Set<u32>>,
    Ghost(stack): Ghost<Seq<u32>>,
)
    requires
        visit_inv(edges@, universe, old(visited)@, old(order)@, stack),
        universe.contains(n),
        stack.len() > 0 ==> has_edge(edges@, stack.last(), n),
    ensures
        visit_inv(edges@, universe, final(visited)@, final(order)@, stack),
        old(visited)@.subset_of(final(visited)@),
        final(visited)@.contains(n),
        old(order)@.is_prefix_of(final(order)@),
    decreases universe.len() - old(visited)@.len(),
{
    if visited.contains(&n) {
        return ;
    }
    let ghost visited0 = visited@;
    let ghost order0 = order@;
    visited.insert(n);
    let ghost stack2 = stack.push(n);
    proof {
        vstd::set_lib::lemma_len_subset(visited@, universe);
        assert(visited0.insert(n) == visited@);
        assert(stack2.len() > 0 ==> is_walk(edges@, stack2)) by {
            if stack.len() > 0 {
                assert forall|i: int| 0 <= i < stack2.len() - 1 implies #[trigger] walk_step(
                    edges@,
                    stack2,
                    i,
                ) by {
                    if i < stack.len() - 1 {
                        assert(walk_step(edges@, stack, i));
                    }
                }
            }
        }
        assert forall|x: u32| #[trigger] stack2.contains(x) implies visited@.contains(x)
            && !order@.contains(x) by {
            if x != n {
                assert(stack.contains(x));
            }
        }
        assert forall|x: u32| #[trigger] visited@.contains(x) implies order@.contains(x)
            || stack2.contains(x) by {
            if x == n {
                assert(stack2[stack.len() as int] == n);
            } else if stack.contains(x) {
                let k = choose|k: int| 0 <= k < stack.len() && stack[k] == x;
                assert(stack2[k] == x);
            }
        }
        assert(visit_inv(edges@, universe, visited@, order@, stack2));
    }
    match edges.get(&n) {
        Some(children) => {
            let mut i: usize = 0;
            while i < children.len()
                invariant
                    visit_inv(edges@, universe, visited@, order@, stack2),
                    stack2 == stack.push(n),
                    visited@.contains(n),
                    !order@.contains(n),
                    visited0.insert(n).subset_of(visited@),
                    !visited0.contains(n),
                    order0.is_prefix_of(order@),
                    i <= children.len(),
                    edges@.contains_key(n),
                    edges@[n] == *children,
                    forall|t: int| 0 <= t < i ==> visited@.contains(#[trigger] children@[t]),
                    is_acyclic(edges@) ==> forall|t: int|
                        0 <= t < i ==> order@.contains(#[trigger] children@[t]),
                    visited0 == old(visited)@,
                    visited0.finite(),
                    visited0.subset_of(universe),
                    universe.len() >= visited0.len() + 1,
                decreases children.len() - i,
            {
                let c = children[i];
                let ghost visited1 = visited@;
                let ghost order1 = order@;
                proof {
                    assert(successors(edges@, n).contains(c)) by {
                        assert(successors(edges@, n)[i as int] == c);
                    }
                    assert(has_edge(edges@, stack2.last(), c));
                    vstd::set_lib::lemma_len_subset(visited0.insert(n), visited@);
                    vstd::set_lib::lemma_len_subset(visited@, universe);
                    assert(visited0.insert(n).len() == visited0.len() + 1);
                    assert(universe.len() - visited@.len() < universe.len() - visited0.len());
                }
                visit(c, visited, order, edges, Ghost(universe), Ghost(stack2));
                proof {
                    if is_acyclic(edges@) {
                        if !order@.contains(c) {
                            assert(stack2.contains(c));
                            lemma_back_edge_cycle(edges@, stack2, c);
                        }
                    }
                    assert forall|t: int| 0 <= t < i + 1 implies visited@.contains(
                        #[trigger] children@[t],
                    ) by {
                        if t < i {
                            assert(visited1.contains(children@[t]));
                        }
                    }
                    assert forall|t: int| is_acyclic(edges@) && 0 <= t < i + 1 implies order@.contains(
                        #[trigger] children@[t],
                    ) by {
                        if t < i {
                            assert(order1.contains(children@[t]));
                            let k = choose|k: int| 0 <= k < order1.len() && order1[k] == children@[t];
                            assert(order@[k] == children@[t]);
                        }
                    }
                }
                i = i + 1;
            }
        },
        None => {},
    }
    proof {
        assert forall|c: u32| #[trigger] has_edge(edges@, n, c) implies visited@.contains(c) && (
        is_acyclic(edges@) ==> order@.contains(c)) by {
            let s = successors(edges@, n);
            let t = choose|t: int| 0 <= t < s.len() && s[t] == c;
        }
    }
    let ghost order2 = order@;
    order.push(n);
    proof {
        let o = order@;
        let l = order2.len() as int;
        assert forall|x: u32| #[trigger] o.contains(x) implies x == n || order2.contains(x) by {
            let k = choose|k: int| 0 <= k < o.len() && o[k] == x;
            if k < l {
                assert(order2[k] == x);
            }
        }
        assert forall|x: u32| #[trigger] order2.contains(x) implies o.contains(x) by {
            let k = choose|k: int| 0 <= k < order2.len() && order2[k] == x;
            assert(o[k] == x);
        }
        assert(o[l] == n);
        assert forall|x: u32| #[trigger] stack.contains(x) implies visited@.contains(x)
            && !o.contains(x) by {
            let k = choose|k: int| 0 <= k < stack.len() && stack[k] == x;
            assert(stack2[k] == x);
            assert(stack2.contains(x));
            assert(x != n);
        }
        assert forall|x: u32| #[trigger] visited@.contains(x) implies o.contains(x)
            || stack.contains(x) by {
            if !order2.contains(x) && x != n {
                assert(stack2.contains(x));
                let k = choose|k: int| 0 <= k < stack2.len() && stack2[k] == x;
                assert(stack[k] == x);
            }
        }
        if is_acyclic(edges@) {
            assert(!has_edge(edges@, n, n)) by {
                if has_edge(edges@, n, n) {
                    assert(stack2.contains(n)) by {
                        assert(stack2[stack.len() as int] == n);
                    }
                    lemma_back_edge_cycle(edges@, stack2, n);
                }
            }
            assert forall|i: int, j: int|
                0 <= i < o.len() && 0 <= j < o.len() && #[trigger] has_edge(
                    edges@,
                    o[i],
                    o[j],
                ) implies j < i by {
                if i < l && j < l {
                    assert(o[i] == order2[i] && o[j] == order2[j]);
                } else if i < l && j == l {
                    assert(order2.contains(order2[i]));
                    assert(has_edge(edges@, order2[i], n));
                }
            }
        }
        assert(order0.is_prefix_of(o));
        assert forall|a: int, b: int| 0 <= a < o.len() && 0 <= b < o.len() && a != b implies o[a]
            != o[b] by {
            if a < l && b < l {
                assert(o[a] == order2[a] && o[b] == order2[b]);
            } else if a < l {
                assert(order2.contains(order2[a]));
            } else {
                assert(order2.contains(order2[b]));
            }
        }
        assert(o.no_duplicates());
        assert(forall|x: u32| #[trigger] o.contains(x) ==> visited@.contains(x));
        assert(forall|x: u32, c: u32|
            o.contains(x) && #[trigger] has_edge(edges@, x, c) ==> visited@.contains(c));
        assert(is_acyclic(edges@) ==> forall|x: u32, c: u32|
            o.contains(x) && #[trigger] has_edge(edges@, x, c) ==> o.contains(c));
    }
}

/// Orders the nodes of the graph so that, when the graph has no cycle, every edge goes
/// from an earlier node to a later one. Every key and every child appears exactly once.
pub fn topological_sort(edges: &HashMap<u32, Vec<u32>>) -> (order: Vec<u32>)
    ensures
        order@.no_duplicates(),
        forall|n: u32| order@.contains(n) <==> is_graph_node(edges@, n),
        is_acyclic(edges@) ==> forall|i: int, j: int|
            0 <= i < order.len() && 0 <= j < order.len() && #[trigger] has_edge(
                edges@,
                order@[i],
                order@[j],
            ) ==> i < j,
{
    let keys = map_keys(edges);
    let ghost universe = Set::new(|n: u32| is_graph_node(edges@, n));
    proof {
        lemma_graph_nodes_finite(edges@, keys@);
    }
    let mut visited: HashSet<u32> = HashSet::new();
    let mut post: Vec<u32> = Vec::new();
    let mut i: usize = 0;
    while i < keys.len()
        invariant
            visit_inv(edges@, universe, visited@, post@, Seq::empty()),
            universe == Set::new(|n: u32| is_graph_node(edges@, n)),
            keys@.to_set() == edges@.dom(),
            i <= keys.len(),
            forall|t: int| 0 <= t < i ==> visited@.contains(#[trigger] keys@[t]),
        decreases keys.len() - i,
    {
        let k = keys[i];
        proof {
            assert(keys@.to_set().contains(k));
        }
        let ghost visited1 = visited@;
        visit(k, &mut visited, &mut post, edges, Ghost(universe), Ghost(Seq::empty()));
        proof {
            assert forall|t: int| 0 <= t < i + 1 implies visited@.contains(#[trigger] keys@[t]) by {
                if t < i {
                    assert(visited1.contains(keys@[t]));
                }
            }
        }
        i = i + 1;
    }
    proof {
        assert forall|n: u32| is_graph_node(edges@, n) implies post@.contains(n) by {
            if edges@.contains_key(n) {
                assert(keys@.to_set().contains(n));
                let t = choose|t: int| 0 <= t < keys.len() && keys@[t] == n;
                assert(visited@.contains(keys@[t]));
            } else {
                let k = choose|k: u32| #[trigger] has_edge(edges@, k, n);
                assert(edges@.contains_key(k));
                assert(keys@.to_set().contains(k));
                let t = choose|t: int| 0 <= t < keys.len() && keys@[t] == k;
                assert(visited@.contains(keys@[t]));
                assert(post@.contains(k));
            }
        }
    }
    let mut order: Vec<u32> = Vec::new();
    let mut j: usize = post.len();
    while j > 0
        invariant
            j <= post.len(),
            order@.len() == post.len() - j,
            forall|t: int| 0 <= t < order.len() ==> #[trigger] order@[t] == post@[post.len() - 1 - t],
        decreases j,
    {
        j = j - 1;
        order.push(post[j]);
    }
    proof {
        let l = post.len() as int;
        assert forall|a: int, b: int| 0 <= a < order.len() && 0 <= b < order.len() && a != b
            implies order@[a] != order@[b] by {
            assert(order@[a] == post@[l - 1 - a] && order@[b] == post@[l - 1 - b]);
        }
        assert forall|n: u32| order@.contains(n) <==> post@.contains(n) by {
            if order@.contains(n) {
                let t = choose|t: int| 0 <= t < order.len() && order@[t] == n;
                assert(post@[l - 1 - t] == n);
            }
            if post@.contains(n) {
                let t = choose|t: int| 0 <= t < l && post@[t] == n;
                assert(order@[l - 1 - t] == n);
            }
        }
        if is_acyclic(edges@) {
            assert forall|a: int, b: int|
                0 <= a < order.len() && 0 <= b < order.len() && #[trigger] has_edge(
                    edges@,
                    order@[a],
                    order@[b],
                ) implies a < b by {
                assert(order@[a] == post@[l - 1 - a] && order@[b] == post@[l - 1 - b]);
                assert(has_edge(edges@, post@[l - 1 - a], post@[l - 1 - b]));
            }
        }
    }
    order
}

} // verus!

verus! {

/// A genome: node genes keyed by id, connection genes in order, and the bit pattern of
/// the genome's `f32` fitness.
#[derive(Debug, Clone, PartialEq)]
pub struct Genome {
    pub nodes: HashMap<u32, NodeGene>,
    pub connections: Vec<ConnectionGene>,
    pub fitness_bits: u32,
}

/// The node map built from `nodes`, skipping `None`, a later node replacing an earlier
/// one with the same id.
pub open spec fn node_map(nodes: Seq<Option<NodeGene>>) -> Map<u32, NodeGene>
    decreases nodes.len(),
{
    if nodes.len() == 0 {
        Map::empty()
    } else {
        let rest = node_map(nodes.drop_last());
        match nodes.last() {
            Some(n) => rest.insert(n.id, n),
            None => rest,
        }
    }
}

/// Every node of `node_map(nodes)` is stored under its own id.
proof fn lemma_node_map_keyed(nodes: Seq<Option<NodeGene>>)
    ensures
        forall|k: u32| #[trigger] node_map(nodes).contains_key(k) ==> node_map(nodes)[k].id == k,
    decreases nodes.len(),
{
    if nodes.len() > 0 {
        lemma_node_map_keyed(nodes.drop_last());
    }
}

/// `conns` has an enabled connection `a -> b`.
pub open spec fn enabled_link(conns: Seq<ConnectionGene>, a: u32, b: u32) -> bool {
    exists|i: int|
        0 <= i < conns.len() && #[trigger] conns[i].enabled && conns[i].in_node_id == a
            && conns[i].out_node_id == b
}

/// Step `i` of `p` follows an enabled connection.
pub open spec fn link_step(conns: Seq<ConnectionGene>, p: Seq<u32>, i: int) -> bool {
    enabled_link(conns, p[i], p[i + 1])
}

/// `p` is a non-empty path along enabled connections.
pub open spec fn is_path(conns: Seq<ConnectionGene>, p: Seq<u32>) -> bool {
    &&& p.len() >= 1
    &&& forall|i: int| 0 <= i < p.len() - 1 ==> #[trigger] link_step(conns, p, i)
}

/// A path of enabled connections leads from `a` to `b` (every node reaches itself).
pub open spec fn reachable(conns: Seq<ConnectionGene>, a: u32, b: u32) -> bool {
    exists|p: Seq<u32>| #[trigger] is_path(conns, p) && p[0] == a && p[p.len() - 1] == b
}

/// The enabled connections form no cycle.
pub open spec fn is_feed_forward(conns: Seq<ConnectionGene>) -> bool {
    forall|p: Seq<u32>| #[trigger] is_path(conns, p) && p.len() >= 2 ==> p[0] != p[p.len() - 1]
}

/// Every node of `closed` other than the ones in `open` is not `end` and has all its
/// enabled successors in `closed`.
pub open spec fn closed_except(
    conns: Seq<ConnectionGene>,
    closed: Set<u32>,
    open: Set<u32>,
    end: u32,
) -> bool {
    forall|x: u32| #[trigger]
        closed.contains(x) ==> open.contains(x) || (x != end && forall|y: u32|
            #[trigger] enabled_link(conns, x, y) ==> closed.contains(y))
}

/// The out-node ids of the connections.
pub open spec fn out_nodes(conns: Seq<ConnectionGene>) -> Set<u32> {
    conns.map_values(|c: ConnectionGene| c.out_node_id).to_set()
}

/// No path leaves a set that is closed under enabled successors and avoids `end`.
proof fn lemma_closed_unreachable(conns: Seq<ConnectionGene>, s: Set<u32>, end: u32, p: Seq<u32>)
    requires
        closed_except(conns, s, Set::empty(), end),
        is_path(conns, p),
        s.contains(p[0]),
    ensures
        p[p.len() - 1] != end,
    decreases p.len(),
{
    if p.len() > 1 {
        let q = p.drop_first();
        assert(link_step(conns, p, 0));
        assert forall|i: int| 0 <= i < q.len() - 1 implies #[trigger] link_step(conns, q, i) by {
            assert(link_step(conns, p, i + 1));
        }
        lemma_closed_unreachable(conns, s, end, q);
    }
}


/// A path of old and new connections that ends at `g`'s in-node gives an old path from
/// its start to that node: the new connection only leaves `g.in_node_id`.
proof fn lemma_path_to_new_source(conns: Seq<ConnectionGene>, g: ConnectionGene, q: Seq<u32>)
    requires
        is_path(conns.push(g), q),
        q[q.len() - 1] == g.in_node_id,
    ensures
        reachable(conns, q[0], g.in_node_id),
    decreases q.len(),
{
    let c2 = conns.push(g);
    if q.len() == 1 || q[0] == g.in_node_id {
        let p = seq![g.in_node_id];
        assert(is_path(conns, p));
    } else {
        assert(link_step(c2, q, 0));
        let t = choose|t: int|
            0 <= t < c2.len() && #[trigger] c2[t].enabled && c2[t].in_node_id == q[0]
                && c2[t].out_node_id == q[1];
        assert(t < conns.len());
        assert(conns[t] == c2[t]);
        assert(enabled_link(conns, q[0], q[1]));
        let r = q.drop_first();
        assert forall|i: int| 0 <= i < r.len() - 1 implies #[trigger] link_step(c2, r, i) by {
            assert(link_step(c2, q, i + 1));
        }
        lemma_path_to_new_source(conns, g, r);
        let p = choose|p: Seq<u32>|
            #[trigger] is_path(conns, p) && p[0] == r[0] && p[p.len() - 1] == g.in_node_id;
        let p2 = seq![q[0]] + p;
        assert forall|i: int| 0 <= i < p2.len() - 1 implies #[trigger] link_step(conns, p2, i) by {
            if i > 0 {
                assert(link_step(conns, p, i - 1));
            }
        }
        assert(is_path(conns, p2));
    }
}

/// Adding a connection `a -> b` between distinct nodes to a feed-forward network keeps it
/// feed-forward when no enabled path leads from `b` back to `a`.
pub proof fn lemma_link_keeps_feed_forward(conns: Seq<ConnectionGene>, g: ConnectionGene)
    requires
        is_feed_forward(conns),
        g.in_node_id != g.out_node_id,
        !reachable(conns, g.out_node_id, g.in_node_id),
    ensures
        is_feed_forward(conns.push(g)),
{
    let c2 = conns.push(g);
    assert forall|p: Seq<u32>| #[trigger] is_path(c2, p) && p.len() >= 2 implies p[0] != p[p.len()
        - 1] by {
        if p[0] == p[p.len() - 1] {
            if forall|i: int| 0 <= i < p.len() - 1 ==> #[trigger] link_step(conns, p, i) {
                assert(is_path(conns, p));
            } else {
                let k = choose|k: int| 0 <= k < p.len() - 1 && !#[trigger] link_step(conns, p, k);
                assert(link_step(c2, p, k));
                let t = choose|t: int|
                    0 <= t < c2.len() && #[trigger] c2[t].enabled && c2[t].in_node_id == p[k]
                        && c2[t].out_node_id == p[k + 1];
                if t < conns.len() {
                    assert(conns[t] == c2[t]);
                    assert(enabled_link(conns, p[k], p[k + 1]));
                    assert(false);
                }
                assert(p[k] == g.in_node_id && p[k + 1] == g.out_node_id);
                let n = p.len() as int;
                let q = p.subrange(k + 1, n) + p.subrange(1, k + 1);
                assert forall|i: int| 0 <= i < q.len() - 1 implies #[trigger] link_step(c2, q, i) by {
                    if i < n - k - 2 {
                        assert(link_step(c2, p, k + 1 + i));
                    } else if i == n - k - 2 {
                        assert(q[i] == p[n - 1]);
                        assert(q[i + 1] == p[1]);
                        assert(link_step(c2, p, 0));
                    } else {
                        assert(link_step(c2, p, i - (n - k - 1) + 1));
                    }
                }
                assert(is_path(c2, q));
                assert(q[0] == g.out_node_id);
                assert(q[q.len() - 1] == g.in_node_id);
                lemma_path_to_new_source(conns, g, q);
            }
        }
    }
}

/// A sampled pair as it is tried: reversed when the first node is an output, or a hidden
/// node drawn with an input.
pub open spec fn oriented(a: NodeGene, b: NodeGene) -> (NodeGene, NodeGene) {
    if a.node_type == NodeType::Output || (a.node_type == NodeType::Hidden && b.node_type
        == NodeType::Input) {
        (b, a)
    } else {
        (a, b)
    }
}

/// The sampled pair `a`, `b` in the direction in which it is tried.
pub fn orient_pair(a: NodeGene, b: NodeGene) -> (r: (NodeGene, NodeGene))
    ensures
        r == oriented(a, b),
{
    if a.node_type == NodeType::Output || (a.node_type == NodeType::Hidden && b.node_type
        == NodeType::Input) {
        (b, a)
    } else {
        (a, b)
    }
}

/// `a -> b` may be added: distinct ids, `a` not an output, `b` not an input, no
/// connection yet between them in either direction, and no enabled path from `b` back
/// to `a`.
pub open spec fn link_allowed(conns: Seq<ConnectionGene>, a: NodeGene, b: NodeGene) -> bool {
    &&& a.id != b.id
    &&& a.node_type != NodeType::Output
    &&& b.node_type != NodeType::Input
    &&& forall|i: int|
        0 <= i < conns.len() ==> !(#[trigger] conns[i].in_node_id == a.id && conns[i].out_node_id
            == b.id) && !(conns[i].in_node_id == b.id && conns[i].out_node_id == a.id)
    &&& !reachable(conns, b.id, a.id)
}

/// A link that may be added joins two distinct nodes, never leaves an output node and
/// never enters an input node.
pub proof fn lemma_link_direction(conns: Seq<ConnectionGene>, a: NodeGene, b: NodeGene)
    requires
        link_allowed(conns, a, b),
    ensures
        a.id != b.id,
        a.node_type != NodeType::Output,
        b.node_type != NodeType::Input,
{
}

/// However a pair is drawn, the link tried from it never leaves an output node and never
/// enters an input node: two outputs, or two inputs, are never linked.
pub proof fn lemma_oriented_link_direction(conns: Seq<ConnectionGene>, a: NodeGene, b: NodeGene)
    requires
        link_allowed(conns, oriented(a, b).0, oriented(a, b).1),
    ensures
        a.id != b.id,
        (oriented(a, b) == (a, b) && a.node_type != NodeType::Output && b.node_type
            != NodeType::Input) || (oriented(a, b) == (b, a) && b.node_type != NodeType::Output
            && a.node_type != NodeType::Input),
        !(a.node_type == NodeType::Output && b.node_type == NodeType::Output),
        !(a.node_type == NodeType::Input && b.node_type == NodeType::Input),
{
}

/// `a -> b` may be added between two nodes of the genome.
pub open spec fn linkable(
    nodes: Map<u32, NodeGene>,
    conns: Seq<ConnectionGene>,
    a: NodeGene,
    b: NodeGene,
) -> bool {
    &&& nodes.values().contains(a)
    &&& nodes.values().contains(b)
    &&& link_allowed(conns, a, b)
}

/// Every two nodes of the genome with distinct ids may be linked in the direction in which
/// they are tried, so that a link is made whichever pair is drawn.
pub open spec fn every_pair_linkable(nodes: Map<u32, NodeGene>, conns: Seq<ConnectionGene>) -> bool {
    forall|a: NodeGene, b: NodeGene|
        #![trigger nodes.values().contains(a), nodes.values().contains(b)]
        nodes.values().contains(a) && nodes.values().contains(b) && a.id != b.id ==> ({
            let (n1, n2) = oriented(a, b);
            link_allowed(conns, n1, n2)
        })
}

/// The positions of the enabled connections of `conns`, in order.
pub open spec fn enabled_positions(conns: Seq<ConnectionGene>) -> Seq<int>
    decreases conns.len(),
{
    if conns.len() == 0 {
        Seq::empty()
    } else {
        let rest = enabled_positions(conns.drop_last());
        if conns.last().enabled {
            rest.push(conns.len() - 1)
        } else {
            rest
        }
    }
}

/// The enabled positions are exactly the positions of the enabled connections, each
/// once, in increasing order: every enabled connection is among them.
pub proof fn lemma_enabled_positions(conns: Seq<ConnectionGene>)
    ensures
        forall|p: int|
            0 <= p < enabled_positions(conns).len() ==> 0 <= #[trigger] enabled_positions(conns)[p]
                < conns.len() && conns[enabled_positions(conns)[p]].enabled,
        forall|i: int|
            0 <= i < conns.len() && (#[trigger] conns[i]).enabled ==> exists|p: int|
                0 <= p < enabled_positions(conns).len() && #[trigger] enabled_positions(conns)[p]
                    == i,
        forall|p: int, q: int|
            0 <= p < q < enabled_positions(conns).len() ==> #[trigger] enabled_positions(conns)[p]
                < #[trigger] enabled_positions(conns)[q],
    decreases conns.len(),
{
    if conns.len() > 0 {
        let d = conns.drop_last();
        lemma_enabled_positions(d);
        let r = enabled_positions(d);
        let e = enabled_positions(conns);
        assert forall|p: int| 0 <= p < e.len() implies 0 <= #[trigger] e[p] < conns.len()
            && conns[e[p]].enabled by {
            if p < r.len() {
                assert(e[p] == r[p]);
                assert(d[r[p]] == conns[r[p]]);
            }
        }
        assert forall|i: int| 0 <= i < conns.len() && (#[trigger] conns[i]).enabled implies exists|
            p: int,
        | 0 <= p < e.len() && #[trigger] e[p] == i by {
            if i < conns.len() - 1 {
                assert(d[i] == conns[i]);
                let p = choose|p: int| 0 <= p < r.len() && #[trigger] r[p] == i;
                assert(e[p] == r[p]);
            } else {
                assert(e[r.len() as int] == i);
            }
        }
        assert forall|p: int, q: int| 0 <= p < q < e.len() implies #[trigger] e[p] < #[trigger] e[q] by {
            assert(e[p] == r[p]);
            if q < r.len() {
                assert(e[q] == r[q]);
            }
        }
    }
}

/// The bit pattern of the `f32` value `1.0`, the weight of the first half of a split
/// connection.
pub const UNIT_WEIGHT_BITS: u32 = 0x3F80_0000;

/// The connections after splitting connection `idx` with the node and innovations of
/// `triple`: the old connection disabled, then `in -> node` of weight `1.0` and
/// `node -> out` of the old weight appended.
pub open spec fn split_connections(
    conns: Seq<ConnectionGene>,
    idx: int,
    triple: (u32, u32, u32),
) -> Seq<ConnectionGene> {
    let g = conns[idx];
    conns.update(
        idx,
        ConnectionGene {
            in_node_id: g.in_node_id,
            out_node_id: g.out_node_id,
            weight_bits: g.weight_bits,
            enabled: false,
            innov: g.innov,
        },
    ).push(
        ConnectionGene {
            in_node_id: g.in_node_id,
            out_node_id: triple.0,
            weight_bits: UNIT_WEIGHT_BITS,
            enabled: true,
            innov: triple.1,
        },
    ).push(
        ConnectionGene {
            in_node_id: triple.0,
            out_node_id: g.out_node_id,
            weight_bits: g.weight_bits,
            enabled: true,
            innov: triple.2,
        },
    )
}

/// The out-nodes of the enabled connections that leave `n`, in connection order.
pub open spec fn enabled_children(conns: Seq<ConnectionGene>, n: u32) -> Seq<u32>
    decreases conns.len(),
{
    if conns.len() == 0 {
        Seq::empty()
    } else {
        let rest = enabled_children(conns.drop_last(), n);
        let c = conns.last();
        if c.enabled && c.in_node_id == n {
            rest.push(c.out_node_id)
        } else {
            rest
        }
    }
}

proof fn lemma_enabled_children(conns: Seq<ConnectionGene>, n: u32, b: u32)
    ensures
        enabled_children(conns, n).contains(b) <==> enabled_link(conns, n, b),
    decreases conns.len(),
{
    if conns.len() > 0 {
        let rest = conns.drop_last();
        lemma_enabled_children(rest, n, b);
        let c = conns.last();
        let er = enabled_children(rest, n);
        if enabled_link(rest, n, b) {
            let t = choose|t: int|
                0 <= t < rest.len() && #[trigger] rest[t].enabled && rest[t].in_node_id == n
                    && rest[t].out_node_id == b;
            assert(conns[t] == rest[t]);
        }
        if enabled_link(conns, n, b) {
            let t = choose|t: int|
                0 <= t < conns.len() && #[trigger] conns[t].enabled && conns[t].in_node_id == n
                    && conns[t].out_node_id == b;
            if t < rest.len() {
                assert(rest[t] == conns[t]);
                assert(enabled_link(rest, n, b));
            } else {
                assert(er.push(c.out_node_id)[er.len() as int] == b);
            }
        }
        if c.enabled && c.in_node_id == n {
            let e = er.push(c.out_node_id);
            if e.contains(b) {
                let j = choose|j: int| 0 <= j < e.len() && e[j] == b;
                if j < er.len() {
                    assert(er[j] == b);
                } else {
                    assert(conns[conns.len() - 1] == c);
                }
            }
            if er.contains(b) {
                let j = choose|j: int| 0 <= j < er.len() && er[j] == b;
                assert(e[j] == b);
            }
        }
    }
}

/// The pairs `(input i, output j)` of a fresh genome, inputs in the outer order.
pub open spec fn initial_pairs(num_inputs: u32, num_outputs: u32) -> Seq<(u32, u32)> {
    Seq::new(
        (num_inputs * num_outputs) as nat,
        |k: int| ((k / num_outputs as int) as u32, (num_inputs + k % num_outputs as int) as u32),
    )
}

/// Node `id` of a fresh genome: inputs first (linear, bias `0.0`), then outputs (sigmoid,
/// bias taken from `output_bias_bits`).
pub open spec fn initial_node(num_inputs: u32, output_bias_bits: Seq<u32>, id: u32) -> NodeGene {
    if id < num_inputs {
        NodeGene {
            id,
            node_type: NodeType::Input,
            activation: ActivationFunction::Linear,
            bias_bits: 0,
        }
    } else {
        NodeGene {
            id,
            node_type: NodeType::Output,
            activation: ActivationFunction::Sigmoid,
            bias_bits: output_bias_bits[id - num_inputs],
        }
    }
}

/// The nodes of a fresh genome, keyed by id.
pub open spec fn initial_nodes(num_inputs: u32, num_outputs: u32, output_bias_bits: Seq<u32>) -> Map<
    u32,
    NodeGene,
> {
    Map::new(
        |id: u32| id < num_inputs + num_outputs,
        |id: u32| initial_node(num_inputs, output_bias_bits, id),
    )
}

/// A fresh genome has exactly the ids below `num_inputs + num_outputs`: input `i` is a
/// linear node of bias `0.0`, and output `num_inputs + j` is a sigmoid node with its own
/// bias `output_bias_bits[j]`.
pub proof fn lemma_initial_nodes_biases(num_inputs: u32, num_outputs: u32, output_bias_bits: Seq<u32>)
    requires
        num_inputs + num_outputs <= u32::MAX,
        output_bias_bits.len() == num_outputs,
    ensures
        forall|id: u32|
            #[trigger] initial_nodes(num_inputs, num_outputs, output_bias_bits).contains_key(id)
                <==> id < num_inputs + num_outputs,
        forall|i: u32|
            i < num_inputs ==> #[trigger] initial_nodes(num_inputs, num_outputs, output_bias_bits)[i]
                == (NodeGene {
                id: i,
                node_type: NodeType::Input,
                activation: ActivationFunction::Linear,
                bias_bits: 0,
            }),
        forall|j: int|
            0 <= j < num_outputs ==> #[trigger] initial_nodes(
                num_inputs,
                num_outputs,
                output_bias_bits,
            )[(num_inputs + j) as u32] == (NodeGene {
                id: (num_inputs + j) as u32,
                node_type: NodeType::Output,
                activation: ActivationFunction::Sigmoid,
                bias_bits: output_bias_bits[j],
            }),
{
    assert forall|j: int| 0 <= j < num_outputs implies #[trigger] initial_nodes(
        num_inputs,
        num_outputs,
        output_bias_bits,
    )[(num_inputs + j) as u32].bias_bits == output_bias_bits[j] by {
        assert(((num_inputs + j) as u32) - num_inputs == j);
    }
}

/// The enabled connections along `pairs` with the given weights and innovations.
pub open spec fn initial_connections(
    pairs: Seq<(u32, u32)>,
    weight_bits: Seq<u32>,
    innovs: Seq<u32>,
) -> Seq<ConnectionGene> {
    Seq::new(
        pairs.len(),
        |k: int|
            ConnectionGene {
                in_node_id: pairs[k].0,
                out_node_id: pairs[k].1,
                weight_bits: weight_bits[k],
                enabled: true,
                innov: innovs[k],
            },
    )
}

/// The tracker's state when a fresh genome registers its connections.
pub open spec fn initial_tracker(m: InnovationModel, num_inputs: u32, num_outputs: u32) -> InnovationModel {
    m.with_node_id_counter((num_inputs + num_outputs) as u32)
}

/// Pair `k` of a fresh genome leads from an input to an output.
proof fn lemma_initial_pair(num_inputs: u32, num_outputs: u32, k: int)
    requires
        0 <= k < num_inputs * num_outputs,
        num_inputs + num_outputs <= u32::MAX,
    ensures
        initial_pairs(num_inputs, num_outputs)[k].0 < num_inputs,
        num_inputs <= initial_pairs(num_inputs, num_outputs)[k].1 < num_inputs + num_outputs,
{
    assert(num_outputs > 0) by (nonlinear_arith)
        requires
            0 <= k < num_inputs * num_outputs,
    ;
    vstd::arithmetic::mul::lemma_mul_is_commutative(num_inputs as int, num_outputs as int);
    vstd::arithmetic::div_mod::lemma_multiply_divide_lt(k, num_outputs as int, num_inputs as int);
    vstd::arithmetic::div_mod::lemma_div_pos_is_pos(k, num_outputs as int);
    vstd::arithmetic::div_mod::lemma_mod_pos_bound(k, num_outputs as int);
}

/// A fresh genome's connections only lead from inputs to outputs, so they form no
/// cycle.
pub proof fn lemma_initial_feed_forward(
    num_inputs: u32,
    num_outputs: u32,
    weight_bits: Seq<u32>,
    innovs: Seq<u32>,
)
    requires
        num_inputs + num_outputs <= u32::MAX,
    ensures
        is_feed_forward(
            initial_connections(initial_pairs(num_inputs, num_outputs), weight_bits, innovs),
        ),
{
    let pairs = initial_pairs(num_inputs, num_outputs);
    let conns = initial_connections(pairs, weight_bits, innovs);
    assert forall|p: Seq<u32>| #[trigger] is_path(conns, p) && p.len() >= 2 implies p[0] != p[p.len()
        - 1] by {
        assert(link_step(conns, p, 0));
        let k = choose|k: int|
            0 <= k < conns.len() && #[trigger] conns[k].enabled && conns[k].in_node_id == p[0]
                && conns[k].out_node_id == p[1];
        lemma_initial_pair(num_inputs, num_outputs, k);
        if p.len() > 2 {
            assert(link_step(conns, p, 1));
            let k2 = choose|k2: int|
                0 <= k2 < conns.len() && #[trigger] conns[k2].enabled && conns[k2].in_node_id == p[1]
                    && conns[k2].out_node_id == p[2];
            lemma_initial_pair(num_inputs, num_outputs, k2);
        }
    }
}

/// A node list whose entry `t` is a node of id `t` maps each id below its length to that
/// entry.
proof fn lemma_node_map_indexed(s: Seq<Option<NodeGene>>)
    requires
        s.len() <= 0x1_0000_0000,
        forall|t: int| 0 <= t < s.len() ==> (#[trigger] s[t]) is Some && s[t]->0.id == t,
    ensures
        node_map(s) =~= Map::new(|id: u32| id < s.len(), |id: u32| s[id as int]->0),
    decreases s.len(),
{
    if s.len() > 0 {
        let rest = s.drop_last();
        assert forall|t: int| 0 <= t < rest.len() implies (#[trigger] rest[t]) is Some && rest[t]->0.id
            == t by {
            assert(rest[t] == s[t]);
        }
        lemma_node_map_indexed(rest);
        assert(s[s.len() - 1] is Some);
    }
}

/// `id` is an end of some connection.
pub open spec fn is_endpoint(conns: Seq<ConnectionGene>, id: u32) -> bool {
    exists|i: int|
        0 <= i < conns.len() && ((#[trigger] conns[i]).in_node_id == id || conns[i].out_node_id
            == id)
}

/// Step `i` of `p` goes from `u` to `w`.
pub open spec fn step_between(p: Seq<u32>, i: int, u: u32, w: u32) -> bool {
    p[i] == u && p[i + 1] == w
}

/// A path after a split, read with the new node `w` replaced by the split connection's
/// in-node `u`, gives an old path between the images of its ends; that old path has a
/// step unless every step of the new path is `u -> w`.
proof fn lemma_split_path_image(
    conns: Seq<ConnectionGene>,
    idx: int,
    triple: (u32, u32, u32),
    p: Seq<u32>,
)
    requires
        0 <= idx < conns.len(),
        conns[idx].enabled,
        !is_endpoint(conns, triple.0),
        is_path(split_connections(conns, idx, triple), p),
    ensures
        ({
            let u = conns[idx].in_node_id;
            let w = triple.0;
            let f0 = if p[0] == w {
                u
            } else {
                p[0]
            };
            let fl = if p[p.len() - 1] == w {
                u
            } else {
                p[p.len() - 1]
            };
            exists|q: Seq<u32>|
                #[trigger] is_path(conns, q) && q[0] == f0 && q[q.len() - 1] == fl && (q.len()
                    >= 2 || forall|i: int| 0 <= i < p.len() - 1 ==> #[trigger] step_between(p, i, u, w))
        }),
    decreases p.len(),
{
    let new = split_connections(conns, idx, triple);
    let g = conns[idx];
    let u = g.in_node_id;
    let v = g.out_node_id;
    let w = triple.0;
    assert(w != u && w != v) by {
        if w == u || w == v {
            assert(conns[idx].in_node_id == w || conns[idx].out_node_id == w);
        }
    }
    let f0 = if p[0] == w {
        u
    } else {
        p[0]
    };
    if p.len() == 1 {
        let q = seq![f0];
        assert(is_path(conns, q));
    } else {
        let r = p.drop_last();
        assert forall|i: int| 0 <= i < r.len() - 1 implies #[trigger] link_step(new, r, i) by {
            assert(link_step(new, p, i));
        }
        lemma_split_path_image(conns, idx, triple, r);
        let a = r[r.len() - 1];
        let b = p[p.len() - 1];
        let fa = if a == w {
            u
        } else {
            a
        };
        let fb = if b == w {
            u
        } else {
            b
        };
        let q = choose|q: Seq<u32>|
            #[trigger] is_path(conns, q) && q[0] == f0 && q[q.len() - 1] == fa && (q.len() >= 2
                || forall|i: int| 0 <= i < r.len() - 1 ==> #[trigger] step_between(r, i, u, w));
        assert(link_step(new, p, p.len() - 2));
        assert(enabled_link(new, a, b));
        let t = choose|t: int|
            0 <= t < new.len() && #[trigger] new[t].enabled && new[t].in_node_id == a
                && new[t].out_node_id == b;
        if t == conns.len() {
            // the step `u -> w`: its image does not move
            assert(a == u && b == w);
            assert(is_path(conns, q) && q[0] == f0 && q[q.len() - 1] == fb);
            assert(q.len() >= 2 || forall|i: int| 0 <= i < p.len() - 1 ==> #[trigger] step_between(p, i, u, w))
                by {
                if q.len() < 2 {
                    assert forall|i: int| 0 <= i < p.len() - 1 implies #[trigger] step_between(p, i, u, w) by {
                        if i < p.len() - 2 {
                            assert(step_between(r, i, u, w));
                            assert(r[i] == p[i] && r[i + 1] == p[i + 1]);
                        }
                    }
                }
            }
        } else {
            // an old link between the images
            if t == conns.len() + 1 {
                assert(a == w && b == v);
                assert(enabled_link(conns, u, v)) by {
                    assert(conns[idx].enabled && conns[idx].in_node_id == u && conns[idx].out_node_id
                        == v);
                }
            } else {
                assert(t != idx);
                assert(new[t] == conns[t]);
                assert(a != w && b != w) by {
                    if a == w || b == w {
                        assert(conns[t].in_node_id == w || conns[t].out_node_id == w);
                    }
                }
                assert(enabled_link(conns, a, b)) by {
                    assert(conns[t].enabled);
                }
            }
            assert(enabled_link(conns, fa, fb));
            let q2 = q.push(fb);
            assert forall|i: int| 0 <= i < q2.len() - 1 implies #[trigger] link_step(conns, q2, i) by {
                if i < q.len() - 1 {
                    assert(link_step(conns, q, i));
                }
            }
            assert(is_path(conns, q2));
        }
    }
}

/// Splitting an enabled connection of a feed-forward network with a node that no
/// connection touches yet keeps the network feed-forward.
pub proof fn lemma_split_keeps_feed_forward(
    conns: Seq<ConnectionGene>,
    idx: int,
    triple: (u32, u32, u32),
)
    requires
        0 <= idx < conns.len(),
        conns[idx].enabled,
        !is_endpoint(conns, triple.0),
        is_feed_forward(conns),
    ensures
        is_feed_forward(split_connections(conns, idx, triple)),
{
    let new = split_connections(conns, idx, triple);
    let u = conns[idx].in_node_id;
    let w = triple.0;
    assert forall|p: Seq<u32>| #[trigger] is_path(new, p) && p.len() >= 2 implies p[0] != p[p.len()
        - 1] by {
        lemma_split_path_image(conns, idx, triple, p);
        assert(w != u) by {
            if w == u {
                assert(conns[idx].in_node_id == w);
            }
        }
        if p[0] == p[p.len() - 1] {
            let f0 = if p[0] == w {
                u
            } else {
                p[0]
            };
            let q = choose|q: Seq<u32>|
                #[trigger] is_path(conns, q) && q[0] == f0 && q[q.len() - 1] == f0 && (q.len() >= 2
                    || forall|i: int| 0 <= i < p.len() - 1 ==> #[trigger] step_between(p, i, u, w));
            if q.len() < 2 {
                assert(step_between(p, 0, u, w));
                if p.len() > 2 {
                    assert(step_between(p, 1, u, w));
                }
            }
        }
    }
}

impl Genome {
    /// Every node is stored under its own id.
    pub open spec fn wf(&self) -> bool {
        forall|k: u32| #[trigger] self.nodes@.contains_key(k) ==> self.nodes@[k].id == k
    }

    /// The genome with the given nodes (later ones replacing earlier ones of the same
    /// id, `None` skipped), the given connections and fitness `0.0`.
    pub fn new(nodes: Vec<Option<NodeGene>>, connections: Vec<ConnectionGene>) -> (g: Self)
        ensures
            g.nodes@ == node_map(nodes@),
            g.connections@ == connections@,
            g.fitness_bits == 0,
            g.wf(),
    {
        proof {
            lemma_node_map_keyed(nodes@);
        }
        let mut node_map_: HashMap<u32, NodeGene> = HashMap::new();
        let mut i: usize = 0;
        while i < nodes.len()
            invariant
                i <= nodes.len(),
                node_map_@ == node_map(nodes@.take(i as int)),
            decreases nodes.len() - i,
        {
            assert(nodes@.take(i as int + 1).drop_last() == nodes@.take(i as int));
            match nodes[i] {
                Some(n) => {
                    node_map_.insert(n.id, n);
                },
                None => {},
            }
            i = i + 1;
        }
        assert(nodes@.take(nodes.len() as int) == nodes@);
        Genome { nodes: node_map_, connections, fitness_bits: 0 }
    }

    /// The node with id `node_id`, if any.
    pub fn get_node(&self, node_id: u32) -> (r: Option<&NodeGene>)
        ensures
            match r {
                Some(n) => self.nodes@.contains_key(node_id) && *n == self.nodes@[node_id],
                None => !self.nodes@.contains_key(node_id),
            },
    {
        self.nodes.get(&node_id)
    }

    /// A fresh genome: `num_inputs` input nodes with ids `0..num_inputs`, `num_outputs`
    /// output nodes after them with biases `output_bias_bits`, and an enabled connection
    /// from every input to every output with weights `weight_bits` (inputs in the outer
    /// order) and innovations from `innov`, whose node counter is set past the outputs.
    pub fn create_initial_genome(
        num_inputs: u32,
        num_outputs: u32,
        innov: &mut InnovationTracker,
        output_bias_bits: &Vec<u32>,
        weight_bits: &Vec<u32>,
    ) -> (g: Self)
        requires
            num_inputs + num_outputs <= u32::MAX,
            output_bias_bits@.len() == num_outputs,
            weight_bits@.len() == num_inputs * num_outputs,
            can_register_all(
                initial_tracker(old(innov)@, num_inputs, num_outputs),
                initial_pairs(num_inputs, num_outputs),
            ),
        ensures
            g.nodes@ == initial_nodes(num_inputs, num_outputs, output_bias_bits@),
            forall|j: int|
                0 <= j < num_outputs ==> #[trigger] g.nodes@[(num_inputs + j) as u32].bias_bits
                    == output_bias_bits@[j] && g.nodes@[(num_inputs + j) as u32].node_type
                    == NodeType::Output,
            g.fitness_bits == 0,
            g.wf(),
            is_feed_forward(g.connections@),
            ({
                let (m, rs) = connection_steps(
                    initial_tracker(old(innov)@, num_inputs, num_outputs),
                    initial_pairs(num_inputs, num_outputs),
                );
                &&& final(innov)@ == m
                &&& g.connections@ == initial_connections(
                    initial_pairs(num_inputs, num_outputs),
                    weight_bits@,
                    rs,
                )
            }),
    {
        let ghost biases = output_bias_bits@;
        proof {
            lemma_initial_nodes_biases(num_inputs, num_outputs, biases);
        }
        let mut nodes: Vec<Option<NodeGene>> = Vec::new();
        let mut i: u32 = 0;
        while i < num_inputs
            invariant
                i <= num_inputs,
                nodes@.len() == i,
                forall|t: int| 0 <= t < i ==> #[trigger] nodes@[t] == Some(
                    initial_node(num_inputs, biases, t as u32),
                ),
            decreases num_inputs - i,
        {
            nodes.push(Some(NodeGene::new(i, NodeType::Input, ActivationFunction::Linear, 0)));
            i = i + 1;
        }
        let mut j: u32 = 0;
        while j < num_outputs
            invariant
                num_inputs + num_outputs <= u32::MAX,
                output_bias_bits@ == biases,
                biases.len() == num_outputs,
                j <= num_outputs,
                nodes@.len() == num_inputs + j,
                forall|t: int| 0 <= t < num_inputs + j ==> #[trigger] nodes@[t] == Some(
                    initial_node(num_inputs, biases, t as u32),
                ),
            decreases num_outputs - j,
        {
            nodes.push(
                Some(
                    NodeGene::new(
                        num_inputs + j,
                        NodeType::Output,
                        ActivationFunction::Sigmoid,
                        output_bias_bits[j as usize],
                    ),
                ),
            );
            j = j + 1;
        }
        innov.node_id_counter = num_inputs + num_outputs;
        let ghost m0 = innov@;
        let ghost pairs = initial_pairs(num_inputs, num_outputs);
        assert(m0 == initial_tracker(old(innov)@, num_inputs, num_outputs));
        let mut connections: Vec<ConnectionGene> = Vec::new();
        let mut i: u32 = 0;
        while i < num_inputs
            invariant
                i <= num_inputs,
                num_inputs + num_outputs <= u32::MAX,
                weight_bits@.len() == num_inputs * num_outputs,
                pairs == initial_pairs(num_inputs, num_outputs),
                can_register_all(m0, pairs),
                connections@.len() == i * num_outputs,
                ({
                    let (m, rs) = connection_steps(m0, pairs.take(connections@.len() as int));
                    &&& innov@ == m
                    &&& connections@ == initial_connections(
                        pairs.take(connections@.len() as int),
                        weight_bits@.take(connections@.len() as int),
                        rs,
                    )
                }),
            decreases num_inputs - i,
        {
            let mut j: u32 = 0;
            proof {
                assert((i + 1) * num_outputs <= num_inputs * num_outputs) by (nonlinear_arith)
                    requires
                        i < num_inputs,
                ;
                assert((i + 1) * num_outputs == i * num_outputs + num_outputs) by (nonlinear_arith);
            }
            while j < num_outputs
                invariant
                    i < num_inputs,
                    j <= num_outputs,
                    num_inputs + num_outputs <= u32::MAX,
                    weight_bits@.len() == num_inputs * num_outputs,
                    (i + 1) * num_outputs <= num_inputs * num_outputs,
                    (i + 1) * num_outputs == i * num_outputs + num_outputs,
                    pairs == initial_pairs(num_inputs, num_outputs),
                    can_register_all(m0, pairs),
                    connections@.len() == i * num_outputs + j,
                    ({
                        let (m, rs) = connection_steps(m0, pairs.take(connections@.len() as int));
                        &&& innov@ == m
                        &&& connections@ == initial_connections(
                            pairs.take(connections@.len() as int),
                            weight_bits@.take(connections@.len() as int),
                            rs,
                        )
                    }),
                decreases num_outputs - j,
            {
                let ghost k = connections@.len() as int;
                proof {
                    assert(k < pairs.len());
                    vstd::arithmetic::div_mod::lemma_fundamental_div_mod_converse(
                        k,
                        num_outputs as int,
                        i as int,
                        j as int,
                    );
                    assert(pairs[k] == (i, (num_inputs + j) as u32));
                    lemma_can_register_prefix(m0, pairs, k + 1);
                    assert(pairs.take(k + 1).drop_last() == pairs.take(k));
                }
                let out = num_inputs + j;
                let ghost prev_conns = connections@;
                let r = innov.get_connection_innovation(i, out);
                let w = weight_bits[connections.len()];
                connections.push(ConnectionGene::new(i, out, w, true, r));
                proof {
                    let (ma, ra) = connection_steps(m0, pairs.take(k));
                    lemma_connection_steps_record(m0, pairs.take(k));
                    assert(pairs.take(k + 1).last() == (i, out));
                    assert(connection_steps(m0, pairs.take(k + 1)) == (innov@, ra.push(r)));
                    let (m, rs) = connection_steps(m0, pairs.take(k + 1));
                    assert forall|t: int| 0 <= t < k + 1 implies connections@[t] == initial_connections(
                        pairs.take(k + 1),
                        weight_bits@.take(k + 1),
                        rs,
                    )[t] by {
                        if t < k {
                            assert(connections@[t] == prev_conns[t]);
                            assert(prev_conns[t] == initial_connections(
                                pairs.take(k),
                                weight_bits@.take(k),
                                ra,
                            )[t]);
                            assert(rs[t] == ra[t]);
                        } else {
                            assert(rs[t] == r);
                        }
                    }
                    assert(connections@ =~= initial_connections(
                        pairs.take(k + 1),
                        weight_bits@.take(k + 1),
                        rs,
                    ));
                }
                j = j + 1;
            }
            i = i + 1;
        }
        proof {
            assert(connections@.len() == pairs.len());
            assert(pairs.take(pairs.len() as int) == pairs);
            assert(weight_bits@.take(pairs.len() as int) == weight_bits@);
            lemma_node_map_indexed(nodes@);
            assert(node_map(nodes@) =~= initial_nodes(num_inputs, num_outputs, biases));
            lemma_initial_feed_forward(
                num_inputs,
                num_outputs,
                weight_bits@,
                connection_steps(m0, pairs).1,
            );
        }
        Genome::new(nodes, connections)
    }

    /// `size` fresh genomes (see [`Genome::create_initial_genome`]), genome `k` taking its
    /// biases and weights from entry `k` of `output_bias_bits` and `weight_bits`. All of
    /// them carry the same innovation numbers.
    pub fn create_initial_population(
        size: usize,
        num_inputs: u32,
        num_outputs: u32,
        innov: &mut InnovationTracker,
        output_bias_bits: &Vec<Vec<u32>>,
        weight_bits: &Vec<Vec<u32>>,
    ) -> (population: Vec<Genome>)
        requires
            num_inputs + num_outputs <= u32::MAX,
            output_bias_bits@.len() == size,
            weight_bits@.len() == size,
            forall|k: int|
                0 <= k < size ==> (#[trigger] output_bias_bits@[k])@.len() == num_outputs,
            forall|k: int|
                0 <= k < size ==> (#[trigger] weight_bits@[k])@.len() == num_inputs * num_outputs,
            size > 0 ==> can_register_all(
                initial_tracker(old(innov)@, num_inputs, num_outputs),
                initial_pairs(num_inputs, num_outputs),
            ),
        ensures
            population@.len() == size,
            ({
                let (m, rs) = connection_steps(
                    initial_tracker(old(innov)@, num_inputs, num_outputs),
                    initial_pairs(num_inputs, num_outputs),
                );
                &&& final(innov)@ == (if size == 0 {
                    old(innov)@
                } else {
                    m
                })
                &&& forall|k: int|
                    0 <= k < size ==> {
                        &&& (#[trigger] population@[k]).nodes@ == initial_nodes(
                            num_inputs,
                            num_outputs,
                            output_bias_bits@[k]@,
                        )
                        &&& population@[k].connections@ == initial_connections(
                            initial_pairs(num_inputs, num_outputs),
                            weight_bits@[k]@,
                            rs,
                        )
                        &&& forall|j: int|
                            0 <= j < num_outputs ==> #[trigger] population@[k].nodes@[(num_inputs
                                + j) as u32].bias_bits == output_bias_bits@[k]@[j]
                        &&& population@[k].fitness_bits == 0
                        &&& population@[k].wf()
                        &&& is_feed_forward(population@[k].connections@)
                    }
            }),
    {
        let ghost m0 = initial_tracker(old(innov)@, num_inputs, num_outputs);
        let ghost pairs = initial_pairs(num_inputs, num_outputs);
        let ghost m = connection_steps(m0, pairs).0;
        let ghost rs = connection_steps(m0, pairs).1;
        proof {
            lemma_connection_steps_idempotent(m0, pairs);
            lemma_connection_steps_record(m0, pairs);
        }
        let mut population: Vec<Genome> = Vec::new();
        let mut k: usize = 0;
        while k < size
            invariant
                k <= size,
                num_inputs + num_outputs <= u32::MAX,
                output_bias_bits@.len() == size,
                weight_bits@.len() == size,
                forall|t: int|
                    0 <= t < size ==> (#[trigger] output_bias_bits@[t])@.len() == num_outputs,
                forall|t: int|
                    0 <= t < size ==> (#[trigger] weight_bits@[t])@.len() == num_inputs
                        * num_outputs,
                size > 0 ==> can_register_all(m0, pairs),
                m0 == initial_tracker(old(innov)@, num_inputs, num_outputs),
                pairs == initial_pairs(num_inputs, num_outputs),
                (m, rs) == connection_steps(m0, pairs),
                connection_steps(m, pairs) == (m, rs),
                can_register_all(m, pairs),
                m.node_id_counter == num_inputs + num_outputs,
                innov@ == (if k == 0 {
                    old(innov)@
                } else {
                    m
                }),
                population@.len() == k,
                forall|t: int|
                    0 <= t < k ==> {
                        &&& (#[trigger] population@[t]).nodes@ == initial_nodes(
                            num_inputs,
                            num_outputs,
                            output_bias_bits@[t]@,
                        )
                        &&& population@[t].connections@ == initial_connections(
                            pairs,
                            weight_bits@[t]@,
                            rs,
                        )
                        &&& population@[t].fitness_bits == 0
                        &&& population@[t].wf()
                        &&& is_feed_forward(population@[t].connections@)
                    },
            decreases size - k,
        {
            proof {
                if k > 0 {
                    assert(initial_tracker(innov@, num_inputs, num_outputs) == m);
                }
            }
            let genome = Genome::create_initial_genome(
                num_inputs,
                num_outputs,
                innov,
                &output_bias_bits[k],
                &weight_bits[k],
            );
            population.push(genome);
            k = k + 1;
        }
        population
    }

    /// Whether a connection joins `a` and `b`, in either direction, enabled or not.
    fn connected_either_way(&self, a: u32, b: u32) -> (r: bool)
        ensures
            r == exists|i: int|
                0 <= i < self.connections@.len() && ((#[trigger] self.connections@[i].in_node_id
                    == a && self.connections@[i].out_node_id == b) || (
                self.connections@[i].in_node_id == b && self.connections@[i].out_node_id == a)),
    {
        let mut i: usize = 0;
        while i < self.connections.len()
            invariant
                i <= self.connections.len(),
                forall|t: int|
                    0 <= t < i ==> !((#[trigger] self.connections@[t].in_node_id == a
                        && self.connections@[t].out_node_id == b) || (
                    self.connections@[t].in_node_id == b && self.connections@[t].out_node_id
                        == a)),
            decreases self.connections.len() - i,
        {
            let c = self.connections[i];
            if (c.in_node_id == a && c.out_node_id == b) || (c.in_node_id == b && c.out_node_id
                == a) {
                assert(self.connections@[i as int] == c);
                return true;
            }
            i = i + 1;
        }
        false
    }

    /// Whether the sampled pair `a`, `b`, taken in the direction in which it is tried (see
    /// [`oriented`]), may be joined by a new connection.
    pub fn can_link(&self, a: NodeGene, b: NodeGene) -> (r: bool)
        ensures
            r == link_allowed(self.connections@, oriented(a, b).0, oriented(a, b).1),
            r ==> a.id != b.id && ((a.node_type != NodeType::Output && b.node_type
                != NodeType::Input) || (b.node_type != NodeType::Output && a.node_type
                != NodeType::Input)),
            a.node_type == NodeType::Output && b.node_type == NodeType::Output ==> !r,
            a.node_type == NodeType::Input && b.node_type == NodeType::Input ==> !r,
    {
        let (node1, node2) = orient_pair(a, b);
        if node1.id == node2.id || node1.node_type == NodeType::Output || node2.node_type
            == NodeType::Input {
            return false;
        }
        if self.connected_either_way(node1.id, node2.id) {
            return false;
        }
        let mut checked: HashSet<u32> = HashSet::new();
        if self.path_exists(node2.id, node1.id, &mut checked, Ghost(Set::empty())) {
            return false;
        }
        proof {
            assert forall|p: Seq<u32>|
                #[trigger] is_path(self.connections@, p) && p[0] == node2.id implies p[p.len() - 1]
                != node1.id by {
                lemma_closed_unreachable(self.connections@, checked@, node1.id, p);
            }
            lemma_oriented_link_direction(self.connections@, a, b);
        }
        true
    }

    /// Tries the sampled pair `a`, `b` (see [`oriented`]): when the link is
    /// [`link_allowed`], appends an enabled connection of weight `weight_bits` with the
    /// innovation `innov` gives it and returns `true`; otherwise changes nothing.
    pub fn link_pair(
        &mut self,
        innov: &mut InnovationTracker,
        a: NodeGene,
        b: NodeGene,
        weight_bits: u32,
    ) -> (linked: bool)
        requires
            ({
                let (n1, n2) = oriented(a, b);
                link_allowed(old(self).connections@, n1, n2) ==> old(
                    innov,
                )@.can_register_connection(n1.id, n2.id)
            }),
        ensures
            final(self).nodes@ == old(self).nodes@,
            final(self).fitness_bits == old(self).fitness_bits,
            ({
                let (n1, n2) = oriented(a, b);
                let (m, r) = old(innov)@.connection_step(n1.id, n2.id);
                &&& linked == link_allowed(old(self).connections@, n1, n2)
                &&& linked ==> final(innov)@ == m && final(self).connections@ == old(
                    self,
                ).connections@.push(
                    ConnectionGene {
                        in_node_id: n1.id,
                        out_node_id: n2.id,
                        weight_bits,
                        enabled: true,
                        innov: r,
                    },
                )
                &&& !linked ==> final(innov)@ == old(innov)@ && final(self).connections@ == old(
                    self,
                ).connections@
            }),
            is_feed_forward(old(self).connections@) ==> is_feed_forward(final(self).connections@),
            linked ==> a.id != b.id && final(self).connections@.len() == old(self).connections@.len()
                + 1 && ({
                let g = final(self).connections@.last();
                ||| g.in_node_id == a.id && g.out_node_id == b.id && a.node_type
                    != NodeType::Output && b.node_type != NodeType::Input
                ||| g.in_node_id == b.id && g.out_node_id == a.id && b.node_type
                    != NodeType::Output && a.node_type != NodeType::Input
            }),
    {
        if !self.can_link(a, b) {
            return false;
        }
        let (node1, node2) = orient_pair(a, b);
        let r = innov.get_connection_innovation(node1.id, node2.id);
        let g = ConnectionGene::new(node1.id, node2.id, weight_bits, true, r);
        proof {
            if is_feed_forward(self.connections@) {
                lemma_link_keeps_feed_forward(self.connections@, g);
            }
        }
        self.connections.push(g);
        true
    }

    /// Tries up to ten times to join two random nodes by a new enabled connection of
    /// weight `weight_bits`; a pair is taken only when it is [`linkable`]. The connection's
    /// innovation comes from `innov`. When no try succeeds, nothing changes.
    pub fn mutate_add_connection(&mut self, innov: &mut InnovationTracker, weight_bits: u32)
        requires
            old(self).nodes@.len() >= 2,
            forall|a: NodeGene, b: NodeGene|
                #![trigger old(self).nodes@.values().contains(a), old(self).nodes@.values().contains(b)]
                old(self).nodes@.values().contains(a) && old(self).nodes@.values().contains(b)
                    ==> ({
                    let (n1, n2) = oriented(a, b);
                    link_allowed(old(self).connections@, n1, n2) ==> old(
                        innov,
                    )@.can_register_connection(n1.id, n2.id)
                }),
        ensures
            final(self).nodes@ == old(self).nodes@,
            final(self).fitness_bits == old(self).fitness_bits,
            old(self).wf() ==> final(self).wf(),
            (final(self).connections@ == old(self).connections@ && final(innov)@ == old(innov)@)
                || exists|a: NodeGene, b: NodeGene|
                #[trigger] linkable(old(self).nodes@, old(self).connections@, a, b) && ({
                    let (m, r) = old(innov)@.connection_step(a.id, b.id);
                    &&& final(innov)@ == m
                    &&& final(self).connections@ == old(self).connections@.push(
                        ConnectionGene {
                            in_node_id: a.id,
                            out_node_id: b.id,
                            weight_bits,
                            enabled: true,
                            innov: r,
                        },
                    )
                }),
            is_feed_forward(old(self).connections@) ==> is_feed_forward(final(self).connections@),
            old(self).wf() && every_pair_linkable(old(self).nodes@, old(self).connections@)
                ==> final(self).connections@.len() == old(self).connections@.len() + 1,
            final(self).connections@ == old(self).connections@ || (final(self).connections@.len()
                == old(self).connections@.len() + 1 && exists|a: NodeGene, b: NodeGene|
                #![trigger old(self).nodes@.values().contains(a), old(self).nodes@.values().contains(b)]
                {
                    &&& old(self).nodes@.values().contains(a)
                    &&& old(self).nodes@.values().contains(b)
                    &&& a.id != b.id
                    &&& a.node_type != NodeType::Output
                    &&& b.node_type != NodeType::Input
                    &&& final(self).connections@.last().in_node_id == a.id
                    &&& final(self).connections@.last().out_node_id == b.id
                }),
    {
        let mut node_list = map_values(&self.nodes);
        let ghost values = self.nodes@.values();
        let ghost certain = old(self).wf() && every_pair_linkable(
            old(self).nodes@,
            old(self).connections@,
        );
        proof {
            node_list@.to_multiset_ensures();
            if self.wf() {
                let ks = choose|ks: Seq<u32>|
                    #![trigger ks.no_duplicates()]
                    {
                        &&& ks.len() == node_list@.len()
                        &&& ks.no_duplicates()
                        &&& forall|i: int|
                            0 <= i < ks.len() ==> self.nodes@.contains_key(#[trigger] ks[i])
                                && node_list@[i] == self.nodes@[ks[i]]
                    };
                assert forall|i: int, j: int|
                    0 <= i < node_list@.len() && 0 <= j < node_list@.len() && i != j implies node_list@[i]
                    != node_list@[j] by {
                    assert(self.nodes@.contains_key(ks[i]) && self.nodes@.contains_key(ks[j]));
                    assert(self.nodes@[ks[i]].id == ks[i]);
                    assert(self.nodes@[ks[j]].id == ks[j]);
                }
            }
        }
        let mut tries: usize = 0;
        while tries < 10
            invariant
                certain == (old(self).wf() && every_pair_linkable(
                    old(self).nodes@,
                    old(self).connections@,
                )),
                certain ==> tries == 0,
                self.wf() == old(self).wf(),
                self.wf() ==> node_list@.no_duplicates(),
                self.nodes@ == old(self).nodes@,
                self.connections@ == old(self).connections@,
                self.fitness_bits == old(self).fitness_bits,
                innov@ == old(innov)@,
                forall|a: NodeGene, b: NodeGene|
                    #![trigger values.contains(a), values.contains(b)]
                    values.contains(a) && values.contains(b) ==> ({
                        let (n1, n2) = oriented(a, b);
                        link_allowed(self.connections@, n1, n2) ==> innov@.can_register_connection(
                            n1.id,
                            n2.id,
                        )
                    }),
                values == self.nodes@.values(),
                node_list@.len() >= 2,
                forall|n: NodeGene| #[trigger] node_list@.contains(n) ==> values.contains(n),
            decreases 10 - tries,
        {
            let ghost before = node_list@;
            crate::neat::rng::shuffle(&mut node_list);
            proof {
                before.to_multiset_ensures();
                node_list@.to_multiset_ensures();
                assert forall|n: NodeGene| #[trigger] node_list@.contains(n) implies values.contains(
                    n,
                ) by {
                    assert(node_list@.to_multiset().count(n) > 0);
                    assert(before.contains(n));
                }
                assert(node_list@.contains(node_list@[0]));
                assert(node_list@.contains(node_list@[1]));
                if self.wf() {
                    before.lemma_multiset_has_no_duplicates();
                    assert forall|x: NodeGene| node_list@.to_multiset().contains(x) implies node_list@.to_multiset().count(
                        x,
                    ) == 1 by {
                        assert(before.to_multiset().contains(x));
                    }
                    node_list@.lemma_multiset_has_no_duplicates_conv();
                }
                if certain {
                    let a = node_list@[0];
                    let b = node_list@[1];
                    assert(a != b);
                    assert(values.contains(a) && values.contains(b));
                    let ka = choose|k: u32| self.nodes@.contains_key(k) && self.nodes@[k] == a;
                    let kb = choose|k: u32| self.nodes@.contains_key(k) && self.nodes@[k] == b;
                    assert(a.id == ka && b.id == kb);
                    assert(a.id != b.id);
                    assert(link_allowed(self.connections@, oriented(a, b).0, oriented(a, b).1));
                }
            }
            let a = node_list[0];
            let b = node_list[1];
            if self.link_pair(innov, a, b, weight_bits) {
                proof {
                    let (n1, n2) = oriented(a, b);
                    assert(linkable(old(self).nodes@, old(self).connections@, n1, n2));
                    lemma_link_direction(old(self).connections@, n1, n2);
                    assert(old(self).nodes@.values().contains(n1));
                    assert(old(self).nodes@.values().contains(n2));
                }
                return ;
            }
            tries = tries + 1;
        }
    }

    /// Splits a random enabled connection: it is disabled, and a new hidden ReLU node of
    /// bias `bias_bits`, with the id and innovations that `innov` gives for this split,
    /// is put between its ends. With no enabled connection nothing changes.
    pub fn mutate_add_node(&mut self, innov: &mut InnovationTracker, bias_bits: u32)
        requires
            forall|i: int|
                0 <= i < old(self).connections@.len() && (#[trigger] old(self).connections@[i]).enabled
                    ==> old(innov)@.can_split_connection(old(self).connections@[i].innov),
        ensures
            final(self).fitness_bits == old(self).fitness_bits,
            old(self).wf() ==> final(self).wf(),
            (forall|i: int|
                0 <= i < old(self).connections@.len() ==> !(#[trigger] old(
                    self,
                ).connections@[i]).enabled) ==> {
                &&& final(self).nodes@ == old(self).nodes@
                &&& final(self).connections@ == old(self).connections@
                &&& final(innov)@ == old(innov)@
            },
            (exists|i: int|
                0 <= i < old(self).connections@.len() && (#[trigger] old(
                    self,
                ).connections@[i]).enabled) ==> exists|idx: int|
                0 <= idx < old(self).connections@.len() && (#[trigger] old(
                    self,
                ).connections@[idx]).enabled && ({
                    let (m, t) = old(innov)@.node_step(old(self).connections@[idx].innov);
                    &&& final(innov)@ == m
                    &&& final(self).connections@ == split_connections(
                        old(self).connections@,
                        idx,
                        t,
                    )
                    &&& final(self).nodes@ == old(self).nodes@.insert(
                        t.0,
                        NodeGene {
                            id: t.0,
                            node_type: NodeType::Hidden,
                            activation: ActivationFunction::ReLU,
                            bias_bits,
                        },
                    )
                    &&& is_feed_forward(old(self).connections@) && !is_endpoint(
                        old(self).connections@,
                        t.0,
                    ) ==> is_feed_forward(final(self).connections@)
                }),
            (exists|i: int|
                0 <= i < old(self).connections@.len() && (#[trigger] old(
                    self,
                ).connections@[i]).enabled) ==> exists|p: int|
                0 <= p < enabled_positions(old(self).connections@).len() && final(self).connections@
                    == split_connections(
                    old(self).connections@,
                    #[trigger] enabled_positions(old(self).connections@)[p],
                    old(innov)@.node_step(
                        old(self).connections@[enabled_positions(old(self).connections@)[p]].innov,
                    ).1,
                ),
    {
        let enabled_indices = self.enabled_connection_indices();
        proof {
            lemma_enabled_positions(self.connections@);
        }
        if enabled_indices.len() == 0 {
            proof {
                assert forall|i: int|
                    0 <= i < self.connections@.len() implies !(#[trigger] self.connections@[i]).enabled by {
                    if self.connections@[i].enabled {
                        let p = choose|p: int|
                            0 <= p < enabled_positions(self.connections@).len()
                                && #[trigger] enabled_positions(self.connections@)[p] == i;
                    }
                }
            }
            return ;
        }
        let pick = crate::neat::rng::random_index(enabled_indices.len());
        let idx = enabled_indices[pick];
        proof {
            assert(enabled_positions(self.connections@)[pick as int] == idx);
        }
        self.split_connection(innov, idx, bias_bits);
    }

    /// The positions of the enabled connections, in order.
    pub fn enabled_connection_indices(&self) -> (r: Vec<usize>)
        ensures
            r@.len() == enabled_positions(self.connections@).len(),
            forall|p: int| 0 <= p < r@.len() ==> #[trigger] r@[p] == enabled_positions(self.connections@)[p],
    {
        let mut r: Vec<usize> = Vec::new();
        let mut i: usize = 0;
        while i < self.connections.len()
            invariant
                i <= self.connections.len(),
                r@.len() == enabled_positions(self.connections@.take(i as int)).len(),
                forall|p: int|
                    0 <= p < r@.len() ==> #[trigger] r@[p] == enabled_positions(
                        self.connections@.take(i as int),
                    )[p],
            decreases self.connections.len() - i,
        {
            let ghost t1 = self.connections@.take(i as int + 1);
            proof {
                assert(t1.drop_last() == self.connections@.take(i as int));
                assert(t1.last() == self.connections@[i as int]);
            }
            if self.connections[i].enabled {
                r.push(i);
            }
            i = i + 1;
        }
        proof {
            assert(self.connections@.take(self.connections@.len() as int) == self.connections@);
        }
        r
    }

    /// Splits connection `idx`: it is disabled, a hidden ReLU node of bias `bias_bits`
    /// with the id that `innov` gives for splitting its innovation is added (replacing a
    /// node of that id), and `in -> node` of weight `1.0` and `node -> out` of the old
    /// weight are appended with the two innovations `innov` gives.
    pub fn split_connection(&mut self, innov: &mut InnovationTracker, idx: usize, bias_bits: u32)
        requires
            idx < old(self).connections@.len(),
            old(innov)@.can_split_connection(old(self).connections@[idx as int].innov),
        ensures
            final(self).fitness_bits == old(self).fitness_bits,
            old(self).wf() ==> final(self).wf(),
            ({
                let (m, t) = old(innov)@.node_step(old(self).connections@[idx as int].innov);
                &&& final(innov)@ == m
                &&& final(self).connections@ == split_connections(
                    old(self).connections@,
                    idx as int,
                    t,
                )
                &&& final(self).nodes@ == old(self).nodes@.insert(
                    t.0,
                    NodeGene {
                        id: t.0,
                        node_type: NodeType::Hidden,
                        activation: ActivationFunction::ReLU,
                        bias_bits,
                    },
                )
                &&& is_feed_forward(old(self).connections@) && old(
                    self,
                ).connections@[idx as int].enabled && !is_endpoint(old(self).connections@, t.0)
                    ==> is_feed_forward(final(self).connections@)
            }),
    {
        let old_conn = self.connections[idx];
        let (node_id, conn1_innov, conn2_innov) = innov.get_node_innovation(old_conn.innov);
        let mut disabled = old_conn;
        disabled.enabled = false;
        self.connections.set(idx, disabled);
        let new_node = NodeGene::new(node_id, NodeType::Hidden, ActivationFunction::ReLU, bias_bits);
        let conn1 = ConnectionGene::new(old_conn.in_node_id, node_id, UNIT_WEIGHT_BITS, true, conn1_innov);
        let conn2 = ConnectionGene::new(
            node_id,
            old_conn.out_node_id,
            old_conn.weight_bits,
            true,
            conn2_innov,
        );
        self.nodes.insert(node_id, new_node);
        self.connections.push(conn1);
        self.connections.push(conn2);
        proof {
            if is_feed_forward(old(self).connections@) && old(self).connections@[idx as int].enabled
                && !is_endpoint(old(self).connections@, node_id) {
                lemma_split_keeps_feed_forward(
                    old(self).connections@,
                    idx as int,
                    (node_id, conn1_innov, conn2_innov),
                );
            }
            assert(self.connections@ == split_connections(
                old(self).connections@,
                idx as int,
                (node_id, conn1_innov, conn2_innov),
            ));
        }
    }

    /// For each node, the out-nodes of its enabled outgoing connections, in connection
    /// order. Connections leaving a node that is not in the genome are left out.
    pub fn enabled_edges(&self) -> (edges: HashMap<u32, Vec<u32>>)
        ensures
            edges@.dom() == self.nodes@.dom(),
            forall|k: u32| #[trigger]
                edges@.contains_key(k) ==> edges@[k]@ == enabled_children(self.connections@, k),
    {
        let keys = map_keys(&self.nodes);
        let mut edges: HashMap<u32, Vec<u32>> = HashMap::new();
        let mut i: usize = 0;
        while i < keys.len()
            invariant
                i <= keys.len(),
                edges@.dom() == keys@.take(i as int).to_set(),
                forall|k: u32| #[trigger] edges@.contains_key(k) ==> edges@[k]@ == Seq::<u32>::empty(),
            decreases keys.len() - i,
        {
            assert(keys@.take(i as int + 1) == keys@.take(i as int).push(keys@[i as int]));
            edges.insert(keys[i], Vec::new());
            proof {
                let t0 = keys@.take(i as int);
                let t1 = keys@.take(i as int + 1);
                assert forall|x: u32| t1.to_set().contains(x) <==> t0.to_set().contains(x) || x
                    == keys@[i as int] by {
                    if t1.contains(x) {
                        let q = choose|q: int| 0 <= q < t1.len() && t1[q] == x;
                        if q < i {
                            assert(t0[q] == x);
                        }
                    }
                    if t0.contains(x) {
                        let q = choose|q: int| 0 <= q < t0.len() && t0[q] == x;
                        assert(t1[q] == x);
                    }
                    if x == keys@[i as int] {
                        assert(t1[i as int] == x);
                    }
                }
                assert(edges@.dom() =~= keys@.take(i as int + 1).to_set());
            }
            i = i + 1;
        }
        assert(keys@.take(keys.len() as int) == keys@);
        let mut j: usize = 0;
        while j < self.connections.len()
            invariant
                j <= self.connections.len(),
                edges@.dom() == self.nodes@.dom(),
                forall|k: u32| #[trigger]
                    edges@.contains_key(k) ==> edges@[k]@ == enabled_children(
                        self.connections@.take(j as int),
                        k,
                    ),
            decreases self.connections.len() - j,
        {
            let conn = self.connections[j];
            let ghost prev = edges@;
            assert(self.connections@.take(j as int + 1).drop_last() == self.connections@.take(j as int));
            if conn.enabled {
                match edges.remove(&conn.in_node_id) {
                    Some(mut v) => {
                        v.push(conn.out_node_id);
                        edges.insert(conn.in_node_id, v);
                    },
                    None => {},
                }
            }
            assert forall|k: u32| #[trigger]
                edges@.contains_key(k) implies edges@[k]@ == enabled_children(
                self.connections@.take(j as int + 1),
                k,
            ) by {
                assert(prev.contains_key(k));
            }
            assert(edges@.dom() =~= self.nodes@.dom());
            j = j + 1;
        }
        assert(self.connections@.take(self.connections.len() as int) == self.connections@);
        edges
    }

    /// The order in which the network is evaluated: every node of the genome and every
    /// node reached by an enabled connection from one, each once. When the enabled
    /// connections form no cycle, every enabled connection leaving a genome node goes
    /// from an earlier to a later node.
    pub fn evaluation_order(&self) -> (order: Vec<u32>)
        ensures
            order@.no_duplicates(),
            forall|n: u32|
                order@.contains(n) <==> (self.nodes@.contains_key(n) || exists|k: u32|
                    self.nodes@.contains_key(k) && #[trigger] enabled_link(self.connections@, k, n)),
            is_feed_forward(self.connections@) ==> forall|i: int, j: int|
                0 <= i < order.len() && 0 <= j < order.len() && self.nodes@.contains_key(
                    order@[i],
                ) && #[trigger] enabled_link(self.connections@, order@[i], order@[j]) ==> i < j,
    {
        let edges = self.enabled_edges();
        let ghost conns = self.connections@;
        proof {
            assert forall|a: u32, b: u32|
                #[trigger] has_edge(edges@, a, b) <==> (self.nodes@.contains_key(a)
                    && enabled_link(conns, a, b)) by {
                lemma_enabled_children(conns, a, b);
            }
            if is_feed_forward(conns) {
                assert forall|p: Seq<u32>| #[trigger] is_walk(edges@, p) && p.len() >= 2 implies p[0]
                    != p[p.len() - 1] by {
                    assert forall|i: int| 0 <= i < p.len() - 1 implies #[trigger] link_step(
                        conns,
                        p,
                        i,
                    ) by {
                        assert(walk_step(edges@, p, i));
                    }
                    assert(is_path(conns, p));
                }
            }
        }
        let order = topological_sort(&edges);
        proof {
            assert forall|n: u32|
                order@.contains(n) <==> (self.nodes@.contains_key(n) || exists|k: u32|
                    self.nodes@.contains_key(k) && #[trigger] enabled_link(conns, k, n)) by {
                if exists|k: u32| self.nodes@.contains_key(k) && #[trigger] enabled_link(conns, k, n) {
                    let k = choose|k: u32| self.nodes@.contains_key(k) && #[trigger] enabled_link(conns, k, n);
                    assert(has_edge(edges@, k, n));
                }
                if is_graph_node(edges@, n) && !edges@.contains_key(n) {
                    let k = choose|k: u32| #[trigger] has_edge(edges@, k, n);
                    assert(self.nodes@.contains_key(k) && enabled_link(conns, k, n));
                }
            }
            assert forall|i: int, j: int|
                is_feed_forward(conns) && 0 <= i < order.len() && 0 <= j < order.len()
                    && self.nodes@.contains_key(order@[i]) && #[trigger] enabled_link(
                    conns,
                    order@[i],
                    order@[j],
                ) implies i < j by {
                assert(has_edge(edges@, order@[i], order@[j]));
            }
        }
        order
    }

    /// Whether enabled connections lead from `start_node_id` to `end_node_id`, searching
    /// depth first and skipping the nodes already in `checked_nodes`. The nodes of `open`
    /// are those whose search is still under way.
    fn path_exists(
        &self,
        start_node_id: u32,
        end_node_id: u32,
        checked_nodes: &mut HashSet<u32>,
        Ghost(open): Ghost<Set<u32>>,
    ) -> (r: bool)
        requires
            !old(checked_nodes)@.contains(start_node_id),
            open.subset_of(old(checked_nodes)@),
            closed_except(self.connections@, old(checked_nodes)@, open, end_node_id),
        ensures
            old(checked_nodes)@.subset_of(final(checked_nodes)@),
            r ==> reachable(self.connections@, start_node_id, end_node_id),
            !r ==> final(checked_nodes)@.contains(start_node_id) && closed_except(
                self.connections@,
                final(checked_nodes)@,
                open,
                end_node_id,
            ),
        decreases out_nodes(self.connections@).insert(start_node_id).difference(
            old(checked_nodes)@,
        ).len(),
    {
        let ghost conns = self.connections@;
        if start_node_id == end_node_id {
            assert(is_path(conns, seq![start_node_id]));
            return true;
        }
        let ghost checked0 = checked_nodes@;
        checked_nodes.insert(start_node_id);
        let ghost open2 = open.insert(start_node_id);
        let ghost universe = out_nodes(conns).insert(start_node_id).difference(checked0);
        proof {
            vstd::seq_lib::seq_to_set_is_finite(conns.map_values(|c: ConnectionGene| c.out_node_id));
        }
        let mut i: usize = 0;
        while i < self.connections.len()
            invariant
                conns == self.connections@,
                i <= conns.len(),
                checked0 == old(checked_nodes)@,
                !checked0.contains(start_node_id),
                start_node_id != end_node_id,
                checked0.insert(start_node_id).subset_of(checked_nodes@),
                open2 == open.insert(start_node_id),
                open.subset_of(checked0),
                closed_except(conns, checked_nodes@, open2, end_node_id),
                forall|t: int|
                    0 <= t < i && (#[trigger] conns[t]).enabled && conns[t].in_node_id
                        == start_node_id ==> checked_nodes@.contains(conns[t].out_node_id),
                universe == out_nodes(conns).insert(start_node_id).difference(checked0),
                out_nodes(conns).finite(),
            decreases conns.len() - i,
        {
            let conn = self.connections[i];
            let ghost checked1 = checked_nodes@;
            if conn.enabled && conn.in_node_id == start_node_id && !checked_nodes.contains(
                &conn.out_node_id,
            ) {
                proof {
                    let out = conn.out_node_id;
                    assert(conns.map_values(|c: ConnectionGene| c.out_node_id)[i as int] == out);
                    assert(out_nodes(conns).contains(out));
                    let callee = out_nodes(conns).insert(out).difference(checked_nodes@);
                    assert(callee.subset_of(universe.remove(start_node_id)));
                    assert(universe.contains(start_node_id));
                    vstd::set_lib::lemma_len_subset(callee, universe.remove(start_node_id));
                }
                if self.path_exists(conn.out_node_id, end_node_id, checked_nodes, Ghost(open2)) {
                    proof {
                        let out = conn.out_node_id;
                        let p = choose|p: Seq<u32>|
                            #[trigger] is_path(conns, p) && p[0] == out && p[p.len() - 1]
                                == end_node_id;
                        let q = seq![start_node_id] + p;
                        assert(enabled_link(conns, start_node_id, out)) by {
                            assert(conns[i as int] == conn);
                        }
                        assert forall|j: int| 0 <= j < q.len() - 1 implies #[trigger] link_step(
                            conns,
                            q,
                            j,
                        ) by {
                            if j > 0 {
                                assert(link_step(conns, p, j - 1));
                            }
                        }
                        assert(is_path(conns, q));
                        assert(q[q.len() - 1] == end_node_id);
                    }
                    return true;
                }
            }
            proof {
                assert forall|t: int|
                    0 <= t < i + 1 && (#[trigger] conns[t]).enabled && conns[t].in_node_id
                        == start_node_id implies checked_nodes@.contains(conns[t].out_node_id) by {
                    if t < i {
                        assert(checked1.contains(conns[t].out_node_id));
                    }
                }
            }
            i = i + 1;
        }
        proof {
            assert forall|x: u32| #[trigger]
                checked_nodes@.contains(x) implies open.contains(x) || (x != end_node_id
                && forall|y: u32| #[trigger]
                enabled_link(conns, x, y) ==> checked_nodes@.contains(y)) by {
                if x == start_node_id {
                    assert forall|y: u32| #[trigger]
                        enabled_link(conns, x, y) implies checked_nodes@.contains(y) by {
                        let t = choose|t: int|
                            0 <= t < conns.len() && #[trigger] conns[t].enabled
                                && conns[t].in_node_id == x && conns[t].out_node_id == y;
                    }
                } else {
                    assert(open2.contains(x) ==> open.contains(x));
                }
            }
        }
        false
    }
}

} // verus!

use std::collections::HashMap;
use vstd::prelude::*;

verus! {

broadcast use vstd::std_specs::hash::group_hash_axioms;

/// The key under which the connection `in_node -> out_node` is stored: the pair packed
/// into one `u64`, `in_node` in the high half and `out_node` in the low half.
pub open spec fn connection_key(in_node: u32, out_node: u32) -> u64 {
    (in_node as int * 0x1_0000_0000 + out_node as int) as u64
}

/// Distinct pairs have distinct keys.
pub proof fn lemma_connection_key_injective(a: u32, b: u32, c: u32, d: u32)
    requires
        connection_key(a, b) == connection_key(c, d),
    ensures
        a == c,
        b == d,
{
    assert(a as int * 0x1_0000_0000 + b as int <= 0xffff_ffff_ffff_ffff) by (nonlinear_arith)
        requires
            a <= 0xffff_ffff,
            b <= 0xffff_ffff,
    ;
    assert(c as int * 0x1_0000_0000 + d as int <= 0xffff_ffff_ffff_ffff) by (nonlinear_arith)
        requires
            c <= 0xffff_ffff,
            d <= 0xffff_ffff,
    ;
    assert(a == c && b == d) by (nonlinear_arith)
        requires
            a as int * 0x1_0000_0000 + b as int == c as int * 0x1_0000_0000 + d as int,
            0 <= b < 0x1_0000_0000,
            0 <= d < 0x1_0000_0000,
    ;
}

/// The abstract state of an [`InnovationTracker`]: the next innovation number, the
/// innovation given to each connection `(in, out)`, the `(node id, innovation of the
/// incoming half, innovation of the outgoing half)` given to each split connection
/// innovation, and the next node id.
pub struct InnovationModel {
    pub current_innovation: u32,
    pub connections: Map<(u32, u32), u32>,
    pub nodes: Map<u32, (u32, u32, u32)>,
    pub node_id_counter: u32,
}

impl InnovationModel {
    /// The tracker with nothing registered.
    pub open spec fn empty() -> InnovationModel {
        InnovationModel {
            current_innovation: 0,
            connections: Map::empty(),
            nodes: Map::empty(),
            node_id_counter: 0,
        }
    }

    /// Registering `(in_node, out_node)` does not overflow the innovation counter.
    pub open spec fn can_register_connection(self, in_node: u32, out_node: u32) -> bool {
        self.connections.contains_key((in_node, out_node)) || self.current_innovation < u32::MAX
    }

    /// The state after asking for the innovation of `in_node -> out_node`, and the answer:
    /// a known pair keeps its number, a new pair takes the next one.
    pub open spec fn connection_step(self, in_node: u32, out_node: u32) -> (InnovationModel, u32) {
        if self.connections.contains_key((in_node, out_node)) {
            (self, self.connections[(in_node, out_node)])
        } else {
            (
                InnovationModel {
                    current_innovation: (self.current_innovation + 1) as u32,
                    connections: self.connections.insert(
                        (in_node, out_node),
                        self.current_innovation,
                    ),
                    nodes: self.nodes,
                    node_id_counter: self.node_id_counter,
                },
                self.current_innovation,
            )
        }
    }

    /// Splitting the connection with innovation `conn` does not overflow a counter.
    pub open spec fn can_split_connection(self, conn: u32) -> bool {
        self.nodes.contains_key(conn) || (self.node_id_counter < u32::MAX
            && self.current_innovation < u32::MAX - 1)
    }

    /// The state after asking for the node that splits connection innovation `conn`, and
    /// the answer `(node id, innovation in, innovation out)`: a known split keeps its
    /// triple, a new one takes the next node id and the next two innovation numbers.
    pub open spec fn node_step(self, conn: u32) -> (InnovationModel, (u32, u32, u32)) {
        if self.nodes.contains_key(conn) {
            (self, self.nodes[conn])
        } else {
            let triple = (
                self.node_id_counter,
                self.current_innovation,
                (self.current_innovation + 1) as u32,
            );
            (
                InnovationModel {
                    current_innovation: (self.current_innovation + 2) as u32,
                    connections: self.connections,
                    nodes: self.nodes.insert(conn, triple),
                    node_id_counter: (self.node_id_counter + 1) as u32,
                },
                triple,
            )
        }
    }

    /// Every innovation number handed out is below the counter, every node id handed out
    /// is below the node counter, and no number or node id was handed out twice.
    pub open spec fn wf(self) -> bool {
        &&& forall|k: (u32, u32)| #[trigger]
            self.connections.contains_key(k) ==> self.connections[k] < self.current_innovation
        &&& forall|c: u32| #[trigger]
            self.nodes.contains_key(c) ==> {
                &&& self.nodes[c].0 < self.node_id_counter
                &&& self.nodes[c].1 < self.current_innovation
                &&& self.nodes[c].2 < self.current_innovation
                &&& self.nodes[c].1 != self.nodes[c].2
            }
        &&& forall|k1: (u32, u32), k2: (u32, u32)|
            #![trigger self.connections[k1], self.connections[k2]]
            self.connections.contains_key(k1) && self.connections.contains_key(k2) && k1 != k2
                ==> self.connections[k1] != self.connections[k2]
        &&& forall|c1: u32, c2: u32|
            #![trigger self.nodes[c1], self.nodes[c2]]
            self.nodes.contains_key(c1) && self.nodes.contains_key(c2) && c1 != c2 ==> {
                &&& self.nodes[c1].0 != self.nodes[c2].0
                &&& self.nodes[c1].1 != self.nodes[c2].1
                &&& self.nodes[c1].1 != self.nodes[c2].2
                &&& self.nodes[c1].2 != self.nodes[c2].2
            }
        &&& forall|k: (u32, u32), c: u32|
            #![trigger self.connections[k], self.nodes[c]]
            self.connections.contains_key(k) && self.nodes.contains_key(c) ==> {
                &&& self.connections[k] != self.nodes[c].1
                &&& self.connections[k] != self.nodes[c].2
            }
    }
}

/// Asking twice for the innovation of the same connection gives the same number, and the
/// second request changes nothing.
pub proof fn lemma_connection_step_idempotent(m: InnovationModel, in_node: u32, out_node: u32)
    ensures
        ({
            let (m1, r1) = m.connection_step(in_node, out_node);
            m1.connection_step(in_node, out_node) == (m1, r1)
        }),
{
}

/// Asking twice for the node that splits the same connection gives the same triple, and
/// the second request changes nothing.
pub proof fn lemma_node_step_idempotent(m: InnovationModel, conn: u32)
    ensures
        ({
            let (m1, t1) = m.node_step(conn);
            m1.node_step(conn) == (m1, t1)
        }),
{
}

/// Registering a connection keeps every earlier answer, never lowers a counter, and keeps
/// the tracker well formed: the number it hands out was not handed out before.
pub proof fn lemma_connection_step_preserves_wf(m: InnovationModel, in_node: u32, out_node: u32)
    requires
        m.wf(),
        m.can_register_connection(in_node, out_node),
    ensures
        ({
            let (m1, r) = m.connection_step(in_node, out_node);
            &&& m1.wf()
            &&& m.connections.submap_of(m1.connections)
            &&& m.nodes.submap_of(m1.nodes)
            &&& m.current_innovation <= m1.current_innovation
            &&& m.node_id_counter == m1.node_id_counter
            &&& m1.connections.contains_key((in_node, out_node))
            &&& m1.connections[(in_node, out_node)] == r
            &&& r < m1.current_innovation
        }),
{
    let (m1, r) = m.connection_step(in_node, out_node);
    if !m.connections.contains_key((in_node, out_node)) {
        assert forall|k1: (u32, u32), k2: (u32, u32)|
            #![trigger m1.connections[k1], m1.connections[k2]]
            m1.connections.contains_key(k1) && m1.connections.contains_key(k2) && k1 != k2
                implies m1.connections[k1] != m1.connections[k2] by {
            if k1 != (in_node, out_node) && k2 != (in_node, out_node) {
                assert(m.connections[k1] != m.connections[k2]);
            } else if k1 == (in_node, out_node) {
                assert(m.connections.contains_key(k2));
            } else {
                assert(m.connections.contains_key(k1));
            }
        }
        assert forall|k: (u32, u32), c: u32|
            #![trigger m1.connections[k], m1.nodes[c]]
            m1.connections.contains_key(k) && m1.nodes.contains_key(c) implies {
                &&& m1.connections[k] != m1.nodes[c].1
                &&& m1.connections[k] != m1.nodes[c].2
            } by {
            assert(m.nodes.contains_key(c));
            if k != (in_node, out_node) {
                assert(m.connections[k] != m.nodes[c].1);
            }
        }
    }
}

/// Splitting a connection keeps every earlier answer, never lowers a counter, and keeps
/// the tracker well formed: the node id and the two numbers it hands out are fresh.
pub proof fn lemma_node_step_preserves_wf(m: InnovationModel, conn: u32)
    requires
        m.wf(),
        m.can_split_connection(conn),
    ensures
        ({
            let (m1, t) = m.node_step(conn);
            &&& m1.wf()
            &&& m.connections.submap_of(m1.connections)
            &&& m.nodes.submap_of(m1.nodes)
            &&& m.current_innovation <= m1.current_innovation
            &&& m.node_id_counter <= m1.node_id_counter
            &&& m1.nodes.contains_key(conn)
            &&& m1.nodes[conn] == t
        }),
{
    let (m1, t) = m.node_step(conn);
    if !m.nodes.contains_key(conn) {
        assert forall|c1: u32, c2: u32|
            #![trigger m1.nodes[c1], m1.nodes[c2]]
            m1.nodes.contains_key(c1) && m1.nodes.contains_key(c2) && c1 != c2 implies {
                &&& m1.nodes[c1].0 != m1.nodes[c2].0
                &&& m1.nodes[c1].1 != m1.nodes[c2].1
                &&& m1.nodes[c1].1 != m1.nodes[c2].2
                &&& m1.nodes[c1].2 != m1.nodes[c2].2
            } by {
            if c1 != conn && c2 != conn {
                assert(m.nodes[c1].0 != m.nodes[c2].0);
            } else if c1 == conn {
                assert(m.nodes.contains_key(c2));
            } else {
                assert(m.nodes.contains_key(c1));
            }
        }
        assert forall|k: (u32, u32), c: u32|
            #![trigger m1.connections[k], m1.nodes[c]]
            m1.connections.contains_key(k) && m1.nodes.contains_key(c) implies {
                &&& m1.connections[k] != m1.nodes[c].1
                &&& m1.connections[k] != m1.nodes[c].2
            } by {
            assert(m.connections.contains_key(k));
            if c != conn {
                assert(m.connections[k] != m.nodes[c].1);
            }
        }
    }
}

/// A fresh tracker is well formed.
pub proof fn lemma_empty_wf()
    ensures
        InnovationModel::empty().wf(),
{
}

impl InnovationModel {
    /// The same state with the node counter set to `c`.
    pub open spec fn with_node_id_counter(self, c: u32) -> InnovationModel {
        InnovationModel {
            current_innovation: self.current_innovation,
            connections: self.connections,
            nodes: self.nodes,
            node_id_counter: c,
        }
    }
}

/// Registering the pairs one after the other: the final state and the answers in order.
pub open spec fn connection_steps(m: InnovationModel, pairs: Seq<(u32, u32)>) -> (
    InnovationModel,
    Seq<u32>,
)
    decreases pairs.len(),
{
    if pairs.len() == 0 {
        (m, Seq::empty())
    } else {
        let (m1, rs) = connection_steps(m, pairs.drop_last());
        let (m2, r) = m1.connection_step(pairs.last().0, pairs.last().1);
        (m2, rs.push(r))
    }
}

/// Registering the pairs one after the other never overflows the innovation counter.
pub open spec fn can_register_all(m: InnovationModel, pairs: Seq<(u32, u32)>) -> bool
    decreases pairs.len(),
{
    pairs.len() == 0 || (can_register_all(m, pairs.drop_last()) && connection_steps(
        m,
        pairs.drop_last(),
    ).0.can_register_connection(pairs.last().0, pairs.last().1))
}

/// What registering a sequence of pairs leaves: one answer per pair, each pair mapped to
/// its answer, earlier registrations kept, nodes untouched.
pub proof fn lemma_connection_steps_record(m: InnovationModel, pairs: Seq<(u32, u32)>)
    ensures
        ({
            let (m1, rs) = connection_steps(m, pairs);
            &&& rs.len() == pairs.len()
            &&& m1.nodes == m.nodes
            &&& m1.node_id_counter == m.node_id_counter
            &&& m.connections.submap_of(m1.connections)
            &&& forall|t: int|
                0 <= t < pairs.len() ==> m1.connections.contains_key(#[trigger] pairs[t])
                    && m1.connections[pairs[t]] == rs[t]
        }),
    decreases pairs.len(),
{
    if pairs.len() > 0 {
        let rest = pairs.drop_last();
        lemma_connection_steps_record(m, rest);
        let (ma, ra) = connection_steps(m, rest);
        let (m1, rs) = connection_steps(m, pairs);
        assert forall|t: int| 0 <= t < pairs.len() implies m1.connections.contains_key(
            #[trigger] pairs[t],
        ) && m1.connections[pairs[t]] == rs[t] by {
            if t < pairs.len() - 1 {
                assert(rest[t] == pairs[t]);
            }
        }
    }
}

/// Registering pairs that are all known changes nothing and answers their numbers.
pub proof fn lemma_connection_steps_known(m: InnovationModel, pairs: Seq<(u32, u32)>)
    requires
        forall|t: int| 0 <= t < pairs.len() ==> m.connections.contains_key(#[trigger] pairs[t]),
    ensures
        connection_steps(m, pairs) == (m, Seq::new(pairs.len(), |t: int| m.connections[pairs[t]])),
        can_register_all(m, pairs),
    decreases pairs.len(),
{
    if pairs.len() > 0 {
        let rest = pairs.drop_last();
        assert forall|t: int| 0 <= t < rest.len() implies m.connections.contains_key(
            #[trigger] rest[t],
        ) by {
            assert(rest[t] == pairs[t]);
        }
        lemma_connection_steps_known(m, rest);
        assert(m.connections.contains_key(pairs[pairs.len() - 1]));
        let (m1, rs) = connection_steps(m, pairs);
        assert(rs =~= Seq::new(pairs.len(), |t: int| m.connections[pairs[t]]));
    }
}

/// Registering the same pairs a second time changes nothing and gives the same answers:
/// the same structural changes always get the same innovation numbers.
pub proof fn lemma_connection_steps_idempotent(m: InnovationModel, pairs: Seq<(u32, u32)>)
    ensures
        ({
            let (m1, rs) = connection_steps(m, pairs);
            &&& connection_steps(m1, pairs) == (m1, rs)
            &&& can_register_all(m1, pairs)
        }),
{
    lemma_connection_steps_record(m, pairs);
    let (m1, rs) = connection_steps(m, pairs);
    lemma_connection_steps_known(m1, pairs);
    assert(rs =~= Seq::new(pairs.len(), |t: int| m1.connections[pairs[t]]));
}

/// A prefix of pairs that can all be registered can be registered.
pub proof fn lemma_can_register_prefix(m: InnovationModel, pairs: Seq<(u32, u32)>, k: int)
    requires
        can_register_all(m, pairs),
        0 <= k <= pairs.len(),
    ensures
        can_register_all(m, pairs.take(k)),
    decreases pairs.len(),
{
    if k < pairs.len() {
        lemma_can_register_prefix(m, pairs.drop_last(), k);
        assert(pairs.drop_last().take(k) == pairs.take(k));
    } else {
        assert(pairs.take(k) == pairs);
    }
}

/// Hands out innovation numbers for new connections and node ids for split connections,
/// so that the same structural change gets the same numbers in every genome.
#[derive(Clone, Debug, PartialEq)]
pub struct InnovationTracker {
    pub current_innovation: u32,
    /// Keyed by [`connection_key`] of `(in node, out node)`.
    pub connection_innovations: HashMap<u64, u32>,
    pub node_innovations: HashMap<u32, (u32, u32, u32)>,
    pub node_id_counter: u32,
}

impl View for InnovationTracker {
    type V = InnovationModel;

    open spec fn view(&self) -> InnovationModel {
        InnovationModel {
            current_innovation: self.current_innovation,
            connections: Map::new(
                |k: (u32, u32)| self.connection_innovations@.contains_key(connection_key(k.0, k.1)),
                |k: (u32, u32)| self.connection_innovations@[connection_key(k.0, k.1)],
            ),
            nodes: self.node_innovations@,
            node_id_counter: self.node_id_counter,
        }
    }
}

/// The key of `(in_node, out_node)`, computed.
fn pack_connection_key(in_node: u32, out_node: u32) -> (r: u64)
    ensures
        r == connection_key(in_node, out_node),
{
    assert(in_node as int * 0x1_0000_0000 + out_node as int <= 0xffff_ffff_ffff_ffff)
        by (nonlinear_arith)
        requires
            in_node <= 0xffff_ffff,
            out_node <= 0xffff_ffff,
    ;
    (in_node as u64) * 0x1_0000_0000u64 + (out_node as u64)
}

impl Default for InnovationTracker {
    fn default() -> (r: Self)
        ensures
            r@ == InnovationModel::empty(),
    {
        InnovationTracker::new()
    }
}

impl InnovationTracker {
    pub fn new() -> (r: Self)
        ensures
            r@ == InnovationModel::empty(),
    {
        let r = InnovationTracker {
            current_innovation: 0,
            connection_innovations: HashMap::new(),
            node_innovations: HashMap::new(),
            node_id_counter: 0,
        };
        assert(r@.connections =~= Map::empty());
        r
    }

    /// The innovation number of the connection `in_node_id -> out_node_id`, registering
    /// it under the next number if it is new.
    pub fn get_connection_innovation(&mut self, in_node_id: u32, out_node_id: u32) -> (r: u32)
        requires
            old(self)@.can_register_connection(in_node_id, out_node_id),
        ensures
            (final(self)@, r) == old(self)@.connection_step(in_node_id, out_node_id),
    {
        let key = pack_connection_key(in_node_id, out_node_id);
        proof {
            assert(old(self)@.connections.contains_key((in_node_id, out_node_id))
                == self.connection_innovations@.contains_key(key));
        }
        match self.connection_innovations.get(&key) {
            Some(v) => *v,
            None => {
                let innov = self.current_innovation;
                self.current_innovation = innov + 1;
                self.connection_innovations.insert(key, innov);
                proof {
                    let old_conns = old(self)@.connections;
                    assert forall|k: (u32, u32)|
                        #![trigger self@.connections.contains_key(k)]
                        self@.connections.contains_key(k) == old_conns.insert(
                            (in_node_id, out_node_id),
                            innov,
                        ).contains_key(k) by {
                        if connection_key(k.0, k.1) == key {
                            lemma_connection_key_injective(k.0, k.1, in_node_id, out_node_id);
                        }
                    }
                    assert(self@.connections =~= old_conns.insert((in_node_id, out_node_id), innov));
                }
                innov
            },
        }
    }

    /// The `(node id, innovation in, innovation out)` of the node that splits the connection
    /// with innovation `connection_innovation`, registering a fresh triple if it is new.
    pub fn get_node_innovation(&mut self, connection_innovation: u32) -> (r: (u32, u32, u32))
        requires
            old(self)@.can_split_connection(connection_innovation),
        ensures
            (final(self)@, r) == old(self)@.node_step(connection_innovation),
    {
        match self.node_innovations.get(&connection_innovation) {
            Some(t) => *t,
            None => {
                let node_id = self.node_id_counter;
                self.node_id_counter = node_id + 1;
                let conn1 = self.current_innovation;
                let conn2 = conn1 + 1;
                self.current_innovation = conn2 + 1;
                let triple = (node_id, conn1, conn2);
                self.node_innovations.insert(connection_innovation, triple);
                assert(self@.connections =~= old(self)@.connections);
                triple
            },
        }
    }
}

} // verus!

use vstd::prelude::*;

use crate::neat::connection_gene::ConnectionGene;
use crate::neat::crossover::{
    find_last_gene, has_innovation, last_gene, lemma_last_gene, sorted_innovations,
    strictly_increasing,
};
use crate::neat::genome::Genome;

verus! {

/// The largest innovation number of `conns`, `0` when there is none.
pub open spec fn max_innovation(conns: Seq<ConnectionGene>) -> u32
    decreases conns.len(),
{
    if conns.len() == 0 {
        0
    } else {
        let m = max_innovation(conns.drop_last());
        if conns.last().innov > m {
            conns.last().innov
        } else {
            m
        }
    }
}

/// Innovations past this bound that only one genome has are excess; the others that
/// only one genome has are disjoint.
pub open spec fn excess_bound(c1: Seq<ConnectionGene>, c2: Seq<ConnectionGene>) -> u32 {
    if max_innovation(c1) < max_innovation(c2) {
        max_innovation(c1)
    } else {
        max_innovation(c2)
    }
}

/// The innovations that exactly one genome has, above the bound (`above`) or not.
pub open spec fn unmatched(c1: Seq<ConnectionGene>, c2: Seq<ConnectionGene>, above: bool) -> Set<u32> {
    Set::new(
        |x: u32|
            has_innovation(c1, x) != has_innovation(c2, x) && (x > excess_bound(c1, c2)) == above,
    )
}

/// The size by which gene counts are divided: the larger connection count, or `1` when
/// that is below 20.
pub open spec fn normalizer(c1: Seq<ConnectionGene>, c2: Seq<ConnectionGene>) -> nat {
    let n = if c1.len() < c2.len() {
        c2.len()
    } else {
        c1.len()
    };
    if n < 20 {
        1
    } else {
        n
    }
}

/// The weights of the two genomes' genes of innovation `x`.
pub open spec fn matching_weights(c1: Seq<ConnectionGene>, c2: Seq<ConnectionGene>, x: u32) -> (
    u32,
    u32,
) {
    (last_gene(c1, x)->0.weight_bits, last_gene(c2, x)->0.weight_bits)
}

/// Swapping the genomes changes neither the excess nor the disjoint innovations nor the
/// normalizer, and swaps the weights of each matching pair.
pub proof fn lemma_alignment_symmetric(c1: Seq<ConnectionGene>, c2: Seq<ConnectionGene>)
    ensures
        unmatched(c1, c2, true) == unmatched(c2, c1, true),
        unmatched(c1, c2, false) == unmatched(c2, c1, false),
        normalizer(c1, c2) == normalizer(c2, c1),
        forall|x: u32|
            #[trigger] matching_weights(c1, c2, x) == (
                matching_weights(c2, c1, x).1,
                matching_weights(c2, c1, x).0,
            ),
{
    assert(excess_bound(c1, c2) == excess_bound(c2, c1));
    assert(unmatched(c1, c2, true) =~= unmatched(c2, c1, true));
    assert(unmatched(c1, c2, false) =~= unmatched(c2, c1, false));
}

/// The normalizer counts every connection gene, enabled or not: it is the larger of the
/// two genomes' gene counts when that count reaches 20, and 1 for two small genomes.
pub proof fn lemma_normalizer_counts_every_gene(c1: Seq<ConnectionGene>, c2: Seq<ConnectionGene>)
    ensures
        normalizer(c1, c2) >= 1,
        c1.len() >= 20 || c2.len() >= 20 ==> normalizer(c1, c2) >= c1.len() && normalizer(c1, c2)
            >= c2.len() && (normalizer(c1, c2) == c1.len() || normalizer(c1, c2) == c2.len()),
        c1.len() < 20 && c2.len() < 20 ==> normalizer(c1, c2) == 1,
{
}

/// A genome has no excess and no disjoint innovations against itself, and each of its
/// matching pairs holds one weight twice.
pub proof fn lemma_alignment_with_itself(c: Seq<ConnectionGene>)
    ensures
        unmatched(c, c, true).len() == 0,
        unmatched(c, c, false).len() == 0,
        forall|x: u32| #[trigger] matching_weights(c, c, x).0 == matching_weights(c, c, x).1,
{
    assert(unmatched(c, c, true) =~= Set::empty());
    assert(unmatched(c, c, false) =~= Set::empty());
}

/// How two genomes' genes line up: the numbers of excess and disjoint innovations, the
/// weights of the genes both have (in increasing innovation order), and the size that
/// compatibility divides gene counts by.
pub struct GeneAlignment {
    pub excess: usize,
    pub disjoint: usize,
    pub matching_weight_bits: Vec<(u32, u32)>,
    pub normalizer: usize,
}

/// The largest innovation number of `conns`, `0` when there is none.
fn max_innovation_of(conns: &Vec<ConnectionGene>) -> (r: u32)
    ensures
        r == max_innovation(conns@),
{
    let mut m: u32 = 0;
    let mut i: usize = 0;
    while i < conns.len()
        invariant
            i <= conns.len(),
            m == max_innovation(conns@.take(i as int)),
        decreases conns.len() - i,
    {
        assert(conns@.take(i as int + 1).drop_last() == conns@.take(i as int));
        if conns[i].innov > m {
            m = conns[i].innov;
        }
        i = i + 1;
    }
    assert(conns@.take(conns.len() as int) == conns@);
    m
}

/// Counts the innovations of `xs` (strictly increasing, the innovations of `mine`) that
/// `other` lacks, above `bound` or not, adding them to the ghost set `acc`.
fn count_unmatched(
    xs: &Vec<u32>,
    mine: &Vec<ConnectionGene>,
    other: &Vec<ConnectionGene>,
    bound: u32,
    above: bool,
    start: usize,
    Ghost(acc): Ghost<Set<u32>>,
) -> (r: usize)
    requires
        strictly_increasing(xs@),
        forall|x: u32| xs@.contains(x) <==> has_innovation(mine@, x),
        acc.finite(),
        acc.len() == start,
        forall|x: u32| acc.contains(x) ==> !has_innovation(mine@, x),
        start + xs@.len() <= usize::MAX,
    ensures
        r == acc.union(
            Set::new(
                |x: u32|
                    has_innovation(mine@, x) && !has_innovation(other@, x) && (x > bound)
                        == above,
            ),
        ).len(),
        acc.union(
            Set::new(
                |x: u32|
                    has_innovation(mine@, x) && !has_innovation(other@, x) && (x > bound)
                        == above,
            ),
        ).finite(),
        r <= start + xs@.len(),
{
    let ghost target = Set::new(
        |x: u32| has_innovation(mine@, x) && !has_innovation(other@, x) && (x > bound) == above,
    );
    let ghost mut seen: Set<u32> = acc;
    let mut count: usize = start;
    let mut i: usize = 0;
    while i < xs.len()
        invariant
            i <= xs.len(),
            strictly_increasing(xs@),
            forall|x: u32| xs@.contains(x) <==> has_innovation(mine@, x),
            forall|x: u32| acc.contains(x) ==> !has_innovation(mine@, x),
            start + xs@.len() <= usize::MAX,
            seen.finite(),
            count == seen.len(),
            count <= start + i,
            seen == acc.union(
                Set::new(
                    |x: u32|
                        xs@.take(i as int).contains(x) && !has_innovation(other@, x) && (x
                            > bound) == above,
                ),
            ),
        decreases xs.len() - i,
    {
        let x = xs[i];
        proof {
            lemma_last_gene(other@, x);
            assert(xs@.contains(x));
        }
        let in_other = find_last_gene(other, x).is_some();
        let ghost prev = seen;
        if !in_other && (x > bound) == above {
            proof {
                assert(!seen.contains(x)) by {
                    if acc.contains(x) {
                    } else if seen.contains(x) {
                        let t = xs@.take(i as int);
                        let q = choose|q: int| 0 <= q < t.len() && t[q] == x;
                        assert(xs@[q] < xs@[i as int]);
                    }
                }
                seen = seen.insert(x);
            }
            count = count + 1;
        }
        proof {
            let s1 = acc.union(
                Set::new(
                    |y: u32|
                        xs@.take(i as int + 1).contains(y) && !has_innovation(other@, y) && (y
                            > bound) == above,
                ),
            );
            assert forall|y: u32| xs@.take(i as int + 1).contains(y) <==> (xs@.take(
                i as int,
            ).contains(y) || y == x) by {
                let t0 = xs@.take(i as int);
                let t1 = xs@.take(i as int + 1);
                if t1.contains(y) {
                    let q = choose|q: int| 0 <= q < t1.len() && t1[q] == y;
                    if q < i {
                        assert(t0[q] == y);
                    }
                }
                if t0.contains(y) {
                    let q = choose|q: int| 0 <= q < t0.len() && t0[q] == y;
                    assert(t1[q] == y);
                }
                if y == x {
                    assert(t1[i as int] == y);
                }
            }
            assert(seen =~= s1);
        }
        i = i + 1;
    }
    proof {
        assert(xs@.take(xs.len() as int) == xs@);
        assert(seen =~= acc.union(target));
    }
    count
}

/// How the genes of two genomes line up by innovation number.
pub fn gene_alignment(genome1: &Genome, genome2: &Genome) -> (a: GeneAlignment)
    requires
        genome1.connections@.len() + genome2.connections@.len() <= usize::MAX,
    ensures
        a.excess == unmatched(genome1.connections@, genome2.connections@, true).len(),
        a.disjoint == unmatched(genome1.connections@, genome2.connections@, false).len(),
        a.normalizer == normalizer(genome1.connections@, genome2.connections@),
        a.normalizer >= 1,
        genome1.connections@.len() >= 20 || genome2.connections@.len() >= 20 ==> a.normalizer
            >= genome1.connections@.len() && a.normalizer >= genome2.connections@.len() && (
        a.normalizer == genome1.connections@.len() || a.normalizer
            == genome2.connections@.len()),
        genome1.connections@.len() < 20 && genome2.connections@.len() < 20 ==> a.normalizer == 1,
        exists|xs: Seq<u32>|
            {
                &&& strictly_increasing(xs)
                &&& forall|x: u32|
                    #![trigger xs.contains(x)]
                    xs.contains(x) <==> has_innovation(genome1.connections@, x) && has_innovation(
                        genome2.connections@,
                        x,
                    )
                &&& a.matching_weight_bits@ == xs.map_values(
                    |x: u32| matching_weights(genome1.connections@, genome2.connections@, x),
                )
            },
{
    let c1 = &genome1.connections;
    let c2 = &genome2.connections;
    let xs1 = sorted_innovations(c1);
    let xs2 = sorted_innovations(c2);
    let m1 = max_innovation_of(c1);
    let m2 = max_innovation_of(c2);
    let bound = if m1 < m2 {
        m1
    } else {
        m2
    };
    proof {
        xs1@.unique_seq_to_set();
        xs2@.unique_seq_to_set();
        assert(xs1@.len() <= c1@.len()) by {
            assert forall|x: u32| xs1@.to_set().contains(x) implies c1@.map_values(
                |c: ConnectionGene| c.innov,
            ).to_set().contains(x) by {
                assert(xs1@.contains(x));
                let i = choose|i: int| 0 <= i < c1@.len() && (#[trigger] c1@[i]).innov == x;
                assert(c1@.map_values(|c: ConnectionGene| c.innov)[i] == x);
            }
            vstd::seq_lib::seq_to_set_is_finite(c1@.map_values(|c: ConnectionGene| c.innov));
            vstd::set_lib::lemma_len_subset(
                xs1@.to_set(),
                c1@.map_values(|c: ConnectionGene| c.innov).to_set(),
            );
            c1@.map_values(|c: ConnectionGene| c.innov).lemma_cardinality_of_set();
        }
        assert(xs2@.len() <= c2@.len()) by {
            assert forall|x: u32| xs2@.to_set().contains(x) implies c2@.map_values(
                |c: ConnectionGene| c.innov,
            ).to_set().contains(x) by {
                assert(xs2@.contains(x));
                let i = choose|i: int| 0 <= i < c2@.len() && (#[trigger] c2@[i]).innov == x;
                assert(c2@.map_values(|c: ConnectionGene| c.innov)[i] == x);
            }
            vstd::seq_lib::seq_to_set_is_finite(c2@.map_values(|c: ConnectionGene| c.innov));
            vstd::set_lib::lemma_len_subset(
                xs2@.to_set(),
                c2@.map_values(|c: ConnectionGene| c.innov).to_set(),
            );
            c2@.map_values(|c: ConnectionGene| c.innov).lemma_cardinality_of_set();
        }
    }
    let ghost above1 = Set::new(
        |x: u32| has_innovation(c1@, x) && !has_innovation(c2@, x) && (x > bound) == true,
    );
    let ghost below1 = Set::new(
        |x: u32| has_innovation(c1@, x) && !has_innovation(c2@, x) && (x > bound) == false,
    );
    let e1 = count_unmatched(&xs1, c1, c2, bound, true, 0, Ghost(Set::empty()));
    proof {
        assert(Set::<u32>::empty().union(above1) =~= above1);
    }
    let excess = count_unmatched(&xs2, c2, c1, bound, true, e1, Ghost(above1));
    let d1 = count_unmatched(&xs1, c1, c2, bound, false, 0, Ghost(Set::empty()));
    proof {
        assert(Set::<u32>::empty().union(below1) =~= below1);
    }
    let disjoint = count_unmatched(&xs2, c2, c1, bound, false, d1, Ghost(below1));
    proof {
        assert(unmatched(c1@, c2@, true) =~= above1.union(
            Set::new(
                |x: u32| has_innovation(c2@, x) && !has_innovation(c1@, x) && (x > bound) == true,
            ),
        ));
        assert(unmatched(c1@, c2@, false) =~= below1.union(
            Set::new(
                |x: u32| has_innovation(c2@, x) && !has_innovation(c1@, x) && (x > bound) == false,
            ),
        ));
    }
    let mut matching: Vec<(u32, u32)> = Vec::new();
    let ghost mut xs: Seq<u32> = Seq::empty();
    let mut i: usize = 0;
    while i < xs1.len()
        invariant
            i <= xs1.len(),
            strictly_increasing(xs1@),
            forall|x: u32| xs1@.contains(x) <==> has_innovation(c1@, x),
            strictly_increasing(xs),
            forall|k: int| 0 <= k < xs.len() ==> xs1@.take(i as int).contains(#[trigger] xs[k]),
            forall|x: u32|
                #![trigger xs.contains(x)]
                xs.contains(x) <==> xs1@.take(i as int).contains(x) && has_innovation(c2@, x),
            matching@ == xs.map_values(|x: u32| matching_weights(c1@, c2@, x)),
        decreases xs1.len() - i,
    {
        let x = xs1[i];
        proof {
            lemma_last_gene(c1@, x);
            lemma_last_gene(c2@, x);
            assert(xs1@.contains(x));
        }
        let ghost prev = xs;
        match find_last_gene(c2, x) {
            Some(g2) => {
                let g1 = find_last_gene(c1, x).unwrap();
                matching.push((g1.weight_bits, g2.weight_bits));
                proof {
                    xs = xs.push(x);
                    assert(has_innovation(c2@, x));
                    assert forall|a: int, b: int| 0 <= a < b < xs.len() implies xs[a] < xs[b] by {
                        if b == xs.len() - 1 {
                            assert(xs1@.take(i as int).contains(xs[a]));
                            let q = choose|q: int|
                                0 <= q < i && xs1@.take(i as int)[q] == xs[a];
                            assert(xs1@[q] < xs1@[i as int]);
                        }
                    }
                    assert(matching@ =~= xs.map_values(|y: u32| matching_weights(c1@, c2@, y)));
                }
            },
            None => {
                assert(!has_innovation(c2@, x));
            },
        }
        proof {
            assert((xs == prev && !has_innovation(c2@, x)) || (xs == prev.push(x)
                && has_innovation(c2@, x)));
            let t0 = xs1@.take(i as int);
            let t1 = xs1@.take(i as int + 1);
            assert forall|y: u32| t1.contains(y) <==> (t0.contains(y) || y == x) by {
                if t1.contains(y) {
                    let q = choose|q: int| 0 <= q < t1.len() && t1[q] == y;
                    if q < i {
                        assert(t0[q] == y);
                    }
                }
                if t0.contains(y) {
                    let q = choose|q: int| 0 <= q < t0.len() && t0[q] == y;
                    assert(t1[q] == y);
                }
                if y == x {
                    assert(t1[i as int] == y);
                }
            }
            assert forall|k: int| 0 <= k < xs.len() implies t1.contains(#[trigger] xs[k]) by {
                if k < prev.len() {
                    assert(prev[k] == xs[k]);
                    assert(t0.contains(prev[k]));
                }
            }
            assert forall|y: u32| #![trigger xs.contains(y)] xs.contains(y) <==> t1.contains(y)
                && has_innovation(c2@, y) by {
                if xs.contains(y) {
                    let k = choose|k: int| 0 <= k < xs.len() && xs[k] == y;
                    assert(t1.contains(xs[k]));
                    if k < prev.len() {
                        assert(prev[k] == y);
                        assert(prev.contains(y));
                    }
                }
                if t0.contains(y) && has_innovation(c2@, y) {
                    assert(prev.contains(y));
                    let k = choose|k: int| 0 <= k < prev.len() && prev[k] == y;
                    assert(xs[k] == y);
                }
                if y == x && has_innovation(c2@, y) {
                    assert(xs[xs.len() - 1] == y);
                }
            }
        }
        i = i + 1;
    }
    proof {
        assert(xs1@.take(xs1.len() as int) == xs1@);
    }
    let n = if c1.len() < c2.len() {
        c2.len()
    } else {
        c1.len()
    };
    let normalizer = if n < 20 {
        1
    } else {
        n
    };
    proof {
        lemma_normalizer_counts_every_gene(c1@, c2@);
    }
    GeneAlignment { excess, disjoint, matching_weight_bits: matching, normalizer }
}

} // verus!

use crate::ID;
use rand::rngs::StdRng;
use rand::{Rng, SeedableRng};
use vstd::prelude::*;

verus! {

#[verifier::external_type_specification]
#[verifier::external_body]
pub struct ExStdRng(StdRng);

/// Relies on rand's `SeedableRng::seed_from_u64` for `StdRng`: a generator
/// whose whole output is fixed by the seed.
#[verifier::external_body]
pub(crate) fn seeded_rng(seed: u64) -> (r: StdRng) {
    StdRng::seed_from_u64(seed)
}

/// Relies on rand's `Rng::gen_range` on the half-open range `0..len`, which
/// returns a value of that range and panics only when it is empty.
#[verifier::external_body]
fn random_index(rng: &mut StdRng, len: usize) -> (r: usize)
    requires
        len > 0,
    ensures
        r < len,
{
    rng.gen_range(0..len)
}

/// A payment channel, seen from one of its ends.
#[derive(Debug, Clone, PartialEq, Eq)]
pub struct Edge {
    pub channel_id: String,
    pub source: ID,
    pub destination: ID,
    pub balance: usize,
}

/// The network topology a simulation runs on. The engine reads it only to
/// draw sender/receiver pairs and hands it to the pathfinding service.
#[derive(Debug, Clone)]
pub struct Graph {
    pub nodes: Vec<ID>,
    pub edges: Vec<Edge>,
}

impl Graph {
    pub fn new(nodes: Vec<ID>, edges: Vec<Edge>) -> (r: Graph)
        ensures
            r.nodes == nodes,
            r.edges == edges,
    {
        Graph { nodes, edges }
    }

    pub open spec fn has_node(&self, id: Seq<char>) -> bool {
        exists|j: int| 0 <= j < self.nodes@.len() && (#[trigger] self.nodes@[j])@ == id
    }

    /// Number of nodes.
    pub fn node_count(&self) -> (r: usize)
        ensures
            r == self.nodes@.len(),
    {
        self.nodes.len()
    }

    /// A sender and a receiver, each drawn uniformly from the nodes.
    pub fn get_random_pair_of_nodes(&self, rng: &mut StdRng) -> (r: (ID, ID))
        requires
            self.nodes@.len() > 0,
        ensures
            self.has_node(r.0@),
            self.has_node(r.1@),
    {
        let i = random_index(rng, self.nodes.len());
        let j = random_index(rng, self.nodes.len());
        let src = self.nodes[i].clone();
        let dest = self.nodes[j].clone();
        assert(self.nodes@[i as int]@ == src@);
        assert(self.nodes@[j as int]@ == dest@);
        (src, dest)
    }

    /// `n` sender/receiver pairs, drawn one after the other from `rng`.
    pub fn get_random_pairs_of_nodes(&self, n: usize, rng: &mut StdRng) -> (r: Vec<(ID, ID)>)
        requires
            n == 0 || self.nodes@.len() > 0,
        ensures
            r@.len() == n,
            forall|k: int|
                0 <= k < n ==> self.has_node((#[trigger] r@[k]).0@) && self.has_node(r@[k].1@),
    {
        let mut pairs: Vec<(ID, ID)> = Vec::new();
        let mut k: usize = 0;
        while k < n
            invariant
                k <= n,
                n == 0 || self.nodes@.len() > 0,
                pairs@.len() == k,
                forall|m: int|
                    0 <= m < k ==> self.has_node((#[trigger] pairs@[m]).0@) && self.has_node(
                        pairs@[m].1@,
                    ),
            decreases n - k,
        {
            let pair = self.get_random_pair_of_nodes(rng);
            pairs.push(pair);
            k = k + 1;
        }
        pairs
    }
}

} // verus!

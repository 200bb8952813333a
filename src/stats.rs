use crate::payment::Payment;
use vstd::prelude::*;

verus! {

/// How the adversarial nodes of an analysis were picked.
#[derive(Debug, Clone, Copy, PartialEq, Eq, Structural)]
pub enum AdversarySelection {
    Random,
    HighDegree,
    HighBetweenness,
}

/// The findings of the statistics layer for one way of picking adversaries.
#[derive(Debug, Clone)]
pub struct Adversaries {
    pub selection_strategy: AdversarySelection,
    pub statistics: Vec<Statistics>,
}

#[derive(Debug, Clone)]
pub struct Statistics {
    /// how many adversaries
    pub number: usize,
    /// Number of times an adversary was included a payment path
    pub hits: usize,
    /// Number of times an adversary was included a successful payment path
    pub hits_successful: usize,
    /// one for each adversary in a payment path
    pub anonymity_sets: Vec<AnonymitySet>,
    /// Contains the updated sim results when some nodes are removed
    pub targeted_attack: TargetedAttack,
}

/// All the distances in the simulated payments' paths
#[derive(Debug, Clone, PartialEq, Eq)]
pub struct PathDistances(pub Vec<usize>);

#[derive(Debug, Clone, PartialEq, Eq, Structural)]
pub struct AnonymitySet {
    /// Possible senders
    pub sender: usize,
    /// Possible recipients
    pub recipient: usize,
    /// True if the recipient is included in the recipient anonymity set
    pub correct_recipient: bool,
    pub correct_source: bool,
}

#[derive(Debug, Clone, PartialEq, Eq)]
pub struct TargetedAttack {
    pub total_num: usize,
    pub num_successful: usize,
    pub num_failed: usize,
    pub successful_payments: Vec<Payment>,
    pub failed_payments: Vec<Payment>,
    pub path_distances: PathDistances,
}

} // verus!

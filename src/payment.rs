use crate::{PaymentId, ID, MIN_SHARD_AMT};
use vstd::prelude::*;

verus! {

/// One entry of a route: the node, an amount, its time lock and the channel
/// leaving it. The sender's entry carries the amount sent, the receiver's the
/// amount received, and every entry in between the fee that node charges.
pub type Hop = (ID, usize, usize, String);

/// A route from `src` to `dest` as an ordered sequence of hops.
#[derive(Debug, Clone, PartialEq, Eq)]
pub struct Path {
    pub src: ID,
    pub dest: ID,
    pub hops: Vec<Hop>,
}

/// A route offered by the pathfinding service for a given amount, with the
/// aggregate time it takes.
#[derive(Debug, Clone, PartialEq, Eq)]
pub struct CandidatePath {
    pub path: Path,
    pub amount: usize,
    pub time: usize,
}

/// Sum of the amounts of `hops[lo..hi]`.
pub open spec fn fee_sum(hops: Seq<Hop>, lo: int, hi: int) -> int
    decreases hi - lo,
{
    if hi <= lo {
        0
    } else {
        fee_sum(hops, lo, hi - 1) + hops[hi - 1].1
    }
}

/// The fees of a route: what the nodes strictly between sender and receiver charge.
pub open spec fn path_fees_spec(hops: Seq<Hop>) -> int {
    fee_sum(hops, 1, hops.len() - 1)
}

proof fn lemma_fee_sum_monotonic(hops: Seq<Hop>, lo: int, a: int, b: int)
    requires
        lo <= a <= b,
    ensures
        fee_sum(hops, lo, a) <= fee_sum(hops, lo, b),
    decreases b - a,
{
    if a < b {
        lemma_fee_sum_monotonic(hops, lo, a, b - 1);
    }
}

impl CandidatePath {
    /// The fees charged along this route.
    pub fn path_fees(&self) -> (r: usize)
        requires
            path_fees_spec(self.path.hops@) <= usize::MAX,
        ensures
            r == path_fees_spec(self.path.hops@),
    {
        let n = self.path.hops.len();
        let mut acc: usize = 0;
        let mut i: usize = 1;
        while i + 1 < n
            invariant
                n == self.path.hops@.len(),
                1 <= i,
                n >= 2 ==> i <= n - 1,
                n < 2 ==> i == 1,
                acc == fee_sum(self.path.hops@, 1, i as int),
                path_fees_spec(self.path.hops@) <= usize::MAX,
            decreases n - i,
        {
            proof {
                lemma_fee_sum_monotonic(self.path.hops@, 1, i as int + 1, n as int - 1);
            }
            acc = acc + self.path.hops[i].1;
            i = i + 1;
        }
        acc
    }

    /// The fees charged along this route, or `None` when they do not fit in a `usize`.
    pub fn checked_path_fees(&self) -> (r: Option<usize>)
        ensures
            r matches Some(f) ==> f == path_fees_spec(self.path.hops@),
            r.is_none() ==> path_fees_spec(self.path.hops@) > usize::MAX,
    {
        let n = self.path.hops.len();
        let mut acc: usize = 0;
        let mut i: usize = 1;
        while i + 1 < n
            invariant
                n == self.path.hops@.len(),
                1 <= i,
                n >= 2 ==> i <= n - 1,
                n < 2 ==> i == 1,
                acc == fee_sum(self.path.hops@, 1, i as int),
            decreases n - i,
        {
            match acc.checked_add(self.path.hops[i].1) {
                Some(next) => {
                    acc = next;
                },
                None => {
                    proof {
                        lemma_fee_sum_monotonic(self.path.hops@, 1, i as int + 1, n as int - 1);
                    }
                    return None;
                },
            }
            i = i + 1;
        }
        Some(acc)
    }

    /// Number of hops of this route.
    pub fn path_length(&self) -> (r: usize)
        ensures
            r == self.path.hops@.len(),
    {
        self.path.hops.len()
    }
}

/// A payment as the engine tracks it, from scheduling to resolution.
#[derive(Debug, Clone)]
pub struct Payment {
    pub payment_id: PaymentId,
    pub source: ID,
    pub dest: ID,
    pub amount_msat: usize,
    pub succeeded: bool,
    pub min_shard_amt: usize,
    /// Number of route attempts made, over all shards
    pub htlc_attempts: usize,
    /// Number of parts this payment has been split into
    pub num_parts: usize,
    pub used_paths: Vec<CandidatePath>,
    pub failed_amounts: Vec<usize>,
    pub successful_shards: Vec<usize>,
    pub failed_paths: Vec<CandidatePath>,
}

/// A payment that nothing has been attempted for yet.
pub open spec fn is_fresh_payment(p: Payment) -> bool {
    &&& !p.succeeded
    &&& p.htlc_attempts == 0
    &&& p.num_parts == 1
    &&& p.used_paths@.len() == 0
    &&& p.failed_paths@.len() == 0
    &&& p.failed_amounts@.len() == 0
    &&& p.successful_shards@.len() == 0
}

impl Payment {
    pub fn new(payment_id: PaymentId, source: ID, dest: ID, amount_msat: usize) -> (r: Payment)
        ensures
            r.payment_id == payment_id,
            r.source == source,
            r.dest == dest,
            r.amount_msat == amount_msat,
            r.min_shard_amt == MIN_SHARD_AMT,
            is_fresh_payment(r),
    {
        Payment {
            payment_id,
            source,
            dest,
            amount_msat,
            succeeded: false,
            min_shard_amt: MIN_SHARD_AMT,
            htlc_attempts: 0,
            num_parts: 1,
            used_paths: Vec::new(),
            failed_amounts: Vec::new(),
            successful_shards: Vec::new(),
            failed_paths: Vec::new(),
        }
    }
}

impl PartialEq for Payment {
    fn eq(&self, other: &Self) -> (r: bool) {
        self.payment_id == other.payment_id
    }
}

impl vstd::std_specs::cmp::PartialEqSpecImpl for Payment {
    open spec fn obeys_eq_spec() -> bool {
        true
    }

    open spec fn eq_spec(&self, other: &Payment) -> bool {
        self.payment_id == other.payment_id
    }
}

impl Eq for Payment {
}

/// Whether `amount` may be split into two shards: neither half may fall
/// under the minimum shard amount, nor be empty.
pub open spec fn can_split(amount: int, min_shard_amt: int) -> bool {
    amount / 2 >= min_shard_amt && amount / 2 >= 1
}

/// Splits `amount` evenly into two shards, the second taking the remainder,
/// or refuses when a shard would fall under `min_shard_amt`.
pub fn split_amount(amount: usize, min_shard_amt: usize) -> (r: Option<(usize, usize)>)
    ensures
        r.is_some() <==> can_split(amount as int, min_shard_amt as int),
        r matches Some((a, b)) ==> {
            &&& a + b == amount
            &&& a == amount / 2
            &&& a >= min_shard_amt
            &&& b >= min_shard_amt
            &&& a >= 1
        },
{
    let half = amount / 2;
    if half >= min_shard_amt && half >= 1 {
        Some((half, amount - half))
    } else {
        None
    }
}

/// A receiver's record of a payment it expects.
#[derive(Debug, Clone, PartialEq, Eq)]
pub struct Invoice {
    pub id: usize,
    pub amount: usize,
    pub source: ID,
    pub destination: ID,
}

impl Invoice {
    pub fn new(id: usize, amount: usize, source: &ID, destination: &ID) -> (r: Invoice)
        ensures
            r.id == id,
            r.amount == amount,
            r.source@ == source@,
            r.destination@ == destination@,
    {
        Invoice { id, amount, source: source.clone(), destination: destination.clone() }
    }
}

} // verus!

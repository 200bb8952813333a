use crate::event::{EventQueue, PaymentEvent, ScheduledEvent};
use crate::graph::{seeded_rng, Graph};
use crate::invoices::{
    added, invoice_gone, lemma_removed_gone, lists_exactly, removed, InvoiceRegistry,
};
use crate::payment::{can_split, is_fresh_payment, split_amount, CandidatePath, Invoice, Payment};
use crate::{
    PaymentId, PaymentParts, RoutingMetric, WeightPartsCombi, ID, MIN_SHARD_AMT,
    SIM_DELAY_IN_SECS,
};
use rand::rngs::StdRng;
use vstd::prelude::*;

verus! {

/// What the pathfinding service is asked for one attempt.
pub struct PathQuery {
    pub source: ID,
    pub dest: ID,
    pub amount: usize,
    pub routing_metric: RoutingMetric,
    pub payment_parts: PaymentParts,
}

/// How one attempt of a payment or shard ended.
#[derive(Debug, Clone, Copy, PartialEq, Eq, Structural)]
pub enum AttemptOutcome {
    /// The pathfinding service found no route.
    NoRoute,
    /// The best route carried the amount.
    Succeeded,
    /// The best route could not carry the amount.
    Failed,
}

/// What becomes of a payment or shard after an attempt.
#[derive(Debug, Clone, Copy, PartialEq, Eq, Structural)]
pub enum Transition {
    /// It has arrived.
    Resolved,
    /// It is retried as two shards of these amounts.
    Split(usize, usize),
    /// It has failed for good, and with it the payment.
    GiveUp,
}

/// The payment state machine: the step taken after an attempt on `amount`.
pub open spec fn transition_spec(
    outcome: AttemptOutcome,
    amount: usize,
    min_shard_amt: usize,
    parts: PaymentParts,
) -> Transition {
    match outcome {
        AttemptOutcome::Succeeded => Transition::Resolved,
        AttemptOutcome::NoRoute => Transition::GiveUp,
        AttemptOutcome::Failed => {
            if parts == PaymentParts::Split && can_split(amount as int, min_shard_amt as int) {
                Transition::Split((amount / 2) as usize, (amount - amount / 2) as usize)
            } else {
                Transition::GiveUp
            }
        },
    }
}

/// Decides the step after an attempt: success resolves; a missing route, or
/// a failure that may not be split (single-path mode, or a shard too small
/// to halve), gives up; any other failure splits the amount in two.
pub fn next_transition(
    outcome: AttemptOutcome,
    amount: usize,
    min_shard_amt: usize,
    parts: PaymentParts,
) -> (r: Transition)
    ensures
        r == transition_spec(outcome, amount, min_shard_amt, parts),
{
    match outcome {
        AttemptOutcome::Succeeded => Transition::Resolved,
        AttemptOutcome::NoRoute => Transition::GiveUp,
        AttemptOutcome::Failed => {
            match parts {
                PaymentParts::Single => Transition::GiveUp,
                PaymentParts::Split => {
                    match split_amount(amount, min_shard_amt) {
                        Some((a, b)) => Transition::Split(a, b),
                        None => Transition::GiveUp,
                    }
                },
            }
        },
    }
}

/// Sum of a sequence of amounts.
pub open spec fn amount_sum(s: Seq<usize>) -> int
    decreases s.len(),
{
    if s.len() == 0 {
        0
    } else {
        amount_sum(s.drop_last()) + s.last()
    }
}

/// An upper bound on the attempts still to be made for a shard of `x`:
/// a shard that is split is at least twice the minimum shard amount, which
/// is at least 2, so each split lowers the bound.
spec fn potential(x: usize) -> int {
    if x >= 2 {
        x - 1
    } else {
        1
    }
}

spec fn potential_sum(s: Seq<usize>) -> int
    decreases s.len(),
{
    if s.len() == 0 {
        0
    } else {
        potential_sum(s.drop_last()) + potential(s.last())
    }
}

proof fn lemma_potential_sum_nonneg(s: Seq<usize>)
    ensures
        potential_sum(s) >= 0,
    decreases s.len(),
{
    if s.len() > 0 {
        lemma_potential_sum_nonneg(s.drop_last());
    }
}

/// What holds of a payment once all its attempts are over.
pub open spec fn resolved_as(p: Payment, succeeded: bool, parts: PaymentParts) -> bool {
    &&& p.succeeded == succeeded
    &&& p.htlc_attempts == p.used_paths@.len() + p.failed_paths@.len()
    &&& p.used_paths@.len() == p.successful_shards@.len()
    &&& p.failed_paths@.len() == p.failed_amounts@.len()
    &&& p.num_parts >= 1
    &&& succeeded ==> amount_sum(p.successful_shards@) == p.amount_msat
    &&& parts == PaymentParts::Single ==> p.num_parts == 1 && p.htlc_attempts <= 1
}

/// The question put to the pathfinding service for `amount` of payment `p`.
pub open spec fn query_for(
    p: Payment,
    amount: usize,
    routing_metric: RoutingMetric,
    parts: PaymentParts,
) -> PathQuery {
    PathQuery { source: p.source, dest: p.dest, amount, routing_metric, payment_parts: parts }
}

/// `c` is the best-ranked route that `find_path` returned for `q` on `g`.
pub open spec fn offered_first<F: Fn(&Graph, &PathQuery) -> Option<Vec<CandidatePath>>>(
    find_path: F,
    g: Graph,
    q: PathQuery,
    c: CandidatePath,
) -> bool {
    exists|ps: Option<Vec<CandidatePath>>|
        #[trigger] find_path.ensures((&g, &q), ps) && (ps matches Some(v) && v@.len() > 0 && v@[0]
            == c)
}

/// `find_path` returned no route, or an empty list, for `q` on `g`.
pub open spec fn offered_none<F: Fn(&Graph, &PathQuery) -> Option<Vec<CandidatePath>>>(
    find_path: F,
    g: Graph,
    q: PathQuery,
) -> bool {
    exists|ps: Option<Vec<CandidatePath>>|
        #[trigger] find_path.ensures((&g, &q), ps) && (ps matches Some(v) ==> v@.len() == 0)
}

/// Each used (failed) route recorded on `p` is the best one `find_path`
/// offered for its shard's amount, and `attempt` accepted (refused) it for
/// that amount; every shard amount is the full amount or at least the
/// minimum shard amount.
pub open spec fn attempt_log_ok<
    F: Fn(&Graph, &PathQuery) -> Option<Vec<CandidatePath>>,
    A: Fn(&CandidatePath, usize) -> bool,
>(
    p: Payment,
    g: Graph,
    routing_metric: RoutingMetric,
    parts: PaymentParts,
    find_path: F,
    attempt: A,
) -> bool {
    &&& forall|k: int|
        0 <= k < p.used_paths@.len() ==> attempt.ensures(
            (&(#[trigger] p.used_paths@[k]), p.successful_shards@[k]),
            true,
        ) && offered_first(
            find_path,
            g,
            query_for(p, p.successful_shards@[k], routing_metric, parts),
            p.used_paths@[k],
        )
    &&& forall|k: int|
        0 <= k < p.failed_paths@.len() ==> attempt.ensures(
            (&(#[trigger] p.failed_paths@[k]), p.failed_amounts@[k]),
            false,
        ) && offered_first(
            find_path,
            g,
            query_for(p, p.failed_amounts@[k], routing_metric, parts),
            p.failed_paths@[k],
        )
    &&& forall|k: int|
        0 <= k < p.successful_shards@.len() ==> (#[trigger] p.successful_shards@[k])
            == p.amount_msat || p.successful_shards@[k] >= p.min_shard_amt
    &&& forall|k: int|
        0 <= k < p.failed_amounts@.len() ==> (#[trigger] p.failed_amounts@[k]) == p.amount_msat
            || p.failed_amounts@[k] >= p.min_shard_amt
}

/// How the attempts recorded on a resolved payment `p` came about: as
/// `attempt_log_ok` says; a payment that failed without any attempt found no
/// route for its full amount; in single-path mode a success used exactly one
/// route and a failure none.
pub open spec fn attempts_recorded<
    F: Fn(&Graph, &PathQuery) -> Option<Vec<CandidatePath>>,
    A: Fn(&CandidatePath, usize) -> bool,
>(
    p: Payment,
    g: Graph,
    routing_metric: RoutingMetric,
    parts: PaymentParts,
    find_path: F,
    attempt: A,
) -> bool {
    &&& attempt_log_ok(p, g, routing_metric, parts, find_path, attempt)
    &&& (p.htlc_attempts == 0 && !p.succeeded) ==> offered_none(
        find_path,
        g,
        query_for(p, p.amount_msat, routing_metric, parts),
    )
    &&& parts == PaymentParts::Single ==> (p.succeeded ==> p.used_paths@.len() == 1) && (
    !p.succeeded ==> p.used_paths@.len() == 0)
}

/// Attempts `payment` until it has arrived whole or in shards, or has failed
/// for good. Each attempt asks `find_path` afresh for the current amount and
/// tries its best-ranked route with `attempt`; what follows is
/// `transition_spec`. Shards wait in a worklist instead of recursing.
fn send_payment<F, A>(
    graph: &Graph,
    routing_metric: RoutingMetric,
    parts: PaymentParts,
    payment: &mut Payment,
    find_path: &F,
    attempt: &A,
) -> (ok: bool) where
    F: Fn(&Graph, &PathQuery) -> Option<Vec<CandidatePath>>,
    A: Fn(&CandidatePath, usize) -> bool,

    requires
        is_fresh_payment(*old(payment)),
        old(payment).min_shard_amt >= 2,
        forall|g: &Graph, q: &PathQuery| find_path.requires((g, q)),
        forall|c: &CandidatePath, x: usize| attempt.requires((c, x)),
    ensures
        final(payment).payment_id == old(payment).payment_id,
        final(payment).source == old(payment).source,
        final(payment).dest == old(payment).dest,
        final(payment).amount_msat == old(payment).amount_msat,
        final(payment).min_shard_amt == old(payment).min_shard_amt,
        resolved_as(*final(payment), ok, parts),
        attempts_recorded(*final(payment), *graph, routing_metric, parts, *find_path, *attempt),
{
    let amount = payment.amount_msat;
    let mut worklist: Vec<usize> = Vec::new();
    worklist.push(amount);
    let mut failed = false;
    proof {
        assert(worklist@.drop_last() =~= Seq::<usize>::empty());
        assert(potential_sum(worklist@) == potential_sum(Seq::<usize>::empty()) + potential(amount));
        assert(amount_sum(worklist@) == amount_sum(Seq::<usize>::empty()) + amount);
    }
    while !failed && worklist.len() > 0
        invariant
            payment.payment_id == old(payment).payment_id,
            payment.source == old(payment).source,
            payment.dest == old(payment).dest,
            payment.amount_msat == amount,
            payment.min_shard_amt == old(payment).min_shard_amt,
            payment.min_shard_amt >= 2,
            !payment.succeeded,
            payment.htlc_attempts == payment.used_paths@.len() + payment.failed_paths@.len(),
            payment.used_paths@.len() == payment.successful_shards@.len(),
            payment.failed_paths@.len() == payment.failed_amounts@.len(),
            1 <= payment.num_parts <= payment.htlc_attempts + 1,
            payment.htlc_attempts + potential_sum(worklist@) <= potential(amount),
            !failed ==> amount_sum(payment.successful_shards@) + amount_sum(worklist@) == amount,
            parts == PaymentParts::Single ==> payment.num_parts == 1 && payment.htlc_attempts
                + worklist@.len() <= 1,
            forall|g: &Graph, q: &PathQuery| find_path.requires((g, q)),
            forall|c: &CandidatePath, x: usize| attempt.requires((c, x)),
            forall|k: int|
                0 <= k < worklist@.len() ==> (#[trigger] worklist@[k]) == amount || worklist@[k]
                    >= payment.min_shard_amt,
            attempt_log_ok(*payment, *graph, routing_metric, parts, *find_path, *attempt),
            !failed && payment.htlc_attempts == 0 ==> worklist@ == seq![amount],
            failed && payment.htlc_attempts == 0 ==> offered_none(
                *find_path,
                *graph,
                query_for(*payment, amount, routing_metric, parts),
            ),
            parts == PaymentParts::Single ==> (!failed ==> payment.used_paths@.len()
                + worklist@.len() == 1) && (failed ==> payment.used_paths@.len() == 0),
        decreases potential_sum(worklist@),
    {
        let ghost before = worklist@;
        let x = match worklist.pop() {
            Some(x) => x,
            None => 0,
        };
        assert(before.drop_last() == worklist@);
        assert(potential_sum(before) == potential_sum(worklist@) + potential(x));
        assert(amount_sum(before) == amount_sum(worklist@) + x);
        proof {
            lemma_potential_sum_nonneg(worklist@);
        }
        let ghost s0 = payment.successful_shards@;
        let query = PathQuery {
            source: payment.source.clone(),
            dest: payment.dest.clone(),
            amount: x,
            routing_metric,
            payment_parts: parts,
        };
        assert(payment.htlc_attempts == 0 ==> x == amount);
        let offered = find_path(graph, &query);
        let ghost offered0 = offered;
        assert(query == query_for(*payment, x, routing_metric, parts));
        let outcome = match offered {
            None => AttemptOutcome::NoRoute,
            Some(paths) => {
                let mut paths = paths;
                if paths.len() == 0 {
                    AttemptOutcome::NoRoute
                } else {
                    let best = paths.remove(0);
                    payment.htlc_attempts = payment.htlc_attempts + 1;
                    if attempt(&best, x) {
                        payment.used_paths.push(best);
                        payment.successful_shards.push(x);
                        AttemptOutcome::Succeeded
                    } else {
                        payment.failed_paths.push(best);
                        payment.failed_amounts.push(x);
                        AttemptOutcome::Failed
                    }
                }
            },
        };
        proof {
            if outcome != AttemptOutcome::NoRoute {
                assert(offered_first(*find_path, *graph, query, offered0->Some_0@[0]));
            } else {
                assert(offered_none(*find_path, *graph, query));
            }
            if outcome == AttemptOutcome::Succeeded {
                assert(payment.successful_shards@.drop_last() == s0);
                assert(amount_sum(payment.successful_shards@) == amount_sum(s0) + x);
            } else {
                assert(payment.successful_shards@ == s0);
            }
        }
        match next_transition(outcome, x, payment.min_shard_amt, parts) {
            Transition::Resolved => {},
            Transition::Split(a, b) => {
                let ghost w0 = worklist@;
                worklist.push(a);
                assert(worklist@.drop_last() == w0);
                let ghost w1 = worklist@;
                assert(potential_sum(w1) == potential_sum(w0) + potential(a));
                assert(amount_sum(w1) == amount_sum(w0) + a);
                worklist.push(b);
                assert(worklist@.drop_last() == w1);
                assert(potential_sum(worklist@) == potential_sum(w0) + potential(a) + potential(b));
                assert(amount_sum(worklist@) == amount_sum(w0) + a + b);
                payment.num_parts = payment.num_parts + 1;
            },
            Transition::GiveUp => {
                failed = true;
            },
        }
    }
    payment.succeeded = !failed;
    !failed
}

/// The outcome of one run.
pub struct SimResult {
    pub run: u64,
    pub amount: usize,
    pub total_num: usize,
    pub num_succesful: usize,
    pub num_failed: usize,
    pub successful_payments: Vec<Payment>,
    pub failed_payments: Vec<Payment>,
}

/// The weight of a pending event towards the end of the run: a scheduled
/// payment still has its resolution event to come.
spec fn event_work(e: PaymentEvent) -> int {
    match e {
        PaymentEvent::Scheduled { .. } => 2,
        _ => 1,
    }
}

spec fn pending_work(s: Seq<ScheduledEvent>) -> int
    decreases s.len(),
{
    if s.len() == 0 {
        0
    } else {
        event_work(s[0].event) + pending_work(s.drop_first())
    }
}

proof fn lemma_pending_work_insert(s: Seq<ScheduledEvent>, i: int, x: ScheduledEvent)
    requires
        0 <= i <= s.len(),
    ensures
        pending_work(s.insert(i, x)) == pending_work(s) + event_work(x.event),
    decreases i,
{
    let t = s.insert(i, x);
    if i == 0 {
        assert(t.drop_first() =~= s);
    } else {
        assert(t[0] == s[0]);
        assert(t.drop_first() =~= s.drop_first().insert(i - 1, x));
        lemma_pending_work_insert(s.drop_first(), i - 1, x);
    }
}

proof fn lemma_pending_work_bound(s: Seq<ScheduledEvent>)
    ensures
        0 <= pending_work(s) <= 2 * s.len(),
    decreases s.len(),
{
    if s.len() > 0 {
        lemma_pending_work_bound(s.drop_first());
    }
}

/// Payment `lo + i` of a run goes from the source to the destination of
/// `pairs[i]`.
pub open spec fn of_pair(p: Payment, lo: int, pairs: Seq<(ID, ID)>) -> bool {
    &&& lo <= p.payment_id < lo + pairs.len()
    &&& p.source == pairs[p.payment_id - lo].0
    &&& p.dest == pairs[p.payment_id - lo].1
}

/// A resolved payment of a run whose payments are numbered from `lo`, one
/// for each of `pairs`.
pub open spec fn run_payment_ok(
    p: Payment,
    succeeded: bool,
    amount: usize,
    parts: PaymentParts,
    lo: int,
    pairs: Seq<(ID, ID)>,
) -> bool {
    &&& resolved_as(p, succeeded, parts)
    &&& p.amount_msat == amount
    &&& of_pair(p, lo, pairs)
}

/// A resolution event carries a payment whose attempts came about as
/// `attempts_recorded` says.
pub open spec fn resolution_recorded<
    F: Fn(&Graph, &PathQuery) -> Option<Vec<CandidatePath>>,
    A: Fn(&CandidatePath, usize) -> bool,
>(
    e: PaymentEvent,
    g: Graph,
    routing_metric: RoutingMetric,
    parts: PaymentParts,
    find_path: F,
    attempt: A,
) -> bool {
    match e {
        PaymentEvent::Scheduled { .. } => true,
        PaymentEvent::UpdateFailed { payment } => attempts_recorded(
            payment,
            g,
            routing_metric,
            parts,
            find_path,
            attempt,
        ),
        PaymentEvent::UpdateSuccesful { payment } => attempts_recorded(
            payment,
            g,
            routing_metric,
            parts,
            find_path,
            attempt,
        ),
    }
}

/// The payment an event carries.
pub open spec fn payment_of(e: PaymentEvent) -> Payment {
    match e {
        PaymentEvent::Scheduled { payment } => payment,
        PaymentEvent::UpdateFailed { payment } => payment,
        PaymentEvent::UpdateSuccesful { payment } => payment,
    }
}

/// No two payments of `s` share an id.
pub open spec fn ids_distinct(s: Seq<Payment>) -> bool {
    forall|i: int, j: int|
        0 <= i < j < s.len() ==> (#[trigger] s[i]).payment_id != (#[trigger] s[j]).payment_id
}

/// No payment of `a` shares an id with a payment of `b`.
pub open spec fn ids_disjoint(a: Seq<Payment>, b: Seq<Payment>) -> bool {
    forall|i: int, j: int|
        0 <= i < a.len() && 0 <= j < b.len() ==> (#[trigger] a[i]).payment_id != (
        #[trigger] b[j]).payment_id
}

spec fn queue_ids_distinct(q: Seq<ScheduledEvent>) -> bool {
    forall|i: int, j: int|
        0 <= i < j < q.len() ==> payment_of((#[trigger] q[i]).event).payment_id != payment_of(
            (#[trigger] q[j]).event,
        ).payment_id
}

spec fn clear_of_queue(s: Seq<Payment>, q: Seq<ScheduledEvent>) -> bool {
    forall|i: int, j: int|
        0 <= i < s.len() && 0 <= j < q.len() ==> (#[trigger] s[i]).payment_id != payment_of(
            (#[trigger] q[j]).event,
        ).payment_id
}

spec fn pending_id(q: Seq<ScheduledEvent>, id: int) -> bool {
    exists|j: int| 0 <= j < q.len() && payment_of((#[trigger] q[j]).event).payment_id == id
}

/// Payment `lo + k` is still pending in `q`, or it has been resolved into
/// `succ` or `fail` and its invoice is gone from `m`.
spec fn settled(
    q: Seq<ScheduledEvent>,
    succ: Seq<Payment>,
    fail: Seq<Payment>,
    m: Map<Seq<char>, Map<usize, Invoice>>,
    lo: int,
    pairs: Seq<(ID, ID)>,
    k: int,
) -> bool {
    pending_id(q, lo + k) || ((listed_id(succ, lo + k) || listed_id(fail, lo + k)) && invoice_gone(
        m,
        (lo + k) as usize,
        pairs[k].1@,
    ))
}

/// Some payment of `s` has id `id`.
pub open spec fn listed_id(s: Seq<Payment>, id: int) -> bool {
    exists|i: int| 0 <= i < s.len() && (#[trigger] s[i]).payment_id == id
}

/// Each id in `lo..lo + n` belongs to a payment of `succ` or of `fail`.
pub open spec fn each_id_resolved(succ: Seq<Payment>, fail: Seq<Payment>, lo: int, n: int) -> bool {
    forall|id: int| #![trigger listed_id(succ, id)] lo <= id < lo + n ==> listed_id(succ, id) || listed_id(fail, id)
}

/// What holds of each pending event while a run drains its queue.
pub open spec fn pending_ok(
    e: PaymentEvent,
    amount: usize,
    parts: PaymentParts,
    lo: int,
    pairs: Seq<(ID, ID)>,
) -> bool {
    match e {
        PaymentEvent::Scheduled { payment } => {
            &&& is_fresh_payment(payment)
            &&& payment.min_shard_amt == MIN_SHARD_AMT
            &&& payment.amount_msat == amount
            &&& of_pair(payment, lo, pairs)
        },
        PaymentEvent::UpdateFailed { payment } => run_payment_ok(
            payment,
            false,
            amount,
            parts,
            lo,
            pairs,
        ),
        PaymentEvent::UpdateSuccesful { payment } => run_payment_ok(
            payment,
            true,
            amount,
            parts,
            lo,
            pairs,
        ),
    }
}

/// `e` is the scheduled first attempt of a payment `id` of `amount` from `src` to `dest`.
pub open spec fn schedules_payment(
    e: PaymentEvent,
    id: int,
    src: ID,
    dest: ID,
    amount: usize,
) -> bool {
    match e {
        PaymentEvent::Scheduled { payment } => {
            &&& payment.payment_id == id
            &&& payment.source == src
            &&& payment.dest == dest
            &&& payment.amount_msat == amount
            &&& payment.min_shard_amt == MIN_SHARD_AMT
            &&& is_fresh_payment(payment)
        },
        _ => false,
    }
}

/// The registry holds, under `dest`, the invoice `id` for `amount` from `src`.
pub open spec fn invoice_filed(
    m: Map<Seq<char>, Map<usize, Invoice>>,
    id: usize,
    amount: usize,
    src: ID,
    dest: ID,
) -> bool {
    &&& m.contains_key(dest@)
    &&& m[dest@].contains_key(id)
    &&& m[dest@][id].id == id
    &&& m[dest@][id].amount == amount
    &&& m[dest@][id].source@ == src@
    &&& m[dest@][id].destination@ == dest@
}

/// One simulation run: its configuration, its event queue, the outstanding
/// invoices and the counts of resolved payments.
pub struct Simulation {
    /// Topology the payments are routed over
    pub graph: Graph,
    /// Amount of each simulated payment
    pub amount: usize,
    /// Seed of the run
    pub run: u64,
    /// Fee minimisation or probability maximisation
    pub routing_metric: RoutingMetric,
    /// Single or multi-path
    pub payment_parts: PaymentParts,
    /// Events still to be simulated
    pub event_queue: EventQueue,
    /// Assigned to the next new payment
    pub current_payment_id: PaymentId,
    /// Invoices each node has issued
    pub outstanding_invoices: InvoiceRegistry,
    pub total_num_payments: usize,
    pub num_successful: usize,
    pub num_failed: usize,
    /// This run's own generator, seeded from `run`
    pub rng: StdRng,
}

impl Simulation {
    pub open spec fn wf(&self) -> bool {
        self.event_queue.wf() && self.outstanding_invoices.wf()
    }

    /// Nothing has been scheduled or resolved yet.
    pub open spec fn is_fresh(&self) -> bool {
        &&& self.wf()
        &&& self.event_queue@.len() == 0
        &&& self.event_queue.now_spec() == 0
        &&& self.total_num_payments == 0
        &&& self.num_successful == 0
        &&& self.num_failed == 0
    }

    pub fn new(
        run: u64,
        graph: Graph,
        amount: usize,
        routing_metric: RoutingMetric,
        payment_parts: PaymentParts,
    ) -> (r: Simulation)
        ensures
            r.is_fresh(),
            r.run == run,
            r.graph == graph,
            r.amount == amount,
            r.routing_metric == routing_metric,
            r.payment_parts == payment_parts,
            r.current_payment_id == 0,
            r.event_queue.issued() == 0,
            r.outstanding_invoices.invoices() == Map::<Seq<char>, Map<usize, Invoice>>::empty(),
    {
        let rng = seeded_rng(run);
        Simulation {
            graph,
            amount,
            run,
            routing_metric,
            payment_parts,
            event_queue: EventQueue::new(),
            current_payment_id: 0,
            outstanding_invoices: InvoiceRegistry::new(),
            total_num_payments: 0,
            num_successful: 0,
            num_failed: 0,
            rng,
        }
    }

    /// A simulation for one scenario of routing metric and payment parts.
    pub fn new_batch_simulator(
        run: u64,
        graph: Graph,
        amount: usize,
        weight_parts: WeightPartsCombi,
    ) -> (r: Simulation)
        ensures
            r.is_fresh(),
            r.run == run,
            r.graph == graph,
            r.amount == amount,
            r.current_payment_id == 0,
            r.event_queue.issued() == 0,
            r.routing_metric == (match weight_parts {
                WeightPartsCombi::MinFeeSingle | WeightPartsCombi::MinFeeMulti => RoutingMetric::MinFee,
                _ => RoutingMetric::MaxProb,
            }),
            r.payment_parts == (match weight_parts {
                WeightPartsCombi::MinFeeSingle | WeightPartsCombi::MaxProbSingle => PaymentParts::Single,
                _ => PaymentParts::Split,
            }),
            r.outstanding_invoices.invoices() == Map::<Seq<char>, Map<usize, Invoice>>::empty(),
    {
        let (routing_metric, payment_parts) = match weight_parts {
            WeightPartsCombi::MinFeeSingle => (RoutingMetric::MinFee, PaymentParts::Single),
            WeightPartsCombi::MinFeeMulti => (RoutingMetric::MinFee, PaymentParts::Split),
            WeightPartsCombi::MaxProbSingle => (RoutingMetric::MaxProb, PaymentParts::Single),
            WeightPartsCombi::MaxProbMulti => (RoutingMetric::MaxProb, PaymentParts::Split),
        };
        Self::new(run, graph, amount, routing_metric, payment_parts)
    }

    /// `n` sender/receiver pairs drawn from the graph with this run's generator.
    pub fn draw_n_pairs_for_simulation(&mut self, n: usize) -> (r: Vec<(ID, ID)>)
        requires
            n == 0 || old(self).graph.nodes@.len() > 0,
        ensures
            r@.len() == n,
            forall|k: int|
                0 <= k < n ==> old(self).graph.has_node((#[trigger] r@[k]).0@)
                    && old(self).graph.has_node(r@[k].1@),
            *final(self) == (Simulation { rng: final(self).rng, ..*old(self) }),
    {
        self.graph.get_random_pairs_of_nodes(n, &mut self.rng)
    }

    /// The id for the next payment.
    pub fn next_payment_id(&mut self) -> (r: usize)
        requires
            old(self).current_payment_id < usize::MAX,
        ensures
            r == old(self).current_payment_id,
            *final(self) == (Simulation {
                current_payment_id: (old(self).current_payment_id + 1) as usize,
                ..*old(self)
            }),
    {
        let current_id = self.current_payment_id;
        self.current_payment_id = self.current_payment_id + 1;
        current_id
    }

    /// Files `invoice` under its destination, replacing one with the same id there.
    pub fn add_invoice(&mut self, invoice: Invoice)
        requires
            old(self).wf(),
        ensures
            final(self).wf(),
            final(self).outstanding_invoices.invoices() == added(
                old(self).outstanding_invoices.invoices(),
                invoice,
            ),
            *final(self) == (Simulation {
                outstanding_invoices: final(self).outstanding_invoices,
                ..*old(self)
            }),
    {
        self.outstanding_invoices.add(invoice);
    }

    /// The invoices that `node` has issued and that are still outstanding.
    pub fn get_invoices_for_node(&self, node: &ID) -> (r: Option<&Vec<Invoice>>)
        requires
            self.wf(),
        ensures
            r.is_none() <==> !self.outstanding_invoices.invoices().contains_key(node@),
            r matches Some(v) ==> lists_exactly(v@, self.outstanding_invoices.invoices()[node@]),
    {
        self.outstanding_invoices.get(node)
    }

    /// Takes back `invoice`, and its destination's entry once that holds no other.
    pub fn remove_invoice(&mut self, invoice: &Invoice)
        requires
            old(self).wf(),
        ensures
            final(self).wf(),
            final(self).outstanding_invoices.invoices() == removed(
                old(self).outstanding_invoices.invoices(),
                *invoice,
            ),
            *final(self) == (Simulation {
                outstanding_invoices: final(self).outstanding_invoices,
                ..*old(self)
            }),
    {
        self.outstanding_invoices.remove(invoice);
    }

    /// Creates, for each pair in turn, the next payment of the configured
    /// amount and its invoice, and schedules the payment's first attempt;
    /// consecutive payments lie `SIM_DELAY_IN_SECS` apart, the first at time 0.
    pub fn schedule_payments(&mut self, payment_pairs: &Vec<(ID, ID)>)
        requires
            old(self).wf(),
            old(self).event_queue@.len() == 0,
            old(self).event_queue.now_spec() == 0,
            old(self).current_payment_id + payment_pairs@.len() <= usize::MAX,
            old(self).event_queue.issued() + payment_pairs@.len() <= u64::MAX,
            payment_pairs@.len() * SIM_DELAY_IN_SECS <= u64::MAX,
        ensures
            final(self).wf(),
            final(self).event_queue@.len() == payment_pairs@.len(),
            final(self).event_queue.now_spec() == 0,
            final(self).event_queue.issued() == old(self).event_queue.issued()
                + payment_pairs@.len(),
            final(self).current_payment_id == old(self).current_payment_id + payment_pairs@.len(),
            forall|k: int|
                0 <= k < payment_pairs@.len() ==> {
                    let e = #[trigger] final(self).event_queue@[k];
                    &&& e.time == k * SIM_DELAY_IN_SECS
                    &&& e.seq == old(self).event_queue.issued() + k
                    &&& schedules_payment(
                        e.event,
                        old(self).current_payment_id + k,
                        payment_pairs@[k].0,
                        payment_pairs@[k].1,
                        old(self).amount,
                    )
                },
            forall|k: int|
                0 <= k < payment_pairs@.len() ==> invoice_filed(
                    final(self).outstanding_invoices.invoices(),
                    (old(self).current_payment_id + k) as usize,
                    old(self).amount,
                    (#[trigger] payment_pairs@[k]).0,
                    payment_pairs@[k].1,
                ),
            *final(self) == (Simulation {
                event_queue: final(self).event_queue,
                outstanding_invoices: final(self).outstanding_invoices,
                current_payment_id: final(self).current_payment_id,
                ..*old(self)
            }),
    {
        let n = payment_pairs.len();
        let ghost start = *self;
        let ghost base = self.current_payment_id as int;
        let ghost seq0 = self.event_queue.issued() as int;
        let mut k: usize = 0;
        while k < n
            invariant
                n == payment_pairs@.len(),
                k <= n,
                self.wf(),
                self.event_queue@.len() == k,
                self.event_queue.now_spec() == 0,
                self.event_queue.issued() == seq0 + k,
                self.current_payment_id == base + k,
                base == start.current_payment_id,
                seq0 == start.event_queue.issued(),
                base + n <= usize::MAX,
                seq0 + n <= u64::MAX,
                n * SIM_DELAY_IN_SECS <= u64::MAX,
                *self == (Simulation {
                    event_queue: self.event_queue,
                    outstanding_invoices: self.outstanding_invoices,
                    current_payment_id: self.current_payment_id,
                    ..start
                }),
                forall|j: int|
                    0 <= j < k ==> {
                        let e = #[trigger] self.event_queue@[j];
                        &&& e.time == j * SIM_DELAY_IN_SECS
                        &&& e.seq == seq0 + j
                        &&& schedules_payment(
                            e.event,
                            base + j,
                            payment_pairs@[j].0,
                            payment_pairs@[j].1,
                            start.amount,
                        )
                    },
                forall|j: int|
                    0 <= j < k ==> invoice_filed(
                        self.outstanding_invoices.invoices(),
                        (base + j) as usize,
                        start.amount,
                        (#[trigger] payment_pairs@[j]).0,
                        payment_pairs@[j].1,
                    ),
            decreases n - k,
        {
            let src = &payment_pairs[k].0;
            let dest = &payment_pairs[k].1;
            let payment_id = self.next_payment_id();
            let invoice = Invoice::new(payment_id, self.amount, src, dest);
            let ghost m0 = self.outstanding_invoices.invoices();
            self.outstanding_invoices.add(invoice);
            proof {
                let m1 = self.outstanding_invoices.invoices();
                assert forall|j: int| 0 <= j <= k implies invoice_filed(
                    m1,
                    (base + j) as usize,
                    start.amount,
                    (#[trigger] payment_pairs@[j]).0,
                    payment_pairs@[j].1,
                ) by {
                    let d = invoice.destination@;
                    let dj = payment_pairs@[j].1@;
                    let idj = (base + j) as usize;
                    if j < k {
                        assert(invoice_filed(
                            m0,
                            idj,
                            start.amount,
                            payment_pairs@[j].0,
                            payment_pairs@[j].1,
                        ));
                        assert(idj != payment_id);
                        if dj == d {
                            assert(m1[d] == m0[d].insert(payment_id, invoice));
                            assert(m1[dj][idj] == m0[dj][idj]);
                        } else {
                            assert(m1[dj] == m0[dj]);
                        }
                    } else {
                        assert(dj == d);
                        assert(m1[d].contains_key(payment_id));
                        assert(m1[d][payment_id] == invoice);
                    }
                }
            }
            let payment = Payment::new(payment_id, src.clone(), dest.clone(), self.amount);
            let time: u64 = k as u64 * SIM_DELAY_IN_SECS;
            let ghost q0 = self.event_queue@;
            self.event_queue.schedule(time, PaymentEvent::Scheduled { payment });
            proof {
                let i = choose|i: int|
                    {
                        &&& 0 <= i <= q0.len()
                        &&& self.event_queue@ == #[trigger] q0.insert(
                            i,
                            (ScheduledEvent {
                                time,
                                seq: (seq0 + k) as u64,
                                event: PaymentEvent::Scheduled { payment },
                            }),
                        )
                        &&& forall|j: int| 0 <= j < i ==> (#[trigger] q0[j]).time <= time
                        &&& forall|j: int| i <= j < q0.len() ==> (#[trigger] q0[j]).time > time
                    };
                if i < q0.len() {
                    assert(q0[i].time > time);
                    assert(q0[i].time == i * SIM_DELAY_IN_SECS);
                    assert(false);
                }
                assert(i == k);
                assert forall|j: int| 0 <= j <= k implies {
                    let e = #[trigger] self.event_queue@[j];
                    &&& e.time == j * SIM_DELAY_IN_SECS
                    &&& e.seq == seq0 + j
                    &&& schedules_payment(
                        e.event,
                        base + j,
                        payment_pairs@[j].0,
                        payment_pairs@[j].1,
                        start.amount,
                    )
                } by {
                    if j < k {
                        assert(self.event_queue@[j] == q0[j]);
                    }
                }
            }
            k = k + 1;
        }
    }

    /// Runs one simulation over `payment_pairs`: schedules a payment for each
    /// pair, then dispatches events until none is left. A scheduled payment is
    /// attempted (whole, or in shards in split mode) through `find_path`, the
    /// pathfinding service, and `attempt`, which says whether a route carries
    /// an amount; its resolution is scheduled at the current time, and counted
    /// when dispatched.
    #[verifier::rlimit(100)]
    pub fn run<F, A>(&mut self, payment_pairs: Vec<(ID, ID)>, find_path: F, attempt: A) -> (r:
        SimResult) where
        F: Fn(&Graph, &PathQuery) -> Option<Vec<CandidatePath>>,
        A: Fn(&CandidatePath, usize) -> bool,

        requires
            old(self).is_fresh(),
            old(self).current_payment_id + payment_pairs@.len() <= usize::MAX,
            old(self).event_queue.issued() + 3 * payment_pairs@.len() <= u64::MAX,
            payment_pairs@.len() * SIM_DELAY_IN_SECS <= u64::MAX,
            forall|g: &Graph, q: &PathQuery| find_path.requires((g, q)),
            forall|c: &CandidatePath, x: usize| attempt.requires((c, x)),
        ensures
            r.run == old(self).run,
            r.amount == old(self).amount,
            r.total_num == payment_pairs@.len(),
            r.num_succesful + r.num_failed == r.total_num,
            r.successful_payments@.len() == r.num_succesful,
            r.failed_payments@.len() == r.num_failed,
            forall|i: int|
                0 <= i < r.successful_payments@.len() ==> run_payment_ok(
                    #[trigger] r.successful_payments@[i],
                    true,
                    old(self).amount,
                    old(self).payment_parts,
                    old(self).current_payment_id as int,
                    payment_pairs@,
                ) && attempts_recorded(
                    r.successful_payments@[i],
                    old(self).graph,
                    old(self).routing_metric,
                    old(self).payment_parts,
                    find_path,
                    attempt,
                ),
            forall|i: int|
                0 <= i < r.failed_payments@.len() ==> run_payment_ok(
                    #[trigger] r.failed_payments@[i],
                    false,
                    old(self).amount,
                    old(self).payment_parts,
                    old(self).current_payment_id as int,
                    payment_pairs@,
                ) && attempts_recorded(
                    r.failed_payments@[i],
                    old(self).graph,
                    old(self).routing_metric,
                    old(self).payment_parts,
                    find_path,
                    attempt,
                ),
            ids_distinct(r.successful_payments@),
            ids_distinct(r.failed_payments@),
            ids_disjoint(r.successful_payments@, r.failed_payments@),
            each_id_resolved(
                r.successful_payments@,
                r.failed_payments@,
                old(self).current_payment_id as int,
                payment_pairs@.len() as int,
            ),
            forall|k: int|
                0 <= k < payment_pairs@.len() ==> invoice_gone(
                    final(self).outstanding_invoices.invoices(),
                    (old(self).current_payment_id + k) as usize,
                    (#[trigger] payment_pairs@[k]).1@,
                ),
            payment_pairs@.len() > 0 ==> final(self).event_queue.now_spec() == (
            payment_pairs@.len() - 1) * SIM_DELAY_IN_SECS,
            final(self).wf(),
            final(self).event_queue@.len() == 0,
            final(self).total_num_payments == r.total_num,
            final(self).num_successful == r.num_succesful,
            final(self).num_failed == r.num_failed,
    {
        let ghost lo = self.current_payment_id as int;
        let ghost pairs = payment_pairs@;
        let ghost seq0 = self.event_queue.issued() as int;
        let ghost n = payment_pairs@.len() as int;
        self.schedule_payments(&payment_pairs);
        self.total_num_payments = self.event_queue.queue_length();
        let mut successful_payments: Vec<Payment> = Vec::new();
        let mut failed_payments: Vec<Payment> = Vec::new();
        proof {
            let q = self.event_queue@;
            assert forall|i: int, j: int| 0 <= i < j < q.len() implies payment_of(
                (#[trigger] q[i]).event,
            ).payment_id != payment_of((#[trigger] q[j]).event).payment_id by {
                assert(schedules_payment(
                    q[i].event,
                    lo + i,
                    payment_pairs@[i].0,
                    payment_pairs@[i].1,
                    self.amount,
                ));
                assert(schedules_payment(
                    q[j].event,
                    lo + j,
                    payment_pairs@[j].0,
                    payment_pairs@[j].1,
                    self.amount,
                ));
            }
            lemma_pending_work_bound(self.event_queue@);
            assert forall|k: int| 0 <= k < n implies #[trigger] settled(
                q,
                successful_payments@,
                failed_payments@,
                self.outstanding_invoices.invoices(),
                lo,
                pairs,
                k,
            ) by {
                assert(schedules_payment(
                    q[k].event,
                    lo + k,
                    payment_pairs@[k].0,
                    payment_pairs@[k].1,
                    self.amount,
                ));
                assert(payment_of(q[k].event).payment_id == lo + k);
                assert(pending_id(q, lo + k));
            }
            if n > 0 {
                assert(q[n - 1].time == (n - 1) * SIM_DELAY_IN_SECS);
                assert forall|j: int| 0 <= j < q.len() implies (#[trigger] q[j]).time <= (n - 1)
                    * SIM_DELAY_IN_SECS by {
                    assert(q[j].time == j * SIM_DELAY_IN_SECS);
                    assert(j * SIM_DELAY_IN_SECS <= (n - 1) * SIM_DELAY_IN_SECS) by (nonlinear_arith)
                        requires j <= n - 1;
                }
            }
            assert forall|j: int| 0 <= j < self.event_queue@.len() implies pending_ok(
                (#[trigger] self.event_queue@[j]).event,
                self.amount,
                self.payment_parts,
                lo,
                pairs,
            ) by {
                assert(schedules_payment(
                    self.event_queue@[j].event,
                    lo + j,
                    payment_pairs@[j].0,
                    payment_pairs@[j].1,
                    self.amount,
                ));
            }
        }
        while self.event_queue.queue_length() > 0
            invariant
                self.wf(),
                self.amount == old(self).amount,
                self.run == old(self).run,
                self.payment_parts == old(self).payment_parts,
                self.total_num_payments == n,
                self.num_successful + self.num_failed + self.event_queue@.len() == n,
                successful_payments@.len() == self.num_successful,
                failed_payments@.len() == self.num_failed,
                self.event_queue.issued() + pending_work(self.event_queue@) <= seq0 + 3 * n,
                seq0 + 3 * n <= u64::MAX,
                forall|j: int|
                    0 <= j < self.event_queue@.len() ==> pending_ok(
                        (#[trigger] self.event_queue@[j]).event,
                        self.amount,
                        self.payment_parts,
                        lo,
                        pairs,
                    ),
                forall|i: int|
                    0 <= i < successful_payments@.len() ==> run_payment_ok(
                        #[trigger] successful_payments@[i],
                        true,
                        self.amount,
                        self.payment_parts,
                        lo,
                        pairs,
                    ),
                forall|i: int|
                    0 <= i < failed_payments@.len() ==> run_payment_ok(
                        #[trigger] failed_payments@[i],
                        false,
                        self.amount,
                        self.payment_parts,
                        lo,
                        pairs,
                    ),
                self.graph == old(self).graph,
                self.routing_metric == old(self).routing_metric,
                forall|j: int|
                    0 <= j < self.event_queue@.len() ==> resolution_recorded(
                        (#[trigger] self.event_queue@[j]).event,
                        self.graph,
                        self.routing_metric,
                        self.payment_parts,
                        find_path,
                        attempt,
                    ),
                forall|i: int|
                    0 <= i < successful_payments@.len() ==> attempts_recorded(
                        #[trigger] successful_payments@[i],
                        self.graph,
                        self.routing_metric,
                        self.payment_parts,
                        find_path,
                        attempt,
                    ),
                forall|i: int|
                    0 <= i < failed_payments@.len() ==> attempts_recorded(
                        #[trigger] failed_payments@[i],
                        self.graph,
                        self.routing_metric,
                        self.payment_parts,
                        find_path,
                        attempt,
                    ),
                lo + n <= usize::MAX,
                lo == old(self).current_payment_id,
                pairs == payment_pairs@,
                n == pairs.len(),
                forall|k: int|
                    0 <= k < n ==> #[trigger] settled(
                        self.event_queue@,
                        successful_payments@,
                        failed_payments@,
                        self.outstanding_invoices.invoices(),
                        lo,
                        pairs,
                        k,
                    ),
                n == 0 ==> self.event_queue.now_spec() == 0,
                n > 0 ==> {
                    &&& self.event_queue.now_spec() <= (n - 1) * SIM_DELAY_IN_SECS
                    &&& forall|j: int|
                        0 <= j < self.event_queue@.len() ==> (#[trigger] self.event_queue@[j]).time
                            <= (n - 1) * SIM_DELAY_IN_SECS
                    &&& (self.event_queue.now_spec() == (n - 1) * SIM_DELAY_IN_SECS || exists|j: int|
                        0 <= j < self.event_queue@.len() && (#[trigger] self.event_queue@[j]).time
                            == (n - 1) * SIM_DELAY_IN_SECS)
                },
                queue_ids_distinct(self.event_queue@),
                ids_distinct(successful_payments@),
                ids_distinct(failed_payments@),
                ids_disjoint(successful_payments@, failed_payments@),
                clear_of_queue(successful_payments@, self.event_queue@),
                clear_of_queue(failed_payments@, self.event_queue@),
                forall|g: &Graph, q: &PathQuery| find_path.requires((g, q)),
                forall|c: &CandidatePath, x: usize| attempt.requires((c, x)),
            decreases pending_work(self.event_queue@),
        {
            let ghost q0 = self.event_queue@;
            proof {
                assert(pending_ok(q0[0].event, self.amount, self.payment_parts, lo, pairs));
                lemma_pending_work_bound(q0.drop_first());
            }
            let event = self.event_queue.next();
            let ghost q1 = self.event_queue@;
            assert forall|j: int| 0 <= j < q1.len() implies pending_ok(
                (#[trigger] q1[j]).event,
                self.amount,
                self.payment_parts,
                lo,
                pairs,
            ) by {
                assert(q1[j] == q0[j + 1]);
            }
            let ghost head = payment_of(q0[0].event).payment_id;
            let ghost succ0 = successful_payments@;
            let ghost fail0 = failed_payments@;
            let ghost m0 = self.outstanding_invoices.invoices();
            let ghost kh = head - lo;
            proof {
                assert(of_pair(payment_of(q0[0].event), lo, pairs));
                assert forall|k: int| 0 <= k < n && lo + k != head implies #[trigger] settled(
                    q1,
                    succ0,
                    fail0,
                    m0,
                    lo,
                    pairs,
                    k,
                ) by {
                    assert(settled(q0, succ0, fail0, m0, lo, pairs, k));
                    if pending_id(q0, lo + k) {
                        let j = choose|j: int|
                            0 <= j < q0.len() && payment_of((#[trigger] q0[j]).event).payment_id == lo
                                + k;
                        assert(j != 0);
                        assert(q1[j - 1] == q0[j]);
                        assert(payment_of(q1[j - 1].event).payment_id == lo + k);
                    }
                }
                if n > 0 {
                    let t = (n - 1) * SIM_DELAY_IN_SECS;
                    assert forall|j: int| 0 <= j < q1.len() implies (#[trigger] q1[j]).time <= t by {
                        assert(q1[j] == q0[j + 1]);
                    }
                    if self.event_queue.now_spec() != t {
                        let j = choose|j: int| 0 <= j < q0.len() && (#[trigger] q0[j]).time == t;
                        assert(j != 0);
                        assert(q1[j - 1] == q0[j]);
                    }
                }
            }
            proof {
                assert forall|j: int| 0 <= j < q1.len() implies payment_of(
                    (#[trigger] q1[j]).event,
                ).payment_id != head by {
                    assert(q1[j] == q0[j + 1]);
                    assert(payment_of(q0[0].event).payment_id != payment_of(
                        q0[j + 1].event,
                    ).payment_id);
                }
                assert forall|i: int, j: int| 0 <= i < j < q1.len() implies payment_of(
                    (#[trigger] q1[i]).event,
                ).payment_id != payment_of((#[trigger] q1[j]).event).payment_id by {
                    assert(q1[i] == q0[i + 1] && q1[j] == q0[j + 1]);
                    assert(payment_of(q0[i + 1].event).payment_id != payment_of(
                        q0[j + 1].event,
                    ).payment_id);
                }
                assert forall|i: int| 0 <= i < succ0.len() implies (#[trigger] succ0[i]).payment_id
                    != head by {
                    assert(succ0[i].payment_id != payment_of(q0[0].event).payment_id);
                }
                assert forall|i: int| 0 <= i < fail0.len() implies (#[trigger] fail0[i]).payment_id
                    != head by {
                    assert(fail0[i].payment_id != payment_of(q0[0].event).payment_id);
                }
                assert forall|i: int, j: int| 0 <= i < succ0.len() && 0 <= j < q1.len() implies (
                #[trigger] succ0[i]).payment_id != payment_of((#[trigger] q1[j]).event).payment_id by {
                    assert(q1[j] == q0[j + 1]);
                    assert(succ0[i].payment_id != payment_of(q0[j + 1].event).payment_id);
                }
                assert forall|i: int, j: int| 0 <= i < fail0.len() && 0 <= j < q1.len() implies (
                #[trigger] fail0[i]).payment_id != payment_of((#[trigger] q1[j]).event).payment_id by {
                    assert(q1[j] == q0[j + 1]);
                    assert(fail0[i].payment_id != payment_of(q0[j + 1].event).payment_id);
                }
            }
            match event {
                Some(PaymentEvent::Scheduled { payment }) => {
                    let mut payment = payment;
                    let ok = send_payment(
                        &self.graph,
                        self.routing_metric,
                        self.payment_parts,
                        &mut payment,
                        &find_path,
                        &attempt,
                    );
                    let now = self.event_queue.now();
                    let resolution = if ok {
                        PaymentEvent::UpdateSuccesful { payment }
                    } else {
                        PaymentEvent::UpdateFailed { payment }
                    };
                    let ghost issued = self.event_queue.issued();
                    self.event_queue.schedule(now, resolution);
                    proof {
                        let x = ScheduledEvent { time: now, seq: issued, event: resolution };
                        let i = choose|i: int|
                            {
                                &&& 0 <= i <= q1.len()
                                &&& self.event_queue@ == #[trigger] q1.insert(i, x)
                                &&& forall|j: int| 0 <= j < i ==> (#[trigger] q1[j]).time <= now
                                &&& forall|j: int|
                                    i <= j < q1.len() ==> (#[trigger] q1[j]).time > now
                            };
                        lemma_pending_work_insert(q1, i, x);
                        assert(pending_ok(resolution, self.amount, self.payment_parts, lo, pairs));
                        assert forall|j: int| 0 <= j < self.event_queue@.len() implies pending_ok(
                            (#[trigger] self.event_queue@[j]).event,
                            self.amount,
                            self.payment_parts,
                            lo,
                            pairs,
                        ) by {
                            if j < i {
                                assert(self.event_queue@[j] == q1[j]);
                            } else if j > i {
                                assert(self.event_queue@[j] == q1[j - 1]);
                            }
                        }
                        let q2 = self.event_queue@;
                        assert(payment_of(resolution).payment_id == head);
                        assert forall|a: int, b: int| 0 <= a < b < q2.len() implies payment_of(
                            (#[trigger] q2[a]).event,
                        ).payment_id != payment_of((#[trigger] q2[b]).event).payment_id by {
                            let qa = if a < i { a } else { a - 1 };
                            let qb = if b < i { b } else { b - 1 };
                            if a != i && b != i {
                                assert(q2[a] == q1[qa] && q2[b] == q1[qb]);
                            } else if a == i {
                                assert(q2[b] == q1[qb]);
                            } else {
                                assert(q2[a] == q1[qa]);
                            }
                        }
                        assert forall|a: int, b: int| 0 <= a < succ0.len() && 0 <= b < q2.len() implies (
                        #[trigger] succ0[a]).payment_id != payment_of((#[trigger] q2[b]).event).payment_id by {
                            if b < i {
                                assert(q2[b] == q1[b]);
                            } else if b > i {
                                assert(q2[b] == q1[b - 1]);
                            }
                        }
                        assert forall|a: int, b: int| 0 <= a < fail0.len() && 0 <= b < q2.len() implies (
                        #[trigger] fail0[a]).payment_id != payment_of((#[trigger] q2[b]).event).payment_id by {
                            if b < i {
                                assert(q2[b] == q1[b]);
                            } else if b > i {
                                assert(q2[b] == q1[b - 1]);
                            }
                        }
                        assert(q2[i] == x);
                        assert forall|k: int| 0 <= k < n implies #[trigger] settled(
                            q2,
                            successful_payments@,
                            failed_payments@,
                            self.outstanding_invoices.invoices(),
                            lo,
                            pairs,
                            k,
                        ) by {
                            if lo + k == head {
                                assert(payment_of(q2[i].event).payment_id == lo + k);
                            } else if pending_id(q1, lo + k) {
                                let j = choose|j: int|
                                    0 <= j < q1.len() && payment_of((#[trigger] q1[j]).event).payment_id
                                        == lo + k;
                                if j < i {
                                    assert(q2[j] == q1[j]);
                                    assert(payment_of(q2[j].event).payment_id == lo + k);
                                } else {
                                    assert(q2[j + 1] == q1[j]);
                                    assert(payment_of(q2[j + 1].event).payment_id == lo + k);
                                }
                            } else {
                                assert(settled(q1, succ0, fail0, m0, lo, pairs, k));
                            }
                        }
                        if n > 0 {
                            let t = (n - 1) * SIM_DELAY_IN_SECS;
                            assert forall|j: int| 0 <= j < q2.len() implies (#[trigger] q2[j]).time
                                <= t by {
                                if j < i {
                                    assert(q2[j] == q1[j]);
                                } else if j > i {
                                    assert(q2[j] == q1[j - 1]);
                                }
                            }
                            if self.event_queue.now_spec() != t {
                                let j = choose|j: int| 0 <= j < q1.len() && (#[trigger] q1[j]).time == t;
                                if j < i {
                                    assert(q2[j] == q1[j]);
                                } else {
                                    assert(q2[j + 1] == q1[j]);
                                }
                            }
                        }
                    }
                },
                Some(PaymentEvent::UpdateFailed { payment }) => {
                    self.num_failed = self.num_failed + 1;
                    let invoice = Invoice::new(
                        payment.payment_id,
                        payment.amount_msat,
                        &payment.source,
                        &payment.dest,
                    );
                    self.outstanding_invoices.remove(&invoice);
                    failed_payments.push(payment);
                    proof {
                        let f = failed_payments@;
                        assert(f[f.len() - 1].payment_id == head);
                        assert forall|a: int, b: int| 0 <= a < b < f.len() implies (
                        #[trigger] f[a]).payment_id != (#[trigger] f[b]).payment_id by {
                            if b < fail0.len() {
                                assert(f[a] == fail0[a] && f[b] == fail0[b]);
                            } else {
                                assert(f[a] == fail0[a]);
                            }
                        }
                        assert forall|a: int, b: int| 0 <= a < succ0.len() && 0 <= b < f.len() implies (
                        #[trigger] succ0[a]).payment_id != (#[trigger] f[b]).payment_id by {
                            if b < fail0.len() {
                                assert(f[b] == fail0[b]);
                            }
                        }
                        assert forall|a: int, b: int| 0 <= a < f.len() && 0 <= b < q1.len() implies (
                        #[trigger] f[a]).payment_id != payment_of((#[trigger] q1[b]).event).payment_id by {
                            if a < fail0.len() {
                                assert(f[a] == fail0[a]);
                            }
                        }
                        let m1 = self.outstanding_invoices.invoices();
                        assert forall|k: int| 0 <= k < n implies #[trigger] settled(
                            q1,
                            successful_payments@,
                            failed_payments@,
                            m1,
                            lo,
                            pairs,
                            k,
                        ) by {
                            lemma_removed_gone(m0, invoice, (lo + k) as usize, pairs[k].1@);
                            if lo + k == head {
                                assert(f[f.len() - 1].payment_id == lo + k);
                                assert(invoice.destination@ == pairs[k].1@);
                            } else if !pending_id(q1, lo + k) {
                                assert(settled(q1, succ0, fail0, m0, lo, pairs, k));
                                if listed_id(succ0, lo + k) {
                                    let a = choose|a: int| 0 <= a < succ0.len() && (#[trigger] succ0[a]).payment_id == lo + k;
                                    assert(successful_payments@[a] == succ0[a]);
                                } else {
                                    let a = choose|a: int| 0 <= a < fail0.len() && (#[trigger] fail0[a]).payment_id == lo + k;
                                    assert(failed_payments@[a] == fail0[a]);
                                }
                            }
                        }
                    }
                },
                Some(PaymentEvent::UpdateSuccesful { payment }) => {
                    self.num_successful = self.num_successful + 1;
                    let invoice = Invoice::new(
                        payment.payment_id,
                        payment.amount_msat,
                        &payment.source,
                        &payment.dest,
                    );
                    self.outstanding_invoices.remove(&invoice);
                    successful_payments.push(payment);
                    proof {
                        let f = successful_payments@;
                        assert(f[f.len() - 1].payment_id == head);
                        assert forall|a: int, b: int| 0 <= a < b < f.len() implies (
                        #[trigger] f[a]).payment_id != (#[trigger] f[b]).payment_id by {
                            if b < succ0.len() {
                                assert(f[a] == succ0[a] && f[b] == succ0[b]);
                            } else {
                                assert(f[a] == succ0[a]);
                            }
                        }
                        assert forall|a: int, b: int| 0 <= a < f.len() && 0 <= b < fail0.len() implies (
                        #[trigger] f[a]).payment_id != (#[trigger] fail0[b]).payment_id by {
                            if a < succ0.len() {
                                assert(f[a] == succ0[a]);
                            }
                        }
                        assert forall|a: int, b: int| 0 <= a < f.len() && 0 <= b < q1.len() implies (
                        #[trigger] f[a]).payment_id != payment_of((#[trigger] q1[b]).event).payment_id by {
                            if a < succ0.len() {
                                assert(f[a] == succ0[a]);
                            }
                        }
                        let m1 = self.outstanding_invoices.invoices();
                        assert forall|k: int| 0 <= k < n implies #[trigger] settled(
                            q1,
                            successful_payments@,
                            failed_payments@,
                            m1,
                            lo,
                            pairs,
                            k,
                        ) by {
                            lemma_removed_gone(m0, invoice, (lo + k) as usize, pairs[k].1@);
                            if lo + k == head {
                                assert(f[f.len() - 1].payment_id == lo + k);
                                assert(invoice.destination@ == pairs[k].1@);
                            } else if !pending_id(q1, lo + k) {
                                assert(settled(q1, succ0, fail0, m0, lo, pairs, k));
                                if listed_id(succ0, lo + k) {
                                    let a = choose|a: int| 0 <= a < succ0.len() && (#[trigger] succ0[a]).payment_id == lo + k;
                                    assert(successful_payments@[a] == succ0[a]);
                                } else {
                                    let a = choose|a: int| 0 <= a < fail0.len() && (#[trigger] fail0[a]).payment_id == lo + k;
                                    assert(failed_payments@[a] == fail0[a]);
                                }
                            }
                        }
                    }
                },
                None => {},
            }
        }
        proof {
            assert(lo == old(self).current_payment_id);
            assert forall|k: int| 0 <= k < payment_pairs@.len() implies invoice_gone(
                self.outstanding_invoices.invoices(),
                (old(self).current_payment_id + k) as usize,
                (#[trigger] payment_pairs@[k]).1@,
            ) by {
                assert(settled(
                    self.event_queue@,
                    successful_payments@,
                    failed_payments@,
                    self.outstanding_invoices.invoices(),
                    lo,
                    pairs,
                    k,
                ));
            }
        }
        let ghost succ_final = successful_payments@;
        let ghost fail_final = failed_payments@;
        let r = SimResult {
            run: self.run,
            amount: self.amount,
            total_num: self.total_num_payments,
            num_succesful: self.num_successful,
            num_failed: self.num_failed,
            successful_payments,
            failed_payments,
        };
        assert(each_id_resolved(succ_final, fail_final, lo, n)) by {
            assert forall|id: int| lo <= id < lo + n implies #[trigger] listed_id(succ_final, id)
                || listed_id(fail_final, id) by {
                assert(settled(
                    self.event_queue@,
                    succ_final,
                    fail_final,
                    self.outstanding_invoices.invoices(),
                    lo,
                    pairs,
                    id - lo,
                ));
            }
        }
        r
    }
}

} // verus!

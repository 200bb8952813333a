use crate::payment::{path_fees_spec, CandidatePath, Payment};
use crate::sim::SimResult;
use crate::stats::{Adversaries, PathDistances};
use crate::WeightPartsCombi;
use vstd::prelude::*;

verus! {

/// Describes the path used by amounts - may or may not have failed
#[derive(Debug, Clone, PartialEq, Eq, Structural)]
pub struct PathInfo {
    /// The aggregated path fees describing how costly the path is
    pub total_fees: usize,
    pub total_time: usize,
    pub path_len: usize,
}

/// What the statistics layer learns of one payment.
#[derive(Debug, Clone, PartialEq, Eq)]
pub struct PaymentInfo {
    pub id: usize,
    pub succeeded: bool,
    /// Number of parts this payment has been split into
    pub num_parts: usize,
    pub htlc_attempts: usize,
    pub used_paths: Vec<PathInfo>,
    pub failed_paths: Vec<PathInfo>,
}

/// The summary of one run that is handed on for analysis.
#[derive(Debug, Clone)]
pub struct Report {
    pub amount: usize,
    pub total_num: usize,
    pub num_succesful: usize,
    pub num_failed: usize,
    pub payments: Vec<PaymentInfo>,
    pub adversaries: Vec<Adversaries>,
    pub path_distances: PathDistances,
}

/// run and reports
#[derive(Debug, Clone)]
pub struct Results {
    pub scenario: WeightPartsCombi,
    pub run: u64,
    pub reports: Vec<Report>,
}

/// The results of all scenarios.
#[derive(Debug)]
pub struct Output(pub Vec<Results>);

/// The summary of one route.
pub open spec fn path_info_of(p: CandidatePath) -> PathInfo {
    PathInfo {
        total_fees: path_fees_spec(p.path.hops@) as usize,
        total_time: p.time,
        path_len: p.path.hops.len(),
    }
}

/// The summaries of the routes in `paths` that have at least one hop, in order.
pub open spec fn path_infos(paths: Seq<CandidatePath>) -> Seq<PathInfo>
    decreases paths.len(),
{
    if paths.len() == 0 {
        Seq::empty()
    } else {
        let rest = path_infos(paths.drop_last());
        if paths.last().path.hops@.len() > 0 {
            rest.push(path_info_of(paths.last()))
        } else {
            rest
        }
    }
}

/// The fees of every route fit in a `usize`.
pub open spec fn fees_fit(paths: Seq<CandidatePath>) -> bool {
    forall|i: int| 0 <= i < paths.len() ==> path_fees_spec((#[trigger] paths[i]).path.hops@) <= usize::MAX
}

/// `info` is the projection of `p`.
pub open spec fn projects(info: PaymentInfo, p: Payment) -> bool {
    &&& info.id == p.payment_id
    &&& info.succeeded == p.succeeded
    &&& info.num_parts == p.num_parts
    &&& info.htlc_attempts == p.htlc_attempts
    &&& info.used_paths@ == path_infos(p.used_paths@)
    &&& info.failed_paths@ == path_infos(p.failed_paths@)
}

impl PathInfo {
    /// Summarises the routes of `paths` that have at least one hop.
    pub fn from_payment(paths: &[CandidatePath]) -> (r: Vec<PathInfo>)
        requires
            fees_fit(paths@),
        ensures
            r@ == path_infos(paths@),
    {
        let mut infos: Vec<PathInfo> = Vec::new();
        let mut i: usize = 0;
        while i < paths.len()
            invariant
                i <= paths@.len(),
                fees_fit(paths@),
                infos@ == path_infos(paths@.subrange(0, i as int)),
            decreases paths@.len() - i,
        {
            let p = &paths[i];
            proof {
                let s = paths@.subrange(0, i as int + 1);
                assert(s.drop_last() =~= paths@.subrange(0, i as int));
                assert(s.last() == paths@[i as int]);
                assert(path_fees_spec(paths@[i as int].path.hops@) <= usize::MAX);
            }
            if p.path.hops.len() > 0 {
                infos.push(
                    PathInfo { total_fees: p.path_fees(), total_time: p.time, path_len: p.path_length() },
                );
            }
            i = i + 1;
        }
        assert(paths@.subrange(0, paths@.len() as int) =~= paths@);
        infos
    }
}

impl PaymentInfo {
    /// The projection of `payment` that the statistics layer reads.
    pub fn from_payment(payment: &Payment) -> (r: PaymentInfo)
        requires
            fees_fit(payment.used_paths@),
            fees_fit(payment.failed_paths@),
        ensures
            projects(r, *payment),
    {
        let used_paths = PathInfo::from_payment(payment.used_paths.as_slice());
        let failed_paths = PathInfo::from_payment(payment.failed_paths.as_slice());
        PaymentInfo {
            id: payment.payment_id,
            succeeded: payment.succeeded,
            num_parts: payment.num_parts,
            htlc_attempts: payment.htlc_attempts,
            used_paths,
            failed_paths,
        }
    }
}

/// The fees of every route of every payment fit in a `usize`.
pub open spec fn all_fees_fit(ps: Seq<Payment>) -> bool {
    forall|i: int|
        0 <= i < ps.len() ==> fees_fit((#[trigger] ps[i]).used_paths@) && fees_fit(
            ps[i].failed_paths@,
        )
}

fn paths_fees_fit(paths: &Vec<CandidatePath>) -> (r: bool)
    ensures
        r == fees_fit(paths@),
{
    let mut i: usize = 0;
    while i < paths.len()
        invariant
            i <= paths@.len(),
            forall|j: int| 0 <= j < i ==> path_fees_spec((#[trigger] paths@[j]).path.hops@) <= usize::MAX,
        decreases paths@.len() - i,
    {
        if paths[i].checked_path_fees().is_none() {
            return false;
        }
        i = i + 1;
    }
    true
}

/// Whether the fees of every route of every payment fit in a `usize`, as
/// `Report::from_sim_result` needs.
pub fn all_payment_fees_fit(payments: &Vec<Payment>) -> (r: bool)
    ensures
        r == all_fees_fit(payments@),
{
    let mut i: usize = 0;
    while i < payments.len()
        invariant
            i <= payments@.len(),
            forall|j: int|
                0 <= j < i ==> fees_fit((#[trigger] payments@[j]).used_paths@) && fees_fit(
                    payments@[j].failed_paths@,
                ),
        decreases payments@.len() - i,
    {
        if !paths_fees_fit(&payments[i].used_paths) || !paths_fees_fit(&payments[i].failed_paths) {
            return false;
        }
        i = i + 1;
    }
    true
}

fn project_all(payments: &Vec<Payment>, out: &mut Vec<PaymentInfo>)
    requires
        all_fees_fit(payments@),
    ensures
        final(out)@.len() == old(out)@.len() + payments@.len(),
        forall|i: int| 0 <= i < old(out)@.len() ==> final(out)@[i] == old(out)@[i],
        forall|i: int|
            0 <= i < payments@.len() ==> projects(
                #[trigger] final(out)@[old(out)@.len() + i],
                payments@[i],
            ),
{
    let ghost start = out@;
    let mut i: usize = 0;
    while i < payments.len()
        invariant
            i <= payments@.len(),
            all_fees_fit(payments@),
            out@.len() == start.len() + i,
            forall|j: int| 0 <= j < start.len() ==> out@[j] == start[j],
            forall|j: int| 0 <= j < i ==> projects(#[trigger] out@[start.len() + j], payments@[j]),
        decreases payments@.len() - i,
    {
        let info = PaymentInfo::from_payment(&payments[i]);
        out.push(info);
        i = i + 1;
    }
}

impl Report {
    /// The report of a run: its counts, and a projection of each resolved
    /// payment, the successful ones first.
    pub fn from_sim_result(
        result: &SimResult,
        adversaries: Vec<Adversaries>,
        path_distances: PathDistances,
    ) -> (r: Report)
        requires
            all_fees_fit(result.successful_payments@),
            all_fees_fit(result.failed_payments@),
        ensures
            r.amount == result.amount,
            r.total_num == result.total_num,
            r.num_succesful == result.num_succesful,
            r.num_failed == result.num_failed,
            r.payments@.len() == result.successful_payments@.len()
                + result.failed_payments@.len(),
            forall|i: int|
                0 <= i < result.successful_payments@.len() ==> projects(
                    #[trigger] r.payments@[i],
                    result.successful_payments@[i],
                ),
            forall|i: int|
                0 <= i < result.failed_payments@.len() ==> projects(
                    #[trigger] r.payments@[result.successful_payments@.len() + i],
                    result.failed_payments@[i],
                ),
            r.adversaries == adversaries,
            r.path_distances == path_distances,
    {
        let mut payments: Vec<PaymentInfo> = Vec::new();
        project_all(&result.successful_payments, &mut payments);
        let ghost first = payments@;
        project_all(&result.failed_payments, &mut payments);
        proof {
            assert forall|i: int| 0 <= i < result.successful_payments@.len() implies projects(
                #[trigger] payments@[i],
                result.successful_payments@[i],
            ) by {
                assert(payments@[i] == first[i]);
                assert(projects(first[0 + i], result.successful_payments@[i]));
            }
        }
        Report {
            amount: result.amount,
            total_num: result.total_num,
            num_succesful: result.num_succesful,
            num_failed: result.num_failed,
            payments,
            adversaries,
            path_distances,
        }
    }
}

/// The projections never hold a route without hops: each summary that
/// `path_infos` keeps has a positive length, and it keeps one for each
/// route that has hops.
pub proof fn lemma_projection_skips_empty_paths(paths: Seq<CandidatePath>)
    ensures
        forall|i: int| 0 <= i < path_infos(paths).len() ==> (#[trigger] path_infos(paths)[i]).path_len > 0,
    decreases paths.len(),
{
    if paths.len() > 0 {
        lemma_projection_skips_empty_paths(paths.drop_last());
        let rest = path_infos(paths.drop_last());
        let all = path_infos(paths);
        assert(paths.last().path.hops.len() == paths.last().path.hops@.len());
        assert forall|i: int| 0 <= i < all.len() implies (#[trigger] all[i]).path_len > 0 by {
            if i < rest.len() {
                assert(all[i] == rest[i]);
            }
        }
    }
}

/// A route without hops changes no projection, wherever it stands among
/// the routes.
pub proof fn lemma_projection_ignores_empty_path(paths: Seq<CandidatePath>, i: int, e: CandidatePath)
    requires
        0 <= i <= paths.len(),
        e.path.hops@.len() == 0,
    ensures
        path_infos(paths.insert(i, e)) == path_infos(paths),
    decreases paths.len(),
{
    let t = paths.insert(i, e);
    if i == paths.len() {
        assert(t.drop_last() =~= paths);
    } else {
        assert(t.drop_last() =~= paths.drop_last().insert(i, e));
        assert(t.last() == paths.last());
        lemma_projection_ignores_empty_path(paths.drop_last(), i, e);
    }
}

} // verus!

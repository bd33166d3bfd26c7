//! What each worker counted, and the summary of a run over all workers.
use vstd::prelude::*;

verus! {

/// The counts of one worker at the end of its run.
pub struct WorkerStats {
    pub run_duration: usize,
    pub request_count: u32,
    pub error_count: u32,
    pub bad_requests: u32,
    pub received_data: usize,
}

impl WorkerStats {
    pub fn new(
        run_duration: usize,
        request_count: u32,
        error_count: u32,
        bad_requests: u32,
        received_data: usize,
    ) -> (r: Self)
        ensures
            r.run_duration == run_duration,
            r.request_count == request_count,
            r.error_count == error_count,
            r.bad_requests == bad_requests,
            r.received_data == received_data,
    {
        WorkerStats { run_duration, request_count, error_count, bad_requests, received_data }
    }
}

pub open spec fn total_requests(s: Seq<WorkerStats>) -> int
    decreases s.len(),
{
    if s.len() == 0 {
        0
    } else {
        total_requests(s.drop_last()) + s.last().request_count
    }
}

pub open spec fn total_errors(s: Seq<WorkerStats>) -> int
    decreases s.len(),
{
    if s.len() == 0 {
        0
    } else {
        total_errors(s.drop_last()) + s.last().error_count
    }
}

pub open spec fn total_bad(s: Seq<WorkerStats>) -> int
    decreases s.len(),
{
    if s.len() == 0 {
        0
    } else {
        total_bad(s.drop_last()) + s.last().bad_requests
    }
}

pub open spec fn total_received(s: Seq<WorkerStats>) -> int
    decreases s.len(),
{
    if s.len() == 0 {
        0
    } else {
        total_received(s.drop_last()) + s.last().received_data
    }
}

/// Requests per second over the whole run: all requests over the duration
/// that the workers share; 0 for a run of no duration.
pub open spec fn run_rps(s: Seq<WorkerStats>) -> int {
    if s[0].run_duration == 0 {
        0
    } else {
        total_requests(s) / (s[0].run_duration as int)
    }
}

/// The figures of a whole run.
pub struct SummaryStatistics {
    pub workers_stats: Vec<WorkerStats>,
    pub rps: u128,
    pub non_200_300_requests: u128,
    pub total_errors: u128,
    pub total_data_received: u128,
}

impl SummaryStatistics {
    pub fn new(workers_stats: Vec<WorkerStats>) -> (r: SummaryStatistics)
        requires
            workers_stats.len() > 0,
        ensures
            r.workers_stats == workers_stats,
            r.rps == run_rps(workers_stats@),
            r.non_200_300_requests == total_bad(workers_stats@),
            r.total_errors == total_errors(workers_stats@),
            r.total_data_received == total_received(workers_stats@),
    {
        let mut requests: u128 = 0;
        let mut errors: u128 = 0;
        let mut bad: u128 = 0;
        let mut received: u128 = 0;
        let n = workers_stats.len();
        let mut i: usize = 0;
        while i < n
            invariant
                n == workers_stats.len(),
                i <= n,
                requests == total_requests(workers_stats@.subrange(0, i as int)),
                errors == total_errors(workers_stats@.subrange(0, i as int)),
                bad == total_bad(workers_stats@.subrange(0, i as int)),
                received == total_received(workers_stats@.subrange(0, i as int)),
                requests <= i * 0xffff_ffff,
                errors <= i * 0xffff_ffff,
                bad <= i * 0xffff_ffff,
                received <= i * 0xffff_ffff_ffff_ffff,
            decreases n - i,
        {
            let w = &workers_stats[i];
            assert(workers_stats@.subrange(0, i + 1).drop_last() =~= workers_stats@.subrange(
                0,
                i as int,
            ));
            requests = requests + w.request_count as u128;
            errors = errors + w.error_count as u128;
            bad = bad + w.bad_requests as u128;
            received = received + w.received_data as u128;
            i = i + 1;
        }
        assert(workers_stats@.subrange(0, n as int) =~= workers_stats@);
        let duration = workers_stats[0].run_duration;
        let rps = if duration == 0 {
            0
        } else {
            requests / duration as u128
        };
        SummaryStatistics {
            workers_stats,
            rps,
            non_200_300_requests: bad,
            total_errors: errors,
            total_data_received: received,
        }
    }
}

proof fn lemma_total_requests_uniform(s: Seq<WorkerStats>, r: u32)
    requires
        forall|i: int| 0 <= i < s.len() ==> (#[trigger] s[i]).request_count == r,
    ensures
        total_requests(s) == s.len() * r,
    decreases s.len(),
{
    if s.len() > 0 {
        let t = s.drop_last();
        assert forall|i: int| 0 <= i < t.len() implies (#[trigger] t[i]).request_count == r by {
            assert(t[i] == s[i]);
        }
        lemma_total_requests_uniform(t, r);
        assert(s.len() * r == t.len() * r + r) by (nonlinear_arith)
            requires
                s.len() == t.len() + 1;
    }
}

/// With `N` workers that each sent `R` requests over `D > 0` seconds, the
/// run's rate is `N * R / D` requests per second.
pub proof fn lemma_uniform_rps(s: Seq<WorkerStats>, r: u32, d: usize)
    requires
        s.len() > 0,
        d > 0,
        forall|i: int|
            0 <= i < s.len() ==> (#[trigger] s[i]).request_count == r && s[i].run_duration == d,
    ensures
        run_rps(s) == (s.len() * r) / (d as int),
{
    lemma_total_requests_uniform(s, r);
}

} // verus!

//! Reserved dispatchers still waiting for a body, in the order of their ids.

use vstd::prelude::*;

use crate::hir::FuncId;

verus! {

/// One dispatcher to build: its id, the row of its family and the row of the
/// member there.
#[derive(Clone, Copy, PartialEq, Eq, Structural, Debug)]
pub struct Job {
    pub id: FuncId,
    pub family: usize,
    pub member: usize,
}

/// Jobs in the order of their ids, each id once.
pub open spec fn in_order(jobs: Seq<Job>) -> bool {
    forall|i: int, j: int|
        0 <= i < j < jobs.len() ==> (#[trigger] jobs[i]).id.0 < (#[trigger] jobs[j]).id.0
}

/// Whether `id` is the dispatcher of one of `jobs`.
pub open spec fn job_of(jobs: Seq<Job>, id: FuncId) -> bool {
    exists|k: int| 0 <= k < jobs.len() && (#[trigger] jobs[k]).id == id
}

/// `more` has the jobs of `jobs` and `job`, and no other.
pub open spec fn added(jobs: Seq<Job>, more: Seq<Job>, job: Job) -> bool {
    &&& more.len() == jobs.len() + 1
    &&& more.contains(job)
    &&& forall|k: int| 0 <= k < jobs.len() ==> more.contains(#[trigger] jobs[k])
    &&& forall|k: int|
        0 <= k < more.len() ==> #[trigger] more[k] == job || jobs.contains(more[k])
}

/// Adds a job, keeping the list in the order of ids.
pub fn add_job(jobs: &mut Vec<Job>, job: Job)
    requires
        in_order(old(jobs)@),
        !job_of(old(jobs)@, job.id),
    ensures
        in_order(final(jobs)@),
        added(old(jobs)@, final(jobs)@, job),
{
    let ghost before = jobs@;
    let mut at: usize = jobs.len();
    while at > 0 && jobs[at - 1].id.0 > job.id.0
        invariant
            at <= jobs@.len(),
            jobs@ == before,
            in_order(before),
            !job_of(before, job.id),
            forall|k: int| at <= k < jobs@.len() ==> job.id.0 < (#[trigger] jobs@[k]).id.0,
        decreases at,
    {
        at -= 1;
    }
    jobs.insert(at, job);
    proof {
        let more = jobs@;
        assert(more == before.insert(at as int, job));
        assert(more[at as int] == job);
        assert forall|k: int| 0 <= k < before.len() implies more.contains(#[trigger] before[k]) by {
            if k < at {
                assert(more[k] == before[k]);
            } else {
                assert(more[k + 1] == before[k]);
            }
        }
        assert forall|k: int| 0 <= k < more.len() implies #[trigger] more[k] == job
            || before.contains(more[k]) by {
            if k < at {
                assert(more[k] == before[k]);
            } else if k > at {
                assert(more[k] == before[k - 1]);
            }
        }
        assert forall|i: int, j: int| 0 <= i < j < more.len() implies (#[trigger] more[i]).id.0 < (
        #[trigger] more[j]).id.0 by {
            if i < at && j < at {
                assert(before[i].id.0 < before[j].id.0);
            } else if i < at && j == at {
                if i < at - 1 {
                    assert(before[i].id.0 < before[at - 1].id.0);
                }
                assert(before[at - 1].id != job.id);
            } else if i < at {
                assert(before[i].id.0 < before[j - 1].id.0);
            } else if i == at {
                assert(more[j] == before[j - 1]);
            } else {
                assert(before[i - 1].id.0 < before[j - 1].id.0);
            }
        }
    }
}

} // verus!

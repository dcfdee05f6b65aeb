//! Jobs that run at once: which one is started and which one is waited for next.

use vstd::prelude::*;

verus! {

/// What is to be done next.
#[derive(Clone, Copy, Debug, PartialEq, Eq, Structural)]
pub enum PoolAction {
    /// Start the job with this number.
    Start(usize),
    /// Wait for the job with this number.
    Join(usize),
    /// There is nothing left to do.
    Finished,
}

/// Jobs of which a limited number runs at once.
pub struct JobPool {
    total: usize,
    limit: usize,
    next: usize,
    running: Vec<usize>,
}

/// What a pool is about to do.
pub struct PoolState {
    /// The number of jobs.
    pub total: nat,
    /// How many may run at once.
    pub limit: nat,
    /// The job that is started next.
    pub next: nat,
    /// The jobs that run, in the order in which they were started.
    pub running: Seq<usize>,
}

/// A pool that has not started anything.
pub open spec fn fresh_pool(total: nat, limit: nat) -> PoolState {
    PoolState { total, limit, next: 0, running: Seq::empty() }
}

/// Jobs are started as long as there is room. Then the one that was started last is waited for.
pub open spec fn pool_action(pool: PoolState) -> PoolAction {
    if pool.next < pool.total && pool.running.len() < pool.limit {
        PoolAction::Start(pool.next as usize)
    } else if pool.running.len() > 0 {
        PoolAction::Join(pool.running.last())
    } else {
        PoolAction::Finished
    }
}

/// The pool after its next action was done.
pub open spec fn pool_step(pool: PoolState) -> PoolState {
    match pool_action(pool) {
        PoolAction::Start(job) => PoolState {
            next: pool.next + 1,
            running: pool.running.push(job),
            ..pool
        },
        PoolAction::Join(_) => PoolState { running: pool.running.drop_last(), ..pool },
        PoolAction::Finished => pool,
    }
}

impl View for JobPool {
    type V = PoolState;

    closed spec fn view(&self) -> PoolState {
        PoolState {
            total: self.total as nat,
            limit: self.limit as nat,
            next: self.next as nat,
            running: self.running@,
        }
    }
}

/// The number of jobs that run at once: as many as are allowed, if there are so many.
pub fn parallel_jobs(allowed: usize, jobs: usize) -> (limit: usize)
    ensures
        limit == (if allowed < jobs {
            allowed
        } else {
            jobs
        }),
        limit <= allowed && limit <= jobs,
        limit == allowed || limit == jobs,
{
    if allowed < jobs {
        allowed
    } else {
        jobs
    }
}

impl JobPool {
    /// A pool that has not started anything.
    pub fn new(total: usize, limit: usize) -> (pool: JobPool)
        ensures
            pool@ == fresh_pool(total as nat, limit as nat),
    {
        JobPool { total, limit, next: 0, running: Vec::new() }
    }

    /// Says what is to be done next, and counts it as done.
    pub fn next(&mut self) -> (action: PoolAction)
        ensures
            action == pool_action(old(self)@),
            final(self)@ == pool_step(old(self)@),
            final(self)@.total == old(self)@.total && final(self)@.limit == old(self)@.limit,
            match action {
                PoolAction::Start(job) => {
                    &&& job == old(self)@.next && job < old(self)@.total
                    &&& old(self)@.running.len() < old(self)@.limit
                    &&& final(self)@.next == job + 1
                    &&& final(self)@.running == old(self)@.running.push(job)
                },
                PoolAction::Join(job) => {
                    &&& final(self)@.next == old(self)@.next
                    &&& old(self)@.running == final(self)@.running.push(job)
                },
                PoolAction::Finished => {
                    &&& old(self)@.running.len() == 0
                    &&& old(self)@.next >= old(self)@.total || old(self)@.limit == 0
                    &&& final(self)@ == old(self)@
                },
            },
    {
        if self.next < self.total && self.running.len() < self.limit {
            let job: usize = self.next;
            self.running.push(job);
            self.next += 1;
            PoolAction::Start(job)
        } else {
            match self.running.pop() {
                Some(job) => {
                    assert(old(self)@.running =~= self@.running.push(job));
                    PoolAction::Join(job)
                },
                None => PoolAction::Finished,
            }
        }
    }
}

// ---------------------------------------------------------------------------------------------
// The course of a pool
// ---------------------------------------------------------------------------------------------
/// A pool after some actions, and the jobs that have been waited for.
pub struct PoolCourse {
    pub pool: PoolState,
    pub joined: Seq<usize>,
}

/// A pool after its first `n` actions.
pub open spec fn pool_course(total: nat, limit: nat, n: nat) -> PoolCourse
    decreases n,
{
    if n == 0 {
        PoolCourse { pool: fresh_pool(total, limit), joined: Seq::empty() }
    } else {
        let before = pool_course(total, limit, (n - 1) as nat);
        PoolCourse {
            pool: pool_step(before.pool),
            joined: match pool_action(before.pool) {
                PoolAction::Join(job) => before.joined.push(job),
                _ => before.joined,
            },
        }
    }
}

/// Has each job that was started either been waited for or not, and that once?
spec fn accounts_for_all(course: PoolCourse) -> bool {
    let joined = course.joined;
    let running = course.pool.running;
    &&& joined.len() + running.len() == course.pool.next
    &&& joined.no_duplicates()
    &&& running.no_duplicates()
    &&& forall|i: int| 0 <= i < joined.len() ==> #[trigger] joined[i] < course.pool.next
    &&& forall|i: int| 0 <= i < running.len() ==> #[trigger] running[i] < course.pool.next
    &&& forall|i: int, j: int|
        0 <= i < joined.len() && 0 <= j < running.len() ==> #[trigger] joined[i]
            != #[trigger] running[j]
}

proof fn lemma_course(total: nat, limit: nat, n: nat)
    requires
        total <= usize::MAX,
    ensures
        ({
            let course = pool_course(total, limit, n);
            let pool = course.pool;
            &&& pool.total == total
            &&& pool.limit == limit
            &&& pool.next <= total
            &&& pool.running.len() <= limit
            &&& accounts_for_all(course)
            &&& 0 < limit && n <= 2 * total ==> 2 * (total - pool.next) + pool.running.len() + n
                == 2 * total
        }),
    decreases n,
{
    if n > 0 {
        lemma_course(total, limit, (n - 1) as nat);
        let before = pool_course(total, limit, (n - 1) as nat);
        let after = pool_course(total, limit, n);
        assert(accounts_for_all(before));
        assert(accounts_for_all(after));
    }
}

/// At no time do more jobs run than may.
pub proof fn no_more_jobs_run_than_may(total: nat, limit: nat, n: nat)
    requires
        total <= usize::MAX,
    ensures
        pool_course(total, limit, n).pool.running.len() <= limit,
{
    lemma_course(total, limit, n);
}

/// Jobs are started in their order, each of them once: the action that starts a job finds that
/// exactly those before it have been started.
pub proof fn jobs_start_in_order(total: nat, limit: nat, n: nat)
    requires
        total <= usize::MAX,
    ensures
        ({
            let before = pool_course(total, limit, n).pool;
            let after = pool_course(total, limit, n + 1).pool;
            match pool_action(before) {
                PoolAction::Start(job) => job == before.next && after.next == job + 1,
                _ => after.next == before.next,
            }
        }),
{
    lemma_course(total, limit, n);
}

/// A pool that may run jobs at all comes to an end after two actions for each job. Then every job
/// has been started and waited for, and none twice.
pub proof fn every_job_runs_once(total: nat, limit: nat)
    requires
        total <= usize::MAX,
        limit > 0,
    ensures
        ({
            let course = pool_course(total, limit, 2 * total);
            &&& pool_action(course.pool) == PoolAction::Finished
            &&& course.pool.next == total
            &&& course.joined.len() == total
            &&& course.joined.no_duplicates()
            &&& forall|i: int|
                0 <= i < course.joined.len() ==> (#[trigger] course.joined[i]) < total
        }),
{
    lemma_course(total, limit, 2 * total);
}

/// A pool is not at its end before that.
pub proof fn pool_ends_only_when_all_is_done(total: nat, limit: nat, n: nat)
    requires
        total <= usize::MAX,
        limit > 0,
        n < 2 * total,
    ensures
        pool_action(pool_course(total, limit, n).pool) != PoolAction::Finished,
{
    lemma_course(total, limit, n);
}

/// No room is left unused: a job is waited for only once as many run as may, or none is left to
/// start; and what is waited for runs.
pub proof fn no_room_is_left_unused(total: nat, limit: nat, n: nat)
    requires
        total <= usize::MAX,
    ensures
        ({
            let pool = pool_course(total, limit, n).pool;
            &&& pool_action(pool) matches PoolAction::Join(job) ==> pool.running.contains(job) && (
            pool.running.len() == limit || pool.next == total)
            &&& pool_action(pool) == PoolAction::Finished ==> pool.running.len() == 0 && (limit == 0
                || pool.next == total)
            &&& pool.running.len() < limit && pool.next < total ==> pool_action(pool)
                == PoolAction::Start(pool.next as usize)
        }),
{
    lemma_course(total, limit, n);
    let pool = pool_course(total, limit, n).pool;
    if pool.running.len() > 0 {
        assert(pool.running[pool.running.len() - 1] == pool.running.last());
    }
}

/// The job that is waited for is the one of those that run that was started last, and the others go
/// on running.
pub proof fn the_job_started_last_is_waited_for(total: nat, limit: nat, n: nat)
    requires
        total <= usize::MAX,
    ensures
        ({
            let before = pool_course(total, limit, n).pool;
            let after = pool_course(total, limit, n + 1).pool;
            pool_action(before) matches PoolAction::Join(job) ==> {
                &&& forall|i: int|
                    0 <= i < before.running.len() ==> #[trigger] before.running[i] <= job
                &&& before.running == after.running.push(job)
            }
        }),
{
    lemma_running_in_order(total, limit, n);
    let before = pool_course(total, limit, n).pool;
    let after = pool_course(total, limit, n + 1).pool;
    if let PoolAction::Join(job) = pool_action(before) {
        assert(before.running =~= after.running.push(job));
        assert forall|i: int| 0 <= i < before.running.len() implies #[trigger] before.running[i]
            <= job by {
            if i < before.running.len() - 1 {
                assert(before.running[i] < before.running[before.running.len() - 1]);
            }
        }
    }
}

/// The jobs that run stand in the order of their numbers.
proof fn lemma_running_in_order(total: nat, limit: nat, n: nat)
    requires
        total <= usize::MAX,
    ensures
        ({
            let pool = pool_course(total, limit, n).pool;
            &&& pool.total == total
            &&& forall|i: int| 0 <= i < pool.running.len() ==> #[trigger] pool.running[i] < pool.next
            &&& forall|i: int, j: int|
                0 <= i < j < pool.running.len() ==> #[trigger] pool.running[i]
                    < #[trigger] pool.running[j]
        }),
    decreases n,
{
    if n > 0 {
        lemma_running_in_order(total, limit, (n - 1) as nat);
    }
}

} // verus!

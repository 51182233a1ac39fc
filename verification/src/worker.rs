//! The worker state machine, and the pool of workers as a whole.
//!
//! A worker is `Running` until it receives an end-of-work marker (or finds
//! the queue closed), then `Terminated` for good. The pool is active while
//! at least one worker is running.

use vstd::prelude::*;
use crate::work::WorkItem;
use crate::work::plan_of;

verus! {

/// State of one worker.
#[derive(Clone, Copy, Debug, PartialEq, Eq, Structural)]
pub enum WorkerState {
    Running,
    Terminated,
}

/// What a worker does with what it received.
#[derive(Debug, PartialEq, Eq)]
pub enum Step {
    /// Check this candidate, aggregate the result, then receive again.
    Check(String),
    /// Leave the loop.
    Stop,
}

/// The state of a worker after it received `received` (`None`: the queue is
/// closed). Only a running worker that receives a candidate keeps running.
pub open spec fn next_state(state: WorkerState, received: Option<WorkItem>) -> WorkerState {
    match (state, received) {
        (WorkerState::Running, Some(WorkItem::Candidate(_))) => WorkerState::Running,
        _ => WorkerState::Terminated,
    }
}

/// What a worker does on receiving `received`: a running worker checks the
/// candidate it received; in every other case the worker stops.
pub open spec fn next_step(state: WorkerState, received: Option<WorkItem>) -> Step {
    match (state, received) {
        (WorkerState::Running, Some(WorkItem::Candidate(word))) => Step::Check(word),
        _ => Step::Stop,
    }
}

/// One turn of a worker's loop: from its state and what it received to its
/// next state and what to do. A terminated worker stays terminated and
/// checks nothing, whatever it is handed.
pub fn advance(state: WorkerState, received: Option<WorkItem>) -> (next: (WorkerState, Step))
    ensures
        next.0 == next_state(state, received),
        next.1 == next_step(state, received),
        state == WorkerState::Terminated ==> next.0 == WorkerState::Terminated && next.1
            == Step::Stop,
{
    match state {
        WorkerState::Terminated => (WorkerState::Terminated, Step::Stop),
        WorkerState::Running => match received {
            Some(WorkItem::Candidate(word)) => (WorkerState::Running, Step::Check(word)),
            Some(WorkItem::EndOfWork) => (WorkerState::Terminated, Step::Stop),
            None => (WorkerState::Terminated, Step::Stop),
        },
    }
}

/// The state of a worker that started in `state` and then received
/// `received`, one after the other.
pub open spec fn state_after(state: WorkerState, received: Seq<Option<WorkItem>>) -> WorkerState
    decreases received.len(),
{
    if received.len() == 0 {
        state
    } else {
        next_state(state_after(state, received.drop_last()), received.last())
    }
}

/// Termination is final: whatever a terminated worker is handed afterwards,
/// it stays terminated and checks none of it.
pub proof fn lemma_terminated_for_good(received: Seq<Option<WorkItem>>)
    ensures
        state_after(WorkerState::Terminated, received) == WorkerState::Terminated,
        forall|k: int|
            0 <= k < received.len() ==> next_step(
                state_after(WorkerState::Terminated, received.take(k)),
                #[trigger] received[k],
            ) == Step::Stop,
    decreases received.len(),
{
    if received.len() > 0 {
        let front = received.drop_last();
        lemma_terminated_for_good(front);
        assert forall|k: int| 0 <= k < received.len() implies next_step(
            state_after(WorkerState::Terminated, received.take(k)),
            #[trigger] received[k],
        ) == Step::Stop by {
            if k < front.len() {
                assert(received.take(k) =~= front.take(k));
                assert(front[k] == received[k]);
            } else {
                assert(received.take(k) =~= front);
            }
        }
    }
}

/// Mathematical model of a pool: the state of each worker, and the number
/// of end-of-work markers that its workers have consumed.
pub ghost struct PoolModel {
    pub states: Seq<WorkerState>,
    pub markers: nat,
}

/// Number of running workers among `states`.
pub open spec fn running_count(states: Seq<WorkerState>) -> nat
    decreases states.len(),
{
    if states.len() == 0 {
        0
    } else {
        running_count(states.drop_last()) + if states.last() == WorkerState::Running {
            1nat
        } else {
            0nat
        }
    }
}

/// A pool of `size` workers, all running, no marker consumed.
pub open spec fn fresh_pool(size: nat) -> PoolModel {
    PoolModel { states: Seq::new(size, |i: int| WorkerState::Running), markers: 0 }
}

/// The pool after worker `worker` received `item`. A marker terminates a
/// running worker and is counted; a candidate changes nothing in the pool;
/// a worker that is terminated, or is not in the pool, takes nothing.
pub open spec fn deliver_model(pool: PoolModel, worker: int, item: WorkItem) -> PoolModel {
    if 0 <= worker < pool.states.len() && pool.states[worker] == WorkerState::Running {
        match item {
            WorkItem::Candidate(_) => pool,
            WorkItem::EndOfWork => PoolModel {
                states: pool.states.update(worker, WorkerState::Terminated),
                markers: pool.markers + 1,
            },
        }
    } else {
        pool
    }
}

/// The pool after `items` were received one by one, item `k` by worker
/// `receivers[k]`.
pub open spec fn run_model(pool: PoolModel, items: Seq<WorkItem>, receivers: Seq<int>) -> PoolModel
    decreases items.len(),
{
    if items.len() == 0 || receivers.len() != items.len() {
        pool
    } else {
        deliver_model(
            run_model(pool, items.drop_last(), receivers.drop_last()),
            receivers.last(),
            items.last(),
        )
    }
}

/// Number of end-of-work markers among `items` that worker `worker`
/// received, item `k` going to worker `receivers[k]`.
pub open spec fn markers_received(items: Seq<WorkItem>, receivers: Seq<int>, worker: int) -> nat
    decreases items.len(),
{
    if items.len() == 0 || receivers.len() != items.len() {
        0
    } else {
        markers_received(items.drop_last(), receivers.drop_last(), worker) + if receivers.last()
            == worker && items.last() == WorkItem::EndOfWork {
            1nat
        } else {
            0nat
        }
    }
}

/// Each item is received by a worker of the pool that is running when the
/// item arrives: a terminated worker no longer receives.
pub open spec fn receivers_running(
    pool: PoolModel,
    items: Seq<WorkItem>,
    receivers: Seq<int>,
) -> bool {
    &&& receivers.len() == items.len()
    &&& forall|k: int|
        #![trigger receivers[k]]
        0 <= k < items.len() ==> {
            let before = run_model(pool, items.take(k), receivers.take(k));
            0 <= receivers[k] < before.states.len() && before.states[receivers[k]]
                == WorkerState::Running
        }
}

/// Among workers that are all running, as many run as there are workers.
pub proof fn lemma_fresh_pool_all_running(size: nat)
    ensures
        running_count(fresh_pool(size).states) == size,
    decreases size,
{
    if size > 0 {
        lemma_fresh_pool_all_running((size - 1) as nat);
        assert(fresh_pool(size).states.drop_last() =~= fresh_pool((size - 1) as nat).states);
    }
}

/// Terminating one running worker lowers the number of running workers by
/// one.
pub proof fn lemma_terminate_one(states: Seq<WorkerState>, worker: int)
    requires
        0 <= worker < states.len(),
        states[worker] == WorkerState::Running,
    ensures
        running_count(states) >= 1,
        running_count(states.update(worker, WorkerState::Terminated)) == running_count(states) - 1,
    decreases states.len(),
{
    let after = states.update(worker, WorkerState::Terminated);
    if worker == states.len() - 1 {
        assert(after.drop_last() =~= states.drop_last());
    } else {
        lemma_terminate_one(states.drop_last(), worker);
        assert(after.drop_last() =~= states.drop_last().update(worker, WorkerState::Terminated));
    }
}

/// No more workers run than there are, and where none runs every worker is
/// terminated.
pub proof fn lemma_none_running(states: Seq<WorkerState>)
    ensures
        running_count(states) <= states.len(),
        running_count(states) == 0 <==> forall|i: int|
            0 <= i < states.len() ==> #[trigger] states[i] == WorkerState::Terminated,
    decreases states.len(),
{
    if states.len() > 0 {
        let front = states.drop_last();
        lemma_none_running(front);
        if running_count(states) == 0 {
            assert forall|i: int| 0 <= i < states.len() implies #[trigger] states[i]
                == WorkerState::Terminated by {
                if i < states.len() - 1 {
                    assert(front[i] == states[i]);
                }
            }
        } else {
            if states.last() != WorkerState::Running {
                let i = choose|i: int|
                    0 <= i < front.len() && #[trigger] front[i] != WorkerState::Terminated;
                assert(states[i] == front[i]);
            }
        }
    }
}

/// The pool after the first `done` items of the enqueue sequence were
/// received: untouched while candidates arrive, and from then on one worker
/// fewer running and one marker more consumed with each item.
proof fn lemma_plan_prefix(candidates: Seq<String>, workers: nat, receivers: Seq<int>, done: int)
    requires
        receivers_running(fresh_pool(workers), plan_of(candidates, workers), receivers),
        0 <= done <= candidates.len() + workers,
    ensures
        ({
            let plan = plan_of(candidates, workers);
            let pool = run_model(fresh_pool(workers), plan.take(done), receivers.take(done));
            &&& pool.states.len() == workers
            &&& done <= candidates.len() ==> pool == fresh_pool(workers)
            &&& done > candidates.len() ==> pool.markers == done - candidates.len()
                && running_count(pool.states) == workers - pool.markers
            &&& forall|w: int|
                0 <= w < workers ==> markers_received(plan.take(done), receivers.take(done), w)
                    == if #[trigger] pool.states[w] == WorkerState::Terminated {
                    1nat
                } else {
                    0nat
                }
        }),
    decreases done,
{
    let plan = plan_of(candidates, workers);
    if done > 0 {
        let before = run_model(fresh_pool(workers), plan.take(done - 1), receivers.take(done - 1));
        let pool = run_model(fresh_pool(workers), plan.take(done), receivers.take(done));
        lemma_plan_prefix(candidates, workers, receivers, done - 1);
        assert(plan.take(done).drop_last() =~= plan.take(done - 1));
        assert(receivers.take(done).drop_last() =~= receivers.take(done - 1));
        assert(receivers.take(done).last() == receivers[done - 1]);
        assert(plan.take(done).last() == plan[done - 1]);
        lemma_fresh_pool_all_running(workers);
        if done > candidates.len() {
            lemma_terminate_one(before.states, receivers[done - 1]);
        }
        assert forall|w: int| 0 <= w < workers implies markers_received(
            plan.take(done),
            receivers.take(done),
            w,
        ) == if #[trigger] pool.states[w] == WorkerState::Terminated {
            1nat
        } else {
            0nat
        } by {
            assert(before.states[w] == WorkerState::Terminated || before.states[w]
                == WorkerState::Running);
        }
    }
}

/// Shutdown: when the enqueue sequence for a pool of `workers` workers has
/// been received, each item by a worker that was still running, exactly
/// `workers` end-of-work markers have been consumed and every worker is
/// terminated: each worker consumed one marker, and none received anything
/// after its own.
pub proof fn lemma_plan_stops_every_worker(
    candidates: Seq<String>,
    workers: nat,
    receivers: Seq<int>,
)
    requires
        receivers_running(fresh_pool(workers), plan_of(candidates, workers), receivers),
    ensures
        ({
            let end = run_model(fresh_pool(workers), plan_of(candidates, workers), receivers);
            &&& end.markers == workers
            &&& end.states.len() == workers
            &&& running_count(end.states) == 0
            &&& forall|i: int|
                0 <= i < workers ==> #[trigger] end.states[i] == WorkerState::Terminated
        }),
        forall|w: int|
            0 <= w < workers ==> #[trigger] markers_received(
                plan_of(candidates, workers),
                receivers,
                w,
            ) == 1,
{
    let plan = plan_of(candidates, workers);
    let total = candidates.len() + workers;
    lemma_plan_prefix(candidates, workers, receivers, total as int);
    assert(plan.take(total as int) =~= plan);
    assert(receivers.take(total as int) =~= receivers);
    let end = run_model(fresh_pool(workers), plan, receivers);
    if workers == 0 {
        lemma_fresh_pool_all_running(0);
    }
    lemma_none_running(end.states);
    assert forall|w: int| 0 <= w < workers implies #[trigger] markers_received(
        plan,
        receivers,
        w,
    ) == 1 by {
        assert(end.states[w] == WorkerState::Terminated);
    }
}

/// A pool of workers: the state of each, and how many end-of-work markers
/// they have consumed between them.
pub struct Pool {
    states: Vec<WorkerState>,
    markers: usize,
}

impl View for Pool {
    type V = PoolModel;

    closed spec fn view(&self) -> PoolModel {
        PoolModel { states: self.states@, markers: self.markers as nat }
    }
}

impl Pool {
    /// Every consumed marker has terminated a worker of its own: markers
    /// and running workers together are no more than the pool holds.
    pub open spec fn wf(&self) -> bool {
        self@.markers + running_count(self@.states) <= self@.states.len()
    }

    /// A pool of `size` running workers.
    pub fn new(size: usize) -> (pool: Pool)
        ensures
            pool.wf(),
            pool@ == fresh_pool(size as nat),
    {
        let mut states: Vec<WorkerState> = Vec::new();
        let mut i: usize = 0;
        while i < size
            invariant
                i <= size,
                states@ =~= fresh_pool(i as nat).states,
            decreases size - i,
        {
            states.push(WorkerState::Running);
            i = i + 1;
        }
        proof {
            lemma_fresh_pool_all_running(size as nat);
        }
        Pool { states, markers: 0 }
    }

    /// Number of workers in the pool.
    pub fn size(&self) -> (n: usize)
        ensures
            n == self@.states.len(),
    {
        self.states.len()
    }

    /// State of worker `worker`.
    pub fn state_of(&self, worker: usize) -> (state: WorkerState)
        requires
            worker < self@.states.len(),
        ensures
            state == self@.states[worker as int],
    {
        self.states[worker]
    }

    /// Number of end-of-work markers consumed so far.
    pub fn markers_consumed(&self) -> (n: usize)
        ensures
            n == self@.markers,
    {
        self.markers
    }

    /// Whether at least one worker is still running.
    pub fn is_active(&self) -> (active: bool)
        ensures
            active == (running_count(self@.states) > 0),
            active == exists|i: int|
                0 <= i < self@.states.len() && #[trigger] self@.states[i] == WorkerState::Running,
    {
        let mut i: usize = 0;
        while i < self.states.len()
            invariant
                i <= self.states@.len(),
                forall|k: int| 0 <= k < i ==> #[trigger] self.states@[k] == WorkerState::Terminated,
            decreases self.states@.len() - i,
        {
            if self.states[i] == WorkerState::Running {
                proof {
                    lemma_none_running(self.states@);
                    assert(self@.states[i as int] == WorkerState::Running);
                }
                return true;
            }
            i = i + 1;
        }
        proof {
            lemma_none_running(self.states@);
        }
        false
    }

    /// Worker `worker` receives `item`. A running worker that receives a
    /// candidate is told to check it; one that receives a marker terminates
    /// and the marker is counted. A terminated worker, or an index outside
    /// the pool, takes nothing and is told to stop.
    pub fn deliver(&mut self, worker: usize, item: WorkItem) -> (step: Step)
        requires
            old(self).wf(),
        ensures
            final(self).wf(),
            final(self)@ == deliver_model(old(self)@, worker as int, item),
            step == if worker < old(self)@.states.len() {
                next_step(old(self)@.states[worker as int], Some(item))
            } else {
                Step::Stop
            },
    {
        if worker >= self.states.len() {
            return Step::Stop;
        }
        let (state, step) = advance(self.states[worker], Some(item));
        if self.states[worker] == WorkerState::Running && state == WorkerState::Terminated {
            proof {
                lemma_terminate_one(self.states@, worker as int);
            }
            self.states.set(worker, state);
            self.markers = self.markers + 1;
        }
        step
    }
}

} // verus!

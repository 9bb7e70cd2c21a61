//! The coordination worker: a single sequential executor that turns each
//! task into exactly one placement-authority call, strictly in enqueue
//! order, off the replication hot path. Execution is fire-and-forget: a
//! failed call is discarded, and the next task still executes.

use vstd::prelude::*;

use crate::authority::AuthorityState;
use crate::authority::PdClient;
use crate::authority::PdError;
use crate::task::Task;

verus! {

/// What one executed task may do to the authority state: a heartbeat either
/// lands (upsert, last write wins) or fails and leaves it untouched; the two
/// ask operations are read-style and never change it.
pub open spec fn task_step(a: AuthorityState, t: Task, b: AuthorityState) -> bool {
    match t {
        Task::Heartbeat { store } => b == a.upsert_store(store@) || b == a,
        _ => b == a,
    }
}

/// The authority states reachable by executing `ts` strictly in order, one
/// task at a time, starting from `a`.
pub open spec fn run_trace(a: AuthorityState, ts: Seq<Task>, b: AuthorityState) -> bool
    decreases ts.len(),
{
    if ts.len() == 0 {
        b == a
    } else {
        exists|mid: AuthorityState|
            #[trigger] task_step(a, ts.first(), mid) && run_trace(mid, ts.drop_first(), b)
    }
}

/// Sequential execution composes: a trace of `ts` followed by one more step
/// is a trace of `ts` with that task appended.
pub proof fn lemma_run_trace_snoc(
    a: AuthorityState,
    ts: Seq<Task>,
    mid: AuthorityState,
    t: Task,
    b: AuthorityState,
)
    requires
        run_trace(a, ts, mid),
        task_step(mid, t, b),
    ensures
        run_trace(a, ts.push(t), b),
    decreases ts.len(),
{
    if ts.len() == 0 {
        assert(ts.push(t).first() == t);
        assert(ts.push(t).drop_first() =~= Seq::<Task>::empty());
        assert(task_step(a, t, b) && run_trace(b, ts.push(t).drop_first(), b));
    } else {
        let m1 = choose|m1: AuthorityState|
            #[trigger] task_step(a, ts.first(), m1) && run_trace(m1, ts.drop_first(), mid);
        lemma_run_trace_snoc(m1, ts.drop_first(), mid, t, b);
        assert(ts.push(t).first() == ts.first());
        assert(ts.push(t).drop_first() =~= ts.drop_first().push(t));
        assert(task_step(a, ts.push(t).first(), m1));
    }
}

/// The coordination worker. It owns the placement-authority capability and
/// executes one task at a time; there is no internal concurrency, so no two
/// of its authority calls ever interleave.
pub struct Runner<T: PdClient> {
    pub pd_client: T,
}

impl<T: PdClient> Runner<T> {
    /// A worker around the given placement-authority capability.
    pub fn new(pd_client: T) -> (r: Runner<T>)
        ensures
            r.pd_client == pd_client,
    {
        Runner { pd_client }
    }

    /// Execute one task: exactly one authority call, chosen by the variant.
    /// The call's result is handed back so the caller can log a transient
    /// failure and discard it; the worker itself never retries, never
    /// escalates, and remains usable. Any task is accepted in any state. A
    /// heartbeat that returns success has landed (upsert, last write wins);
    /// one that returns a failure left the authority untouched.
    pub fn run(&mut self, task: Task) -> (r: Result<(), PdError>)
        ensures
            task_step(old(self).pd_client.authority(), task, final (self).pd_client.authority()),
            !(task is Heartbeat) ==> final (self).pd_client == old(self).pd_client,
            task is Heartbeat && r is Ok ==> final (self).pd_client.authority() == old(
                self,
            ).pd_client.authority().upsert_store(task->store@),
            task is Heartbeat && r is Err ==> final (self).pd_client.authority() == old(
                self,
            ).pd_client.authority(),
    {
        match task {
            Task::AskChangePeer { region, peer, .. } => self.pd_client.ask_change_peer(
                region,
                peer,
            ),
            Task::AskSplit { region, split_key, peer } => self.pd_client.ask_split(
                region,
                split_key,
                peer,
            ),
            Task::Heartbeat { store } => self.pd_client.put_store(store),
        }
    }

    /// Drain a queue of tasks strictly in first-in, first-out order,
    /// fire-and-forget: each task executes exactly once, whether or not
    /// earlier ones failed, and failures are discarded; the resulting
    /// authority state is a trace of the whole queue in order.
    pub fn run_batch(&mut self, tasks: Vec<Task>)
        ensures
            run_trace(
                old(self).pd_client.authority(),
                tasks@,
                final (self).pd_client.authority(),
            ),
    {
        let ghost all = tasks@;
        let ghost a0 = self.pd_client.authority();
        let mut queue = tasks;
        let ghost mut done: int = 0;
        while queue.len() > 0
            invariant
                0 <= done <= all.len(),
                queue@ =~= all.skip(done),
                run_trace(a0, all.take(done), self.pd_client.authority()),
            decreases queue@.len(),
        {
            let ghost before = self.pd_client.authority();
            let t = queue.remove(0);
            proof {
                assert(t == all[done]);
            }
            let _ = self.run(t);
            proof {
                lemma_run_trace_snoc(
                    a0,
                    all.take(done),
                    before,
                    t,
                    self.pd_client.authority(),
                );
                assert(all.take(done).push(all[done]) =~= all.take(done + 1));
            }
            proof {
                done = done + 1;
            }
        }
        proof {
            assert(all.take(done) =~= all);
        }
    }
}

} // verus!

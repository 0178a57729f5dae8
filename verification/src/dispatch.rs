//! Round-robin choice of the worker that gets the next scanline.
//!
//! The dispatcher owns no queue. It decides which worker gets a command and
//! hands the decision back as a list of deliveries; whoever owns the workers'
//! queues performs them, in order.

use crate::job::RenderCommand;
use vstd::arithmetic::div_mod::lemma_basic_div;
use vstd::arithmetic::div_mod::lemma_div_minus_one;
use vstd::arithmetic::div_mod::lemma_mod_sub_multiples_vanish;
use vstd::arithmetic::div_mod::lemma_small_mod;
use vstd::prelude::*;

verus! {

/// One command on its way to one worker.
#[derive(Debug)]
pub struct Delivery<C> {
    /// Index of the worker whose queue gets the command.
    pub worker: usize,
    pub command: RenderCommand<C>,
}

/// The worker that is fed next, given the dispatcher's cursor: the cursor
/// itself, wrapped to the first worker once it has run past the last.
pub open spec fn feed_target(next_to_feed: int, workers: int) -> int {
    if next_to_feed >= workers {
        0
    } else {
        next_to_feed
    }
}

/// The cursor after `jobs` scanline jobs have been submitted.
pub open spec fn cursor_after(next_to_feed: int, workers: int, jobs: nat) -> int
    decreases jobs,
{
    if jobs == 0 {
        next_to_feed
    } else {
        cursor_after(feed_target(next_to_feed, workers) + 1, workers, (jobs - 1) as nat)
    }
}

/// How many of the next `jobs` scanline jobs go to `worker`.
pub open spec fn jobs_for_worker(next_to_feed: int, workers: int, jobs: nat, worker: int) -> nat
    decreases jobs,
{
    if jobs == 0 {
        0
    } else {
        let target = feed_target(next_to_feed, workers);
        let here: nat = if target == worker { 1 } else { 0 };
        here + jobs_for_worker(target + 1, workers, (jobs - 1) as nat, worker)
    }
}

/// A stop command for every worker, first worker first.
pub open spec fn stop_broadcast<C>(workers: nat) -> Seq<Delivery<C>> {
    Seq::new(workers, |i: int| (Delivery { worker: i as usize, command: RenderCommand::Stop }))
}

/// Decides, in turn, which worker renders which scanline.
pub struct Dispatcher {
    workers: usize,
    next_to_feed: usize,
}

impl Dispatcher {
    #[verifier::type_invariant]
    spec fn in_bounds(self) -> bool {
        0 < self.workers && self.next_to_feed <= self.workers
    }

    /// Size of the worker pool.
    pub closed spec fn workers(self) -> nat {
        self.workers as nat
    }

    /// The round-robin cursor: one past the worker that was fed last.
    pub closed spec fn next_to_feed(self) -> nat {
        self.next_to_feed as nat
    }

    /// A dispatcher for a pool of `num_threads` workers that has fed nobody yet.
    pub fn new(num_threads: usize) -> (dispatcher: Dispatcher)
        requires
            num_threads > 0,
        ensures
            dispatcher.workers() == num_threads,
            dispatcher.next_to_feed() == 0,
    {
        Dispatcher { workers: num_threads, next_to_feed: 0 }
    }

    /// Size of the worker pool.
    pub fn num_workers(&self) -> (n: usize)
        ensures
            n == self.workers(),
            n > 0,
    {
        proof {
            use_type_invariant(self);
        }
        self.workers
    }

    /// Routes one command. A stop command goes to every worker, once each, and
    /// leaves the cursor where it was. A scanline job goes to the worker under
    /// the cursor, and the cursor moves one worker on.
    pub fn submit_job<C>(&mut self, command: RenderCommand<C>) -> (deliveries: Vec<Delivery<C>>)
        ensures
            final(self).workers() == old(self).workers(),
            0 < final(self).workers(),
            final(self).next_to_feed() <= final(self).workers(),
            command is Stop ==> deliveries@ == stop_broadcast::<C>(old(self).workers())
                && final(self).next_to_feed() == old(self).next_to_feed(),
            command is Line ==> deliveries@ == seq![
                (Delivery {
                    worker: feed_target(
                        old(self).next_to_feed() as int,
                        old(self).workers() as int,
                    ) as usize,
                    command,
                }),
            ] && final(self).next_to_feed() == feed_target(
                old(self).next_to_feed() as int,
                old(self).workers() as int,
            ) + 1,
    {
        proof {
            use_type_invariant(&*self);
        }
        let mut deliveries: Vec<Delivery<C>> = Vec::new();
        match command {
            RenderCommand::Stop => {
                let workers: usize = self.workers;
                let mut worker: usize = 0;
                while worker < workers
                    invariant
                        worker <= workers,
                        deliveries@ == stop_broadcast::<C>(worker as nat),
                    decreases workers - worker,
                {
                    deliveries.push(Delivery { worker, command: RenderCommand::Stop });
                    worker += 1;
                    assert(deliveries@ =~= stop_broadcast::<C>(worker as nat));
                }
            },
            RenderCommand::Line { line_num, context } => {
                let target: usize = if self.next_to_feed == self.workers {
                    0
                } else {
                    self.next_to_feed
                };
                self.next_to_feed = target + 1;
                deliveries.push(
                    Delivery { worker: target, command: RenderCommand::Line { line_num, context } },
                );
                assert(deliveries@ =~= seq![
                    (Delivery { worker: target, command }),
                ]);
            },
        }
        deliveries
    }
}

/// Within one pass over the pool, a worker gets a job exactly when the pass
/// reaches it.
proof fn lemma_partial_pass(next_to_feed: int, workers: int, jobs: nat, worker: int)
    requires
        0 < workers,
        0 <= next_to_feed <= workers,
        0 <= worker < workers,
        feed_target(next_to_feed, workers) + jobs <= workers,
    ensures
        jobs > 0 ==> cursor_after(next_to_feed, workers, jobs) == feed_target(next_to_feed, workers)
            + jobs,
        jobs_for_worker(next_to_feed, workers, jobs, worker) == if feed_target(
            next_to_feed,
            workers,
        ) <= worker < feed_target(next_to_feed, workers) + jobs {
            1nat
        } else {
            0nat
        },
    decreases jobs,
{
    if jobs > 0 {
        let target = feed_target(next_to_feed, workers);
        lemma_partial_pass(target + 1, workers, (jobs - 1) as nat, worker);
        if jobs == 1 {
            assert(cursor_after(target + 1, workers, 0) == target + 1);
        }
    }
}

/// A run of jobs can be cut in two at any point.
proof fn lemma_split_run(next_to_feed: int, workers: int, first: nat, second: nat, worker: int)
    ensures
        jobs_for_worker(next_to_feed, workers, first + second, worker) == jobs_for_worker(
            next_to_feed,
            workers,
            first,
            worker,
        ) + jobs_for_worker(cursor_after(next_to_feed, workers, first), workers, second, worker),
        cursor_after(next_to_feed, workers, first + second) == cursor_after(
            cursor_after(next_to_feed, workers, first),
            workers,
            second,
        ),
    decreases first,
{
    if first > 0 {
        let target = feed_target(next_to_feed, workers);
        lemma_split_run(target + 1, workers, (first - 1) as nat, second, worker);
        assert((first + second - 1) as nat == (first - 1) as nat + second);
    }
}

/// One job per worker, from any cursor, feeds every worker once and leaves
/// the cursor on the same target.
proof fn lemma_full_pass(next_to_feed: int, workers: int, worker: int)
    requires
        0 < workers,
        0 <= next_to_feed <= workers,
        0 <= worker < workers,
    ensures
        jobs_for_worker(next_to_feed, workers, workers as nat, worker) == 1,
        0 <= cursor_after(next_to_feed, workers, workers as nat) <= workers,
        feed_target(cursor_after(next_to_feed, workers, workers as nat), workers) == feed_target(
            next_to_feed,
            workers,
        ),
{
    let target = feed_target(next_to_feed, workers);
    let to_end = (workers - target) as nat;
    let from_start = target as nat;
    lemma_partial_pass(next_to_feed, workers, to_end, worker);
    lemma_partial_pass(workers, workers, from_start, worker);
    lemma_split_run(next_to_feed, workers, to_end, from_start, worker);
    assert(to_end + from_start == workers as nat);
    assert(cursor_after(next_to_feed, workers, to_end) == workers);
}

/// Round-robin fairness: whatever the cursor, a number of scanline jobs that
/// is a multiple of the pool size is shared out evenly, each worker getting
/// `jobs / workers` of them.
pub proof fn lemma_round_robin_is_even(next_to_feed: int, workers: int, jobs: nat, worker: int)
    requires
        0 < workers,
        0 <= next_to_feed <= workers,
        0 <= worker < workers,
        jobs % (workers as nat) == 0,
    ensures
        jobs_for_worker(next_to_feed, workers, jobs, worker) == jobs / (workers as nat),
    decreases jobs,
{
    let pool = workers as nat;
    if jobs == 0 {
        lemma_basic_div(0, workers);
    } else {
        if jobs < pool {
            lemma_small_mod(jobs, pool);
        }
        lemma_mod_sub_multiples_vanish(jobs as int, workers);
        lemma_div_minus_one(jobs as int, workers);
        assert((jobs - pool) % workers == 0);
        assert((jobs - pool) / workers == jobs as int / workers - 1);
        let rest = (jobs - pool) as nat;
        lemma_full_pass(next_to_feed, workers, worker);
        lemma_split_run(next_to_feed, workers, pool, rest, worker);
        let cursor = cursor_after(next_to_feed, workers, pool);
        lemma_round_robin_is_even(cursor, workers, rest, worker);
    }
}

} // verus!

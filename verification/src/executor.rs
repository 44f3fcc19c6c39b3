//! Executors: where the nodes that are ready wait for a thread.
//!
//! A thread pool has worker threads of its own. A delegating executor has
//! none: it hands its nodes back to the host thread. Threads and clocks are
//! outside; time comes in as microseconds.

use crate::config::StatsLevel;
use crate::engine::copy_numbers;
use crate::text::{cat3, decimal, decimal_of_size};
use std::collections::VecDeque;
use vstd::prelude::*;

verus! {

/// The executor of nodes that name none.
pub const DEFAULT_EXECUTOR_NAME: &'static str = "default";

// ----------------------------------------------------------------- statistics

/// The statistics of an executor.
pub struct ExecutorStats {
    full: bool,
    queued: usize,
    running: usize,
    peak_queued: usize,
    completed: u64,
    total_wait_us: u64,
    total_execution_us: u64,
    queued_since_us: u64,
}

/// The statistics of an executor at one moment.
#[derive(Debug, Clone, Copy, PartialEq, Eq, Structural)]
pub struct ExecutorStatsSnapshot {
    pub queued: usize,
    pub running: usize,
    pub peak_queued: usize,
    pub completed: u64,
    pub total_wait_us: u64,
    pub total_execution_us: u64,
    /// How long something has been waiting without a break.
    pub queued_for_us: u64,
}

#[verifier::ext_equal]
pub struct StatsView {
    /// Whether times and peaks are kept.
    pub full: bool,
    pub queued: usize,
    pub running: usize,
    pub peak: usize,
    pub completed: u64,
    pub wait_us: u64,
    pub execution_us: u64,
    /// One more than the time since when something waits; zero if nothing
    /// does.
    pub since: u64,
}

/// One more; the counters start again at zero past their end.
pub open spec fn counted_up(n: usize) -> usize {
    if n == usize::MAX {
        0
    } else {
        (n + 1) as usize
    }
}

/// One less; the counters go on from their end below zero.
pub open spec fn counted_down(n: usize) -> usize {
    if n == 0 {
        usize::MAX
    } else {
        (n - 1) as usize
    }
}

/// The sum of two times, starting again at zero past the end.
pub open spec fn time_sum(a: u64, b: u64) -> u64 {
    if a + b > u64::MAX {
        (a + b - u64::MAX - 1) as u64
    } else {
        (a + b) as u64
    }
}

impl StatsView {
    /// Statistics that nothing was counted in.
    pub open spec fn blank(full: bool) -> StatsView {
        StatsView {
            full,
            queued: 0,
            running: 0,
            peak: 0,
            completed: 0,
            wait_us: 0,
            execution_us: 0,
            since: 0,
        }
    }

    /// After something was put in line at `now`.
    pub open spec fn enqueued(self, now: u64) -> StatsView {
        let queued = counted_up(self.queued);
        if self.full {
            StatsView {
                queued,
                since: if self.queued == 0 {
                    if now == u64::MAX {
                        now
                    } else {
                        (now + 1) as u64
                    }
                } else {
                    self.since
                },
                peak: if queued > self.peak {
                    queued
                } else {
                    self.peak
                },
                ..self
            }
        } else {
            StatsView { queued, ..self }
        }
    }

    /// After `n` things were put in line at `now`.
    pub open spec fn all_enqueued(self, n: nat, now: u64) -> StatsView
        decreases n,
    {
        if n == 0 {
            self
        } else {
            self.all_enqueued((n - 1) as nat, now).enqueued(now)
        }
    }

    /// After something left the line, having waited.
    pub open spec fn started(self, wait: Option<u64>) -> StatsView {
        StatsView {
            queued: counted_down(self.queued),
            running: counted_up(self.running),
            since: if self.full && self.queued == 1 {
                0
            } else {
                self.since
            },
            wait_us: match wait {
                Some(w) => time_sum(self.wait_us, w),
                None => self.wait_us,
            },
            ..self
        }
    }

    /// After something was completed.
    pub open spec fn finished(self, execution: Option<u64>) -> StatsView {
        let running = counted_down(self.running);
        if self.full {
            StatsView {
                running,
                completed: if self.completed == u64::MAX {
                    0
                } else {
                    (self.completed + 1) as u64
                },
                execution_us: match execution {
                    Some(x) => time_sum(self.execution_us, x),
                    None => self.execution_us,
                },
                ..self
            }
        } else {
            StatsView { running, ..self }
        }
    }

    /// After `count` things were thrown out of the line.
    pub open spec fn dropped(self, count: usize) -> StatsView {
        StatsView {
            queued: if self.queued < count {
                0
            } else {
                (self.queued - count) as usize
            },
            since: if self.full && self.queued <= count {
                0
            } else {
                self.since
            },
            ..self
        }
    }

    /// What the statistics say at `now`.
    pub open spec fn shown(self, now: u64) -> ExecutorStatsSnapshot {
        ExecutorStatsSnapshot {
            queued: self.queued,
            running: self.running,
            peak_queued: self.peak,
            completed: self.completed,
            total_wait_us: self.wait_us,
            total_execution_us: self.execution_us,
            queued_for_us: if !self.full || self.since == 0 || now < self.since - 1 {
                0
            } else {
                (now - (self.since - 1)) as u64
            },
        }
    }
}

impl View for ExecutorStats {
    type V = StatsView;

    closed spec fn view(&self) -> StatsView {
        StatsView {
            full: self.full,
            queued: self.queued,
            running: self.running,
            peak: self.peak_queued,
            completed: self.completed,
            wait_us: self.total_wait_us,
            execution_us: self.total_execution_us,
            since: self.queued_since_us,
        }
    }
}

impl ExecutorStats {
    /// Statistics that nothing was counted in.
    pub fn new(level: StatsLevel) -> (s: ExecutorStats)
        ensures
            s@ == StatsView::blank(level is Full),
    {
        ExecutorStats {
            full: level == StatsLevel::Full,
            queued: 0,
            running: 0,
            peak_queued: 0,
            completed: 0,
            total_wait_us: 0,
            total_execution_us: 0,
            queued_since_us: 0,
        }
    }

    /// Whether times and peaks are kept.
    pub fn full(&self) -> (r: bool)
        ensures
            r == self@.full,
    {
        self.full
    }

    /// Counts something that was put in line.
    pub fn enqueued(&mut self, now: u64)
        ensures
            final(self)@ == old(self)@.enqueued(now),
    {
        let before: usize = self.queued;
        self.queued = before.wrapping_add(1);
        if !self.full {
            return ;
        }
        if before == 0 {
            self.queued_since_us = now.saturating_add(1);
        }
        if self.queued > self.peak_queued {
            self.peak_queued = self.queued;
        }
    }

    /// Counts something that left the line.
    pub fn started(&mut self, wait: Option<u64>)
        ensures
            final(self)@ == old(self)@.started(wait),
    {
        let before: usize = self.queued;
        self.queued = before.wrapping_sub(1);
        if self.full && before == 1 {
            self.queued_since_us = 0;
        }
        self.running = self.running.wrapping_add(1);
        if let Some(w) = wait {
            self.total_wait_us = self.total_wait_us.wrapping_add(w);
        }
    }

    /// Counts something that was completed.
    pub fn completed(&mut self, execution: Option<u64>)
        ensures
            final(self)@ == old(self)@.finished(execution),
    {
        self.running = self.running.wrapping_sub(1);
        if !self.full {
            return ;
        }
        self.completed = self.completed.wrapping_add(1);
        if let Some(x) = execution {
            self.total_execution_us = self.total_execution_us.wrapping_add(x);
        }
    }

    /// Counts what was thrown out of the line.
    pub fn dropped(&mut self, count: usize)
        ensures
            final(self)@ == old(self)@.dropped(count),
    {
        let before: usize = self.queued;
        self.queued = before.saturating_sub(count);
        if self.full && before <= count {
            self.queued_since_us = 0;
        }
    }

    /// What the statistics say at `now`.
    pub fn snapshot(&self, now: u64) -> (r: ExecutorStatsSnapshot)
        ensures
            r == self@.shown(now),
    {
        ExecutorStatsSnapshot {
            queued: self.queued,
            running: self.running,
            peak_queued: self.peak_queued,
            completed: self.completed,
            total_wait_us: self.total_wait_us,
            total_execution_us: self.total_execution_us,
            queued_for_us: if !self.full || self.queued_since_us == 0 {
                0
            } else {
                now.saturating_sub(self.queued_since_us - 1)
            },
        }
    }

    /// How many things are in line.
    pub fn queued(&self) -> (r: usize)
        ensures
            r == self@.queued,
    {
        self.queued
    }

    /// Whether something is being done.
    pub fn has_running(&self) -> (r: bool)
        ensures
            r == (self@.running != 0),
    {
        self.running != 0
    }

    /// Forgets what was counted.
    pub fn reset(&mut self)
        ensures
            final(self)@ == StatsView::blank(old(self)@.full),
    {
        self.queued = 0;
        self.running = 0;
        self.peak_queued = 0;
        self.completed = 0;
        self.total_wait_us = 0;
        self.total_execution_us = 0;
        self.queued_since_us = 0;
    }
}

// -------------------------------------------------------- delegating executor

/// A node in line, with the time it came.
#[derive(Debug, Clone, Copy, PartialEq, Eq, Structural)]
pub struct QueuedNode {
    pub enqueued_at: u64,
    pub node: usize,
}

/// An executor without threads: the host thread takes its nodes.
pub struct DelegatingExecutor {
    name: String,
    queue: VecDeque<QueuedNode>,
    stats: ExecutorStats,
}

#[verifier::ext_equal]
pub struct DelegatingView {
    pub name: Seq<char>,
    pub queue: Seq<QueuedNode>,
    pub stats: StatsView,
}

impl View for DelegatingExecutor {
    type V = DelegatingView;

    closed spec fn view(&self) -> DelegatingView {
        DelegatingView { name: self.name@, queue: self.queue@, stats: self.stats@ }
    }
}

impl DelegatingView {
    /// With a node put in line.
    pub open spec fn submitted(self, node: usize, now: u64) -> DelegatingView {
        DelegatingView {
            queue: self.queue.push(QueuedNode { enqueued_at: now, node }),
            stats: self.stats.enqueued(now),
            ..self
        }
    }

    /// With the node that came first taken, and that node.
    pub open spec fn taken(self, now: u64) -> (DelegatingView, Option<usize>) {
        if self.queue.len() == 0 {
            (self, None)
        } else {
            (
                DelegatingView {
                    queue: self.queue.drop_first(),
                    stats: self.stats.started(Some(waited(self.queue[0].enqueued_at, now))),
                    ..self
                },
                Some(self.queue[0].node),
            )
        }
    }

    /// With a node that was taken noted as through.
    pub open spec fn completed(self, execution: u64) -> DelegatingView {
        DelegatingView { stats: self.stats.finished(Some(execution)), ..self }
    }

    /// With nothing in line.
    pub open spec fn cleared(self) -> DelegatingView {
        DelegatingView {
            queue: Seq::empty(),
            stats: self.stats.dropped(self.queue.len() as usize),
            ..self
        }
    }

    /// With what was counted forgotten.
    pub open spec fn forgotten(self) -> DelegatingView {
        DelegatingView { stats: StatsView::blank(self.stats.full), ..self }
    }

    /// Whether the count says how many nodes are in line.
    pub open spec fn counted(self) -> bool {
        self.stats.queued == self.queue.len()
    }
}

/// How long something waited.
pub open spec fn waited(since: u64, now: u64) -> u64 {
    if now < since {
        0
    } else {
        (now - since) as u64
    }
}

/// The nodes of a line.
pub open spec fn nodes_in(queue: Seq<QueuedNode>) -> Seq<usize> {
    Seq::new(queue.len(), |i: int| queue[i].node)
}

impl DelegatingExecutor {
    /// An executor that nothing waits in.
    pub fn new(name: &str) -> (r: DelegatingExecutor)
        ensures
            r@ == (DelegatingView {
                name: name@,
                queue: Seq::empty(),
                stats: StatsView::blank(true),
            }),
    {
        DelegatingExecutor {
            name: name.to_owned(),
            queue: VecDeque::new(),
            stats: ExecutorStats::new(StatsLevel::Full),
        }
    }

    pub fn name(&self) -> (r: &str)
        ensures
            r@ == self@.name,
    {
        self.name.as_str()
    }

    /// Puts a node in line. It is never refused.
    pub fn submit(&mut self, node: usize, now: u64) -> (r: bool)
        ensures
            r,
            final(self)@ == old(self)@.submitted(node, now),
    {
        self.queue.push_back(QueuedNode { enqueued_at: now, node });
        self.stats.enqueued(now);
        true
    }

    /// How many nodes are in line.
    pub fn pending(&self) -> (r: usize)
        ensures
            r == self@.queue.len(),
    {
        self.queue.len()
    }

    /// Takes the node that came first.
    pub fn take(&mut self, now: u64) -> (r: Option<usize>)
        ensures
            (final(self)@, r) == old(self)@.taken(now),
    {
        match self.queue.pop_front() {
            Some(first) => {
                self.stats.started(Some(now.saturating_sub(first.enqueued_at)));
                assert(self.queue@ =~= old(self)@.queue.drop_first());
                Some(first.node)
            },
            None => None,
        }
    }

    /// Notes that a node that was taken is through.
    pub fn complete(&mut self, execution: u64)
        ensures
            final(self)@ == old(self)@.completed(execution),
    {
        self.stats.completed(Some(execution));
    }

    pub fn stats(&self, now: u64) -> (r: ExecutorStatsSnapshot)
        ensures
            r == self@.stats.shown(now),
    {
        self.stats.snapshot(now)
    }

    /// Whether something waits or is being done.
    pub fn has_pending_work(&self) -> (r: bool)
        ensures
            r == (self@.queue.len() > 0 || self@.stats.running != 0),
    {
        self.queue.len() > 0 || self.stats.has_running()
    }

    /// The nodes in line, in order.
    pub fn queued_nodes(&self) -> (r: Vec<usize>)
        ensures
            r@ == nodes_in(self@.queue),
    {
        let mut out: Vec<usize> = Vec::new();
        for i in 0..self.queue.len()
            invariant
                out@ == nodes_in(self@.queue).take(i as int),
        {
            out.push(self.queue[i].node);
            assert(out@ =~= nodes_in(self@.queue).take(i + 1));
        }
        assert(out@ =~= nodes_in(self@.queue));
        out
    }

    /// Throws everything out of the line.
    pub fn clear(&mut self)
        ensures
            final(self)@ == old(self)@.cleared(),
    {
        let count: usize = self.queue.len();
        self.queue.clear();
        self.stats.dropped(count);
    }

    /// Forgets what was counted.
    pub fn reset_stats(&mut self)
        ensures
            final(self)@ == old(self)@.forgotten(),
    {
        self.stats.reset();
    }
}

// ---------------------------------------------------------------- thread pool

/// What a worker thread is to do.
#[derive(Debug, Clone, Copy, PartialEq, Eq, Structural)]
pub enum PoolTask {
    /// Run a node.
    Run(usize),
    /// Wake a source node, if it still sleeps in that generation.
    WakeSource(usize, u64),
}

/// A task in line, with the time it came.
#[derive(Debug, Clone, Copy, PartialEq, Eq, Structural)]
pub struct QueuedTask {
    pub enqueued_at: u64,
    pub task: PoolTask,
}

/// A task for later.
#[derive(Debug, Clone, Copy, PartialEq, Eq, Structural)]
pub struct DelayedTask {
    pub deadline: u64,
    pub task: PoolTask,
}

/// What a worker thread finds.
#[derive(Debug, Clone, Copy, PartialEq, Eq, Structural)]
pub enum TakeStep {
    Got(QueuedTask),
    /// The pool was shut down and is empty: the thread ends.
    Stop,
    /// Nothing to do for so many microseconds, or until something comes.
    Wait(Option<u64>),
}

/// A pool of worker threads.
pub struct ThreadPool {
    name: String,
    num_threads: usize,
    affinity: Vec<usize>,
    priority: i32,
    ready: VecDeque<QueuedTask>,
    delayed: Vec<DelayedTask>,
    stop: bool,
    stats: ExecutorStats,
    launched: bool,
}

#[verifier::ext_equal]
pub struct PoolView {
    pub name: Seq<char>,
    pub num_threads: usize,
    pub affinity: Seq<usize>,
    pub priority: i32,
    pub ready: Seq<QueuedTask>,
    pub delayed: Seq<DelayedTask>,
    pub stopped: bool,
    pub stats: StatsView,
    /// Whether the worker threads are there.
    pub launched: bool,
}

impl View for ThreadPool {
    type V = PoolView;

    closed spec fn view(&self) -> PoolView {
        PoolView {
            name: self.name@,
            num_threads: self.num_threads,
            affinity: self.affinity@,
            priority: self.priority,
            ready: self.ready@,
            delayed: self.delayed@,
            stopped: self.stop,
            stats: self.stats@,
            launched: self.launched,
        }
    }
}

/// Whether the tasks for later are in the order of their times.
pub open spec fn by_deadline(delayed: Seq<DelayedTask>) -> bool {
    forall|i: int, j: int|
        0 <= i <= j < delayed.len() ==> (#[trigger] delayed[i]).deadline <= (
        #[trigger] delayed[j]).deadline
}

/// How many tasks at the front of the list are due.
pub open spec fn due(delayed: Seq<DelayedTask>, now: u64) -> nat
    decreases delayed.len(),
{
    if delayed.len() == 0 || delayed[0].deadline > now {
        0
    } else {
        1 + due(delayed.drop_first(), now)
    }
}

/// Tasks that came in line at `now`.
pub open spec fn in_line_at(delayed: Seq<DelayedTask>, now: u64) -> Seq<QueuedTask> {
    Seq::new(delayed.len(), |i: int| QueuedTask { enqueued_at: now, task: delayed[i].task })
}

/// The time `delay` after `now`. A delay beyond the end of time is halved
/// until it fits.
pub open spec fn deadline_after(now: u64, delay: u64) -> u64
    decreases delay,
{
    if now + delay <= u64::MAX {
        (now + delay) as u64
    } else {
        deadline_after(now, delay / 2)
    }
}

/// Where a task for `deadline` belongs: behind all that are due no later.
pub open spec fn place_for(delayed: Seq<DelayedTask>, deadline: u64) -> nat {
    due(delayed, deadline)
}

/// The nodes that are to be run, in order.
pub open spec fn run_nodes_of(ready: Seq<QueuedTask>) -> Seq<usize>
    decreases ready.len(),
{
    if ready.len() == 0 {
        Seq::empty()
    } else {
        match ready.last().task {
            PoolTask::Run(n) => run_nodes_of(ready.drop_last()).push(n),
            PoolTask::WakeSource(_, _) => run_nodes_of(ready.drop_last()),
        }
    }
}

impl PoolView {
    /// With every task that is due put in line.
    pub open spec fn woken(self, now: u64) -> PoolView {
        let n = due(self.delayed, now);
        PoolView {
            ready: self.ready + in_line_at(self.delayed.take(n as int), now),
            delayed: self.delayed.skip(n as int),
            stats: self.stats.all_enqueued(n, now),
            ..self
        }
    }

    /// What a worker thread finds at `now`.
    pub open spec fn taken(self, now: u64) -> (PoolView, TakeStep) {
        let p = self.woken(now);
        if p.ready.len() > 0 {
            (
                PoolView {
                    ready: p.ready.drop_first(),
                    stats: p.stats.started(Some(waited(p.ready[0].enqueued_at, now))),
                    ..p
                },
                TakeStep::Got(p.ready[0]),
            )
        } else if p.stopped {
            (p, TakeStep::Stop)
        } else if p.delayed.len() > 0 {
            (p, TakeStep::Wait(Some(waited(now, p.delayed[0].deadline))))
        } else {
            (p, TakeStep::Wait(None))
        }
    }

    /// With a task put in line.
    pub open spec fn lined_up(self, task: PoolTask, now: u64) -> PoolView {
        PoolView {
            ready: self.ready.push(QueuedTask { enqueued_at: now, task }),
            stats: self.stats.enqueued(now),
            ..self
        }
    }

    /// With a node put in line, unless the pool was shut down.
    pub open spec fn submitted(self, node: usize, now: u64) -> PoolView {
        if self.stopped {
            self
        } else {
            self.lined_up(PoolTask::Run(node), now)
        }
    }

    /// With the wake-up of a source node entered, unless the pool was shut
    /// down.
    pub open spec fn wake_submitted(
        self,
        node: usize,
        generation: u64,
        delay_us: u64,
        now: u64,
    ) -> PoolView {
        let task = PoolTask::WakeSource(node, generation);
        if self.stopped {
            self
        } else if delay_us == 0 {
            self.lined_up(task, now)
        } else {
            self.deferred(deadline_after(now, delay_us), task)
        }
    }

    /// With a task noted as through.
    pub open spec fn completed(self, execution: u64) -> PoolView {
        PoolView { stats: self.stats.finished(Some(execution)), ..self }
    }

    /// With nothing for later.
    pub open spec fn undelayed(self) -> PoolView {
        PoolView { delayed: Seq::empty(), ..self }
    }

    /// With what was counted forgotten.
    pub open spec fn forgotten(self) -> PoolView {
        PoolView { stats: StatsView::blank(self.stats.full), ..self }
    }

    /// Shut down.
    pub open spec fn shut(self) -> PoolView {
        PoolView { stopped: true, launched: false, ..self }
    }

    /// Whether the count says how many tasks are in line.
    pub open spec fn counted(self) -> bool {
        self.stats.queued == self.ready.len()
    }

    /// With a task for later entered.
    pub open spec fn deferred(self, deadline: u64, task: PoolTask) -> PoolView {
        PoolView {
            delayed: self.delayed.insert(
                place_for(self.delayed, deadline) as int,
                DelayedTask { deadline, task },
            ),
            ..self
        }
    }
}

proof fn lemma_due(delayed: Seq<DelayedTask>, now: u64)
    ensures
        due(delayed, now) <= delayed.len(),
        forall|i: int| 0 <= i < due(delayed, now) ==> (#[trigger] delayed[i]).deadline <= now,
        due(delayed, now) < delayed.len() ==> delayed[due(delayed, now) as int].deadline > now,
    decreases delayed.len(),
{
    if delayed.len() > 0 && delayed[0].deadline <= now {
        let rest = delayed.drop_first();
        lemma_due(rest, now);
        assert forall|i: int| 0 <= i < due(delayed, now) implies (#[trigger] delayed[i]).deadline
            <= now by {
            if i > 0 {
                assert(rest[i - 1] == delayed[i]);
            }
        }
    }
}

impl ThreadPool {
    #[verifier::type_invariant]
    closed spec fn in_order(self) -> bool {
        by_deadline(self.delayed@)
    }

    /// A pool that has not been launched. One without threads gets one.
    pub fn new(name: &str, num_threads: usize, affinity: Vec<usize>, priority: i32) -> (r:
        ThreadPool)
        ensures
            r@ == (PoolView {
                name: name@,
                num_threads: if num_threads == 0 {
                    1
                } else {
                    num_threads
                },
                affinity: affinity@,
                priority,
                ready: Seq::empty(),
                delayed: Seq::empty(),
                stopped: false,
                stats: StatsView::blank(true),
                launched: false,
            }),
    {
        ThreadPool {
            name: name.to_owned(),
            num_threads: if num_threads == 0 {
                1
            } else {
                num_threads
            },
            affinity,
            priority,
            ready: VecDeque::new(),
            delayed: Vec::new(),
            stop: false,
            stats: ExecutorStats::new(StatsLevel::Full),
            launched: false,
        }
    }

    pub fn name(&self) -> (r: &str)
        ensures
            r@ == self@.name,
    {
        self.name.as_str()
    }

    pub fn num_threads(&self) -> (r: usize)
        ensures
            r == self@.num_threads,
    {
        self.num_threads
    }

    /// The processors that the threads are bound to; none if empty.
    pub fn affinity(&self) -> (r: &Vec<usize>)
        ensures
            r@ == self@.affinity,
    {
        &self.affinity
    }

    /// The real time priority; zero leaves it alone.
    pub fn priority(&self) -> (r: i32)
        ensures
            r == self@.priority,
    {
        self.priority
    }

    /// Says whether the worker threads are to be created now: the first time
    /// only.
    pub fn start(&mut self) -> (r: bool)
        ensures
            r == !old(self)@.launched,
            final(self)@ == (PoolView { launched: true, ..old(self)@ }),
    {
        proof {
            use_type_invariant(&*self);
        }
        let first = !self.launched;
        self.launched = true;
        first
    }

    /// The name of a worker thread.
    pub fn thread_name(&self, index: usize) -> (r: String)
        ensures
            r@ == self@.name + "-"@ + decimal(index as nat),
    {
        cat3(self.name.as_str(), "-", decimal_of_size(index).as_str())
    }

    /// The processor that a worker thread is bound to: the processors take
    /// turns.
    pub fn cpu_of(&self, index: usize) -> (r: Option<usize>)
        ensures
            r == (if self@.affinity.len() == 0 {
                None
            } else {
                Some(self@.affinity[index as int % self@.affinity.len() as int])
            }),
    {
        if self.affinity.len() == 0 {
            None
        } else {
            Some(self.affinity[index % self.affinity.len()])
        }
    }

    /// Puts a node in line. A pool that was shut down refuses it.
    pub fn submit(&mut self, node: usize, now: u64) -> (r: bool)
        ensures
            r == !old(self)@.stopped,
            final(self)@ == old(self)@.submitted(node, now),
    {
        proof {
            use_type_invariant(&*self);
        }
        if self.stop {
            return false;
        }
        self.put(PoolTask::Run(node), now);
        true
    }

    /// Puts a task in line.
    fn put(&mut self, task: PoolTask, now: u64)
        ensures
            final(self)@ == old(self)@.lined_up(task, now),
    {
        proof {
            use_type_invariant(&*self);
        }
        let mut ready: VecDeque<QueuedTask> = VecDeque::new();
        std::mem::swap(&mut ready, &mut self.ready);
        ready.push_back(QueuedTask { enqueued_at: now, task });
        self.ready = ready;
        let mut stats = ExecutorStats::new(StatsLevel::Full);
        std::mem::swap(&mut stats, &mut self.stats);
        stats.enqueued(now);
        self.stats = stats;
    }

    /// Enters the wake-up of a source node, now or after a delay.
    pub fn submit_source_wake(
        &mut self,
        node: usize,
        generation: u64,
        delay_us: u64,
        now: u64,
    ) -> (r: bool)
        ensures
            r == !old(self)@.stopped,
            final(self)@ == old(self)@.wake_submitted(node, generation, delay_us, now),
    {
        proof {
            use_type_invariant(&*self);
        }
        if self.stop {
            return false;
        }
        let task = PoolTask::WakeSource(node, generation);
        if delay_us == 0 {
            self.put(task, now);
        } else {
            let mut delay: u64 = delay_us;
            while delay > u64::MAX - now
                invariant
                    deadline_after(now, delay) == deadline_after(now, delay_us),
                decreases delay,
            {
                delay = delay / 2;
            }
            let deadline: u64 = now + delay;
            let mut delayed: Vec<DelayedTask> = Vec::new();
            std::mem::swap(&mut delayed, &mut self.delayed);
            let place: usize = find_place(&delayed, deadline);
            proof {
                lemma_due(delayed@, deadline);
                lemma_insert_in_order(delayed@, DelayedTask { deadline, task });
            }
            delayed.insert(place, DelayedTask { deadline, task });
            self.delayed = delayed;
        }
        true
    }

    /// What a worker thread finds at `now`: first every task that is due
    /// comes in line, then the thread takes the one that came first.
    pub fn take(&mut self, now: u64) -> (r: TakeStep)
        ensures
            (final(self)@, r) == old(self)@.taken(now),
    {
        proof {
            use_type_invariant(&*self);
        }
        let ghost before = self@;
        let mut delayed: Vec<DelayedTask> = Vec::new();
        std::mem::swap(&mut delayed, &mut self.delayed);
        let mut ready: VecDeque<QueuedTask> = VecDeque::new();
        std::mem::swap(&mut ready, &mut self.ready);
        let mut stats = ExecutorStats::new(StatsLevel::Full);
        std::mem::swap(&mut stats, &mut self.stats);
        let count: usize = find_place(&delayed, now);
        proof {
            lemma_due(before.delayed, now);
        }
        assert(ready@ =~= before.ready + in_line_at(before.delayed.take(0), now));
        for i in 0..count
            invariant
                count == due(before.delayed, now),
                count <= before.delayed.len(),
                delayed@ == before.delayed,
                ready@ == before.ready + in_line_at(before.delayed.take(i as int), now),
                stats@ == before.stats.all_enqueued(i as nat, now),
        {
            ready.push_back(QueuedTask { enqueued_at: now, task: delayed[i].task });
            stats.enqueued(now);
            assert(ready@ =~= before.ready + in_line_at(before.delayed.take(i + 1), now));
        }
        let mut rest: Vec<DelayedTask> = Vec::new();
        for i in count..delayed.len()
            invariant
                count <= before.delayed.len(),
                delayed@ == before.delayed,
                rest@ == before.delayed.subrange(count as int, i as int),
        {
            rest.push(delayed[i]);
            assert(rest@ =~= before.delayed.subrange(count as int, i + 1));
        }
        assert(rest@ =~= before.delayed.skip(count as int));
        let first = ready.pop_front();
        let ghost woken = before.woken(now);
        if let Some(t) = first {
            stats.started(Some(now.saturating_sub(t.enqueued_at)));
            assert(ready@ =~= woken.ready.drop_first());
        }
        let next: Option<u64> = if rest.len() > 0 {
            Some(rest[0].deadline.saturating_sub(now))
        } else {
            None
        };
        assert(by_deadline(rest@)) by {
            assert forall|i: int, j: int| 0 <= i <= j < rest@.len() implies (
            #[trigger] rest@[i]).deadline <= (#[trigger] rest@[j]).deadline by {
                assert(rest@[i] == before.delayed[i + count]);
                assert(rest@[j] == before.delayed[j + count]);
            }
        }
        self.delayed = rest;
        self.ready = ready;
        self.stats = stats;
        match first {
            Some(t) => TakeStep::Got(t),
            None => if self.stop {
                TakeStep::Stop
            } else {
                TakeStep::Wait(next)
            },
        }
    }

    /// How many tasks are in line.
    pub fn pending(&self) -> (r: usize)
        ensures
            r == self@.stats.queued,
    {
        self.stats.queued()
    }

    /// Notes that a task is through.
    pub fn complete(&mut self, execution: u64)
        ensures
            final(self)@ == old(self)@.completed(execution),
    {
        proof {
            use_type_invariant(&*self);
        }
        let mut stats = ExecutorStats::new(StatsLevel::Full);
        std::mem::swap(&mut stats, &mut self.stats);
        stats.completed(Some(execution));
        self.stats = stats;
    }

    /// Throws the tasks for later away.
    pub fn clear_delayed(&mut self)
        ensures
            final(self)@ == old(self)@.undelayed(),
    {
        self.delayed = Vec::new();
    }

    pub fn stats(&self, now: u64) -> (r: ExecutorStatsSnapshot)
        ensures
            r == self@.stats.shown(now),
    {
        self.stats.snapshot(now)
    }

    /// Whether something waits, is for later or is being done.
    pub fn has_pending_work(&self) -> (r: bool)
        ensures
            r == (self@.ready.len() > 0 || self@.delayed.len() > 0 || self@.stats.running != 0),
    {
        self.ready.len() > 0 || self.delayed.len() > 0 || self.stats.has_running()
    }

    /// The nodes that are to be run, in order.
    pub fn queued_nodes(&self) -> (r: Vec<usize>)
        ensures
            r@ == run_nodes_of(self@.ready),
    {
        let mut out: Vec<usize> = Vec::new();
        let ghost all = self@.ready;
        assert(all.take(0) =~= Seq::empty());
        for i in 0..self.ready.len()
            invariant
                all == self@.ready,
                out@ == run_nodes_of(all.take(i as int)),
        {
            proof {
                assert(all.take(i + 1).drop_last() =~= all.take(i as int));
                assert(all.take(i + 1).last() == self.ready@[i as int]);
            }
            match self.ready[i].task {
                PoolTask::Run(n) => out.push(n),
                PoolTask::WakeSource(_, _) => {},
            }
        }
        assert(all.take(all.len() as int) =~= all);
        out
    }

    /// Forgets what was counted.
    pub fn reset_stats(&mut self)
        ensures
            final(self)@ == old(self)@.forgotten(),
    {
        proof {
            use_type_invariant(&*self);
        }
        let mut stats = ExecutorStats::new(StatsLevel::Full);
        std::mem::swap(&mut stats, &mut self.stats);
        stats.reset();
        self.stats = stats;
    }

    /// Shuts the pool down. What is in line is still done; nothing more is
    /// taken. To do it again changes nothing.
    pub fn shutdown(&mut self)
        ensures
            final(self)@ == old(self)@.shut(),
    {
        proof {
            use_type_invariant(&*self);
        }
        self.stop = true;
        self.launched = false;
    }
}

/// How many tasks at the front of the list are due.
fn find_place(delayed: &Vec<DelayedTask>, deadline: u64) -> (r: usize)
    ensures
        r == due(delayed@, deadline),
{
    let mut i: usize = 0;
    assert(delayed@.skip(0) =~= delayed@);
    while i < delayed.len() && delayed[i].deadline <= deadline
        invariant
            i <= delayed@.len(),
            due(delayed@, deadline) == i + due(delayed@.skip(i as int), deadline),
        decreases delayed@.len() - i,
    {
        assert(delayed@.skip(i as int).drop_first() =~= delayed@.skip(i + 1));
        i += 1;
    }
    i
}

proof fn lemma_insert_in_order(delayed: Seq<DelayedTask>, task: DelayedTask)
    requires
        by_deadline(delayed),
    ensures
        by_deadline(delayed.insert(due(delayed, task.deadline) as int, task)),
{
    let at = due(delayed, task.deadline) as int;
    lemma_due(delayed, task.deadline);
    let after = delayed.insert(at, task);
    assert forall|i: int, j: int| 0 <= i <= j < after.len() implies (
    #[trigger] after[i]).deadline <= (#[trigger] after[j]).deadline by {
        if j < at {
            assert(after[i] == delayed[i] && after[j] == delayed[j]);
        } else if i > at {
            assert(after[i] == delayed[i - 1] && after[j] == delayed[j - 1]);
        } else if i < at && j > at {
            assert(after[i] == delayed[i] && after[j] == delayed[j - 1]);
        } else if i < at {
            assert(after[i] == delayed[i]);
        } else if j > at {
            assert(after[j] == delayed[j - 1]);
            assert(delayed[at].deadline <= delayed[j - 1].deadline);
        }
    }
}

// -------------------------------------------------------------- either of both

/// An executor.
pub enum Executor {
    Pool(ThreadPool),
    Delegating(DelegatingExecutor),
}

#[verifier::ext_equal]
pub enum ExecutorState {
    Pool(PoolView),
    Delegating(DelegatingView),
}

impl View for Executor {
    type V = ExecutorState;

    open spec fn view(&self) -> ExecutorState {
        match *self {
            Executor::Pool(p) => ExecutorState::Pool(p@),
            Executor::Delegating(d) => ExecutorState::Delegating(d@),
        }
    }
}

impl ExecutorState {
    pub open spec fn name(self) -> Seq<char> {
        match self {
            ExecutorState::Pool(p) => p.name,
            ExecutorState::Delegating(d) => d.name,
        }
    }

    pub open spec fn stats(self) -> StatsView {
        match self {
            ExecutorState::Pool(p) => p.stats,
            ExecutorState::Delegating(d) => d.stats,
        }
    }

    /// With a node put in line, unless the executor refuses it, and whether
    /// it was taken.
    pub open spec fn submitted(self, node: usize, now: u64) -> (ExecutorState, bool) {
        match self {
            ExecutorState::Pool(p) => (ExecutorState::Pool(p.submitted(node, now)), !p.stopped),
            ExecutorState::Delegating(d) => (
                ExecutorState::Delegating(d.submitted(node, now)),
                true,
            ),
        }
    }

    /// With the wake-up of a source node entered; only a pool takes one.
    pub open spec fn wake_submitted(
        self,
        node: usize,
        generation: u64,
        delay_us: u64,
        now: u64,
    ) -> (ExecutorState, bool) {
        match self {
            ExecutorState::Pool(p) => (
                ExecutorState::Pool(p.wake_submitted(node, generation, delay_us, now)),
                !p.stopped,
            ),
            ExecutorState::Delegating(_) => (self, false),
        }
    }

    /// With the node that waits first for the host thread taken.
    pub open spec fn delegated(self, now: u64) -> (ExecutorState, Option<usize>) {
        match self {
            ExecutorState::Pool(_) => (self, None),
            ExecutorState::Delegating(d) => (
                ExecutorState::Delegating(d.taken(now).0),
                d.taken(now).1,
            ),
        }
    }

    /// As for a new run: nothing waits for the host thread, nothing is for
    /// later, nothing is counted.
    pub open spec fn renewed(self) -> ExecutorState {
        match self {
            ExecutorState::Pool(p) => ExecutorState::Pool(p.undelayed().forgotten()),
            ExecutorState::Delegating(d) => ExecutorState::Delegating(d.cleared().forgotten()),
        }
    }
}

impl Executor {
    pub fn name(&self) -> (r: &str)
        ensures
            r@ == self@.name(),
    {
        match self {
            Executor::Pool(p) => p.name(),
            Executor::Delegating(d) => d.name(),
        }
    }

    /// Whether the host thread does the work.
    pub fn is_delegating(&self) -> (r: bool)
        ensures
            r == (self@ is Delegating),
    {
        matches!(self, Executor::Delegating(_))
    }

    /// How many threads the executor has of its own.
    pub fn num_threads(&self) -> (r: usize)
        ensures
            r == match self@ {
                ExecutorState::Pool(p) => p.num_threads,
                ExecutorState::Delegating(_) => 0,
            },
    {
        match self {
            Executor::Pool(p) => p.num_threads(),
            Executor::Delegating(_) => 0,
        }
    }

    /// The processors that the threads are bound to.
    pub fn affinity(&self) -> (r: Vec<usize>)
        ensures
            r@ == match self@ {
                ExecutorState::Pool(p) => p.affinity,
                ExecutorState::Delegating(_) => Seq::empty(),
            },
    {
        match self {
            Executor::Pool(p) => copy_numbers(p.affinity()),
            Executor::Delegating(_) => Vec::new(),
        }
    }

    /// The real time priority; zero leaves it alone.
    pub fn priority(&self) -> (r: i32)
        ensures
            r == match self@ {
                ExecutorState::Pool(p) => p.priority,
                ExecutorState::Delegating(_) => 0,
            },
    {
        match self {
            Executor::Pool(p) => p.priority(),
            Executor::Delegating(_) => 0,
        }
    }

    /// Says whether worker threads are to be created now.
    pub fn start(&mut self) -> (r: bool)
        ensures
            match old(self)@ {
                ExecutorState::Pool(p) => {
                    &&& r == !p.launched
                    &&& final(self)@ == ExecutorState::Pool(PoolView { launched: true, ..p })
                },
                ExecutorState::Delegating(_) => !r && final(self)@ == old(self)@,
            },
    {
        match self {
            Executor::Pool(p) => p.start(),
            Executor::Delegating(_) => false,
        }
    }

    /// Puts a node in line. If the executor refuses it, the caller gives the
    /// claim on the node back.
    pub fn submit(&mut self, node: usize, now: u64) -> (r: bool)
        ensures
            (final(self)@, r) == old(self)@.submitted(node, now),
    {
        match self {
            Executor::Pool(p) => p.submit(node, now),
            Executor::Delegating(d) => d.submit(node, now),
        }
    }

    /// Enters the wake-up of a source node, now or after a delay.
    pub fn submit_source_wake(
        &mut self,
        node: usize,
        generation: u64,
        delay_us: u64,
        now: u64,
    ) -> (r: bool)
        ensures
            (final(self)@, r) == old(self)@.wake_submitted(node, generation, delay_us, now),
    {
        match self {
            Executor::Pool(p) => p.submit_source_wake(node, generation, delay_us, now),
            Executor::Delegating(_) => false,
        }
    }

    /// How many tasks are in line.
    pub fn pending(&self) -> (r: usize)
        ensures
            r == match self@ {
                ExecutorState::Pool(p) => p.stats.queued as nat,
                ExecutorState::Delegating(d) => d.queue.len(),
            },
    {
        match self {
            Executor::Pool(p) => p.pending(),
            Executor::Delegating(d) => d.pending(),
        }
    }

    /// Shuts a pool down; the host thread is not the engine's to stop.
    pub fn shutdown(&mut self)
        ensures
            final(self)@ == match old(self)@ {
                ExecutorState::Pool(p) => ExecutorState::Pool(p.shut()),
                ExecutorState::Delegating(d) => ExecutorState::Delegating(d),
            },
    {
        match self {
            Executor::Pool(p) => p.shutdown(),
            Executor::Delegating(_) => {},
        }
    }

    /// Takes the node that waits first for the host thread. What a pool has
    /// in line is for its own threads.
    pub fn take_delegated(&mut self, now: u64) -> (r: Option<usize>)
        ensures
            (final(self)@, r) == old(self)@.delegated(now),
    {
        match self {
            Executor::Pool(_) => None,
            Executor::Delegating(d) => d.take(now),
        }
    }

    /// Notes that a node that the host thread took is through.
    pub fn complete_delegated(&mut self, execution: u64)
        ensures
            final(self)@ == match old(self)@ {
                ExecutorState::Pool(p) => ExecutorState::Pool(p),
                ExecutorState::Delegating(d) => ExecutorState::Delegating(d.completed(execution)),
            },
    {
        match self {
            Executor::Pool(_) => {},
            Executor::Delegating(d) => d.complete(execution),
        }
    }

    pub fn stats(&self, now: u64) -> (r: ExecutorStatsSnapshot)
        ensures
            r == self@.stats().shown(now),
    {
        match self {
            Executor::Pool(p) => p.stats(now),
            Executor::Delegating(d) => d.stats(now),
        }
    }

    /// Throws out what waits for the host thread.
    pub fn clear_delegated(&mut self)
        ensures
            final(self)@ == match old(self)@ {
                ExecutorState::Pool(p) => ExecutorState::Pool(p),
                ExecutorState::Delegating(d) => ExecutorState::Delegating(d.cleared()),
            },
    {
        match self {
            Executor::Pool(_) => {},
            Executor::Delegating(d) => d.clear(),
        }
    }

    /// Prepares the executor for a new run.
    pub fn reset_run_state(&mut self)
        ensures
            final(self)@ == old(self)@.renewed(),
    {
        match self {
            Executor::Pool(p) => {
                p.clear_delayed();
                p.reset_stats();
            },
            Executor::Delegating(d) => {
                d.clear();
                d.reset_stats();
            },
        }
    }

    /// Throws the tasks for later away.
    pub fn clear_delayed(&mut self)
        ensures
            final(self)@ == match old(self)@ {
                ExecutorState::Pool(p) => ExecutorState::Pool(p.undelayed()),
                ExecutorState::Delegating(d) => ExecutorState::Delegating(d),
            },
    {
        match self {
            Executor::Pool(p) => p.clear_delayed(),
            Executor::Delegating(_) => {},
        }
    }
}

// ------------------------------------------------------------------- platform

/// The words of a processor mask with one processor in it; none for a
/// processor that the mask has no place for.
pub fn affinity_mask(cpu: usize) -> (r: Option<Vec<u64>>)
    ensures
        match r {
            Some(mask) => {
                &&& cpu < 1024
                &&& mask@.len() == 16
                &&& forall|k: int|
                    0 <= k < 16 ==> #[trigger] mask@[k] == (if k == cpu as int / 64 {
                        1u64 << ((cpu % 64) as u64)
                    } else {
                        0u64
                    })
            },
            None => cpu >= 1024,
        },
{
    if cpu >= 1024 {
        return None;
    }
    let mut mask: Vec<u64> = Vec::new();
    for k in 0..16usize
        invariant
            cpu < 1024,
            mask@.len() == k,
            forall|j: int|
                0 <= j < k ==> #[trigger] mask@[j] == (if j == cpu as int / 64 {
                    1u64 << ((cpu % 64) as u64)
                } else {
                    0u64
                }),
    {
        if k == cpu / 64 {
            mask.push(1u64 << ((cpu % 64) as u64));
        } else {
            mask.push(0);
        }
    }
    Some(mask)
}

/// A real time priority within what the system takes.
pub fn rt_priority(prio: i32) -> (r: i32)
    ensures
        r == (if prio < 1 {
            1i32
        } else if prio > 99 {
            99i32
        } else {
            prio
        }),
{
    if prio < 1 {
        1
    } else if prio > 99 {
        99
    } else {
        prio
    }
}

/// The quality of service class of a thread on systems that know no real time
/// priorities: interactive from ninety up, else started by the user.
pub fn qos_class(prio: i32) -> (r: u32)
    ensures
        r == (if prio >= 90 {
            0x21u32
        } else {
            0x19u32
        }),
{
    if prio >= 90 {
        0x21
    } else {
        0x19
    }
}

// ------------------------------------------------------------------- the laws

/// With several nodes put in line, one after the other.
pub open spec fn all_submitted(d: DelegatingView, nodes: Seq<usize>, now: u64) -> DelegatingView
    decreases nodes.len(),
{
    if nodes.len() == 0 {
        d
    } else {
        all_submitted(d, nodes.drop_last(), now).submitted(nodes.last(), now)
    }
}

/// With `k` nodes taken, one after the other.
pub open spec fn all_taken(d: DelegatingView, k: nat, now: u64) -> DelegatingView
    decreases k,
{
    if k == 0 {
        d
    } else {
        all_taken(d, (k - 1) as nat, now).taken(now).0
    }
}

proof fn lemma_submitted_nodes(d: DelegatingView, nodes: Seq<usize>, now: u64)
    ensures
        nodes_in(all_submitted(d, nodes, now).queue) == nodes_in(d.queue) + nodes,
    decreases nodes.len(),
{
    if nodes.len() == 0 {
        assert(nodes_in(d.queue) + nodes =~= nodes_in(d.queue));
    } else {
        lemma_submitted_nodes(d, nodes.drop_last(), now);
        let before = all_submitted(d, nodes.drop_last(), now);
        assert(nodes_in(before.submitted(nodes.last(), now).queue) =~= nodes_in(before.queue).push(
            nodes.last(),
        ));
        assert((nodes_in(d.queue) + nodes.drop_last()).push(nodes.last()) =~= nodes_in(d.queue)
            + nodes);
    }
}

proof fn lemma_taken_queue(d: DelegatingView, k: nat, now: u64)
    requires
        k <= d.queue.len(),
    ensures
        all_taken(d, k, now).queue == d.queue.skip(k as int),
    decreases k,
{
    if k == 0 {
        assert(d.queue.skip(0) =~= d.queue);
    } else {
        lemma_taken_queue(d, (k - 1) as nat, now);
        assert(d.queue.skip(k - 1).drop_first() =~= d.queue.skip(k as int));
    }
}

/// The host thread takes the nodes in the order in which they were put in
/// line, and none is lost or refused.
pub proof fn delegating_is_first_in_first_out(
    d: DelegatingView,
    nodes: Seq<usize>,
    k: nat,
    then: u64,
    now: u64,
)
    requires
        k < nodes.len(),
    ensures
        all_taken(all_submitted(d, nodes, then), d.queue.len() + k, now).taken(now).1 == Some(
            nodes[k as int],
        ),
{
    let full = all_submitted(d, nodes, then);
    lemma_submitted_nodes(d, nodes, then);
    assert(nodes_in(full.queue).len() == d.queue.len() + nodes.len());
    lemma_taken_queue(full, d.queue.len() + k, now);
    assert(nodes_in(full.queue)[(d.queue.len() + k) as int] == nodes[k as int]);
}

/// The count of a delegating executor says how many nodes are in line, as
/// long as it is not reset under them.
pub proof fn delegating_counts_its_nodes(d: DelegatingView, node: usize, t: u64)
    requires
        d.counted(),
    ensures
        d.queue.len() < usize::MAX ==> d.submitted(node, t).counted(),
        d.taken(t).0.counted(),
        d.completed(t).counted(),
        d.cleared().counted(),
        d.cleared().forgotten().counted(),
{
}

/// Something that happens to a delegating executor while its graph runs.
pub enum DelegatingStep {
    Submit { node: usize, now: u64 },
    Take { now: u64 },
    Complete { execution: u64 },
}

/// A delegating executor after some steps.
pub open spec fn after_steps(d: DelegatingView, steps: Seq<DelegatingStep>) -> DelegatingView
    decreases steps.len(),
{
    if steps.len() == 0 {
        d
    } else {
        let before = after_steps(d, steps.drop_last());
        match steps.last() {
            DelegatingStep::Submit { node, now } => before.submitted(node, now),
            DelegatingStep::Take { now } => before.taken(now).0,
            DelegatingStep::Complete { execution } => before.completed(execution),
        }
    }
}

/// The nodes that were put in line, in their order.
pub open spec fn nodes_submitted(steps: Seq<DelegatingStep>) -> Seq<usize>
    decreases steps.len(),
{
    if steps.len() == 0 {
        Seq::empty()
    } else {
        match steps.last() {
            DelegatingStep::Submit { node, .. } => nodes_submitted(steps.drop_last()).push(node),
            _ => nodes_submitted(steps.drop_last()),
        }
    }
}

/// How many nodes were taken: a look at an empty line takes none.
pub open spec fn nodes_taken(d: DelegatingView, steps: Seq<DelegatingStep>) -> nat
    decreases steps.len(),
{
    if steps.len() == 0 {
        0
    } else {
        let before = after_steps(d, steps.drop_last());
        if steps.last() is Take && before.queue.len() > 0 {
            nodes_taken(d, steps.drop_last()) + 1
        } else {
            nodes_taken(d, steps.drop_last())
        }
    }
}

/// How many nodes were completed.
pub open spec fn nodes_completed(steps: Seq<DelegatingStep>) -> nat
    decreases steps.len(),
{
    if steps.len() == 0 {
        0
    } else if steps.last() is Complete {
        nodes_completed(steps.drop_last()) + 1
    } else {
        nodes_completed(steps.drop_last())
    }
}

/// The greatest length that the line has reached.
pub open spec fn longest_line(d: DelegatingView, steps: Seq<DelegatingStep>) -> nat
    decreases steps.len(),
{
    let now = after_steps(d, steps).queue.len();
    if steps.len() == 0 {
        now
    } else {
        let before = longest_line(d, steps.drop_last());
        if now > before {
            now
        } else {
            before
        }
    }
}

proof fn lemma_delegating_history(d: DelegatingView, steps: Seq<DelegatingStep>)
    requires
        d.queue.len() == 0,
        d.stats == StatsView::blank(true),
        steps.len() <= usize::MAX,
    ensures
        ({
            let after = after_steps(d, steps);
            let n = nodes_submitted(steps).len();
            let k = nodes_taken(d, steps);
            let c = nodes_completed(steps);
            &&& k <= n
            &&& n + k + c <= steps.len()
            &&& nodes_in(after.queue) == nodes_submitted(steps).skip(k as int)
            &&& after.queue.len() == n - k
            &&& after.stats.full
            &&& after.stats.queued == n - k
            &&& after.stats.running == if c <= k {
                k - c
            } else {
                usize::MAX + 1 + k - c
            }
            &&& after.stats.completed == c
            &&& after.stats.peak == longest_line(d, steps)
            &&& longest_line(d, steps) >= after.queue.len()
        }),
    decreases steps.len(),
{
    if steps.len() > 0 {
        let old_steps = steps.drop_last();
        lemma_delegating_history(d, old_steps);
        let before = after_steps(d, old_steps);
        let after = after_steps(d, steps);
        let k = nodes_taken(d, steps);
        match steps.last() {
            DelegatingStep::Submit { node, now } => {
                assert(nodes_in(after.queue) =~= nodes_in(before.queue).push(node));
                assert(nodes_submitted(steps).skip(k as int) =~= nodes_submitted(old_steps).skip(
                    k as int,
                ).push(node));
            },
            DelegatingStep::Take { now } => {
                if before.queue.len() > 0 {
                    assert(nodes_in(after.queue) =~= nodes_in(before.queue).drop_first());
                    assert(nodes_submitted(steps).skip(k as int) =~= nodes_submitted(
                        old_steps,
                    ).skip(k - 1).drop_first());
                }
            },
            DelegatingStep::Complete { execution } => {},
        }
    } else {
        assert(nodes_in(d.queue) =~= nodes_submitted(steps).skip(0));
    }
}

/// What a delegating executor says of itself is what happened to it since it
/// was made: of `n` nodes put in line, `k` taken and `c` completed, the last
/// `n - k` are in line, `k - c` run and `c` are through, and the peak is the
/// greatest length that the line has had.
pub proof fn delegating_statistics_tell_the_history(
    d: DelegatingView,
    steps: Seq<DelegatingStep>,
    now: u64,
)
    requires
        d == (DelegatingView {
            name: d.name,
            queue: Seq::empty(),
            stats: StatsView::blank(true),
        }),
        steps.len() <= usize::MAX,
        nodes_completed(steps) <= nodes_taken(d, steps),
    ensures
        ({
            let after = after_steps(d, steps);
            let shown = after.stats.shown(now);
            let n = nodes_submitted(steps).len();
            let k = nodes_taken(d, steps);
            let c = nodes_completed(steps);
            &&& c <= k <= n
            &&& nodes_in(after.queue) == nodes_submitted(steps).skip(k as int)
            &&& shown.queued == n - k
            &&& shown.running == k - c
            &&& shown.completed == c
            &&& shown.peak_queued == longest_line(d, steps)
        }),
{
    lemma_delegating_history(d, steps);
}

proof fn lemma_enqueued_count(s: StatsView, n: nat, now: u64)
    requires
        s.queued + n <= usize::MAX,
    ensures
        s.all_enqueued(n, now).queued == s.queued + n,
    decreases n,
{
    if n > 0 {
        lemma_enqueued_count(s, (n - 1) as nat, now);
    }
}

/// The count of a pool says how many tasks are in line, as long as it is not
/// reset under them; a task for later does not count until it is due.
pub proof fn pools_count_their_tasks(
    p: PoolView,
    node: usize,
    generation: u64,
    delay_us: u64,
    t: u64,
)
    requires
        p.counted(),
        p.ready.len() + p.delayed.len() < usize::MAX,
    ensures
        p.submitted(node, t).counted(),
        p.wake_submitted(node, generation, delay_us, t).counted(),
        p.taken(t).0.counted(),
        p.completed(t).counted(),
        p.undelayed().counted(),
        p.shut().counted(),
{
    lemma_due(p.delayed, t);
    lemma_enqueued_count(p.stats, due(p.delayed, t), t);
}

/// What a worker thread gets is what has been in line longest: what waited
/// before the tasks that just became due.
pub proof fn pools_are_first_in_first_out(p: PoolView, now: u64)
    requires
        p.ready.len() > 0,
    ensures
        p.taken(now).1 == TakeStep::Got(p.ready[0]),
{
    lemma_due(p.delayed, now);
}

/// The tasks for later stay in the order of their times, and those for the
/// same time in the order in which they came.
pub proof fn deferred_tasks_stay_in_order(p: PoolView, deadline: u64, task: PoolTask)
    requires
        by_deadline(p.delayed),
    ensures
        by_deadline(p.deferred(deadline, task).delayed),
        forall|i: int|
            0 <= i < p.delayed.len() && (#[trigger] p.delayed[i]).deadline <= deadline
                ==> p.deferred(deadline, task).delayed[i] == p.delayed[i],
{
    lemma_insert_in_order(p.delayed, DelayedTask { deadline, task });
    lemma_due(p.delayed, deadline);
    let at = due(p.delayed, deadline) as int;
    assert forall|i: int|
        0 <= i < p.delayed.len() && (#[trigger] p.delayed[i]).deadline
            <= deadline implies p.deferred(deadline, task).delayed[i] == p.delayed[i] by {
        if i >= at {
            assert(p.delayed[at].deadline <= p.delayed[i].deadline);
        }
    }
}

/// When a worker thread looks, everything that is due comes in line and
/// nothing that is not.
pub proof fn only_due_tasks_wake(p: PoolView, now: u64)
    requires
        by_deadline(p.delayed),
    ensures
        forall|i: int|
            0 <= i < p.woken(now).delayed.len() ==> (#[trigger] p.woken(now).delayed[i]).deadline
                > now,
        p.woken(now).delayed.len() + p.woken(now).ready.len() == p.delayed.len() + p.ready.len(),
{
    lemma_due(p.delayed, now);
    let n = due(p.delayed, now) as int;
    assert forall|i: int| 0 <= i < p.woken(now).delayed.len() implies (
    #[trigger] p.woken(now).delayed[i]).deadline > now by {
        assert(p.woken(now).delayed[i] == p.delayed[n + i]);
        assert(p.delayed[n].deadline <= p.delayed[n + i].deadline);
    }
}

/// A pool that was shut down refuses what comes, does what is in line, and
/// then ends its threads. To shut it down again changes nothing.
pub proof fn shut_pools_drain(p: PoolView, node: usize, now: u64)
    ensures
        p.shut().submitted(node, now) == p.shut(),
        p.shut().shut() == p.shut(),
        p.ready.len() > 0 ==> p.shut().taken(now).1 == TakeStep::Got(p.ready[0]),
        p.ready.len() == 0 && due(p.delayed, now) == 0 ==> p.shut().taken(now).1
            == TakeStep::Stop,
{
    lemma_due(p.delayed, now);
    assert(p.delayed.take(0) =~= Seq::empty());
    if p.ready.len() == 0 && due(p.delayed, now) == 0 {
        assert(p.shut().woken(now).ready =~= p.ready);
    }
}

} // verus!

//! The steps of the engine: which kernel is called next, and what follows
//! from what it returned.

use crate::context::ContextView;
use crate::graph::{kin, kin_fits, kin_trans, queue_views, Graph, Node};
use crate::packet::{Packet, TypeNames};
use crate::run_state::{
    behind_head, head, heads_dequeued, least_stamp, one_more, phase_name, Action, KernelPhase,
    NodeSched, NodeStats, RunNode, RunView, State, Task,
};
use crate::runtime::{optional_error, GraphShared, SharedView, LOG_WARN};
use crate::schedule::{keeps_all_flushed, keeps_edges_closed, keeps_scheduled};
use crate::status::{failure, Error};
use crate::text::{cat4, cat5, cat6, decimal_of};
use crate::timestamp::Timestamp;
use vstd::prelude::*;

verus! {

impl KernelPhase {
    /// The text of the phase.
    pub fn name(self) -> (r: &'static str)
        ensures
            r@ == phase_name(self),
    {
        match self {
            KernelPhase::Open => "Open",
            KernelPhase::Process => "Process",
            KernelPhase::Close => "Close",
        }
    }
}

impl Node {
    /// Hands the first packet of each input port to the kernel.
    fn feed(&mut self, shared: &mut GraphShared, Ghost(edges): Ghost<nat>)
        requires
            old(self)@.fits(edges),
        ensures
            final(self)@ == old(self)@.fed(),
            final(shared)@ == heads_dequeued(
                old(shared)@,
                old(self)@.queues,
                old(self)@.queues.len(),
            ),
    {
        let ghost before = self@;
        let ghost queues = before.queues;
        let ghost fresh = before.ctx.fresh();
        let count: usize = self.input_queues.len();
        let mut ts = Timestamp::done();
        self.ctx.reset();
        proof {
            assert(self@.queues =~= Seq::new(
                queues.len(),
                |k: int|
                    if k < 0 {
                        behind_head(queues[k])
                    } else {
                        queues[k]
                    },
            ));
            assert(fresh.inputs =~= Seq::new(
                queues.len(),
                |k: int|
                    if k < 0 {
                        head(queues[k])
                    } else {
                        None
                    },
            ));
            assert(fresh.inputs_done =~= Seq::new(
                queues.len(),
                |k: int|
                    if k < 0 {
                        before.closed[k] && queues[k].len() <= 1
                    } else {
                        false
                    },
            ));
        }
        for i in 0..count
            invariant
                before.fits(edges),
                queues == before.queues,
                fresh == before.ctx.fresh(),
                count == queues.len(),
                self.input_queues@.len() == count,
                self.input_closed@ == before.closed,
                ts == least_stamp(queues, i as nat),
                shared@ == heads_dequeued(old(shared)@, queues, i as nat),
                self@ == (RunNode {
                    queues: Seq::new(
                        queues.len(),
                        |k: int|
                            if k < i {
                                behind_head(queues[k])
                            } else {
                                queues[k]
                            },
                    ),
                    ctx: ContextView {
                        inputs: Seq::new(
                            queues.len(),
                            |k: int|
                                if k < i {
                                    head(queues[k])
                                } else {
                                    None
                                },
                        ),
                        inputs_done: Seq::new(
                            queues.len(),
                            |k: int|
                                if k < i {
                                    before.closed[k] && queues[k].len() <= 1
                                } else {
                                    false
                                },
                        ),
                        ..fresh
                    },
                    ..before
                }),
        {
            assert(self@.queues[i as int] == self.input_queues@[i as int]@);
            let ghost held = self.input_queues@;
            assert(self@.queues == queue_views(held));
            let first = self.input_queues[i].pop_front();
            assert(self.input_queues@[i as int]@ =~= behind_head(queues[i as int]));
            if let Some(p) = first {
                shared.on_dequeue(p.byte_size());
                if p.timestamp() < ts {
                    ts = p.timestamp();
                }
                self.ctx.set_input(i, p);
            }
            let over = self.input_closed[i] && self.input_queues[i].len() == 0;
            self.ctx.set_input_done(i, over);
            proof {
                let now = RunNode {
                    queues: Seq::new(
                        queues.len(),
                        |k: int|
                            if k < i + 1 {
                                behind_head(queues[k])
                            } else {
                                queues[k]
                            },
                    ),
                    ctx: ContextView {
                        inputs: Seq::new(
                            queues.len(),
                            |k: int|
                                if k < i + 1 {
                                    head(queues[k])
                                } else {
                                    None
                                },
                        ),
                        inputs_done: Seq::new(
                            queues.len(),
                            |k: int|
                                if k < i + 1 {
                                    before.closed[k] && queues[k].len() <= 1
                                } else {
                                    false
                                },
                        ),
                        ..fresh
                    },
                    ..before
                };
                assert forall|k: int| 0 <= k < count implies self@.queues[k] == now.queues[k] by {
                    if k != i {
                        assert(queue_views(held)[k] == held[k]@);
                    }
                }
                assert(self@.queues =~= now.queues);
                assert(self@.ctx.inputs =~= now.ctx.inputs);
                assert(self@.ctx.inputs_done =~= now.ctx.inputs_done);
                assert(self@ =~= now);
            }
        }
        self.ctx.set_input_ts(ts);
        proof {
            assert(self@.queues =~= before.fed().queues);
            assert(self@.ctx.inputs =~= before.fed().ctx.inputs);
            assert(self@.ctx.inputs_done =~= before.fed().ctx.inputs_done);
            assert(self@ =~= before.fed());
        }
    }

    /// Refuses a packet whose type is not the one that its input port wants.
    pub fn check_input_types(&self, names: &TypeNames) -> (r: Result<(), Error>)
        ensures
            failure(r) == self@.type_problem(self@.input_types.len(), names@),
    {
        for port in 0..self.input_types.len()
            invariant
                self@.type_problem(port as nat, names@) is None,
        {
            let want: u64 = self.input_types[port];
            if want != 0 {
                if let Some(p) = self.ctx.slot(port) {
                    if !p.is_empty() && p.type_id() != want {
                        let label = match self.ctx.in_ports().name(port) {
                            Some(name) => name,
                            None => "?",
                        };
                        let front = cat4("[", self.name.as_str(), "] 输入口 `", label);
                        proof {
                            lemma_type_prefix(
                                self@,
                                (port + 1) as nat,
                                self@.input_types.len(),
                                names@,
                            );
                        }
                        return Err(
                            Error::Kernel(
                                cat5(
                                    front.as_str(),
                                    "` 类型不符:契约声明 ",
                                    names.name(want).as_str(),
                                    ", 实际 ",
                                    names.name(p.type_id()).as_str(),
                                ),
                            ),
                        );
                    }
                }
            }
        }
        Ok(())
    }

    /// Refuses what the kernel emitted if a type is not the one that it
    /// declared for the output port.
    pub fn check_output_types(&self, names: &TypeNames) -> (r: Result<(), Error>)
        ensures
            failure(r) == self@.emission_problem(self@.output_types.len(), names@),
    {
        for port in 0..self.output_types.len()
            invariant
                self@.emission_problem(port as nat, names@) is None,
        {
            let want: u64 = self.output_types[port];
            if want != 0 {
                if let Some(got) = self.ctx.staged_misfit(port, want) {
                    let label = match self.ctx.out_ports().name(port) {
                        Some(name) => name,
                        None => "?",
                    };
                    let front = cat4("[", self.name.as_str(), "] 输出口 `", label);
                    proof {
                        lemma_emission_prefix(
                            self@,
                            (port + 1) as nat,
                            self@.output_types.len(),
                            names@,
                        );
                    }
                    return Err(
                        Error::Kernel(
                            cat5(
                                front.as_str(),
                                "` 类型不符:契约声明 ",
                                names.name(want).as_str(),
                                ", 实际 ",
                                names.name(got).as_str(),
                            ),
                        ),
                    );
                }
            }
        }
        Ok(())
    }

    /// Why a call that returned a status code failed, if it did. What the
    /// kernel said of a failure is used up.
    fn take_outcome(&mut self, rc: i32, names: &TypeNames) -> (r: Option<Error>)
        ensures
            optional_error(r) == old(self)@.outcome(rc, names@),
            final(self)@ == (match old(self)@.outcome(rc, names@) {
                Some(_) => RunNode {
                    ctx: (ContextView { error_msg: None, ..old(self)@.ctx }),
                    ..old(self)@
                },
                None => old(self)@,
            }),
    {
        if rc != 0 {
            Some(self.ctx.take_error(rc))
        } else {
            match self.check_output_types(names) {
                Ok(()) => None,
                Err(e) => {
                    self.ctx.clear_error();
                    Some(e)
                },
            }
        }
    }
}

proof fn lemma_type_prefix(n: RunNode, k: nat, m: nat, names: Map<u64, Seq<char>>)
    requires
        k <= m,
        n.type_problem(k, names) is Some,
    ensures
        n.type_problem(m, names) == n.type_problem(k, names),
    decreases m - k,
{
    if k < m {
        lemma_type_prefix(n, k, (m - 1) as nat, names);
    }
}

proof fn lemma_emission_prefix(n: RunNode, k: nat, m: nat, names: Map<u64, Seq<char>>)
    requires
        k <= m,
        n.emission_problem(k, names) is Some,
    ensures
        n.emission_problem(m, names) == n.emission_problem(k, names),
    decreases m - k,
{
    if k < m {
        lemma_emission_prefix(n, k, (m - 1) as nat, names);
    }
}

// ------------------------------------------------------------- what is kept

pub proof fn keeps_timed(g: RunView, n: int, phase: KernelPhase, us: i64)
    requires
        g.fits(),
        0 <= n < g.nodes.len(),
    ensures
        kin(g, g.timed(n, phase, us)),
        g.timed(n, phase, us).task == g.task,
        g.timed(n, phase, us).fits(),
{
    kin_fits(g, g.timed(n, phase, us));
}

pub proof fn keeps_closed_node(g: RunView, n: int, rc: i32)
    requires
        g.fits(),
        0 <= n < g.nodes.len(),
    ensures
        kin(g, g.closed_node(n, rc)),
        g.closed_node(n, rc).task == g.task,
        g.closed_node(n, rc).fits(),
{
    let ctx = g.nodes[n].ctx;
    let after = if g.outcome(n, rc) is Some {
        g.with_ctx(n, (ContextView { error_msg: None, ..ctx }).discarded()).failed(
            g.outcome(n, rc)->Some_0,
        )
    } else {
        g.all_flushed(n)
    };
    if g.outcome(n, rc) is Some {
        assert(kin(g, after));
        kin_fits(g, after);
    } else {
        keeps_all_flushed(g, n);
    }
    let released = after.with_ctx(n, after.nodes[n].ctx.released());
    let shut = released.with_sched(n, NodeSched { closed: true, ..released.nodes[n].sched });
    assert(kin(after, shut));
    kin_trans(g, after, shut);
    kin_fits(g, shut);
    assert(g.nodes[n].fits(g.edges.len()));
    keeps_edges_closed(shut, g.nodes[n].outputs, g.nodes[n].outputs.len());
    kin_trans(g, shut, g.closed_node(n, rc));
}

pub proof fn keeps_ran(g: RunView, n: int, rc: i32)
    requires
        g.fits(),
        0 <= n < g.nodes.len(),
    ensures
        kin(g, g.ran(n, rc)),
        g.ran(n, rc).task == g.task,
        g.ran(n, rc).fits(),
{
    let ctx = g.nodes[n].ctx;
    let stats = g.nodes[n].stats;
    if g.outcome(n, rc) is Some {
        assert(kin(g, g.ran(n, rc)));
    } else {
        let counted = g.with_stats(n, NodeStats { processed: one_more(stats.processed), ..stats });
        assert(kin(g, counted));
        kin_fits(g, counted);
        keeps_all_flushed(counted, n);
        kin_trans(g, counted, counted.all_flushed(n));
        assert(kin(counted.all_flushed(n), g.ran(n, rc)));
        kin_trans(g, counted.all_flushed(n), g.ran(n, rc));
    }
    kin_fits(g, g.ran(n, rc));
}

pub proof fn keeps_finished(g: RunView, n: int)
    requires
        g.fits(),
        0 <= n < g.nodes.len(),
    ensures
        kin(g, g.finished(n)),
        g.finished(n).task == g.task,
        g.finished(n).fits(),
{
    let free = g.with_sched(
        n,
        NodeSched { running: false, rescan: false, ..g.nodes[n].sched },
    );
    assert(kin(g, free));
    kin_fits(g, free);
    keeps_scheduled(free, n);
    kin_trans(g, free, g.finished(n));
}

// -------------------------------------------------------------------- steps

impl Graph {
    /// Notes that a kernel call begins.
    pub(crate) fn begin_call(&mut self, n: usize, now: u64, task: Task)
        requires
            old(self)@.fits(),
            n < old(self)@.nodes.len(),
            task == Task::Opening(n) || task == Task::Processing(n) || task == Task::Closing(n)
                || task == Task::Sweeping(n) || task == Task::Dropping(n),
        ensures
            final(self)@ == old(self)@.calling(n as int, now, task),
            final(self)@.fits(),
    {
        let ghost before = self@;
        assert(before.nodes[n as int] == self.nodes@[n as int]@);
        self.task = task;
        self.nodes[n].running_since = Some(now);
        proof {
            assert(self@.nodes =~= before.calling(n as int, now, task).nodes);
            assert(self@ =~= before.calling(n as int, now, task));
            kin_fits(before, self@);
        }
    }

    /// Notes that a kernel call returned after `us` microseconds.
    pub(crate) fn end_call(&mut self, n: usize, phase: KernelPhase, us: i64)
        requires
            old(self)@.fits(),
            n < old(self)@.nodes.len(),
            us >= 0,
        ensures
            final(self)@ == old(self)@.timed(n as int, phase, us),
            final(self)@.fits(),
    {
        let ghost before = self@;
        assert(before.nodes[n as int] == self.nodes@[n as int]@);
        self.nodes[n].running_since = None;
        if phase == KernelPhase::Process {
            let total: i64 = self.nodes[n].stats.total_us;
            self.nodes[n].stats.total_us = total.wrapping_add(us);
            if us > self.nodes[n].stats.max_us {
                self.nodes[n].stats.max_us = us;
            }
        }
        let wd: u64 = self.shared.config().watchdog_ms;
        if wd > 0 && us as u128 > wd as u128 * 1000 {
            let millis: u64 = (us / 1000) as u64;
            let front = cat4(
                "节点 `",
                self.nodes[n].name.as_str(),
                "` 单次 ",
                phase.name(),
            );
            let line = cat6(
                front.as_str(),
                " 耗时 ",
                decimal_of(millis).as_str(),
                " ms,超过 watchdog ",
                decimal_of(wd).as_str(),
                " ms",
            );
            self.shared.note(LOG_WARN, line.as_str());
        }
        proof {
            let after = before.timed(n as int, phase, us);
            assert(self@.nodes =~= after.nodes);
            assert(self@ =~= after);
            keeps_timed(before, n as int, phase, us);
        }
    }

    /// Whether a node is to be closed now.
    fn is_closable(&self, n: usize) -> (r: bool)
        requires
            self@.fits(),
            n < self@.nodes.len(),
        ensures
            r == self@.closable(n as int),
    {
        assert(self@.nodes[n as int] == self.nodes@[n as int]@);
        assert(self@.nodes[n as int].fits(self@.edges.len()));
        let s = self.nodes[n].sched;
        if s.closed || s.running || !s.opened {
            return false;
        }
        self.shared.has_error() || self.shared.is_cancelled()
            || self.nodes[n].all_inputs_closed_and_drained()
    }

    /// Makes the context of a node ready for closing.
    pub(crate) fn prepare_close(&mut self, n: usize)
        requires
            old(self)@.fits(),
            n < old(self)@.nodes.len(),
        ensures
            final(self)@ == old(self)@.closing(n as int),
            final(self)@.fits(),
    {
        let ghost before = self@;
        assert(before.nodes[n as int] == self.nodes@[n as int]@);
        let reason: i32 = self.shared.close_reason();
        self.nodes[n].ctx.reset();
        self.nodes[n].ctx.set_close_reason(reason);
        self.nodes[n].ctx.set_input_ts(Timestamp::done());
        proof {
            assert(self@.nodes =~= before.closing(n as int).nodes);
            assert(self@ =~= before.closing(n as int));
            kin_fits(before, self@);
        }
    }

    /// Finishes the closing of a node.
    fn complete_close(&mut self, n: usize, rc: i32)
        requires
            old(self)@.fits(),
            n < old(self)@.nodes.len(),
        ensures
            final(self)@ == old(self)@.closed_node(n as int, rc),
            final(self)@.fits(),
    {
        let ghost before = self@;
        let ghost ctx = before.nodes[n as int].ctx;
        assert(before.nodes[n as int] == self.nodes@[n as int]@);
        let outputs = copy_numbers(&self.nodes[n].outputs);
        let outcome = self.nodes[n].take_outcome(rc, self.shared.type_names());
        if let Some(e) = outcome {
            self.nodes[n].ctx.discard_staging();
            self.shared.record_error(e);
            proof {
                let after = before.with_ctx(
                    n as int,
                    (ContextView { error_msg: None, ..ctx }).discarded(),
                ).failed(before.outcome(n as int, rc)->Some_0);
                assert(self@.nodes =~= after.nodes);
                assert(self@ =~= after);
                kin_fits(before, self@);
            }
        } else {
            proof {
                assert(self@.nodes =~= before.nodes);
                assert(self@ =~= before);
                keeps_all_flushed(before, n as int);
            }
            self.flush_staging(n);
        }
        let ghost after = self@;
        assert(after.nodes[n as int] == self.nodes@[n as int]@);
        self.nodes[n].ctx.clear_inputs();
        self.nodes[n].sched.closed = true;
        proof {
            let released = after.with_ctx(n as int, after.nodes[n as int].ctx.released());
            let shut = released.with_sched(
                n as int,
                NodeSched { closed: true, ..released.nodes[n as int].sched },
            );
            assert(self@.nodes =~= shut.nodes);
            assert(self@ =~= shut);
            assert(kin(after, shut));
            kin_fits(after, shut);
            assert(kin(before, after)) by {
                if before.outcome(n as int, rc) is Some {
                } else {
                    keeps_all_flushed(before, n as int);
                }
            }
            assert(before.nodes[n as int].fits(before.edges.len()));
        }
        self.close_edges(&outputs);
        proof {
            keeps_closed_node(before, n as int, rc);
        }
    }

    /// Finishes a run of a node.
    fn complete_run(&mut self, n: usize, rc: i32)
        requires
            old(self)@.fits(),
            n < old(self)@.nodes.len(),
        ensures
            final(self)@ == old(self)@.ran(n as int, rc),
            final(self)@.fits(),
    {
        let ghost before = self@;
        let ghost ctx = before.nodes[n as int].ctx;
        let ghost stats = before.nodes[n as int].stats;
        assert(before.nodes[n as int] == self.nodes@[n as int]@);
        let outcome = self.nodes[n].take_outcome(rc, self.shared.type_names());
        if let Some(e) = outcome {
            self.nodes[n].ctx.discard_staging();
            let errors: u64 = self.nodes[n].stats.errors;
            self.nodes[n].stats.errors = errors.wrapping_add(1);
            self.shared.record_error(e);
            proof {
                let after = before.with_ctx(
                    n as int,
                    (ContextView { error_msg: None, ..ctx }).discarded(),
                ).with_stats(
                    n as int,
                    NodeStats { errors: one_more(stats.errors), ..stats },
                ).failed(before.outcome(n as int, rc)->Some_0);
                assert(self@.nodes =~= after.nodes);
                assert(self@ =~= after);
            }
        } else {
            let processed: u64 = self.nodes[n].stats.processed;
            self.nodes[n].stats.processed = processed.wrapping_add(1);
            proof {
                let counted = before.with_stats(
                    n as int,
                    NodeStats { processed: one_more(stats.processed), ..stats },
                );
                assert(self@.nodes =~= counted.nodes);
                assert(self@ =~= counted);
                kin_fits(before, counted);
                keeps_all_flushed(counted, n as int);
            }
            self.flush_staging(n);
        }
        let ghost after = self@;
        assert(after.nodes[n as int] == self.nodes@[n as int]@);
        self.nodes[n].ctx.clear_inputs();
        proof {
            assert(self@.nodes =~= before.ran(n as int, rc).nodes);
            assert(self@ =~= before.ran(n as int, rc));
            keeps_ran(before, n as int, rc);
        }
    }

    /// Gives the claim on a node back and closes the node, if that is due.
    fn finish(&mut self, n: usize, now: u64) -> (r: Action)
        requires
            old(self)@.fits(),
            n < old(self)@.nodes.len(),
        ensures
            (final(self)@, r) == old(self)@.after_run(n as int, now),
            final(self)@.fits(),
    {
        let ghost before = self@;
        assert(before.nodes[n as int] == self.nodes@[n as int]@);
        self.nodes[n].sched.running = false;
        self.nodes[n].sched.rescan = false;
        proof {
            let free = before.with_sched(
                n as int,
                NodeSched { running: false, rescan: false, ..before.nodes[n as int].sched },
            );
            assert(self@.nodes =~= free.nodes);
            assert(self@ =~= free);
            kin_fits(before, free);
            keeps_finished(before, n as int);
        }
        self.schedule(n);
        if self.is_closable(n) {
            self.prepare_close(n);
            self.begin_call(n, now, Task::Closing(n));
            Action::Call(n, KernelPhase::Close)
        } else {
            let ghost after = self@;
            self.task = Task::Idle;
            proof {
                kin_fits(after, self@);
            }
            Action::Done(true)
        }
    }

    /// Whether every node is closed.
    pub fn all_nodes_closed(&self) -> (r: bool)
        ensures
            r == self@.all_closed(),
    {
        for i in 0..self.nodes.len()
            invariant
                forall|k: int| 0 <= k < i ==> (#[trigger] self@.nodes[k]).sched.closed,
        {
            assert(self@.nodes[i as int] == self.nodes@[i as int]@);
            if !self.nodes[i].sched.closed {
                return false;
            }
        }
        true
    }

    /// Goes over the nodes from `from` on and closes what is to be closed.
    fn sweep(&mut self, from: usize, progressed: bool, now: u64) -> (r: Action)
        requires
            old(self)@.fits(),
            from <= old(self)@.nodes.len(),
        ensures
            (final(self)@, r) == old(self)@.swept(from as int, progressed, now),
            final(self)@.fits(),
    {
        let ghost before = self@;
        let mut n: usize = from;
        while n < self.nodes.len()
            invariant
                self@ == before,
                before == old(self)@,
                before.fits(),
                n <= before.nodes.len(),
                self.nodes@.len() == before.nodes.len(),
                before.swept(from as int, progressed, now) == before.swept(
                    n as int,
                    progressed,
                    now,
                ),
            decreases self.nodes@.len() - n,
        {
            if self.is_closable(n) {
                self.prepare_close(n);
                self.begin_call(n, now, Task::Sweeping(n));
                return Action::Call(n, KernelPhase::Close);
            }
            n += 1;
        }
        self.task = Task::Idle;
        if !progressed && self.all_nodes_closed() {
            self.state = State::Terminated;
        }
        proof {
            kin_fits(before, self@);
        }
        Action::Done(progressed)
    }

    /// Begins one step: runs the first node in line, or else closes what is
    /// to be closed. After a call that is asked for, `resume_step` goes on.
    pub fn pump_step(&mut self, now: u64) -> (r: Action)
        requires
            old(self)@.fits(),
            old(self)@.task is Idle,
        ensures
            (final(self)@, r) == old(self)@.stepped(now),
            final(self)@.fits(),
    {
        let ghost before = self@;
        match self.main_queue.pop_front() {
            None => self.sweep(0, false, now),
            Some(n) => {
                let ghost node = before.nodes[n as int];
                proof {
                    assert(before.main_queue[0] == n);
                    assert(self.main_queue@ =~= before.main_queue.drop_first());
                    assert(node == self.nodes@[n as int]@);
                    assert(node.fits(before.edges.len()));
                }
                self.nodes[n].feed(&mut self.shared, Ghost(before.edges.len()));
                let ghost taken = RunView {
                    main_queue: before.main_queue.drop_first(),
                    shared: heads_dequeued(before.shared, node.queues, node.queues.len()),
                    ..before
                }.with_node(n as int, node.fed());
                proof {
                    assert(self@.nodes =~= taken.nodes);
                    assert(self@ =~= taken);
                    heads_keep(before.shared, node.queues, node.queues.len());
                    assert(kin(before, taken));
                    assert forall|k: int| 0 <= k < taken.main_queue.len() implies #[trigger] taken.main_queue[k]
                        < taken.nodes.len() by {
                        assert(taken.main_queue[k] == before.main_queue[k + 1]);
                    }
                    kin_fits(before, taken);
                    assert(taken.nodes[n as int] == self.nodes@[n as int]@);
                }
                match self.nodes[n].check_input_types(self.shared.type_names()) {
                    Err(e) => {
                        self.nodes[n].ctx.discard_staging();
                        let errors: u64 = self.nodes[n].stats.errors;
                        self.nodes[n].stats.errors = errors.wrapping_add(1);
                        let ghost problem = e@;
                        self.shared.record_error(e);
                        proof {
                            let stats = node.stats;
                            let refused = taken.with_ctx(
                                n as int,
                                taken.nodes[n as int].ctx.discarded(),
                            ).with_stats(
                                n as int,
                                NodeStats { errors: one_more(stats.errors), ..stats },
                            ).failed(problem);
                            assert(self@.nodes =~= refused.nodes);
                            assert(self@ =~= refused);
                            kin_fits(taken, refused);
                        }
                        self.finish(n, now)
                    },
                    Ok(()) => {
                        self.begin_call(n, now, Task::Processing(n));
                        Action::Call(n, KernelPhase::Process)
                    },
                }
            },
        }
    }

    /// Goes on after the call that is under way returned the status code `rc`
    /// after `us` microseconds.
    pub fn resume_step(&mut self, rc: i32, us: i64, now: u64) -> (r: Action)
        requires
            old(self)@.fits(),
            old(self)@.task is Processing || old(self)@.task is Closing || old(
                self,
            )@.task is Sweeping,
            us >= 0,
        ensures
            (final(self)@, r) == old(self)@.resumed(rc, us, now),
            final(self)@.fits(),
    {
        match self.task {
            Task::Processing(n) => self.resume_run(n, rc, us, now),
            Task::Closing(n) => self.resume_close(n, rc, us),
            Task::Sweeping(n) => self.resume_sweep(n, rc, us, now),
            _ => Action::Done(false),
        }
    }

    /// Goes on after a run.
    fn resume_run(&mut self, n: usize, rc: i32, us: i64, now: u64) -> (r: Action)
        requires
            old(self)@.fits(),
            n < old(self)@.nodes.len(),
            us >= 0,
        ensures
            (final(self)@, r) == old(self)@.timed(n as int, KernelPhase::Process, us).ran(
                n as int,
                rc,
            ).after_run(n as int, now),
            final(self)@.fits(),
    {
        proof {
            keeps_timed(self@, n as int, KernelPhase::Process, us);
            keeps_ran(self@.timed(n as int, KernelPhase::Process, us), n as int, rc);
        }
        self.end_call(n, KernelPhase::Process, us);
        self.complete_run(n, rc);
        self.finish(n, now)
    }

    /// Goes on after a node was closed that had just run.
    fn resume_close(&mut self, n: usize, rc: i32, us: i64) -> (r: Action)
        requires
            old(self)@.fits(),
            n < old(self)@.nodes.len(),
            us >= 0,
        ensures
            final(self)@ == old(self)@.timed(n as int, KernelPhase::Close, us).closed_node(
                n as int,
                rc,
            ).resting(),
            r == Action::Done(true),
            final(self)@.fits(),
    {
        proof {
            keeps_timed(self@, n as int, KernelPhase::Close, us);
        }
        self.end_call(n, KernelPhase::Close, us);
        self.complete_close(n, rc);
        let ghost after = self@;
        self.task = Task::Idle;
        proof {
            assert(self@ =~= after.resting());
            kin_fits(after, after.resting());
        }
        Action::Done(true)
    }

    /// Goes on after a node was closed in a pass over all nodes.
    fn resume_sweep(&mut self, n: usize, rc: i32, us: i64, now: u64) -> (r: Action)
        requires
            old(self)@.fits(),
            n < old(self)@.nodes.len(),
            us >= 0,
        ensures
            (final(self)@, r) == old(self)@.timed(n as int, KernelPhase::Close, us).closed_node(
                n as int,
                rc,
            ).swept(n + 1, true, now),
            final(self)@.fits(),
    {
        proof {
            keeps_timed(self@, n as int, KernelPhase::Close, us);
            keeps_closed_node(self@.timed(n as int, KernelPhase::Close, us), n as int, rc);
        }
        self.end_call(n, KernelPhase::Close, us);
        self.complete_close(n, rc);
        self.sweep(n + 1, true, now)
    }

    /// Begins a pass over all nodes that closes what is to be closed.
    pub fn try_advance_closing(&mut self, now: u64) -> (r: Action)
        requires
            old(self)@.fits(),
            old(self)@.task is Idle,
        ensures
            (final(self)@, r) == old(self)@.swept(0, false, now),
            final(self)@.fits(),
    {
        self.sweep(0, false, now)
    }
}

/// Counting packets changes nothing but the totals.
pub proof fn heads_keep(shared: SharedView, queues: Seq<Seq<Packet>>, k: nat)
    ensures
        heads_dequeued(shared, queues, k) == (SharedView {
            queued: heads_dequeued(shared, queues, k).queued,
            bytes: heads_dequeued(shared, queues, k).bytes,
            ..shared
        }),
    decreases k,
{
    if k > 0 {
        heads_keep(shared, queues, (k - 1) as nat);
    }
}

/// A copy of some numbers.
pub fn copy_numbers(list: &Vec<usize>) -> (r: Vec<usize>)
    ensures
        r@ == list@,
{
    let mut out: Vec<usize> = Vec::new();
    for i in 0..list.len()
        invariant
            out@ == list@.take(i as int),
    {
        out.push(list[i]);
        assert(out@ =~= list@.take(i + 1));
    }
    assert(out@ =~= list@);
    out
}

} // verus!

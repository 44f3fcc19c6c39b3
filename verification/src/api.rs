//! What the host does with a graph: starting it, feeding it, reading it,
//! ending it. And what a kernel does with its context while it is called.

use crate::context::{Context, ContextView};
use crate::engine::copy_numbers;
use crate::graph::{kin, kin_fits, kin_trans, poller_views, Graph, PollerInner};
use crate::packet::Packet;
use crate::run_state::{
    behind_head, head, state_name, state_number, KernelPhase, NodeSched, Notice, PollerView,
    RunEdge, RunView, State, Task,
};
use crate::runtime::{SharedView, LOG_WARN};
use crate::schedule::keeps_scheduled;
use crate::status::{failure, first_failure, Error, ErrorView};
use crate::text::{cat3, cat4, cat5, decimal_of_signed, signed_decimal};
use crate::timestamp::Timestamp;
use vstd::prelude::*;

verus! {

/// A graph input, by its edge.
#[derive(Debug, Clone, Copy, PartialEq, Eq, Structural)]
pub struct Input {
    pub edge: usize,
}

/// One of those who pull the packets of a graph output.
#[derive(Debug, Clone, Copy, PartialEq, Eq, Structural)]
pub struct Poller {
    pub edge: usize,
    pub index: usize,
}

/// What a poller finds.
#[derive(Debug, Clone, Copy, PartialEq, Eq, Structural)]
pub enum PollStep {
    /// The next packet.
    Got(Packet),
    /// Nothing more comes.
    End,
    /// Nothing yet: the engine has to make a step first.
    Pump,
}

/// What a send that may wait finds.
#[derive(Debug, Clone, Copy, PartialEq, Eq, Structural)]
pub enum SendStep {
    /// The packet is on its way.
    Sent,
    /// There is no room yet: the engine has to make a step first.
    Pump,
}

impl State {
    /// The text of the state.
    pub fn name(self) -> (r: &'static str)
        ensures
            r@ == state_name(self),
    {
        match self {
            State::Created => "Created",
            State::Initialized => "Initialized",
            State::Running => "Running",
            State::Draining => "Draining",
            State::Terminated => "Terminated",
        }
    }

    /// The number that the boundary gives the state.
    pub fn code(self) -> (r: i32)
        ensures
            r == state_number(self),
    {
        match self {
            State::Created => 0,
            State::Initialized => 1,
            State::Running => 2,
            State::Draining => 3,
            State::Terminated => 4,
        }
    }
}

// ------------------------------------------------------------------ the model

/// The first side packet that is needed and not there.
pub open spec fn missing_side_packet(
    required: Seq<(Seq<char>, Seq<char>)>,
    provided: Map<Seq<char>, Packet>,
) -> Option<ErrorView>
    decreases required.len(),
{
    if required.len() == 0 {
        None
    } else {
        let (need, who) = required.last();
        first_failure(
            missing_side_packet(required.drop_last(), provided),
            if provided.contains_key(need) {
                None
            } else {
                Some(
                    ErrorView::InvalidArg(
                        "缺少必需的 side packet `"@ + need + "` —— 节点 `"@ + who
                            + "` 在 GetContract 中声明了它;请在 start 之前用 set_side_packet 注入"@,
                    ),
                )
            },
        )
    }
}

proof fn lemma_missing_prefix(
    required: Seq<(Seq<char>, Seq<char>)>,
    provided: Map<Seq<char>, Packet>,
    k: int,
)
    requires
        0 <= k <= required.len(),
        missing_side_packet(required.take(k), provided) is Some,
    ensures
        missing_side_packet(required, provided) == missing_side_packet(required.take(k), provided),
    decreases required.len() - k,
{
    if k < required.len() {
        assert(required.take(k + 1).drop_last() =~= required.take(k));
        lemma_missing_prefix(required, provided, k + 1);
    } else {
        assert(required.take(k) =~= required);
    }
}

impl RunView {
    /// Why a graph cannot be started.
    pub open spec fn start_problem(self) -> Option<ErrorView> {
        if self.state !is Initialized {
            Some(
                ErrorView::State(
                    "start 只能在 Initialized 调用(当前 "@ + state_name(self.state) + ")"@,
                ),
            )
        } else {
            missing_side_packet(self.required, self.side_packets)
        }
    }

    /// With the next node to be opened, or running if there is none.
    pub open spec fn opening(self, n: int, now: u64) -> RunView {
        if n < self.nodes.len() {
            self.with_ctx(
                n,
                (ContextView {
                    side_packets: self.side_packets,
                    input_ts: Timestamp((i64::MIN + 1) as i64),
                    ..self.nodes[n].ctx.fresh()
                }),
            ).calling(n, now, Task::Opening(n as usize))
        } else {
            RunView { state: State::Running, ..self.resting() }
        }
    }

    /// After a node could not be opened.
    pub open spec fn open_failed(self, n: int, rc: i32) -> RunView {
        let ctx = self.nodes[n].ctx;
        self.with_ctx(n, ContextView { error_msg: None, ..ctx }).failed(
            ctx.call_error(rc),
        ).resting()
    }

    /// After a node was opened.
    pub open spec fn open_done(self, n: int) -> RunView {
        self.with_sched(n, NodeSched { opened: true, ..self.nodes[n].sched })
    }

    /// With one more poller of an edge.
    pub open spec fn polled(self, edge: int) -> RunView {
        let e = self.edges[edge];
        self.with_edge(
            edge,
            RunEdge {
                pollers: e.pollers.push(
                    PollerView { edge: edge as usize, queue: Seq::empty(), closed: false },
                ),
                ..e
            },
        )
    }

    /// With the oldest packet of a poller taken.
    pub open spec fn popped(self, edge: int, index: int) -> RunView {
        let e = self.edges[edge];
        let p = e.pollers[index];
        self.with_edge(
            edge,
            RunEdge {
                pollers: e.pollers.update(
                    index,
                    PollerView { queue: behind_head(p.queue), ..p },
                ),
                ..e
            },
        )
    }

    /// What a poller finds. `pumped` says whether the step before did
    /// anything, if there was one.
    pub open spec fn poll_step(self, edge: int, index: int, pumped: Option<bool>) -> PollStep {
        let p = self.edges[edge].pollers[index];
        match head(p.queue) {
            Some(packet) => PollStep::Got(packet),
            None => if p.closed || self.shared.error is Some || pumped == Some(false) {
                PollStep::End
            } else {
                PollStep::Pump
            },
        }
    }

    /// With the first `k` nodes put in line.
    pub open spec fn nodes_scheduled(self, k: nat) -> RunView
        decreases k,
    {
        if k == 0 {
            self
        } else {
            self.nodes_scheduled((k - 1) as nat).scheduled(k - 1)
        }
    }

    /// What waiting for the end reports: that the graph was cancelled, else
    /// its first failure.
    pub open spec fn verdict(self) -> Option<ErrorView> {
        if self.shared.cancelled {
            Some(ErrorView::Cancelled)
        } else {
            self.shared.error
        }
    }

    /// The next node that has to be closed when the graph is thrown away.
    pub open spec fn torn(self, n: int, now: u64) -> (RunView, Option<usize>)
        decreases self.nodes.len() - n,
    {
        if n >= self.nodes.len() {
            (self.resting(), None)
        } else if self.nodes[n].sched.opened && !self.nodes[n].sched.closed {
            (self.closing(n).calling(n, now, Task::Dropping(n as usize)), Some(n as usize))
        } else {
            self.torn(n + 1, now)
        }
    }

    /// After a node was closed because the graph is thrown away. A failure is
    /// only logged; nothing goes downstream.
    pub open spec fn dropped_node(self, n: int, rc: i32) -> RunView {
        let after = if rc != 0 {
            RunView {
                shared: self.shared.noted(
                    LOG_WARN,
                    "节点 `"@ + self.nodes[n].name + "` 在图销毁时的 close 返回 "@ + signed_decimal(
                        rc as int,
                    ) + "(已忽略)"@,
                ),
                ..self
            }
        } else {
            self
        };
        let released = after.with_ctx(n, after.nodes[n].ctx.released());
        released.with_sched(n, NodeSched { closed: true, ..released.nodes[n].sched })
    }
}

proof fn keeps_nodes_scheduled(g: RunView, k: nat)
    requires
        g.fits(),
        k <= g.nodes.len(),
    ensures
        kin(g, g.nodes_scheduled(k)),
        g.nodes_scheduled(k).task == g.task,
        g.nodes_scheduled(k).fits(),
    decreases k,
{
    if k > 0 {
        let before = g.nodes_scheduled((k - 1) as nat);
        keeps_nodes_scheduled(g, (k - 1) as nat);
        keeps_scheduled(before, k - 1);
        kin_trans(g, before, g.nodes_scheduled(k));
    }
}

// ------------------------------------------------------------------- starting

impl Graph {
    /// Refuses to start without the side packets that are needed.
    fn check_side_packets(&self) -> (r: Result<(), Error>)
        ensures
            failure(r) == missing_side_packet(self@.required, self@.side_packets),
    {
        let ghost all = self@.required;
        assert(all.take(0) =~= Seq::empty());
        for i in 0..self.required_side_packets.len()
            invariant
                all == self@.required,
                missing_side_packet(all.take(i as int), self@.side_packets) is None,
        {
            let need = self.required_side_packets[i].0.as_str();
            let who = self.required_side_packets[i].1.as_str();
            proof {
                assert(all.take(i + 1).drop_last() =~= all.take(i as int));
                assert(all.take(i + 1).last() == (need@, who@));
            }
            if !self.side_packets.contains_key(need) {
                proof {
                    lemma_missing_prefix(all, self@.side_packets, i + 1);
                }
                return Err(
                    Error::InvalidArg(
                        cat5(
                            "缺少必需的 side packet `",
                            need,
                            "` —— 节点 `",
                            who,
                            "` 在 GetContract 中声明了它;请在 start 之前用 set_side_packet 注入",
                        ),
                    ),
                );
            }
        }
        assert(all.take(all.len() as int) =~= all);
        Ok(())
    }

    /// Prepares the opening of a node, or sets the graph running if all are
    /// open.
    fn open_next(&mut self, n: usize, now: u64) -> (r: Option<usize>)
        requires
            old(self)@.fits(),
            n <= old(self)@.nodes.len(),
        ensures
            final(self)@ == old(self)@.opening(n as int, now),
            final(self)@.fits(),
            r == (if n < old(self)@.nodes.len() {
                Some(n)
            } else {
                None
            }),
    {
        let ghost before = self@;
        if n < self.nodes.len() {
            assert(before.nodes[n as int] == self.nodes@[n as int]@);
            let packets = self.side_packets.duplicate();
            self.nodes[n].ctx.set_side_packets(packets);
            self.nodes[n].ctx.reset();
            self.nodes[n].ctx.set_input_ts(Timestamp::unstarted());
            proof {
                let ready = before.with_ctx(
                    n as int,
                    (ContextView {
                        side_packets: before.side_packets,
                        input_ts: Timestamp((i64::MIN + 1) as i64),
                        ..before.nodes[n as int].ctx.fresh()
                    }),
                );
                assert(self@.nodes =~= ready.nodes);
                assert(self@ =~= ready);
                kin_fits(before, ready);
            }
            self.begin_call(n, now, Task::Opening(n));
            Some(n)
        } else {
            self.task = Task::Idle;
            self.state = State::Running;
            proof {
                kin_fits(before, self@);
            }
            None
        }
    }

    /// Begins to start the graph. The node that comes back is to be opened,
    /// and `resume_start` goes on; without one the graph runs.
    pub fn start(&mut self, now: u64) -> (r: Result<Option<usize>, Error>)
        requires
            old(self)@.fits(),
            old(self)@.task is Idle,
        ensures
            final(self)@.fits(),
            failure(r) == old(self)@.start_problem(),
            final(self)@ == (if r is Ok {
                old(self)@.opening(0, now)
            } else {
                old(self)@
            }),
            r matches Ok(next) ==> next == (if old(self)@.nodes.len() > 0 {
                Some(0usize)
            } else {
                None
            }),
    {
        if self.state != State::Initialized {
            return Err(
                Error::State(
                    cat3("start 只能在 Initialized 调用(当前 ", self.state.name(), ")"),
                ),
            );
        }
        self.check_side_packets()?;
        Ok(self.open_next(0, now))
    }

    /// Goes on after the opening of a node returned a status code.
    pub fn resume_start(&mut self, rc: i32, us: i64, now: u64) -> (r: Result<
        Option<usize>,
        Error,
    >)
        requires
            old(self)@.fits(),
            old(self)@.task is Opening,
            us >= 0,
        ensures
            final(self)@.fits(),
            ({
                let n = old(self)@.task->Opening_0;
                let back = old(self)@.timed(n as int, KernelPhase::Open, us);
                if rc != 0 {
                    &&& r matches Err(e) && e@ == back.nodes[n as int].ctx.call_error(rc)
                    &&& final(self)@ == back.open_failed(n as int, rc)
                } else {
                    &&& final(self)@ == back.open_done(n as int).opening(n + 1, now)
                    &&& r matches Ok(next) && next == (if n + 1 < old(self)@.nodes.len() {
                        Some((n + 1) as usize)
                    } else {
                        None
                    })
                }
            }),
    {
        let n: usize = match self.task {
            Task::Opening(n) => n,
            _ => 0,
        };
        self.end_call(n, KernelPhase::Open, us);
        let ghost back = self@;
        assert(back.nodes[n as int] == self.nodes@[n as int]@);
        if rc != 0 {
            let e = self.nodes[n].ctx.take_error(rc);
            self.shared.record_error(e.duplicate());
            self.task = Task::Idle;
            proof {
                let after = back.open_failed(n as int, rc);
                assert(self@.nodes =~= after.nodes);
                assert(self@ =~= after);
                kin_fits(back, after);
            }
            return Err(e);
        }
        self.nodes[n].sched.opened = true;
        proof {
            let after = back.open_done(n as int);
            assert(self@.nodes =~= after.nodes);
            assert(self@ =~= after);
            kin_fits(back, after);
            assert(n < self.nodes@.len());
            assert(self.nodes.len() == self.nodes@.len());
        }
        Ok(self.open_next(n + 1, now))
    }

    // ------------------------------------------------------------------ feeding

    /// Refuses a packet that a graph input does not take.
    pub fn check_send(&self, input: Input, pkt: Packet) -> (r: Result<(), Error>)
        requires
            input.edge < self@.edges.len(),
        ensures
            failure(r) == self@.send_problem(input.edge as int, pkt),
    {
        match self.state {
            State::Running => {},
            State::Draining => {
                return Err(Error::Closed);
            },
            State::Terminated => {
                return Err(Error::Closed);
            },
            s => {
                return Err(
                    Error::State(
                        cat3("send 需要图处于 Running(当前 ", s.name(), ");请先调用 start"),
                    ),
                );
            },
        }
        if self.shared.is_cancelled() {
            return Err(Error::Cancelled);
        }
        if let Some(e) = self.shared.first_error() {
            return Err(e);
        }
        assert(self@.edges[input.edge as int] == self.edges@[input.edge as int]@);
        if self.edges[input.edge].is_closed() {
            return Err(Error::Closed);
        }
        if pkt.timestamp() == Timestamp::unset() {
            return Err(
                Error::InvalidArg("图输入口上的包必须带明确时间戳(UNSET 非法)".to_owned()),
            );
        }
        Ok(())
    }

    /// Sends a packet on a graph input that has room for it. Its time stamp
    /// has to be greater than that of the packet before.
    pub fn commit_send(&mut self, input: Input, pkt: Packet) -> (r: Result<(), Error>)
        requires
            old(self)@.fits(),
            input.edge < old(self)@.edges.len(),
        ensures
            final(self)@.fits(),
            failure(r) == old(self)@.order_problem(input.edge as int, pkt),
            final(self)@ == (if r is Ok {
                old(self)@.accepted(input.edge as int, pkt)
            } else {
                old(self)@
            }),
    {
        let edge: usize = input.edge;
        let ghost before = self@;
        assert(before.edges[edge as int] == self.edges@[edge as int]@);
        let last = self.edges[edge].last_sent;
        if last != Timestamp::unset() && pkt.timestamp() <= last {
            let front = cat3(
                "图输入口 `",
                self.edges[edge].name.as_str(),
                "` 的时间戳必须严格递增:上一个 ",
            );
            return Err(
                Error::InvalidArg(
                    cat4(
                        front.as_str(),
                        last.text().as_str(),
                        ",本次 ",
                        pkt.timestamp().text().as_str(),
                    ),
                ),
            );
        }
        self.edges[edge].last_sent = pkt.timestamp();
        let mut packets: Vec<Packet> = Vec::new();
        packets.push(pkt);
        proof {
            let marked = before.with_edge(
                edge as int,
                RunEdge { last_sent: pkt.stamp, ..before.edges[edge as int] },
            );
            assert(self@.edges =~= marked.edges);
            assert(self@ =~= marked);
            kin_fits(before, marked);
            assert(packets@ =~= seq![pkt]);
        }
        self.send_on(edge, &packets);
        Ok(())
    }

    /// Sends a packet on a graph input, unless that would have to wait.
    pub fn try_send(&mut self, input: Input, pkt: Packet) -> (r: Result<(), Error>)
        requires
            old(self)@.fits(),
            input.edge < old(self)@.edges.len(),
        ensures
            final(self)@.fits(),
            failure(r) == first_failure(
                old(self)@.send_problem(input.edge as int, pkt),
                if old(self)@.shared.over_watermark() {
                    Some(ErrorView::WouldBlock)
                } else {
                    old(self)@.order_problem(input.edge as int, pkt)
                },
            ),
            final(self)@ == (if r is Ok {
                old(self)@.accepted(input.edge as int, pkt)
            } else {
                old(self)@
            }),
    {
        self.check_send(input, pkt)?;
        if self.shared.over_watermark() {
            return Err(Error::WouldBlock);
        }
        self.commit_send(input, pkt)
    }

    /// Sends a packet on a graph input, or says that a step of the engine has
    /// to make room first. `pumped` is whether the step before did anything,
    /// if there was one: with a step that did nothing, waiting is in vain.
    pub fn send(&mut self, input: Input, pkt: Packet, pumped: Option<bool>) -> (r: Result<
        SendStep,
        Error,
    >)
        requires
            old(self)@.fits(),
            input.edge < old(self)@.edges.len(),
        ensures
            final(self)@.fits(),
            failure(r) == first_failure(
                if pumped is None {
                    old(self)@.send_problem(input.edge as int, pkt)
                } else {
                    None
                },
                if !old(self)@.shared.over_watermark() {
                    old(self)@.order_problem(input.edge as int, pkt)
                } else if pumped == Some(false) {
                    Some(ErrorView::WouldBlock)
                } else {
                    None
                },
            ),
            r matches Ok(step) ==> (step is Pump <==> old(self)@.shared.over_watermark()),
            final(self)@ == (if r == Ok::<SendStep, Error>(SendStep::Sent) {
                old(self)@.accepted(input.edge as int, pkt)
            } else {
                old(self)@
            }),
    {
        if pumped.is_none() {
            self.check_send(input, pkt)?;
        }
        if self.shared.over_watermark() {
            return match pumped {
                Some(false) => Err(Error::WouldBlock),
                _ => Ok(SendStep::Pump),
            };
        }
        self.commit_send(input, pkt)?;
        Ok(SendStep::Sent)
    }

    /// Puts a constant input in place. `host_object` is the type that is
    /// reserved for objects of the host, which no side packet may have.
    pub fn set_side_packet(&mut self, name: &str, pkt: Packet, host_object: u64) -> (r: Result<
        (),
        Error,
    >)
        requires
            old(self)@.fits(),
        ensures
            final(self)@.fits(),
            failure(r) == (if old(self)@.state !is Initialized {
                Some(ErrorView::State("side packets must be injected before start"@))
            } else if pkt.kind == host_object {
                Some(
                    ErrorView::InvalidArg(
                        "side packet `"@ + name@
                            + "` carries LMFLOW_TYPE_HOST_OBJECT, which is reserved and not enabled (see ADR #26); use LMFLOW_TYPE_BUFFER for numeric collections, or LMFLOW_TYPE_STR carrying JSON for arbitrary metadata"@,
                    ),
                )
            } else {
                None
            }),
            final(self)@ == (if r is Ok {
                RunView {
                    side_packets: old(self)@.side_packets.insert(name@, pkt),
                    ..old(self)@
                }
            } else {
                old(self)@
            }),
    {
        if self.state != State::Initialized {
            return Err(Error::State("side packets must be injected before start".to_owned()));
        }
        if pkt.type_id() == host_object {
            return Err(
                Error::InvalidArg(
                    cat3(
                        "side packet `",
                        name,
                        "` carries LMFLOW_TYPE_HOST_OBJECT, which is reserved and not enabled (see ADR #26); use LMFLOW_TYPE_BUFFER for numeric collections, or LMFLOW_TYPE_STR carrying JSON for arbitrary metadata",
                    ),
                ),
            );
        }
        let ghost before = self@;
        self.side_packets.insert(name.to_owned(), pkt);
        proof {
            kin_fits(before, self@);
        }
        Ok(())
    }

    // ------------------------------------------------------------------ reading

    /// Adds a poller of a graph output. Only before the start, so that it
    /// misses nothing.
    pub fn add_poller(&mut self, port: &str) -> (r: Result<Poller, Error>)
        requires
            old(self)@.fits(),
        ensures
            final(self)@.fits(),
            failure(r) == (if old(self)@.state !is Initialized {
                Some(
                    ErrorView::State(
                        "add_poller 必须在 start 之前调用(当前 "@ + state_name(old(self)@.state)
                            + ")"@,
                    ),
                )
            } else if !old(self)@.output_by_name.contains_key(port@) {
                Some(ErrorView::NotFound("图输出口 `"@ + port@ + "` 不存在"@))
            } else {
                None
            }),
            match r {
                Ok(p) => {
                    &&& p.edge == old(self)@.output_by_name[port@]
                    &&& p.index == old(self)@.edges[p.edge as int].pollers.len()
                    &&& final(self)@ == old(self)@.polled(p.edge as int)
                    &&& final(self)@.has_poller(p.edge as int, p.index as int)
                },
                Err(_) => final(self)@ == old(self)@,
            },
    {
        if self.state != State::Initialized {
            return Err(
                Error::State(
                    cat3("add_poller 必须在 start 之前调用(当前 ", self.state.name(), ")"),
                ),
            );
        }
        let edge: usize = match self.output_by_name.get(port) {
            Some(e) => *e,
            None => {
                return Err(Error::NotFound(cat3("图输出口 `", port, "` 不存在")));
            },
        };
        let ghost before = self@;
        assert(before.output_by_name.contains_key(port@));
        assert(before.edges[edge as int] == self.edges@[edge as int]@);
        let index: usize = self.edges[edge].pollers.len();
        self.edges[edge].pollers.push(PollerInner::new(edge));
        proof {
            let after = before.polled(edge as int);
            assert(poller_views(self.edges@[edge as int].pollers@)
                =~= after.edges[edge as int].pollers);
            assert(self@.edges =~= after.edges);
            assert(self@ =~= after);
            kin_fits(before, after);
        }
        Ok(Poller { edge, index })
    }

    /// Takes the next packet of a poller, if there is one.
    pub fn try_next(&mut self, p: Poller) -> (r: Option<Packet>)
        requires
            old(self)@.fits(),
            old(self)@.has_poller(p.edge as int, p.index as int),
        ensures
            final(self)@.fits(),
            r == head(old(self)@.edges[p.edge as int].pollers[p.index as int].queue),
            final(self)@ == old(self)@.popped(p.edge as int, p.index as int),
    {
        let ghost before = self@;
        assert(before.edges[p.edge as int] == self.edges@[p.edge as int]@);
        assert(before.edges[p.edge as int].pollers[p.index as int]
            == self.edges@[p.edge as int].pollers@[p.index as int]@);
        let r = self.edges[p.edge].pollers[p.index].pop();
        proof {
            let after = before.popped(p.edge as int, p.index as int);
            assert(poller_views(self.edges@[p.edge as int].pollers@)
                =~= after.edges[p.edge as int].pollers);
            assert(self@.edges =~= after.edges);
            assert(self@ =~= after);
            kin_fits(before, after);
        }
        r
    }

    /// Takes the next packet of a poller, or says whether a step of the
    /// engine could bring one. `pumped` is whether the step before did
    /// anything, if there was one.
    pub fn next_packet(&mut self, p: Poller, pumped: Option<bool>) -> (r: PollStep)
        requires
            old(self)@.fits(),
            old(self)@.has_poller(p.edge as int, p.index as int),
        ensures
            final(self)@.fits(),
            r == old(self)@.poll_step(p.edge as int, p.index as int, pumped),
            final(self)@ == old(self)@.popped(p.edge as int, p.index as int),
    {
        assert(self@.edges[p.edge as int] == self.edges@[p.edge as int]@);
        assert(self@.edges[p.edge as int].pollers[p.index as int]
            == self.edges@[p.edge as int].pollers@[p.index as int]@);
        let closed = self.edges[p.edge].pollers[p.index].is_closed();
        let failed = self.shared.has_error();
        match self.try_next(p) {
            Some(packet) => PollStep::Got(packet),
            None => match pumped {
                Some(false) => PollStep::End,
                _ => if closed || failed {
                    PollStep::End
                } else {
                    PollStep::Pump
                },
            },
        }
    }

    /// Whether nothing waits for a poller.
    pub fn poller_is_empty(&self, p: Poller) -> (r: bool)
        requires
            self@.has_poller(p.edge as int, p.index as int),
        ensures
            r == (self@.edges[p.edge as int].pollers[p.index as int].queue.len() == 0),
    {
        assert(self@.edges[p.edge as int] == self.edges@[p.edge as int]@);
        assert(self@.edges[p.edge as int].pollers[p.index as int]
            == self.edges@[p.edge as int].pollers@[p.index as int]@);
        self.edges[p.edge].pollers[p.index].is_empty()
    }

    /// Whether nothing more will come to a poller.
    pub fn poller_is_closed(&self, p: Poller) -> (r: bool)
        requires
            self@.has_poller(p.edge as int, p.index as int),
        ensures
            r == self@.edges[p.edge as int].pollers[p.index as int].closed,
    {
        assert(self@.edges[p.edge as int] == self.edges@[p.edge as int]@);
        self.edges[p.edge].pollers[p.index].is_closed()
    }

    /// Adds an observer of a graph output.
    pub fn add_observer(&mut self, port: &str, observer: u64) -> (r: Result<(), Error>)
        requires
            old(self)@.fits(),
        ensures
            final(self)@.fits(),
            failure(r) == (if !old(self)@.output_by_name.contains_key(port@) {
                Some(ErrorView::NotFound("图输出口 `"@ + port@ + "` 不存在"@))
            } else {
                None
            }),
            final(self)@ == (if r is Ok {
                let edge = old(self)@.output_by_name[port@] as int;
                let e = old(self)@.edges[edge];
                old(self)@.with_edge(
                    edge,
                    (RunEdge { observers: e.observers.push(observer), ..e }),
                )
            } else {
                old(self)@
            }),
    {
        let edge: usize = match self.output_by_name.get(port) {
            Some(e) => *e,
            None => {
                return Err(Error::NotFound(cat3("图输出口 `", port, "` 不存在")));
            },
        };
        let ghost before = self@;
        assert(before.output_by_name.contains_key(port@));
        assert(before.edges[edge as int] == self.edges@[edge as int]@);
        self.edges[edge].observers.push(observer);
        proof {
            let e = before.edges[edge as int];
            let after = before.with_edge(
                edge as int,
                RunEdge { observers: e.observers.push(observer), ..e },
            );
            assert(self@.edges =~= after.edges);
            assert(self@ =~= after);
            kin_fits(before, after);
        }
        Ok(())
    }

    /// Adds an observer of a graph output before the start.
    pub fn observe(&mut self, port: &str, observer: u64) -> (r: Result<(), Error>)
        requires
            old(self)@.fits(),
        ensures
            final(self)@.fits(),
            failure(r) == (if old(self)@.state !is Initialized {
                Some(
                    ErrorView::State(
                        "observe must be called before start, otherwise already-produced packets are missed"@,
                    ),
                )
            } else if !old(self)@.output_by_name.contains_key(port@) {
                Some(ErrorView::NotFound("图输出口 `"@ + port@ + "` 不存在"@))
            } else {
                None
            }),
            final(self)@ == (if r is Ok {
                let edge = old(self)@.output_by_name[port@] as int;
                let e = old(self)@.edges[edge];
                old(self)@.with_edge(
                    edge,
                    (RunEdge { observers: e.observers.push(observer), ..e }),
                )
            } else {
                old(self)@
            }),
    {
        if self.state != State::Initialized {
            return Err(
                Error::State(
                    "observe must be called before start, otherwise already-produced packets are missed".to_owned(),
                ),
            );
        }
        self.add_observer(port, observer)
    }

    /// Hands out what the observers have not been told yet.
    pub fn take_notices(&mut self) -> (r: Vec<Notice>)
        requires
            old(self)@.fits(),
        ensures
            final(self)@.fits(),
            r@ == old(self)@.outbox,
            final(self)@ == (RunView { outbox: Seq::empty(), ..old(self)@ }),
    {
        let ghost before = self@;
        let mut out: Vec<Notice> = Vec::new();
        std::mem::swap(&mut out, &mut self.outbox);
        proof {
            kin_fits(before, self@);
        }
        out
    }

    // ------------------------------------------------------------------- ending

    /// The graph input of that name.
    pub fn input(&self, port: &str) -> (r: Result<Input, Error>)
        requires
            self@.fits(),
        ensures
            match r {
                Ok(i) => {
                    &&& self@.input_by_name.contains_key(port@)
                    &&& i.edge == self@.input_by_name[port@]
                    &&& i.edge < self@.edges.len()
                },
                Err(e) => {
                    &&& !self@.input_by_name.contains_key(port@)
                    &&& e@ == ErrorView::NotFound("图输入口 `"@ + port@ + "` 不存在"@)
                },
            },
    {
        match self.input_by_name.get(port) {
            Some(e) => {
                assert(self@.input_by_name.contains_key(port@));
                Ok(Input { edge: *e })
            },
            None => Err(Error::NotFound(cat3("图输入口 `", port, "` 不存在"))),
        }
    }

    /// Closes an edge and lets the state follow.
    pub fn close(&mut self, input: Input)
        requires
            old(self)@.fits(),
            input.edge < old(self)@.edges.len(),
        ensures
            final(self)@.fits(),
            final(self)@ == old(self)@.edge_closed(input.edge as int).drain_noted(),
    {
        self.close_edge(input.edge);
        self.set_state_draining_if_all_inputs_closed();
    }

    /// Closes the graph input of that name.
    pub fn close_input(&mut self, port: &str) -> (r: Result<(), Error>)
        requires
            old(self)@.fits(),
        ensures
            final(self)@.fits(),
            failure(r) == (if old(self)@.input_by_name.contains_key(port@) {
                None
            } else {
                Some(ErrorView::NotFound("图输入口 `"@ + port@ + "` 不存在"@))
            }),
            final(self)@ == (if r is Ok {
                old(self)@.edge_closed(old(self)@.input_by_name[port@] as int).drain_noted()
            } else {
                old(self)@
            }),
    {
        let input = self.input(port)?;
        self.close(input);
        Ok(())
    }

    /// Closes every graph input.
    pub fn close_all_inputs(&mut self)
        requires
            old(self)@.fits(),
        ensures
            final(self)@.fits(),
            final(self)@ == old(self)@.edges_closed(
                old(self)@.graph_inputs,
                old(self)@.graph_inputs.len(),
            ).drain_noted(),
    {
        let edges = copy_numbers(&self.graph_inputs);
        self.close_edges(&edges);
        self.set_state_draining_if_all_inputs_closed();
    }

    /// Cancels the graph: nothing is claimed any more, and every open node is
    /// closed at the next opportunity.
    pub fn cancel(&mut self)
        requires
            old(self)@.fits(),
        ensures
            final(self)@.fits(),
            final(self)@ == (RunView {
                shared: SharedView { cancelled: true, ..old(self)@.shared },
                ..old(self)@
            }),
    {
        let ghost before = self@;
        self.shared.cancel();
        proof {
            kin_fits(before, self@);
        }
    }

    /// Stops claiming nodes.
    pub fn pause(&mut self)
        requires
            old(self)@.fits(),
        ensures
            final(self)@.fits(),
            final(self)@ == (RunView { paused: true, ..old(self)@ }),
    {
        let ghost before = self@;
        self.paused = true;
        proof {
            kin_fits(before, self@);
        }
    }

    /// Claims nodes again, beginning with what came in between.
    pub fn resume(&mut self)
        requires
            old(self)@.fits(),
        ensures
            final(self)@.fits(),
            final(self)@ == (RunView { paused: false, ..old(self)@ }).nodes_scheduled(
                old(self)@.nodes.len(),
            ),
    {
        let ghost before = self@;
        self.paused = false;
        let ghost awake = self@;
        proof {
            kin_fits(before, awake);
        }
        let count: usize = self.nodes.len();
        for n in 0..count
            invariant
                awake.fits(),
                count == awake.nodes.len(),
                self@ == awake.nodes_scheduled(n as nat),
                self@.fits(),
        {
            proof {
                keeps_nodes_scheduled(awake, n as nat);
            }
            self.schedule(n);
        }
    }

    pub fn is_paused(&self) -> (r: bool)
        ensures
            r == self@.paused,
    {
        self.paused
    }

    /// Whether no node waits for its turn and no call is under way.
    pub fn is_idle(&self) -> (r: bool)
        ensures
            r == (self@.main_queue.len() == 0 && self@.task is Idle),
    {
        self.main_queue.len() == 0 && self.task == Task::Idle
    }

    /// The end of waiting until the graph is idle: its first failure.
    pub fn idle_result(&self) -> (r: Result<(), Error>)
        ensures
            failure(r) == self@.shared.error,
    {
        match self.shared.first_error() {
            Some(e) => Err(e),
            None => Ok(()),
        }
    }

    /// Whether waiting until the graph is done takes another step of the
    /// engine. `pumped` is whether the step before did anything, if there was
    /// one.
    pub fn wait_done(&self, pumped: Option<bool>) -> (r: bool)
        ensures
            r == !(self@.all_closed() || pumped == Some(false)),
    {
        match pumped {
            Some(false) => false,
            _ => !self.all_nodes_closed(),
        }
    }

    /// The end of waiting until the graph is done: with every node closed the
    /// graph is terminated, and what went wrong is reported.
    pub fn finish_wait(&mut self) -> (r: Result<(), Error>)
        requires
            old(self)@.fits(),
        ensures
            final(self)@.fits(),
            failure(r) == old(self)@.verdict(),
            final(self)@ == (if old(self)@.all_closed() {
                RunView { state: State::Terminated, ..old(self)@ }
            } else {
                old(self)@
            }),
    {
        let ghost before = self@;
        if self.all_nodes_closed() {
            self.state = State::Terminated;
            proof {
                kin_fits(before, self@);
            }
        }
        if self.shared.is_cancelled() {
            return Err(Error::Cancelled);
        }
        self.idle_result()
    }

    /// Begins to throw the graph away. The node that comes back is to be
    /// closed, and `resume_teardown` goes on.
    pub fn teardown(&mut self, from: usize, now: u64) -> (r: Option<usize>)
        requires
            old(self)@.fits(),
            from <= old(self)@.nodes.len(),
        ensures
            final(self)@.fits(),
            (final(self)@, r) == old(self)@.torn(from as int, now),
    {
        let ghost before = self@;
        let mut n: usize = from;
        while n < self.nodes.len()
            invariant
                self@ == before,
                before == old(self)@,
                before.fits(),
                n <= before.nodes.len(),
                self.nodes@.len() == before.nodes.len(),
                before.torn(from as int, now) == before.torn(n as int, now),
            decreases self.nodes@.len() - n,
        {
            assert(before.nodes[n as int] == self.nodes@[n as int]@);
            if self.nodes[n].sched.opened && !self.nodes[n].sched.closed {
                self.prepare_close(n);
                self.begin_call(n, now, Task::Dropping(n));
                return Some(n);
            }
            n += 1;
        }
        self.task = Task::Idle;
        proof {
            kin_fits(before, self@);
        }
        None
    }

    /// Goes on with throwing the graph away after a node was closed.
    pub fn resume_teardown(&mut self, rc: i32, us: i64, now: u64) -> (r: Option<usize>)
        requires
            old(self)@.fits(),
            old(self)@.task is Dropping,
            us >= 0,
        ensures
            final(self)@.fits(),
            ({
                let n = old(self)@.task->Dropping_0;
                (final(self)@, r) == old(self)@.timed(
                    n as int,
                    KernelPhase::Close,
                    us,
                ).dropped_node(n as int, rc).torn(n + 1, now)
            }),
    {
        let n: usize = match self.task {
            Task::Dropping(n) => n,
            _ => 0,
        };
        self.end_call(n, KernelPhase::Close, us);
        let ghost back = self@;
        assert(back.nodes[n as int] == self.nodes@[n as int]@);
        if rc != 0 {
            let line = cat5(
                "节点 `",
                self.nodes[n].name.as_str(),
                "` 在图销毁时的 close 返回 ",
                decimal_of_signed(rc as i64).as_str(),
                "(已忽略)",
            );
            self.shared.note(LOG_WARN, line.as_str());
        }
        self.nodes[n].ctx.clear_inputs();
        self.nodes[n].sched.closed = true;
        proof {
            let after = back.dropped_node(n as int, rc);
            assert(self@.nodes =~= after.nodes);
            assert(self@ =~= after);
            kin_fits(back, after);
            assert(self.nodes.len() == self.nodes@.len());
        }
        self.teardown(n + 1, now)
    }

    // ------------------------------------------------------------------ kernels

    /// The context of a node, to read.
    pub fn context(&self, n: usize) -> (r: &Context)
        requires
            n < self@.nodes.len(),
        ensures
            r@ == self@.nodes[n as int].ctx,
    {
        &self.nodes[n].ctx
    }

    /// A kernel emits a packet.
    pub fn emit(&mut self, n: usize, out_idx: usize, pkt: Packet) -> (r: Result<(), Error>)
        requires
            old(self)@.fits(),
            n < old(self)@.nodes.len(),
        ensures
            final(self)@.fits(),
            failure(r) == old(self)@.nodes[n as int].ctx.emit_problem(out_idx),
            final(self)@ == (if r is Ok {
                old(self)@.with_ctx(
                    n as int,
                    old(self)@.nodes[n as int].ctx.emitted(out_idx as int, pkt),
                )
            } else {
                old(self)@
            }),
    {
        let ghost before = self@;
        assert(before.nodes[n as int] == self.nodes@[n as int]@);
        let r = self.nodes[n].ctx.emit(out_idx, pkt);
        proof {
            let after = if r is Ok {
                before.with_ctx(
                    n as int,
                    before.nodes[n as int].ctx.emitted(out_idx as int, pkt),
                )
            } else {
                before
            };
            assert(self@.nodes =~= after.nodes);
            assert(self@ =~= after);
            kin_fits(before, after);
        }
        r
    }

    /// A kernel passes the packet of an input port through.
    pub fn forward(&mut self, n: usize, in_idx: usize, out_idx: usize) -> (r: Result<(), Error>)
        requires
            old(self)@.fits(),
            n < old(self)@.nodes.len(),
        ensures
            final(self)@.fits(),
            failure(r) == old(self)@.nodes[n as int].ctx.forward_problem(in_idx, out_idx),
            final(self)@ == (if r is Ok {
                old(self)@.with_ctx(
                    n as int,
                    old(self)@.nodes[n as int].ctx.emitted(
                        out_idx as int,
                        old(self)@.nodes[n as int].ctx.inputs[in_idx as int]->Some_0,
                    ),
                )
            } else {
                old(self)@
            }),
    {
        let ghost before = self@;
        assert(before.nodes[n as int] == self.nodes@[n as int]@);
        let r = self.nodes[n].ctx.forward(in_idx, out_idx);
        proof {
            let ctx = before.nodes[n as int].ctx;
            let after = if r is Ok {
                before.with_ctx(
                    n as int,
                    ctx.emitted(out_idx as int, ctx.inputs[in_idx as int]->Some_0),
                )
            } else {
                before
            };
            assert(self@.nodes =~= after.nodes);
            assert(self@ =~= after);
            kin_fits(before, after);
        }
        r
    }

    /// A kernel takes the packet of an input port away; an empty one comes
    /// from a port that is not there.
    pub fn take_input(&mut self, n: usize, idx: usize) -> (r: Packet)
        requires
            old(self)@.fits(),
            n < old(self)@.nodes.len(),
        ensures
            final(self)@.fits(),
            ({
                let ctx = old(self)@.nodes[n as int].ctx;
                if idx < ctx.inputs.len() {
                    &&& ctx.inputs[idx as int] matches Some(p) ==> r == p
                    &&& ctx.inputs[idx as int] is None ==> r.is_hollow()
                    &&& final(self)@ == old(self)@.with_ctx(
                        n as int,
                        (ContextView { inputs: ctx.inputs.update(idx as int, None), ..ctx }),
                    )
                } else {
                    r.is_hollow() && final(self)@ == old(self)@
                }
            }),
    {
        let ghost before = self@;
        let ghost ctx = before.nodes[n as int].ctx;
        assert(before.nodes[n as int] == self.nodes@[n as int]@);
        assert(before.nodes[n as int].fits(before.edges.len()));
        let r = self.nodes[n].ctx.take_input(idx);
        proof {
            let after = before.with_ctx(
                n as int,
                if idx < ctx.inputs.len() {
                    ContextView { inputs: ctx.inputs.update(idx as int, None), ..ctx }
                } else {
                    ctx
                },
            );
            assert(self@.nodes =~= after.nodes);
            assert(self@ =~= after);
            kin_fits(before, after);
        }
        r
    }

    /// A kernel sets the bound of an output port; a port that is not there is
    /// passed over.
    pub fn set_next_bound(&mut self, n: usize, out_idx: usize, bound: Timestamp)
        requires
            old(self)@.fits(),
            n < old(self)@.nodes.len(),
        ensures
            final(self)@.fits(),
            ({
                let ctx = old(self)@.nodes[n as int].ctx;
                final(self)@ == (if out_idx < ctx.bounds.len() {
                    old(self)@.with_ctx(
                        n as int,
                        (ContextView {
                            bounds: ctx.bounds.update(out_idx as int, Some(bound)),
                            ..ctx
                        }),
                    )
                } else {
                    old(self)@
                })
            }),
    {
        let ghost before = self@;
        let ghost ctx = before.nodes[n as int].ctx;
        assert(before.nodes[n as int] == self.nodes@[n as int]@);
        assert(before.nodes[n as int].fits(before.edges.len()));
        self.nodes[n].ctx.set_next_bound(out_idx, bound);
        proof {
            let after = before.with_ctx(
                n as int,
                if out_idx < ctx.bounds.len() {
                    ContextView { bounds: ctx.bounds.update(out_idx as int, Some(bound)), ..ctx }
                } else {
                    ctx
                },
            );
            assert(self@.nodes =~= after.nodes);
            assert(self@ =~= after);
            kin_fits(before, after);
        }
    }

    /// A kernel says why its call fails.
    pub fn set_error(&mut self, n: usize, msg: &str)
        requires
            old(self)@.fits(),
            n < old(self)@.nodes.len(),
        ensures
            final(self)@.fits(),
            final(self)@ == old(self)@.with_ctx(
                n as int,
                (ContextView { error_msg: Some(msg@), ..old(self)@.nodes[n as int].ctx }),
            ),
    {
        let ghost before = self@;
        let ghost ctx = before.nodes[n as int].ctx;
        assert(before.nodes[n as int] == self.nodes@[n as int]@);
        self.nodes[n].ctx.set_error(msg);
        proof {
            let after = before.with_ctx(
                n as int,
                (ContextView { error_msg: Some(msg@), ..ctx }),
            );
            assert(self@.nodes =~= after.nodes);
            assert(self@ =~= after);
            kin_fits(before, after);
        }
    }
}

} // verus!

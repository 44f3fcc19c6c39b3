//! The state of a running graph and how it changes.
//!
//! Queues belong to the input ports of the consumers, not to the edges: each
//! consumer of an edge gets every packet. An edge holds the topology, whether
//! it is closed, and who listens.
//!
//! A kernel call happens outside. The state says which call is under way, and
//! a change either ends with the next call to make or with nothing to call.

use crate::context::ContextView;
use crate::packet::{first_misfit, name_of_type, no_packets, Packet};
use crate::runtime::{SharedView, LOG_WARN};
use crate::status::{first_failure, ErrorView};
use crate::text::decimal;
use crate::timestamp::{shown, Timestamp};
use vstd::prelude::*;

verus! {

/// How far the life of a graph has come.
#[derive(Debug, Clone, Copy, PartialEq, Eq, Structural)]
pub enum State {
    Created,
    Initialized,
    Running,
    Draining,
    Terminated,
}

/// When a node is ready to run, and what happens when a queue is full.
#[derive(Debug, Clone, Copy, PartialEq, Eq, Structural)]
pub enum Policy {
    /// Every input port has a packet.
    Sync,
    /// Some input port has a packet.
    Immediate,
    /// Every input port has a packet; a queue of that length drops its oldest.
    FixedSize(usize),
}

/// Which of its functions a kernel is called by.
#[derive(Debug, Clone, Copy, PartialEq, Eq, Structural)]
pub enum KernelPhase {
    Open,
    Process,
    Close,
}

/// Which kernel call is under way, and why.
#[derive(Debug, Clone, Copy, PartialEq, Eq, Structural)]
pub enum Task {
    Idle,
    /// The node is opened, one after the other from the first.
    Opening(usize),
    /// The node runs.
    Processing(usize),
    /// The node is closed after its last run.
    Closing(usize),
    /// The node is closed, in a pass over all nodes.
    Sweeping(usize),
    /// The node is closed because the graph is thrown away.
    Dropping(usize),
}

/// What comes next.
#[derive(Debug, Clone, Copy, PartialEq, Eq, Structural)]
pub enum Action {
    /// A kernel is to be called.
    Call(usize, KernelPhase),
    /// Nothing is to be called; whether anything was done.
    Done(bool),
}

/// A packet for one of those that observe an output.
#[derive(Debug, Clone, Copy, PartialEq, Eq, Structural)]
pub struct Notice {
    pub observer: u64,
    pub packet: Packet,
}

#[derive(Debug, Clone, Copy, PartialEq, Eq, Structural)]
pub struct NodeSched {
    pub opened: bool,
    pub closed: bool,
    /// Whether the node waits for its turn or runs. Nobody else may claim it.
    pub running: bool,
    /// Whether something came while it was claimed.
    pub rescan: bool,
}

#[derive(Debug, Clone, Copy, PartialEq, Eq, Structural)]
pub struct NodeStats {
    pub processed: u64,
    pub errors: u64,
    pub total_us: i64,
    pub max_us: i64,
}

// ------------------------------------------------------------------ the model

#[verifier::ext_equal]
pub struct PollerView {
    pub edge: usize,
    pub queue: Seq<Packet>,
    pub closed: bool,
}

#[verifier::ext_equal]
pub struct RunEdge {
    pub name: Seq<char>,
    pub producer: Option<usize>,
    /// The nodes that read the edge, each with its input port.
    pub consumers: Seq<(usize, usize)>,
    pub is_graph_input: bool,
    pub is_graph_output: bool,
    pub closed: bool,
    pub dropped: u64,
    /// The time stamp of the last packet that was sent.
    pub last_sent: Timestamp,
    pub pollers: Seq<PollerView>,
    pub observers: Seq<u64>,
}

#[verifier::ext_equal]
pub struct RunNode {
    pub name: Seq<char>,
    pub kernel_name: Seq<char>,
    pub inputs: Seq<usize>,
    pub outputs: Seq<usize>,
    /// The type that each input port wants; zero is any.
    pub input_types: Seq<u64>,
    /// The type that the kernel declared for each output port; zero is any.
    pub output_types: Seq<u64>,
    pub policy: Policy,
    pub ctx: ContextView,
    pub sched: NodeSched,
    pub stats: NodeStats,
    /// The packets that wait at each input port.
    pub queues: Seq<Seq<Packet>>,
    /// Which input ports are closed.
    pub closed: Seq<bool>,
    /// When the call that is under way began, in microseconds.
    pub running_since: Option<u64>,
}

#[verifier::ext_equal]
pub struct RunView {
    pub shared: SharedView,
    pub nodes: Seq<RunNode>,
    pub edges: Seq<RunEdge>,
    pub graph_inputs: Seq<usize>,
    pub graph_outputs: Seq<usize>,
    pub input_by_name: Map<Seq<char>, usize>,
    pub output_by_name: Map<Seq<char>, usize>,
    pub edge_by_name: Map<Seq<char>, usize>,
    pub state: State,
    /// The nodes that wait for their turn.
    pub main_queue: Seq<usize>,
    pub side_packets: Map<Seq<char>, Packet>,
    /// The side packets that are needed, each with the node that needs it.
    pub required: Seq<(Seq<char>, Seq<char>)>,
    /// What observers have not been told yet.
    pub outbox: Seq<Notice>,
    pub paused: bool,
    pub task: Task,
}

/// One more, starting again at zero past the end.
pub open spec fn one_more(n: u64) -> u64 {
    if n == u64::MAX {
        0
    } else {
        (n + 1) as u64
    }
}

/// The sum of two signed numbers, counted on from the other end where it does
/// not fit.
pub open spec fn wrapped_sum(a: i64, b: i64) -> i64 {
    if a + b > i64::MAX {
        (a + b - 0x1_0000_0000_0000_0000) as i64
    } else if a + b < i64::MIN {
        (a + b + 0x1_0000_0000_0000_0000) as i64
    } else {
        (a + b) as i64
    }
}

/// Whether a number is a power of two.
pub open spec fn power_of_two(n: nat) -> bool
    decreases n,
{
    if n <= 1 {
        n == 1
    } else {
        n % 2 == 0 && power_of_two(n / 2)
    }
}

/// The number of a state.
pub open spec fn state_number(s: State) -> i32 {
    match s {
        State::Created => 0,
        State::Initialized => 1,
        State::Running => 2,
        State::Draining => 3,
        State::Terminated => 4,
    }
}

/// The text of a state.
pub open spec fn state_name(s: State) -> Seq<char> {
    match s {
        State::Created => "Created"@,
        State::Initialized => "Initialized"@,
        State::Running => "Running"@,
        State::Draining => "Draining"@,
        State::Terminated => "Terminated"@,
    }
}

/// The text of a phase.
pub open spec fn phase_name(p: KernelPhase) -> Seq<char> {
    match p {
        KernelPhase::Open => "Open"@,
        KernelPhase::Process => "Process"@,
        KernelPhase::Close => "Close"@,
    }
}

/// The least of the time stamps at the heads of the first `k` queues, or
/// `Done` if all are empty.
pub open spec fn least_stamp(queues: Seq<Seq<Packet>>, k: nat) -> Timestamp
    decreases k,
{
    if k == 0 {
        Timestamp(i64::MAX)
    } else {
        let before = least_stamp(queues, (k - 1) as nat);
        if queues[k - 1].len() > 0 && queues[k - 1][0].stamp.0 < before.0 {
            queues[k - 1][0].stamp
        } else {
            before
        }
    }
}

/// The totals after the heads of the first `k` queues left.
pub open spec fn heads_dequeued(shared: SharedView, queues: Seq<Seq<Packet>>, k: nat) -> SharedView
    decreases k,
{
    if k == 0 {
        shared
    } else {
        let before = heads_dequeued(shared, queues, (k - 1) as nat);
        if queues[k - 1].len() > 0 {
            before.dequeued(queues[k - 1][0].bytes)
        } else {
            before
        }
    }
}

/// The head of a queue.
pub open spec fn head(queue: Seq<Packet>) -> Option<Packet> {
    if queue.len() > 0 {
        Some(queue[0])
    } else {
        None
    }
}

/// A queue without its head.
pub open spec fn behind_head(queue: Seq<Packet>) -> Seq<Packet> {
    if queue.len() > 0 {
        queue.drop_first()
    } else {
        queue
    }
}

impl RunNode {
    /// Whether there is a place for every port, and every port is an edge
    /// below `edges`.
    pub open spec fn fits(self, edges: nat) -> bool {
        &&& self.ctx.fits()
        &&& self.ctx.in_ports.len() == self.inputs.len()
        &&& self.ctx.out_ports.len() == self.outputs.len()
        &&& self.queues.len() == self.inputs.len()
        &&& self.closed.len() == self.inputs.len()
        &&& self.inputs.len() <= usize::MAX
        &&& self.outputs.len() <= usize::MAX
        &&& forall|i: int| 0 <= i < self.inputs.len() ==> #[trigger] self.inputs[i] < edges
        &&& forall|i: int| 0 <= i < self.outputs.len() ==> #[trigger] self.outputs[i] < edges
    }

    /// Whether the node has what it needs for a run.
    pub open spec fn ready(self) -> bool {
        if self.policy is Immediate {
            exists|i: int| 0 <= i < self.queues.len() && (#[trigger] self.queues[i]).len() > 0
        } else {
            forall|i: int| 0 <= i < self.queues.len() ==> (#[trigger] self.queues[i]).len() > 0
        }
    }

    /// Whether nothing waits and nothing more will come.
    pub open spec fn drained(self) -> bool {
        forall|i: int|
            #![trigger self.queues[i]]
            #![trigger self.closed[i]]
            0 <= i < self.queues.len() ==> self.closed[i] && self.queues[i].len() == 0
    }

    /// With the first packet of each input port handed to the kernel.
    pub open spec fn fed(self) -> RunNode {
        RunNode {
            queues: Seq::new(self.queues.len(), |i: int| behind_head(self.queues[i])),
            ctx: ContextView {
                inputs: Seq::new(self.queues.len(), |i: int| head(self.queues[i])),
                inputs_done: Seq::new(
                    self.queues.len(),
                    |i: int| self.closed[i] && self.queues[i].len() <= 1,
                ),
                input_ts: least_stamp(self.queues, self.queues.len()),
                ..self.ctx.fresh()
            },
            ..self
        }
    }

    /// The refusal of a packet whose type is not the one that the first `k`
    /// input ports want. A packet without a payload fits everywhere.
    pub open spec fn type_problem(self, k: nat, names: Map<u64, Seq<char>>) -> Option<ErrorView>
        decreases k,
    {
        if k == 0 {
            None
        } else {
            let port = k - 1;
            let want = self.input_types[port];
            first_failure(
                self.type_problem((k - 1) as nat, names),
                if want != 0 && port < self.ctx.inputs.len() && self.ctx.inputs[port] is Some
                    && !self.ctx.inputs[port]->Some_0.is_hollow()
                    && self.ctx.inputs[port]->Some_0.kind != want {
                    Some(
                        ErrorView::Kernel(
                            "["@ + self.name + "] 输入口 `"@ + (if port < self.ctx.in_ports.len() {
                                self.ctx.in_ports[port].name
                            } else {
                                "?"@
                            }) + "` 类型不符:契约声明 "@ + name_of_type(names, want) + ", 实际 "@
                                + name_of_type(names, self.ctx.inputs[port]->Some_0.kind),
                        ),
                    )
                } else {
                    None
                },
            )
        }
    }

    /// The refusal of a packet that the kernel emitted and whose type is not
    /// the one that it declared for the first `k` output ports.
    pub open spec fn emission_problem(self, k: nat, names: Map<u64, Seq<char>>) -> Option<ErrorView>
        decreases k,
    {
        if k == 0 {
            None
        } else {
            let port = k - 1;
            let want = self.output_types[port];
            first_failure(
                self.emission_problem((k - 1) as nat, names),
                if want != 0 && port < self.ctx.staging.len() && first_misfit(
                    self.ctx.staging[port],
                    want,
                ) is Some {
                    Some(
                        ErrorView::Kernel(
                            "["@ + self.name + "] 输出口 `"@ + (if port
                                < self.ctx.out_ports.len() {
                                self.ctx.out_ports[port].name
                            } else {
                                "?"@
                            }) + "` 类型不符:契约声明 "@ + name_of_type(names, want) + ", 实际 "@
                                + name_of_type(
                                names,
                                first_misfit(self.ctx.staging[port], want)->Some_0,
                            ),
                        ),
                    )
                } else {
                    None
                },
            )
        }
    }

    /// Why a call of the kernel that returned a status code failed, if it
    /// did: by the code, or by what it emitted.
    pub open spec fn outcome(self, rc: i32, names: Map<u64, Seq<char>>) -> Option<ErrorView> {
        if rc != 0 {
            Some(self.ctx.call_error(rc))
        } else {
            self.emission_problem(self.output_types.len(), names)
        }
    }

    /// How many packets wait at the first `k` input ports.
    pub open spec fn waiting(self, k: nat) -> nat
        decreases k,
    {
        if k == 0 {
            0
        } else {
            self.waiting((k - 1) as nat) + self.queues[k - 1].len()
        }
    }
}

impl RunView {
    /// Whether everything that refers to a node, an edge or a port refers to
    /// one that exists.
    pub open spec fn fits(self) -> bool {
        &&& self.nodes.len() <= usize::MAX
        &&& self.edges.len() <= usize::MAX
        &&& forall|i: int|
            0 <= i < self.nodes.len() ==> (#[trigger] self.nodes[i]).fits(self.edges.len())
        &&& forall|e: int, k: int|
            0 <= e < self.edges.len() && 0 <= k < self.edges[e].consumers.len() ==> {
                let (node, port) = #[trigger] self.edges[e].consumers[k];
                node < self.nodes.len() && port < self.nodes[node as int].inputs.len()
            }
        &&& forall|k: int|
            0 <= k < self.graph_inputs.len() ==> #[trigger] self.graph_inputs[k] < self.edges.len()
        &&& forall|k: int|
            0 <= k < self.graph_outputs.len() ==> #[trigger] self.graph_outputs[k]
                < self.edges.len()
        &&& forall|name: Seq<char>| #[trigger]
            self.input_by_name.contains_key(name) ==> self.input_by_name[name] < self.edges.len()
        &&& forall|name: Seq<char>| #[trigger]
            self.output_by_name.contains_key(name) ==> self.output_by_name[name]
                < self.edges.len()
        &&& forall|name: Seq<char>| #[trigger]
            self.edge_by_name.contains_key(name) ==> self.edge_by_name[name] < self.edges.len()
        &&& forall|k: int|
            0 <= k < self.main_queue.len() ==> #[trigger] self.main_queue[k] < self.nodes.len()
        &&& match self.task {
            Task::Idle => true,
            Task::Opening(n) => n < self.nodes.len(),
            Task::Processing(n) => n < self.nodes.len(),
            Task::Closing(n) => n < self.nodes.len(),
            Task::Sweeping(n) => n < self.nodes.len(),
            Task::Dropping(n) => n < self.nodes.len(),
        }
    }

    /// Whether an edge has a poller of that number.
    pub open spec fn has_poller(self, edge: int, index: int) -> bool {
        0 <= edge < self.edges.len() && 0 <= index < self.edges[edge].pollers.len()
    }

    pub open spec fn with_node(self, n: int, node: RunNode) -> RunView {
        RunView { nodes: self.nodes.update(n, node), ..self }
    }

    pub open spec fn with_edge(self, e: int, edge: RunEdge) -> RunView {
        RunView { edges: self.edges.update(e, edge), ..self }
    }

    pub open spec fn with_ctx(self, n: int, ctx: ContextView) -> RunView {
        self.with_node(n, RunNode { ctx, ..self.nodes[n] })
    }

    pub open spec fn with_sched(self, n: int, sched: NodeSched) -> RunView {
        self.with_node(n, RunNode { sched, ..self.nodes[n] })
    }

    pub open spec fn with_stats(self, n: int, stats: NodeStats) -> RunView {
        self.with_node(n, RunNode { stats, ..self.nodes[n] })
    }

    // ------------------------------------------------------------- delivering

    /// After a packet was put into the queue of an input port. A queue of a
    /// fixed size that is full first drops its oldest packet, which the edge
    /// counts.
    pub open spec fn queued(self, edge: int, node: int, port: int, p: Packet) -> RunView {
        let n = self.nodes[node];
        let q = n.queues[port];
        if n.policy matches Policy::FixedSize(capacity) && q.len() >= capacity && q.len() > 0 {
            RunView {
                shared: self.shared.dequeued(q[0].bytes).enqueued(p.bytes),
                ..self
            }.with_node(
                node,
                RunNode { queues: n.queues.update(port, q.drop_first().push(p)), ..n },
            ).with_edge(
                edge,
                RunEdge { dropped: one_more(self.edges[edge].dropped), ..self.edges[edge] },
            )
        } else {
            RunView { shared: self.shared.enqueued(p.bytes), ..self }.with_node(
                node,
                RunNode { queues: n.queues.update(port, q.push(p)), ..n },
            )
        }
    }

    /// After some packets were put into the queue of an input port, in order.
    pub open spec fn all_queued(
        self,
        edge: int,
        node: int,
        port: int,
        packets: Seq<Packet>,
    ) -> RunView
        decreases packets.len(),
    {
        if packets.len() == 0 {
            self
        } else {
            self.all_queued(edge, node, port, packets.drop_last()).queued(
                edge,
                node,
                port,
                packets.last(),
            )
        }
    }

    /// After a warning about a long queue, where one is due: beyond the soft
    /// limit, each time that its length over the limit is a power of two.
    pub open spec fn warned(self, edge: int, depth: nat) -> RunView {
        let limit = self.shared.config.max_queue_size;
        if limit > 0 && depth > limit && power_of_two(depth / limit as nat) {
            RunView {
                shared: self.shared.noted(
                    LOG_WARN,
                    "边 `"@ + self.edges[edge].name + "` 积压 "@ + decimal(depth)
                        + " 个包(软水位 "@ + decimal(limit as nat) + "),消费端可能跟不上"@,
                ),
                ..self
            }
        } else {
            self
        }
    }

    /// After the first `k` consumers of an edge got some packets.
    pub open spec fn consumed(self, edge: int, packets: Seq<Packet>, k: nat) -> RunView
        decreases k,
    {
        if k == 0 {
            self
        } else {
            let before = self.consumed(edge, packets, (k - 1) as nat);
            let (node, port) = self.edges[edge].consumers[k - 1];
            let now = before.all_queued(edge, node as int, port as int, packets);
            now.warned(edge, now.nodes[node as int].queues[port as int].len())
        }
    }

    /// What the first `k` observers of an edge are told.
    pub open spec fn notices(observers: Seq<u64>, packets: Seq<Packet>, k: nat) -> Seq<Notice>
        decreases k,
    {
        if k == 0 {
            Seq::empty()
        } else {
            RunView::notices(observers, packets, (k - 1) as nat) + Seq::new(
                packets.len(),
                |j: int| Notice { observer: observers[k - 1], packet: packets[j] },
            )
        }
    }

    /// After some packets went out on an edge: to its pollers, its observers
    /// and its consumers.
    pub open spec fn dispatched(self, edge: int, packets: Seq<Packet>) -> RunView {
        let e = self.edges[edge];
        RunView {
            outbox: self.outbox + RunView::notices(e.observers, packets, e.observers.len()),
            ..self
        }.with_edge(
            edge,
            RunEdge {
                pollers: Seq::new(
                    e.pollers.len(),
                    |i: int| PollerView { queue: e.pollers[i].queue + packets, ..e.pollers[i] },
                ),
                ..e
            },
        ).consumed(edge, packets, e.consumers.len())
    }

    // ------------------------------------------------------------- scheduling

    /// Whether a node can be claimed for a run.
    pub open spec fn claimable(self, n: int) -> bool {
        &&& !self.shared.stopped()
        &&& !self.paused
        &&& self.nodes[n].sched.opened
        &&& !self.nodes[n].sched.closed
        &&& !self.nodes[n].sched.running
        &&& self.nodes[n].ready()
    }

    /// After an attempt to claim a node. One that is claimed already is asked
    /// to look again when it is through.
    pub open spec fn claimed(self, n: int) -> RunView {
        let s = self.nodes[n].sched;
        if self.claimable(n) {
            self.with_sched(n, NodeSched { running: true, ..s })
        } else if !self.shared.stopped() && !self.paused && s.opened && !s.closed && s.running {
            self.with_sched(n, NodeSched { rescan: true, ..s })
        } else {
            self
        }
    }

    /// After a node was put in line, if it could be claimed.
    pub open spec fn scheduled(self, n: int) -> RunView {
        if self.claimable(n) {
            RunView { main_queue: self.main_queue.push(n as usize), ..self.claimed(n) }
        } else {
            self.claimed(n)
        }
    }

    /// After the first `k` consumers of an edge were put in line.
    pub open spec fn all_scheduled(self, edge: int, k: nat) -> RunView
        decreases k,
    {
        if k == 0 {
            self
        } else {
            self.all_scheduled(edge, (k - 1) as nat).scheduled(
                self.edges[edge].consumers[k - 1].0 as int,
            )
        }
    }

    /// After some packets went out on an edge and those who read it were put
    /// in line.
    pub open spec fn sent(self, edge: int, packets: Seq<Packet>) -> RunView {
        self.dispatched(edge, packets).all_scheduled(edge, self.edges[edge].consumers.len())
    }

    /// After what was emitted on the first `k` output ports of a node went
    /// out.
    pub open spec fn flushed(self, n: int, staging: Seq<Seq<Packet>>, k: nat) -> RunView
        decreases k,
    {
        if k == 0 {
            self
        } else {
            let before = self.flushed(n, staging, (k - 1) as nat);
            if staging[k - 1].len() == 0 {
                before
            } else {
                before.sent(self.nodes[n].outputs[k - 1] as int, staging[k - 1])
            }
        }
    }

    /// After everything that a node emitted went out.
    pub open spec fn all_flushed(self, n: int) -> RunView {
        let ctx = self.nodes[n].ctx;
        self.with_ctx(
            n,
            ContextView {
                staging: no_packets(ctx.staging.len()),
                ..ctx
            },
        ).flushed(n, ctx.staging, self.nodes[n].outputs.len())
    }

    // ---------------------------------------------------------------- closing

    /// After the first `k` of some input ports were told that nothing more
    /// comes.
    pub open spec fn ports_closed(self, ports: Seq<(usize, usize)>, k: nat) -> RunView
        decreases k,
    {
        if k == 0 {
            self
        } else {
            let before = self.ports_closed(ports, (k - 1) as nat);
            let (node, port) = ports[k - 1];
            before.with_node(
                node as int,
                RunNode {
                    closed: before.nodes[node as int].closed.update(port as int, true),
                    ..before.nodes[node as int]
                },
            )
        }
    }

    /// After an edge was closed. One that is closed stays as it is.
    pub open spec fn edge_closed(self, edge: int) -> RunView {
        let e = self.edges[edge];
        if e.closed {
            self
        } else {
            self.with_edge(
                edge,
                RunEdge {
                    closed: true,
                    pollers: Seq::new(
                        e.pollers.len(),
                        |i: int| PollerView { closed: true, ..e.pollers[i] },
                    ),
                    ..e
                },
            ).ports_closed(e.consumers, e.consumers.len())
        }
    }

    /// After the first `k` of some edges were closed.
    pub open spec fn edges_closed(self, edges: Seq<usize>, k: nat) -> RunView
        decreases k,
    {
        if k == 0 {
            self
        } else {
            self.edges_closed(edges, (k - 1) as nat).edge_closed(edges[k - 1] as int)
        }
    }

    /// Whether a node is to be closed now: it is open, does not run, and
    /// either is drained or the graph stopped.
    pub open spec fn closable(self, n: int) -> bool {
        let s = self.nodes[n].sched;
        &&& s.opened
        &&& !s.closed
        &&& !s.running
        &&& self.shared.stopped() || self.nodes[n].drained()
    }

    /// With the context of a node made ready for closing.
    pub open spec fn closing(self, n: int) -> RunView {
        self.with_ctx(
            n,
            ContextView {
                close_reason: self.shared.close_reason(),
                input_ts: Timestamp(i64::MAX),
                ..self.nodes[n].ctx.fresh()
            },
        )
    }

    // ------------------------------------------------------------------ calls

    /// With a call of a node under way since `now`.
    pub open spec fn calling(self, n: int, now: u64, task: Task) -> RunView {
        RunView { task, ..self }.with_node(
            n,
            RunNode { running_since: Some(now), ..self.nodes[n] },
        )
    }

    /// After a call of a node returned that took `us` microseconds. Only runs
    /// are counted; a call of any kind that took too long is warned about.
    pub open spec fn timed(self, n: int, phase: KernelPhase, us: i64) -> RunView {
        let node = self.nodes[n];
        let wd = self.shared.config.watchdog_ms;
        let after = self.with_node(
            n,
            RunNode {
                running_since: None,
                stats: if phase is Process {
                    NodeStats {
                        total_us: wrapped_sum(node.stats.total_us, us),
                        max_us: if us > node.stats.max_us {
                            us
                        } else {
                            node.stats.max_us
                        },
                        ..node.stats
                    }
                } else {
                    node.stats
                },
                ..node
            },
        );
        if wd > 0 && us > wd * 1000 {
            RunView {
                shared: after.shared.noted(
                    LOG_WARN,
                    "节点 `"@ + node.name + "` 单次 "@ + phase_name(phase) + " 耗时 "@ + decimal(
                        (us / 1000) as nat,
                    ) + " ms,超过 watchdog "@ + decimal(wd as nat) + " ms"@,
                ),
                ..after
            }
        } else {
            after
        }
    }

    /// With a failure remembered.
    pub open spec fn failed(self, e: ErrorView) -> RunView {
        RunView { shared: self.shared.failed(e), ..self }
    }

    /// Why a call of a node that returned a status code failed, if it did.
    pub open spec fn outcome(self, n: int, rc: i32) -> Option<ErrorView> {
        self.nodes[n].outcome(rc, self.shared.type_names)
    }

    /// After a node was closed with a status code: what it emitted goes out,
    /// unless it failed, and its outputs are closed.
    pub open spec fn closed_node(self, n: int, rc: i32) -> RunView {
        let ctx = self.nodes[n].ctx;
        let after = if self.outcome(n, rc) is Some {
            self.with_ctx(
                n,
                (ContextView { error_msg: None, ..ctx }).discarded(),
            ).failed(self.outcome(n, rc)->Some_0)
        } else {
            self.all_flushed(n)
        };
        let released = after.with_ctx(n, after.nodes[n].ctx.released());
        released.with_sched(
            n,
            NodeSched { closed: true, ..released.nodes[n].sched },
        ).edges_closed(self.nodes[n].outputs, self.nodes[n].outputs.len())
    }

    /// After a run of a node returned a status code.
    pub open spec fn ran(self, n: int, rc: i32) -> RunView {
        let ctx = self.nodes[n].ctx;
        let stats = self.nodes[n].stats;
        let after = if self.outcome(n, rc) is Some {
            self.with_ctx(n, (ContextView { error_msg: None, ..ctx }).discarded()).with_stats(
                n,
                NodeStats { errors: one_more(stats.errors), ..stats },
            ).failed(self.outcome(n, rc)->Some_0)
        } else {
            self.with_stats(
                n,
                NodeStats { processed: one_more(stats.processed), ..stats },
            ).all_flushed(n)
        };
        after.with_ctx(n, after.nodes[n].ctx.released())
    }

    /// After a node gave its claim back and was put in line again, if there
    /// is more for it.
    pub open spec fn finished(self, n: int) -> RunView {
        self.with_sched(
            n,
            NodeSched { running: false, rescan: false, ..self.nodes[n].sched },
        ).scheduled(n)
    }

    /// The end of a step: nothing is called.
    pub open spec fn resting(self) -> RunView {
        RunView { task: Task::Idle, ..self }
    }

    /// What follows when a node is through: it is closed if that is due, else
    /// the step is over.
    pub open spec fn after_run(self, n: int, now: u64) -> (RunView, Action) {
        let after = self.finished(n);
        if after.closable(n) {
            (
                after.closing(n).calling(n, now, Task::Closing(n as usize)),
                Action::Call(n as usize, KernelPhase::Close),
            )
        } else {
            (after.resting(), Action::Done(true))
        }
    }

    /// The pass over the nodes from `n` on that closes what is to be closed.
    pub open spec fn swept(self, n: int, progressed: bool, now: u64) -> (RunView, Action)
        decreases self.nodes.len() - n,
    {
        if n >= self.nodes.len() {
            if !progressed && self.all_closed() {
                (
                    RunView { state: State::Terminated, ..self.resting() },
                    Action::Done(progressed),
                )
            } else {
                (self.resting(), Action::Done(progressed))
            }
        } else if self.closable(n) {
            (
                self.closing(n).calling(n, now, Task::Sweeping(n as usize)),
                Action::Call(n as usize, KernelPhase::Close),
            )
        } else {
            self.swept(n + 1, progressed, now)
        }
    }

    /// Whether every node is closed.
    pub open spec fn all_closed(self) -> bool {
        forall|i: int| 0 <= i < self.nodes.len() ==> (#[trigger] self.nodes[i]).sched.closed
    }

    /// One step of the engine: the first node in line runs, or else the nodes
    /// that are to be closed are.
    pub open spec fn stepped(self, now: u64) -> (RunView, Action) {
        if self.main_queue.len() > 0 {
            let n = self.main_queue[0] as int;
            let node = self.nodes[n];
            let taken = RunView {
                main_queue: self.main_queue.drop_first(),
                shared: heads_dequeued(self.shared, node.queues, node.queues.len()),
                ..self
            }.with_node(n, node.fed());
            match taken.nodes[n].type_problem(node.input_types.len(), self.shared.type_names) {
                Some(e) => {
                    let stats = node.stats;
                    taken.with_ctx(n, taken.nodes[n].ctx.discarded()).with_stats(
                        n,
                        NodeStats { errors: one_more(stats.errors), ..stats },
                    ).failed(e).after_run(n, now)
                },
                None => (
                    taken.calling(n, now, Task::Processing(n as usize)),
                    Action::Call(n as usize, KernelPhase::Process),
                ),
            }
        } else {
            self.swept(0, false, now)
        }
    }

    /// What follows when the call that is under way returned a status code
    /// after `us` microseconds.
    pub open spec fn resumed(self, rc: i32, us: i64, now: u64) -> (RunView, Action) {
        match self.task {
            Task::Processing(n) => self.timed(n as int, KernelPhase::Process, us).ran(
                n as int,
                rc,
            ).after_run(n as int, now),
            Task::Closing(n) => (
                self.timed(n as int, KernelPhase::Close, us).closed_node(n as int, rc).resting(),
                Action::Done(true),
            ),
            Task::Sweeping(n) => self.timed(n as int, KernelPhase::Close, us).closed_node(
                n as int,
                rc,
            ).swept(n + 1, true, now),
            _ => (self, Action::Done(false)),
        }
    }

    // ------------------------------------------------------------ the outside

    /// Why a packet is refused on a graph input, before there is room for it.
    pub open spec fn send_problem(self, edge: int, p: Packet) -> Option<ErrorView> {
        if self.state is Draining || self.state is Terminated {
            Some(ErrorView::Closed)
        } else if self.state !is Running {
            Some(
                ErrorView::State(
                    "send 需要图处于 Running(当前 "@ + state_name(self.state)
                        + ");请先调用 start"@,
                ),
            )
        } else if self.shared.cancelled {
            Some(ErrorView::Cancelled)
        } else if self.shared.error is Some {
            self.shared.error
        } else if self.edges[edge].closed {
            Some(ErrorView::Closed)
        } else if p.stamp.0 == i64::MIN {
            Some(
                ErrorView::InvalidArg("图输入口上的包必须带明确时间戳(UNSET 非法)"@),
            )
        } else {
            None
        }
    }

    /// Why a packet is refused for its time stamp: those of a graph input
    /// rise strictly.
    pub open spec fn order_problem(self, edge: int, p: Packet) -> Option<ErrorView> {
        let e = self.edges[edge];
        if e.last_sent.0 != i64::MIN && p.stamp.0 <= e.last_sent.0 {
            Some(
                ErrorView::InvalidArg(
                    "图输入口 `"@ + e.name + "` 的时间戳必须严格递增:上一个 "@ + shown(e.last_sent)
                        + ",本次 "@ + shown(p.stamp),
                ),
            )
        } else {
            None
        }
    }

    /// After a packet was accepted on a graph input.
    pub open spec fn accepted(self, edge: int, p: Packet) -> RunView {
        self.with_edge(edge, RunEdge { last_sent: p.stamp, ..self.edges[edge] }).sent(
            edge,
            seq![p],
        )
    }

    /// After the state followed the graph inputs: with all of them closed a
    /// running graph drains.
    pub open spec fn drain_noted(self) -> RunView {
        if self.state is Running && (forall|k: int|
            0 <= k < self.graph_inputs.len() ==> self.edges[(
            #[trigger] self.graph_inputs[k]) as int].closed) {
            RunView { state: State::Draining, ..self }
        } else {
            self
        }
    }

    /// How many packets wait at the first `k` consumers of an edge.
    pub open spec fn depth(self, edge: int, k: nat) -> nat
        decreases k,
    {
        if k == 0 {
            0
        } else {
            let (node, port) = self.edges[edge].consumers[k - 1];
            self.depth(edge, (k - 1) as nat) + self.nodes[node as int].queues[port as int].len()
        }
    }
}

} // verus!

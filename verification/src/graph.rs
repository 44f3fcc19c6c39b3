//! The engine: a graph that runs on the host thread.

use crate::context::Context;
use crate::ownership::{list_within, queue_holds, without};
use crate::packet::Packet;
use crate::run_state::{
    behind_head, head, power_of_two, NodeSched, NodeStats, Notice, Policy, PollerView, RunEdge,
    RunNode, RunView, State, Task,
};
use crate::runtime::{GraphShared, LOG_WARN};
use crate::text::{cat7, decimal_of_size};
use crate::text_map::TextMap;
use crate::timestamp::Timestamp;
use std::collections::VecDeque;
use vstd::prelude::*;

verus! {

// ------------------------------------------------------------------ the parts

/// The packets that one poller has not taken yet.
pub struct PollerInner {
    edge: usize,
    queue: VecDeque<Packet>,
    closed: bool,
}

impl View for PollerInner {
    type V = PollerView;

    closed spec fn view(&self) -> PollerView {
        PollerView { edge: self.edge, queue: self.queue@, closed: self.closed }
    }
}

impl PollerInner {
    /// Whether the poller still holds a payload.
    pub fn holds(&self, payload: u64) -> (r: bool)
        ensures
            r == !list_within(self@.queue, without(payload)),
    {
        queue_holds(&self.queue, payload)
    }

    /// A poller of an edge.
    pub fn new(edge: usize) -> (p: PollerInner)
        ensures
            p@ == (PollerView { edge, queue: Seq::empty(), closed: false }),
    {
        PollerInner { edge, queue: VecDeque::new(), closed: false }
    }

    /// Adds a packet.
    pub fn push(&mut self, p: Packet)
        ensures
            final(self)@ == (PollerView { queue: old(self)@.queue.push(p), ..old(self)@ }),
    {
        self.queue.push_back(p);
    }

    /// Takes the oldest packet.
    pub fn pop(&mut self) -> (r: Option<Packet>)
        ensures
            r == head(old(self)@.queue),
            final(self)@ == (PollerView { queue: behind_head(old(self)@.queue), ..old(self)@ }),
    {
        let r = self.queue.pop_front();
        assert(self.queue@ =~= behind_head(old(self)@.queue));
        r
    }

    /// Whether nothing waits.
    pub fn is_empty(&self) -> (r: bool)
        ensures
            r == (self@.queue.len() == 0),
    {
        self.queue.len() == 0
    }

    /// How many packets wait.
    pub fn len(&self) -> (r: usize)
        ensures
            r == self@.queue.len(),
    {
        self.queue.len()
    }

    /// Whether nothing more will come.
    pub fn is_closed(&self) -> (r: bool)
        ensures
            r == self@.closed,
    {
        self.closed
    }

    pub fn close(&mut self)
        ensures
            final(self)@ == (PollerView { closed: true, ..old(self)@ }),
    {
        self.closed = true;
    }
}

/// What some pollers hold.
pub open spec fn poller_views(pollers: Seq<PollerInner>) -> Seq<PollerView> {
    Seq::new(pollers.len(), |i: int| pollers[i]@)
}

/// An edge of a running graph.
pub struct Edge {
    pub name: String,
    pub producer: Option<usize>,
    pub consumers: Vec<(usize, usize)>,
    pub is_graph_input: bool,
    pub is_graph_output: bool,
    pub closed: bool,
    pub dropped: u64,
    pub last_sent: Timestamp,
    pub pollers: Vec<PollerInner>,
    pub observers: Vec<u64>,
}

impl View for Edge {
    type V = RunEdge;

    open spec fn view(&self) -> RunEdge {
        RunEdge {
            name: self.name@,
            producer: self.producer,
            consumers: self.consumers@,
            is_graph_input: self.is_graph_input,
            is_graph_output: self.is_graph_output,
            closed: self.closed,
            dropped: self.dropped,
            last_sent: self.last_sent,
            pollers: poller_views(self.pollers@),
            observers: self.observers@,
        }
    }
}

impl Edge {
    /// Whether nothing more will come.
    pub fn is_closed(&self) -> (r: bool)
        ensures
            r == self@.closed,
    {
        self.closed
    }

    /// How many packets were dropped.
    pub fn dropped_count(&self) -> (r: u64)
        ensures
            r == self@.dropped,
    {
        self.dropped
    }
}

pub open spec fn edge_views(edges: Seq<Edge>) -> Seq<RunEdge> {
    Seq::new(edges.len(), |i: int| edges[i]@)
}

/// The contents of some queues.
pub open spec fn queue_views(queues: Seq<VecDeque<Packet>>) -> Seq<Seq<Packet>> {
    Seq::new(queues.len(), |i: int| queues[i]@)
}

/// A node of a running graph.
pub struct Node {
    pub name: String,
    pub kernel_name: String,
    pub inputs: Vec<usize>,
    pub outputs: Vec<usize>,
    pub input_types: Vec<u64>,
    pub output_types: Vec<u64>,
    pub policy: Policy,
    pub ctx: Context,
    pub sched: NodeSched,
    pub stats: NodeStats,
    pub input_queues: Vec<VecDeque<Packet>>,
    pub input_closed: Vec<bool>,
    pub running_since: Option<u64>,
}

impl View for Node {
    type V = RunNode;

    open spec fn view(&self) -> RunNode {
        RunNode {
            name: self.name@,
            kernel_name: self.kernel_name@,
            inputs: self.inputs@,
            outputs: self.outputs@,
            input_types: self.input_types@,
            output_types: self.output_types@,
            policy: self.policy,
            ctx: self.ctx@,
            sched: self.sched,
            stats: self.stats,
            queues: queue_views(self.input_queues@),
            closed: self.input_closed@,
            running_since: self.running_since,
        }
    }
}

pub open spec fn run_nodes(nodes: Seq<Node>) -> Seq<RunNode> {
    Seq::new(nodes.len(), |i: int| nodes[i]@)
}

impl Node {
    /// Whether every input port has a packet.
    fn all_inputs_have_data(&self) -> (r: bool)
        ensures
            r == (forall|i: int|
                0 <= i < self@.queues.len() ==> (#[trigger] self@.queues[i]).len() > 0),
    {
        for i in 0..self.input_queues.len()
            invariant
                forall|k: int| 0 <= k < i ==> (#[trigger] self@.queues[k]).len() > 0,
        {
            assert(self@.queues[i as int] == self.input_queues@[i as int]@);
            if self.input_queues[i].len() == 0 {
                return false;
            }
        }
        true
    }

    /// Whether some input port has a packet.
    fn some_input_has_data(&self) -> (r: bool)
        ensures
            r == (exists|i: int|
                0 <= i < self@.queues.len() && (#[trigger] self@.queues[i]).len() > 0),
    {
        for i in 0..self.input_queues.len()
            invariant
                forall|k: int| 0 <= k < i ==> (#[trigger] self@.queues[k]).len() == 0,
        {
            assert(self@.queues[i as int] == self.input_queues@[i as int]@);
            if self.input_queues[i].len() > 0 {
                return true;
            }
        }
        false
    }

    /// Whether the node has what it needs for a run.
    pub fn is_ready(&self) -> (r: bool)
        ensures
            r == self@.ready(),
    {
        match self.policy {
            Policy::Immediate => self.some_input_has_data(),
            _ => self.all_inputs_have_data(),
        }
    }

    /// Whether nothing waits and nothing more will come.
    pub fn all_inputs_closed_and_drained(&self) -> (r: bool)
        requires
            self@.closed.len() == self@.queues.len(),
        ensures
            r == self@.drained(),
    {
        for i in 0..self.input_queues.len()
            invariant
                self@.closed.len() == self@.queues.len(),
                forall|k: int|
                    #![trigger self@.queues[k]]
                    #![trigger self@.closed[k]]
                    0 <= k < i ==> self@.closed[k] && self@.queues[k].len() == 0,
        {
            assert(self@.queues[i as int] == self.input_queues@[i as int]@);
            if !self.input_closed[i] || self.input_queues[i].len() > 0 {
                return false;
            }
        }
        true
    }
}

/// The engine.
pub struct Graph {
    pub shared: GraphShared,
    pub nodes: Vec<Node>,
    pub edges: Vec<Edge>,
    pub graph_inputs: Vec<usize>,
    pub graph_outputs: Vec<usize>,
    pub input_by_name: TextMap<usize>,
    pub output_by_name: TextMap<usize>,
    pub edge_by_name: TextMap<usize>,
    pub state: State,
    pub main_queue: VecDeque<usize>,
    pub side_packets: TextMap<Packet>,
    pub required_side_packets: Vec<(String, String)>,
    pub outbox: Vec<Notice>,
    pub paused: bool,
    pub task: Task,
}

/// The names of side packets, each with the node that needs it.
pub open spec fn required_views(list: Seq<(String, String)>) -> Seq<(Seq<char>, Seq<char>)> {
    Seq::new(list.len(), |i: int| (list[i].0@, list[i].1@))
}

impl View for Graph {
    type V = RunView;

    open spec fn view(&self) -> RunView {
        RunView {
            shared: self.shared@,
            nodes: run_nodes(self.nodes@),
            edges: edge_views(self.edges@),
            graph_inputs: self.graph_inputs@,
            graph_outputs: self.graph_outputs@,
            input_by_name: self.input_by_name@,
            output_by_name: self.output_by_name@,
            edge_by_name: self.edge_by_name@,
            state: self.state,
            main_queue: self.main_queue@,
            side_packets: self.side_packets@,
            required: required_views(self.required_side_packets@),
            outbox: self.outbox@,
            paused: self.paused,
            task: self.task,
        }
    }
}

// -------------------------------------------------------------- what is kept

/// Whether two nodes are the same but for what changes when a graph runs.
pub open spec fn node_kin(a: RunNode, b: RunNode) -> bool {
    &&& a.name == b.name
    &&& a.kernel_name == b.kernel_name
    &&& a.inputs == b.inputs
    &&& a.outputs == b.outputs
    &&& a.input_types == b.input_types
    &&& a.output_types == b.output_types
    &&& a.policy == b.policy
    &&& a.queues.len() == b.queues.len()
    &&& a.closed.len() == b.closed.len()
    &&& a.ctx.in_ports == b.ctx.in_ports
    &&& a.ctx.out_ports == b.ctx.out_ports
    &&& a.ctx.inputs.len() == b.ctx.inputs.len()
    &&& a.ctx.batches.len() == b.ctx.batches.len()
    &&& a.ctx.inputs_done.len() == b.ctx.inputs_done.len()
    &&& a.ctx.staging.len() == b.ctx.staging.len()
    &&& a.ctx.bounds.len() == b.ctx.bounds.len()
}

/// Whether two states are those of the same graph.
pub open spec fn alike(a: RunView, b: RunView) -> bool {
    &&& a.nodes.len() == b.nodes.len()
    &&& a.edges.len() == b.edges.len()
    &&& forall|i: int| 0 <= i < a.nodes.len() ==> node_kin(a.nodes[i], #[trigger] b.nodes[i])
    &&& forall|e: int|
        0 <= e < a.edges.len() ==> a.edges[e].consumers == (#[trigger] b.edges[e]).consumers
            && a.edges[e].name == b.edges[e].name
    &&& a.graph_inputs == b.graph_inputs
    &&& a.graph_outputs == b.graph_outputs
    &&& a.input_by_name == b.input_by_name
    &&& a.output_by_name == b.output_by_name
    &&& a.edge_by_name == b.edge_by_name
    &&& a.required == b.required
    &&& a.shared.config == b.shared.config
    &&& a.shared.type_names == b.shared.type_names
}

/// Whether `b` is a later state of the graph in the state `a`. What is closed
/// stays closed, the first failure stays, a graph that was cancelled stays so,
/// and the time stamps of what was sent on the graph inputs are remembered.
pub open spec fn kin(a: RunView, b: RunView) -> bool {
    &&& alike(a, b)
    &&& forall|e: int|
        0 <= e < a.edges.len() ==> (#[trigger] b.edges[e]).last_sent == a.edges[e].last_sent && (
        a.edges[e].closed ==> b.edges[e].closed)
    &&& forall|i: int|
        0 <= i < a.nodes.len() ==> {
            &&& a.nodes[i].sched.closed ==> (#[trigger] b.nodes[i]).sched.closed
            &&& a.nodes[i].sched.opened ==> b.nodes[i].sched.opened
            &&& forall|p: int|
                0 <= p < a.nodes[i].closed.len() && a.nodes[i].closed[p]
                    ==> #[trigger] b.nodes[i].closed[p]
        }
    &&& a.shared.error is Some ==> b.shared.error == a.shared.error
    &&& a.shared.cancelled ==> b.shared.cancelled
}

/// Whether everything that waits or is under way is a node.
pub open spec fn in_line(g: RunView) -> bool {
    &&& forall|k: int| 0 <= k < g.main_queue.len() ==> #[trigger] g.main_queue[k] < g.nodes.len()
    &&& match g.task {
        Task::Idle => true,
        Task::Opening(n) => n < g.nodes.len(),
        Task::Processing(n) => n < g.nodes.len(),
        Task::Closing(n) => n < g.nodes.len(),
        Task::Sweeping(n) => n < g.nodes.len(),
        Task::Dropping(n) => n < g.nodes.len(),
    }
}

pub proof fn kin_fits(a: RunView, b: RunView)
    requires
        a.fits(),
        alike(a, b),
        in_line(b),
    ensures
        b.fits(),
{
    assert forall|i: int| 0 <= i < b.nodes.len() implies (#[trigger] b.nodes[i]).fits(
        b.edges.len(),
    ) by {
        assert(a.nodes[i].fits(a.edges.len()));
        assert(node_kin(a.nodes[i], b.nodes[i]));
    }
    assert forall|e: int, k: int|
        0 <= e < b.edges.len() && 0 <= k < b.edges[e].consumers.len() implies {
        let (node, port) = #[trigger] b.edges[e].consumers[k];
        node < b.nodes.len() && port < b.nodes[node as int].inputs.len()
    } by {
        assert(b.edges[e].consumers == a.edges[e].consumers);
        let (node, port) = a.edges[e].consumers[k];
        assert(node_kin(a.nodes[node as int], b.nodes[node as int]));
    }
}

pub proof fn kin_trans(a: RunView, b: RunView, c: RunView)
    requires
        kin(a, b),
        kin(b, c),
    ensures
        kin(a, c),
{
    assert forall|i: int| 0 <= i < a.nodes.len() implies node_kin(
        a.nodes[i],
        #[trigger] c.nodes[i],
    ) by {
        assert(node_kin(a.nodes[i], b.nodes[i]));
        assert(node_kin(b.nodes[i], c.nodes[i]));
    }
    assert forall|e: int| 0 <= e < a.edges.len() implies a.edges[e].consumers == (
    #[trigger] c.edges[e]).consumers && a.edges[e].name == c.edges[e].name by {
        assert(a.edges[e].consumers == b.edges[e].consumers);
        assert(b.edges[e].consumers == c.edges[e].consumers);
    }
    assert forall|e: int| 0 <= e < a.edges.len() implies (#[trigger] c.edges[e]).last_sent
        == a.edges[e].last_sent && (a.edges[e].closed ==> c.edges[e].closed) by {
        assert(b.edges[e].last_sent == a.edges[e].last_sent);
    }
    assert forall|i: int| 0 <= i < a.nodes.len() implies {
        &&& a.nodes[i].sched.closed ==> (#[trigger] c.nodes[i]).sched.closed
        &&& a.nodes[i].sched.opened ==> c.nodes[i].sched.opened
        &&& forall|p: int|
            0 <= p < a.nodes[i].closed.len() && a.nodes[i].closed[p]
                ==> #[trigger] c.nodes[i].closed[p]
    } by {
        assert(node_kin(a.nodes[i], b.nodes[i]));
        assert(a.nodes[i].sched.closed ==> b.nodes[i].sched.closed);
        assert forall|p: int|
            0 <= p < a.nodes[i].closed.len()
                && a.nodes[i].closed[p] implies #[trigger] c.nodes[i].closed[p] by {
            assert(b.nodes[i].closed[p]);
        }
    }
}

// ------------------------------------------------------------------ delivering

proof fn keeps_queued(g: RunView, edge: int, node: int, port: int, p: Packet)
    requires
        0 <= edge < g.edges.len(),
        0 <= node < g.nodes.len(),
        0 <= port < g.nodes[node].queues.len(),
    ensures
        kin(g, g.queued(edge, node, port, p)),
        g.queued(edge, node, port, p).main_queue == g.main_queue,
        g.queued(edge, node, port, p).task == g.task,
{
}

pub proof fn keeps_all_queued(g: RunView, edge: int, node: int, port: int, packets: Seq<Packet>)
    requires
        0 <= edge < g.edges.len(),
        0 <= node < g.nodes.len(),
        0 <= port < g.nodes[node].queues.len(),
    ensures
        kin(g, g.all_queued(edge, node, port, packets)),
        g.all_queued(edge, node, port, packets).main_queue == g.main_queue,
        g.all_queued(edge, node, port, packets).task == g.task,
    decreases packets.len(),
{
    if packets.len() > 0 {
        let before = g.all_queued(edge, node, port, packets.drop_last());
        keeps_all_queued(g, edge, node, port, packets.drop_last());
        assert(node_kin(g.nodes[node], before.nodes[node]));
        keeps_queued(before, edge, node, port, packets.last());
        kin_trans(g, before, g.all_queued(edge, node, port, packets));
    }
}

pub proof fn keeps_consumed(g: RunView, edge: int, packets: Seq<Packet>, k: nat)
    requires
        g.fits(),
        0 <= edge < g.edges.len(),
        k <= g.edges[edge].consumers.len(),
    ensures
        kin(g, g.consumed(edge, packets, k)),
        g.consumed(edge, packets, k).main_queue == g.main_queue,
        g.consumed(edge, packets, k).task == g.task,
        g.consumed(edge, packets, k).fits(),
    decreases k,
{
    if k > 0 {
        let before = g.consumed(edge, packets, (k - 1) as nat);
        keeps_consumed(g, edge, packets, (k - 1) as nat);
        let (node, port) = g.edges[edge].consumers[k - 1];
        assert(node_kin(g.nodes[node as int], before.nodes[node as int]));
        assert(g.nodes[node as int].fits(g.edges.len()));
        keeps_all_queued(before, edge, node as int, port as int, packets);
        let now = before.all_queued(edge, node as int, port as int, packets);
        kin_trans(g, before, now);
        kin_trans(g, now, g.consumed(edge, packets, k));
    }
    kin_fits(g, g.consumed(edge, packets, k));
}

pub proof fn keeps_dispatched(g: RunView, edge: int, packets: Seq<Packet>)
    requires
        g.fits(),
        0 <= edge < g.edges.len(),
    ensures
        kin(g, g.dispatched(edge, packets)),
        g.dispatched(edge, packets).main_queue == g.main_queue,
        g.dispatched(edge, packets).task == g.task,
        g.dispatched(edge, packets).fits(),
{
    let e = g.edges[edge];
    let told = RunView {
        outbox: g.outbox + RunView::notices(e.observers, packets, e.observers.len()),
        ..g
    }.with_edge(
        edge,
        RunEdge {
            pollers: Seq::new(
                e.pollers.len(),
                |i: int| PollerView { queue: e.pollers[i].queue + packets, ..e.pollers[i] },
            ),
            ..e
        },
    );
    assert(kin(g, told));
    kin_fits(g, told);
    keeps_consumed(told, edge, packets, e.consumers.len());
    kin_trans(g, told, g.dispatched(edge, packets));
}

impl Graph {
    /// Puts a packet into the queue of an input port.
    fn enqueue(&mut self, edge: usize, node: usize, port: usize, p: Packet)
        requires
            old(self)@.fits(),
            edge < old(self)@.edges.len(),
            node < old(self)@.nodes.len(),
            port < old(self)@.nodes[node as int].queues.len(),
        ensures
            final(self)@ == old(self)@.queued(edge as int, node as int, port as int, p),
            final(self)@.fits(),
    {
        let ghost before = self@;
        assert(before.nodes[node as int] == self.nodes@[node as int]@);
        assert(before.nodes[node as int].queues[port as int]
            == self.nodes@[node as int].input_queues@[port as int]@);
        let full = match self.nodes[node].policy {
            Policy::FixedSize(capacity) => {
                self.nodes[node].input_queues[port].len() >= capacity
                    && self.nodes[node].input_queues[port].len() > 0
            },
            _ => false,
        };
        let ghost q = before.nodes[node as int].queues[port as int];
        if full {
            let dropped = self.nodes[node].input_queues[port].pop_front();
            assert(self.nodes@[node as int].input_queues@[port as int]@ =~= q.drop_first());
            if let Some(oldest) = dropped {
                self.shared.on_dequeue(oldest.byte_size());
            }
            self.edges[edge].dropped = self.edges[edge].dropped.wrapping_add(1);
        }
        self.shared.on_enqueue(p.byte_size());
        self.nodes[node].input_queues[port].push_back(p);
        proof {
            let after = before.queued(edge as int, node as int, port as int, p);
            assert(queue_views(self.nodes@[node as int].input_queues@)
                =~= after.nodes[node as int].queues);
            assert(self@.nodes =~= after.nodes);
            assert(self@.edges =~= after.edges);
            assert(self@ =~= after);
            keeps_queued(before, edge as int, node as int, port as int, p);
            kin_fits(before, after);
        }
    }
}

/// Adds some packets to what each poller holds.
fn tell_pollers(pollers: &mut Vec<PollerInner>, packets: &Vec<Packet>)
    ensures
        poller_views(final(pollers)@) == Seq::new(
            old(pollers)@.len(),
            |i: int|
                PollerView {
                    queue: old(pollers)@[i]@.queue + packets@,
                    ..old(pollers)@[i]@
                },
        ),
{
    let ghost before = pollers@;
    let count: usize = pollers.len();
    for i in 0..count
        invariant
            count == before.len(),
            pollers@.len() == before.len(),
            forall|k: int|
                0 <= k < before.len() ==> (#[trigger] pollers@[k])@ == (if k < i {
                    PollerView { queue: before[k]@.queue + packets@, ..before[k]@ }
                } else {
                    before[k]@
                }),
    {
        let ghost started = pollers@;
        assert(before[i as int]@.queue + packets@.take(0) =~= before[i as int]@.queue);
        for j in 0..packets.len()
            invariant
                i < before.len(),
                pollers@.len() == before.len(),
                started.len() == before.len(),
                pollers@[i as int]@ == (PollerView {
                    queue: before[i as int]@.queue + packets@.take(j as int),
                    ..before[i as int]@
                }),
                forall|k: int|
                    0 <= k < before.len() && k != i ==> #[trigger] pollers@[k] == started[k],
        {
            pollers[i].push(packets[j]);
            assert(before[i as int]@.queue + packets@.take(j + 1) =~= (before[i as int]@.queue
                + packets@.take(j as int)).push(packets@[j as int]));
        }
        assert(packets@.take(packets@.len() as int) =~= packets@);
    }
    assert(poller_views(pollers@) =~= Seq::new(
        before.len(),
        |i: int| PollerView { queue: before[i]@.queue + packets@, ..before[i]@ },
    ));
}

/// Whether a number is a power of two.
pub fn is_power_of_two(n: usize) -> (r: bool)
    ensures
        r == power_of_two(n as nat),
{
    let mut left: usize = n;
    while left > 1
        invariant
            power_of_two(n as nat) == power_of_two(left as nat),
        decreases left,
    {
        if left % 2 != 0 {
            return false;
        }
        left = left / 2;
    }
    left == 1
}

impl Graph {
    /// Puts some packets into the queue of an input port.
    fn enqueue_all(&mut self, edge: usize, node: usize, port: usize, packets: &Vec<Packet>)
        requires
            old(self)@.fits(),
            edge < old(self)@.edges.len(),
            node < old(self)@.nodes.len(),
            port < old(self)@.nodes[node as int].queues.len(),
        ensures
            final(self)@ == old(self)@.all_queued(
                edge as int,
                node as int,
                port as int,
                packets@,
            ),
            final(self)@.fits(),
    {
        let ghost before = self@;
        assert(packets@.take(0) =~= Seq::empty());
        for i in 0..packets.len()
            invariant
                before == old(self)@,
                before.fits(),
                edge < before.edges.len(),
                node < before.nodes.len(),
                port < before.nodes[node as int].queues.len(),
                self@ == before.all_queued(
                    edge as int,
                    node as int,
                    port as int,
                    packets@.take(i as int),
                ),
                self@.fits(),
        {
            proof {
                let done = packets@.take(i as int);
                keeps_all_queued(before, edge as int, node as int, port as int, done);
                assert(node_kin(before.nodes[node as int], self@.nodes[node as int]));
                assert(packets@.take(i + 1).drop_last() =~= done);
                assert(packets@.take(i + 1).last() == packets@[i as int]);
            }
            self.enqueue(edge, node, port, packets[i]);
        }
        assert(packets@.take(packets@.len() as int) =~= packets@);
    }

    /// Warns about a long queue, where a warning is due.
    fn warn_if_over_soft_limit(&mut self, edge: usize, depth: usize)
        requires
            old(self)@.fits(),
            edge < old(self)@.edges.len(),
        ensures
            final(self)@ == old(self)@.warned(edge as int, depth as nat),
            final(self)@.fits(),
    {
        let limit: usize = self.shared.config().max_queue_size;
        if limit == 0 || depth <= limit {
            return ;
        }
        let ratio: usize = depth / limit;
        if is_power_of_two(ratio) {
            assert(self@.edges[edge as int] == self.edges@[edge as int]@);
            let line = cat7(
                "边 `",
                self.edges[edge].name.as_str(),
                "` 积压 ",
                decimal_of_size(depth).as_str(),
                " 个包(软水位 ",
                decimal_of_size(limit).as_str(),
                "),消费端可能跟不上",
            );
            self.shared.note(LOG_WARN, line.as_str());
            proof {
                kin_fits(old(self)@, self@);
            }
        }
    }

    /// Hands some packets to those who read an edge: pollers, observers and
    /// consumers.
    pub fn dispatch(&mut self, edge: usize, packets: &Vec<Packet>)
        requires
            old(self)@.fits(),
            edge < old(self)@.edges.len(),
        ensures
            final(self)@ == old(self)@.dispatched(edge as int, packets@),
            final(self)@.fits(),
    {
        let ghost before = self@;
        let ghost e = before.edges[edge as int];
        assert(e == self.edges@[edge as int]@);
        let ghost held = self.edges@[edge as int].pollers@;
        tell_pollers(&mut self.edges[edge].pollers, packets);
        proof {
            let listening = RunEdge {
                pollers: Seq::new(
                    e.pollers.len(),
                    |i: int| PollerView { queue: e.pollers[i].queue + packets@, ..e.pollers[i] },
                ),
                ..e
            };
            assert(e.pollers == poller_views(held));
            assert(listening.pollers =~= poller_views(self.edges@[edge as int].pollers@));
            assert(self@.edges =~= before.edges.update(edge as int, listening));
            assert(self@ =~= before.with_edge(edge as int, listening));
        }
        let ghost told_pollers = self@;
        assert(self.edges@[edge as int]@ == told_pollers.edges[edge as int]);
        let observers: usize = self.edges[edge].observers.len();
        for i in 0..observers
            invariant
                observers == e.observers.len(),
                edge < told_pollers.edges.len(),
                told_pollers.edges.len() == before.edges.len(),
                self.edges@.len() == before.edges.len(),
                e.observers == told_pollers.edges[edge as int].observers,
                self.edges@[edge as int].observers@ == e.observers,
                self@ == (RunView {
                    outbox: before.outbox + RunView::notices(e.observers, packets@, i as nat),
                    ..told_pollers
                }),
        {
            let observer: u64 = self.edges[edge].observers[i];
            let ghost done = self@.outbox;
            let ghost own = Seq::new(
                packets@.len(),
                |j: int| Notice { observer, packet: packets@[j] },
            );
            assert(done + own.take(0) =~= done);
            for j in 0..packets.len()
                invariant
                    own == Seq::new(
                        packets@.len(),
                        |j: int| Notice { observer, packet: packets@[j] },
                    ),
                    edge < self.edges@.len(),
                    self.edges@.len() == before.edges.len(),
                    self.edges@[edge as int].observers@ == e.observers,
                    self@ == (RunView { outbox: done + own.take(j as int), ..told_pollers }),
            {
                self.outbox.push(Notice { observer, packet: packets[j] });
                assert(own.take(j + 1) =~= own.take(j as int).push(own[j as int]));
                assert(self.outbox@ =~= done + own.take(j + 1));
            }
            assert(own.take(own.len() as int) =~= own);
            assert(self.outbox@ =~= before.outbox + RunView::notices(
                e.observers,
                packets@,
                (i + 1) as nat,
            ));
        }
        let ghost told = self@;
        proof {
            let target = RunView {
                outbox: before.outbox + RunView::notices(
                    e.observers,
                    packets@,
                    e.observers.len(),
                ),
                ..before
            }.with_edge(
                edge as int,
                RunEdge {
                    pollers: Seq::new(
                        e.pollers.len(),
                        |i: int|
                            PollerView { queue: e.pollers[i].queue + packets@, ..e.pollers[i] },
                    ),
                    ..e
                },
            );
            assert(told.edges[edge as int].pollers =~= target.edges[edge as int].pollers);
            assert(told.edges =~= target.edges);
            assert(told =~= target);
            assert(kin(before, told));
            kin_fits(before, told);
        }
        let consumers: usize = self.edges[edge].consumers.len();
        for k in 0..consumers
            invariant
                consumers == told.edges[edge as int].consumers.len(),
                told.fits(),
                edge < told.edges.len(),
                self.edges@.len() == told.edges.len(),
                self.edges@[edge as int].consumers@ == told.edges[edge as int].consumers,
                self@ == told.consumed(edge as int, packets@, k as nat),
        {
            proof {
                keeps_consumed(told, edge as int, packets@, k as nat);
            }
            let (node, port) = self.edges[edge].consumers[k];
            let ghost here = self@;
            proof {
                assert(told.edges[edge as int].consumers[k as int] == (node, port));
                assert(node_kin(told.nodes[node as int], here.nodes[node as int]));
                assert(told.nodes[node as int].fits(told.edges.len()));
                keeps_all_queued(here, edge as int, node as int, port as int, packets@);
                let now = here.all_queued(edge as int, node as int, port as int, packets@);
                assert(node_kin(here.nodes[node as int], now.nodes[node as int]));
            }
            self.enqueue_all(edge, node, port, packets);
            assert(self@.nodes[node as int] == self.nodes@[node as int]@);
            assert(self@.nodes[node as int].queues[port as int]
                == self.nodes@[node as int].input_queues@[port as int]@);
            let depth: usize = self.nodes[node].input_queues[port].len();
            self.warn_if_over_soft_limit(edge, depth);
            proof {
                keeps_consumed(told, edge as int, packets@, (k + 1) as nat);
                assert(self@.edges[edge as int] == self.edges@[edge as int]@);
            }
        }
        proof {
            keeps_consumed(told, edge as int, packets@, e.consumers.len());
        }
    }
}

} // verus!

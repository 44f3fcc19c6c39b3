//! What the host of a graph can rely on: starting, sending, polling, closing.

use crate::api::{missing_side_packet, PollStep};
use crate::kernel_laws::mentions_text;
use crate::packet::Packet;
use crate::run_state::{KernelPhase, Notice, Policy, PollerView, RunEdge, RunView, Task};
use crate::runtime::{SharedView, LOG_ERROR};
use crate::status::ErrorView;
use vstd::prelude::*;

verus! {

// -------------------------------------------------------------------- starting

/// Every node is opened with the side packets that were set on the graph,
/// whichever it is and whatever its context held before, and with nothing of
/// an earlier call. The others are left alone, and so are the side packets.
pub proof fn nodes_are_opened_with_the_side_packets(g: RunView, n: int, now: u64)
    requires
        0 <= n < g.nodes.len(),
        g.nodes.len() <= usize::MAX,
    ensures
        ({
            let after = g.opening(n, now);
            let ctx = after.nodes[n].ctx;
            &&& ctx.side_packets == g.side_packets
            &&& after.side_packets == g.side_packets
            &&& after.task == Task::Opening(n as usize)
            &&& after.nodes[n].running_since == Some(now)
            &&& forall|i: int| 0 <= i < ctx.inputs.len() ==> #[trigger] ctx.inputs[i] is None
            &&& forall|o: int| 0 <= o < ctx.staging.len() ==> (#[trigger] ctx.staging[o]).len() == 0
            &&& ctx.options == g.nodes[n].ctx.options
            &&& ctx.input_ts.0 == i64::MIN + 1
            &&& ctx.close_reason == 0 && ctx.error_msg is None
            &&& after.nodes[n].queues == g.nodes[n].queues
            &&& after.nodes[n].sched == g.nodes[n].sched
            &&& after.nodes.len() == g.nodes.len()
            &&& forall|m: int|
                0 <= m < g.nodes.len() && m != n ==> #[trigger] after.nodes[m] == g.nodes[m]
        }),
{
}

/// A node that was opened is followed by the next one, which gets the same
/// side packets. After the last one the graph runs.
pub proof fn openings_go_from_node_to_node(g: RunView, n: int, us: i64, now: u64)
    requires
        0 <= n < g.nodes.len(),
        g.nodes.len() <= usize::MAX,
    ensures
        ({
            let back = g.timed(n, KernelPhase::Open, us);
            let after = back.open_done(n).opening(n + 1, now);
            &&& after.nodes[n].sched.opened
            &&& after.side_packets == g.side_packets
            &&& n + 1 < g.nodes.len() ==> after.task == Task::Opening((n + 1) as usize)
                && after.nodes[n + 1].ctx.side_packets == g.side_packets && after.state == g.state
            &&& n + 1 == g.nodes.len() ==> after.state is Running && after.task is Idle
            &&& after.nodes[n].ctx.side_packets == g.nodes[n].ctx.side_packets
        }),
{
}

/// A node that could not be opened fails the graph, and no other is opened.
pub proof fn failed_openings_fail_the_graph(g: RunView, n: int, rc: i32)
    requires
        0 <= n < g.nodes.len(),
    ensures
        g.open_failed(n, rc).shared.error is Some,
        g.open_failed(n, rc).task is Idle,
        g.open_failed(n, rc).state == g.state,
        g.open_failed(n, rc).nodes[n].sched == g.nodes[n].sched,
{
}

/// A start is refused for a side packet exactly if one that is needed was not
/// set, and the refusal names the first such one and the node that needs it.
pub proof fn starts_want_every_side_packet(
    required: Seq<(Seq<char>, Seq<char>)>,
    provided: Map<Seq<char>, Packet>,
)
    ensures
        missing_side_packet(required, provided) is None <==> forall|i: int|
            0 <= i < required.len() ==> provided.contains_key(#[trigger] required[i].0),
        missing_side_packet(required, provided) matches Some(e) ==> exists|i: int|
            {
                &&& 0 <= i < required.len()
                &&& !provided.contains_key(#[trigger] required[i].0)
                &&& forall|k: int| 0 <= k < i ==> provided.contains_key(#[trigger] required[k].0)
                &&& mentions_text(e.text(), required[i].0)
                &&& mentions_text(e.text(), required[i].1)
            },
    decreases required.len(),
{
    if required.len() > 0 {
        let front = required.drop_last();
        let (need, who) = required.last();
        starts_want_every_side_packet(front, provided);
        assert forall|i: int| 0 <= i < front.len() implies front[i] == #[trigger] required[i] by {}
        assert(required[required.len() - 1] == (need, who));
        if missing_side_packet(front, provided) is Some {
            let e = missing_side_packet(front, provided)->Some_0;
            let i = choose|i: int|
                {
                    &&& 0 <= i < front.len()
                    &&& !provided.contains_key(#[trigger] front[i].0)
                    &&& forall|k: int| 0 <= k < i ==> provided.contains_key(#[trigger] front[k].0)
                    &&& mentions_text(e.text(), front[i].0)
                    &&& mentions_text(e.text(), front[i].1)
                };
            assert(required[i] == front[i]);
            assert forall|k: int| 0 <= k < i implies provided.contains_key(
                #[trigger] required[k].0,
            ) by {
                assert(front[k] == required[k]);
            }
            assert(!provided.contains_key(required[i].0));
        } else {
            assert forall|k: int| 0 <= k < front.len() implies provided.contains_key(
                #[trigger] required[k].0,
            ) by {
                assert(provided.contains_key(front[k].0));
            }
            if !provided.contains_key(need) {
                let i = required.len() - 1;
                let text = missing_side_packet(required, provided)->Some_0.text();
                let a = "缺少必需的 side packet `"@;
                let b = "` —— 节点 `"@;
                assert(text.subrange(a.len() as int, (a.len() + need.len()) as int) =~= need);
                let at = a.len() + need.len() + b.len();
                assert(text.subrange(at as int, (at + who.len()) as int) =~= who);
                assert(!provided.contains_key(required[i].0));
            }
        }
    }
}

/// A graph starts only once, and only with all side packets.
pub proof fn starts_are_owed(g: RunView)
    ensures
        g.start_problem() is None <==> g.state is Initialized && forall|i: int|
            0 <= i < g.required.len() ==> g.side_packets.contains_key(#[trigger] g.required[i].0),
{
    starts_want_every_side_packet(g.required, g.side_packets);
}

// --------------------------------------------------------------------- sending

/// A packet is taken into consideration on a graph input exactly if the graph
/// runs, was not cancelled and did not fail, the input is open and the packet
/// has a time stamp.
pub proof fn inputs_take_stamped_packets_of_running_graphs(g: RunView, edge: int, p: Packet)
    requires
        0 <= edge < g.edges.len(),
    ensures
        g.send_problem(edge, p) is None <==> {
            &&& g.state is Running
            &&& !g.shared.cancelled
            &&& g.shared.error is None
            &&& !g.edges[edge].closed
            &&& p.stamp.0 != i64::MIN
        },
        g.state is Draining || g.state is Terminated ==> g.send_problem(edge, p) == Some(
            ErrorView::Closed,
        ),
        g.state is Created || g.state is Initialized ==> (g.send_problem(
            edge,
            p,
        ) matches Some(ErrorView::State(_))),
        g.state is Running && !g.shared.cancelled && g.shared.error is None
            && g.edges[edge].closed ==> g.send_problem(edge, p) == Some(ErrorView::Closed),
        g.state is Running && g.shared.cancelled ==> g.send_problem(edge, p) == Some(
            ErrorView::Cancelled,
        ),
        g.state is Running && !g.shared.cancelled && g.shared.error is Some ==> g.send_problem(
            edge,
            p,
        ) == g.shared.error,
        g.order_problem(edge, p) is None <==> g.edges[edge].last_sent.0 == i64::MIN || p.stamp.0
            > g.edges[edge].last_sent.0,
{
}

/// The whole graph is full exactly if one of its limits is set and reached.
pub proof fn full_graphs_have_reached_a_limit(s: SharedView)
    ensures
        s.over_watermark() <==> {
            ||| s.config.max_queued_packets != 0 && s.queued >= s.config.max_queued_packets
            ||| s.config.max_queued_bytes != 0 && s.bytes >= s.config.max_queued_bytes
        },
{
}

/// A packet that is put in a queue comes behind what waits there. Nothing is
/// lost but, of a queue of a fixed size that is full, its oldest packet, and
/// that is counted on the edge, once.
pub proof fn losses_are_counted(g: RunView, edge: int, node: int, port: int, p: Packet)
    requires
        0 <= edge < g.edges.len(),
        0 <= node < g.nodes.len(),
        0 <= port < g.nodes[node].queues.len(),
        g.edges[edge].dropped < u64::MAX,
    ensures
        ({
            let before = g.nodes[node].queues[port];
            let after = g.queued(edge, node, port, p).nodes[node].queues[port];
            let lost = g.queued(edge, node, port, p).edges[edge].dropped - g.edges[edge].dropped;
            &&& after.last() == p
            &&& after.len() + lost == before.len() + 1
            &&& lost == 0 || lost == 1
            &&& lost == 0 ==> after.drop_last() == before
            &&& lost == 1 ==> after.drop_last() == before.drop_first()
            &&& lost == 1 <==> (g.nodes[node].policy matches Policy::FixedSize(c) && before.len()
                >= c && before.len() > 0)
            &&& g.shared.queued > 0 && g.shared.queued < usize::MAX ==> g.queued(
                edge,
                node,
                port,
                p,
            ).shared.queued == g.shared.queued + 1 - lost
            &&& lost == 0 && g.shared.bytes + p.bytes <= u64::MAX ==> g.queued(
                edge,
                node,
                port,
                p,
            ).shared.bytes == g.shared.bytes + p.bytes
            &&& lost == 1 && g.shared.bytes >= before[0].bytes && g.shared.bytes + p.bytes
                <= u64::MAX ==> g.queued(edge, node, port, p).shared.bytes == g.shared.bytes
                + p.bytes - before[0].bytes
        }),
{
    let before = g.nodes[node].queues[port];
    let after = g.queued(edge, node, port, p).nodes[node].queues[port];
    if g.nodes[node].policy matches Policy::FixedSize(c) && before.len() >= c && before.len() > 0 {
        assert(after.drop_last() =~= before.drop_first());
    } else {
        assert(after.drop_last() =~= before);
    }
}

/// The packets that wait in one edge are those at all of its readers.
pub proof fn depths_are_sums(g: RunView, edge: int)
    requires
        0 <= edge < g.edges.len(),
    ensures
        g.depth(edge, g.edges[edge].consumers.len()) == g.edges[edge].consumers.fold_left(
            0nat,
            |sum: nat, c: (usize, usize)| sum + g.nodes[c.0 as int].queues[c.1 as int].len(),
        ),
{
    let all = g.edges[edge].consumers;
    lemma_depth(g, edge, all.len());
    assert(all.take(all.len() as int) =~= all);
}

proof fn lemma_depth(g: RunView, edge: int, k: nat)
    requires
        0 <= edge < g.edges.len(),
        k <= g.edges[edge].consumers.len(),
    ensures
        g.depth(edge, k) == g.edges[edge].consumers.take(k as int).fold_left(
            0nat,
            |sum: nat, c: (usize, usize)| sum + g.nodes[c.0 as int].queues[c.1 as int].len(),
        ),
    decreases k,
{
    let some = g.edges[edge].consumers.take(k as int);
    if k > 0 {
        lemma_depth(g, edge, (k - 1) as nat);
        assert(some.drop_last() =~= g.edges[edge].consumers.take(k - 1));
        assert(some.last() == g.edges[edge].consumers[k - 1]);
    }
}

// -------------------------------------------------------------------- observing

/// Every observer is told of every packet: the observers in their order, and
/// each of the packets in theirs.
pub proof fn observers_hear_every_packet(
    observers: Seq<u64>,
    packets: Seq<Packet>,
    i: int,
    j: int,
)
    requires
        0 <= i < observers.len(),
        0 <= j < packets.len(),
    ensures
        RunView::notices(observers, packets, observers.len()).len() == observers.len()
            * packets.len(),
        0 <= i * packets.len() + j < observers.len() * packets.len(),
        RunView::notices(observers, packets, observers.len())[i * packets.len() + j] == (Notice {
            observer: observers[i],
            packet: packets[j],
        }),
{
    lemma_notices(observers, packets, observers.len(), i, j);
}

proof fn lemma_notices(observers: Seq<u64>, packets: Seq<Packet>, k: nat, i: int, j: int)
    requires
        0 <= i < k <= observers.len(),
        0 <= j < packets.len(),
    ensures
        RunView::notices(observers, packets, k).len() == k * packets.len(),
        0 <= i * packets.len() + j < k * packets.len(),
        RunView::notices(observers, packets, k)[i * packets.len() + j] == (Notice {
            observer: observers[i],
            packet: packets[j],
        }),
    decreases k,
{
    let n = packets.len();
    lemma_notices_count(observers, packets, k);
    lemma_notices_count(observers, packets, (k - 1) as nat);
    let before = RunView::notices(observers, packets, (k - 1) as nat);
    assert(k * n == (k - 1) * n + n) by (nonlinear_arith)
        requires
            k >= 1,
    ;
    if i < k - 1 {
        lemma_notices(observers, packets, (k - 1) as nat, i, j);
        assert(RunView::notices(observers, packets, k)[i * n + j] == before[i * n + j]);
    } else {
        assert(i * n == before.len());
        assert(i * n >= 0) by (nonlinear_arith)
            requires
                i >= 0,
                n >= 0,
        ;
    }
}

proof fn lemma_notices_count(observers: Seq<u64>, packets: Seq<Packet>, k: nat)
    requires
        k <= observers.len(),
    ensures
        RunView::notices(observers, packets, k).len() == k * packets.len(),
    decreases k,
{
    let n = packets.len();
    if k > 0 {
        lemma_notices_count(observers, packets, (k - 1) as nat);
        assert(k * n == (k - 1) * n + n) by (nonlinear_arith)
            requires
                k >= 1,
        ;
    } else {
        assert(k * n == 0) by (nonlinear_arith)
            requires
                k == 0,
        ;
    }
}

// --------------------------------------------------------------------- polling

/// A new poller is the last of its edge, open and empty; the others stay.
pub proof fn new_pollers_begin_empty(g: RunView, edge: int)
    requires
        0 <= edge < g.edges.len(),
        g.edges.len() <= usize::MAX,
    ensures
        ({
            let before = g.edges[edge].pollers;
            let after = g.polled(edge).edges[edge].pollers;
            &&& after.len() == before.len() + 1
            &&& after.last().queue.len() == 0 && !after.last().closed && after.last().edge == edge
            &&& forall|i: int| 0 <= i < before.len() ==> #[trigger] after[i] == before[i]
        }),
{
}

/// A poller gives its packets out in the order in which they came: first the
/// one that came first, and what came behind it stays. Other pollers keep
/// what they have.
pub proof fn pollers_are_first_in_first_out(g: RunView, edge: int, index: int, pumped: Option<bool>)
    requires
        0 <= edge < g.edges.len(),
        0 <= index < g.edges[edge].pollers.len(),
    ensures
        ({
            let before = g.edges[edge].pollers[index].queue;
            let after = g.popped(edge, index).edges[edge].pollers[index].queue;
            &&& before.len() > 0 ==> g.poll_step(edge, index, pumped) == PollStep::Got(before[0])
                && before == seq![before[0]] + after
            &&& before.len() == 0 ==> after.len() == 0 && g.poll_step(edge, index, pumped) !is Got
            &&& before.len() == 0 ==> (g.poll_step(edge, index, pumped) is End <==> {
                ||| g.edges[edge].pollers[index].closed
                ||| g.shared.error is Some
                ||| pumped == Some(false)
            })
        }),
        forall|i: int|
            0 <= i < g.edges[edge].pollers.len() && i != index ==> #[trigger] g.popped(
                edge,
                index,
            ).edges[edge].pollers[i] == g.edges[edge].pollers[i],
{
    let before = g.edges[edge].pollers[index].queue;
    let after = g.popped(edge, index).edges[edge].pollers[index].queue;
    if before.len() > 0 {
        assert(before =~= seq![before[0]] + after);
    }
}

// --------------------------------------------------------------------- closing

proof fn lemma_ports_closed_exactly(
    g: RunView,
    ports: Seq<(usize, usize)>,
    k: nat,
    c: int,
    p: int,
)
    requires
        k <= ports.len(),
        0 <= c < g.nodes.len() <= usize::MAX,
        0 <= p < g.nodes[c].closed.len() <= usize::MAX,
        forall|i: int|
            0 <= i < ports.len() ==> (#[trigger] ports[i]).0 < g.nodes.len() && ports[i].1
                < g.nodes[ports[i].0 as int].closed.len(),
    ensures
        ({
            let after = g.ports_closed(ports, k);
            &&& after.nodes.len() == g.nodes.len()
            &&& after.nodes[c].closed.len() == g.nodes[c].closed.len()
            &&& after.nodes[c].closed[p] <==> g.nodes[c].closed[p] || ports.take(
                k as int,
            ).contains((c as usize, p as usize))
            &&& after.nodes[c].queues == g.nodes[c].queues
            &&& after.nodes[c].ctx == g.nodes[c].ctx
        }),
    decreases k,
{
    let some = ports.take(k as int);
    let pair = (c as usize, p as usize);
    if k > 0 {
        lemma_ports_closed_exactly(g, ports, (k - 1) as nat, c, p);
        let front = ports.take(k - 1);
        let last = ports[k - 1];
        assert(last.0 < g.nodes.len() && last.1 < g.nodes[last.0 as int].closed.len());
        assert(some =~= front.push(last));
        if front.contains(pair) {
            let i = front.index_of(pair);
            assert(some[i] == pair);
        }
        if last == pair {
            assert(some[k - 1] == pair);
        } else if some.contains(pair) {
            let i = some.index_of(pair);
            assert(front[i] == pair);
        }
    } else {
        assert(some =~= Seq::empty());
    }
}

/// Closing an edge tells exactly the input ports that read it, and its
/// pollers, that nothing more comes. What waits there stays.
pub proof fn closed_edges_tell_their_readers(g: RunView, edge: int, c: int, p: int, i: int)
    requires
        g.fits(),
        0 <= edge < g.edges.len(),
        !g.edges[edge].closed,
        0 <= c < g.nodes.len(),
        0 <= p < g.nodes[c].closed.len(),
        0 <= i < g.edges[edge].pollers.len(),
    ensures
        ({
            let after = g.edge_closed(edge);
            &&& after.edges[edge].closed
            &&& after.nodes[c].closed[p] <==> g.nodes[c].closed[p]
                || g.edges[edge].consumers.contains((c as usize, p as usize))
            &&& after.nodes[c].queues == g.nodes[c].queues
            &&& after.edges[edge].pollers[i].closed
            &&& after.edges[edge].pollers[i].queue == g.edges[edge].pollers[i].queue
        }),
        g.edge_closed(edge).edge_closed(edge) == g.edge_closed(edge),
{
    let e = g.edges[edge];
    let marked = g.with_edge(
        edge,
        RunEdge {
            closed: true,
            pollers: Seq::new(
                e.pollers.len(),
                |i: int| PollerView { closed: true, ..e.pollers[i] },
            ),
            ..e
        },
    );
    assert(g.nodes[c].fits(g.edges.len()));
    assert forall|k: int| 0 <= k < e.consumers.len() implies (#[trigger] e.consumers[k]).0
        < g.nodes.len() && e.consumers[k].1 < g.nodes[e.consumers[k].0 as int].closed.len() by {
        let (node, port) = g.edges[edge].consumers[k];
        assert(g.nodes[node as int].fits(g.edges.len()));
    }
    lemma_ports_closed_exactly(marked, e.consumers, e.consumers.len(), c, p);
    lemma_ports_closed_edges(marked, e.consumers, e.consumers.len());
    assert(e.consumers.take(e.consumers.len() as int) =~= e.consumers);
}

/// Telling ports that nothing more comes does not change an edge.
pub proof fn lemma_ports_closed_edges(g: RunView, ports: Seq<(usize, usize)>, k: nat)
    requires
        k <= ports.len(),
    ensures
        g.ports_closed(ports, k).edges == g.edges,
    decreases k,
{
    if k > 0 {
        lemma_ports_closed_edges(g, ports, (k - 1) as nat);
    }
}

/// A graph begins to drain exactly when it runs and its last input is closed.
pub proof fn graphs_drain_when_all_inputs_are_closed(g: RunView)
    ensures
        g.state is Running && (forall|k: int|
            0 <= k < g.graph_inputs.len() ==> g.edges[(
            #[trigger] g.graph_inputs[k]) as int].closed) ==> g.drain_noted().state is Draining,
        g.state is Running && (exists|k: int|
            0 <= k < g.graph_inputs.len() && !g.edges[(
            #[trigger] g.graph_inputs[k]) as int].closed) ==> g.drain_noted().state is Running,
        g.state !is Running ==> g.drain_noted().state == g.state,
        g.drain_noted().nodes == g.nodes,
        g.drain_noted().edges == g.edges,
{
}

/// The first failure of a graph is kept and logged as an error; a later one is
/// logged as a warning.
pub proof fn failures_are_logged(s: SharedView, e: ErrorView)
    requires
        !e.text().contains('\0'),
        s.error is None,
    ensures
        s.failed(e).error == Some(e),
        s.failed(e).log.len() == s.log.len() + 1,
        s.failed(e).log.last().level == LOG_ERROR,
        s.failed(e).log.last().text == e.text(),
        s.failed(e).log.drop_last() == s.log,
{
    assert(s.failed(e).log.drop_last() =~= s.log);
}

} // verus!

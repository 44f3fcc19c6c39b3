//! The totals of a running graph: what the graph says is queued is what waits
//! at its input ports.

use crate::config::GraphView;
use crate::context::ContextView;
use crate::engine::{keeps_closed_node, keeps_ran, keeps_timed};
use crate::graph::{
    alike, keeps_all_queued, keeps_consumed, keeps_dispatched, kin, kin_fits, node_kin,
};
use crate::lifecycle::{built, ContractView};
use crate::ownership::{
    all_flushed_changes_one_context, edge_closed_keeps_contexts, edges_closed_keep_contexts,
    same_contexts, sent_keeps_contexts,
};
use crate::packet::{no_packets, Packet};
use crate::run_state::{
    behind_head, heads_dequeued, one_more, Action, KernelPhase, NodeSched, NodeStats, PollerView,
    RunEdge, RunNode, RunView, Task,
};
use crate::runtime::SharedView;
use crate::schedule::{
    keeps_all_flushed, keeps_all_scheduled, keeps_edge_closed, keeps_edges_closed, keeps_flushed,
    keeps_ports_closed,
};
use vstd::prelude::*;

verus! {

/// How many packets wait at the first `k` nodes.
pub open spec fn total(nodes: Seq<RunNode>, k: nat) -> nat
    decreases k,
{
    if k == 0 {
        0
    } else {
        total(nodes, (k - 1) as nat) + nodes[k - 1].waiting(nodes[k - 1].queues.len())
    }
}

/// How many packets wait in a graph.
pub open spec fn waiting_in(g: RunView) -> nat {
    total(g.nodes, g.nodes.len())
}

/// Whether the graph knows how many packets wait.
pub open spec fn accounted(g: RunView) -> bool {
    g.shared.queued == waiting_in(g)
}

// ------------------------------------------------------------------- counting

/// What waits depends on the lengths of the queues alone.
proof fn lemma_same_waiting(a: RunNode, b: RunNode, k: nat)
    requires
        forall|i: int| 0 <= i < k ==> (#[trigger] a.queues[i]).len() == b.queues[i].len(),
    ensures
        a.waiting(k) == b.waiting(k),
    decreases k,
{
    if k > 0 {
        lemma_same_waiting(a, b, (k - 1) as nat);
        assert(a.queues[k - 1].len() == b.queues[k - 1].len());
    }
}

proof fn lemma_waiting_update(n: RunNode, port: int, q: Seq<Packet>, k: nat)
    requires
        0 <= port < n.queues.len(),
        k <= n.queues.len(),
    ensures
        (RunNode { queues: n.queues.update(port, q), ..n }).waiting(k) == n.waiting(k) + (
        if port < k {
            q.len() - n.queues[port].len()
        } else {
            0
        }),
    decreases k,
{
    if k > 0 {
        lemma_waiting_update(n, port, q, (k - 1) as nat);
    }
}

/// Two lists of nodes with the same queues wait for the same.
proof fn lemma_same_total(a: Seq<RunNode>, b: Seq<RunNode>, k: nat)
    requires
        k <= a.len(),
        k <= b.len(),
        forall|i: int| 0 <= i < k ==> (#[trigger] a[i]).queues == b[i].queues,
    ensures
        total(a, k) == total(b, k),
    decreases k,
{
    if k > 0 {
        lemma_same_total(a, b, (k - 1) as nat);
        assert(a[k - 1].queues == b[k - 1].queues);
        lemma_same_waiting(a[k - 1], b[k - 1], a[k - 1].queues.len());
    }
}

proof fn lemma_total_update(nodes: Seq<RunNode>, i: int, node: RunNode, k: nat)
    requires
        0 <= i < nodes.len(),
        k <= nodes.len(),
    ensures
        total(nodes.update(i, node), k) == total(nodes, k) + (if i < k {
            node.waiting(node.queues.len()) - nodes[i].waiting(nodes[i].queues.len())
        } else {
            0
        }),
    decreases k,
{
    if k > 0 {
        lemma_total_update(nodes, i, node, (k - 1) as nat);
    }
}

/// What waits at one port is part of what waits in the graph.
proof fn lemma_port_counts(g: RunView, node: int, port: int)
    requires
        0 <= node < g.nodes.len(),
        0 <= port < g.nodes[node].queues.len(),
    ensures
        g.nodes[node].queues[port].len() <= waiting_in(g),
{
    lemma_port_in_node(g.nodes[node], port, g.nodes[node].queues.len());
    lemma_node_in_total(g.nodes, node, g.nodes.len());
}

proof fn lemma_port_in_node(n: RunNode, port: int, k: nat)
    requires
        0 <= port < k <= n.queues.len(),
    ensures
        n.queues[port].len() <= n.waiting(k),
    decreases k,
{
    if port < k - 1 {
        lemma_port_in_node(n, port, (k - 1) as nat);
    }
}

proof fn lemma_node_in_total(nodes: Seq<RunNode>, i: int, k: nat)
    requires
        0 <= i < k <= nodes.len(),
    ensures
        nodes[i].waiting(nodes[i].queues.len()) <= total(nodes, k),
    decreases k,
{
    if i < k - 1 {
        lemma_node_in_total(nodes, i, (k - 1) as nat);
    }
}

/// Whether two states have the same queues and the same count of them.
spec fn level(a: RunView, b: RunView) -> bool {
    &&& a.nodes.len() == b.nodes.len()
    &&& a.shared.queued == b.shared.queued
    &&& forall|i: int| 0 <= i < a.nodes.len() ==> (#[trigger] b.nodes[i]).queues == a.nodes[i].queues
}

proof fn level_counts(a: RunView, b: RunView)
    requires
        level(a, b),
    ensures
        waiting_in(a) == waiting_in(b),
        accounted(a) == accounted(b),
{
    lemma_same_total(b.nodes, a.nodes, a.nodes.len());
}

proof fn level_trans(a: RunView, b: RunView, c: RunView)
    requires
        level(a, b),
        level(b, c),
    ensures
        level(a, c),
{
    assert forall|i: int| 0 <= i < a.nodes.len() implies (#[trigger] c.nodes[i]).queues
        == a.nodes[i].queues by {
        assert(b.nodes[i].queues == a.nodes[i].queues);
    }
}

// ------------------------------------------------------------------ the changes

proof fn queued_counts(g: RunView, edge: int, node: int, port: int, p: Packet)
    requires
        0 <= node < g.nodes.len(),
        0 <= port < g.nodes[node].queues.len(),
    ensures
        waiting_in(g) <= waiting_in(g.queued(edge, node, port, p)),
        accounted(g) && waiting_in(g.queued(edge, node, port, p)) <= usize::MAX ==> accounted(
            g.queued(edge, node, port, p),
        ),
{
    let after = g.queued(edge, node, port, p);
    let n = g.nodes[node];
    let q2 = after.nodes[node].queues[port];
    lemma_waiting_update(n, port, q2, n.queues.len());
    assert(after.nodes[node] == (RunNode { queues: n.queues.update(port, q2), ..n }));
    lemma_total_update(g.nodes, node, after.nodes[node], g.nodes.len());
    assert(after.nodes =~= g.nodes.update(node, after.nodes[node]));
    lemma_port_counts(g, node, port);
}

proof fn all_queued_counts(g: RunView, edge: int, node: int, port: int, packets: Seq<Packet>)
    requires
        0 <= edge < g.edges.len(),
        0 <= node < g.nodes.len(),
        0 <= port < g.nodes[node].queues.len(),
    ensures
        waiting_in(g) <= waiting_in(g.all_queued(edge, node, port, packets)),
        accounted(g) && waiting_in(g.all_queued(edge, node, port, packets)) <= usize::MAX
            ==> accounted(g.all_queued(edge, node, port, packets)),
    decreases packets.len(),
{
    if packets.len() > 0 {
        let before = g.all_queued(edge, node, port, packets.drop_last());
        all_queued_counts(g, edge, node, port, packets.drop_last());
        keeps_all_queued(g, edge, node, port, packets.drop_last());
        assert(node_kin(g.nodes[node], before.nodes[node]));
        queued_counts(before, edge, node, port, packets.last());
    }
}

proof fn consumed_counts(g: RunView, edge: int, packets: Seq<Packet>, k: nat)
    requires
        g.fits(),
        0 <= edge < g.edges.len(),
        k <= g.edges[edge].consumers.len(),
    ensures
        waiting_in(g) <= waiting_in(g.consumed(edge, packets, k)),
        accounted(g) && waiting_in(g.consumed(edge, packets, k)) <= usize::MAX ==> accounted(
            g.consumed(edge, packets, k),
        ),
    decreases k,
{
    if k > 0 {
        let before = g.consumed(edge, packets, (k - 1) as nat);
        consumed_counts(g, edge, packets, (k - 1) as nat);
        keeps_consumed(g, edge, packets, (k - 1) as nat);
        let (node, port) = g.edges[edge].consumers[k - 1];
        assert(node_kin(g.nodes[node as int], before.nodes[node as int]));
        assert(g.nodes[node as int].fits(g.edges.len()));
        all_queued_counts(before, edge, node as int, port as int, packets);
        let now = before.all_queued(edge, node as int, port as int, packets);
        assert(level(now, g.consumed(edge, packets, k)));
        level_counts(now, g.consumed(edge, packets, k));
    }
}

proof fn all_scheduled_is_level(g: RunView, edge: int, k: nat)
    requires
        g.fits(),
        0 <= edge < g.edges.len(),
        k <= g.edges[edge].consumers.len(),
    ensures
        level(g, g.all_scheduled(edge, k)),
    decreases k,
{
    if k > 0 {
        let before = g.all_scheduled(edge, (k - 1) as nat);
        all_scheduled_is_level(g, edge, (k - 1) as nat);
        keeps_all_scheduled(g, edge, (k - 1) as nat);
        assert(g.edges[edge].consumers[k - 1].0 < g.nodes.len());
        assert(level(before, g.all_scheduled(edge, k)));
        level_trans(g, before, g.all_scheduled(edge, k));
    }
}

/// Sending never makes less wait, and keeps the count right as long as it can
/// be held.
pub proof fn sends_are_counted(g: RunView, edge: int, packets: Seq<Packet>)
    requires
        g.fits(),
        0 <= edge < g.edges.len(),
    ensures
        waiting_in(g) <= waiting_in(g.sent(edge, packets)),
        accounted(g) && waiting_in(g.sent(edge, packets)) <= usize::MAX ==> accounted(
            g.sent(edge, packets),
        ),
{
    let e = g.edges[edge];
    let told = RunView {
        outbox: g.outbox + RunView::notices(e.observers, packets, e.observers.len()),
        ..g
    }.with_edge(
        edge,
        RunEdge {
            pollers: Seq::new(
                e.pollers.len(),
                |i: int| PollerView { queue: e.pollers[i].queue + packets, ..e.pollers[i] },
            ),
            ..e
        },
    );
    assert(kin(g, told));
    kin_fits(g, told);
    assert(level(g, told));
    level_counts(g, told);
    assert(told.edges[edge].consumers == e.consumers);
    consumed_counts(told, edge, packets, e.consumers.len());
    keeps_dispatched(g, edge, packets);
    let after = g.dispatched(edge, packets);
    assert(after.edges[edge].consumers == e.consumers);
    all_scheduled_is_level(after, edge, e.consumers.len());
    level_counts(after, g.sent(edge, packets));
}

proof fn flushed_counts(g: RunView, n: int, staging: Seq<Seq<Packet>>, k: nat)
    requires
        g.fits(),
        0 <= n < g.nodes.len(),
        k <= g.nodes[n].outputs.len(),
    ensures
        waiting_in(g) <= waiting_in(g.flushed(n, staging, k)),
        accounted(g) && waiting_in(g.flushed(n, staging, k)) <= usize::MAX ==> accounted(
            g.flushed(n, staging, k),
        ),
    decreases k,
{
    if k > 0 {
        let before = g.flushed(n, staging, (k - 1) as nat);
        flushed_counts(g, n, staging, (k - 1) as nat);
        keeps_flushed(g, n, staging, (k - 1) as nat);
        assert(g.nodes[n].fits(g.edges.len()));
        if staging[k - 1].len() > 0 {
            sends_are_counted(before, g.nodes[n].outputs[k - 1] as int, staging[k - 1]);
        }
    }
}

proof fn all_flushed_counts(g: RunView, n: int)
    requires
        g.fits(),
        0 <= n < g.nodes.len(),
    ensures
        waiting_in(g) <= waiting_in(g.all_flushed(n)),
        accounted(g) && waiting_in(g.all_flushed(n)) <= usize::MAX ==> accounted(
            g.all_flushed(n),
        ),
{
    let ctx = g.nodes[n].ctx;
    let cleared = g.with_ctx(n, ContextView { staging: no_packets(ctx.staging.len()), ..ctx });
    assert(kin(g, cleared));
    kin_fits(g, cleared);
    assert(level(g, cleared));
    level_counts(g, cleared);
    flushed_counts(cleared, n, ctx.staging, g.nodes[n].outputs.len());
}

proof fn ports_closed_is_level(g: RunView, ports: Seq<(usize, usize)>, k: nat)
    requires
        g.fits(),
        k <= ports.len(),
        forall|i: int|
            0 <= i < ports.len() ==> {
                let (node, port) = #[trigger] ports[i];
                node < g.nodes.len() && port < g.nodes[node as int].inputs.len()
            },
    ensures
        level(g, g.ports_closed(ports, k)),
    decreases k,
{
    if k > 0 {
        let before = g.ports_closed(ports, (k - 1) as nat);
        ports_closed_is_level(g, ports, (k - 1) as nat);
        let (node, port) = ports[k - 1];
        assert(level(before, g.ports_closed(ports, k)));
        level_trans(g, before, g.ports_closed(ports, k));
    }
}

proof fn edges_closed_is_level(g: RunView, edges: Seq<usize>, k: nat)
    requires
        g.fits(),
        k <= edges.len(),
        forall|i: int| 0 <= i < edges.len() ==> #[trigger] edges[i] < g.edges.len(),
    ensures
        level(g, g.edges_closed(edges, k)),
    decreases k,
{
    if k > 0 {
        let before = g.edges_closed(edges, (k - 1) as nat);
        edges_closed_is_level(g, edges, (k - 1) as nat);
        keeps_edges_closed(g, edges, (k - 1) as nat);
        assert(edges[k - 1] < before.edges.len());
        let edge = edges[k - 1] as int;
        let e = before.edges[edge];
        if !e.closed {
            let shut = before.with_edge(
                edge,
                RunEdge {
                    closed: true,
                    pollers: Seq::new(
                        e.pollers.len(),
                        |i: int| PollerView { closed: true, ..e.pollers[i] },
                    ),
                    ..e
                },
            );
            assert(kin(before, shut));
            kin_fits(before, shut);
            assert forall|i: int| 0 <= i < e.consumers.len() implies {
                let (node, port) = #[trigger] e.consumers[i];
                node < shut.nodes.len() && port < shut.nodes[node as int].inputs.len()
            } by {
                let (node, port) = before.edges[edge].consumers[i];
            }
            ports_closed_is_level(shut, e.consumers, e.consumers.len());
            assert(level(before, shut));
            level_trans(before, shut, before.edge_closed(edge));
        } else {
            assert(level(before, before.edge_closed(edge)));
        }
        level_trans(g, before, g.edges_closed(edges, k));
    }
}

proof fn closed_node_counts(g: RunView, n: int, rc: i32)
    requires
        g.fits(),
        0 <= n < g.nodes.len(),
        accounted(g),
        waiting_in(g.closed_node(n, rc)) <= usize::MAX,
    ensures
        accounted(g.closed_node(n, rc)),
{
    let ctx = g.nodes[n].ctx;
    let after = if g.outcome(n, rc) is Some {
        g.with_ctx(n, (ContextView { error_msg: None, ..ctx }).discarded()).failed(
            g.outcome(n, rc)->Some_0,
        )
    } else {
        g.all_flushed(n)
    };
    if g.outcome(n, rc) is Some {
        assert(kin(g, after));
        kin_fits(g, after);
        assert(level(g, after));
        level_counts(g, after);
    } else {
        keeps_all_flushed(g, n);
        all_flushed_counts(g, n);
    }
    let released = after.with_ctx(n, after.nodes[n].ctx.released());
    let shut = released.with_sched(n, NodeSched { closed: true, ..released.nodes[n].sched });
    assert(kin(after, shut));
    kin_fits(after, shut);
    assert(level(after, shut));
    assert(kin(g, after)) by {
        if g.outcome(n, rc) is None {
            keeps_all_flushed(g, n);
        }
    }
    assert(g.nodes[n].fits(g.edges.len()));
    edges_closed_is_level(shut, g.nodes[n].outputs, g.nodes[n].outputs.len());
    level_trans(after, shut, g.closed_node(n, rc));
    level_counts(after, g.closed_node(n, rc));
}

proof fn ran_counts(g: RunView, n: int, rc: i32)
    requires
        g.fits(),
        0 <= n < g.nodes.len(),
        accounted(g),
        waiting_in(g.ran(n, rc)) <= usize::MAX,
    ensures
        accounted(g.ran(n, rc)),
{
    let stats = g.nodes[n].stats;
    if g.outcome(n, rc) is Some {
        assert(level(g, g.ran(n, rc)));
        level_counts(g, g.ran(n, rc));
    } else {
        let counted = g.with_stats(n, NodeStats { processed: one_more(stats.processed), ..stats });
        assert(kin(g, counted));
        kin_fits(g, counted);
        assert(level(g, counted));
        level_counts(g, counted);
        all_flushed_counts(counted, n);
        let out = counted.all_flushed(n);
        keeps_all_flushed(counted, n);
        assert(level(out, g.ran(n, rc)));
        level_counts(out, g.ran(n, rc));
    }
}

proof fn after_run_is_level(g: RunView, n: int, now: u64)
    requires
        0 <= n < g.nodes.len(),
    ensures
        level(g, g.after_run(n, now).0),
{
    let free = g.with_sched(
        n,
        NodeSched { running: false, rescan: false, ..g.nodes[n].sched },
    );
    assert(level(g, free));
    assert(level(free, g.finished(n)));
    level_trans(g, free, g.finished(n));
    assert(level(g.finished(n), g.after_run(n, now).0));
    level_trans(g, g.finished(n), g.after_run(n, now).0);
}

proof fn swept_is_level(g: RunView, n: int, progressed: bool, now: u64)
    requires
        0 <= n,
    ensures
        level(g, g.swept(n, progressed, now).0),
    decreases g.nodes.len() - n,
{
    if n < g.nodes.len() && !g.closable(n) {
        swept_is_level(g, n + 1, progressed, now);
    }
}

/// What the heads of the queues take from the count is what they take from
/// the queues.
proof fn lemma_heads_count(
    shared: SharedView,
    node: RunNode,
    k: nat,
)
    requires
        k <= node.queues.len(),
        node.closed.len() == node.queues.len(),
        shared.queued >= node.waiting(k),
    ensures
        heads_dequeued(shared, node.queues, k).queued == shared.queued - node.waiting(k)
            + node.fed().waiting(k),
        node.fed().waiting(k) <= node.waiting(k),
    decreases k,
{
    if k > 0 {
        lemma_heads_count(shared, node, (k - 1) as nat);
        let q = node.queues[k - 1];
        assert(node.fed().queues[k - 1] == behind_head(q));
    }
}

/// Nothing waits at nodes without packets.
proof fn lemma_nothing_waits(n: RunNode, k: nat)
    requires
        k <= n.queues.len(),
        forall|i: int| 0 <= i < n.queues.len() ==> (#[trigger] n.queues[i]).len() == 0,
    ensures
        n.waiting(k) == 0,
    decreases k,
{
    if k > 0 {
        lemma_nothing_waits(n, (k - 1) as nat);
    }
}

proof fn lemma_nothing_in_total(
    g: GraphView,
    contracts: Seq<ContractView>,
    called: Map<u64, Seq<char>>,
    k: nat,
)
    requires
        k <= g.nodes.len(),
    ensures
        total(built(g, contracts, called).nodes, k) == 0,
    decreases k,
{
    if k > 0 {
        let n = built(g, contracts, called).nodes[k - 1];
        lemma_nothing_in_total(g, contracts, called, (k - 1) as nat);
        lemma_nothing_waits(n, n.queues.len());
    }
}

/// The count is right in a graph that was just built: nothing waits in it.
pub proof fn built_graphs_are_counted(
    g: GraphView,
    contracts: Seq<ContractView>,
    called: Map<u64, Seq<char>>,
)
    ensures
        waiting_in(built(g, contracts, called)) == 0,
        accounted(built(g, contracts, called)),
{
    lemma_nothing_in_total(g, contracts, called, g.nodes.len());
}

/// The count stays right over a step.
pub proof fn steps_are_counted(g: RunView, now: u64)
    requires
        g.fits(),
        accounted(g),
    ensures
        accounted(g.stepped(now).0),
        waiting_in(g.stepped(now).0) <= waiting_in(g),
{
    if g.main_queue.len() > 0 {
        let n = g.main_queue[0] as int;
        let node = g.nodes[n];
        let taken = RunView {
            main_queue: g.main_queue.drop_first(),
            shared: heads_dequeued(g.shared, node.queues, node.queues.len()),
            ..g
        }.with_node(n, node.fed());
        assert(node.fits(g.edges.len()));
        lemma_node_in_total(g.nodes, n, g.nodes.len());
        lemma_heads_count(g.shared, node, node.queues.len());
        lemma_total_update(g.nodes, n, node.fed(), g.nodes.len());
        assert(accounted(taken));
        match taken.nodes[n].type_problem(node.input_types.len(), g.shared.type_names) {
            Some(e) => {
                let stats = node.stats;
                let refused = taken.with_ctx(n, taken.nodes[n].ctx.discarded()).with_stats(
                    n,
                    NodeStats { errors: one_more(stats.errors), ..stats },
                ).failed(e);
                assert(level(taken, refused));
                after_run_is_level(refused, n, now);
                level_trans(taken, refused, g.stepped(now).0);
                level_counts(taken, g.stepped(now).0);
            },
            None => {
                assert(level(taken, g.stepped(now).0));
                level_counts(taken, g.stepped(now).0);
            },
        }
    } else {
        swept_is_level(g, 0, false, now);
        level_counts(g, g.stepped(now).0);
    }
}

/// The count stays right over what follows a kernel call, as long as it can
/// be held.
pub proof fn calls_are_counted(g: RunView, rc: i32, us: i64, now: u64)
    requires
        g.fits(),
        accounted(g),
        waiting_in(g.resumed(rc, us, now).0) <= usize::MAX,
    ensures
        accounted(g.resumed(rc, us, now).0),
{
    match g.task {
        Task::Processing(n) => {
            let n = n as int;
            let back = g.timed(n, KernelPhase::Process, us);
            keeps_timed(g, n, KernelPhase::Process, us);
            assert(level(g, back));
            level_counts(g, back);
            keeps_ran(back, n, rc);
            let ran = back.ran(n, rc);
            after_run_is_level(ran, n, now);
            level_counts(ran, g.resumed(rc, us, now).0);
            ran_counts(back, n, rc);
        },
        Task::Closing(n) => {
            let n = n as int;
            let back = g.timed(n, KernelPhase::Close, us);
            keeps_timed(g, n, KernelPhase::Close, us);
            assert(level(g, back));
            level_counts(g, back);
            let shut = back.closed_node(n, rc);
            assert(level(shut, shut.resting()));
            level_counts(shut, shut.resting());
            closed_node_counts(back, n, rc);
        },
        Task::Sweeping(n) => {
            let n = n as int;
            let back = g.timed(n, KernelPhase::Close, us);
            keeps_timed(g, n, KernelPhase::Close, us);
            assert(level(g, back));
            level_counts(g, back);
            let shut = back.closed_node(n, rc);
            swept_is_level(shut, n + 1, true, now);
            level_counts(shut, g.resumed(rc, us, now).0);
            closed_node_counts(back, n, rc);
        },
        _ => {},
    }
}

/// A packet that a graph input takes is counted.
pub proof fn accepted_is_counted(g: RunView, edge: int, p: Packet)
    requires
        g.fits(),
        accounted(g),
        0 <= edge < g.edges.len(),
        waiting_in(g.accepted(edge, p)) <= usize::MAX,
    ensures
        accounted(g.accepted(edge, p)),
{
    let marked = g.with_edge(edge, RunEdge { last_sent: p.stamp, ..g.edges[edge] });
    assert(alike(g, marked));
    kin_fits(g, marked);
    assert(level(g, marked));
    level_counts(g, marked);
    sends_are_counted(marked, edge, seq![p]);
}

// ------------------------------------------------------------- what can be shown

/// Whether the totals of no node ran past their end.
pub open spec fn tallied(g: RunView) -> bool {
    forall|n: int|
        0 <= n < g.nodes.len() ==> (#[trigger] g.nodes[n]).stats.total_us >= 0
            && g.nodes[n].stats.processed <= i64::MAX
}

/// Whether every node has the same totals in two states.
spec fn same_tallies(a: RunView, b: RunView) -> bool {
    &&& a.nodes.len() == b.nodes.len()
    &&& forall|n: int|
        0 <= n < a.nodes.len() ==> (#[trigger] b.nodes[n]).stats.total_us
            == a.nodes[n].stats.total_us && b.nodes[n].stats.processed
            == a.nodes[n].stats.processed
}

proof fn same_tallies_trans(a: RunView, b: RunView, c: RunView)
    requires
        same_tallies(a, b),
        same_tallies(b, c),
    ensures
        same_tallies(a, c),
{
    assert forall|n: int| 0 <= n < a.nodes.len() implies (#[trigger] c.nodes[n]).stats.total_us
        == a.nodes[n].stats.total_us && c.nodes[n].stats.processed
        == a.nodes[n].stats.processed by {
        assert(b.nodes[n].stats.total_us == a.nodes[n].stats.total_us);
    }
}

proof fn same_tallies_keep(a: RunView, b: RunView)
    requires
        same_tallies(a, b),
    ensures
        tallied(a) == tallied(b),
{
    assert forall|n: int| 0 <= n < a.nodes.len() implies #[trigger] a.nodes[n].stats.total_us
        == b.nodes[n].stats.total_us && a.nodes[n].stats.processed
        == b.nodes[n].stats.processed by {
        assert(b.nodes[n].stats.total_us == a.nodes[n].stats.total_us);
    }
    if tallied(a) {
        assert forall|n: int| 0 <= n < b.nodes.len() implies (
        #[trigger] b.nodes[n]).stats.total_us >= 0 && b.nodes[n].stats.processed
            <= i64::MAX by {
            assert(a.nodes[n].stats.total_us >= 0);
        }
    }
}

proof fn same_contexts_tally(a: RunView, b: RunView)
    requires
        same_contexts(a, b),
    ensures
        same_tallies(a, b),
{
    assert forall|n: int| 0 <= n < a.nodes.len() implies (#[trigger] b.nodes[n]).stats.total_us
        == a.nodes[n].stats.total_us && b.nodes[n].stats.processed
        == a.nodes[n].stats.processed by {
        assert(b.nodes[n].ctx == a.nodes[n].ctx);
    }
}

proof fn after_run_tallies(g: RunView, n: int, now: u64)
    requires
        0 <= n < g.nodes.len(),
    ensures
        same_tallies(g, g.after_run(n, now).0),
{
    let free = g.with_sched(
        n,
        NodeSched { running: false, rescan: false, ..g.nodes[n].sched },
    );
    assert(same_tallies(g, free));
    assert(same_tallies(free, g.finished(n)));
    same_tallies_trans(g, free, g.finished(n));
    assert(same_tallies(g.finished(n), g.after_run(n, now).0));
    same_tallies_trans(g, g.finished(n), g.after_run(n, now).0);
}

proof fn swept_tallies(g: RunView, n: int, progressed: bool, now: u64)
    requires
        0 <= n,
    ensures
        same_tallies(g, g.swept(n, progressed, now).0),
    decreases g.nodes.len() - n,
{
    if n < g.nodes.len() && !g.closable(n) {
        swept_tallies(g, n + 1, progressed, now);
    }
}

proof fn all_flushed_tallies(g: RunView, n: int)
    requires
        g.fits(),
        0 <= n < g.nodes.len(),
    ensures
        same_tallies(g, g.all_flushed(n)),
{
    let ctx = g.nodes[n].ctx;
    let cleared = g.with_ctx(n, ContextView { staging: no_packets(ctx.staging.len()), ..ctx });
    assert(same_tallies(g, cleared));
    all_flushed_changes_one_context(g, n);
    same_contexts_tally(cleared, g.all_flushed(n));
    same_tallies_trans(g, cleared, g.all_flushed(n));
}

/// A run counts for its own node alone.
proof fn ran_tallies(g: RunView, n: int, rc: i32)
    requires
        g.fits(),
        tallied(g),
        0 <= n < g.nodes.len(),
        g.nodes[n].stats.processed < i64::MAX,
    ensures
        tallied(g.ran(n, rc)),
{
    let stats = g.nodes[n].stats;
    if g.outcome(n, rc) is Some {
        assert(same_tallies(g, g.ran(n, rc)));
        same_tallies_keep(g, g.ran(n, rc));
    } else {
        let counted = g.with_stats(n, NodeStats { processed: one_more(stats.processed), ..stats });
        assert(kin(g, counted));
        kin_fits(g, counted);
        assert forall|m: int| 0 <= m < counted.nodes.len() implies (
        #[trigger] counted.nodes[m]).stats.total_us >= 0 && counted.nodes[m].stats.processed
            <= i64::MAX by {
            assert(g.nodes[m].stats.total_us >= 0);
        }
        all_flushed_tallies(counted, n);
        keeps_all_flushed(counted, n);
        let out = counted.all_flushed(n);
        assert(same_tallies(out, g.ran(n, rc)));
        same_tallies_trans(counted, out, g.ran(n, rc));
        same_tallies_keep(counted, g.ran(n, rc));
    }
}

proof fn closed_node_tallies(g: RunView, n: int, rc: i32)
    requires
        g.fits(),
        0 <= n < g.nodes.len(),
    ensures
        same_tallies(g, g.closed_node(n, rc)),
{
    let ctx = g.nodes[n].ctx;
    let outs = g.nodes[n].outputs;
    let after = if g.outcome(n, rc) is Some {
        g.with_ctx(n, (ContextView { error_msg: None, ..ctx }).discarded()).failed(
            g.outcome(n, rc)->Some_0,
        )
    } else {
        g.all_flushed(n)
    };
    if g.outcome(n, rc) is Some {
        assert(kin(g, after));
        kin_fits(g, after);
        assert(same_tallies(g, after));
    } else {
        keeps_all_flushed(g, n);
        all_flushed_tallies(g, n);
    }
    let released = after.with_ctx(n, after.nodes[n].ctx.released());
    let shut = released.with_sched(n, NodeSched { closed: true, ..released.nodes[n].sched });
    assert(kin(after, shut));
    kin_fits(after, shut);
    assert(g.nodes[n].fits(g.edges.len()));
    edges_closed_keep_contexts(shut, outs, outs.len());
    assert(same_tallies(after, shut));
    same_contexts_tally(shut, g.closed_node(n, rc));
    same_tallies_trans(g, after, shut);
    same_tallies_trans(g, shut, g.closed_node(n, rc));
}

/// A graph whose counts are right can be shown: the statistics and the dump
/// may be asked for.
pub proof fn right_counts_can_be_shown(g: RunView)
    requires
        accounted(g),
        tallied(g),
    ensures
        forall|n: int| 0 <= n < g.nodes.len() ==> (#[trigger] g.nodes[n]).countable(),
{
    assert forall|n: int| 0 <= n < g.nodes.len() implies (#[trigger] g.nodes[n]).countable() by {
        lemma_node_in_total(g.nodes, n, g.nodes.len());
    }
}

/// Nothing was counted in a graph that was just built.
pub proof fn built_graphs_are_tallied(
    g: GraphView,
    contracts: Seq<ContractView>,
    called: Map<u64, Seq<char>>,
)
    ensures
        tallied(built(g, contracts, called)),
{
}

/// A step leaves the totals as they are.
pub proof fn steps_keep_the_tallies(g: RunView, now: u64)
    requires
        g.fits(),
        tallied(g),
    ensures
        tallied(g.stepped(now).0),
{
    let last = g.stepped(now).0;
    if g.main_queue.len() > 0 {
        let n = g.main_queue[0] as int;
        let node = g.nodes[n];
        let taken = RunView {
            main_queue: g.main_queue.drop_first(),
            shared: heads_dequeued(g.shared, node.queues, node.queues.len()),
            ..g
        }.with_node(n, node.fed());
        assert(same_tallies(g, taken));
        match taken.nodes[n].type_problem(node.input_types.len(), g.shared.type_names) {
            Some(e) => {
                let stats = node.stats;
                let refused = taken.with_ctx(n, taken.nodes[n].ctx.discarded()).with_stats(
                    n,
                    NodeStats { errors: one_more(stats.errors), ..stats },
                ).failed(e);
                assert(same_tallies(taken, refused));
                after_run_tallies(refused, n, now);
                same_tallies_trans(taken, refused, last);
            },
            None => {
                assert(same_tallies(taken, last));
            },
        }
        same_tallies_trans(g, taken, last);
    } else {
        swept_tallies(g, 0, false, now);
    }
    same_tallies_keep(g, last);
}

/// What follows a kernel call keeps the totals right, as long as those of the
/// node that ran can hold it.
pub proof fn calls_keep_the_tallies(g: RunView, rc: i32, us: i64, now: u64)
    requires
        g.fits(),
        tallied(g),
        us >= 0,
        g.task matches Task::Processing(n) ==> g.nodes[n as int].stats.total_us + us <= i64::MAX
            && g.nodes[n as int].stats.processed < i64::MAX,
    ensures
        tallied(g.resumed(rc, us, now).0),
{
    let last = g.resumed(rc, us, now).0;
    match g.task {
        Task::Processing(n) => {
            let n = n as int;
            let back = g.timed(n, KernelPhase::Process, us);
            keeps_timed(g, n, KernelPhase::Process, us);
            assert forall|m: int| 0 <= m < back.nodes.len() implies (
            #[trigger] back.nodes[m]).stats.total_us >= 0 && back.nodes[m].stats.processed
                <= i64::MAX by {
                assert(g.nodes[m].stats.total_us >= 0);
            }
            ran_tallies(back, n, rc);
            keeps_ran(back, n, rc);
            after_run_tallies(back.ran(n, rc), n, now);
            same_tallies_keep(back.ran(n, rc), last);
        },
        Task::Closing(n) => {
            let n = n as int;
            let back = g.timed(n, KernelPhase::Close, us);
            keeps_timed(g, n, KernelPhase::Close, us);
            assert(same_tallies(g, back));
            closed_node_tallies(back, n, rc);
            let shut = back.closed_node(n, rc);
            assert(same_tallies(shut, last));
            same_tallies_trans(g, back, shut);
            same_tallies_trans(g, shut, last);
            same_tallies_keep(g, last);
        },
        Task::Sweeping(n) => {
            let n = n as int;
            let back = g.timed(n, KernelPhase::Close, us);
            keeps_timed(g, n, KernelPhase::Close, us);
            assert(same_tallies(g, back));
            closed_node_tallies(back, n, rc);
            let shut = back.closed_node(n, rc);
            swept_tallies(shut, n + 1, true, now);
            same_tallies_trans(g, back, shut);
            same_tallies_trans(g, shut, last);
            same_tallies_keep(g, last);
        },
        _ => {},
    }
}

/// A packet that a graph input takes is in no total.
pub proof fn accepted_keeps_the_tallies(g: RunView, edge: int, p: Packet)
    requires
        g.fits(),
        tallied(g),
        0 <= edge < g.edges.len(),
    ensures
        tallied(g.accepted(edge, p)),
{
    let marked = g.with_edge(edge, RunEdge { last_sent: p.stamp, ..g.edges[edge] });
    assert(alike(g, marked));
    kin_fits(g, marked);
    assert(same_tallies(g, marked));
    sent_keeps_contexts(marked, edge, seq![p]);
    same_contexts_tally(marked, g.accepted(edge, p));
    same_tallies_trans(g, marked, g.accepted(edge, p));
    same_tallies_keep(g, g.accepted(edge, p));
}

proof fn same_counts_keep(a: RunView, b: RunView)
    requires
        level(a, b),
        same_tallies(a, b),
    ensures
        accounted(a) == accounted(b),
        tallied(a) == tallied(b),
{
    level_counts(a, b);
    same_tallies_keep(a, b);
}

/// The opening of the nodes counts nothing.
pub proof fn openings_count_nothing(g: RunView, n: usize, rc: i32, us: i64, now: u64)
    requires
        g.fits(),
        accounted(g),
        tallied(g),
        n < g.nodes.len(),
    ensures
        accounted(g.opening(n as int, now)) && tallied(g.opening(n as int, now)),
        ({
            let back = g.timed(n as int, KernelPhase::Open, us);
            let failed = back.open_failed(n as int, rc);
            let open = back.open_done(n as int).opening(n + 1, now);
            accounted(failed) && tallied(failed) && accounted(open) && tallied(open)
        }),
{
    let first = g.opening(n as int, now);
    assert(level(g, first) && same_tallies(g, first));
    same_counts_keep(g, first);
    let back = g.timed(n as int, KernelPhase::Open, us);
    assert(level(g, back) && same_tallies(g, back));
    same_counts_keep(g, back);
    let failed = back.open_failed(n as int, rc);
    assert(level(back, failed) && same_tallies(back, failed));
    same_counts_keep(back, failed);
    let open = back.open_done(n as int).opening(n + 1, now);
    assert(level(back, open) && same_tallies(back, open));
    same_counts_keep(back, open);
}

proof fn nodes_scheduled_count_nothing(g: RunView, k: nat)
    requires
        k <= g.nodes.len(),
    ensures
        level(g, g.nodes_scheduled(k)),
        same_tallies(g, g.nodes_scheduled(k)),
    decreases k,
{
    if k > 0 {
        let before = g.nodes_scheduled((k - 1) as nat);
        let after = g.nodes_scheduled(k);
        nodes_scheduled_count_nothing(g, (k - 1) as nat);
        assert(level(before, after) && same_tallies(before, after));
        level_trans(g, before, after);
        same_tallies_trans(g, before, after);
    }
}

/// Nor does what the host does besides: to pause and to go on, to cancel, to
/// close a graph input, to add a poller and to take from one, and to close
/// nodes because the graph is thrown away.
pub proof fn hosts_count_nothing(
    g: RunView,
    edge: int,
    index: int,
    n: int,
    rc: i32,
    us: i64,
    now: u64,
)
    requires
        g.fits(),
        accounted(g),
        tallied(g),
        0 <= edge < g.edges.len(),
        0 <= n < g.nodes.len(),
    ensures
        ({
            let paused = RunView { paused: true, ..g };
            let awake = (RunView { paused: false, ..g }).nodes_scheduled(g.nodes.len());
            accounted(paused) && tallied(paused) && accounted(awake) && tallied(awake)
        }),
        ({
            let cancelled = RunView {
                shared: (SharedView { cancelled: true, ..g.shared }),
                ..g
            };
            accounted(cancelled) && tallied(cancelled)
        }),
        ({
            let closed = g.edge_closed(edge).drain_noted();
            accounted(closed) && tallied(closed)
        }),
        accounted(g.polled(edge)) && tallied(g.polled(edge)),
        0 <= index < g.edges[edge].pollers.len() ==> accounted(g.popped(edge, index)) && tallied(
            g.popped(edge, index),
        ),
        accounted(g.torn(n, now).0) && tallied(g.torn(n, now).0),
        ({
            let dropped = g.timed(n, KernelPhase::Close, us).dropped_node(n, rc);
            accounted(dropped) && tallied(dropped)
        }),
{
    let paused = RunView { paused: true, ..g };
    assert(level(g, paused) && same_tallies(g, paused));
    same_counts_keep(g, paused);
    let free = RunView { paused: false, ..g };
    let awake = free.nodes_scheduled(g.nodes.len());
    assert(level(g, free) && same_tallies(g, free));
    nodes_scheduled_count_nothing(free, g.nodes.len());
    same_counts_keep(g, free);
    same_counts_keep(free, awake);
    let cancelled = RunView { shared: (SharedView { cancelled: true, ..g.shared }), ..g };
    assert(level(g, cancelled) && same_tallies(g, cancelled));
    same_counts_keep(g, cancelled);
    let shut = g.edge_closed(edge);
    let closed = shut.drain_noted();
    let one = seq![edge as usize];
    edges_closed_is_level(g, one, 1);
    assert(g.edges_closed(one, 1) == g.edges_closed(one, 0).edge_closed(edge));
    edge_closed_keeps_contexts(g, edge);
    same_contexts_tally(g, shut);
    same_counts_keep(g, shut);
    assert(level(shut, closed) && same_tallies(shut, closed));
    same_counts_keep(shut, closed);
    assert(level(g, g.polled(edge)) && same_tallies(g, g.polled(edge)));
    same_counts_keep(g, g.polled(edge));
    if 0 <= index < g.edges[edge].pollers.len() {
        assert(level(g, g.popped(edge, index)) && same_tallies(g, g.popped(edge, index)));
        same_counts_keep(g, g.popped(edge, index));
    }
    torn_counts_nothing(g, n, now);
    same_counts_keep(g, g.torn(n, now).0);
    let back = g.timed(n, KernelPhase::Close, us);
    let dropped = back.dropped_node(n, rc);
    assert(level(g, back) && same_tallies(g, back));
    same_counts_keep(g, back);
    assert(level(back, dropped) && same_tallies(back, dropped));
    same_counts_keep(back, dropped);
}

proof fn torn_counts_nothing(g: RunView, n: int, now: u64)
    requires
        0 <= n,
    ensures
        level(g, g.torn(n, now).0),
        same_tallies(g, g.torn(n, now).0),
    decreases g.nodes.len() - n,
{
    if n < g.nodes.len() && !(g.nodes[n].sched.opened && !g.nodes[n].sched.closed) {
        torn_counts_nothing(g, n + 1, now);
    }
}

// ------------------------------------------------------------------ the closing

/// A node is closed once: after its closing it is neither closed nor claimed
/// again, whatever follows.
pub proof fn closing_happens_once(g: RunView, later: RunView, n: int, rc: i32)
    requires
        g.fits(),
        0 <= n < g.nodes.len(),
        kin(g.closed_node(n, rc), later),
    ensures
        g.closed_node(n, rc).nodes[n].sched.closed,
        !later.closable(n),
        !later.claimable(n),
{
    let ctx = g.nodes[n].ctx;
    let after = if g.outcome(n, rc) is Some {
        g.with_ctx(n, (ContextView { error_msg: None, ..ctx }).discarded()).failed(
            g.outcome(n, rc)->Some_0,
        )
    } else {
        g.all_flushed(n)
    };
    if g.outcome(n, rc) is Some {
        assert(kin(g, after));
        kin_fits(g, after);
    } else {
        keeps_all_flushed(g, n);
    }
    let released = after.with_ctx(n, after.nodes[n].ctx.released());
    let shut = released.with_sched(n, NodeSched { closed: true, ..released.nodes[n].sched });
    assert(kin(after, shut));
    kin_fits(after, shut);
    assert(g.nodes[n].fits(g.edges.len()));
    keeps_edges_closed(shut, g.nodes[n].outputs, g.nodes[n].outputs.len());
    assert(g.closed_node(n, rc).nodes[n].sched.closed);
    keeps_closed_node(g, n, rc);
    assert(later.nodes[n].sched.closed);
}

/// After a node was closed, so is everything that it produces.
pub proof fn closing_goes_downstream(g: RunView, n: int, rc: i32, o: int)
    requires
        g.fits(),
        0 <= n < g.nodes.len(),
        0 <= o < g.nodes[n].outputs.len(),
    ensures
        g.closed_node(n, rc).edges[g.nodes[n].outputs[o] as int].closed,
{
    let ctx = g.nodes[n].ctx;
    let after = if g.outcome(n, rc) is Some {
        g.with_ctx(n, (ContextView { error_msg: None, ..ctx }).discarded()).failed(
            g.outcome(n, rc)->Some_0,
        )
    } else {
        g.all_flushed(n)
    };
    if g.outcome(n, rc) is Some {
        assert(kin(g, after));
        kin_fits(g, after);
    } else {
        keeps_all_flushed(g, n);
    }
    let released = after.with_ctx(n, after.nodes[n].ctx.released());
    let shut = released.with_sched(n, NodeSched { closed: true, ..released.nodes[n].sched });
    assert(kin(after, shut));
    kin_fits(after, shut);
    assert(g.nodes[n].fits(g.edges.len()));
    lemma_edges_closed(shut, g.nodes[n].outputs, g.nodes[n].outputs.len(), o);
}

proof fn lemma_edges_closed(g: RunView, edges: Seq<usize>, k: nat, o: int)
    requires
        g.fits(),
        k <= edges.len(),
        forall|i: int| 0 <= i < edges.len() ==> #[trigger] edges[i] < g.edges.len(),
        0 <= o < k,
    ensures
        g.edges_closed(edges, k).edges[edges[o] as int].closed,
    decreases k,
{
    let before = g.edges_closed(edges, (k - 1) as nat);
    keeps_edges_closed(g, edges, (k - 1) as nat);
    let last = edges[k - 1] as int;
    assert(edges[k - 1] < before.edges.len());
    keeps_edge_closed(before, last);
    if o < k - 1 {
        lemma_edges_closed(g, edges, (k - 1) as nat, o);
        assert(edges[o] < before.edges.len());
        assert(before.edge_closed(last).edges[edges[o] as int].closed);
    } else {
        let e = before.edges[last];
        if !e.closed {
            let shut = before.with_edge(
                last,
                RunEdge {
                    closed: true,
                    pollers: Seq::new(
                        e.pollers.len(),
                        |i: int| PollerView { closed: true, ..e.pollers[i] },
                    ),
                    ..e
                },
            );
            assert(kin(before, shut));
            kin_fits(before, shut);
            assert forall|i: int| 0 <= i < e.consumers.len() implies {
                let (node, port) = #[trigger] e.consumers[i];
                node < shut.nodes.len() && port < shut.nodes[node as int].inputs.len()
            } by {
                let (node, port) = before.edges[last].consumers[i];
            }
            keeps_ports_closed(shut, e.consumers, e.consumers.len());
        }
    }
}

/// A graph is terminated by a step only when every node is closed.
pub proof fn terminated_means_closed(g: RunView, n: int, progressed: bool, now: u64)
    requires
        0 <= n,
        g.state !is Terminated,
        g.swept(n, progressed, now).0.state is Terminated,
    ensures
        g.all_closed(),
        g.swept(n, progressed, now).1 == Action::Done(false),
    decreases g.nodes.len() - n,
{
    if n < g.nodes.len() && !g.closable(n) {
        terminated_means_closed(g, n + 1, progressed, now);
    }
}

/// A run that does not fail is counted as one more, and not as an error. No
/// other node counts anything, and that a node is closed is not counted.
pub proof fn calls_count_for_their_node(g: RunView, n: int, rc: i32, m: int)
    requires
        g.fits(),
        0 <= n < g.nodes.len(),
        0 <= m < g.nodes.len(),
    ensures
        ({
            let before = g.nodes[n].stats;
            let after = g.ran(n, rc).nodes[n].stats;
            g.outcome(n, rc) is None ==> {
                &&& before.processed < u64::MAX ==> after.processed == before.processed + 1
                &&& after.errors == before.errors
                &&& after.total_us == before.total_us
                &&& after.max_us == before.max_us
            }
        }),
        m != n ==> g.ran(n, rc).nodes[m].stats == g.nodes[m].stats,
        g.closed_node(n, rc).nodes[m].stats == g.nodes[m].stats,
{
    let stats = g.nodes[n].stats;
    if g.outcome(n, rc) is None {
        let counted = g.with_stats(n, NodeStats { processed: one_more(stats.processed), ..stats });
        assert(kin(g, counted));
        kin_fits(g, counted);
        lemma_flushing_counts_nothing(counted, n, n);
        lemma_flushing_counts_nothing(counted, n, m);
        lemma_flushing_counts_nothing(g, n, m);
        let out = counted.all_flushed(n);
        assert(g.ran(n, rc).nodes[n].stats == out.nodes[n].stats);
        assert(g.ran(n, rc).nodes[m].stats == out.nodes[m].stats);
    }
    lemma_closing_counts_nothing(g, n, rc, m);
}

proof fn lemma_flushing_counts_nothing(g: RunView, n: int, m: int)
    requires
        g.fits(),
        0 <= n < g.nodes.len(),
        0 <= m < g.nodes.len(),
    ensures
        g.all_flushed(n).nodes.len() == g.nodes.len(),
        g.all_flushed(n).nodes[m].stats == g.nodes[m].stats,
{
    all_flushed_changes_one_context(g, n);
    let ctx = g.nodes[n].ctx;
    let cleared = g.with_ctx(n, ContextView { staging: no_packets(ctx.staging.len()), ..ctx });
    assert(g.all_flushed(n).nodes[m].ctx == cleared.nodes[m].ctx);
}

proof fn lemma_closing_counts_nothing(g: RunView, n: int, rc: i32, m: int)
    requires
        g.fits(),
        0 <= n < g.nodes.len(),
        0 <= m < g.nodes.len(),
    ensures
        g.closed_node(n, rc).nodes[m].stats == g.nodes[m].stats,
{
    let ctx = g.nodes[n].ctx;
    let outs = g.nodes[n].outputs;
    let after = if g.outcome(n, rc) is Some {
        g.with_ctx(n, (ContextView { error_msg: None, ..ctx }).discarded()).failed(
            g.outcome(n, rc)->Some_0,
        )
    } else {
        g.all_flushed(n)
    };
    if g.outcome(n, rc) is Some {
        assert(kin(g, after));
        kin_fits(g, after);
    } else {
        keeps_all_flushed(g, n);
        lemma_flushing_counts_nothing(g, n, m);
    }
    let released = after.with_ctx(n, after.nodes[n].ctx.released());
    let shut = released.with_sched(n, NodeSched { closed: true, ..released.nodes[n].sched });
    assert(kin(after, shut));
    kin_fits(after, shut);
    assert(g.nodes[n].fits(g.edges.len()));
    edges_closed_keep_contexts(shut, outs, outs.len());
    assert(g.closed_node(n, rc).nodes[m].ctx == shut.nodes[m].ctx);
    assert(shut.nodes[m].stats == after.nodes[m].stats);
}

} // verus!

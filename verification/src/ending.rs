//! How a graph comes to its end: what is closed closes what follows it, and
//! nobody who could run is forgotten.

use crate::config::GraphView;
use crate::context::ContextView;
use crate::cycle::{can_be_ordered, successors_first};
use crate::engine::{heads_keep, keeps_closed_node, keeps_ran, keeps_timed};
use crate::graph::{alike, keeps_dispatched, kin, kin_fits, node_kin};
use crate::laws::{quiet_steps_leave_nothing_undone, well_run};
use crate::lifecycle::{built, ContractView};
use crate::packet::{no_packets, Packet};
use crate::plan::{consumers_of, edge_names, edge_names_distinct};
use crate::run_state::{
    heads_dequeued, one_more, Action, KernelPhase, NodeSched, NodeStats, PollerView, RunEdge,
    RunNode, RunView, Task,
};
use crate::runtime::SharedView;
use crate::schedule::{
    keeps_all_flushed, keeps_all_scheduled, keeps_edge_closed, keeps_edges_closed, keeps_flushed,
    keeps_ports_closed, keeps_scheduled,
};
use crate::topology::{adjacency, declared_names};
use crate::wiring::{
    edge_links, inputs_are_edges, inputs_are_fed, outputs_are_edges, places, puts_out,
    readers_are_listed, wired, wired_edges_within, wired_nodes_have_an_order, wiring_problem,
};
use vstd::prelude::*;

verus! {

// ------------------------------------------------------- what closing brings on

/// Whether everyone who reads a closed edge knows it.
pub open spec fn readers_know(g: RunView) -> bool {
    forall|e: int, k: int|
        0 <= e < g.edges.len() && g.edges[e].closed && 0 <= k < g.edges[e].consumers.len() ==> {
            let (n, p) = #[trigger] g.edges[e].consumers[k];
            g.nodes[n as int].closed[p as int]
        }
}

/// Whether every output of a closed node is closed.
pub open spec fn outputs_follow(g: RunView) -> bool {
    forall|n: int, o: int|
        0 <= n < g.nodes.len() && g.nodes[n].sched.closed && 0 <= o < g.nodes[n].outputs.len()
            ==> g.edges[(#[trigger] g.nodes[n].outputs[o]) as int].closed
}

/// Whether the end goes downstream: a closed node has closed outputs, and who
/// reads a closed edge knows it.
pub open spec fn settled(g: RunView) -> bool {
    readers_know(g) && outputs_follow(g)
}

/// Whether two states of a graph have the same things closed.
pub open spec fn firm(a: RunView, b: RunView) -> bool {
    &&& alike(a, b)
    &&& forall|e: int| 0 <= e < a.edges.len() ==> (#[trigger] b.edges[e]).closed == a.edges[e].closed
    &&& forall|n: int|
        0 <= n < a.nodes.len() ==> (#[trigger] b.nodes[n]).closed == a.nodes[n].closed
            && b.nodes[n].sched.closed == a.nodes[n].sched.closed
}

pub proof fn firm_trans(a: RunView, b: RunView, c: RunView)
    requires
        firm(a, b),
        firm(b, c),
    ensures
        firm(a, c),
{
    assert forall|i: int| 0 <= i < a.nodes.len() implies node_kin(
        a.nodes[i],
        #[trigger] c.nodes[i],
    ) by {
        assert(node_kin(a.nodes[i], b.nodes[i]));
        assert(node_kin(b.nodes[i], c.nodes[i]));
    }
    assert forall|e: int| 0 <= e < a.edges.len() implies a.edges[e].consumers == (
    #[trigger] c.edges[e]).consumers && a.edges[e].name == c.edges[e].name by {
        assert(a.edges[e].consumers == b.edges[e].consumers);
        assert(b.edges[e].consumers == c.edges[e].consumers);
    }
    assert forall|e: int| 0 <= e < a.edges.len() implies (#[trigger] c.edges[e]).closed
        == a.edges[e].closed by {
        assert(b.edges[e].closed == a.edges[e].closed);
    }
    assert forall|n: int| 0 <= n < a.nodes.len() implies (#[trigger] c.nodes[n]).closed
        == a.nodes[n].closed && c.nodes[n].sched.closed == a.nodes[n].sched.closed by {
        assert(b.nodes[n].closed == a.nodes[n].closed);
    }
}

proof fn firm_settles(a: RunView, b: RunView)
    requires
        a.fits(),
        firm(a, b),
    ensures
        readers_know(a) ==> readers_know(b),
        outputs_follow(a) ==> outputs_follow(b),
{
    if readers_know(a) {
        assert forall|e: int, k: int|
            0 <= e < b.edges.len() && b.edges[e].closed && 0 <= k
                < b.edges[e].consumers.len() implies {
            let (n, p) = #[trigger] b.edges[e].consumers[k];
            b.nodes[n as int].closed[p as int]
        } by {
            assert(b.edges[e].consumers == a.edges[e].consumers);
            assert(b.edges[e].closed == a.edges[e].closed);
            let (n, p) = a.edges[e].consumers[k];
            assert(a.nodes[n as int].closed[p as int]);
            assert(b.nodes[n as int].closed == a.nodes[n as int].closed);
        }
    }
    if outputs_follow(a) {
        assert forall|n: int, o: int|
            0 <= n < b.nodes.len() && b.nodes[n].sched.closed && 0 <= o
                < b.nodes[n].outputs.len() implies b.edges[(
        #[trigger] b.nodes[n].outputs[o]) as int].closed by {
            assert(node_kin(a.nodes[n], b.nodes[n]));
            assert(a.nodes[n].sched.closed == b.nodes[n].sched.closed);
            assert(a.nodes[n].fits(a.edges.len()));
            let e = a.nodes[n].outputs[o] as int;
            assert(a.edges[e].closed);
            assert(b.edges[e].closed == a.edges[e].closed);
        }
    }
}

proof fn all_queued_is_firm(g: RunView, edge: int, node: int, port: int, packets: Seq<Packet>)
    requires
        0 <= edge < g.edges.len(),
        0 <= node < g.nodes.len(),
        0 <= port < g.nodes[node].queues.len(),
    ensures
        firm(g, g.all_queued(edge, node, port, packets)),
    decreases packets.len(),
{
    if packets.len() > 0 {
        let before = g.all_queued(edge, node, port, packets.drop_last());
        all_queued_is_firm(g, edge, node, port, packets.drop_last());
        assert(node_kin(g.nodes[node], before.nodes[node]));
        assert(firm(before, before.queued(edge, node, port, packets.last())));
        firm_trans(g, before, g.all_queued(edge, node, port, packets));
    }
}

proof fn consumed_is_firm(g: RunView, edge: int, packets: Seq<Packet>, k: nat)
    requires
        g.fits(),
        0 <= edge < g.edges.len(),
        k <= g.edges[edge].consumers.len(),
    ensures
        firm(g, g.consumed(edge, packets, k)),
    decreases k,
{
    if k > 0 {
        let before = g.consumed(edge, packets, (k - 1) as nat);
        consumed_is_firm(g, edge, packets, (k - 1) as nat);
        let (node, port) = g.edges[edge].consumers[k - 1];
        assert(node_kin(g.nodes[node as int], before.nodes[node as int]));
        assert(g.nodes[node as int].fits(g.edges.len()));
        all_queued_is_firm(before, edge, node as int, port as int, packets);
        let now = before.all_queued(edge, node as int, port as int, packets);
        firm_trans(g, before, now);
        assert(firm(now, g.consumed(edge, packets, k)));
        firm_trans(g, now, g.consumed(edge, packets, k));
    }
}

proof fn all_scheduled_is_firm(g: RunView, edge: int, k: nat)
    requires
        g.fits(),
        0 <= edge < g.edges.len(),
        k <= g.edges[edge].consumers.len(),
    ensures
        firm(g, g.all_scheduled(edge, k)),
    decreases k,
{
    if k > 0 {
        let before = g.all_scheduled(edge, (k - 1) as nat);
        all_scheduled_is_firm(g, edge, (k - 1) as nat);
        assert(g.edges[edge].consumers[k - 1].0 < g.nodes.len());
        assert(firm(before, g.all_scheduled(edge, k)));
        firm_trans(g, before, g.all_scheduled(edge, k));
    }
}

pub proof fn sent_is_firm(g: RunView, edge: int, packets: Seq<Packet>)
    requires
        g.fits(),
        0 <= edge < g.edges.len(),
    ensures
        firm(g, g.sent(edge, packets)),
{
    let e = g.edges[edge];
    let told = RunView {
        outbox: g.outbox + RunView::notices(e.observers, packets, e.observers.len()),
        ..g
    }.with_edge(
        edge,
        RunEdge {
            pollers: Seq::new(
                e.pollers.len(),
                |i: int| PollerView { queue: e.pollers[i].queue + packets, ..e.pollers[i] },
            ),
            ..e
        },
    );
    assert(firm(g, told));
    assert(kin(g, told));
    kin_fits(g, told);
    consumed_is_firm(told, edge, packets, e.consumers.len());
    let after = g.dispatched(edge, packets);
    firm_trans(g, told, after);
    keeps_dispatched(g, edge, packets);
    assert(after.edges[edge].consumers == e.consumers);
    all_scheduled_is_firm(after, edge, e.consumers.len());
    firm_trans(g, after, g.sent(edge, packets));
}

proof fn flushed_is_firm(g: RunView, n: int, staging: Seq<Seq<Packet>>, k: nat)
    requires
        g.fits(),
        0 <= n < g.nodes.len(),
        k <= g.nodes[n].outputs.len(),
    ensures
        firm(g, g.flushed(n, staging, k)),
    decreases k,
{
    if k > 0 {
        let before = g.flushed(n, staging, (k - 1) as nat);
        flushed_is_firm(g, n, staging, (k - 1) as nat);
        keeps_flushed(g, n, staging, (k - 1) as nat);
        assert(g.nodes[n].fits(g.edges.len()));
        if staging[k - 1].len() > 0 {
            sent_is_firm(before, g.nodes[n].outputs[k - 1] as int, staging[k - 1]);
            firm_trans(g, before, g.flushed(n, staging, k));
        }
    }
}

proof fn all_flushed_is_firm(g: RunView, n: int)
    requires
        g.fits(),
        0 <= n < g.nodes.len(),
    ensures
        firm(g, g.all_flushed(n)),
{
    let ctx = g.nodes[n].ctx;
    let cleared = g.with_ctx(
        n,
        ContextView { staging: no_packets(ctx.staging.len()), ..ctx },
    );
    assert(firm(g, cleared));
    assert(kin(g, cleared));
    kin_fits(g, cleared);
    flushed_is_firm(cleared, n, ctx.staging, g.nodes[n].outputs.len());
    firm_trans(g, cleared, g.all_flushed(n));
}

proof fn ran_is_firm(g: RunView, n: int, rc: i32)
    requires
        g.fits(),
        0 <= n < g.nodes.len(),
    ensures
        firm(g, g.ran(n, rc)),
{
    let stats = g.nodes[n].stats;
    let after = g.ran(n, rc);
    if g.outcome(n, rc) is Some {
        assert(firm(g, after));
    } else {
        let counted = g.with_stats(
            n,
            NodeStats { processed: one_more(stats.processed), ..stats },
        );
        assert(firm(g, counted));
        assert(kin(g, counted));
        kin_fits(g, counted);
        all_flushed_is_firm(counted, n);
        firm_trans(g, counted, counted.all_flushed(n));
        assert(firm(counted.all_flushed(n), after));
        firm_trans(g, counted.all_flushed(n), after);
    }
}

proof fn after_run_is_firm(g: RunView, n: int, now: u64)
    requires
        g.fits(),
        0 <= n < g.nodes.len(),
    ensures
        firm(g, g.after_run(n, now).0),
{
    let after = g.finished(n);
    assert(firm(g, after));
    assert(firm(after, g.after_run(n, now).0));
    firm_trans(g, after, g.after_run(n, now).0);
}

proof fn swept_is_firm(g: RunView, n: int, progressed: bool, now: u64)
    requires
        0 <= n,
    ensures
        firm(g, g.swept(n, progressed, now).0),
    decreases g.nodes.len() - n,
{
    if n < g.nodes.len() && !g.closable(n) {
        swept_is_firm(g, n + 1, progressed, now);
    } else {
        assert(firm(g, g.swept(n, progressed, now).0));
    }
}

proof fn ports_closed_are_known(g: RunView, ports: Seq<(usize, usize)>, k: nat)
    requires
        g.fits(),
        k <= ports.len(),
        forall|i: int|
            0 <= i < ports.len() ==> {
                let (node, port) = #[trigger] ports[i];
                node < g.nodes.len() && port < g.nodes[node as int].inputs.len()
            },
    ensures
        g.ports_closed(ports, k).edges == g.edges,
        g.ports_closed(ports, k).nodes.len() == g.nodes.len(),
        forall|i: int|
            0 <= i < k ==> {
                let (node, port) = #[trigger] ports[i];
                g.ports_closed(ports, k).nodes[node as int].closed[port as int]
            },
        forall|n: int|
            0 <= n < g.nodes.len() ==> (#[trigger] g.ports_closed(ports, k).nodes[n]).sched
                == g.nodes[n].sched && g.ports_closed(ports, k).nodes[n].outputs
                == g.nodes[n].outputs,
    decreases k,
{
    if k > 0 {
        let before = g.ports_closed(ports, (k - 1) as nat);
        ports_closed_are_known(g, ports, (k - 1) as nat);
        keeps_ports_closed(g, ports, (k - 1) as nat);
        let (node, port) = ports[k - 1];
        assert(node_kin(g.nodes[node as int], before.nodes[node as int]));
        assert(g.nodes[node as int].fits(g.edges.len()));
        let after = g.ports_closed(ports, k);
        assert forall|i: int| 0 <= i < k implies {
            let (m, p) = #[trigger] ports[i];
            after.nodes[m as int].closed[p as int]
        } by {
            let (m, p) = ports[i];
            if i < k - 1 {
                assert(before.nodes[m as int].closed[p as int]);
            }
        }
    }
}

/// Closing an edge tells those who read it, and opens nothing.
proof fn edge_closed_settles(g: RunView, edge: int)
    requires
        g.fits(),
        readers_know(g),
        0 <= edge < g.edges.len(),
    ensures
        readers_know(g.edge_closed(edge)),
        g.edge_closed(edge).edges[edge].closed,
        forall|n: int|
            0 <= n < g.nodes.len() ==> (#[trigger] g.edge_closed(edge).nodes[n]).sched
                == g.nodes[n].sched,
{
    let e = g.edges[edge];
    let after = g.edge_closed(edge);
    if !e.closed {
        let shut = g.with_edge(
            edge,
            RunEdge {
                closed: true,
                pollers: Seq::new(
                    e.pollers.len(),
                    |i: int| PollerView { closed: true, ..e.pollers[i] },
                ),
                ..e
            },
        );
        assert(kin(g, shut));
        kin_fits(g, shut);
        assert forall|i: int| 0 <= i < e.consumers.len() implies {
            let (node, port) = #[trigger] e.consumers[i];
            node < shut.nodes.len() && port < shut.nodes[node as int].inputs.len()
        } by {
            let (node, port) = g.edges[edge].consumers[i];
        }
        ports_closed_are_known(shut, e.consumers, e.consumers.len());
        keeps_ports_closed(shut, e.consumers, e.consumers.len());
        assert forall|x: int, k: int|
            0 <= x < after.edges.len() && after.edges[x].closed && 0 <= k
                < after.edges[x].consumers.len() implies {
            let (n, p) = #[trigger] after.edges[x].consumers[k];
            after.nodes[n as int].closed[p as int]
        } by {
            assert(after.edges[x].consumers == g.edges[x].consumers);
            let (n, p) = g.edges[x].consumers[k];
            if x == edge {
                assert(e.consumers[k] == (n, p));
            } else {
                assert(g.edges[x].closed);
                assert(g.nodes[n as int].closed[p as int]);
                assert(shut.nodes[n as int].closed[p as int]);
                assert(g.nodes[n as int].fits(g.edges.len()));
                assert(after.nodes[n as int].closed[p as int]);
            }
        }
        assert forall|n: int| 0 <= n < g.nodes.len() implies (#[trigger] after.nodes[n]).sched
            == g.nodes[n].sched by {
            assert(shut.nodes[n].sched == g.nodes[n].sched);
        }
    }
}

proof fn edges_closed_settle(g: RunView, edges: Seq<usize>, k: nat)
    requires
        g.fits(),
        readers_know(g),
        k <= edges.len(),
        forall|i: int| 0 <= i < edges.len() ==> #[trigger] edges[i] < g.edges.len(),
    ensures
        readers_know(g.edges_closed(edges, k)),
        forall|i: int|
            0 <= i < k ==> g.edges_closed(edges, k).edges[(#[trigger] edges[i]) as int].closed,
        forall|n: int|
            0 <= n < g.nodes.len() ==> (#[trigger] g.edges_closed(edges, k).nodes[n]).sched
                == g.nodes[n].sched,
    decreases k,
{
    if k > 0 {
        let before = g.edges_closed(edges, (k - 1) as nat);
        let after = g.edges_closed(edges, k);
        edges_closed_settle(g, edges, (k - 1) as nat);
        keeps_edges_closed(g, edges, (k - 1) as nat);
        assert(edges[k - 1] < before.edges.len());
        edge_closed_settles(before, edges[k - 1] as int);
        keeps_edge_closed(before, edges[k - 1] as int);
        assert forall|i: int| 0 <= i < k implies after.edges[(
        #[trigger] edges[i]) as int].closed by {
            if i < k - 1 {
                assert(before.edges[edges[i] as int].closed);
            }
        }
        assert forall|n: int| 0 <= n < g.nodes.len() implies (#[trigger] after.nodes[n]).sched
            == g.nodes[n].sched by {
            assert(before.nodes[n].sched == g.nodes[n].sched);
        }
    }
}

proof fn closed_node_settles(g: RunView, n: int, rc: i32)
    requires
        g.fits(),
        settled(g),
        0 <= n < g.nodes.len(),
    ensures
        settled(g.closed_node(n, rc)),
{
    let ctx = g.nodes[n].ctx;
    let outs = g.nodes[n].outputs;
    let after = if g.outcome(n, rc) is Some {
        g.with_ctx(n, (ContextView { error_msg: None, ..ctx }).discarded()).failed(
            g.outcome(n, rc)->Some_0,
        )
    } else {
        g.all_flushed(n)
    };
    if g.outcome(n, rc) is Some {
        assert(firm(g, after));
        assert(kin(g, after));
        kin_fits(g, after);
    } else {
        all_flushed_is_firm(g, n);
        keeps_all_flushed(g, n);
    }
    let released = after.with_ctx(n, after.nodes[n].ctx.released());
    assert(firm(after, released));
    firm_trans(g, after, released);
    firm_settles(g, released);
    assert(kin(after, released));
    kin_fits(after, released);
    let marked = released.with_sched(n, NodeSched { closed: true, ..released.nodes[n].sched });
    assert(kin(released, marked));
    kin_fits(released, marked);
    assert(readers_know(marked)) by {
        assert forall|e: int, k: int|
            0 <= e < marked.edges.len() && marked.edges[e].closed && 0 <= k
                < marked.edges[e].consumers.len() implies {
            let (m, p) = #[trigger] marked.edges[e].consumers[k];
            marked.nodes[m as int].closed[p as int]
        } by {
            let (m, p) = released.edges[e].consumers[k];
            assert(released.nodes[m as int].closed[p as int]);
        }
    }
    assert(g.nodes[n].fits(g.edges.len()));
    edges_closed_settle(marked, outs, outs.len());
    keeps_edges_closed(marked, outs, outs.len());
    let last = g.closed_node(n, rc);
    assert forall|m: int, o: int|
        0 <= m < last.nodes.len() && last.nodes[m].sched.closed && 0 <= o
            < last.nodes[m].outputs.len() implies last.edges[(
    #[trigger] last.nodes[m].outputs[o]) as int].closed by {
        assert(node_kin(marked.nodes[m], last.nodes[m]));
        assert(last.nodes[m].sched == marked.nodes[m].sched);
        if m == n {
            assert(node_kin(g.nodes[n], released.nodes[n]));
            assert(last.nodes[m].outputs == outs);
            assert(last.edges[outs[o] as int].closed);
        } else {
            assert(marked.nodes[m] == released.nodes[m]);
            assert(released.nodes[m].fits(released.edges.len()));
            assert(released.edges[released.nodes[m].outputs[o] as int].closed);
            assert(marked.edges[released.nodes[m].outputs[o] as int].closed);
        }
    }
}

/// A step, what follows a kernel call, a packet that is taken and a graph
/// input that is closed let the end go downstream.
pub proof fn ends_go_downstream(g: RunView, rc: i32, us: i64, now: u64, edge: int, p: Packet)
    requires
        g.fits(),
        settled(g),
        0 <= edge < g.edges.len(),
    ensures
        settled(g.stepped(now).0),
        settled(g.resumed(rc, us, now).0),
        settled(g.accepted(edge, p)),
        settled(g.edge_closed(edge)),
{
    step_settles(g, now);
    call_settles(g, rc, us, now);
    let marked = g.with_edge(edge, RunEdge { last_sent: p.stamp, ..g.edges[edge] });
    assert(firm(g, marked));
    kin_fits(g, marked);
    sent_is_firm(marked, edge, seq![p]);
    firm_trans(g, marked, g.accepted(edge, p));
    firm_settles(g, g.accepted(edge, p));
    let after = g.edge_closed(edge);
    edge_closed_settles(g, edge);
    keeps_edge_closed(g, edge);
    assert forall|m: int, o: int|
        0 <= m < after.nodes.len() && after.nodes[m].sched.closed && 0 <= o
            < after.nodes[m].outputs.len() implies after.edges[(
    #[trigger] after.nodes[m].outputs[o]) as int].closed by {
        assert(node_kin(g.nodes[m], after.nodes[m]));
        assert(after.nodes[m].sched == g.nodes[m].sched);
        assert(g.nodes[m].fits(g.edges.len()));
        assert(g.edges[g.nodes[m].outputs[o] as int].closed);
    }
}

proof fn step_settles(g: RunView, now: u64)
    requires
        g.fits(),
        settled(g),
    ensures
        settled(g.stepped(now).0),
{
    let last = g.stepped(now).0;
    if g.main_queue.len() > 0 {
        let n = g.main_queue[0] as int;
        let node = g.nodes[n];
        let taken = RunView {
            main_queue: g.main_queue.drop_first(),
            shared: heads_dequeued(g.shared, node.queues, node.queues.len()),
            ..g
        }.with_node(n, node.fed());
        heads_keep(g.shared, node.queues, node.queues.len());
        assert(node.fits(g.edges.len()));
        assert(firm(g, taken));
        match taken.nodes[n].type_problem(node.input_types.len(), g.shared.type_names) {
            Some(e) => {
                let stats = node.stats;
                let refused = taken.with_ctx(n, taken.nodes[n].ctx.discarded()).with_stats(
                    n,
                    NodeStats { errors: one_more(stats.errors), ..stats },
                ).failed(e);
                assert(firm(taken, refused));
                firm_trans(g, taken, refused);
                assert forall|k: int| 0 <= k < refused.main_queue.len() implies #[trigger] refused.main_queue[k]
                    < refused.nodes.len() by {
                    assert(refused.main_queue[k] == g.main_queue[k + 1]);
                }
                kin_fits(g, refused);
                after_run_is_firm(refused, n, now);
                firm_trans(g, refused, last);
            },
            None => {
                assert(firm(taken, last));
                firm_trans(g, taken, last);
            },
        }
    } else {
        swept_is_firm(g, 0, false, now);
    }
    firm_settles(g, last);
}

proof fn call_settles(g: RunView, rc: i32, us: i64, now: u64)
    requires
        g.fits(),
        settled(g),
    ensures
        settled(g.resumed(rc, us, now).0),
{
    let last = g.resumed(rc, us, now).0;
    match g.task {
        Task::Processing(n) => {
            let n = n as int;
            let back = g.timed(n, KernelPhase::Process, us);
            keeps_timed(g, n, KernelPhase::Process, us);
            assert(firm(g, back));
            ran_is_firm(back, n, rc);
            keeps_ran(back, n, rc);
            let ran = back.ran(n, rc);
            after_run_is_firm(ran, n, now);
            firm_trans(g, back, ran);
            firm_trans(g, ran, last);
            firm_settles(g, last);
        },
        Task::Closing(n) => {
            let n = n as int;
            let back = g.timed(n, KernelPhase::Close, us);
            keeps_timed(g, n, KernelPhase::Close, us);
            assert(firm(g, back));
            firm_settles(g, back);
            closed_node_settles(back, n, rc);
            keeps_closed_node(back, n, rc);
            assert(firm(back.closed_node(n, rc), last));
            firm_settles(back.closed_node(n, rc), last);
        },
        Task::Sweeping(n) => {
            let n = n as int;
            let back = g.timed(n, KernelPhase::Close, us);
            keeps_timed(g, n, KernelPhase::Close, us);
            assert(firm(g, back));
            firm_settles(g, back);
            closed_node_settles(back, n, rc);
            keeps_closed_node(back, n, rc);
            let shut = back.closed_node(n, rc);
            swept_is_firm(shut, n + 1, true, now);
            firm_settles(shut, last);
        },
        _ => {},
    }
}

// ------------------------------------------------------------ who could run

/// Whether nobody is left out: every node that could run is claimed.
pub open spec fn nobody_waits(g: RunView) -> bool {
    forall|n: int| 0 <= n < g.nodes.len() ==> !#[trigger] g.claimable(n)
}

/// Whether nobody can be claimed in `b` who could not be in `a`.
spec fn no_wake(a: RunView, b: RunView) -> bool {
    &&& a.nodes.len() == b.nodes.len()
    &&& forall|n: int| 0 <= n < a.nodes.len() && #[trigger] b.claimable(n) ==> a.claimable(n)
}

/// Whether nothing changed that a claim depends on.
spec fn asleep(a: RunView, b: RunView) -> bool {
    &&& a.nodes.len() == b.nodes.len()
    &&& a.paused == b.paused
    &&& a.shared.stopped() ==> b.shared.stopped()
    &&& forall|n: int|
        0 <= n < a.nodes.len() ==> (#[trigger] b.nodes[n]).queues == a.nodes[n].queues
            && b.nodes[n].policy == a.nodes[n].policy && b.nodes[n].sched == a.nodes[n].sched
}

/// Whether a node is ready depends on its queues and its policy alone.
proof fn ready_alike(a: RunNode, b: RunNode)
    requires
        a.queues == b.queues,
        a.policy == b.policy,
    ensures
        a.ready() == b.ready(),
{
    if a.policy is Immediate {
        if a.ready() {
            let i = choose|i: int| 0 <= i < a.queues.len() && (#[trigger] a.queues[i]).len() > 0;
            assert(b.queues[i].len() > 0);
        }
        if b.ready() {
            let i = choose|i: int| 0 <= i < b.queues.len() && (#[trigger] b.queues[i]).len() > 0;
            assert(a.queues[i].len() > 0);
        }
    } else {
        if a.ready() {
            assert forall|i: int| 0 <= i < b.queues.len() implies (#[trigger] b.queues[i]).len()
                > 0 by {
                assert(a.queues[i].len() > 0);
            }
        }
        if b.ready() {
            assert forall|i: int| 0 <= i < a.queues.len() implies (#[trigger] a.queues[i]).len()
                > 0 by {
                assert(b.queues[i].len() > 0);
            }
        }
    }
}

proof fn asleep_wakes_nobody(a: RunView, b: RunView)
    requires
        asleep(a, b),
    ensures
        no_wake(a, b),
        nobody_waits(a) ==> nobody_waits(b),
{
    assert forall|n: int| 0 <= n < a.nodes.len() && #[trigger] b.claimable(n) implies a.claimable(
        n,
    ) by {
        assert(b.nodes[n].queues == a.nodes[n].queues);
        ready_alike(a.nodes[n], b.nodes[n]);
    }
    if nobody_waits(a) {
        assert forall|n: int| 0 <= n < b.nodes.len() implies !#[trigger] b.claimable(n) by {
            assert(!a.claimable(n));
        }
    }
}

/// Whoever was asked is claimed, and nobody else changes.
proof fn scheduled_is_claimed(g: RunView, n: int)
    requires
        0 <= n < g.nodes.len(),
    ensures
        no_wake(g, g.scheduled(n)),
        !g.scheduled(n).claimable(n),
{
    let after = g.scheduled(n);
    ready_alike(g.nodes[n], after.nodes[n]);
    assert forall|m: int| 0 <= m < g.nodes.len() && #[trigger] after.claimable(
        m,
    ) implies g.claimable(m) by {
        if m != n {
            assert(after.nodes[m] == g.nodes[m]);
        }
    }
}

proof fn all_scheduled_are_claimed(g: RunView, edge: int, k: nat)
    requires
        g.fits(),
        0 <= edge < g.edges.len(),
        k <= g.edges[edge].consumers.len(),
    ensures
        no_wake(g, g.all_scheduled(edge, k)),
        forall|j: int|
            0 <= j < k ==> !g.all_scheduled(edge, k).claimable(
                (#[trigger] g.edges[edge].consumers[j]).0 as int,
            ),
    decreases k,
{
    if k > 0 {
        let before = g.all_scheduled(edge, (k - 1) as nat);
        let after = g.all_scheduled(edge, k);
        all_scheduled_are_claimed(g, edge, (k - 1) as nat);
        keeps_all_scheduled(g, edge, (k - 1) as nat);
        let n = g.edges[edge].consumers[k - 1].0 as int;
        assert(n < before.nodes.len());
        scheduled_is_claimed(before, n);
        assert forall|m: int| 0 <= m < g.nodes.len() && #[trigger] after.claimable(
            m,
        ) implies g.claimable(m) by {
            assert(before.claimable(m));
        }
        assert forall|j: int| 0 <= j < k implies !after.claimable(
            (#[trigger] g.edges[edge].consumers[j]).0 as int,
        ) by {
            let m = g.edges[edge].consumers[j].0 as int;
            assert(m < g.nodes.len());
            assert(after.claimable(m) ==> before.claimable(m));
        }
    }
}

proof fn all_queued_elsewhere(g: RunView, edge: int, node: int, port: int, packets: Seq<Packet>)
    requires
        0 <= node < g.nodes.len(),
    ensures
        g.all_queued(edge, node, port, packets).nodes.len() == g.nodes.len(),
        g.all_queued(edge, node, port, packets).paused == g.paused,
        g.all_queued(edge, node, port, packets).shared.stopped() == g.shared.stopped(),
        forall|m: int|
            0 <= m < g.nodes.len() && m != node ==> #[trigger] g.all_queued(
                edge,
                node,
                port,
                packets,
            ).nodes[m] == g.nodes[m],
    decreases packets.len(),
{
    if packets.len() > 0 {
        all_queued_elsewhere(g, edge, node, port, packets.drop_last());
    }
}

/// Only those who read an edge get what is sent on it.
pub proof fn consumed_elsewhere(g: RunView, edge: int, packets: Seq<Packet>, k: nat)
    requires
        g.fits(),
        0 <= edge < g.edges.len(),
        k <= g.edges[edge].consumers.len(),
    ensures
        g.consumed(edge, packets, k).nodes.len() == g.nodes.len(),
        g.consumed(edge, packets, k).paused == g.paused,
        g.consumed(edge, packets, k).shared.stopped() == g.shared.stopped(),
        forall|m: int|
            0 <= m < g.nodes.len() && (forall|j: int|
                0 <= j < k ==> (#[trigger] g.edges[edge].consumers[j]).0 != m)
                ==> #[trigger] g.consumed(edge, packets, k).nodes[m] == g.nodes[m],
    decreases k,
{
    if k > 0 {
        let before = g.consumed(edge, packets, (k - 1) as nat);
        consumed_elsewhere(g, edge, packets, (k - 1) as nat);
        let (node, port) = g.edges[edge].consumers[k - 1];
        all_queued_elsewhere(before, edge, node as int, port as int, packets);
        let after = g.consumed(edge, packets, k);
        assert forall|m: int|
            0 <= m < g.nodes.len() && (forall|j: int|
                0 <= j < k ==> (#[trigger] g.edges[edge].consumers[j]).0
                    != m) implies #[trigger] after.nodes[m] == g.nodes[m] by {
            assert(g.edges[edge].consumers[k - 1].0 != m);
            assert(before.nodes[m] == g.nodes[m]);
        }
    }
}

proof fn sent_leaves_nobody_out(g: RunView, edge: int, packets: Seq<Packet>)
    requires
        g.fits(),
        nobody_waits(g),
        0 <= edge < g.edges.len(),
    ensures
        nobody_waits(g.sent(edge, packets)),
{
    let e = g.edges[edge];
    let told = RunView {
        outbox: g.outbox + RunView::notices(e.observers, packets, e.observers.len()),
        ..g
    }.with_edge(
        edge,
        RunEdge {
            pollers: Seq::new(
                e.pollers.len(),
                |i: int| PollerView { queue: e.pollers[i].queue + packets, ..e.pollers[i] },
            ),
            ..e
        },
    );
    assert(kin(g, told));
    kin_fits(g, told);
    consumed_elsewhere(told, edge, packets, e.consumers.len());
    let after = g.dispatched(edge, packets);
    keeps_dispatched(g, edge, packets);
    assert(after.edges[edge].consumers == e.consumers);
    all_scheduled_are_claimed(after, edge, e.consumers.len());
    let last = g.sent(edge, packets);
    assert forall|m: int| 0 <= m < last.nodes.len() implies !#[trigger] last.claimable(m) by {
        if exists|j: int| 0 <= j < e.consumers.len() && (#[trigger] e.consumers[j]).0 == m {
            let j = choose|j: int|
                0 <= j < e.consumers.len() && (#[trigger] e.consumers[j]).0 == m;
            assert(after.edges[edge].consumers[j].0 == m);
        } else {
            assert(forall|j: int|
                0 <= j < told.edges[edge].consumers.len() ==> (
                #[trigger] told.edges[edge].consumers[j]).0 != m);
            assert(after.nodes[m] == told.nodes[m]);
            assert(!g.claimable(m));
            assert(!after.claimable(m));
        }
    }
}

proof fn flushed_leaves_nobody_out(g: RunView, n: int, staging: Seq<Seq<Packet>>, k: nat)
    requires
        g.fits(),
        nobody_waits(g),
        0 <= n < g.nodes.len(),
        k <= g.nodes[n].outputs.len(),
    ensures
        nobody_waits(g.flushed(n, staging, k)),
    decreases k,
{
    if k > 0 {
        let before = g.flushed(n, staging, (k - 1) as nat);
        flushed_leaves_nobody_out(g, n, staging, (k - 1) as nat);
        keeps_flushed(g, n, staging, (k - 1) as nat);
        assert(g.nodes[n].fits(g.edges.len()));
        if staging[k - 1].len() > 0 {
            sent_leaves_nobody_out(before, g.nodes[n].outputs[k - 1] as int, staging[k - 1]);
        }
    }
}

proof fn all_flushed_leaves_nobody_out(g: RunView, n: int)
    requires
        g.fits(),
        nobody_waits(g),
        0 <= n < g.nodes.len(),
    ensures
        nobody_waits(g.all_flushed(n)),
{
    let ctx = g.nodes[n].ctx;
    let cleared = g.with_ctx(
        n,
        ContextView { staging: no_packets(ctx.staging.len()), ..ctx },
    );
    assert(asleep(g, cleared));
    asleep_wakes_nobody(g, cleared);
    assert(kin(g, cleared));
    kin_fits(g, cleared);
    flushed_leaves_nobody_out(cleared, n, ctx.staging, g.nodes[n].outputs.len());
}

proof fn ran_leaves_nobody_out(g: RunView, n: int, rc: i32)
    requires
        g.fits(),
        nobody_waits(g),
        0 <= n < g.nodes.len(),
    ensures
        nobody_waits(g.ran(n, rc)),
{
    let stats = g.nodes[n].stats;
    let after = g.ran(n, rc);
    if g.outcome(n, rc) is None {
        let counted = g.with_stats(
            n,
            NodeStats { processed: one_more(stats.processed), ..stats },
        );
        assert(asleep(g, counted));
        asleep_wakes_nobody(g, counted);
        assert(kin(g, counted));
        kin_fits(g, counted);
        all_flushed_leaves_nobody_out(counted, n);
        assert(asleep(counted.all_flushed(n), after)) by {
            keeps_all_flushed(counted, n);
        }
        asleep_wakes_nobody(counted.all_flushed(n), after);
    } else {
        assert(after.shared.stopped());
    }
}

proof fn after_run_leaves_nobody_out(g: RunView, n: int, now: u64)
    requires
        0 <= n < g.nodes.len(),
        forall|m: int| 0 <= m < g.nodes.len() && m != n ==> !#[trigger] g.claimable(m),
    ensures
        nobody_waits(g.after_run(n, now).0),
{
    let given = g.with_sched(
        n,
        NodeSched { running: false, rescan: false, ..g.nodes[n].sched },
    );
    let after = g.finished(n);
    let last = g.after_run(n, now).0;
    scheduled_is_claimed(given, n);
    assert forall|m: int| 0 <= m < after.nodes.len() implies !#[trigger] after.claimable(m) by {
        if m != n {
            assert(given.nodes[m] == g.nodes[m]);
            assert(!g.claimable(m));
            assert(!given.claimable(m));
        }
    }
    assert(asleep(after, last));
    asleep_wakes_nobody(after, last);
}

proof fn swept_leaves_nobody_out(g: RunView, n: int, progressed: bool, now: u64)
    requires
        nobody_waits(g),
        0 <= n,
    ensures
        nobody_waits(g.swept(n, progressed, now).0),
    decreases g.nodes.len() - n,
{
    if n < g.nodes.len() && !g.closable(n) {
        swept_leaves_nobody_out(g, n + 1, progressed, now);
    } else {
        assert(asleep(g, g.swept(n, progressed, now).0));
        asleep_wakes_nobody(g, g.swept(n, progressed, now).0);
    }
}

proof fn ports_closed_is_asleep(g: RunView, ports: Seq<(usize, usize)>, k: nat)
    requires
        k <= ports.len(),
        forall|i: int| 0 <= i < ports.len() ==> (#[trigger] ports[i]).0 < g.nodes.len(),
    ensures
        asleep(g, g.ports_closed(ports, k)),
    decreases k,
{
    if k > 0 {
        ports_closed_is_asleep(g, ports, (k - 1) as nat);
        assert(ports[k - 1].0 < g.nodes.len());
    }
}

proof fn edge_closed_is_asleep(g: RunView, edge: int)
    requires
        g.fits(),
        0 <= edge < g.edges.len(),
    ensures
        asleep(g, g.edge_closed(edge)),
{
    let e = g.edges[edge];
    if !e.closed {
        let shut = g.with_edge(
            edge,
            RunEdge {
                closed: true,
                pollers: Seq::new(
                    e.pollers.len(),
                    |i: int| PollerView { closed: true, ..e.pollers[i] },
                ),
                ..e
            },
        );
        assert forall|i: int| 0 <= i < e.consumers.len() implies (#[trigger] e.consumers[i]).0
            < shut.nodes.len() by {
            let (node, port) = g.edges[edge].consumers[i];
        }
        ports_closed_is_asleep(shut, e.consumers, e.consumers.len());
        let after = g.edge_closed(edge);
        assert forall|n: int| 0 <= n < g.nodes.len() implies (#[trigger] after.nodes[n]).queues
            == g.nodes[n].queues && after.nodes[n].policy == g.nodes[n].policy
            && after.nodes[n].sched == g.nodes[n].sched by {
            assert(shut.nodes[n] == g.nodes[n]);
        }
    }
}

proof fn edges_closed_is_asleep(g: RunView, edges: Seq<usize>, k: nat)
    requires
        g.fits(),
        k <= edges.len(),
        forall|i: int| 0 <= i < edges.len() ==> #[trigger] edges[i] < g.edges.len(),
    ensures
        asleep(g, g.edges_closed(edges, k)),
    decreases k,
{
    if k > 0 {
        let before = g.edges_closed(edges, (k - 1) as nat);
        edges_closed_is_asleep(g, edges, (k - 1) as nat);
        keeps_edges_closed(g, edges, (k - 1) as nat);
        assert(edges[k - 1] < before.edges.len());
        edge_closed_is_asleep(before, edges[k - 1] as int);
        let after = g.edges_closed(edges, k);
        assert forall|n: int| 0 <= n < g.nodes.len() implies (#[trigger] after.nodes[n]).queues
            == g.nodes[n].queues && after.nodes[n].policy == g.nodes[n].policy
            && after.nodes[n].sched == g.nodes[n].sched by {
            assert(before.nodes[n].queues == g.nodes[n].queues);
        }
    }
}

proof fn closed_node_leaves_nobody_out(g: RunView, n: int, rc: i32)
    requires
        g.fits(),
        nobody_waits(g),
        0 <= n < g.nodes.len(),
    ensures
        nobody_waits(g.closed_node(n, rc)),
{
    let ctx = g.nodes[n].ctx;
    let outs = g.nodes[n].outputs;
    let after = if g.outcome(n, rc) is Some {
        g.with_ctx(n, (ContextView { error_msg: None, ..ctx }).discarded()).failed(
            g.outcome(n, rc)->Some_0,
        )
    } else {
        g.all_flushed(n)
    };
    if g.outcome(n, rc) is Some {
        assert(after.shared.stopped());
        assert(kin(g, after));
        kin_fits(g, after);
    } else {
        all_flushed_leaves_nobody_out(g, n);
        keeps_all_flushed(g, n);
    }
    let released = after.with_ctx(n, after.nodes[n].ctx.released());
    let marked = released.with_sched(n, NodeSched { closed: true, ..released.nodes[n].sched });
    assert(kin(after, marked));
    kin_fits(after, marked);
    assert forall|m: int| 0 <= m < marked.nodes.len() implies !#[trigger] marked.claimable(m) by {
        if m != n {
            assert(marked.nodes[m] == after.nodes[m]);
            assert(!after.claimable(m));
        }
    }
    assert(g.nodes[n].fits(g.edges.len()));
    edges_closed_is_asleep(marked, outs, outs.len());
    asleep_wakes_nobody(marked, g.closed_node(n, rc));
}

/// Nobody who could run is forgotten: not by a step, not by what follows a
/// kernel call, whatever it returned, and not when a packet is taken or a
/// graph input closed.
pub proof fn nobody_is_forgotten(g: RunView, rc: i32, us: i64, now: u64, edge: int, p: Packet)
    requires
        well_run(g),
        nobody_waits(g),
        0 <= edge < g.edges.len(),
    ensures
        g.task is Idle ==> nobody_waits(g.stepped(now).0),
        nobody_waits(g.resumed(rc, us, now).0),
        nobody_waits(g.accepted(edge, p)),
        nobody_waits(g.edge_closed(edge)),
{
    if g.task is Idle {
        step_leaves_nobody_out(g, now);
    }
    call_leaves_nobody_out(g, rc, us, now);
    accepted_leaves_nobody_out(g, edge, p);
    edge_closed_is_asleep(g, edge);
    asleep_wakes_nobody(g, g.edge_closed(edge));
}

proof fn step_leaves_nobody_out(g: RunView, now: u64)
    requires
        well_run(g),
        nobody_waits(g),
        g.task is Idle,
    ensures
        nobody_waits(g.stepped(now).0),
{
    let last = g.stepped(now).0;
    if g.main_queue.len() > 0 {
        let n = g.main_queue[0] as int;
        let node = g.nodes[n];
        assert(node.sched.running);
        let taken = RunView {
            main_queue: g.main_queue.drop_first(),
            shared: heads_dequeued(g.shared, node.queues, node.queues.len()),
            ..g
        }.with_node(n, node.fed());
        heads_keep(g.shared, node.queues, node.queues.len());
        assert forall|m: int| 0 <= m < taken.nodes.len() implies !#[trigger] taken.claimable(
            m,
        ) by {
            if m != n {
                assert(taken.nodes[m] == g.nodes[m]);
                assert(!g.claimable(m));
            }
        }
        match taken.nodes[n].type_problem(node.input_types.len(), g.shared.type_names) {
            Some(e) => {
                let stats = node.stats;
                let refused = taken.with_ctx(n, taken.nodes[n].ctx.discarded()).with_stats(
                    n,
                    NodeStats { errors: one_more(stats.errors), ..stats },
                ).failed(e);
                assert(refused.shared.stopped());
                after_run_leaves_nobody_out(refused, n, now);
            },
            None => {
                assert(asleep(taken, last));
                asleep_wakes_nobody(taken, last);
            },
        }
    } else {
        swept_leaves_nobody_out(g, 0, false, now);
    }
}

proof fn timed_leaves_nobody_out(g: RunView, n: int, phase: KernelPhase, us: i64)
    requires
        g.fits(),
        nobody_waits(g),
        0 <= n < g.nodes.len(),
    ensures
        nobody_waits(g.timed(n, phase, us)),
        g.timed(n, phase, us).fits(),
        g.timed(n, phase, us).nodes.len() == g.nodes.len(),
{
    keeps_timed(g, n, phase, us);
    assert(asleep(g, g.timed(n, phase, us)));
    asleep_wakes_nobody(g, g.timed(n, phase, us));
}

proof fn run_leaves_nobody_out(g: RunView, n: int, rc: i32, now: u64)
    requires
        g.fits(),
        nobody_waits(g),
        0 <= n < g.nodes.len(),
    ensures
        nobody_waits(g.ran(n, rc).after_run(n, now).0),
{
    ran_leaves_nobody_out(g, n, rc);
    keeps_ran(g, n, rc);
    after_run_leaves_nobody_out(g.ran(n, rc), n, now);
}

proof fn close_leaves_nobody_out(g: RunView, n: int, rc: i32, now: u64)
    requires
        g.fits(),
        nobody_waits(g),
        0 <= n < g.nodes.len(),
    ensures
        nobody_waits(g.closed_node(n, rc).resting()),
        nobody_waits(g.closed_node(n, rc).swept(n + 1, true, now).0),
{
    let shut = g.closed_node(n, rc);
    closed_node_leaves_nobody_out(g, n, rc);
    assert(asleep(shut, shut.resting()));
    asleep_wakes_nobody(shut, shut.resting());
    swept_leaves_nobody_out(shut, n + 1, true, now);
}

proof fn call_leaves_nobody_out(g: RunView, rc: i32, us: i64, now: u64)
    requires
        g.fits(),
        nobody_waits(g),
    ensures
        nobody_waits(g.resumed(rc, us, now).0),
{
    match g.task {
        Task::Processing(n) => {
            timed_leaves_nobody_out(g, n as int, KernelPhase::Process, us);
            run_leaves_nobody_out(g.timed(n as int, KernelPhase::Process, us), n as int, rc, now);
        },
        Task::Closing(n) => {
            timed_leaves_nobody_out(g, n as int, KernelPhase::Close, us);
            close_leaves_nobody_out(g.timed(n as int, KernelPhase::Close, us), n as int, rc, now);
        },
        Task::Sweeping(n) => {
            timed_leaves_nobody_out(g, n as int, KernelPhase::Close, us);
            close_leaves_nobody_out(g.timed(n as int, KernelPhase::Close, us), n as int, rc, now);
        },
        _ => {},
    }
}

proof fn accepted_leaves_nobody_out(g: RunView, edge: int, p: Packet)
    requires
        g.fits(),
        nobody_waits(g),
        0 <= edge < g.edges.len(),
    ensures
        nobody_waits(g.accepted(edge, p)),
{
    let marked = g.with_edge(edge, RunEdge { last_sent: p.stamp, ..g.edges[edge] });
    assert(asleep(g, marked));
    asleep_wakes_nobody(g, marked);
    assert(alike(g, marked));
    kin_fits(g, marked);
    sent_leaves_nobody_out(marked, edge, seq![p]);
}

// ------------------------------------------------------------------- the end

/// Whether a node produces what an edge carries.
pub open spec fn produces(g: RunView, n: int, o: int, edge: usize) -> bool {
    0 <= n < g.nodes.len() && 0 <= o < g.nodes[n].outputs.len() && g.nodes[n].outputs[o] == edge
}

/// Whether an edge is a graph input or carries what a node produces.
pub open spec fn fed(g: RunView, edge: usize) -> bool {
    g.graph_inputs.contains(edge) || exists|n: int, o: int| produces(g, n, o, edge)
}

/// Whether every input port is listed with its edge, and every such edge is
/// fed.
pub open spec fn connected(g: RunView) -> bool {
    forall|n: int, i: int|
        0 <= n < g.nodes.len() && 0 <= i < g.nodes[n].inputs.len() ==> {
            let edge = #[trigger] g.nodes[n].inputs[i];
            g.edges[edge as int].consumers.contains((n as usize, i as usize)) && fed(g, edge)
        }
}

/// Whether a node stands behind another in a list.
pub open spec fn stands_behind(order: Seq<usize>, node: usize, other: usize) -> bool {
    &&& order.contains(node)
    &&& order.contains(other)
    &&& order.index_of(other) < order.index_of(node)
}

/// Whether in a list of the nodes everyone stands behind those who read what
/// it produces.
pub open spec fn behind_readers(g: RunView, order: Seq<usize>) -> bool {
    forall|n: int, o: int, k: int|
        0 <= n < g.nodes.len() && 0 <= o < g.nodes[n].outputs.len() && 0 <= k
            < g.edges[g.nodes[n].outputs[o] as int].consumers.len() ==> stands_behind(
            order,
            n as usize,
            (#[trigger] g.edges[g.nodes[n].outputs[o] as int].consumers[k]).0,
        )
}

/// Whether no packet can go in a circle.
pub open spec fn acyclic(g: RunView) -> bool {
    exists|order: Seq<usize>| behind_readers(g, order)
}

/// Whether a node has a packet at one input port and none at another that
/// nothing more comes to.
pub open spec fn starved(node: RunNode) -> bool {
    &&& node.policy !is Immediate
    &&& exists|i: int| 0 <= i < node.queues.len() && (#[trigger] node.queues[i]).len() > 0
    &&& exists|i: int|
        0 <= i < node.queues.len() && (#[trigger] node.queues[i]).len() == 0 && node.closed[i]
}

/// Whether all that comes from outside is closed.
pub open spec fn inputs_closed(g: RunView) -> bool {
    forall|k: int|
        0 <= k < g.graph_inputs.len() ==> g.edges[(#[trigger] g.graph_inputs[k]) as int].closed
}

/// Whether every node was opened.
pub open spec fn all_opened(g: RunView) -> bool {
    forall|n: int| 0 <= n < g.nodes.len() ==> (#[trigger] g.nodes[n]).sched.opened
}

proof fn nobody_runs(g: RunView, n: int)
    requires
        well_run(g),
        g.task is Idle,
        g.main_queue.len() == 0,
        0 <= n < g.nodes.len(),
    ensures
        !g.nodes[n].sched.running,
{
    if g.nodes[n].sched.running {
        assert(g.main_queue.contains(n as usize));
        let k = g.main_queue.index_of(n as usize);
        assert(g.main_queue[k] == n as usize);
    }
}

proof fn quiet_node_is_closed(g: RunView, order: Seq<usize>, n: int, now: u64)
    requires
        well_run(g),
        settled(g),
        nobody_waits(g),
        connected(g),
        behind_readers(g, order),
        g.task is Idle,
        !g.paused,
        !g.shared.stopped(),
        all_opened(g),
        inputs_closed(g),
        g.stepped(now).1 == Action::Done(false),
        forall|m: int|
            0 <= m < g.nodes.len() && !g.nodes[m].sched.closed ==> !starved(#[trigger] g.nodes[m]),
        0 <= n < g.nodes.len(),
    ensures
        g.nodes[n].sched.closed,
    decreases order.len() - order.index_of(n as usize),
{
    let node = g.nodes[n];
    quiet_steps_leave_nothing_undone(g, now);
    assert(node.fits(g.edges.len()));
    assert forall|i: int| 0 <= i < node.queues.len() implies #[trigger] node.closed[i] by {
        let edge = g.nodes[n].inputs[i];
        assert(g.edges[edge as int].consumers.contains((n as usize, i as usize)));
        let k = g.edges[edge as int].consumers.index_of((n as usize, i as usize));
        assert(g.edges[edge as int].consumers[k] == (n as usize, i as usize));
        assert(fed(g, edge));
        if g.graph_inputs.contains(edge) {
            let t = g.graph_inputs.index_of(edge);
            assert(g.graph_inputs[t] == edge);
            assert(g.edges[edge as int].closed);
        } else {
            let (m, o) = choose|m: int, o: int| produces(g, m, o, edge);
            assert(g.nodes[m].outputs[o] == edge);
            assert(g.edges[g.nodes[m].outputs[o] as int].consumers[k].0 == n as usize);
            assert(order.contains(m as usize));
            let p = order.index_of(m as usize);
            assert(order[p] == m as usize);
            quiet_node_is_closed(g, order, m, now);
            assert(g.edges[g.nodes[m].outputs[o] as int].closed);
        }
        assert(g.nodes[n].closed[i]);
    }
    if !node.sched.closed {
        nobody_runs(g, n);
        assert(!g.claimable(n));
        assert(!node.ready());
        assert(!g.closable(n));
        assert(!node.drained());
        let i = choose|i: int|
            0 <= i < node.queues.len() && !(node.closed[i] && (#[trigger] node.queues[i]).len() == 0);
        assert(node.closed[i]);
        assert(node.queues[i].len() > 0);
        if !(node.policy is Immediate) {
            let j = choose|j: int| 0 <= j < node.queues.len() && (#[trigger] node.queues[j]).len() == 0;
            assert(node.queues[j].len() == 0 && node.closed[j]);
            assert(starved(g.nodes[n]));
        }
    }
}

/// When all that comes from outside is closed and nothing is left to do, the
/// graph has ended: every node is closed, unless one waits at one port for
/// what will never come while it has a packet at another.
pub proof fn closed_graphs_end(g: RunView, now: u64)
    requires
        well_run(g),
        settled(g),
        nobody_waits(g),
        connected(g),
        acyclic(g),
        g.task is Idle,
        !g.paused,
        !g.shared.stopped(),
        all_opened(g),
        inputs_closed(g),
        g.stepped(now).1 == Action::Done(false),
    ensures
        g.all_closed() || exists|n: int|
            0 <= n < g.nodes.len() && !g.nodes[n].sched.closed && starved(#[trigger] g.nodes[n]),
{
    let order = choose|order: Seq<usize>| behind_readers(g, order);
    quiet_steps_leave_nothing_undone(g, now);
    if !g.all_closed() && !(exists|n: int|
        0 <= n < g.nodes.len() && !g.nodes[n].sched.closed && starved(#[trigger] g.nodes[n])) {
        let n = choose|n: int| 0 <= n < g.nodes.len() && !(#[trigger] g.nodes[n]).sched.closed;
        quiet_node_is_closed(g, order, n, now);
    }
}

/// A graph that failed or was cancelled ends too: when nothing is left to do,
/// every node that was opened is closed.
pub proof fn stopped_graphs_end(g: RunView, now: u64, n: int)
    requires
        well_run(g),
        g.task is Idle,
        g.shared.stopped(),
        g.stepped(now).1 == Action::Done(false),
        0 <= n < g.nodes.len(),
        g.nodes[n].sched.opened,
    ensures
        g.nodes[n].sched.closed,
{
    quiet_steps_leave_nothing_undone(g, now);
    nobody_runs(g, n);
    assert(!g.closable(n));
}

// ------------------------------------------------------------- the beginning

proof fn nodes_scheduled_are_claimed(g: RunView, k: nat)
    requires
        g.fits(),
        k <= g.nodes.len(),
    ensures
        firm(g, g.nodes_scheduled(k)),
        g.nodes_scheduled(k).fits(),
        forall|n: int| 0 <= n < k ==> !#[trigger] g.nodes_scheduled(k).claimable(n),
    decreases k,
{
    if k > 0 {
        let before = g.nodes_scheduled((k - 1) as nat);
        let after = g.nodes_scheduled(k);
        nodes_scheduled_are_claimed(g, (k - 1) as nat);
        keeps_scheduled(before, k - 1);
        scheduled_is_claimed(before, k - 1);
        assert(firm(before, after));
        firm_trans(g, before, after);
        assert forall|n: int| 0 <= n < k implies !#[trigger] after.claimable(n) by {
            if n < k - 1 {
                assert(!before.claimable(n));
            }
        }
    }
}

/// A pause leaves nobody out: when the graph goes on, everyone who can run
/// then is put in line, and what was closed is as it was.
pub proof fn pauses_leave_nobody_out(g: RunView)
    requires
        g.fits(),
    ensures
        nobody_waits(RunView { paused: true, ..g }),
        ({
            let after = (RunView { paused: false, ..g }).nodes_scheduled(g.nodes.len());
            nobody_waits(after) && (settled(g) ==> settled(after))
        }),
{
    let awake = RunView { paused: false, ..g };
    let after = awake.nodes_scheduled(g.nodes.len());
    kin_fits(g, awake);
    nodes_scheduled_are_claimed(awake, g.nodes.len());
    assert(firm(g, awake));
    firm_trans(g, awake, after);
    firm_settles(g, after);
}

/// Opening a node that has nothing to run on leaves nobody out either,
/// whatever its kernel returned.
pub proof fn openings_leave_nobody_out(g: RunView, n: usize, rc: i32, us: i64, now: u64)
    requires
        g.fits(),
        n < g.nodes.len(),
        nobody_waits(g),
        settled(g),
        !g.nodes[n as int].ready(),
    ensures
        nobody_waits(g.opening(n as int, now)),
        settled(g.opening(n as int, now)),
        ({
            let back = g.timed(n as int, KernelPhase::Open, us);
            let failed = back.open_failed(n as int, rc);
            let open = back.open_done(n as int).opening(n + 1, now);
            &&& nobody_waits(failed) && settled(failed)
            &&& nobody_waits(open) && settled(open)
        }),
{
    let first = g.opening(n as int, now);
    assert(asleep(g, first));
    asleep_wakes_nobody(g, first);
    assert(firm(g, first));
    firm_settles(g, first);
    let back = g.timed(n as int, KernelPhase::Open, us);
    keeps_timed(g, n as int, KernelPhase::Open, us);
    timed_leaves_nobody_out(g, n as int, KernelPhase::Open, us);
    assert(firm(g, back));
    let failed = back.open_failed(n as int, rc);
    assert(asleep(back, failed));
    asleep_wakes_nobody(back, failed);
    assert(firm(back, failed));
    firm_trans(g, back, failed);
    firm_settles(g, failed);
    let done = back.open_done(n as int);
    assert(back.nodes[n as int].queues == g.nodes[n as int].queues);
    ready_alike(g.nodes[n as int], done.nodes[n as int]);
    assert forall|m: int| 0 <= m < done.nodes.len() implies !#[trigger] done.claimable(m) by {
        assert(!back.claimable(m));
        if m != n {
            assert(done.nodes[m] == back.nodes[m]);
        }
    }
    assert(firm(back, done));
    let open = done.opening(n + 1, now);
    assert(asleep(done, open));
    asleep_wakes_nobody(done, open);
    assert(firm(done, open));
    firm_trans(g, back, done);
    firm_trans(g, done, open);
    firm_settles(g, open);
}

/// Nor does anything else that the host does leave somebody out or open what
/// was closed: to cancel, to add a poller and to take a packet from one.
pub proof fn hosts_leave_nobody_out(g: RunView, edge: int, index: int)
    requires
        g.fits(),
        nobody_waits(g),
        settled(g),
        0 <= edge < g.edges.len(),
    ensures
        ({
            let cancelled = RunView {
                shared: (SharedView { cancelled: true, ..g.shared }),
                ..g
            };
            nobody_waits(cancelled) && settled(cancelled)
        }),
        nobody_waits(g.polled(edge)) && settled(g.polled(edge)),
        0 <= index < g.edges[edge].pollers.len() ==> nobody_waits(g.popped(edge, index))
            && settled(g.popped(edge, index)),
{
    let cancelled = RunView { shared: (SharedView { cancelled: true, ..g.shared }), ..g };
    assert(asleep(g, cancelled));
    asleep_wakes_nobody(g, cancelled);
    assert(firm(g, cancelled));
    firm_settles(g, cancelled);
    assert(asleep(g, g.polled(edge)));
    asleep_wakes_nobody(g, g.polled(edge));
    assert(firm(g, g.polled(edge)));
    firm_settles(g, g.polled(edge));
    if 0 <= index < g.edges[edge].pollers.len() {
        assert(asleep(g, g.popped(edge, index)));
        asleep_wakes_nobody(g, g.popped(edge, index));
        assert(firm(g, g.popped(edge, index)));
        firm_settles(g, g.popped(edge, index));
    }
}

/// Who reads what stays as it is as long as a graph runs.
pub proof fn connections_stay(a: RunView, b: RunView)
    requires
        a.fits(),
        alike(a, b),
    ensures
        connected(a) ==> connected(b),
        acyclic(a) ==> acyclic(b),
{
    if connected(a) {
        assert forall|n: int, i: int|
            0 <= n < b.nodes.len() && 0 <= i < b.nodes[n].inputs.len() implies {
            let edge = #[trigger] b.nodes[n].inputs[i];
            b.edges[edge as int].consumers.contains((n as usize, i as usize)) && fed(b, edge)
        } by {
            assert(node_kin(a.nodes[n], b.nodes[n]));
            assert(a.nodes[n].fits(a.edges.len()));
            let edge = a.nodes[n].inputs[i];
            assert(b.edges[edge as int].consumers == a.edges[edge as int].consumers);
            assert(fed(a, edge));
            if !a.graph_inputs.contains(edge) {
                let (m, o) = choose|m: int, o: int| produces(a, m, o, edge);
                assert(node_kin(a.nodes[m], b.nodes[m]));
                assert(produces(b, m, o, edge));
            }
        }
    }
    if acyclic(a) {
        let order = choose|order: Seq<usize>| behind_readers(a, order);
        readers_stay(a, b, order);
    }
}

proof fn readers_stay(a: RunView, b: RunView, order: Seq<usize>)
    requires
        a.fits(),
        alike(a, b),
        behind_readers(a, order),
    ensures
        behind_readers(b, order),
{
    assert forall|n: int, o: int, k: int|
        0 <= n < b.nodes.len() && 0 <= o < b.nodes[n].outputs.len() && 0 <= k
            < b.edges[b.nodes[n].outputs[o] as int].consumers.len() implies stands_behind(
        order,
        n as usize,
        (#[trigger] b.edges[b.nodes[n].outputs[o] as int].consumers[k]).0,
    ) by {
        assert(node_kin(a.nodes[n], b.nodes[n]));
        assert(a.nodes[n].fits(a.edges.len()));
        let e = a.nodes[n].outputs[o] as int;
        assert(b.edges[e].consumers == a.edges[e].consumers);
        assert(a.edges[a.nodes[n].outputs[o] as int].consumers[k].0 == b.edges[e].consumers[k].0);
    }
}

/// A graph that was built is connected and goes in no circle, nothing of it is
/// closed, and nobody waits.
pub proof fn built_graphs_can_end(
    g: GraphView,
    contracts: Seq<ContractView>,
    called: Map<u64, Seq<char>>,
)
    requires
        wiring_problem(g) is None,
        built(g, contracts, called).fits(),
        can_be_ordered(adjacency(g.nodes.len(), edge_links(wired(g).edges))),
    ensures
        connected(built(g, contracts, called)),
        acyclic(built(g, contracts, called)),
        settled(built(g, contracts, called)),
        nobody_waits(built(g, contracts, called)),
{
    let b = built(g, contracts, called);
    let ms = places(g);
    let names = edge_names(ms);
    edge_names_distinct(ms);
    assert forall|i: int| 0 <= i < g.nodes.len() implies declared_names(
        (#[trigger] g.nodes[i]).input_ports,
    ).len() <= usize::MAX by {
        assert(b.nodes[i].fits(b.edges.len()));
    }
    assert forall|n: int, i: int|
        0 <= n < b.nodes.len() && 0 <= i < b.nodes[n].inputs.len() implies {
        let edge = #[trigger] b.nodes[n].inputs[i];
        b.edges[edge as int].consumers.contains((n as usize, i as usize)) && fed(b, edge)
    } by {
        built_port_is_fed(g, contracts, called, n, i);
    }
    let adj = adjacency(g.nodes.len(), edge_links(wired(g).edges));
    let order = choose|order: Seq<usize>| successors_first(adj, order);
    assert forall|n: int, o: int, k: int|
        0 <= n < b.nodes.len() && 0 <= o < b.nodes[n].outputs.len() && 0 <= k
            < b.edges[b.nodes[n].outputs[o] as int].consumers.len() implies stands_behind(
        order,
        n as usize,
        (#[trigger] b.edges[b.nodes[n].outputs[o] as int].consumers[k]).0,
    ) by {
        let own = declared_names(g.nodes[n].output_ports);
        outputs_are_edges(g, n);
        assert(names.contains(own[o]));
        let e = names.index_of(own[o]);
        assert(names[e] == own[o]);
        assert(b.nodes[n].fits(b.edges.len()));
        assert(b.nodes[n].outputs[o] == e);
        assert(b.edges[e].consumers == consumers_of(ms, names[e]));
        wired_edges_within(g, declared_names(g.output_ports));
        wired_nodes_have_an_order(g, order, n, o, k);
    }
    assert(behind_readers(b, order));
}

proof fn built_port_is_fed(
    g: GraphView,
    contracts: Seq<ContractView>,
    called: Map<u64, Seq<char>>,
    n: int,
    i: int,
)
    requires
        wiring_problem(g) is None,
        built(g, contracts, called).fits(),
        0 <= n < g.nodes.len(),
        0 <= i < built(g, contracts, called).nodes[n].inputs.len(),
    ensures
        ({
            let b = built(g, contracts, called);
            let edge = b.nodes[n].inputs[i];
            b.edges[edge as int].consumers.contains((n as usize, i as usize)) && fed(b, edge)
        }),
{
    let b = built(g, contracts, called);
    let ms = places(g);
    let names = edge_names(ms);
    let ins = declared_names(g.nodes[n].input_ports);
    let edge = b.nodes[n].inputs[i];
    edge_names_distinct(ms);
    inputs_are_edges(g, n);
    assert(b.nodes[n].fits(b.edges.len()));
    assert(names.contains(ins[i]));
    let e = names.index_of(ins[i]);
    assert(names[e] == ins[i]);
    assert(edge == e);
    assert(b.edges[e].consumers == consumers_of(ms, names[e]));
    readers_are_listed(g, n, i);
    inputs_are_fed(g, n, i);
    let from = declared_names(g.input_ports);
    if from.contains(ins[i]) {
        let t = from.index_of(ins[i]);
        assert(from[t] == ins[i]);
        assert(b.graph_inputs[t] == edge);
        assert(b.graph_inputs.contains(edge));
    } else {
        let (m, o) = choose|m: int, o: int| puts_out(g, m, o, ins[i]);
        assert(b.nodes[m].outputs[o] == edge);
        assert(produces(b, m, o, edge));
    }
}

} // verus!

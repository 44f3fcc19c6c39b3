//! A graph that has ended holds nothing any more but what was not fetched.

use crate::config::GraphView;
use crate::context::ContextView;
use crate::ending::{consumed_elsewhere, firm, firm_trans, sent_is_firm};
use crate::engine::{heads_keep, keeps_closed_node, keeps_ran, keeps_timed};
use crate::graph::{alike, keeps_dispatched, kin, kin_fits, node_kin};
use crate::laws::well_run;
use crate::lifecycle::{built, ContractView};
use crate::ownership::{
    closings_keep_nothing, context_is_empty, edge_closed_keeps_contexts, runs_keep_nothing,
    same_contexts, sent_keeps_contexts,
};
use crate::packet::{no_packets, Packet};
use crate::plan::{consumers_of, edge_names, edge_names_distinct, Mention};
use crate::run_state::{
    heads_dequeued, one_more, KernelPhase, NodeSched, NodeStats, PollerView, RunEdge, RunNode,
    RunView, Task,
};
use crate::runtime::SharedView;
use crate::schedule::{
    keeps_all_flushed, keeps_edge_closed, keeps_edges_closed, keeps_flushed, keeps_sent,
};
use crate::topology::declared_names;
use crate::wiring::{
    consumers_are_ports, outputs_are_edges, outputs_come_from_nodes, places, single_producer,
    wiring_problem,
};
use vstd::prelude::*;

verus! {

// ------------------------------------------------------------------ the model

/// Whether a port that is listed with an edge reads it.
pub open spec fn listed_rightly(g: RunView) -> bool {
    forall|e: int, k: int|
        0 <= e < g.edges.len() && 0 <= k < g.edges[e].consumers.len() ==> {
            let (n, p) = #[trigger] g.edges[e].consumers[k];
            g.nodes[n as int].inputs[p as int] == e
        }
}

/// Whether what an edge carries comes from one node or from outside.
pub open spec fn one_source(g: RunView) -> bool {
    &&& forall|n: int, o: int, m: int, q: int|
        0 <= n < g.nodes.len() && 0 <= o < g.nodes[n].outputs.len() && 0 <= m < g.nodes.len()
            && 0 <= q < g.nodes[m].outputs.len() && #[trigger] g.nodes[n].outputs[o]
            == #[trigger] g.nodes[m].outputs[q] ==> n == m
    &&& forall|n: int, o: int|
        0 <= n < g.nodes.len() && 0 <= o < g.nodes[n].outputs.len() ==> !g.graph_inputs.contains(
            #[trigger] g.nodes[n].outputs[o],
        )
}

/// Whether a port is closed only if its edge is.
pub open spec fn ports_follow(g: RunView) -> bool {
    forall|n: int, i: int|
        0 <= n < g.nodes.len() && 0 <= i < g.nodes[n].closed.len() && (
        #[trigger] g.nodes[n].closed[i]) ==> g.edges[g.nodes[n].inputs[i] as int].closed
}

/// Whether what a node produces is closed only if the node is.
pub open spec fn producers_lead(g: RunView) -> bool {
    forall|n: int, o: int|
        0 <= n < g.nodes.len() && 0 <= o < g.nodes[n].outputs.len() && g.edges[(
        #[trigger] g.nodes[n].outputs[o]) as int].closed ==> g.nodes[n].sched.closed
}

/// Whether nothing waits at a closed node, unless the graph had to stop.
pub open spec fn spent(g: RunView) -> bool {
    !g.shared.stopped() ==> forall|n: int|
        0 <= n < g.nodes.len() && (#[trigger] g.nodes[n]).sched.closed ==> g.nodes[n].drained()
}

/// Whether the context of a closed node holds nothing.
pub open spec fn emptied(g: RunView) -> bool {
    forall|n: int|
        0 <= n < g.nodes.len() && (#[trigger] g.nodes[n]).sched.closed ==> context_is_empty(
            g.nodes[n].ctx,
        )
}

/// Whether a node that is being closed had to be.
pub open spec fn closing_is_due(g: RunView) -> bool {
    match g.task {
        Task::Closing(n) | Task::Sweeping(n) => !g.nodes[n as int].sched.closed && (
        g.shared.stopped() || g.nodes[n as int].drained()),
        _ => true,
    }
}

/// Whether the edges of a graph are what its nodes take them for.
pub open spec fn well_wired(g: RunView) -> bool {
    listed_rightly(g) && one_source(g)
}

/// Whether a graph closes nothing too early and keeps nothing too long.
pub open spec fn tidy(g: RunView) -> bool {
    &&& ports_follow(g)
    &&& producers_lead(g)
    &&& spent(g)
    &&& emptied(g)
    &&& closing_is_due(g)
}

/// Whether nothing was closed, and nothing came to a node that nothing more
/// can come to.
spec fn gentle(a: RunView, b: RunView) -> bool {
    &&& firm(a, b)
    &&& a.shared.stopped() ==> b.shared.stopped()
    &&& forall|n: int|
        0 <= n < a.nodes.len() && a.nodes[n].drained() ==> (#[trigger] b.nodes[n]).queues
            == a.nodes[n].queues
}

/// Whether nothing more can come to a node depends on its queues and ports.
proof fn drained_alike(a: RunNode, b: RunNode)
    requires
        a.queues == b.queues,
        a.closed == b.closed,
    ensures
        a.drained() == b.drained(),
{
    if a.drained() {
        assert forall|i: int|
            #![trigger b.queues[i]]
            #![trigger b.closed[i]]
            0 <= i < b.queues.len() implies b.closed[i] && b.queues[i].len() == 0 by {
            assert(a.closed[i] && a.queues[i].len() == 0);
        }
    }
    if b.drained() {
        assert forall|i: int|
            #![trigger a.queues[i]]
            #![trigger a.closed[i]]
            0 <= i < a.queues.len() implies a.closed[i] && a.queues[i].len() == 0 by {
            assert(b.closed[i] && b.queues[i].len() == 0);
        }
    }
}

proof fn gentle_trans(a: RunView, b: RunView, c: RunView)
    requires
        gentle(a, b),
        gentle(b, c),
    ensures
        gentle(a, c),
{
    firm_trans(a, b, c);
    assert forall|n: int| 0 <= n < a.nodes.len() && a.nodes[n].drained() implies (
    #[trigger] c.nodes[n]).queues == a.nodes[n].queues by {
        assert(b.nodes[n].queues == a.nodes[n].queues);
        drained_alike(a.nodes[n], b.nodes[n]);
    }
}

proof fn gentle_drains(a: RunView, b: RunView, n: int)
    requires
        gentle(a, b),
        0 <= n < a.nodes.len(),
        a.nodes[n].drained(),
    ensures
        b.nodes[n].drained(),
{
    assert(b.nodes[n].queues == a.nodes[n].queues);
    drained_alike(a.nodes[n], b.nodes[n]);
}

proof fn wiring_stays(a: RunView, b: RunView)
    requires
        a.fits(),
        alike(a, b),
        well_wired(a),
    ensures
        well_wired(b),
{
    assert forall|e: int, k: int|
        0 <= e < b.edges.len() && 0 <= k < b.edges[e].consumers.len() implies {
        let (n, p) = #[trigger] b.edges[e].consumers[k];
        b.nodes[n as int].inputs[p as int] == e
    } by {
        assert(b.edges[e].consumers == a.edges[e].consumers);
        let (n, p) = a.edges[e].consumers[k];
        assert(a.nodes[n as int].inputs[p as int] == e);
        assert(node_kin(a.nodes[n as int], b.nodes[n as int]));
    }
    assert forall|n: int, o: int, m: int, q: int|
        0 <= n < b.nodes.len() && 0 <= o < b.nodes[n].outputs.len() && 0 <= m < b.nodes.len()
            && 0 <= q < b.nodes[m].outputs.len() && #[trigger] b.nodes[n].outputs[o]
            == #[trigger] b.nodes[m].outputs[q] implies n == m by {
        assert(node_kin(a.nodes[n], b.nodes[n]));
        assert(node_kin(a.nodes[m], b.nodes[m]));
        assert(a.nodes[n].outputs[o] == a.nodes[m].outputs[q]);
    }
    assert forall|n: int, o: int|
        0 <= n < b.nodes.len() && 0 <= o
            < b.nodes[n].outputs.len() implies !b.graph_inputs.contains(
        #[trigger] b.nodes[n].outputs[o],
    ) by {
        assert(node_kin(a.nodes[n], b.nodes[n]));
        assert(!a.graph_inputs.contains(a.nodes[n].outputs[o]));
    }
}

proof fn gentle_keeps(a: RunView, b: RunView)
    requires
        a.fits(),
        gentle(a, b),
    ensures
        ports_follow(a) ==> ports_follow(b),
        producers_lead(a) ==> producers_lead(b),
        spent(a) ==> spent(b),
{
    if ports_follow(a) {
        assert forall|n: int, i: int|
            0 <= n < b.nodes.len() && 0 <= i < b.nodes[n].closed.len() && (
            #[trigger] b.nodes[n].closed[i]) implies b.edges[b.nodes[n].inputs[i] as int].closed by {
            assert(b.nodes[n].closed == a.nodes[n].closed);
            assert(a.nodes[n].closed[i]);
            assert(node_kin(a.nodes[n], b.nodes[n]));
            assert(a.nodes[n].fits(a.edges.len()));
            assert(b.edges[a.nodes[n].inputs[i] as int].closed
                == a.edges[a.nodes[n].inputs[i] as int].closed);
        }
    }
    if producers_lead(a) {
        assert forall|n: int, o: int|
            0 <= n < b.nodes.len() && 0 <= o < b.nodes[n].outputs.len() && b.edges[(
            #[trigger] b.nodes[n].outputs[o]) as int].closed implies b.nodes[n].sched.closed by {
            assert(node_kin(a.nodes[n], b.nodes[n]));
            assert(a.nodes[n].fits(a.edges.len()));
            let e = a.nodes[n].outputs[o] as int;
            assert(b.edges[e].closed == a.edges[e].closed);
            assert(a.nodes[n].sched.closed == b.nodes[n].sched.closed);
        }
    }
    if spent(a) && !b.shared.stopped() {
        assert forall|n: int| 0 <= n < b.nodes.len() && (
        #[trigger] b.nodes[n]).sched.closed implies b.nodes[n].drained() by {
            assert(b.nodes[n].sched.closed == a.nodes[n].sched.closed);
            assert(a.nodes[n].drained());
            gentle_drains(a, b, n);
        }
    }
}

// -------------------------------------------------------------------- sending

proof fn sent_is_gentle(g: RunView, edge: int, packets: Seq<Packet>)
    requires
        g.fits(),
        listed_rightly(g),
        ports_follow(g),
        0 <= edge < g.edges.len(),
        !g.edges[edge].closed,
    ensures
        gentle(g, g.sent(edge, packets)),
{
    let e = g.edges[edge];
    let told = RunView {
        outbox: g.outbox + RunView::notices(e.observers, packets, e.observers.len()),
        ..g
    }.with_edge(
        edge,
        RunEdge {
            pollers: Seq::new(
                e.pollers.len(),
                |i: int| PollerView { queue: e.pollers[i].queue + packets, ..e.pollers[i] },
            ),
            ..e
        },
    );
    let after = g.dispatched(edge, packets);
    let last = g.sent(edge, packets);
    assert(kin(g, told));
    kin_fits(g, told);
    consumed_elsewhere(told, edge, packets, e.consumers.len());
    keeps_dispatched(g, edge, packets);
    sent_is_firm(g, edge, packets);
    assert(after.edges[edge].consumers == e.consumers);
    all_scheduled_keeps_queues(after, edge, e.consumers.len());
    assert forall|n: int| 0 <= n < g.nodes.len() && g.nodes[n].drained() implies (
    #[trigger] last.nodes[n]).queues == g.nodes[n].queues by {
        assert forall|j: int| 0 <= j < told.edges[edge].consumers.len() implies (
        #[trigger] told.edges[edge].consumers[j]).0 != n by {
            let (m, p) = g.edges[edge].consumers[j];
            if m == n {
                assert(g.nodes[n].fits(g.edges.len()));
                assert(g.nodes[n].inputs[p as int] == edge);
                assert(g.nodes[n].closed[p as int]);
            }
        }
        assert(after.nodes[n] == told.nodes[n]);
    }
}

proof fn all_scheduled_keeps_queues(g: RunView, edge: int, k: nat)
    requires
        g.fits(),
        0 <= edge < g.edges.len(),
        k <= g.edges[edge].consumers.len(),
    ensures
        g.all_scheduled(edge, k).nodes.len() == g.nodes.len(),
        g.all_scheduled(edge, k).shared == g.shared,
        forall|n: int|
            0 <= n < g.nodes.len() ==> (#[trigger] g.all_scheduled(edge, k).nodes[n]).queues
                == g.nodes[n].queues,
    decreases k,
{
    if k > 0 {
        all_scheduled_keeps_queues(g, edge, (k - 1) as nat);
        assert(g.edges[edge].consumers[k - 1].0 < g.nodes.len());
    }
}

proof fn flushed_is_gentle(g: RunView, n: int, staging: Seq<Seq<Packet>>, k: nat)
    requires
        g.fits(),
        well_wired(g),
        ports_follow(g),
        producers_lead(g),
        0 <= n < g.nodes.len(),
        !g.nodes[n].sched.closed,
        k <= g.nodes[n].outputs.len(),
    ensures
        gentle(g, g.flushed(n, staging, k)),
    decreases k,
{
    if k > 0 {
        let before = g.flushed(n, staging, (k - 1) as nat);
        flushed_is_gentle(g, n, staging, (k - 1) as nat);
        keeps_flushed(g, n, staging, (k - 1) as nat);
        assert(g.nodes[n].fits(g.edges.len()));
        if staging[k - 1].len() > 0 {
            let edge = g.nodes[n].outputs[k - 1] as int;
            gentle_keeps(g, before);
            wiring_stays(g, before);
            assert(!g.edges[edge].closed);
            assert(before.edges[edge].closed == g.edges[edge].closed);
            sent_is_gentle(before, edge, staging[k - 1]);
            gentle_trans(g, before, g.flushed(n, staging, k));
        }
    } else {
        assert(gentle(g, g.flushed(n, staging, k)));
    }
}

proof fn all_flushed_is_gentle(g: RunView, n: int)
    requires
        g.fits(),
        well_wired(g),
        ports_follow(g),
        producers_lead(g),
        0 <= n < g.nodes.len(),
        !g.nodes[n].sched.closed,
    ensures
        gentle(g, g.all_flushed(n)),
{
    let ctx = g.nodes[n].ctx;
    let cleared = g.with_ctx(
        n,
        ContextView { staging: no_packets(ctx.staging.len()), ..ctx },
    );
    assert(gentle(g, cleared));
    assert(kin(g, cleared));
    kin_fits(g, cleared);
    gentle_keeps(g, cleared);
    wiring_stays(g, cleared);
    flushed_is_gentle(cleared, n, ctx.staging, g.nodes[n].outputs.len());
    gentle_trans(g, cleared, g.all_flushed(n));
}

// -------------------------------------------------------------------- closing

/// Whether the node of every output port that leads to an edge is closed.
spec fn producers_closed(g: RunView, edge: int) -> bool {
    forall|n: int, o: int|
        0 <= n < g.nodes.len() && 0 <= o < g.nodes[n].outputs.len() && (
        #[trigger] g.nodes[n].outputs[o]) == edge ==> g.nodes[n].sched.closed
}

/// What closing the first `k` of some ports comes to.
proof fn ports_closed_follow(g: RunView, ports: Seq<(usize, usize)>, k: nat)
    requires
        g.fits(),
        k <= ports.len(),
        forall|i: int|
            0 <= i < ports.len() ==> {
                let (n, p) = #[trigger] ports[i];
                &&& n < g.nodes.len() && p < g.nodes[n as int].closed.len()
                &&& g.edges[g.nodes[n as int].inputs[p as int] as int].closed
            },
    ensures
        ({
            let after = g.ports_closed(ports, k);
            &&& after.nodes.len() == g.nodes.len()
            &&& after.edges == g.edges
            &&& after.shared == g.shared
            &&& forall|n: int|
                0 <= n < g.nodes.len() ==> {
                    &&& (#[trigger] after.nodes[n]).inputs == g.nodes[n].inputs
                    &&& after.nodes[n].outputs == g.nodes[n].outputs
                    &&& after.nodes[n].queues == g.nodes[n].queues
                    &&& after.nodes[n].sched == g.nodes[n].sched
                    &&& after.nodes[n].closed.len() == g.nodes[n].closed.len()
                }
            &&& forall|n: int, i: int|
                0 <= n < g.nodes.len() && 0 <= i < g.nodes[n].closed.len() && (
                #[trigger] after.nodes[n].closed[i]) ==> g.nodes[n].closed[i]
                    || g.edges[g.nodes[n].inputs[i] as int].closed
            &&& forall|n: int, i: int|
                0 <= n < g.nodes.len() && 0 <= i < g.nodes[n].closed.len()
                    && g.nodes[n].closed[i] ==> #[trigger] after.nodes[n].closed[i]
        }),
    decreases k,
{
    if k > 0 {
        let before = g.ports_closed(ports, (k - 1) as nat);
        let after = g.ports_closed(ports, k);
        ports_closed_follow(g, ports, (k - 1) as nat);
        let (node, port) = ports[k - 1];
        assert(node < g.nodes.len());
        assert forall|n: int, i: int|
            0 <= n < g.nodes.len() && 0 <= i < g.nodes[n].closed.len() && (
            #[trigger] after.nodes[n].closed[i]) implies g.nodes[n].closed[i]
            || g.edges[g.nodes[n].inputs[i] as int].closed by {
            if n == node && i == port {
            } else {
                assert(before.nodes[n].closed[i]);
            }
        }
        assert forall|n: int, i: int|
            0 <= n < g.nodes.len() && 0 <= i < g.nodes[n].closed.len()
                && g.nodes[n].closed[i] implies #[trigger] after.nodes[n].closed[i] by {
            assert(before.nodes[n].closed[i]);
        }
    }
}

proof fn edge_closed_keeps(g: RunView, edge: int)
    requires
        g.fits(),
        well_wired(g),
        ports_follow(g),
        producers_lead(g),
        spent(g),
        0 <= edge < g.edges.len(),
        producers_closed(g, edge),
    ensures
        ({
            let after = g.edge_closed(edge);
            &&& ports_follow(after)
            &&& producers_lead(after)
            &&& spent(after)
            &&& after.shared == g.shared
            &&& after.nodes.len() == g.nodes.len()
            &&& forall|n: int|
                0 <= n < g.nodes.len() ==> (#[trigger] after.nodes[n]).sched == g.nodes[n].sched
                    && (g.nodes[n].drained() ==> after.nodes[n].drained())
        }),
{
    let e = g.edges[edge];
    let after = g.edge_closed(edge);
    if !e.closed {
        let marked = g.with_edge(
            edge,
            RunEdge {
                closed: true,
                pollers: Seq::new(
                    e.pollers.len(),
                    |i: int| PollerView { closed: true, ..e.pollers[i] },
                ),
                ..e
            },
        );
        assert(kin(g, marked));
        kin_fits(g, marked);
        assert forall|i: int| 0 <= i < e.consumers.len() implies {
            let (n, p) = #[trigger] e.consumers[i];
            &&& n < marked.nodes.len() && p < marked.nodes[n as int].closed.len()
            &&& marked.edges[marked.nodes[n as int].inputs[p as int] as int].closed
        } by {
            let (n, p) = g.edges[edge].consumers[i];
            assert(n < g.nodes.len());
            assert(g.nodes[n as int].fits(g.edges.len()));
            assert(g.nodes[n as int].inputs[p as int] == edge);
        }
        ports_closed_follow(marked, e.consumers, e.consumers.len());
        assert forall|n: int, i: int|
            0 <= n < after.nodes.len() && 0 <= i < after.nodes[n].closed.len() && (
            #[trigger] after.nodes[n].closed[i]) implies after.edges[after.nodes[n].inputs[i] as int].closed by {
            assert(after.nodes[n].inputs == g.nodes[n].inputs);
            assert(g.nodes[n].fits(g.edges.len()));
            if marked.nodes[n].closed[i] {
                assert(g.nodes[n].closed[i]);
            }
        }
        assert forall|n: int, o: int|
            0 <= n < after.nodes.len() && 0 <= o < after.nodes[n].outputs.len() && after.edges[(
            #[trigger] after.nodes[n].outputs[o]) as int].closed implies after.nodes[n].sched.closed by {
            assert(after.nodes[n].outputs == g.nodes[n].outputs);
            assert(after.nodes[n].sched == g.nodes[n].sched);
            assert(g.nodes[n].fits(g.edges.len()));
            if g.nodes[n].outputs[o] != edge {
                assert(g.edges[g.nodes[n].outputs[o] as int].closed);
            }
        }
        assert forall|n: int| 0 <= n < g.nodes.len() implies (#[trigger] after.nodes[n]).sched
            == g.nodes[n].sched && (g.nodes[n].drained() ==> after.nodes[n].drained()) by {
            assert(after.nodes[n].queues == marked.nodes[n].queues);
            assert(g.nodes[n].fits(g.edges.len()));
            if g.nodes[n].drained() {
                assert forall|i: int|
                    #![trigger after.nodes[n].queues[i]]
                    #![trigger after.nodes[n].closed[i]]
                    0 <= i < after.nodes[n].queues.len() implies after.nodes[n].closed[i]
                    && after.nodes[n].queues[i].len() == 0 by {
                    assert(g.nodes[n].closed[i] && g.nodes[n].queues[i].len() == 0);
                    assert(marked.nodes[n].closed[i]);
                }
            }
        }
        if !after.shared.stopped() {
            assert forall|n: int| 0 <= n < after.nodes.len() && (
            #[trigger] after.nodes[n]).sched.closed implies after.nodes[n].drained() by {
                assert(g.nodes[n].sched.closed);
            }
        }
    }
}

proof fn edges_closed_keep(g: RunView, edges: Seq<usize>, k: nat)
    requires
        g.fits(),
        well_wired(g),
        ports_follow(g),
        producers_lead(g),
        spent(g),
        k <= edges.len(),
        forall|i: int|
            0 <= i < edges.len() ==> #[trigger] edges[i] < g.edges.len() && producers_closed(
                g,
                edges[i] as int,
            ),
    ensures
        ({
            let after = g.edges_closed(edges, k);
            &&& ports_follow(after)
            &&& producers_lead(after)
            &&& spent(after)
            &&& forall|n: int|
                0 <= n < g.nodes.len() ==> (#[trigger] after.nodes[n]).sched == g.nodes[n].sched
        }),
    decreases k,
{
    if k > 0 {
        let before = g.edges_closed(edges, (k - 1) as nat);
        edges_closed_keep(g, edges, (k - 1) as nat);
        assert forall|i: int| 0 <= i < edges.len() implies #[trigger] edges[i] < g.edges.len() by {}
        keeps_edges_closed(g, edges, (k - 1) as nat);
        wiring_stays(g, before);
        let edge = edges[k - 1] as int;
        assert(producers_closed(g, edge));
        assert forall|n: int, o: int|
            0 <= n < before.nodes.len() && 0 <= o < before.nodes[n].outputs.len() && (
            #[trigger] before.nodes[n].outputs[o]) == edge implies before.nodes[n].sched.closed by {
            assert(node_kin(g.nodes[n], before.nodes[n]));
            assert(g.nodes[n].outputs[o] == edge);
            assert(before.nodes[n].sched == g.nodes[n].sched);
        }
        edge_closed_keeps(before, edge);
        assert forall|n: int| 0 <= n < g.nodes.len() implies (#[trigger] g.edges_closed(
            edges,
            k,
        ).nodes[n]).sched == g.nodes[n].sched by {
            assert(before.nodes[n].sched == g.nodes[n].sched);
        }
    }
}

/// Closing a node that had to be closed leaves nothing behind.
proof fn closed_node_keeps(g: RunView, n: int, rc: i32)
    requires
        g.fits(),
        well_wired(g),
        ports_follow(g),
        producers_lead(g),
        spent(g),
        emptied(g),
        0 <= n < g.nodes.len(),
        !g.nodes[n].sched.closed,
        g.shared.stopped() || g.nodes[n].drained(),
    ensures
        ports_follow(g.closed_node(n, rc)),
        producers_lead(g.closed_node(n, rc)),
        spent(g.closed_node(n, rc)),
        emptied(g.closed_node(n, rc)),
{
    let ctx = g.nodes[n].ctx;
    let outs = g.nodes[n].outputs;
    let last = g.closed_node(n, rc);
    let after = if g.outcome(n, rc) is Some {
        g.with_ctx(n, (ContextView { error_msg: None, ..ctx }).discarded()).failed(
            g.outcome(n, rc)->Some_0,
        )
    } else {
        g.all_flushed(n)
    };
    if g.outcome(n, rc) is Some {
        assert(gentle(g, after));
        assert(kin(g, after));
        kin_fits(g, after);
    } else {
        all_flushed_is_gentle(g, n);
        keeps_all_flushed(g, n);
    }
    gentle_keeps(g, after);
    wiring_stays(g, after);
    if !g.shared.stopped() {
        gentle_drains(g, after, n);
    }
    let released = after.with_ctx(n, after.nodes[n].ctx.released());
    let marked = released.with_sched(
        n,
        NodeSched { closed: true, ..released.nodes[n].sched },
    );
    assert(kin(after, marked));
    kin_fits(after, marked);
    wiring_stays(after, marked);
    marked_node_keeps(after, marked, n);
    assert(g.nodes[n].fits(g.edges.len()));
    assert(node_kin(g.nodes[n], after.nodes[n]));
    assert forall|i: int| 0 <= i < outs.len() implies #[trigger] outs[i] < marked.edges.len()
        && producers_closed(marked, outs[i] as int) by {
        assert(marked.nodes[n].outputs[i] == outs[i]);
        assert forall|m: int, o: int|
            0 <= m < marked.nodes.len() && 0 <= o < marked.nodes[m].outputs.len() && (
            #[trigger] marked.nodes[m].outputs[o]) == outs[i] implies marked.nodes[m].sched.closed by {
            assert(marked.nodes[m].outputs[o] == marked.nodes[n].outputs[i]);
        }
    }
    edges_closed_keep(marked, outs, outs.len());
    closings_keep_nothing(g, n, rc);
    keeps_closed_node(g, n, rc);
    assert forall|m: int| 0 <= m < last.nodes.len() && (
    #[trigger] last.nodes[m]).sched.closed implies context_is_empty(last.nodes[m].ctx) by {
        if m != n {
            assert(g.nodes[m].sched.closed);
        }
    }
}

proof fn marked_node_keeps(g: RunView, marked: RunView, n: int)
    requires
        g.fits(),
        ports_follow(g),
        producers_lead(g),
        spent(g),
        0 <= n < g.nodes.len(),
        g.shared.stopped() || g.nodes[n].drained(),
        marked == g.with_ctx(n, g.nodes[n].ctx.released()).with_sched(
            n,
            NodeSched { closed: true, ..g.nodes[n].sched },
        ),
    ensures
        ports_follow(marked),
        producers_lead(marked),
        spent(marked),
{
    assert forall|m: int, i: int|
        0 <= m < marked.nodes.len() && 0 <= i < marked.nodes[m].closed.len() && (
        #[trigger] marked.nodes[m].closed[i]) implies marked.edges[marked.nodes[m].inputs[i] as int].closed by {
        assert(g.nodes[m].closed[i]);
    }
    assert forall|m: int, o: int|
        0 <= m < marked.nodes.len() && 0 <= o < marked.nodes[m].outputs.len() && marked.edges[(
        #[trigger] marked.nodes[m].outputs[o]) as int].closed implies marked.nodes[m].sched.closed by {
        assert(g.edges[g.nodes[m].outputs[o] as int].closed);
    }
    if !marked.shared.stopped() {
        assert forall|m: int| 0 <= m < marked.nodes.len() && (
        #[trigger] marked.nodes[m]).sched.closed implies marked.nodes[m].drained() by {
            if m != n {
                assert(g.nodes[m].sched.closed);
            }
            drained_alike(g.nodes[m], marked.nodes[m]);
        }
    }
}

// ---------------------------------------------------------------- all together

/// The state before a node is called for closing is as good as that after.
proof fn closing_call_is_tidy(g: RunView, n: int, now: u64, task: Task)
    requires
        g.fits(),
        ports_follow(g),
        producers_lead(g),
        spent(g),
        emptied(g),
        0 <= n < g.nodes.len(),
        n <= usize::MAX,
        g.closable(n),
        task == Task::Closing(n as usize) || task == Task::Sweeping(n as usize),
    ensures
        tidy(g.closing(n).calling(n, now, task)),
{
    let last = g.closing(n).calling(n, now, task);
    assert(gentle(g, last));
    gentle_keeps(g, last);
    drained_alike(g.nodes[n], last.nodes[n]);
    assert forall|m: int| 0 <= m < last.nodes.len() && (
    #[trigger] last.nodes[m]).sched.closed implies context_is_empty(last.nodes[m].ctx) by {
        assert(g.nodes[m].sched.closed);
    }
}

proof fn swept_is_tidy(g: RunView, n: int, progressed: bool, now: u64)
    requires
        g.fits(),
        ports_follow(g),
        producers_lead(g),
        spent(g),
        emptied(g),
        0 <= n,
    ensures
        tidy(g.swept(n, progressed, now).0),
    decreases g.nodes.len() - n,
{
    let last = g.swept(n, progressed, now).0;
    if n >= g.nodes.len() {
        assert(gentle(g, last));
        gentle_keeps(g, last);
        assert forall|m: int| 0 <= m < last.nodes.len() && (
        #[trigger] last.nodes[m]).sched.closed implies context_is_empty(last.nodes[m].ctx) by {
            assert(g.nodes[m].sched.closed);
        }
    } else if g.closable(n) {
        closing_call_is_tidy(g, n, now, Task::Sweeping(n as usize));
    } else {
        swept_is_tidy(g, n + 1, progressed, now);
    }
}

proof fn after_run_is_tidy(g: RunView, n: int, now: u64)
    requires
        g.fits(),
        ports_follow(g),
        producers_lead(g),
        spent(g),
        emptied(g),
        0 <= n < g.nodes.len(),
    ensures
        tidy(g.after_run(n, now).0),
{
    let after = g.finished(n);
    let last = g.after_run(n, now).0;
    assert(gentle(g, after));
    gentle_keeps(g, after);
    assert(kin(g, after));
    assert forall|m: int| 0 <= m < after.nodes.len() && (
    #[trigger] after.nodes[m]).sched.closed implies context_is_empty(after.nodes[m].ctx) by {
        assert(g.nodes[m].sched.closed);
    }
    assert forall|k: int| 0 <= k < after.main_queue.len() implies #[trigger] after.main_queue[k]
        < after.nodes.len() by {
        if k < g.main_queue.len() {
            assert(after.main_queue[k] == g.main_queue[k]);
        }
    }
    kin_fits(g, after);
    if after.closable(n) {
        closing_call_is_tidy(after, n, now, Task::Closing(n as usize));
    } else {
        assert(gentle(after, last));
        gentle_keeps(after, last);
        assert forall|m: int| 0 <= m < last.nodes.len() && (
        #[trigger] last.nodes[m]).sched.closed implies context_is_empty(last.nodes[m].ctx) by {
            assert(after.nodes[m].sched.closed);
        }
    }
}

proof fn step_is_tidy(g: RunView, now: u64)
    requires
        well_run(g),
        tidy(g),
        g.task is Idle,
    ensures
        tidy(g.stepped(now).0),
{
    let last = g.stepped(now).0;
    if g.main_queue.len() > 0 {
        let n = g.main_queue[0] as int;
        let node = g.nodes[n];
        let taken = RunView {
            main_queue: g.main_queue.drop_first(),
            shared: heads_dequeued(g.shared, node.queues, node.queues.len()),
            ..g
        }.with_node(n, node.fed());
        heads_keep(g.shared, node.queues, node.queues.len());
        assert(node.fits(g.edges.len()));
        assert(!node.sched.closed);
        assert(gentle(g, taken)) by {
            if node.drained() {
                assert(node.fed().queues =~= node.queues);
            }
        }
        gentle_keeps(g, taken);
        assert forall|m: int| 0 <= m < taken.nodes.len() && (
        #[trigger] taken.nodes[m]).sched.closed implies context_is_empty(taken.nodes[m].ctx) by {
            assert(g.nodes[m].sched.closed);
        }
        assert forall|k: int| 0 <= k < taken.main_queue.len() implies #[trigger] taken.main_queue[k]
            < taken.nodes.len() by {
            assert(taken.main_queue[k] == g.main_queue[k + 1]);
        }
        kin_fits(g, taken);
        match taken.nodes[n].type_problem(node.input_types.len(), g.shared.type_names) {
            Some(e) => {
                let stats = node.stats;
                let refused = taken.with_ctx(n, taken.nodes[n].ctx.discarded()).with_stats(
                    n,
                    NodeStats { errors: one_more(stats.errors), ..stats },
                ).failed(e);
                assert(gentle(taken, refused));
                gentle_keeps(taken, refused);
                kin_fits(taken, refused);
                assert forall|m: int| 0 <= m < refused.nodes.len() && (
                #[trigger] refused.nodes[m]).sched.closed implies context_is_empty(
                    refused.nodes[m].ctx,
                ) by {
                    assert(taken.nodes[m].sched.closed);
                }
                after_run_is_tidy(refused, n, now);
            },
            None => {
                assert(gentle(taken, last));
                gentle_keeps(taken, last);
                assert forall|m: int| 0 <= m < last.nodes.len() && (
                #[trigger] last.nodes[m]).sched.closed implies context_is_empty(
                    last.nodes[m].ctx,
                ) by {
                    assert(taken.nodes[m].sched.closed);
                }
            },
        }
    } else {
        swept_is_tidy(g, 0, false, now);
    }
}

proof fn ran_is_tidy(g: RunView, n: int, rc: i32)
    requires
        g.fits(),
        well_wired(g),
        ports_follow(g),
        producers_lead(g),
        spent(g),
        emptied(g),
        0 <= n < g.nodes.len(),
        !g.nodes[n].sched.closed,
    ensures
        ports_follow(g.ran(n, rc)),
        producers_lead(g.ran(n, rc)),
        spent(g.ran(n, rc)),
        emptied(g.ran(n, rc)),
{
    let stats = g.nodes[n].stats;
    let last = g.ran(n, rc);
    if g.outcome(n, rc) is Some {
        assert(gentle(g, last));
    } else {
        let counted = g.with_stats(
            n,
            NodeStats { processed: one_more(stats.processed), ..stats },
        );
        assert(gentle(g, counted));
        assert(kin(g, counted));
        kin_fits(g, counted);
        gentle_keeps(g, counted);
        wiring_stays(g, counted);
        all_flushed_is_gentle(counted, n);
        let after = counted.all_flushed(n);
        gentle_trans(g, counted, after);
        assert(gentle(after, last));
        gentle_trans(g, after, last);
    }
    gentle_keeps(g, last);
    runs_keep_nothing(g, n, rc);
    assert forall|m: int| 0 <= m < last.nodes.len() && (
    #[trigger] last.nodes[m]).sched.closed implies context_is_empty(last.nodes[m].ctx) by {
        assert(last.nodes[m].sched.closed == g.nodes[m].sched.closed);
        assert(g.nodes[m].sched.closed);
    }
}

proof fn timed_is_tidy(g: RunView, n: int, phase: KernelPhase, us: i64)
    requires
        g.fits(),
        tidy(g),
        0 <= n < g.nodes.len(),
    ensures
        tidy(g.timed(n, phase, us)),
        g.timed(n, phase, us).nodes[n].drained() == g.nodes[n].drained(),
{
    let back = g.timed(n, phase, us);
    assert(gentle(g, back));
    gentle_keeps(g, back);
    drained_alike(g.nodes[n], back.nodes[n]);
    assert forall|m: int| 0 <= m < back.nodes.len() && (
    #[trigger] back.nodes[m]).sched.closed implies context_is_empty(back.nodes[m].ctx) by {
        assert(g.nodes[m].sched.closed);
    }
    match g.task {
        Task::Closing(m) | Task::Sweeping(m) => {
            drained_alike(g.nodes[m as int], back.nodes[m as int]);
        },
        _ => {},
    }
}

proof fn call_is_tidy(g: RunView, rc: i32, us: i64, now: u64)
    requires
        well_run(g),
        well_wired(g),
        tidy(g),
    ensures
        tidy(g.resumed(rc, us, now).0),
{
    let last = g.resumed(rc, us, now).0;
    match g.task {
        Task::Processing(n) => {
            let n = n as int;
            let back = g.timed(n, KernelPhase::Process, us);
            keeps_timed(g, n, KernelPhase::Process, us);
            timed_is_tidy(g, n, KernelPhase::Process, us);
            wiring_stays(g, back);
            ran_is_tidy(back, n, rc);
            keeps_ran(back, n, rc);
            after_run_is_tidy(back.ran(n, rc), n, now);
        },
        Task::Closing(n) => {
            let n = n as int;
            let back = g.timed(n, KernelPhase::Close, us);
            keeps_timed(g, n, KernelPhase::Close, us);
            timed_is_tidy(g, n, KernelPhase::Close, us);
            wiring_stays(g, back);
            closed_node_keeps(back, n, rc);
            keeps_closed_node(back, n, rc);
            let shut = back.closed_node(n, rc);
            assert(gentle(shut, last));
            gentle_keeps(shut, last);
            assert forall|m: int| 0 <= m < last.nodes.len() && (
            #[trigger] last.nodes[m]).sched.closed implies context_is_empty(last.nodes[m].ctx) by {
                assert(shut.nodes[m].sched.closed);
            }
        },
        Task::Sweeping(n) => {
            let n = n as int;
            let back = g.timed(n, KernelPhase::Close, us);
            keeps_timed(g, n, KernelPhase::Close, us);
            timed_is_tidy(g, n, KernelPhase::Close, us);
            wiring_stays(g, back);
            closed_node_keeps(back, n, rc);
            keeps_closed_node(back, n, rc);
            swept_is_tidy(back.closed_node(n, rc), n + 1, true, now);
        },
        _ => {},
    }
}

proof fn accepted_is_tidy(g: RunView, edge: int, p: Packet)
    requires
        g.fits(),
        well_wired(g),
        tidy(g),
        0 <= edge < g.edges.len(),
        !g.edges[edge].closed,
    ensures
        tidy(g.accepted(edge, p)),
{
    let marked = g.with_edge(edge, RunEdge { last_sent: p.stamp, ..g.edges[edge] });
    let last = g.accepted(edge, p);
    assert(gentle(g, marked));
    assert(alike(g, marked));
    kin_fits(g, marked);
    gentle_keeps(g, marked);
    wiring_stays(g, marked);
    sent_is_gentle(marked, edge, seq![p]);
    gentle_trans(g, marked, last);
    gentle_keeps(g, last);
    sent_keeps_contexts(marked, edge, seq![p]);
    keeps_sent(marked, edge, seq![p]);
    assert forall|m: int| 0 <= m < last.nodes.len() && (
    #[trigger] last.nodes[m]).sched.closed implies context_is_empty(last.nodes[m].ctx) by {
        assert(last.nodes[m].ctx == marked.nodes[m].ctx);
        assert(g.nodes[m].sched.closed);
    }
    match g.task {
        Task::Closing(m) | Task::Sweeping(m) => {
            assert(last.nodes[m as int].sched.closed == g.nodes[m as int].sched.closed);
            if !g.shared.stopped() {
                gentle_drains(g, last, m as int);
            }
        },
        _ => {},
    }
}

proof fn input_closed_is_tidy(g: RunView, edge: int)
    requires
        g.fits(),
        well_wired(g),
        tidy(g),
        0 <= edge < g.edges.len(),
        edge <= usize::MAX,
        g.graph_inputs.contains(edge as usize),
    ensures
        tidy(g.edge_closed(edge)),
{
    let last = g.edge_closed(edge);
    edge_closed_keeps(g, edge);
    edge_closed_keeps_contexts(g, edge);
    keeps_edge_closed(g, edge);
    assert forall|m: int| 0 <= m < last.nodes.len() && (
    #[trigger] last.nodes[m]).sched.closed implies context_is_empty(last.nodes[m].ctx) by {
        assert(last.nodes[m].ctx == g.nodes[m].ctx);
        assert(g.nodes[m].sched.closed);
    }
    match g.task {
        Task::Closing(m) | Task::Sweeping(m) => {
            assert(last.nodes[m as int].sched == g.nodes[m as int].sched);
        },
        _ => {},
    }
}

/// A graph closes nothing too early and keeps nothing too long: not over a
/// step, not over what follows a kernel call, whatever it returned, and not
/// when a packet is taken or a graph input closed.
pub proof fn graphs_stay_tidy(g: RunView, rc: i32, us: i64, now: u64, edge: usize, p: Packet)
    requires
        well_run(g),
        well_wired(g),
        tidy(g),
        edge < g.edges.len(),
    ensures
        g.task is Idle ==> tidy(g.stepped(now).0),
        tidy(g.resumed(rc, us, now).0),
        !g.edges[edge as int].closed ==> tidy(g.accepted(edge as int, p)),
        g.graph_inputs.contains(edge) ==> tidy(g.edge_closed(edge as int)),
{
    if g.task is Idle {
        step_is_tidy(g, now);
    }
    call_is_tidy(g, rc, us, now);
    if !g.edges[edge as int].closed {
        accepted_is_tidy(g, edge as int, p);
    }
    if g.graph_inputs.contains(edge) {
        input_closed_is_tidy(g, edge as int);
    }
}

/// A graph that has ended holds nothing any more: unless it had to stop, no
/// packet waits at an input port, and no context holds one.
pub proof fn ended_graphs_hold_nothing(g: RunView, n: int)
    requires
        tidy(g),
        g.all_closed(),
        0 <= n < g.nodes.len(),
    ensures
        context_is_empty(g.nodes[n].ctx),
        !g.shared.stopped() ==> forall|i: int|
            0 <= i < g.nodes[n].queues.len() ==> (#[trigger] g.nodes[n].queues[i]).len() == 0,
{
    assert(g.nodes[n].sched.closed);
}

// ------------------------------------------------------------- the beginning

/// The edges of a graph that was built are what its nodes take them for, and
/// nothing is closed.
pub proof fn built_graphs_are_tidy(
    g: GraphView,
    contracts: Seq<ContractView>,
    called: Map<u64, Seq<char>>,
)
    requires
        wiring_problem(g) is None,
        built(g, contracts, called).fits(),
    ensures
        well_wired(built(g, contracts, called)),
        tidy(built(g, contracts, called)),
{
    let b = built(g, contracts, called);
    let ms = places(g);
    let names = edge_names(ms);
    edge_names_distinct(ms);
    assert forall|i: int| 0 <= i < g.nodes.len() implies declared_names(
        (#[trigger] g.nodes[i]).input_ports,
    ).len() <= usize::MAX by {
        assert(b.nodes[i].fits(b.edges.len()));
    }
    assert forall|e: int, k: int|
        0 <= e < b.edges.len() && 0 <= k < b.edges[e].consumers.len() implies {
        let (n, p) = #[trigger] b.edges[e].consumers[k];
        b.nodes[n as int].inputs[p as int] == e
    } by {
        assert(b.edges[e].consumers == consumers_of(ms, names[e]));
        consumers_are_ports(g, names[e], k);
        let (n, p) = b.edges[e].consumers[k];
        assert(declared_names(g.nodes[n as int].input_ports)[p as int] == names[e]);
        built_number(g, contracts, called, names[e], e);
    }
    assert forall|n: int, o: int, m: int, q: int|
        0 <= n < b.nodes.len() && 0 <= o < b.nodes[n].outputs.len() && 0 <= m < b.nodes.len()
            && 0 <= q < b.nodes[m].outputs.len() && #[trigger] b.nodes[n].outputs[o]
            == #[trigger] b.nodes[m].outputs[q] implies n == m by {
        built_output(g, contracts, called, n, o);
        built_output(g, contracts, called, m, q);
        single_producer(g, n, o);
        single_producer(g, m, q);
    }
    assert forall|n: int, o: int|
        0 <= n < b.nodes.len() && 0 <= o
            < b.nodes[n].outputs.len() implies !b.graph_inputs.contains(
        #[trigger] b.nodes[n].outputs[o],
    ) by {
        built_output(g, contracts, called, n, o);
        outputs_come_from_nodes(g, n, o);
        let edge = b.nodes[n].outputs[o];
        let from = declared_names(g.input_ports);
        if b.graph_inputs.contains(edge) {
            let t = b.graph_inputs.index_of(edge);
            assert(b.graph_inputs[t] == edge);
            assert(ms[t] == Mention::Source(from[t]));
            assert(names.contains(from[t]));
            let e = names.index_of(from[t]);
            assert(names[e] == from[t]);
            assert(from.contains(names[edge as int]));
        }
    }
}

/// The number of an edge is the place of its name.
proof fn built_number(
    g: GraphView,
    contracts: Seq<ContractView>,
    called: Map<u64, Seq<char>>,
    name: Seq<char>,
    e: int,
)
    requires
        built(g, contracts, called).fits(),
        0 <= e < edge_names(places(g)).len(),
        edge_names(places(g))[e] == name,
    ensures
        edge_names(places(g)).index_of(name) == e,
{
    let names = edge_names(places(g));
    edge_names_distinct(places(g));
    let t = names.index_of(name);
    assert(names[t] == name);
}

/// An output port leads to the edge of its name.
proof fn built_output(
    g: GraphView,
    contracts: Seq<ContractView>,
    called: Map<u64, Seq<char>>,
    n: int,
    o: int,
)
    requires
        wiring_problem(g) is None,
        built(g, contracts, called).fits(),
        0 <= n < g.nodes.len(),
        0 <= o < built(g, contracts, called).nodes[n].outputs.len(),
    ensures
        ({
            let edge = built(g, contracts, called).nodes[n].outputs[o];
            &&& edge < edge_names(places(g)).len()
            &&& edge_names(places(g))[edge as int] == declared_names(g.nodes[n].output_ports)[o]
        }),
{
    let b = built(g, contracts, called);
    let names = edge_names(places(g));
    let own = declared_names(g.nodes[n].output_ports);
    outputs_are_edges(g, n);
    assert(b.nodes[n].fits(b.edges.len()));
    assert(names.contains(own[o]));
    let e = names.index_of(own[o]);
    assert(names[e] == own[o]);
}

/// Opening a node closes nothing and keeps nothing, whatever its kernel
/// returned.
pub proof fn openings_stay_tidy(g: RunView, n: usize, rc: i32, us: i64, now: u64)
    requires
        g.fits(),
        tidy(g),
        n < g.nodes.len(),
        !g.nodes[n as int].sched.closed,
        n + 1 < g.nodes.len() ==> !g.nodes[n + 1].sched.closed,
    ensures
        tidy(g.opening(n as int, now)),
        ({
            let back = g.timed(n as int, KernelPhase::Open, us);
            &&& tidy(back.open_failed(n as int, rc))
            &&& tidy(back.open_done(n as int).opening(n + 1, now))
        }),
{
    let first = g.opening(n as int, now);
    assert(gentle(g, first));
    gentle_keeps(g, first);
    assert forall|m: int| 0 <= m < first.nodes.len() && (
    #[trigger] first.nodes[m]).sched.closed implies context_is_empty(first.nodes[m].ctx) by {
        assert(g.nodes[m].sched.closed);
    }
    let back = g.timed(n as int, KernelPhase::Open, us);
    keeps_timed(g, n as int, KernelPhase::Open, us);
    timed_is_tidy(g, n as int, KernelPhase::Open, us);
    let failed = back.open_failed(n as int, rc);
    assert(gentle(back, failed));
    gentle_keeps(back, failed);
    assert forall|m: int| 0 <= m < failed.nodes.len() && (
    #[trigger] failed.nodes[m]).sched.closed implies context_is_empty(failed.nodes[m].ctx) by {
        assert(back.nodes[m].sched.closed);
    }
    let open = back.open_done(n as int).opening(n + 1, now);
    assert(gentle(back, open));
    gentle_keeps(back, open);
    assert forall|m: int| 0 <= m < open.nodes.len() && (
    #[trigger] open.nodes[m]).sched.closed implies context_is_empty(open.nodes[m].ctx) by {
        assert(back.nodes[m].sched.closed);
    }
}

proof fn nodes_scheduled_is_gentle(g: RunView, k: nat)
    requires
        k <= g.nodes.len(),
    ensures
        gentle(g, g.nodes_scheduled(k)),
        same_contexts(g, g.nodes_scheduled(k)),
        g.nodes_scheduled(k).task == g.task,
    decreases k,
{
    if k > 0 {
        let before = g.nodes_scheduled((k - 1) as nat);
        let after = g.nodes_scheduled(k);
        nodes_scheduled_is_gentle(g, (k - 1) as nat);
        assert(gentle(before, after));
        gentle_trans(g, before, after);
        assert forall|n: int| 0 <= n < g.nodes.len() implies (#[trigger] after.nodes[n]).ctx
            == g.nodes[n].ctx && after.nodes[n].sched.closed == g.nodes[n].sched.closed by {
            assert(before.nodes[n].ctx == g.nodes[n].ctx);
        }
    } else {
        assert(gentle(g, g.nodes_scheduled(k)));
    }
}

proof fn gentle_is_tidy(a: RunView, b: RunView)
    requires
        a.fits(),
        tidy(a),
        gentle(a, b),
        same_contexts(a, b),
        a.task == b.task,
    ensures
        tidy(b),
{
    gentle_keeps(a, b);
    assert forall|m: int| 0 <= m < b.nodes.len() && (
    #[trigger] b.nodes[m]).sched.closed implies context_is_empty(b.nodes[m].ctx) by {
        assert(b.nodes[m].ctx == a.nodes[m].ctx);
        assert(a.nodes[m].sched.closed);
    }
    match a.task {
        Task::Closing(m) | Task::Sweeping(m) => {
            assert(b.nodes[m as int].sched.closed == a.nodes[m as int].sched.closed);
            if !a.shared.stopped() {
                gentle_drains(a, b, m as int);
            }
        },
        _ => {},
    }
}

/// Nor does what the host does: to pause and to go on, to cancel, to add a
/// poller and to take a packet from one.
pub proof fn hosts_stay_tidy(g: RunView, edge: int, index: int)
    requires
        g.fits(),
        tidy(g),
        0 <= edge < g.edges.len(),
    ensures
        tidy(RunView { paused: true, ..g }),
        tidy((RunView { paused: false, ..g }).nodes_scheduled(g.nodes.len())),
        tidy(RunView { shared: (SharedView { cancelled: true, ..g.shared }), ..g }),
        tidy(g.polled(edge)),
        0 <= index < g.edges[edge].pollers.len() ==> tidy(g.popped(edge, index)),
{
    let paused = RunView { paused: true, ..g };
    assert(gentle(g, paused));
    gentle_is_tidy(g, paused);
    let awake = RunView { paused: false, ..g };
    let after = awake.nodes_scheduled(g.nodes.len());
    assert(gentle(g, awake));
    nodes_scheduled_is_gentle(awake, g.nodes.len());
    gentle_trans(g, awake, after);
    gentle_is_tidy(g, after);
    let cancelled = RunView { shared: (SharedView { cancelled: true, ..g.shared }), ..g };
    assert(gentle(g, cancelled));
    gentle_is_tidy(g, cancelled);
    assert(gentle(g, g.polled(edge)));
    gentle_is_tidy(g, g.polled(edge));
    if 0 <= index < g.edges[edge].pollers.len() {
        assert(gentle(g, g.popped(edge, index)));
        gentle_is_tidy(g, g.popped(edge, index));
    }
}

} // verus!

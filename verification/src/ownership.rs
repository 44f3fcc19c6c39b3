//! Which packets a graph holds, and that it lets go of them.

use crate::context::ContextView;
use crate::engine::{keeps_ran, keeps_timed};
use crate::graph::{alike, keeps_dispatched, kin, kin_fits, queue_views, Edge, Graph};
use crate::packet::{no_packets, no_slots, packet_lists, Packet};
use crate::run_state::{
    behind_head, head, heads_dequeued, one_more, KernelPhase, NodeSched, NodeStats, PollerView,
    RunEdge, RunNode, RunView, Task,
};
use crate::schedule::{keeps_all_flushed, keeps_edges_closed, keeps_flushed};
use crate::text_map::TextMap;
use std::collections::VecDeque;
use vstd::prelude::*;

verus! {

// -------------------------------------------------------------- what is held

/// Whether some lists hold nothing but packets of a set.
pub open spec fn lists_within(lists: Seq<Seq<Packet>>, s: Set<Packet>) -> bool {
    forall|i: int, k: int|
        0 <= i < lists.len() && 0 <= k < lists[i].len() ==> s.contains(#[trigger] lists[i][k])
}

/// Whether a list holds nothing but packets of a set.
pub open spec fn list_within(list: Seq<Packet>, s: Set<Packet>) -> bool {
    forall|k: int| 0 <= k < list.len() ==> s.contains(#[trigger] list[k])
}

/// Whether all named packets belong to a set.
pub open spec fn named_within(named: Map<Seq<char>, Packet>, s: Set<Packet>) -> bool {
    forall|name: Seq<char>| #[trigger] named.contains_key(name) ==> s.contains(named[name])
}

/// Whether a context holds nothing but packets of a set.
pub open spec fn context_within(ctx: ContextView, s: Set<Packet>) -> bool {
    &&& forall|i: int|
        0 <= i < ctx.inputs.len() && (#[trigger] ctx.inputs[i]) is Some ==> s.contains(
            ctx.inputs[i]->Some_0,
        )
    &&& lists_within(ctx.batches, s)
    &&& lists_within(ctx.staging, s)
    &&& named_within(ctx.side_packets, s)
}

/// Whether a node holds nothing but packets of a set.
pub open spec fn node_within(node: RunNode, s: Set<Packet>) -> bool {
    lists_within(node.queues, s) && context_within(node.ctx, s)
}

/// Whether an edge holds nothing but packets of a set.
pub open spec fn edge_within(edge: RunEdge, s: Set<Packet>) -> bool {
    forall|i: int|
        0 <= i < edge.pollers.len() ==> list_within((#[trigger] edge.pollers[i]).queue, s)
}

/// Whether a graph holds nothing but packets of a set.
pub open spec fn held_within(g: RunView, s: Set<Packet>) -> bool {
    &&& forall|n: int| 0 <= n < g.nodes.len() ==> node_within(#[trigger] g.nodes[n], s)
    &&& forall|e: int| 0 <= e < g.edges.len() ==> edge_within(#[trigger] g.edges[e], s)
    &&& forall|k: int| 0 <= k < g.outbox.len() ==> s.contains((#[trigger] g.outbox[k]).packet)
    &&& named_within(g.side_packets, s)
}

proof fn all_queued_within(
    g: RunView,
    edge: int,
    node: int,
    port: int,
    packets: Seq<Packet>,
    s: Set<Packet>,
)
    requires
        0 <= edge < g.edges.len(),
        0 <= node < g.nodes.len(),
        0 <= port < g.nodes[node].queues.len(),
        held_within(g, s),
        list_within(packets, s),
    ensures
        held_within(g.all_queued(edge, node, port, packets), s),
        g.all_queued(edge, node, port, packets).nodes.len() == g.nodes.len(),
        g.all_queued(edge, node, port, packets).edges.len() == g.edges.len(),
        forall|n: int|
            0 <= n < g.nodes.len() ==> (#[trigger] g.all_queued(
                edge,
                node,
                port,
                packets,
            ).nodes[n]).queues.len() == g.nodes[n].queues.len(),
    decreases packets.len(),
{
    if packets.len() > 0 {
        let before = g.all_queued(edge, node, port, packets.drop_last());
        let after = g.all_queued(edge, node, port, packets);
        assert(list_within(packets.drop_last(), s)) by {
            assert forall|k: int| 0 <= k < packets.drop_last().len() implies s.contains(
                #[trigger] packets.drop_last()[k],
            ) by {
                assert(packets.drop_last()[k] == packets[k]);
            }
        }
        all_queued_within(g, edge, node, port, packets.drop_last(), s);
        assert(s.contains(packets[packets.len() - 1]));
        let p = packets.last();
        let old_node = before.nodes[node];
        let q = old_node.queues[port];
        let new_node = after.nodes[node];
        assert(node_within(old_node, s));
        assert(before.nodes[node].queues.len() == g.nodes[node].queues.len());
        assert(lists_within(new_node.queues, s)) by {
            assert forall|i: int, k: int|
                0 <= i < new_node.queues.len() && 0 <= k
                    < new_node.queues[i].len() implies s.contains(
                #[trigger] new_node.queues[i][k],
            ) by {
                if i != port {
                    assert(new_node.queues[i] == old_node.queues[i]);
                    assert(s.contains(old_node.queues[i][k]));
                } else if k == new_node.queues[i].len() - 1 {
                    assert(new_node.queues[i][k] == p);
                } else if new_node.queues[i].len() == q.len() {
                    assert(new_node.queues[i][k] == old_node.queues[i][k + 1]);
                } else {
                    assert(new_node.queues[i][k] == old_node.queues[i][k]);
                }
            }
        }
        assert(node_within(new_node, s));
        assert(after.edges[edge].pollers == before.edges[edge].pollers);
        assert(edge_within(before.edges[edge], s));
        assert forall|e: int| 0 <= e < after.edges.len() implies edge_within(
            #[trigger] after.edges[e],
            s,
        ) by {
            assert(edge_within(before.edges[e], s));
        }
        assert forall|n: int| 0 <= n < after.nodes.len() implies node_within(
            #[trigger] after.nodes[n],
            s,
        ) by {
            assert(node_within(before.nodes[n], s));
        }
    }
}

proof fn consumed_within(g: RunView, edge: int, packets: Seq<Packet>, k: nat, s: Set<Packet>)
    requires
        g.fits(),
        0 <= edge < g.edges.len(),
        k <= g.edges[edge].consumers.len(),
        held_within(g, s),
        list_within(packets, s),
    ensures
        held_within(g.consumed(edge, packets, k), s),
        g.consumed(edge, packets, k).nodes.len() == g.nodes.len(),
        g.consumed(edge, packets, k).edges.len() == g.edges.len(),
        forall|n: int|
            0 <= n < g.nodes.len() ==> (#[trigger] g.consumed(
                edge,
                packets,
                k,
            ).nodes[n]).queues.len() == g.nodes[n].queues.len(),
    decreases k,
{
    if k > 0 {
        let before = g.consumed(edge, packets, (k - 1) as nat);
        consumed_within(g, edge, packets, (k - 1) as nat, s);
        let (node, port) = g.edges[edge].consumers[k - 1];
        assert(g.nodes[node as int].fits(g.edges.len()));
        assert(before.nodes[node as int].queues.len() == g.nodes[node as int].queues.len());
        all_queued_within(before, edge, node as int, port as int, packets, s);
        let now = before.all_queued(edge, node as int, port as int, packets);
        assert(g.consumed(edge, packets, k).nodes == now.nodes);
        assert(g.consumed(edge, packets, k).edges == now.edges);
        assert forall|n: int| 0 <= n < g.nodes.len() implies (#[trigger] g.consumed(
            edge,
            packets,
            k,
        ).nodes[n]).queues.len() == g.nodes[n].queues.len() by {
            assert(now.nodes[n].queues.len() == before.nodes[n].queues.len());
        }
    }
}

proof fn notices_within(observers: Seq<u64>, packets: Seq<Packet>, k: nat, s: Set<Packet>)
    requires
        k <= observers.len(),
        list_within(packets, s),
    ensures
        forall|j: int|
            0 <= j < RunView::notices(observers, packets, k).len() ==> s.contains(
                (#[trigger] RunView::notices(observers, packets, k)[j]).packet,
            ),
    decreases k,
{
    if k > 0 {
        let before = RunView::notices(observers, packets, (k - 1) as nat);
        let now = RunView::notices(observers, packets, k);
        notices_within(observers, packets, (k - 1) as nat, s);
        assert forall|j: int| 0 <= j < now.len() implies s.contains(
            (#[trigger] now[j]).packet,
        ) by {
            if j < before.len() {
                assert(now[j] == before[j]);
            } else {
                assert(now[j].packet == packets[j - before.len()]);
            }
        }
    }
}

/// Whether two states hold the same packets in the same places.
spec fn same_hold(a: RunView, b: RunView) -> bool {
    &&& a.nodes.len() == b.nodes.len()
    &&& a.edges.len() == b.edges.len()
    &&& a.outbox == b.outbox
    &&& a.side_packets == b.side_packets
    &&& forall|n: int|
        0 <= n < a.nodes.len() ==> (#[trigger] b.nodes[n]).queues == a.nodes[n].queues
            && b.nodes[n].ctx == a.nodes[n].ctx
    &&& forall|e: int|
        0 <= e < a.edges.len() ==> (#[trigger] b.edges[e]).pollers.len() == a.edges[e].pollers.len()
            && forall|i: int|
            0 <= i < a.edges[e].pollers.len() ==> (#[trigger] b.edges[e].pollers[i]).queue
                == a.edges[e].pollers[i].queue
}

proof fn same_hold_within(a: RunView, b: RunView, s: Set<Packet>)
    requires
        same_hold(a, b),
        held_within(a, s),
    ensures
        held_within(b, s),
{
    assert forall|n: int| 0 <= n < b.nodes.len() implies node_within(#[trigger] b.nodes[n], s) by {
        assert(node_within(a.nodes[n], s));
        assert(b.nodes[n].queues == a.nodes[n].queues);
    }
    assert forall|e: int| 0 <= e < b.edges.len() implies edge_within(#[trigger] b.edges[e], s) by {
        assert(edge_within(a.edges[e], s));
        assert forall|i: int| 0 <= i < b.edges[e].pollers.len() implies list_within(
            (#[trigger] b.edges[e].pollers[i]).queue,
            s,
        ) by {
            assert(list_within(a.edges[e].pollers[i].queue, s));
        }
    }
}

proof fn same_hold_trans(a: RunView, b: RunView, c: RunView)
    requires
        same_hold(a, b),
        same_hold(b, c),
    ensures
        same_hold(a, c),
{
    assert forall|n: int| 0 <= n < a.nodes.len() implies (#[trigger] c.nodes[n]).queues
        == a.nodes[n].queues && c.nodes[n].ctx == a.nodes[n].ctx by {
        assert(b.nodes[n].queues == a.nodes[n].queues);
    }
    assert forall|e: int| 0 <= e < a.edges.len() implies (#[trigger] c.edges[e]).pollers.len()
        == a.edges[e].pollers.len() && forall|i: int|
        0 <= i < a.edges[e].pollers.len() ==> (#[trigger] c.edges[e].pollers[i]).queue
            == a.edges[e].pollers[i].queue by {
        assert(b.edges[e].pollers.len() == a.edges[e].pollers.len());
        assert forall|i: int| 0 <= i < a.edges[e].pollers.len() implies (
        #[trigger] c.edges[e].pollers[i]).queue == a.edges[e].pollers[i].queue by {
            assert(b.edges[e].pollers[i].queue == a.edges[e].pollers[i].queue);
        }
    }
}

proof fn all_scheduled_holds_the_same(g: RunView, edge: int, k: nat)
    requires
        g.fits(),
        0 <= edge < g.edges.len(),
        k <= g.edges[edge].consumers.len(),
    ensures
        same_hold(g, g.all_scheduled(edge, k)),
    decreases k,
{
    if k > 0 {
        let before = g.all_scheduled(edge, (k - 1) as nat);
        all_scheduled_holds_the_same(g, edge, (k - 1) as nat);
        assert(g.edges[edge].consumers[k - 1].0 < g.nodes.len());
        assert(same_hold(before, g.all_scheduled(edge, k)));
        same_hold_trans(g, before, g.all_scheduled(edge, k));
    }
}

proof fn sent_within(g: RunView, edge: int, packets: Seq<Packet>, s: Set<Packet>)
    requires
        g.fits(),
        0 <= edge < g.edges.len(),
        held_within(g, s),
        list_within(packets, s),
    ensures
        held_within(g.sent(edge, packets), s),
{
    let e = g.edges[edge];
    let told = RunView {
        outbox: g.outbox + RunView::notices(e.observers, packets, e.observers.len()),
        ..g
    }.with_edge(
        edge,
        RunEdge {
            pollers: Seq::new(
                e.pollers.len(),
                |i: int| PollerView { queue: e.pollers[i].queue + packets, ..e.pollers[i] },
            ),
            ..e
        },
    );
    notices_within(e.observers, packets, e.observers.len(), s);
    assert(edge_within(e, s));
    assert(edge_within(told.edges[edge], s)) by {
        assert forall|i: int| 0 <= i < e.pollers.len() implies list_within(
            (#[trigger] told.edges[edge].pollers[i]).queue,
            s,
        ) by {
            assert(list_within(e.pollers[i].queue, s));
            let both = e.pollers[i].queue + packets;
            assert forall|k: int| 0 <= k < both.len() implies s.contains(#[trigger] both[k]) by {
                if k < e.pollers[i].queue.len() {
                    assert(both[k] == e.pollers[i].queue[k]);
                } else {
                    assert(both[k] == packets[k - e.pollers[i].queue.len()]);
                }
            }
        }
    }
    assert forall|k: int| 0 <= k < told.outbox.len() implies s.contains(
        (#[trigger] told.outbox[k]).packet,
    ) by {
        if k < g.outbox.len() {
            assert(told.outbox[k] == g.outbox[k]);
        } else {
            assert(told.outbox[k] == RunView::notices(
                e.observers,
                packets,
                e.observers.len(),
            )[k - g.outbox.len()]);
        }
    }
    assert forall|i: int| 0 <= i < told.edges.len() implies edge_within(
        #[trigger] told.edges[i],
        s,
    ) by {
        assert(edge_within(g.edges[i], s));
    }
    assert forall|n: int| 0 <= n < told.nodes.len() implies node_within(
        #[trigger] told.nodes[n],
        s,
    ) by {
        assert(node_within(g.nodes[n], s));
    }
    assert(held_within(told, s));
    assert(kin(g, told));
    kin_fits(g, told);
    consumed_within(told, edge, packets, e.consumers.len(), s);
    keeps_dispatched(g, edge, packets);
    let after = g.dispatched(edge, packets);
    assert(after.edges[edge].consumers == e.consumers);
    all_scheduled_holds_the_same(after, edge, e.consumers.len());
    same_hold_within(after, g.sent(edge, packets), s);
}

proof fn node_replaced_within(g: RunView, n: int, node: RunNode, s: Set<Packet>)
    requires
        0 <= n < g.nodes.len(),
        held_within(g, s),
        node_within(node, s),
    ensures
        held_within(g.with_node(n, node), s),
{
    let after = g.with_node(n, node);
    assert forall|m: int| 0 <= m < after.nodes.len() implies node_within(
        #[trigger] after.nodes[m],
        s,
    ) by {
        assert(node_within(g.nodes[m], s));
    }
    assert forall|e: int| 0 <= e < after.edges.len() implies edge_within(
        #[trigger] after.edges[e],
        s,
    ) by {
        assert(edge_within(g.edges[e], s));
    }
}

/// Whatever a context drops, it holds nothing new.
proof fn emptied_contexts_are_within(ctx: ContextView, s: Set<Packet>)
    requires
        context_within(ctx, s),
    ensures
        context_within(ctx.fresh(), s),
        context_within(ctx.released(), s),
        context_within(ctx.discarded(), s),
{
    assert forall|i: int|
        0 <= i < ctx.inputs.len() && (#[trigger] ctx.discarded().inputs[i]) is Some implies s.contains(
        ctx.discarded().inputs[i]->Some_0,
    ) by {
        assert(ctx.inputs[i] is Some);
    }
}

proof fn flushed_within(g: RunView, n: int, staging: Seq<Seq<Packet>>, k: nat, s: Set<Packet>)
    requires
        g.fits(),
        0 <= n < g.nodes.len(),
        k <= g.nodes[n].outputs.len(),
        k <= staging.len(),
        held_within(g, s),
        lists_within(staging, s),
    ensures
        held_within(g.flushed(n, staging, k), s),
    decreases k,
{
    if k > 0 {
        let before = g.flushed(n, staging, (k - 1) as nat);
        flushed_within(g, n, staging, (k - 1) as nat, s);
        keeps_flushed(g, n, staging, (k - 1) as nat);
        assert(g.nodes[n].fits(g.edges.len()));
        if staging[k - 1].len() > 0 {
            assert(list_within(staging[k - 1], s)) by {
                assert forall|j: int| 0 <= j < staging[k - 1].len() implies s.contains(
                    #[trigger] staging[k - 1][j],
                ) by {}
            }
            sent_within(before, g.nodes[n].outputs[k - 1] as int, staging[k - 1], s);
        }
    }
}

proof fn all_flushed_within(g: RunView, n: int, s: Set<Packet>)
    requires
        g.fits(),
        0 <= n < g.nodes.len(),
        held_within(g, s),
    ensures
        held_within(g.all_flushed(n), s),
{
    let ctx = g.nodes[n].ctx;
    let cleared = g.with_ctx(
        n,
        ContextView { staging: no_packets(ctx.staging.len()), ..ctx },
    );
    assert(node_within(g.nodes[n], s));
    assert(context_within(cleared.nodes[n].ctx, s));
    node_replaced_within(g, n, cleared.nodes[n], s);
    assert(kin(g, cleared));
    kin_fits(g, cleared);
    assert(g.nodes[n].fits(g.edges.len()));
    flushed_within(cleared, n, ctx.staging, g.nodes[n].outputs.len(), s);
}

proof fn released_within(g: RunView, n: int, s: Set<Packet>)
    requires
        0 <= n < g.nodes.len(),
        held_within(g, s),
    ensures
        held_within(g.with_ctx(n, g.nodes[n].ctx.released()), s),
{
    assert(node_within(g.nodes[n], s));
    emptied_contexts_are_within(g.nodes[n].ctx, s);
    node_replaced_within(g, n, RunNode { ctx: g.nodes[n].ctx.released(), ..g.nodes[n] }, s);
}

proof fn discarded_within(g: RunView, n: int, s: Set<Packet>)
    requires
        0 <= n < g.nodes.len(),
        held_within(g, s),
    ensures
        held_within(
            g.with_ctx(n, (ContextView { error_msg: None, ..g.nodes[n].ctx }).discarded()),
            s,
        ),
{
    let quiet = ContextView { error_msg: None, ..g.nodes[n].ctx };
    assert(node_within(g.nodes[n], s));
    assert(context_within(quiet, s));
    emptied_contexts_are_within(quiet, s);
    node_replaced_within(g, n, RunNode { ctx: quiet.discarded(), ..g.nodes[n] }, s);
}

proof fn ran_within(g: RunView, n: int, rc: i32, s: Set<Packet>)
    requires
        g.fits(),
        0 <= n < g.nodes.len(),
        held_within(g, s),
    ensures
        held_within(g.ran(n, rc), s),
{
    let ctx = g.nodes[n].ctx;
    let stats = g.nodes[n].stats;
    if g.outcome(n, rc) is Some {
        let dropped = g.with_ctx(n, (ContextView { error_msg: None, ..ctx }).discarded());
        discarded_within(g, n, s);
        let after = dropped.with_stats(
            n,
            NodeStats { errors: one_more(stats.errors), ..stats },
        ).failed(g.outcome(n, rc)->Some_0);
        assert(same_hold(dropped, after));
        same_hold_within(dropped, after, s);
        released_within(after, n, s);
    } else {
        let counted = g.with_stats(
            n,
            NodeStats { processed: one_more(stats.processed), ..stats },
        );
        assert(same_hold(g, counted));
        same_hold_within(g, counted, s);
        assert(kin(g, counted));
        kin_fits(g, counted);
        all_flushed_within(counted, n, s);
        keeps_all_flushed(counted, n);
        released_within(counted.all_flushed(n), n, s);
    }
}

proof fn called_within(g: RunView, n: int, now: u64, task: Task, s: Set<Packet>)
    requires
        0 <= n < g.nodes.len(),
        held_within(g, s),
    ensures
        held_within(g.closing(n).calling(n, now, task), s),
{
    let shut = g.closing(n);
    assert(node_within(g.nodes[n], s));
    emptied_contexts_are_within(g.nodes[n].ctx, s);
    assert(context_within(shut.nodes[n].ctx, s));
    node_replaced_within(g, n, shut.nodes[n], s);
    assert(same_hold(shut, shut.calling(n, now, task)));
    same_hold_within(shut, shut.calling(n, now, task), s);
}

proof fn after_run_within(g: RunView, n: int, now: u64, s: Set<Packet>)
    requires
        0 <= n < g.nodes.len(),
        held_within(g, s),
    ensures
        held_within(g.after_run(n, now).0, s),
{
    let after = g.finished(n);
    assert(same_hold(g, after));
    same_hold_within(g, after, s);
    if after.closable(n) {
        called_within(after, n, now, Task::Closing(n as usize), s);
    } else {
        assert(same_hold(after, after.resting()));
        same_hold_within(after, after.resting(), s);
    }
}

proof fn swept_within(g: RunView, n: int, progressed: bool, now: u64, s: Set<Packet>)
    requires
        0 <= n,
        held_within(g, s),
    ensures
        held_within(g.swept(n, progressed, now).0, s),
    decreases g.nodes.len() - n,
{
    if n >= g.nodes.len() {
        assert(same_hold(g, g.swept(n, progressed, now).0));
        same_hold_within(g, g.swept(n, progressed, now).0, s);
    } else if g.closable(n) {
        called_within(g, n, now, Task::Sweeping(n as usize), s);
    } else {
        swept_within(g, n + 1, progressed, now, s);
    }
}

proof fn ports_closed_hold_the_same(g: RunView, ports: Seq<(usize, usize)>, k: nat)
    requires
        k <= ports.len(),
        forall|i: int| 0 <= i < ports.len() ==> (#[trigger] ports[i]).0 < g.nodes.len(),
    ensures
        same_hold(g, g.ports_closed(ports, k)),
    decreases k,
{
    if k > 0 {
        let before = g.ports_closed(ports, (k - 1) as nat);
        ports_closed_hold_the_same(g, ports, (k - 1) as nat);
        assert(ports[k - 1].0 < g.nodes.len());
        assert(same_hold(before, g.ports_closed(ports, k)));
        same_hold_trans(g, before, g.ports_closed(ports, k));
    }
}

proof fn edge_closed_holds_the_same(g: RunView, edge: int)
    requires
        g.fits(),
        0 <= edge < g.edges.len(),
    ensures
        same_hold(g, g.edge_closed(edge)),
{
    let e = g.edges[edge];
    if !e.closed {
        let marked = g.with_edge(
            edge,
            RunEdge {
                closed: true,
                pollers: Seq::new(
                    e.pollers.len(),
                    |i: int| PollerView { closed: true, ..e.pollers[i] },
                ),
                ..e
            },
        );
        assert(same_hold(g, marked));
        assert forall|i: int| 0 <= i < e.consumers.len() implies (#[trigger] e.consumers[i]).0
            < marked.nodes.len() by {
            let (node, port) = g.edges[edge].consumers[i];
            assert(node < g.nodes.len());
        }
        ports_closed_hold_the_same(marked, e.consumers, e.consumers.len());
        same_hold_trans(g, marked, g.edge_closed(edge));
    }
}

proof fn edges_closed_hold_the_same(g: RunView, edges: Seq<usize>, k: nat)
    requires
        g.fits(),
        k <= edges.len(),
        forall|i: int| 0 <= i < edges.len() ==> #[trigger] edges[i] < g.edges.len(),
    ensures
        same_hold(g, g.edges_closed(edges, k)),
    decreases k,
{
    if k > 0 {
        let before = g.edges_closed(edges, (k - 1) as nat);
        edges_closed_hold_the_same(g, edges, (k - 1) as nat);
        keeps_edges_closed(g, edges, (k - 1) as nat);
        assert(edges[k - 1] < g.edges.len());
        edge_closed_holds_the_same(before, edges[k - 1] as int);
        same_hold_trans(g, before, g.edges_closed(edges, k));
    }
}

proof fn closed_node_within(g: RunView, n: int, rc: i32, s: Set<Packet>)
    requires
        g.fits(),
        0 <= n < g.nodes.len(),
        held_within(g, s),
    ensures
        held_within(g.closed_node(n, rc), s),
{
    let ctx = g.nodes[n].ctx;
    let outs = g.nodes[n].outputs;
    let after = if g.outcome(n, rc) is Some {
        g.with_ctx(n, (ContextView { error_msg: None, ..ctx }).discarded()).failed(
            g.outcome(n, rc)->Some_0,
        )
    } else {
        g.all_flushed(n)
    };
    if g.outcome(n, rc) is Some {
        let dropped = g.with_ctx(n, (ContextView { error_msg: None, ..ctx }).discarded());
        discarded_within(g, n, s);
        assert(same_hold(dropped, after));
        same_hold_within(dropped, after, s);
        assert(kin(g, after));
        kin_fits(g, after);
    } else {
        all_flushed_within(g, n, s);
        keeps_all_flushed(g, n);
    }
    let released = after.with_ctx(n, after.nodes[n].ctx.released());
    released_within(after, n, s);
    let marked = released.with_sched(
        n,
        NodeSched { closed: true, ..released.nodes[n].sched },
    );
    assert(same_hold(released, marked));
    same_hold_within(released, marked, s);
    assert(kin(after, marked));
    kin_fits(after, marked);
    assert(g.nodes[n].fits(g.edges.len()));
    edges_closed_hold_the_same(marked, outs, outs.len());
    same_hold_within(marked, g.closed_node(n, rc), s);
}

proof fn step_within(g: RunView, now: u64, s: Set<Packet>)
    requires
        g.fits(),
        held_within(g, s),
    ensures
        held_within(g.stepped(now).0, s),
{
    let last = g.stepped(now).0;
    if g.main_queue.len() > 0 {
        let n = g.main_queue[0] as int;
        let node = g.nodes[n];
        let line = RunView {
            main_queue: g.main_queue.drop_first(),
            shared: heads_dequeued(g.shared, node.queues, node.queues.len()),
            ..g
        };
        let taken = line.with_node(n, node.fed());
        assert(node.fits(g.edges.len()));
        assert(same_hold(g, line));
        same_hold_within(g, line, s);
        fed_within(node, s);
        node_replaced_within(line, n, node.fed(), s);
        match taken.nodes[n].type_problem(node.input_types.len(), g.shared.type_names) {
            Some(e) => {
                let stats = node.stats;
                let dropped = taken.with_ctx(n, taken.nodes[n].ctx.discarded());
                emptied_contexts_are_within(node.fed().ctx, s);
                node_replaced_within(
                    taken,
                    n,
                    RunNode { ctx: node.fed().ctx.discarded(), ..node.fed() },
                    s,
                );
                let refused = dropped.with_stats(
                    n,
                    NodeStats { errors: one_more(stats.errors), ..stats },
                ).failed(e);
                assert(same_hold(dropped, refused));
                same_hold_within(dropped, refused, s);
                after_run_within(refused, n, now, s);
            },
            None => {
                assert(same_hold(taken, last));
                same_hold_within(taken, last, s);
            },
        }
    } else {
        swept_within(g, 0, false, now, s);
    }
}

proof fn fed_within(node: RunNode, s: Set<Packet>)
    requires
        node.queues.len() == node.ctx.inputs.len(),
        node_within(node, s),
    ensures
        node_within(node.fed(), s),
{
    let fed = node.fed();
    emptied_contexts_are_within(node.ctx, s);
    assert forall|i: int, k: int|
        0 <= i < fed.queues.len() && 0 <= k < fed.queues[i].len() implies s.contains(
        #[trigger] fed.queues[i][k],
    ) by {
        assert(fed.queues[i] == behind_head(node.queues[i]));
        assert(fed.queues[i][k] == node.queues[i][k + 1]);
    }
    assert forall|i: int|
        0 <= i < fed.ctx.inputs.len() && (#[trigger] fed.ctx.inputs[i]) is Some implies s.contains(
        fed.ctx.inputs[i]->Some_0,
    ) by {
        assert(fed.ctx.inputs[i] == head(node.queues[i]));
        assert(s.contains(node.queues[i][0]));
    }
    assert(fed.ctx.batches == node.ctx.fresh().batches);
    assert(fed.ctx.staging == node.ctx.fresh().staging);
}

proof fn call_within(g: RunView, rc: i32, us: i64, now: u64, s: Set<Packet>)
    requires
        g.fits(),
        held_within(g, s),
    ensures
        held_within(g.resumed(rc, us, now).0, s),
{
    let last = g.resumed(rc, us, now).0;
    match g.task {
        Task::Processing(n) => {
            let n = n as int;
            let back = g.timed(n, KernelPhase::Process, us);
            keeps_timed(g, n, KernelPhase::Process, us);
            assert(same_hold(g, back));
            same_hold_within(g, back, s);
            ran_within(back, n, rc, s);
            keeps_ran(back, n, rc);
            after_run_within(back.ran(n, rc), n, now, s);
        },
        Task::Closing(n) => {
            let n = n as int;
            let back = g.timed(n, KernelPhase::Close, us);
            keeps_timed(g, n, KernelPhase::Close, us);
            assert(same_hold(g, back));
            same_hold_within(g, back, s);
            closed_node_within(back, n, rc, s);
            assert(same_hold(back.closed_node(n, rc), last));
            same_hold_within(back.closed_node(n, rc), last, s);
        },
        Task::Sweeping(n) => {
            let n = n as int;
            let back = g.timed(n, KernelPhase::Close, us);
            keeps_timed(g, n, KernelPhase::Close, us);
            assert(same_hold(g, back));
            same_hold_within(g, back, s);
            closed_node_within(back, n, rc, s);
            swept_within(back.closed_node(n, rc), n + 1, true, now, s);
        },
        _ => {},
    }
}

/// A graph makes no packets: what it holds after a step, after a kernel call
/// returned, after a packet was taken or after a graph input was closed, it
/// held before, but for the packet that was taken.
pub proof fn graphs_make_no_packets(
    g: RunView,
    rc: i32,
    us: i64,
    now: u64,
    edge: int,
    p: Packet,
    s: Set<Packet>,
)
    requires
        g.fits(),
        0 <= edge < g.edges.len(),
        held_within(g, s),
    ensures
        held_within(g.stepped(now).0, s),
        held_within(g.resumed(rc, us, now).0, s),
        held_within(g.accepted(edge, p), s.insert(p)),
        held_within(g.edge_closed(edge), s),
{
    step_within(g, now, s);
    call_within(g, rc, us, now, s);
    let more = s.insert(p);
    within_more(g, s, more);
    let marked = g.with_edge(edge, RunEdge { last_sent: p.stamp, ..g.edges[edge] });
    assert(same_hold(g, marked));
    same_hold_within(g, marked, more);
    assert(alike(g, marked));
    kin_fits(g, marked);
    sent_within(marked, edge, seq![p], more);
    edge_closed_holds_the_same(g, edge);
    same_hold_within(g, g.edge_closed(edge), s);
}

proof fn within_more(g: RunView, s: Set<Packet>, more: Set<Packet>)
    requires
        held_within(g, s),
        s.subset_of(more),
    ensures
        held_within(g, more),
{
    assert forall|n: int| 0 <= n < g.nodes.len() implies node_within(
        #[trigger] g.nodes[n],
        more,
    ) by {
        assert(node_within(g.nodes[n], s));
    }
    assert forall|e: int| 0 <= e < g.edges.len() implies edge_within(
        #[trigger] g.edges[e],
        more,
    ) by {
        assert(edge_within(g.edges[e], s));
        assert forall|i: int| 0 <= i < g.edges[e].pollers.len() implies list_within(
            (#[trigger] g.edges[e].pollers[i]).queue,
            more,
        ) by {
            assert(list_within(g.edges[e].pollers[i].queue, s));
        }
    }
}

// ------------------------------------------------------- what is let go again

/// Whether a context holds nothing of a call.
pub open spec fn context_is_empty(ctx: ContextView) -> bool {
    &&& ctx.inputs == no_slots(ctx.inputs.len())
    &&& ctx.batches == no_packets(ctx.batches.len())
    &&& ctx.staging == no_packets(ctx.staging.len())
}

/// Whether every node has the same context and statistics in two states, and is
/// closed in both or in neither.
pub open spec fn same_contexts(a: RunView, b: RunView) -> bool {
    &&& a.nodes.len() == b.nodes.len()
    &&& forall|n: int|
        0 <= n < a.nodes.len() ==> (#[trigger] b.nodes[n]).ctx == a.nodes[n].ctx
            && b.nodes[n].sched.closed == a.nodes[n].sched.closed && b.nodes[n].stats
            == a.nodes[n].stats
}

proof fn same_contexts_trans(a: RunView, b: RunView, c: RunView)
    requires
        same_contexts(a, b),
        same_contexts(b, c),
    ensures
        same_contexts(a, c),
{
    assert forall|n: int| 0 <= n < a.nodes.len() implies (#[trigger] c.nodes[n]).ctx
        == a.nodes[n].ctx && c.nodes[n].sched.closed == a.nodes[n].sched.closed
        && c.nodes[n].stats == a.nodes[n].stats by {
        assert(b.nodes[n].ctx == a.nodes[n].ctx);
    }
}

proof fn all_queued_keeps_contexts(
    g: RunView,
    edge: int,
    node: int,
    port: int,
    packets: Seq<Packet>,
)
    requires
        0 <= node < g.nodes.len(),
    ensures
        same_contexts(g, g.all_queued(edge, node, port, packets)),
    decreases packets.len(),
{
    if packets.len() > 0 {
        let before = g.all_queued(edge, node, port, packets.drop_last());
        all_queued_keeps_contexts(g, edge, node, port, packets.drop_last());
        assert(same_contexts(before, g.all_queued(edge, node, port, packets)));
        same_contexts_trans(g, before, g.all_queued(edge, node, port, packets));
    }
}

proof fn consumed_keeps_contexts(g: RunView, edge: int, packets: Seq<Packet>, k: nat)
    requires
        g.fits(),
        0 <= edge < g.edges.len(),
        k <= g.edges[edge].consumers.len(),
    ensures
        same_contexts(g, g.consumed(edge, packets, k)),
    decreases k,
{
    if k > 0 {
        let before = g.consumed(edge, packets, (k - 1) as nat);
        consumed_keeps_contexts(g, edge, packets, (k - 1) as nat);
        let (node, port) = g.edges[edge].consumers[k - 1];
        assert(node < g.nodes.len());
        all_queued_keeps_contexts(before, edge, node as int, port as int, packets);
        let now = before.all_queued(edge, node as int, port as int, packets);
        same_contexts_trans(g, before, now);
        assert(same_contexts(now, g.consumed(edge, packets, k)));
        same_contexts_trans(g, now, g.consumed(edge, packets, k));
    }
}

proof fn all_scheduled_keeps_contexts(g: RunView, edge: int, k: nat)
    requires
        g.fits(),
        0 <= edge < g.edges.len(),
        k <= g.edges[edge].consumers.len(),
    ensures
        same_contexts(g, g.all_scheduled(edge, k)),
    decreases k,
{
    if k > 0 {
        let before = g.all_scheduled(edge, (k - 1) as nat);
        all_scheduled_keeps_contexts(g, edge, (k - 1) as nat);
        assert(g.edges[edge].consumers[k - 1].0 < g.nodes.len());
        assert(same_contexts(before, g.all_scheduled(edge, k)));
        same_contexts_trans(g, before, g.all_scheduled(edge, k));
    }
}

pub proof fn sent_keeps_contexts(g: RunView, edge: int, packets: Seq<Packet>)
    requires
        g.fits(),
        0 <= edge < g.edges.len(),
    ensures
        same_contexts(g, g.sent(edge, packets)),
{
    let e = g.edges[edge];
    let told = RunView {
        outbox: g.outbox + RunView::notices(e.observers, packets, e.observers.len()),
        ..g
    }.with_edge(
        edge,
        RunEdge {
            pollers: Seq::new(
                e.pollers.len(),
                |i: int| PollerView { queue: e.pollers[i].queue + packets, ..e.pollers[i] },
            ),
            ..e
        },
    );
    assert(same_contexts(g, told));
    assert(kin(g, told));
    kin_fits(g, told);
    consumed_keeps_contexts(told, edge, packets, e.consumers.len());
    keeps_dispatched(g, edge, packets);
    let after = g.dispatched(edge, packets);
    assert(after.edges[edge].consumers == e.consumers);
    all_scheduled_keeps_contexts(after, edge, e.consumers.len());
    same_contexts_trans(g, told, after);
    same_contexts_trans(g, after, g.sent(edge, packets));
}

proof fn flushed_keeps_contexts(g: RunView, n: int, staging: Seq<Seq<Packet>>, k: nat)
    requires
        g.fits(),
        0 <= n < g.nodes.len(),
        k <= g.nodes[n].outputs.len(),
    ensures
        same_contexts(g, g.flushed(n, staging, k)),
    decreases k,
{
    if k > 0 {
        let before = g.flushed(n, staging, (k - 1) as nat);
        flushed_keeps_contexts(g, n, staging, (k - 1) as nat);
        keeps_flushed(g, n, staging, (k - 1) as nat);
        assert(g.nodes[n].fits(g.edges.len()));
        if staging[k - 1].len() > 0 {
            sent_keeps_contexts(before, g.nodes[n].outputs[k - 1] as int, staging[k - 1]);
            same_contexts_trans(g, before, g.flushed(n, staging, k));
        }
    }
}

/// After everything went out, the contexts of all others are as they were.
pub proof fn all_flushed_changes_one_context(g: RunView, n: int)
    requires
        g.fits(),
        0 <= n < g.nodes.len(),
    ensures
        ({
            let ctx = g.nodes[n].ctx;
            same_contexts(
                g.with_ctx(n, ContextView { staging: no_packets(ctx.staging.len()), ..ctx }),
                g.all_flushed(n),
            )
        }),
{
    let ctx = g.nodes[n].ctx;
    let cleared = g.with_ctx(
        n,
        ContextView { staging: no_packets(ctx.staging.len()), ..ctx },
    );
    assert(kin(g, cleared));
    kin_fits(g, cleared);
    flushed_keeps_contexts(cleared, n, ctx.staging, g.nodes[n].outputs.len());
}

/// A run hands everything on: what the kernel was given and what it emitted
/// leaves its context, whether it failed or not, and no other context changes.
pub proof fn runs_keep_nothing(g: RunView, n: int, rc: i32)
    requires
        g.fits(),
        0 <= n < g.nodes.len(),
    ensures
        context_is_empty(g.ran(n, rc).nodes[n].ctx),
        forall|m: int|
            0 <= m < g.nodes.len() && m != n ==> (#[trigger] g.ran(n, rc).nodes[m]).ctx
                == g.nodes[m].ctx,
{
    let stats = g.nodes[n].stats;
    let last = g.ran(n, rc);
    if g.outcome(n, rc) is None {
        let counted = g.with_stats(
            n,
            NodeStats { processed: one_more(stats.processed), ..stats },
        );
        assert(kin(g, counted));
        kin_fits(g, counted);
        all_flushed_changes_one_context(counted, n);
        let ctx = counted.nodes[n].ctx;
        let cleared = counted.with_ctx(
            n,
            ContextView { staging: no_packets(ctx.staging.len()), ..ctx },
        );
        let after = counted.all_flushed(n);
        assert(after.nodes[n].ctx == cleared.nodes[n].ctx);
        assert forall|m: int| 0 <= m < g.nodes.len() && m != n implies (
        #[trigger] last.nodes[m]).ctx == g.nodes[m].ctx by {
            assert(after.nodes[m].ctx == cleared.nodes[m].ctx);
        }
    }
}

/// So does closing a node.
pub proof fn closings_keep_nothing(g: RunView, n: int, rc: i32)
    requires
        g.fits(),
        0 <= n < g.nodes.len(),
    ensures
        context_is_empty(g.closed_node(n, rc).nodes[n].ctx),
        forall|m: int|
            0 <= m < g.nodes.len() && m != n ==> (#[trigger] g.closed_node(n, rc).nodes[m]).ctx
                == g.nodes[m].ctx && g.closed_node(n, rc).nodes[m].sched.closed
                == g.nodes[m].sched.closed,
{
    let ctx = g.nodes[n].ctx;
    let outs = g.nodes[n].outputs;
    let last = g.closed_node(n, rc);
    let after = if g.outcome(n, rc) is Some {
        g.with_ctx(n, (ContextView { error_msg: None, ..ctx }).discarded()).failed(
            g.outcome(n, rc)->Some_0,
        )
    } else {
        g.all_flushed(n)
    };
    if g.outcome(n, rc) is Some {
        assert(kin(g, after));
        kin_fits(g, after);
    } else {
        keeps_all_flushed(g, n);
        all_flushed_changes_one_context(g, n);
    }
    let released = after.with_ctx(n, after.nodes[n].ctx.released());
    let marked = released.with_sched(
        n,
        NodeSched { closed: true, ..released.nodes[n].sched },
    );
    assert(kin(after, marked));
    kin_fits(after, marked);
    assert(g.nodes[n].fits(g.edges.len()));
    edges_closed_keep_contexts(marked, outs, outs.len());
    assert(last.nodes[n].ctx == marked.nodes[n].ctx);
    let cleared = g.with_ctx(
        n,
        ContextView { staging: no_packets(ctx.staging.len()), ..ctx },
    );
    if g.outcome(n, rc) is None {
        assert(after.nodes[n].ctx == cleared.nodes[n].ctx);
    }
    assert forall|m: int| 0 <= m < g.nodes.len() && m != n implies (#[trigger] last.nodes[m]).ctx
        == g.nodes[m].ctx && last.nodes[m].sched.closed == g.nodes[m].sched.closed by {
        assert(marked.nodes[m] == after.nodes[m]);
        if g.outcome(n, rc) is None {
            assert(after.nodes[m].ctx == cleared.nodes[m].ctx);
        }
    }
}

proof fn ports_closed_keep_contexts(g: RunView, ports: Seq<(usize, usize)>, k: nat)
    requires
        k <= ports.len(),
        forall|i: int| 0 <= i < ports.len() ==> (#[trigger] ports[i]).0 < g.nodes.len(),
    ensures
        same_contexts(g, g.ports_closed(ports, k)),
    decreases k,
{
    if k > 0 {
        let before = g.ports_closed(ports, (k - 1) as nat);
        ports_closed_keep_contexts(g, ports, (k - 1) as nat);
        assert(ports[k - 1].0 < g.nodes.len());
        assert(same_contexts(before, g.ports_closed(ports, k)));
        same_contexts_trans(g, before, g.ports_closed(ports, k));
    }
}

pub proof fn edge_closed_keeps_contexts(g: RunView, edge: int)
    requires
        g.fits(),
        0 <= edge < g.edges.len(),
    ensures
        same_contexts(g, g.edge_closed(edge)),
{
    let e = g.edges[edge];
    assert forall|i: int| 0 <= i < e.consumers.len() implies (#[trigger] e.consumers[i]).0
        < g.nodes.len() by {
        let (node, port) = g.edges[edge].consumers[i];
        assert(node < g.nodes.len());
    }
    if !e.closed {
        let marked = g.with_edge(
            edge,
            RunEdge {
                closed: true,
                pollers: Seq::new(
                    e.pollers.len(),
                    |i: int| PollerView { closed: true, ..e.pollers[i] },
                ),
                ..e
            },
        );
        assert(same_contexts(g, marked));
        ports_closed_keep_contexts(marked, e.consumers, e.consumers.len());
        same_contexts_trans(g, marked, g.edge_closed(edge));
    }
}

pub proof fn edges_closed_keep_contexts(g: RunView, edges: Seq<usize>, k: nat)
    requires
        g.fits(),
        k <= edges.len(),
        forall|i: int| 0 <= i < edges.len() ==> #[trigger] edges[i] < g.edges.len(),
    ensures
        same_contexts(g, g.edges_closed(edges, k)),
    decreases k,
{
    if k > 0 {
        let before = g.edges_closed(edges, (k - 1) as nat);
        edges_closed_keep_contexts(g, edges, (k - 1) as nat);
        keeps_edges_closed(g, edges, (k - 1) as nat);
        assert(edges[k - 1] < g.edges.len());
        edge_closed_keeps_contexts(before, edges[k - 1] as int);
        same_contexts_trans(g, before, g.edges_closed(edges, k));
    }
}

/// What a kernel is given leaves the queues: each queue was what the kernel
/// got of it, then what still waits.
pub proof fn inputs_are_moved(node: RunNode, i: int)
    requires
        0 <= i < node.queues.len(),
    ensures
        node.queues[i] == (match node.fed().ctx.inputs[i] {
            Some(p) => seq![p],
            None => Seq::<Packet>::empty(),
        }) + node.fed().queues[i],
{
    let fed = node.fed();
    assert(fed.ctx.inputs[i] == head(node.queues[i]));
    assert(fed.queues[i] == behind_head(node.queues[i]));
    let first = match fed.ctx.inputs[i] {
        Some(p) => seq![p],
        None => Seq::<Packet>::empty(),
    };
    assert(node.queues[i] =~= first + fed.queues[i]);
}

// --------------------------------------------------------- who asks for a payload

/// The packets that do not carry a payload.
pub open spec fn without(payload: u64) -> Set<Packet> {
    Set::new(|p: Packet| p.payload != Some(payload))
}

/// Whether a packet carries a payload.
fn carries(p: &Packet, payload: u64) -> (r: bool)
    ensures
        r == !without(payload).contains(*p),
{
    match p.payload {
        Some(x) => x == payload,
        None => false,
    }
}

/// Whether a list holds a payload.
pub fn list_holds(list: &Vec<Packet>, payload: u64) -> (r: bool)
    ensures
        r == !list_within(list@, without(payload)),
{
    for i in 0..list.len()
        invariant
            forall|k: int| 0 <= k < i ==> without(payload).contains(#[trigger] list@[k]),
    {
        if carries(&list[i], payload) {
            assert(!without(payload).contains(list@[i as int]));
            return true;
        }
    }
    false
}

/// Whether one of some lists holds a payload.
pub fn lists_hold(lists: &Vec<Vec<Packet>>, payload: u64) -> (r: bool)
    ensures
        r == !lists_within(packet_lists(lists@), without(payload)),
{
    let ghost views = packet_lists(lists@);
    for i in 0..lists.len()
        invariant
            views == packet_lists(lists@),
            forall|k: int, j: int|
                0 <= k < i && 0 <= j < views[k].len() ==> without(payload).contains(
                    #[trigger] views[k][j],
                ),
    {
        assert(views[i as int] == lists@[i as int]@);
        if list_holds(&lists[i], payload) {
            let ghost j = choose|j: int|
                0 <= j < lists@[i as int]@.len() && !without(payload).contains(
                    #[trigger] lists@[i as int]@[j],
                );
            assert(!without(payload).contains(views[i as int][j]));
            return true;
        }
    }
    false
}

/// Whether a queue holds a payload.
pub fn queue_holds(queue: &VecDeque<Packet>, payload: u64) -> (r: bool)
    ensures
        r == !list_within(queue@, without(payload)),
{
    for i in 0..queue.len()
        invariant
            forall|k: int| 0 <= k < i ==> without(payload).contains(#[trigger] queue@[k]),
    {
        if carries(&queue[i], payload) {
            assert(!without(payload).contains(queue@[i as int]));
            return true;
        }
    }
    false
}

/// Whether one of some queues holds a payload.
fn queues_hold(queues: &Vec<VecDeque<Packet>>, payload: u64) -> (r: bool)
    ensures
        r == !lists_within(queue_views(queues@), without(payload)),
{
    let ghost views = queue_views(queues@);
    for i in 0..queues.len()
        invariant
            views == queue_views(queues@),
            forall|k: int, j: int|
                0 <= k < i && 0 <= j < views[k].len() ==> without(payload).contains(
                    #[trigger] views[k][j],
                ),
    {
        assert(views[i as int] == queues@[i as int]@);
        if queue_holds(&queues[i], payload) {
            let ghost j = choose|j: int|
                0 <= j < queues@[i as int]@.len() && !without(payload).contains(
                    #[trigger] queues@[i as int]@[j],
                );
            assert(!without(payload).contains(views[i as int][j]));
            return true;
        }
    }
    false
}

/// Whether one of some named packets carries a payload.
pub fn named_hold(named: &TextMap<Packet>, payload: u64) -> (r: bool)
    ensures
        r == !named_within(named@, without(payload)),
{
    let n: usize = named.len();
    for i in 0..n
        invariant
            n == named.keys().len(),
            n == named.values().len(),
            forall|k: int|
                #![trigger named.keys()[k]]
                #![trigger named.values()[k]]
                0 <= k < n ==> named@.contains_key(named.keys()[k]) && named@[named.keys()[k]]
                    == named.values()[k],
            forall|k: int| 0 <= k < i ==> without(payload).contains(#[trigger] named.values()[k]),
    {
        if carries(named.value_at(i), payload) {
            assert(named@.contains_key(named.keys()[i as int]));
            assert(!without(payload).contains(named@[named.keys()[i as int]]));
            return true;
        }
    }
    proof {
        assert forall|name: Seq<char>| #[trigger] named@.contains_key(name) implies without(
            payload,
        ).contains(named@[name]) by {
            let k = named.keys().index_of(name);
            assert(named.keys()[k] == name);
            assert(without(payload).contains(named.values()[k]));
        }
    }
    false
}

/// Whether one of the pollers of an edge holds a payload.
fn pollers_hold(edge: &Edge, payload: u64) -> (r: bool)
    ensures
        r == !edge_within(edge@, without(payload)),
{
    for i in 0..edge.pollers.len()
        invariant
            forall|k: int|
                0 <= k < i ==> list_within(
                    (#[trigger] edge@.pollers[k]).queue,
                    without(payload),
                ),
    {
        assert(edge@.pollers[i as int] == edge.pollers@[i as int]@);
        if edge.pollers[i].holds(payload) {
            return true;
        }
    }
    false
}

impl Graph {
    /// Whether the graph still holds a payload. One that it does not hold may
    /// be released, and written to by whoever has the only packet of it.
    pub fn holds(&self, payload: u64) -> (r: bool)
        ensures
            r == !held_within(self@, without(payload)),
    {
        let ghost s = without(payload);
        for n in 0..self.nodes.len()
            invariant
                s == without(payload),
                forall|k: int| 0 <= k < n ==> node_within(#[trigger] self@.nodes[k], s),
        {
            assert(self@.nodes[n as int] == self.nodes@[n as int]@);
            let waits = queues_hold(&self.nodes[n].input_queues, payload);
            let used = self.nodes[n].ctx.holds(payload);
            if waits || used {
                assert(!node_within(self@.nodes[n as int], s));
                return true;
            }
        }
        for e in 0..self.edges.len()
            invariant
                s == without(payload),
                forall|k: int| 0 <= k < e ==> edge_within(#[trigger] self@.edges[k], s),
        {
            assert(self@.edges[e as int] == self.edges@[e as int]@);
            if pollers_hold(&self.edges[e], payload) {
                assert(!edge_within(self@.edges[e as int], s));
                return true;
            }
        }
        for k in 0..self.outbox.len()
            invariant
                s == without(payload),
                forall|j: int| 0 <= j < k ==> s.contains((#[trigger] self@.outbox[j]).packet),
        {
            if carries(&self.outbox[k].packet, payload) {
                assert(!s.contains(self@.outbox[k as int].packet));
                return true;
            }
        }
        named_hold(&self.side_packets, payload)
    }
}

/// A payload that a graph does not hold, it does not come to hold by itself:
/// once let go, it stays gone.
pub proof fn what_is_let_go_stays_gone(
    g: RunView,
    rc: i32,
    us: i64,
    now: u64,
    edge: int,
    p: Packet,
    payload: u64,
)
    requires
        g.fits(),
        0 <= edge < g.edges.len(),
        held_within(g, without(payload)),
    ensures
        held_within(g.stepped(now).0, without(payload)),
        held_within(g.resumed(rc, us, now).0, without(payload)),
        held_within(g.edge_closed(edge), without(payload)),
        p.payload != Some(payload) ==> held_within(g.accepted(edge, p), without(payload)),
{
    graphs_make_no_packets(g, rc, us, now, edge, p, without(payload));
    if p.payload != Some(payload) {
        assert(without(payload).insert(p) =~= without(payload));
    }
}

} // verus!

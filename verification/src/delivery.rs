//! What happens to the packets of a running graph: who gets them, in which
//! order, what is dropped, and what the totals say.

use crate::graph::{
    alike, keeps_all_queued, keeps_consumed, keeps_dispatched, kin, kin_fits, node_kin,
};
use crate::packet::{first_misfit, fitting_packets_fit, Packet};
use crate::run_state::{Policy, PollerView, RunEdge, RunNode, RunView};
use crate::schedule::{keeps_all_scheduled, keeps_sent};
use crate::status::ErrorView;
use vstd::prelude::*;

verus! {

/// A queue after one more packet: one of a fixed size that is full drops its
/// oldest.
pub open spec fn admitted_one(policy: Policy, q: Seq<Packet>, p: Packet) -> Seq<Packet> {
    if policy matches Policy::FixedSize(capacity) && q.len() >= capacity && q.len() > 0 {
        q.drop_first().push(p)
    } else {
        q.push(p)
    }
}

/// A queue after some more packets.
pub open spec fn admitted(policy: Policy, q: Seq<Packet>, packets: Seq<Packet>) -> Seq<Packet>
    decreases packets.len(),
{
    if packets.len() == 0 {
        q
    } else {
        admitted_one(policy, admitted(policy, q, packets.drop_last()), packets.last())
    }
}

/// Without a fixed size, every packet is kept behind those that wait.
pub proof fn nothing_is_dropped(policy: Policy, q: Seq<Packet>, packets: Seq<Packet>)
    requires
        policy !is FixedSize,
    ensures
        admitted(policy, q, packets) == q + packets,
    decreases packets.len(),
{
    if packets.len() == 0 {
        assert(q + packets =~= q);
    } else {
        nothing_is_dropped(policy, q, packets.drop_last());
        assert((q + packets.drop_last()).push(packets.last()) =~= q + packets);
    }
}

/// A queue of a fixed size never grows beyond it, and what it holds is the
/// newest of what came.
pub proof fn newest_are_kept(capacity: usize, q: Seq<Packet>, packets: Seq<Packet>)
    requires
        capacity >= 1,
        q.len() <= capacity,
    ensures
        ({
            let all = q + packets;
            let kept = admitted(Policy::FixedSize(capacity), q, packets);
            &&& kept.len() <= capacity
            &&& kept == all.skip(
                if all.len() > capacity {
                    all.len() - capacity
                } else {
                    0
                },
            )
        }),
    decreases packets.len(),
{
    let all = q + packets;
    let policy = Policy::FixedSize(capacity);
    if packets.len() == 0 {
        assert(all =~= q);
        assert(all.skip(0) =~= q);
    } else {
        newest_are_kept(capacity, q, packets.drop_last());
        let before = q + packets.drop_last();
        let kept = admitted(policy, q, packets.drop_last());
        assert(all =~= before.push(packets.last()));
        if before.len() >= capacity {
            let from = before.len() - capacity;
            assert(kept == before.skip(from));
            assert(kept.drop_first().push(packets.last()) =~= all.skip(from + 1));
        } else {
            assert(kept == before.skip(0));
            assert(before.skip(0) =~= before);
            assert(kept.push(packets.last()) =~= all.skip(0));
        }
    }
}

// ------------------------------------------------------------------- delivery

/// What some packets for one port do to the queues: that port admits them,
/// every other queue stays.
proof fn lemma_all_queued(g: RunView, edge: int, node: int, port: int, packets: Seq<Packet>)
    requires
        0 <= edge < g.edges.len(),
        0 <= node < g.nodes.len(),
        0 <= port < g.nodes[node].queues.len(),
    ensures
        ({
            let after = g.all_queued(edge, node, port, packets);
            &&& after.nodes[node].queues == g.nodes[node].queues.update(
                port,
                admitted(g.nodes[node].policy, g.nodes[node].queues[port], packets),
            )
            &&& forall|m: int|
                0 <= m < g.nodes.len() && m != node ==> #[trigger] after.nodes[m] == g.nodes[m]
        }),
    decreases packets.len(),
{
    let after = g.all_queued(edge, node, port, packets);
    let q = g.nodes[node].queues[port];
    let policy = g.nodes[node].policy;
    if packets.len() == 0 {
        assert(g.nodes[node].queues.update(port, q) =~= g.nodes[node].queues);
    } else {
        let before = g.all_queued(edge, node, port, packets.drop_last());
        lemma_all_queued(g, edge, node, port, packets.drop_last());
        keeps_all_queued(g, edge, node, port, packets.drop_last());
        assert(node_kin(g.nodes[node], before.nodes[node]));
        assert(before.nodes[node].queues[port] == admitted(policy, q, packets.drop_last()));
        assert(after.nodes[node].queues =~= g.nodes[node].queues.update(
            port,
            admitted(policy, q, packets),
        ));
        assert forall|m: int| 0 <= m < g.nodes.len() && m != node implies #[trigger] after.nodes[m]
            == g.nodes[m] by {
            assert(before.nodes[m] == g.nodes[m]);
        }
    }
}

/// What some packets on an edge do to the queues of its first `k` consumers.
proof fn lemma_consumed(g: RunView, edge: int, packets: Seq<Packet>, k: nat)
    requires
        g.fits(),
        0 <= edge < g.edges.len(),
        k <= g.edges[edge].consumers.len(),
        g.edges[edge].consumers.no_duplicates(),
    ensures
        ({
            let after = g.consumed(edge, packets, k);
            let readers = g.edges[edge].consumers.take(k as int);
            forall|c: int, p: int|
                0 <= c < g.nodes.len() && 0 <= p < g.nodes[c].queues.len()
                    ==> #[trigger] after.nodes[c].queues[p] == (if readers.contains(
                    (c as usize, p as usize),
                ) {
                    admitted(g.nodes[c].policy, g.nodes[c].queues[p], packets)
                } else {
                    g.nodes[c].queues[p]
                })
        }),
    decreases k,
{
    let all = g.edges[edge].consumers;
    let after = g.consumed(edge, packets, k);
    let readers = all.take(k as int);
    if k > 0 {
        let before = g.consumed(edge, packets, (k - 1) as nat);
        let earlier = all.take(k - 1);
        lemma_consumed(g, edge, packets, (k - 1) as nat);
        keeps_consumed(g, edge, packets, (k - 1) as nat);
        let (node, port) = all[k - 1];
        assert(g.edges[edge].consumers[k - 1] == (node, port));
        assert(node_kin(g.nodes[node as int], before.nodes[node as int]));
        assert(g.nodes[node as int].fits(g.edges.len()));
        lemma_all_queued(before, edge, node as int, port as int, packets);
        assert(readers =~= earlier.push((node, port)));
        assert(!earlier.contains((node, port))) by {
            if earlier.contains((node, port)) {
                let j = earlier.index_of((node, port));
                assert(all[j] == all[k - 1]);
            }
        }
        assert(g.nodes.len() <= usize::MAX);
        assert forall|c: int, p: int|
            0 <= c < g.nodes.len() && 0 <= p
                < g.nodes[c].queues.len() implies #[trigger] after.nodes[c].queues[p] == (
        if readers.contains((c as usize, p as usize)) {
            admitted(g.nodes[c].policy, g.nodes[c].queues[p], packets)
        } else {
            g.nodes[c].queues[p]
        }) by {
            assert(g.nodes[c].fits(g.edges.len()));
            let pair = (c as usize, p as usize);
            assert(before.nodes[c].queues[p] == (if earlier.contains(pair) {
                admitted(g.nodes[c].policy, g.nodes[c].queues[p], packets)
            } else {
                g.nodes[c].queues[p]
            }));
            assert(node_kin(g.nodes[c], before.nodes[c]));
            if earlier.contains(pair) {
                let j = earlier.index_of(pair);
                assert(readers[j] == pair);
            }
            if pair == (node, port) {
                assert(readers[k - 1] == pair);
            } else if readers.contains(pair) {
                let j = readers.index_of(pair);
                assert(j < k - 1);
                assert(earlier[j] == pair);
            }
        }
    } else {
        assert(readers =~= Seq::empty());
    }
}

proof fn lemma_all_scheduled_queues(g: RunView, edge: int, k: nat)
    requires
        g.fits(),
        0 <= edge < g.edges.len(),
        k <= g.edges[edge].consumers.len(),
    ensures
        forall|c: int|
            0 <= c < g.nodes.len() ==> (#[trigger] g.all_scheduled(edge, k).nodes[c]).queues
                == g.nodes[c].queues && g.all_scheduled(edge, k).nodes[c].policy
                == g.nodes[c].policy,
        g.all_scheduled(edge, k).shared == g.shared,
    decreases k,
{
    if k > 0 {
        let before = g.all_scheduled(edge, (k - 1) as nat);
        lemma_all_scheduled_queues(g, edge, (k - 1) as nat);
        keeps_all_scheduled(g, edge, (k - 1) as nat);
        assert(g.edges[edge].consumers[k - 1].0 < g.nodes.len());
        assert forall|c: int| 0 <= c < g.nodes.len() implies (#[trigger] g.all_scheduled(
            edge,
            k,
        ).nodes[c]).queues == g.nodes[c].queues && g.all_scheduled(edge, k).nodes[c].policy
            == g.nodes[c].policy by {
            assert(before.nodes[c].queues == g.nodes[c].queues);
        }
    }
}

/// Whether every consumer of an edge is listed once.
pub open spec fn read_once(g: RunView) -> bool {
    forall|e: int| 0 <= e < g.edges.len() ==> (#[trigger] g.edges[e]).consumers.no_duplicates()
}

/// Whatever is sent on an edge reaches every input port that reads it, in the
/// order in which it was sent, and no other.
pub proof fn every_consumer_gets_every_packet(
    g: RunView,
    edge: int,
    packets: Seq<Packet>,
    c: int,
    p: int,
)
    requires
        g.fits(),
        read_once(g),
        0 <= edge < g.edges.len(),
        0 <= c < g.nodes.len(),
        0 <= p < g.nodes[c].queues.len(),
    ensures
        g.sent(edge, packets).nodes[c].queues[p] == (if g.edges[edge].consumers.contains(
            (c as usize, p as usize),
        ) {
            admitted(g.nodes[c].policy, g.nodes[c].queues[p], packets)
        } else {
            g.nodes[c].queues[p]
        }),
        g.edges[edge].consumers.contains((c as usize, p as usize)) && g.nodes[c].policy !is FixedSize
            ==> g.sent(edge, packets).nodes[c].queues[p] == g.nodes[c].queues[p] + packets,
{
    let e = g.edges[edge];
    let told = RunView {
        outbox: g.outbox + RunView::notices(e.observers, packets, e.observers.len()),
        ..g
    }.with_edge(
        edge,
        RunEdge {
            pollers: Seq::new(
                e.pollers.len(),
                |i: int| PollerView { queue: e.pollers[i].queue + packets, ..e.pollers[i] },
            ),
            ..e
        },
    );
    assert(kin(g, told));
    kin_fits(g, told);
    let n = e.consumers.len();
    assert(told.edges[edge].consumers == e.consumers);
    lemma_consumed(told, edge, packets, n);
    assert(e.consumers.take(n as int) =~= e.consumers);
    keeps_dispatched(g, edge, packets);
    let after = g.dispatched(edge, packets);
    assert(after.edges[edge].consumers == e.consumers);
    lemma_all_scheduled_queues(after, edge, n);
    assert(after.nodes[c].queues[p] == told.consumed(edge, packets, n).nodes[c].queues[p]);
    assert(g.sent(edge, packets).nodes[c].queues == after.nodes[c].queues);
    if g.nodes[c].policy !is FixedSize {
        nothing_is_dropped(g.nodes[c].policy, g.nodes[c].queues[p], packets);
    }
}

/// Every poller and every observer of an edge gets every packet too, in order.
pub proof fn every_listener_gets_every_packet(g: RunView, edge: int, packets: Seq<Packet>, i: int)
    requires
        g.fits(),
        0 <= edge < g.edges.len(),
        0 <= i < g.edges[edge].pollers.len(),
    ensures
        g.sent(edge, packets).edges[edge].pollers[i].queue == g.edges[edge].pollers[i].queue
            + packets,
        g.sent(edge, packets).outbox == g.outbox + RunView::notices(
            g.edges[edge].observers,
            packets,
            g.edges[edge].observers.len(),
        ),
{
    let e = g.edges[edge];
    let told = RunView {
        outbox: g.outbox + RunView::notices(e.observers, packets, e.observers.len()),
        ..g
    }.with_edge(
        edge,
        RunEdge {
            pollers: Seq::new(
                e.pollers.len(),
                |i: int| PollerView { queue: e.pollers[i].queue + packets, ..e.pollers[i] },
            ),
            ..e
        },
    );
    assert(kin(g, told));
    kin_fits(g, told);
    assert(told.edges[edge].consumers == e.consumers);
    lemma_consumed_listeners(told, edge, packets, e.consumers.len());
    keeps_dispatched(g, edge, packets);
    let after = g.dispatched(edge, packets);
    keeps_all_scheduled(after, edge, e.consumers.len());
    lemma_all_scheduled_outbox(after, edge, e.consumers.len());
}

proof fn lemma_all_scheduled_outbox(g: RunView, edge: int, k: nat)
    requires
        k <= g.edges[edge].consumers.len(),
    ensures
        g.all_scheduled(edge, k).outbox == g.outbox,
    decreases k,
{
    if k > 0 {
        lemma_all_scheduled_outbox(g, edge, (k - 1) as nat);
    }
}

proof fn lemma_all_queued_listeners(
    g: RunView,
    edge: int,
    node: int,
    port: int,
    packets: Seq<Packet>,
)
    requires
        0 <= edge < g.edges.len(),
    ensures
        g.all_queued(edge, node, port, packets).edges.len() == g.edges.len(),
        g.all_queued(edge, node, port, packets).edges[edge].pollers == g.edges[edge].pollers,
        g.all_queued(edge, node, port, packets).outbox == g.outbox,
    decreases packets.len(),
{
    if packets.len() > 0 {
        lemma_all_queued_listeners(g, edge, node, port, packets.drop_last());
    }
}

proof fn lemma_consumed_listeners(g: RunView, edge: int, packets: Seq<Packet>, k: nat)
    requires
        0 <= edge < g.edges.len(),
        k <= g.edges[edge].consumers.len(),
    ensures
        g.consumed(edge, packets, k).edges.len() == g.edges.len(),
        g.consumed(edge, packets, k).edges[edge].pollers == g.edges[edge].pollers,
        g.consumed(edge, packets, k).outbox == g.outbox,
    decreases k,
{
    if k > 0 {
        let before = g.consumed(edge, packets, (k - 1) as nat);
        lemma_consumed_listeners(g, edge, packets, (k - 1) as nat);
        let (node, port) = g.edges[edge].consumers[k - 1];
        lemma_all_queued_listeners(before, edge, node as int, port as int, packets);
    }
}

// ------------------------------------------------------------------ the order

/// The time stamps of a graph input rise strictly: after a packet was taken,
/// exactly those with a greater time stamp are, however the queues have been
/// emptied since.
pub proof fn stamps_rise(g: RunView, later: RunView, edge: int, p: Packet, q: Packet)
    requires
        g.fits(),
        0 <= edge < g.edges.len(),
        p.stamp.0 != i64::MIN,
        kin(g.accepted(edge, p), later),
    ensures
        later.order_problem(edge, q) is None <==> q.stamp.0 > p.stamp.0,
{
    let marked = g.with_edge(edge, RunEdge { last_sent: p.stamp, ..g.edges[edge] });
    assert(alike(g, marked));
    kin_fits(g, marked);
    keeps_sent(marked, edge, seq![p]);
    let taken = g.accepted(edge, p);
    assert(taken.edges[edge].last_sent == p.stamp);
    assert(later.edges[edge].last_sent == taken.edges[edge].last_sent);
}

/// A run that fails, by its status code or by the type of what it emitted,
/// sends nothing: no queue, no edge and no claim changes.
pub proof fn failed_runs_send_nothing(g: RunView, n: int, rc: i32)
    requires
        0 <= n < g.nodes.len(),
        g.outcome(n, rc) is Some,
    ensures
        g.ran(n, rc).edges == g.edges,
        g.ran(n, rc).outbox == g.outbox,
        g.ran(n, rc).main_queue == g.main_queue,
        forall|m: int|
            0 <= m < g.nodes.len() ==> (#[trigger] g.ran(n, rc).nodes[m]).queues
                == g.nodes[m].queues && g.ran(n, rc).nodes[m].sched == g.nodes[m].sched,
        g.ran(n, rc).shared.error is Some,
{
}

proof fn lemma_emission_fits(n: RunNode, k: nat, names: Map<u64, Seq<char>>, port: int)
    requires
        n.emission_problem(k, names) is None,
        0 <= port < k,
        port < n.ctx.staging.len(),
        n.output_types[port] != 0,
    ensures
        first_misfit(n.ctx.staging[port], n.output_types[port]) is None,
    decreases k,
{
    if port < k - 1 {
        lemma_emission_fits(n, (k - 1) as nat, names, port);
    }
}

/// What goes out after a call that did not fail has the type that the kernel
/// declared for the output port. A port of any type gives anything, and a
/// packet without a payload goes everywhere.
pub proof fn emitted_packets_keep_the_contract(g: RunView, n: int, rc: i32, port: int, k: int)
    requires
        g.outcome(n, rc) is None,
        0 <= port < g.nodes[n].output_types.len(),
        port < g.nodes[n].ctx.staging.len(),
        0 <= k < g.nodes[n].ctx.staging[port].len(),
    ensures
        ({
            let packet = g.nodes[n].ctx.staging[port][k];
            let declared = g.nodes[n].output_types[port];
            declared == 0 || packet.is_hollow() || packet.kind == declared
        }),
{
    let node = g.nodes[n];
    if node.output_types[port] != 0 {
        lemma_emission_fits(node, node.output_types.len(), g.shared.type_names, port);
        fitting_packets_fit(node.ctx.staging[port], node.output_types[port]);
    }
}

/// Once a graph failed or was cancelled, nobody is put in line any more.
pub proof fn stopped_graphs_start_nothing(g: RunView, n: int)
    requires
        g.shared.stopped(),
    ensures
        g.scheduled(n) == g,
{
}

/// While a graph is paused, nobody is put in line either.
pub proof fn paused_graphs_start_nothing(g: RunView, n: int)
    requires
        g.paused,
    ensures
        g.scheduled(n) == g,
{
}

/// Whoever waits for the end of a graph that was cancelled learns so, even if
/// something failed as well.
pub proof fn cancelled_graphs_say_so(g: RunView)
    requires
        g.shared.cancelled,
    ensures
        g.verdict() == Some(ErrorView::Cancelled),
{
}

/// Throwing a graph away closes the first node that was opened and is not
/// closed, and passes over all others; it ends only when there is none.
pub proof fn teardown_closes_what_is_open(g: RunView, from: int, now: u64)
    requires
        0 <= from <= g.nodes.len() <= usize::MAX,
    ensures
        match g.torn(from, now).1 {
            Some(n) => {
                &&& from <= n < g.nodes.len()
                &&& g.nodes[n as int].sched.opened && !g.nodes[n as int].sched.closed
                &&& forall|k: int|
                    from <= k < n ==> !((#[trigger] g.nodes[k]).sched.opened
                        && !g.nodes[k].sched.closed)
            },
            None => forall|k: int|
                from <= k < g.nodes.len() ==> !((#[trigger] g.nodes[k]).sched.opened
                    && !g.nodes[k].sched.closed),
        },
    decreases g.nodes.len() - from,
{
    if from < g.nodes.len() && !(g.nodes[from].sched.opened && !g.nodes[from].sched.closed) {
        teardown_closes_what_is_open(g, from + 1, now);
    }
}

} // verus!

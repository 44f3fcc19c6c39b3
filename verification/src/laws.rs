//! What a running graph promises, whatever it is fed and whatever its kernels
//! return.

use crate::context::ContextView;
use crate::engine::{heads_keep, keeps_closed_node, keeps_finished, keeps_ran, keeps_timed};
use crate::graph::{
    alike, keeps_all_queued, keeps_consumed, keeps_dispatched, kin, kin_fits, kin_trans, node_kin,
};
use crate::packet::{no_packets, Packet};
use crate::run_state::{
    head, heads_dequeued, one_more, Action, KernelPhase, NodeSched, NodeStats, PollerView, RunEdge,
    RunView, Task,
};
use crate::runtime::SharedView;
use crate::schedule::{
    keeps_all_flushed, keeps_all_scheduled, keeps_edge_closed, keeps_edges_closed, keeps_flushed,
    keeps_scheduled, keeps_sent,
};
use vstd::prelude::*;

verus! {

// --------------------------------------------------------- what steps preserve

/// Closing prepares nothing but the node's own context.
proof fn closing_keeps(g: RunView, n: int, now: u64, task: Task)
    requires
        g.fits(),
        0 <= n < g.nodes.len(),
        task == Task::Closing(n as usize) || task == Task::Sweeping(n as usize),
    ensures
        kin(g, g.closing(n).calling(n, now, task)),
        g.closing(n).calling(n, now, task).fits(),
{
    let after = g.closing(n).calling(n, now, task);
    assert(kin(g, after));
    kin_fits(g, after);
}

proof fn after_run_keeps(g: RunView, n: int, now: u64)
    requires
        g.fits(),
        0 <= n < g.nodes.len(),
    ensures
        kin(g, g.after_run(n, now).0),
        g.after_run(n, now).0.fits(),
{
    let after = g.finished(n);
    keeps_finished(g, n);
    if after.closable(n) {
        closing_keeps(after, n, now, Task::Closing(n as usize));
        kin_trans(g, after, g.after_run(n, now).0);
    } else {
        assert(kin(after, after.resting()));
        kin_trans(g, after, after.resting());
        kin_fits(after, after.resting());
    }
}

proof fn sweep_keeps(g: RunView, n: int, progressed: bool, now: u64)
    requires
        g.fits(),
        0 <= n,
    ensures
        kin(g, g.swept(n, progressed, now).0),
        g.swept(n, progressed, now).0.fits(),
    decreases g.nodes.len() - n,
{
    if n >= g.nodes.len() {
        let after = g.swept(n, progressed, now).0;
        assert(kin(g, after));
        kin_fits(g, after);
    } else if g.closable(n) {
        closing_keeps(g, n, now, Task::Sweeping(n as usize));
    } else {
        sweep_keeps(g, n + 1, progressed, now);
    }
}

/// A step leaves the graph the same graph: what is closed stays closed, the
/// first failure stays the first, and the time stamps that the graph inputs
/// remember survive whatever is taken out of the queues.
pub proof fn steps_preserve(g: RunView, now: u64)
    requires
        g.fits(),
    ensures
        kin(g, g.stepped(now).0),
        g.stepped(now).0.fits(),
{
    if g.main_queue.len() > 0 {
        let n = g.main_queue[0] as int;
        let node = g.nodes[n];
        let taken = RunView {
            main_queue: g.main_queue.drop_first(),
            shared: heads_dequeued(g.shared, node.queues, node.queues.len()),
            ..g
        }.with_node(n, node.fed());
        heads_keep(g.shared, node.queues, node.queues.len());
        assert(node.fits(g.edges.len()));
        assert(kin(g, taken));
        assert forall|k: int| 0 <= k < taken.main_queue.len() implies #[trigger] taken.main_queue[k]
            < taken.nodes.len() by {
            assert(taken.main_queue[k] == g.main_queue[k + 1]);
        }
        kin_fits(g, taken);
        match taken.nodes[n].type_problem(node.input_types.len(), g.shared.type_names) {
            Some(e) => {
                let stats = node.stats;
                let refused = taken.with_ctx(n, taken.nodes[n].ctx.discarded()).with_stats(
                    n,
                    NodeStats { errors: one_more(stats.errors), ..stats },
                ).failed(e);
                assert(kin(taken, refused));
                kin_fits(taken, refused);
                kin_trans(g, taken, refused);
                after_run_keeps(refused, n, now);
                kin_trans(g, refused, g.stepped(now).0);
            },
            None => {
                let after = taken.calling(n, now, Task::Processing(n as usize));
                assert(kin(taken, after));
                kin_fits(taken, after);
                kin_trans(g, taken, after);
            },
        }
    } else {
        sweep_keeps(g, 0, false, now);
    }
}

/// So does what follows a kernel call, whatever the kernel returned.
pub proof fn calls_preserve(g: RunView, rc: i32, us: i64, now: u64)
    requires
        g.fits(),
    ensures
        kin(g, g.resumed(rc, us, now).0),
        g.resumed(rc, us, now).0.fits(),
{
    match g.task {
        Task::Processing(n) => {
            let back = g.timed(n as int, KernelPhase::Process, us);
            keeps_timed(g, n as int, KernelPhase::Process, us);
            keeps_ran(back, n as int, rc);
            kin_trans(g, back, back.ran(n as int, rc));
            after_run_keeps(back.ran(n as int, rc), n as int, now);
            kin_trans(g, back.ran(n as int, rc), g.resumed(rc, us, now).0);
        },
        Task::Closing(n) => {
            let back = g.timed(n as int, KernelPhase::Close, us);
            keeps_timed(g, n as int, KernelPhase::Close, us);
            keeps_closed_node(back, n as int, rc);
            let shut = back.closed_node(n as int, rc);
            kin_trans(g, back, shut);
            assert(kin(shut, shut.resting()));
            kin_fits(shut, shut.resting());
            kin_trans(g, shut, shut.resting());
        },
        Task::Sweeping(n) => {
            let back = g.timed(n as int, KernelPhase::Close, us);
            keeps_timed(g, n as int, KernelPhase::Close, us);
            keeps_closed_node(back, n as int, rc);
            let shut = back.closed_node(n as int, rc);
            kin_trans(g, back, shut);
            sweep_keeps(shut, n + 1, true, now);
            kin_trans(g, shut, g.resumed(rc, us, now).0);
        },
        _ => {
            assert(kin(g, g));
        },
    }
}

// ------------------------------------------------------------------ the claims

/// The node whose run is under way.
pub open spec fn holder(task: Task) -> Option<int> {
    match task {
        Task::Processing(n) => Some(n as int),
        _ => None,
    }
}

/// Whether every claim is held once: a node that is claimed waits in line or
/// runs, no node stands in line twice, and a node in line is open and ready.
pub open spec fn orderly(g: RunView, busy: Option<int>) -> bool {
    &&& g.main_queue.no_duplicates()
    &&& forall|k: int|
        0 <= k < g.main_queue.len() ==> {
            let n = #[trigger] g.main_queue[k] as int;
            &&& g.nodes[n].sched.running
            &&& g.nodes[n].sched.opened
            &&& !g.nodes[n].sched.closed
            &&& g.nodes[n].ready()
            &&& busy != Some(n)
        }
    &&& forall|n: int|
        0 <= n < g.nodes.len() && (#[trigger] g.nodes[n]).sched.running ==> g.main_queue.contains(
            n as usize,
        ) || busy == Some(n)
    &&& busy matches Some(b) ==> {
        &&& 0 <= b < g.nodes.len()
        &&& g.nodes[b].sched.running
        &&& g.nodes[b].sched.opened
        &&& !g.nodes[b].sched.closed
    }
}

/// Whether no node reads what it produces itself.
pub open spec fn forward_only(g: RunView) -> bool {
    forall|n: int, o: int, k: int|
        0 <= n < g.nodes.len() && 0 <= o < g.nodes[n].outputs.len() && 0 <= k
            < g.edges[g.nodes[n].outputs[o] as int].consumers.len() ==> (
        #[trigger] g.edges[g.nodes[n].outputs[o] as int].consumers[k]).0 != n
}

/// Whether a graph is run in order.
pub open spec fn well_run(g: RunView) -> bool {
    &&& g.fits()
    &&& forward_only(g)
    &&& orderly(g, holder(g.task))
}

proof fn forward_stays(a: RunView, b: RunView)
    requires
        a.fits(),
        forward_only(a),
        alike(a, b),
    ensures
        forward_only(b),
{
    assert forall|n: int, o: int, k: int|
        0 <= n < b.nodes.len() && 0 <= o < b.nodes[n].outputs.len() && 0 <= k
            < b.edges[b.nodes[n].outputs[o] as int].consumers.len() implies (
    #[trigger] b.edges[b.nodes[n].outputs[o] as int].consumers[k]).0 != n by {
        assert(node_kin(a.nodes[n], b.nodes[n]));
        assert(a.nodes[n].fits(a.edges.len()));
        let e = a.nodes[n].outputs[o] as int;
        assert(b.edges[e].consumers == a.edges[e].consumers);
        assert(a.edges[a.nodes[n].outputs[o] as int].consumers[k].0 != n);
    }
}

/// Whether only packets were added: every claim is the same, and what was
/// ready is.
spec fn calm(a: RunView, b: RunView) -> bool {
    &&& a.nodes.len() == b.nodes.len()
    &&& a.main_queue == b.main_queue
    &&& forall|n: int|
        0 <= n < a.nodes.len() ==> (#[trigger] b.nodes[n]).sched == a.nodes[n].sched && (
        a.nodes[n].ready() ==> b.nodes[n].ready())
}

proof fn calm_keeps(a: RunView, b: RunView, busy: Option<int>)
    requires
        a.fits(),
        calm(a, b),
        orderly(a, busy),
    ensures
        orderly(b, busy),
{
    assert forall|k: int| 0 <= k < b.main_queue.len() implies {
        let n = #[trigger] b.main_queue[k] as int;
        &&& b.nodes[n].sched.running
        &&& b.nodes[n].sched.opened
        &&& !b.nodes[n].sched.closed
        &&& b.nodes[n].ready()
        &&& busy != Some(n)
    } by {
        let n = a.main_queue[k] as int;
        assert(b.nodes[n].sched == a.nodes[n].sched);
    }
    assert forall|n: int|
        0 <= n < b.nodes.len() && (
        #[trigger] b.nodes[n]).sched.running implies b.main_queue.contains(n as usize) || busy
        == Some(n) by {
        assert(a.nodes[n].sched == b.nodes[n].sched);
    }
}

proof fn calm_trans(a: RunView, b: RunView, c: RunView)
    requires
        calm(a, b),
        calm(b, c),
    ensures
        calm(a, c),
{
    assert forall|n: int| 0 <= n < a.nodes.len() implies (#[trigger] c.nodes[n]).sched
        == a.nodes[n].sched && (a.nodes[n].ready() ==> c.nodes[n].ready()) by {
        assert(b.nodes[n].sched == a.nodes[n].sched);
    }
}

proof fn queued_is_calm(g: RunView, edge: int, node: int, port: int, p: Packet)
    requires
        0 <= node < g.nodes.len(),
        0 <= port < g.nodes[node].queues.len(),
    ensures
        calm(g, g.queued(edge, node, port, p)),
{
    let after = g.queued(edge, node, port, p);
    let was = g.nodes[node];
    let is = after.nodes[node];
    assert(is.queues[port].len() > 0);
    if was.ready() {
        if was.policy is Immediate {
            assert(is.queues[port].len() > 0);
            assert(is.ready());
        } else {
            assert forall|i: int| 0 <= i < is.queues.len() implies (#[trigger] is.queues[i]).len()
                > 0 by {
                if i != port {
                    assert(was.queues[i].len() > 0);
                }
            }
        }
    }
}

proof fn all_queued_is_calm(g: RunView, edge: int, node: int, port: int, packets: Seq<Packet>)
    requires
        0 <= edge < g.edges.len(),
        0 <= node < g.nodes.len(),
        0 <= port < g.nodes[node].queues.len(),
    ensures
        calm(g, g.all_queued(edge, node, port, packets)),
    decreases packets.len(),
{
    if packets.len() > 0 {
        let before = g.all_queued(edge, node, port, packets.drop_last());
        all_queued_is_calm(g, edge, node, port, packets.drop_last());
        keeps_all_queued(g, edge, node, port, packets.drop_last());
        assert(node_kin(g.nodes[node], before.nodes[node]));
        queued_is_calm(before, edge, node, port, packets.last());
        calm_trans(g, before, g.all_queued(edge, node, port, packets));
    }
}

proof fn consumed_is_calm(g: RunView, edge: int, packets: Seq<Packet>, k: nat)
    requires
        g.fits(),
        0 <= edge < g.edges.len(),
        k <= g.edges[edge].consumers.len(),
    ensures
        calm(g, g.consumed(edge, packets, k)),
    decreases k,
{
    if k > 0 {
        let before = g.consumed(edge, packets, (k - 1) as nat);
        consumed_is_calm(g, edge, packets, (k - 1) as nat);
        keeps_consumed(g, edge, packets, (k - 1) as nat);
        let (node, port) = g.edges[edge].consumers[k - 1];
        assert(node_kin(g.nodes[node as int], before.nodes[node as int]));
        assert(g.nodes[node as int].fits(g.edges.len()));
        all_queued_is_calm(before, edge, node as int, port as int, packets);
        let now = before.all_queued(edge, node as int, port as int, packets);
        calm_trans(g, before, now);
        assert(calm(now, g.consumed(edge, packets, k)));
        calm_trans(g, now, g.consumed(edge, packets, k));
    }
}

proof fn dispatched_is_calm(g: RunView, edge: int, packets: Seq<Packet>)
    requires
        g.fits(),
        0 <= edge < g.edges.len(),
    ensures
        calm(g, g.dispatched(edge, packets)),
{
    let e = g.edges[edge];
    let told = RunView {
        outbox: g.outbox + RunView::notices(e.observers, packets, e.observers.len()),
        ..g
    }.with_edge(
        edge,
        RunEdge {
            pollers: Seq::new(
                e.pollers.len(),
                |i: int| PollerView { queue: e.pollers[i].queue + packets, ..e.pollers[i] },
            ),
            ..e
        },
    );
    assert(kin(g, told));
    kin_fits(g, told);
    assert(calm(g, told));
    consumed_is_calm(told, edge, packets, e.consumers.len());
    calm_trans(g, told, g.dispatched(edge, packets));
}

proof fn scheduled_is_orderly(g: RunView, n: int, busy: Option<int>)
    requires
        g.fits(),
        orderly(g, busy),
        0 <= n < g.nodes.len(),
    ensures
        orderly(g.scheduled(n), busy),
        forall|m: int|
            0 <= m < g.nodes.len() && m != n ==> #[trigger] g.scheduled(n).nodes[m] == g.nodes[m],
{
    let after = g.scheduled(n);
    if g.claimable(n) {
        assert(!g.main_queue.contains(n as usize)) by {
            if g.main_queue.contains(n as usize) {
                let k = g.main_queue.index_of(n as usize);
                assert(g.nodes[g.main_queue[k] as int].sched.running);
            }
        }
        assert(after.main_queue == g.main_queue.push(n as usize));
        assert forall|k: int| 0 <= k < after.main_queue.len() implies {
            let m = #[trigger] after.main_queue[k] as int;
            &&& after.nodes[m].sched.running
            &&& after.nodes[m].sched.opened
            &&& !after.nodes[m].sched.closed
            &&& after.nodes[m].ready()
            &&& busy != Some(m)
        } by {
            if k < g.main_queue.len() {
                assert(after.main_queue[k] == g.main_queue[k]);
                assert(g.nodes[g.main_queue[k] as int].sched.running);
                assert(g.main_queue.contains(g.main_queue[k]));
            } else {
                assert(after.main_queue[k] == n);
                assert(after.nodes[n].queues == g.nodes[n].queues);
            }
        }
        assert forall|m: int|
            0 <= m < after.nodes.len() && (
            #[trigger] after.nodes[m]).sched.running implies after.main_queue.contains(
            m as usize,
        ) || busy == Some(m) by {
            if m == n {
                assert(after.main_queue[g.main_queue.len() as int] == n);
            } else {
                assert(g.nodes[m].sched.running);
                if g.main_queue.contains(m as usize) {
                    let k = g.main_queue.index_of(m as usize);
                    assert(after.main_queue[k] == m);
                }
            }
        }
    } else {
        assert forall|k: int| 0 <= k < after.main_queue.len() implies {
            let m = #[trigger] after.main_queue[k] as int;
            &&& after.nodes[m].sched.running
            &&& after.nodes[m].sched.opened
            &&& !after.nodes[m].sched.closed
            &&& after.nodes[m].ready()
            &&& busy != Some(m)
        } by {
            let m = g.main_queue[k] as int;
            assert(after.nodes[m].queues == g.nodes[m].queues);
            assert(g.nodes[m].ready());
        }
        assert forall|m: int|
            0 <= m < after.nodes.len() && (
            #[trigger] after.nodes[m]).sched.running implies after.main_queue.contains(
            m as usize,
        ) || busy == Some(m) by {
            assert(g.nodes[m].sched.running);
        }
    }
}

/// Whether a node is not among those who read an edge.
spec fn not_reader(g: RunView, edge: int, m: int) -> bool {
    forall|k: int|
        0 <= k < g.edges[edge].consumers.len() ==> (#[trigger] g.edges[edge].consumers[k]).0 != m
}

proof fn all_scheduled_is_orderly(g: RunView, edge: int, k: nat, busy: Option<int>)
    requires
        g.fits(),
        orderly(g, busy),
        0 <= edge < g.edges.len(),
        k <= g.edges[edge].consumers.len(),
    ensures
        orderly(g.all_scheduled(edge, k), busy),
        forall|m: int|
            0 <= m < g.nodes.len() && not_reader(g, edge, m)
                ==> #[trigger] g.all_scheduled(edge, k).nodes[m] == g.nodes[m],
    decreases k,
{
    if k > 0 {
        let before = g.all_scheduled(edge, (k - 1) as nat);
        all_scheduled_is_orderly(g, edge, (k - 1) as nat, busy);
        keeps_all_scheduled(g, edge, (k - 1) as nat);
        let node = g.edges[edge].consumers[k - 1].0 as int;
        assert(g.edges[edge].consumers[k - 1].0 < g.nodes.len());
        scheduled_is_orderly(before, node, busy);
        assert forall|m: int|
            0 <= m < g.nodes.len() && not_reader(
                g,
                edge,
                m,
            ) implies #[trigger] g.all_scheduled(edge, k).nodes[m] == g.nodes[m] by {
            assert(g.edges[edge].consumers[k - 1].0 != m);
            assert(before.nodes[m] == g.nodes[m]);
        }
    }
}

/// Sending keeps the claims in order, and the claims of those who do not read
/// the edge as they are.
proof fn sent_is_orderly(g: RunView, edge: int, packets: Seq<Packet>, busy: Option<int>)
    requires
        g.fits(),
        orderly(g, busy),
        0 <= edge < g.edges.len(),
    ensures
        orderly(g.sent(edge, packets), busy),
        forall|m: int|
            0 <= m < g.nodes.len() && not_reader(g, edge, m) ==> (#[trigger] g.sent(
                edge,
                packets,
            ).nodes[m]).sched == g.nodes[m].sched,
{
    let after = g.dispatched(edge, packets);
    keeps_dispatched(g, edge, packets);
    dispatched_is_calm(g, edge, packets);
    calm_keeps(g, after, busy);
    assert(after.edges[edge].consumers == g.edges[edge].consumers);
    all_scheduled_is_orderly(after, edge, g.edges[edge].consumers.len(), busy);
    assert forall|m: int| 0 <= m < g.nodes.len() && not_reader(g, edge, m) implies (
    #[trigger] g.sent(edge, packets).nodes[m]).sched == g.nodes[m].sched by {
        assert(not_reader(after, edge, m)) by {
            assert forall|k: int| 0 <= k < after.edges[edge].consumers.len() implies (
            #[trigger] after.edges[edge].consumers[k]).0 != m by {
                assert(g.edges[edge].consumers[k].0 != m);
            }
        }
        assert(g.sent(edge, packets).nodes[m] == after.nodes[m]);
        assert(after.nodes[m].sched == g.nodes[m].sched);
    }
}

proof fn flushed_is_orderly(
    g: RunView,
    n: int,
    staging: Seq<Seq<Packet>>,
    k: nat,
    busy: Option<int>,
)
    requires
        g.fits(),
        forward_only(g),
        orderly(g, busy),
        0 <= n < g.nodes.len(),
        k <= g.nodes[n].outputs.len(),
    ensures
        orderly(g.flushed(n, staging, k), busy),
        g.flushed(n, staging, k).nodes[n].sched == g.nodes[n].sched,
    decreases k,
{
    if k > 0 {
        let before = g.flushed(n, staging, (k - 1) as nat);
        flushed_is_orderly(g, n, staging, (k - 1) as nat, busy);
        keeps_flushed(g, n, staging, (k - 1) as nat);
        assert(g.nodes[n].fits(g.edges.len()));
        if staging[k - 1].len() > 0 {
            let edge = g.nodes[n].outputs[k - 1] as int;
            sent_is_orderly(before, edge, staging[k - 1], busy);
            assert(not_reader(before, edge, n)) by {
                assert(before.edges[edge].consumers == g.edges[edge].consumers);
                assert forall|j: int| 0 <= j < before.edges[edge].consumers.len() implies (
                #[trigger] before.edges[edge].consumers[j]).0 != n by {
                    assert(g.edges[g.nodes[n].outputs[k - 1] as int].consumers[j].0 != n);
                }
            }
            assert(before.sent(edge, staging[k - 1]).nodes[n].sched == before.nodes[n].sched);
        }
    }
}

proof fn all_flushed_is_orderly(g: RunView, n: int, busy: Option<int>)
    requires
        g.fits(),
        forward_only(g),
        orderly(g, busy),
        0 <= n < g.nodes.len(),
    ensures
        orderly(g.all_flushed(n), busy),
        g.all_flushed(n).nodes[n].sched == g.nodes[n].sched,
{
    let ctx = g.nodes[n].ctx;
    let cleared = g.with_ctx(
        n,
        ContextView {
            staging: no_packets(ctx.staging.len()),
            ..ctx
        },
    );
    assert(kin(g, cleared));
    kin_fits(g, cleared);
    forward_stays(g, cleared);
    assert(cleared.nodes[n].queues == g.nodes[n].queues);
    assert(calm(g, cleared));
    calm_keeps(g, cleared, busy);
    flushed_is_orderly(cleared, n, ctx.staging, g.nodes[n].outputs.len(), busy);
}

proof fn ports_closed_is_calm(g: RunView, ports: Seq<(usize, usize)>, k: nat)
    requires
        g.fits(),
        k <= ports.len(),
        forall|i: int|
            0 <= i < ports.len() ==> {
                let (node, port) = #[trigger] ports[i];
                node < g.nodes.len() && port < g.nodes[node as int].inputs.len()
            },
    ensures
        calm(g, g.ports_closed(ports, k)),
    decreases k,
{
    if k > 0 {
        let before = g.ports_closed(ports, (k - 1) as nat);
        ports_closed_is_calm(g, ports, (k - 1) as nat);
        let (node, port) = ports[k - 1];
        let after = g.ports_closed(ports, k);
        assert(after.nodes[node as int].queues == before.nodes[node as int].queues);
        assert(calm(before, after));
        calm_trans(g, before, after);
    }
}

proof fn edge_closed_is_calm(g: RunView, edge: int)
    requires
        g.fits(),
        0 <= edge < g.edges.len(),
    ensures
        calm(g, g.edge_closed(edge)),
{
    let e = g.edges[edge];
    if !e.closed {
        let shut = g.with_edge(
            edge,
            RunEdge {
                closed: true,
                pollers: Seq::new(
                    e.pollers.len(),
                    |i: int| PollerView { closed: true, ..e.pollers[i] },
                ),
                ..e
            },
        );
        assert(kin(g, shut));
        kin_fits(g, shut);
        assert forall|i: int| 0 <= i < e.consumers.len() implies {
            let (node, port) = #[trigger] e.consumers[i];
            node < shut.nodes.len() && port < shut.nodes[node as int].inputs.len()
        } by {
            let (node, port) = g.edges[edge].consumers[i];
        }
        assert(calm(g, shut));
        ports_closed_is_calm(shut, e.consumers, e.consumers.len());
        calm_trans(g, shut, g.edge_closed(edge));
    } else {
        assert(calm(g, g));
    }
}

proof fn edges_closed_is_calm(g: RunView, edges: Seq<usize>, k: nat)
    requires
        g.fits(),
        k <= edges.len(),
        forall|i: int| 0 <= i < edges.len() ==> #[trigger] edges[i] < g.edges.len(),
    ensures
        calm(g, g.edges_closed(edges, k)),
    decreases k,
{
    if k > 0 {
        let before = g.edges_closed(edges, (k - 1) as nat);
        edges_closed_is_calm(g, edges, (k - 1) as nat);
        keeps_edges_closed(g, edges, (k - 1) as nat);
        assert(edges[k - 1] < before.edges.len());
        edge_closed_is_calm(before, edges[k - 1] as int);
        calm_trans(g, before, g.edges_closed(edges, k));
    } else {
        assert(calm(g, g));
    }
}

proof fn ran_is_orderly(g: RunView, n: int, rc: i32, busy: Option<int>)
    requires
        g.fits(),
        forward_only(g),
        orderly(g, busy),
        0 <= n < g.nodes.len(),
    ensures
        orderly(g.ran(n, rc), busy),
        g.ran(n, rc).nodes[n].sched == g.nodes[n].sched,
{
    let stats = g.nodes[n].stats;
    if g.outcome(n, rc) is Some {
        assert(g.ran(n, rc).nodes[n].queues == g.nodes[n].queues);
        assert(calm(g, g.ran(n, rc)));
        calm_keeps(g, g.ran(n, rc), busy);
    } else {
        let counted = g.with_stats(n, NodeStats { processed: one_more(stats.processed), ..stats });
        assert(kin(g, counted));
        kin_fits(g, counted);
        forward_stays(g, counted);
        assert(counted.nodes[n].queues == g.nodes[n].queues);
        assert(calm(g, counted));
        calm_keeps(g, counted, busy);
        all_flushed_is_orderly(counted, n, busy);
        keeps_all_flushed(counted, n);
        let out = counted.all_flushed(n);
        assert(g.ran(n, rc).nodes[n].queues == out.nodes[n].queues);
        assert(calm(out, g.ran(n, rc)));
        calm_keeps(out, g.ran(n, rc), busy);
    }
}

proof fn closed_node_is_orderly(g: RunView, n: int, rc: i32, busy: Option<int>)
    requires
        g.fits(),
        forward_only(g),
        orderly(g, busy),
        0 <= n < g.nodes.len(),
        !g.nodes[n].sched.running,
    ensures
        orderly(g.closed_node(n, rc), busy),
{
    let ctx = g.nodes[n].ctx;
    let after = if g.outcome(n, rc) is Some {
        g.with_ctx(n, (ContextView { error_msg: None, ..ctx }).discarded()).failed(
            g.outcome(n, rc)->Some_0,
        )
    } else {
        g.all_flushed(n)
    };
    if g.outcome(n, rc) is Some {
        assert(kin(g, after));
        kin_fits(g, after);
        assert(after.nodes[n].queues == g.nodes[n].queues);
        assert(calm(g, after));
        calm_keeps(g, after, busy);
    } else {
        all_flushed_is_orderly(g, n, busy);
        keeps_all_flushed(g, n);
    }
    assert(after.nodes[n].sched == g.nodes[n].sched);
    let released = after.with_ctx(n, after.nodes[n].ctx.released());
    let shut = released.with_sched(n, NodeSched { closed: true, ..released.nodes[n].sched });
    assert(kin(after, shut));
    kin_trans(g, after, shut);
    kin_fits(g, shut);
    assert(orderly(shut, busy)) by {
        assert forall|k: int| 0 <= k < shut.main_queue.len() implies {
            let m = #[trigger] shut.main_queue[k] as int;
            &&& shut.nodes[m].sched.running
            &&& shut.nodes[m].sched.opened
            &&& !shut.nodes[m].sched.closed
            &&& shut.nodes[m].ready()
            &&& busy != Some(m)
        } by {
            let m = after.main_queue[k] as int;
            assert(after.nodes[m].sched.running);
            assert(m != n);
        }
        assert forall|m: int|
            0 <= m < shut.nodes.len() && (
            #[trigger] shut.nodes[m]).sched.running implies shut.main_queue.contains(m as usize)
            || busy == Some(m) by {
            assert(after.nodes[m].sched.running);
        }
    }
    assert(g.nodes[n].fits(g.edges.len()));
    edges_closed_is_calm(shut, g.nodes[n].outputs, g.nodes[n].outputs.len());
    calm_keeps(shut, g.closed_node(n, rc), busy);
}

/// Whether a node that is being closed is not claimed.
pub open spec fn closes_unclaimed(g: RunView) -> bool {
    match g.task {
        Task::Closing(n) => !g.nodes[n as int].sched.running,
        Task::Sweeping(n) => !g.nodes[n as int].sched.running,
        _ => true,
    }
}

proof fn after_run_is_orderly(g: RunView, n: int, now: u64)
    requires
        g.fits(),
        orderly(g, Some(n)),
        0 <= n < g.nodes.len(),
    ensures
        orderly(g.after_run(n, now).0, None),
        holder(g.after_run(n, now).0.task) is None,
        closes_unclaimed(g.after_run(n, now).0),
{
    let free = g.with_sched(
        n,
        NodeSched { running: false, rescan: false, ..g.nodes[n].sched },
    );
    assert(kin(g, free));
    kin_fits(g, free);
    assert(orderly(free, None)) by {
        assert forall|k: int| 0 <= k < free.main_queue.len() implies {
            let m = #[trigger] free.main_queue[k] as int;
            &&& free.nodes[m].sched.running
            &&& free.nodes[m].sched.opened
            &&& !free.nodes[m].sched.closed
            &&& free.nodes[m].ready()
        } by {
            let m = g.main_queue[k] as int;
            assert(g.nodes[m].sched.running);
            assert(m != n);
        }
        assert forall|m: int|
            0 <= m < free.nodes.len() && (
            #[trigger] free.nodes[m]).sched.running implies free.main_queue.contains(
            m as usize,
        ) by {
            assert(m != n);
            assert(g.nodes[m].sched.running);
        }
    }
    scheduled_is_orderly(free, n, None);
    let after = g.finished(n);
    keeps_finished(g, n);
    let last = g.after_run(n, now).0;
    assert(last.nodes[n].queues == after.nodes[n].queues);
    assert(calm(after, last));
    calm_keeps(after, last, None);
}

proof fn swept_is_orderly(g: RunView, n: int, progressed: bool, now: u64)
    requires
        g.fits(),
        orderly(g, None),
        0 <= n,
    ensures
        orderly(g.swept(n, progressed, now).0, None),
        holder(g.swept(n, progressed, now).0.task) is None,
        closes_unclaimed(g.swept(n, progressed, now).0),
    decreases g.nodes.len() - n,
{
    if n >= g.nodes.len() {
        assert(calm(g, g.swept(n, progressed, now).0));
        calm_keeps(g, g.swept(n, progressed, now).0, None);
    } else if g.closable(n) {
        let after = g.swept(n, progressed, now).0;
        assert(after.nodes[n].queues == g.nodes[n].queues);
        assert(calm(g, after));
        calm_keeps(g, after, None);
    } else {
        swept_is_orderly(g, n + 1, progressed, now);
    }
}

/// A step keeps the claims in order: nobody runs twice at once, and nobody
/// runs without what it needs.
pub proof fn steps_keep_order(g: RunView, now: u64)
    requires
        well_run(g),
        g.task is Idle,
    ensures
        well_run(g.stepped(now).0),
        closes_unclaimed(g.stepped(now).0),
{
    steps_preserve(g, now);
    forward_stays(g, g.stepped(now).0);
    if g.main_queue.len() > 0 {
        let n = g.main_queue[0] as int;
        let node = g.nodes[n];
        let taken = RunView {
            main_queue: g.main_queue.drop_first(),
            shared: heads_dequeued(g.shared, node.queues, node.queues.len()),
            ..g
        }.with_node(n, node.fed());
        heads_keep(g.shared, node.queues, node.queues.len());
        assert(node.fits(g.edges.len()));
        assert(kin(g, taken));
        assert forall|k: int| 0 <= k < taken.main_queue.len() implies #[trigger] taken.main_queue[k]
            < taken.nodes.len() by {
            assert(taken.main_queue[k] == g.main_queue[k + 1]);
        }
        kin_fits(g, taken);
        assert(orderly(taken, Some(n))) by {
            assert(node.sched.running && node.sched.opened && !node.sched.closed);
            assert forall|k: int| 0 <= k < taken.main_queue.len() implies {
                let m = #[trigger] taken.main_queue[k] as int;
                &&& taken.nodes[m].sched.running
                &&& taken.nodes[m].sched.opened
                &&& !taken.nodes[m].sched.closed
                &&& taken.nodes[m].ready()
                &&& Some(n) != Some(m)
            } by {
                assert(taken.main_queue[k] == g.main_queue[k + 1]);
                let m = g.main_queue[k + 1] as int;
                assert(g.nodes[m].sched.running);
                assert(m != n);
            }
            assert forall|m: int|
                0 <= m < taken.nodes.len() && (
                #[trigger] taken.nodes[m]).sched.running implies taken.main_queue.contains(
                m as usize,
            ) || Some(n) == Some(m) by {
                assert(g.nodes[m].sched.running);
                if m != n {
                    let k = g.main_queue.index_of(m as usize);
                    assert(g.main_queue[k] == m);
                    assert(taken.main_queue[k - 1] == m);
                }
            }
            assert forall|i: int, j: int|
                0 <= i < j < taken.main_queue.len() implies taken.main_queue[i]
                != taken.main_queue[j] by {
                assert(g.main_queue[i + 1] != g.main_queue[j + 1]);
            }
        }
        match taken.nodes[n].type_problem(node.input_types.len(), g.shared.type_names) {
            Some(e) => {
                let stats = node.stats;
                let refused = taken.with_ctx(n, taken.nodes[n].ctx.discarded()).with_stats(
                    n,
                    NodeStats { errors: one_more(stats.errors), ..stats },
                ).failed(e);
                assert(kin(taken, refused));
                kin_fits(taken, refused);
                assert(refused.nodes[n].queues == taken.nodes[n].queues);
                assert(calm(taken, refused));
                calm_keeps(taken, refused, Some(n));
                after_run_is_orderly(refused, n, now);
            },
            None => {
                let after = g.stepped(now).0;
                assert(after.nodes[n].queues == taken.nodes[n].queues);
                assert(calm(taken, after));
                calm_keeps(taken, after, Some(n));
            },
        }
    } else {
        swept_is_orderly(g, 0, false, now);
    }
}

/// The time that a call took changes no claim.
proof fn timed_is_orderly(g: RunView, n: int, phase: KernelPhase, us: i64, busy: Option<int>)
    requires
        g.fits(),
        forward_only(g),
        orderly(g, busy),
        0 <= n < g.nodes.len(),
    ensures
        g.timed(n, phase, us).fits(),
        forward_only(g.timed(n, phase, us)),
        orderly(g.timed(n, phase, us), busy),
        g.timed(n, phase, us).nodes.len() == g.nodes.len(),
        g.timed(n, phase, us).nodes[n].sched == g.nodes[n].sched,
{
    let back = g.timed(n, phase, us);
    keeps_timed(g, n, phase, us);
    forward_stays(g, back);
    assert(back.nodes[n].queues == g.nodes[n].queues);
    assert(calm(g, back));
    calm_keeps(g, back, busy);
}

/// So does what follows a kernel call, whatever the kernel returned.
pub proof fn calls_keep_order(g: RunView, rc: i32, us: i64, now: u64)
    requires
        well_run(g),
        closes_unclaimed(g),
    ensures
        well_run(g.resumed(rc, us, now).0),
        closes_unclaimed(g.resumed(rc, us, now).0),
{
    calls_preserve(g, rc, us, now);
    forward_stays(g, g.resumed(rc, us, now).0);
    match g.task {
        Task::Processing(n) => {
            let n = n as int;
            let back = g.timed(n, KernelPhase::Process, us);
            timed_is_orderly(g, n, KernelPhase::Process, us, Some(n));
            ran_is_orderly(back, n, rc, Some(n));
            keeps_ran(back, n, rc);
            after_run_is_orderly(back.ran(n, rc), n, now);
        },
        Task::Closing(n) => {
            let n = n as int;
            let back = g.timed(n, KernelPhase::Close, us);
            timed_is_orderly(g, n, KernelPhase::Close, us, None);
            closed_node_is_orderly(back, n, rc, None);
            keeps_closed_node(back, n, rc);
            let shut = back.closed_node(n, rc);
            assert(calm(shut, shut.resting()));
            calm_keeps(shut, shut.resting(), None);
        },
        Task::Sweeping(n) => {
            let n = n as int;
            let back = g.timed(n, KernelPhase::Close, us);
            timed_is_orderly(g, n, KernelPhase::Close, us, None);
            closed_node_is_orderly(back, n, rc, None);
            keeps_closed_node(back, n, rc);
            let shut = back.closed_node(n, rc);
            swept_is_orderly(shut, n + 1, true, now);
        },
        _ => {},
    }
}

/// So does a packet that a graph input takes.
pub proof fn sends_keep_order(g: RunView, edge: int, p: Packet)
    requires
        well_run(g),
        0 <= edge < g.edges.len(),
    ensures
        well_run(g.accepted(edge, p)),
{
    let marked = g.with_edge(edge, RunEdge { last_sent: p.stamp, ..g.edges[edge] });
    assert(alike(g, marked));
    kin_fits(g, marked);
    forward_stays(g, marked);
    assert(calm(g, marked));
    calm_keeps(g, marked, holder(g.task));
    keeps_sent(marked, edge, seq![p]);
    forward_stays(marked, g.accepted(edge, p));
    sent_is_orderly(marked, edge, seq![p], holder(g.task));
}

/// So does closing a graph input.
pub proof fn closing_keeps_order(g: RunView, edge: int)
    requires
        well_run(g),
        0 <= edge < g.edges.len(),
    ensures
        well_run(g.edge_closed(edge)),
        well_run(g.edge_closed(edge).drain_noted()),
{
    let after = g.edge_closed(edge);
    let noted = after.drain_noted();
    keeps_edge_closed(g, edge);
    forward_stays(g, after);
    edge_closed_is_calm(g, edge);
    calm_keeps(g, after, holder(g.task));
    assert(alike(after, noted));
    kin_fits(after, noted);
    forward_stays(after, noted);
    assert(calm(after, noted));
    calm_keeps(after, noted, holder(g.task));
}

/// So does what asks nothing of a node: to pause, to cancel, to add a poller
/// and to take a packet from one.
pub proof fn host_keeps_order(g: RunView, edge: int, index: int)
    requires
        well_run(g),
        0 <= edge < g.edges.len(),
    ensures
        well_run(RunView { paused: true, ..g }),
        well_run(RunView { shared: (SharedView { cancelled: true, ..g.shared }), ..g }),
        well_run(g.polled(edge)),
        0 <= index < g.edges[edge].pollers.len() ==> well_run(g.popped(edge, index)),
{
    let paused = RunView { paused: true, ..g };
    let cancelled = RunView { shared: (SharedView { cancelled: true, ..g.shared }), ..g };
    let polled = g.polled(edge);
    let popped = g.popped(edge, index);
    still_keeps(g, paused);
    still_keeps(g, cancelled);
    still_keeps(g, polled);
    if 0 <= index < g.edges[edge].pollers.len() {
        still_keeps(g, popped);
    }
}

/// What leaves the nodes, the line and the wiring alone changes no claim.
proof fn still_keeps(a: RunView, b: RunView)
    requires
        well_run(a),
        alike(a, b),
        a.nodes == b.nodes,
        a.main_queue == b.main_queue,
        a.task == b.task,
    ensures
        well_run(b),
{
    kin_fits(a, b);
    forward_stays(a, b);
    assert(calm(a, b));
    calm_keeps(a, b, holder(a.task));
}

proof fn nodes_scheduled_is_orderly(g: RunView, k: nat)
    requires
        well_run(g),
        k <= g.nodes.len(),
    ensures
        well_run(g.nodes_scheduled(k)),
        alike(g, g.nodes_scheduled(k)),
        g.nodes_scheduled(k).task == g.task,
    decreases k,
{
    if k > 0 {
        let before = g.nodes_scheduled((k - 1) as nat);
        nodes_scheduled_is_orderly(g, (k - 1) as nat);
        keeps_scheduled(before, k - 1);
        scheduled_is_orderly(before, k - 1, holder(g.task));
        forward_stays(before, g.nodes_scheduled(k));
    }
}

/// So does going on after a pause.
pub proof fn resuming_keeps_order(g: RunView)
    requires
        well_run(g),
    ensures
        well_run((RunView { paused: false, ..g }).nodes_scheduled(g.nodes.len())),
{
    let awake = RunView { paused: false, ..g };
    still_keeps(g, awake);
    nodes_scheduled_is_orderly(awake, g.nodes.len());
}

/// So does opening the nodes one after the other, whatever a kernel returned.
pub proof fn openings_keep_order(g: RunView, n: usize, rc: i32, us: i64, now: u64)
    requires
        well_run(g),
        n < g.nodes.len(),
        holder(g.task) is None,
    ensures
        well_run(g.opening(n as int, now)),
        ({
            let back = g.timed(n as int, KernelPhase::Open, us);
            &&& well_run(back.open_failed(n as int, rc))
            &&& well_run(back.open_done(n as int).opening(n + 1, now))
        }),
{
    opening_keeps_order(g, n as int, now);
    let back = g.timed(n as int, KernelPhase::Open, us);
    timed_is_orderly(g, n as int, KernelPhase::Open, us, None);
    let failed = back.open_failed(n as int, rc);
    assert(alike(back, failed));
    kin_fits(back, failed);
    forward_stays(back, failed);
    assert(failed.nodes[n as int].queues == back.nodes[n as int].queues);
    assert(calm(back, failed));
    calm_keeps(back, failed, None);
    let open = back.open_done(n as int);
    assert(alike(back, open));
    kin_fits(back, open);
    forward_stays(back, open);
    assert(open.nodes[n as int].queues == back.nodes[n as int].queues);
    assert forall|k: int| 0 <= k < open.main_queue.len() implies {
        let m = #[trigger] open.main_queue[k] as int;
        &&& open.nodes[m].sched.running
        &&& open.nodes[m].sched.opened
        &&& !open.nodes[m].sched.closed
        &&& open.nodes[m].ready()
    } by {
        let m = back.main_queue[k] as int;
        assert(back.nodes[m].sched.running);
    }
    assert forall|m: int|
        0 <= m < open.nodes.len() && (
        #[trigger] open.nodes[m]).sched.running implies open.main_queue.contains(m as usize) by {
        assert(back.nodes[m].sched.running);
    }
    assert(orderly(open, None));
    opening_keeps_order(open, n + 1, now);
}

proof fn opening_keeps_order(g: RunView, n: int, now: u64)
    requires
        g.fits(),
        forward_only(g),
        orderly(g, None),
        0 <= n <= g.nodes.len(),
        g.nodes.len() <= usize::MAX,
    ensures
        well_run(g.opening(n, now)),
{
    let after = g.opening(n, now);
    assert(alike(g, after));
    kin_fits(g, after);
    forward_stays(g, after);
    if n < g.nodes.len() {
        assert(after.nodes[n].queues == g.nodes[n].queues);
    }
    assert(calm(g, after));
    calm_keeps(g, after, None);
}

/// A node that is called to process was in line alone, and under any policy
/// but the immediate one has a packet at every input port.
pub proof fn runs_have_their_inputs(g: RunView, now: u64, n: usize)
    requires
        well_run(g),
        g.task is Idle,
        g.stepped(now).1 == Action::Call(n, KernelPhase::Process),
    ensures
        n < g.nodes.len(),
        !g.stepped(now).0.main_queue.contains(n),
        g.nodes[n as int].policy !is Immediate ==> forall|i: int|
            0 <= i < g.nodes[n as int].queues.len()
                ==> #[trigger] g.stepped(now).0.nodes[n as int].ctx.inputs[i] == Some(
                g.nodes[n as int].queues[i][0],
            ),
        g.nodes[n as int].policy is Immediate ==> exists|i: int|
            0 <= i < g.nodes[n as int].queues.len()
                && #[trigger] g.stepped(now).0.nodes[n as int].ctx.inputs[i] is Some,
{
    steps_keep_order(g, now);
    if g.main_queue.len() == 0 {
        lemma_sweep_calls_close(g, 0, false, now);
        assert(false);
    }
    let m = g.main_queue[0] as int;
    let node = g.nodes[m];
    assert(node.fits(g.edges.len()));
    assert(node.ready());
    let after = g.stepped(now).0;
    assert(after.task == Task::Processing(n)) by {
        let taken = RunView {
            main_queue: g.main_queue.drop_first(),
            shared: heads_dequeued(g.shared, node.queues, node.queues.len()),
            ..g
        }.with_node(m, node.fed());
        if taken.nodes[m].type_problem(node.input_types.len(), g.shared.type_names) is Some {
            assert(false);
        }
    }
    if after.main_queue.contains(n) {
        let k = after.main_queue.index_of(n);
        assert(holder(after.task) != Some(after.main_queue[k] as int));
    }
    if node.policy is Immediate {
        let i = choose|i: int| 0 <= i < node.queues.len() && (#[trigger] node.queues[i]).len() > 0;
        assert(after.nodes[m].ctx.inputs[i] == head(node.queues[i]));
    } else {
        assert forall|i: int| 0 <= i < node.queues.len() implies #[trigger] after.nodes[m].ctx.inputs[i]
            == Some(node.queues[i][0]) by {
            assert(node.queues[i].len() > 0);
        }
    }
}

pub proof fn lemma_sweep_calls_close(g: RunView, n: int, progressed: bool, now: u64)
    requires
        0 <= n,
    ensures
        g.swept(n, progressed, now).1 matches Action::Call(_, phase) ==> phase is Close,
    decreases g.nodes.len() - n,
{
    if n < g.nodes.len() && !g.closable(n) {
        lemma_sweep_calls_close(g, n + 1, progressed, now);
    }
}

proof fn lemma_sweep_calls_open(g: RunView, n: int, progressed: bool, now: u64)
    requires
        0 <= n,
        g.nodes.len() <= usize::MAX,
    ensures
        g.swept(n, progressed, now).1 matches Action::Call(m, _) ==> m < g.nodes.len()
            && g.closable(m as int),
    decreases g.nodes.len() - n,
{
    if n < g.nodes.len() && !g.closable(n) {
        lemma_sweep_calls_open(g, n + 1, progressed, now);
    }
}

/// A step calls a kernel only between its opening and its closing, and closes
/// it only if nothing more can come to it or the graph has to stop.
pub proof fn only_open_nodes_are_called(g: RunView, now: u64, n: usize, phase: KernelPhase)
    requires
        well_run(g),
        g.nodes.len() <= usize::MAX,
        g.task is Idle,
        g.stepped(now).1 == Action::Call(n, phase),
    ensures
        n < g.nodes.len(),
        g.nodes[n as int].sched.opened,
        !g.nodes[n as int].sched.closed,
        g.main_queue.len() == 0 ==> g.shared.stopped() || g.nodes[n as int].drained(),
{
    if g.main_queue.len() == 0 {
        lemma_sweep_calls_open(g, 0, false, now);
    } else {
        assert(g.main_queue[0] < g.nodes.len());
    }
}

proof fn lemma_quiet_sweep(g: RunView, n: int, now: u64)
    requires
        0 <= n,
        g.swept(n, false, now).1 == Action::Done(false),
    ensures
        forall|k: int| n <= k < g.nodes.len() ==> !#[trigger] g.closable(k),
    decreases g.nodes.len() - n,
{
    if n < g.nodes.len() {
        lemma_quiet_sweep(g, n + 1, now);
    }
}

/// A step that did nothing means that there is nothing to do: nobody is in
/// line and nothing is to be closed.
pub proof fn quiet_steps_leave_nothing_undone(g: RunView, now: u64)
    requires
        g.stepped(now).1 == Action::Done(false),
    ensures
        g.main_queue.len() == 0,
        forall|k: int| 0 <= k < g.nodes.len() ==> !#[trigger] g.closable(k),
{
    lemma_quiet_sweep(g, 0, now);
}

} // verus!

//! What a kernel is given in a call, and what becomes of what it emits.

use crate::context::ContextView;
use crate::engine::keeps_timed;
use crate::graph::{keeps_dispatched, kin, kin_fits};
use crate::laws::lemma_sweep_calls_close;
use crate::packet::{first_misfit, fitting_packets_fit, no_packets, Packet};
use crate::port::{decimal_denotes, is_digit};
use crate::run_state::{
    least_stamp, one_more, phase_name, Action, KernelPhase, NodeStats, PollerView, RunEdge, RunNode,
    RunView, Task,
};
use crate::runtime::LOG_WARN;
use crate::schedule::{keeps_all_scheduled, keeps_flushed};
use crate::text::decimal;
use vstd::prelude::*;

verus! {

// ------------------------------------------------------------- what it is given

proof fn lemma_least_stamp(queues: Seq<Seq<Packet>>, k: nat)
    requires
        k <= queues.len(),
    ensures
        forall|i: int|
            0 <= i < k && (#[trigger] queues[i]).len() > 0 ==> least_stamp(queues, k).0
                <= queues[i][0].stamp.0,
        (exists|i: int|
            0 <= i < k && (#[trigger] queues[i]).len() > 0 && queues[i][0].stamp == least_stamp(
                queues,
                k,
            )) || least_stamp(queues, k).0 == i64::MAX,
        (forall|i: int| 0 <= i < k ==> (#[trigger] queues[i]).len() == 0) ==> least_stamp(
            queues,
            k,
        ).0 == i64::MAX,
    decreases k,
{
    if k > 0 {
        lemma_least_stamp(queues, (k - 1) as nat);
        if queues[k - 1].len() > 0 && queues[k - 1][0].stamp.0 < least_stamp(
            queues,
            (k - 1) as nat,
        ).0 {
            assert(queues[k - 1][0].stamp == least_stamp(queues, k));
        }
    }
}

/// A node that is fed gets the first packet of each of its queues, and the
/// time of the call is the least of their time stamps: it is not after any of
/// them, and it is that of one of them.
pub proof fn calls_have_the_time_of_their_inputs(node: RunNode)
    ensures
        node.fed().ctx.inputs.len() == node.queues.len(),
        forall|i: int|
            0 <= i < node.queues.len() ==> match #[trigger] node.fed().ctx.inputs[i] {
                Some(p) => node.queues[i].len() > 0 && p == node.queues[i][0]
                    && node.fed().ctx.input_ts.0 <= p.stamp.0,
                None => node.queues[i].len() == 0,
            },
        (exists|i: int| 0 <= i < node.queues.len() && (#[trigger] node.queues[i]).len() > 0)
            ==> exists|i: int|
            0 <= i < node.queues.len() && (#[trigger] node.fed().ctx.inputs[i] matches Some(p)
                && p.stamp == node.fed().ctx.input_ts),
{
    let fed = node.fed();
    lemma_least_stamp(node.queues, node.queues.len());
    if exists|i: int| 0 <= i < node.queues.len() && (#[trigger] node.queues[i]).len() > 0 {
        let some = choose|i: int|
            0 <= i < node.queues.len() && (#[trigger] node.queues[i]).len() > 0;
        if fed.ctx.input_ts.0 == i64::MAX {
            assert(node.queues[some][0].stamp == fed.ctx.input_ts);
            assert(fed.ctx.inputs[some] == Some(node.queues[some][0]));
        } else {
            let i = choose|i: int|
                0 <= i < node.queues.len() && (#[trigger] node.queues[i]).len() > 0
                    && node.queues[i][0].stamp == least_stamp(node.queues, node.queues.len());
            assert(fed.ctx.inputs[i] == Some(node.queues[i][0]));
        }
    }
}

/// Of what waits at an input port, the kernel gets the first packet and the
/// rest goes on waiting. The port is done if it is closed and nothing waits
/// behind that packet. Nothing of an earlier call is left.
pub proof fn calls_take_one_packet_of_each_port(node: RunNode, i: int)
    requires
        0 <= i < node.queues.len(),
        node.queues.len() == node.closed.len(),
    ensures
        node.queues[i].len() > 0 ==> node.queues[i] == seq![
            node.fed().ctx.inputs[i]->Some_0,
        ] + node.fed().queues[i],
        node.queues[i].len() == 0 ==> node.fed().queues[i].len() == 0
            && node.fed().ctx.inputs[i] is None,
        node.fed().ctx.inputs_done[i] <==> node.closed[i] && node.fed().queues[i].len() == 0,
        node.fed().closed == node.closed,
        node.fed().stats == node.stats,
        node.fed().sched == node.sched,
        forall|o: int|
            0 <= o < node.ctx.staging.len() ==> (#[trigger] node.fed().ctx.staging[o]).len() == 0,
        forall|o: int|
            0 <= o < node.ctx.bounds.len() ==> #[trigger] node.fed().ctx.bounds[o] is None,
        node.fed().ctx.error_msg is None,
        node.fed().ctx.side_packets == node.ctx.side_packets,
        node.fed().ctx.options == node.ctx.options,
{
    if node.queues[i].len() > 0 {
        assert(node.fed().ctx.inputs[i] == Some(node.queues[i][0]));
        assert(node.fed().queues[i] == node.queues[i].drop_first());
        assert(node.queues[i] =~= seq![node.queues[i][0]] + node.fed().queues[i]);
    }
}

/// A call to process is made of the node that is first in line, which leaves
/// the line, and with what was fed to it. No other node changes.
pub proof fn turns_are_taken_in_line(g: RunView, now: u64, n: usize)
    requires
        g.fits(),
        g.stepped(now).1 == Action::Call(n, KernelPhase::Process),
    ensures
        g.main_queue.len() > 0 && n == g.main_queue[0],
        g.stepped(now).0.main_queue == g.main_queue.drop_first(),
        g.stepped(now).0.task == Task::Processing(n),
        g.stepped(now).0.nodes[n as int].ctx == g.nodes[n as int].fed().ctx,
        g.stepped(now).0.nodes[n as int].queues == g.nodes[n as int].fed().queues,
        g.stepped(now).0.nodes[n as int].running_since == Some(now),
        forall|m: int|
            0 <= m < g.nodes.len() && m != n ==> #[trigger] g.stepped(now).0.nodes[m]
                == g.nodes[m],
        g.stepped(now).0.edges == g.edges,
        g.stepped(now).0.outbox == g.outbox,
{
    if g.main_queue.len() == 0 {
        lemma_sweep_calls_close(g, 0, false, now);
        assert(false);
    }
    let m = g.main_queue[0] as int;
    let node = g.nodes[m];
    let taken = g.stepped(now).0;
    if g.stepped(now).1 == Action::Call(n, KernelPhase::Process) {
        assert(m < g.nodes.len());
    }
}

/// Whoever is put in line stands behind all others.
pub proof fn newcomers_stand_behind(g: RunView, n: int)
    requires
        0 <= n < g.nodes.len(),
    ensures
        g.claimable(n) ==> g.scheduled(n).main_queue == g.main_queue.push(n as usize)
            && g.scheduled(n).nodes[n].sched.running,
        !g.claimable(n) ==> g.scheduled(n).main_queue == g.main_queue,
        forall|m: int|
            0 <= m < g.nodes.len() && m != n ==> #[trigger] g.scheduled(n).nodes[m] == g.nodes[m],
        g.scheduled(n).nodes[n].queues == g.nodes[n].queues,
        g.scheduled(n).nodes[n].ctx == g.nodes[n].ctx,
{
}

/// When a node is ready: under the immediate policy if something waits at one
/// of its ports, else only if something waits at each of them.
pub proof fn readiness_follows_the_policy(node: RunNode)
    ensures
        node.policy is Immediate ==> (node.ready() <==> exists|i: int|
            0 <= i < node.queues.len() && (#[trigger] node.queues[i]).len() > 0),
        node.policy !is Immediate ==> (node.ready() <==> forall|i: int|
            0 <= i < node.queues.len() ==> (#[trigger] node.queues[i]).len() > 0),
{
}

// -------------------------------------------------------------- the input types

/// A call is refused for the type of an input exactly if some port that wants
/// a type got a payload of another one.
pub proof fn inputs_are_refused_for_their_type_alone(
    node: RunNode,
    k: nat,
    names: Map<u64, Seq<char>>,
)
    requires
        k <= node.input_types.len(),
    ensures
        node.type_problem(k, names) is Some <==> exists|i: int|
            0 <= i < k && #[trigger] node.input_types[i] != 0 && i < node.ctx.inputs.len() && (
            node.ctx.inputs[i] matches Some(p) && p.payload is Some && p.kind
                != node.input_types[i]),
    decreases k,
{
    if k > 0 {
        inputs_are_refused_for_their_type_alone(node, (k - 1) as nat, names);
        let want = node.input_types[k - 1];
    }
}

/// What a kernel emitted is refused exactly if some port for which it declared
/// a type got a payload of another one.
pub proof fn emissions_are_refused_for_their_type_alone(
    node: RunNode,
    k: nat,
    names: Map<u64, Seq<char>>,
)
    requires
        k <= node.output_types.len(),
    ensures
        node.emission_problem(k, names) is Some <==> exists|o: int, j: int|
            0 <= o < k && node.output_types[o] != 0 && o < node.ctx.staging.len() && 0 <= j
                < node.ctx.staging[o].len() && (#[trigger] node.ctx.staging[o][j]).payload is Some
                && node.ctx.staging[o][j].kind != node.output_types[o],
    decreases k,
{
    if k > 0 {
        emissions_are_refused_for_their_type_alone(node, (k - 1) as nat, names);
        let want = node.output_types[k - 1];
        if k - 1 < node.ctx.staging.len() {
            fitting_packets_fit(node.ctx.staging[k - 1], want);
            if first_misfit(node.ctx.staging[k - 1], want) is Some && want != 0 {
                let j = choose|j: int|
                    0 <= j < node.ctx.staging[k - 1].len() && !((
                    #[trigger] node.ctx.staging[k - 1][j]).is_hollow()
                        || node.ctx.staging[k - 1][j].kind == want);
                assert(node.ctx.staging[k - 1][j].payload is Some);
            }
        }
    }
}

// --------------------------------------------------------------- what it emits

/// An emitted packet is staged behind those emitted before on the same port,
/// with its payload, type and size. A time stamp of its own it keeps; without
/// one it gets the time of the call. No other port is touched.
pub proof fn emissions_inherit_the_time_of_the_call(c: ContextView, port: int, p: Packet)
    requires
        0 <= port < c.staging.len(),
    ensures
        ({
            let after = c.emitted(port, p);
            let staged = after.staging[port].last();
            &&& after.staging.len() == c.staging.len()
            &&& after.staging[port].len() == c.staging[port].len() + 1
            &&& after.staging[port].drop_last() == c.staging[port]
            &&& staged.payload == p.payload && staged.kind == p.kind && staged.bytes == p.bytes
            &&& p.stamp.0 != i64::MIN ==> staged.stamp == p.stamp
            &&& p.stamp.0 == i64::MIN ==> staged.stamp == c.input_ts
            &&& forall|o: int|
                0 <= o < c.staging.len() && o != port ==> #[trigger] after.staging[o]
                    == c.staging[o]
            &&& after.inputs == c.inputs && after.input_ts == c.input_ts && after.bounds
                == c.bounds && after.error_msg == c.error_msg
        }),
{
    assert(c.emitted(port, p).staging[port].drop_last() =~= c.staging[port]);
}

proof fn lemma_queued_pollers(g: RunView, edge: int, node: int, port: int, packets: Seq<Packet>)
    requires
        0 <= edge < g.edges.len(),
    ensures
        ({
            let after = g.all_queued(edge, node, port, packets);
            &&& after.edges.len() == g.edges.len()
            &&& forall|e: int|
                0 <= e < g.edges.len() ==> (#[trigger] after.edges[e]).pollers == g.edges[e].pollers
        }),
    decreases packets.len(),
{
    if packets.len() > 0 {
        lemma_queued_pollers(g, edge, node, port, packets.drop_last());
        let before = g.all_queued(edge, node, port, packets.drop_last());
        let after = g.all_queued(edge, node, port, packets);
        assert forall|e: int| 0 <= e < g.edges.len() implies (#[trigger] after.edges[e]).pollers
            == g.edges[e].pollers by {
            assert(before.edges[e].pollers == g.edges[e].pollers);
        }
    }
}

proof fn lemma_consumed_pollers(g: RunView, edge: int, packets: Seq<Packet>, k: nat)
    requires
        0 <= edge < g.edges.len(),
        k <= g.edges[edge].consumers.len(),
    ensures
        ({
            let after = g.consumed(edge, packets, k);
            &&& after.edges.len() == g.edges.len()
            &&& forall|e: int|
                0 <= e < g.edges.len() ==> (#[trigger] after.edges[e]).pollers == g.edges[e].pollers
        }),
    decreases k,
{
    if k > 0 {
        let before = g.consumed(edge, packets, (k - 1) as nat);
        lemma_consumed_pollers(g, edge, packets, (k - 1) as nat);
        let (node, port) = g.edges[edge].consumers[k - 1];
        lemma_queued_pollers(before, edge, node as int, port as int, packets);
        let after = g.consumed(edge, packets, k);
        assert forall|e: int| 0 <= e < g.edges.len() implies (#[trigger] after.edges[e]).pollers
            == g.edges[e].pollers by {
            assert(before.edges[e].pollers == g.edges[e].pollers);
        }
    }
}

/// Packets on one edge reach the pollers of that edge and of no other.
pub proof fn pollers_hear_their_own_edge(
    g: RunView,
    edge: int,
    packets: Seq<Packet>,
    e: int,
    i: int,
)
    requires
        g.fits(),
        0 <= edge < g.edges.len(),
        0 <= e < g.edges.len(),
        0 <= i < g.edges[e].pollers.len(),
    ensures
        g.sent(edge, packets).edges.len() == g.edges.len(),
        g.sent(edge, packets).edges[e].pollers.len() == g.edges[e].pollers.len(),
        g.sent(edge, packets).edges[e].pollers[i].queue == g.edges[e].pollers[i].queue + (
        if e == edge {
            packets
        } else {
            Seq::<Packet>::empty()
        }),
        g.sent(edge, packets).edges[e].pollers[i].closed == g.edges[e].pollers[i].closed,
{
    let x = g.edges[edge];
    let told = RunView {
        outbox: g.outbox + RunView::notices(x.observers, packets, x.observers.len()),
        ..g
    }.with_edge(
        edge,
        RunEdge {
            pollers: Seq::new(
                x.pollers.len(),
                |i: int| PollerView { queue: x.pollers[i].queue + packets, ..x.pollers[i] },
            ),
            ..x
        },
    );
    lemma_consumed_pollers(told, edge, packets, x.consumers.len());
    assert(g.dispatched(edge, packets) == told.consumed(edge, packets, x.consumers.len()));
    keeps_dispatched(g, edge, packets);
    keeps_all_scheduled(g.dispatched(edge, packets), edge, x.consumers.len());
    assert(g.sent(edge, packets).edges[e].pollers == told.edges[e].pollers);
    assert(g.edges[e].pollers[i].queue + Seq::<Packet>::empty() =~= g.edges[e].pollers[i].queue);
}

/// What the first `k` ports of a list of output ports put out on one edge.
pub open spec fn put_out(
    outputs: Seq<usize>,
    staging: Seq<Seq<Packet>>,
    edge: int,
    k: nat,
) -> Seq<Packet>
    decreases k,
{
    if k == 0 {
        Seq::empty()
    } else if outputs[k - 1] == edge {
        put_out(outputs, staging, edge, (k - 1) as nat) + staging[k - 1]
    } else {
        put_out(outputs, staging, edge, (k - 1) as nat)
    }
}

proof fn lemma_put_out_once(
    outputs: Seq<usize>,
    staging: Seq<Seq<Packet>>,
    o: int,
    k: nat,
)
    requires
        outputs.no_duplicates(),
        0 <= o < outputs.len(),
        k <= outputs.len(),
    ensures
        put_out(outputs, staging, outputs[o] as int, k) == (if o < k {
            staging[o]
        } else {
            Seq::<Packet>::empty()
        }),
    decreases k,
{
    if k > 0 {
        lemma_put_out_once(outputs, staging, o, (k - 1) as nat);
        if k - 1 == o {
            assert(Seq::<Packet>::empty() + staging[o] =~= staging[o]);
        } else {
            assert(outputs[k - 1] != outputs[o]);
        }
    }
}

proof fn lemma_flushed_pollers(
    g: RunView,
    n: int,
    staging: Seq<Seq<Packet>>,
    k: nat,
    e: int,
    i: int,
)
    requires
        g.fits(),
        0 <= n < g.nodes.len(),
        k <= g.nodes[n].outputs.len(),
        0 <= e < g.edges.len(),
        0 <= i < g.edges[e].pollers.len(),
    ensures
        ({
            let after = g.flushed(n, staging, k);
            &&& after.edges.len() == g.edges.len()
            &&& after.edges[e].pollers.len() == g.edges[e].pollers.len()
            &&& after.edges[e].pollers[i].queue == g.edges[e].pollers[i].queue + put_out(
                g.nodes[n].outputs,
                staging,
                e,
                k,
            )
        }),
    decreases k,
{
    let q = g.edges[e].pollers[i].queue;
    let outs = g.nodes[n].outputs;
    if k == 0 {
        assert(q + Seq::<Packet>::empty() =~= q);
    } else {
        let before = g.flushed(n, staging, (k - 1) as nat);
        lemma_flushed_pollers(g, n, staging, (k - 1) as nat, e, i);
        keeps_flushed(g, n, staging, (k - 1) as nat);
        assert(g.nodes[n].fits(g.edges.len()));
        let so_far = put_out(outs, staging, e, (k - 1) as nat);
        if staging[k - 1].len() > 0 {
            pollers_hear_their_own_edge(before, outs[k - 1] as int, staging[k - 1], e, i);
            assert((q + so_far) + staging[k - 1] =~= q + (so_far + staging[k - 1]));
            assert((q + so_far) + Seq::<Packet>::empty() =~= q + so_far);
        } else {
            assert(so_far + staging[k - 1] =~= so_far);
        }
    }
}

/// After a run that did not fail, the pollers of the edge of each output port
/// have got, behind what they had, exactly what was emitted on that port, in
/// its order. After one that failed they have got nothing.
pub proof fn runs_put_out_what_was_emitted(g: RunView, n: int, rc: i32, o: int, i: int)
    requires
        g.fits(),
        0 <= n < g.nodes.len(),
        g.nodes[n].outputs.no_duplicates(),
        0 <= o < g.nodes[n].outputs.len(),
        0 <= i < g.edges[g.nodes[n].outputs[o] as int].pollers.len(),
    ensures
        ({
            let e = g.nodes[n].outputs[o] as int;
            let after = g.ran(n, rc);
            &&& g.outcome(n, rc) is None ==> after.edges[e].pollers[i].queue
                == g.edges[e].pollers[i].queue + g.nodes[n].ctx.staging[o]
            &&& g.outcome(n, rc) is Some ==> after.edges[e].pollers[i].queue
                == g.edges[e].pollers[i].queue
        }),
{
    let stats = g.nodes[n].stats;
    let outs = g.nodes[n].outputs;
    let e = outs[o] as int;
    assert(g.nodes[n].fits(g.edges.len()));
    if g.outcome(n, rc) is None {
        let counted = g.with_stats(n, NodeStats { processed: one_more(stats.processed), ..stats });
        let ctx = counted.nodes[n].ctx;
        let cleared = counted.with_ctx(
            n,
            ContextView { staging: no_packets(ctx.staging.len()), ..ctx },
        );
        assert(kin(g, cleared));
        kin_fits(g, cleared);
        lemma_flushed_pollers(cleared, n, ctx.staging, outs.len(), e, i);
        lemma_put_out_once(outs, ctx.staging, o, outs.len());
    }
}

/// A step and the run that follows it carry a packet through a node: what the
/// kernel emits without a time stamp comes out, for whoever polls the edge,
/// with its payload and the least time stamp of the packets that the kernel
/// was given.
pub proof fn packets_go_through_with_the_time_of_the_input(
    g: RunView,
    now: u64,
    n: usize,
    p: Packet,
    o: int,
    i: int,
    us: i64,
    then: u64,
)
    requires
        g.fits(),
        g.stepped(now).1 == Action::Call(n, KernelPhase::Process),
        g.stepped(now).0.fits(),
        g.nodes[n as int].outputs.no_duplicates(),
        0 <= o < g.nodes[n as int].outputs.len(),
        0 <= i < g.edges[g.nodes[n as int].outputs[o] as int].pollers.len(),
        p.stamp.0 == i64::MIN,
        ({
            let called = g.stepped(now).0;
            let emitting = called.with_ctx(
                n as int,
                called.nodes[n as int].ctx.emitted(o, p),
            );
            emitting.timed(n as int, KernelPhase::Process, us).outcome(n as int, 0) is None
        }),
    ensures
        ({
            let called = g.stepped(now).0;
            let emitting = called.with_ctx(
                n as int,
                called.nodes[n as int].ctx.emitted(o, p),
            );
            let after = emitting.timed(n as int, KernelPhase::Process, us).ran(n as int, 0);
            let e = g.nodes[n as int].outputs[o] as int;
            let heard = after.edges[e].pollers[i].queue;
            &&& heard.len() == g.edges[e].pollers[i].queue.len() + 1
            &&& heard.last().payload == p.payload
            &&& forall|k: int|
                0 <= k < g.nodes[n as int].queues.len() && (
                #[trigger] g.nodes[n as int].queues[k]).len() > 0 ==> heard.last().stamp.0
                    <= g.nodes[n as int].queues[k][0].stamp.0
            &&& (exists|k: int|
                0 <= k < g.nodes[n as int].queues.len() && (
                #[trigger] g.nodes[n as int].queues[k]).len() > 0) ==> exists|k: int|
                0 <= k < g.nodes[n as int].queues.len() && (
                #[trigger] g.nodes[n as int].queues[k]).len() > 0 && g.nodes[n as int].queues[k][0].stamp
                    == heard.last().stamp
        }),
{
    let m = n as int;
    let called = g.stepped(now).0;
    let node = g.nodes[m];
    let emitting = called.with_ctx(m, called.nodes[m].ctx.emitted(o, p));
    turns_are_taken_in_line(g, now, n);
    calls_have_the_time_of_their_inputs(node);
    assert(called.nodes[m].fits(called.edges.len()));
    assert(node.fits(g.edges.len()));
    assert(called.nodes[m].outputs == node.outputs);
    emissions_inherit_the_time_of_the_call(called.nodes[m].ctx, o, p);
    assert(kin(called, emitting));
    kin_fits(called, emitting);
    keeps_timed(emitting, m, KernelPhase::Process, us);
    let back = emitting.timed(m, KernelPhase::Process, us);
    assert(back.nodes[m].ctx == emitting.nodes[m].ctx);
    assert(back.edges == g.edges);
    runs_put_out_what_was_emitted(back, m, 0, o, i);
    assert(node.fed().ctx.staging[o].len() == 0);
    let staged = back.nodes[m].ctx.staging[o];
    assert(staged.len() == 1);
    let e = node.outputs[o] as int;
    let heard = back.ran(m, 0).edges[e].pollers[i].queue;
    assert(heard.last() == staged[0]);
    assert(heard.last().stamp == node.fed().ctx.input_ts);
    assert forall|k: int| 0 <= k < node.queues.len() && (#[trigger] node.queues[k]).len()
        > 0 implies heard.last().stamp.0 <= node.queues[k][0].stamp.0 by {
        assert(node.fed().ctx.inputs[k] == Some(node.queues[k][0]));
    }
    if exists|k: int| 0 <= k < node.queues.len() && (#[trigger] node.queues[k]).len() > 0 {
        let k = choose|k: int|
            0 <= k < node.queues.len() && (#[trigger] node.fed().ctx.inputs[k] matches Some(x)
                && x.stamp == node.fed().ctx.input_ts);
        assert(node.queues[k].len() > 0 && node.queues[k][0].stamp == heard.last().stamp);
    }
}

// ------------------------------------------------------------- what is counted

/// A run counts as one: as processed if it did not fail, as an error if it
/// did, and never as both.
pub proof fn runs_count_once(g: RunView, n: int, rc: i32)
    requires
        g.fits(),
        0 <= n < g.nodes.len(),
        g.outcome(n, rc) is Some,
    ensures
        g.ran(n, rc).nodes[n].stats.processed == g.nodes[n].stats.processed,
        g.nodes[n].stats.errors < u64::MAX ==> g.ran(n, rc).nodes[n].stats.errors
            == g.nodes[n].stats.errors + 1,
        g.shared.error is None ==> g.ran(n, rc).shared.error == g.outcome(n, rc),
        g.shared.error is Some ==> g.ran(n, rc).shared.error == g.shared.error,
{
}

/// A call that returned another status than zero failed, with what the kernel
/// said of it.
pub proof fn status_codes_are_failures(g: RunView, n: int, rc: i32)
    requires
        rc != 0,
    ensures
        g.outcome(n, rc) is Some,
        g.nodes[n].ctx.error_msg matches Some(m) ==> g.outcome(n, rc)->Some_0.text() == "["@
            + g.nodes[n].ctx.node_name + "] "@ + m,
{
}

/// The time of a run is added to the total and raises the greatest time if it
/// was longer. The times of openings and closings are in no total.
pub proof fn runs_are_timed(g: RunView, n: int, us: i64)
    requires
        0 <= n < g.nodes.len(),
    ensures
        ({
            let before = g.nodes[n].stats;
            let after = g.timed(n, KernelPhase::Process, us).nodes[n].stats;
            &&& before.total_us + us <= i64::MAX && before.total_us + us >= i64::MIN
                ==> after.total_us == before.total_us + us
            &&& after.max_us >= before.max_us && after.max_us >= us
            &&& after.max_us == before.max_us || after.max_us == us
            &&& after.processed == before.processed && after.errors == before.errors
        }),
        g.timed(n, KernelPhase::Open, us).nodes[n].stats == g.nodes[n].stats,
        g.timed(n, KernelPhase::Close, us).nodes[n].stats == g.nodes[n].stats,
        g.timed(n, KernelPhase::Process, us).nodes[n].running_since is None,
        g.timed(n, KernelPhase::Open, us).nodes[n].running_since is None,
        g.timed(n, KernelPhase::Close, us).nodes[n].running_since is None,
{
}

/// Whether a text holds another one.
pub open spec fn mentions_text(text: Seq<char>, part: Seq<char>) -> bool {
    exists|k: int| 0 <= k <= text.len() - part.len() && #[trigger] text.subrange(
        k,
        k + part.len(),
    ) == part
}

/// A text put together from two holds a character only if one of them does.
pub proof fn joined_texts_stay_clean(a: Seq<char>, b: Seq<char>, c: char)
    requires
        !a.contains(c),
        !b.contains(c),
    ensures
        !(a + b).contains(c),
{
    assert forall|i: int| 0 <= i < (a + b).len() implies (a + b)[i] != c by {
        if i < a.len() {
            assert(a.contains(a[i]));
        } else {
            assert(b.contains(b[i - a.len()]));
        }
    }
}

pub proof fn lemma_number_is_clean(n: nat)
    ensures
        !decimal(n).contains('\0'),
{
    decimal_denotes(n);
    assert forall|i: int| 0 <= i < decimal(n).len() implies decimal(n)[i] != '\0' by {
        assert(is_digit(decimal(n)[i]));
    }
}

/// The watchdog warns once, and exactly of a call that took longer than it
/// allows, by the name of the node. Without a limit it never warns.
pub proof fn slow_calls_are_warned_about(g: RunView, n: int, phase: KernelPhase, us: i64)
    requires
        0 <= n < g.nodes.len(),
        !g.nodes[n].name.contains('\0'),
    ensures
        ({
            let limit = g.shared.config.watchdog_ms;
            let log = g.timed(n, phase, us).shared.log;
            &&& limit == 0 || us <= limit * 1000 ==> log == g.shared.log
            &&& limit > 0 && us > limit * 1000 ==> {
                &&& log.len() == g.shared.log.len() + 1
                &&& log.drop_last() == g.shared.log
                &&& log.last().level == LOG_WARN
                &&& mentions_text(log.last().text, g.nodes[n].name)
            }
        }),
{
    let limit = g.shared.config.watchdog_ms;
    if limit > 0 && us > limit * 1000 {
        let name = g.nodes[n].name;
        let took = decimal((us / 1000) as nat);
        let allowed = decimal(limit as nat);
        reveal_strlit("节点 `");
        reveal_strlit("` 单次 ");
        reveal_strlit(" 耗时 ");
        reveal_strlit(" ms,超过 watchdog ");
        reveal_strlit(" ms");
        reveal_strlit("Open");
        reveal_strlit("Process");
        reveal_strlit("Close");
        lemma_number_is_clean((us / 1000) as nat);
        lemma_number_is_clean(limit as nat);
        let z = '\0';
        let (a, b, c, d, e) = ("节点 `"@, "` 单次 "@, " 耗时 "@, " ms,超过 watchdog "@, " ms"@);
        joined_texts_stay_clean(a, name, z);
        joined_texts_stay_clean(a + name, b, z);
        joined_texts_stay_clean(a + name + b, phase_name(phase), z);
        joined_texts_stay_clean(a + name + b + phase_name(phase), c, z);
        joined_texts_stay_clean(a + name + b + phase_name(phase) + c, took, z);
        joined_texts_stay_clean(a + name + b + phase_name(phase) + c + took, d, z);
        joined_texts_stay_clean(a + name + b + phase_name(phase) + c + took + d, allowed, z);
        joined_texts_stay_clean(
            a + name + b + phase_name(phase) + c + took + d + allowed,
            e,
            z,
        );
        let log = g.timed(n, phase, us).shared.log;
        assert(log.drop_last() =~= g.shared.log);
        let text = log.last().text;
        assert(text.subrange(a.len() as int, (a.len() + name.len()) as int) =~= name);
    }
}

// ------------------------------------------------------------------ the closing

/// A node that is about to be closed is told why: the graph was cancelled,
/// else it failed, else its stream ended. Its inputs are empty, and the time
/// is the end of all times.
pub proof fn closings_say_why(g: RunView, n: int)
    requires
        0 <= n < g.nodes.len(),
    ensures
        ({
            let ctx = g.closing(n).nodes[n].ctx;
            &&& g.shared.cancelled ==> ctx.close_reason == 2
            &&& !g.shared.cancelled && g.shared.error is Some ==> ctx.close_reason == 1
            &&& !g.shared.cancelled && g.shared.error is None ==> ctx.close_reason == 0
            &&& ctx.input_ts.0 == i64::MAX
            &&& forall|i: int| 0 <= i < ctx.inputs.len() ==> #[trigger] ctx.inputs[i] is None
            &&& forall|o: int|
                0 <= o < ctx.staging.len() ==> (#[trigger] ctx.staging[o]).len() == 0
            &&& ctx.side_packets == g.nodes[n].ctx.side_packets
        }),
        g.closing(n).nodes[n].queues == g.nodes[n].queues,
{
}

/// Whether each port of a node is closed with nothing waiting.
pub open spec fn nothing_can_come(node: RunNode) -> bool {
    forall|i: int|
        0 <= i < node.queues.len() ==> (#[trigger] node.queues[i]).len() == 0 && node.closed[i]
}

/// A node is to be closed exactly if it is open and idle, and either the graph
/// has to stop or each of its ports is closed with nothing waiting.
pub proof fn nodes_close_when_nothing_can_come(g: RunView, n: int)
    requires
        0 <= n < g.nodes.len(),
    ensures
        g.closable(n) <==> {
            &&& g.nodes[n].sched.opened
            &&& !g.nodes[n].sched.closed
            &&& !g.nodes[n].sched.running
            &&& g.shared.error is Some || g.shared.cancelled || nothing_can_come(g.nodes[n])
        },
{
    let node = g.nodes[n];
    if nothing_can_come(node) {
        assert forall|i: int|
            #![trigger node.queues[i]]
            #![trigger node.closed[i]]
            0 <= i < node.queues.len() implies node.closed[i] && node.queues[i].len() == 0 by {
            assert(node.queues[i].len() == 0);
        }
        assert(node.drained());
    }
    if node.drained() {
        assert forall|i: int| 0 <= i < node.queues.len() implies (#[trigger] node.queues[i]).len()
            == 0 && node.closed[i] by {}
    }
}

} // verus!

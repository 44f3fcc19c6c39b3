//! Claiming nodes, sending what they produced, closing edges.

use crate::context::ContextView;
use crate::graph::{
    keeps_dispatched, kin, kin_fits, kin_trans, node_kin, poller_views, Graph, PollerInner,
};
use crate::packet::{no_packets, packet_lists, Packet};
use crate::run_state::{PollerView, RunEdge, RunView, State};
use vstd::prelude::*;

verus! {

pub proof fn keeps_scheduled(g: RunView, n: int)
    requires
        g.fits(),
        0 <= n < g.nodes.len(),
    ensures
        kin(g, g.scheduled(n)),
        g.scheduled(n).task == g.task,
        g.scheduled(n).fits(),
        g.scheduled(n).edges == g.edges,
{
    kin_fits(g, g.scheduled(n));
}

pub proof fn keeps_all_scheduled(g: RunView, edge: int, k: nat)
    requires
        g.fits(),
        0 <= edge < g.edges.len(),
        k <= g.edges[edge].consumers.len(),
    ensures
        kin(g, g.all_scheduled(edge, k)),
        g.all_scheduled(edge, k).task == g.task,
        g.all_scheduled(edge, k).fits(),
        g.all_scheduled(edge, k).edges == g.edges,
    decreases k,
{
    if k > 0 {
        let before = g.all_scheduled(edge, (k - 1) as nat);
        keeps_all_scheduled(g, edge, (k - 1) as nat);
        let (node, port) = g.edges[edge].consumers[k - 1];
        keeps_scheduled(before, node as int);
        kin_trans(g, before, g.all_scheduled(edge, k));
    }
}

pub proof fn keeps_sent(g: RunView, edge: int, packets: Seq<Packet>)
    requires
        g.fits(),
        0 <= edge < g.edges.len(),
    ensures
        kin(g, g.sent(edge, packets)),
        g.sent(edge, packets).task == g.task,
        g.sent(edge, packets).fits(),
{
    let after = g.dispatched(edge, packets);
    keeps_dispatched(g, edge, packets);
    assert(after.edges[edge].consumers == g.edges[edge].consumers);
    keeps_all_scheduled(after, edge, g.edges[edge].consumers.len());
    kin_trans(g, after, g.sent(edge, packets));
}

pub proof fn keeps_flushed(g: RunView, n: int, staging: Seq<Seq<Packet>>, k: nat)
    requires
        g.fits(),
        0 <= n < g.nodes.len(),
        k <= g.nodes[n].outputs.len(),
    ensures
        kin(g, g.flushed(n, staging, k)),
        g.flushed(n, staging, k).task == g.task,
        g.flushed(n, staging, k).fits(),
    decreases k,
{
    if k > 0 {
        let before = g.flushed(n, staging, (k - 1) as nat);
        keeps_flushed(g, n, staging, (k - 1) as nat);
        assert(g.nodes[n].fits(g.edges.len()));
        if staging[k - 1].len() > 0 {
            keeps_sent(before, g.nodes[n].outputs[k - 1] as int, staging[k - 1]);
            kin_trans(g, before, g.flushed(n, staging, k));
        }
    }
}

pub proof fn keeps_all_flushed(g: RunView, n: int)
    requires
        g.fits(),
        0 <= n < g.nodes.len(),
    ensures
        kin(g, g.all_flushed(n)),
        g.all_flushed(n).task == g.task,
        g.all_flushed(n).fits(),
{
    let ctx = g.nodes[n].ctx;
    let cleared = g.with_ctx(
        n,
        ContextView { staging: no_packets(ctx.staging.len()), ..ctx },
    );
    assert(kin(g, cleared));
    kin_fits(g, cleared);
    keeps_flushed(cleared, n, ctx.staging, g.nodes[n].outputs.len());
    kin_trans(g, cleared, g.all_flushed(n));
}

pub proof fn keeps_ports_closed(g: RunView, ports: Seq<(usize, usize)>, k: nat)
    requires
        g.fits(),
        k <= ports.len(),
        forall|i: int|
            0 <= i < ports.len() ==> {
                let (node, port) = #[trigger] ports[i];
                node < g.nodes.len() && port < g.nodes[node as int].inputs.len()
            },
    ensures
        kin(g, g.ports_closed(ports, k)),
        g.ports_closed(ports, k).task == g.task,
        g.ports_closed(ports, k).fits(),
        g.ports_closed(ports, k).edges == g.edges,
    decreases k,
{
    if k > 0 {
        let before = g.ports_closed(ports, (k - 1) as nat);
        keeps_ports_closed(g, ports, (k - 1) as nat);
        let (node, port) = ports[k - 1];
        assert(kin(before, g.ports_closed(ports, k)));
        kin_trans(g, before, g.ports_closed(ports, k));
        kin_fits(g, g.ports_closed(ports, k));
    }
}

pub proof fn keeps_edge_closed(g: RunView, edge: int)
    requires
        g.fits(),
        0 <= edge < g.edges.len(),
    ensures
        kin(g, g.edge_closed(edge)),
        g.edge_closed(edge).task == g.task,
        g.edge_closed(edge).fits(),
{
    let e = g.edges[edge];
    if e.closed {
        assert(kin(g, g));
    } else {
        let shut = g.with_edge(
            edge,
            RunEdge {
                closed: true,
                pollers: Seq::new(
                    e.pollers.len(),
                    |i: int| PollerView { closed: true, ..e.pollers[i] },
                ),
                ..e
            },
        );
        assert(kin(g, shut));
        kin_fits(g, shut);
        assert forall|i: int| 0 <= i < e.consumers.len() implies {
            let (node, port) = #[trigger] e.consumers[i];
            node < shut.nodes.len() && port < shut.nodes[node as int].inputs.len()
        } by {
            let (node, port) = g.edges[edge].consumers[i];
        }
        keeps_ports_closed(shut, e.consumers, e.consumers.len());
        kin_trans(g, shut, g.edge_closed(edge));
    }
}

pub proof fn keeps_edges_closed(g: RunView, edges: Seq<usize>, k: nat)
    requires
        g.fits(),
        k <= edges.len(),
        forall|i: int| 0 <= i < edges.len() ==> #[trigger] edges[i] < g.edges.len(),
    ensures
        kin(g, g.edges_closed(edges, k)),
        g.edges_closed(edges, k).task == g.task,
        g.edges_closed(edges, k).fits(),
    decreases k,
{
    if k > 0 {
        let before = g.edges_closed(edges, (k - 1) as nat);
        keeps_edges_closed(g, edges, (k - 1) as nat);
        assert(edges[k - 1] < before.edges.len());
        keeps_edge_closed(before, edges[k - 1] as int);
        kin_trans(g, before, g.edges_closed(edges, k));
    }
}

/// Tells some pollers that nothing more comes.
fn close_pollers(pollers: &mut Vec<PollerInner>)
    ensures
        poller_views(final(pollers)@) == Seq::new(
            old(pollers)@.len(),
            |i: int| PollerView { closed: true, ..old(pollers)@[i]@ },
        ),
{
    let ghost before = pollers@;
    let count: usize = pollers.len();
    for i in 0..count
        invariant
            count == before.len(),
            pollers@.len() == before.len(),
            forall|k: int|
                0 <= k < before.len() ==> (#[trigger] pollers@[k])@ == (if k < i {
                    PollerView { closed: true, ..before[k]@ }
                } else {
                    before[k]@
                }),
    {
        pollers[i].close();
    }
    assert(poller_views(pollers@) =~= Seq::new(
        before.len(),
        |i: int| PollerView { closed: true, ..before[i]@ },
    ));
}

impl Graph {
    /// Tries to claim a node for a run.
    pub fn try_claim(&mut self, n: usize) -> (r: bool)
        requires
            old(self)@.fits(),
            n < old(self)@.nodes.len(),
        ensures
            r == old(self)@.claimable(n as int),
            final(self)@ == old(self)@.claimed(n as int),
            final(self)@.fits(),
    {
        let ghost before = self@;
        assert(before.nodes[n as int] == self.nodes@[n as int]@);
        if self.shared.has_error() || self.shared.is_cancelled() || self.paused {
            return false;
        }
        if !self.nodes[n].sched.opened || self.nodes[n].sched.closed {
            return false;
        }
        if self.nodes[n].sched.running {
            self.nodes[n].sched.rescan = true;
            proof {
                assert(self@.nodes =~= before.claimed(n as int).nodes);
                assert(self@ =~= before.claimed(n as int));
                kin_fits(before, self@);
            }
            return false;
        }
        if !self.nodes[n].is_ready() {
            return false;
        }
        self.nodes[n].sched.running = true;
        proof {
            assert(self@.nodes =~= before.claimed(n as int).nodes);
            assert(self@ =~= before.claimed(n as int));
            kin_fits(before, self@);
        }
        true
    }

    /// Puts a node in line, if it can be claimed.
    pub fn schedule(&mut self, n: usize)
        requires
            old(self)@.fits(),
            n < old(self)@.nodes.len(),
        ensures
            final(self)@ == old(self)@.scheduled(n as int),
            final(self)@.fits(),
    {
        let ghost before = self@;
        if self.try_claim(n) {
            self.main_queue.push_back(n);
        }
        proof {
            assert(self@ =~= before.scheduled(n as int));
            keeps_scheduled(before, n as int);
        }
    }

    /// Puts those who read an edge in line.
    pub fn schedule_consumers(&mut self, edge: usize)
        requires
            old(self)@.fits(),
            edge < old(self)@.edges.len(),
        ensures
            final(self)@ == old(self)@.all_scheduled(
                edge as int,
                old(self)@.edges[edge as int].consumers.len(),
            ),
            final(self)@.fits(),
    {
        let ghost before = self@;
        assert(before.edges[edge as int] == self.edges@[edge as int]@);
        let count: usize = self.edges[edge].consumers.len();
        for k in 0..count
            invariant
                before.fits(),
                edge < before.edges.len(),
                count == before.edges[edge as int].consumers.len(),
                self@ == before.all_scheduled(edge as int, k as nat),
                self@.fits(),
        {
            proof {
                keeps_all_scheduled(before, edge as int, k as nat);
                assert(self@.edges[edge as int] == self.edges@[edge as int]@);
            }
            let node: usize = self.edges[edge].consumers[k].0;
            assert(before.edges[edge as int].consumers[k as int].0 == node);
            self.schedule(node);
        }
    }

    /// Sends some packets on an edge and puts those who read it in line.
    pub fn send_on(&mut self, edge: usize, packets: &Vec<Packet>)
        requires
            old(self)@.fits(),
            edge < old(self)@.edges.len(),
        ensures
            final(self)@ == old(self)@.sent(edge as int, packets@),
            final(self)@.fits(),
    {
        proof {
            keeps_dispatched(self@, edge as int, packets@);
            assert(self@.dispatched(edge as int, packets@).edges[edge as int].consumers
                == self@.edges[edge as int].consumers);
        }
        self.dispatch(edge, packets);
        self.schedule_consumers(edge);
    }

    /// Sends what a node emitted.
    pub fn flush_staging(&mut self, n: usize)
        requires
            old(self)@.fits(),
            n < old(self)@.nodes.len(),
        ensures
            final(self)@ == old(self)@.all_flushed(n as int),
            final(self)@.fits(),
    {
        let ghost before = self@;
        let ghost ctx = before.nodes[n as int].ctx;
        assert(before.nodes[n as int] == self.nodes@[n as int]@);
        assert(before.nodes[n as int].fits(before.edges.len()));
        let count: usize = self.nodes[n].outputs.len();
        let batches = self.nodes[n].ctx.take_staging();
        let ghost cleared = before.with_ctx(
            n as int,
            ContextView { staging: no_packets(ctx.staging.len()), ..ctx },
        );
        proof {
            assert(packet_lists(batches@).len() == batches@.len());
            assert forall|k: int| 0 <= k < count implies (#[trigger] batches@[k])@
                == ctx.staging[k] by {
                assert(packet_lists(batches@)[k] == batches@[k]@);
            }
            assert(self@.nodes =~= cleared.nodes);
            assert(self@ =~= cleared);
            assert(kin(before, cleared));
            kin_fits(before, cleared);
            keeps_all_flushed(before, n as int);
        }
        for i in 0..count
            invariant
                cleared.fits(),
                n < cleared.nodes.len(),
                count == cleared.nodes[n as int].outputs.len(),
                ctx.staging.len() == count,
                batches@.len() == count,
                forall|k: int| 0 <= k < count ==> (#[trigger] batches@[k])@ == ctx.staging[k],
                self@ == cleared.flushed(n as int, ctx.staging, i as nat),
                self@.fits(),
        {
            proof {
                keeps_flushed(cleared, n as int, ctx.staging, i as nat);
                assert(node_kin(cleared.nodes[n as int], self@.nodes[n as int]));
                assert(self@.nodes[n as int] == self.nodes@[n as int]@);
                assert(self@.nodes[n as int].fits(self@.edges.len()));
            }
            assert(batches@[i as int]@ == ctx.staging[i as int]);
            if batches[i].len() > 0 {
                let edge: usize = self.nodes[n].outputs[i];
                self.send_on(edge, &batches[i]);
            }
        }
    }

    /// Closes an edge.
    pub fn close_edge(&mut self, edge: usize)
        requires
            old(self)@.fits(),
            edge < old(self)@.edges.len(),
        ensures
            final(self)@ == old(self)@.edge_closed(edge as int),
            final(self)@.fits(),
    {
        let ghost before = self@;
        let ghost e = before.edges[edge as int];
        assert(e == self.edges@[edge as int]@);
        if self.edges[edge].closed {
            return ;
        }
        let ghost held = self.edges@[edge as int].pollers@;
        self.edges[edge].closed = true;
        close_pollers(&mut self.edges[edge].pollers);
        let ghost shut = before.with_edge(
            edge as int,
            RunEdge {
                closed: true,
                pollers: Seq::new(
                    e.pollers.len(),
                    |i: int| PollerView { closed: true, ..e.pollers[i] },
                ),
                ..e
            },
        );
        proof {
            assert(e.pollers == poller_views(held));
            assert(shut.edges[edge as int].pollers =~= poller_views(
                self.edges@[edge as int].pollers@,
            ));
            assert(self@.edges =~= shut.edges);
            assert(self@ =~= shut);
            assert(kin(before, shut));
            kin_fits(before, shut);
            assert forall|i: int| 0 <= i < e.consumers.len() implies {
                let (node, port) = #[trigger] e.consumers[i];
                node < shut.nodes.len() && port < shut.nodes[node as int].inputs.len()
            } by {
                let (node, port) = before.edges[edge as int].consumers[i];
            }
        }
        let count: usize = self.edges[edge].consumers.len();
        for k in 0..count
            invariant
                shut.fits(),
                edge < shut.edges.len(),
                e.consumers == shut.edges[edge as int].consumers,
                count == e.consumers.len(),
                forall|i: int|
                    0 <= i < e.consumers.len() ==> {
                        let (node, port) = #[trigger] e.consumers[i];
                        node < shut.nodes.len() && port < shut.nodes[node as int].inputs.len()
                    },
                self@ == shut.ports_closed(e.consumers, k as nat),
                self@.fits(),
        {
            let ghost here = self@;
            proof {
                keeps_ports_closed(shut, e.consumers, k as nat);
                assert(self@.edges[edge as int] == self.edges@[edge as int]@);
            }
            let (node, port) = self.edges[edge].consumers[k];
            proof {
                assert(e.consumers[k as int] == (node, port));
                assert(node_kin(shut.nodes[node as int], here.nodes[node as int]));
                assert(here.nodes[node as int].fits(here.edges.len()));
                assert(here.nodes[node as int] == self.nodes@[node as int]@);
            }
            self.nodes[node].input_closed.set(port, true);
            proof {
                keeps_ports_closed(shut, e.consumers, (k + 1) as nat);
                let after = shut.ports_closed(e.consumers, (k + 1) as nat);
                assert(self@.nodes =~= after.nodes);
                assert(self@ =~= after);
            }
        }
    }

    /// Closes some edges.
    pub fn close_edges(&mut self, edges: &Vec<usize>)
        requires
            old(self)@.fits(),
            forall|i: int|
                0 <= i < edges@.len() ==> #[trigger] edges@[i] < old(self)@.edges.len(),
        ensures
            final(self)@ == old(self)@.edges_closed(edges@, edges@.len()),
            final(self)@.fits(),
    {
        let ghost before = self@;
        for k in 0..edges.len()
            invariant
                before.fits(),
                forall|i: int| 0 <= i < edges@.len() ==> #[trigger] edges@[i] < before.edges.len(),
                self@ == before.edges_closed(edges@, k as nat),
                self@.fits(),
        {
            proof {
                keeps_edges_closed(before, edges@, k as nat);
            }
            self.close_edge(edges[k]);
        }
    }

    /// Lets the state follow the graph inputs.
    pub fn set_state_draining_if_all_inputs_closed(&mut self)
        requires
            old(self)@.fits(),
        ensures
            final(self)@ == old(self)@.drain_noted(),
            final(self)@.fits(),
    {
        let ghost before = self@;
        let mut all = true;
        for k in 0..self.graph_inputs.len()
            invariant
                before == self@,
                self@.fits(),
                all == (forall|i: int|
                    0 <= i < k ==> before.edges[(
                    #[trigger] before.graph_inputs[i]) as int].closed),
        {
            let edge: usize = self.graph_inputs[k];
            assert(before.graph_inputs[k as int] == edge);
            assert(before.edges[edge as int] == self.edges@[edge as int]@);
            if !self.edges[edge].closed {
                all = false;
            }
        }
        if all && self.state == State::Running {
            self.state = State::Draining;
            proof {
                kin_fits(before, self@);
            }
        }
    }
}

} // verus!

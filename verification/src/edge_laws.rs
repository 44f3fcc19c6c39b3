//! What the edges of a plan and of a wired graph join.

use crate::config::GraphView;
use crate::lifecycle::{built, ContractView};
use crate::plan::{
    consumers_of, edge_names, edge_names_distinct, edge_numbers, edge_of, edges_of, inputs_of,
    is_source, mentions, numbers_by_name, numbers_of, outputs_of, planned, producer_of, sources,
    Mention, PlanEdgeView,
};
use crate::preflight::executor_position_found;
use crate::topology::declared_names;
use crate::wiring::{all_inputs, all_outputs, executor_names, places, wired};
use vstd::prelude::*;

verus! {

/// Whether input port `(i, p)` comes before input port `(j, q)`.
pub open spec fn earlier(a: (usize, usize), b: (usize, usize)) -> bool {
    a.0 < b.0 || (a.0 == b.0 && a.1 < b.1)
}

/// Whether the lists of a graph can be counted.
pub open spec fn numbered(g: GraphView) -> bool {
    &&& g.nodes.len() <= usize::MAX
    &&& forall|i: int|
        0 <= i < g.nodes.len() ==> declared_names((#[trigger] g.nodes[i]).input_ports).len()
            <= usize::MAX
}

/// Whether a place of a graph is one of those of its first `n` nodes.
pub open spec fn is_place(g: GraphView, n: nat, m: Mention) -> bool {
    match m {
        Mention::Source(x) => declared_names(g.input_ports).contains(x),
        Mention::Output(x, i) => i < n && declared_names(g.nodes[i as int].output_ports).contains(
            x,
        ),
        Mention::Input(x, i, p) => i < n && p < declared_names(
            g.nodes[i as int].input_ports,
        ).len() && declared_names(g.nodes[i as int].input_ports)[p as int] == x,
    }
}

/// Whether the input ports in a list of places come in order.
spec fn in_order(ms: Seq<Mention>) -> bool {
    forall|s: int, t: int|
        0 <= s < t < ms.len() ==> (#[trigger] ms[s] matches Mention::Input(_, i, p) ==> (
        #[trigger] ms[t] matches Mention::Input(_, j, q) ==> earlier((i, p), (j, q))))
}

/// Whether the list of places is that of the first `n` nodes.
spec fn complete(g: GraphView, n: nat, ms: Seq<Mention>) -> bool {
    &&& in_order(ms)
    &&& forall|m: Mention| #[trigger] ms.contains(m) <==> is_place(g, n, m)
}

proof fn lemma_sources(g: GraphView)
    ensures
        ({
            let ms = sources(declared_names(g.input_ports));
            &&& forall|m: Mention| #[trigger]
                ms.contains(m) <==> (m matches Mention::Source(x) && declared_names(
                    g.input_ports,
                ).contains(x))
            &&& in_order(ms)
        }),
{
    let names = declared_names(g.input_ports);
    let ms = sources(names);
    assert forall|m: Mention| #[trigger] ms.contains(m) <==> (m matches Mention::Source(x)
        && names.contains(x)) by {
        if ms.contains(m) {
            let k = ms.index_of(m);
            assert(ms[k] == Mention::Source(names[k]));
        }
        if let Mention::Source(x) = m {
            if names.contains(x) {
                let k = names.index_of(x);
                assert(ms[k] == m);
            }
        }
    }
}

proof fn lemma_outputs_of(names: Seq<Seq<char>>, index: usize)
    ensures
        forall|m: Mention| #[trigger]
            outputs_of(names, index).contains(m) <==> (m matches Mention::Output(x, i) && i == index
                && names.contains(x)),
{
    let ms = outputs_of(names, index);
    assert forall|m: Mention| #[trigger] ms.contains(m) <==> (m matches Mention::Output(x, i) && i
        == index && names.contains(x)) by {
        if ms.contains(m) {
            let k = ms.index_of(m);
            assert(ms[k] == Mention::Output(names[k], index));
        }
        if let Mention::Output(x, i) = m {
            if i == index && names.contains(x) {
                let k = names.index_of(x);
                assert(ms[k] == m);
            }
        }
    }
}

proof fn lemma_inputs_of(names: Seq<Seq<char>>, index: usize)
    requires
        names.len() <= usize::MAX,
    ensures
        in_order(inputs_of(names, index)),
        forall|m: Mention| #[trigger]
            inputs_of(names, index).contains(m) <==> (m matches Mention::Input(x, i, p) && i
                == index && p < names.len() && names[p as int] == x),
{
    let ms = inputs_of(names, index);
    assert forall|m: Mention| #[trigger] ms.contains(m) <==> (m matches Mention::Input(x, i, p) && i
        == index && p < names.len() && names[p as int] == x) by {
        if ms.contains(m) {
            let k = ms.index_of(m);
            assert(ms[k] == Mention::Input(names[k], index, k as usize));
        }
        if let Mention::Input(x, i, p) = m {
            if i == index && p < names.len() && names[p as int] == x {
                assert(ms[p as int] == m);
            }
        }
    }
}

proof fn lemma_contains_add(a: Seq<Mention>, b: Seq<Mention>)
    ensures
        forall|m: Mention| #[trigger] (a + b).contains(m) <==> a.contains(m) || b.contains(m),
{
    assert forall|m: Mention| #[trigger] (a + b).contains(m) <==> a.contains(m) || b.contains(
        m,
    ) by {
        if a.contains(m) {
            let k = a.index_of(m);
            assert((a + b)[k] == m);
        }
        if b.contains(m) {
            let k = b.index_of(m);
            assert((a + b)[a.len() + k] == m);
        }
        if (a + b).contains(m) {
            let k = (a + b).index_of(m);
            if k < a.len() {
                assert(a[k] == m);
            } else {
                assert(b[k - a.len()] == m);
            }
        }
    }
}

/// Lists in order, one behind the other, are in order if the ports of the
/// first belong to earlier nodes.
proof fn lemma_in_order_add(a: Seq<Mention>, b: Seq<Mention>, n: int)
    requires
        in_order(a),
        in_order(b),
        forall|m: Mention| #[trigger]
            a.contains(m) ==> (m matches Mention::Input(_, i, _) ==> i < n),
        forall|m: Mention| #[trigger]
            b.contains(m) ==> (m matches Mention::Input(_, i, _) ==> i >= n),
    ensures
        in_order(a + b),
{
    let ms = a + b;
    assert forall|s: int, t: int| 0 <= s < t < ms.len() implies (
    #[trigger] ms[s] matches Mention::Input(_, i, p) ==> (
    #[trigger] ms[t] matches Mention::Input(_, j, q) ==> earlier((i, p), (j, q)))) by {
        if t < a.len() {
            assert(ms[s] == a[s] && ms[t] == a[t]);
        } else if s >= a.len() {
            assert(ms[s] == b[s - a.len()] && ms[t] == b[t - a.len()]);
        } else {
            assert(ms[s] == a[s] && ms[t] == b[t - a.len()]);
            assert(a.contains(a[s]));
            assert(b.contains(b[t - a.len()]));
        }
    }
}

proof fn lemma_mentions(g: GraphView, n: nat)
    requires
        numbered(g),
        n <= g.nodes.len(),
    ensures
        complete(g, n, mentions(g, n)),
    decreases n,
{
    if n == 0 {
        lemma_sources(g);
    } else {
        lemma_mentions(g, (n - 1) as nat);
        let i = (n - 1) as usize;
        let node = g.nodes[n - 1];
        let before = mentions(g, (n - 1) as nat);
        let outs = outputs_of(declared_names(node.output_ports), i);
        let ins = inputs_of(declared_names(node.input_ports), i);
        lemma_outputs_of(declared_names(node.output_ports), i);
        lemma_inputs_of(declared_names(node.input_ports), i);
        lemma_contains_add(before, outs);
        lemma_contains_add(before + outs, ins);
        lemma_in_order_add(before, outs, n - 1);
        lemma_in_order_add(before + outs, ins, n - 1);
        let ms = before + outs + ins;
        assert forall|m: Mention| #[trigger] ms.contains(m) <==> is_place(g, n, m) by {
            assert((before + outs).contains(m) <==> before.contains(m) || outs.contains(m));
            assert(before.contains(m) <==> is_place(g, (n - 1) as nat, m));
            assert(outs.contains(m) <==> (m matches Mention::Output(x, k) && k == i
                && declared_names(node.output_ports).contains(x)));
        }
    }
}

proof fn lemma_all_outputs(g: GraphView, n: nat)
    requires
        numbered(g),
        n <= g.nodes.len(),
    ensures
        in_order(all_outputs(g.nodes, n)),
        forall|m: Mention| #[trigger]
            all_outputs(g.nodes, n).contains(m) <==> m is Output && is_place(g, n, m),
    decreases n,
{
    if n > 0 {
        lemma_all_outputs(g, (n - 1) as nat);
        let i = (n - 1) as usize;
        let before = all_outputs(g.nodes, (n - 1) as nat);
        let outs = outputs_of(declared_names(g.nodes[n - 1].output_ports), i);
        lemma_outputs_of(declared_names(g.nodes[n - 1].output_ports), i);
        lemma_contains_add(before, outs);
        lemma_in_order_add(before, outs, 0);
        assert forall|m: Mention| #[trigger] all_outputs(g.nodes, n).contains(m) <==> m is Output
            && is_place(g, n, m) by {
            assert((before + outs).contains(m) <==> before.contains(m) || outs.contains(m));
        }
    }
}

proof fn lemma_all_inputs(g: GraphView, n: nat)
    requires
        numbered(g),
        n <= g.nodes.len(),
    ensures
        in_order(all_inputs(g.nodes, n)),
        forall|m: Mention| #[trigger]
            all_inputs(g.nodes, n).contains(m) <==> m is Input && is_place(g, n, m),
    decreases n,
{
    if n > 0 {
        lemma_all_inputs(g, (n - 1) as nat);
        let i = (n - 1) as usize;
        let before = all_inputs(g.nodes, (n - 1) as nat);
        let ins = inputs_of(declared_names(g.nodes[n - 1].input_ports), i);
        lemma_inputs_of(declared_names(g.nodes[n - 1].input_ports), i);
        lemma_contains_add(before, ins);
        lemma_in_order_add(before, ins, n - 1);
        assert forall|m: Mention| #[trigger] all_inputs(g.nodes, n).contains(m) <==> m is Input
            && is_place(g, n, m) by {
            assert((before + ins).contains(m) <==> before.contains(m) || ins.contains(m));
        }
    }
}

proof fn lemma_places(g: GraphView)
    requires
        numbered(g),
    ensures
        complete(g, g.nodes.len(), places(g)),
{
    let n = g.nodes.len();
    let first = sources(declared_names(g.input_ports));
    let outs = all_outputs(g.nodes, n);
    let ins = all_inputs(g.nodes, n);
    lemma_sources(g);
    lemma_all_outputs(g, n);
    lemma_all_inputs(g, n);
    lemma_contains_add(first, outs);
    lemma_contains_add(first + outs, ins);
    lemma_in_order_add(first, outs, 0);
    lemma_in_order_add(first + outs, ins, 0);
    assert(places(g) == first + outs + ins);
    assert forall|m: Mention| #[trigger] places(g).contains(m) <==> is_place(g, n, m) by {
        assert((first + outs).contains(m) <==> first.contains(m) || outs.contains(m));
    }
}

proof fn lemma_last(ms: Seq<Mention>)
    requires
        ms.len() > 0,
    ensures
        forall|m: Mention| #[trigger]
            ms.contains(m) <==> ms.drop_last().contains(m) || m == ms.last(),
{
    let front = ms.drop_last();
    assert(ms =~= front + seq![ms.last()]);
    lemma_contains_add(front, seq![ms.last()]);
    assert forall|m: Mention| #[trigger] ms.contains(m) <==> front.contains(m) || m
        == ms.last() by {
        assert(seq![ms.last()][0] == ms.last());
        assert(seq![ms.last()].contains(m) <==> m == ms.last()) by {
            if m == ms.last() {
                assert(seq![ms.last()][0] == m);
            }
        }
        assert((front + seq![ms.last()]).contains(m) <==> front.contains(m) || seq![
            ms.last(),
        ].contains(m));
    }
}

proof fn lemma_consumers(ms: Seq<Mention>, name: Seq<char>)
    requires
        in_order(ms),
    ensures
        forall|i: usize, p: usize| #[trigger]
            consumers_of(ms, name).contains((i, p)) <==> ms.contains(Mention::Input(name, i, p)),
        forall|a: int, b: int|
            0 <= a < b < consumers_of(ms, name).len() ==> earlier(
                #[trigger] consumers_of(ms, name)[a],
                #[trigger] consumers_of(ms, name)[b],
            ),
    decreases ms.len(),
{
    if ms.len() > 0 {
        let front = ms.drop_last();
        assert(in_order(front)) by {
            assert forall|s: int, t: int| 0 <= s < t < front.len() implies (
            #[trigger] front[s] matches Mention::Input(_, i, p) ==> (
            #[trigger] front[t] matches Mention::Input(_, j, q) ==> earlier((i, p), (j, q)))) by {
                assert(front[s] == ms[s] && front[t] == ms[t]);
            }
        }
        lemma_consumers(front, name);
        lemma_last(ms);
        let before = consumers_of(front, name);
        let all = consumers_of(ms, name);
        if ms.last() matches Mention::Input(x, i, p) && x == name {
            let added = (ms.last()->Input_1, ms.last()->Input_2);
            assert(all == before.push(added));
            assert forall|i: usize, p: usize| #[trigger] all.contains((i, p)) <==> ms.contains(
                Mention::Input(name, i, p),
            ) by {
                if before.contains((i, p)) {
                    let k = before.index_of((i, p));
                    assert(all[k] == (i, p));
                }
                if (i, p) == added {
                    assert(all[before.len() as int] == (i, p));
                }
                if all.contains((i, p)) && (i, p) != added {
                    let k = all.index_of((i, p));
                    assert(before[k] == (i, p));
                    assert(before.contains((i, p)));
                }
                assert(before.contains((i, p)) <==> front.contains(Mention::Input(name, i, p)));
            }
            assert forall|a: int, b: int| 0 <= a < b < all.len() implies earlier(
                #[trigger] all[a],
                #[trigger] all[b],
            ) by {
                if b == before.len() {
                    let (i, p) = before[a];
                    assert(before.contains((i, p)));
                    assert(front.contains(Mention::Input(name, i, p)));
                    let s = front.index_of(Mention::Input(name, i, p));
                    assert(ms[s] == front[s]);
                    assert(ms[ms.len() - 1] == ms.last());
                } else {
                    assert(all[a] == before[a] && all[b] == before[b]);
                }
            }
        } else {
            assert(all == before);
            assert forall|i: usize, p: usize| #[trigger] all.contains((i, p)) <==> ms.contains(
                Mention::Input(name, i, p),
            ) by {
                assert(before.contains((i, p)) <==> front.contains(Mention::Input(name, i, p)));
            }
        }
    }
}

proof fn lemma_source(ms: Seq<Mention>, name: Seq<char>)
    ensures
        is_source(ms, name) <==> ms.contains(Mention::Source(name)),
    decreases ms.len(),
{
    if ms.len() > 0 {
        lemma_source(ms.drop_last(), name);
        lemma_last(ms);
    }
}

proof fn lemma_producer(ms: Seq<Mention>, name: Seq<char>)
    ensures
        producer_of(ms, name) matches Some(i) ==> ms.contains(Mention::Output(name, i)),
        producer_of(ms, name) is None ==> forall|i: usize|
            !#[trigger] ms.contains(Mention::Output(name, i)),
    decreases ms.len(),
{
    if ms.len() > 0 {
        lemma_producer(ms.drop_last(), name);
        lemma_last(ms);
        if producer_of(ms, name) is None {
            assert forall|i: usize| !#[trigger] ms.contains(Mention::Output(name, i)) by {
                assert(!ms.drop_last().contains(Mention::Output(name, i)));
            }
        }
    }
}

/// Whether an edge joins what has its name: it is a graph input or output
/// exactly if the graph declares one of that name, its producer is a node that
/// puts it out, and it has none if no node does. Those who read it are the
/// input ports of its name, all of them, from the first node to the last and
/// there from the first port to the last.
pub open spec fn joins(g: GraphView, e: PlanEdgeView) -> bool {
    &&& e.graph_input <==> declared_names(g.input_ports).contains(e.name)
    &&& e.graph_output <==> declared_names(g.output_ports).contains(e.name)
    &&& e.producer matches Some(i) ==> i < g.nodes.len() && declared_names(
        g.nodes[i as int].output_ports,
    ).contains(e.name)
    &&& e.producer is None ==> forall|i: int|
        0 <= i < g.nodes.len() ==> !declared_names((#[trigger] g.nodes[i]).output_ports).contains(
            e.name,
        )
    &&& forall|i: usize, p: usize| #[trigger]
        e.consumer_ports.contains((i, p)) <==> i < g.nodes.len() && p < declared_names(
            g.nodes[i as int].input_ports,
        ).len() && declared_names(g.nodes[i as int].input_ports)[p as int] == e.name
    &&& forall|a: int, b: int|
        0 <= a < b < e.consumer_ports.len() ==> earlier(
            #[trigger] e.consumer_ports[a],
            #[trigger] e.consumer_ports[b],
        )
    &&& e.consumers.len() == e.consumer_ports.len()
    &&& forall|c: int|
        0 <= c < e.consumers.len() ==> #[trigger] e.consumers[c] == e.consumer_ports[c].0
}

proof fn lemma_joins(g: GraphView, ms: Seq<Mention>, name: Seq<char>)
    requires
        numbered(g),
        complete(g, g.nodes.len(), ms),
    ensures
        joins(g, edge_of(ms, name, declared_names(g.output_ports).contains(name))),
{
    let e = edge_of(ms, name, declared_names(g.output_ports).contains(name));
    lemma_consumers(ms, name);
    lemma_source(ms, name);
    lemma_producer(ms, name);
    assert(ms.contains(Mention::Source(name)) <==> is_place(
        g,
        g.nodes.len(),
        Mention::Source(name),
    ));
    if e.producer is Some {
        let i = e.producer->Some_0;
        assert(is_place(g, g.nodes.len(), Mention::Output(name, i)));
    } else {
        assert forall|i: int| 0 <= i < g.nodes.len() implies !declared_names(
            (#[trigger] g.nodes[i]).output_ports,
        ).contains(e.name) by {
            assert(!ms.contains(Mention::Output(name, i as usize)));
            assert(!is_place(g, g.nodes.len(), Mention::Output(name, i as usize)));
        }
    }
    assert forall|i: usize, p: usize| #[trigger] e.consumer_ports.contains((i, p)) <==> i
        < g.nodes.len() && p < declared_names(g.nodes[i as int].input_ports).len()
        && declared_names(g.nodes[i as int].input_ports)[p as int] == e.name by {
        assert(ms.contains(Mention::Input(name, i, p)) <==> is_place(
            g,
            g.nodes.len(),
            Mention::Input(name, i, p),
        ));
    }
}

/// The producer of a name puts it out.
pub proof fn lemma_maker_puts_out(g: GraphView, name: Seq<char>)
    requires
        numbered(g),
    ensures
        producer_of(places(g), name) matches Some(m) ==> m < g.nodes.len() && declared_names(
            g.nodes[m as int].output_ports,
        ).contains(name),
{
    lemma_places(g);
    lemma_producer(places(g), name);
    if producer_of(places(g), name) is Some {
        let m = producer_of(places(g), name)->Some_0;
        assert(is_place(g, g.nodes.len(), Mention::Output(name, m)));
    }
}

/// Every edge of a plan joins what has its name.
pub proof fn planned_edges_join(g: GraphView, e: int)
    requires
        numbered(g),
        0 <= e < planned(g).edges.len(),
    ensures
        joins(g, planned(g).edges[e]),
{
    let ms = mentions(g, g.nodes.len());
    lemma_mentions(g, g.nodes.len());
    lemma_joins(g, ms, edge_names(ms)[e]);
}

/// Every edge of a wired graph joins what has its name.
pub proof fn wired_edges_join(g: GraphView, e: int)
    requires
        numbered(g),
        0 <= e < wired(g).edges.len(),
    ensures
        joins(g, wired(g).edges[e]),
{
    let ms = places(g);
    lemma_places(g);
    lemma_joins(g, ms, edge_names(ms)[e]);
}

/// Whether a name stands somewhere in a graph.
pub open spec fn named(g: GraphView, name: Seq<char>) -> bool {
    ||| declared_names(g.input_ports).contains(name)
    ||| exists|i: int|
        0 <= i < g.nodes.len() && (declared_names((#[trigger] g.nodes[i]).output_ports).contains(
            name,
        ) || declared_names(g.nodes[i].input_ports).contains(name))
}

proof fn lemma_named(g: GraphView, ms: Seq<Mention>, name: Seq<char>)
    requires
        numbered(g),
        complete(g, g.nodes.len(), ms),
    ensures
        edge_names(ms).contains(name) <==> named(g, name),
        edge_names(ms).no_duplicates(),
{
    edge_names_distinct(ms);
    lemma_edge_names(ms, name);
    let n = g.nodes.len();
    if exists|m: Mention| #[trigger] ms.contains(m) && m.name() == name {
        let m = choose|m: Mention| #[trigger] ms.contains(m) && m.name() == name;
        assert(is_place(g, n, m));
        match m {
            Mention::Source(x) => {},
            Mention::Output(x, i) => {
                assert(declared_names(g.nodes[i as int].output_ports).contains(name));
            },
            Mention::Input(x, i, p) => {
                assert(declared_names(g.nodes[i as int].input_ports)[p as int] == name);
                assert(declared_names(g.nodes[i as int].input_ports).contains(name));
            },
        }
    }
    if named(g, name) {
        if declared_names(g.input_ports).contains(name) {
            assert(is_place(g, n, Mention::Source(name)));
            assert(ms.contains(Mention::Source(name)));
            assert(Mention::Source(name).name() == name);
        } else {
            let i = choose|i: int|
                0 <= i < g.nodes.len() && (declared_names(
                    (#[trigger] g.nodes[i]).output_ports,
                ).contains(name) || declared_names(g.nodes[i].input_ports).contains(name));
            if declared_names(g.nodes[i].output_ports).contains(name) {
                let m = Mention::Output(name, i as usize);
                assert(is_place(g, n, m));
                assert(ms.contains(m));
                assert(m.name() == name);
            } else {
                let p = declared_names(g.nodes[i].input_ports).index_of(name);
                let m = Mention::Input(name, i as usize, p as usize);
                assert(is_place(g, n, m));
                assert(ms.contains(m));
                assert(m.name() == name);
            }
        }
    }
}

proof fn lemma_edge_names(ms: Seq<Mention>, name: Seq<char>)
    ensures
        edge_names(ms).contains(name) <==> exists|m: Mention| #[trigger]
            ms.contains(m) && m.name() == name,
    decreases ms.len(),
{
    if ms.len() > 0 {
        let front = ms.drop_last();
        lemma_edge_names(front, name);
        lemma_last(ms);
        let before = edge_names(front);
        let all = edge_names(ms);
        let last = ms.last();
        assert(ms.contains(last));
        if before.contains(last.name()) {
            assert(all == before);
        } else {
            assert(all == before.push(last.name()));
            if before.contains(name) {
                let k = before.index_of(name);
                assert(all[k] == name);
            }
            if last.name() == name {
                assert(all[before.len() as int] == name);
            }
            if all.contains(name) && name != last.name() {
                let k = all.index_of(name);
                assert(before[k] == name);
                assert(before.contains(name));
            }
        }
        if exists|m: Mention| #[trigger] front.contains(m) && m.name() == name {
            let m = choose|m: Mention| #[trigger] front.contains(m) && m.name() == name;
            assert(ms.contains(m));
        }
        if exists|m: Mention| #[trigger] ms.contains(m) && m.name() == name {
            let m = choose|m: Mention| #[trigger] ms.contains(m) && m.name() == name;
            if m != last {
                assert(front.contains(m));
            }
        }
    }
}

/// Whether a list of edges has one edge for each name of a graph, found by it,
/// and whether the given graph inputs and outputs are the edges of those
/// names, in their order.
pub open spec fn indexed(
    g: GraphView,
    edges: Seq<PlanEdgeView>,
    by_name: Map<Seq<char>, usize>,
    inputs: Seq<usize>,
    input_by_name: Map<Seq<char>, usize>,
    outputs: Seq<usize>,
    output_by_name: Map<Seq<char>, usize>,
) -> bool {
    let (ins, outs) = (declared_names(g.input_ports), declared_names(g.output_ports));
    &&& forall|name: Seq<char>| #[trigger]
        by_name.contains_key(name) <==> named(g, name)
    &&& forall|e: int|
        0 <= e < edges.len() ==> by_name.contains_key((#[trigger] edges[e]).name)
            && by_name[edges[e].name] == e
    &&& forall|name: Seq<char>| #[trigger]
        by_name.contains_key(name) ==> by_name[name] < edges.len()
            && edges[by_name[name] as int].name == name
    &&& inputs.len() == ins.len()
    &&& forall|k: int|
        0 <= k < ins.len() ==> (#[trigger] inputs[k]) < edges.len() && edges[inputs[k] as int].name
            == ins[k] && input_by_name.contains_key(ins[k]) && input_by_name[ins[k]] == inputs[k]
    &&& forall|name: Seq<char>| #[trigger] input_by_name.contains_key(name) <==> ins.contains(name)
    &&& outputs.len() == outs.len()
    &&& forall|k: int|
        0 <= k < outs.len() && named(g, outs[k]) ==> (#[trigger] outputs[k]) < edges.len()
            && edges[outputs[k] as int].name == outs[k] && output_by_name.contains_key(outs[k])
            && output_by_name[outs[k]] == outputs[k]
    &&& forall|name: Seq<char>| #[trigger]
        output_by_name.contains_key(name) <==> outs.contains(name)
}

proof fn lemma_indexed(g: GraphView, ms: Seq<Mention>)
    requires
        numbered(g),
        complete(g, g.nodes.len(), ms),
        edge_names(ms).len() <= usize::MAX,
    ensures
        ({
            let (ins, outs) = (declared_names(g.input_ports), declared_names(g.output_ports));
            indexed(
                g,
                edges_of(ms, outs),
                edge_numbers(ms),
                numbers_of(ms, ins),
                numbers_by_name(ms, ins),
                numbers_of(ms, outs),
                numbers_by_name(ms, outs),
            )
        }),
{
    let (ins, outs) = (declared_names(g.input_ports), declared_names(g.output_ports));
    let names = edge_names(ms);
    let edges = edges_of(ms, outs);
    let by_name = edge_numbers(ms);
    lemma_named(g, ms, Seq::empty());
    assert forall|name: Seq<char>| #[trigger] by_name.contains_key(name) <==> named(g, name) by {
        lemma_named(g, ms, name);
    }
    assert forall|e: int| 0 <= e < edges.len() implies by_name.contains_key(
        (#[trigger] edges[e]).name,
    ) && by_name[edges[e].name] == e by {
        assert(names.contains(names[e]));
        assert(names[names.index_of(names[e])] == names[e]);
    }
    let inputs = numbers_of(ms, ins);
    assert forall|k: int| 0 <= k < ins.len() implies (#[trigger] inputs[k]) < edges.len()
        && edges[inputs[k] as int].name == ins[k] && numbers_by_name(ms, ins).contains_key(ins[k])
        && numbers_by_name(ms, ins)[ins[k]] == inputs[k] by {
        assert(ins.contains(ins[k]));
        lemma_named(g, ms, ins[k]);
        assert(names[names.index_of(ins[k])] == ins[k]);
    }
    let outputs = numbers_of(ms, outs);
    assert forall|k: int| 0 <= k < outs.len() && named(g, outs[k]) implies (#[trigger] outputs[k])
        < edges.len() && edges[outputs[k] as int].name == outs[k] && numbers_by_name(
        ms,
        outs,
    ).contains_key(outs[k]) && numbers_by_name(ms, outs)[outs[k]] == outputs[k] by {
        assert(outs.contains(outs[k]));
        lemma_named(g, ms, outs[k]);
        assert(names[names.index_of(outs[k])] == outs[k]);
    }
}

/// A plan has one edge for each name of its graph and finds it by the name.
/// Its graph inputs and outputs are the edges of those names, in the order in
/// which the graph declares them.
pub proof fn planned_edges_are_indexed(g: GraphView)
    requires
        numbered(g),
        planned(g).edges.len() <= usize::MAX,
    ensures
        ({
            let p = planned(g);
            indexed(
                g,
                p.edges,
                p.edge_by_name,
                p.graph_inputs,
                p.input_by_name,
                p.graph_outputs,
                p.output_by_name,
            )
        }),
{
    lemma_mentions(g, g.nodes.len());
    lemma_indexed(g, mentions(g, g.nodes.len()));
}

/// A wired graph has one edge for each of its names and finds it by the name.
/// Its graph inputs and outputs are the edges of those names, in the order in
/// which the graph declares them.
pub proof fn wired_edges_are_indexed(g: GraphView)
    requires
        numbered(g),
        wired(g).edges.len() <= usize::MAX,
    ensures
        ({
            let w = wired(g);
            indexed(
                g,
                w.edges,
                w.edge_by_name,
                w.graph_inputs,
                w.input_by_name,
                w.graph_outputs,
                w.output_by_name,
            )
        }),
{
    lemma_places(g);
    lemma_indexed(g, places(g));
}

/// Every node of a plan stands at its place, with its kernel, and runs on the
/// executor that it names: the default one has number zero, and the others
/// come behind it in the order of the configuration. A port is masked exactly
/// if the node lists its name among its feedback edges.
pub proof fn planned_nodes_are_as_configured(g: GraphView, i: int, p: int)
    requires
        g.nodes.len() <= usize::MAX,
        g.executors.len() < usize::MAX,
        0 <= i < g.nodes.len(),
        0 <= p < declared_names(g.nodes[i].input_ports).len(),
    ensures
        ({
            let c = g.nodes[i];
            let n = planned(g).nodes[i];
            let e = n.executor_index as int;
            &&& n.index == i
            &&& n.kernel == c.kernel
            &&& n.inputs == declared_names(c.input_ports)
            &&& n.outputs == declared_names(c.output_ports)
            &&& c.executor.len() > 0 ==> n.executor == c.executor
            &&& c.executor.len() == 0 || c.executor == "default"@ ==> e == 0 && n.executor
                == "default"@
            &&& c.executor.len() > 0 && c.executor != "default"@ && (exists|k: int|
                0 <= k < g.executors.len() && (#[trigger] g.executors[k]).name == c.executor) ==> 1
                <= e <= g.executors.len() && g.executors[e - 1].name == c.executor
            &&& planned(g).back_edge_mask[i][p] <==> c.back_edges.contains(
                declared_names(c.input_ports)[p],
            )
        }),
{
    let c = g.nodes[i];
    if c.executor.len() > 0 && c.executor != "default"@ && (exists|k: int|
        0 <= k < g.executors.len() && (#[trigger] g.executors[k]).name == c.executor) {
        let k = choose|k: int|
            0 <= k < g.executors.len() && (#[trigger] g.executors[k]).name == c.executor;
        assert(executor_names(g.executors)[k] == c.executor);
        assert(executor_names(g.executors).contains(c.executor));
        executor_position_found(g.executors, c.executor);
    }
}

/// In a graph that was built every port of a node has the edge of its name, in
/// the order of the ports, and room for what waits there; and every edge has
/// the readers and the ends that the wiring gives it.
pub proof fn built_graphs_are_wired(
    g: GraphView,
    contracts: Seq<ContractView>,
    names: Map<u64, Seq<char>>,
    i: int,
    j: int,
    e: int,
)
    requires
        numbered(g),
        wired(g).edges.len() <= usize::MAX,
        0 <= i < g.nodes.len(),
    ensures
        ({
            let b = built(g, contracts, names);
            let n = b.nodes[i];
            let (ins, outs) = (
                declared_names(g.nodes[i].input_ports),
                declared_names(g.nodes[i].output_ports),
            );
            &&& n.inputs.len() == ins.len() && n.queues.len() == ins.len() && n.closed.len()
                == ins.len()
            &&& n.outputs.len() == outs.len()
            &&& 0 <= j < ins.len() ==> n.inputs[j] < b.edges.len() && b.edges[n.inputs[j] as int].name
                == ins[j] && b.edges[n.inputs[j] as int].consumers.contains(
                (i as usize, j as usize),
            )
            &&& 0 <= j < outs.len() ==> n.outputs[j] < b.edges.len()
                && b.edges[n.outputs[j] as int].name == outs[j]
            &&& b.edges.len() == wired(g).edges.len()
            &&& 0 <= e < b.edges.len() ==> {
                let (x, y) = (b.edges[e], wired(g).edges[e]);
                &&& joins(g, y)
                &&& x.name == y.name
                &&& x.consumers == y.consumer_ports
                &&& x.producer == y.producer
                &&& x.is_graph_input == y.graph_input && x.is_graph_output == y.graph_output
                &&& !x.closed && x.dropped == 0 && x.last_sent.0 == i64::MIN
                &&& x.pollers.len() == 0 && x.observers.len() == 0
            }
        }),
{
    let ms = places(g);
    let all = edge_names(ms);
    let (ins, outs) = (
        declared_names(g.nodes[i].input_ports),
        declared_names(g.nodes[i].output_ports),
    );
    lemma_places(g);
    if 0 <= j < ins.len() {
        assert(ins.contains(ins[j]));
        assert(named(g, ins[j]));
        lemma_named(g, ms, ins[j]);
        let at = all.index_of(ins[j]);
        assert(all[at] == ins[j]);
        wired_edges_join(g, at);
        let edge = wired(g).edges[at];
        assert(edge.consumer_ports.contains((i as usize, j as usize)));
    }
    if 0 <= j < outs.len() {
        assert(outs.contains(outs[j]));
        assert(named(g, outs[j]));
        lemma_named(g, ms, outs[j]);
        let at = all.index_of(outs[j]);
        assert(all[at] == outs[j]);
    }
    if 0 <= e < wired(g).edges.len() {
        wired_edges_join(g, e);
    }
}

} // verus!

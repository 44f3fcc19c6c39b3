//! What holds of every plan.

use crate::config::{GraphView, NodeView};
use crate::cycle::{cyclic, in_range, search_decides_cycles};
use crate::plan::{
    consumers_of, edge_names, edge_names_distinct, inputs_of, mentions, outputs_of, plan_problem,
    planned, producer_of, Mention,
};
use crate::topology::{
    all_ports_problem, declared_names, graph_successors, links, links_are_nodes, makers_are_nodes,
    names_in, node_ports_problem, outputs_problem, own_outputs, produced, producers,
    producers_from_list, targets, targets_bounded,
};
use crate::wiring::{lemma_producer_own, lemma_producer_skips};
use vstd::prelude::*;

verus! {

// ------------------------------------------------------------------ producers

proof fn lemma_output_is_new(
    names: Seq<Seq<char>>,
    index: usize,
    inputs: Seq<Seq<char>>,
    nodes: Seq<NodeView>,
    t: int,
)
    requires
        outputs_problem(names, index, inputs, nodes) is None,
        0 <= t < names.len(),
    ensures
        !names_in(produced(nodes.take(index as int))).contains(names[t]),
    decreases names.len(),
{
    if t < names.len() - 1 {
        lemma_output_is_new(names.drop_last(), index, inputs, nodes, t);
    } else {
        let earlier = produced(nodes.take(index as int));
        let pairs = earlier + own_outputs(names.drop_last(), index);
        producers_from_list(pairs, names[t]);
        if names_in(earlier).contains(names[t]) {
            let k = names_in(earlier).index_of(names[t]);
            assert(names_in(pairs)[k] == names[t]);
        }
    }
}

proof fn lemma_planned_producer(g: GraphView, inputs: Seq<Seq<char>>, k: nat, i: int, j: int)
    requires
        k <= g.nodes.len() <= usize::MAX,
        all_ports_problem(k, inputs, g.nodes) is None,
        0 <= i < k,
        0 <= j < declared_names(g.nodes[i].output_ports).len(),
    ensures
        producer_of(mentions(g, k), declared_names(g.nodes[i].output_ports)[j]) == Some(i as usize),
        names_in(produced(g.nodes.take(k as int))).contains(
            declared_names(g.nodes[i].output_ports)[j],
        ),
    decreases k,
{
    let name = declared_names(g.nodes[i].output_ports)[j];
    let before = mentions(g, (k - 1) as nat);
    let own = declared_names(g.nodes[k - 1].output_ports);
    let outs = outputs_of(own, (k - 1) as usize);
    let ins = inputs_of(declared_names(g.nodes[k - 1].input_ports), (k - 1) as usize);
    let pairs = produced(g.nodes.take(k as int));
    assert(g.nodes.take(k as int).drop_last() =~= g.nodes.take(k - 1));
    let earlier = produced(g.nodes.take(k - 1));
    assert(pairs == earlier + own_outputs(own, (k - 1) as usize));
    lemma_producer_skips(before + outs, ins, name);
    if i == k - 1 {
        lemma_producer_own(before, own, (k - 1) as usize, j);
        assert(names_in(pairs)[earlier.len() + j] == name);
    } else {
        lemma_planned_producer(g, inputs, (k - 1) as nat, i, j);
        let at = names_in(earlier).index_of(name);
        assert(names_in(pairs)[at] == name);
        assert(node_ports_problem((k - 1) as usize, inputs, g.nodes) is None);
        assert forall|t: int| 0 <= t < outs.len() implies !(
        #[trigger] outs[t] matches Mention::Output(n, _) && n == name) by {
            lemma_output_is_new(own, (k - 1) as usize, inputs, g.nodes, t);
        }
        lemma_producer_skips(before, outs, name);
    }
}

/// Every place of a node is among the places of the graph.
proof fn lemma_mentioned(g: GraphView, k: nat, i: int)
    requires
        0 <= i < k <= g.nodes.len(),
    ensures
        forall|j: int|
            0 <= j < declared_names(g.nodes[i].output_ports).len() ==> mentions(g, k).contains(
                Mention::Output(
                    #[trigger] declared_names(g.nodes[i].output_ports)[j],
                    i as usize,
                ),
            ),
        forall|j: int|
            0 <= j < declared_names(g.nodes[i].input_ports).len() ==> mentions(g, k).contains(
                Mention::Input(
                    #[trigger] declared_names(g.nodes[i].input_ports)[j],
                    i as usize,
                    j as usize,
                ),
            ),
    decreases k,
{
    let before = mentions(g, (k - 1) as nat);
    let outs = outputs_of(declared_names(g.nodes[k - 1].output_ports), (k - 1) as usize);
    let ins = inputs_of(declared_names(g.nodes[k - 1].input_ports), (k - 1) as usize);
    let whole = mentions(g, k);
    if i < k - 1 {
        lemma_mentioned(g, (k - 1) as nat, i);
    }
    assert forall|j: int| 0 <= j < declared_names(g.nodes[i].output_ports).len() implies whole.contains(
        Mention::Output(#[trigger] declared_names(g.nodes[i].output_ports)[j], i as usize),
    ) by {
        let m = Mention::Output(declared_names(g.nodes[i].output_ports)[j], i as usize);
        if i < k - 1 {
            let t = before.index_of(m);
            assert(whole[t] == m);
        } else {
            assert(whole[before.len() + j] == outs[j]);
        }
    }
    assert forall|j: int| 0 <= j < declared_names(g.nodes[i].input_ports).len() implies whole.contains(
        Mention::Input(
            #[trigger] declared_names(g.nodes[i].input_ports)[j],
            i as usize,
            j as usize,
        ),
    ) by {
        let m = Mention::Input(
            declared_names(g.nodes[i].input_ports)[j],
            i as usize,
            j as usize,
        );
        if i < k - 1 {
            let t = before.index_of(m);
            assert(whole[t] == m);
        } else {
            assert(whole[before.len() + outs.len() + j] == ins[j]);
        }
    }
}

proof fn lemma_consumer(ms: Seq<Mention>, t: int)
    requires
        0 <= t < ms.len(),
        ms[t] is Input,
    ensures
        ({
            let (name, node, port) = (ms[t]->Input_0, ms[t]->Input_1, ms[t]->Input_2);
            consumers_of(ms, name).contains((node, port))
        }),
    decreases ms.len(),
{
    let (name, node, port) = (ms[t]->Input_0, ms[t]->Input_1, ms[t]->Input_2);
    let front = ms.drop_last();
    let all = consumers_of(ms, name);
    if t == ms.len() - 1 {
        assert(all[all.len() - 1] == (node, port));
    } else {
        assert(front[t] == ms[t]);
        lemma_consumer(front, t);
        let c = consumers_of(front, name).index_of((node, port));
        assert(all[c] == (node, port));
    }
}

/// Every output port of a node leads to an edge of its name, and that node
/// alone produces it.
pub proof fn planned_outputs_have_one_producer(g: GraphView, parallelism: usize, i: int, j: int)
    requires
        plan_problem(g, parallelism) is None,
        g.nodes.len() <= usize::MAX,
        planned(g).edges.len() <= usize::MAX,
        0 <= i < g.nodes.len(),
        0 <= j < planned(g).nodes[i].outputs.len(),
    ensures
        ({
            let p = planned(g);
            let e = p.nodes[i].output_edges[j] as int;
            &&& 0 <= e < p.edges.len()
            &&& p.edges[e].name == p.nodes[i].outputs[j]
            &&& p.edges[e].producer == Some(i as usize)
        }),
{
    let p = planned(g);
    let ms = mentions(g, g.nodes.len());
    let name = declared_names(g.nodes[i].output_ports)[j];
    lemma_planned_producer(g, declared_names(g.input_ports), g.nodes.len(), i, j);
    lemma_mentioned(g, g.nodes.len(), i);
    edge_names_distinct(ms);
    let t = ms.index_of(Mention::Output(name, i as usize));
    assert(ms[t].name() == name);
    assert(edge_names(ms).contains(name));
}

/// Every input port of a node reads an edge of its name, and is listed among
/// those that read it.
pub proof fn planned_inputs_are_listed(g: GraphView, i: int, j: int)
    requires
        g.nodes.len() <= usize::MAX,
        planned(g).edges.len() <= usize::MAX,
        0 <= i < g.nodes.len(),
        0 <= j < planned(g).nodes[i].inputs.len(),
    ensures
        ({
            let p = planned(g);
            let e = p.nodes[i].input_edges[j] as int;
            &&& 0 <= e < p.edges.len()
            &&& p.edges[e].name == p.nodes[i].inputs[j]
            &&& p.edges[e].consumer_ports.contains((i as usize, j as usize))
        }),
{
    let ms = mentions(g, g.nodes.len());
    let name = declared_names(g.nodes[i].input_ports)[j];
    lemma_mentioned(g, g.nodes.len(), i);
    edge_names_distinct(ms);
    let t = ms.index_of(Mention::Input(name, i as usize, j as usize));
    assert(ms[t].name() == name);
    assert(edge_names(ms).contains(name));
    lemma_consumer(ms, t);
}

/// A graph that can be planned has no cycle of forward edges.
pub proof fn planned_graphs_have_no_cycle(g: GraphView, parallelism: usize)
    requires
        plan_problem(g, parallelism) is None,
        g.nodes.len() <= usize::MAX,
        forall|u: int|
            0 <= u < graph_successors(g).len() ==> (#[trigger] graph_successors(g)[u]).len()
                <= usize::MAX,
    ensures
        !cyclic(graph_successors(g)),
{
    let adj = graph_successors(g);
    let makers = producers(produced(g.nodes));
    let pairs = links(g.nodes.len(), g.nodes, makers);
    makers_are_nodes(g.nodes);
    links_are_nodes(g.nodes.len(), g.nodes, makers);
    assert(in_range(adj)) by {
        assert forall|u: int, c: int| 0 <= u < adj.len() && 0 <= c < adj[u].len() implies (
        #[trigger] adj[u][c]) < adj.len() by {
            targets_bounded(pairs, u as usize, g.nodes.len());
            assert(adj[u] == targets(pairs, u as usize));
        }
    }
    search_decides_cycles(adj);
}

} // verus!

//! Which graphs are accepted: each check of a configuration against what the
//! configuration has to be.

use crate::config::{ExecutorView, GraphView, NodeView};
use crate::cycle::{cyclic, has_edge, in_range, search_decides_cycles};
use crate::edge_laws::numbered;
use crate::expand_laws::{all_declare, lemma_port_list};
use crate::kernel_laws::mentions_text;
use crate::plan::{plan_problem, PlanEdgeView};
use crate::port::{port_list, port_spec};
use crate::preflight::{
    executor_list_problem, executor_position, executor_position_found, executor_problem,
    node_executor_problem, node_executors_problem, node_inputs_problem, nodes_inputs_problem,
};
use crate::support_laws::{groups_are_accepted, groups_divide};
use crate::supported::is_executor_kind;
use crate::topology::{
    adjacency, all_ports_problem, all_unconnected, declared_names, graph_inputs_problem,
    graph_outputs_problem, graph_successors, known_names, links, links_are_nodes, links_into,
    makers_are_nodes, names_in, node_ports_problem, outputs_problem, own_outputs, produced,
    producers, producers_from_list, targets, targets_bounded, topology_problem, unconnected,
};
use crate::wiring::{
    all_feed_problem, all_groups_problem, all_wired_ports_problem, connection_problem, dangling,
    edge_links, executor_names, makers_problem, sinks_problem, sources_problem, unknown_executor,
    unnamed_executor, unread_warning, unread_warnings, wired, wired_edges_within,
    wired_ports_problem, wiring_problem,
};
use vstd::prelude::*;

verus! {

/// Whether node `i` puts out what is called `name`.
pub open spec fn puts(g: GraphView, i: int, name: Seq<char>) -> bool {
    declared_names(g.nodes[i].output_ports).contains(name)
}

/// Whether a name is that of a graph input or of an output of some node.
pub open spec fn has_source(g: GraphView, name: Seq<char>) -> bool {
    ||| declared_names(g.input_ports).contains(name)
    ||| exists|i: int| 0 <= i < g.nodes.len() && #[trigger] puts(g, i, name)
}

/// Whether all ports of the nodes are declared well.
pub open spec fn ports_declared(g: GraphView) -> bool {
    forall|i: int|
        0 <= i < g.nodes.len() ==> all_declare((#[trigger] g.nodes[i]).input_ports) && all_declare(
            g.nodes[i].output_ports,
        )
}

/// Whether every name has at most one source.
pub open spec fn sources_are_unique(g: GraphView) -> bool {
    let ins = declared_names(g.input_ports);
    &&& ins.no_duplicates()
    &&& forall|i: int|
        0 <= i < g.nodes.len() ==> declared_names(
            (#[trigger] g.nodes[i]).output_ports,
        ).no_duplicates()
    &&& forall|i: int, name: Seq<char>|
        0 <= i < g.nodes.len() && #[trigger] puts(g, i, name) ==> !ins.contains(name)
    &&& forall|i: int, j: int, name: Seq<char>|
        0 <= i < j < g.nodes.len() ==> !(#[trigger] puts(g, i, name) && #[trigger] puts(g, j, name))
}

/// Whether every input of a node has a source.
pub open spec fn inputs_have_sources(g: GraphView) -> bool {
    forall|i: int, p: int|
        0 <= i < g.nodes.len() && 0 <= p < declared_names(g.nodes[i].input_ports).len()
            ==> has_source(g, #[trigger] declared_names(g.nodes[i].input_ports)[p])
}

/// Whether every graph output is declared well and has a source.
pub open spec fn outputs_have_sources(g: GraphView) -> bool {
    &&& all_declare(g.output_ports)
    &&& forall|k: int|
        0 <= k < g.output_ports.len() ==> has_source(
            g,
            #[trigger] declared_names(g.output_ports)[k],
        )
}

// ------------------------------------------------------------------------ lists

/// The names of a list of ports, one by one.
pub proof fn declared_names_are_those_of_the_ports(decls: Seq<Seq<char>>)
    requires
        all_declare(decls),
    ensures
        declared_names(decls).len() == decls.len(),
        forall|i: int|
            0 <= i < decls.len() ==> #[trigger] declared_names(decls)[i] == port_spec(
                decls[i],
            )->Ok_0.name,
{
    lemma_port_list(decls);
    let list = port_list(decls)->Ok_0;
    assert forall|i: int| 0 <= i < decls.len() implies #[trigger] declared_names(decls)[i]
        == port_spec(decls[i])->Ok_0.name by {
        assert(list[i] == port_spec(decls[i])->Ok_0);
    }
}

proof fn lemma_front(decls: Seq<Seq<char>>)
    requires
        decls.len() > 0,
    ensures
        all_declare(decls) <==> all_declare(decls.drop_last()) && port_spec(decls.last()) is Ok,
        all_declare(decls) ==> declared_names(decls) == declared_names(decls.drop_last()).push(
            port_spec(decls.last())->Ok_0.name,
        ),
{
    let front = decls.drop_last();
    assert forall|i: int| 0 <= i < front.len() implies front[i] == #[trigger] decls[i] by {}
    if all_declare(front) && port_spec(decls.last()) is Ok {
        assert forall|i: int| 0 <= i < decls.len() implies port_spec(#[trigger] decls[i]) is Ok by {
            if i < front.len() {
                assert(port_spec(front[i]) is Ok);
            }
        }
    }
    if all_declare(decls) {
        assert forall|i: int| 0 <= i < front.len() implies port_spec(#[trigger] front[i]) is Ok by {
            assert(port_spec(decls[i]) is Ok);
        }
        assert(port_spec(decls[decls.len() - 1]) is Ok);
        declared_names_are_those_of_the_ports(decls);
        declared_names_are_those_of_the_ports(front);
        let (all, some) = (declared_names(decls), declared_names(front));
        assert forall|i: int| 0 <= i < all.len() implies all[i] == some.push(
            port_spec(decls.last())->Ok_0.name,
        )[i] by {
            if i < front.len() {
                assert(some[i] == port_spec(front[i])->Ok_0.name);
            }
        }
        assert(all =~= some.push(port_spec(decls.last())->Ok_0.name));
    }
}

proof fn lemma_distinct_push(front: Seq<Seq<char>>, name: Seq<char>)
    ensures
        front.push(name).no_duplicates() <==> front.no_duplicates() && !front.contains(name),
{
    let all = front.push(name);
    if all.no_duplicates() {
        assert forall|i: int, j: int|
            0 <= i < front.len() && 0 <= j < front.len() && i != j implies front[i] != front[j] by {
            assert(all[i] == front[i] && all[j] == front[j]);
        }
        if front.contains(name) {
            let i = front.index_of(name);
            assert(all[i] == name && all[front.len() as int] == name);
        }
    }
    if front.no_duplicates() && !front.contains(name) {
        assert forall|i: int, j: int|
            0 <= i < all.len() && 0 <= j < all.len() && i != j implies all[i] != all[j] by {
            if i == front.len() {
                assert(all[j] == front[j]);
                assert(front.contains(front[j]));
            } else if j == front.len() {
                assert(all[i] == front[i]);
                assert(front.contains(front[i]));
            }
        }
    }
}

proof fn lemma_inputs_accepted(decls: Seq<Seq<char>>)
    ensures
        graph_inputs_problem(decls) is None <==> all_declare(decls) && declared_names(
            decls,
        ).no_duplicates(),
        sources_problem(decls) is None <==> all_declare(decls) && declared_names(
            decls,
        ).no_duplicates(),
    decreases decls.len(),
{
    if decls.len() == 0 {
        assert(declared_names(decls) =~= Seq::empty());
    } else {
        let front = decls.drop_last();
        lemma_inputs_accepted(front);
        lemma_front(decls);
        if all_declare(decls) {
            lemma_distinct_push(declared_names(front), port_spec(decls.last())->Ok_0.name);
        }
    }
}

proof fn lemma_outputs_accepted(decls: Seq<Seq<char>>, known: Seq<Seq<char>>)
    ensures
        graph_outputs_problem(decls, known) is None <==> all_declare(decls) && forall|k: int|
            0 <= k < decls.len() ==> known.contains(#[trigger] declared_names(decls)[k]),
        sinks_problem(decls, known) is None <==> all_declare(decls) && forall|k: int|
            0 <= k < decls.len() ==> known.contains(#[trigger] declared_names(decls)[k]),
    decreases decls.len(),
{
    if decls.len() > 0 {
        let front = decls.drop_last();
        lemma_outputs_accepted(front, known);
        lemma_front(decls);
        if all_declare(decls) {
            let (all, some) = (declared_names(decls), declared_names(front));
            declared_names_are_those_of_the_ports(front);
            let name = port_spec(decls.last())->Ok_0.name;
            assert(all == some.push(name));
            if forall|k: int| 0 <= k < decls.len() ==> known.contains(#[trigger] all[k]) {
                assert forall|k: int| 0 <= k < front.len() implies known.contains(
                    #[trigger] some[k],
                ) by {
                    assert(all[k] == some[k]);
                }
                assert(known.contains(all[decls.len() - 1]));
            }
            if known.contains(name) && forall|k: int|
                0 <= k < front.len() ==> known.contains(#[trigger] some[k]) {
                assert forall|k: int| 0 <= k < decls.len() implies known.contains(
                    #[trigger] all[k],
                ) by {
                    if k < front.len() {
                        assert(all[k] == some[k]);
                    }
                }
            }
        }
    }
}

proof fn lemma_connected(names: Seq<Seq<char>>, known: Seq<Seq<char>>, path: Seq<char>)
    ensures
        unconnected(names, known, path) is None <==> forall|p: int|
            0 <= p < names.len() ==> known.contains(#[trigger] names[p]),
        dangling(names, known, path) is None <==> forall|p: int|
            0 <= p < names.len() ==> known.contains(#[trigger] names[p]),
    decreases names.len(),
{
    if names.len() > 0 {
        let front = names.drop_last();
        lemma_connected(front, known, path);
        assert forall|p: int| 0 <= p < front.len() implies front[p] == #[trigger] names[p] by {}
        if forall|p: int| 0 <= p < front.len() ==> known.contains(#[trigger] front[p]) {
            assert forall|p: int| 0 <= p < front.len() implies known.contains(
                #[trigger] names[p],
            ) by {
                assert(known.contains(front[p]));
            }
        }
        if forall|p: int| 0 <= p < names.len() ==> known.contains(#[trigger] names[p]) {
            assert forall|p: int| 0 <= p < front.len() implies known.contains(
                #[trigger] front[p],
            ) by {
                assert(known.contains(names[p]));
            }
            assert(known.contains(names[names.len() - 1]));
        }
    }
}

// ---------------------------------------------------------------------- sources

proof fn lemma_produced(nodes: Seq<NodeView>, name: Seq<char>)
    requires
        nodes.len() <= usize::MAX,
    ensures
        names_in(produced(nodes)).contains(name) <==> exists|i: int|
            0 <= i < nodes.len() && declared_names(
                (#[trigger] nodes[i]).output_ports,
            ).contains(name),
        forall|i: usize| #[trigger]
            produced(nodes).contains((name, i)) <==> i < nodes.len() && declared_names(
                nodes[i as int].output_ports,
            ).contains(name),
    decreases nodes.len(),
{
    if nodes.len() > 0 {
        let front = nodes.drop_last();
        lemma_produced(front, name);
        let last = (nodes.len() - 1) as usize;
        let names = declared_names(nodes.last().output_ports);
        let own = own_outputs(names, last);
        let before = produced(front);
        let all = produced(nodes);
        assert(all == before + own);
        assert forall|i: usize| #[trigger] all.contains((name, i)) <==> i < nodes.len()
            && declared_names(nodes[i as int].output_ports).contains(name) by {
            if all.contains((name, i)) {
                let k = all.index_of((name, i));
                if k < before.len() {
                    assert(before[k] == (name, i));
                    assert(before.contains((name, i)));
                    assert(front[i as int] == nodes[i as int]);
                } else {
                    assert(own[k - before.len()] == (name, i));
                    assert(names[k - before.len()] == name);
                }
            }
            if i < nodes.len() && declared_names(nodes[i as int].output_ports).contains(name) {
                if i < front.len() {
                    assert(front[i as int] == nodes[i as int]);
                    assert(before.contains((name, i)));
                    let k = before.index_of((name, i));
                    assert(all[k] == (name, i));
                } else {
                    let k = names.index_of(name);
                    assert(own[k] == (name, i));
                    assert(all[before.len() + k] == (name, i));
                }
            }
        }
        if names_in(all).contains(name) {
            let k = names_in(all).index_of(name);
            let i = all[k].1;
            assert(all[k] == (name, i));
            assert(all.contains((name, i)));
            assert(declared_names(nodes[i as int].output_ports).contains(name));
        }
        if exists|i: int|
            0 <= i < nodes.len() && declared_names((#[trigger] nodes[i]).output_ports).contains(
                name,
            ) {
            let i = choose|i: int|
                0 <= i < nodes.len() && declared_names((#[trigger] nodes[i]).output_ports).contains(
                    name,
                );
            assert(all.contains((name, i as usize)));
            let k = all.index_of((name, i as usize));
            assert(names_in(all)[k] == name);
        }
    } else {
        assert(names_in(produced(nodes)) =~= Seq::empty());
    }
}

proof fn lemma_known(g: GraphView, name: Seq<char>)
    requires
        g.nodes.len() <= usize::MAX,
    ensures
        known_names(g).contains(name) <==> has_source(g, name),
{
    let ins = declared_names(g.input_ports);
    let made = names_in(produced(g.nodes));
    let all = known_names(g);
    lemma_produced(g.nodes, name);
    if ins.contains(name) {
        let k = ins.index_of(name);
        assert(all[k] == name);
    }
    if made.contains(name) {
        let k = made.index_of(name);
        assert(all[ins.len() + k] == name);
        let i = choose|i: int|
            0 <= i < g.nodes.len() && declared_names((#[trigger] g.nodes[i]).output_ports).contains(
                name,
            );
        assert(puts(g, i, name));
    }
    if all.contains(name) {
        let k = all.index_of(name);
        if k < ins.len() {
            assert(ins[k] == name);
        } else {
            assert(made[k - ins.len()] == name);
        }
    }
    if exists|i: int| 0 <= i < g.nodes.len() && #[trigger] puts(g, i, name) {
        let i = choose|i: int| 0 <= i < g.nodes.len() && #[trigger] puts(g, i, name);
        assert(declared_names(g.nodes[i].output_ports).contains(name));
    }
}

/// Whether an output of node `index` may be called `name`, behind others.
spec fn free(
    name: Seq<char>,
    earlier: Seq<Seq<char>>,
    index: int,
    inputs: Seq<Seq<char>>,
    nodes: Seq<NodeView>,
) -> bool {
    &&& !inputs.contains(name)
    &&& !earlier.contains(name)
    &&& forall|j: int|
        0 <= j < index ==> !declared_names((#[trigger] nodes[j]).output_ports).contains(name)
}

proof fn lemma_free(
    name: Seq<char>,
    earlier: Seq<Seq<char>>,
    index: usize,
    inputs: Seq<Seq<char>>,
    nodes: Seq<NodeView>,
)
    requires
        index < nodes.len() <= usize::MAX,
    ensures
        free(name, earlier, index as int, inputs, nodes) <==> !inputs.contains(name) && !producers(
            produced(nodes.take(index as int)) + own_outputs(earlier, index),
        ).contains_key(name),
{
    let some = nodes.take(index as int);
    let pairs = produced(some) + own_outputs(earlier, index);
    producers_from_list(pairs, name);
    lemma_produced(some, name);
    let made = names_in(produced(some));
    let all = names_in(pairs);
    assert(all =~= made + earlier);
    if made.contains(name) {
        let k = made.index_of(name);
        assert(all[k] == name);
        let j = choose|j: int|
            0 <= j < some.len() && declared_names((#[trigger] some[j]).output_ports).contains(name);
        assert(nodes[j] == some[j]);
    }
    if earlier.contains(name) {
        let k = earlier.index_of(name);
        assert(all[made.len() + k] == name);
    }
    if all.contains(name) {
        let k = all.index_of(name);
        if k < made.len() {
            assert(made[k] == name);
        } else {
            assert(earlier[k - made.len()] == name);
        }
    }
    if exists|j: int|
        0 <= j < index && declared_names((#[trigger] nodes[j]).output_ports).contains(name) {
        let j = choose|j: int|
            0 <= j < index && declared_names((#[trigger] nodes[j]).output_ports).contains(name);
        assert(some[j] == nodes[j]);
        assert(declared_names(some[j].output_ports).contains(name));
    }
}

spec fn all_free(
    names: Seq<Seq<char>>,
    index: int,
    inputs: Seq<Seq<char>>,
    nodes: Seq<NodeView>,
) -> bool {
    &&& names.no_duplicates()
    &&& forall|k: int|
        0 <= k < names.len() ==> !inputs.contains(#[trigger] names[k]) && forall|j: int|
            0 <= j < index ==> !declared_names((#[trigger] nodes[j]).output_ports).contains(
                names[k],
            )
}

proof fn lemma_makers(
    names: Seq<Seq<char>>,
    index: usize,
    inputs: Seq<Seq<char>>,
    nodes: Seq<NodeView>,
)
    requires
        index < nodes.len() <= usize::MAX,
    ensures
        outputs_problem(names, index, inputs, nodes) is None <==> all_free(
            names,
            index as int,
            inputs,
            nodes,
        ),
        makers_problem(names, index, inputs, nodes) is None <==> all_free(
            names,
            index as int,
            inputs,
            nodes,
        ),
    decreases names.len(),
{
    if names.len() > 0 {
        let front = names.drop_last();
        let name = names.last();
        lemma_makers(front, index, inputs, nodes);
        lemma_free(name, front, index, inputs, nodes);
        lemma_distinct_push(front, name);
        assert(names =~= front.push(name));
        assert forall|k: int| 0 <= k < front.len() implies front[k] == #[trigger] names[k] by {}
        if all_free(front, index as int, inputs, nodes) && free(
            name,
            front,
            index as int,
            inputs,
            nodes,
        ) {
            assert forall|k: int| 0 <= k < names.len() implies !inputs.contains(
                #[trigger] names[k],
            ) && forall|j: int|
                0 <= j < index ==> !declared_names((#[trigger] nodes[j]).output_ports).contains(
                    names[k],
                ) by {
                if k < front.len() {
                    assert(!inputs.contains(front[k]));
                }
            }
        }
        if all_free(names, index as int, inputs, nodes) {
            assert forall|k: int| 0 <= k < front.len() implies !inputs.contains(
                #[trigger] front[k],
            ) && forall|j: int|
                0 <= j < index ==> !declared_names((#[trigger] nodes[j]).output_ports).contains(
                    front[k],
                ) by {
                assert(!inputs.contains(names[k]));
            }
            assert(!inputs.contains(names[names.len() - 1]));
        }
    }
}

spec fn node_free(i: int, inputs: Seq<Seq<char>>, nodes: Seq<NodeView>) -> bool {
    &&& all_declare(nodes[i].input_ports)
    &&& all_declare(nodes[i].output_ports)
    &&& all_free(declared_names(nodes[i].output_ports), i, inputs, nodes)
}

proof fn lemma_all_ports(k: nat, inputs: Seq<Seq<char>>, nodes: Seq<NodeView>)
    requires
        k <= nodes.len() <= usize::MAX,
    ensures
        all_ports_problem(k, inputs, nodes) is None <==> forall|i: int|
            0 <= i < k ==> #[trigger] node_free(i, inputs, nodes),
        all_wired_ports_problem(k, inputs, nodes) is None <==> forall|i: int|
            0 <= i < k ==> #[trigger] node_free(i, inputs, nodes),
    decreases k,
{
    if k > 0 {
        lemma_all_ports((k - 1) as nat, inputs, nodes);
        let n = nodes[k - 1];
        lemma_port_list(n.input_ports);
        lemma_port_list(n.output_ports);
        lemma_makers(declared_names(n.output_ports), (k - 1) as usize, inputs, nodes);
        assert(node_ports_problem((k - 1) as usize, inputs, nodes) is None <==> node_free(
            k - 1,
            inputs,
            nodes,
        ));
        assert(wired_ports_problem((k - 1) as usize, inputs, nodes) is None <==> node_free(
            k - 1,
            inputs,
            nodes,
        ));
    }
}

proof fn lemma_sources_unique(g: GraphView)
    ensures
        declared_names(g.input_ports).no_duplicates() && (forall|i: int|
            0 <= i < g.nodes.len() ==> #[trigger] node_free(
                i,
                declared_names(g.input_ports),
                g.nodes,
            )) <==> ports_declared(g) && sources_are_unique(g),
{
    let ins = declared_names(g.input_ports);
    if ins.no_duplicates() && (forall|i: int|
        0 <= i < g.nodes.len() ==> #[trigger] node_free(i, ins, g.nodes)) {
        assert forall|i: int| 0 <= i < g.nodes.len() implies all_declare(
            (#[trigger] g.nodes[i]).input_ports,
        ) && all_declare(g.nodes[i].output_ports) by {
            assert(node_free(i, ins, g.nodes));
        }
        assert forall|i: int| 0 <= i < g.nodes.len() implies declared_names(
            (#[trigger] g.nodes[i]).output_ports,
        ).no_duplicates() by {
            assert(node_free(i, ins, g.nodes));
        }
        assert forall|i: int, name: Seq<char>|
            0 <= i < g.nodes.len() && #[trigger] puts(g, i, name) implies !ins.contains(name) by {
            assert(node_free(i, ins, g.nodes));
            let k = declared_names(g.nodes[i].output_ports).index_of(name);
            assert(declared_names(g.nodes[i].output_ports)[k] == name);
        }
        assert forall|i: int, j: int, name: Seq<char>|
            0 <= i < j < g.nodes.len() implies !(#[trigger] puts(g, i, name) && #[trigger] puts(
            g,
            j,
            name,
        )) by {
            assert(node_free(j, ins, g.nodes));
            if puts(g, j, name) {
                let k = declared_names(g.nodes[j].output_ports).index_of(name);
                assert(declared_names(g.nodes[j].output_ports)[k] == name);
                assert(!declared_names(g.nodes[i].output_ports).contains(name));
            }
        }
    }
    if ports_declared(g) && sources_are_unique(g) {
        assert forall|i: int| 0 <= i < g.nodes.len() implies #[trigger] node_free(
            i,
            ins,
            g.nodes,
        ) by {
            let names = declared_names(g.nodes[i].output_ports);
            assert(all_declare(g.nodes[i].input_ports) && all_declare(g.nodes[i].output_ports));
            assert(names.no_duplicates());
            assert forall|k: int| 0 <= k < names.len() implies !ins.contains(#[trigger] names[k])
                && forall|j: int|
                0 <= j < i ==> !declared_names((#[trigger] g.nodes[j]).output_ports).contains(
                    names[k],
                ) by {
                assert(names.contains(names[k]));
                assert(puts(g, i, names[k]));
                assert forall|j: int| 0 <= j < i implies !declared_names(
                    (#[trigger] g.nodes[j]).output_ports,
                ).contains(names[k]) by {
                    assert(!puts(g, j, names[k]));
                }
            }
        }
    }
}

proof fn lemma_all_connected(g: GraphView, k: nat)
    requires
        k <= g.nodes.len() <= usize::MAX,
    ensures
        all_unconnected(k, g.nodes, known_names(g)) is None <==> forall|i: int, p: int|
            0 <= i < k && 0 <= p < declared_names(g.nodes[i].input_ports).len() ==> has_source(
                g,
                #[trigger] declared_names(g.nodes[i].input_ports)[p],
            ),
        all_feed_problem(k, g.nodes, known_names(g)) is None <==> (forall|i: int, p: int|
            0 <= i < k && 0 <= p < declared_names(g.nodes[i].input_ports).len() ==> has_source(
                g,
                #[trigger] declared_names(g.nodes[i].input_ports)[p],
            )) && forall|i: int|
            0 <= i < k ==> declared_names((#[trigger] g.nodes[i]).input_ports).len() > 0,
    decreases k,
{
    if k > 0 {
        lemma_all_connected(g, (k - 1) as nat);
        let n = g.nodes[k - 1];
        let names = declared_names(n.input_ports);
        let known = known_names(g);
        lemma_connected(names, known, n.path((k - 1) as nat));
        lemma_connected(names, known, n.numbered_label((k - 1) as nat));
        let fed = forall|p: int| 0 <= p < names.len() ==> has_source(g, #[trigger] names[p]);
        assert(fed <==> forall|p: int| 0 <= p < names.len() ==> known.contains(
            #[trigger] names[p],
        )) by {
            if fed {
                assert forall|p: int| 0 <= p < names.len() implies known.contains(
                    #[trigger] names[p],
                ) by {
                    lemma_known(g, names[p]);
                }
            }
            if forall|p: int| 0 <= p < names.len() ==> known.contains(#[trigger] names[p]) {
                assert forall|p: int| 0 <= p < names.len() implies has_source(
                    g,
                    #[trigger] names[p],
                ) by {
                    lemma_known(g, names[p]);
                }
            }
        }
        let before = forall|i: int, p: int|
            0 <= i < k - 1 && 0 <= p < declared_names(g.nodes[i].input_ports).len() ==> has_source(
                g,
                #[trigger] declared_names(g.nodes[i].input_ports)[p],
            );
        let all = forall|i: int, p: int|
            0 <= i < k && 0 <= p < declared_names(g.nodes[i].input_ports).len() ==> has_source(
                g,
                #[trigger] declared_names(g.nodes[i].input_ports)[p],
            );
        assert(all <==> before && fed) by {
            if all {
                assert forall|p: int| 0 <= p < names.len() implies has_source(
                    g,
                    #[trigger] names[p],
                ) by {
                    assert(has_source(g, declared_names(g.nodes[k - 1].input_ports)[p]));
                }
            }
        }
    }
}

// ----------------------------------------------------------------------- cycles

proof fn lemma_targets(pairs: Seq<(usize, usize)>, u: usize, v: usize)
    ensures
        targets(pairs, u).contains(v) <==> pairs.contains((u, v)),
        targets(pairs, u).len() <= pairs.len(),
    decreases pairs.len(),
{
    if pairs.len() > 0 {
        let front = pairs.drop_last();
        let last = pairs.last();
        lemma_targets(front, u, v);
        let (some, all) = (targets(front, u), targets(pairs, u));
        if front.contains((u, v)) {
            let k = front.index_of((u, v));
            assert(pairs[k] == (u, v));
        }
        if last == (u, v) {
            assert(pairs[pairs.len() - 1] == (u, v));
        }
        if pairs.contains((u, v)) && last != (u, v) {
            let k = pairs.index_of((u, v));
            assert(front[k] == (u, v));
        }
        if last.0 == u {
            assert(all == some.push(last.1));
            if some.contains(v) {
                let k = some.index_of(v);
                assert(all[k] == v);
            }
            if last.1 == v {
                assert(all[some.len() as int] == v);
            }
            if all.contains(v) && last.1 != v {
                let k = all.index_of(v);
                assert(some[k] == v);
                assert(some.contains(v));
            }
        }
    }
}

proof fn lemma_links_into(
    names: Seq<Seq<char>>,
    back_edges: Seq<Seq<char>>,
    makers: Map<Seq<char>, usize>,
    index: usize,
    u: usize,
    v: usize,
)
    ensures
        links_into(names, back_edges, makers, index).contains((u, v)) <==> v == index && exists|
            p: int,
        |
            0 <= p < names.len() && makers.contains_key(#[trigger] names[p]) && makers[names[p]]
                == u && !back_edges.contains(names[p]),
        links_into(names, back_edges, makers, index).len() <= names.len(),
    decreases names.len(),
{
    if names.len() > 0 {
        let front = names.drop_last();
        let name = names.last();
        lemma_links_into(front, back_edges, makers, index, u, v);
        let some = links_into(front, back_edges, makers, index);
        let all = links_into(names, back_edges, makers, index);
        assert forall|p: int| 0 <= p < front.len() implies front[p] == #[trigger] names[p] by {}
        if exists|p: int|
            0 <= p < front.len() && makers.contains_key(#[trigger] front[p]) && makers[front[p]]
                == u && !back_edges.contains(front[p]) {
            let p = choose|p: int|
                0 <= p < front.len() && makers.contains_key(#[trigger] front[p]) && makers[front[p]]
                    == u && !back_edges.contains(front[p]);
            assert(names[p] == front[p]);
        }
        if exists|p: int|
            0 <= p < names.len() && makers.contains_key(#[trigger] names[p]) && makers[names[p]]
                == u && !back_edges.contains(names[p]) {
            let p = choose|p: int|
                0 <= p < names.len() && makers.contains_key(#[trigger] names[p]) && makers[names[p]]
                    == u && !back_edges.contains(names[p]);
            if p < front.len() {
                assert(front[p] == names[p]);
            }
        }
        assert(names[names.len() - 1] == name);
        if makers.contains_key(name) && !back_edges.contains(name) {
            let link = (makers[name], index);
            assert(all == some.push(link));
            if some.contains((u, v)) {
                let k = some.index_of((u, v));
                assert(all[k] == (u, v));
            }
            if link == (u, v) {
                assert(all[some.len() as int] == (u, v));
            }
            if all.contains((u, v)) && link != (u, v) {
                let k = all.index_of((u, v));
                assert(some[k] == (u, v));
                assert(some.contains((u, v)));
            }
        }
    }
}

/// Whether node `v` has a forward input that node `u` puts out.
pub open spec fn feeds(g: GraphView, u: usize, v: usize) -> bool {
    exists|p: int|
        0 <= p < declared_names(g.nodes[v as int].input_ports).len() && puts(
            g,
            u as int,
            #[trigger] declared_names(g.nodes[v as int].input_ports)[p],
        ) && !g.nodes[v as int].back_edges.contains(
            declared_names(g.nodes[v as int].input_ports)[p],
        )
}

proof fn lemma_links(g: GraphView, k: nat, u: usize, v: usize)
    requires
        k <= g.nodes.len() <= usize::MAX,
        u < g.nodes.len(),
        sources_are_unique(g),
    ensures
        links(k, g.nodes, producers(produced(g.nodes))).contains((u, v)) <==> v < k && feeds(
            g,
            u,
            v,
        ),
    decreases k,
{
    let makers = producers(produced(g.nodes));
    if k > 0 {
        lemma_links(g, (k - 1) as nat, u, v);
        let n = g.nodes[k - 1];
        let names = declared_names(n.input_ports);
        let before = links((k - 1) as nat, g.nodes, makers);
        let own = links_into(names, n.back_edges, makers, (k - 1) as usize);
        let all = links(k, g.nodes, makers);
        assert(all == before + own);
        lemma_links_into(names, n.back_edges, makers, (k - 1) as usize, u, v);
        if before.contains((u, v)) {
            let i = before.index_of((u, v));
            assert(all[i] == (u, v));
        }
        if own.contains((u, v)) {
            let i = own.index_of((u, v));
            assert(all[before.len() + i] == (u, v));
        }
        if all.contains((u, v)) {
            let i = all.index_of((u, v));
            if i < before.len() {
                assert(before[i] == (u, v));
            } else {
                assert(own[i - before.len()] == (u, v));
            }
        }
        if v == k - 1 {
            if own.contains((u, v)) {
                let p = choose|p: int|
                    0 <= p < names.len() && makers.contains_key(#[trigger] names[p])
                        && makers[names[p]] == u && !n.back_edges.contains(names[p]);
                lemma_maker(g, names[p], u);
                assert(puts(g, u as int, names[p]));
                assert(feeds(g, u, v));
            }
            if feeds(g, u, v) {
                let p = choose|p: int|
                    0 <= p < names.len() && puts(g, u as int, #[trigger] names[p])
                        && !n.back_edges.contains(names[p]);
                lemma_maker(g, names[p], u);
                assert(makers.contains_key(names[p]) && makers[names[p]] == u);
            }
        }
    }
}

proof fn lemma_maker(g: GraphView, name: Seq<char>, u: usize)
    requires
        g.nodes.len() <= usize::MAX,
        u < g.nodes.len(),
        sources_are_unique(g),
    ensures
        producers(produced(g.nodes)).contains_key(name) && producers(produced(g.nodes))[name] == u
            <==> puts(g, u as int, name),
{
    let pairs = produced(g.nodes);
    let makers = producers(pairs);
    producers_from_list(pairs, name);
    lemma_produced(g.nodes, name);
    if makers.contains_key(name) {
        let j = choose|j: int| 0 <= j < pairs.len() && #[trigger] pairs[j] == (name, makers[name]);
        let i = makers[name];
        assert(pairs.contains((name, i)));
        assert(puts(g, i as int, name));
        if puts(g, u as int, name) && i != u {
            if i < u {
                assert(!(puts(g, i as int, name) && puts(g, u as int, name)));
            } else {
                assert(!(puts(g, u as int, name) && puts(g, i as int, name)));
            }
        }
    }
    if puts(g, u as int, name) {
        assert(declared_names(g.nodes[u as int].output_ports).contains(name));
        assert(names_in(pairs).contains(name));
    }
}

/// In the graph that is searched for cycles an edge leads from one node to
/// another exactly if the first puts out what is a forward input of the
/// second.
pub proof fn successors_are_fed(g: GraphView, u: usize, v: usize)
    requires
        g.nodes.len() <= usize::MAX,
        u < g.nodes.len(),
        v < g.nodes.len(),
        sources_are_unique(g),
    ensures
        has_edge(graph_successors(g), u, v) <==> feeds(g, u, v),
{
    let pairs = links(g.nodes.len(), g.nodes, producers(produced(g.nodes)));
    lemma_targets(pairs, u, v);
    lemma_links(g, g.nodes.len(), u, v);
    assert(graph_successors(g)[u as int] == targets(pairs, u));
}

/// The connections of a graph are accepted exactly if all ports are declared
/// well, every name has at most one source, every input and every graph output
/// has one, and no node feeds itself forward, on whatever way.
pub proof fn topologies_are_accepted(g: GraphView)
    requires
        g.nodes.len() <= usize::MAX,
        forall|u: int|
            0 <= u < graph_successors(g).len() ==> (#[trigger] graph_successors(g)[u]).len()
                <= usize::MAX,
    ensures
        topology_problem(g) is None <==> {
            &&& all_declare(g.input_ports)
            &&& ports_declared(g)
            &&& sources_are_unique(g)
            &&& inputs_have_sources(g)
            &&& outputs_have_sources(g)
            &&& !cyclic(graph_successors(g))
        },
{
    let ins = declared_names(g.input_ports);
    lemma_inputs_accepted(g.input_ports);
    lemma_all_ports(g.nodes.len(), ins, g.nodes);
    lemma_sources_unique(g);
    lemma_all_connected(g, g.nodes.len());
    lemma_sinks_accepted(g);
    let adj = graph_successors(g);
    let makers = producers(produced(g.nodes));
    let pairs = links(g.nodes.len(), g.nodes, makers);
    makers_are_nodes(g.nodes);
    links_are_nodes(g.nodes.len(), g.nodes, makers);
    assert(in_range(adj)) by {
        assert forall|u: int, c: int| 0 <= u < adj.len() && 0 <= c < adj[u].len() implies (
        #[trigger] adj[u][c]) < adj.len() by {
            targets_bounded(pairs, u as usize, g.nodes.len());
            assert(adj[u] == targets(pairs, u as usize));
        }
    }
    search_decides_cycles(adj);
}

proof fn lemma_sinks_accepted(g: GraphView)
    requires
        g.nodes.len() <= usize::MAX,
    ensures
        graph_outputs_problem(g.output_ports, known_names(g)) is None <==> outputs_have_sources(g),
        sinks_problem(g.output_ports, known_names(g)) is None <==> outputs_have_sources(g),
{
    let known = known_names(g);
    let outs = declared_names(g.output_ports);
    lemma_outputs_accepted(g.output_ports, known);
    if outputs_have_sources(g) {
        assert forall|k: int| 0 <= k < g.output_ports.len() implies known.contains(
            #[trigger] outs[k],
        ) by {
            lemma_known(g, outs[k]);
        }
    }
    if forall|k: int| 0 <= k < g.output_ports.len() ==> known.contains(#[trigger] outs[k]) {
        assert forall|k: int| 0 <= k < g.output_ports.len() implies has_source(
            g,
            #[trigger] outs[k],
        ) by {
            lemma_known(g, outs[k]);
        }
    }
}

/// The ports of a graph can be connected exactly if all are declared well,
/// every name has at most one source, every node has an input, and every
/// input and every graph output has a source.
pub proof fn connections_are_accepted(g: GraphView)
    requires
        g.nodes.len() <= usize::MAX,
    ensures
        connection_problem(g) is None <==> {
            &&& all_declare(g.input_ports)
            &&& ports_declared(g)
            &&& sources_are_unique(g)
            &&& inputs_have_sources(g)
            &&& forall|i: int|
                0 <= i < g.nodes.len() ==> declared_names(
                    (#[trigger] g.nodes[i]).input_ports,
                ).len() > 0
            &&& outputs_have_sources(g)
        },
{
    let ins = declared_names(g.input_ports);
    lemma_inputs_accepted(g.input_ports);
    lemma_all_ports(g.nodes.len(), ins, g.nodes);
    lemma_sources_unique(g);
    lemma_all_connected(g, g.nodes.len());
    lemma_sinks_accepted(g);
}

// -------------------------------------------------------------------- executors

/// Whether an executor of a plan is as it has to be, apart from its name.
pub open spec fn executor_fits(e: ExecutorView) -> bool {
    &&& e.name.len() > 0
    &&& e.name != "default"@
    &&& is_executor_kind(e.kind)
    &&& e.kind == "DelegatingExecutor"@ ==> e.num_threads == 0 && e.affinity.len() == 0
        && e.priority == 0
}

/// The executors of a plan are accepted exactly if each has a name of its own
/// that is not that of the default one, is of a known type, and claims no
/// threads if it has none.
pub proof fn executors_are_accepted(executors: Seq<ExecutorView>)
    ensures
        executor_list_problem(executors) is None <==> {
            &&& executor_names(executors).no_duplicates()
            &&& forall|i: int| 0 <= i < executors.len() ==> executor_fits(#[trigger] executors[i])
        },
        unnamed_executor(executors) is None <==> {
            &&& executor_names(executors).no_duplicates()
            &&& forall|i: int|
                0 <= i < executors.len() ==> (#[trigger] executors[i]).name.len() > 0
        },
    decreases executors.len(),
{
    if executors.len() > 0 {
        let front = executors.drop_last();
        let last = executors.last();
        executors_are_accepted(front);
        let (some, all) = (executor_names(front), executor_names(executors));
        assert(all =~= some.push(last.name));
        lemma_distinct_push(some, last.name);
        assert(some =~= crate::preflight::executor_names(front));
        assert forall|i: int| 0 <= i < front.len() implies front[i] == #[trigger] executors[i] by {}
        assert(executor_problem(last, (executors.len() - 1) as nat, some) is None <==> executor_fits(
            last,
        ) && !some.contains(last.name));
        if forall|i: int| 0 <= i < front.len() ==> executor_fits(#[trigger] front[i]) {
            assert forall|i: int| 0 <= i < front.len() implies executor_fits(
                #[trigger] executors[i],
            ) by {
                assert(executor_fits(front[i]));
            }
        }
        if forall|i: int| 0 <= i < front.len() ==> (#[trigger] front[i]).name.len() > 0 {
            assert forall|i: int| 0 <= i < front.len() implies (
            #[trigger] executors[i]).name.len() > 0 by {
                assert(front[i].name.len() > 0);
            }
        }
        if forall|i: int| 0 <= i < executors.len() ==> executor_fits(#[trigger] executors[i]) {
            assert forall|i: int| 0 <= i < front.len() implies executor_fits(
                #[trigger] front[i],
            ) by {
                assert(executor_fits(executors[i]));
            }
            assert(executor_fits(executors[executors.len() - 1]));
        }
        if forall|i: int| 0 <= i < executors.len() ==> (#[trigger] executors[i]).name.len() > 0 {
            assert forall|i: int| 0 <= i < front.len() implies (#[trigger] front[i]).name.len()
                > 0 by {
                assert(executors[i].name.len() > 0);
            }
            assert(executors[executors.len() - 1].name.len() > 0);
        }
    } else {
        assert(executor_names(executors) =~= Seq::empty());
    }
}

/// A node on a named executor is accepted exactly if the executor is there; and
/// one that may run more than once at a time, exactly if there are two threads
/// for it: those of the machine, or those that its executor has.
pub proof fn nodes_find_their_executor(
    n: NodeView,
    index: nat,
    executors: Seq<ExecutorView>,
    parallelism: usize,
    k: int,
)
    requires
        executor_names(executors).no_duplicates(),
        n.executor.len() > 0 ==> 0 <= k < executors.len() && executors[k].name == n.executor,
    ensures
        node_executor_problem(n, index, executors, parallelism) is None <==> {
            ||| n.max_in_flight <= 1
            ||| n.executor.len() == 0 && parallelism >= 2
            ||| n.executor.len() > 0 && executors[k].num_threads >= 2
        },
{
    let names = crate::preflight::executor_names(executors);
    if n.executor.len() > 0 {
        assert(names[k] == n.executor);
        assert(names.contains(n.executor));
        executor_position_found(executors, n.executor);
        let i = executor_position(executors, n.executor)->Some_0;
        assert(executor_names(executors)[k] == executor_names(executors)[i as int]);
    }
}

/// A node on an executor that is not there is refused, whatever else it is.
pub proof fn unknown_executors_are_refused(
    n: NodeView,
    index: nat,
    executors: Seq<ExecutorView>,
    parallelism: usize,
)
    requires
        n.executor.len() > 0,
        forall|k: int| 0 <= k < executors.len() ==> (#[trigger] executors[k]).name != n.executor,
    ensures
        node_executor_problem(n, index, executors, parallelism) is Some,
{
    let names = crate::preflight::executor_names(executors);
    if names.contains(n.executor) {
        let k = names.index_of(n.executor);
        assert(executors[k].name == n.executor);
    }
}

/// When a graph is wired, the nodes are accepted exactly if each executor that
/// one of them names is there.
pub proof fn wired_nodes_find_their_executors(
    k: nat,
    nodes: Seq<NodeView>,
    executors: Seq<ExecutorView>,
)
    requires
        k <= nodes.len(),
    ensures
        unknown_executor(k, nodes, executor_names(executors)) is None <==> forall|i: int|
            0 <= i < k && (#[trigger] nodes[i]).executor.len() > 0 ==> executor_names(
                executors,
            ).contains(nodes[i].executor),
    decreases k,
{
    if k > 0 {
        wired_nodes_find_their_executors((k - 1) as nat, nodes, executors);
        let known = executor_names(executors);
        if forall|i: int|
            0 <= i < k && (#[trigger] nodes[i]).executor.len() > 0 ==> known.contains(
                nodes[i].executor,
            ) {
            assert(nodes[k - 1].executor.len() > 0 ==> known.contains(nodes[k - 1].executor));
        }
    }
}

// --------------------------------------------------------------------- warnings

/// An edge is warned about exactly if it is neither read by a node nor a graph
/// output, and comes from somewhere.
pub proof fn unread_edges_are_warned_about(e: PlanEdgeView, nodes: Seq<NodeView>)
    ensures
        unread_warning(e, nodes) is Some <==> e.consumers.len() == 0 && !e.graph_output && (
        e.graph_input || e.producer is Some),
        unread_warning(e, nodes) matches Some(w) ==> mentions_text(w, e.name),
{
    if unread_warning(e, nodes) is Some {
        let w = unread_warning(e, nodes)->Some_0;
        if e.graph_input {
            let a = "图输入口 `"@;
            assert(w.subrange(a.len() as int, (a.len() + e.name.len()) as int) =~= e.name);
        } else {
            let p = e.producer->Some_0;
            let a = "节点 `"@ + nodes[p as int].numbered_label(p as nat) + "` 的输出口 `"@;
            assert(w.subrange(a.len() as int, (a.len() + e.name.len()) as int) =~= e.name);
        }
    }
}

/// There is one warning for each edge that is warned about, in the order of
/// the edges.
pub proof fn unread_edges_are_listed(a: Seq<PlanEdgeView>, b: Seq<PlanEdgeView>, nodes: Seq<
    NodeView,
>)
    ensures
        unread_warnings(a + b, nodes) == unread_warnings(a, nodes) + unread_warnings(b, nodes),
        b.len() == 1 ==> unread_warnings(b, nodes) == match unread_warning(b[0], nodes) {
            Some(w) => seq![w],
            None => Seq::empty(),
        },
    decreases b.len(),
{
    if b.len() == 0 {
        assert(a + b =~= a);
        assert(unread_warnings(b, nodes) =~= Seq::empty());
        assert(unread_warnings(a, nodes) + Seq::<Seq<char>>::empty() =~= unread_warnings(a, nodes));
    } else {
        let front = b.drop_last();
        unread_edges_are_listed(a, front, nodes);
        assert((a + b).drop_last() =~= a + front);
        assert((a + b).last() == b.last());
        if b.len() == 1 {
            assert(front =~= Seq::empty());
            assert(unread_warnings(front, nodes) =~= Seq::empty());
        }
        match unread_warning(b.last(), nodes) {
            Some(w) => {
                assert((unread_warnings(a, nodes) + unread_warnings(front, nodes)).push(w)
                    =~= unread_warnings(a, nodes) + unread_warnings(front, nodes).push(w));
                if b.len() == 1 {
                    assert(unread_warnings(front, nodes).push(w) =~= seq![w]);
                }
            },
            None => {},
        }
    }
}

// ----------------------------------------------------------------- wired graphs

/// Whether an edge leads from node `u` to node `v`.
pub open spec fn leads(e: PlanEdgeView, u: usize, v: usize) -> bool {
    e.producer == Some(u) && e.consumers.contains(v)
}

proof fn lemma_edge_links(edges: Seq<PlanEdgeView>, u: usize, v: usize)
    ensures
        edge_links(edges).contains((u, v)) <==> exists|e: int|
            0 <= e < edges.len() && leads(#[trigger] edges[e], u, v),
    decreases edges.len(),
{
    if edges.len() > 0 {
        let front = edges.drop_last();
        let last = edges.last();
        lemma_edge_links(front, u, v);
        let before = edge_links(front);
        let all = edge_links(edges);
        assert forall|e: int| 0 <= e < front.len() implies front[e] == #[trigger] edges[e] by {}
        if exists|e: int| 0 <= e < front.len() && leads(#[trigger] front[e], u, v) {
            let e = choose|e: int| 0 <= e < front.len() && leads(#[trigger] front[e], u, v);
            assert(edges[e] == front[e]);
        }
        if exists|e: int| 0 <= e < edges.len() && leads(#[trigger] edges[e], u, v) {
            let e = choose|e: int| 0 <= e < edges.len() && leads(#[trigger] edges[e], u, v);
            if e < front.len() {
                assert(front[e] == edges[e]);
                assert(leads(front[e], u, v));
            }
        }
        assert(edges[edges.len() - 1] == last);
        match last.producer {
            Some(p) => {
                let own = Seq::new(last.consumers.len(), |k: int| (p, last.consumers[k]));
                assert(all == before + own);
                if before.contains((u, v)) {
                    let k = before.index_of((u, v));
                    assert(all[k] == (u, v));
                }
                if leads(last, u, v) {
                    let k = last.consumers.index_of(v);
                    assert(own[k] == (u, v));
                    assert(all[before.len() + k] == (u, v));
                }
                if all.contains((u, v)) {
                    let k = all.index_of((u, v));
                    if k < before.len() {
                        assert(before[k] == (u, v));
                        assert(before.contains((u, v)));
                    } else {
                        assert(own[k - before.len()] == (u, v));
                        assert(last.consumers[k - before.len()] == v);
                        assert(leads(last, u, v));
                    }
                }
            },
            None => {},
        }
    } else {
        assert(edge_links(edges) =~= Seq::empty());
    }
}

/// In a wired graph that is searched for cycles an edge leads from one node to
/// another exactly if one of the graph's edges does.
pub proof fn wired_successors_are_fed(g: GraphView, u: usize, v: usize)
    requires
        g.nodes.len() <= usize::MAX,
        u < g.nodes.len(),
    ensures
        has_edge(adjacency(g.nodes.len(), edge_links(wired(g).edges)), u, v) <==> exists|e: int|
            0 <= e < wired(g).edges.len() && leads(#[trigger] wired(g).edges[e], u, v),
{
    let pairs = edge_links(wired(g).edges);
    lemma_targets(pairs, u, v);
    lemma_edge_links(wired(g).edges, u, v);
    assert(adjacency(g.nodes.len(), pairs)[u as int] == targets(pairs, u));
}

proof fn lemma_all_groups(k: nat, nodes: Seq<NodeView>)
    requires
        k <= nodes.len(),
    ensures
        all_groups_problem(k, nodes) is None <==> forall|i: int|
            0 <= i < k && (#[trigger] nodes[i]).input_policy.kind == "sync_set"@ ==> all_declare(
                nodes[i].input_ports,
            ) && groups_divide(nodes[i].input_policy.sets, declared_names(nodes[i].input_ports)),
    decreases k,
{
    if k > 0 {
        lemma_all_groups((k - 1) as nat, nodes);
        let n = nodes[k - 1];
        groups_are_accepted(n, n.path((k - 1) as nat));
        if forall|i: int|
            0 <= i < k && (#[trigger] nodes[i]).input_policy.kind == "sync_set"@ ==> all_declare(
                nodes[i].input_ports,
            ) && groups_divide(nodes[i].input_policy.sets, declared_names(nodes[i].input_ports)) {
            assert(nodes[k - 1].input_policy.kind == "sync_set"@ ==> all_declare(n.input_ports)
                && groups_divide(n.input_policy.sets, declared_names(n.input_ports)));
        }
    }
}

/// A graph can be wired exactly if its ports can be connected, no node feeds
/// itself on whatever way, its executors have names of their own, those that
/// its nodes name are there, and groups of inputs divide them.
pub proof fn wirings_are_accepted(g: GraphView)
    requires
        numbered(g),
        forall|u: int|
            0 <= u < g.nodes.len() ==> (#[trigger] adjacency(
                g.nodes.len(),
                edge_links(wired(g).edges),
            )[u]).len() <= usize::MAX,
    ensures
        wiring_problem(g) is None <==> {
            &&& connection_problem(g) is None
            &&& !cyclic(adjacency(g.nodes.len(), edge_links(wired(g).edges)))
            &&& executor_names(g.executors).no_duplicates()
            &&& forall|i: int|
                0 <= i < g.executors.len() ==> (#[trigger] g.executors[i]).name.len() > 0
            &&& forall|i: int|
                0 <= i < g.nodes.len() && (#[trigger] g.nodes[i]).executor.len() > 0
                    ==> executor_names(g.executors).contains(g.nodes[i].executor)
            &&& forall|i: int|
                0 <= i < g.nodes.len() && (#[trigger] g.nodes[i]).input_policy.kind
                    == "sync_set"@ ==> all_declare(g.nodes[i].input_ports) && groups_divide(
                    g.nodes[i].input_policy.sets,
                    declared_names(g.nodes[i].input_ports),
                )
        },
{
    let n = g.nodes.len();
    let pairs = edge_links(wired(g).edges);
    let adj = adjacency(n, pairs);
    executors_are_accepted(g.executors);
    wired_nodes_find_their_executors(n, g.nodes, g.executors);
    lemma_all_groups(n, g.nodes);
    wired_edges_within(g, declared_names(g.output_ports));
    assert(in_range(adj)) by {
        assert forall|u: int, c: int| 0 <= u < adj.len() && 0 <= c < adj[u].len() implies (
        #[trigger] adj[u][c]) < adj.len() by {
            let v = adj[u][c];
            assert(targets(pairs, u as usize)[c] == v);
            assert(targets(pairs, u as usize).contains(v));
            lemma_targets(pairs, u as usize, v);
            lemma_edge_links(wired(g).edges, u as usize, v);
            let e = choose|e: int|
                0 <= e < wired(g).edges.len() && leads(
                    #[trigger] wired(g).edges[e],
                    u as usize,
                    v,
                );
            let k = wired(g).edges[e].consumers.index_of(v);
            assert(wired(g).edges[e].consumers[k] < n);
        }
    }
    search_decides_cycles(adj);
}

// -------------------------------------------------------------------- preflights

proof fn lemma_node_executors(
    nodes: Seq<NodeView>,
    executors: Seq<ExecutorView>,
    parallelism: usize,
)
    ensures
        node_executors_problem(nodes, executors, parallelism) is None <==> forall|i: int|
            0 <= i < nodes.len() ==> node_executor_problem(
                #[trigger] nodes[i],
                i as nat,
                executors,
                parallelism,
            ) is None,
        nodes_inputs_problem(nodes, executors) is None <==> forall|i: int|
            0 <= i < nodes.len() ==> node_inputs_problem(
                #[trigger] nodes[i],
                i as nat,
                executors,
            ) is None,
    decreases nodes.len(),
{
    if nodes.len() > 0 {
        let front = nodes.drop_last();
        let last = nodes.len() - 1;
        lemma_node_executors(front, executors, parallelism);
        assert forall|i: int| 0 <= i < front.len() implies front[i] == #[trigger] nodes[i] by {}
        let first = forall|i: int|
            0 <= i < front.len() ==> node_executor_problem(
                #[trigger] front[i],
                i as nat,
                executors,
                parallelism,
            ) is None;
        let all = forall|i: int|
            0 <= i < nodes.len() ==> node_executor_problem(
                #[trigger] nodes[i],
                i as nat,
                executors,
                parallelism,
            ) is None;
        assert(all <==> first && node_executor_problem(
            nodes[last],
            last as nat,
            executors,
            parallelism,
        ) is None) by {
            if first {
                assert forall|i: int| 0 <= i < front.len() implies node_executor_problem(
                    #[trigger] nodes[i],
                    i as nat,
                    executors,
                    parallelism,
                ) is None by {
                    assert(node_executor_problem(
                        front[i],
                        i as nat,
                        executors,
                        parallelism,
                    ) is None);
                }
            }
            if all {
                assert forall|i: int| 0 <= i < front.len() implies node_executor_problem(
                    #[trigger] front[i],
                    i as nat,
                    executors,
                    parallelism,
                ) is None by {
                    assert(node_executor_problem(
                        nodes[i],
                        i as nat,
                        executors,
                        parallelism,
                    ) is None);
                }
            }
        }
        let early = forall|i: int|
            0 <= i < front.len() ==> node_inputs_problem(
                #[trigger] front[i],
                i as nat,
                executors,
            ) is None;
        let whole = forall|i: int|
            0 <= i < nodes.len() ==> node_inputs_problem(
                #[trigger] nodes[i],
                i as nat,
                executors,
            ) is None;
        assert(whole <==> early && node_inputs_problem(nodes[last], last as nat, executors) is None)
            by {
            if early {
                assert forall|i: int| 0 <= i < front.len() implies node_inputs_problem(
                    #[trigger] nodes[i],
                    i as nat,
                    executors,
                ) is None by {
                    assert(node_inputs_problem(front[i], i as nat, executors) is None);
                }
            }
            if whole {
                assert forall|i: int| 0 <= i < front.len() implies node_inputs_problem(
                    #[trigger] front[i],
                    i as nat,
                    executors,
                ) is None by {
                    assert(node_inputs_problem(nodes[i], i as nat, executors) is None);
                }
            }
        }
    }
}

/// A graph can be planned exactly if its executors are accepted, every one of
/// its nodes fits its executor and has inputs that fit, and its connections
/// are accepted.
pub proof fn plans_are_accepted(g: GraphView, parallelism: usize)
    ensures
        plan_problem(g, parallelism) is None <==> {
            &&& executor_list_problem(g.executors) is None
            &&& forall|i: int|
                0 <= i < g.nodes.len() ==> node_executor_problem(
                    #[trigger] g.nodes[i],
                    i as nat,
                    g.executors,
                    parallelism,
                ) is None
            &&& forall|i: int|
                0 <= i < g.nodes.len() ==> node_inputs_problem(
                    #[trigger] g.nodes[i],
                    i as nat,
                    g.executors,
                ) is None
            &&& topology_problem(g) is None
        },
{
    lemma_node_executors(g.nodes, g.executors, parallelism);
}

} // verus!

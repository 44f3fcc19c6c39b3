//! How the ports connect the nodes of a graph.

use crate::config::{node_views, GraphView, NodeConfig, NodeView};
use crate::cycle::{
    find_cycle, first_cycle, has_edge, in_range, search_decides_cycles, successor_view, Successors,
};
use crate::diagnostic::{candidates_of, did_you_mean, hint};
use crate::port::{parse_port_spec, port_list, port_names, port_spec, PortSpecView, PortTable};
use crate::preflight::diagnostic_node_path;
use crate::status::{failure, first_failure, Error, ErrorView};
use crate::supported::refused;
use crate::text::{
    cat2, cat3, cat4, cat5, cat6, cat7, clone_texts, contains_text, decimal, decimal_of_size, texts,
};
use crate::text_map::TextMap;
use vstd::prelude::*;

verus! {

// --------------------------------------------------------------- graph inputs

/// The names of a list of declarations that are all accepted.
pub open spec fn declared_names(decls: Seq<Seq<char>>) -> Seq<Seq<char>> {
    port_names(port_list(decls)->Ok_0)
}

/// The first graph input that cannot be read or that stands twice.
pub open spec fn graph_inputs_problem(decls: Seq<Seq<char>>) -> Option<ErrorView>
    decreases decls.len(),
{
    if decls.len() == 0 {
        None
    } else {
        let place = "input_ports["@ + decimal((decls.len() - 1) as nat) + "]"@;
        first_failure(
            graph_inputs_problem(decls.drop_last()),
            match port_spec(decls.last()) {
                Err(e) => Some(e.at(place)),
                Ok(spec) => if declared_names(decls.drop_last()).contains(spec.name) {
                    refused(
                        place + ": graph input port `"@ + spec.name
                            + "` is declared more than once"@,
                    )
                } else {
                    None
                },
            },
        )
    }
}

proof fn lemma_graph_inputs_prefix(decls: Seq<Seq<char>>, k: int)
    requires
        0 <= k <= decls.len(),
        graph_inputs_problem(decls.take(k)) is Some,
    ensures
        graph_inputs_problem(decls) == graph_inputs_problem(decls.take(k)),
    decreases decls.len() - k,
{
    if k < decls.len() {
        assert(decls.take(k + 1).drop_last() =~= decls.take(k));
        lemma_graph_inputs_prefix(decls, k + 1);
    } else {
        assert(decls.take(k) =~= decls);
    }
}

/// Reads the graph inputs; their names are distinct.
pub fn read_graph_inputs(decls: &Vec<String>) -> (r: Result<Vec<String>, Error>)
    ensures
        failure(r) == graph_inputs_problem(texts(decls@)),
        r matches Ok(names) ==> port_list(texts(decls@)) is Ok && texts(names@)
            == declared_names(texts(decls@)),
{
    let ghost all = texts(decls@);
    let mut names: Vec<String> = Vec::new();
    assert(all.take(0) =~= Seq::empty());
    assert(texts(names@) =~= declared_names(all.take(0)));
    for i in 0..decls.len()
        invariant
            all == texts(decls@),
            port_list(all.take(i as int)) is Ok,
            texts(names@) == declared_names(all.take(i as int)),
            graph_inputs_problem(all.take(i as int)) is None,
    {
        let ghost done = texts(names@);
        proof {
            assert(all.take(i + 1).drop_last() =~= all.take(i as int));
            assert(all.take(i + 1).last() == decls@[i as int]@);
        }
        let number = decimal_of_size(i);
        let place = cat3("input_ports[", number.as_str(), "]");
        match parse_port_spec(decls[i].as_str()) {
            Err(e) => {
                proof {
                    lemma_graph_inputs_prefix(all, i + 1);
                }
                return Err(e.context(place.as_str()));
            },
            Ok(spec) => {
                if contains_text(&names, spec.name.as_str()) {
                    proof {
                        lemma_graph_inputs_prefix(all, i + 1);
                    }
                    return Err(
                        Error::InvalidArg(
                            cat4(
                                place.as_str(),
                                ": graph input port `",
                                spec.name.as_str(),
                                "` is declared more than once",
                            ),
                        ),
                    );
                }
                let ghost name = spec.name@;
                names.push(spec.name);
                assert(texts(names@) =~= done.push(name));
                assert(texts(names@) =~= declared_names(all.take(i + 1)));
            },
        }
    }
    assert(all.take(all.len() as int) =~= all);
    Ok(names)
}

// ------------------------------------------------------------------ producers

/// The outputs of node `index`, each with the node.
pub open spec fn own_outputs(names: Seq<Seq<char>>, index: usize) -> Seq<(Seq<char>, usize)> {
    Seq::new(names.len(), |k: int| (names[k], index))
}

/// The outputs of a list of nodes, each with its node, in order.
pub open spec fn produced(nodes: Seq<NodeView>) -> Seq<(Seq<char>, usize)>
    decreases nodes.len(),
{
    if nodes.len() == 0 {
        Seq::empty()
    } else {
        produced(nodes.drop_last()) + own_outputs(
            declared_names(nodes.last().output_ports),
            (nodes.len() - 1) as usize,
        )
    }
}

/// Which node produces each name.
pub open spec fn producers(pairs: Seq<(Seq<char>, usize)>) -> Map<Seq<char>, usize>
    decreases pairs.len(),
{
    if pairs.len() == 0 {
        Map::empty()
    } else {
        producers(pairs.drop_last()).insert(pairs.last().0, pairs.last().1)
    }
}

/// The names of a list of outputs.
pub open spec fn names_in(pairs: Seq<(Seq<char>, usize)>) -> Seq<Seq<char>> {
    Seq::new(pairs.len(), |k: int| pairs[k].0)
}

/// The first output of a node that is a graph input or has another producer.
pub open spec fn outputs_problem(
    names: Seq<Seq<char>>,
    index: usize,
    inputs: Seq<Seq<char>>,
    nodes: Seq<NodeView>,
) -> Option<ErrorView>
    decreases names.len(),
{
    if names.len() == 0 {
        None
    } else {
        let name = names.last();
        let path = nodes[index as int].path(index as nat);
        let seen = producers(
            produced(nodes.take(index as int)) + own_outputs(names.drop_last(), index),
        );
        first_failure(
            outputs_problem(names.drop_last(), index, inputs, nodes),
            if inputs.contains(name) {
                refused(
                    path + ".output_ports: port `"@ + name + "` is also a graph input"@,
                )
            } else if seen.contains_key(name) {
                refused(
                    path + ".output_ports: port `"@ + name + "` has multiple producers ("@
                        + nodes[seen[name] as int].path(seen[name] as nat) + " and "@ + path
                        + ")"@,
                )
            } else {
                None
            },
        )
    }
}

/// What is wrong with the ports of node `index`.
pub open spec fn node_ports_problem(
    index: usize,
    inputs: Seq<Seq<char>>,
    nodes: Seq<NodeView>,
) -> Option<ErrorView> {
    let n = nodes[index as int];
    let path = n.path(index as nat);
    match port_list(n.input_ports) {
        Err((_, e)) => Some(e.at(path + ".input_ports"@)),
        Ok(_) => match port_list(n.output_ports) {
            Err((_, e)) => Some(e.at(path + ".output_ports"@)),
            Ok(outs) => outputs_problem(port_names(outs), index, inputs, nodes),
        },
    }
}

/// The first thing that is wrong with the ports of the first `k` nodes.
pub open spec fn all_ports_problem(
    k: nat,
    inputs: Seq<Seq<char>>,
    nodes: Seq<NodeView>,
) -> Option<ErrorView>
    decreases k,
{
    if k == 0 {
        None
    } else {
        first_failure(
            all_ports_problem((k - 1) as nat, inputs, nodes),
            node_ports_problem((k - 1) as usize, inputs, nodes),
        )
    }
}

proof fn lemma_outputs_prefix(
    names: Seq<Seq<char>>,
    index: usize,
    inputs: Seq<Seq<char>>,
    nodes: Seq<NodeView>,
    k: int,
)
    requires
        0 <= k <= names.len(),
        outputs_problem(names.take(k), index, inputs, nodes) is Some,
    ensures
        outputs_problem(names, index, inputs, nodes) == outputs_problem(
            names.take(k),
            index,
            inputs,
            nodes,
        ),
    decreases names.len() - k,
{
    if k < names.len() {
        assert(names.take(k + 1).drop_last() =~= names.take(k));
        lemma_outputs_prefix(names, index, inputs, nodes, k + 1);
    } else {
        assert(names.take(k) =~= names);
    }
}

proof fn lemma_all_ports_prefix(k: nat, n: nat, inputs: Seq<Seq<char>>, nodes: Seq<NodeView>)
    requires
        k <= n,
        all_ports_problem(k, inputs, nodes) is Some,
    ensures
        all_ports_problem(n, inputs, nodes) == all_ports_problem(k, inputs, nodes),
    decreases n - k,
{
    if k < n {
        lemma_all_ports_prefix(k, (n - 1) as nat, inputs, nodes);
    }
}

/// The ports of a node.
pub struct NodePorts {
    pub inputs: PortTable,
    pub outputs: PortTable,
}

/// Every producer that is known is a node before `k`.
pub proof fn producers_are_nodes(nodes: Seq<NodeView>, k: int)
    requires
        0 <= k <= nodes.len() <= usize::MAX,
    ensures
        forall|j: int|
            0 <= j < produced(nodes.take(k)).len() ==> (#[trigger] produced(nodes.take(k))[j]).1
                < k,
    decreases k,
{
    if k > 0 {
        producers_are_nodes(nodes, k - 1);
        assert(nodes.take(k).drop_last() =~= nodes.take(k - 1));
        let before = produced(nodes.take(k - 1));
        let now = produced(nodes.take(k));
        assert forall|j: int| 0 <= j < now.len() implies (#[trigger] now[j]).1 < k by {
            if j < before.len() {
                assert(now[j] == before[j]);
            }
        }
    }
}

/// What a map of producers holds comes from the list.
pub proof fn producers_from_list(pairs: Seq<(Seq<char>, usize)>, name: Seq<char>)
    ensures
        producers(pairs).contains_key(name) <==> names_in(pairs).contains(name),
        producers(pairs).contains_key(name) ==> exists|j: int|
            0 <= j < pairs.len() && #[trigger] pairs[j] == (name, producers(pairs)[name]),
    decreases pairs.len(),
{
    if pairs.len() > 0 {
        let front = pairs.drop_last();
        producers_from_list(front, name);
        let names = names_in(pairs);
        if names_in(front).contains(name) {
            let j = names_in(front).index_of(name);
            assert(names[j] == name);
        }
        if pairs.last().0 == name {
            assert(names[pairs.len() - 1] == name);
            assert(pairs[pairs.len() - 1] == (name, producers(pairs)[name]));
        } else {
            if names.contains(name) {
                let j = names.index_of(name);
                assert(names_in(front)[j] == name);
            }
            if producers(pairs).contains_key(name) {
                let j = choose|j: int|
                    0 <= j < front.len() && #[trigger] front[j] == (name, producers(front)[name]);
                assert(pairs[j] == (name, producers(pairs)[name]));
            }
        }
    }
}

/// Reads the ports of node `index` and enters its outputs as produced by it.
fn read_node_ports(
    nodes: &Vec<NodeConfig>,
    index: usize,
    inputs: &Vec<String>,
    makers: &mut TextMap<usize>,
    known: &mut Vec<String>,
) -> (r: Result<NodePorts, Error>)
    requires
        index < nodes@.len(),
        old(makers)@ == producers(produced(node_views(nodes@).take(index as int))),
    ensures
        failure(r) == node_ports_problem(
            index,
            texts(inputs@),
            node_views(nodes@),
        ),
        r matches Ok(ports) ==> {
            let n = nodes@[index as int]@;
            &&& port_list(n.input_ports) == Ok::<Seq<PortSpecView>, (int, ErrorView)>(
                ports.inputs@,
            )
            &&& port_list(n.output_ports) == Ok::<Seq<PortSpecView>, (int, ErrorView)>(
                ports.outputs@,
            )
            &&& final(makers)@ == producers(
                produced(node_views(nodes@).take(index + 1)),
            )
            &&& texts(final(known)@) == texts(old(known)@) + declared_names(n.output_ports)
        },
{
    let ghost all = node_views(nodes@);
    let ghost n = nodes@[index as int]@;
    assert(all[index as int] == n);
    let node = &nodes[index];
    let path = diagnostic_node_path(node, index);
    let ins = match PortTable::build(&node.input_ports) {
        Ok(table) => table,
        Err(e) => {
            let place = cat2(path.as_str(), ".input_ports");
            return Err(e.context(place.as_str()));
        },
    };
    let outs = match PortTable::build(&node.output_ports) {
        Ok(table) => table,
        Err(e) => {
            let place = cat2(path.as_str(), ".output_ports");
            return Err(e.context(place.as_str()));
        },
    };
    let names = outs.names();
    let ghost own = texts(names@);
    let ghost earlier = produced(all.take(index as int));
    let ghost known_before = texts(known@);
    assert(own == declared_names(n.output_ports));
    assert(own.take(0) =~= Seq::empty());
    assert(earlier + own_outputs(own.take(0), index) =~= earlier);
    assert(known_before + own.take(0) =~= known_before);
    for k in 0..names.len()
        invariant
            index < nodes@.len(),
            all == node_views(nodes@),
            path@ == all[index as int].path(index as nat),
            own == texts(names@),
            earlier == produced(all.take(index as int)),
            known_before == texts(old(known)@),
            n == all[index as int],
            n.input_ports == all[index as int].input_ports,
            port_list(n.input_ports) is Ok,
            port_list(n.output_ports) is Ok,
            own == declared_names(n.output_ports),
            makers@ == producers(earlier + own_outputs(own.take(k as int), index)),
            texts(known@) == known_before + own.take(k as int),
            outputs_problem(own.take(k as int), index, texts(inputs@), all) is None,
    {
        let name = names[k].as_str();
        proof {
            assert(own.take(k + 1).drop_last() =~= own.take(k as int));
            assert(own.take(k + 1).last() == name@);
        }
        if contains_text(inputs, name) {
            proof {
                lemma_outputs_prefix(own, index, texts(inputs@), all, k + 1);
            }
            return Err(
                Error::InvalidArg(
                    cat4(
                        path.as_str(),
                        ".output_ports: port `",
                        name,
                        "` is also a graph input",
                    ),
                ),
            );
        }
        match makers.get(name) {
            Some(previous) => {
                let previous: usize = *previous;
                proof {
                    lemma_outputs_prefix(own, index, texts(inputs@), all, k + 1);
                    let pairs = earlier + own_outputs(own.take(k as int), index);
                    producers_from_list(pairs, name@);
                    assert(all.len() == nodes.len());
                    producers_are_nodes(all, index as int);
                    let j = choose|j: int|
                        0 <= j < pairs.len() && #[trigger] pairs[j] == (
                            name@,
                            producers(pairs)[name@],
                        );
                    if j < earlier.len() {
                        assert(earlier[j] == pairs[j]);
                    }
                    assert(previous < nodes@.len());
                }
                let previous_path = diagnostic_node_path(&nodes[previous], previous);
                assert(all[previous as int] == nodes@[previous as int]@);
                let front = cat3(path.as_str(), ".output_ports: port `", name);
                return Err(
                    Error::InvalidArg(
                        cat6(
                            front.as_str(),
                            "` has multiple producers (",
                            previous_path.as_str(),
                            " and ",
                            path.as_str(),
                            ")",
                        ),
                    ),
                );
            },
            None => {},
        }
        let ghost pairs = earlier + own_outputs(own.take(k as int), index);
        let ghost more = earlier + own_outputs(own.take(k + 1), index);
        let ghost known_now = texts(known@);
        makers.insert(names[k].clone(), index);
        known.push(names[k].clone());
        proof {
            assert(more.drop_last() =~= pairs);
            assert(more.last() == (name@, index));
            assert(texts(known@) =~= known_now.push(name@));
            assert(known_before + own.take(k + 1) =~= (known_before + own.take(k as int)).push(
                name@,
            ));
        }
    }
    proof {
        assert(own.take(own.len() as int) =~= own);
        assert(all.take(index + 1).drop_last() =~= all.take(index as int));
        assert(all.take(index + 1).last() == n);
    }
    Ok(NodePorts { inputs: ins, outputs: outs })
}

/// The ports of all nodes, who produces what, and every name that is produced.
pub struct Ports {
    pub tables: Vec<NodePorts>,
    pub makers: TextMap<usize>,
    /// The graph inputs, then the outputs of the nodes.
    pub known: Vec<String>,
}

/// The graph inputs, then the outputs of the nodes.
pub open spec fn known_names(g: GraphView) -> Seq<Seq<char>> {
    declared_names(g.input_ports) + names_in(produced(g.nodes))
}

/// Whether the tables hold the ports of the nodes.
pub open spec fn tables_of(tables: Seq<NodePorts>, nodes: Seq<NodeView>) -> bool {
    &&& tables.len() == nodes.len()
    &&& forall|i: int|
        0 <= i < tables.len() ==> port_list(nodes[i].input_ports) == Ok::<
            Seq<PortSpecView>,
            (int, ErrorView),
        >((#[trigger] tables[i]).inputs@) && port_list(nodes[i].output_ports) == Ok::<
            Seq<PortSpecView>,
            (int, ErrorView),
        >(tables[i].outputs@)
}

/// Reads the ports of all nodes.
pub fn read_ports(nodes: &Vec<NodeConfig>, inputs: &Vec<String>) -> (r: Result<Ports, Error>)
    ensures
        failure(r) == all_ports_problem(
            nodes@.len(),
            texts(inputs@),
            node_views(nodes@),
        ),
        r matches Ok(ports) ==> {
            let all = node_views(nodes@);
            &&& tables_of(ports.tables@, all)
            &&& ports.makers@ == producers(produced(all))
            &&& texts(ports.known@) == texts(inputs@) + names_in(produced(all))
        },
{
    let ghost all = node_views(nodes@);
    let ghost given = texts(inputs@);
    let mut tables: Vec<NodePorts> = Vec::new();
    let mut makers: TextMap<usize> = TextMap::new();
    let mut known: Vec<String> = clone_texts(inputs);
    assert(all.take(0) =~= Seq::empty());
    assert(given + names_in(produced(all.take(0))) =~= given);
    for i in 0..nodes.len()
        invariant
            all == node_views(nodes@),
            given == texts(inputs@),
            tables_of(tables@, all.take(i as int)),
            makers@ == producers(produced(all.take(i as int))),
            texts(known@) == given + names_in(produced(all.take(i as int))),
            all_ports_problem(i as nat, given, all) is None,
    {
        let ghost before = all.take(i as int);
        let ghost after = all.take(i + 1);
        match read_node_ports(nodes, i, inputs, &mut makers, &mut known) {
            Ok(ports) => {
                let ghost old_tables = tables@;
                tables.push(ports);
                proof {
                    assert(after.drop_last() =~= before);
                    assert(after.last() == nodes@[i as int]@);
                    assert(names_in(produced(after)) =~= names_in(produced(before))
                        + declared_names(after.last().output_ports));
                    assert(texts(known@) =~= given + names_in(produced(after)));
                    assert forall|k: int| 0 <= k < tables@.len() implies port_list(
                        after[k].input_ports,
                    ) == Ok::<Seq<PortSpecView>, (int, ErrorView)>(
                        (#[trigger] tables@[k]).inputs@,
                    ) && port_list(after[k].output_ports) == Ok::<
                        Seq<PortSpecView>,
                        (int, ErrorView),
                    >(tables@[k].outputs@) by {
                        if k < i {
                            assert(old_tables[k] == tables@[k]);
                            assert(before[k] == after[k]);
                        }
                    }
                }
            },
            Err(e) => {
                proof {
                    lemma_all_ports_prefix((i + 1) as nat, nodes@.len(), given, all);
                }
                return Err(e);
            },
        }
    }
    assert(all.take(all.len() as int) =~= all);
    Ok(Ports { tables, makers, known })
}

// ---------------------------------------------------------------------- links

/// The first input of a node that nothing produces.
pub open spec fn unconnected(
    names: Seq<Seq<char>>,
    known: Seq<Seq<char>>,
    path: Seq<char>,
) -> Option<ErrorView>
    decreases names.len(),
{
    if names.len() == 0 {
        None
    } else {
        let name = names.last();
        first_failure(
            unconnected(names.drop_last(), known, path),
            if known.contains(name) {
                None
            } else {
                refused(
                    path + ".input_ports["@ + decimal((names.len() - 1) as nat) + "]: port `"@
                        + name + "` has no producer"@ + hint(name, known),
                )
            },
        )
    }
}

/// The first input of the first `k` nodes that nothing produces.
pub open spec fn all_unconnected(
    k: nat,
    nodes: Seq<NodeView>,
    known: Seq<Seq<char>>,
) -> Option<ErrorView>
    decreases k,
{
    if k == 0 {
        None
    } else {
        first_failure(
            all_unconnected((k - 1) as nat, nodes, known),
            unconnected(
                declared_names(nodes[k - 1].input_ports),
                known,
                nodes[k - 1].path((k - 1) as nat),
            ),
        )
    }
}

proof fn lemma_unconnected_prefix(
    names: Seq<Seq<char>>,
    known: Seq<Seq<char>>,
    path: Seq<char>,
    k: int,
)
    requires
        0 <= k <= names.len(),
        unconnected(names.take(k), known, path) is Some,
    ensures
        unconnected(names, known, path) == unconnected(names.take(k), known, path),
    decreases names.len() - k,
{
    if k < names.len() {
        assert(names.take(k + 1).drop_last() =~= names.take(k));
        lemma_unconnected_prefix(names, known, path, k + 1);
    } else {
        assert(names.take(k) =~= names);
    }
}

proof fn lemma_all_unconnected_prefix(
    k: nat,
    n: nat,
    nodes: Seq<NodeView>,
    known: Seq<Seq<char>>,
)
    requires
        k <= n,
        all_unconnected(k, nodes, known) is Some,
    ensures
        all_unconnected(n, nodes, known) == all_unconnected(k, nodes, known),
    decreases n - k,
{
    if k < n {
        lemma_all_unconnected_prefix(k, (n - 1) as nat, nodes, known);
    }
}

/// The links into node `index` through its ports, except its back edges: from
/// the producer of each to the node.
pub open spec fn links_into(
    names: Seq<Seq<char>>,
    back_edges: Seq<Seq<char>>,
    makers: Map<Seq<char>, usize>,
    index: usize,
) -> Seq<(usize, usize)>
    decreases names.len(),
{
    if names.len() == 0 {
        Seq::empty()
    } else {
        let before = links_into(names.drop_last(), back_edges, makers, index);
        if makers.contains_key(names.last()) && !back_edges.contains(names.last()) {
            before.push((makers[names.last()], index))
        } else {
            before
        }
    }
}

/// The links into the first `k` nodes.
pub open spec fn links(k: nat, nodes: Seq<NodeView>, makers: Map<Seq<char>, usize>) -> Seq<
    (usize, usize),
>
    decreases k,
{
    if k == 0 {
        Seq::empty()
    } else {
        links((k - 1) as nat, nodes, makers) + links_into(
            declared_names(nodes[k - 1].input_ports),
            nodes[k - 1].back_edges,
            makers,
            (k - 1) as usize,
        )
    }
}

/// Where the links from node `u` lead, in order.
pub open spec fn targets(pairs: Seq<(usize, usize)>, u: usize) -> Seq<usize>
    decreases pairs.len(),
{
    if pairs.len() == 0 {
        Seq::empty()
    } else if pairs.last().0 == u {
        targets(pairs.drop_last(), u).push(pairs.last().1)
    } else {
        targets(pairs.drop_last(), u)
    }
}

/// The successors of `n` nodes along the links.
pub open spec fn adjacency(n: nat, pairs: Seq<(usize, usize)>) -> Successors {
    Seq::new(n, |u: int| targets(pairs, u as usize))
}

/// The successors of the nodes of a graph.
pub open spec fn graph_successors(g: GraphView) -> Successors {
    adjacency(
        g.nodes.len(),
        links(g.nodes.len(), g.nodes, producers(produced(g.nodes))),
    )
}

pub proof fn targets_push(pairs: Seq<(usize, usize)>, link: (usize, usize), u: usize)
    ensures
        targets(pairs.push(link), u) == if link.0 == u {
            targets(pairs, u).push(link.1)
        } else {
            targets(pairs, u)
        },
{
    assert(pairs.push(link).drop_last() =~= pairs);
}

pub proof fn targets_bounded(pairs: Seq<(usize, usize)>, u: usize, n: nat)
    requires
        forall|k: int| 0 <= k < pairs.len() ==> (#[trigger] pairs[k]).1 < n,
    ensures
        forall|c: int| 0 <= c < targets(pairs, u).len() ==> (#[trigger] targets(pairs, u)[c]) < n,
    decreases pairs.len(),
{
    if pairs.len() > 0 {
        let front = pairs.drop_last();
        assert forall|k: int| 0 <= k < front.len() implies (#[trigger] front[k]).1 < n by {
            assert(front[k] == pairs[k]);
        }
        targets_bounded(front, u, n);
        assert(pairs[pairs.len() - 1] == pairs.last());
        assert forall|c: int| 0 <= c < targets(pairs, u).len() implies (#[trigger] targets(
            pairs,
            u,
        )[c]) < n by {
            if c < targets(front, u).len() {
                assert(targets(front, u)[c] == targets(pairs, u)[c]);
            }
        }
    }
}

/// Refuses the first input of a node that nothing produces, and adds the links
/// into the node.
fn connect_node(
    nodes: &Vec<NodeConfig>,
    index: usize,
    names: &Vec<String>,
    ports: &Ports,
    adj: &mut Vec<Vec<usize>>,
    Ghost(before): Ghost<Seq<(usize, usize)>>,
) -> (r: Result<(), Error>)
    requires
        index < nodes@.len(),
        old(adj)@.len() == nodes@.len(),
        texts(names@) == declared_names(nodes@[index as int]@.input_ports),
        successor_view(old(adj)@) == adjacency(nodes@.len(), before),
        forall|name: Seq<char>| #[trigger]
            ports.makers@.contains_key(name) ==> ports.makers@[name] < nodes@.len(),
    ensures
        failure(r) == unconnected(
            texts(names@),
            texts(ports.known@),
            nodes@[index as int]@.path(index as nat),
        ),
        final(adj)@.len() == nodes@.len(),
        r is Ok ==> successor_view(final(adj)@) == adjacency(
            nodes@.len(),
            before + links_into(
                texts(names@),
                nodes@[index as int]@.back_edges,
                ports.makers@,
                index,
            ),
        ),
{
    let node = &nodes[index];
    let path = diagnostic_node_path(node, index);
    let ghost own = texts(names@);
    let ghost back = node@.back_edges;
    let ghost mut pairs = before;
    assert(own.take(0) =~= Seq::empty());
    assert(before + links_into(own.take(0), back, ports.makers@, index) =~= before);
    for p in 0..names.len()
        invariant
            index < nodes@.len(),
            adj@.len() == nodes@.len(),
            *node == nodes@[index as int],
            path@ == node@.path(index as nat),
            own == texts(names@),
            back == node@.back_edges,
            pairs == before + links_into(own.take(p as int), back, ports.makers@, index),
            successor_view(adj@) == adjacency(nodes@.len(), pairs),
            forall|name: Seq<char>| #[trigger]
                ports.makers@.contains_key(name) ==> ports.makers@[name] < nodes@.len(),
            unconnected(own.take(p as int), texts(ports.known@), path@) is None,
    {
        let name = names[p].as_str();
        proof {
            assert(own.take(p + 1).drop_last() =~= own.take(p as int));
            assert(own.take(p + 1).last() == name@);
        }
        if !contains_text(&ports.known, name) {
            proof {
                lemma_unconnected_prefix(own, texts(ports.known@), path@, p + 1);
            }
            let candidates = candidates_of(&ports.known);
            let suggestion = did_you_mean(name, &candidates);
            let number = decimal_of_size(p);
            return Err(
                Error::InvalidArg(
                    cat7(
                        path.as_str(),
                        ".input_ports[",
                        number.as_str(),
                        "]: port `",
                        name,
                        "` has no producer",
                        suggestion.as_str(),
                    ),
                ),
            );
        }
        match ports.makers.get(name) {
            Some(producer) => {
                let producer: usize = *producer;
                if !contains_text(&node.back_edges, name) {
                    let ghost old_adj = successor_view(adj@);
                    let ghost old_pairs = pairs;
                    adj[producer].push(index);
                    proof {
                        pairs = pairs.push((producer, index));
                        assert(before + links_into(own.take(p + 1), back, ports.makers@, index)
                            =~= pairs);
                        assert(nodes@.len() == nodes.len());
                        assert forall|u: int| 0 <= u < nodes@.len() implies successor_view(
                            adj@,
                        )[u] == adjacency(nodes@.len(), pairs)[u] by {
                            assert(u as usize == u);
                            assert(old_adj[u] == adjacency(nodes@.len(), old_pairs)[u]);
                            targets_push(old_pairs, (producer, index), u as usize);
                        }
                        assert(successor_view(adj@) =~= adjacency(nodes@.len(), pairs));
                    }
                }
            },
            None => {},
        }
    }
    assert(own.take(own.len() as int) =~= own);
    Ok(())
}

/// Every link leads from a node to a node.
pub proof fn links_are_nodes(
    k: nat,
    nodes: Seq<NodeView>,
    makers: Map<Seq<char>, usize>,
)
    requires
        k <= nodes.len() <= usize::MAX,
        forall|name: Seq<char>| #[trigger] makers.contains_key(name) ==> makers[name] < nodes.len(),
    ensures
        forall|j: int|
            0 <= j < links(k, nodes, makers).len() ==> (#[trigger] links(k, nodes, makers)[j]).0
                < nodes.len() && links(k, nodes, makers)[j].1 < k,
    decreases k,
{
    if k > 0 {
        links_are_nodes((k - 1) as nat, nodes, makers);
        let n = nodes[k - 1];
        let own = links_into(
            declared_names(n.input_ports),
            n.back_edges,
            makers,
            (k - 1) as usize,
        );
        lemma_links_into(
            declared_names(n.input_ports),
            n.back_edges,
            makers,
            (k - 1) as usize,
            nodes.len(),
        );
        let before = links((k - 1) as nat, nodes, makers);
        let now = links(k, nodes, makers);
        assert forall|j: int| 0 <= j < now.len() implies (#[trigger] now[j]).0 < nodes.len()
            && now[j].1 < k by {
            if j < before.len() {
                assert(now[j] == before[j]);
            } else {
                assert(now[j] == own[j - before.len()]);
            }
        }
    }
}

proof fn lemma_links_into(
    names: Seq<Seq<char>>,
    back_edges: Seq<Seq<char>>,
    makers: Map<Seq<char>, usize>,
    index: usize,
    n: nat,
)
    requires
        forall|name: Seq<char>| #[trigger] makers.contains_key(name) ==> makers[name] < n,
    ensures
        forall|j: int|
            0 <= j < links_into(names, back_edges, makers, index).len() ==> (#[trigger] links_into(
                names,
                back_edges,
                makers,
                index,
            )[j]).0 < n && links_into(names, back_edges, makers, index)[j].1 == index,
    decreases names.len(),
{
    if names.len() > 0 {
        lemma_links_into(names.drop_last(), back_edges, makers, index, n);
        let before = links_into(names.drop_last(), back_edges, makers, index);
        let now = links_into(names, back_edges, makers, index);
        assert forall|j: int| 0 <= j < now.len() implies (#[trigger] now[j]).0 < n && now[j].1
            == index by {
            if j < before.len() {
                assert(now[j] == before[j]);
            }
        }
    }
}

/// The producers of a graph are its nodes.
pub proof fn makers_are_nodes(nodes: Seq<NodeView>)
    requires
        nodes.len() <= usize::MAX,
    ensures
        forall|name: Seq<char>| #[trigger]
            producers(produced(nodes)).contains_key(name) ==> producers(produced(nodes))[name]
                < nodes.len(),
{
    assert(nodes.take(nodes.len() as int) =~= nodes);
    producers_are_nodes(nodes, nodes.len() as int);
    let pairs = produced(nodes);
    assert forall|name: Seq<char>| #[trigger] producers(pairs).contains_key(name) implies producers(
        pairs,
    )[name] < nodes.len() by {
        producers_from_list(pairs, name);
        let j = choose|j: int|
            0 <= j < pairs.len() && #[trigger] pairs[j] == (name, producers(pairs)[name]);
        assert(produced(nodes.take(nodes.len() as int))[j].1 < nodes.len());
    }
}

/// Refuses the first input that nothing produces; else gives the successors of
/// every node.
pub fn connect(nodes: &Vec<NodeConfig>, ports: &Ports) -> (r: Result<Vec<Vec<usize>>, Error>)
    requires
        tables_of(ports.tables@, node_views(nodes@)),
        ports.makers@ == producers(produced(node_views(nodes@))),
    ensures
        failure(r) == all_unconnected(
            nodes@.len(),
            node_views(nodes@),
            texts(ports.known@),
        ),
        r matches Ok(adj) ==> successor_view(adj@) == adjacency(
            nodes@.len(),
            links(nodes@.len(), node_views(nodes@), ports.makers@),
        ) && in_range(successor_view(adj@)),
{
    let ghost all = node_views(nodes@);
    let ghost makers = ports.makers@;
    assert(all.len() == nodes.len());
    proof {
        makers_are_nodes(all);
    }
    let mut adj: Vec<Vec<usize>> = Vec::new();
    for i in 0..nodes.len()
        invariant
            adj@.len() == i,
            forall|k: int| 0 <= k < i ==> (#[trigger] adj@[k])@ == Seq::<usize>::empty(),
    {
        adj.push(Vec::new());
    }
    assert(successor_view(adj@) =~= adjacency(nodes@.len(), links(0, all, makers)));
    for i in 0..nodes.len()
        invariant
            all == node_views(nodes@),
            makers == ports.makers@,
            tables_of(ports.tables@, all),
            adj@.len() == nodes@.len(),
            successor_view(adj@) == adjacency(nodes@.len(), links(i as nat, all, makers)),
            forall|name: Seq<char>| #[trigger]
                makers.contains_key(name) ==> makers[name] < nodes@.len(),
            all_unconnected(i as nat, all, texts(ports.known@)) is None,
    {
        assert(all[i as int] == nodes@[i as int]@);
        assert(port_list(all[i as int].input_ports) == Ok::<Seq<PortSpecView>, (int, ErrorView)>(
            ports.tables@[i as int].inputs@,
        ));
        let names = ports.tables[i].inputs.names();
        match connect_node(
            nodes,
            i,
            names,
            ports,
            &mut adj,
            Ghost(links(i as nat, all, makers)),
        ) {
            Ok(()) => {},
            Err(e) => {
                proof {
                    lemma_all_unconnected_prefix(
                        (i + 1) as nat,
                        nodes@.len(),
                        all,
                        texts(ports.known@),
                    );
                }
                return Err(e);
            },
        }
    }
    proof {
        links_are_nodes(all.len(), all, makers);
        let pairs = links(all.len(), all, makers);
        let view = successor_view(adj@);
        assert forall|u: int, c: int| 0 <= u < view.len() && 0 <= c < view[u].len() implies (
        #[trigger] view[u][c]) < view.len() by {
            targets_bounded(pairs, u as usize, all.len());
            assert(view[u] == targets(pairs, u as usize));
        }
    }
    Ok(adj)
}

// -------------------------------------------------------------- graph outputs

/// The first graph output that cannot be read or that nothing produces.
pub open spec fn graph_outputs_problem(decls: Seq<Seq<char>>, known: Seq<Seq<char>>) -> Option<
    ErrorView,
>
    decreases decls.len(),
{
    if decls.len() == 0 {
        None
    } else {
        let place = "output_ports["@ + decimal((decls.len() - 1) as nat) + "]"@;
        first_failure(
            graph_outputs_problem(decls.drop_last(), known),
            match port_spec(decls.last()) {
                Err(e) => Some(e.at(place)),
                Ok(spec) => if known.contains(spec.name) {
                    None
                } else {
                    refused(
                        place + ": graph output `"@ + spec.name + "` has no producer"@ + hint(
                            spec.name,
                            known,
                        ),
                    )
                },
            },
        )
    }
}

proof fn lemma_graph_outputs_prefix(decls: Seq<Seq<char>>, known: Seq<Seq<char>>, k: int)
    requires
        0 <= k <= decls.len(),
        graph_outputs_problem(decls.take(k), known) is Some,
    ensures
        graph_outputs_problem(decls, known) == graph_outputs_problem(decls.take(k), known),
    decreases decls.len() - k,
{
    if k < decls.len() {
        assert(decls.take(k + 1).drop_last() =~= decls.take(k));
        lemma_graph_outputs_prefix(decls, known, k + 1);
    } else {
        assert(decls.take(k) =~= decls);
    }
}

/// Reads the graph outputs; each has a producer.
pub fn read_graph_outputs(decls: &Vec<String>, known: &Vec<String>) -> (r: Result<
    Vec<String>,
    Error,
>)
    ensures
        failure(r) == graph_outputs_problem(texts(decls@), texts(known@)),
        r matches Ok(names) ==> {
            &&& port_list(texts(decls@)) is Ok
            &&& texts(names@) == declared_names(texts(decls@))
            &&& forall|k: int|
                0 <= k < names@.len() ==> texts(known@).contains((#[trigger] names@[k])@)
        },
{
    let ghost all = texts(decls@);
    let mut names: Vec<String> = Vec::new();
    assert(all.take(0) =~= Seq::empty());
    assert(texts(names@) =~= declared_names(all.take(0)));
    for i in 0..decls.len()
        invariant
            all == texts(decls@),
            port_list(all.take(i as int)) is Ok,
            texts(names@) == declared_names(all.take(i as int)),
            names@.len() == i,
            forall|k: int| 0 <= k < i ==> texts(known@).contains((#[trigger] names@[k])@),
            graph_outputs_problem(all.take(i as int), texts(known@)) is None,
    {
        let ghost done = texts(names@);
        proof {
            assert(all.take(i + 1).drop_last() =~= all.take(i as int));
            assert(all.take(i + 1).last() == decls@[i as int]@);
        }
        let number = decimal_of_size(i);
        let place = cat3("output_ports[", number.as_str(), "]");
        match parse_port_spec(decls[i].as_str()) {
            Err(e) => {
                proof {
                    lemma_graph_outputs_prefix(all, texts(known@), i + 1);
                }
                return Err(e.context(place.as_str()));
            },
            Ok(spec) => {
                if !contains_text(known, spec.name.as_str()) {
                    proof {
                        lemma_graph_outputs_prefix(all, texts(known@), i + 1);
                    }
                    let candidates = candidates_of(known);
                    let suggestion = did_you_mean(spec.name.as_str(), &candidates);
                    return Err(
                        Error::InvalidArg(
                            cat5(
                                place.as_str(),
                                ": graph output `",
                                spec.name.as_str(),
                                "` has no producer",
                                suggestion.as_str(),
                            ),
                        ),
                    );
                }
                let ghost name = spec.name@;
                names.push(spec.name);
                assert(texts(names@) =~= done.push(name));
                assert(texts(names@) =~= declared_names(all.take(i + 1)));
            },
        }
    }
    assert(all.take(all.len() as int) =~= all);
    Ok(names)
}

// --------------------------------------------------------------------- cycles

impl NodeView {
    /// The name of a node, else its kernel and its number.
    pub open spec fn numbered_label(self, index: nat) -> Seq<char> {
        if self.name.len() == 0 {
            self.kernel + "#"@ + decimal(index)
        } else {
            self.name
        }
    }
}

/// The name of a node, else its kernel and its number.
pub fn preflight_node_label(node: &NodeConfig, index: usize) -> (r: String)
    ensures
        r@ == node@.numbered_label(index as nat),
{
    if node.name.as_str().is_empty() {
        let number = decimal_of_size(index);
        cat3(node.kernel.as_str(), "#", number.as_str())
    } else {
        node.name.clone()
    }
}

/// The refusal of a graph with a cycle, by the edge that closes it.
pub open spec fn cycle_problem(adj: Successors, nodes: Seq<NodeView>) -> Option<ErrorView> {
    match first_cycle(adj) {
        Ok(_) => None,
        Err((u, v)) => refused(
            "topology cycle: node `"@ + nodes[v as int].numbered_label(v as nat)
                + "` -> ... -> `"@ + nodes[u as int].numbered_label(u as nat)
                + "`; mark a feedback input with `back_edges`"@,
        ),
    }
}

/// Refuses a graph with a cycle.
pub fn check_preflight_acyclic(adj: &Vec<Vec<usize>>, nodes: &Vec<NodeConfig>) -> (r: Result<
    (),
    Error,
>)
    requires
        in_range(successor_view(adj@)),
        adj@.len() == nodes@.len(),
    ensures
        failure(r) == cycle_problem(successor_view(adj@), node_views(nodes@)),
{
    let ghost view = successor_view(adj@);
    proof {
        assert(view.len() == adj.len());
        assert forall|u: int| 0 <= u < view.len() implies (#[trigger] view[u]).len()
            <= usize::MAX by {
            assert(view[u] == adj@[u]@);
            assert(adj@[u].len() == adj@[u]@.len());
        }
        search_decides_cycles(view);
    }
    match find_cycle(adj) {
        None => Ok(()),
        Some((u, v)) => {
            proof {
                assert(has_edge(view, u, v));
                let c = view[u as int].index_of(v);
                assert(view[u as int][c] == v);
            }
            let current = preflight_node_label(&nodes[u], u);
            let target = preflight_node_label(&nodes[v], v);
            Err(
                Error::InvalidArg(
                    cat5(
                        "topology cycle: node `",
                        target.as_str(),
                        "` -> ... -> `",
                        current.as_str(),
                        "`; mark a feedback input with `back_edges`",
                    ),
                ),
            )
        },
    }
}

/// The first thing that is wrong with how the ports connect the nodes.
pub open spec fn topology_problem(g: GraphView) -> Option<ErrorView> {
    let inputs = declared_names(g.input_ports);
    first_failure(
        graph_inputs_problem(g.input_ports),
        first_failure(
            all_ports_problem(g.nodes.len(), inputs, g.nodes),
            first_failure(
                all_unconnected(g.nodes.len(), g.nodes, known_names(g)),
                first_failure(
                    graph_outputs_problem(g.output_ports, known_names(g)),
                    cycle_problem(graph_successors(g), g.nodes),
                ),
            ),
        ),
    )
}

} // verus!

//! How the ports connect the nodes of a graph that the host thread runs: the
//! checks, the edges and their numbers.

use crate::config::{
    executor_views, node_views, ExecutorConfig, ExecutorView, GraphConfig, GraphView, NodeConfig,
    NodeView,
};
use crate::cycle::{
    can_be_ordered, cyclic, find_cycle, first_cycle, has_edge, is_walk, search_decides_cycles,
    successor_view, successors_first, Successors,
};
use crate::plan::{
    book_inputs, book_outputs, booked, consumers_of, edge_bounded, edge_names, edge_names_distinct,
    edge_numbers, edges_of, enter_input, enter_output, inputs_of, numbers_by_name, numbers_of,
    outputs_of, plan_edge_views, producer_of, sources, GraphPlanEdge, Mention, PlanEdgeView,
};
use crate::port::{parse_port_spec, port_list, port_names, port_spec, PortSpecView, PortTable};
use crate::preflight::{check_grouping, diagnostic_node_path, grouping_problem};
use crate::runtime::{line_views, log_warn, logged, LineView, LogLine, LOG_WARN};
use crate::status::{failure, first_failure, Error, ErrorView};
use crate::supported::refused;
use crate::text::{
    cat3, cat5, cat7, clone_texts, contains_text, decimal, decimal_of_size, join, joined, same,
    texts,
};
use crate::text_map::TextMap;
use crate::topology::{
    adjacency, declared_names, known_names, names_in, own_outputs, preflight_node_label, produced,
    producers, producers_are_nodes, producers_from_list, tables_of, targets, targets_bounded,
    targets_push, NodePorts, Ports,
};
use vstd::prelude::*;

verus! {

// --------------------------------------------------------------- graph inputs

/// The first graph input that cannot be read or that stands twice.
pub open spec fn sources_problem(decls: Seq<Seq<char>>) -> Option<ErrorView>
    decreases decls.len(),
{
    if decls.len() == 0 {
        None
    } else {
        first_failure(
            sources_problem(decls.drop_last()),
            match port_spec(decls.last()) {
                Err(e) => Some(e),
                Ok(spec) => if declared_names(decls.drop_last()).contains(spec.name) {
                    refused("图输入口 `"@ + spec.name + "` 重复声明"@)
                } else {
                    None
                },
            },
        )
    }
}

proof fn lemma_sources_prefix(decls: Seq<Seq<char>>, k: int)
    requires
        0 <= k <= decls.len(),
        sources_problem(decls.take(k)) is Some,
    ensures
        sources_problem(decls) == sources_problem(decls.take(k)),
    decreases decls.len() - k,
{
    if k < decls.len() {
        assert(decls.take(k + 1).drop_last() =~= decls.take(k));
        lemma_sources_prefix(decls, k + 1);
    } else {
        assert(decls.take(k) =~= decls);
    }
}

/// Reads the graph inputs.
fn read_sources(decls: &Vec<String>) -> (r: Result<Vec<String>, Error>)
    ensures
        failure(r) == sources_problem(texts(decls@)),
        r matches Ok(names) ==> port_list(texts(decls@)) is Ok && texts(names@)
            == declared_names(texts(decls@)),
{
    let ghost all = texts(decls@);
    let mut names: Vec<String> = Vec::new();
    assert(all.take(0) =~= Seq::empty());
    assert(texts(names@) =~= declared_names(all.take(0)));
    for i in 0..decls.len()
        invariant
            all == texts(decls@),
            port_list(all.take(i as int)) is Ok,
            texts(names@) == declared_names(all.take(i as int)),
            sources_problem(all.take(i as int)) is None,
    {
        let ghost done = texts(names@);
        proof {
            assert(all.take(i + 1).drop_last() =~= all.take(i as int));
            assert(all.take(i + 1).last() == decls@[i as int]@);
        }
        match parse_port_spec(decls[i].as_str()) {
            Err(e) => {
                proof {
                    lemma_sources_prefix(all, i + 1);
                }
                return Err(e);
            },
            Ok(spec) => {
                if contains_text(&names, spec.name.as_str()) {
                    proof {
                        lemma_sources_prefix(all, i + 1);
                    }
                    return Err(
                        Error::InvalidArg(
                            cat3("图输入口 `", spec.name.as_str(), "` 重复声明"),
                        ),
                    );
                }
                let ghost name = spec.name@;
                names.push(spec.name);
                assert(texts(names@) =~= done.push(name));
                assert(texts(names@) =~= declared_names(all.take(i + 1)));
            },
        }
    }
    assert(all.take(all.len() as int) =~= all);
    Ok(names)
}

// ---------------------------------------------------------------- the outputs

/// The first output of a node that is a graph input or has another producer.
pub open spec fn makers_problem(
    names: Seq<Seq<char>>,
    index: usize,
    inputs: Seq<Seq<char>>,
    nodes: Seq<NodeView>,
) -> Option<ErrorView>
    decreases names.len(),
{
    if names.len() == 0 {
        None
    } else {
        let name = names.last();
        let who = nodes[index as int].numbered_label(index as nat);
        let seen = producers(
            produced(nodes.take(index as int)) + own_outputs(names.drop_last(), index),
        );
        first_failure(
            makers_problem(names.drop_last(), index, inputs, nodes),
            if inputs.contains(name) {
                refused(
                    "端口名 `"@ + name + "` 既是图输入口又是节点 `"@ + who
                        + "` 的输出口 —— 名字冲突"@,
                )
            } else if seen.contains_key(name) {
                refused(
                    "端口 `"@ + name + "` 有多个生产者:节点 `"@
                        + nodes[seen[name] as int].numbered_label(seen[name] as nat) + "` 与 `"@
                        + who + "`"@,
                )
            } else {
                None
            },
        )
    }
}

/// What is wrong with the ports of node `index`.
pub open spec fn wired_ports_problem(
    index: usize,
    inputs: Seq<Seq<char>>,
    nodes: Seq<NodeView>,
) -> Option<ErrorView> {
    let n = nodes[index as int];
    match port_list(n.input_ports) {
        Err((_, e)) => Some(e),
        Ok(_) => match port_list(n.output_ports) {
            Err((_, e)) => Some(e),
            Ok(outs) => makers_problem(port_names(outs), index, inputs, nodes),
        },
    }
}

/// The first thing that is wrong with the ports of the first `k` nodes.
pub open spec fn all_wired_ports_problem(
    k: nat,
    inputs: Seq<Seq<char>>,
    nodes: Seq<NodeView>,
) -> Option<ErrorView>
    decreases k,
{
    if k == 0 {
        None
    } else {
        first_failure(
            all_wired_ports_problem((k - 1) as nat, inputs, nodes),
            wired_ports_problem((k - 1) as usize, inputs, nodes),
        )
    }
}

proof fn lemma_makers_prefix(
    names: Seq<Seq<char>>,
    index: usize,
    inputs: Seq<Seq<char>>,
    nodes: Seq<NodeView>,
    k: int,
)
    requires
        0 <= k <= names.len(),
        makers_problem(names.take(k), index, inputs, nodes) is Some,
    ensures
        makers_problem(names, index, inputs, nodes) == makers_problem(
            names.take(k),
            index,
            inputs,
            nodes,
        ),
    decreases names.len() - k,
{
    if k < names.len() {
        assert(names.take(k + 1).drop_last() =~= names.take(k));
        lemma_makers_prefix(names, index, inputs, nodes, k + 1);
    } else {
        assert(names.take(k) =~= names);
    }
}

proof fn lemma_wired_ports_prefix(k: nat, n: nat, inputs: Seq<Seq<char>>, nodes: Seq<NodeView>)
    requires
        k <= n,
        all_wired_ports_problem(k, inputs, nodes) is Some,
    ensures
        all_wired_ports_problem(n, inputs, nodes) == all_wired_ports_problem(k, inputs, nodes),
    decreases n - k,
{
    if k < n {
        lemma_wired_ports_prefix(k, (n - 1) as nat, inputs, nodes);
    }
}

/// Reads the ports of node `index` and enters its outputs as produced by it.
fn wire_node_ports(
    nodes: &Vec<NodeConfig>,
    index: usize,
    inputs: &Vec<String>,
    makers: &mut TextMap<usize>,
    known: &mut Vec<String>,
) -> (r: Result<NodePorts, Error>)
    requires
        index < nodes@.len(),
        old(makers)@ == producers(produced(node_views(nodes@).take(index as int))),
    ensures
        failure(r) == wired_ports_problem(index, texts(inputs@), node_views(nodes@)),
        r matches Ok(ports) ==> {
            let n = nodes@[index as int]@;
            &&& port_list(n.input_ports) == Ok::<Seq<PortSpecView>, (int, ErrorView)>(
                ports.inputs@,
            )
            &&& port_list(n.output_ports) == Ok::<Seq<PortSpecView>, (int, ErrorView)>(
                ports.outputs@,
            )
            &&& final(makers)@ == producers(produced(node_views(nodes@).take(index + 1)))
            &&& texts(final(known)@) == texts(old(known)@) + declared_names(n.output_ports)
        },
{
    let ghost all = node_views(nodes@);
    let ghost n = nodes@[index as int]@;
    assert(all[index as int] == n);
    let node = &nodes[index];
    let who = preflight_node_label(node, index);
    let ins = PortTable::build(&node.input_ports)?;
    let outs = PortTable::build(&node.output_ports)?;
    let names = outs.names();
    let ghost own = texts(names@);
    let ghost earlier = produced(all.take(index as int));
    let ghost known_before = texts(known@);
    assert(own == declared_names(n.output_ports));
    assert(own.take(0) =~= Seq::empty());
    assert(earlier + own_outputs(own.take(0), index) =~= earlier);
    assert(known_before + own.take(0) =~= known_before);
    for k in 0..names.len()
        invariant
            index < nodes@.len(),
            all == node_views(nodes@),
            who@ == all[index as int].numbered_label(index as nat),
            own == texts(names@),
            earlier == produced(all.take(index as int)),
            known_before == texts(old(known)@),
            n == all[index as int],
            port_list(n.input_ports) is Ok,
            port_list(n.output_ports) is Ok,
            own == declared_names(n.output_ports),
            makers@ == producers(earlier + own_outputs(own.take(k as int), index)),
            texts(known@) == known_before + own.take(k as int),
            makers_problem(own.take(k as int), index, texts(inputs@), all) is None,
    {
        let name = names[k].as_str();
        proof {
            assert(own.take(k + 1).drop_last() =~= own.take(k as int));
            assert(own.take(k + 1).last() == name@);
        }
        if contains_text(inputs, name) {
            proof {
                lemma_makers_prefix(own, index, texts(inputs@), all, k + 1);
            }
            return Err(
                Error::InvalidArg(
                    cat5(
                        "端口名 `",
                        name,
                        "` 既是图输入口又是节点 `",
                        who.as_str(),
                        "` 的输出口 —— 名字冲突",
                    ),
                ),
            );
        }
        match makers.get(name) {
            Some(previous) => {
                let previous: usize = *previous;
                proof {
                    lemma_makers_prefix(own, index, texts(inputs@), all, k + 1);
                    let pairs = earlier + own_outputs(own.take(k as int), index);
                    producers_from_list(pairs, name@);
                    assert(all.len() == nodes.len());
                    producers_are_nodes(all, index as int);
                    let j = choose|j: int|
                        0 <= j < pairs.len() && #[trigger] pairs[j] == (
                            name@,
                            producers(pairs)[name@],
                        );
                    if j < earlier.len() {
                        assert(earlier[j] == pairs[j]);
                    }
                    assert(previous < nodes@.len());
                }
                let other = preflight_node_label(&nodes[previous], previous);
                assert(all[previous as int] == nodes@[previous as int]@);
                return Err(
                    Error::InvalidArg(
                        cat7(
                            "端口 `",
                            name,
                            "` 有多个生产者:节点 `",
                            other.as_str(),
                            "` 与 `",
                            who.as_str(),
                            "`",
                        ),
                    ),
                );
            },
            None => {},
        }
        let ghost pairs = earlier + own_outputs(own.take(k as int), index);
        let ghost more = earlier + own_outputs(own.take(k + 1), index);
        let ghost known_now = texts(known@);
        makers.insert(names[k].clone(), index);
        known.push(names[k].clone());
        proof {
            assert(more.drop_last() =~= pairs);
            assert(more.last() == (name@, index));
            assert(texts(known@) =~= known_now.push(name@));
            assert(known_before + own.take(k + 1) =~= (known_before + own.take(k as int)).push(
                name@,
            ));
        }
    }
    proof {
        assert(own.take(own.len() as int) =~= own);
        assert(all.take(index + 1).drop_last() =~= all.take(index as int));
        assert(all.take(index + 1).last() == n);
    }
    Ok(NodePorts { inputs: ins, outputs: outs })
}

/// Reads the ports of all nodes.
fn wire_ports(nodes: &Vec<NodeConfig>, inputs: &Vec<String>) -> (r: Result<Ports, Error>)
    ensures
        failure(r) == all_wired_ports_problem(nodes@.len(), texts(inputs@), node_views(nodes@)),
        r matches Ok(ports) ==> {
            let all = node_views(nodes@);
            &&& tables_of(ports.tables@, all)
            &&& ports.makers@ == producers(produced(all))
            &&& texts(ports.known@) == texts(inputs@) + names_in(produced(all))
        },
{
    let ghost all = node_views(nodes@);
    let ghost given = texts(inputs@);
    let mut tables: Vec<NodePorts> = Vec::new();
    let mut makers: TextMap<usize> = TextMap::new();
    let mut known: Vec<String> = clone_texts(inputs);
    assert(all.take(0) =~= Seq::empty());
    assert(given + names_in(produced(all.take(0))) =~= given);
    for i in 0..nodes.len()
        invariant
            all == node_views(nodes@),
            given == texts(inputs@),
            tables_of(tables@, all.take(i as int)),
            makers@ == producers(produced(all.take(i as int))),
            texts(known@) == given + names_in(produced(all.take(i as int))),
            all_wired_ports_problem(i as nat, given, all) is None,
    {
        let ghost before = all.take(i as int);
        let ghost after = all.take(i + 1);
        match wire_node_ports(nodes, i, inputs, &mut makers, &mut known) {
            Ok(ports) => {
                let ghost old_tables = tables@;
                tables.push(ports);
                proof {
                    assert(after.drop_last() =~= before);
                    assert(after.last() == nodes@[i as int]@);
                    assert(names_in(produced(after)) =~= names_in(produced(before))
                        + declared_names(after.last().output_ports));
                    assert(texts(known@) =~= given + names_in(produced(after)));
                    assert forall|k: int| 0 <= k < tables@.len() implies port_list(
                        after[k].input_ports,
                    ) == Ok::<Seq<PortSpecView>, (int, ErrorView)>(
                        (#[trigger] tables@[k]).inputs@,
                    ) && port_list(after[k].output_ports) == Ok::<
                        Seq<PortSpecView>,
                        (int, ErrorView),
                    >(tables@[k].outputs@) by {
                        if k < i {
                            assert(old_tables[k] == tables@[k]);
                            assert(before[k] == after[k]);
                        }
                    }
                }
            },
            Err(e) => {
                proof {
                    lemma_wired_ports_prefix((i + 1) as nat, nodes@.len(), given, all);
                }
                return Err(e);
            },
        }
    }
    assert(all.take(all.len() as int) =~= all);
    Ok(Ports { tables, makers, known })
}

// ----------------------------------------------------------------- the inputs

/// The first input of a node that nothing produces.
pub open spec fn dangling(
    names: Seq<Seq<char>>,
    known: Seq<Seq<char>>,
    who: Seq<char>,
) -> Option<ErrorView>
    decreases names.len(),
{
    if names.len() == 0 {
        None
    } else {
        first_failure(
            dangling(names.drop_last(), known, who),
            if known.contains(names.last()) {
                None
            } else {
                refused(
                    "节点 `"@ + who + "` 的输入口 `"@ + names.last()
                        + "` 找不到生产者:既非图输入口,也无节点输出它"@,
                )
            },
        )
    }
}

/// What is wrong with the inputs of node `index`: it has none, or nothing
/// produces one of them.
pub open spec fn feed_problem(n: NodeView, index: nat, known: Seq<Seq<char>>) -> Option<
    ErrorView,
> {
    let names = declared_names(n.input_ports);
    if names.len() == 0 {
        Some(
            ErrorView::Unsupported(
                "节点 `"@ + n.numbered_label(index)
                    + "` 没有输入口 —— source 节点尚未支持(见 docs/design.md §7.4)"@,
            ),
        )
    } else {
        dangling(names, known, n.numbered_label(index))
    }
}

/// The first of the first `k` nodes with a problem of its inputs.
pub open spec fn all_feed_problem(
    k: nat,
    nodes: Seq<NodeView>,
    known: Seq<Seq<char>>,
) -> Option<ErrorView>
    decreases k,
{
    if k == 0 {
        None
    } else {
        first_failure(
            all_feed_problem((k - 1) as nat, nodes, known),
            feed_problem(nodes[k - 1], (k - 1) as nat, known),
        )
    }
}

proof fn lemma_dangling_prefix(
    names: Seq<Seq<char>>,
    known: Seq<Seq<char>>,
    who: Seq<char>,
    k: int,
)
    requires
        0 <= k <= names.len(),
        dangling(names.take(k), known, who) is Some,
    ensures
        dangling(names, known, who) == dangling(names.take(k), known, who),
    decreases names.len() - k,
{
    if k < names.len() {
        assert(names.take(k + 1).drop_last() =~= names.take(k));
        lemma_dangling_prefix(names, known, who, k + 1);
    } else {
        assert(names.take(k) =~= names);
    }
}

proof fn lemma_feed_prefix(k: nat, n: nat, nodes: Seq<NodeView>, known: Seq<Seq<char>>)
    requires
        k <= n,
        all_feed_problem(k, nodes, known) is Some,
    ensures
        all_feed_problem(n, nodes, known) == all_feed_problem(k, nodes, known),
    decreases n - k,
{
    if k < n {
        lemma_feed_prefix(k, (n - 1) as nat, nodes, known);
    }
}

/// The first of the first `k` nodes whose groups of input ports, where it has
/// any, do not hold each port once.
pub open spec fn all_groups_problem(k: nat, nodes: Seq<NodeView>) -> Option<ErrorView>
    decreases k,
{
    if k == 0 {
        None
    } else {
        let node = nodes[k - 1];
        first_failure(
            all_groups_problem((k - 1) as nat, nodes),
            if node.input_policy.kind == "sync_set"@ {
                grouping_problem(node, node.path((k - 1) as nat))
            } else {
                None
            },
        )
    }
}

proof fn lemma_groups_prefix(k: nat, n: nat, nodes: Seq<NodeView>)
    requires
        k <= n,
        all_groups_problem(k, nodes) is Some,
    ensures
        all_groups_problem(n, nodes) == all_groups_problem(k, nodes),
    decreases n - k,
{
    if k < n {
        lemma_groups_prefix(k, (n - 1) as nat, nodes);
    }
}

/// Refuses nodes whose groups of input ports do not hold each port once.
fn check_groups(nodes: &Vec<NodeConfig>) -> (r: Result<(), Error>)
    ensures
        failure(r) == all_groups_problem(nodes@.len(), node_views(nodes@)),
{
    let ghost all = node_views(nodes@);
    for i in 0..nodes.len()
        invariant
            all == node_views(nodes@),
            all_groups_problem(i as nat, all) is None,
    {
        assert(all[i as int] == nodes@[i as int]@);
        if same(nodes[i].input_policy.kind.as_str(), "sync_set") {
            let path = diagnostic_node_path(&nodes[i], i);
            match check_grouping(&nodes[i], path.as_str()) {
                Ok(()) => {},
                Err(e) => {
                    proof {
                        lemma_groups_prefix((i + 1) as nat, all.len(), all);
                    }
                    return Err(e);
                },
            }
        }
    }
    Ok(())
}

/// Refuses a node without inputs, or with one that nothing produces.
fn check_feed(node: &NodeConfig, index: usize, table: &PortTable, known: &Vec<String>) -> (r:
    Result<(), Error>)
    requires
        port_list(node@.input_ports) == Ok::<Seq<PortSpecView>, (int, ErrorView)>(table@),
    ensures
        failure(r) == feed_problem(node@, index as nat, texts(known@)),
{
    let who = preflight_node_label(node, index);
    let names = table.names();
    let ghost all = texts(names@);
    assert(all == declared_names(node@.input_ports));
    assert(all.len() == names@.len());
    if names.len() == 0 {
        return Err(
            Error::Unsupported(
                cat3(
                    "节点 `",
                    who.as_str(),
                    "` 没有输入口 —— source 节点尚未支持(见 docs/design.md §7.4)",
                ),
            ),
        );
    }
    assert(all.take(0) =~= Seq::empty());
    for k in 0..names.len()
        invariant
            all == texts(names@),
            all == declared_names(node@.input_ports),
            all.len() > 0,
            who@ == node@.numbered_label(index as nat),
            dangling(all.take(k as int), texts(known@), who@) is None,
    {
        proof {
            assert(all.take(k + 1).drop_last() =~= all.take(k as int));
            assert(all.take(k + 1).last() == names@[k as int]@);
        }
        if !contains_text(known, names[k].as_str()) {
            proof {
                lemma_dangling_prefix(all, texts(known@), who@, k + 1);
            }
            return Err(
                Error::InvalidArg(
                    cat5(
                        "节点 `",
                        who.as_str(),
                        "` 的输入口 `",
                        names[k].as_str(),
                        "` 找不到生产者:既非图输入口,也无节点输出它",
                    ),
                ),
            );
        }
    }
    assert(all.take(all.len() as int) =~= all);
    Ok(())
}

// -------------------------------------------------------------- graph outputs

/// The first graph output that cannot be read or that nothing produces.
pub open spec fn sinks_problem(decls: Seq<Seq<char>>, known: Seq<Seq<char>>) -> Option<ErrorView>
    decreases decls.len(),
{
    if decls.len() == 0 {
        None
    } else {
        first_failure(
            sinks_problem(decls.drop_last(), known),
            match port_spec(decls.last()) {
                Err(e) => Some(e),
                Ok(spec) => if known.contains(spec.name) {
                    None
                } else {
                    refused("图输出口 `"@ + spec.name + "` 没有任何节点产出它"@)
                },
            },
        )
    }
}

proof fn lemma_sinks_prefix(decls: Seq<Seq<char>>, known: Seq<Seq<char>>, k: int)
    requires
        0 <= k <= decls.len(),
        sinks_problem(decls.take(k), known) is Some,
    ensures
        sinks_problem(decls, known) == sinks_problem(decls.take(k), known),
    decreases decls.len() - k,
{
    if k < decls.len() {
        assert(decls.take(k + 1).drop_last() =~= decls.take(k));
        lemma_sinks_prefix(decls, known, k + 1);
    } else {
        assert(decls.take(k) =~= decls);
    }
}

/// Reads the graph outputs; each has a producer.
fn read_sinks(decls: &Vec<String>, known: &Vec<String>) -> (r: Result<Vec<String>, Error>)
    ensures
        failure(r) == sinks_problem(texts(decls@), texts(known@)),
        r matches Ok(names) ==> {
            &&& port_list(texts(decls@)) is Ok
            &&& texts(names@) == declared_names(texts(decls@))
            &&& forall|k: int|
                0 <= k < names@.len() ==> texts(known@).contains((#[trigger] names@[k])@)
        },
{
    let ghost all = texts(decls@);
    let mut names: Vec<String> = Vec::new();
    assert(all.take(0) =~= Seq::empty());
    assert(texts(names@) =~= declared_names(all.take(0)));
    for i in 0..decls.len()
        invariant
            all == texts(decls@),
            port_list(all.take(i as int)) is Ok,
            texts(names@) == declared_names(all.take(i as int)),
            names@.len() == i,
            forall|k: int| 0 <= k < i ==> texts(known@).contains((#[trigger] names@[k])@),
            sinks_problem(all.take(i as int), texts(known@)) is None,
    {
        let ghost done = texts(names@);
        proof {
            assert(all.take(i + 1).drop_last() =~= all.take(i as int));
            assert(all.take(i + 1).last() == decls@[i as int]@);
        }
        match parse_port_spec(decls[i].as_str()) {
            Err(e) => {
                proof {
                    lemma_sinks_prefix(all, texts(known@), i + 1);
                }
                return Err(e);
            },
            Ok(spec) => {
                if !contains_text(known, spec.name.as_str()) {
                    proof {
                        lemma_sinks_prefix(all, texts(known@), i + 1);
                    }
                    return Err(
                        Error::InvalidArg(
                            cat3("图输出口 `", spec.name.as_str(), "` 没有任何节点产出它"),
                        ),
                    );
                }
                let ghost name = spec.name@;
                names.push(spec.name);
                assert(texts(names@) =~= done.push(name));
                assert(texts(names@) =~= declared_names(all.take(i + 1)));
            },
        }
    }
    assert(all.take(all.len() as int) =~= all);
    Ok(names)
}

// ------------------------------------------------------------------ the edges

/// The outputs of the first `k` nodes, as places that name edges.
pub open spec fn all_outputs(nodes: Seq<NodeView>, k: nat) -> Seq<Mention>
    decreases k,
{
    if k == 0 {
        Seq::empty()
    } else {
        all_outputs(nodes, (k - 1) as nat) + outputs_of(
            declared_names(nodes[k - 1].output_ports),
            (k - 1) as usize,
        )
    }
}

/// The inputs of the first `k` nodes, as places that name edges.
pub open spec fn all_inputs(nodes: Seq<NodeView>, k: nat) -> Seq<Mention>
    decreases k,
{
    if k == 0 {
        Seq::empty()
    } else {
        all_inputs(nodes, (k - 1) as nat) + inputs_of(
            declared_names(nodes[k - 1].input_ports),
            (k - 1) as usize,
        )
    }
}

/// Where the edges of a graph are named, in the order of their numbers: the
/// graph inputs, the outputs of all nodes, then the inputs of all nodes.
pub open spec fn places(g: GraphView) -> Seq<Mention> {
    sources(declared_names(g.input_ports)) + all_outputs(g.nodes, g.nodes.len()) + all_inputs(
        g.nodes,
        g.nodes.len(),
    )
}

/// The links from the producer of each edge to its consumers.
pub open spec fn edge_links(edges: Seq<PlanEdgeView>) -> Seq<(usize, usize)>
    decreases edges.len(),
{
    if edges.len() == 0 {
        Seq::empty()
    } else {
        let before = edge_links(edges.drop_last());
        match edges.last().producer {
            Some(p) => before + Seq::new(
                edges.last().consumers.len(),
                |k: int| (p, edges.last().consumers[k]),
            ),
            None => before,
        }
    }
}

/// The warning about an edge that nobody reads.
pub open spec fn unread_warning(e: PlanEdgeView, nodes: Seq<NodeView>) -> Option<Seq<char>> {
    if e.consumers.len() > 0 || e.graph_output {
        None
    } else if e.graph_input {
        Some("图输入口 `"@ + e.name + "` 没有任何节点消费它 —— 送进来的包会被直接丢弃"@)
    } else {
        match e.producer {
            Some(p) => Some(
                "节点 `"@ + nodes[p as int].numbered_label(p as nat) + "` 的输出口 `"@ + e.name
                    + "` 既无下游消费者、也不是图输出口 —— 产出会被直接丢弃"@,
            ),
            None => None,
        }
    }
}

/// The warnings about edges that nobody reads, in order.
pub open spec fn unread_warnings(edges: Seq<PlanEdgeView>, nodes: Seq<NodeView>) -> Seq<Seq<char>>
    decreases edges.len(),
{
    if edges.len() == 0 {
        Seq::empty()
    } else {
        let before = unread_warnings(edges.drop_last(), nodes);
        match unread_warning(edges.last(), nodes) {
            Some(w) => before.push(w),
            None => before,
        }
    }
}

/// Whether the edges connect nodes below `n`.
pub open spec fn edges_within(edges: Seq<PlanEdgeView>, n: nat) -> bool {
    forall|k: int|
        0 <= k < edges.len() ==> {
            &&& (#[trigger] edges[k]).producer matches Some(p) ==> p < n
            &&& forall|j: int|
                0 <= j < edges[k].consumers.len() ==> #[trigger] edges[k].consumers[j] < n
        }
}

/// Warns about edges that nobody reads.
fn warn_unread(edges: &Vec<GraphPlanEdge>, nodes: &Vec<NodeConfig>) -> (r: Vec<String>)
    requires
        edges_within(plan_edge_views(edges@), nodes@.len()),
    ensures
        texts(r@) == unread_warnings(plan_edge_views(edges@), node_views(nodes@)),
{
    let ghost all = plan_edge_views(edges@);
    let ghost labels = node_views(nodes@);
    let mut out: Vec<String> = Vec::new();
    assert(all.take(0) =~= Seq::empty());
    assert(texts(out@) =~= unread_warnings(all.take(0), labels));
    for i in 0..edges.len()
        invariant
            all == plan_edge_views(edges@),
            labels == node_views(nodes@),
            edges_within(all, nodes@.len()),
            texts(out@) == unread_warnings(all.take(i as int), labels),
    {
        let e = &edges[i];
        let ghost before = texts(out@);
        proof {
            assert(all[i as int] == e@);
            assert(all.take(i + 1).drop_last() =~= all.take(i as int));
            assert(all.take(i + 1).last() == e@);
        }
        if e.consumers.len() == 0 && !e.graph_output {
            if e.graph_input {
                let w = cat3(
                    "图输入口 `",
                    e.name.as_str(),
                    "` 没有任何节点消费它 —— 送进来的包会被直接丢弃",
                );
                out.push(w);
                assert(texts(out@) =~= before.push(w@));
            } else if let Some(p) = e.producer {
                assert(labels[p as int] == nodes@[p as int]@);
                let who = preflight_node_label(&nodes[p], p);
                let w = cat5(
                    "节点 `",
                    who.as_str(),
                    "` 的输出口 `",
                    e.name.as_str(),
                    "` 既无下游消费者、也不是图输出口 —— 产出会被直接丢弃",
                );
                out.push(w);
                assert(texts(out@) =~= before.push(w@));
            }
        }
    }
    assert(all.take(all.len() as int) =~= all);
    out
}

/// The successors of each node along the edges.
fn edge_successors(edges: &Vec<GraphPlanEdge>, n: usize) -> (r: Vec<Vec<usize>>)
    requires
        edges_within(plan_edge_views(edges@), n as nat),
    ensures
        successor_view(r@) == adjacency(n as nat, edge_links(plan_edge_views(edges@))),
{
    let ghost all = plan_edge_views(edges@);
    let mut adj: Vec<Vec<usize>> = Vec::new();
    for i in 0..n
        invariant
            adj@.len() == i,
            forall|k: int| 0 <= k < i ==> (#[trigger] adj@[k])@ == Seq::<usize>::empty(),
    {
        adj.push(Vec::new());
    }
    assert(all.take(0) =~= Seq::empty());
    assert(successor_view(adj@) =~= adjacency(n as nat, edge_links(all.take(0)))) by {
        assert forall|u: int| 0 <= u < n implies successor_view(adj@)[u] == adjacency(
            n as nat,
            edge_links(all.take(0)),
        )[u] by {
            assert(successor_view(adj@)[u] == adj@[u]@);
        }
    }
    for i in 0..edges.len()
        invariant
            all == plan_edge_views(edges@),
            edges_within(all, n as nat),
            adj@.len() == n,
            successor_view(adj@) == adjacency(n as nat, edge_links(all.take(i as int))),
    {
        let e = &edges[i];
        let ghost before = edge_links(all.take(i as int));
        proof {
            assert(all[i as int] == e@);
            assert(all.take(i + 1).drop_last() =~= all.take(i as int));
            assert(all.take(i + 1).last() == e@);
        }
        if let Some(p) = e.producer {
            let ghost own = Seq::new(e@.consumers.len(), |k: int| (p, e@.consumers[k]));
            assert(before + own.take(0) =~= before);
            for k in 0..e.consumers.len()
                invariant
                    p < n,
                    adj@.len() == n,
                    own == Seq::new(e@.consumers.len(), |k: int| (p, e@.consumers[k])),
                    successor_view(adj@) == adjacency(n as nat, before + own.take(k as int)),
            {
                let ghost links = before + own.take(k as int);
                let ghost old_adj = adj@;
                let c: usize = e.consumers[k];
                adj[p].push(c);
                proof {
                    assert(own.take(k + 1) =~= own.take(k as int).push((p, c)));
                    assert(before + own.take(k + 1) =~= links.push((p, c)));
                    assert forall|u: int| 0 <= u < n implies successor_view(adj@)[u] == adjacency(
                        n as nat,
                        links.push((p, c)),
                    )[u] by {
                        targets_push(links, (p, c), u as usize);
                        assert(successor_view(old_adj)[u] == targets(links, u as usize));
                        assert(successor_view(old_adj)[u] == old_adj[u]@);
                        assert(successor_view(adj@)[u] == adj@[u]@);
                    }
                    assert(successor_view(adj@) =~= adjacency(n as nat, links.push((p, c))));
                }
            }
            assert(own.take(own.len() as int) =~= own);
        }
    }
    assert(all.take(all.len() as int) =~= all);
    adj
}

// ----------------------------------------------------- cycles and executors

/// The refusal of a graph with a cycle, by the edge that closes it.
pub open spec fn loop_problem(adj: Successors, nodes: Seq<NodeView>) -> Option<ErrorView> {
    match first_cycle(adj) {
        Ok(_) => None,
        Err((u, v)) => refused(
            "拓扑成环:节点 `"@ + nodes[v as int].numbered_label(v as nat) + "` → … → `"@
                + nodes[u as int].numbered_label(u as nat)
                + "`(本版本不支持 back-edge,成环会死锁)"@,
        ),
    }
}

/// Refuses a graph with a cycle: no node of it could ever be the first to run.
pub fn check_acyclic(edges: &Vec<GraphPlanEdge>, nodes: &Vec<NodeConfig>) -> (r: Result<
    (),
    Error,
>)
    requires
        edges_within(plan_edge_views(edges@), nodes@.len()),
    ensures
        failure(r) == loop_problem(
            adjacency(nodes@.len(), edge_links(plan_edge_views(edges@))),
            node_views(nodes@),
        ),
        r is Err <==> cyclic(adjacency(nodes@.len(), edge_links(plan_edge_views(edges@)))),
        r is Ok ==> can_be_ordered(
            adjacency(nodes@.len(), edge_links(plan_edge_views(edges@))),
        ),
{
    let adj = edge_successors(edges, nodes.len());
    let ghost view = successor_view(adj@);
    let ghost links = edge_links(plan_edge_views(edges@));
    proof {
        assert(view.len() == adj.len());
        edge_links_within(plan_edge_views(edges@), nodes@.len());
        assert forall|u: int, c: int| 0 <= u < view.len() && 0 <= c < view[u].len() implies (
        #[trigger] view[u][c]) < view.len() by {
            targets_bounded(links, u as usize, nodes@.len());
            assert(view[u] == targets(links, u as usize));
        }
        assert forall|u: int| 0 <= u < view.len() implies (#[trigger] view[u]).len()
            <= usize::MAX by {
            assert(view[u] == adj@[u]@);
            assert(adj@[u].len() == adj@[u]@.len());
        }
        search_decides_cycles(view);
    }
    match find_cycle(&adj) {
        None => Ok(()),
        Some((u, v)) => {
            proof {
                assert(has_edge(view, u, v));
                let c = view[u as int].index_of(v);
                assert(view[u as int][c] == v);
            }
            let current = preflight_node_label(&nodes[u], u);
            let target = preflight_node_label(&nodes[v], v);
            Err(
                Error::InvalidArg(
                    cat5(
                        "拓扑成环:节点 `",
                        target.as_str(),
                        "` → … → `",
                        current.as_str(),
                        "`(本版本不支持 back-edge,成环会死锁)",
                    ),
                ),
            )
        },
    }
}

/// The links lead to nodes.
proof fn edge_links_within(edges: Seq<PlanEdgeView>, n: nat)
    requires
        edges_within(edges, n),
    ensures
        forall|k: int| 0 <= k < edge_links(edges).len() ==> (#[trigger] edge_links(edges)[k]).1 < n,
    decreases edges.len(),
{
    if edges.len() > 0 {
        let front = edges.drop_last();
        assert forall|k: int| 0 <= k < front.len() implies {
            &&& (#[trigger] front[k]).producer matches Some(p) ==> p < n
            &&& forall|j: int|
                0 <= j < front[k].consumers.len() ==> #[trigger] front[k].consumers[j] < n
        } by {
            assert(front[k] == edges[k]);
        }
        edge_links_within(front, n);
        let last = edges[edges.len() - 1];
        assert(last == edges.last());
        let now = edge_links(edges);
        let before = edge_links(front);
        assert forall|k: int| 0 <= k < now.len() implies (#[trigger] now[k]).1 < n by {
            if k < before.len() {
                assert(now[k] == before[k]);
            } else {
                assert(now[k].1 == last.consumers[k - before.len()]);
            }
        }
    }
}

/// The names of the executors.
pub open spec fn executor_names(executors: Seq<ExecutorView>) -> Seq<Seq<char>> {
    Seq::new(executors.len(), |i: int| executors[i].name)
}

/// The first executor that has no name or that of an earlier one.
pub open spec fn unnamed_executor(executors: Seq<ExecutorView>) -> Option<ErrorView>
    decreases executors.len(),
{
    if executors.len() == 0 {
        None
    } else {
        let e = executors.last();
        first_failure(
            unnamed_executor(executors.drop_last()),
            if e.name.len() == 0 {
                refused("executors["@ + decimal((executors.len() - 1) as nat) + "] 缺少 name"@)
            } else if executor_names(executors.drop_last()).contains(e.name) {
                refused("executor `"@ + e.name + "` 重复定义"@)
            } else {
                None
            },
        )
    }
}

/// The first of the first `k` nodes that runs on an executor that is not
/// defined.
pub open spec fn unknown_executor(
    k: nat,
    nodes: Seq<NodeView>,
    known: Seq<Seq<char>>,
) -> Option<ErrorView>
    decreases k,
{
    if k == 0 {
        None
    } else {
        let n = nodes[k - 1];
        first_failure(
            unknown_executor((k - 1) as nat, nodes, known),
            if n.executor.len() != 0 && !known.contains(n.executor) {
                refused(
                    "节点 `"@ + n.numbered_label((k - 1) as nat)
                        + "` 引用了未定义的 executor `"@ + n.executor + "`(已定义: ["@ + joined(
                        known,
                        ", "@,
                    ) + "])"@,
                )
            } else {
                None
            },
        )
    }
}

proof fn lemma_unnamed_prefix(executors: Seq<ExecutorView>, k: int)
    requires
        0 <= k <= executors.len(),
        unnamed_executor(executors.take(k)) is Some,
    ensures
        unnamed_executor(executors) == unnamed_executor(executors.take(k)),
    decreases executors.len() - k,
{
    if k < executors.len() {
        assert(executors.take(k + 1).drop_last() =~= executors.take(k));
        lemma_unnamed_prefix(executors, k + 1);
    } else {
        assert(executors.take(k) =~= executors);
    }
}

proof fn lemma_unknown_prefix(k: nat, n: nat, nodes: Seq<NodeView>, known: Seq<Seq<char>>)
    requires
        k <= n,
        unknown_executor(k, nodes, known) is Some,
    ensures
        unknown_executor(n, nodes, known) == unknown_executor(k, nodes, known),
    decreases n - k,
{
    if k < n {
        lemma_unknown_prefix(k, (n - 1) as nat, nodes, known);
    }
}

/// Reads the names of the executors.
fn read_executors(executors: &Vec<ExecutorConfig>) -> (r: Result<Vec<String>, Error>)
    ensures
        failure(r) == unnamed_executor(executor_views(executors@)),
        r matches Ok(names) ==> texts(names@) == executor_names(executor_views(executors@)),
{
    let ghost all = executor_views(executors@);
    let mut names: Vec<String> = Vec::new();
    assert(all.take(0) =~= Seq::empty());
    assert(texts(names@) =~= executor_names(all.take(0)));
    for i in 0..executors.len()
        invariant
            all == executor_views(executors@),
            texts(names@) == executor_names(all.take(i as int)),
            unnamed_executor(all.take(i as int)) is None,
    {
        let ghost done = texts(names@);
        proof {
            assert(all.take(i + 1).drop_last() =~= all.take(i as int));
            assert(all.take(i + 1).last() == executors@[i as int]@);
        }
        let name = executors[i].name.as_str();
        if name.is_empty() {
            proof {
                lemma_unnamed_prefix(all, i + 1);
            }
            return Err(
                Error::InvalidArg(
                    cat3("executors[", decimal_of_size(i).as_str(), "] 缺少 name"),
                ),
            );
        }
        if contains_text(&names, name) {
            proof {
                lemma_unnamed_prefix(all, i + 1);
            }
            return Err(Error::InvalidArg(cat3("executor `", name, "` 重复定义")));
        }
        names.push(executors[i].name.clone());
        assert(texts(names@) =~= done.push(name@));
        assert(texts(names@) =~= executor_names(all.take(i + 1)));
    }
    assert(all.take(all.len() as int) =~= all);
    Ok(names)
}

/// Refuses a node that runs on an executor that is not defined.
fn check_executors(nodes: &Vec<NodeConfig>, known: &Vec<String>) -> (r: Result<(), Error>)
    ensures
        failure(r) == unknown_executor(nodes@.len(), node_views(nodes@), texts(known@)),
{
    let ghost all = node_views(nodes@);
    for i in 0..nodes.len()
        invariant
            all == node_views(nodes@),
            unknown_executor(i as nat, all, texts(known@)) is None,
    {
        let n = &nodes[i];
        assert(all[i as int] == n@);
        if !n.executor.as_str().is_empty() && !contains_text(known, n.executor.as_str()) {
            proof {
                lemma_unknown_prefix((i + 1) as nat, nodes@.len(), all, texts(known@));
            }
            return Err(
                Error::InvalidArg(
                    cat7(
                        "节点 `",
                        preflight_node_label(n, i).as_str(),
                        "` 引用了未定义的 executor `",
                        n.executor.as_str(),
                        "`(已定义: [",
                        join(known, ", ").as_str(),
                        "])",
                    ),
                ),
            );
        }
    }
    Ok(())
}

// ----------------------------------------------------------------- the wiring

/// How the nodes of a graph are connected.
pub struct Wiring {
    pub tables: Vec<NodePorts>,
    pub edges: Vec<GraphPlanEdge>,
    pub graph_inputs: Vec<usize>,
    pub graph_outputs: Vec<usize>,
    pub input_by_name: TextMap<usize>,
    pub output_by_name: TextMap<usize>,
    pub edge_by_name: TextMap<usize>,
}

#[verifier::ext_equal]
pub struct WiringView {
    pub edges: Seq<PlanEdgeView>,
    pub graph_inputs: Seq<usize>,
    pub graph_outputs: Seq<usize>,
    pub input_by_name: Map<Seq<char>, usize>,
    pub output_by_name: Map<Seq<char>, usize>,
    pub edge_by_name: Map<Seq<char>, usize>,
}

impl View for Wiring {
    type V = WiringView;

    open spec fn view(&self) -> WiringView {
        WiringView {
            edges: plan_edge_views(self.edges@),
            graph_inputs: self.graph_inputs@,
            graph_outputs: self.graph_outputs@,
            input_by_name: self.input_by_name@,
            output_by_name: self.output_by_name@,
            edge_by_name: self.edge_by_name@,
        }
    }
}

/// The wiring of a graph that has no problem.
pub open spec fn wired(g: GraphView) -> WiringView {
    let ms = places(g);
    let ins = declared_names(g.input_ports);
    let outs = declared_names(g.output_ports);
    WiringView {
        edges: edges_of(ms, outs),
        graph_inputs: numbers_of(ms, ins),
        graph_outputs: numbers_of(ms, outs),
        input_by_name: numbers_by_name(ms, ins),
        output_by_name: numbers_by_name(ms, outs),
        edge_by_name: edge_numbers(ms),
    }
}

/// The first thing that keeps the ports of a graph from being connected.
pub open spec fn connection_problem(g: GraphView) -> Option<ErrorView> {
    first_failure(
        sources_problem(g.input_ports),
        first_failure(
            all_wired_ports_problem(g.nodes.len(), declared_names(g.input_ports), g.nodes),
            first_failure(
                all_feed_problem(g.nodes.len(), g.nodes, known_names(g)),
                sinks_problem(g.output_ports, known_names(g)),
            ),
        ),
    )
}

/// The first thing that keeps a graph from being wired.
pub open spec fn wiring_problem(g: GraphView) -> Option<ErrorView> {
    let outs = declared_names(g.output_ports);
    first_failure(
        connection_problem(g),
        first_failure(
            loop_problem(
                adjacency(g.nodes.len(), edge_links(edges_of(places(g), outs))),
                g.nodes,
            ),
            first_failure(
                unnamed_executor(g.executors),
                first_failure(
                    unknown_executor(g.nodes.len(), g.nodes, executor_names(g.executors)),
                    all_groups_problem(g.nodes.len(), g.nodes),
                ),
            ),
        ),
    )
}

/// What is warned about when a graph is wired, whether it is refused then or
/// not: the edges that nobody reads. Without connections there is nothing to
/// warn about.
pub open spec fn wiring_warnings(g: GraphView) -> Seq<Seq<char>> {
    if connection_problem(g) is Some {
        Seq::empty()
    } else {
        unread_warnings(wired(g).edges, g.nodes)
    }
}

/// A log after the first `k` of some warnings.
pub open spec fn warned(lines: Seq<LineView>, warnings: Seq<Seq<char>>, k: nat) -> Seq<LineView>
    decreases k,
{
    if k == 0 {
        lines
    } else {
        logged(warned(lines, warnings, (k - 1) as nat), LOG_WARN, warnings[k - 1])
    }
}

/// The log after a graph was wired or refused.
pub open spec fn wiring_log(lines: Seq<LineView>, g: GraphView) -> Seq<LineView> {
    warned(lines, wiring_warnings(g), wiring_warnings(g).len())
}

/// Logs some warnings.
fn log_warnings(lines: &mut Vec<LogLine>, warnings: &Vec<String>)
    ensures
        line_views(final(lines)@) == warned(
            line_views(old(lines)@),
            texts(warnings@),
            warnings@.len(),
        ),
{
    for i in 0..warnings.len()
        invariant
            line_views(lines@) == warned(line_views(old(lines)@), texts(warnings@), i as nat),
    {
        assert(texts(warnings@)[i as int] == warnings@[i as int]@);
        log_warn(lines, warnings[i].as_str());
    }
}

/// Every place speaks of a node, and of a port that the node has.
proof fn lemma_outputs_within(nodes: Seq<NodeView>, k: nat)
    requires
        k <= nodes.len() <= usize::MAX,
    ensures
        forall|j: int|
            0 <= j < all_outputs(nodes, k).len() ==> (#[trigger] all_outputs(
                nodes,
                k,
            )[j] matches Mention::Output(_, i) && i < k),
    decreases k,
{
    if k > 0 {
        lemma_outputs_within(nodes, (k - 1) as nat);
        let before = all_outputs(nodes, (k - 1) as nat);
        let now = all_outputs(nodes, k);
        assert forall|j: int| 0 <= j < now.len() implies (#[trigger] now[j] matches Mention::Output(
            _,
            i,
        ) && i < k) by {
            if j < before.len() {
                assert(now[j] == before[j]);
            }
        }
    }
}

/// Whether a place is an input that a node of the list has.
pub open spec fn is_port_of(nodes: Seq<NodeView>, m: Mention) -> bool {
    m matches Mention::Input(name, i, p) && i < nodes.len() && p < declared_names(
        nodes[i as int].input_ports,
    ).len() && declared_names(nodes[i as int].input_ports)[p as int] == name
}

proof fn lemma_inputs_within(nodes: Seq<NodeView>, k: nat)
    requires
        k <= nodes.len() <= usize::MAX,
        forall|i: int|
            0 <= i < nodes.len() ==> declared_names(
                (#[trigger] nodes[i]).input_ports,
            ).len() <= usize::MAX,
    ensures
        forall|j: int|
            0 <= j < all_inputs(nodes, k).len() ==> is_port_of(
                nodes,
                #[trigger] all_inputs(nodes, k)[j],
            ),
    decreases k,
{
    if k > 0 {
        lemma_inputs_within(nodes, (k - 1) as nat);
        let before = all_inputs(nodes, (k - 1) as nat);
        let now = all_inputs(nodes, k);
        let own = declared_names(nodes[k - 1].input_ports);
        assert forall|j: int| 0 <= j < now.len() implies is_port_of(nodes, #[trigger] now[j]) by {
            if j < before.len() {
                assert(now[j] == before[j]);
            } else {
                assert(now[j] == Mention::Input(
                    own[j - before.len()],
                    (k - 1) as usize,
                    (j - before.len()) as usize,
                ));
            }
        }
    }
}

/// A consumer of an edge reads it by one of its ports, and that port has the
/// name of the edge.
pub proof fn consumers_are_ports(g: GraphView, name: Seq<char>, c: int)
    requires
        g.nodes.len() <= usize::MAX,
        forall|i: int|
            0 <= i < g.nodes.len() ==> declared_names(
                (#[trigger] g.nodes[i]).input_ports,
            ).len() <= usize::MAX,
        0 <= c < consumers_of(places(g), name).len(),
    ensures
        ({
            let (node, port) = consumers_of(places(g), name)[c];
            is_port_of(g.nodes, Mention::Input(name, node, port))
        }),
{
    let ms = places(g);
    let n = g.nodes.len();
    lemma_inputs_within(g.nodes, n);
    lemma_outputs_within(g.nodes, n);
    let front = sources(declared_names(g.input_ports)) + all_outputs(g.nodes, n);
    assert forall|j: int| 0 <= j < ms.len() && ms[j] is Input implies is_port_of(
        g.nodes,
        #[trigger] ms[j],
    ) by {
        if j < front.len() {
            assert(ms[j] == front[j]);
            let ins = sources(declared_names(g.input_ports));
            if j < ins.len() {
                assert(front[j] == ins[j]);
            } else {
                assert(front[j] == all_outputs(g.nodes, n)[j - ins.len()]);
            }
        } else {
            assert(ms[j] == all_inputs(g.nodes, n)[j - front.len()]);
        }
    }
    lemma_consumer_place(ms, name, c, g.nodes);
}

proof fn lemma_consumer_place(ms: Seq<Mention>, name: Seq<char>, c: int, nodes: Seq<NodeView>)
    requires
        forall|j: int| 0 <= j < ms.len() && ms[j] is Input ==> is_port_of(nodes, #[trigger] ms[j]),
        0 <= c < consumers_of(ms, name).len(),
    ensures
        is_port_of(
            nodes,
            Mention::Input(name, consumers_of(ms, name)[c].0, consumers_of(ms, name)[c].1),
        ),
    decreases ms.len(),
{
    if ms.len() > 0 {
        let front = ms.drop_last();
        assert(ms[ms.len() - 1] == ms.last());
        if c < consumers_of(front, name).len() {
            assert forall|j: int| 0 <= j < front.len() && front[j] is Input implies is_port_of(
                nodes,
                #[trigger] front[j],
            ) by {
                assert(ms[j] == front[j]);
            }
            lemma_consumer_place(front, name, c, nodes);
        }
    }
}

/// The edges of a graph connect its nodes.
pub proof fn wired_edges_within(g: GraphView, outs: Seq<Seq<char>>)
    requires
        g.nodes.len() <= usize::MAX,
        forall|i: int|
            0 <= i < g.nodes.len() ==> declared_names(
                (#[trigger] g.nodes[i]).input_ports,
            ).len() <= usize::MAX,
    ensures
        edges_within(edges_of(places(g), outs), g.nodes.len()),
{
    let ms = places(g);
    let n = g.nodes.len();
    let edges = edges_of(ms, outs);
    lemma_inputs_within(g.nodes, n);
    lemma_outputs_within(g.nodes, n);
    let ins = sources(declared_names(g.input_ports));
    let front = ins + all_outputs(g.nodes, n);
    assert forall|j: int| 0 <= j < ms.len() implies match #[trigger] ms[j] {
        Mention::Source(_) => true,
        Mention::Output(_, i) => i < n,
        Mention::Input(_, i, _) => i < n,
    } by {
        if j < ins.len() {
            assert(ms[j] == ins[j]);
        } else if j < front.len() {
            assert(ms[j] == all_outputs(g.nodes, n)[j - ins.len()]);
        } else {
            assert(ms[j] == all_inputs(g.nodes, n)[j - front.len()]);
            assert(is_port_of(g.nodes, ms[j]));
        }
    }
    assert forall|k: int| 0 <= k < edges.len() implies {
        &&& (#[trigger] edges[k]).producer matches Some(p) ==> p < n
        &&& forall|j: int| 0 <= j < edges[k].consumers.len() ==> #[trigger] edges[k].consumers[j]
            < n
    } by {
        edge_bounded(ms, edge_names(ms)[k], n);
        let pairs = consumers_of(ms, edge_names(ms)[k]);
        assert forall|j: int| 0 <= j < edges[k].consumers.len() implies #[trigger] edges[k].consumers[j]
            < n by {
            assert(edges[k].consumers[j] == pairs[j].0);
        }
    }
}

/// Every name that is produced is an edge.
proof fn lemma_known_are_edges(g: GraphView)
    ensures
        forall|j: int|
            0 <= j < known_names(g).len() ==> edge_names(places(g)).contains(
                #[trigger] known_names(g)[j],
            ),
{
    let ms = places(g);
    let names = declared_names(g.input_ports);
    let ins = sources(names);
    let outs = all_outputs(g.nodes, g.nodes.len());
    edge_names_distinct(ms);
    lemma_outputs_are_produced(g.nodes, g.nodes.len());
    assert(g.nodes.take(g.nodes.len() as int) =~= g.nodes);
    assert forall|j: int| 0 <= j < known_names(g).len() implies edge_names(ms).contains(
        #[trigger] known_names(g)[j],
    ) by {
        assert(ms[j].name() == known_names(g)[j]) by {
            if j < ins.len() {
                assert(ms[j] == ins[j]);
            } else {
                assert(ms[j] == outs[j - ins.len()]);
                assert(known_names(g)[j] == produced(g.nodes)[j - ins.len()].0);
            }
        }
    }
}

proof fn lemma_outputs_are_produced(nodes: Seq<NodeView>, k: nat)
    requires
        k <= nodes.len(),
    ensures
        all_outputs(nodes, k).len() == produced(nodes.take(k as int)).len(),
        forall|j: int|
            0 <= j < all_outputs(nodes, k).len() ==> (#[trigger] all_outputs(nodes, k)[j]).name()
                == produced(nodes.take(k as int))[j].0,
    decreases k,
{
    if k > 0 {
        lemma_outputs_are_produced(nodes, (k - 1) as nat);
        assert(nodes.take(k as int).drop_last() =~= nodes.take(k - 1));
        let before = all_outputs(nodes, (k - 1) as nat);
        let now = all_outputs(nodes, k);
        assert forall|j: int| 0 <= j < now.len() implies (#[trigger] now[j]).name() == produced(
            nodes.take(k as int),
        )[j].0 by {
            if j < before.len() {
                assert(now[j] == before[j]);
            }
        }
    }
}

/// Enters the outputs, or else the inputs, of a node.
fn book_node(
    table: &PortTable,
    index: usize,
    outgoing: bool,
    edges: &mut Vec<GraphPlanEdge>,
    edge_by_name: &mut TextMap<usize>,
    Ghost(ms): Ghost<Seq<Mention>>,
)
    requires
        booked(old(edges)@, old(edge_by_name)@, ms),
    ensures
        booked(
            final(edges)@,
            final(edge_by_name)@,
            ms + (if outgoing {
                outputs_of(port_names(table@), index)
            } else {
                inputs_of(port_names(table@), index)
            }),
        ),
{
    let names = table.names();
    let ghost own = if outgoing {
        outputs_of(port_names(table@), index)
    } else {
        inputs_of(port_names(table@), index)
    };
    assert(ms + own.take(0) =~= ms);
    for k in 0..names.len()
        invariant
            texts(names@) == port_names(table@),
            own == (if outgoing {
                outputs_of(port_names(table@), index)
            } else {
                inputs_of(port_names(table@), index)
            }),
            own.len() == names@.len(),
            booked(edges@, edge_by_name@, ms + own.take(k as int)),
    {
        let ghost now = ms + own.take(k as int);
        proof {
            assert(texts(names@)[k as int] == names@[k as int]@);
            assert(own.take(k + 1) =~= own.take(k as int).push(own[k as int]));
            assert(ms + own.take(k + 1) =~= now.push(own[k as int]));
        }
        if outgoing {
            enter_output(names[k].as_str(), index, edges, edge_by_name, Ghost(now));
        } else {
            enter_input(names[k].as_str(), index, k, edges, edge_by_name, Ghost(now));
        }
    }
    assert(own.take(own.len() as int) =~= own);
}

/// Wires a graph, or refuses it with the first thing that is wrong. What is
/// warned about goes into the log either way.
#[verifier::rlimit(40)]
pub fn wire(config: &GraphConfig, lines: &mut Vec<LogLine>) -> (r: Result<Wiring, Error>)
    ensures
        line_views(final(lines)@) == wiring_log(line_views(old(lines)@), config@),
        match wiring_problem(config@) {
            Some(e) => r matches Err(x) && x@ == e,
            None => {
                &&& r matches Ok(w) && w@ == wired(config@) && tables_of(w.tables@, config@.nodes)
                &&& !cyclic(adjacency(config@.nodes.len(), edge_links(wired(config@).edges)))
                &&& can_be_ordered(
                    adjacency(config@.nodes.len(), edge_links(wired(config@).edges)),
                )
            },
        },
{
    let ghost g = config@;
    let ghost n = g.nodes.len();
    let inputs = read_sources(&config.input_ports)?;
    let ports = wire_ports(&config.nodes, &inputs)?;
    assert(texts(ports.known@) =~= known_names(g));
    for i in 0..config.nodes.len()
        invariant
            g == config@,
            n == g.nodes.len(),
            texts(ports.known@) == known_names(g),
            tables_of(ports.tables@, g.nodes),
            sources_problem(g.input_ports) is None,
            all_wired_ports_problem(n, declared_names(g.input_ports), g.nodes) is None,
            all_feed_problem(i as nat, g.nodes, known_names(g)) is None,
            forall|k: int|
                0 <= k < i ==> declared_names((#[trigger] g.nodes[k]).input_ports).len()
                    <= usize::MAX,
    {
        assert(g.nodes[i as int] == config.nodes@[i as int]@);
        let count: usize = ports.tables[i].inputs.len();
        assert(declared_names(g.nodes[i as int].input_ports).len() == count);
        match check_feed(&config.nodes[i], i, &ports.tables[i].inputs, &ports.known) {
            Ok(()) => {},
            Err(e) => {
                proof {
                    lemma_feed_prefix((i + 1) as nat, n, g.nodes, known_names(g));
                }
                return Err(e);
            },
        }
    }
    let outputs = read_sinks(&config.output_ports, &ports.known)?;

    let ghost ins = sources(declared_names(g.input_ports));
    let ghost rest = all_outputs(g.nodes, n) + all_inputs(g.nodes, n);
    let ghost ms = places(g);
    assert(ms =~= ins + rest);
    let sources_booked = book_inputs(&inputs, Ghost(rest));
    let mut edges = sources_booked.edges;
    let mut edge_by_name = sources_booked.edge_by_name;
    assert(ins + all_outputs(g.nodes, 0) =~= ins);
    for i in 0..config.nodes.len()
        invariant
            g == config@,
            n == g.nodes.len(),
            tables_of(ports.tables@, g.nodes),
            booked(edges@, edge_by_name@, ins + all_outputs(g.nodes, i as nat)),
    {
        let ghost done = ins + all_outputs(g.nodes, i as nat);
        assert(ports.tables@[i as int].outputs@.len() >= 0);
        book_node(
            &ports.tables[i].outputs,
            i,
            true,
            &mut edges,
            &mut edge_by_name,
            Ghost(done),
        );
        assert(ins + all_outputs(g.nodes, (i + 1) as nat) =~= done + outputs_of(
            declared_names(g.nodes[i as int].output_ports),
            i,
        ));
    }
    let ghost front = ins + all_outputs(g.nodes, n);
    assert(front + all_inputs(g.nodes, 0) =~= front);
    for i in 0..config.nodes.len()
        invariant
            g == config@,
            n == g.nodes.len(),
            tables_of(ports.tables@, g.nodes),
            booked(edges@, edge_by_name@, front + all_inputs(g.nodes, i as nat)),
    {
        let ghost done = front + all_inputs(g.nodes, i as nat);
        assert(ports.tables@[i as int].inputs@.len() >= 0);
        book_node(
            &ports.tables[i].inputs,
            i,
            false,
            &mut edges,
            &mut edge_by_name,
            Ghost(done),
        );
        assert(front + all_inputs(g.nodes, (i + 1) as nat) =~= done + inputs_of(
            declared_names(g.nodes[i as int].input_ports),
            i,
        ));
    }
    let ghost outs = declared_names(g.output_ports);
    proof {
        lemma_known_are_edges(g);
        assert forall|j: int| 0 <= j < texts(outputs@).len() implies edge_names(ms).contains(
            #[trigger] texts(outputs@)[j],
        ) by {
            assert(texts(outputs@)[j] == outputs@[j]@);
            let k = known_names(g).index_of(outputs@[j]@);
            assert(known_names(g)[k] == outputs@[j]@);
        }
    }
    let (graph_outputs, output_by_name) = book_outputs(
        &outputs,
        &mut edges,
        &edge_by_name,
        Ghost(ms),
    );
    proof {
        assert(config.nodes@.len() == config.nodes.len());
        wired_edges_within(g, outs);
    }
    let warnings = warn_unread(&edges, &config.nodes);
    log_warnings(lines, &warnings);
    check_acyclic(&edges, &config.nodes)?;
    let executors = read_executors(&config.executors)?;
    check_executors(&config.nodes, &executors)?;
    check_groups(&config.nodes)?;
    Ok(
        Wiring {
            tables: ports.tables,
            edges,
            graph_inputs: sources_booked.numbers,
            graph_outputs,
            input_by_name: sources_booked.by_name,
            output_by_name,
            edge_by_name,
        },
    )
}

// ------------------------------------------------------------------- the laws

/// Every output port of a node is an edge.
pub proof fn outputs_are_edges(g: GraphView, i: int)
    requires
        0 <= i < g.nodes.len(),
    ensures
        forall|j: int|
            0 <= j < declared_names(g.nodes[i].output_ports).len() ==> edge_names(
                places(g),
            ).contains(#[trigger] declared_names(g.nodes[i].output_ports)[j]),
{
    let ms = places(g);
    let own = declared_names(g.nodes[i].output_ports);
    let ins = sources(declared_names(g.input_ports));
    edge_names_distinct(ms);
    lemma_output_place(g.nodes, g.nodes.len(), i);
    assert forall|j: int| 0 <= j < own.len() implies edge_names(ms).contains(
        #[trigger] own[j],
    ) by {
        let at = all_outputs(g.nodes, i as nat).len() + j;
        let places_of = outputs_of(own, i as usize);
        assert(all_outputs(g.nodes, g.nodes.len())[at] == places_of[j]);
        assert(ms[ins.len() + at] == places_of[j]);
    }
}

proof fn lemma_output_place(nodes: Seq<NodeView>, k: nat, i: int)
    requires
        0 <= i < k <= nodes.len(),
    ensures
        ({
            let own = outputs_of(declared_names(nodes[i].output_ports), i as usize);
            let start = all_outputs(nodes, i as nat).len();
            &&& start + own.len() <= all_outputs(nodes, k).len()
            &&& forall|j: int|
                0 <= j < own.len() ==> all_outputs(nodes, k)[start + j] == #[trigger] own[j]
        }),
    decreases k,
{
    let own = outputs_of(declared_names(nodes[i].output_ports), i as usize);
    let start = all_outputs(nodes, i as nat).len();
    if i < k - 1 {
        lemma_output_place(nodes, (k - 1) as nat, i);
        let before = all_outputs(nodes, (k - 1) as nat);
        assert forall|j: int| 0 <= j < own.len() implies all_outputs(nodes, k)[start + j]
            == #[trigger] own[j] by {
            assert(before[start + j] == own[j]);
        }
    }
}

/// Every input port of a node is an edge.
pub proof fn inputs_are_edges(g: GraphView, i: int)
    requires
        0 <= i < g.nodes.len(),
    ensures
        forall|j: int|
            0 <= j < declared_names(g.nodes[i].input_ports).len() ==> edge_names(
                places(g),
            ).contains(#[trigger] declared_names(g.nodes[i].input_ports)[j]),
{
    let ms = places(g);
    let own = declared_names(g.nodes[i].input_ports);
    let front = sources(declared_names(g.input_ports)) + all_outputs(g.nodes, g.nodes.len());
    edge_names_distinct(ms);
    lemma_input_place(g.nodes, g.nodes.len(), i);
    assert forall|j: int| 0 <= j < own.len() implies edge_names(ms).contains(
        #[trigger] own[j],
    ) by {
        let at = all_inputs(g.nodes, i as nat).len() + j;
        let places_of = inputs_of(own, i as usize);
        assert(all_inputs(g.nodes, g.nodes.len())[at] == places_of[j]);
        assert(ms[front.len() + at] == places_of[j]);
    }
}

proof fn lemma_input_place(nodes: Seq<NodeView>, k: nat, i: int)
    requires
        0 <= i < k <= nodes.len(),
    ensures
        ({
            let own = inputs_of(declared_names(nodes[i].input_ports), i as usize);
            let start = all_inputs(nodes, i as nat).len();
            &&& start + own.len() <= all_inputs(nodes, k).len()
            &&& forall|j: int|
                0 <= j < own.len() ==> all_inputs(nodes, k)[start + j] == #[trigger] own[j]
        }),
    decreases k,
{
    let own = inputs_of(declared_names(nodes[i].input_ports), i as usize);
    let start = all_inputs(nodes, i as nat).len();
    if i < k - 1 {
        lemma_input_place(nodes, (k - 1) as nat, i);
        let before = all_inputs(nodes, (k - 1) as nat);
        assert forall|j: int| 0 <= j < own.len() implies all_inputs(nodes, k)[start + j]
            == #[trigger] own[j] by {
            assert(before[start + j] == own[j]);
        }
    }
}

/// Every graph output of a graph that can be wired is an edge.
pub proof fn sinks_are_edges(g: GraphView)
    requires
        wiring_problem(g) is None,
    ensures
        forall|j: int|
            0 <= j < declared_names(g.output_ports).len() ==> edge_names(places(g)).contains(
                #[trigger] declared_names(g.output_ports)[j],
            ),
{
    let outs = declared_names(g.output_ports);
    lemma_known_are_edges(g);
    lemma_sinks_known(g.output_ports, known_names(g));
    assert forall|j: int| 0 <= j < outs.len() implies edge_names(places(g)).contains(
        #[trigger] outs[j],
    ) by {
        let k = known_names(g).index_of(outs[j]);
        assert(known_names(g)[k] == outs[j]);
    }
}

proof fn lemma_sinks_known(decls: Seq<Seq<char>>, known: Seq<Seq<char>>)
    requires
        sinks_problem(decls, known) is None,
    ensures
        port_list(decls) is Ok,
        forall|j: int|
            0 <= j < declared_names(decls).len() ==> known.contains(
                #[trigger] declared_names(decls)[j],
            ),
    decreases decls.len(),
{
    if decls.len() > 0 {
        lemma_sinks_known(decls.drop_last(), known);
        let before = declared_names(decls.drop_last());
        assert forall|j: int| 0 <= j < declared_names(decls).len() implies known.contains(
            #[trigger] declared_names(decls)[j],
        ) by {
            if j < before.len() {
                assert(declared_names(decls)[j] == before[j]);
            }
        }
    }
}

/// Places that name no output of that name say nothing of its producer.
pub proof fn lemma_producer_skips(a: Seq<Mention>, b: Seq<Mention>, name: Seq<char>)
    requires
        forall|j: int|
            0 <= j < b.len() ==> !(#[trigger] b[j] matches Mention::Output(n, _) && n == name),
    ensures
        producer_of(a + b, name) == producer_of(a, name),
    decreases b.len(),
{
    if b.len() == 0 {
        assert(a + b =~= a);
    } else {
        let front = b.drop_last();
        assert forall|j: int| 0 <= j < front.len() implies !(
        #[trigger] front[j] matches Mention::Output(n, _) && n == name) by {
            assert(front[j] == b[j]);
        }
        lemma_producer_skips(a, front, name);
        assert((a + b).drop_last() =~= a + front);
        assert((a + b).last() == b[b.len() - 1]);
    }
}

/// A node that names an output last is its producer.
pub proof fn lemma_producer_own(a: Seq<Mention>, names: Seq<Seq<char>>, index: usize, j: int)
    requires
        0 <= j < names.len(),
    ensures
        producer_of(a + outputs_of(names, index), names[j]) == Some(index),
    decreases names.len(),
{
    let b = outputs_of(names, index);
    assert((a + b).last() == Mention::Output(names.last(), index));
    if names.last() != names[j] {
        assert(outputs_of(names, index).drop_last() =~= outputs_of(names.drop_last(), index));
        assert((a + b).drop_last() =~= a + outputs_of(names.drop_last(), index));
        lemma_producer_own(a, names.drop_last(), index, j);
    }
}

proof fn lemma_maker_at(
    names: Seq<Seq<char>>,
    index: usize,
    inputs: Seq<Seq<char>>,
    nodes: Seq<NodeView>,
    t: int,
)
    requires
        makers_problem(names, index, inputs, nodes) is None,
        0 <= t < names.len(),
    ensures
        !names_in(produced(nodes.take(index as int))).contains(names[t]),
    decreases names.len(),
{
    if t < names.len() - 1 {
        lemma_maker_at(names.drop_last(), index, inputs, nodes, t);
    } else {
        let earlier = produced(nodes.take(index as int));
        let pairs = earlier + own_outputs(names.drop_last(), index);
        producers_from_list(pairs, names[t]);
        if names_in(earlier).contains(names[t]) {
            let k = names_in(earlier).index_of(names[t]);
            assert(names_in(pairs)[k] == names[t]);
        }
    }
}

proof fn lemma_single_producer(nodes: Seq<NodeView>, inputs: Seq<Seq<char>>, k: nat, i: int, j: int)
    requires
        k <= nodes.len() <= usize::MAX,
        all_wired_ports_problem(k, inputs, nodes) is None,
        0 <= i < k,
        0 <= j < declared_names(nodes[i].output_ports).len(),
    ensures
        producer_of(
            all_outputs(nodes, k),
            declared_names(nodes[i].output_ports)[j],
        ) == Some(i as usize),
        names_in(produced(nodes.take(k as int))).contains(
            declared_names(nodes[i].output_ports)[j],
        ),
    decreases k,
{
    let name = declared_names(nodes[i].output_ports)[j];
    let before = all_outputs(nodes, (k - 1) as nat);
    let own = declared_names(nodes[k - 1].output_ports);
    let pairs = produced(nodes.take(k as int));
    assert(nodes.take(k as int).drop_last() =~= nodes.take(k - 1));
    let earlier = produced(nodes.take(k - 1));
    assert(pairs == earlier + own_outputs(own, (k - 1) as usize));
    if i == k - 1 {
        lemma_producer_own(before, own, (k - 1) as usize, j);
        assert(names_in(pairs)[earlier.len() + j] == name);
    } else {
        lemma_single_producer(nodes, inputs, (k - 1) as nat, i, j);
        let at = names_in(earlier).index_of(name);
        assert(names_in(pairs)[at] == name);
        assert(wired_ports_problem((k - 1) as usize, inputs, nodes) is None);
        let more = outputs_of(own, (k - 1) as usize);
        assert forall|t: int| 0 <= t < more.len() implies !(
        #[trigger] more[t] matches Mention::Output(n, _) && n == name) by {
            lemma_maker_at(own, (k - 1) as usize, inputs, nodes, t);
        }
        lemma_producer_skips(before, more, name);
    }
}

proof fn lemma_makers_differ(
    names: Seq<Seq<char>>,
    index: usize,
    inputs: Seq<Seq<char>>,
    nodes: Seq<NodeView>,
)
    requires
        makers_problem(names, index, inputs, nodes) is None,
    ensures
        names.no_duplicates(),
    decreases names.len(),
{
    if names.len() > 0 {
        let front = names.drop_last();
        lemma_makers_differ(front, index, inputs, nodes);
        let earlier = produced(nodes.take(index as int));
        let pairs = earlier + own_outputs(front, index);
        producers_from_list(pairs, names.last());
        assert forall|a: int, b: int| 0 <= a < b < names.len() implies names[a] != names[b] by {
            assert(names[a] == front[a]);
            if b < front.len() {
                assert(names[b] == front[b]);
            } else if names[a] == names[b] {
                assert(names_in(pairs)[earlier.len() + a] == names.last());
            }
        }
    }
}

proof fn lemma_outputs_differ(nodes: Seq<NodeView>, inputs: Seq<Seq<char>>, k: nat, i: int)
    requires
        0 <= i < k <= nodes.len() <= usize::MAX,
        all_wired_ports_problem(k, inputs, nodes) is None,
    ensures
        declared_names(nodes[i].output_ports).no_duplicates(),
    decreases k,
{
    if i < k - 1 {
        lemma_outputs_differ(nodes, inputs, (k - 1) as nat, i);
    } else {
        lemma_makers_differ(
            declared_names(nodes[i].output_ports),
            (k - 1) as usize,
            inputs,
            nodes,
        );
    }
}

/// In a graph that can be wired no node has two output ports of one name.
pub proof fn output_names_are_distinct(g: GraphView, i: int)
    requires
        wiring_problem(g) is None,
        g.nodes.len() <= usize::MAX,
        0 <= i < g.nodes.len(),
    ensures
        declared_names(g.nodes[i].output_ports).no_duplicates(),
{
    lemma_outputs_differ(g.nodes, declared_names(g.input_ports), g.nodes.len(), i);
}

/// In a graph that can be wired every output port of a node is produced by
/// that node alone.
pub proof fn single_producer(g: GraphView, i: int, j: int)
    requires
        wiring_problem(g) is None,
        g.nodes.len() <= usize::MAX,
        0 <= i < g.nodes.len(),
        0 <= j < declared_names(g.nodes[i].output_ports).len(),
    ensures
        producer_of(places(g), declared_names(g.nodes[i].output_ports)[j]) == Some(i as usize),
{
    let n = g.nodes.len();
    let name = declared_names(g.nodes[i].output_ports)[j];
    let ins = sources(declared_names(g.input_ports));
    let outs = all_outputs(g.nodes, n);
    let rest = all_inputs(g.nodes, n);
    lemma_single_producer(g.nodes, declared_names(g.input_ports), n, i, j);
    lemma_inputs_are_inputs(g.nodes, n);
    lemma_producer_skips(ins + outs, rest, name);
    lemma_producer_front(ins, outs, name);
}

proof fn lemma_inputs_are_inputs(nodes: Seq<NodeView>, k: nat)
    requires
        k <= nodes.len(),
    ensures
        forall|j: int|
            0 <= j < all_inputs(nodes, k).len() ==> #[trigger] all_inputs(nodes, k)[j] is Input,
    decreases k,
{
    if k > 0 {
        lemma_inputs_are_inputs(nodes, (k - 1) as nat);
        let before = all_inputs(nodes, (k - 1) as nat);
        assert forall|j: int| 0 <= j < all_inputs(nodes, k).len() implies #[trigger] all_inputs(
            nodes,
            k,
        )[j] is Input by {
            if j < before.len() {
                assert(all_inputs(nodes, k)[j] == before[j]);
            }
        }
    }
}

/// What stands in front does not hide a producer.
proof fn lemma_producer_front(a: Seq<Mention>, b: Seq<Mention>, name: Seq<char>)
    requires
        producer_of(b, name) is Some,
    ensures
        producer_of(a + b, name) == producer_of(b, name),
    decreases b.len(),
{
    assert(b.len() > 0);
    assert((a + b).last() == b.last());
    assert((a + b).drop_last() =~= a + b.drop_last());
    if !(b.last() matches Mention::Output(n, _) && n == name) {
        lemma_producer_front(a, b.drop_last(), name);
    }
}

/// A link that is listed leads from its producer to its consumer.
proof fn lemma_targets_hold(links: Seq<(usize, usize)>, k: int)
    requires
        0 <= k < links.len(),
    ensures
        targets(links, links[k].0).contains(links[k].1),
    decreases links.len(),
{
    let front = links.drop_last();
    let u = links[k].0;
    let v = links[k].1;
    if k == links.len() - 1 {
        let t = targets(front, u).push(v);
        assert(t[t.len() - 1] == v);
    } else {
        assert(front[k] == links[k]);
        lemma_targets_hold(front, k);
        let j = targets(front, u).index_of(v);
        assert(targets(links, u)[j] == v);
    }
}

proof fn lemma_links_hold(edges: Seq<PlanEdgeView>, e: int, c: int)
    requires
        0 <= e < edges.len(),
        edges[e].producer is Some,
        0 <= c < edges[e].consumers.len(),
    ensures
        edge_links(edges).contains((edges[e].producer->Some_0, edges[e].consumers[c])),
    decreases edges.len(),
{
    let link = (edges[e].producer->Some_0, edges[e].consumers[c]);
    let before = edge_links(edges.drop_last());
    if e == edges.len() - 1 {
        assert(edge_links(edges)[before.len() + c] == link);
    } else {
        assert(edges.drop_last()[e] == edges[e]);
        lemma_links_hold(edges.drop_last(), e, c);
        let k = before.index_of(link);
        assert(edge_links(edges)[k] == link);
    }
}

/// In a graph without a cycle no node reads what it produces.
pub proof fn no_node_feeds_itself(g: GraphView, outs: Seq<Seq<char>>, e: int, c: int)
    requires
        !cyclic(adjacency(g.nodes.len(), edge_links(edges_of(places(g), outs)))),
        edges_within(edges_of(places(g), outs), g.nodes.len()),
        0 <= e < edges_of(places(g), outs).len(),
        edges_of(places(g), outs)[e].producer is Some,
        0 <= c < edges_of(places(g), outs)[e].consumers.len(),
    ensures
        edges_of(places(g), outs)[e].consumers[c] != edges_of(places(
            g,
        ), outs)[e].producer->Some_0,
{
    let edges = edges_of(places(g), outs);
    let links = edge_links(edges);
    let adj = adjacency(g.nodes.len(), links);
    let u = edges[e].producer->Some_0;
    if edges[e].consumers[c] == u {
        lemma_links_hold(edges, e, c);
        let k = links.index_of((u, u));
        assert(links[k] == (u, u));
        lemma_targets_hold(links, k);
        assert(u < g.nodes.len());
        assert(adj[u as int] == targets(links, u));
        assert(has_edge(adj, u, u));
        let path = seq![u, u];
        assert forall|i: int| 0 <= i < path.len() - 1 implies has_edge(
            adj,
            #[trigger] path[i],
            path[i + 1],
        ) by {}
        assert(is_walk(adj, path));
        assert(path[0] == path.last());
        assert(cyclic(adj));
    }
}

/// The consumers that two lists of places name are those of the first, then
/// those of the second.
proof fn lemma_consumers_concat(a: Seq<Mention>, b: Seq<Mention>, name: Seq<char>)
    ensures
        consumers_of(a + b, name) == consumers_of(a, name) + consumers_of(b, name),
    decreases b.len(),
{
    if b.len() == 0 {
        assert(a + b =~= a);
        assert(consumers_of(a, name) + consumers_of(b, name) =~= consumers_of(a, name));
    } else {
        lemma_consumers_concat(a, b.drop_last(), name);
        assert((a + b).drop_last() =~= a + b.drop_last());
        assert((a + b).last() == b.last());
        assert(consumers_of(a + b, name) =~= consumers_of(a, name) + consumers_of(b, name));
    }
}

proof fn lemma_no_consumers(ms: Seq<Mention>, name: Seq<char>)
    requires
        forall|j: int| 0 <= j < ms.len() ==> !(#[trigger] ms[j] is Input),
    ensures
        consumers_of(ms, name) == Seq::<(usize, usize)>::empty(),
    decreases ms.len(),
{
    if ms.len() > 0 {
        assert(ms[ms.len() - 1] == ms.last());
        assert forall|j: int| 0 <= j < ms.drop_last().len() implies !(
        #[trigger] ms.drop_last()[j] is Input) by {
            assert(ms.drop_last()[j] == ms[j]);
        }
        lemma_no_consumers(ms.drop_last(), name);
    }
}

/// The ports of one node that read a name rise.
proof fn lemma_own_consumers(names: Seq<Seq<char>>, index: usize, name: Seq<char>)
    requires
        names.len() <= usize::MAX,
    ensures
        forall|a: int|
            0 <= a < consumers_of(inputs_of(names, index), name).len() ==> (
            #[trigger] consumers_of(inputs_of(names, index), name)[a]).0 == index
                && consumers_of(inputs_of(names, index), name)[a].1 < names.len(),
        consumers_of(inputs_of(names, index), name).no_duplicates(),
    decreases names.len(),
{
    if names.len() > 0 {
        lemma_own_consumers(names.drop_last(), index, name);
        assert(inputs_of(names, index).drop_last() =~= inputs_of(names.drop_last(), index));
    }
}

proof fn lemma_all_consumers(nodes: Seq<NodeView>, k: nat, name: Seq<char>)
    requires
        k <= nodes.len() <= usize::MAX,
        forall|i: int|
            0 <= i < nodes.len() ==> declared_names(
                (#[trigger] nodes[i]).input_ports,
            ).len() <= usize::MAX,
    ensures
        forall|a: int|
            0 <= a < consumers_of(all_inputs(nodes, k), name).len() ==> (
            #[trigger] consumers_of(all_inputs(nodes, k), name)[a]).0 < k,
        consumers_of(all_inputs(nodes, k), name).no_duplicates(),
    decreases k,
{
    if k > 0 {
        lemma_all_consumers(nodes, (k - 1) as nat, name);
        let own = declared_names(nodes[k - 1].input_ports);
        let before = all_inputs(nodes, (k - 1) as nat);
        let more = inputs_of(own, (k - 1) as usize);
        lemma_own_consumers(own, (k - 1) as usize, name);
        lemma_consumers_concat(before, more, name);
        let a = consumers_of(before, name);
        let b = consumers_of(more, name);
        let all = consumers_of(all_inputs(nodes, k), name);
        assert forall|i: int, j: int| 0 <= i < j < all.len() implies all[i] != all[j] by {
            if j < a.len() {
                assert(a[i] != a[j]);
            } else if i >= a.len() {
                assert(b[i - a.len()] != b[j - a.len()]);
            } else {
                assert(a[i].0 < k - 1);
                assert(b[j - a.len()].0 == k - 1);
            }
        }
        assert forall|i: int| 0 <= i < all.len() implies (#[trigger] all[i]).0 < k by {
            if i < a.len() {
                assert(a[i].0 < k - 1);
            } else {
                assert(b[i - a.len()].0 == k - 1);
            }
        }
    }
}

/// No input port is listed twice among those that read an edge.
pub proof fn consumers_are_distinct(g: GraphView, name: Seq<char>)
    requires
        g.nodes.len() <= usize::MAX,
        forall|i: int|
            0 <= i < g.nodes.len() ==> declared_names(
                (#[trigger] g.nodes[i]).input_ports,
            ).len() <= usize::MAX,
    ensures
        consumers_of(places(g), name).no_duplicates(),
{
    let n = g.nodes.len();
    let ins = sources(declared_names(g.input_ports));
    let outs = all_outputs(g.nodes, n);
    lemma_outputs_within(g.nodes, n);
    assert forall|j: int| 0 <= j < (ins + outs).len() implies !(
    #[trigger] (ins + outs)[j] is Input) by {
        if j >= ins.len() {
            assert((ins + outs)[j] == outs[j - ins.len()]);
        }
    }
    lemma_no_consumers(ins + outs, name);
    lemma_all_consumers(g.nodes, n, name);
    lemma_consumers_concat(ins + outs, all_inputs(g.nodes, n), name);
    assert(consumers_of(places(g), name) =~= consumers_of(all_inputs(g.nodes, n), name));
}

/// Who reads an edge is listed among its consumers.
pub proof fn readers_are_listed(g: GraphView, i: int, j: int)
    requires
        0 <= i < g.nodes.len(),
        0 <= j < declared_names(g.nodes[i].input_ports).len(),
    ensures
        consumers_of(places(g), declared_names(g.nodes[i].input_ports)[j]).contains(
            (i as usize, j as usize),
        ),
{
    let ms = places(g);
    let own = inputs_of(declared_names(g.nodes[i].input_ports), i as usize);
    let front = sources(declared_names(g.input_ports)) + all_outputs(g.nodes, g.nodes.len());
    let at = all_inputs(g.nodes, i as nat).len() + j;
    lemma_input_place(g.nodes, g.nodes.len(), i);
    assert(all_inputs(g.nodes, g.nodes.len())[at] == own[j]);
    assert(ms[front.len() + at] == own[j]);
    lemma_listed(ms, (front.len() + at) as int);
}

proof fn lemma_listed(ms: Seq<Mention>, t: int)
    requires
        0 <= t < ms.len(),
        ms[t] is Input,
    ensures
        consumers_of(ms, ms[t]->Input_0).contains((ms[t]->Input_1, ms[t]->Input_2)),
    decreases ms.len(),
{
    let (name, node, port) = (ms[t]->Input_0, ms[t]->Input_1, ms[t]->Input_2);
    let front = ms.drop_last();
    let all = consumers_of(ms, name);
    if t == ms.len() - 1 {
        assert(all[all.len() - 1] == (node, port));
    } else {
        assert(front[t] == ms[t]);
        lemma_listed(front, t);
        let c = consumers_of(front, name).index_of((node, port));
        assert(all[c] == (node, port));
    }
}

/// Whether a node has an output of a name.
pub open spec fn puts_out(g: GraphView, n: int, o: int, name: Seq<char>) -> bool {
    &&& 0 <= n < g.nodes.len()
    &&& 0 <= o < declared_names(g.nodes[n].output_ports).len()
    &&& declared_names(g.nodes[n].output_ports)[o] == name
}

/// What a node reads is a graph input or an output of a node.
pub proof fn inputs_are_fed(g: GraphView, i: int, j: int)
    requires
        wiring_problem(g) is None,
        0 <= i < g.nodes.len(),
        0 <= j < declared_names(g.nodes[i].input_ports).len(),
    ensures
        ({
            let name = declared_names(g.nodes[i].input_ports)[j];
            ||| declared_names(g.input_ports).contains(name)
            ||| exists|n: int, o: int| puts_out(g, n, o, name)
        }),
{
    let names = declared_names(g.nodes[i].input_ports);
    let name = names[j];
    let ins = declared_names(g.input_ports);
    lemma_fed(g.nodes, known_names(g), g.nodes.len(), i);
    lemma_not_dangling(names, known_names(g), g.nodes[i].numbered_label(i as nat), j);
    let t = known_names(g).index_of(name);
    assert(known_names(g)[t] == name);
    if t < ins.len() {
        assert(ins[t] == name);
    } else {
        let outs = all_outputs(g.nodes, g.nodes.len());
        lemma_outputs_are_produced(g.nodes, g.nodes.len());
        assert(g.nodes.take(g.nodes.len() as int) =~= g.nodes);
        let u = t - ins.len();
        assert(outs[u].name() == produced(g.nodes)[u].0);
        lemma_put_out(g, g.nodes.len(), u);
    }
}

proof fn lemma_fed(nodes: Seq<NodeView>, known: Seq<Seq<char>>, k: nat, i: int)
    requires
        all_feed_problem(k, nodes, known) is None,
        0 <= i < k <= nodes.len(),
    ensures
        feed_problem(nodes[i], i as nat, known) is None,
    decreases k,
{
    if i < k - 1 {
        lemma_fed(nodes, known, (k - 1) as nat, i);
    }
}

proof fn lemma_not_dangling(
    names: Seq<Seq<char>>,
    known: Seq<Seq<char>>,
    who: Seq<char>,
    j: int,
)
    requires
        dangling(names, known, who) is None,
        0 <= j < names.len(),
    ensures
        known.contains(names[j]),
    decreases names.len(),
{
    if j < names.len() - 1 {
        lemma_not_dangling(names.drop_last(), known, who, j);
    }
}

proof fn lemma_put_out(g: GraphView, k: nat, u: int)
    requires
        k <= g.nodes.len(),
        0 <= u < all_outputs(g.nodes, k).len(),
    ensures
        exists|n: int, o: int| puts_out(g, n, o, all_outputs(g.nodes, k)[u].name()),
    decreases k,
{
    let before = all_outputs(g.nodes, (k - 1) as nat);
    if u < before.len() {
        lemma_put_out(g, (k - 1) as nat, u);
    } else {
        assert(puts_out(g, k - 1, u - before.len(), all_outputs(g.nodes, k)[u].name()));
    }
}

/// In a graph that can be wired a node stands behind those who read what it
/// produces, in one order for all.
pub proof fn wired_nodes_have_an_order(g: GraphView, order: Seq<usize>, i: int, j: int, c: int)
    requires
        wiring_problem(g) is None,
        g.nodes.len() <= usize::MAX,
        edges_within(wired(g).edges, g.nodes.len()),
        successors_first(
            adjacency(g.nodes.len(), edge_links(wired(g).edges)),
            order,
        ),
        0 <= i < g.nodes.len(),
        0 <= j < declared_names(g.nodes[i].output_ports).len(),
        0 <= c < consumers_of(places(g), declared_names(g.nodes[i].output_ports)[j]).len(),
    ensures
        ({
            let reader =
                consumers_of(places(g), declared_names(g.nodes[i].output_ports)[j])[c].0;
            order.contains(i as usize) && order.contains(reader) && order.index_of(reader)
                < order.index_of(i as usize)
        }),
{
    let ms = places(g);
    let edges = wired(g).edges;
    let links = edge_links(edges);
    let adj = adjacency(g.nodes.len(), links);
    let name = declared_names(g.nodes[i].output_ports)[j];
    let reader = consumers_of(ms, name)[c].0;
    edge_names_distinct(ms);
    outputs_are_edges(g, i);
    assert(edge_names(ms).contains(name));
    let e = edge_names(ms).index_of(name);
    assert(edge_names(ms)[e] == name);
    single_producer(g, i, j);
    assert(edges[e].producer == Some(i as usize));
    assert(edges[e].consumers[c] == reader);
    lemma_links_hold(edges, e, c);
    let k = links.index_of((i as usize, reader));
    assert(links[k] == (i as usize, reader));
    lemma_targets_hold(links, k);
    assert(adj[i] == targets(links, i as usize));
    let t = adj[i].index_of(reader);
    assert(adj[i][t] == reader);
    assert(order.contains(i as usize));
    let p = order.index_of(i as usize);
    assert(order[p] == i as usize);
    assert(order.take(p).contains(adj[order[p] as int][t]));
    let q = order.take(p).index_of(reader);
    assert(order.take(p)[q] == reader);
    assert(order[q] == reader);
    assert(order.contains(reader));
    let r = order.index_of(reader);
    assert(order[r] == reader);
    assert(q == r);
}

/// In a graph that can be wired no output of a node is a graph input.
pub proof fn outputs_come_from_nodes(g: GraphView, i: int, j: int)
    requires
        wiring_problem(g) is None,
        g.nodes.len() <= usize::MAX,
        0 <= i < g.nodes.len(),
        0 <= j < declared_names(g.nodes[i].output_ports).len(),
    ensures
        !declared_names(g.input_ports).contains(declared_names(g.nodes[i].output_ports)[j]),
{
    let ins = declared_names(g.input_ports);
    lemma_ports_wired(g.nodes, ins, g.nodes.len(), i);
    lemma_no_clash(declared_names(g.nodes[i].output_ports), i as usize, ins, g.nodes, j);
}

proof fn lemma_ports_wired(nodes: Seq<NodeView>, inputs: Seq<Seq<char>>, k: nat, i: int)
    requires
        all_wired_ports_problem(k, inputs, nodes) is None,
        0 <= i < k <= nodes.len() <= usize::MAX,
    ensures
        wired_ports_problem(i as usize, inputs, nodes) is None,
    decreases k,
{
    if i < k - 1 {
        lemma_ports_wired(nodes, inputs, (k - 1) as nat, i);
    }
}

proof fn lemma_no_clash(
    names: Seq<Seq<char>>,
    index: usize,
    inputs: Seq<Seq<char>>,
    nodes: Seq<NodeView>,
    t: int,
)
    requires
        makers_problem(names, index, inputs, nodes) is None,
        0 <= t < names.len(),
    ensures
        !inputs.contains(names[t]),
    decreases names.len(),
{
    if t < names.len() - 1 {
        lemma_no_clash(names.drop_last(), index, inputs, nodes, t);
    }
}

} // verus!

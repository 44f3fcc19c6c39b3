//! How refusals, warnings and drawings name what they are about.

use crate::buffer::{elements, gathered, offset_of, BufferDescriptor, ValidatedBuffer};
use crate::config::{GraphView, NodeView, RouteMode, StatsLevel};
use crate::cycle::{closes_cycle, first_cycle, in_range, search_decides_cycles, Successors};
use crate::diagnostic::hint;
use crate::dot::{
    all_edge_lines, cluster, clusters, drawing, escaped, executor_kind, executor_text, node_lines,
    opening,
};
use crate::expand::arity_problem;
use crate::kernel_laws::mentions_text;
use crate::lifecycle::{built, ContractView};
use crate::packet::name_of_type;
use crate::plan::PlanView;
use crate::pool_laws::{element_number, elements_lie_at_their_coordinates, stride_sum};
use crate::port::{port_list, port_spec};
use crate::report::{node_warnings, route_warnings, DiagnosticView};
use crate::report_laws::{lemma_mentions_back, lemma_mentions_front};
use crate::run_state::{NodeSched, RunNode, RunView};
use crate::runtime::{logged, without_zero, LineView, LOG_WARN};
use crate::status::ErrorView;
use crate::summary::plan_summary;
use crate::text::decimal;
use crate::topology::{
    cycle_problem, declared_names, graph_inputs_problem, graph_outputs_problem, names_in,
    outputs_problem, own_outputs, produced, producers, producers_from_list, unconnected,
};
use crate::typing::{given_type, port_types_problem, type_at};
use crate::wiring::{dangling, loop_problem, makers_problem, sinks_problem, sources_problem, warned};
use vstd::prelude::*;

verus! {

// --------------------------------------------------------------------- ports

/// Whether a text is the first of a list that is not known.
pub open spec fn first_unknown(names: Seq<Seq<char>>, known: Seq<Seq<char>>, p: int) -> bool {
    &&& 0 <= p < names.len()
    &&& !known.contains(names[p])
    &&& forall|k: int| 0 <= k < p ==> known.contains(#[trigger] names[k])
}

/// A node with an input that nothing produces is refused for the first such
/// input, by its place and its name, with a name that may have been meant.
pub proof fn inputs_without_a_source_are_named(
    names: Seq<Seq<char>>,
    known: Seq<Seq<char>>,
    path: Seq<char>,
    p: int,
)
    requires
        first_unknown(names, known, p),
    ensures
        unconnected(names, known, path) == Some(
            ErrorView::InvalidArg(
                path + ".input_ports["@ + decimal(p as nat) + "]: port `"@ + names[p]
                    + "` has no producer"@ + hint(names[p], known),
            ),
        ),
        dangling(names, known, path) == Some(
            ErrorView::InvalidArg(
                "节点 `"@ + path + "` 的输入口 `"@ + names[p]
                    + "` 找不到生产者:既非图输入口,也无节点输出它"@,
            ),
        ),
    decreases names.len(),
{
    let front = names.drop_last();
    if p < front.len() {
        assert forall|k: int| 0 <= k < p implies known.contains(#[trigger] front[k]) by {
            assert(known.contains(names[k]));
        }
        assert(front[p] == names[p]);
        inputs_without_a_source_are_named(front, known, path, p);
    } else {
        assert forall|k: int| 0 <= k < front.len() implies known.contains(#[trigger] front[k]) by {
            assert(known.contains(names[k]));
        }
        lemma_all_known(front, known, path);
    }
}

proof fn lemma_all_known(names: Seq<Seq<char>>, known: Seq<Seq<char>>, path: Seq<char>)
    requires
        forall|k: int| 0 <= k < names.len() ==> known.contains(#[trigger] names[k]),
    ensures
        unconnected(names, known, path) is None,
        dangling(names, known, path) is None,
    decreases names.len(),
{
    if names.len() > 0 {
        let front = names.drop_last();
        assert forall|k: int| 0 <= k < front.len() implies known.contains(#[trigger] front[k]) by {
            assert(known.contains(names[k]));
        }
        lemma_all_known(front, known, path);
        assert(known.contains(names[names.len() - 1]));
    }
}

/// A graph input that is declared again is refused at the place where it is,
/// and so is one whose declaration is refused.
pub proof fn repeated_inputs_are_named(decls: Seq<Seq<char>>, more: Seq<char>)
    requires
        graph_inputs_problem(decls) is None,
        sources_problem(decls) is None,
    ensures
        ({
            let place = "input_ports["@ + decimal(decls.len()) + "]"@;
            let all = decls.push(more);
            &&& port_spec(more) matches Err(e) ==> graph_inputs_problem(all) == Some(e.at(place))
                && sources_problem(all) == Some(e)
            &&& port_spec(more) matches Ok(p) ==> (declared_names(decls).contains(p.name)
                ==> graph_inputs_problem(all) == Some(
                ErrorView::InvalidArg(
                    place + ": graph input port `"@ + p.name + "` is declared more than once"@,
                ),
            ) && sources_problem(all) == Some(
                ErrorView::InvalidArg("图输入口 `"@ + p.name + "` 重复声明"@),
            ))
        }),
{
    assert(decls.push(more).drop_last() =~= decls);
}

/// The first refusal stands, whatever else comes behind.
pub proof fn earlier_refusals_stand(
    decls: Seq<Seq<char>>,
    more: Seq<char>,
    known: Seq<Seq<char>>,
)
    ensures
        graph_inputs_problem(decls) is Some ==> graph_inputs_problem(decls.push(more))
            == graph_inputs_problem(decls),
        sources_problem(decls) is Some ==> sources_problem(decls.push(more)) == sources_problem(
            decls,
        ),
        graph_outputs_problem(decls, known) is Some ==> graph_outputs_problem(
            decls.push(more),
            known,
        ) == graph_outputs_problem(decls, known),
        sinks_problem(decls, known) is Some ==> sinks_problem(decls.push(more), known)
            == sinks_problem(decls, known),
{
    assert(decls.push(more).drop_last() =~= decls);
}

/// A graph output that nothing produces is refused at the place where it is, by
/// its name.
pub proof fn outputs_without_a_source_are_named(
    decls: Seq<Seq<char>>,
    more: Seq<char>,
    known: Seq<Seq<char>>,
)
    requires
        graph_outputs_problem(decls, known) is None,
        sinks_problem(decls, known) is None,
    ensures
        ({
            let place = "output_ports["@ + decimal(decls.len()) + "]"@;
            let all = decls.push(more);
            &&& port_spec(more) matches Err(e) ==> graph_outputs_problem(all, known) == Some(
                e.at(place),
            ) && sinks_problem(all, known) == Some(e)
            &&& port_spec(more) matches Ok(p) ==> (!known.contains(p.name)
                ==> graph_outputs_problem(all, known) == Some(
                ErrorView::InvalidArg(
                    place + ": graph output `"@ + p.name + "` has no producer"@ + hint(
                        p.name,
                        known,
                    ),
                ),
            ) && sinks_problem(all, known) == Some(
                ErrorView::InvalidArg("图输出口 `"@ + p.name + "` 没有任何节点产出它"@),
            ))
        }),
{
    assert(decls.push(more).drop_last() =~= decls);
}

/// An output that a graph input or an earlier output is called like is refused
/// by its name, and the refusal names the node, and the other one that produces
/// it.
pub proof fn second_producers_are_named(
    names: Seq<Seq<char>>,
    more: Seq<char>,
    index: usize,
    inputs: Seq<Seq<char>>,
    nodes: Seq<NodeView>,
    first: usize,
)
    requires
        index < nodes.len() <= usize::MAX,
        outputs_problem(names, index, inputs, nodes) is None,
        makers_problem(names, index, inputs, nodes) is None,
    ensures
        ({
            let all = names.push(more);
            let pairs = produced(nodes.take(index as int)) + own_outputs(names, index);
            let path = nodes[index as int].path(index as nat);
            let who = nodes[index as int].numbered_label(index as nat);
            &&& inputs.contains(more) ==> outputs_problem(all, index, inputs, nodes) == Some(
                ErrorView::InvalidArg(
                    path + ".output_ports: port `"@ + more + "` is also a graph input"@,
                ),
            ) && makers_problem(all, index, inputs, nodes) == Some(
                ErrorView::InvalidArg(
                    "端口名 `"@ + more + "` 既是图输入口又是节点 `"@ + who
                        + "` 的输出口 —— 名字冲突"@,
                ),
            )
            &&& !inputs.contains(more) && pairs.contains((more, first)) && (forall|m: usize|
                pairs.contains((more, m)) ==> m == first) ==> outputs_problem(
                all,
                index,
                inputs,
                nodes,
            ) == Some(
                ErrorView::InvalidArg(
                    path + ".output_ports: port `"@ + more + "` has multiple producers ("@
                        + nodes[first as int].path(first as nat) + " and "@ + path + ")"@,
                ),
            ) && makers_problem(all, index, inputs, nodes) == Some(
                ErrorView::InvalidArg(
                    "端口 `"@ + more + "` 有多个生产者:节点 `"@ + nodes[first as int].numbered_label(
                        first as nat,
                    ) + "` 与 `"@ + who + "`"@,
                ),
            )
        }),
{
    let all = names.push(more);
    assert(all.drop_last() =~= names);
    let pairs = produced(nodes.take(index as int)) + own_outputs(names, index);
    producers_from_list(pairs, more);
    if pairs.contains((more, first)) && (forall|m: usize|
        pairs.contains((more, m)) ==> m == first) {
        let k = pairs.index_of((more, first));
        assert(names_in(pairs)[k] == more);
        let found = producers(pairs)[more];
        let j = choose|j: int| 0 <= j < pairs.len() && #[trigger] pairs[j] == (more, found);
        assert(pairs.contains((more, found)));
    }
}

/// A graph with a cycle is refused by an edge that closes one: the node that the
/// edge leads to comes first, then the one that it comes from.
pub proof fn cycles_are_named(adj: Successors, nodes: Seq<NodeView>)
    requires
        in_range(adj),
        adj.len() <= usize::MAX,
        forall|u: int| 0 <= u < adj.len() ==> (#[trigger] adj[u]).len() <= usize::MAX,
    ensures
        cycle_problem(adj, nodes) is Some <==> loop_problem(adj, nodes) is Some,
        cycle_problem(adj, nodes) is Some ==> exists|u: usize, v: usize| #[trigger]
            closes_cycle(adj, u, v) && cycle_problem(adj, nodes) == Some(
                ErrorView::InvalidArg(
                    "topology cycle: node `"@ + nodes[v as int].numbered_label(v as nat)
                        + "` -> ... -> `"@ + nodes[u as int].numbered_label(u as nat)
                        + "`; mark a feedback input with `back_edges`"@,
                ),
            ) && loop_problem(adj, nodes) == Some(
                ErrorView::InvalidArg(
                    "拓扑成环:节点 `"@ + nodes[v as int].numbered_label(v as nat) + "` → … → `"@
                        + nodes[u as int].numbered_label(u as nat)
                        + "`(本版本不支持 back-edge,成环会死锁)"@,
                ),
            ),
{
    search_decides_cycles(adj);
    match first_cycle(adj) {
        Ok(_) => {},
        Err((u, v)) => {
            assert(closes_cycle(adj, u, v));
        },
    }
}

/// An instance is refused for the number of its ports exactly if it is not that
/// of its subgraph, and the refusal says both.
pub proof fn arities_are_named(subgraph: Seq<char>, which: Seq<char>, want: nat, got: nat)
    ensures
        arity_problem(subgraph, which, want, got) is None <==> want == got,
        want != got ==> arity_problem(subgraph, which, want, got) == Some(
            ErrorView::InvalidArg(
                "subgraph `"@ + subgraph + "`: instance provides "@ + decimal(got) + " "@ + which
                    + " port(s) but the subgraph declares "@ + decimal(want),
            ),
        ),
{
}

/// An input port whose type is not that of its producer is refused by its name,
/// with both types and the node that reads it.
pub proof fn type_conflicts_are_named(
    g: GraphView,
    contracts: Seq<ContractView>,
    names: Map<u64, Seq<char>>,
    r: int,
    k: nat,
)
    requires
        port_types_problem(g, contracts, names, r, k) is None,
    ensures
        ({
            let name = declared_names(g.nodes[r].input_ports)[k as int];
            let want = type_at(contracts[r].input_types, k as int);
            let given = given_type(g, contracts, name);
            let next = port_types_problem(g, contracts, names, r, k + 1);
            &&& want == 0 || given == 0 || want == given ==> next is None
            &&& want != 0 && given != 0 && want != given ==> next == Some(
                ErrorView::InvalidArg(
                    "端口 `"@ + name + "` 类型不符:生产者声明 "@ + name_of_type(names, given)
                        + ", 节点 `"@ + g.nodes[r].numbered_label(r as nat) + "` 声明 "@
                        + name_of_type(names, want),
                ),
            )
        }),
{
}

/// A call is refused for the first input port with a packet of a wrong type, and
/// the refusal names the node, the port, what was declared and what came.
pub proof fn wrong_inputs_are_named(n: RunNode, names: Map<u64, Seq<char>>, k: nat)
    requires
        n.type_problem(k, names) is None,
        k < n.input_types.len(),
        k < n.ctx.inputs.len(),
        k < n.ctx.in_ports.len(),
        n.input_types[k as int] != 0,
        n.ctx.inputs[k as int] matches Some(p) && p.payload is Some && p.kind
            != n.input_types[k as int],
    ensures
        n.type_problem(k + 1, names) == Some(
            ErrorView::Kernel(
                "["@ + n.name + "] 输入口 `"@ + n.ctx.in_ports[k as int].name
                    + "` 类型不符:契约声明 "@ + name_of_type(names, n.input_types[k as int])
                    + ", 实际 "@ + name_of_type(names, n.ctx.inputs[k as int]->Some_0.kind),
            ),
        ),
{
}

// ------------------------------------------------------------------------ names

/// A node is called by its name. One without a name is called by its kernel, and
/// where nodes are told apart, by its number besides.
pub proof fn nodes_are_called_by_name(n: NodeView, index: nat)
    ensures
        n.name.len() > 0 ==> n.numbered_label(index) == n.name && n.planned_name(index) == n.name
            && n.who() == n.name && n.label() == n.name,
        n.name.len() == 0 ==> n.numbered_label(index) == n.kernel + "#"@ + decimal(index)
            && n.who() == n.kernel,
        n.name.len() == 0 && n.kind != "route"@ ==> n.planned_name(index) == n.kernel + "#"@
            + decimal(index),
        n.name.len() == 0 && n.kind == "route"@ ==> n.planned_name(index) == n.kind + "#"@
            + decimal(index),
        n.name.len() == 0 && n.kernel.len() > 0 ==> n.label() == n.kernel,
        n.name.len() == 0 && n.kernel.len() == 0 ==> n.label() == n.kind,
        n.source_path.len() == 0 ==> n.path(index) == "nodes["@ + decimal(index) + "]"@,
        n.source_path.len() > 0 ==> mentions_text(n.path(index), n.source_path) && mentions_text(
            n.path(index),
            n.name,
        ),
{
    if n.source_path.len() > 0 {
        let w = n.path(index);
        let at: int = 0;
        assert(w.subrange(at, at + n.source_path.len()) =~= n.source_path);
        if n.name.len() > 0 {
            let from = (n.source_path.len() + " (expanded node `"@.len()) as int;
            assert(w.subrange(from, from + n.name.len()) =~= n.name);
        } else {
            assert(w.subrange(at, at + n.name.len()) =~= n.name);
        }
    }
}

/// Modes and levels have words of their own. What a graph records is all if it
/// is watched or traced, else what it asks for, and the basics if it asks for
/// nothing.
pub proof fn levels_are_as_configured(g: GraphView, a: RouteMode, b: RouteMode, s: StatsLevel, t: StatsLevel)
    ensures
        a.word() == b.word() ==> a == b,
        s.word() == t.word() ==> s == t,
        g.watchdog_ms > 0 || g.trace_capacity > 0 ==> g.effective_stats_level() is Full,
        g.watchdog_ms == 0 && g.trace_capacity == 0 ==> {
            &&& g.stats matches Some(level) ==> g.effective_stats_level() == level
            &&& g.stats is None && g.stats_timing == Some(true) ==> g.effective_stats_level() is
                Full
            &&& g.stats is None && g.stats_timing != Some(true) ==> g.effective_stats_level() is
                Basic
        },
{
    reveal_strlit("first");
    reveal_strlit("all");
    reveal_strlit("off");
    reveal_strlit("basic");
    reveal_strlit("full");
    assert("first"@.len() == 5 && "all"@.len() == 3 && "off"@.len() == 3 && "basic"@.len() == 5
        && "full"@.len() == 4);
}

// --------------------------------------------------------------------- warnings

/// A line is logged as it is, unless it holds a zero; a text is handed out on
/// the same condition.
pub proof fn lines_are_logged_as_they_are(lines: Seq<LineView>, level: i32, text: Seq<char>)
    ensures
        !text.contains('\0') ==> logged(lines, level, text) == lines.push(LineView { level, text })
            && without_zero(text) == text,
        text.contains('\0') ==> logged(lines, level, text) == lines && without_zero(text).len()
            == 0,
{
}

/// The warnings about a graph that is wired are logged one after the other, as
/// warnings.
pub proof fn wiring_warnings_are_logged(lines: Seq<LineView>, warnings: Seq<Seq<char>>, k: nat)
    requires
        k < warnings.len(),
        !warnings[k as int].contains('\0'),
    ensures
        warned(lines, warnings, 0) == lines,
        warned(lines, warnings, k + 1) == warned(lines, warnings, k).push(
            LineView { level: LOG_WARN, text: warnings[k as int] },
        ),
{
}

/// One node after the other is looked at, and only one with rules is warned
/// about.
pub proof fn nodes_are_looked_at_in_order(p: PlanView, k: nat)
    ensures
        node_warnings(p, 0).len() == 0,
        p.nodes[k as int].route is None ==> node_warnings(p, k + 1) == node_warnings(p, k),
        p.nodes[k as int].route matches Some(route) ==> node_warnings(p, k + 1) == node_warnings(
            p,
            k,
        ) + route_warnings(p.nodes[k as int].name, route),
{
    if p.nodes[k as int].route is None {
        assert(node_warnings(p, k) + Seq::<DiagnosticView>::empty()
            =~= node_warnings(p, k));
    }
}

/// A rule is reported with its target, its condition and whether it is the
/// default one, in the order of the rules.
pub proof fn rules_are_reported(path: Seq<char>, p: PlanView, i: int, r: int)
    requires
        0 <= i < p.config.nodes.len(),
        p.config.nodes[i].route is Some,
        0 <= r < p.config.nodes[i].route->Some_0.routes.len(),
    ensures
        ({
            let rule = p.config.nodes[i].route->Some_0.routes[r];
            let shown = plan_summary(path, p).nodes[i].route->Some_0.rules[r];
            &&& shown.to == rule.to
            &&& shown.default == rule.default
            &&& shown.when is Some <==> rule.when is Some
            &&& rule.when matches Some(c) ==> shown.when == Some(c.form)
        }),
{
}

// --------------------------------------------------------------------- drawings

/// The box of an executor, as it begins and ends in a drawing.
pub open spec fn box_of(
    p: PlanView,
    index: nat,
    name: Seq<char>,
    kind: Seq<char>,
    threads: nat,
) -> Seq<char> {
    "  subgraph cluster_executor_"@ + decimal(index) + " {\n    label=\""@ + escaped(
        executor_text(name, kind, threads),
    ) + "\";\n    color=\"#888888\";\n"@ + node_lines(p, name, p.nodes.len()) + "  }\n"@
}

proof fn lemma_box(p: PlanView, n: nat, k: int)
    requires
        0 <= k < n <= p.config.executors.len(),
    ensures
        ({
            let e = p.config.executors[k];
            let kind = if e.kind.len() == 0 {
                "ThreadPoolExecutor"@
            } else {
                e.kind
            };
            mentions_text(
                clusters(p, n),
                box_of(p, (k + 1) as nat, e.name, kind, e.num_threads as nat),
            )
        }),
    decreases n,
{
    let e = p.config.executors[k];
    let kind = if e.kind.len() == 0 {
        "ThreadPoolExecutor"@
    } else {
        e.kind
    };
    let b = box_of(p, (k + 1) as nat, e.name, kind, e.num_threads as nat);
    let before = clusters(p, (n - 1) as nat);
    if k == n - 1 {
        let at = before.len() as int;
        assert(clusters(p, n) == before + b);
        assert(clusters(p, n).subrange(at, at + b.len()) =~= b);
    } else {
        lemma_box(p, (n - 1) as nat, k);
        let last = p.config.executors[n - 1];
        lemma_mentions_front(
            before,
            cluster(
                p,
                n,
                last.name,
                executor_kind(last),
                last.num_threads as nat,
            ),
            b,
        );
    }
}

proof fn lemma_default_box(p: PlanView, n: nat)
    requires
        n <= p.config.executors.len(),
    ensures
        mentions_text(
            clusters(p, n),
            box_of(p, 0, "default"@, "ThreadPoolExecutor"@, 0),
        ),
    decreases n,
{
    let b = box_of(p, 0, "default"@, "ThreadPoolExecutor"@, 0);
    if n == 0 {
        let at: int = 0;
        assert(clusters(p, n) == b);
        assert(clusters(p, n).subrange(at, at + b.len()) =~= b);
    } else {
        lemma_default_box(p, (n - 1) as nat);
        let last = p.config.executors[n - 1];
        lemma_mentions_front(
            clusters(p, (n - 1) as nat),
            cluster(
                p,
                n,
                last.name,
                executor_kind(last),
                last.num_threads as nat,
            ),
            b,
        );
    }
}

/// A drawing has a box for the default executor and one for every other, in
/// which the nodes stand that run on it.
pub proof fn drawings_have_a_box_for_every_executor(p: PlanView, k: int)
    requires
        0 <= k < p.config.executors.len(),
    ensures
        mentions_text(drawing(p), box_of(p, 0, "default"@, "ThreadPoolExecutor"@, 0)),
        ({
            let e = p.config.executors[k];
            let kind = if e.kind.len() == 0 {
                "ThreadPoolExecutor"@
            } else {
                e.kind
            };
            mentions_text(
                drawing(p),
                box_of(p, (k + 1) as nat, e.name, kind, e.num_threads as nat),
            )
        }),
{
    let e = p.config.executors[k];
    let kind = if e.kind.len() == 0 {
        "ThreadPoolExecutor"@
    } else {
        e.kind
    };
    let b = box_of(p, (k + 1) as nat, e.name, kind, e.num_threads as nat);
    let d = box_of(p, 0, "default"@, "ThreadPoolExecutor"@, 0);
    let n = p.config.executors.len();
    lemma_box(p, n, k);
    lemma_default_box(p, n);
    let head = opening("lmflow_plan"@, Some("lmflow configuration plan"@))
        + "  graph_input [shape=cds, style=filled, fillcolor=\"#e8e8e8\", color=\"#777777\", label=\"graph input\"];\n"@
        + "  graph_output [shape=cds, style=filled, fillcolor=\"#e8e8e8\", color=\"#777777\", label=\"graph output\"];\n"@;
    let boxes = clusters(p, n);
    let edges = all_edge_lines(p, p.edges.len());
    lemma_mentions_back(head, boxes, b);
    lemma_mentions_front(head + boxes, edges, b);
    lemma_mentions_front(head + boxes + edges, "}\n"@, b);
    lemma_mentions_back(head, boxes, d);
    lemma_mentions_front(head + boxes, edges, d);
    lemma_mentions_front(head + boxes + edges, "}\n"@, d);
}

// ------------------------------------------------------------------------ turns

/// A node that is asked to run while it runs is asked to look again; one that
/// cannot run is left alone.
pub proof fn running_nodes_are_asked_to_look_again(g: RunView, n: int)
    requires
        0 <= n < g.nodes.len(),
    ensures
        ({
            let s = g.nodes[n].sched;
            let live = g.shared.error is None && !g.shared.cancelled && !g.paused && s.opened
                && !s.closed;
            &&& live && s.running ==> g.claimed(n).nodes[n].sched == (NodeSched {
                rescan: true,
                ..s
            })
            &&& live && !s.running && g.nodes[n].ready() ==> g.claimed(n).nodes[n].sched == (
            NodeSched { running: true, ..s })
            &&& !live || (!s.running && !g.nodes[n].ready()) ==> g.claimed(n) == g
            &&& g.claimed(n).main_queue == g.main_queue
        }),
{
}

// ----------------------------------------------------------------------- memory

/// In gathered memory the element with some coordinates has the bytes that lie
/// where its coordinates, each times the stride of its dimension, lead.
pub proof fn gathered_elements_keep_their_bytes(
    window: Seq<u8>,
    d: BufferDescriptor,
    v: ValidatedBuffer,
    out: Seq<u8>,
    at: Seq<int>,
    b: int,
)
    requires
        gathered(window, d, v, out),
        1 <= v.ndim <= d.shape@.len(),
        v.ndim <= d.strides@.len(),
        v.ndim <= at.len(),
        v.element_count == elements(d.shape@, v.ndim as nat),
        forall|i: int| 0 <= i < v.ndim ==> 0 <= (#[trigger] at[i]) < d.shape@[i],
        0 <= b < v.element_size,
    ensures
        out[element_number(d.shape@, at, v.ndim as nat) * v.element_size + b] == window[stride_sum(
            d.strides@,
            at,
            v.ndim as nat,
        ) - v.low + b],
{
    elements_lie_at_their_coordinates(d.shape@, d.strides@, at, v.ndim as nat);
    let e = element_number(d.shape@, at, v.ndim as nat);
    assert(out[e * v.element_size + b] == window[offset_of(
        d.shape@,
        d.strides@,
        v.ndim as nat,
        e,
    ) - v.low + b]);
}

/// The context of a node that was built has the ports of the node, in order.
pub proof fn built_contexts_have_the_ports(
    g: GraphView,
    contracts: Seq<ContractView>,
    names: Map<u64, Seq<char>>,
    i: int,
)
    requires
        0 <= i < g.nodes.len(),
        port_list(g.nodes[i].input_ports) is Ok,
        port_list(g.nodes[i].output_ports) is Ok,
    ensures
        ({
            let c = built(g, contracts, names).nodes[i].ctx;
            &&& c.in_ports == port_list(g.nodes[i].input_ports)->Ok_0
            &&& c.out_ports == port_list(g.nodes[i].output_ports)->Ok_0
            &&& c.fits()
        }),
{
}

} // verus!

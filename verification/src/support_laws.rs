//! Which nodes are supported: each check of a node against what the node has
//! to be.

use crate::config::{ExecutorView, GraphView, NodeView, PolicyView, RouteView, RuleView};
use crate::expand_laws::{all_declare, lemma_port_list};
use crate::preflight::{
    first_ungrouped, flat, grouping_problem, groups_divide_the_ports, groups_problem,
    members_problem, node_inputs_problem,
};
use crate::supported::{
    back_edges_problem, bounded_back_edge, executors_problem, graph_problem, grouped_back_edge,
    has_lossless_capacity, is_executor_kind, node_place, node_problem, nodes_problem,
    policy_problem, queues_problem, route_problem, rule_problem, rules_problem, two_defaults,
};
use crate::text::{decimal, none_missing, none_shared};
use crate::topology::declared_names;
use vstd::prelude::*;

verus! {

// ----------------------------------------------------------------------- routes

/// Whether a rule leads to an output and has a condition exactly if it is not
/// the default one.
pub open spec fn rule_fits(rule: RuleView, outputs: Seq<Seq<char>>) -> bool {
    &&& outputs.contains(rule.to)
    &&& rule.default <==> rule.when is None
    &&& rule.when matches Some(condition) ==> condition.refusal() is None
}

/// Whether the rules of a route node fit its outputs.
pub open spec fn route_fits(route: RouteView, outputs: Seq<Seq<char>>) -> bool {
    &&& forall|r: int| 0 <= r < route.routes.len() ==> rule_fits(#[trigger] route.routes[r], outputs)
    &&& forall|r: int, s: int|
        0 <= r < s < route.routes.len() ==> !((#[trigger] route.routes[r]).default && (
        #[trigger] route.routes[s]).default)
    &&& route.unmatched == "drop"@ || route.unmatched == "error"@ || outputs.contains(
        route.unmatched,
    )
    &&& route.routes.len() > 0 || route.unmatched != "drop"@
}

proof fn lemma_rules(
    rules: Seq<RuleView>,
    outputs: Seq<Seq<char>>,
    place: Seq<char>,
    who: Seq<char>,
)
    ensures
        rules_problem(rules, outputs, place, who) is None <==> forall|r: int|
            0 <= r < rules.len() ==> rule_fits(#[trigger] rules[r], outputs),
    decreases rules.len(),
{
    if rules.len() > 0 {
        let front = rules.drop_last();
        lemma_rules(front, outputs, place, who);
        assert(rule_problem(
            rules.last(),
            (rules.len() - 1) as nat,
            outputs,
            place,
            who,
        ) is None <==> rule_fits(rules.last(), outputs));
        assert forall|r: int| 0 <= r < front.len() implies front[r] == #[trigger] rules[r] by {}
        if forall|r: int| 0 <= r < front.len() ==> rule_fits(#[trigger] front[r], outputs) {
            assert forall|r: int| 0 <= r < front.len() implies rule_fits(
                #[trigger] rules[r],
                outputs,
            ) by {
                assert(rule_fits(front[r], outputs));
            }
        }
        if forall|r: int| 0 <= r < rules.len() ==> rule_fits(#[trigger] rules[r], outputs) {
            assert forall|r: int| 0 <= r < front.len() implies rule_fits(
                #[trigger] front[r],
                outputs,
            ) by {
                assert(rule_fits(rules[r], outputs));
            }
            assert(rule_fits(rules[rules.len() - 1], outputs));
        }
    }
}

/// Whether the route fields of a node are as its type wants them.
pub open spec fn routing_fits(n: NodeView) -> bool {
    if n.kind == "route"@ {
        &&& n.route matches Some(route) && route_fits(route, declared_names(n.output_ports))
        &&& n.kernel.len() == 0
        &&& n.input_ports.len() == 1
        &&& n.output_ports.len() > 0
        &&& all_declare(n.output_ports)
    } else {
        n.route matches Some(route) ==> route.is_implicit_default()
    }
}

proof fn lemma_routing(n: NodeView, place: Seq<char>)
    ensures
        route_problem(n, place) is None <==> routing_fits(n),
{
    if n.kind == "route"@ && n.route is Some {
        let route = n.route->Some_0;
        let outputs = declared_names(n.output_ports);
        lemma_port_list(n.output_ports);
        lemma_rules(route.routes, outputs, place, n.who());
        if two_defaults(route.routes) {
            let (r, s) = choose|i: int, j: int|
                0 <= i < j < route.routes.len() && #[trigger] route.routes[i].default
                    && #[trigger] route.routes[j].default;
            assert(route.routes[r].default && route.routes[s].default);
        }
        if !(forall|r: int, s: int|
            0 <= r < s < route.routes.len() ==> !((#[trigger] route.routes[r]).default && (
            #[trigger] route.routes[s]).default)) {
            let (r, s) = choose|r: int, s: int|
                0 <= r < s < route.routes.len() && (#[trigger] route.routes[r]).default && (
                #[trigger] route.routes[s]).default;
            assert(route.routes[r].default && route.routes[s].default);
            assert(two_defaults(route.routes));
        }
    }
}

// --------------------------------------------------------- policies and capacities

/// Whether an input policy is known and has what it needs.
pub open spec fn policy_fits(p: PolicyView) -> bool {
    ||| p.kind == "sync"@
    ||| p.kind == "immediate"@
    ||| p.kind == "fixed_size"@ && p.capacity >= 1
    ||| p.kind == "batch"@ && p.capacity >= 1
    ||| p.kind == "sync_set"@ && p.sets.len() > 0
}

proof fn lemma_policy(p: PolicyView, place: Seq<char>, who: Seq<char>)
    ensures
        policy_problem(p, place, who) is None <==> policy_fits(p),
{
    reveal_strlit("sync");
    reveal_strlit("immediate");
    reveal_strlit("fixed_size");
    reveal_strlit("batch");
    reveal_strlit("sync_set");
    assert("sync"@.len() == 4 && "immediate"@.len() == 9 && "fixed_size"@.len() == 10
        && "batch"@.len() == 5 && "sync_set"@.len() == 8);
}

/// Whether the capacities of a node are those of its ports: none bounds a
/// feedback edge, and none is to keep everything where packets are dropped.
pub open spec fn queues_fit(n: NodeView, names: Seq<Seq<char>>) -> bool {
    let q = n.input_queues;
    &&& forall|k: int| 0 <= k < q.ports.len() ==> names.contains(#[trigger] q.ports[k])
    &&& forall|k: int|
        0 <= k < q.ports.len() && n.back_edges.contains(#[trigger] q.ports[k]) ==> q.limits[k] is
            None || q.limits[k] == Some(0usize)
    &&& n.input_policy.kind == "fixed_size"@ ==> q.packets == 0 && forall|k: int|
        0 <= k < q.limits.len() ==> (#[trigger] q.limits[k]) is None || q.limits[k] == Some(0usize)
}

proof fn lemma_bounded(
    ports: Seq<Seq<char>>,
    limits: Seq<Option<usize>>,
    back_edges: Seq<Seq<char>>,
    k: int,
)
    requires
        0 <= k <= ports.len(),
    ensures
        bounded_back_edge(ports, limits, back_edges, k) is None <==> forall|i: int|
            0 <= i < k && back_edges.contains(#[trigger] ports[i]) ==> limits[i] is None
                || limits[i] == Some(0usize),
    decreases k,
{
    if k > 0 {
        lemma_bounded(ports, limits, back_edges, k - 1);
        if forall|i: int|
            0 <= i < k && back_edges.contains(#[trigger] ports[i]) ==> limits[i] is None
                || limits[i] == Some(0usize) {
            assert(back_edges.contains(ports[k - 1]) ==> limits[k - 1] is None || limits[k - 1]
                == Some(0usize));
        }
    }
}

proof fn lemma_queues(n: NodeView, names: Seq<Seq<char>>, place: Seq<char>)
    ensures
        queues_problem(n, names, place) is None <==> queues_fit(n, names),
{
    let q = n.input_queues;
    none_missing(q.ports, names);
    lemma_bounded(q.ports, q.limits, n.back_edges, q.ports.len() as int);
    if has_lossless_capacity(q) && q.packets == 0 {
        let i = choose|i: int|
            0 <= i < q.limits.len() && #[trigger] q.limits[i] is Some && q.limits[i] != Some(
                0usize,
            );
        assert(!(q.limits[i] is None || q.limits[i] == Some(0usize)));
    }
}

/// Whether the feedback edges of a node are inputs of it, leave it a forward
/// input, and stand in no group of inputs that wait for each other.
pub open spec fn back_edges_fit(n: NodeView, names: Seq<Seq<char>>) -> bool {
    n.back_edges.len() == 0 || {
        &&& forall|k: int|
            0 <= k < n.back_edges.len() ==> names.contains(#[trigger] n.back_edges[k])
        &&& exists|p: int| 0 <= p < names.len() && !n.back_edges.contains(#[trigger] names[p])
        &&& n.input_policy.kind == "sync_set"@ ==> forall|s: int, j: int|
            0 <= s < n.input_policy.sets.len() && 0 <= j < n.input_policy.sets[s].len()
                ==> !n.back_edges.contains(#[trigger] n.input_policy.sets[s][j])
    }
}

proof fn lemma_grouped(sets: Seq<Seq<Seq<char>>>, back_edges: Seq<Seq<char>>)
    ensures
        grouped_back_edge(sets, back_edges) is None <==> forall|s: int, j: int|
            0 <= s < sets.len() && 0 <= j < sets[s].len() ==> !back_edges.contains(
                #[trigger] sets[s][j],
            ),
    decreases sets.len(),
{
    if sets.len() > 0 {
        let front = sets.drop_last();
        lemma_grouped(front, back_edges);
        none_shared(sets.last(), back_edges);
        assert forall|s: int| 0 <= s < front.len() implies front[s] == #[trigger] sets[s] by {}
        let early = forall|s: int, j: int|
            0 <= s < front.len() && 0 <= j < front[s].len() ==> !back_edges.contains(
                #[trigger] front[s][j],
            );
        let all = forall|s: int, j: int|
            0 <= s < sets.len() && 0 <= j < sets[s].len() ==> !back_edges.contains(
                #[trigger] sets[s][j],
            );
        let own = forall|i: int|
            0 <= i < sets.last().len() ==> !back_edges.contains(#[trigger] sets.last()[i]);
        if all {
            assert forall|s: int, j: int|
                0 <= s < front.len() && 0 <= j < front[s].len() implies !back_edges.contains(
                #[trigger] front[s][j],
            ) by {
                assert(!back_edges.contains(sets[s][j]));
            }
            assert forall|i: int| 0 <= i < sets.last().len() implies !back_edges.contains(
                #[trigger] sets.last()[i],
            ) by {
                assert(!back_edges.contains(sets[sets.len() - 1][i]));
            }
        }
        if early && own {
            assert forall|s: int, j: int|
                0 <= s < sets.len() && 0 <= j < sets[s].len() implies !back_edges.contains(
                #[trigger] sets[s][j],
            ) by {
                if s < front.len() {
                    assert(!back_edges.contains(front[s][j]));
                } else {
                    assert(!back_edges.contains(sets.last()[j]));
                }
            }
        }
    }
}

proof fn lemma_back_edges(n: NodeView, names: Seq<Seq<char>>, place: Seq<char>)
    ensures
        back_edges_problem(n, names, place) is None <==> back_edges_fit(n, names),
{
    none_missing(n.back_edges, names);
    none_missing(names, n.back_edges);
    lemma_grouped(n.input_policy.sets, n.back_edges);
}

// ------------------------------------------------------------------------ nodes

/// Whether a node is as it has to be.
pub open spec fn node_fits(n: NodeView) -> bool {
    &&& routing_fits(n)
    &&& n.rate.is_zero() || (n.input_ports.len() == 0 && n.rate.is_positive_finite())
    &&& policy_fits(n.input_policy)
    &&& all_declare(n.input_ports)
    &&& queues_fit(n, declared_names(n.input_ports))
    &&& n.on_error.len() == 0 || n.on_error == "abort"@ || n.on_error == "skip"@
    &&& back_edges_fit(n, declared_names(n.input_ports))
}

/// A node is supported exactly if it is as it has to be.
pub proof fn nodes_are_supported(n: NodeView, index: nat)
    ensures
        node_problem(n, index) is None <==> node_fits(n),
{
    let place = node_place(index);
    let names = declared_names(n.input_ports);
    lemma_routing(n, place);
    lemma_policy(n.input_policy, place, n.who());
    lemma_port_list(n.input_ports);
    lemma_queues(n, names, place);
    lemma_back_edges(n, names, place);
}

/// The nodes of a configuration are refused for the first one that is not
/// supported, with what is wrong with it.
pub proof fn the_first_unsupported_node_is_named(nodes: Seq<NodeView>)
    ensures
        nodes_problem(nodes) is None <==> forall|i: int|
            0 <= i < nodes.len() ==> node_fits(#[trigger] nodes[i]),
        nodes_problem(nodes) is Some ==> exists|i: int|
            {
                &&& 0 <= i < nodes.len()
                &&& nodes_problem(nodes) == node_problem(#[trigger] nodes[i], i as nat)
                &&& forall|k: int| 0 <= k < i ==> node_fits(#[trigger] nodes[k])
            },
    decreases nodes.len(),
{
    if nodes.len() > 0 {
        let front = nodes.drop_last();
        the_first_unsupported_node_is_named(front);
        nodes_are_supported(nodes.last(), (nodes.len() - 1) as nat);
        assert forall|i: int| 0 <= i < front.len() implies front[i] == #[trigger] nodes[i] by {}
        if nodes_problem(front) is Some {
            let i = choose|i: int|
                {
                    &&& 0 <= i < front.len()
                    &&& nodes_problem(front) == node_problem(#[trigger] front[i], i as nat)
                    &&& forall|k: int| 0 <= k < i ==> node_fits(#[trigger] front[k])
                };
            assert(nodes[i] == front[i]);
            nodes_are_supported(nodes[i], i as nat);
            assert(nodes_problem(nodes) == node_problem(nodes[i], i as nat));
            assert forall|k: int| 0 <= k < i implies node_fits(#[trigger] nodes[k]) by {
                assert(node_fits(front[k]));
            }
        } else {
            assert forall|i: int| 0 <= i < front.len() implies node_fits(#[trigger] nodes[i]) by {
                assert(node_fits(front[i]));
            }
            let last = nodes.len() - 1;
            assert(nodes_problem(nodes) == node_problem(nodes[last], last as nat));
        }
    }
}

/// A configuration is supported exactly if all of its nodes are, all of its
/// executors are of a known type, and it does not ask for statistics in both
/// ways.
pub proof fn configurations_are_supported(g: GraphView)
    ensures
        graph_problem(g) is None <==> {
            &&& !(g.stats is Some && g.stats_timing is Some)
            &&& forall|i: int| 0 <= i < g.nodes.len() ==> node_fits(#[trigger] g.nodes[i])
            &&& forall|i: int|
                0 <= i < g.executors.len() ==> {
                    let kind = (#[trigger] g.executors[i]).kind;
                    kind.len() == 0 || kind == "ThreadPoolExecutor"@ || kind
                        == "DelegatingExecutor"@
                }
        },
{
    the_first_unsupported_node_is_named(g.nodes);
    lemma_executor_kinds(g.executors);
}

proof fn lemma_executor_kinds(executors: Seq<ExecutorView>)
    ensures
        executors_problem(executors) is None <==> forall|i: int|
            0 <= i < executors.len() ==> is_executor_kind((#[trigger] executors[i]).kind),
    decreases executors.len(),
{
    if executors.len() > 0 {
        let front = executors.drop_last();
        lemma_executor_kinds(front);
        assert forall|i: int| 0 <= i < front.len() implies front[i] == #[trigger] executors[i] by {}
        if forall|i: int| 0 <= i < front.len() ==> is_executor_kind((#[trigger] front[i]).kind) {
            assert forall|i: int| 0 <= i < front.len() implies is_executor_kind(
                (#[trigger] executors[i]).kind,
            ) by {
                assert(is_executor_kind(front[i].kind));
            }
        }
        if forall|i: int|
            0 <= i < executors.len() ==> is_executor_kind((#[trigger] executors[i]).kind) {
            assert forall|i: int| 0 <= i < front.len() implies is_executor_kind(
                (#[trigger] front[i]).kind,
            ) by {
                assert(is_executor_kind(executors[i].kind));
            }
            assert(is_executor_kind(executors[executors.len() - 1].kind));
        }
    }
}

// ----------------------------------------------------------------------- groups

/// Whether the groups of a node divide its input ports: none is empty, and
/// each port, and nothing else, stands in one place of one of them.
pub open spec fn groups_divide(sets: Seq<Seq<Seq<char>>>, ports: Seq<Seq<char>>) -> bool {
    &&& forall|i: int| 0 <= i < sets.len() ==> (#[trigger] sets[i]).len() > 0
    &&& flat(sets).no_duplicates()
    &&& forall|name: Seq<char>| #[trigger] flat(sets).contains(name) <==> ports.contains(name)
}

proof fn lemma_members(
    group: Seq<Seq<char>>,
    ports: Seq<Seq<char>>,
    seen: Seq<Seq<char>>,
    place: Seq<char>,
)
    requires
        (seen + group).no_duplicates(),
        forall|k: int| 0 <= k < group.len() ==> ports.contains(#[trigger] group[k]),
    ensures
        members_problem(group, ports, seen, place) is None,
    decreases group.len(),
{
    if group.len() > 0 {
        let front = group.drop_last();
        let all = seen + group;
        let some = seen + front;
        assert(all =~= some.push(group.last()));
        assert forall|i: int, j: int|
            0 <= i < some.len() && 0 <= j < some.len() && i != j implies some[i] != some[j] by {
            assert(all[i] == some[i] && all[j] == some[j]);
        }
        assert forall|k: int| 0 <= k < front.len() implies ports.contains(#[trigger] front[k]) by {
            assert(ports.contains(group[k]));
        }
        lemma_members(front, ports, seen, place);
        assert(ports.contains(group[group.len() - 1]));
        if some.contains(group.last()) {
            let i = some.index_of(group.last());
            assert(all[i] == group.last() && all[some.len() as int] == group.last());
        }
    }
}

proof fn lemma_groups(sets: Seq<Seq<Seq<char>>>, ports: Seq<Seq<char>>, path: Seq<char>)
    requires
        forall|i: int| 0 <= i < sets.len() ==> (#[trigger] sets[i]).len() > 0,
        flat(sets).no_duplicates(),
        forall|k: int| 0 <= k < flat(sets).len() ==> ports.contains(#[trigger] flat(sets)[k]),
    ensures
        groups_problem(sets, ports, path) is None,
    decreases sets.len(),
{
    if sets.len() > 0 {
        let front = sets.drop_last();
        let last = sets.last();
        let (some, all) = (flat(front), flat(sets));
        assert(all == some + last);
        assert forall|i: int| 0 <= i < front.len() implies (#[trigger] front[i]).len() > 0 by {
            assert(sets[i].len() > 0);
        }
        assert forall|i: int, j: int|
            0 <= i < some.len() && 0 <= j < some.len() && i != j implies some[i] != some[j] by {
            assert(all[i] == some[i] && all[j] == some[j]);
        }
        assert forall|k: int| 0 <= k < some.len() implies ports.contains(#[trigger] some[k]) by {
            assert(ports.contains(all[k]));
        }
        lemma_groups(front, ports, path);
        assert(sets[sets.len() - 1].len() > 0);
        let place = path + ".input_policy.sets["@ + decimal((sets.len() - 1) as nat)
            + "]"@;
        assert forall|k: int| 0 <= k < last.len() implies ports.contains(#[trigger] last[k]) by {
            assert(ports.contains(all[some.len() + k]));
        }
        lemma_members(last, ports, some, place);
    }
}

/// The groups of a node are accepted exactly if its ports are declared well and
/// the groups divide them.
pub proof fn groups_are_accepted(n: NodeView, path: Seq<char>)
    ensures
        grouping_problem(n, path) is None <==> all_declare(n.input_ports) && groups_divide(
            n.input_policy.sets,
            declared_names(n.input_ports),
        ),
{
    let ports = declared_names(n.input_ports);
    let sets = n.input_policy.sets;
    lemma_port_list(n.input_ports);
    if grouping_problem(n, path) is None {
        groups_divide_the_ports(n, path);
    }
    if all_declare(n.input_ports) && groups_divide(sets, ports) {
        assert forall|k: int| 0 <= k < flat(sets).len() implies ports.contains(
            #[trigger] flat(sets)[k],
        ) by {
            assert(flat(sets).contains(flat(sets)[k]));
        }
        lemma_groups(sets, ports, path);
        assert forall|name: Seq<char>| !#[trigger] first_ungrouped(name, ports, flat(sets)) by {
            if ports.contains(name) {
                assert(flat(sets).contains(name));
            }
        }
    }
}

/// A node without inputs is refused on an executor without threads; one whose
/// inputs wait in groups, if the groups do not divide the inputs; and none for
/// anything else here.
pub proof fn inputs_are_accepted(n: NodeView, index: nat, executors: Seq<ExecutorView>)
    ensures
        node_inputs_problem(n, index, executors) is None <==> {
            &&& n.input_ports.len() > 0 || n.executor.len() == 0 || forall|i: int|
                0 <= i < executors.len() && (#[trigger] executors[i]).name == n.executor
                    ==> executors[i].kind != "DelegatingExecutor"@
            &&& n.input_policy.kind == "sync_set"@ ==> all_declare(n.input_ports) && groups_divide(
                n.input_policy.sets,
                declared_names(n.input_ports),
            )
        },
{
    groups_are_accepted(n, n.path(index));
    if exists|i: int|
        0 <= i < executors.len() && (#[trigger] executors[i]).name == n.executor
            && executors[i].kind == "DelegatingExecutor"@ {
        let i = choose|i: int|
            0 <= i < executors.len() && (#[trigger] executors[i]).name == n.executor
                && executors[i].kind == "DelegatingExecutor"@;
        assert(executors[i].name == n.executor);
    }
}

} // verus!

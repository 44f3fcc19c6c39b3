//! What a plan should be warned about although it is accepted.

use crate::config::{
    rule_views, PredicateView, RouteConfig, RouteMode, RouteRule, RouteView, RuleView,
};
use crate::plan::{GraphPlan, GraphPlanEdge, PlanEdgeView, PlanView};
use crate::text::{cat3, cat5, cat7, decimal, decimal_of_size, same};
use vstd::prelude::*;

verus! {

/// A warning about a plan.
#[derive(Debug, Clone, PartialEq, Eq)]
pub struct GraphPlanDiagnostic {
    pub code: String,
    pub message: String,
}

#[verifier::ext_equal]
pub struct DiagnosticView {
    pub code: Seq<char>,
    pub message: Seq<char>,
}

impl View for GraphPlanDiagnostic {
    type V = DiagnosticView;

    open spec fn view(&self) -> DiagnosticView {
        DiagnosticView { code: self.code@, message: self.message@ }
    }
}

pub open spec fn diagnostic_views(list: Seq<GraphPlanDiagnostic>) -> Seq<DiagnosticView> {
    Seq::new(list.len(), |i: int| list[i]@)
}

impl PlanView {
    /// Whether the nodes that the edges speak of exist.
    pub open spec fn wf(self) -> bool {
        &&& self.nodes.len() == self.config.nodes.len()
        &&& forall|k: int|
            0 <= k < self.edges.len() ==> ((#[trigger] self.edges[k]).producer matches Some(i)
                ==> i < self.nodes.len())
        &&& forall|k: int, c: int|
            0 <= k < self.edges.len() && 0 <= c < self.edges[k].consumers.len() ==> (
            #[trigger] self.edges[k].consumers[c]) < self.nodes.len()
    }
}

// ---------------------------------------------------------------------- edges

/// The warning about an edge that nothing reads.
pub open spec fn edge_warning(p: PlanView, e: PlanEdgeView) -> Seq<DiagnosticView> {
    if e.consumers.len() != 0 || e.graph_output {
        Seq::empty()
    } else if e.graph_input {
        seq![
            DiagnosticView {
                code: "unconsumed_graph_input"@,
                message: "graph input port `"@ + e.name
                    + "` is consumed by no node; packets sent in will be dropped"@,
            },
        ]
    } else {
        match e.producer {
            Some(i) => seq![
                DiagnosticView {
                    code: "unconsumed_node_output"@,
                    message: "node `"@ + p.nodes[i as int].name + "` output port `"@ + e.name
                        + "` has no downstream consumer and is not a graph output; output will be dropped"@,
                },
            ],
            None => Seq::empty(),
        }
    }
}

pub open spec fn edge_warnings(p: PlanView, k: nat) -> Seq<DiagnosticView>
    decreases k,
{
    if k == 0 {
        Seq::empty()
    } else {
        edge_warnings(p, (k - 1) as nat) + edge_warning(p, p.edges[k - 1])
    }
}

// ------------------------------------------------------------------ executors

/// Whether some node runs on the executor.
pub open spec fn in_use(p: PlanView, executor: Seq<char>) -> bool {
    exists|i: int| 0 <= i < p.nodes.len() && (#[trigger] p.nodes[i]).executor == executor
}

pub open spec fn executor_warnings(p: PlanView, k: nat) -> Seq<DiagnosticView>
    decreases k,
{
    if k == 0 {
        Seq::empty()
    } else {
        let e = p.config.executors[k - 1];
        let threads = if e.num_threads == 0 {
            1nat
        } else {
            e.num_threads as nat
        };
        let before = executor_warnings(p, (k - 1) as nat);
        if e.kind == "DelegatingExecutor"@ || in_use(p, e.name) {
            before
        } else {
            before.push(
                DiagnosticView {
                    code: "unused_executor"@,
                    message: "executor `"@ + e.name + "` is defined but not used by any node ("@
                        + decimal(threads) + " threads will idle)"@,
                },
            )
        }
    }
}

// --------------------------------------------------------------------- routes

/// Whether two rules have the same condition.
pub open spec fn same_condition(a: Option<PredicateView>, b: Option<PredicateView>) -> bool {
    match (a, b) {
        (Some(x), Some(y)) => x.form == y.form,
        (None, None) => true,
        _ => false,
    }
}

/// The first of the rules before `k` that has the condition of `rule` and,
/// like it, is no default rule.
pub open spec fn shadowing(rules: Seq<RuleView>, rule: RuleView, k: nat) -> Option<nat>
    decreases k,
{
    if k == 0 {
        None
    } else if shadowing(rules, rule, (k - 1) as nat) is Some {
        shadowing(rules, rule, (k - 1) as nat)
    } else if !rules[k - 1].default && same_condition(rules[k - 1].when, rule.when) {
        Some((k - 1) as nat)
    } else {
        None
    }
}

/// Whether one of the rules before `index` sends the same packets to the same
/// output.
pub open spec fn emits_twice(rules: Seq<RuleView>, index: int) -> bool {
    exists|j: int|
        #![trigger rules[j]]
        0 <= j < index && !rules[index].default && !rules[j].default && rules[j].to
            == rules[index].to && same_condition(rules[j].when, rules[index].when)
}

/// The warnings about the first `k` rules of a node that follows the first
/// rule that matches.
pub open spec fn shadow_warnings(name: Seq<char>, rules: Seq<RuleView>, k: nat) -> Seq<
    DiagnosticView,
>
    decreases k,
{
    if k == 0 {
        Seq::empty()
    } else {
        let before = shadow_warnings(name, rules, (k - 1) as nat);
        let rule = rules[k - 1];
        let earlier = shadowing(rules, rule, (k - 1) as nat);
        if rule.default || earlier is None {
            before
        } else {
            before.push(
                DiagnosticView {
                    code: "route_shadowed_rule"@,
                    message: "route node `"@ + name + "` rule "@ + decimal(k)
                        + " duplicates earlier rule "@ + decimal(earlier->Some_0 + 1)
                        + "; first mode makes it unreachable"@,
                },
            )
        }
    }
}

/// The warnings about the first `k` rules of a node that follows all rules
/// that match.
pub open spec fn repeat_warnings(name: Seq<char>, rules: Seq<RuleView>, k: nat) -> Seq<
    DiagnosticView,
>
    decreases k,
{
    if k == 0 {
        Seq::empty()
    } else {
        let before = repeat_warnings(name, rules, (k - 1) as nat);
        if emits_twice(rules, k - 1) {
            before.push(
                DiagnosticView {
                    code: "route_duplicate_emit"@,
                    message: "route node `"@ + name + "` rule "@ + decimal(k)
                        + " duplicates an earlier rule and may emit the same packet twice to `"@
                        + rules[k - 1].to + "`"@,
                },
            )
        } else {
            before
        }
    }
}

/// Whether one of the rules is a default rule.
pub open spec fn has_default(rules: Seq<RuleView>) -> bool {
    exists|i: int| 0 <= i < rules.len() && (#[trigger] rules[i]).default
}

/// The warnings about the rules of a route node.
pub open spec fn route_warnings(name: Seq<char>, route: RouteView) -> Seq<DiagnosticView> {
    let unreachable = if has_default(route.routes) && route.unmatched != "drop"@ {
        seq![
            DiagnosticView {
                code: "route_unreachable_unmatched"@,
                message: "route node `"@ + name
                    + "` has a default rule, so unmatched policy `"@ + route.unmatched
                    + "` is unreachable"@,
            },
        ]
    } else {
        Seq::empty()
    };
    unreachable + match route.mode {
        RouteMode::First => shadow_warnings(name, route.routes, route.routes.len()),
        RouteMode::All => repeat_warnings(name, route.routes, route.routes.len()),
    }
}

pub open spec fn node_warnings(p: PlanView, k: nat) -> Seq<DiagnosticView>
    decreases k,
{
    if k == 0 {
        Seq::empty()
    } else {
        let n = p.nodes[k - 1];
        node_warnings(p, (k - 1) as nat) + match n.route {
            Some(route) => route_warnings(n.name, route),
            None => Seq::empty(),
        }
    }
}

/// All warnings about a plan: on its edges, its executors and its rules.
pub open spec fn warnings(p: PlanView) -> Seq<DiagnosticView> {
    edge_warnings(p, p.edges.len()) + executor_warnings(p, p.config.executors.len())
        + node_warnings(p, p.nodes.len())
}

// ------------------------------------------------------------------ execution

/// Adds a warning to a list.
fn warn(list: &mut Vec<GraphPlanDiagnostic>, code: &str, message: String)
    ensures
        diagnostic_views(final(list)@) == diagnostic_views(old(list)@).push(
            DiagnosticView { code: code@, message: message@ },
        ),
{
    let ghost before = diagnostic_views(list@);
    list.push(GraphPlanDiagnostic { code: code.to_owned(), message });
    assert(diagnostic_views(list@) =~= before.push(
        DiagnosticView { code: code@, message: message@ },
    ));
}

fn warn_edge(plan: &GraphPlan, e: &GraphPlanEdge, list: &mut Vec<GraphPlanDiagnostic>)
    requires
        e.producer matches Some(i) ==> i < plan.nodes@.len(),
    ensures
        diagnostic_views(final(list)@) == diagnostic_views(old(list)@) + edge_warning(
            plan@,
            e@,
        ),
{
    let ghost before = diagnostic_views(list@);
    assert(before + Seq::<DiagnosticView>::empty() =~= before);
    if !e.consumers.is_empty() || e.graph_output {
        return ;
    }
    if e.graph_input {
        let message = cat3(
            "graph input port `",
            e.name.as_str(),
            "` is consumed by no node; packets sent in will be dropped",
        );
        warn(list, "unconsumed_graph_input", message);
        assert(diagnostic_views(list@) =~= before + edge_warning(plan@, e@));
        return ;
    }
    match e.producer {
        Some(i) => {
            let message = cat5(
                "node `",
                plan.nodes[i].name.as_str(),
                "` output port `",
                e.name.as_str(),
                "` has no downstream consumer and is not a graph output; output will be dropped",
            );
            warn(list, "unconsumed_node_output", message);
            assert(plan@.nodes[i as int] == plan.nodes@[i as int]@);
            assert(diagnostic_views(list@) =~= before + edge_warning(plan@, e@));
        },
        None => {},
    }
}

fn used(plan: &GraphPlan, executor: &str) -> (r: bool)
    ensures
        r == in_use(plan@, executor@),
{
    for i in 0..plan.nodes.len()
        invariant
            forall|k: int| 0 <= k < i ==> (#[trigger] plan@.nodes[k]).executor != executor@,
    {
        assert(plan@.nodes[i as int] == plan.nodes@[i as int]@);
        if same(plan.nodes[i].executor.as_str(), executor) {
            return true;
        }
    }
    false
}

fn equal_conditions(a: &RouteRule, b: &RouteRule) -> (r: bool)
    ensures
        r == same_condition(a@.when, b@.when),
{
    match (&a.when, &b.when) {
        (Some(x), Some(y)) => same(x.form.as_str(), y.form.as_str()),
        (None, None) => true,
        _ => false,
    }
}

fn find_shadowing(rules: &Vec<RouteRule>, index: usize) -> (r: Option<usize>)
    requires
        index < rules@.len(),
    ensures
        match r {
            Some(k) => k < index && shadowing(
                rule_views(rules@),
                rules@[index as int]@,
                index as nat,
            ) == Some(k as nat),
            None => shadowing(
                rule_views(rules@),
                rules@[index as int]@,
                index as nat,
            ) is None,
        },
{
    let ghost all = rule_views(rules@);
    for k in 0..index
        invariant
            index < rules@.len(),
            all == rule_views(rules@),
            shadowing(all, rules@[index as int]@, k as nat) is None,
    {
        assert(all[k as int] == rules@[k as int]@);
        if !rules[k].default && equal_conditions(&rules[k], &rules[index]) {
            proof {
                lemma_shadowing_stays(all, rules@[index as int]@, (k + 1) as nat, index as nat);
            }
            return Some(k);
        }
    }
    None
}

proof fn lemma_shadowing_stays(rules: Seq<RuleView>, rule: RuleView, k: nat, n: nat)
    requires
        k <= n,
        shadowing(rules, rule, k) is Some,
    ensures
        shadowing(rules, rule, n) == shadowing(rules, rule, k),
    decreases n - k,
{
    if k < n {
        lemma_shadowing_stays(rules, rule, k, (n - 1) as nat);
    }
}

fn repeats(rules: &Vec<RouteRule>, index: usize) -> (r: bool)
    requires
        index < rules@.len(),
    ensures
        r == emits_twice(rule_views(rules@), index as int),
{
    let ghost all = rule_views(rules@);
    assert(all[index as int] == rules@[index as int]@);
    if rules[index].default {
        return false;
    }
    for k in 0..index
        invariant
            index < rules@.len(),
            all == rule_views(rules@),
            !all[index as int].default,
            all[index as int] == rules@[index as int]@,
            forall|j: int|
                0 <= j < k ==> !(!(#[trigger] all[j]).default && all[j].to == all[index as int].to
                    && same_condition(all[j].when, all[index as int].when)),
    {
        assert(all[k as int] == rules@[k as int]@);
        if !rules[k].default && same(rules[k].to.as_str(), rules[index].to.as_str())
            && equal_conditions(&rules[k], &rules[index]) {
            return true;
        }
    }
    false
}

fn default_among(rules: &Vec<RouteRule>) -> (r: bool)
    ensures
        r == has_default(rule_views(rules@)),
{
    let ghost all = rule_views(rules@);
    for i in 0..rules.len()
        invariant
            all == rule_views(rules@),
            forall|k: int| 0 <= k < i ==> !(#[trigger] all[k]).default,
    {
        assert(all[i as int] == rules@[i as int]@);
        if rules[i].default {
            return true;
        }
    }
    false
}

fn warn_route(name: &str, route: &RouteConfig, list: &mut Vec<GraphPlanDiagnostic>)
    ensures
        diagnostic_views(final(list)@) == diagnostic_views(old(list)@) + route_warnings(
            name@,
            route@,
        ),
{
    let ghost start = diagnostic_views(list@);
    let ghost rules = route@.routes;
    if default_among(&route.routes) && !same(route.unmatched.as_str(), "drop") {
        let message = cat5(
            "route node `",
            name,
            "` has a default rule, so unmatched policy `",
            route.unmatched.as_str(),
            "` is unreachable",
        );
        warn(list, "route_unreachable_unmatched", message);
    }
    let ghost first = diagnostic_views(list@);
    match route.mode {
        RouteMode::First => {
            assert(first + shadow_warnings(name@, rules, 0) =~= first);
            for i in 0..route.routes.len()
                invariant
                    rules == route@.routes,
                    diagnostic_views(list@) == first + shadow_warnings(name@, rules, i as nat),
            {
                assert(rules[i as int] == route.routes@[i as int]@);
                let ghost before = diagnostic_views(list@);
                if !route.routes[i].default {
                    match find_shadowing(&route.routes, i) {
                        Some(k) => {
                            let here = decimal_of_size(i + 1);
                            let there = decimal_of_size(k + 1);
                            let message = cat7(
                                "route node `",
                                name,
                                "` rule ",
                                here.as_str(),
                                " duplicates earlier rule ",
                                there.as_str(),
                                "; first mode makes it unreachable",
                            );
                            warn(list, "route_shadowed_rule", message);
                        },
                        None => {},
                    }
                }
                assert(diagnostic_views(list@) =~= first + shadow_warnings(
                    name@,
                    rules,
                    (i + 1) as nat,
                ));
            }
        },
        RouteMode::All => {
            assert(first + repeat_warnings(name@, rules, 0) =~= first);
            for i in 0..route.routes.len()
                invariant
                    rules == route@.routes,
                    diagnostic_views(list@) == first + repeat_warnings(name@, rules, i as nat),
            {
                assert(rules[i as int] == route.routes@[i as int]@);
                if repeats(&route.routes, i) {
                    let here = decimal_of_size(i + 1);
                    let message = cat7(
                        "route node `",
                        name,
                        "` rule ",
                        here.as_str(),
                        " duplicates an earlier rule and may emit the same packet twice to `",
                        route.routes[i].to.as_str(),
                        "`",
                    );
                    warn(list, "route_duplicate_emit", message);
                }
                assert(diagnostic_views(list@) =~= first + repeat_warnings(
                    name@,
                    rules,
                    (i + 1) as nat,
                ));
            }
        },
    }
    assert(diagnostic_views(list@) =~= start + route_warnings(name@, route@));
}

impl GraphPlan {
    /// The warnings about the plan.
    pub fn diagnostics(&self) -> (r: Vec<GraphPlanDiagnostic>)
        requires
            self@.wf(),
        ensures
            diagnostic_views(r@) == warnings(self@),
    {
        let ghost p = self@;
        let mut list: Vec<GraphPlanDiagnostic> = Vec::new();
        assert(diagnostic_views(list@) =~= edge_warnings(p, 0));
        for k in 0..self.edges.len()
            invariant
                p == self@,
                p.wf(),
                diagnostic_views(list@) == edge_warnings(p, k as nat),
        {
            assert(p.edges[k as int] == self.edges@[k as int]@);
            warn_edge(self, &self.edges[k], &mut list);
        }
        let ghost first = diagnostic_views(list@);
        assert(first + executor_warnings(p, 0) =~= first);
        for k in 0..self.config.executors.len()
            invariant
                p == self@,
                diagnostic_views(list@) == first + executor_warnings(p, k as nat),
        {
            let e = &self.config.executors[k];
            assert(p.config.executors[k as int] == e@);
            if !(same(e.kind.as_str(), "DelegatingExecutor") || used(self, e.name.as_str())) {
                let threads: usize = if e.num_threads == 0 {
                    1
                } else {
                    e.num_threads
                };
                let number = decimal_of_size(threads);
                let message = cat5(
                    "executor `",
                    e.name.as_str(),
                    "` is defined but not used by any node (",
                    number.as_str(),
                    " threads will idle)",
                );
                warn(&mut list, "unused_executor", message);
            }
            assert(diagnostic_views(list@) =~= first + executor_warnings(p, (k + 1) as nat));
        }
        let ghost second = diagnostic_views(list@);
        assert(second + node_warnings(p, 0) =~= second);
        for k in 0..self.nodes.len()
            invariant
                p == self@,
                diagnostic_views(list@) == second + node_warnings(p, k as nat),
        {
            assert(p.nodes[k as int] == self.nodes@[k as int]@);
            match &self.nodes[k].route {
                Some(route) => {
                    warn_route(self.nodes[k].name.as_str(), route, &mut list);
                },
                None => {},
            }
            assert(diagnostic_views(list@) =~= second + node_warnings(p, (k + 1) as nat));
        }
        assert(diagnostic_views(list@) =~= warnings(p));
        list
    }
}

} // verus!

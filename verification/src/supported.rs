//! The rules that a configuration has to keep by itself, before its topology
//! is looked at.

use crate::config::{
    ExecutorView, GraphConfig, GraphView, NodeConfig, NodeView, PolicyView, QueuesView, RouteConfig,
    RouteRule, RouteView, RuleView,
};
use crate::diagnostic::{candidate_texts, candidates_of, did_you_mean, hint};
use crate::port::{names_of, parse_ports, port_list, port_names};
use crate::status::{failure, first_failure, Error, ErrorView};
use crate::text::{
    cat2, cat3, cat4, cat5, cat6, cat7, contains_text, decimal, decimal_of_size, find_missing,
    find_shared, first_missing, first_missing_prefix, first_shared, none_missing, same, texts,
};
use vstd::prelude::*;

verus! {

/// A refusal with its message.
pub open spec fn refused(message: Seq<char>) -> Option<ErrorView> {
    Some(ErrorView::InvalidArg(message))
}

/// Where a node stands in the list of nodes.
pub open spec fn node_place(index: nat) -> Seq<char> {
    "nodes["@ + decimal(index) + "]"@
}

/// Where a field of a node stands, and which node it is.
pub open spec fn field_place(place: Seq<char>, field: Seq<char>, who: Seq<char>) -> Seq<char> {
    place + field + " (node `"@ + who + "`): "@
}

impl NodeView {
    /// The name of a node, or else its kernel.
    pub open spec fn who(self) -> Seq<char> {
        if self.name.len() == 0 {
            self.kernel
        } else {
            self.name
        }
    }
}

// --------------------------------------------------------------------- routes

/// The part `.routes[i]` of a place.
pub open spec fn rule_field(index: nat) -> Seq<char> {
    ".routes["@ + decimal(index) + "]"@
}

/// What is wrong with rule `index` of a route node with the given outputs.
pub open spec fn rule_problem(
    rule: RuleView,
    index: nat,
    outputs: Seq<Seq<char>>,
    place: Seq<char>,
    who: Seq<char>,
) -> Option<ErrorView> {
    let field = rule_field(index);
    if !outputs.contains(rule.to) {
        refused(
            field_place(place, field + ".to"@, who) + "unknown output port `"@ + rule.to + "`"@,
        )
    } else if rule.default {
        if rule.when is Some {
            refused(field_place(place, field, who) + "default route must not declare `when`"@)
        } else {
            None
        }
    } else {
        match rule.when {
            None => refused(
                field_place(place, field, who) + "non-default route requires `when`"@,
            ),
            Some(condition) => match condition.refusal() {
                Some(e) => Some(e.at(place + field + ".when"@)),
                None => None,
            },
        }
    }
}

/// What is wrong with the first rule that something is wrong with.
pub open spec fn rules_problem(
    rules: Seq<RuleView>,
    outputs: Seq<Seq<char>>,
    place: Seq<char>,
    who: Seq<char>,
) -> Option<ErrorView>
    decreases rules.len(),
{
    if rules.len() == 0 {
        None
    } else {
        first_failure(
            rules_problem(rules.drop_last(), outputs, place, who),
            rule_problem(rules.last(), (rules.len() - 1) as nat, outputs, place, who),
        )
    }
}

/// Whether two of the rules are default rules.
pub open spec fn two_defaults(rules: Seq<RuleView>) -> bool {
    exists|i: int, j: int|
        0 <= i < j < rules.len() && #[trigger] rules[i].default && #[trigger] rules[j].default
}

/// What is wrong with the rules of a route node with the given outputs.
pub open spec fn routing_problem(
    route: RouteView,
    outputs: Seq<Seq<char>>,
    place: Seq<char>,
    who: Seq<char>,
) -> Option<ErrorView> {
    if rules_problem(route.routes, outputs, place, who) is Some {
        rules_problem(route.routes, outputs, place, who)
    } else if two_defaults(route.routes) {
        refused(field_place(place, ".routes"@, who) + "at most one default route is allowed"@)
    } else if route.unmatched != "drop"@ && route.unmatched != "error"@ && !outputs.contains(
        route.unmatched,
    ) {
        refused(
            field_place(place, ".unmatched"@, who)
                + "expected `drop`, `error`, or an output port, got `"@ + route.unmatched + "`"@,
        )
    } else if route.routes.len() == 0 && route.unmatched == "drop"@ {
        refused(field_place(place, ".routes"@, who) + "at least one route rule is required"@)
    } else {
        None
    }
}

/// What is wrong with the route fields of a node: a route node has them, one
/// input, at least one output and no kernel; another node has none.
pub open spec fn route_problem(n: NodeView, place: Seq<char>) -> Option<ErrorView> {
    let who = n.who();
    if n.kind == "route"@ {
        match n.route {
            None => refused(
                place + ": route node `"@ + who
                    + "` requires route fields (`routes` or `unmatched`)"@,
            ),
            Some(route) => if n.kernel.len() != 0 {
                refused(place + ": route node `"@ + who + "` must not declare `kernel`"@)
            } else if n.input_ports.len() != 1 {
                refused(
                    field_place(place, ".input_ports"@, who)
                        + "route nodes require exactly one input port"@,
                )
            } else if n.output_ports.len() == 0 {
                refused(
                    field_place(place, ".output_ports"@, who)
                        + "route nodes require at least one output port"@,
                )
            } else {
                match port_list(n.output_ports) {
                    Err((_, e)) => Some(e),
                    Ok(list) => routing_problem(route, port_names(list), place, who),
                }
            },
        }
    } else if n.route is Some && !n.route->Some_0.is_implicit_default() {
        refused(
            place + " (node `"@ + who + "`): route fields are only valid when `type: route`"@,
        )
    } else {
        None
    }
}

fn field_place_of(place: &str, field: &str, who: &str) -> (r: String)
    ensures
        r@ == field_place(place@, field@, who@),
{
    cat5(place, field, " (node `", who, "`): ")
}

fn check_rule(rule: &RouteRule, index: usize, outputs: &Vec<String>, place: &str, who: &str) -> (r:
    Result<(), Error>)
    ensures
        failure(r) == rule_problem(rule@, index as nat, texts(outputs@), place@, who@),
{
    let number = decimal_of_size(index);
    let field = cat3(".routes[", number.as_str(), "]");
    if !contains_text(outputs, rule.to.as_str()) {
        let to_field = cat2(field.as_str(), ".to");
        let at = field_place_of(place, to_field.as_str(), who);
        return Err(
            Error::InvalidArg(cat4(at.as_str(), "unknown output port `", rule.to.as_str(), "`")),
        );
    }
    if rule.default {
        if rule.when.is_some() {
            let at = field_place_of(place, field.as_str(), who);
            return Err(
                Error::InvalidArg(cat2(at.as_str(), "default route must not declare `when`")),
            );
        }
        return Ok(());
    }
    match &rule.when {
        None => {
            let at = field_place_of(place, field.as_str(), who);
            Err(Error::InvalidArg(cat2(at.as_str(), "non-default route requires `when`")))
        },
        Some(condition) => match condition.validate() {
            Ok(()) => Ok(()),
            Err(e) => {
                let at = cat3(place, field.as_str(), ".when");
                Err(e.context(at.as_str()))
            },
        },
    }
}

/// Once a rule is refused, more rules do not change that.
proof fn lemma_rules_prefix(
    rules: Seq<RuleView>,
    k: int,
    outputs: Seq<Seq<char>>,
    place: Seq<char>,
    who: Seq<char>,
)
    requires
        0 <= k <= rules.len(),
        rules_problem(rules.take(k), outputs, place, who) is Some,
    ensures
        rules_problem(rules, outputs, place, who) == rules_problem(
            rules.take(k),
            outputs,
            place,
            who,
        ),
    decreases rules.len() - k,
{
    if k < rules.len() {
        assert(rules.take(k + 1).drop_last() =~= rules.take(k));
        lemma_rules_prefix(rules, k + 1, outputs, place, who);
    } else {
        assert(rules.take(k) =~= rules);
    }
}

fn check_routing(route: &RouteConfig, outputs: &Vec<String>, place: &str, who: &str) -> (r: Result<
    (),
    Error,
>)
    ensures
        failure(r) == routing_problem(route@, texts(outputs@), place@, who@),
{
    let ghost rules = route@.routes;
    let mut defaults: usize = 0;
    let mut first_default: usize = 0;
    let mut last_default: usize = 0;
    assert(rules.take(0) =~= Seq::empty());
    for i in 0..route.routes.len()
        invariant
            rules == route@.routes,
            rules.len() == route.routes@.len(),
            rules_problem(rules.take(i as int), texts(outputs@), place@, who@) is None,
            defaults <= i,
            defaults == 0 ==> forall|k: int| 0 <= k < i ==> !(#[trigger] rules[k]).default,
            defaults == 1 ==> first_default < i && rules[first_default as int].default && forall|
                k: int,
            |
                0 <= k < i && k != first_default ==> !(#[trigger] rules[k]).default,
            defaults > 1 ==> first_default < last_default < i
                && rules[first_default as int].default && rules[last_default as int].default,
    {
        proof {
            assert(rules.take(i + 1).drop_last() =~= rules.take(i as int));
            assert(rules.take(i + 1).last() == rules[i as int]);
            assert(rules[i as int] == route.routes@[i as int]@);
        }
        match check_rule(&route.routes[i], i, outputs, place, who) {
            Ok(()) => {},
            Err(e) => {
                proof {
                    lemma_rules_prefix(rules, i + 1, texts(outputs@), place@, who@);
                }
                return Err(e);
            },
        }
        if route.routes[i].default {
            if defaults == 0 {
                first_default = i;
            } else {
                last_default = i;
            }
            defaults += 1;
        }
    }
    assert(rules.take(rules.len() as int) =~= rules);
    if defaults > 1 {
        assert(rules[first_default as int].default && rules[last_default as int].default);
        let at = field_place_of(place, ".routes", who);
        return Err(Error::InvalidArg(cat2(at.as_str(), "at most one default route is allowed")));
    }
    assert(!two_defaults(rules));
    let unmatched = route.unmatched.as_str();
    if !same(unmatched, "drop") && !same(unmatched, "error") && !contains_text(
        outputs,
        unmatched,
    ) {
        let at = field_place_of(place, ".unmatched", who);
        return Err(
            Error::InvalidArg(
                cat4(
                    at.as_str(),
                    "expected `drop`, `error`, or an output port, got `",
                    unmatched,
                    "`",
                ),
            ),
        );
    }
    if route.routes.is_empty() && same(unmatched, "drop") {
        let at = field_place_of(place, ".routes", who);
        return Err(Error::InvalidArg(cat2(at.as_str(), "at least one route rule is required")));
    }
    Ok(())
}

fn check_route(n: &NodeConfig, place: &str, who: &str) -> (r: Result<(), Error>)
    requires
        who@ == n@.who(),
    ensures
        failure(r) == route_problem(n@, place@),
{
    if same(n.kind.as_str(), "route") {
        let route = match &n.route {
            Some(route) => route,
            None => {
                return Err(
                    Error::InvalidArg(
                        cat4(
                            place,
                            ": route node `",
                            who,
                            "` requires route fields (`routes` or `unmatched`)",
                        ),
                    ),
                );
            },
        };
        if !n.kernel.as_str().is_empty() {
            return Err(
                Error::InvalidArg(
                    cat4(place, ": route node `", who, "` must not declare `kernel`"),
                ),
            );
        }
        if n.input_ports.len() != 1 {
            let at = field_place_of(place, ".input_ports", who);
            return Err(
                Error::InvalidArg(
                    cat2(at.as_str(), "route nodes require exactly one input port"),
                ),
            );
        }
        if n.output_ports.is_empty() {
            let at = field_place_of(place, ".output_ports", who);
            return Err(
                Error::InvalidArg(
                    cat2(at.as_str(), "route nodes require at least one output port"),
                ),
            );
        }
        match parse_ports(&n.output_ports) {
            Err((_, e)) => Err(e),
            Ok(list) => {
                let outputs = names_of(&list);
                check_routing(route, &outputs, place, who)
            },
        }
    } else {
        match &n.route {
            Some(route) => {
                if !route.is_implicit_default() {
                    return Err(
                        Error::InvalidArg(
                            cat4(
                                place,
                                " (node `",
                                who,
                                "`): route fields are only valid when `type: route`",
                            ),
                        ),
                    );
                }
                Ok(())
            },
            None => Ok(()),
        }
    }
}

// ----------------------------------------------------------- rates and policies

/// What is wrong with the rate of a node: only a source has one, and it is
/// positive and finite.
pub open spec fn rate_problem(n: NodeView, place: Seq<char>) -> Option<ErrorView> {
    let at = field_place(place, ".rate"@, n.who());
    if n.rate.is_zero() {
        None
    } else if n.input_ports.len() != 0 {
        refused(
            at
                + "rate only applies to source nodes (no input ports); a non-source is driven by upstream data"@,
        )
    } else if !n.rate.is_positive_finite() {
        refused(at + "rate must be a positive, finite number (Hz), got "@ + n.rate.shown)
    } else {
        None
    }
}

fn check_rate(n: &NodeConfig, place: &str, who: &str) -> (r: Result<(), Error>)
    requires
        who@ == n@.who(),
    ensures
        failure(r) == rate_problem(n@, place@),
{
    if n.rate.is_zero() {
        return Ok(());
    }
    let at = field_place_of(place, ".rate", who);
    if !n.input_ports.is_empty() {
        return Err(
            Error::InvalidArg(
                cat2(
                    at.as_str(),
                    "rate only applies to source nodes (no input ports); a non-source is driven by upstream data",
                ),
            ),
        );
    }
    if !n.rate.is_positive_finite() {
        return Err(
            Error::InvalidArg(
                cat3(
                    at.as_str(),
                    "rate must be a positive, finite number (Hz), got ",
                    n.rate.shown.as_str(),
                ),
            ),
        );
    }
    Ok(())
}

/// The names of the input policies.
pub open spec fn policy_names() -> Seq<Seq<char>> {
    seq!["sync"@, "immediate"@, "fixed_size"@, "sync_set"@, "batch"@]
}

/// What is wrong with an input policy.
pub open spec fn policy_problem(policy: PolicyView, place: Seq<char>, who: Seq<char>) -> Option<
    ErrorView,
> {
    if policy.kind == "sync"@ || policy.kind == "immediate"@ {
        None
    } else if policy.kind == "fixed_size"@ {
        if policy.capacity == 0 {
            refused(
                field_place(place, ".input_policy.capacity"@, who)
                    + "fixed_size policy capacity must be >= 1"@,
            )
        } else {
            None
        }
    } else if policy.kind == "batch"@ {
        if policy.capacity == 0 {
            refused(
                field_place(place, ".input_policy.capacity"@, who)
                    + "batch policy capacity (the batch size) must be >= 1"@,
            )
        } else {
            None
        }
    } else if policy.kind == "sync_set"@ {
        if policy.sets.len() == 0 {
            refused(
                field_place(place, ".input_policy.sets"@, who)
                    + "sync_set policy must provide sets (input port groups)"@,
            )
        } else {
            None
        }
    } else {
        refused(
            field_place(place, ".input_policy.type"@, who) + "unknown input_policy `"@
                + policy.kind + "`"@ + hint(policy.kind, policy_names())
                + " (valid: sync / immediate / fixed_size / sync_set / batch)"@,
        )
    }
}

fn check_policy(n: &NodeConfig, place: &str, who: &str) -> (r: Result<(), Error>)
    ensures
        failure(r) == policy_problem(n@.input_policy, place@, who@),
{
    let kind = n.input_policy.kind.as_str();
    if same(kind, "sync") || same(kind, "immediate") {
        return Ok(());
    }
    if same(kind, "fixed_size") {
        if n.input_policy.capacity == 0 {
            let at = field_place_of(place, ".input_policy.capacity", who);
            return Err(
                Error::InvalidArg(cat2(at.as_str(), "fixed_size policy capacity must be >= 1")),
            );
        }
        return Ok(());
    }
    if same(kind, "batch") {
        if n.input_policy.capacity == 0 {
            let at = field_place_of(place, ".input_policy.capacity", who);
            return Err(
                Error::InvalidArg(
                    cat2(at.as_str(), "batch policy capacity (the batch size) must be >= 1"),
                ),
            );
        }
        return Ok(());
    }
    if same(kind, "sync_set") {
        if n.input_policy.sets.is_empty() {
            let at = field_place_of(place, ".input_policy.sets", who);
            return Err(
                Error::InvalidArg(
                    cat2(at.as_str(), "sync_set policy must provide sets (input port groups)"),
                ),
            );
        }
        return Ok(());
    }
    let names = vec!["sync", "immediate", "fixed_size", "sync_set", "batch"];
    assert(candidate_texts(names@) =~= policy_names());
    let suggestion = did_you_mean(kind, &names);
    let at = field_place_of(place, ".input_policy.type", who);
    Err(
        Error::InvalidArg(
            cat6(
                at.as_str(),
                "unknown input_policy `",
                kind,
                "`",
                suggestion.as_str(),
                " (valid: sync / immediate / fixed_size / sync_set / batch)",
            ),
        ),
    )
}

// --------------------------------------------------------------------- queues

/// The first port with a nonzero capacity of its own that is a back edge.
pub open spec fn bounded_back_edge(
    ports: Seq<Seq<char>>,
    limits: Seq<Option<usize>>,
    back_edges: Seq<Seq<char>>,
    k: int,
) -> Option<Seq<char>>
    decreases k,
{
    if k <= 0 {
        None
    } else if bounded_back_edge(ports, limits, back_edges, k - 1) is Some {
        bounded_back_edge(ports, limits, back_edges, k - 1)
    } else if limits[k - 1] is Some && limits[k - 1] != Some(0usize) && back_edges.contains(
        ports[k - 1],
    ) {
        Some(ports[k - 1])
    } else {
        None
    }
}

/// Whether some input port of the node has a lossless capacity.
pub open spec fn has_lossless_capacity(queues: QueuesView) -> bool {
    queues.packets != 0 || exists|i: int|
        0 <= i < queues.limits.len() && #[trigger] queues.limits[i] is Some && queues.limits[i]
            != Some(0usize)
}

/// What is wrong with the capacities of the input ports of a node.
pub open spec fn queues_problem(n: NodeView, names: Seq<Seq<char>>, place: Seq<char>) -> Option<
    ErrorView,
> {
    let who = n.who();
    let q = n.input_queues;
    let unknown = first_missing(q.ports, names);
    let bounded = bounded_back_edge(q.ports, q.limits, n.back_edges, q.ports.len() as int);
    if unknown is Some {
        let port = unknown->Some_0;
        refused(
            field_place(place, ".input_queues.ports."@ + port, who)
                + "input queue capacity override references unknown input port `"@ + port + "`"@
                + hint(port, names),
        )
    } else if bounded is Some {
        let port = bounded->Some_0;
        refused(
            field_place(place, ".input_queues.ports."@ + port, who)
                + "input queue capacity override for back-edge input `"@ + port
                + "` is not supported; back-edges always use their capacity-1 latest-value register"@,
        )
    } else if has_lossless_capacity(q) && n.input_policy.kind == "fixed_size"@ {
        refused(
            field_place(place, ".input_queues"@, who)
                + "lossless input queue capacities cannot be combined with input_policy=fixed_size (lossy drop-oldest)"@,
        )
    } else {
        None
    }
}

proof fn lemma_bounded_prefix(
    ports: Seq<Seq<char>>,
    limits: Seq<Option<usize>>,
    back_edges: Seq<Seq<char>>,
    k: int,
    n: int,
)
    requires
        0 <= k <= n,
        bounded_back_edge(ports, limits, back_edges, k) is Some,
    ensures
        bounded_back_edge(ports, limits, back_edges, n) == bounded_back_edge(
            ports,
            limits,
            back_edges,
            k,
        ),
    decreases n - k,
{
    if k < n {
        lemma_bounded_prefix(ports, limits, back_edges, k, n - 1);
    }
}

fn check_queues(n: &NodeConfig, names: &Vec<String>, place: &str, who: &str) -> (r: Result<
    (),
    Error,
>)
    requires
        who@ == n@.who(),
    ensures
        failure(r) == queues_problem(n@, texts(names@), place@),
{
    let ports = &n.input_queues.ports;
    let count: usize = ports.len();
    let ghost q = n@.input_queues;
    assert(q.ports.take(0) =~= Seq::empty());
    for i in 0..count
        invariant
            q == n@.input_queues,
            *ports == n.input_queues.ports,
            count == ports.keys().len(),
            count == ports.values().len(),
            who@ == n@.who(),
            first_missing(q.ports.take(i as int), texts(names@)) is None,
    {
        let port = ports.key_at(i).as_str();
        proof {
            assert(q.ports.take(i + 1).drop_last() =~= q.ports.take(i as int));
            assert(q.ports.take(i + 1).last() == port@);
        }
        if !contains_text(names, port) {
            proof {
                first_missing_prefix(q.ports, texts(names@), i + 1);
            }
            let candidates = candidates_of(names);
            let suggestion = did_you_mean(port, &candidates);
            let field = cat2(".input_queues.ports.", port);
            let at = field_place_of(place, field.as_str(), who);
            return Err(
                Error::InvalidArg(
                    cat5(
                        at.as_str(),
                        "input queue capacity override references unknown input port `",
                        port,
                        "`",
                        suggestion.as_str(),
                    ),
                ),
            );
        }
    }
    assert(q.ports.take(q.ports.len() as int) =~= q.ports);
    let mut lossless = n.input_queues.packets != 0;
    for i in 0..count
        invariant
            q == n@.input_queues,
            *ports == n.input_queues.ports,
            count == ports.keys().len(),
            count == ports.values().len(),
            who@ == n@.who(),
            first_missing(q.ports, texts(names@)) is None,
            bounded_back_edge(q.ports, q.limits, n@.back_edges, i as int) is None,
            lossless == (q.packets != 0 || exists|k: int|
                0 <= k < i && #[trigger] q.limits[k] is Some && q.limits[k] != Some(0usize)),
    {
        let port = ports.key_at(i).as_str();
        let limit: Option<usize> = ports.value_at(i).packets;
        assert(q.limits[i as int] == limit);
        assert(q.ports[i as int] == port@);
        let bounded = match limit {
            Some(capacity) => capacity != 0,
            None => false,
        };
        if bounded && contains_text(&n.back_edges, port) {
            proof {
                lemma_bounded_prefix(q.ports, q.limits, n@.back_edges, i + 1, count as int);
            }
            let field = cat2(".input_queues.ports.", port);
            let at = field_place_of(place, field.as_str(), who);
            return Err(
                Error::InvalidArg(
                    cat4(
                        at.as_str(),
                        "input queue capacity override for back-edge input `",
                        port,
                        "` is not supported; back-edges always use their capacity-1 latest-value register",
                    ),
                ),
            );
        }
        if bounded {
            lossless = true;
        }
    }
    if lossless && same(n.input_policy.kind.as_str(), "fixed_size") {
        let at = field_place_of(place, ".input_queues", who);
        return Err(
            Error::InvalidArg(
                cat2(
                    at.as_str(),
                    "lossless input queue capacities cannot be combined with input_policy=fixed_size (lossy drop-oldest)",
                ),
            ),
        );
    }
    Ok(())
}

// ------------------------------------------------------- errors and back edges

/// What is wrong with what a node does on errors.
pub open spec fn on_error_problem(n: NodeView, place: Seq<char>) -> Option<ErrorView> {
    if n.on_error.len() != 0 && n.on_error != "abort"@ && n.on_error != "skip"@ {
        refused(
            field_place(place, ".on_error"@, n.who()) + "unknown on_error `"@ + n.on_error + "`"@
                + hint(n.on_error, seq!["abort"@, "skip"@])
                + " (expected \"abort\" or \"skip\")"@,
        )
    } else {
        None
    }
}

fn check_on_error(n: &NodeConfig, place: &str, who: &str) -> (r: Result<(), Error>)
    requires
        who@ == n@.who(),
    ensures
        failure(r) == on_error_problem(n@, place@),
{
    let action = n.on_error.as_str();
    if !action.is_empty() && !same(action, "abort") && !same(action, "skip") {
        let names = vec!["abort", "skip"];
        assert(candidate_texts(names@) =~= seq!["abort"@, "skip"@]);
        let suggestion = did_you_mean(action, &names);
        let at = field_place_of(place, ".on_error", who);
        return Err(
            Error::InvalidArg(
                cat6(
                    at.as_str(),
                    "unknown on_error `",
                    action,
                    "`",
                    suggestion.as_str(),
                    " (expected \"abort\" or \"skip\")",
                ),
            ),
        );
    }
    Ok(())
}

/// The first name in a group that is a back edge, over all groups.
pub open spec fn grouped_back_edge(sets: Seq<Seq<Seq<char>>>, back_edges: Seq<Seq<char>>) -> Option<
    Seq<char>,
>
    decreases sets.len(),
{
    if sets.len() == 0 {
        None
    } else if grouped_back_edge(sets.drop_last(), back_edges) is Some {
        grouped_back_edge(sets.drop_last(), back_edges)
    } else {
        first_shared(sets.last(), back_edges)
    }
}

/// What is wrong with the back edges of a node: each is an input port, some
/// input port is none, and none is in a group of a `sync_set` policy.
pub open spec fn back_edges_problem(n: NodeView, names: Seq<Seq<char>>, place: Seq<char>) -> Option<
    ErrorView,
> {
    let who = n.who();
    let unknown = first_missing(n.back_edges, names);
    let grouped = grouped_back_edge(n.input_policy.sets, n.back_edges);
    if n.back_edges.len() == 0 {
        None
    } else if unknown is Some {
        refused(
            field_place(place, ".back_edges"@, who) + "back_edge `"@ + unknown->Some_0
                + "` is not one of this node's input ports"@ + hint(unknown->Some_0, names),
        )
    } else if first_missing(names, n.back_edges) is None {
        refused(
            field_place(place, ".back_edges"@, who)
                + "every input port is a back_edge -- a node needs at least one forward input to ever fire"@,
        )
    } else if n.input_policy.kind == "sync_set"@ && grouped is Some {
        refused(
            field_place(place, ".input_policy.sets"@, who) + "back_edge `"@ + grouped->Some_0
                + "` must not appear in a sync_set group"@,
        )
    } else {
        None
    }
}

proof fn lemma_grouped_prefix(
    sets: Seq<Seq<Seq<char>>>,
    back_edges: Seq<Seq<char>>,
    k: int,
)
    requires
        0 <= k <= sets.len(),
        grouped_back_edge(sets.take(k), back_edges) is Some,
    ensures
        grouped_back_edge(sets, back_edges) == grouped_back_edge(sets.take(k), back_edges),
    decreases sets.len() - k,
{
    if k < sets.len() {
        assert(sets.take(k + 1).drop_last() =~= sets.take(k));
        lemma_grouped_prefix(sets, back_edges, k + 1);
    } else {
        assert(sets.take(k) =~= sets);
    }
}

fn check_back_edges(n: &NodeConfig, names: &Vec<String>, place: &str, who: &str) -> (r: Result<
    (),
    Error,
>)
    requires
        who@ == n@.who(),
    ensures
        failure(r) == back_edges_problem(n@, texts(names@), place@),
{
    if n.back_edges.is_empty() {
        return Ok(());
    }
    match find_missing(&n.back_edges, names) {
        Some(i) => {
            let name = n.back_edges[i].as_str();
            let candidates = candidates_of(names);
            let suggestion = did_you_mean(name, &candidates);
            let at = field_place_of(place, ".back_edges", who);
            return Err(
                Error::InvalidArg(
                    cat5(
                        at.as_str(),
                        "back_edge `",
                        name,
                        "` is not one of this node's input ports",
                        suggestion.as_str(),
                    ),
                ),
            );
        },
        None => {},
    }
    if find_missing(names, &n.back_edges).is_none() {
        let at = field_place_of(place, ".back_edges", who);
        return Err(
            Error::InvalidArg(
                cat2(
                    at.as_str(),
                    "every input port is a back_edge -- a node needs at least one forward input to ever fire",
                ),
            ),
        );
    }
    if same(n.input_policy.kind.as_str(), "sync_set") {
        let sets = &n.input_policy.sets;
        let ghost groups = n@.input_policy.sets;
        assert(groups.take(0) =~= Seq::empty());
        for i in 0..sets.len()
            invariant
                *sets == n.input_policy.sets,
                groups == n@.input_policy.sets,
                who@ == n@.who(),
                n@.back_edges.len() != 0,
                first_missing(n@.back_edges, texts(names@)) is None,
                first_missing(texts(names@), n@.back_edges) is Some,
                n@.input_policy.kind == "sync_set"@,
                grouped_back_edge(groups.take(i as int), n@.back_edges) is None,
        {
            proof {
                assert(groups.take(i + 1).drop_last() =~= groups.take(i as int));
                assert(groups.take(i + 1).last() == texts(sets@[i as int]@));
            }
            match find_shared(&sets[i], &n.back_edges) {
                Some(k) => {
                    proof {
                        lemma_grouped_prefix(groups, n@.back_edges, i + 1);
                    }
                    let at = field_place_of(place, ".input_policy.sets", who);
                    return Err(
                        Error::InvalidArg(
                            cat4(
                                at.as_str(),
                                "back_edge `",
                                sets[i][k].as_str(),
                                "` must not appear in a sync_set group",
                            ),
                        ),
                    );
                },
                None => {},
            }
        }
        assert(groups.take(groups.len() as int) =~= groups);
    }
    Ok(())
}

// ------------------------------------------------------------ nodes and graphs

/// What is wrong with the ports of a node and what refers to them.
pub open spec fn ports_problem(n: NodeView, place: Seq<char>) -> Option<ErrorView> {
    match port_list(n.input_ports) {
        Err((k, e)) => Some(e.at(place + ".input_ports["@ + decimal(k as nat) + "]"@)),
        Ok(list) => first_failure(
            queues_problem(n, port_names(list), place),
            first_failure(
                on_error_problem(n, place),
                back_edges_problem(n, port_names(list), place),
            ),
        ),
    }
}

/// The first thing that is wrong with a node.
pub open spec fn node_problem(n: NodeView, index: nat) -> Option<ErrorView> {
    let place = node_place(index);
    first_failure(
        route_problem(n, place),
        first_failure(
            rate_problem(n, place),
            first_failure(
                policy_problem(n.input_policy, place, n.who()),
                ports_problem(n, place),
            ),
        ),
    )
}

/// The first thing that is wrong with a list of nodes.
pub open spec fn nodes_problem(nodes: Seq<NodeView>) -> Option<ErrorView>
    decreases nodes.len(),
{
    if nodes.len() == 0 {
        None
    } else {
        first_failure(
            nodes_problem(nodes.drop_last()),
            node_problem(nodes.last(), (nodes.len() - 1) as nat),
        )
    }
}

/// Whether there is an executor of that type. An empty text stands for a
/// thread pool.
pub open spec fn is_executor_kind(kind: Seq<char>) -> bool {
    kind.len() == 0 || kind == "ThreadPoolExecutor"@ || kind == "DelegatingExecutor"@
}

/// The first executor whose type does not exist.
pub open spec fn executors_problem(executors: Seq<ExecutorView>) -> Option<ErrorView>
    decreases executors.len(),
{
    if executors.len() == 0 {
        None
    } else if executors_problem(executors.drop_last()) is Some {
        executors_problem(executors.drop_last())
    } else if is_executor_kind(executors.last().kind) {
        None
    } else {
        let kind = executors.last().kind;
        refused(
            "executors["@ + decimal((executors.len() - 1) as nat)
                + "].type: unknown executor type `"@ + kind + "`"@ + hint(
                kind,
                seq!["ThreadPoolExecutor"@, "DelegatingExecutor"@],
            ) + " (supported: ThreadPoolExecutor, DelegatingExecutor)"@,
        )
    }
}

/// The first thing that is wrong with a configuration.
pub open spec fn graph_problem(g: GraphView) -> Option<ErrorView> {
    if g.stats is Some && g.stats_timing is Some {
        refused("`stats` and legacy `stats_timing` cannot be used together"@)
    } else {
        first_failure(nodes_problem(g.nodes), executors_problem(g.executors))
    }
}

proof fn lemma_nodes_prefix(nodes: Seq<NodeView>, k: int)
    requires
        0 <= k <= nodes.len(),
        nodes_problem(nodes.take(k)) is Some,
    ensures
        nodes_problem(nodes) == nodes_problem(nodes.take(k)),
    decreases nodes.len() - k,
{
    if k < nodes.len() {
        assert(nodes.take(k + 1).drop_last() =~= nodes.take(k));
        lemma_nodes_prefix(nodes, k + 1);
    } else {
        assert(nodes.take(k) =~= nodes);
    }
}

proof fn lemma_executors_prefix(executors: Seq<ExecutorView>, k: int)
    requires
        0 <= k <= executors.len(),
        executors_problem(executors.take(k)) is Some,
    ensures
        executors_problem(executors) == executors_problem(executors.take(k)),
    decreases executors.len() - k,
{
    if k < executors.len() {
        assert(executors.take(k + 1).drop_last() =~= executors.take(k));
        lemma_executors_prefix(executors, k + 1);
    } else {
        assert(executors.take(k) =~= executors);
    }
}

fn check_ports(n: &NodeConfig, place: &str, who: &str) -> (r: Result<(), Error>)
    requires
        who@ == n@.who(),
    ensures
        failure(r) == ports_problem(n@, place@),
{
    match parse_ports(&n.input_ports) {
        Err((k, e)) => {
            let number = decimal_of_size(k);
            let at = cat4(place, ".input_ports[", number.as_str(), "]");
            Err(e.context(at.as_str()))
        },
        Ok(list) => {
            let names = names_of(&list);
            check_queues(n, &names, place, who)?;
            check_on_error(n, place, who)?;
            check_back_edges(n, &names, place, who)
        },
    }
}

fn check_node(n: &NodeConfig, index: usize) -> (r: Result<(), Error>)
    ensures
        failure(r) == node_problem(n@, index as nat),
{
    let number = decimal_of_size(index);
    let place = cat3("nodes[", number.as_str(), "]");
    let who = if n.name.as_str().is_empty() {
        n.kernel.as_str()
    } else {
        n.name.as_str()
    };
    check_route(n, place.as_str(), who)?;
    check_rate(n, place.as_str(), who)?;
    check_policy(n, place.as_str(), who)?;
    check_ports(n, place.as_str(), who)
}

fn executor_kind_exists(kind: &str) -> (r: bool)
    ensures
        r == is_executor_kind(kind@),
{
    kind.is_empty() || same(kind, "ThreadPoolExecutor") || same(kind, "DelegatingExecutor")
}

impl GraphConfig {
    /// Refuses a configuration that breaks a rule, with the first rule that it
    /// breaks.
    pub fn check_supported(&self) -> (r: Result<(), Error>)
        ensures
            failure(r) == graph_problem(self@),
    {
        if self.stats.is_some() && self.stats_timing.is_some() {
            return Err(
                Error::InvalidArg(
                    "`stats` and legacy `stats_timing` cannot be used together".to_owned(),
                ),
            );
        }
        let ghost nodes = self@.nodes;
        assert(nodes.take(0) =~= Seq::empty());
        for i in 0..self.nodes.len()
            invariant
                nodes == self@.nodes,
                !(self.stats is Some && self.stats_timing is Some),
                nodes_problem(nodes.take(i as int)) is None,
        {
            proof {
                assert(nodes.take(i + 1).drop_last() =~= nodes.take(i as int));
                assert(nodes.take(i + 1).last() == self.nodes@[i as int]@);
            }
            match check_node(&self.nodes[i], i) {
                Ok(()) => {},
                Err(e) => {
                    proof {
                        lemma_nodes_prefix(nodes, i + 1);
                    }
                    return Err(e);
                },
            }
        }
        assert(nodes.take(nodes.len() as int) =~= nodes);
        let ghost executors = self@.executors;
        assert(executors.take(0) =~= Seq::empty());
        for i in 0..self.executors.len()
            invariant
                executors == self@.executors,
                !(self.stats is Some && self.stats_timing is Some),
                nodes_problem(self@.nodes) is None,
                executors_problem(executors.take(i as int)) is None,
        {
            proof {
                assert(executors.take(i + 1).drop_last() =~= executors.take(i as int));
                assert(executors.take(i + 1).last() == self.executors@[i as int]@);
            }
            let kind = self.executors[i].kind.as_str();
            if !executor_kind_exists(kind) {
                proof {
                    lemma_executors_prefix(executors, i + 1);
                }
                let names = vec!["ThreadPoolExecutor", "DelegatingExecutor"];
                assert(candidate_texts(names@) =~= seq![
                    "ThreadPoolExecutor"@,
                    "DelegatingExecutor"@,
                ]);
                let suggestion = did_you_mean(kind, &names);
                let number = decimal_of_size(i);
                return Err(
                    Error::InvalidArg(
                        cat7(
                            "executors[",
                            number.as_str(),
                            "].type: unknown executor type `",
                            kind,
                            "`",
                            suggestion.as_str(),
                            " (supported: ThreadPoolExecutor, DelegatingExecutor)",
                        ),
                    ),
                );
            }
        }
        assert(executors.take(executors.len() as int) =~= executors);
        Ok(())
    }
}

// -------------------------------------------------------------------- the laws

proof fn lemma_every_node(nodes: Seq<NodeView>, i: int)
    requires
        nodes_problem(nodes) is None,
        0 <= i < nodes.len(),
    ensures
        node_problem(nodes[i], i as nat) is None,
    decreases nodes.len(),
{
    if i < nodes.len() - 1 {
        lemma_every_node(nodes.drop_last(), i);
    }
}

proof fn lemma_every_rule(
    rules: Seq<RuleView>,
    outputs: Seq<Seq<char>>,
    place: Seq<char>,
    who: Seq<char>,
    i: int,
)
    requires
        rules_problem(rules, outputs, place, who) is None,
        0 <= i < rules.len(),
    ensures
        outputs.contains(rules[i].to),
        rules[i].default == (rules[i].when is None),
    decreases rules.len(),
{
    if i < rules.len() - 1 {
        lemma_every_rule(rules.drop_last(), outputs, place, who, i);
    }
}

/// The nodes of a configuration that is supported are sound: their ports can
/// be read, no queue drops everything, only a source has a rate, what happens
/// on errors is known, and a node that is fed back has a forward input too.
pub proof fn supported_nodes_are_sound(g: GraphView, i: int)
    requires
        graph_problem(g) is None,
        0 <= i < g.nodes.len(),
    ensures
        ({
            let n = g.nodes[i];
            let names = port_names(port_list(n.input_ports)->Ok_0);
            &&& port_list(n.input_ports) is Ok
            &&& policy_names().contains(n.input_policy.kind)
            &&& n.input_policy.kind == "fixed_size"@ || n.input_policy.kind == "batch"@
                ==> n.input_policy.capacity >= 1
            &&& n.rate.is_zero() || (n.input_ports.len() == 0 && n.rate.is_positive_finite())
            &&& n.on_error.len() == 0 || n.on_error == "abort"@ || n.on_error == "skip"@
            &&& forall|k: int|
                0 <= k < n.back_edges.len() ==> names.contains(#[trigger] n.back_edges[k])
            &&& n.back_edges.len() > 0 ==> exists|k: int|
                0 <= k < names.len() && !n.back_edges.contains(#[trigger] names[k])
        }),
{
    let n = g.nodes[i];
    let place = node_place(i as nat);
    lemma_every_node(g.nodes, i);
    assert(policy_problem(n.input_policy, place, n.who()) is None);
    assert(rate_problem(n, place) is None);
    assert(ports_problem(n, place) is None);
    lemma_known_policy(n.input_policy, place, n.who());
    lemma_sound_back_edges(n, place);
}

proof fn lemma_known_policy(policy: PolicyView, place: Seq<char>, who: Seq<char>)
    requires
        policy_problem(policy, place, who) is None,
    ensures
        policy_names().contains(policy.kind),
        policy.kind == "fixed_size"@ || policy.kind == "batch"@ ==> policy.capacity >= 1,
{
    reveal_strlit("sync");
    reveal_strlit("immediate");
    reveal_strlit("fixed_size");
    reveal_strlit("batch");
    let list = policy_names();
    assert(list[0] == "sync"@ && list[1] == "immediate"@ && list[2] == "fixed_size"@ && list[3]
        == "sync_set"@ && list[4] == "batch"@);
    if policy.kind == "sync"@ {
        assert(list.contains(list[0]));
    } else if policy.kind == "immediate"@ {
        assert(list.contains(list[1]));
    } else if policy.kind == "fixed_size"@ {
        assert(list.contains(list[2]));
    } else if policy.kind == "batch"@ {
        assert(list.contains(list[4]));
    } else {
        assert(list.contains(list[3]));
    }
}

proof fn lemma_sound_back_edges(n: NodeView, place: Seq<char>)
    requires
        ports_problem(n, place) is None,
    ensures
        ({
            let names = port_names(port_list(n.input_ports)->Ok_0);
            &&& port_list(n.input_ports) is Ok
            &&& n.on_error.len() == 0 || n.on_error == "abort"@ || n.on_error == "skip"@
            &&& forall|k: int|
                0 <= k < n.back_edges.len() ==> names.contains(#[trigger] n.back_edges[k])
            &&& n.back_edges.len() > 0 ==> exists|k: int|
                0 <= k < names.len() && !n.back_edges.contains(#[trigger] names[k])
        }),
{
    let names = port_names(port_list(n.input_ports)->Ok_0);
    assert(on_error_problem(n, place) is None);
    assert(back_edges_problem(n, names, place) is None);
    none_missing(n.back_edges, names);
    none_missing(names, n.back_edges);
}

/// A route node of a configuration that is supported has one input, no
/// kernel, and sends only to its outputs; at most one of its rules is the
/// default, and every other one has a condition.
pub proof fn supported_routes_are_sound(g: GraphView, i: int, r: int)
    requires
        graph_problem(g) is None,
        0 <= i < g.nodes.len(),
        g.nodes[i].kind == "route"@,
        0 <= r < g.nodes[i].route->Some_0.routes.len(),
    ensures
        ({
            let n = g.nodes[i];
            let route = n.route->Some_0;
            let outputs = port_names(port_list(n.output_ports)->Ok_0);
            &&& n.route is Some
            &&& n.kernel.len() == 0
            &&& n.input_ports.len() == 1
            &&& port_list(n.output_ports) is Ok
            &&& outputs.contains(route.routes[r].to)
            &&& route.routes[r].default == (route.routes[r].when is None)
            &&& !two_defaults(route.routes)
            &&& route.unmatched == "drop"@ || route.unmatched == "error"@ || outputs.contains(
                route.unmatched,
            )
        }),
{
    let n = g.nodes[i];
    lemma_every_node(g.nodes, i);
    let outputs = port_names(port_list(n.output_ports)->Ok_0);
    lemma_every_rule(n.route->Some_0.routes, outputs, node_place(i as nat), n.who(), r);
}

/// Every executor of a configuration that is supported is of a known type.
pub proof fn supported_executors_exist(g: GraphView, i: int)
    requires
        graph_problem(g) is None,
        0 <= i < g.executors.len(),
    ensures
        is_executor_kind(g.executors[i].kind),
{
    lemma_every_executor(g.executors, i);
}

proof fn lemma_every_executor(executors: Seq<ExecutorView>, i: int)
    requires
        executors_problem(executors) is None,
        0 <= i < executors.len(),
    ensures
        is_executor_kind(executors[i].kind),
    decreases executors.len(),
{
    if i < executors.len() - 1 {
        lemma_every_executor(executors.drop_last(), i);
    }
}

} // verus!

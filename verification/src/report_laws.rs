//! What is reported of a plan: warnings, summaries and suggestions.

use crate::config::{NodeView, RouteMode, RouteView, RuleView};
use crate::diagnostic::{better, close, distance, hint, is_best, suggested};
use crate::dot::{
    escape_reads_back, escaped, executor_text, node_line, node_lines, node_text, reading_attributes,
    unescaped,
};
use crate::kernel_laws::mentions_text;
use crate::plan::{PlanEdgeView, PlanNodeView, PlanView};
use crate::report::{
    edge_warning, edge_warnings, emits_twice, executor_warnings, in_use, repeat_warnings,
    route_warnings, same_condition, shadow_warnings, shadowing, warnings,
};
use crate::summary::{
    edge_line, edge_report, node_report, node_report_line, plain_report, plan_summary, requested,
};
use crate::text::{decimal, joined, text_less, text_less_total, text_less_transitive};
use vstd::prelude::*;

verus! {

// --------------------------------------------------------------------- warnings

/// A plan warns of an edge exactly if no node reads it and it is no graph
/// output, though it comes from somewhere; and says by its code where from.
pub proof fn plans_warn_of_unread_edges(p: PlanView, e: PlanEdgeView)
    ensures
        edge_warning(p, e).len() <= 1,
        edge_warning(p, e).len() == 1 <==> e.consumers.len() == 0 && !e.graph_output && (
        e.graph_input || e.producer is Some),
        edge_warning(p, e).len() == 1 ==> {
            let w = edge_warning(p, e)[0];
            &&& mentions_text(w.message, e.name)
            &&& e.graph_input ==> w.code == "unconsumed_graph_input"@
            &&& !e.graph_input ==> w.code == "unconsumed_node_output"@ && mentions_text(
                w.message,
                p.nodes[e.producer->Some_0 as int].name,
            )
        },
{
    if edge_warning(p, e).len() == 1 {
        let w = edge_warning(p, e)[0].message;
        if e.graph_input {
            let a = "graph input port `"@;
            assert(w.subrange(a.len() as int, (a.len() + e.name.len()) as int) =~= e.name);
        } else {
            let who = p.nodes[e.producer->Some_0 as int].name;
            let a = "node `"@;
            let b = "` output port `"@;
            assert(w.subrange(a.len() as int, (a.len() + who.len()) as int) =~= who);
            let at = a.len() + who.len() + b.len();
            assert(w.subrange(at as int, (at + e.name.len()) as int) =~= e.name);
        }
    }
}

/// One edge after the other is looked at, from the first to the last.
pub proof fn edges_are_looked_at_in_order(p: PlanView, k: nat)
    ensures
        edge_warnings(p, 0).len() == 0,
        edge_warnings(p, k + 1) == edge_warnings(p, k) + edge_warning(p, p.edges[k as int]),
{
}

/// A plan warns of an executor exactly if it has threads and no node runs on
/// it; and says how many threads these are.
pub proof fn plans_warn_of_unused_executors(p: PlanView, k: nat)
    ensures
        executor_warnings(p, 0).len() == 0,
        ({
            let e = p.config.executors[k as int];
            let (before, after) = (executor_warnings(p, k), executor_warnings(p, k + 1));
            let idle = e.kind != "DelegatingExecutor"@ && forall|i: int|
                0 <= i < p.nodes.len() ==> (#[trigger] p.nodes[i]).executor != e.name;
            let threads: nat = if e.num_threads == 0 {
                1
            } else {
                e.num_threads as nat
            };
            &&& idle ==> after.len() == before.len() + 1 && after.drop_last() == before
                && after.last().code == "unused_executor"@ && mentions_text(
                after.last().message,
                e.name,
            ) && mentions_text(after.last().message, decimal(threads))
            &&& !idle ==> after == before
        }),
{
    let e = p.config.executors[k as int];
    let (before, after) = (executor_warnings(p, k), executor_warnings(p, k + 1));
    let idle = e.kind != "DelegatingExecutor"@ && forall|i: int|
        0 <= i < p.nodes.len() ==> (#[trigger] p.nodes[i]).executor != e.name;
    let threads: nat = if e.num_threads == 0 {
        1
    } else {
        e.num_threads as nat
    };
    if in_use(p, e.name) {
        let i = choose|i: int|
            0 <= i < p.nodes.len() && (#[trigger] p.nodes[i]).executor == e.name;
        assert(p.nodes[i].executor == e.name);
    }
    if idle {
        assert(!in_use(p, e.name));
        assert(after.drop_last() =~= before);
        let w = after.last().message;
        let a = "executor `"@;
        let b = "` is defined but not used by any node ("@;
        assert(w.subrange(a.len() as int, (a.len() + e.name.len()) as int) =~= e.name);
        let at = a.len() + e.name.len() + b.len();
        assert(w.subrange(at as int, (at + decimal(threads).len()) as int) =~= decimal(threads));
    }
}

proof fn lemma_shadowing(rules: Seq<RuleView>, rule: RuleView, k: nat)
    requires
        k <= rules.len(),
    ensures
        shadowing(rules, rule, k) is None <==> forall|j: int|
            0 <= j < k ==> (#[trigger] rules[j]).default || !same_condition(
                rules[j].when,
                rule.when,
            ),
        shadowing(rules, rule, k) matches Some(j) ==> {
            &&& j < k
            &&& !rules[j as int].default
            &&& same_condition(rules[j as int].when, rule.when)
            &&& forall|i: int|
                0 <= i < j ==> (#[trigger] rules[i]).default || !same_condition(
                    rules[i].when,
                    rule.when,
                )
        },
    decreases k,
{
    if k > 0 {
        lemma_shadowing(rules, rule, (k - 1) as nat);
        if shadowing(rules, rule, (k - 1) as nat) is Some {
            let j = shadowing(rules, rule, (k - 1) as nat)->Some_0;
            assert(!rules[j as int].default);
        }
        if forall|j: int|
            0 <= j < k ==> (#[trigger] rules[j]).default || !same_condition(
                rules[j].when,
                rule.when,
            ) {
            assert(rules[k - 1].default || !same_condition(rules[k - 1].when, rule.when));
        }
    }
}

/// Of a node that follows the first rule that matches, a rule is warned about
/// exactly if an earlier one has the same condition, default rules aside; and
/// the warning numbers both, the earlier one being the first of its kind.
pub proof fn plans_warn_of_shadowed_rules(name: Seq<char>, rules: Seq<RuleView>, k: nat, j: nat)
    requires
        k < rules.len(),
        j < k,
        !rules[k as int].default,
        !rules[j as int].default,
        same_condition(rules[j as int].when, rules[k as int].when),
        forall|i: int|
            0 <= i < j ==> (#[trigger] rules[i]).default || !same_condition(
                rules[i].when,
                rules[k as int].when,
            ),
    ensures
        ({
            let (before, after) = (
                shadow_warnings(name, rules, k),
                shadow_warnings(name, rules, k + 1),
            );
            &&& after.len() == before.len() + 1
            &&& after.drop_last() == before
            &&& after.last().code == "route_shadowed_rule"@
            &&& mentions_text(after.last().message, name)
            &&& mentions_text(after.last().message, " rule "@ + decimal(k + 1))
            &&& mentions_text(after.last().message, "earlier rule "@ + decimal(j + 1))
        }),
{
    let rule = rules[k as int];
    lemma_shadowing(rules, rule, k);
    let found = shadowing(rules, rule, k)->Some_0;
    assert(shadowing(rules, rule, k) is Some) by {
        if shadowing(rules, rule, k) is None {
            assert(rules[j as int].default || !same_condition(rules[j as int].when, rule.when));
        }
    }
    if found < j {
        assert(rules[found as int].default || !same_condition(
            rules[found as int].when,
            rule.when,
        ));
    }
    if j < found {
        assert(rules[j as int].default || !same_condition(rules[j as int].when, rule.when));
    }
    let (before, after) = (shadow_warnings(name, rules, k), shadow_warnings(name, rules, k + 1));
    assert(after.drop_last() =~= before);
    let w = after.last().message;
    let a = "route node `"@;
    let b = "` rule "@;
    let c = " duplicates earlier rule "@;
    let d = "; first mode makes it unreachable"@;
    let (x, y) = (decimal(k + 1), decimal(j + 1));
    assert(w == a + name + b + x + c + y + d);
    assert(w.subrange(a.len() as int, (a.len() + name.len()) as int) =~= name);
    let at = (a.len() + name.len()) as int;
    assert(b =~= "`"@ + " rule "@) by {
        reveal_strlit("` rule ");
        reveal_strlit("`");
        reveal_strlit(" rule ");
    }
    assert("`"@.len() == 1) by {
        reveal_strlit("`");
    }
    let first = " rule "@ + x;
    assert(w.subrange(at + 1, at + 1 + first.len()) =~= first);
    assert(c =~= " duplicates "@ + "earlier rule "@) by {
        reveal_strlit(" duplicates earlier rule ");
        reveal_strlit(" duplicates ");
        reveal_strlit("earlier rule ");
    }
    let second = "earlier rule "@ + y;
    let from = at + b.len() + x.len() + " duplicates "@.len();
    assert(w.subrange(from, from + second.len()) =~= second);
}

/// A rule that no earlier one shadows, or that is a default rule, is not warned
/// about.
pub proof fn reachable_rules_are_not_warned_about(name: Seq<char>, rules: Seq<RuleView>, k: nat)
    requires
        k < rules.len(),
        rules[k as int].default || forall|j: int|
            0 <= j < k ==> (#[trigger] rules[j]).default || !same_condition(
                rules[j].when,
                rules[k as int].when,
            ),
    ensures
        shadow_warnings(name, rules, k + 1) == shadow_warnings(name, rules, k),
        shadow_warnings(name, rules, 0).len() == 0,
{
    lemma_shadowing(rules, rules[k as int], k);
}

/// Of a node that follows every rule that matches, a rule is warned about
/// exactly if an earlier one has the same condition and the same output,
/// default rules aside.
pub proof fn plans_warn_of_repeated_rules(name: Seq<char>, rules: Seq<RuleView>, k: nat)
    requires
        k < rules.len(),
    ensures
        repeat_warnings(name, rules, 0).len() == 0,
        ({
            let rule = rules[k as int];
            let (before, after) = (
                repeat_warnings(name, rules, k),
                repeat_warnings(name, rules, k + 1),
            );
            let twice = !rule.default && exists|j: int|
                0 <= j < k && !(#[trigger] rules[j]).default && rules[j].to == rule.to
                    && same_condition(rules[j].when, rule.when);
            &&& twice ==> after.len() == before.len() + 1 && after.drop_last() == before
                && after.last().code == "route_duplicate_emit"@ && mentions_text(
                after.last().message,
                rule.to,
            ) && mentions_text(after.last().message, decimal(k + 1))
            &&& !twice ==> after == before
        }),
{
    let rule = rules[k as int];
    let (before, after) = (repeat_warnings(name, rules, k), repeat_warnings(name, rules, k + 1));
    let twice = !rule.default && exists|j: int|
        0 <= j < k && !(#[trigger] rules[j]).default && rules[j].to == rule.to && same_condition(
            rules[j].when,
            rule.when,
        );
    if emits_twice(rules, k as int) {
        let j = choose|j: int|
            #![trigger rules[j]]
            0 <= j < k && !rules[k as int].default && !rules[j].default && rules[j].to
                == rules[k as int].to && same_condition(rules[j].when, rules[k as int].when);
        assert(!rules[j].default && rules[j].to == rule.to);
    }
    if twice {
        let j = choose|j: int|
            0 <= j < k && !(#[trigger] rules[j]).default && rules[j].to == rule.to
                && same_condition(rules[j].when, rule.when);
        assert(rules[j].to == rules[k as int].to);
        assert(emits_twice(rules, k as int));
        assert(after.drop_last() =~= before);
        let w = after.last().message;
        let a = "route node `"@;
        let b = "` rule "@;
        let c = " duplicates an earlier rule and may emit the same packet twice to `"@;
        let x = decimal(k + 1);
        let at = a.len() + name.len() + b.len();
        assert(w.subrange(at as int, (at + x.len()) as int) =~= x);
        let from = at + x.len() + c.len();
        assert(w.subrange(from as int, (from + rule.to.len()) as int) =~= rule.to);
    }
}

/// A route node with a default rule and something to do with what no rule
/// matches is warned about first. The mode of the node says what is warned
/// about next.
pub proof fn plans_warn_of_unreachable_rests(name: Seq<char>, route: RouteView)
    ensures
        ({
            let rules = route.routes;
            let rest = match route.mode {
                RouteMode::First => shadow_warnings(name, rules, rules.len()),
                RouteMode::All => repeat_warnings(name, rules, rules.len()),
            };
            let idle = route.unmatched != "drop"@ && exists|i: int|
                0 <= i < rules.len() && (#[trigger] rules[i]).default;
            let all = route_warnings(name, route);
            &&& idle ==> all.len() == rest.len() + 1 && all.skip(1) == rest && all[0].code
                == "route_unreachable_unmatched"@ && mentions_text(all[0].message, route.unmatched)
            &&& !idle ==> all == rest
        }),
{
    let rules = route.routes;
    let rest = match route.mode {
        RouteMode::First => shadow_warnings(name, rules, rules.len()),
        RouteMode::All => repeat_warnings(name, rules, rules.len()),
    };
    let all = route_warnings(name, route);
    let idle = route.unmatched != "drop"@ && exists|i: int|
        0 <= i < rules.len() && (#[trigger] rules[i]).default;
    if idle {
        assert(all.skip(1) =~= rest);
        let w = all[0].message;
        let a = "route node `"@;
        let b = "` has a default rule, so unmatched policy `"@;
        let at = a.len() + name.len() + b.len();
        assert(w.subrange(at as int, (at + route.unmatched.len()) as int) =~= route.unmatched);
    } else {
        assert(all =~= rest);
    }
}

// ------------------------------------------------------------------ suggestions

proof fn lemma_better_transitive(value: Seq<char>, a: Seq<char>, b: Seq<char>, c: Seq<char>)
    requires
        a == b || better(value, a, b),
        b == c || better(value, b, c),
    ensures
        a == c || better(value, a, c),
{
    if a != b && b != c && text_less(a, b) && text_less(b, c) {
        text_less_transitive(a, b, c);
    }
}

proof fn lemma_better_total(value: Seq<char>, a: Seq<char>, b: Seq<char>)
    ensures
        a == b || better(value, a, b) || better(value, b, a),
{
    text_less_total(a, b);
}

proof fn lemma_best(value: Seq<char>, candidates: Seq<Seq<char>>, i: int) -> (c: Seq<char>)
    requires
        value.len() > 0,
        0 <= i < candidates.len(),
        close(value, candidates[i]),
    ensures
        is_best(value, candidates, c),
    decreases candidates.len(),
{
    let front = candidates.drop_last();
    let last = candidates.last();
    assert forall|k: int| 0 <= k < front.len() implies front[k] == #[trigger] candidates[k] by {}
    if exists|k: int| 0 <= k < front.len() && close(value, #[trigger] front[k]) {
        let k = choose|k: int| 0 <= k < front.len() && close(value, #[trigger] front[k]);
        let best = lemma_best(value, front, k);
        let at = front.index_of(best);
        assert(candidates[at] == best);
        lemma_better_total(value, best, last);
        let c = if close(value, last) && better(value, last, best) {
            last
        } else {
            best
        };
        assert(candidates[candidates.len() - 1] == last);
        assert(candidates.contains(c));
        assert forall|m: int|
            0 <= m < candidates.len() && close(
                value,
                #[trigger] candidates[m],
            ) implies candidates[m] == c || better(value, c, candidates[m]) by {
            if m < front.len() {
                assert(close(value, front[m]));
                lemma_better_transitive(value, c, best, candidates[m]);
            }
        }
        c
    } else {
        assert(i == candidates.len() - 1) by {
            if i < front.len() {
                assert(close(value, front[i]));
            }
        }
        assert(candidates.contains(last));
        assert forall|m: int|
            0 <= m < candidates.len() && close(
                value,
                #[trigger] candidates[m],
            ) implies candidates[m] == last || better(value, last, candidates[m]) by {
            if m < front.len() {
                assert(close(value, front[m]));
            }
        }
        last
    }
}

/// What is suggested is a candidate at most two edits away, and no other
/// candidate is nearer; of those as near it is the first in order. A candidate
/// one edit away, or none, is always enough for a suggestion.
pub proof fn suggestions_are_nearest(value: Seq<char>, candidates: Seq<Seq<char>>, i: int)
    requires
        value.len() > 0,
        0 <= i < candidates.len(),
    ensures
        suggested(value, candidates) matches Some(c) ==> {
            &&& candidates.contains(c)
            &&& distance(value, c) <= 2
            &&& distance(value, c) <= distance(value, candidates[i])
            &&& distance(value, c) == distance(value, candidates[i]) && close(value, candidates[i])
                ==> c == candidates[i] || text_less(c, candidates[i])
            &&& hint(value, candidates) == "; did you mean `"@ + c + "`?"@
        },
        distance(value, candidates[i]) <= 1 ==> suggested(value, candidates) is Some,
        suggested(value, candidates) is None ==> hint(value, candidates).len() == 0,
{
    if close(value, candidates[i]) {
        let c = lemma_best(value, candidates, i);
        assert(is_best(value, candidates, c));
    }
    if suggested(value, candidates) is Some {
        let c = choose|c: Seq<char>| is_best(value, candidates, c);
        assert(is_best(value, candidates, c));
        if close(value, candidates[i]) {
            assert(candidates[i] == c || better(value, c, candidates[i]));
        }
    }
}

// -------------------------------------------------------------------- summaries

/// The arguments ask for a report exactly if they name the command and a path
/// and then say how it is to be written, not in two ways.
pub proof fn requests_are_understood(args: Seq<Seq<char>>)
    ensures
        requested(args) is Some <==> {
            &&& args.len() >= 2
            &&& args[0] == "check-config"@
            &&& forall|i: int|
                2 <= i < args.len() ==> #[trigger] args[i] == "--json"@ || args[i] == "--dot"@
            &&& forall|i: int, j: int|
                2 <= i < args.len() && 2 <= j < args.len() ==> !(#[trigger] args[i] == "--json"@
                    && #[trigger] args[j] == "--dot"@)
        },
        requested(args) matches Some((path, form)) ==> {
            &&& path == args[1]
            &&& form is Json <==> exists|i: int| 2 <= i < args.len() && #[trigger] args[i]
                == "--json"@
            &&& form is Dot <==> exists|i: int| 2 <= i < args.len() && #[trigger] args[i]
                == "--dot"@
        },
{
    reveal_strlit("--json");
    reveal_strlit("--dot");
    assert("--json"@.len() != "--dot"@.len());
    if args.len() >= 2 {
        let flags = args.skip(2);
        assert forall|i: int| 2 <= i < args.len() implies flags[i - 2] == #[trigger] args[i] by {}
        assert forall|w: Seq<char>| flags.contains(w) <==> exists|i: int|
            2 <= i < args.len() && #[trigger] args[i] == w by {
            if flags.contains(w) {
                let k = flags.index_of(w);
                assert(args[k + 2] == w);
            }
            if exists|i: int| 2 <= i < args.len() && #[trigger] args[i] == w {
                let i = choose|i: int| 2 <= i < args.len() && #[trigger] args[i] == w;
                assert(flags[i - 2] == w);
            }
        }
        if exists|i: int|
            0 <= i < flags.len() && #[trigger] flags[i] != "--json"@ && flags[i] != "--dot"@ {
            let k = choose|i: int|
                0 <= i < flags.len() && #[trigger] flags[i] != "--json"@ && flags[i] != "--dot"@;
            assert(args[k + 2] == flags[k]);
        } else {
            assert forall|i: int| 2 <= i < args.len() implies #[trigger] args[i] == "--json"@
                || args[i] == "--dot"@ by {
                assert(flags[i - 2] == args[i]);
            }
        }
        if flags.contains("--json"@) && flags.contains("--dot"@) {
            let i = choose|i: int| 2 <= i < args.len() && #[trigger] args[i] == "--json"@;
            let j = choose|j: int| 2 <= j < args.len() && #[trigger] args[j] == "--dot"@;
            assert(args[i] == "--json"@ && args[j] == "--dot"@);
        }
    }
}

proof fn lemma_edge_reported(p: PlanView, n: nat, k: int)
    requires
        0 <= k < n <= p.edges.len(),
    ensures
        mentions_text(edge_report(p, n), edge_line(p.edges[k])),
    decreases n,
{
    let before = edge_report(p, (n - 1) as nat);
    let all = edge_report(p, n);
    let line = edge_line(p.edges[k]);
    if k == n - 1 {
        assert(all.subrange(before.len() as int, (before.len() + line.len()) as int) =~= line);
    } else {
        lemma_edge_reported(p, (n - 1) as nat, k);
        lemma_mentions_front(before, edge_line(p.edges[n - 1]), line);
    }
}

proof fn lemma_node_reported(p: PlanView, n: nat, k: int)
    requires
        0 <= k < n <= p.config.nodes.len(),
    ensures
        mentions_text(node_report(p, n), node_report_line(p.config.nodes[k], k as nat)),
    decreases n,
{
    let before = node_report(p, (n - 1) as nat);
    let all = node_report(p, n);
    let line = node_report_line(p.config.nodes[k], k as nat);
    if k == n - 1 {
        assert(all.subrange(before.len() as int, (before.len() + line.len()) as int) =~= line);
    } else {
        lemma_node_reported(p, (n - 1) as nat, k);
        lemma_mentions_front(
            before,
            node_report_line(p.config.nodes[n - 1], (n - 1) as nat),
            line,
        );
    }
}

/// What a part of a text mentions, the text mentions.
pub proof fn lemma_mentions_front(a: Seq<char>, b: Seq<char>, s: Seq<char>)
    requires
        mentions_text(a, s),
    ensures
        mentions_text(a + b, s),
{
    let k = choose|k: int|
        0 <= k <= a.len() - s.len() && #[trigger] a.subrange(k, k + s.len()) == s;
    assert((a + b).subrange(k, k + s.len()) =~= a.subrange(k, k + s.len()));
}

/// What a part of a text mentions, the text mentions.
pub proof fn lemma_mentions_back(a: Seq<char>, b: Seq<char>, s: Seq<char>)
    requires
        mentions_text(b, s),
    ensures
        mentions_text(a + b, s),
{
    let k = choose|k: int|
        0 <= k <= b.len() - s.len() && #[trigger] b.subrange(k, k + s.len()) == s;
    let at = a.len() + k;
    assert((a + b).subrange(at, at + s.len()) =~= b.subrange(k, k + s.len()));
}

/// The report in plain text has a line for every edge, which says who makes it
/// and how many read it.
pub proof fn reports_tell_of_every_edge(path: Seq<char>, p: PlanView, k: int)
    requires
        0 <= k < p.edges.len(),
    ensures
        ({
            let e = p.edges[k];
            let maker = match e.producer {
                Some(i) => "nodes["@ + decimal(i as nat) + "]"@,
                None => "graph"@,
            };
            mentions_text(
                plain_report(path, p),
                "  edge "@ + e.name + ": producer="@ + maker + " consumers="@ + decimal(
                    e.consumers.len(),
                ) + "\n"@,
            )
        }),
{
    let line = edge_line(p.edges[k]);
    lemma_edge_reported(p, p.edges.len(), k);
    let counts = ("nodes: "@ + decimal(p.config.nodes.len()) + " | executors: "@ + decimal(
        p.config.executors.len(),
    )) + (" | graph inputs: "@ + decimal(p.config.input_ports.len()) + " | graph outputs: "@
        + decimal(p.config.output_ports.len()) + "\n"@);
    let head = "ok: "@ + path + "\n"@ + counts;
    let edges = edge_report(p, p.edges.len());
    let nodes = node_report(p, p.config.nodes.len());
    let end = "configuration-only preflight: no executors or kernel instances created\n"@;
    lemma_mentions_back(head, edges, line);
    lemma_mentions_front(head + edges, nodes, line);
    lemma_mentions_front(head + edges + nodes, end, line);
}

/// The report in plain text has a line for every node, which says what it is,
/// where it runs and how many ports it has.
pub proof fn reports_tell_of_every_node(path: Seq<char>, p: PlanView, k: int)
    requires
        0 <= k < p.config.nodes.len(),
    ensures
        ({
            let n = p.config.nodes[k];
            let name = if n.name.len() == 0 {
                "<unnamed>"@
            } else {
                n.name
            };
            let executor = if n.executor.len() == 0 {
                "default"@
            } else {
                n.executor
            };
            mentions_text(
                plain_report(path, p),
                "  node["@ + decimal(k as nat) + "] "@ + name + ": kernel="@ + n.kernel
                    + " executor="@ + (executor + " inputs="@ + decimal(n.input_ports.len())
                    + " outputs="@ + decimal(n.output_ports.len()) + "\n"@),
            )
        }),
{
    let line = node_report_line(p.config.nodes[k], k as nat);
    lemma_node_reported(p, p.config.nodes.len(), k);
    let counts = ("nodes: "@ + decimal(p.config.nodes.len()) + " | executors: "@ + decimal(
        p.config.executors.len(),
    )) + (" | graph inputs: "@ + decimal(p.config.input_ports.len()) + " | graph outputs: "@
        + decimal(p.config.output_ports.len()) + "\n"@);
    let head = "ok: "@ + path + "\n"@ + counts;
    let edges = edge_report(p, p.edges.len());
    let nodes = node_report(p, p.config.nodes.len());
    let end = "configuration-only preflight: no executors or kernel instances created\n"@;
    lemma_mentions_back(head + edges, nodes, line);
    lemma_mentions_front(head + edges + nodes, end, line);
}

/// A summary has every node, every executor and every edge of the plan at its
/// place, with the ports, the policy and the limits of the configuration.
pub proof fn summaries_are_complete(path: Seq<char>, p: PlanView, i: int, e: int, x: int)
    requires
        0 <= i < p.config.nodes.len(),
        0 <= e < p.edges.len(),
        0 <= x < p.config.executors.len(),
    ensures
        ({
            let s = plan_summary(path, p);
            let c = p.config.nodes[i];
            let n = s.nodes[i];
            let edge = s.edges[e];
            &&& s.path == path
            &&& s.nodes.len() == p.config.nodes.len()
            &&& s.edges.len() == p.edges.len()
            &&& s.executors.len() == p.config.executors.len()
            &&& s.diagnostics == warnings(p)
            &&& s.graph_inputs == p.config.input_ports
            &&& s.graph_outputs == p.config.output_ports
            &&& n.name == c.name
            &&& n.kind == c.kind
            &&& c.kind != "route"@ ==> n.kernel == c.kernel
            &&& n.inputs == c.input_ports
            &&& n.outputs == c.output_ports
            &&& n.input_policy == c.input_policy.kind
            &&& n.max_in_flight == c.max_in_flight
            &&& n.rate_bits == c.rate.bits
            &&& n.input_queue_packets == c.input_queues.packets
            &&& c.executor.len() > 0 ==> n.executor == c.executor
            &&& c.executor.len() == 0 ==> n.executor == "default"@
            &&& n.route is Some <==> c.route is Some
            &&& n.route matches Some(r) ==> r.unmatched == c.route->Some_0.unmatched
                && r.rules.len() == c.route->Some_0.routes.len()
            &&& edge.name == p.edges[e].name
            &&& edge.consumers.len() == p.edges[e].consumers.len()
            &&& p.edges[e].producer matches Some(m) ==> edge.producer == "nodes["@ + decimal(
                m as nat,
            ) + "]"@
            &&& p.edges[e].producer is None ==> edge.producer == "graph"@
            &&& forall|c: int|
                0 <= c < edge.consumers.len() ==> #[trigger] edge.consumers[c] == "nodes["@
                    + decimal(p.edges[e].consumers[c] as nat) + "]"@
            &&& s.executors[x].name == p.config.executors[x].name
            &&& s.executors[x].num_threads == p.config.executors[x].num_threads
            &&& p.config.executors[x].kind.len() > 0 ==> s.executors[x].kind
                == p.config.executors[x].kind
            &&& p.config.executors[x].kind.len() == 0 ==> s.executors[x].kind
                == "ThreadPoolExecutor"@
        }),
{
}

// --------------------------------------------------------------------- drawings

/// The label of a node in a drawing, read back, tells its name, its kernel, its
/// executor and its ports.
pub proof fn labels_tell_of_the_node(n: PlanNodeView)
    ensures
        ({
            let text = unescaped(escaped(node_text(n)));
            &&& mentions_text(text, n.name)
            &&& mentions_text(text, n.kernel)
            &&& mentions_text(text, "executor: "@ + n.executor)
            &&& mentions_text(text, "inputs: "@ + joined(n.inputs, ", "@))
            &&& mentions_text(text, "outputs: "@ + joined(n.outputs, ", "@))
        }),
{
    escape_reads_back(node_text(n));
    let w = node_text(n);
    let nl = "\\n"@;
    let (a, b, c) = ("\\nexecutor: "@, "\\ninputs: "@, "\\noutputs: "@);
    let (ins, outs) = (joined(n.inputs, ", "@), joined(n.outputs, ", "@));
    assert(nl.len() == 2) by {
        reveal_strlit("\\n");
    }
    assert(a =~= nl + "executor: "@) by {
        reveal_strlit("\\n");
        reveal_strlit("\\nexecutor: ");
        reveal_strlit("executor: ");
    }
    assert(b =~= nl + "inputs: "@) by {
        reveal_strlit("\\n");
        reveal_strlit("\\ninputs: ");
        reveal_strlit("inputs: ");
    }
    assert(c =~= nl + "outputs: "@) by {
        reveal_strlit("\\n");
        reveal_strlit("\\noutputs: ");
        reveal_strlit("outputs: ");
    }
    assert(w == n.name + nl + n.kernel + a + n.executor + b + ins + c + outs);
    let start: int = 0;
    assert(w.subrange(start, start + n.name.len()) =~= n.name);
    let k = (n.name.len() + 2) as int;
    assert(w.subrange(k, k + n.kernel.len()) =~= n.kernel);
    let x = "executor: "@ + n.executor;
    let at = k + n.kernel.len() + 2;
    assert(w.subrange(at, at + x.len()) =~= x);
    let y = "inputs: "@ + ins;
    let from = at + x.len() + 2;
    assert(w.subrange(from, from + y.len()) =~= y);
    let z = "outputs: "@ + outs;
    let last = from + y.len() + 2;
    assert(w.subrange(last, last + z.len()) =~= z);
}

/// A node stands in the box of an executor exactly if it runs on it.
pub proof fn boxes_hold_their_nodes(p: PlanView, executor: Seq<char>, k: nat)
    requires
        k < p.nodes.len(),
    ensures
        node_lines(p, executor, 0).len() == 0,
        p.nodes[k as int].executor == executor ==> node_lines(p, executor, k + 1) == node_lines(
            p,
            executor,
            k,
        ) + node_line(p.nodes[k as int]),
        p.nodes[k as int].executor != executor ==> node_lines(p, executor, k + 1) == node_lines(
            p,
            executor,
            k,
        ),
        mentions_text(
            node_line(p.nodes[k as int]),
            "    node_"@ + decimal(p.nodes[k as int].index as nat) + " [label="@,
        ),
{
    let n = p.nodes[k as int];
    let head = "    node_"@ + decimal(n.index as nat) + " [label="@;
    assert(" [label=\""@ =~= " [label="@ + "\""@) by {
        reveal_strlit(" [label=\"");
        reveal_strlit(" [label=");
        reveal_strlit("\"");
    }
    let start: int = 0;
    assert(node_line(n).subrange(start, start + head.len()) =~= head);
}

/// The box of an executor is titled with its name and its type, and with the
/// number of its threads if it says one.
pub proof fn boxes_are_titled(name: Seq<char>, kind: Seq<char>, threads: nat)
    ensures
        mentions_text(executor_text(name, kind, threads), name),
        mentions_text(executor_text(name, kind, threads), kind),
        threads > 0 ==> mentions_text(
            executor_text(name, kind, threads),
            decimal(threads) + "t"@,
        ),
{
    let w = executor_text(name, kind, threads);
    let dot = " · "@;
    let start: int = 0;
    assert(w.subrange(start, start + name.len()) =~= name);
    let at = (name.len() + dot.len()) as int;
    assert(w.subrange(at, at + kind.len()) =~= kind);
    if threads > 0 {
        let t = decimal(threads) + "t"@;
        let from = at + kind.len() + dot.len();
        assert(w.subrange(from, from + t.len()) =~= t);
    }
}

/// The line from an edge to a node that reads it says how many packets may
/// wait there, if that is limited: by the port itself, else by the node. It is
/// dashed exactly if the node is fed back through it.
pub proof fn readings_are_labelled(e: PlanEdgeView, n: NodeView)
    ensures
        ({
            let list = reading_attributes(e, n);
            let q = n.input_queues;
            let own = exists|i: int|
                0 <= i < q.ports.len() && #[trigger] q.ports[i] == e.name;
            &&& list[0] == "label=\""@ + escaped(e.name) + "\""@
            &&& !own && q.packets > 0 ==> list[1] == "xlabel=\"queue "@ + decimal(q.packets as nat)
                + " packets\""@
            &&& list.contains("style=dashed"@) <==> n.back_edges.contains(e.name)
        }),
        forall|i: int|
            #![trigger n.input_queues.ports[i]]
            0 <= i < n.input_queues.ports.len() && n.input_queues.ports[i] == e.name
                && n.input_queues.ports.no_duplicates() ==> n.capacity(e.name) == (
            match n.input_queues.limits[i] {
                Some(limit) => limit,
                None => n.input_queues.packets,
            }),
{
    let list = reading_attributes(e, n);
    let q = n.input_queues;
    if q.ports.contains(e.name) {
        let i = q.ports.index_of(e.name);
        assert(q.ports[i] == e.name);
    }
    assert forall|i: int|
        #![trigger q.ports[i]]
        0 <= i < q.ports.len() && q.ports[i] == e.name && q.ports.no_duplicates() implies n.capacity(
        e.name,
    ) == (match q.limits[i] {
        Some(limit) => limit,
        None => q.packets,
    }) by {
        assert(q.ports.contains(e.name));
        assert(q.ports.index_of(e.name) == i);
    }
    let dashed = "style=dashed"@;
    reveal_strlit("style=dashed");
    reveal_strlit("label=\"");
    reveal_strlit("xlabel=\"queue ");
    if n.back_edges.contains(e.name) {
        let at = if n.capacity(e.name) != 0 {
            2int
        } else {
            1int
        };
        assert(list[at] == dashed);
    }
    if list.contains(dashed) && !n.back_edges.contains(e.name) {
        let i = list.index_of(dashed);
        assert(list[i] == dashed);
        assert(dashed[0] == 's');
        if i == 0 {
            assert(list[0][0] == 'l');
        } else {
            assert(list[1][0] == 'x');
        }
    }
}

} // verus!

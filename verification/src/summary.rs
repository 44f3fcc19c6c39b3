//! What the command line reports about a configuration that was checked.

use crate::config::{
    ExecutorConfig, ExecutorView, NodeConfig, NodeView, RouteConfig, RouteRule, RouteView, RuleView,
    StatsLevel,
};
use crate::dot::executor_kind;
use crate::engine::copy_numbers;
use crate::plan::{GraphPlan, GraphPlanEdge, PlanEdgeView, PlanView};
use crate::report::{diagnostic_views, warnings, DiagnosticView, GraphPlanDiagnostic};
use crate::status::Error;
use crate::text::{
    cat2, cat3, cat4, cat5, cat6, cat7, clone_texts, decimal, decimal_of_size, same, texts,
};
use vstd::prelude::*;

verus! {

/// The exit code after a configuration that was accepted.
pub const EXIT_ACCEPTED: u8 = 0;

/// The exit code after a configuration that was refused.
pub const EXIT_REFUSED: u8 = 1;

/// The exit code after arguments that were not understood.
pub const EXIT_USAGE: u8 = 2;

// ------------------------------------------------------------------ arguments

/// How the command is used.
pub open spec fn usage_text() -> Seq<char> {
    "usage: lmflow check-config <graph.yaml> [--json|--dot]"@
}

/// How the command is used.
pub fn usage() -> (r: &'static str)
    ensures
        r@ == usage_text(),
{
    "usage: lmflow check-config <graph.yaml> [--json|--dot]"
}

/// The form of a report.
#[derive(Debug, Clone, Copy, PartialEq, Eq, Structural)]
pub enum Form {
    Text,
    Json,
    Dot,
}

/// What a report is asked of.
pub struct Request {
    pub path: String,
    pub form: Form,
}

/// What the arguments behind the name of the program ask for, if they are
/// understood.
pub open spec fn requested(args: Seq<Seq<char>>) -> Option<(Seq<char>, Form)> {
    let flags = args.skip(2);
    if args.len() < 2 || args[0] != "check-config"@ {
        None
    } else if exists|i: int|
        0 <= i < flags.len() && #[trigger] flags[i] != "--json"@ && flags[i] != "--dot"@ {
        None
    } else if flags.contains("--json"@) && flags.contains("--dot"@) {
        None
    } else if flags.contains("--dot"@) {
        Some((args[1], Form::Dot))
    } else if flags.contains("--json"@) {
        Some((args[1], Form::Json))
    } else {
        Some((args[1], Form::Text))
    }
}

/// Reads the arguments behind the name of the program.
pub fn read_arguments(args: &Vec<String>) -> (r: Option<Request>)
    ensures
        match r {
            Some(q) => requested(texts(args@)) == Some((q.path@, q.form)),
            None => requested(texts(args@)) is None,
        },
{
    let ghost all = texts(args@);
    let ghost flags = all.skip(2);
    if args.len() < 2 || !same(args[0].as_str(), "check-config") {
        return None;
    }
    let mut json = false;
    let mut dot = false;
    for i in 2..args.len()
        invariant
            args.len() >= 2,
            all == texts(args@),
            flags == all.skip(2),
            forall|k: int|
                0 <= k < i - 2 ==> #[trigger] flags[k] == "--json"@ || flags[k] == "--dot"@,
            json == flags.take(i - 2).contains("--json"@),
            dot == flags.take(i - 2).contains("--dot"@),
    {
        let ghost before = flags.take(i - 2);
        let ghost after = flags.take(i - 1);
        assert(flags[i - 2] == args@[i as int]@);
        assert(after =~= before.push(flags[i - 2]));
        assert(after[i - 2] == flags[i - 2]);
        assert forall|w: Seq<char>| before.contains(w) implies after.contains(w) by {
            let k = before.index_of(w);
            assert(after[k] == w);
        }
        assert forall|w: Seq<char>| after.contains(w) && w != flags[i - 2] implies before.contains(
            w,
        ) by {
            let k = after.index_of(w);
            assert(before[k] == w);
        }
        if same(args[i].as_str(), "--json") {
            json = true;
            proof {
                if "--json"@ != "--dot"@ {
                    assert(dot == after.contains("--dot"@));
                } else {
                    reveal_strlit("--json");
                    reveal_strlit("--dot");
                }
            }
        } else if same(args[i].as_str(), "--dot") {
            dot = true;
        } else {
            return None;
        }
    }
    assert(flags.take(args.len() - 2) =~= flags);
    if json && dot {
        return None;
    }
    assert(all[1] == args@[1]@);
    let form = if dot {
        Form::Dot
    } else if json {
        Form::Json
    } else {
        Form::Text
    };
    Some(Request { path: args[1].clone(), form })
}

// ----------------------------------------------------------------- the summary

/// A rule of a route node, as reported.
pub struct RuleSummary {
    pub to: String,
    pub default: bool,
    pub when: Option<String>,
}

/// The rules of a route node, as reported.
pub struct RouteSummary {
    pub mode: String,
    pub unmatched: String,
    pub rules: Vec<RuleSummary>,
}

/// A node, as reported.
pub struct NodeSummary {
    pub name: String,
    pub kernel: String,
    pub kind: String,
    pub route: Option<RouteSummary>,
    pub executor: String,
    pub inputs: Vec<String>,
    pub outputs: Vec<String>,
    pub input_policy: String,
    pub max_in_flight: usize,
    /// How often a source may produce, in the 64-bit floating point encoding.
    pub rate_bits: u64,
    pub input_queue_packets: usize,
}

/// An executor, as reported.
pub struct ExecutorSummary {
    pub name: String,
    pub kind: String,
    pub threads: usize,
    pub affinity: Vec<usize>,
    pub priority: i32,
}

/// An edge, as reported.
pub struct EdgeSummary {
    pub name: String,
    pub producer: String,
    pub consumers: Vec<String>,
}

/// A configuration that was accepted, as reported.
pub struct PlanSummary {
    pub path: String,
    pub nodes: Vec<NodeSummary>,
    pub diagnostics: Vec<GraphPlanDiagnostic>,
    pub executors: Vec<ExecutorSummary>,
    pub graph_inputs: Vec<String>,
    pub graph_outputs: Vec<String>,
    pub edges: Vec<EdgeSummary>,
    pub subgraphs_expanded: bool,
    pub stats: String,
}

/// A configuration that was refused, as reported.
pub struct RefusalSummary {
    pub path: String,
    pub message: String,
    pub code: i32,
}

#[verifier::ext_equal]
pub struct RuleSummaryView {
    pub to: Seq<char>,
    pub default: bool,
    pub when: Option<Seq<char>>,
}

#[verifier::ext_equal]
pub struct RouteSummaryView {
    pub mode: Seq<char>,
    pub unmatched: Seq<char>,
    pub rules: Seq<RuleSummaryView>,
}

#[verifier::ext_equal]
pub struct NodeSummaryView {
    pub name: Seq<char>,
    pub kernel: Seq<char>,
    pub kind: Seq<char>,
    pub route: Option<RouteSummaryView>,
    pub executor: Seq<char>,
    pub inputs: Seq<Seq<char>>,
    pub outputs: Seq<Seq<char>>,
    pub input_policy: Seq<char>,
    pub max_in_flight: usize,
    pub rate_bits: u64,
    pub input_queue_packets: usize,
}

#[verifier::ext_equal]
pub struct EdgeSummaryView {
    pub name: Seq<char>,
    pub producer: Seq<char>,
    pub consumers: Seq<Seq<char>>,
}

#[verifier::ext_equal]
pub struct PlanSummaryView {
    pub path: Seq<char>,
    pub nodes: Seq<NodeSummaryView>,
    pub diagnostics: Seq<DiagnosticView>,
    pub executors: Seq<ExecutorView>,
    pub graph_inputs: Seq<Seq<char>>,
    pub graph_outputs: Seq<Seq<char>>,
    pub edges: Seq<EdgeSummaryView>,
    pub subgraphs_expanded: bool,
    pub stats: Seq<char>,
}

impl View for RuleSummary {
    type V = RuleSummaryView;

    open spec fn view(&self) -> RuleSummaryView {
        RuleSummaryView {
            to: self.to@,
            default: self.default,
            when: match self.when {
                Some(w) => Some(w@),
                None => None,
            },
        }
    }
}

impl View for RouteSummary {
    type V = RouteSummaryView;

    open spec fn view(&self) -> RouteSummaryView {
        RouteSummaryView {
            mode: self.mode@,
            unmatched: self.unmatched@,
            rules: Seq::new(self.rules@.len(), |i: int| self.rules@[i]@),
        }
    }
}

impl View for NodeSummary {
    type V = NodeSummaryView;

    open spec fn view(&self) -> NodeSummaryView {
        NodeSummaryView {
            name: self.name@,
            kernel: self.kernel@,
            kind: self.kind@,
            route: match self.route {
                Some(r) => Some(r@),
                None => None,
            },
            executor: self.executor@,
            inputs: texts(self.inputs@),
            outputs: texts(self.outputs@),
            input_policy: self.input_policy@,
            max_in_flight: self.max_in_flight,
            rate_bits: self.rate_bits,
            input_queue_packets: self.input_queue_packets,
        }
    }
}

impl View for ExecutorSummary {
    type V = ExecutorView;

    open spec fn view(&self) -> ExecutorView {
        ExecutorView {
            name: self.name@,
            kind: self.kind@,
            num_threads: self.threads,
            affinity: self.affinity@,
            priority: self.priority,
        }
    }
}

impl View for EdgeSummary {
    type V = EdgeSummaryView;

    open spec fn view(&self) -> EdgeSummaryView {
        EdgeSummaryView {
            name: self.name@,
            producer: self.producer@,
            consumers: texts(self.consumers@),
        }
    }
}

impl View for PlanSummary {
    type V = PlanSummaryView;

    open spec fn view(&self) -> PlanSummaryView {
        PlanSummaryView {
            path: self.path@,
            nodes: Seq::new(self.nodes@.len(), |i: int| self.nodes@[i]@),
            diagnostics: diagnostic_views(self.diagnostics@),
            executors: Seq::new(self.executors@.len(), |i: int| self.executors@[i]@),
            graph_inputs: texts(self.graph_inputs@),
            graph_outputs: texts(self.graph_outputs@),
            edges: Seq::new(self.edges@.len(), |i: int| self.edges@[i]@),
            subgraphs_expanded: self.subgraphs_expanded,
            stats: self.stats@,
        }
    }
}

/// What is reported of a rule.
pub open spec fn rule_summary(rule: RuleView) -> RuleSummaryView {
    RuleSummaryView {
        to: rule.to,
        default: rule.default,
        when: match rule.when {
            Some(p) => Some(p.form),
            None => None,
        },
    }
}

/// What is reported of the rules of a node.
pub open spec fn route_summary(route: RouteView) -> RouteSummaryView {
    RouteSummaryView {
        mode: route.mode.word(),
        unmatched: route.unmatched,
        rules: Seq::new(route.routes.len(), |i: int| rule_summary(route.routes[i])),
    }
}

/// The executor of a node; an empty text stands for the default one.
pub open spec fn shown_executor(n: NodeView) -> Seq<char> {
    if n.executor.len() == 0 {
        "default"@
    } else {
        n.executor
    }
}

/// What is reported of a node.
pub open spec fn node_summary(n: NodeView) -> NodeSummaryView {
    NodeSummaryView {
        name: n.name,
        kernel: if n.kind == "route"@ {
            "__lmflow.route"@
        } else {
            n.kernel
        },
        kind: n.kind,
        route: match n.route {
            Some(r) => Some(route_summary(r)),
            None => None,
        },
        executor: shown_executor(n),
        inputs: n.input_ports,
        outputs: n.output_ports,
        input_policy: n.input_policy.kind,
        max_in_flight: n.max_in_flight,
        rate_bits: n.rate.bits,
        input_queue_packets: n.input_queues.packets,
    }
}

/// What is reported of an executor.
pub open spec fn executor_summary(e: ExecutorView) -> ExecutorView {
    ExecutorView { kind: executor_kind(e), ..e }
}

/// A node by its number.
pub open spec fn node_place(index: usize) -> Seq<char> {
    "nodes["@ + decimal(index as nat) + "]"@
}

/// Who makes what an edge carries.
pub open spec fn producer_place(e: PlanEdgeView) -> Seq<char> {
    match e.producer {
        Some(i) => node_place(i),
        None => "graph"@,
    }
}

/// What is reported of an edge.
pub open spec fn edge_summary(e: PlanEdgeView) -> EdgeSummaryView {
    EdgeSummaryView {
        name: e.name,
        producer: producer_place(e),
        consumers: Seq::new(e.consumers.len(), |i: int| node_place(e.consumers[i])),
    }
}

/// What is reported of a configuration that was accepted.
pub open spec fn plan_summary(path: Seq<char>, p: PlanView) -> PlanSummaryView {
    PlanSummaryView {
        path,
        nodes: Seq::new(p.config.nodes.len(), |i: int| node_summary(p.config.nodes[i])),
        diagnostics: warnings(p),
        executors: Seq::new(
            p.config.executors.len(),
            |i: int| executor_summary(p.config.executors[i]),
        ),
        graph_inputs: p.config.input_ports,
        graph_outputs: p.config.output_ports,
        edges: Seq::new(p.edges.len(), |i: int| edge_summary(p.edges[i])),
        subgraphs_expanded: p.config.subgraphs.dom() =~= Set::empty(),
        stats: p.config.effective_stats_level().word(),
    }
}

fn summarize_rule(rule: &RouteRule) -> (r: RuleSummary)
    ensures
        r@ == rule_summary(rule@),
{
    RuleSummary {
        to: rule.to.clone(),
        default: rule.default,
        when: match &rule.when {
            Some(p) => Some(p.summary()),
            None => None,
        },
    }
}

fn summarize_route(route: &RouteConfig) -> (r: RouteSummary)
    ensures
        r@ == route_summary(route@),
{
    let mut rules: Vec<RuleSummary> = Vec::new();
    for i in 0..route.routes.len()
        invariant
            rules@.len() == i,
            forall|k: int| 0 <= k < i ==> (#[trigger] rules@[k])@ == rule_summary(route.routes@[k]@),
    {
        rules.push(summarize_rule(&route.routes[i]));
    }
    let r = RouteSummary {
        mode: route.mode.as_str().to_owned(),
        unmatched: route.unmatched.clone(),
        rules,
    };
    assert(r@.rules =~= route_summary(route@).rules);
    r
}

fn summarize_node(n: &NodeConfig) -> (r: NodeSummary)
    ensures
        r@ == node_summary(n@),
{
    NodeSummary {
        name: n.name.clone(),
        kernel: if same(n.kind.as_str(), "route") {
            "__lmflow.route".to_owned()
        } else {
            n.kernel.clone()
        },
        kind: n.kind.clone(),
        route: match &n.route {
            Some(route) => Some(summarize_route(route)),
            None => None,
        },
        executor: if n.executor.as_str().is_empty() {
            "default".to_owned()
        } else {
            n.executor.clone()
        },
        inputs: clone_texts(&n.input_ports),
        outputs: clone_texts(&n.output_ports),
        input_policy: n.input_policy.kind.clone(),
        max_in_flight: n.max_in_flight,
        rate_bits: n.rate.bits,
        input_queue_packets: n.input_queues.packets,
    }
}

fn summarize_executor(e: &ExecutorConfig) -> (r: ExecutorSummary)
    ensures
        r@ == executor_summary(e@),
{
    ExecutorSummary {
        name: e.name.clone(),
        kind: if e.kind.as_str().is_empty() {
            "ThreadPoolExecutor".to_owned()
        } else {
            e.kind.clone()
        },
        threads: e.num_threads,
        affinity: copy_numbers(&e.affinity),
        priority: e.priority,
    }
}

fn place_of(index: usize) -> (r: String)
    ensures
        r@ == node_place(index),
{
    let number = decimal_of_size(index);
    cat3("nodes[", number.as_str(), "]")
}

fn producer_of(e: &GraphPlanEdge) -> (r: String)
    ensures
        r@ == producer_place(e@),
{
    match e.producer {
        Some(i) => place_of(i),
        None => "graph".to_owned(),
    }
}

fn summarize_edge(e: &GraphPlanEdge) -> (r: EdgeSummary)
    ensures
        r@ == edge_summary(e@),
{
    let mut consumers: Vec<String> = Vec::new();
    for i in 0..e.consumers.len()
        invariant
            consumers@.len() == i,
            forall|k: int| 0 <= k < i ==> (#[trigger] consumers@[k])@ == node_place(e.consumers@[k]),
    {
        consumers.push(place_of(e.consumers[i]));
    }
    let r = EdgeSummary { name: e.name.clone(), producer: producer_of(e), consumers };
    assert(r@.consumers =~= edge_summary(e@).consumers);
    r
}

/// The word that stands for a level of statistics.
pub fn stats_name(level: StatsLevel) -> (r: &'static str)
    ensures
        r@ == level.word(),
{
    level.as_str()
}

/// What is reported of a configuration that was accepted, for a report in
/// the JSON format.
pub fn summary_json(path: &str, plan: &GraphPlan) -> (r: PlanSummary)
    requires
        plan@.wf(),
    ensures
        r@ == plan_summary(path@, plan@),
{
    let ghost p = plan@;
    let mut nodes: Vec<NodeSummary> = Vec::new();
    for i in 0..plan.config.nodes.len()
        invariant
            nodes@.len() == i,
            forall|k: int|
                0 <= k < i ==> (#[trigger] nodes@[k])@ == node_summary(plan.config.nodes@[k]@),
    {
        nodes.push(summarize_node(&plan.config.nodes[i]));
    }
    let mut executors: Vec<ExecutorSummary> = Vec::new();
    for i in 0..plan.config.executors.len()
        invariant
            executors@.len() == i,
            forall|k: int|
                0 <= k < i ==> (#[trigger] executors@[k])@ == executor_summary(
                    plan.config.executors@[k]@,
                ),
    {
        executors.push(summarize_executor(&plan.config.executors[i]));
    }
    let mut edges: Vec<EdgeSummary> = Vec::new();
    for i in 0..plan.edges.len()
        invariant
            edges@.len() == i,
            forall|k: int| 0 <= k < i ==> (#[trigger] edges@[k])@ == edge_summary(plan.edges@[k]@),
    {
        edges.push(summarize_edge(&plan.edges[i]));
    }
    let r = PlanSummary {
        path: path.to_owned(),
        nodes,
        diagnostics: plan.diagnostics(),
        executors,
        graph_inputs: clone_texts(&plan.config.input_ports),
        graph_outputs: clone_texts(&plan.config.output_ports),
        edges,
        subgraphs_expanded: plan.config.subgraphs.is_empty(),
        stats: stats_name(plan.config.effective_stats_level()).to_owned(),
    };
    proof {
        let target = plan_summary(path@, p);
        assert(r@.nodes =~= target.nodes);
        assert(r@.executors =~= target.executors);
        assert(r@.edges =~= target.edges);
        assert(p.config.subgraphs.dom() =~= plan.config.subgraphs@.dom());
        if p.config.subgraphs.dom() =~= Set::empty() {
            assert(plan.config.subgraphs@ =~= Map::empty());
        }
        assert(r@.subgraphs_expanded == target.subgraphs_expanded);
    }
    r
}

/// What is reported of a configuration that was refused.
pub fn summarize_refusal(path: &str, error: &Error) -> (r: RefusalSummary)
    ensures
        r.path@ == path@,
        r.message@ == error@.text(),
        r.code == error@.code(),
{
    RefusalSummary { path: path.to_owned(), message: error.text(), code: error.code() }
}

/// The line that says why a configuration was refused.
pub fn refusal_line(error: &Error) -> (r: String)
    ensures
        r@ == "check-config: "@ + error@.text(),
{
    let text = error.text();
    cat2("check-config: ", text.as_str())
}

// -------------------------------------------------------------- the plain text

/// The line about an edge.
pub open spec fn edge_line(e: PlanEdgeView) -> Seq<char> {
    "  edge "@ + e.name + ": producer="@ + producer_place(e) + " consumers="@ + decimal(
        e.consumers.len(),
    ) + "\n"@
}

/// The lines about the first `k` edges.
pub open spec fn edge_report(p: PlanView, k: nat) -> Seq<char>
    decreases k,
{
    if k == 0 {
        Seq::empty()
    } else {
        edge_report(p, (k - 1) as nat) + edge_line(p.edges[k - 1])
    }
}

/// The line about a node.
pub open spec fn node_report_line(n: NodeView, index: nat) -> Seq<char> {
    let name = if n.name.len() == 0 {
        "<unnamed>"@
    } else {
        n.name
    };
    ("  node["@ + decimal(index) + "] "@ + name + ": kernel="@ + n.kernel + " executor="@) + (
    shown_executor(n) + " inputs="@ + decimal(n.input_ports.len()) + " outputs="@ + decimal(
        n.output_ports.len(),
    ) + "\n"@)
}

/// The lines about the first `k` nodes.
pub open spec fn node_report(p: PlanView, k: nat) -> Seq<char>
    decreases k,
{
    if k == 0 {
        Seq::empty()
    } else {
        node_report(p, (k - 1) as nat) + node_report_line(p.config.nodes[k - 1], (k - 1) as nat)
    }
}

/// The report in plain text.
pub open spec fn plain_report(path: Seq<char>, p: PlanView) -> Seq<char> {
    let counts = ("nodes: "@ + decimal(p.config.nodes.len()) + " | executors: "@ + decimal(
        p.config.executors.len(),
    )) + (" | graph inputs: "@ + decimal(p.config.input_ports.len()) + " | graph outputs: "@
        + decimal(p.config.output_ports.len()) + "\n"@);
    "ok: "@ + path + "\n"@ + counts + edge_report(p, p.edges.len()) + node_report(
        p,
        p.config.nodes.len(),
    ) + "configuration-only preflight: no executors or kernel instances created\n"@
}

fn line_of_node(n: &NodeConfig, index: usize) -> (r: String)
    ensures
        r@ == node_report_line(n@, index as nat),
{
    let name = if n.name.as_str().is_empty() {
        "<unnamed>"
    } else {
        n.name.as_str()
    };
    let executor = if n.executor.as_str().is_empty() {
        "default"
    } else {
        n.executor.as_str()
    };
    let number = decimal_of_size(index);
    let inputs = decimal_of_size(n.input_ports.len());
    let outputs = decimal_of_size(n.output_ports.len());
    let front = cat7(
        "  node[",
        number.as_str(),
        "] ",
        name,
        ": kernel=",
        n.kernel.as_str(),
        " executor=",
    );
    let back = cat6(executor, " inputs=", inputs.as_str(), " outputs=", outputs.as_str(), "\n");
    cat2(front.as_str(), back.as_str())
}

/// The report in plain text about a configuration that was accepted.
pub fn print_summary(path: &str, plan: &GraphPlan) -> (r: String)
    ensures
        r@ == plain_report(path@, plan@),
{
    let ghost p = plan@;
    let config = &plan.config;
    let nodes = decimal_of_size(config.nodes.len());
    let executors = decimal_of_size(config.executors.len());
    let inputs = decimal_of_size(config.input_ports.len());
    let outputs = decimal_of_size(config.output_ports.len());
    let front = cat4("nodes: ", nodes.as_str(), " | executors: ", executors.as_str());
    let back = cat5(
        " | graph inputs: ",
        inputs.as_str(),
        " | graph outputs: ",
        outputs.as_str(),
        "\n",
    );
    let counts = cat2(front.as_str(), back.as_str());
    let mut edge_lines = String::new();
    for k in 0..plan.edges.len()
        invariant
            p == plan@,
            edge_lines@ == edge_report(p, k as nat),
    {
        let e = &plan.edges[k];
        assert(p.edges[k as int] == e@);
        let producer = producer_of(e);
        let number = decimal_of_size(e.consumers.len());
        let line = cat7(
            "  edge ",
            e.name.as_str(),
            ": producer=",
            producer.as_str(),
            " consumers=",
            number.as_str(),
            "\n",
        );
        edge_lines.append(line.as_str());
    }
    let mut node_lines = String::new();
    for k in 0..plan.config.nodes.len()
        invariant
            p == plan@,
            node_lines@ == node_report(p, k as nat),
    {
        let n = &plan.config.nodes[k];
        assert(p.config.nodes[k as int] == n@);
        let line = line_of_node(n, k);
        node_lines.append(line.as_str());
    }
    cat7(
        "ok: ",
        path,
        "\n",
        counts.as_str(),
        edge_lines.as_str(),
        node_lines.as_str(),
        "configuration-only preflight: no executors or kernel instances created\n",
    )
}

} // verus!

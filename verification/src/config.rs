//! The configuration of a graph.

use crate::status::{failure, Error, ErrorView};
use crate::text::{clone_texts, same, texts};
use crate::text_map::TextMap;
use crate::yaml::{yaml_content, yaml_copy, yaml_null, YamlView};
use vstd::prelude::*;

verus! {

/// Which of the matching rules of a route node are followed.
#[derive(Debug, Clone, Copy, PartialEq, Eq, Structural)]
pub enum RouteMode {
    First,
    All,
}

/// How much a running graph records about itself.
#[derive(Debug, Clone, Copy, PartialEq, Eq, Structural)]
pub enum StatsLevel {
    /// Only what scheduling and error handling need.
    Off,
    /// Throughput, queues and backpressure.
    Basic,
    /// Durations, percentiles and executor diagnostics as well.
    Full,
}

/// A condition on the metadata of a packet.
#[derive(Debug)]
pub struct MetadataPredicate {
    /// The normal form of the condition: equal conditions have equal forms.
    pub form: String,
    /// What is wrong with the condition, if anything is.
    pub problem: Option<String>,
}

/// A rule of a route node.
#[derive(Debug)]
pub struct RouteRule {
    pub to: String,
    pub when: Option<MetadataPredicate>,
    pub default: bool,
}

/// The rules of a route node.
#[derive(Debug)]
pub struct RouteConfig {
    pub mode: RouteMode,
    pub unmatched: String,
    pub routes: Vec<RouteRule>,
}

/// An executor that nodes can run on.
#[derive(Debug)]
pub struct ExecutorConfig {
    /// The name by which nodes refer to it. `default` is reserved.
    pub name: String,
    /// `ThreadPoolExecutor`, which an empty text stands for too, or
    /// `DelegatingExecutor`.
    pub kind: String,
    /// The number of threads of a pool; zero stands for one.
    pub num_threads: usize,
    /// The cores that the threads are bound to in turn; none if empty.
    pub affinity: Vec<usize>,
    /// The real-time priority; zero leaves it alone.
    pub priority: i32,
}

/// When a node with several inputs is ready.
#[derive(Debug)]
pub struct InputPolicyConfig {
    pub kind: String,
    pub capacity: usize,
    /// The groups of input ports of a `sync_set` policy.
    pub sets: Vec<Vec<String>>,
}

/// The capacity of one input port.
#[derive(Debug, Clone, Copy, PartialEq, Eq, Structural)]
pub struct InputQueueLimitConfig {
    /// `None`: the capacity of the node. Zero: no limit.
    pub packets: Option<usize>,
}

/// The capacities of the input ports of a node.
pub struct InputQueuesConfig {
    /// The capacity of every forward input port; zero is no limit.
    pub packets: usize,
    /// Other capacities for some of the ports.
    pub ports: TextMap<InputQueueLimitConfig>,
}

/// How often a source may produce, in hertz.
#[derive(Debug)]
pub struct Rate {
    /// The number in its 64-bit floating point encoding.
    pub bits: u64,
    /// The number as it is shown.
    pub shown: String,
}

/// A node of a graph.
pub struct NodeConfig {
    /// Where an expanded node was written down, for messages.
    pub source_path: String,
    pub name: String,
    /// The kernel of a kernel node.
    pub kernel: String,
    pub input_ports: Vec<String>,
    pub output_ports: Vec<String>,
    /// The executor that the node runs on; the default one if empty.
    pub executor: String,
    pub max_in_flight: usize,
    pub options: serde_yaml::Value,
    pub input_policy: InputPolicyConfig,
    pub input_queues: InputQueuesConfig,
    /// `route` for a route node, the name of a subgraph for an instance of
    /// it, else empty.
    pub kind: String,
    /// The input ports that hold the latest fed back value.
    pub back_edges: Vec<String>,
    /// What happens when the kernel fails: `abort` or `skip`.
    pub on_error: String,
    pub rate: Rate,
    pub route: Option<RouteConfig>,
}

/// A graph that others can use as a node.
pub struct SubgraphConfig {
    pub nodes: Vec<NodeConfig>,
    pub input_ports: Vec<String>,
    pub output_ports: Vec<String>,
}

/// The configuration of a graph.
pub struct GraphConfig {
    pub executors: Vec<ExecutorConfig>,
    pub nodes: Vec<NodeConfig>,
    /// Other files whose subgraphs are used.
    pub includes: Vec<String>,
    pub subgraphs: TextMap<SubgraphConfig>,
    pub input_ports: Vec<String>,
    pub output_ports: Vec<String>,
    /// The limit of the queue of a graph input and the soft limit of every
    /// other queue.
    pub max_queue_size: usize,
    /// The limit of packets in flight; zero is no limit.
    pub max_queued_packets: usize,
    /// The limit of bytes in flight; zero is no limit.
    pub max_queued_bytes: u64,
    /// A kernel call that takes longer is warned about; zero switches it off.
    pub watchdog_ms: u64,
    pub buffer_pool_max_bytes: usize,
    pub stats: Option<StatsLevel>,
    /// The older way to say `stats`: `true` is full, `false` is basic.
    pub stats_timing: Option<bool>,
    /// How many kernel calls a trace holds; zero switches it off.
    pub trace_capacity: usize,
}

// ------------------------------------------------------------------ the model

#[verifier::ext_equal]
pub struct PredicateView {
    pub form: Seq<char>,
    pub problem: Option<Seq<char>>,
}

#[verifier::ext_equal]
pub struct RuleView {
    pub to: Seq<char>,
    pub when: Option<PredicateView>,
    pub default: bool,
}

#[verifier::ext_equal]
pub struct RouteView {
    pub mode: RouteMode,
    pub unmatched: Seq<char>,
    pub routes: Seq<RuleView>,
}

#[verifier::ext_equal]
pub struct ExecutorView {
    pub name: Seq<char>,
    pub kind: Seq<char>,
    pub num_threads: usize,
    pub affinity: Seq<usize>,
    pub priority: i32,
}

#[verifier::ext_equal]
pub struct PolicyView {
    pub kind: Seq<char>,
    pub capacity: usize,
    pub sets: Seq<Seq<Seq<char>>>,
}

#[verifier::ext_equal]
pub struct QueuesView {
    pub packets: usize,
    /// The ports with a capacity of their own, in order, and that capacity.
    pub ports: Seq<Seq<char>>,
    pub limits: Seq<Option<usize>>,
}

#[verifier::ext_equal]
pub struct RateView {
    pub bits: u64,
    pub shown: Seq<char>,
}

#[verifier::ext_equal]
pub struct NodeView {
    pub source_path: Seq<char>,
    pub name: Seq<char>,
    pub kernel: Seq<char>,
    pub input_ports: Seq<Seq<char>>,
    pub output_ports: Seq<Seq<char>>,
    pub executor: Seq<char>,
    pub max_in_flight: usize,
    pub options: YamlView,
    pub input_policy: PolicyView,
    pub input_queues: QueuesView,
    pub kind: Seq<char>,
    pub back_edges: Seq<Seq<char>>,
    pub on_error: Seq<char>,
    pub rate: RateView,
    pub route: Option<RouteView>,
}

#[verifier::ext_equal]
pub struct SubgraphView {
    pub nodes: Seq<NodeView>,
    pub input_ports: Seq<Seq<char>>,
    pub output_ports: Seq<Seq<char>>,
}

#[verifier::ext_equal]
pub struct GraphView {
    pub executors: Seq<ExecutorView>,
    pub nodes: Seq<NodeView>,
    pub includes: Seq<Seq<char>>,
    pub subgraphs: Map<Seq<char>, SubgraphView>,
    pub input_ports: Seq<Seq<char>>,
    pub output_ports: Seq<Seq<char>>,
    pub max_queue_size: usize,
    pub max_queued_packets: usize,
    pub max_queued_bytes: u64,
    pub watchdog_ms: u64,
    pub buffer_pool_max_bytes: usize,
    pub stats: Option<StatsLevel>,
    pub stats_timing: Option<bool>,
    pub trace_capacity: usize,
}

pub open spec fn optional_text(s: Option<String>) -> Option<Seq<char>> {
    match s {
        Some(t) => Some(t@),
        None => None,
    }
}

impl View for MetadataPredicate {
    type V = PredicateView;

    open spec fn view(&self) -> PredicateView {
        PredicateView { form: self.form@, problem: optional_text(self.problem) }
    }
}

impl View for RouteRule {
    type V = RuleView;

    open spec fn view(&self) -> RuleView {
        RuleView {
            to: self.to@,
            when: match self.when {
                Some(p) => Some(p@),
                None => None,
            },
            default: self.default,
        }
    }
}

pub open spec fn rule_views(rules: Seq<RouteRule>) -> Seq<RuleView> {
    Seq::new(rules.len(), |i: int| rules[i]@)
}

impl View for RouteConfig {
    type V = RouteView;

    open spec fn view(&self) -> RouteView {
        RouteView {
            mode: self.mode,
            unmatched: self.unmatched@,
            routes: rule_views(self.routes@),
        }
    }
}

pub open spec fn optional_route(route: Option<RouteConfig>) -> Option<RouteView> {
    match route {
        Some(r) => Some(r@),
        None => None,
    }
}

impl View for ExecutorConfig {
    type V = ExecutorView;

    open spec fn view(&self) -> ExecutorView {
        ExecutorView {
            name: self.name@,
            kind: self.kind@,
            num_threads: self.num_threads,
            affinity: self.affinity@,
            priority: self.priority,
        }
    }
}

pub open spec fn text_groups(groups: Seq<Vec<String>>) -> Seq<Seq<Seq<char>>> {
    Seq::new(groups.len(), |i: int| texts(groups[i]@))
}

impl View for InputPolicyConfig {
    type V = PolicyView;

    open spec fn view(&self) -> PolicyView {
        PolicyView {
            kind: self.kind@,
            capacity: self.capacity,
            sets: text_groups(self.sets@),
        }
    }
}

pub open spec fn limit_views(limits: Seq<InputQueueLimitConfig>) -> Seq<Option<usize>> {
    Seq::new(limits.len(), |i: int| limits[i].packets)
}

impl View for InputQueuesConfig {
    type V = QueuesView;

    open spec fn view(&self) -> QueuesView {
        QueuesView {
            packets: self.packets,
            ports: self.ports.keys(),
            limits: limit_views(self.ports.values()),
        }
    }
}

impl View for Rate {
    type V = RateView;

    open spec fn view(&self) -> RateView {
        RateView { bits: self.bits, shown: self.shown@ }
    }
}

impl View for NodeConfig {
    type V = NodeView;

    open spec fn view(&self) -> NodeView {
        NodeView {
            source_path: self.source_path@,
            name: self.name@,
            kernel: self.kernel@,
            input_ports: texts(self.input_ports@),
            output_ports: texts(self.output_ports@),
            executor: self.executor@,
            max_in_flight: self.max_in_flight,
            options: yaml_content(self.options),
            input_policy: self.input_policy@,
            input_queues: self.input_queues@,
            kind: self.kind@,
            back_edges: texts(self.back_edges@),
            on_error: self.on_error@,
            rate: self.rate@,
            route: optional_route(self.route),
        }
    }
}

pub open spec fn node_views(nodes: Seq<NodeConfig>) -> Seq<NodeView> {
    Seq::new(nodes.len(), |i: int| nodes[i]@)
}

impl View for SubgraphConfig {
    type V = SubgraphView;

    open spec fn view(&self) -> SubgraphView {
        SubgraphView {
            nodes: node_views(self.nodes@),
            input_ports: texts(self.input_ports@),
            output_ports: texts(self.output_ports@),
        }
    }
}

pub open spec fn subgraph_views(subgraphs: Map<Seq<char>, SubgraphConfig>) -> Map<
    Seq<char>,
    SubgraphView,
> {
    subgraphs.map_values(|s: SubgraphConfig| s@)
}

pub open spec fn executor_views(executors: Seq<ExecutorConfig>) -> Seq<ExecutorView> {
    Seq::new(executors.len(), |i: int| executors[i]@)
}

impl View for GraphConfig {
    type V = GraphView;

    open spec fn view(&self) -> GraphView {
        GraphView {
            executors: executor_views(self.executors@),
            nodes: node_views(self.nodes@),
            includes: texts(self.includes@),
            subgraphs: subgraph_views(self.subgraphs@),
            input_ports: texts(self.input_ports@),
            output_ports: texts(self.output_ports@),
            max_queue_size: self.max_queue_size,
            max_queued_packets: self.max_queued_packets,
            max_queued_bytes: self.max_queued_bytes,
            watchdog_ms: self.watchdog_ms,
            buffer_pool_max_bytes: self.buffer_pool_max_bytes,
            stats: self.stats,
            stats_timing: self.stats_timing,
            trace_capacity: self.trace_capacity,
        }
    }
}

// --------------------------------------------------------------------- routes

impl Default for RouteMode {
    fn default() -> (r: RouteMode)
        ensures
            r == RouteMode::First,
    {
        RouteMode::First
    }
}

impl RouteMode {
    /// The word that stands for the mode.
    pub open spec fn word(self) -> Seq<char> {
        match self {
            RouteMode::First => "first"@,
            RouteMode::All => "all"@,
        }
    }

    /// The word that stands for the mode.
    pub fn as_str(self) -> (r: &'static str)
        ensures
            r@ == self.word(),
    {
        match self {
            RouteMode::First => "first",
            RouteMode::All => "all",
        }
    }
}

impl PredicateView {
    /// Why the condition is refused, if it is.
    pub open spec fn refusal(self) -> Option<ErrorView> {
        match self.problem {
            Some(m) => Some(ErrorView::InvalidArg(m)),
            None => None,
        }
    }
}

impl MetadataPredicate {
    /// Refuses a condition with a problem.
    pub fn validate(&self) -> (r: Result<(), Error>)
        ensures
            failure(r) == self@.refusal(),
    {
        match &self.problem {
            Some(m) => Err(Error::InvalidArg(m.clone())),
            None => Ok(()),
        }
    }

    /// The condition in one line.
    pub fn summary(&self) -> (r: String)
        ensures
            r@ == self@.form,
    {
        self.form.clone()
    }

    /// A copy of the condition.
    pub fn duplicate(&self) -> (r: MetadataPredicate)
        ensures
            r@ == self@,
    {
        MetadataPredicate {
            form: self.form.clone(),
            problem: match &self.problem {
                Some(m) => Some(m.clone()),
                None => None,
            },
        }
    }
}

impl RouteRule {
    /// A copy of the rule.
    pub fn duplicate(&self) -> (r: RouteRule)
        ensures
            r@ == self@,
    {
        RouteRule {
            to: self.to.clone(),
            when: match &self.when {
                Some(p) => Some(p.duplicate()),
                None => None,
            },
            default: self.default,
        }
    }
}

/// What a route node does with a packet that no rule matches, unless said
/// otherwise.
pub fn default_route_unmatched() -> (r: String)
    ensures
        r@ == "drop"@,
{
    "drop".to_owned()
}

impl RouteView {
    /// Whether these are the rules that a node has when it declares none.
    pub open spec fn is_implicit_default(self) -> bool {
        self.mode == RouteMode::First && self.unmatched == "drop"@ && self.routes.len() == 0
    }
}

impl RouteConfig {
    /// Whether these are the rules that a node has when it declares none.
    pub fn is_implicit_default(&self) -> (r: bool)
        ensures
            r == self@.is_implicit_default(),
    {
        self.mode == RouteMode::First && same(self.unmatched.as_str(), "drop")
            && self.routes.is_empty()
    }

    /// A copy of the rules.
    pub fn duplicate(&self) -> (r: RouteConfig)
        ensures
            r@ == self@,
    {
        let mut routes: Vec<RouteRule> = Vec::new();
        for i in 0..self.routes.len()
            invariant
                routes@.len() == i,
                forall|k: int| 0 <= k < i ==> (#[trigger] routes@[k])@ == self.routes@[k]@,
        {
            routes.push(self.routes[i].duplicate());
        }
        assert(rule_views(routes@) =~= rule_views(self.routes@));
        RouteConfig { mode: self.mode, unmatched: self.unmatched.clone(), routes }
    }
}

// ------------------------------------------------------------------- defaults

/// The limit of a queue unless said otherwise.
pub fn default_max_queue_size() -> (r: usize)
    ensures
        r == 100,
{
    100
}

/// The input policy of a node unless said otherwise.
pub fn default_policy_type() -> (r: String)
    ensures
        r@ == "sync"@,
{
    "sync".to_owned()
}

impl PolicyView {
    pub open spec fn plain() -> PolicyView {
        PolicyView { kind: "sync"@, capacity: 0, sets: Seq::empty() }
    }
}

impl Default for InputPolicyConfig {
    fn default() -> (r: InputPolicyConfig)
        ensures
            r@ == PolicyView::plain(),
    {
        let r = InputPolicyConfig { kind: default_policy_type(), capacity: 0, sets: Vec::new() };
        assert(text_groups(r.sets@) =~= Seq::empty());
        r
    }
}

impl Default for InputQueueLimitConfig {
    fn default() -> (r: InputQueueLimitConfig)
        ensures
            r.packets is None,
    {
        InputQueueLimitConfig { packets: None }
    }
}

impl Default for InputQueuesConfig {
    fn default() -> (r: InputQueuesConfig)
        ensures
            r.packets == 0,
            r.ports.keys().len() == 0,
            r.ports@ == Map::<Seq<char>, InputQueueLimitConfig>::empty(),
    {
        InputQueuesConfig { packets: 0, ports: TextMap::new() }
    }
}

impl Default for StatsLevel {
    fn default() -> (r: StatsLevel)
        ensures
            r == StatsLevel::Basic,
    {
        StatsLevel::Basic
    }
}

impl StatsLevel {
    /// The word that stands for the level.
    pub open spec fn word(self) -> Seq<char> {
        match self {
            StatsLevel::Off => "off"@,
            StatsLevel::Basic => "basic"@,
            StatsLevel::Full => "full"@,
        }
    }

    /// The word that stands for the level.
    pub fn as_str(self) -> (r: &'static str)
        ensures
            r@ == self.word(),
    {
        match self {
            StatsLevel::Off => "off",
            StatsLevel::Basic => "basic",
            StatsLevel::Full => "full",
        }
    }
}

impl RateView {
    /// Whether the number is zero, of either sign.
    pub open spec fn is_zero(self) -> bool {
        self.bits == 0 || self.bits == 0x8000_0000_0000_0000
    }

    /// Whether the number is positive and finite: the encodings between that
    /// of zero and that of infinity.
    pub open spec fn is_positive_finite(self) -> bool {
        0 < self.bits < 0x7ff0_0000_0000_0000
    }
}

impl Rate {
    /// No limit.
    pub fn unlimited() -> (r: Rate)
        ensures
            r@ == (RateView { bits: 0, shown: "0"@ }),
    {
        Rate { bits: 0, shown: "0".to_owned() }
    }

    pub fn is_zero(&self) -> (r: bool)
        ensures
            r == self@.is_zero(),
    {
        self.bits == 0 || self.bits == 0x8000_0000_0000_0000
    }

    pub fn is_positive_finite(&self) -> (r: bool)
        ensures
            r == self@.is_positive_finite(),
    {
        0 < self.bits && self.bits < 0x7ff0_0000_0000_0000
    }
}

impl NodeView {
    /// A node that says nothing.
    pub open spec fn plain() -> NodeView {
        NodeView {
            source_path: Seq::empty(),
            name: Seq::empty(),
            kernel: Seq::empty(),
            input_ports: Seq::empty(),
            output_ports: Seq::empty(),
            executor: Seq::empty(),
            max_in_flight: 0,
            options: YamlView::Null,
            input_policy: PolicyView::plain(),
            input_queues: QueuesView { packets: 0, ports: Seq::empty(), limits: Seq::empty() },
            kind: Seq::empty(),
            back_edges: Seq::empty(),
            on_error: Seq::empty(),
            rate: RateView { bits: 0, shown: "0"@ },
            route: None,
        }
    }
}

impl Default for NodeConfig {
    fn default() -> (r: NodeConfig)
        ensures
            r@ == NodeView::plain(),
    {
        let r = NodeConfig {
            source_path: String::new(),
            name: String::new(),
            kernel: String::new(),
            input_ports: Vec::new(),
            output_ports: Vec::new(),
            executor: String::new(),
            max_in_flight: 0,
            options: yaml_null(),
            input_policy: InputPolicyConfig::default(),
            input_queues: InputQueuesConfig::default(),
            kind: String::new(),
            back_edges: Vec::new(),
            on_error: String::new(),
            rate: Rate::unlimited(),
            route: None,
        };
        let length: usize = r.input_queues.ports.len();
        assert(r@ =~= NodeView::plain());
        r
    }
}

impl GraphView {
    /// A graph that says nothing.
    pub open spec fn plain() -> GraphView {
        GraphView {
            executors: Seq::empty(),
            nodes: Seq::empty(),
            includes: Seq::empty(),
            subgraphs: Map::empty(),
            input_ports: Seq::empty(),
            output_ports: Seq::empty(),
            max_queue_size: 100,
            max_queued_packets: 0,
            max_queued_bytes: 0,
            watchdog_ms: 0,
            buffer_pool_max_bytes: 0,
            stats: None,
            stats_timing: None,
            trace_capacity: 0,
        }
    }
}

impl Default for GraphConfig {
    fn default() -> (r: GraphConfig)
        ensures
            r@ == GraphView::plain(),
    {
        let r = GraphConfig {
            executors: Vec::new(),
            nodes: Vec::new(),
            includes: Vec::new(),
            subgraphs: TextMap::new(),
            input_ports: Vec::new(),
            output_ports: Vec::new(),
            max_queue_size: default_max_queue_size(),
            max_queued_packets: 0,
            max_queued_bytes: 0,
            watchdog_ms: 0,
            buffer_pool_max_bytes: 0,
            stats: None,
            stats_timing: None,
            trace_capacity: 0,
        };
        assert(r@ =~= GraphView::plain());
        r
    }
}

impl NodeConfig {
    /// A copy of the node.
    pub fn duplicate(&self) -> (r: NodeConfig)
        ensures
            r@ == self@,
    {
        let mut sets: Vec<Vec<String>> = Vec::new();
        for i in 0..self.input_policy.sets.len()
            invariant
                sets@.len() == i,
                forall|k: int|
                    0 <= k < i ==> (#[trigger] sets@[k])@ == self.input_policy.sets@[k]@,
        {
            sets.push(clone_texts(&self.input_policy.sets[i]));
        }
        assert(text_groups(sets@) =~= text_groups(self.input_policy.sets@));
        NodeConfig {
            source_path: self.source_path.clone(),
            name: self.name.clone(),
            kernel: self.kernel.clone(),
            input_ports: clone_texts(&self.input_ports),
            output_ports: clone_texts(&self.output_ports),
            executor: self.executor.clone(),
            max_in_flight: self.max_in_flight,
            options: yaml_copy(&self.options),
            input_policy: InputPolicyConfig {
                kind: self.input_policy.kind.clone(),
                capacity: self.input_policy.capacity,
                sets,
            },
            input_queues: InputQueuesConfig {
                packets: self.input_queues.packets,
                ports: self.input_queues.ports.duplicate(),
            },
            kind: self.kind.clone(),
            back_edges: clone_texts(&self.back_edges),
            on_error: self.on_error.clone(),
            rate: Rate { bits: self.rate.bits, shown: self.rate.shown.clone() },
            route: match &self.route {
                Some(route) => Some(route.duplicate()),
                None => None,
            },
        }
    }
}

impl GraphView {
    /// How much the graph records: everything if a watchdog or a trace needs
    /// it, else what is asked for in the new way or the old.
    pub open spec fn effective_stats_level(self) -> StatsLevel {
        if self.watchdog_ms > 0 || self.trace_capacity > 0 {
            StatsLevel::Full
        } else if self.stats is Some {
            self.stats->Some_0
        } else if self.stats_timing == Some(true) {
            StatsLevel::Full
        } else {
            StatsLevel::Basic
        }
    }
}

impl GraphConfig {
    /// How much the graph records about itself.
    pub fn effective_stats_level(&self) -> (r: StatsLevel)
        ensures
            r == self@.effective_stats_level(),
    {
        if self.watchdog_ms > 0 || self.trace_capacity > 0 {
            return StatsLevel::Full;
        }
        match self.stats {
            Some(level) => level,
            None => match self.stats_timing {
                Some(enabled) => if enabled {
                    StatsLevel::Full
                } else {
                    StatsLevel::Basic
                },
                None => StatsLevel::Basic,
            },
        }
    }
}

} // verus!

//! Building a graph that the host thread runs.

use crate::clearing::{built_graphs_are_tidy, tidy, well_wired};
use crate::config::{GraphConfig, GraphView, NodeConfig, NodeView};
use crate::context::{no_bounds, Context, ContextView};
use crate::cycle::{can_be_ordered, cyclic};
use crate::delivery::read_once;
use crate::ending::{acyclic, built_graphs_can_end, connected, nobody_waits, settled};
use crate::graph::{edge_views, poller_views, queue_views, required_views, Edge, Graph, Node};
use crate::laws::well_run;
use crate::options::Options;
use crate::packet::{no_packets, no_slots, Packet, TypeNames};
use crate::plan::{
    consumers_of, edge_names, edge_names_distinct, edge_numbers, edges_of, numbers_of,
    plan_edge_views, GraphPlanEdge, Mention, PlanEdgeView,
};
use crate::port::{port_list, port_names, PortSpecView, PortTable};
use crate::run_state::{NodeSched, NodeStats, Policy, RunEdge, RunNode, RunView, State, Task};
use crate::runtime::{line_views, GraphShared, LogLine, SharedView, CLOSE_NORMAL};
use crate::status::{Error, ErrorView};
use crate::text::{same, texts};
use crate::text_map::TextMap;
use crate::timestamp::Timestamp;
use crate::topology::{adjacency, declared_names, preflight_node_label, tables_of, NodePorts};
use crate::typing::{building_problem, check_edge_types, edge_types_problem};
use crate::wiring::{
    consumers_are_distinct, consumers_are_ports, edge_links, inputs_are_edges, no_node_feeds_itself,
    outputs_are_edges, places, single_producer, sinks_are_edges, wire, wired, wired_edges_within,
    wiring_log, wiring_problem, Wiring,
};
use crate::yaml::yaml_copy;
use std::collections::VecDeque;
use vstd::prelude::*;

verus! {

/// What a kernel declared before it was built.
pub struct KernelContract {
    /// The type that each input port wants; zero is any.
    pub input_types: Vec<u64>,
    /// The type that each output port gives; zero is any.
    pub output_types: Vec<u64>,
    /// The side packets that the kernel cannot do without.
    pub required_side_packets: Vec<String>,
}

#[verifier::ext_equal]
pub struct ContractView {
    pub input_types: Seq<u64>,
    pub output_types: Seq<u64>,
    pub required_side_packets: Seq<Seq<char>>,
}

impl View for KernelContract {
    type V = ContractView;

    open spec fn view(&self) -> ContractView {
        ContractView {
            input_types: self.input_types@,
            output_types: self.output_types@,
            required_side_packets: texts(self.required_side_packets@),
        }
    }
}

pub open spec fn contract_views(list: Seq<KernelContract>) -> Seq<ContractView> {
    Seq::new(list.len(), |i: int| list[i]@)
}

// ------------------------------------------------------------------ the model

/// When a node is ready, by its configuration. A node whose input ports are in
/// groups waits for all of them, like one without groups.
pub open spec fn policy_of(n: NodeView) -> Policy {
    if n.input_policy.kind == "immediate"@ {
        Policy::Immediate
    } else if n.input_policy.kind == "fixed_size"@ {
        Policy::FixedSize(n.input_policy.capacity)
    } else {
        Policy::Sync
    }
}

/// A context that no call has used.
pub open spec fn blank_context(n: NodeView, index: nat) -> ContextView {
    let ins = port_list(n.input_ports)->Ok_0;
    let outs = port_list(n.output_ports)->Ok_0;
    ContextView {
        inputs: no_slots(ins.len()),
        batches: no_packets(ins.len()),
        staging: no_packets(outs.len()),
        bounds: no_bounds(outs.len()),
        input_ts: Timestamp(i64::MIN),
        node_name: n.numbered_label(index),
        kernel_name: n.kernel,
        in_ports: ins,
        out_ports: outs,
        options: n.options,
        side_packets: Map::empty(),
        inputs_done: Seq::new(ins.len(), |i: int| false),
        error_msg: None,
        close_reason: CLOSE_NORMAL,
        source_done: false,
        source_yield: None,
    }
}

/// A node that has not been opened.
pub open spec fn blank_node(g: GraphView, index: int, declared: ContractView) -> RunNode {
    let n = g.nodes[index];
    let ins = declared_names(n.input_ports);
    RunNode {
        name: n.numbered_label(index as nat),
        kernel_name: n.kernel,
        inputs: numbers_of(places(g), ins),
        outputs: numbers_of(places(g), declared_names(n.output_ports)),
        input_types: declared.input_types,
        output_types: declared.output_types,
        policy: policy_of(n),
        ctx: blank_context(n, index as nat),
        sched: NodeSched { opened: false, closed: false, running: false, rescan: false },
        stats: NodeStats { processed: 0, errors: 0, total_us: 0, max_us: 0 },
        queues: no_packets(ins.len()),
        closed: Seq::new(ins.len(), |i: int| false),
        running_since: None,
    }
}

/// An edge that nothing was sent on.
pub open spec fn fresh_edge(e: PlanEdgeView) -> RunEdge {
    RunEdge {
        name: e.name,
        producer: e.producer,
        consumers: e.consumer_ports,
        is_graph_input: e.graph_input,
        is_graph_output: e.graph_output,
        closed: false,
        dropped: 0,
        last_sent: Timestamp(i64::MIN),
        pollers: Seq::empty(),
        observers: Seq::empty(),
    }
}

/// The side packets that the first `k` nodes need.
pub open spec fn all_required(g: GraphView, contracts: Seq<ContractView>, k: nat) -> Seq<
    (Seq<char>, Seq<char>),
>
    decreases k,
{
    if k == 0 {
        Seq::empty()
    } else {
        let names = contracts[k - 1].required_side_packets;
        all_required(g, contracts, (k - 1) as nat) + Seq::new(
            names.len(),
            |j: int| (names[j], g.nodes[k - 1].numbered_label((k - 1) as nat)),
        )
    }
}

/// A graph that was built and has not been started.
pub open spec fn built(
    g: GraphView,
    contracts: Seq<ContractView>,
    names: Map<u64, Seq<char>>,
) -> RunView {
    let w = wired(g);
    RunView {
        shared: SharedView {
            config: g,
            error: None,
            cancelled: false,
            queued: 0,
            bytes: 0,
            counters: Map::empty(),
            type_names: names,
            log: Seq::empty(),
        },
        nodes: Seq::new(g.nodes.len(), |i: int| blank_node(g, i, contracts[i])),
        edges: Seq::new(w.edges.len(), |e: int| fresh_edge(w.edges[e])),
        graph_inputs: w.graph_inputs,
        graph_outputs: w.graph_outputs,
        input_by_name: w.input_by_name,
        output_by_name: w.output_by_name,
        edge_by_name: w.edge_by_name,
        state: State::Initialized,
        main_queue: Seq::empty(),
        side_packets: Map::empty(),
        required: all_required(g, contracts, g.nodes.len()),
        outbox: Seq::empty(),
        paused: false,
        task: Task::Idle,
    }
}

// ------------------------------------------------------------------- building

/// As many empty queues.
fn empty_queues(n: usize) -> (r: Vec<VecDeque<Packet>>)
    ensures
        queue_views(r@) == no_packets(n as nat),
{
    let mut queues: Vec<VecDeque<Packet>> = Vec::new();
    for i in 0..n
        invariant
            queues@.len() == i,
            forall|k: int| 0 <= k < i ==> (#[trigger] queues@[k])@ == Seq::<Packet>::empty(),
    {
        queues.push(VecDeque::new());
    }
    assert(queue_views(queues@) =~= no_packets(n as nat));
    queues
}

/// As many ports that are open.
fn open_ports(n: usize) -> (r: Vec<bool>)
    ensures
        r@ == Seq::new(n as nat, |i: int| false),
{
    let mut flags: Vec<bool> = Vec::new();
    for i in 0..n
        invariant
            flags@ == Seq::new(i as nat, |k: int| false),
    {
        flags.push(false);
        assert(flags@ =~= Seq::new((i + 1) as nat, |k: int| false));
    }
    flags
}

/// The numbers of the edges of some ports.
fn edges_of_ports(table: &PortTable, edge_by_name: &TextMap<usize>, Ghost(ms): Ghost<Seq<Mention>>)
    -> (r: Vec<usize>)
    requires
        edge_by_name@ == edge_numbers(ms),
        forall|j: int|
            0 <= j < port_names(table@).len() ==> edge_names(ms).contains(
                #[trigger] port_names(table@)[j],
            ),
    ensures
        r@ == numbers_of(ms, port_names(table@)),
{
    let names = table.names();
    let mut out: Vec<usize> = Vec::new();
    for i in 0..names.len()
        invariant
            texts(names@) == port_names(table@),
            edge_by_name@ == edge_numbers(ms),
            forall|j: int|
                0 <= j < port_names(table@).len() ==> edge_names(ms).contains(
                    #[trigger] port_names(table@)[j],
                ),
            out@ == numbers_of(ms, port_names(table@)).take(i as int),
    {
        assert(port_names(table@)[i as int] == names@[i as int]@);
        let edge: usize = match edge_by_name.get(names[i].as_str()) {
            Some(e) => *e,
            None => 0,
        };
        out.push(edge);
        assert(out@ =~= numbers_of(ms, port_names(table@)).take(i + 1));
    }
    assert(out@ =~= numbers_of(ms, port_names(table@)));
    out
}

/// When a node is ready, by its configuration.
fn node_policy(n: &NodeConfig) -> (r: Policy)
    ensures
        r == policy_of(n@),
{
    let kind = n.input_policy.kind.as_str();
    if same(kind, "immediate") {
        Policy::Immediate
    } else if same(kind, "fixed_size") {
        Policy::FixedSize(n.input_policy.capacity)
    } else {
        Policy::Sync
    }
}

/// A copy of some types.
pub fn copied_types(types: &Vec<u64>) -> (r: Vec<u64>)
    ensures
        r@ == types@,
{
    let mut r: Vec<u64> = Vec::new();
    for i in 0..types.len()
        invariant
            r@ == types@.take(i as int),
    {
        r.push(types[i]);
        assert(r@ =~= types@.take(i + 1));
    }
    assert(r@ =~= types@);
    r
}

/// Builds a node that has not been opened.
fn build_node(
    config: &GraphConfig,
    index: usize,
    table: &NodePorts,
    edge_by_name: &TextMap<usize>,
    contract: &KernelContract,
) -> (r: Node)
    requires
        index < config@.nodes.len(),
        edge_by_name@ == edge_numbers(places(config@)),
        port_list(config@.nodes[index as int].input_ports) == Ok::<
            Seq<PortSpecView>,
            (int, ErrorView),
        >(table.inputs@),
        port_list(config@.nodes[index as int].output_ports) == Ok::<
            Seq<PortSpecView>,
            (int, ErrorView),
        >(table.outputs@),
        forall|j: int|
            0 <= j < port_names(table.inputs@).len() ==> edge_names(places(config@)).contains(
                #[trigger] port_names(table.inputs@)[j],
            ),
        forall|j: int|
            0 <= j < port_names(table.outputs@).len() ==> edge_names(places(config@)).contains(
                #[trigger] port_names(table.outputs@)[j],
            ),
    ensures
        r@ == blank_node(config@, index as int, contract@),
        r.inputs@.len() <= usize::MAX,
        r.outputs@.len() <= usize::MAX,
{
    let ghost g = config@;
    let n = &config.nodes[index];
    assert(g.nodes[index as int] == n@);
    let name = preflight_node_label(n, index);
    let inputs = edges_of_ports(&table.inputs, edge_by_name, Ghost(places(g)));
    let outputs = edges_of_ports(&table.outputs, edge_by_name, Ghost(places(g)));
    let count: usize = table.inputs.len();
    let ctx = Context::new(
        name.clone(),
        n.kernel.clone(),
        table.inputs.duplicate(),
        table.outputs.duplicate(),
        Options::new(yaml_copy(&n.options)),
        TextMap::new(),
    );
    assert(ctx@ =~= blank_context(n@, index as nat));
    let r = Node {
        name,
        kernel_name: n.kernel.clone(),
        inputs,
        outputs,
        input_types: copied_types(&contract.input_types),
        output_types: copied_types(&contract.output_types),
        policy: node_policy(n),
        ctx,
        sched: NodeSched { opened: false, closed: false, running: false, rescan: false },
        stats: NodeStats { processed: 0, errors: 0, total_us: 0, max_us: 0 },
        input_queues: empty_queues(count),
        input_closed: open_ports(count),
        running_since: None,
    };
    assert(r.inputs.len() == r.inputs@.len());
    assert(r.outputs.len() == r.outputs@.len());
    assert(r@ =~= blank_node(g, index as int, contract@));
    r
}

/// Builds the edges of a graph that nothing was sent on.
fn build_edges(edges: Vec<GraphPlanEdge>) -> (r: Vec<Edge>)
    ensures
        edge_views(r@) == Seq::new(edges@.len(), |e: int| fresh_edge(edges@[e]@)),
{
    let mut out: Vec<Edge> = Vec::new();
    for i in 0..edges.len()
        invariant
            out@.len() == i,
            forall|k: int| 0 <= k < i ==> (#[trigger] out@[k])@ == fresh_edge(edges@[k]@),
    {
        let e = &edges[i];
        let mut consumers: Vec<(usize, usize)> = Vec::new();
        for j in 0..e.consumer_ports.len()
            invariant
                consumers@ == e.consumer_ports@.take(j as int),
        {
            consumers.push(e.consumer_ports[j]);
            assert(consumers@ =~= e.consumer_ports@.take(j + 1));
        }
        assert(consumers@ =~= e.consumer_ports@);
        let edge = Edge {
            name: e.name.clone(),
            producer: e.producer,
            consumers,
            is_graph_input: e.graph_input,
            is_graph_output: e.graph_output,
            closed: false,
            dropped: 0,
            last_sent: Timestamp::unset(),
            pollers: Vec::new(),
            observers: Vec::new(),
        };
        assert(poller_views(edge.pollers@) =~= Seq::empty());
        assert(edge@ =~= fresh_edge(e@));
        out.push(edge);
    }
    assert(edge_views(out@) =~= Seq::new(edges@.len(), |e: int| fresh_edge(edges@[e]@)));
    out
}

/// A graph that was built refers to nothing that does not exist.
proof fn built_fits(g: GraphView, contracts: Seq<ContractView>, names: Map<u64, Seq<char>>)
    requires
        wiring_problem(g) is None,
        g.nodes.len() <= usize::MAX,
        wired(g).edges.len() <= usize::MAX,
        forall|i: int|
            0 <= i < g.nodes.len() ==> {
                &&& port_list((#[trigger] g.nodes[i]).input_ports) is Ok
                &&& port_list(g.nodes[i].output_ports) is Ok
                &&& declared_names(g.nodes[i].input_ports).len() <= usize::MAX
                &&& declared_names(g.nodes[i].output_ports).len() <= usize::MAX
            },
    ensures
        built(g, contracts, names).fits(),
{
    let b = built(g, contracts, names);
    let ms = places(g);
    let edge_list = edge_names(ms);
    edge_names_distinct(ms);
    assert forall|i: int| 0 <= i < b.nodes.len() implies (#[trigger] b.nodes[i]).fits(
        b.edges.len(),
    ) by {
        inputs_are_edges(g, i);
        outputs_are_edges(g, i);
        let n = b.nodes[i];
        let ins = declared_names(g.nodes[i].input_ports);
        let outs = declared_names(g.nodes[i].output_ports);
        assert(port_list(g.nodes[i].input_ports) is Ok);
        assert forall|k: int| 0 <= k < n.inputs.len() implies #[trigger] n.inputs[k]
            < b.edges.len() by {
            assert(edge_list.contains(ins[k]));
            let j = edge_list.index_of(ins[k]);
            assert(edge_list[j] == ins[k]);
        }
        assert forall|k: int| 0 <= k < n.outputs.len() implies #[trigger] n.outputs[k]
            < b.edges.len() by {
            assert(edge_list.contains(outs[k]));
            let j = edge_list.index_of(outs[k]);
            assert(edge_list[j] == outs[k]);
        }
    }
    assert forall|e: int, k: int|
        0 <= e < b.edges.len() && 0 <= k < b.edges[e].consumers.len() implies {
        let (node, port) = #[trigger] b.edges[e].consumers[k];
        node < b.nodes.len() && port < b.nodes[node as int].inputs.len()
    } by {
        assert(b.edges[e].consumers == consumers_of(ms, edge_list[e]));
        consumers_are_ports(g, edge_list[e], k);
    }
    sinks_are_edges(g);
    let ins = declared_names(g.input_ports);
    let outs = declared_names(g.output_ports);
    assert forall|k: int| 0 <= k < ins.len() implies edge_list.contains(#[trigger] ins[k]) by {
        assert(ms[k] == Mention::Source(ins[k]));
    }
    assert forall|k: int| 0 <= k < b.graph_inputs.len() implies #[trigger] b.graph_inputs[k]
        < b.edges.len() by {
        assert(edge_list.contains(ins[k]));
        let j = edge_list.index_of(ins[k]);
        assert(edge_list[j] == ins[k]);
    }
    assert forall|k: int| 0 <= k < b.graph_outputs.len() implies #[trigger] b.graph_outputs[k]
        < b.edges.len() by {
        assert(edge_list.contains(outs[k]));
        let j = edge_list.index_of(outs[k]);
        assert(edge_list[j] == outs[k]);
    }
    assert forall|name: Seq<char>| #[trigger]
        b.input_by_name.contains_key(name) implies b.input_by_name[name] < b.edges.len() by {
        let k = ins.index_of(name);
        assert(edge_list.contains(ins[k]));
        let j = edge_list.index_of(name);
        assert(edge_list[j] == name);
    }
    assert forall|name: Seq<char>| #[trigger]
        b.output_by_name.contains_key(name) implies b.output_by_name[name] < b.edges.len() by {
        let k = outs.index_of(name);
        assert(edge_list.contains(outs[k]));
        let j = edge_list.index_of(name);
        assert(edge_list[j] == name);
    }
    assert forall|name: Seq<char>| #[trigger]
        b.edge_by_name.contains_key(name) implies b.edge_by_name[name] < b.edges.len() by {
        let j = edge_list.index_of(name);
        assert(edge_list[j] == name);
    }
}

/// A graph that was built runs in order: no node is claimed, none reads what
/// it produces, and every port reads its edge once.
pub proof fn built_runs_in_order(
    g: GraphView,
    contracts: Seq<ContractView>,
    called: Map<u64, Seq<char>>,
)
    requires
        wiring_problem(g) is None,
        !cyclic(adjacency(g.nodes.len(), edge_links(wired(g).edges))),
        built(g, contracts, called).fits(),
        forall|i: int|
            0 <= i < g.nodes.len() ==> declared_names(
                (#[trigger] g.nodes[i]).input_ports,
            ).len() <= usize::MAX,
    ensures
        well_run(built(g, contracts, called)),
        read_once(built(g, contracts, called)),
{
    let b = built(g, contracts, called);
    let ms = places(g);
    let names = edge_names(ms);
    let outs = declared_names(g.output_ports);
    let edges = edges_of(ms, outs);
    edge_names_distinct(ms);
    wired_edges_within(g, outs);
    assert forall|e: int| 0 <= e < b.edges.len() implies (
    #[trigger] b.edges[e]).consumers.no_duplicates() by {
        assert(b.edges[e].consumers == consumers_of(ms, names[e]));
        consumers_are_distinct(g, names[e]);
    }
    assert forall|n: int, o: int, k: int|
        0 <= n < b.nodes.len() && 0 <= o < b.nodes[n].outputs.len() && 0 <= k
            < b.edges[b.nodes[n].outputs[o] as int].consumers.len() implies (
    #[trigger] b.edges[b.nodes[n].outputs[o] as int].consumers[k]).0 != n by {
        let own = declared_names(g.nodes[n].output_ports);
        outputs_are_edges(g, n);
        assert(names.contains(own[o]));
        let e = names.index_of(own[o]);
        assert(names[e] == own[o]);
        assert(b.nodes[n].fits(b.edges.len()));
        assert(b.nodes[n].outputs[o] == e);
        single_producer(g, n, o);
        assert(edges[e].producer == Some(n as usize));
        assert(edges[e].consumers[k] == consumers_of(ms, names[e])[k].0);
        no_node_feeds_itself(g, outs, e, k);
    }
    assert forall|n: int|
        0 <= n < b.nodes.len() && (
        #[trigger] b.nodes[n]).sched.running implies b.main_queue.contains(n as usize) by {}
}

/// A graph whose ports are connected and whose kernels are still to come.
pub struct Blueprint {
    config: GraphConfig,
    wiring: Wiring,
}

impl View for Blueprint {
    type V = GraphView;

    closed spec fn view(&self) -> GraphView {
        self.config@
    }
}

impl Blueprint {
    #[verifier::type_invariant]
    spec fn sound(self) -> bool {
        let adj = adjacency(self.config@.nodes.len(), edge_links(wired(self.config@).edges));
        &&& wiring_problem(self.config@) is None
        &&& self.wiring@ == wired(self.config@)
        &&& tables_of(self.wiring.tables@, self.config@.nodes)
        &&& !cyclic(adj)
        &&& can_be_ordered(adj)
    }

    /// Connects the ports of a graph, or refuses it with the first thing that
    /// is wrong. What is warned about goes into the log either way.
    pub fn draw(config: GraphConfig, lines: &mut Vec<LogLine>) -> (r: Result<Blueprint, Error>)
        ensures
            line_views(final(lines)@) == wiring_log(line_views(old(lines)@), config@),
            match wiring_problem(config@) {
                Some(e) => r matches Err(x) && x@ == e,
                None => r matches Ok(b) && b@ == config@,
            },
    {
        let wiring = wire(&config, lines)?;
        Ok(Blueprint { config, wiring })
    }

    /// The configuration of the graph.
    pub fn config(&self) -> (r: &GraphConfig)
        ensures
            r@ == self@,
    {
        &self.config
    }

    /// Builds the graph, with what its kernels declared and what the types of
    /// their ports are called, or refuses it if the types do not agree.
    #[verifier::rlimit(40)]
    pub fn build(self, contracts: &Vec<KernelContract>, type_names: TypeNames) -> (r: Result<
        Graph,
        Error,
    >)
        requires
            contracts@.len() == self@.nodes.len(),
        ensures
            match edge_types_problem(
                self@,
                contract_views(contracts@),
                type_names@,
                self@.nodes.len(),
            ) {
                Some(e) => r matches Err(x) && x@ == e,
                None => r matches Ok(graph) && graph@ == built(
                    self@,
                    contract_views(contracts@),
                    type_names@,
                ) && well_run(graph@) && read_once(graph@) && connected(graph@) && acyclic(graph@)
                    && settled(graph@) && nobody_waits(graph@) && well_wired(graph@) && tidy(graph@),
            },
    {
        proof {
            use_type_invariant(&self);
        }
        let Blueprint { config, wiring } = self;
        let ghost g = config@;
        let ghost declared = contract_views(contracts@);
        let ghost called = type_names@;
        check_edge_types(&config, &wiring, contracts, &type_names)?;
        let mut nodes: Vec<Node> = Vec::new();
        let mut required: Vec<(String, String)> = Vec::new();
        assert(required_views(required@) =~= all_required(g, declared, 0));
        for i in 0..config.nodes.len()
            invariant
                g == config@,
                declared == contract_views(contracts@),
                contracts@.len() == config.nodes@.len(),
                wiring_problem(g) is None,
                wiring@ == wired(g),
                tables_of(wiring.tables@, g.nodes),
                nodes@.len() == i,
                forall|k: int|
                    0 <= k < i ==> (#[trigger] nodes@[k])@ == blank_node(
                        g,
                        k,
                        declared[k],
                    ),
                forall|k: int|
                    0 <= k < i ==> {
                        &&& declared_names((#[trigger] g.nodes[k]).input_ports).len() <= usize::MAX
                        &&& declared_names(g.nodes[k].output_ports).len() <= usize::MAX
                    },
                required_views(required@) == all_required(g, declared, i as nat),
        {
            proof {
                assert(g.nodes[i as int] == config.nodes@[i as int]@);
                assert(declared[i as int] == contracts@[i as int]@);
                assert(wiring.tables@[i as int].inputs@.len() >= 0);
                inputs_are_edges(g, i as int);
                outputs_are_edges(g, i as int);
            }
            let node = build_node(
                &config,
                i,
                &wiring.tables[i],
                &wiring.edge_by_name,
                &contracts[i],
            );
            let names = &contracts[i].required_side_packets;
            let ghost own = Seq::new(
                texts(names@).len(),
                |j: int| (texts(names@)[j], g.nodes[i as int].numbered_label(i as nat)),
            );
            let ghost done = required_views(required@);
            assert(done + own.take(0) =~= done);
            for j in 0..names.len()
                invariant
                    own == Seq::new(
                        texts(names@).len(),
                        |j: int| (texts(names@)[j], g.nodes[i as int].numbered_label(i as nat)),
                    ),
                    node@.name == g.nodes[i as int].numbered_label(i as nat),
                    required_views(required@) == done + own.take(j as int),
            {
                let ghost before = required_views(required@);
                required.push((names[j].clone(), node.name.clone()));
                assert(own.take(j + 1) =~= own.take(j as int).push(own[j as int]));
                assert(required_views(required@) =~= before.push(own[j as int]));
                assert(done + own.take(j + 1) =~= before.push(own[j as int]));
            }
            assert(own.take(own.len() as int) =~= own);
            nodes.push(node);
        }
        proof {
            assert(config.nodes@.len() == config.nodes.len());
            assert(wiring.edges@.len() == wiring.edges.len());
            assert(plan_edge_views(wiring.edges@).len() == wiring.edges@.len());
            assert forall|i: int| 0 <= i < g.nodes.len() implies {
                &&& port_list((#[trigger] g.nodes[i]).input_ports) is Ok
                &&& port_list(g.nodes[i].output_ports) is Ok
            } by {
                assert(wiring.tables@[i].inputs@.len() >= 0);
            }
            built_fits(g, declared, called);
            built_runs_in_order(g, declared, called);
            built_graphs_can_end(g, declared, called);
            built_graphs_are_tidy(g, declared, called);
        }
        let mut shared = GraphShared::new(config);
        shared.set_type_names(type_names);
        assert(shared@ =~= built(g, declared, called).shared);
        let ghost plan_edges = wiring.edges@;
        let edges = build_edges(wiring.edges);
        let graph = Graph {
            shared,
            nodes,
            edges,
            graph_inputs: wiring.graph_inputs,
            graph_outputs: wiring.graph_outputs,
            input_by_name: wiring.input_by_name,
            output_by_name: wiring.output_by_name,
            edge_by_name: wiring.edge_by_name,
            state: State::Initialized,
            main_queue: VecDeque::new(),
            side_packets: TextMap::new(),
            required_side_packets: required,
            outbox: Vec::new(),
            paused: false,
            task: Task::Idle,
        };
        proof {
            let b = built(g, declared, called);
            assert(graph@.nodes =~= b.nodes);
            assert(graph@.edges =~= b.edges) by {
                assert forall|e: int| 0 <= e < plan_edges.len() implies plan_edge_views(
                    plan_edges,
                )[e] == plan_edges[e]@ by {}
                assert(wired(g).edges == plan_edge_views(plan_edges));
            }
            assert(graph@ =~= b);
        }
        Ok(graph)
    }
}

impl Graph {
    /// Builds a graph from its configuration, what its kernels declared and
    /// what the types of their ports are called, or refuses it with the first
    /// thing that is wrong. What is warned about goes into the log either way.
    pub fn from_config(
        config: GraphConfig,
        contracts: &Vec<KernelContract>,
        type_names: TypeNames,
        lines: &mut Vec<LogLine>,
    ) -> (r: Result<Graph, Error>)
        requires
            contracts@.len() == config.nodes@.len(),
        ensures
            line_views(final(lines)@) == wiring_log(line_views(old(lines)@), config@),
            match building_problem(config@, contract_views(contracts@), type_names@) {
                Some(e) => r matches Err(x) && x@ == e,
                None => r matches Ok(graph) && graph@ == built(
                    config@,
                    contract_views(contracts@),
                    type_names@,
                ) && well_run(graph@) && read_once(graph@) && connected(graph@) && acyclic(graph@)
                    && settled(graph@) && nobody_waits(graph@) && well_wired(graph@) && tidy(graph@),
            },
    {
        let blueprint = Blueprint::draw(config, lines)?;
        blueprint.build(contracts, type_names)
    }
}

} // verus!

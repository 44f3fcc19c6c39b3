//! The plan of a graph: its nodes, the edges between them and their numbers.

use crate::config::{optional_route, GraphConfig, GraphView, NodeView, RouteConfig, RouteView};
use crate::cycle::successor_view;
use crate::port::{port_list, PortSpecView, PortTable};
use crate::preflight::{
    executor_position, find_executor, preflight_problem, validate_preflight_executors,
};
use crate::status::{first_failure, Error, ErrorView};
use crate::text::{cat3, clone_texts, contains_text, decimal, decimal_of_size, same, texts};
use crate::text_map::TextMap;
use crate::topology::{
    check_preflight_acyclic, connect, declared_names, graph_successors, known_names, produced,
    read_graph_inputs, read_graph_outputs, read_ports, tables_of, topology_problem, NodePorts,
};
use vstd::prelude::*;

verus! {

/// A node of a plan.
pub struct GraphPlanNode {
    pub index: usize,
    pub name: String,
    pub kernel: String,
    pub executor: String,
    pub inputs: Vec<String>,
    pub outputs: Vec<String>,
    pub route: Option<RouteConfig>,
    pub input_ports: PortTable,
    pub output_ports: PortTable,
    /// The edge of each input port.
    pub input_edges: Vec<usize>,
    /// The edge of each output port.
    pub output_edges: Vec<usize>,
    /// Zero for the default executor, else one more than its position.
    pub executor_index: usize,
}

/// An edge of a plan: everything that is sent under one name.
pub struct GraphPlanEdge {
    pub name: String,
    pub producer: Option<usize>,
    pub consumers: Vec<usize>,
    pub graph_input: bool,
    pub graph_output: bool,
    /// The consumers with the input port by which each reads the edge.
    pub consumer_ports: Vec<(usize, usize)>,
}

/// A graph that was checked, with its nodes and edges numbered.
pub struct GraphPlan {
    pub config: GraphConfig,
    pub nodes: Vec<GraphPlanNode>,
    pub edges: Vec<GraphPlanEdge>,
    pub graph_inputs: Vec<usize>,
    pub graph_outputs: Vec<usize>,
    pub input_by_name: TextMap<usize>,
    pub output_by_name: TextMap<usize>,
    pub edge_by_name: TextMap<usize>,
    /// Which input ports of each node are back edges.
    pub back_edge_mask: Vec<Vec<bool>>,
}

// ------------------------------------------------------------------ the model

#[verifier::ext_equal]
pub struct PlanNodeView {
    pub index: usize,
    pub name: Seq<char>,
    pub kernel: Seq<char>,
    pub executor: Seq<char>,
    pub inputs: Seq<Seq<char>>,
    pub outputs: Seq<Seq<char>>,
    pub route: Option<RouteView>,
    pub input_ports: Seq<PortSpecView>,
    pub output_ports: Seq<PortSpecView>,
    pub input_edges: Seq<usize>,
    pub output_edges: Seq<usize>,
    pub executor_index: usize,
}

#[verifier::ext_equal]
pub struct PlanEdgeView {
    pub name: Seq<char>,
    pub producer: Option<usize>,
    pub graph_input: bool,
    pub graph_output: bool,
    pub consumers: Seq<usize>,
    pub consumer_ports: Seq<(usize, usize)>,
}

#[verifier::ext_equal]
pub struct PlanView {
    pub config: GraphView,
    pub nodes: Seq<PlanNodeView>,
    pub edges: Seq<PlanEdgeView>,
    pub graph_inputs: Seq<usize>,
    pub graph_outputs: Seq<usize>,
    pub input_by_name: Map<Seq<char>, usize>,
    pub output_by_name: Map<Seq<char>, usize>,
    pub edge_by_name: Map<Seq<char>, usize>,
    pub back_edge_mask: Seq<Seq<bool>>,
}

impl View for GraphPlanNode {
    type V = PlanNodeView;

    open spec fn view(&self) -> PlanNodeView {
        PlanNodeView {
            index: self.index,
            name: self.name@,
            kernel: self.kernel@,
            executor: self.executor@,
            inputs: texts(self.inputs@),
            outputs: texts(self.outputs@),
            route: optional_route(self.route),
            input_ports: self.input_ports@,
            output_ports: self.output_ports@,
            input_edges: self.input_edges@,
            output_edges: self.output_edges@,
            executor_index: self.executor_index,
        }
    }
}

impl View for GraphPlanEdge {
    type V = PlanEdgeView;

    open spec fn view(&self) -> PlanEdgeView {
        PlanEdgeView {
            name: self.name@,
            producer: self.producer,
            graph_input: self.graph_input,
            graph_output: self.graph_output,
            consumers: self.consumers@,
            consumer_ports: self.consumer_ports@,
        }
    }
}

pub open spec fn plan_node_views(nodes: Seq<GraphPlanNode>) -> Seq<PlanNodeView> {
    Seq::new(nodes.len(), |i: int| nodes[i]@)
}

pub open spec fn plan_edge_views(edges: Seq<GraphPlanEdge>) -> Seq<PlanEdgeView> {
    Seq::new(edges.len(), |i: int| edges[i]@)
}

pub open spec fn mask_view(mask: Seq<Vec<bool>>) -> Seq<Seq<bool>> {
    Seq::new(mask.len(), |i: int| mask[i]@)
}

impl View for GraphPlan {
    type V = PlanView;

    open spec fn view(&self) -> PlanView {
        PlanView {
            config: self.config@,
            nodes: plan_node_views(self.nodes@),
            edges: plan_edge_views(self.edges@),
            graph_inputs: self.graph_inputs@,
            graph_outputs: self.graph_outputs@,
            input_by_name: self.input_by_name@,
            output_by_name: self.output_by_name@,
            edge_by_name: self.edge_by_name@,
            back_edge_mask: mask_view(self.back_edge_mask@),
        }
    }
}

/// A place of a graph where an edge is named.
pub enum Mention {
    /// A graph input.
    Source(Seq<char>),
    /// An output of a node.
    Output(Seq<char>, usize),
    /// An input of a node, by its port.
    Input(Seq<char>, usize, usize),
}

impl Mention {
    pub open spec fn name(self) -> Seq<char> {
        match self {
            Mention::Source(name) => name,
            Mention::Output(name, _) => name,
            Mention::Input(name, _, _) => name,
        }
    }
}

pub open spec fn sources(names: Seq<Seq<char>>) -> Seq<Mention> {
    Seq::new(names.len(), |k: int| Mention::Source(names[k]))
}

pub open spec fn outputs_of(names: Seq<Seq<char>>, index: usize) -> Seq<Mention> {
    Seq::new(names.len(), |k: int| Mention::Output(names[k], index))
}

pub open spec fn inputs_of(names: Seq<Seq<char>>, index: usize) -> Seq<Mention> {
    Seq::new(names.len(), |k: int| Mention::Input(names[k], index, k as usize))
}

/// Where edges are named: the graph inputs, then for each of the first `k`
/// nodes its outputs and its inputs.
pub open spec fn mentions(g: GraphView, k: nat) -> Seq<Mention>
    decreases k,
{
    if k == 0 {
        sources(declared_names(g.input_ports))
    } else {
        mentions(g, (k - 1) as nat) + outputs_of(
            declared_names(g.nodes[k - 1].output_ports),
            (k - 1) as usize,
        ) + inputs_of(declared_names(g.nodes[k - 1].input_ports), (k - 1) as usize)
    }
}

/// The names of the edges, in the order in which they are first named.
pub open spec fn edge_names(ms: Seq<Mention>) -> Seq<Seq<char>>
    decreases ms.len(),
{
    if ms.len() == 0 {
        Seq::empty()
    } else {
        let before = edge_names(ms.drop_last());
        if before.contains(ms.last().name()) {
            before
        } else {
            before.push(ms.last().name())
        }
    }
}

/// The node that produces an edge.
pub open spec fn producer_of(ms: Seq<Mention>, name: Seq<char>) -> Option<usize>
    decreases ms.len(),
{
    if ms.len() == 0 {
        None
    } else {
        match ms.last() {
            Mention::Output(n, index) => if n == name {
                Some(index)
            } else {
                producer_of(ms.drop_last(), name)
            },
            _ => producer_of(ms.drop_last(), name),
        }
    }
}

/// The nodes that consume an edge, with their ports, in order.
pub open spec fn consumers_of(ms: Seq<Mention>, name: Seq<char>) -> Seq<(usize, usize)>
    decreases ms.len(),
{
    if ms.len() == 0 {
        Seq::empty()
    } else {
        match ms.last() {
            Mention::Input(n, index, port) => if n == name {
                consumers_of(ms.drop_last(), name).push((index, port))
            } else {
                consumers_of(ms.drop_last(), name)
            },
            _ => consumers_of(ms.drop_last(), name),
        }
    }
}

/// Whether an edge is a graph input.
pub open spec fn is_source(ms: Seq<Mention>, name: Seq<char>) -> bool
    decreases ms.len(),
{
    if ms.len() == 0 {
        false
    } else {
        is_source(ms.drop_last(), name) || ms.last() == Mention::Source(name)
    }
}

/// The nodes of a list of consumers.
pub open spec fn consumer_nodes(pairs: Seq<(usize, usize)>) -> Seq<usize> {
    Seq::new(pairs.len(), |k: int| pairs[k].0)
}

/// The edge of a name. Its place among the graph outputs comes separately.
pub open spec fn edge_of(ms: Seq<Mention>, name: Seq<char>, graph_output: bool) -> PlanEdgeView {
    PlanEdgeView {
        name,
        producer: producer_of(ms, name),
        graph_input: is_source(ms, name),
        graph_output,
        consumers: consumer_nodes(consumers_of(ms, name)),
        consumer_ports: consumers_of(ms, name),
    }
}

/// The edges that a list of places names, given the graph outputs.
pub open spec fn edges_of(ms: Seq<Mention>, outs: Seq<Seq<char>>) -> Seq<PlanEdgeView> {
    Seq::new(
        edge_names(ms).len(),
        |k: int| edge_of(ms, edge_names(ms)[k], outs.contains(edge_names(ms)[k])),
    )
}

/// The numbers of the edges.
pub open spec fn edge_numbers(ms: Seq<Mention>) -> Map<Seq<char>, usize> {
    Map::new(
        |name: Seq<char>| edge_names(ms).contains(name),
        |name: Seq<char>| edge_names(ms).index_of(name) as usize,
    )
}

/// The numbers of the edges with the given names.
pub open spec fn numbers_of(ms: Seq<Mention>, names: Seq<Seq<char>>) -> Seq<usize> {
    Seq::new(names.len(), |k: int| edge_names(ms).index_of(names[k]) as usize)
}

/// The numbers of the edges with the given names, by name.
pub open spec fn numbers_by_name(ms: Seq<Mention>, names: Seq<Seq<char>>) -> Map<
    Seq<char>,
    usize,
> {
    Map::new(
        |name: Seq<char>| names.contains(name),
        |name: Seq<char>| edge_names(ms).index_of(name) as usize,
    )
}

impl NodeView {
    /// The executor of the node.
    pub open spec fn executor_name(self) -> Seq<char> {
        if self.executor.len() == 0 {
            "default"@
        } else {
            self.executor
        }
    }

    /// What the node is called in a plan: its name, else what it is and its
    /// number.
    pub open spec fn planned_name(self, index: nat) -> Seq<char> {
        if self.name.len() != 0 {
            self.name
        } else if self.kind == "route"@ {
            "route"@ + "#"@ + decimal(index)
        } else {
            self.kernel + "#"@ + decimal(index)
        }
    }
}

/// The number of an executor: zero for the default one.
pub open spec fn executor_number(g: GraphView, name: Seq<char>) -> usize {
    if name == "default"@ {
        0
    } else {
        match executor_position(g.executors, name) {
            Some(i) => (i + 1) as usize,
            None => 0,
        }
    }
}

/// A node of the plan of a graph whose edges are named in the given places.
pub open spec fn planned_node(g: GraphView, index: usize, ms: Seq<Mention>) -> PlanNodeView {
    let n = g.nodes[index as int];
    PlanNodeView {
        index,
        name: n.planned_name(index as nat),
        kernel: n.kernel,
        executor: n.executor_name(),
        inputs: declared_names(n.input_ports),
        outputs: declared_names(n.output_ports),
        route: if n.kind == "route"@ {
            n.route
        } else {
            None
        },
        input_ports: port_list(n.input_ports)->Ok_0,
        output_ports: port_list(n.output_ports)->Ok_0,
        input_edges: numbers_of(ms, declared_names(n.input_ports)),
        output_edges: numbers_of(ms, declared_names(n.output_ports)),
        executor_index: executor_number(g, n.executor_name()),
    }
}

/// Which of the names are back edges.
pub open spec fn mask_of(names: Seq<Seq<char>>, back_edges: Seq<Seq<char>>) -> Seq<bool> {
    Seq::new(names.len(), |p: int| back_edges.contains(names[p]))
}

/// The plan of a graph that has no problem.
pub open spec fn planned(g: GraphView) -> PlanView {
    let ms = mentions(g, g.nodes.len());
    let ins = declared_names(g.input_ports);
    let outs = declared_names(g.output_ports);
    PlanView {
        config: g,
        nodes: Seq::new(g.nodes.len(), |i: int| planned_node(g, i as usize, ms)),
        edges: edges_of(ms, outs),
        graph_inputs: numbers_of(ms, ins),
        graph_outputs: numbers_of(ms, outs),
        input_by_name: numbers_by_name(ms, ins),
        output_by_name: numbers_by_name(ms, outs),
        edge_by_name: edge_numbers(ms),
        back_edge_mask: Seq::new(
            g.nodes.len(),
            |i: int| mask_of(declared_names(g.nodes[i].input_ports), g.nodes[i].back_edges),
        ),
    }
}

/// The first thing that keeps a graph from being planned.
pub open spec fn plan_problem(g: GraphView, parallelism: usize) -> Option<ErrorView> {
    first_failure(preflight_problem(g, parallelism), topology_problem(g))
}

// ---------------------------------------------------------- names and mentions

/// No edge is listed twice, and each named edge is listed.
pub proof fn edge_names_distinct(ms: Seq<Mention>)
    ensures
        edge_names(ms).no_duplicates(),
        forall|k: int| 0 <= k < ms.len() ==> edge_names(ms).contains((#[trigger] ms[k]).name()),
    decreases ms.len(),
{
    if ms.len() > 0 {
        let front = ms.drop_last();
        edge_names_distinct(front);
        let before = edge_names(front);
        let now = edge_names(ms);
        assert forall|k: int| 0 <= k < ms.len() implies now.contains((#[trigger] ms[k]).name()) by {
            if k < front.len() {
                assert(front[k] == ms[k]);
                assert(before.contains(front[k].name()));
                let j = before.index_of(ms[k].name());
                assert(now[j] == ms[k].name());
            } else if !before.contains(ms.last().name()) {
                assert(now[before.len() as int] == ms.last().name());
            }
        }
        assert forall|a: int, b: int| 0 <= a < b < now.len() implies now[a] != now[b] by {
            if b < before.len() {
                assert(before[a] != before[b]);
            } else {
                assert(before[a] == now[a]);
            }
        }
    }
}

/// More places leave the numbers of the edges as they are.
proof fn lemma_names_grow(ms: Seq<Mention>, more: Seq<Mention>)
    ensures
        edge_names(ms).len() <= edge_names(ms + more).len(),
        forall|k: int|
            0 <= k < edge_names(ms).len() ==> #[trigger] edge_names(ms)[k] == edge_names(
                ms + more,
            )[k],
    decreases more.len(),
{
    if more.len() == 0 {
        assert(ms + more =~= ms);
    } else {
        lemma_names_grow(ms, more.drop_last());
        assert((ms + more).drop_last() =~= ms + more.drop_last());
    }
}

/// The number of an edge that is named stays as it is.
pub proof fn number_stable(ms: Seq<Mention>, more: Seq<Mention>, name: Seq<char>)
    requires
        edge_names(ms).contains(name),
    ensures
        edge_names(ms + more).contains(name),
        edge_names(ms + more).index_of(name) == edge_names(ms).index_of(name),
{
    lemma_names_grow(ms, more);
    edge_names_distinct(ms + more);
    let j = edge_names(ms).index_of(name);
    assert(edge_names(ms)[j] == name);
    assert(edge_names(ms + more)[j] == name);
    let k = edge_names(ms + more).index_of(name);
    assert(edge_names(ms + more)[k] == name);
}

/// Nothing is known of an edge that is not named.
proof fn lemma_unnamed(ms: Seq<Mention>, name: Seq<char>)
    requires
        !edge_names(ms).contains(name),
    ensures
        producer_of(ms, name) is None,
        consumers_of(ms, name) == Seq::<(usize, usize)>::empty(),
        !is_source(ms, name),
    decreases ms.len(),
{
    if ms.len() > 0 {
        edge_names_distinct(ms);
        assert(ms[ms.len() - 1] == ms.last());
        assert(ms.last().name() != name);
        let before = edge_names(ms.drop_last());
        if before.contains(name) {
            let j = before.index_of(name);
            assert(edge_names(ms)[j] == name);
        }
        lemma_unnamed(ms.drop_last(), name);
    }
}

/// Whether the edges and their numbers are those of the places.
pub open spec fn booked(
    edges: Seq<GraphPlanEdge>,
    numbers: Map<Seq<char>, usize>,
    ms: Seq<Mention>,
) -> bool {
    &&& plan_edge_views(edges) == edges_of(ms, Seq::empty())
    &&& numbers == edge_numbers(ms)
    &&& edges.len() <= usize::MAX
}

/// An edge of which nothing but the name is known.
pub open spec fn blank_edge(name: Seq<char>) -> PlanEdgeView {
    PlanEdgeView {
        name,
        producer: None,
        graph_input: false,
        graph_output: false,
        consumers: Seq::empty(),
        consumer_ports: Seq::empty(),
    }
}

/// The number of the edge of a name; a new edge if there is none.
pub fn plan_edge(
    name: &str,
    edges: &mut Vec<GraphPlanEdge>,
    edge_by_name: &mut TextMap<usize>,
) -> (r: usize)
    ensures
        if old(edge_by_name)@.contains_key(name@) {
            &&& r == old(edge_by_name)@[name@]
            &&& final(edges)@ == old(edges)@
            &&& final(edge_by_name)@ == old(edge_by_name)@
        } else {
            &&& r == old(edges)@.len()
            &&& final(edges)@.len() == r + 1
            &&& final(edges)@.drop_last() == old(edges)@
            &&& final(edges)@.last()@ == blank_edge(name@)
            &&& final(edge_by_name)@ == old(edge_by_name)@.insert(name@, r)
        },
{
    match edge_by_name.get(name) {
        Some(index) => {
            return *index;
        },
        None => {},
    }
    let index: usize = edges.len();
    edges.push(
        GraphPlanEdge {
            name: name.to_owned(),
            producer: None,
            consumers: Vec::new(),
            graph_input: false,
            graph_output: false,
            consumer_ports: Vec::new(),
        },
    );
    edge_by_name.insert(name.to_owned(), index);
    assert(edges@.drop_last() =~= old(edges)@);
    index
}

/// What one more place that names an edge changes: nothing but that edge.
proof fn lemma_mention(
    edges: Seq<PlanEdgeView>,
    ms: Seq<Mention>,
    m: Mention,
    after: Seq<PlanEdgeView>,
    i: int,
)
    requires
        edges == edges_of(ms, Seq::empty()),
        i == edge_names(ms.push(m)).index_of(m.name()),
        0 <= i < after.len(),
        after.len() == edge_names(ms.push(m)).len(),
        forall|k: int|
            0 <= k < after.len() && k != i ==> #[trigger] after[k] == edges[k],
        after[i] == edge_of(ms.push(m), m.name(), false),
    ensures
        after == edges_of(ms.push(m), Seq::empty()),
{
    let all = ms.push(m);
    let d = edge_names(all);
    assert(all.drop_last() =~= ms);
    edge_names_distinct(all);
    assert(all[ms.len() as int] == m);
    assert(d.contains(m.name()));
    assert(d[i] == m.name());
    assert forall|k: int| 0 <= k < after.len() implies #[trigger] after[k] == edges_of(
        all,
        Seq::empty(),
    )[k] by {
        if k != i {
            assert(d[k] != d[i]);
            assert(d[k] == edge_names(ms)[k]);
            assert(edges[k] == edge_of(ms, d[k], false));
        }
    }
    assert(after =~= edges_of(all, Seq::empty()));
}

/// Where the edge of a place stands after the place is entered.
proof fn lemma_place(ms: Seq<Mention>, m: Mention)
    ensures
        edge_names(ms).contains(m.name()) ==> edge_names(ms.push(m)) == edge_names(ms),
        !edge_names(ms).contains(m.name()) ==> edge_names(ms.push(m)) == edge_names(ms).push(
            m.name(),
        ) && edge_names(ms.push(m)).index_of(m.name()) == edge_names(ms).len(),
        edge_names(ms.push(m)).contains(m.name()),
        edge_numbers(ms.push(m)) == if edge_names(ms).contains(m.name()) {
            edge_numbers(ms)
        } else {
            edge_numbers(ms).insert(m.name(), edge_names(ms).len() as usize)
        },
{
    let all = ms.push(m);
    assert(all.drop_last() =~= ms);
    edge_names_distinct(all);
    edge_names_distinct(ms);
    let d = edge_names(all);
    let before = edge_names(ms);
    if !before.contains(m.name()) {
        assert(d[before.len() as int] == m.name());
        let k = d.index_of(m.name());
        assert(d[k] == m.name());
        assert forall|name: Seq<char>| edge_numbers(all).contains_key(name) == edge_numbers(
            ms,
        ).insert(m.name(), before.len() as usize).contains_key(name) by {
            if before.contains(name) {
                let j = before.index_of(name);
                assert(d[j] == name);
            }
            if d.contains(name) && name != m.name() {
                let j = d.index_of(name);
                assert(before[j] == name);
            }
        }
        assert forall|name: Seq<char>| before.contains(name) implies d.index_of(name)
            == before.index_of(name) by {
            let j = before.index_of(name);
            assert(d[j] == name);
            let l = d.index_of(name);
            assert(d[l] == name);
        }
        assert(edge_numbers(all) =~= edge_numbers(ms).insert(m.name(), before.len() as usize));
    }
}

/// The edges after the place `m`, before its own change is made.
proof fn lemma_opened(
    edges: Seq<GraphPlanEdge>,
    numbers: Map<Seq<char>, usize>,
    ms: Seq<Mention>,
    m: Mention,
    opened: Seq<GraphPlanEdge>,
    opened_numbers: Map<Seq<char>, usize>,
    i: usize,
)
    requires
        booked(edges, numbers, ms),
        opened.len() <= usize::MAX,
        if numbers.contains_key(m.name()) {
            &&& i == numbers[m.name()]
            &&& opened == edges
            &&& opened_numbers == numbers
        } else {
            &&& i == edges.len()
            &&& opened.len() == i + 1
            &&& opened.drop_last() == edges
            &&& opened.last()@ == blank_edge(m.name())
            &&& opened_numbers == numbers.insert(m.name(), i)
        },
    ensures
        i < opened.len(),
        i == edge_names(ms.push(m)).index_of(m.name()),
        opened.len() == edge_names(ms.push(m)).len(),
        opened_numbers == edge_numbers(ms.push(m)),
        opened[i as int]@ == edge_of(ms, m.name(), false),
        forall|k: int| 0 <= k < opened.len() && k != i ==> (#[trigger] opened[k])@
            == edges_of(ms, Seq::empty())[k],
{
    lemma_place(ms, m);
    edge_names_distinct(ms);
    let names = edge_names(ms);
    assert(plan_edge_views(edges).len() == edges.len());
    if names.contains(m.name()) {
        let j = names.index_of(m.name());
        assert(names[j] == m.name());
        assert(plan_edge_views(edges)[j] == edges[j]@);
        assert forall|k: int| 0 <= k < opened.len() && k != i implies (#[trigger] opened[k])@
            == edges_of(ms, Seq::empty())[k] by {
            assert(plan_edge_views(edges)[k] == edges[k]@);
        }
    } else {
        lemma_unnamed(ms, m.name());
        assert(consumer_nodes(consumers_of(ms, m.name())) =~= Seq::empty());
        assert(opened[i as int] == opened.last());
        assert forall|k: int| 0 <= k < opened.len() && k != i implies (#[trigger] opened[k])@
            == edges_of(ms, Seq::empty())[k] by {
            assert(opened.drop_last()[k] == opened[k]);
            assert(plan_edge_views(edges)[k] == edges[k]@);
        }
    }
}

/// Enters a graph input.
pub(crate) fn enter_source(
    name: &str,
    edges: &mut Vec<GraphPlanEdge>,
    edge_by_name: &mut TextMap<usize>,
    Ghost(ms): Ghost<Seq<Mention>>,
) -> (i: usize)
    requires
        booked(old(edges)@, old(edge_by_name)@, ms),
    ensures
        booked(final(edges)@, final(edge_by_name)@, ms.push(Mention::Source(name@))),
        i == edge_names(ms.push(Mention::Source(name@))).index_of(name@),
        edge_names(ms.push(Mention::Source(name@))).contains(name@),
{
    let ghost m = Mention::Source(name@);
    let i: usize = plan_edge(name, edges, edge_by_name);
    assert(edges.len() == edges@.len());
    let ghost opened = edges@;
    proof {
        lemma_opened(
            old(edges)@,
            old(edge_by_name)@,
            ms,
            m,
            edges@,
            edge_by_name@,
            i,
        );
        lemma_place(ms, m);
    }
    edges[i].graph_input = true;
    proof {
        assert(ms.push(m).drop_last() =~= ms);
        let after = plan_edge_views(edges@);
        assert(after[i as int] == edge_of(ms.push(m), name@, false));
        lemma_mention(edges_of(ms, Seq::empty()), ms, m, after, i as int);
    }
    i
}

/// Enters an output of a node.
pub(crate) fn enter_output(
    name: &str,
    index: usize,
    edges: &mut Vec<GraphPlanEdge>,
    edge_by_name: &mut TextMap<usize>,
    Ghost(ms): Ghost<Seq<Mention>>,
) -> (i: usize)
    requires
        booked(old(edges)@, old(edge_by_name)@, ms),
    ensures
        booked(final(edges)@, final(edge_by_name)@, ms.push(Mention::Output(name@, index))),
        i == edge_names(ms.push(Mention::Output(name@, index))).index_of(name@),
        edge_names(ms.push(Mention::Output(name@, index))).contains(name@),
{
    let ghost m = Mention::Output(name@, index);
    let i: usize = plan_edge(name, edges, edge_by_name);
    assert(edges.len() == edges@.len());
    proof {
        lemma_opened(
            old(edges)@,
            old(edge_by_name)@,
            ms,
            m,
            edges@,
            edge_by_name@,
            i,
        );
        lemma_place(ms, m);
    }
    edges[i].producer = Some(index);
    proof {
        assert(ms.push(m).drop_last() =~= ms);
        let after = plan_edge_views(edges@);
        assert(after[i as int] == edge_of(ms.push(m), name@, false));
        lemma_mention(edges_of(ms, Seq::empty()), ms, m, after, i as int);
    }
    i
}

/// Enters an input of a node.
pub(crate) fn enter_input(
    name: &str,
    index: usize,
    port: usize,
    edges: &mut Vec<GraphPlanEdge>,
    edge_by_name: &mut TextMap<usize>,
    Ghost(ms): Ghost<Seq<Mention>>,
) -> (i: usize)
    requires
        booked(old(edges)@, old(edge_by_name)@, ms),
    ensures
        booked(final(edges)@, final(edge_by_name)@, ms.push(Mention::Input(name@, index, port))),
        i == edge_names(ms.push(Mention::Input(name@, index, port))).index_of(name@),
        edge_names(ms.push(Mention::Input(name@, index, port))).contains(name@),
{
    let ghost m = Mention::Input(name@, index, port);
    let i: usize = plan_edge(name, edges, edge_by_name);
    assert(edges.len() == edges@.len());
    proof {
        lemma_opened(
            old(edges)@,
            old(edge_by_name)@,
            ms,
            m,
            edges@,
            edge_by_name@,
            i,
        );
        lemma_place(ms, m);
    }
    edges[i].consumers.push(index);
    edges[i].consumer_ports.push((index, port));
    proof {
        assert(ms.push(m).drop_last() =~= ms);
        let after = plan_edge_views(edges@);
        let pairs = consumers_of(ms, name@);
        assert(consumer_nodes(pairs.push((index, port))) =~= consumer_nodes(pairs).push(index));
        assert(after[i as int] == edge_of(ms.push(m), name@, false));
        lemma_mention(edges_of(ms, Seq::empty()), ms, m, after, i as int);
    }
    i
}

// ------------------------------------------------------------------- building

/// The places of the nodes from `k` on.
spec fn later_mentions(g: GraphView, k: nat, n: nat) -> Seq<Mention>
    decreases n,
{
    if n <= k {
        Seq::empty()
    } else {
        later_mentions(g, k, (n - 1) as nat) + outputs_of(
            declared_names(g.nodes[n - 1].output_ports),
            (n - 1) as usize,
        ) + inputs_of(declared_names(g.nodes[n - 1].input_ports), (n - 1) as usize)
    }
}

proof fn lemma_later(g: GraphView, k: nat, n: nat)
    requires
        k <= n,
    ensures
        mentions(g, n) == mentions(g, k) + later_mentions(g, k, n),
    decreases n,
{
    if n == k {
        assert(mentions(g, n) =~= mentions(g, k) + later_mentions(g, k, n));
    } else {
        lemma_later(g, k, (n - 1) as nat);
        assert(mentions(g, n) =~= mentions(g, k) + later_mentions(g, k, n));
    }
}

/// The edges of the first `k` nodes keep their numbers when the others follow.
proof fn lemma_numbers_stable(g: GraphView, k: nat, n: nat, names: Seq<Seq<char>>)
    requires
        k <= n,
        forall|j: int|
            0 <= j < names.len() ==> edge_names(mentions(g, k)).contains(#[trigger] names[j]),
    ensures
        numbers_of(mentions(g, n), names) == numbers_of(mentions(g, k), names),
{
    lemma_later(g, k, n);
    assert forall|j: int| 0 <= j < names.len() implies numbers_of(mentions(g, n), names)[j]
        == numbers_of(mentions(g, k), names)[j] by {
        number_stable(mentions(g, k), later_mentions(g, k, n), names[j]);
    }
    assert(numbers_of(mentions(g, n), names) =~= numbers_of(mentions(g, k), names));
}

/// The ports of node `index` are named edges once its places are entered.
proof fn lemma_own_names(g: GraphView, index: nat)
    requires
        index < g.nodes.len(),
    ensures
        forall|j: int|
            0 <= j < declared_names(g.nodes[index as int].output_ports).len() ==> edge_names(
                mentions(g, index + 1),
            ).contains(#[trigger] declared_names(g.nodes[index as int].output_ports)[j]),
        forall|j: int|
            0 <= j < declared_names(g.nodes[index as int].input_ports).len() ==> edge_names(
                mentions(g, index + 1),
            ).contains(#[trigger] declared_names(g.nodes[index as int].input_ports)[j]),
{
    let ms = mentions(g, index + 1);
    let before = mentions(g, index);
    let outs = declared_names(g.nodes[index as int].output_ports);
    let ins = declared_names(g.nodes[index as int].input_ports);
    edge_names_distinct(ms);
    assert forall|j: int| 0 <= j < outs.len() implies edge_names(ms).contains(
        #[trigger] outs[j],
    ) by {
        assert(ms[before.len() + j] == Mention::Output(outs[j], index as usize));
    }
    assert forall|j: int| 0 <= j < ins.len() implies edge_names(ms).contains(
        #[trigger] ins[j],
    ) by {
        assert(ms[before.len() + outs.len() + j] == Mention::Input(
            ins[j],
            index as usize,
            j as usize,
        ));
    }
}

/// Every name that is produced is a named edge.
proof fn lemma_known_are_named(g: GraphView, n: nat)
    requires
        n == g.nodes.len(),
    ensures
        forall|j: int|
            0 <= j < known_names(g).len() ==> edge_names(mentions(g, n)).contains(
                #[trigger] known_names(g)[j],
            ),
{
    let ms = mentions(g, n);
    let ins = declared_names(g.input_ports);
    edge_names_distinct(ms);
    lemma_later(g, 0, n);
    lemma_produced_named(g, n);
    assert(g.nodes.take(n as int) =~= g.nodes);
    assert forall|j: int| 0 <= j < known_names(g).len() implies edge_names(ms).contains(
        #[trigger] known_names(g)[j],
    ) by {
        if j < ins.len() {
            assert(ms[j] == Mention::Source(ins[j]));
        } else {
            let pairs = produced(g.nodes);
            assert(known_names(g)[j] == pairs[j - ins.len()].0);
        }
    }
}

proof fn lemma_produced_named(g: GraphView, k: nat)
    requires
        k <= g.nodes.len(),
    ensures
        forall|j: int|
            0 <= j < produced(g.nodes.take(k as int)).len() ==> edge_names(
                mentions(g, k),
            ).contains((#[trigger] produced(g.nodes.take(k as int))[j]).0),
    decreases k,
{
    if k > 0 {
        lemma_produced_named(g, (k - 1) as nat);
        lemma_own_names(g, (k - 1) as nat);
        lemma_later(g, (k - 1) as nat, k);
        let before = produced(g.nodes.take(k - 1));
        let now = produced(g.nodes.take(k as int));
        assert(g.nodes.take(k as int).drop_last() =~= g.nodes.take(k - 1));
        let own = declared_names(g.nodes[k - 1].output_ports);
        assert forall|j: int| 0 <= j < now.len() implies edge_names(mentions(g, k)).contains(
            (#[trigger] now[j]).0,
        ) by {
            if j < before.len() {
                assert(now[j] == before[j]);
                number_stable(
                    mentions(g, (k - 1) as nat),
                    later_mentions(g, (k - 1) as nat, k),
                    now[j].0,
                );
            } else {
                assert(now[j].0 == own[j - before.len()]);
            }
        }
    }
}

/// Every place among the first `k` nodes speaks of one of them.
proof fn lemma_mentions_bounded(g: GraphView, k: nat)
    requires
        k <= g.nodes.len() <= usize::MAX,
    ensures
        forall|j: int|
            0 <= j < mentions(g, k).len() ==> match #[trigger] mentions(g, k)[j] {
                Mention::Source(_) => true,
                Mention::Output(_, i) => i < k,
                Mention::Input(_, i, _) => i < k,
            },
    decreases k,
{
    if k > 0 {
        lemma_mentions_bounded(g, (k - 1) as nat);
        let before = mentions(g, (k - 1) as nat);
        let now = mentions(g, k);
        assert forall|j: int| 0 <= j < now.len() implies match #[trigger] now[j] {
            Mention::Source(_) => true,
            Mention::Output(_, i) => i < k,
            Mention::Input(_, i, _) => i < k,
        } by {
            if j < before.len() {
                assert(now[j] == before[j]);
            }
        }
    }
}

pub proof fn edge_bounded(ms: Seq<Mention>, name: Seq<char>, k: nat)
    requires
        forall|j: int|
            0 <= j < ms.len() ==> match #[trigger] ms[j] {
                Mention::Source(_) => true,
                Mention::Output(_, i) => i < k,
                Mention::Input(_, i, _) => i < k,
            },
    ensures
        producer_of(ms, name) matches Some(i) ==> i < k,
        forall|c: int|
            0 <= c < consumers_of(ms, name).len() ==> (#[trigger] consumers_of(ms, name)[c]).0
                < k,
    decreases ms.len(),
{
    if ms.len() > 0 {
        let front = ms.drop_last();
        assert forall|j: int| 0 <= j < front.len() implies match #[trigger] front[j] {
            Mention::Source(_) => true,
            Mention::Output(_, i) => i < k,
            Mention::Input(_, i, _) => i < k,
        } by {
            assert(front[j] == ms[j]);
        }
        edge_bounded(front, name, k);
        assert(ms[ms.len() - 1] == ms.last());
        let before = consumers_of(front, name);
        let now = consumers_of(ms, name);
        assert forall|c: int| 0 <= c < now.len() implies (#[trigger] now[c]).0 < k by {
            if c < before.len() {
                assert(now[c] == before[c]);
            }
        }
    }
}

/// The edges of a plan speak only of its nodes.
pub proof fn planned_is_well_formed(g: GraphView)
    requires
        g.nodes.len() <= usize::MAX,
    ensures
        planned(g).wf(),
{
    let p = planned(g);
    let ms = mentions(g, g.nodes.len());
    let outs = declared_names(g.output_ports);
    lemma_mentions_bounded(g, g.nodes.len());
    assert forall|k: int| 0 <= k < p.edges.len() implies ((#[trigger] p.edges[k]).producer matches Some(
        i,
    ) ==> i < p.nodes.len()) by {
        edge_bounded(ms, edge_names(ms)[k], g.nodes.len());
    }
    assert forall|k: int, c: int|
        0 <= k < p.edges.len() && 0 <= c < p.edges[k].consumers.len() implies (
    #[trigger] p.edges[k].consumers[c]) < p.nodes.len() by {
        edge_bounded(ms, edge_names(ms)[k], g.nodes.len());
        assert(p.edges[k].consumers[c] == consumers_of(ms, edge_names(ms)[k])[c].0);
    }
}

/// The number of the executor of a node.
fn executor_number_of(config: &GraphConfig, name: &str) -> (r: usize)
    ensures
        r == executor_number(config@, name@),
{
    if same(name, "default") {
        0
    } else {
        match find_executor(&config.executors, name) {
            Some(i) => {
                assert(config.executors@.len() == config.executors.len());
                i + 1
            },
            None => 0,
        }
    }
}

/// Plans node `index` and enters its ports.
fn plan_node(
    config: &GraphConfig,
    index: usize,
    ports: &NodePorts,
    edges: &mut Vec<GraphPlanEdge>,
    edge_by_name: &mut TextMap<usize>,
) -> (r: GraphPlanNode)
    requires
        index < config.nodes@.len(),
        port_list(config.nodes@[index as int]@.input_ports) == Ok::<
            Seq<PortSpecView>,
            (int, ErrorView),
        >(ports.inputs@),
        port_list(config.nodes@[index as int]@.output_ports) == Ok::<
            Seq<PortSpecView>,
            (int, ErrorView),
        >(ports.outputs@),
        booked(old(edges)@, old(edge_by_name)@, mentions(config@, index as nat)),
    ensures
        booked(final(edges)@, final(edge_by_name)@, mentions(config@, (index + 1) as nat)),
        r@ == planned_node(config@, index, mentions(config@, (index + 1) as nat)),
{
    let ghost g = config@;
    let ghost start = mentions(g, index as nat);
    let ghost whole = mentions(g, (index + 1) as nat);
    let node = &config.nodes[index];
    assert(g.nodes[index as int] == node@);
    let inputs = clone_texts(ports.inputs.names());
    let outputs = clone_texts(ports.outputs.names());
    let ghost ins = declared_names(node@.input_ports);
    let ghost outs = declared_names(node@.output_ports);
    assert(texts(inputs@) == ins && texts(outputs@) == outs);
    let ghost out_places = outputs_of(outs, index);
    let ghost in_places = inputs_of(ins, index);
    let mut output_edges: Vec<usize> = Vec::new();
    assert(out_places.take(0) =~= Seq::empty());
    assert(start + out_places.take(0) =~= start);
    for k in 0..outputs.len()
        invariant
            texts(outputs@) == outs,
            out_places == outputs_of(outs, index),
            booked(edges@, edge_by_name@, start + out_places.take(k as int)),
            output_edges@.len() == k,
            k <= outs.len(),
            forall|j: int|
                0 <= j < k ==> edge_names(start + out_places.take(k as int)).contains(
                    #[trigger] outs[j],
                ),
            output_edges@ == numbers_of(start + out_places.take(k as int), outs.take(k as int)),
    {
        let ghost ms = start + out_places.take(k as int);
        let ghost m = Mention::Output(outputs@[k as int]@, index);
        let ghost next = start + out_places.take(k + 1);
        assert(texts(outputs@)[k as int] == outputs@[k as int]@);
        assert(next =~= ms.push(m));
        assert(ms.push(m) =~= ms + seq![m]);
        let edge: usize = enter_output(
            outputs[k].as_str(),
            index,
            edges,
            edge_by_name,
            Ghost(ms),
        );
        let ghost done = output_edges@;
        output_edges.push(edge);
        proof {
            assert forall|j: int| 0 <= j < k + 1 implies edge_names(next).contains(
                #[trigger] outs[j],
            ) && output_edges@[j] == edge_names(next).index_of(outs[j]) as usize by {
                if j < k {
                    number_stable(ms, seq![m], outs[j]);
                    assert(done[j] == numbers_of(ms, outs.take(k as int))[j]);
                }
            }
            assert(output_edges@ =~= numbers_of(next, outs.take(k + 1)));
        }
    }
    assert(out_places.take(out_places.len() as int) =~= out_places);
    let ghost middle = start + out_places;
    let mut input_edges: Vec<usize> = Vec::new();
    assert(in_places.take(0) =~= Seq::empty());
    assert(middle + in_places.take(0) =~= middle);
    for p in 0..inputs.len()
        invariant
            texts(inputs@) == ins,
            in_places == inputs_of(ins, index),
            booked(edges@, edge_by_name@, middle + in_places.take(p as int)),
            input_edges@.len() == p,
            p <= ins.len(),
            forall|j: int|
                0 <= j < p ==> edge_names(middle + in_places.take(p as int)).contains(
                    #[trigger] ins[j],
                ),
            input_edges@ == numbers_of(middle + in_places.take(p as int), ins.take(p as int)),
    {
        let ghost ms = middle + in_places.take(p as int);
        let ghost m = Mention::Input(inputs@[p as int]@, index, p);
        let ghost next = middle + in_places.take(p + 1);
        assert(texts(inputs@)[p as int] == inputs@[p as int]@);
        assert(next =~= ms.push(m));
        assert(ms.push(m) =~= ms + seq![m]);
        let edge: usize = enter_input(
            inputs[p].as_str(),
            index,
            p,
            edges,
            edge_by_name,
            Ghost(ms),
        );
        let ghost done = input_edges@;
        input_edges.push(edge);
        proof {
            assert forall|j: int| 0 <= j < p + 1 implies edge_names(next).contains(
                #[trigger] ins[j],
            ) && input_edges@[j] == edge_names(next).index_of(ins[j]) as usize by {
                if j < p {
                    number_stable(ms, seq![m], ins[j]);
                    assert(done[j] == numbers_of(ms, ins.take(p as int))[j]);
                }
            }
            assert(input_edges@ =~= numbers_of(next, ins.take(p + 1)));
        }
    }
    proof {
        assert(in_places.take(in_places.len() as int) =~= in_places);
        assert(whole =~= middle + in_places);
        assert(outs.take(outs.len() as int) =~= outs);
        assert(ins.take(ins.len() as int) =~= ins);
        assert forall|j: int| 0 <= j < outs.len() implies output_edges@[j] == numbers_of(
            whole,
            outs,
        )[j] by {
            assert(edge_names(middle).contains(outs[j]));
            number_stable(middle, in_places, outs[j]);
        }
        assert(output_edges@ =~= numbers_of(whole, outs));
        assert(input_edges@ =~= numbers_of(whole, ins));
    }
    let executor = if node.executor.as_str().is_empty() {
        "default"
    } else {
        node.executor.as_str()
    };
    let is_route = same(node.kind.as_str(), "route");
    let number = decimal_of_size(index);
    let name = if !node.name.as_str().is_empty() {
        node.name.clone()
    } else if is_route {
        cat3("route", "#", number.as_str())
    } else {
        cat3(node.kernel.as_str(), "#", number.as_str())
    };
    let route = if is_route {
        match &node.route {
            Some(route) => Some(route.duplicate()),
            None => None,
        }
    } else {
        None
    };
    GraphPlanNode {
        index,
        name,
        kernel: node.kernel.clone(),
        executor: executor.to_owned(),
        inputs,
        outputs,
        route,
        input_ports: ports.inputs.duplicate(),
        output_ports: ports.outputs.duplicate(),
        input_edges,
        output_edges,
        executor_index: executor_number_of(config, executor),
    }
}

/// Which input ports of each node are back edges.
fn back_edge_masks(config: &GraphConfig, tables: &Vec<NodePorts>) -> (r: Vec<Vec<bool>>)
    requires
        tables_of(tables@, config@.nodes),
    ensures
        mask_view(r@) == Seq::new(
            config@.nodes.len(),
            |i: int|
                mask_of(declared_names(config@.nodes[i].input_ports), config@.nodes[i].back_edges),
        ),
{
    let ghost all = config@.nodes;
    let mut masks: Vec<Vec<bool>> = Vec::new();
    for i in 0..config.nodes.len()
        invariant
            all == config@.nodes,
            tables_of(tables@, all),
            masks@.len() == i,
            forall|k: int|
                0 <= k < i ==> (#[trigger] masks@[k])@ == mask_of(
                    declared_names(all[k].input_ports),
                    all[k].back_edges,
                ),
    {
        let node = &config.nodes[i];
        assert(all[i as int] == node@);
        assert(port_list(all[i as int].input_ports) == Ok::<Seq<PortSpecView>, (int, ErrorView)>(
            tables@[i as int].inputs@,
        ));
        let names = tables[i].inputs.names();
        let ghost own = declared_names(node@.input_ports);
        let mut mask: Vec<bool> = Vec::new();
        for p in 0..names.len()
            invariant
                texts(names@) == own,
                mask@.len() == p,
                forall|j: int|
                    0 <= j < p ==> #[trigger] mask@[j] == node@.back_edges.contains(own[j]),
        {
            assert(texts(names@)[p as int] == names@[p as int]@);
            mask.push(contains_text(&node.back_edges, names[p].as_str()));
        }
        assert(mask@ =~= mask_of(own, node@.back_edges));
        masks.push(mask);
    }
    assert(mask_view(masks@) =~= Seq::new(
        config@.nodes.len(),
        |i: int|
            mask_of(declared_names(config@.nodes[i].input_ports), config@.nodes[i].back_edges),
    ));
    masks
}

/// The graph inputs, entered as edges.
pub(crate) struct BookedInputs {
    pub edges: Vec<GraphPlanEdge>,
    pub edge_by_name: TextMap<usize>,
    pub numbers: Vec<usize>,
    pub by_name: TextMap<usize>,
}

/// One more name in a list of names.
proof fn lemma_contains_next(names: Seq<Seq<char>>, k: int)
    requires
        0 <= k < names.len(),
    ensures
        names.take(k + 1) == names.take(k).push(names[k]),
        forall|x: Seq<char>|
            #[trigger] names.take(k + 1).contains(x) == (x == names[k] || names.take(k).contains(
                x,
            )),
{
    let now = names.take(k + 1);
    let before = names.take(k);
    assert(now =~= before.push(names[k]));
    assert forall|x: Seq<char>| #[trigger] now.contains(x) == (x == names[k] || before.contains(
        x,
    )) by {
        if before.contains(x) {
            let j = before.index_of(x);
            assert(now[j] == x);
        }
        if x == names[k] {
            assert(now[k] == x);
        }
        if now.contains(x) && x != names[k] {
            let j = now.index_of(x);
            assert(before[j] == x);
        }
    }
}

/// Enters the graph inputs. `rest` is what is entered after them.
pub(crate) fn book_inputs(inputs: &Vec<String>, Ghost(rest): Ghost<Seq<Mention>>) -> (r:
    BookedInputs)
    ensures
        booked(r.edges@, r.edge_by_name@, sources(texts(inputs@))),
        r.numbers@ == numbers_of(sources(texts(inputs@)) + rest, texts(inputs@)),
        r.by_name@ == numbers_by_name(sources(texts(inputs@)) + rest, texts(inputs@)),
{
    let mut edges: Vec<GraphPlanEdge> = Vec::new();
    let mut edge_by_name: TextMap<usize> = TextMap::new();
    let mut numbers: Vec<usize> = Vec::new();
    let mut by_name: TextMap<usize> = TextMap::new();
    let ghost ins = texts(inputs@);
    let ghost places = sources(ins);
    let ghost whole = places + rest;
    proof {
        assert(places.take(0) =~= Seq::empty());
        assert(plan_edge_views(edges@) =~= edges_of(places.take(0), Seq::empty()));
        assert(edge_by_name@ =~= edge_numbers(places.take(0)));
        assert(by_name@ =~= numbers_by_name(whole, ins.take(0)));
    }
    for k in 0..inputs.len()
        invariant
            texts(inputs@) == ins,
            places == sources(ins),
            whole == places + rest,
            booked(edges@, edge_by_name@, places.take(k as int)),
            numbers@ == numbers_of(whole, ins.take(k as int)),
            by_name@ == numbers_by_name(whole, ins.take(k as int)),
    {
        let ghost ms = places.take(k as int);
        let ghost name = inputs@[k as int]@;
        let ghost later = places.skip(k + 1) + rest;
        assert(texts(inputs@)[k as int] == name);
        assert(places.take(k + 1) =~= ms.push(Mention::Source(name)));
        assert(whole =~= places.take(k + 1) + later);
        let edge: usize = enter_source(
            inputs[k].as_str(),
            &mut edges,
            &mut edge_by_name,
            Ghost(ms),
        );
        numbers.push(edge);
        by_name.insert(inputs[k].clone(), edge);
        proof {
            number_stable(places.take(k + 1), later, name);
            lemma_contains_next(ins, k as int);
            assert(numbers@ =~= numbers_of(whole, ins.take(k + 1)));
            assert(by_name@ =~= numbers_by_name(whole, ins.take(k + 1)));
        }
    }
    assert(places.take(places.len() as int) =~= places);
    assert(ins.take(ins.len() as int) =~= ins);
    BookedInputs { edges, edge_by_name, numbers, by_name }
}

/// Marks the edges that are graph outputs and gives their numbers.
pub(crate) fn book_outputs(
    outputs: &Vec<String>,
    edges: &mut Vec<GraphPlanEdge>,
    edge_by_name: &TextMap<usize>,
    Ghost(ms): Ghost<Seq<Mention>>,
) -> (r: (Vec<usize>, TextMap<usize>))
    requires
        booked(old(edges)@, edge_by_name@, ms),
        forall|j: int|
            0 <= j < texts(outputs@).len() ==> edge_names(ms).contains(
                #[trigger] texts(outputs@)[j],
            ),
    ensures
        plan_edge_views(final(edges)@) == edges_of(ms, texts(outputs@)),
        r.0@ == numbers_of(ms, texts(outputs@)),
        r.1@ == numbers_by_name(ms, texts(outputs@)),
{
    let mut numbers: Vec<usize> = Vec::new();
    let mut by_name: TextMap<usize> = TextMap::new();
    let ghost outs = texts(outputs@);
    let ghost named = edge_names(ms);
    proof {
        edge_names_distinct(ms);
        assert(outs.take(0) =~= Seq::empty());
        assert(by_name@ =~= numbers_by_name(ms, outs.take(0)));
        assert(plan_edge_views(edges@).len() == edges@.len());
    }
    for k in 0..outputs.len()
        invariant
            texts(outputs@) == outs,
            named == edge_names(ms),
            forall|j: int| 0 <= j < outs.len() ==> named.contains(#[trigger] outs[j]),
            named.no_duplicates(),
            edge_by_name@ == edge_numbers(ms),
            edges@.len() == named.len(),
            edges@.len() <= usize::MAX,
            plan_edge_views(edges@) == edges_of(ms, outs.take(k as int)),
            numbers@ == numbers_of(ms, outs.take(k as int)),
            by_name@ == numbers_by_name(ms, outs.take(k as int)),
    {
        let ghost name = outputs@[k as int]@;
        let ghost before = outs.take(k as int);
        let ghost now = outs.take(k + 1);
        let ghost old_edges = edges@;
        proof {
            assert(outs[k as int] == name);
            assert(named.contains(name));
            lemma_contains_next(outs, k as int);
        }
        let edge: usize = match edge_by_name.get(outputs[k].as_str()) {
            Some(edge) => *edge,
            None => 0,
        };
        assert(named[edge as int] == name);
        edges[edge].graph_output = true;
        numbers.push(edge);
        by_name.insert(outputs[k].clone(), edge);
        proof {
            assert forall|j: int| 0 <= j < edges@.len() implies plan_edge_views(edges@)[j]
                == edges_of(ms, now)[j] by {
                assert(plan_edge_views(old_edges)[j] == edges_of(ms, before)[j]);
                assert(plan_edge_views(old_edges)[j] == old_edges[j]@);
                if j != edge {
                    assert(named[j] != named[edge as int]);
                }
            }
            assert(plan_edge_views(edges@) =~= edges_of(ms, now));
            assert(numbers@ =~= numbers_of(ms, now));
            assert(by_name@ =~= numbers_by_name(ms, now));
        }
    }
    assert(outs.take(outs.len() as int) =~= outs);
    (numbers, by_name)
}

impl GraphPlan {
    /// Plans a graph, or refuses it with the first thing that is wrong.
    /// `parallelism` is the number of threads of the default executor.
    #[verifier::rlimit(40)]
    pub fn build(config: GraphConfig, parallelism: usize) -> (r: Result<GraphPlan, Error>)
        ensures
            match plan_problem(config@, parallelism) {
                Some(e) => r matches Err(x) && x@ == e,
                None => r matches Ok(plan) && plan@ == planned(config@) && plan@.wf(),
            },
    {
        let ghost g = config@;
        validate_preflight_executors(&config, parallelism)?;
        let inputs = read_graph_inputs(&config.input_ports)?;
        let ports = read_ports(&config.nodes, &inputs)?;
        assert(texts(ports.known@) =~= known_names(g));
        let adj = connect(&config.nodes, &ports)?;
        let outputs = read_graph_outputs(&config.output_ports, &ports.known)?;
        assert(successor_view(adj@) == graph_successors(g));
        assert(adj@.len() == config.nodes@.len()) by {
            assert(successor_view(adj@).len() == adj@.len());
        }
        check_preflight_acyclic(&adj, &config.nodes)?;

        let ghost ins = declared_names(g.input_ports);
        let ghost n = g.nodes.len();
        let ghost whole = mentions(g, n);
        proof {
            lemma_later(g, 0, n);
        }
        let booked_inputs = book_inputs(&inputs, Ghost(later_mentions(g, 0, n)));
        let mut edges = booked_inputs.edges;
        let mut edge_by_name = booked_inputs.edge_by_name;
        let graph_inputs = booked_inputs.numbers;
        let input_by_name = booked_inputs.by_name;

        let mut nodes: Vec<GraphPlanNode> = Vec::new();
        for i in 0..config.nodes.len()
            invariant
                g == config@,
                n == g.nodes.len(),
                whole == mentions(g, n),
                tables_of(ports.tables@, g.nodes),
                booked(edges@, edge_by_name@, mentions(g, i as nat)),
                nodes@.len() == i,
                forall|k: int|
                    0 <= k < i ==> (#[trigger] nodes@[k])@ == planned_node(g, k as usize, whole),
        {
            assert(g.nodes[i as int] == config.nodes@[i as int]@);
            assert(port_list(g.nodes[i as int].input_ports) == Ok::<
                Seq<PortSpecView>,
                (int, ErrorView),
            >(ports.tables@[i as int].inputs@));
            let node = plan_node(
                &config,
                i,
                &ports.tables[i],
                &mut edges,
                &mut edge_by_name,
            );
            proof {
                lemma_own_names(g, i as nat);
                let own = g.nodes[i as int];
                lemma_numbers_stable(g, (i + 1) as nat, n, declared_names(own.input_ports));
                lemma_numbers_stable(g, (i + 1) as nat, n, declared_names(own.output_ports));
            }
            nodes.push(node);
        }

        let ghost outs = declared_names(g.output_ports);
        proof {
            lemma_known_are_named(g, n);
            assert forall|j: int| 0 <= j < outs.len() implies edge_names(whole).contains(
                #[trigger] outs[j],
            ) by {
                assert(texts(outputs@)[j] == outputs@[j]@);
                assert(texts(ports.known@).contains(outputs@[j]@));
                let k = known_names(g).index_of(outs[j]);
                assert(known_names(g)[k] == outs[j]);
            }
        }
        let (graph_outputs, output_by_name) = book_outputs(
            &outputs,
            &mut edges,
            &edge_by_name,
            Ghost(whole),
        );
        let back_edge_mask = back_edge_masks(&config, &ports.tables);
        assert(plan_node_views(nodes@) =~= planned(g).nodes);
        proof {
            assert(config.nodes@.len() == config.nodes.len());
            planned_is_well_formed(g);
        }
        Ok(
            GraphPlan {
                config,
                nodes,
                edges,
                graph_inputs,
                graph_outputs,
                input_by_name,
                output_by_name,
                edge_by_name,
                back_edge_mask,
            },
        )
    }
}

} // verus!

//! Subgraphs: every instance is replaced by the nodes of its subgraph.
//!
//! The nodes of an instance `d` are named `d/...`, and so are the ports inside
//! it. The ports at its boundary get, by position, the names of the ports that
//! the instance is connected to.

use crate::config::{
    node_views, subgraph_views, text_groups, GraphConfig, GraphView, InputQueueLimitConfig,
    InputQueuesConfig, NodeConfig, NodeView, PolicyView, QueuesView, RouteConfig, RouteRule,
    RouteView, RuleView, SubgraphConfig, SubgraphView,
};
use crate::port::{
    accepted_port_is_clean, assembled, parse_port_spec, parse_ports, port_list, port_spec,
    port_views, reassemble, reassembled_reads_back, PortSpecView,
};
use crate::status::{failure, Error, ErrorView};
use crate::text::{
    cat2, cat3, cat4, cat5, cat7, contains_text, decimal, decimal_of_size, join, joined, same,
    texts,
};
use crate::text_map::{
    ascending, ascending_keys_are_distinct, keys_have_one_order, ordered_keys, TextMap,
};
use vstd::prelude::*;

verus! {

// ---------------------------------------------------------------------- names

/// The new name of a port: that of the connected port at the boundary, else
/// the old one inside the instance.
pub open spec fn renamed(
    name: Seq<char>,
    prefix: Seq<char>,
    rename: Map<Seq<char>, Seq<char>>,
) -> Seq<char> {
    if rename.contains_key(name) {
        rename[name]
    } else {
        prefix + name
    }
}

/// The declarations of a list of ports under their new names.
pub open spec fn renamed_ports(
    list: Seq<PortSpecView>,
    prefix: Seq<char>,
    rename: Map<Seq<char>, Seq<char>>,
) -> Seq<Seq<char>> {
    Seq::new(list.len(), |i: int| assembled(list[i], renamed(list[i].name, prefix, rename)))
}

/// The new names of a list of ports.
pub open spec fn renamed_names(
    names: Seq<Seq<char>>,
    prefix: Seq<char>,
    rename: Map<Seq<char>, Seq<char>>,
) -> Seq<Seq<char>> {
    Seq::new(names.len(), |i: int| renamed(names[i], prefix, rename))
}

/// The groups of input ports under their new names.
pub open spec fn renamed_groups(
    sets: Seq<Seq<Seq<char>>>,
    prefix: Seq<char>,
    rename: Map<Seq<char>, Seq<char>>,
) -> Seq<Seq<Seq<char>>> {
    Seq::new(sets.len(), |i: int| renamed_names(sets[i], prefix, rename))
}

/// The capacities of the first `k` ports that have one of their own, by the
/// new names of the ports.
pub open spec fn renamed_limits(
    q: QueuesView,
    prefix: Seq<char>,
    rename: Map<Seq<char>, Seq<char>>,
    k: nat,
) -> Map<Seq<char>, Option<usize>>
    decreases k,
{
    if k == 0 {
        Map::empty()
    } else {
        renamed_limits(q, prefix, rename, (k - 1) as nat).insert(
            renamed(q.ports[k - 1], prefix, rename),
            q.limits[k - 1],
        )
    }
}

/// The capacities of the input ports under their new names.
pub open spec fn renamed_queues(
    q: QueuesView,
    prefix: Seq<char>,
    rename: Map<Seq<char>, Seq<char>>,
) -> QueuesView {
    let limits = renamed_limits(q, prefix, rename, q.ports.len());
    let ports = ordered_keys(limits);
    QueuesView {
        packets: q.packets,
        ports,
        limits: Seq::new(ports.len(), |i: int| limits[ports[i]]),
    }
}

/// The rules of a route node with their targets under their new names.
pub open spec fn renamed_route(
    route: RouteView,
    prefix: Seq<char>,
    rename: Map<Seq<char>, Seq<char>>,
) -> RouteView {
    RouteView {
        mode: route.mode,
        unmatched: if route.unmatched == "drop"@ || route.unmatched == "error"@ {
            route.unmatched
        } else {
            renamed(route.unmatched, prefix, rename)
        },
        routes: Seq::new(
            route.routes.len(),
            |i: int|
                RuleView {
                    to: renamed(route.routes[i].to, prefix, rename),
                    when: route.routes[i].when,
                    default: route.routes[i].default,
                },
        ),
    }
}

impl NodeView {
    /// What a node is called: its name, else its kernel, else its type.
    pub open spec fn label(self) -> Seq<char> {
        if self.name.len() != 0 {
            self.name
        } else if self.kernel.len() != 0 {
            self.kernel
        } else {
            self.kind
        }
    }

    /// The node inside an instance, with the given ports.
    pub open spec fn placed(
        self,
        prefix: Seq<char>,
        rename: Map<Seq<char>, Seq<char>>,
        inputs: Seq<Seq<char>>,
        outputs: Seq<Seq<char>>,
    ) -> NodeView {
        NodeView {
            name: if prefix.len() == 0 {
                self.name
            } else {
                prefix + self.label()
            },
            input_ports: inputs,
            output_ports: outputs,
            back_edges: renamed_names(self.back_edges, prefix, rename),
            input_policy: PolicyView {
                sets: renamed_groups(self.input_policy.sets, prefix, rename),
                ..self.input_policy
            },
            input_queues: renamed_queues(self.input_queues, prefix, rename),
            route: match self.route {
                Some(route) => if self.kind == "route"@ {
                    Some(renamed_route(route, prefix, rename))
                } else {
                    Some(route)
                },
                None => None,
            },
            ..self
        }
    }
}

/// The names at the boundary, mapped to the names of the connected ports, for
/// the first `k` ports.
pub open spec fn bound(
    map: Map<Seq<char>, Seq<char>>,
    boundary: Seq<Seq<char>>,
    outer: Seq<Seq<char>>,
    k: int,
) -> Result<Map<Seq<char>, Seq<char>>, ErrorView>
    decreases k,
{
    if k <= 0 {
        Ok(map)
    } else {
        match bound(map, boundary, outer, k - 1) {
            Err(e) => Err(e),
            Ok(m) => match port_spec(boundary[k - 1]) {
                Err(e) => Err(e),
                Ok(inner_port) => match port_spec(outer[k - 1]) {
                    Err(e) => Err(e),
                    Ok(outer_port) => Ok(m.insert(inner_port.name, outer_port.name)),
                },
            },
        }
    }
}

/// The refusal of an instance with another number of ports than its subgraph.
pub open spec fn arity_problem(
    subgraph: Seq<char>,
    which: Seq<char>,
    want: nat,
    got: nat,
) -> Option<ErrorView> {
    if want == got {
        None
    } else {
        Some(
            ErrorView::InvalidArg(
                "subgraph `"@ + subgraph + "`: instance provides "@ + decimal(got) + " "@ + which
                    + " port(s) but the subgraph declares "@ + decimal(want),
            ),
        )
    }
}

/// The renaming inside an instance with the given ports.
pub open spec fn instance_names(
    sub: SubgraphView,
    inputs: Seq<Seq<char>>,
    outputs: Seq<Seq<char>>,
) -> Result<Map<Seq<char>, Seq<char>>, ErrorView> {
    match bound(Map::empty(), sub.input_ports, inputs, inputs.len() as int) {
        Err(e) => Err(e),
        Ok(m) => bound(m, sub.output_ports, outputs, outputs.len() as int),
    }
}

// ------------------------------------------------------------------ expansion

/// The subgraphs that are not being expanded.
pub open spec fn idle(
    subgraphs: Map<Seq<char>, SubgraphView>,
    stack: Seq<Seq<char>>,
) -> Set<Seq<char>> {
    subgraphs.dom().difference(stack.to_set())
}

/// A subgraph whose expansion starts is no longer idle.
pub proof fn lemma_idle_shrinks(
    subgraphs: Map<Seq<char>, SubgraphView>,
    stack: Seq<Seq<char>>,
    name: Seq<char>,
)
    requires
        subgraphs.dom().finite(),
        subgraphs.contains_key(name),
        !stack.contains(name),
    ensures
        idle(subgraphs, stack.push(name)).len() < idle(subgraphs, stack).len(),
{
    let before = idle(subgraphs, stack);
    let after = idle(subgraphs, stack.push(name));
    assert(stack.push(name)[stack.len() as int] == name);
    assert(stack.push(name).contains(name));
    assert(before.contains(name));
    assert forall|x: Seq<char>| #[trigger] after.contains(x) <==> before.remove(name).contains(
        x,
    ) by {
        if stack.contains(x) {
            let i = stack.index_of(x);
            assert(stack.push(name)[i] == x);
        }
        if stack.push(name).contains(x) && x != name {
            let i = stack.push(name).index_of(x);
            assert(stack[i] == x);
        }
    }
    assert(after =~= before.remove(name));
}

/// The nodes that stand for a list of nodes after expansion, or why they
/// cannot be expanded.
pub open spec fn flattened(
    nodes: Seq<NodeView>,
    prefix: Seq<char>,
    rename: Map<Seq<char>, Seq<char>>,
    subgraphs: Map<Seq<char>, SubgraphView>,
    stack: Seq<Seq<char>>,
) -> Result<Seq<NodeView>, ErrorView>
    decreases idle(subgraphs, stack).len(), nodes.len(),
    when subgraphs.dom().finite()
{
    if nodes.len() == 0 {
        Ok(Seq::empty())
    } else {
        match flattened(nodes.drop_last(), prefix, rename, subgraphs, stack) {
            Err(e) => Err(e),
            Ok(done) => match flattened_node(nodes.last(), prefix, rename, subgraphs, stack) {
                Err(e) => Err(e),
                Ok(more) => Ok(done + more),
            },
        }
    }
}

/// The nodes that stand for one node after expansion: itself if it has a
/// kernel or routes, else those of its subgraph.
pub open spec fn flattened_node(
    n: NodeView,
    prefix: Seq<char>,
    rename: Map<Seq<char>, Seq<char>>,
    subgraphs: Map<Seq<char>, SubgraphView>,
    stack: Seq<Seq<char>>,
) -> Result<Seq<NodeView>, ErrorView>
    decreases idle(subgraphs, stack).len(), 0nat,
    when subgraphs.dom().finite()
{
    match (port_list(n.input_ports), port_list(n.output_ports)) {
        (Err((_, e)), _) => Err(e),
        (_, Err((_, e))) => Err(e),
        (Ok(ins), Ok(outs)) => {
            let inputs = renamed_ports(ins, prefix, rename);
            let outputs = renamed_ports(outs, prefix, rename);
            let who = prefix + n.label();
            if n.kind == "route"@ {
                Ok(seq![n.placed(prefix, rename, inputs, outputs)])
            } else if n.kind.len() == 0 {
                if n.kernel.len() == 0 {
                    Err(
                        ErrorView::InvalidArg(
                            "node `"@ + who
                                + "` has neither `kernel` nor `type` -- one is required"@,
                        ),
                    )
                } else {
                    Ok(seq![n.placed(prefix, rename, inputs, outputs)])
                }
            } else if n.kernel.len() != 0 {
                Err(
                    ErrorView::InvalidArg(
                        "node `"@ + who
                            + "` has both `kernel` and `type` -- only one is allowed"@,
                    ),
                )
            } else if !subgraphs.contains_key(n.kind) {
                Err(
                    ErrorView::InvalidArg(
                        "node `"@ + who + "`: unknown subgraph `"@ + n.kind + "`"@,
                    ),
                )
            } else if stack.contains(n.kind) {
                Err(
                    ErrorView::InvalidArg(
                        "subgraph `"@ + n.kind + "` is recursive (expansion cycle: "@ + joined(
                            stack,
                            " -> "@,
                        ) + " -> "@ + n.kind + ")"@,
                    ),
                )
            } else {
                let sub = subgraphs[n.kind];
                let in_arity = arity_problem(
                    n.kind,
                    "input"@,
                    sub.input_ports.len(),
                    inputs.len(),
                );
                let out_arity = arity_problem(
                    n.kind,
                    "output"@,
                    sub.output_ports.len(),
                    outputs.len(),
                );
                proof {
                    lemma_idle_shrinks(subgraphs, stack, n.kind);
                }
                if in_arity is Some {
                    Err(in_arity->Some_0)
                } else if out_arity is Some {
                    Err(out_arity->Some_0)
                } else {
                    match instance_names(sub, inputs, outputs) {
                        Err(e) => Err(e),
                        Ok(names) => flattened(
                            sub.nodes,
                            prefix + n.label() + "/"@,
                            names,
                            subgraphs,
                            stack.push(n.kind),
                        ),
                    }
                }
            }
        },
    }
}

/// The graph after expansion, or why it cannot be expanded.
pub open spec fn expanded(g: GraphView) -> Result<GraphView, ErrorView> {
    match flattened(g.nodes, Seq::empty(), Map::empty(), g.subgraphs, Seq::empty()) {
        Err(e) => Err(e),
        Ok(nodes) => Ok(
            GraphView { nodes, includes: Seq::empty(), subgraphs: Map::empty(), ..g },
        ),
    }
}

// ------------------------------------------------------------------ execution

/// The texts that a map of strings maps to.
pub open spec fn text_values(m: Map<Seq<char>, String>) -> Map<Seq<char>, Seq<char>> {
    m.map_values(|s: String| s@)
}

fn remap_name(name: &str, prefix: &str, rename: &TextMap<String>) -> (r: String)
    ensures
        r@ == renamed(name@, prefix@, text_values(rename@)),
{
    match rename.get(name) {
        Some(edge) => edge.clone(),
        None => cat2(prefix, name),
    }
}

fn remap_ports(decls: &Vec<String>, prefix: &str, rename: &TextMap<String>) -> (r: Result<
    Vec<String>,
    Error,
>)
    ensures
        match port_list(texts(decls@)) {
            Err((_, e)) => r matches Err(x) && x@ == e,
            Ok(list) => r matches Ok(ports) && texts(ports@) == renamed_ports(
                list,
                prefix@,
                text_values(rename@),
            ),
        },
{
    match parse_ports(decls) {
        Err((_, e)) => Err(e),
        Ok(list) => {
            let mut out: Vec<String> = Vec::new();
            let ghost names = text_values(rename@);
            for i in 0..list.len()
                invariant
                    names == text_values(rename@),
                    out@.len() == i,
                    forall|k: int|
                        0 <= k < i ==> (#[trigger] out@[k])@ == assembled(
                            list@[k]@,
                            renamed(list@[k].name@, prefix@, names),
                        ),
            {
                let name = remap_name(list[i].name.as_str(), prefix, rename);
                out.push(reassemble(&list[i], name.as_str()));
            }
            assert(texts(out@) =~= renamed_ports(port_views(list@), prefix@, names));
            Ok(out)
        },
    }
}

fn remap_names(names: &Vec<String>, prefix: &str, rename: &TextMap<String>) -> (r: Vec<String>)
    ensures
        texts(r@) == renamed_names(texts(names@), prefix@, text_values(rename@)),
{
    let mut out: Vec<String> = Vec::new();
    for i in 0..names.len()
        invariant
            out@.len() == i,
            forall|k: int|
                0 <= k < i ==> (#[trigger] out@[k])@ == renamed(
                    names@[k]@,
                    prefix@,
                    text_values(rename@),
                ),
    {
        out.push(remap_name(names[i].as_str(), prefix, rename));
    }
    assert(texts(out@) =~= renamed_names(texts(names@), prefix@, text_values(rename@)));
    out
}

fn remap_groups(sets: &Vec<Vec<String>>, prefix: &str, rename: &TextMap<String>) -> (r: Vec<
    Vec<String>,
>)
    ensures
        text_groups(r@) == renamed_groups(text_groups(sets@), prefix@, text_values(rename@)),
{
    let mut out: Vec<Vec<String>> = Vec::new();
    for i in 0..sets.len()
        invariant
            out@.len() == i,
            forall|k: int|
                0 <= k < i ==> texts((#[trigger] out@[k])@) == renamed_names(
                    texts(sets@[k]@),
                    prefix@,
                    text_values(rename@),
                ),
    {
        out.push(remap_names(&sets[i], prefix, rename));
    }
    assert(text_groups(out@) =~= renamed_groups(
        text_groups(sets@),
        prefix@,
        text_values(rename@),
    ));
    out
}

/// What some capacities are.
spec fn limit_map(m: Map<Seq<char>, InputQueueLimitConfig>) -> Map<Seq<char>, Option<usize>> {
    m.map_values(|l: InputQueueLimitConfig| l.packets)
}

fn remap_queues(q: &InputQueuesConfig, prefix: &str, rename: &TextMap<String>) -> (r:
    InputQueuesConfig)
    ensures
        r@ == renamed_queues(q@, prefix@, text_values(rename@)),
{
    let ghost names = text_values(rename@);
    let count: usize = q.ports.len();
    let mut ports: TextMap<InputQueueLimitConfig> = TextMap::new();
    assert(limit_map(ports@) =~= renamed_limits(q@, prefix@, names, 0));
    for i in 0..count
        invariant
            names == text_values(rename@),
            count == q.ports.keys().len(),
            count == q.ports.values().len(),
            limit_map(ports@) == renamed_limits(q@, prefix@, names, i as nat),
    {
        let ghost before = ports@;
        let name = remap_name(q.ports.key_at(i).as_str(), prefix, rename);
        let limit = *q.ports.value_at(i);
        let ghost key = name@;
        ports.insert(name, limit);
        assert(limit_map(ports@) =~= limit_map(before).insert(key, limit.packets));
    }
    let length: usize = ports.len();
    let r = InputQueuesConfig { packets: q.packets, ports };
    proof {
        let limits = renamed_limits(q@, prefix@, names, q@.ports.len());
        assert(limit_map(r.ports@) == limits);
        assert forall|k: Seq<char>| r.ports.keys().contains(k) == #[trigger] limits.contains_key(
            k,
        ) by {
            assert(limits.contains_key(k) == r.ports@.contains_key(k));
        }
        keys_have_one_order(limits, r.ports.keys());
        assert(r@.limits =~= renamed_queues(q@, prefix@, names).limits) by {
            assert forall|i: int| 0 <= i < length implies #[trigger] r@.limits[i]
                == limits[r.ports.keys()[i]] by {
                assert(r.ports@.contains_key(r.ports.keys()[i]));
                assert(r.ports@[r.ports.keys()[i]] == r.ports.values()[i]);
            }
        }
    }
    r
}

fn remap_route(route: &RouteConfig, prefix: &str, rename: &TextMap<String>) -> (r: RouteConfig)
    ensures
        r@ == renamed_route(route@, prefix@, text_values(rename@)),
{
    let mut routes: Vec<RouteRule> = Vec::new();
    let ghost names = text_values(rename@);
    for i in 0..route.routes.len()
        invariant
            names == text_values(rename@),
            routes@.len() == i,
            forall|k: int|
                0 <= k < i ==> (#[trigger] routes@[k])@ == (RuleView {
                    to: renamed(route.routes@[k].to@, prefix@, names),
                    when: route.routes@[k]@.when,
                    default: route.routes@[k].default,
                }),
    {
        let mut rule = route.routes[i].duplicate();
        rule.to = remap_name(route.routes[i].to.as_str(), prefix, rename);
        routes.push(rule);
    }
    let unmatched = if same(route.unmatched.as_str(), "drop") || same(
        route.unmatched.as_str(),
        "error",
    ) {
        route.unmatched.clone()
    } else {
        remap_name(route.unmatched.as_str(), prefix, rename)
    };
    let r = RouteConfig { mode: route.mode, unmatched, routes };
    assert(r@.routes =~= renamed_route(route@, prefix@, names).routes);
    r
}

/// What a node is called: its name, else its kernel, else its type.
pub fn node_label(n: &NodeConfig) -> (r: String)
    ensures
        r@ == n@.label(),
{
    if !n.name.as_str().is_empty() {
        n.name.clone()
    } else if !n.kernel.as_str().is_empty() {
        n.kernel.clone()
    } else {
        n.kind.clone()
    }
}

fn node_who(n: &NodeConfig, prefix: &str) -> (r: String)
    ensures
        r@ == prefix@ + n@.label(),
{
    let label = node_label(n);
    cat2(prefix, label.as_str())
}

fn bind_boundary(map: &mut TextMap<String>, boundary: &Vec<String>, outer: &Vec<String>) -> (r:
    Result<(), Error>)
    requires
        boundary@.len() == outer@.len(),
    ensures
        match bound(
            text_values(old(map)@),
            texts(boundary@),
            texts(outer@),
            outer@.len() as int,
        ) {
            Err(e) => r matches Err(x) && x@ == e,
            Ok(m) => r is Ok && text_values(final(map)@) == m,
        },
{
    let ghost start = text_values(map@);
    let ghost inside = texts(boundary@);
    let ghost outside = texts(outer@);
    for i in 0..boundary.len()
        invariant
            boundary@.len() == outer@.len(),
            inside == texts(boundary@),
            outside == texts(outer@),
            bound(start, inside, outside, i as int) == Ok::<
                Map<Seq<char>, Seq<char>>,
                ErrorView,
            >(text_values(map@)),
            start == text_values(old(map)@),
    {
        let ghost before = map@;
        assert(inside[i as int] == boundary@[i as int]@);
        assert(outside[i as int] == outer@[i as int]@);
        let inner_port = match parse_port_spec(boundary[i].as_str()) {
            Ok(p) => p,
            Err(e) => {
                proof {
                    lemma_bound_fails(start, inside, outside, i + 1, outside.len() as int);
                }
                return Err(e);
            },
        };
        let outer_port = match parse_port_spec(outer[i].as_str()) {
            Ok(p) => p,
            Err(e) => {
                proof {
                    lemma_bound_fails(start, inside, outside, i + 1, outside.len() as int);
                }
                return Err(e);
            },
        };
        let ghost inner_name = inner_port.name@;
        let ghost outer_name = outer_port.name;
        map.insert(inner_port.name, outer_port.name);
        assert(text_values(map@) =~= text_values(before).insert(inner_name, outer_name@));
    }
    Ok(())
}

proof fn lemma_bound_fails(
    map: Map<Seq<char>, Seq<char>>,
    boundary: Seq<Seq<char>>,
    outer: Seq<Seq<char>>,
    k: int,
    n: int,
)
    requires
        0 <= k <= n,
        bound(map, boundary, outer, k) is Err,
    ensures
        bound(map, boundary, outer, n) == bound(map, boundary, outer, k),
    decreases n - k,
{
    if k < n {
        lemma_bound_fails(map, boundary, outer, k, n - 1);
    }
}

fn check_arity(subgraph: &str, which: &str, want: usize, got: usize) -> (r: Result<(), Error>)
    ensures
        failure(r) == arity_problem(subgraph@, which@, want as nat, got as nat),
{
    if want != got {
        let provided = decimal_of_size(got);
        let declared = decimal_of_size(want);
        let front = cat5("subgraph `", subgraph, "`: instance provides ", provided.as_str(), " ");
        return Err(
            Error::InvalidArg(
                cat4(
                    front.as_str(),
                    which,
                    " port(s) but the subgraph declares ",
                    declared.as_str(),
                ),
            ),
        );
    }
    Ok(())
}

/// The node inside an instance, with the given ports.
fn place_node(
    n: &NodeConfig,
    prefix: &str,
    rename: &TextMap<String>,
    inputs: Vec<String>,
    outputs: Vec<String>,
) -> (r: NodeConfig)
    ensures
        r@ == n@.placed(prefix@, text_values(rename@), texts(inputs@), texts(outputs@)),
{
    let mut placed = n.duplicate();
    if !prefix.is_empty() {
        placed.name = node_who(n, prefix);
    }
    placed.input_ports = inputs;
    placed.output_ports = outputs;
    placed.back_edges = remap_names(&n.back_edges, prefix, rename);
    placed.input_policy.sets = remap_groups(&n.input_policy.sets, prefix, rename);
    placed.input_queues = remap_queues(&n.input_queues, prefix, rename);
    if same(n.kind.as_str(), "route") {
        placed.route = match &n.route {
            Some(route) => Some(remap_route(route, prefix, rename)),
            None => None,
        };
    }
    placed
}

/// Puts the nodes that stand for one node behind those of `out`.
fn inline_node(
    n: &NodeConfig,
    prefix: &str,
    rename: &TextMap<String>,
    subgraphs: &TextMap<SubgraphConfig>,
    out: &mut Vec<NodeConfig>,
    stack: &mut Vec<String>,
) -> (r: Result<(), Error>)
    requires
        subgraph_views(subgraphs@).dom().finite(),
    ensures
        match flattened_node(
            n@,
            prefix@,
            text_values(rename@),
            subgraph_views(subgraphs@),
            texts(old(stack)@),
        ) {
            Err(e) => r matches Err(x) && x@ == e,
            Ok(more) => {
                &&& r is Ok
                &&& node_views(final(out)@) == node_views(old(out)@) + more
                &&& final(stack)@ == old(stack)@
            },
        },
    decreases idle(subgraph_views(subgraphs@), texts(old(stack)@)).len(), 0nat,
{
    let ghost subs = subgraph_views(subgraphs@);
    let ghost names = text_values(rename@);
    let ghost running = texts(stack@);
    let inputs = match remap_ports(&n.input_ports, prefix, rename) {
        Ok(ports) => ports,
        Err(e) => {
            return Err(e);
        },
    };
    let outputs = match remap_ports(&n.output_ports, prefix, rename) {
        Ok(ports) => ports,
        Err(e) => {
            return Err(e);
        },
    };
    if same(n.kind.as_str(), "route") {
        let ghost before = node_views(out@);
        let placed = place_node(n, prefix, rename, inputs, outputs);
        out.push(placed);
        assert(node_views(out@) =~= before + seq![placed@]);
        return Ok(());
    }
    let who = node_who(n, prefix);
    if n.kind.as_str().is_empty() {
        if n.kernel.as_str().is_empty() {
            return Err(
                Error::InvalidArg(
                    cat3(
                        "node `",
                        who.as_str(),
                        "` has neither `kernel` nor `type` -- one is required",
                    ),
                ),
            );
        }
        let ghost before = node_views(out@);
        let placed = place_node(n, prefix, rename, inputs, outputs);
        out.push(placed);
        assert(node_views(out@) =~= before + seq![placed@]);
        return Ok(());
    }
    if !n.kernel.as_str().is_empty() {
        return Err(
            Error::InvalidArg(
                cat3(
                    "node `",
                    who.as_str(),
                    "` has both `kernel` and `type` -- only one is allowed",
                ),
            ),
        );
    }
    let sub = match subgraphs.get(n.kind.as_str()) {
        Some(sub) => sub,
        None => {
            return Err(
                Error::InvalidArg(
                    cat5("node `", who.as_str(), "`: unknown subgraph `", n.kind.as_str(), "`"),
                ),
            );
        },
    };
    if contains_text(stack, n.kind.as_str()) {
        let chain = join(stack, " -> ");
        return Err(
            Error::InvalidArg(
                cat7(
                    "subgraph `",
                    n.kind.as_str(),
                    "` is recursive (expansion cycle: ",
                    chain.as_str(),
                    " -> ",
                    n.kind.as_str(),
                    ")",
                ),
            ),
        );
    }
    check_arity(n.kind.as_str(), "input", sub.input_ports.len(), inputs.len())?;
    check_arity(n.kind.as_str(), "output", sub.output_ports.len(), outputs.len())?;
    let mut child: TextMap<String> = TextMap::new();
    assert(text_values(child@) =~= Map::empty());
    bind_boundary(&mut child, &sub.input_ports, &inputs)?;
    bind_boundary(&mut child, &sub.output_ports, &outputs)?;
    let child_prefix = cat2(who.as_str(), "/");
    let ghost stack_before = stack@;
    stack.push(n.kind.clone());
    proof {
        assert(texts(stack@) =~= running.push(n.kind@));
        lemma_idle_shrinks(subs, running, n.kind@);
    }
    inline(&sub.nodes, child_prefix.as_str(), &child, subgraphs, out, stack)?;
    stack.pop();
    assert(stack@ =~= stack_before);
    Ok(())
}

/// Puts the nodes that stand for a list of nodes behind those of `out`.
fn inline(
    nodes: &Vec<NodeConfig>,
    prefix: &str,
    rename: &TextMap<String>,
    subgraphs: &TextMap<SubgraphConfig>,
    out: &mut Vec<NodeConfig>,
    stack: &mut Vec<String>,
) -> (r: Result<(), Error>)
    requires
        subgraph_views(subgraphs@).dom().finite(),
    ensures
        match flattened(
            node_views(nodes@),
            prefix@,
            text_values(rename@),
            subgraph_views(subgraphs@),
            texts(old(stack)@),
        ) {
            Err(e) => r matches Err(x) && x@ == e,
            Ok(more) => {
                &&& r is Ok
                &&& node_views(final(out)@) == node_views(old(out)@) + more
                &&& final(stack)@ == old(stack)@
            },
        },
    decreases idle(subgraph_views(subgraphs@), texts(old(stack)@)).len(), 1nat,
{
    let ghost all = node_views(nodes@);
    let ghost subs = subgraph_views(subgraphs@);
    let ghost names = text_values(rename@);
    let ghost running = texts(stack@);
    let ghost start = node_views(out@);
    assert(all.take(0) =~= Seq::empty());
    for i in 0..nodes.len()
        invariant
            all == node_views(nodes@),
            subs == subgraph_views(subgraphs@),
            names == text_values(rename@),
            stack@ == old(stack)@,
            running == texts(old(stack)@),
            start == node_views(old(out)@),
            subs.dom().finite(),
            flattened(all.take(i as int), prefix@, names, subs, running) is Ok,
            node_views(out@) == start + flattened(
                all.take(i as int),
                prefix@,
                names,
                subs,
                running,
            )->Ok_0,
    {
        let ghost done = flattened(all.take(i as int), prefix@, names, subs, running)->Ok_0;
        proof {
            assert(all.take(i + 1).drop_last() =~= all.take(i as int));
            assert(all.take(i + 1).last() == nodes@[i as int]@);
        }
        match inline_node(&nodes[i], prefix, rename, subgraphs, out, stack) {
            Ok(()) => {},
            Err(e) => {
                proof {
                    lemma_flattened_fails(all, prefix@, names, subs, running, i + 1);
                }
                return Err(e);
            },
        }
        proof {
            let more = flattened_node(nodes@[i as int]@, prefix@, names, subs, running)->Ok_0;
            assert(start + done + more =~= start + (done + more));
        }
    }
    assert(all.take(all.len() as int) =~= all);
    Ok(())
}

proof fn lemma_flattened_fails(
    nodes: Seq<NodeView>,
    prefix: Seq<char>,
    rename: Map<Seq<char>, Seq<char>>,
    subgraphs: Map<Seq<char>, SubgraphView>,
    stack: Seq<Seq<char>>,
    k: int,
)
    requires
        subgraphs.dom().finite(),
        0 <= k <= nodes.len(),
        flattened(nodes.take(k), prefix, rename, subgraphs, stack) is Err,
    ensures
        flattened(nodes, prefix, rename, subgraphs, stack) == flattened(
            nodes.take(k),
            prefix,
            rename,
            subgraphs,
            stack,
        ),
    decreases nodes.len() - k,
{
    if k < nodes.len() {
        assert(nodes.take(k + 1).drop_last() =~= nodes.take(k));
        lemma_flattened_fails(nodes, prefix, rename, subgraphs, stack, k + 1);
    } else {
        assert(nodes.take(k) =~= nodes);
    }
}

/// Replaces every instance of a subgraph by the nodes of the subgraph.
pub fn expand(cfg: GraphConfig) -> (r: Result<GraphConfig, Error>)
    ensures
        match expanded(cfg@) {
            Err(e) => r matches Err(x) && x@ == e,
            Ok(g) => r matches Ok(flat) && flat@ == g,
        },
{
    let rename: TextMap<String> = TextMap::new();
    let mut out: Vec<NodeConfig> = Vec::new();
    let mut stack: Vec<String> = Vec::new();
    let count: usize = cfg.subgraphs.len();
    assert(subgraph_views(cfg.subgraphs@).dom() =~= cfg.subgraphs@.dom());
    assert(text_values(rename@) =~= Map::empty());
    assert(texts(stack@) =~= Seq::empty());
    proof {
        reveal_strlit("");
        assert(""@ =~= Seq::<char>::empty());
    }
    inline(&cfg.nodes, "", &rename, &cfg.subgraphs, &mut out, &mut stack)?;
    let mut flat = cfg;
    flat.nodes = out;
    flat.includes = Vec::new();
    flat.subgraphs = TextMap::new();
    proof {
        let nodes = flattened(
            cfg@.nodes,
            Seq::empty(),
            Map::empty(),
            cfg@.subgraphs,
            Seq::empty(),
        )->Ok_0;
        assert(node_views(flat.nodes@) =~= nodes);
        assert(texts(flat.includes@) =~= Seq::empty());
        assert(subgraph_views(flat.subgraphs@) =~= Map::empty());
    }
    Ok(flat)
}

// -------------------------------------------------------------------- the laws

/// Whether a node stands for itself: it has a kernel, or it routes.
pub open spec fn stands_for_itself(n: NodeView) -> bool {
    n.kind == "route"@ || (n.kind.len() == 0 && n.kernel.len() > 0)
}

/// What comes out of an expansion holds no instance of a subgraph: every node
/// has a kernel or routes.
pub proof fn expansion_leaves_no_instance(
    nodes: Seq<NodeView>,
    prefix: Seq<char>,
    rename: Map<Seq<char>, Seq<char>>,
    subgraphs: Map<Seq<char>, SubgraphView>,
    stack: Seq<Seq<char>>,
    i: int,
)
    requires
        subgraphs.dom().finite(),
        flattened(nodes, prefix, rename, subgraphs, stack) is Ok,
        0 <= i < flattened(nodes, prefix, rename, subgraphs, stack)->Ok_0.len(),
    ensures
        stands_for_itself(flattened(nodes, prefix, rename, subgraphs, stack)->Ok_0[i]),
    decreases idle(subgraphs, stack).len(), nodes.len(),
{
    if nodes.len() > 0 {
        let done = flattened(nodes.drop_last(), prefix, rename, subgraphs, stack)->Ok_0;
        let n = nodes.last();
        let more = flattened_node(n, prefix, rename, subgraphs, stack);
        assert(more is Ok);
        assert(flattened(nodes, prefix, rename, subgraphs, stack)->Ok_0 == done + more->Ok_0);
        if i < done.len() {
            expansion_leaves_no_instance(
                nodes.drop_last(),
                prefix,
                rename,
                subgraphs,
                stack,
                i,
            );
        } else if !stands_for_itself(n) {
            let ins = port_list(n.input_ports)->Ok_0;
            let outs = port_list(n.output_ports)->Ok_0;
            let inputs = renamed_ports(ins, prefix, rename);
            let outputs = renamed_ports(outs, prefix, rename);
            let sub = subgraphs[n.kind];
            lemma_idle_shrinks(subgraphs, stack, n.kind);
            expansion_leaves_no_instance(
                sub.nodes,
                prefix + n.label() + "/"@,
                instance_names(sub, inputs, outputs)->Ok_0,
                subgraphs,
                stack.push(n.kind),
                i - done.len(),
            );
        }
    }
}

/// A configuration that was expanded brings in no files, has no subgraphs left
/// and holds no instance of one.
pub proof fn expanded_graphs_are_flat(g: GraphView)
    requires
        g.subgraphs.dom().finite(),
        expanded(g) is Ok,
    ensures
        expanded(g)->Ok_0.includes.len() == 0,
        expanded(g)->Ok_0.subgraphs == Map::<Seq<char>, SubgraphView>::empty(),
        forall|i: int|
            0 <= i < expanded(g)->Ok_0.nodes.len() ==> #[trigger] stands_for_itself(
                expanded(g)->Ok_0.nodes[i],
            ),
{
    assert forall|i: int| 0 <= i < expanded(g)->Ok_0.nodes.len() implies #[trigger] stands_for_itself(
        expanded(g)->Ok_0.nodes[i],
    ) by {
        expansion_leaves_no_instance(
            g.nodes,
            Seq::empty(),
            Map::empty(),
            g.subgraphs,
            Seq::empty(),
            i,
        );
    }
}

/// The ports of a list keep their tags and their indices under new names, and
/// the new names are what is read back.
pub proof fn renaming_keeps_tags_and_indices(
    decls: Seq<Seq<char>>,
    prefix: Seq<char>,
    rename: Map<Seq<char>, Seq<char>>,
)
    requires
        port_list(decls) is Ok,
        !prefix.contains(':'),
        forall|name: Seq<char>| #[trigger]
            rename.contains_key(name) ==> rename[name].len() > 0 && !rename[name].contains(':'),
    ensures
        ({
            let list = port_list(decls)->Ok_0;
            let again = port_list(renamed_ports(list, prefix, rename));
            &&& again is Ok
            &&& again->Ok_0.len() == list.len()
            &&& forall|i: int|
                0 <= i < list.len() ==> (#[trigger] again->Ok_0[i]) == (PortSpecView {
                    tag: list[i].tag,
                    index: list[i].index,
                    name: renamed(list[i].name, prefix, rename),
                })
        }),
    decreases decls.len(),
{
    let list = port_list(decls)->Ok_0;
    let out = renamed_ports(list, prefix, rename);
    if decls.len() > 0 {
        renaming_keeps_tags_and_indices(decls.drop_last(), prefix, rename);
        let front = port_list(decls.drop_last())->Ok_0;
        let spec = port_spec(decls.last())->Ok_0;
        assert(list == front.push(spec));
        accepted_port_is_clean(decls.last());
        let name = renamed(spec.name, prefix, rename);
        if !rename.contains_key(spec.name) {
            assert forall|i: int| 0 <= i < name.len() implies name[i] != ':' by {
                if i < prefix.len() {
                    assert(prefix.contains(prefix[i]));
                } else {
                    assert(spec.name.contains(spec.name[i - prefix.len()]));
                }
            }
        }
        reassembled_reads_back(spec, name);
        assert(out.drop_last() =~= renamed_ports(front, prefix, rename));
        assert(out.last() == assembled(spec, name));
        let again = port_list(out)->Ok_0;
        let again_front = port_list(out.drop_last())->Ok_0;
        assert(again == again_front.push(port_spec(out.last())->Ok_0));
        assert forall|i: int| 0 <= i < list.len() implies (#[trigger] again[i]) == (PortSpecView {
            tag: list[i].tag,
            index: list[i].index,
            name: renamed(list[i].name, prefix, rename),
        }) by {
            if i < front.len() {
                assert(again[i] == again_front[i]);
                assert(list[i] == front[i]);
            }
        }
    } else {
        assert(out =~= Seq::empty());
    }
}

/// Without a prefix and a renaming the ports of a list stay what they are.
proof fn lemma_same_ports(decls: Seq<Seq<char>>)
    requires
        port_list(decls) is Ok,
    ensures
        port_list(renamed_ports(port_list(decls)->Ok_0, Seq::empty(), Map::empty())) == port_list(
            decls,
        ),
{
    let list = port_list(decls)->Ok_0;
    let (prefix, rename) = (Seq::<char>::empty(), Map::<Seq<char>, Seq<char>>::empty());
    renaming_keeps_tags_and_indices(decls, prefix, rename);
    let again = port_list(renamed_ports(list, prefix, rename))->Ok_0;
    assert forall|i: int| 0 <= i < list.len() implies #[trigger] again[i] == list[i] by {
        assert(prefix + list[i].name =~= list[i].name);
    }
    assert(again =~= list);
}

proof fn lemma_same_names(names: Seq<Seq<char>>)
    ensures
        renamed_names(names, Seq::empty(), Map::empty()) == names,
{
    let out = renamed_names(names, Seq::empty(), Map::empty());
    assert forall|k: int| 0 <= k < names.len() implies #[trigger] out[k] == names[k] by {
        assert(Seq::<char>::empty() + names[k] =~= names[k]);
    }
    assert(out =~= names);
}

proof fn lemma_same_groups(sets: Seq<Seq<Seq<char>>>)
    ensures
        renamed_groups(sets, Seq::empty(), Map::empty()) == sets,
{
    let out = renamed_groups(sets, Seq::empty(), Map::empty());
    assert forall|k: int| 0 <= k < sets.len() implies #[trigger] out[k] == sets[k] by {
        lemma_same_names(sets[k]);
    }
    assert(out =~= sets);
}

proof fn lemma_same_limits(q: QueuesView, k: nat)
    requires
        ascending(q.ports),
        q.limits.len() == q.ports.len(),
        k <= q.ports.len(),
    ensures
        ({
            let limits = renamed_limits(q, Seq::empty(), Map::empty(), k);
            &&& forall|name: Seq<char>|
                q.ports.take(k as int).contains(name) == #[trigger] limits.contains_key(name)
            &&& forall|i: int| 0 <= i < k ==> limits[#[trigger] q.ports[i]] == q.limits[i]
        }),
    decreases k,
{
    let limits = renamed_limits(q, Seq::empty(), Map::empty(), k);
    let some = q.ports.take(k as int);
    if k > 0 {
        let before = renamed_limits(q, Seq::empty(), Map::empty(), (k - 1) as nat);
        let front = q.ports.take(k - 1);
        lemma_same_limits(q, (k - 1) as nat);
        let name = q.ports[k - 1];
        assert(Seq::<char>::empty() + name =~= name);
        assert(limits == before.insert(name, q.limits[k - 1]));
        ascending_keys_are_distinct(q.ports);
        assert(some =~= front.push(name));
        assert forall|x: Seq<char>| some.contains(x) == #[trigger] limits.contains_key(x) by {
            assert(front.contains(x) == before.contains_key(x));
            if front.contains(x) {
                let i = front.index_of(x);
                assert(front[i] == x);
                assert(some[i] == x);
            }
            if x == name {
                assert(some[k - 1] == x);
            }
            if some.contains(x) && x != name {
                let i = some.index_of(x);
                assert(some[i] == x);
                assert(front[i] == x);
            }
        }
    } else {
        assert(some =~= Seq::empty());
    }
}

proof fn lemma_same_queues(q: QueuesView)
    requires
        ascending(q.ports),
        q.limits.len() == q.ports.len(),
    ensures
        renamed_queues(q, Seq::empty(), Map::empty()) == q,
{
    let limits = renamed_limits(q, Seq::empty(), Map::empty(), q.ports.len());
    lemma_same_limits(q, q.ports.len());
    assert(q.ports.take(q.ports.len() as int) =~= q.ports);
    keys_have_one_order(limits, q.ports);
    assert(renamed_queues(q, Seq::empty(), Map::empty()).limits =~= q.limits);
}

/// A graph without instances comes out of the expansion with the same nodes
/// in the same order, and the ports of each say what they said.
pub proof fn expansion_keeps_plain_nodes(
    nodes: Seq<NodeView>,
    subgraphs: Map<Seq<char>, SubgraphView>,
    i: int,
)
    requires
        subgraphs.dom().finite(),
        forall|k: int| 0 <= k < nodes.len() ==> #[trigger] stands_for_itself(nodes[k]),
        flattened(nodes, Seq::empty(), Map::empty(), subgraphs, Seq::empty()) is Ok,
        0 <= i < nodes.len(),
    ensures
        ({
            let flat = flattened(
                nodes,
                Seq::empty(),
                Map::empty(),
                subgraphs,
                Seq::empty(),
            )->Ok_0;
            let (before, after) = (nodes[i], flat[i]);
            &&& flat.len() == nodes.len()
            &&& after.name == before.name
            &&& after.kernel == before.kernel
            &&& after.kind == before.kind
            &&& after.executor == before.executor
            &&& after.options == before.options
            &&& after.input_policy == before.input_policy
            &&& after.back_edges == before.back_edges
            &&& ascending(before.input_queues.ports) && before.input_queues.limits.len()
                == before.input_queues.ports.len() ==> after.input_queues == before.input_queues
            &&& port_list(after.input_ports) == port_list(before.input_ports)
            &&& port_list(after.output_ports) == port_list(before.output_ports)
        }),
    decreases nodes.len(),
{
    let front = nodes.drop_last();
    let done = flattened(front, Seq::empty(), Map::empty(), subgraphs, Seq::empty())->Ok_0;
    assert(stands_for_itself(nodes.last()));
    assert forall|k: int| 0 <= k < front.len() implies #[trigger] stands_for_itself(front[k]) by {
        assert(stands_for_itself(nodes[k]));
    }
    if front.len() > 0 {
        expansion_keeps_plain_nodes(
            front,
            subgraphs,
            if i < front.len() {
                i
            } else {
                0
            },
        );
    }
    let more = flattened_node(
        nodes.last(),
        Seq::empty(),
        Map::empty(),
        subgraphs,
        Seq::empty(),
    );
    assert(more is Ok && more->Ok_0.len() == 1);
    if i == nodes.len() - 1 {
        let n = nodes.last();
        lemma_same_ports(n.input_ports);
        lemma_same_ports(n.output_ports);
        lemma_same_names(n.back_edges);
        lemma_same_groups(n.input_policy.sets);
        if ascending(n.input_queues.ports) && n.input_queues.limits.len()
            == n.input_queues.ports.len() {
            lemma_same_queues(n.input_queues);
        }
    }
}

} // verus!

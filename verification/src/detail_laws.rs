//! What a kernel finds in its context and the host in what it asks for; what
//! keeps a graph from being loaded, expanded or typed.

use crate::config::{ExecutorView, GraphView, NodeView, QueuesView, RouteView, SubgraphView};
use crate::context::ContextView;
use crate::edge_laws::{lemma_maker_puts_out, numbered};
use crate::expand::{expanded, renamed, renamed_limits, renamed_queues, renamed_route};
use crate::expand_laws::outside;
use crate::host::{host_node_problem, host_nodes_problem, host_pools_problem, host_problem};
use crate::inspect::{
    edge_line, edge_lines, is_snapshot, left, node_lines, right, NodeStatsSnapshot,
};
use crate::kernel_laws::mentions_text;
use crate::lifecycle::ContractView;
use crate::load::{accepted, loaded, merged, preflighted, WalkView};
use crate::options::{number_of, options_json};
use crate::packet::{name_of_type, Packet};
use crate::plan::{plan_problem, producer_of};
use crate::report_laws::{lemma_mentions_back, lemma_mentions_front};
use crate::run_state::{state_name, RunEdge, RunNode, RunView};
use crate::runtime::CLOSE_NORMAL;
use crate::status::ErrorView;
use crate::supported::graph_problem;
use crate::text::{decimal, signed_decimal};
use crate::text_map::{keys_have_one_order, lists_keys};
use crate::timestamp::{shown, Timestamp};
use crate::topology::declared_names;
use crate::typing::{edge_types_problem, port_types_problem, type_at, type_for};
use crate::wiring::places;
use crate::yaml::{json_of, YamlView};
use vstd::prelude::*;

verus! {

// --------------------------------------------------------------------- contexts

/// An input port has a packet for every number below its count and none beyond;
/// those of a batch come in its order, and one that stands alone is the first.
pub proof fn inputs_are_numbered(c: ContextView, port: int, k: int)
    ensures
        c.input_at(port, k) is Some <==> 0 <= k < c.input_count(port),
        0 <= port < c.batches.len() && 0 <= k < c.batches[port].len() ==> c.input_at(port, k)
            == Some(c.batches[port][k]),
        0 <= port < c.inputs.len() && c.inputs[port] is Some && !(0 <= port < c.batches.len()
            && c.batches[port].len() > 0) ==> c.input_count(port) == 1 && c.input_at(port, 0)
            == c.inputs[port],
        !(0 <= port < c.batches.len()) && !(0 <= port < c.inputs.len()) ==> c.input_count(port)
            == 0,
{
}

/// What is emitted on a port stands behind what was emitted there before, with
/// its own time stamp, or that of the input where it has none. Other ports are
/// left alone, and so is what the packet holds.
pub proof fn emissions_are_staged_in_order(c: ContextView, port: int, p: Packet)
    requires
        0 <= port < c.staging.len(),
    ensures
        ({
            let after = c.emitted(port, p);
            let q = after.staging[port].last();
            &&& after.staging.len() == c.staging.len()
            &&& after.staging[port].drop_last() == c.staging[port]
            &&& q.payload == p.payload && q.kind == p.kind && q.bytes == p.bytes
            &&& p.stamp.0 != i64::MIN ==> q.stamp == p.stamp
            &&& p.stamp.0 == i64::MIN ==> q.stamp == c.input_ts
            &&& forall|o: int|
                0 <= o < c.staging.len() && o != port ==> #[trigger] after.staging[o]
                    == c.staging[o]
            &&& after.inputs == c.inputs && after.bounds == c.bounds
        }),
{
    assert(c.emitted(port, p).staging[port].drop_last() =~= c.staging[port]);
}

/// A port can be emitted on exactly if there is one of that number, and an
/// input passed through exactly if it holds a packet besides.
pub proof fn ports_are_there(c: ContextView, from: usize, port: usize)
    ensures
        c.emit_problem(port) is None <==> port < c.staging.len(),
        c.forward_problem(from, port) is None <==> from < c.inputs.len()
            && c.inputs[from as int] is Some && port < c.staging.len(),
        c.emit_problem(port) matches Some(e) ==> mentions_text(e.text(), c.node_name)
            && mentions_text(e.text(), decimal(port as nat)),
{
    if c.emit_problem(port) is Some {
        let w = c.emit_problem(port)->Some_0.text();
        let a = "node `"@;
        let b = "`: emit output port index "@;
        let n = decimal(port as nat);
        let at = a.len() as int;
        assert(w.subrange(at, at + c.node_name.len()) =~= c.node_name);
        let later = at + c.node_name.len() + b.len();
        assert(w.subrange(later, later + n.len()) =~= n);
    }
}

/// A fresh context has room for every port and nothing in it, and keeps what
/// belongs to the node: its names, its ports, its options and side packets.
pub proof fn fresh_contexts_hold_nothing(c: ContextView, i: int, o: int)
    ensures
        ({
            let f = c.fresh();
            &&& f.inputs.len() == c.inputs.len() && (0 <= i < c.inputs.len() ==> f.inputs[i] is
                None)
            &&& f.batches.len() == c.batches.len() && (0 <= i < c.batches.len()
                ==> f.batches[i].len() == 0)
            &&& f.inputs_done.len() == c.inputs_done.len() && (0 <= i < c.inputs_done.len()
                ==> !f.inputs_done[i])
            &&& f.staging.len() == c.staging.len() && (0 <= o < c.staging.len()
                ==> f.staging[o].len() == 0)
            &&& f.bounds.len() == c.bounds.len() && (0 <= o < c.bounds.len() ==> f.bounds[o] is
                None)
            &&& f.input_ts.0 == i64::MIN
            &&& f.error_msg is None
            &&& f.close_reason == CLOSE_NORMAL
            &&& !f.source_done && f.source_yield is None
            &&& f.node_name == c.node_name && f.kernel_name == c.kernel_name
            &&& f.in_ports == c.in_ports && f.out_ports == c.out_ports
            &&& f.options == c.options && f.side_packets == c.side_packets
        }),
{
}

/// Releasing a context takes its inputs and nothing else; discarding takes what
/// was produced and nothing else.
pub proof fn contexts_are_cleared_in_parts(c: ContextView, i: int, o: int)
    ensures
        c.released().staging == c.staging && c.released().bounds == c.bounds,
        c.released().input_ts == c.input_ts && c.released().error_msg == c.error_msg,
        0 <= i < c.inputs.len() ==> c.released().inputs[i] is None,
        0 <= i < c.batches.len() ==> c.released().batches[i].len() == 0,
        c.discarded().inputs == c.inputs && c.discarded().batches == c.batches,
        c.discarded().error_msg == c.error_msg,
        0 <= o < c.staging.len() ==> c.discarded().staging[o].len() == 0,
        0 <= o < c.bounds.len() ==> c.discarded().bounds[o] is None,
        c.released().options == c.options && c.discarded().options == c.options,
        c.released().side_packets == c.side_packets && c.discarded().side_packets
            == c.side_packets,
{
}

/// A call that failed says which node it was, and what the kernel said, or its
/// status code if it said nothing.
pub proof fn failures_name_the_node(c: ContextView, code: i32)
    ensures
        c.call_error(code) is Kernel,
        mentions_text(c.call_error(code)->Kernel_0, c.node_name),
        c.error_msg matches Some(m) ==> mentions_text(c.call_error(code)->Kernel_0, m),
        c.error_msg is None ==> mentions_text(
            c.call_error(code)->Kernel_0,
            signed_decimal(code as int),
        ),
{
    let w = c.call_error(code)->Kernel_0;
    let a = "["@;
    let b = "] "@;
    let at = a.len() as int;
    assert(w.subrange(at, at + c.node_name.len()) =~= c.node_name);
    let from = at + c.node_name.len() + b.len();
    match c.error_msg {
        Some(m) => {
            assert(w.subrange(from, from + m.len()) =~= m);
        },
        None => {
            let d = "returned status code "@;
            let n = signed_decimal(code as int);
            let later = from + d.len();
            assert(w.subrange(later, later + n.len()) =~= n);
        },
    }
}

/// A type is called by its name, and by its number only where it has none.
pub proof fn types_are_called_by_name(names: Map<u64, Seq<char>>, id: u64)
    ensures
        names.contains_key(id) ==> name_of_type(names, id) == names[id],
        !names.contains_key(id) ==> mentions_text(name_of_type(names, id), decimal(id as nat)),
{
    if !names.contains_key(id) {
        let at = "type#"@.len() as int;
        let n = decimal(id as nat);
        assert(name_of_type(names, id).subrange(at, at + n.len()) =~= n);
    }
}

/// What comes before a time stamp that a stream may carry is less, and no other
/// time stamp of the data range lies between the two. The marks before and
/// after the data belong to the stream but not to its range, and a time stamp
/// of the range is shown as its number.
pub proof fn previous_is_greatest_less(t: Timestamp, u: Timestamp)
    ensures
        t.in_stream() ==> t.previous().0 < t.0,
        t.in_range() && u.in_range() && u.0 < t.0 ==> u.0 <= t.previous().0,
        t.in_range() ==> t.in_stream() && shown(t) == signed_decimal(t.0 as int),
        t.in_stream() && !t.in_range() <==> t.0 == i64::MIN + 2 || t.0 == i64::MAX - 2,
{
}

// ----------------------------------------------------------------------- typing

proof fn lemma_type_of_port(ports: Seq<Seq<char>>, types: Seq<u64>, name: Seq<char>) -> (o: int)
    requires
        ports.contains(name),
    ensures
        0 <= o < ports.len(),
        ports[o] == name,
        type_for(ports, types, name) == type_at(types, o),
    decreases ports.len(),
{
    let front = ports.drop_last();
    if front.contains(name) {
        let o = lemma_type_of_port(front, types, name);
        assert(ports[o] == front[o]);
        o
    } else {
        let k = ports.index_of(name);
        if k < front.len() {
            assert(front[k] == name);
        }
        ports.len() - 1
    }
}

/// Whether the types that the two ends of each edge declare go together.
pub open spec fn types_agree(g: GraphView, contracts: Seq<ContractView>) -> bool {
    forall|m: int, o: int, r: int, i: int|
        0 <= m < g.nodes.len() && 0 <= o < declared_names(g.nodes[m].output_ports).len() && 0 <= r
            < g.nodes.len() && 0 <= i < declared_names(g.nodes[r].input_ports).len()
            && #[trigger] declared_names(g.nodes[m].output_ports)[o]
            == #[trigger] declared_names(g.nodes[r].input_ports)[i] ==> {
            let given = type_at(contracts[m].output_types, o);
            let want = type_at(contracts[r].input_types, i);
            given == 0 || want == 0 || given == want
        }
}

/// A graph whose types go together is not refused for them.
pub proof fn agreeing_types_are_accepted(
    g: GraphView,
    contracts: Seq<ContractView>,
    names: Map<u64, Seq<char>>,
    k: nat,
)
    requires
        numbered(g),
        types_agree(g, contracts),
        k <= g.nodes.len(),
    ensures
        edge_types_problem(g, contracts, names, k) is None,
    decreases k,
{
    if k > 0 {
        agreeing_types_are_accepted(g, contracts, names, (k - 1) as nat);
        lemma_ports_agree(
            g,
            contracts,
            names,
            k - 1,
            declared_names(g.nodes[k - 1].input_ports).len(),
        );
    }
}

proof fn lemma_ports_agree(
    g: GraphView,
    contracts: Seq<ContractView>,
    names: Map<u64, Seq<char>>,
    r: int,
    k: nat,
)
    requires
        numbered(g),
        types_agree(g, contracts),
        0 <= r < g.nodes.len(),
        k <= declared_names(g.nodes[r].input_ports).len(),
    ensures
        port_types_problem(g, contracts, names, r, k) is None,
    decreases k,
{
    if k > 0 {
        lemma_ports_agree(g, contracts, names, r, (k - 1) as nat);
        let name = declared_names(g.nodes[r].input_ports)[k - 1];
        match producer_of(places(g), name) {
            Some(m) => {
                lemma_maker_puts_out(g, name);
                let outs = declared_names(g.nodes[m as int].output_ports);
                let o = lemma_type_of_port(outs, contracts[m as int].output_types, name);
                assert(declared_names(g.nodes[m as int].output_ports)[o] == declared_names(
                    g.nodes[r].input_ports,
                )[k - 1]);
            },
            None => {},
        }
    }
}

// ------------------------------------------------------------------- the host

/// Whether the host thread can run a node.
pub open spec fn host_runs(n: NodeView) -> bool {
    &&& n.max_in_flight > 1 ==> n.executor.len() > 0
    &&& n.kind.len() == 0
    &&& {
        ||| n.input_policy.kind == "sync"@
        ||| n.input_policy.kind == "immediate"@
        ||| n.input_policy.kind == "fixed_size"@ && n.input_policy.capacity >= 1
        ||| n.input_policy.kind == "sync_set"@ && n.input_policy.sets.len() > 0
    }
}

proof fn lemma_host_node(n: NodeView)
    ensures
        host_node_problem(n) is None <==> host_runs(n),
{
    reveal_strlit("sync");
    reveal_strlit("immediate");
    reveal_strlit("fixed_size");
    reveal_strlit("sync_set");
    assert("sync"@.len() == 4 && "immediate"@.len() == 9 && "fixed_size"@.len() == 10
        && "sync_set"@.len() == 8);
}

proof fn lemma_host_nodes(nodes: Seq<NodeView>)
    ensures
        host_nodes_problem(nodes) is None <==> forall|i: int|
            0 <= i < nodes.len() ==> host_runs(#[trigger] nodes[i]),
    decreases nodes.len(),
{
    if nodes.len() > 0 {
        let front = nodes.drop_last();
        lemma_host_nodes(front);
        lemma_host_node(nodes.last());
        assert forall|i: int| 0 <= i < front.len() implies front[i] == #[trigger] nodes[i] by {}
        if forall|i: int| 0 <= i < front.len() ==> host_runs(#[trigger] front[i]) {
            assert forall|i: int| 0 <= i < front.len() implies host_runs(#[trigger] nodes[i]) by {
                assert(host_runs(front[i]));
            }
        }
        if forall|i: int| 0 <= i < nodes.len() ==> host_runs(#[trigger] nodes[i]) {
            assert forall|i: int| 0 <= i < front.len() implies host_runs(#[trigger] front[i]) by {
                assert(host_runs(nodes[i]));
            }
            assert(host_runs(nodes[nodes.len() - 1]));
        }
    }
}

proof fn lemma_host_pools(executors: Seq<ExecutorView>)
    ensures
        host_pools_problem(executors) is None <==> forall|i: int|
            0 <= i < executors.len() ==> (#[trigger] executors[i]).kind.len() == 0
                || executors[i].kind == "ThreadPoolExecutor"@,
    decreases executors.len(),
{
    if executors.len() > 0 {
        let front = executors.drop_last();
        lemma_host_pools(front);
        assert forall|i: int| 0 <= i < front.len() implies front[i] == #[trigger] executors[i] by {}
        if forall|i: int|
            0 <= i < front.len() ==> (#[trigger] front[i]).kind.len() == 0 || front[i].kind
                == "ThreadPoolExecutor"@ {
            assert forall|i: int| 0 <= i < front.len() implies (
            #[trigger] executors[i]).kind.len() == 0 || executors[i].kind
                == "ThreadPoolExecutor"@ by {
                assert(front[i].kind.len() == 0 || front[i].kind == "ThreadPoolExecutor"@);
            }
        }
        if forall|i: int|
            0 <= i < executors.len() ==> (#[trigger] executors[i]).kind.len() == 0
                || executors[i].kind == "ThreadPoolExecutor"@ {
            assert forall|i: int| 0 <= i < front.len() implies (#[trigger] front[i]).kind.len()
                == 0 || front[i].kind == "ThreadPoolExecutor"@ by {
                assert(executors[i].kind.len() == 0 || executors[i].kind == "ThreadPoolExecutor"@);
            }
            assert(executors[executors.len() - 1].kind.len() == 0 || executors[executors.len()
                - 1].kind == "ThreadPoolExecutor"@);
        }
    }
}

/// A configuration is one for the host thread exactly if it can run each of its
/// nodes and all of its executors are thread pools.
pub proof fn hosts_run_what_they_can(g: GraphView)
    ensures
        host_problem(g) is None <==> {
            &&& forall|i: int| 0 <= i < g.nodes.len() ==> host_runs(#[trigger] g.nodes[i])
            &&& forall|i: int|
                0 <= i < g.executors.len() ==> (#[trigger] g.executors[i]).kind.len() == 0
                    || g.executors[i].kind == "ThreadPoolExecutor"@
        },
{
    lemma_host_nodes(g.nodes);
    lemma_host_pools(g.executors);
}

// ---------------------------------------------------------------------- loading

/// A text that brings other files in is refused; another is loaded exactly if it
/// can be expanded and all that comes of it is supported, and then it is what
/// the expansion gives. Planning refuses it for the plan alone.
pub proof fn texts_are_loaded(g: GraphView, parallelism: usize)
    ensures
        g.includes.len() > 0 ==> loaded(g) is Err,
        g.includes.len() == 0 ==> loaded(g) == accepted(g),
        accepted(g) matches Ok(flat) ==> expanded(g) == Ok::<GraphView, ErrorView>(
            flat,
        ) && graph_problem(flat) is None,
        expanded(g) matches Ok(flat) ==> (graph_problem(flat) is None
            ==> accepted(g) is Ok),
        preflighted(accepted(g), parallelism) is Ok ==> accepted(g) == preflighted(
            accepted(g),
            parallelism,
        ),
        accepted(g) matches Ok(flat) ==> (preflighted(accepted(g), parallelism) is Ok
            <==> plan_problem(flat, parallelism) is None),
{
}

/// The subgraphs of two files go together exactly if no name is in both, and
/// then each is as its file has it.
pub proof fn files_are_merged(
    a: Map<Seq<char>, SubgraphView>,
    b: Map<Seq<char>, SubgraphView>,
    rel: Seq<char>,
    name: Seq<char>,
)
    ensures
        merged(a, b, rel) is Ok <==> forall|n: Seq<char>|
            !(#[trigger] a.contains_key(n) && #[trigger] b.contains_key(n)),
        merged(a, b, rel) matches Ok(m) ==> {
            &&& m.contains_key(name) <==> a.contains_key(name) || b.contains_key(name)
            &&& a.contains_key(name) ==> m[name] == a[name]
            &&& b.contains_key(name) ==> m[name] == b[name]
        },
{
    if a.dom().disjoint(b.dom()) {
        assert forall|n: Seq<char>|
            !(#[trigger] a.contains_key(n) && #[trigger] b.contains_key(n)) by {
            if a.contains_key(n) && b.contains_key(n) {
                assert(a.dom().contains(n) && b.dom().contains(n));
            }
        }
        if a.contains_key(name) {
            assert(!b.contains_key(name));
        }
    } else {
        let n = choose|n: Seq<char>| a.dom().contains(n) && b.dom().contains(n);
        assert(a.contains_key(n) && b.contains_key(n));
    }
}

/// The files that a file brings in are wanted one after the other, from the
/// first to the last, each from where that file is.
pub proof fn files_are_wanted_in_order(w: WalkView)
    requires
        w.frames.len() > 0,
        w.frames.last().rest.len() > 0,
    ensures
        ({
            let top = w.frames.last();
            &&& w.advanced() is Ok
            &&& w.advanced()->Ok_0.1 == Some((top.base, top.rest[0]))
            &&& w.advanced()->Ok_0.0.frames.len() == w.frames.len()
            &&& w.advanced()->Ok_0.0.frames.last().rest == top.rest.drop_first()
            &&& w.advanced()->Ok_0.0.frames.last().base == top.base
            &&& w.advanced()->Ok_0.0.frames.last().subgraphs == top.subgraphs
            &&& w.advanced()->Ok_0.0.subgraphs == w.subgraphs
        }),
{
}

// -------------------------------------------------------------------- expansion

/// Inside an instance every rule of a route node leads to the output that its
/// target becomes; what is done with the rest stays what it is, or becomes an
/// output too.
pub proof fn rules_follow_their_outputs(
    route: RouteView,
    prefix: Seq<char>,
    rename: Map<Seq<char>, Seq<char>>,
    r: int,
)
    requires
        0 <= r < route.routes.len(),
    ensures
        ({
            let after = renamed_route(route, prefix, rename);
            &&& after.mode == route.mode
            &&& after.routes.len() == route.routes.len()
            &&& after.routes[r].default == route.routes[r].default
            &&& after.routes[r].when == route.routes[r].when
            &&& outside(
                prefix,
                rename,
                route.routes[r].to,
                after.routes[r].to,
            )
            &&& route.unmatched == "drop"@ || route.unmatched == "error"@ ==> after.unmatched
                == route.unmatched
            &&& route.unmatched != "drop"@ && route.unmatched != "error"@
                ==> outside(prefix, rename, route.unmatched, after.unmatched)
        }),
{
}

proof fn lemma_limits(
    q: QueuesView,
    prefix: Seq<char>,
    rename: Map<Seq<char>, Seq<char>>,
    k: nat,
)
    requires
        k <= q.ports.len(),
        forall|i: int, j: int|
            0 <= i < j < k ==> renamed(#[trigger] q.ports[i], prefix, rename) != renamed(
                #[trigger] q.ports[j],
                prefix,
                rename,
            ),
    ensures
        forall|i: int|
            0 <= i < k ==> {
                let name = renamed(#[trigger] q.ports[i], prefix, rename);
                renamed_limits(q, prefix, rename, k).contains_key(name) && renamed_limits(
                    q,
                    prefix,
                    rename,
                    k,
                )[name] == q.limits[i]
            },
    decreases k,
{
    if k > 0 {
        lemma_limits(q, prefix, rename, (k - 1) as nat);
        assert forall|i: int| 0 <= i < k implies {
            let name = renamed(#[trigger] q.ports[i], prefix, rename);
            renamed_limits(q, prefix, rename, k).contains_key(name) && renamed_limits(
                q,
                prefix,
                rename,
                k,
            )[name] == q.limits[i]
        } by {
            if i < k - 1 {
                assert(renamed(q.ports[i], prefix, rename) != renamed(
                    q.ports[k - 1],
                    prefix,
                    rename,
                ));
            }
        }
    }
}

/// Inside an instance the capacity of a port is that of the port that it
/// becomes, as long as no two become the same.
pub proof fn capacities_follow_their_ports(
    q: QueuesView,
    prefix: Seq<char>,
    rename: Map<Seq<char>, Seq<char>>,
    keys: Seq<Seq<char>>,
    i: int,
)
    requires
        0 <= i < q.ports.len(),
        forall|a: int, b: int|
            0 <= a < b < q.ports.len() ==> renamed(#[trigger] q.ports[a], prefix, rename)
                != renamed(#[trigger] q.ports[b], prefix, rename),
        lists_keys(renamed_limits(q, prefix, rename, q.ports.len()), keys),
    ensures
        ({
            let after = renamed_queues(q, prefix, rename);
            &&& after.packets == q.packets
            &&& exists|k: int|
                {
                    &&& 0 <= k < after.ports.len()
                    &&& outside(
                        prefix,
                        rename,
                        q.ports[i],
                        #[trigger] after.ports[k],
                    )
                    &&& after.limits[k] == q.limits[i]
                }
        }),
{
    let limits = renamed_limits(q, prefix, rename, q.ports.len());
    lemma_limits(q, prefix, rename, q.ports.len());
    keys_have_one_order(limits, keys);
    let name = renamed(q.ports[i], prefix, rename);
    let after = renamed_queues(q, prefix, rename);
    assert(limits.contains_key(name));
    assert(keys.contains(name));
    let k = keys.index_of(name);
    assert(after.ports[k] == name);
    assert(after.limits[k] == q.limits[i]);
}

// ------------------------------------------------------------------------ dumps

/// Whether a column of a table holds a text, apart from blanks before and
/// behind it.
pub open spec fn column_holds(column: Seq<char>, text: Seq<char>) -> bool {
    exists|k: int|
        {
            &&& 0 <= k <= column.len() - text.len()
            &&& #[trigger] column.subrange(k, k + text.len()) == text
            &&& forall|i: int|
                0 <= i < column.len() && !(k <= i < k + text.len()) ==> #[trigger] column[i] == ' '
        }
}

proof fn lemma_left(s: Seq<char>, width: nat)
    requires
        s.len() <= width,
    ensures
        left(s, width).len() == width,
        column_holds(left(s, width), s),
{
    let k: int = 0;
    assert(left(s, width).subrange(k, k + s.len()) =~= s);
}

proof fn lemma_right(s: Seq<char>, width: nat)
    requires
        s.len() <= width,
    ensures
        right(s, width).len() == width,
        column_holds(right(s, width), s),
{
    let k = width - s.len();
    assert(right(s, width).subrange(k, k + s.len()) =~= s);
}

/// The line of a node in a dump tells, column by column, its name, what it is
/// doing, what waits, how often it ran, how often it failed, and how long a run
/// took in the mean and at most.
pub proof fn dump_lines_have_columns(n: RunNode, now: u64)
    requires
        n.name.len() <= 17,
        n.doing(now).len() <= 12,
        decimal(n.waiting(n.queues.len())).len() <= 6,
        decimal(n.stats.processed as nat).len() <= 9,
        decimal(n.stats.errors as nat).len() <= 6,
        signed_decimal(n.mean_us()).len() <= 6,
        signed_decimal(n.stats.max_us as int).len() <= 6,
    ensures
        n.line(now).len() == 73,
        column_holds(n.line(now).subrange(0, 17), n.name),
        column_holds(n.line(now).subrange(18, 30), n.doing(now)),
        column_holds(n.line(now).subrange(31, 37), decimal(n.waiting(n.queues.len()))),
        column_holds(n.line(now).subrange(39, 48), decimal(n.stats.processed as nat)),
        column_holds(n.line(now).subrange(50, 56), decimal(n.stats.errors as nat)),
        column_holds(n.line(now).subrange(58, 64), signed_decimal(n.mean_us())),
        column_holds(n.line(now).subrange(66, 72), signed_decimal(n.stats.max_us as int)),
{
    let a = left(n.name, 17);
    let b = left(n.doing(now), 12);
    let c = right(decimal(n.waiting(n.queues.len())), 6);
    let d = right(decimal(n.stats.processed as nat), 9);
    let e = right(decimal(n.stats.errors as nat), 6);
    let f = right(signed_decimal(n.mean_us()), 6);
    let g = right(signed_decimal(n.stats.max_us as int), 6);
    lemma_left(n.name, 17);
    lemma_left(n.doing(now), 12);
    lemma_right(decimal(n.waiting(n.queues.len())), 6);
    lemma_right(decimal(n.stats.processed as nat), 9);
    lemma_right(decimal(n.stats.errors as nat), 6);
    lemma_right(signed_decimal(n.mean_us()), 6);
    lemma_right(signed_decimal(n.stats.max_us as int), 6);
    assert(" "@.len() == 1 && "  "@.len() == 2 && "\n"@.len() == 1) by {
        reveal_strlit(" ");
        reveal_strlit("  ");
        reveal_strlit("\n");
    }
    let w = n.line(now);
    assert(w == a + " "@ + b + " "@ + c + "  "@ + d + "  "@ + e + "  "@ + f + "  "@ + g + "\n"@);
    assert(w.subrange(0, 17) =~= a);
    assert(w.subrange(18, 30) =~= b);
    assert(w.subrange(31, 37) =~= c);
    assert(w.subrange(39, 48) =~= d);
    assert(w.subrange(50, 56) =~= e);
    assert(w.subrange(58, 64) =~= f);
    assert(w.subrange(66, 72) =~= g);
}

/// What a node is doing: a call that is under way counts before all else, then
/// that it was closed, then that it was opened. The mean is that of its runs.
pub proof fn dumps_say_what_a_node_does(n: RunNode, now: u64)
    ensures
        n.running_since is None && n.sched.closed ==> n.doing(now) == "closed"@,
        n.running_since is None && !n.sched.closed && n.sched.opened ==> n.doing(now) == "idle"@,
        n.running_since is None && !n.sched.closed && !n.sched.opened ==> n.doing(now) == "new"@,
        n.running_since matches Some(since) ==> (since <= now && now - since <= i64::MAX
            ==> mentions_text(n.doing(now), signed_decimal((now - since) as int / 1000))),
        n.stats.processed > 0 && n.stats.total_us >= 0 ==> n.mean_us() * n.stats.processed
            <= n.stats.total_us < (n.mean_us() + 1) * n.stats.processed,
        n.stats.processed == 0 ==> n.mean_us() == 0,
{
    if n.running_since is Some {
        let since = n.running_since->Some_0;
        if since <= now && now - since <= i64::MAX {
            let at = "RUNNING "@.len() as int;
            let t = signed_decimal((now - since) as int / 1000);
            assert(n.doing(now).subrange(at, at + t.len()) =~= t);
        }
    }
    if n.stats.processed > 0 && n.stats.total_us >= 0 {
        let (t, p, m) = (n.stats.total_us as int, n.stats.processed as int, n.mean_us());
        assert(m * p <= t < (m + 1) * p) by (nonlinear_arith)
            requires
                p > 0,
                t >= 0,
                m == t / p,
        ;
    }
}

/// The number of an option is the integer that is written there; one beyond the
/// signed range counts on from the other end.
pub proof fn option_numbers_go_round(v: YamlView, n: int)
    requires
        v.untagged() == YamlView::Integer(n),
        i64::MIN <= n <= u64::MAX,
    ensures
        number_of(v) matches Some(r) && (r - n) % 0x1_0000_0000_0000_0000 == 0,
        i64::MIN <= n <= i64::MAX ==> number_of(v) == Some(n as i64),
{
}

proof fn lemma_dumped_node(nodes: Seq<RunNode>, now: u64, n: nat, i: int)
    requires
        0 <= i < n <= nodes.len(),
    ensures
        mentions_text(node_lines(nodes, now, n), nodes[i].line(now)),
    decreases n,
{
    let before = node_lines(nodes, now, (n - 1) as nat);
    let line = nodes[i].line(now);
    if i == n - 1 {
        let at = before.len() as int;
        assert(node_lines(nodes, now, n).subrange(at, at + line.len()) =~= line);
    } else {
        lemma_dumped_node(nodes, now, (n - 1) as nat, i);
        lemma_mentions_front(before, nodes[n - 1].line(now), line);
    }
}

proof fn lemma_dumped_edge(edges: Seq<RunEdge>, n: nat, e: int)
    requires
        0 <= e < n <= edges.len(),
    ensures
        mentions_text(edge_lines(edges, n), edge_line(edges[e])),
    decreases n,
{
    let before = edge_lines(edges, (n - 1) as nat);
    let line = edge_line(edges[e]);
    if e == n - 1 {
        let at = before.len() as int;
        assert(edge_lines(edges, n).subrange(at, at + line.len()) =~= line);
    } else {
        lemma_dumped_edge(edges, (n - 1) as nat, e);
        lemma_mentions_front(before, edge_line(edges[n - 1]), line);
    }
}

/// A dump has the line of every node, and of every edge its name, whether it is
/// closed, and how much it dropped. It begins with the state of the graph and
/// with how much waits in it.
pub proof fn dumps_tell_of_everything(g: RunView, now: u64, i: int, e: int)
    requires
        0 <= i < g.nodes.len(),
        0 <= e < g.edges.len(),
    ensures
        mentions_text(g.dumped(now), g.nodes[i].line(now)),
        mentions_text(
            g.dumped(now),
            "edge `"@ + g.edges[e].name + "` closed="@ + (if g.edges[e].closed {
                "true"@
            } else {
                "false"@
            }) + " dropped="@ + decimal(g.edges[e].dropped as nat) + "\n"@,
        ),
        mentions_text(g.dumped(now), "graph state="@ + state_name(g.state)),
        mentions_text(
            g.dumped(now),
            " queued="@ + decimal(g.shared.queued as nat) + " ("@ + decimal(g.shared.bytes as nat)
                + " bytes)\n"@,
        ),
{
    let state = "graph state="@ + state_name(g.state);
    let counts = " nodes="@ + decimal(g.nodes.len()) + " edges="@ + decimal(g.edges.len());
    let waits = " queued="@ + decimal(g.shared.queued as nat) + " ("@ + decimal(
        g.shared.bytes as nat,
    ) + " bytes)\n"@;
    let columns =
        "node              state        queued  processed  errors  avg_us  max_us\n"@;
    let nodes = node_lines(g.nodes, now, g.nodes.len());
    let edges = edge_lines(g.edges, g.edges.len());
    let w = g.dumped(now);
    let head = state + counts + waits + columns;
    assert(w =~= head + nodes + edges);
    lemma_dumped_node(g.nodes, now, g.nodes.len(), i);
    lemma_dumped_edge(g.edges, g.edges.len(), e);
    lemma_mentions_back(head, nodes, g.nodes[i].line(now));
    lemma_mentions_front(head + nodes, edges, g.nodes[i].line(now));
    lemma_mentions_back(head + nodes, edges, edge_line(g.edges[e]));
    let at: int = 0;
    assert(w.subrange(at, at + state.len()) =~= state);
    let from = (state.len() + counts.len()) as int;
    assert(w.subrange(from, from + waits.len()) =~= waits);
}

// --------------------------------------------------------------- the ends of time

/// Nothing of a stream follows a packet before or after the data, nor the last
/// of the data range, and nothing comes before the first of it. What lies
/// before a stream is followed by the first of the data range, and what lies
/// behind it comes after the last.
pub proof fn streams_end_at_their_marks(t: Timestamp, u: Timestamp)
    requires
        u.in_range(),
    ensures
        t.in_stream() && !t.in_range() ==> !t.next().in_stream() && u.0 < t.next().0,
        t.in_stream() && !t.in_range() && t.0 > u.0 ==> !t.previous().in_stream()
            && t.previous().0 < u.0,
        t.in_range() && t.0 >= u.0 ==> t.next().0 > u.0,
        t.in_range() && !t.next().in_range() ==> !t.next().in_stream() && t.0 >= u.0,
        t.in_range() && !t.previous().in_range() ==> !t.previous().in_stream() && t.0 <= u.0,
        t.0 < i64::MIN + 2 ==> t.next().in_range() && t.next().0 <= u.0,
        t.0 > i64::MAX - 2 ==> t.previous().in_range() && t.previous().0 >= u.0,
{
}

/// The statistics of a node are those that were counted for it, and what waits
/// at its ports.
pub proof fn snapshots_show_what_was_counted(st: NodeStatsSnapshot, n: RunNode, now: u64)
    requires
        is_snapshot(st, n, now),
    ensures
        st.node_name@ == n.name && st.kernel_name@ == n.kernel_name,
        st.processed == n.stats.processed,
        st.errors == n.stats.errors,
        st.total_process_us == n.stats.total_us,
        st.max_process_us == n.stats.max_us,
        st.running <==> n.running_since is Some,
        !st.running ==> st.running_for_us == 0,
        n.running_since matches Some(since) ==> since <= now && now - since <= i64::MAX
            ==> st.running_for_us == now - since,
        (forall|i: int| 0 <= i < n.queues.len() ==> (#[trigger] n.queues[i]).len() == 0)
            ==> st.queued == 0,
{
    if forall|i: int| 0 <= i < n.queues.len() ==> (#[trigger] n.queues[i]).len() == 0 {
        lemma_nothing_waits(n, n.queues.len());
    }
}

proof fn lemma_nothing_waits(n: RunNode, k: nat)
    requires
        k <= n.queues.len(),
        forall|i: int| 0 <= i < n.queues.len() ==> (#[trigger] n.queues[i]).len() == 0,
    ensures
        n.waiting(k) == 0,
    decreases k,
{
    if k > 0 {
        lemma_nothing_waits(n, (k - 1) as nat);
    }
}

/// The options of a node are shown as they are, and as an empty object where
/// there are none.
pub proof fn options_are_shown(v: YamlView)
    ensures
        json_of(v) matches Some(s) ==> s != "null"@ ==> options_json(v) == s,
        json_of(v) is None || json_of(v) == Some("null"@) ==> options_json(v) == "{}"@,
{
}

} // verus!

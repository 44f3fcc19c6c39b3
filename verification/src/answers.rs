//! The boundary to programs in other languages: what a graph behind a handle
//! and the context of a call answer. A handle that is null, and a handle
//! without a graph, get an answer too.

use crate::api::{Input, PollStep, Poller, SendStep};
use crate::boundary::{fail, reported, status_of, text_of, to_status};
use crate::graph::Graph;
use crate::handles::{
    check_stats_size, graph_before, graph_behind, graph_mut, in_order, no_graph, not_ready,
    GraphSlot,
};
use crate::inspect::{is_snapshot, NodeStatsSnapshot};
use crate::packet::Packet;
use crate::run_state::{head, RunNode, RunView, State};
use crate::runtime::{interned, without_zero, LastError};
use crate::status::{first_failure, Error, ErrorView, CLOSED, OK};
use crate::text::texts;
use crate::text_map::{ascending, ascending_keys_are_distinct};
use vstd::prelude::*;

verus! {

// ------------------------------------------------------------- running a graph

/// Begins to start the graph behind a handle. The node that comes back with
/// success is to be opened first.
pub fn flow_graph_start(last: &mut LastError, g: Option<&mut GraphSlot>, now: u64) -> (r: (
    i32,
    Option<usize>,
))
    requires
        in_order(graph_before(g)),
        graph_before(g) matches Some(v) ==> v.task is Idle,
    ensures
        g matches Some(slot) ==> in_order(final(slot)@),
        ({
            let problem = match graph_before(g) {
                Some(v) => v.start_problem(),
                None => Some(no_graph()),
            };
            &&& r.0 == status_of(problem)
            &&& final(last)@ == reported(old(last)@, problem)
            &&& match graph_before(g) {
                Some(v) => if problem is None {
                    &&& (g matches Some(slot) ==> final(slot)@ == Some(v.opening(0, now)))
                    &&& r.1 == (if v.nodes.len() > 0 {
                        Some(0usize)
                    } else {
                        None
                    })
                } else {
                    &&& (g matches Some(slot) ==> final(slot)@ == slot@)
                    &&& r.1 is None
                },
                None => (g matches Some(slot) ==> final(slot)@ is None) && r.1 is None,
            }
        }),
{
    match graph_mut(g) {
        Some(graph) => match graph.start(now) {
            Ok(next) => (OK, next),
            Err(e) => (fail(last, e), None),
        },
        None => (not_ready(last), None),
    }
}

/// Sends a packet on a graph input, or says that a step of the engine has to
/// make room first: then no status comes back. `pumped` is whether the step
/// before did anything, if there was one.
pub fn flow_input_send(
    last: &mut LastError,
    graph: &mut Graph,
    i: Option<Input>,
    pkt: Packet,
    pumped: Option<bool>,
) -> (r: Option<i32>)
    requires
        old(graph)@.fits(),
        i matches Some(input) ==> input.edge < old(graph)@.edges.len(),
    ensures
        final(graph)@.fits(),
        ({
            let problem = match i {
                Some(input) => send_problem(old(graph)@, input.edge as int, pkt, pumped),
                None => Some(ErrorView::InvalidArg("input 句柄为空"@)),
            };
            let waits = i is Some && old(graph)@.shared.over_watermark();
            &&& r == (if problem is None && waits {
                None
            } else {
                Some(status_of(problem))
            })
            &&& final(last)@ == reported(old(last)@, problem)
            &&& final(graph)@ == (if problem is None && !waits {
                old(graph)@.accepted(i->Some_0.edge as int, pkt)
            } else {
                old(graph)@
            })
        }),
{
    match i {
        None => Some(fail(last, Error::InvalidArg("input 句柄为空".to_owned()))),
        Some(input) => match graph.send(input, pkt, pumped) {
            Ok(SendStep::Sent) => Some(OK),
            Ok(SendStep::Pump) => None,
            Err(e) => Some(fail(last, e)),
        },
    }
}

/// Why a send that may wait is refused, if it is.
pub open spec fn send_problem(v: RunView, edge: int, pkt: Packet, pumped: Option<bool>) -> Option<
    ErrorView,
> {
    first_failure(
        if pumped is None {
            v.send_problem(edge, pkt)
        } else {
            None
        },
        if !v.shared.over_watermark() {
            v.order_problem(edge, pkt)
        } else if pumped == Some(false) {
            Some(ErrorView::WouldBlock)
        } else {
            None
        },
    )
}

/// Closes a graph input. The state of the graph stays.
pub fn flow_input_close(graph: &mut Graph, i: Option<Input>)
    requires
        old(graph)@.fits(),
        i matches Some(input) ==> input.edge < old(graph)@.edges.len(),
    ensures
        final(graph)@.fits(),
        final(graph)@ == match i {
            Some(input) => old(graph)@.edge_closed(input.edge as int),
            None => old(graph)@,
        },
{
    if let Some(input) = i {
        graph.close_edge(input.edge);
    }
}

/// Why there is no graph input of a name, if there is none.
pub open spec fn named_input_problem(
    slot: Option<RunView>,
    port: Option<Seq<char>>,
) -> Option<ErrorView> {
    match (port, slot) {
        (None, _) => Some(ErrorView::InvalidArg("端口名为空"@)),
        (Some(_), None) => Some(no_graph()),
        (Some(p), Some(v)) => if v.input_by_name.contains_key(p) {
            None
        } else {
            Some(ErrorView::NotFound("图输入口 `"@ + p + "` 不存在"@))
        },
    }
}

/// Sends a packet on the graph input of a name, or says that a step of the
/// engine has to make room first: then no status comes back.
pub fn flow_graph_add_packet(
    last: &mut LastError,
    g: Option<&mut GraphSlot>,
    port: Option<&str>,
    pkt: Packet,
    pumped: Option<bool>,
) -> (r: Option<i32>)
    requires
        in_order(graph_before(g)),
    ensures
        g matches Some(slot) ==> in_order(final(slot)@),
        match named_input_problem(graph_before(g), text_of(port)) {
            Some(e) => {
                &&& r == Some(e.code())
                &&& final(last)@ == without_zero(e.text())
                &&& (g matches Some(slot) ==> final(slot)@ == slot@)
            },
            None => {
                let v = graph_before(g)->Some_0;
                let edge = v.input_by_name[port->Some_0@] as int;
                let problem = send_problem(v, edge, pkt, pumped);
                let waits = v.shared.over_watermark();
                &&& r == (if problem is None && waits {
                    None
                } else {
                    Some(status_of(problem))
                })
                &&& final(last)@ == reported(old(last)@, problem)
                &&& (g matches Some(slot) ==> final(slot)@ == Some(
                    if problem is None && !waits {
                        v.accepted(edge, pkt)
                    } else {
                        v
                    },
                ))
            },
        },
{
    match port {
        None => Some(fail(last, Error::InvalidArg("端口名为空".to_owned()))),
        Some(name) => match graph_mut(g) {
            None => Some(not_ready(last)),
            Some(graph) => match graph.input(name) {
                Ok(input) => flow_input_send(last, graph, Some(input), pkt, pumped),
                Err(e) => Some(fail(last, e)),
            },
        },
    }
}

/// Closes every input of the graph behind a handle.
pub fn flow_graph_close_all_inputs(last: &mut LastError, g: Option<&mut GraphSlot>)
    requires
        in_order(graph_before(g)),
    ensures
        g matches Some(slot) ==> in_order(final(slot)@),
        match graph_before(g) {
            Some(v) => final(last)@ == old(last)@ && (g matches Some(slot) ==> final(slot)@ == Some(
                v.edges_closed(v.graph_inputs, v.graph_inputs.len()).drain_noted(),
            )),
            None => final(last)@ == without_zero(no_graph().text()) && (g matches Some(
                slot,
            ) ==> final(slot)@ is None),
        },
{
    match graph_mut(g) {
        Some(graph) => {
            graph.close_all_inputs();
        },
        None => {
            not_ready(last);
        },
    }
}

/// Takes the next packet of a poller, or says whether a step of the engine
/// could bring one. Of a poller that is null nothing comes.
pub fn flow_poller_next(graph: &mut Graph, p: Option<Poller>, pumped: Option<bool>) -> (r: PollStep)
    requires
        old(graph)@.fits(),
        p matches Some(x) ==> old(graph)@.has_poller(x.edge as int, x.index as int),
    ensures
        final(graph)@.fits(),
        match p {
            Some(x) => {
                &&& r == old(graph)@.poll_step(x.edge as int, x.index as int, pumped)
                &&& final(graph)@ == old(graph)@.popped(x.edge as int, x.index as int)
            },
            None => r is End && final(graph)@ == old(graph)@,
        },
{
    match p {
        Some(x) => graph.next_packet(x, pumped),
        None => PollStep::End,
    }
}

/// Takes the next packet of a poller without waiting.
pub fn flow_poller_try_next(graph: &mut Graph, p: Option<Poller>) -> (r: Option<Packet>)
    requires
        old(graph)@.fits(),
        p matches Some(x) ==> old(graph)@.has_poller(x.edge as int, x.index as int),
    ensures
        final(graph)@.fits(),
        match p {
            Some(x) => {
                &&& r == head(
                    old(graph)@.edges[x.edge as int].pollers[x.index as int].queue,
                )
                &&& final(graph)@ == old(graph)@.popped(x.edge as int, x.index as int)
            },
            None => r is None && final(graph)@ == old(graph)@,
        },
{
    match p {
        Some(x) => graph.try_next(x),
        None => None,
    }
}

/// What waiting for a packet with a limit comes to: without a packet nothing
/// more will come.
pub fn flow_poller_next_timeout(got: Option<Packet>) -> (r: (i32, Option<Packet>))
    ensures
        r == (if got is Some {
            OK
        } else {
            CLOSED
        }, got),
{
    if got.is_some() {
        (OK, got)
    } else {
        (CLOSED, got)
    }
}

/// The end of waiting until the graph behind a handle is done.
pub fn flow_graph_wait_done(last: &mut LastError, g: Option<&mut GraphSlot>) -> (r: i32)
    requires
        in_order(graph_before(g)),
    ensures
        g matches Some(slot) ==> in_order(final(slot)@),
        ({
            let problem = match graph_before(g) {
                Some(v) => v.verdict(),
                None => Some(no_graph()),
            };
            &&& r == status_of(problem)
            &&& final(last)@ == reported(old(last)@, problem)
            &&& (g matches Some(slot) ==> final(slot)@ == match slot@ {
                Some(v) => Some(
                    if v.all_closed() {
                        RunView { state: State::Terminated, ..v }
                    } else {
                        v
                    },
                ),
                None => None,
            })
        }),
{
    match graph_mut(g) {
        Some(graph) => {
            let result = graph.finish_wait();
            to_status(last, result)
        },
        None => not_ready(last),
    }
}

/// The end of waiting until the graph behind a handle is idle.
pub fn flow_graph_wait_until_idle(last: &mut LastError, g: Option<&GraphSlot>) -> (r: i32)
    ensures
        ({
            let problem = match graph_behind(g) {
                Some(v) => v.shared.error,
                None => Some(no_graph()),
            };
            r == status_of(problem) && final(last)@ == reported(old(last)@, problem)
        }),
{
    match g {
        Some(slot) => match &slot.graph {
            Some(graph) => to_status(last, graph.idle_result()),
            None => not_ready(last),
        },
        None => not_ready(last),
    }
}

/// Pauses the graph behind a handle, if there is one.
pub fn flow_graph_pause(g: Option<&mut GraphSlot>)
    requires
        in_order(graph_before(g)),
    ensures
        g matches Some(slot) ==> in_order(final(slot)@),
        g matches Some(slot) ==> final(slot)@ == (match slot@ {
            Some(v) => Some(RunView { paused: true, ..v }),
            None => None,
        }),
{
    if let Some(graph) = graph_mut(g) {
        graph.pause();
    }
}

/// Lets the graph behind a handle go on, if there is one.
pub fn flow_graph_resume(g: Option<&mut GraphSlot>)
    requires
        in_order(graph_before(g)),
    ensures
        g matches Some(slot) ==> in_order(final(slot)@),
        g matches Some(slot) ==> final(slot)@ == (match slot@ {
            Some(v) => Some((RunView { paused: false, ..v }).nodes_scheduled(v.nodes.len())),
            None => None,
        }),
{
    if let Some(graph) = graph_mut(g) {
        graph.resume();
    }
}

// --------------------------------------------------------- asking about a graph

/// How many packets wait in the graph behind a handle.
pub fn flow_graph_total_queued(g: Option<&GraphSlot>) -> (r: usize)
    ensures
        r == match graph_behind(g) {
            Some(v) => v.shared.queued,
            None => 0,
        },
{
    match g {
        Some(slot) => match &slot.graph {
            Some(graph) => graph.shared.total_queued(),
            None => 0,
        },
        None => 0,
    }
}

/// How many bytes wait in the graph behind a handle.
pub fn flow_graph_total_queued_bytes(g: Option<&GraphSlot>) -> (r: u64)
    ensures
        r == match graph_behind(g) {
            Some(v) => v.shared.bytes,
            None => 0,
        },
{
    match g {
        Some(slot) => match &slot.graph {
            Some(graph) => graph.shared.total_queued_bytes(),
            None => 0,
        },
        None => 0,
    }
}

/// How many inputs the graph behind a handle has.
pub fn flow_graph_num_input_ports(g: Option<&GraphSlot>) -> (r: usize)
    ensures
        r == match graph_behind(g) {
            Some(v) => v.graph_inputs.len(),
            None => 0,
        },
{
    match g {
        Some(slot) => match &slot.graph {
            Some(graph) => graph.graph_inputs.len(),
            None => 0,
        },
        None => 0,
    }
}

/// How many outputs the graph behind a handle has.
pub fn flow_graph_num_output_ports(g: Option<&GraphSlot>) -> (r: usize)
    ensures
        r == match graph_behind(g) {
            Some(v) => v.graph_outputs.len(),
            None => 0,
        },
{
    match g {
        Some(slot) => match &slot.graph {
            Some(graph) => graph.graph_outputs.len(),
            None => 0,
        },
        None => 0,
    }
}

/// How many nodes the graph behind a handle has.
pub fn flow_graph_num_nodes(g: Option<&GraphSlot>) -> (r: usize)
    ensures
        r == match graph_behind(g) {
            Some(v) => v.nodes.len(),
            None => 0,
        },
{
    match g {
        Some(slot) => match &slot.graph {
            Some(graph) => graph.node_count(),
            None => 0,
        },
        None => 0,
    }
}

/// The name of the edge that stands at a place of a list; empty beyond its
/// end.
pub open spec fn edge_name_at(v: RunView, list: Seq<usize>, idx: usize) -> Seq<char> {
    if idx < list.len() {
        v.edges[list[idx as int] as int].name
    } else {
        Seq::empty()
    }
}

/// The name of an input of the graph behind a handle; empty if there is none
/// of that number.
pub fn flow_graph_input_port_name(g: Option<&GraphSlot>, idx: usize) -> (r: String)
    requires
        in_order(graph_behind(g)),
    ensures
        r@ == match graph_behind(g) {
            Some(v) => without_zero(edge_name_at(v, v.graph_inputs, idx)),
            None => Seq::empty(),
        },
{
    match g {
        Some(slot) => match &slot.graph {
            Some(graph) => if idx < graph.graph_inputs.len() {
                let edge: usize = graph.graph_inputs[idx];
                assert(graph@.graph_inputs[idx as int] == edge);
                assert(graph@.edges[edge as int] == graph.edges@[edge as int]@);
                interned(graph.edges[edge].name.as_str())
            } else {
                String::new()
            },
            None => String::new(),
        },
        None => String::new(),
    }
}

/// The name of an output of the graph behind a handle; empty if there is none
/// of that number.
pub fn flow_graph_output_port_name(g: Option<&GraphSlot>, idx: usize) -> (r: String)
    requires
        in_order(graph_behind(g)),
    ensures
        r@ == match graph_behind(g) {
            Some(v) => without_zero(edge_name_at(v, v.graph_outputs, idx)),
            None => Seq::empty(),
        },
{
    match g {
        Some(slot) => match &slot.graph {
            Some(graph) => if idx < graph.graph_outputs.len() {
                let edge: usize = graph.graph_outputs[idx];
                assert(graph@.graph_outputs[idx as int] == edge);
                assert(graph@.edges[edge as int] == graph.edges@[edge as int]@);
                interned(graph.edges[edge].name.as_str())
            } else {
                String::new()
            },
            None => String::new(),
        },
        None => String::new(),
    }
}

/// The name of a node of the graph behind a handle; empty if there is none of
/// that number.
pub fn flow_graph_node_name(g: Option<&GraphSlot>, idx: usize) -> (r: String)
    ensures
        r@ == match graph_behind(g) {
            Some(v) => if idx < v.nodes.len() {
                without_zero(v.nodes[idx as int].name)
            } else {
                Seq::empty()
            },
            None => Seq::empty(),
        },
{
    match g {
        Some(slot) => match &slot.graph {
            Some(graph) => match graph.node_name(idx) {
                Some(name) => interned(name),
                None => String::new(),
            },
            None => String::new(),
        },
        None => String::new(),
    }
}

/// The graph behind a handle as a text.
pub fn flow_graph_dump(g: Option<&GraphSlot>, now: u64) -> (r: String)
    requires
        graph_behind(g) matches Some(v) ==> forall|i: int|
            0 <= i < v.nodes.len() ==> (#[trigger] v.nodes[i]).countable(),
    ensures
        r@ == match graph_behind(g) {
            Some(v) => without_zero(v.dumped(now)),
            None => "(未初始化)"@,
        },
{
    match g {
        Some(slot) => match &slot.graph {
            Some(graph) => interned(graph.dump(now).as_str()),
            None => "(未初始化)".to_owned(),
        },
        None => "(未初始化)".to_owned(),
    }
}

/// The statistics of a node of the graph behind a handle, for a record that
/// is large enough.
pub fn flow_graph_node_stats(
    last: &mut LastError,
    g: Option<&GraphSlot>,
    idx: usize,
    declared: usize,
    needed: usize,
    now: u64,
) -> (r: Option<NodeStatsSnapshot>)
    requires
        graph_behind(g) matches Some(v) ==> (idx < v.nodes.len() ==> v.nodes[idx as int].countable()),
    ensures
        r is Some <==> declared >= needed && (graph_behind(g) matches Some(v) && idx
            < v.nodes.len()),
        r matches Some(st) ==> ({
            let node = graph_behind(g)->Some_0.nodes[idx as int];
            is_snapshot(
                st,
                (RunNode {
                    name: without_zero(node.name),
                    kernel_name: without_zero(node.kernel_name),
                    ..node
                }),
                now,
            )
        }),
        final(last)@ == (if declared >= needed {
            old(last)@
        } else {
            without_zero("FlowNodeStats.struct_size 太小 —— 请填 sizeof(FlowNodeStats)"@)
        }),
{
    if !check_stats_size(last, declared, needed) {
        return None;
    }
    match g {
        Some(slot) => match &slot.graph {
            Some(graph) => match graph.node_stats(idx, now) {
                Some(mut st) => {
                    let ghost node = graph@.nodes[idx as int];
                    let ghost shown = RunNode {
                        name: without_zero(node.name),
                        kernel_name: without_zero(node.kernel_name),
                        ..node
                    };
                    st.node_name = interned(st.node_name.as_str());
                    st.kernel_name = interned(st.kernel_name.as_str());
                    proof {
                        waiting_alike(node, shown, node.queues.len());
                    }
                    Some(st)
                },
                None => None,
            },
            None => None,
        },
        None => None,
    }
}

/// How many packets wait at a node depends on its queues alone.
proof fn waiting_alike(a: RunNode, b: RunNode, k: nat)
    requires
        a.queues == b.queues,
    ensures
        a.waiting(k) == b.waiting(k),
    decreases k,
{
    if k > 0 {
        waiting_alike(a, b, (k - 1) as nat);
    }
}

/// The value of a counter of the graph behind a handle.
pub fn flow_graph_counter_value(g: Option<&GraphSlot>, name: Option<&str>) -> (r: i64)
    ensures
        r == match (graph_behind(g), text_of(name)) {
            (Some(v), Some(n)) => v.shared.counter(n),
            _ => 0,
        },
{
    match g {
        Some(slot) => match &slot.graph {
            Some(graph) => match name {
                Some(n) => graph.counter_value(n),
                None => 0,
            },
            None => 0,
        },
        None => 0,
    }
}

/// Whether a list holds the names of the counters, in order.
pub open spec fn lists_counters(v: RunView, names: Seq<Seq<char>>) -> bool {
    ascending(names) && names.to_set() == v.shared.counters.dom()
}

/// The name of a counter of the graph behind a handle, in the order of the
/// names; empty if there is none of that number.
pub fn flow_graph_counter_name(g: Option<&GraphSlot>, idx: usize) -> (r: String)
    ensures
        match graph_behind(g) {
            Some(v) => exists|names: Seq<Seq<char>>| #[trigger]
                lists_counters(v, names) && r@ == (if idx < names.len() {
                    without_zero(names[idx as int])
                } else {
                    Seq::empty()
                }),
            None => r@ == Seq::<char>::empty(),
        },
{
    match g {
        Some(slot) => match &slot.graph {
            Some(graph) => {
                let names = graph.shared.counter_names();
                assert(lists_counters(graph@, texts(names@)));
                if idx < names.len() {
                    assert(texts(names@)[idx as int] == names@[idx as int]@);
                    interned(names[idx].as_str())
                } else {
                    String::new()
                }
            },
            None => String::new(),
        },
        None => String::new(),
    }
}

/// How many counters the graph behind a handle has.
pub fn flow_graph_counter_count(g: Option<&GraphSlot>) -> (r: usize)
    ensures
        r == match graph_behind(g) {
            Some(v) => v.shared.counters.dom().len(),
            None => 0,
        },
{
    match g {
        Some(slot) => match &slot.graph {
            Some(graph) => {
                let names = graph.shared.counter_names();
                proof {
                    ascending_keys_are_distinct(texts(names@));
                    texts(names@).unique_seq_to_set();
                }
                names.len()
            },
            None => 0,
        },
        None => 0,
    }
}

} // verus!

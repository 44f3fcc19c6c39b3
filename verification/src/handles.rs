//! The boundary to programs in other languages: handles of graphs.

use crate::api::{Input, Poller};
use crate::boundary::{fail, reported, status_of, text_of, to_status, INVALID_ID};
use crate::graph::Graph;
use crate::packet::Packet;
use crate::run_state::{head, state_name, state_number, RunEdge, RunView, State};
use crate::runtime::{interned, without_zero, LastError, SharedView};
use crate::status::{first_failure, Error, ErrorView, CLOSED, INVALID_ARG, OK, WOULD_BLOCK};
use crate::text::cat3;
use vstd::prelude::*;

verus! {

/// What a handle of a graph stands for: nothing at first, a graph once one
/// was built.
pub struct GraphSlot {
    pub graph: Option<Graph>,
}

impl View for GraphSlot {
    type V = Option<RunView>;

    open spec fn view(&self) -> Option<RunView> {
        match self.graph {
            Some(g) => Some(g@),
            None => None,
        }
    }
}

/// The graph behind a handle, if the handle is not null and there is one.
pub open spec fn graph_behind(g: Option<&GraphSlot>) -> Option<RunView> {
    match g {
        Some(slot) => slot@,
        None => None,
    }
}

/// The graph behind a handle before a call that may change it. A handle that is
/// missing has no graph behind it, like one whose graph is still to come.
pub open spec fn graph_before(g: Option<&mut GraphSlot>) -> Option<RunView> {
    match g {
        Some(slot) => slot@,
        None => None,
    }
}

/// Whether the graph behind a slot, if there is one, is in order.
pub open spec fn in_order(slot: Option<RunView>) -> bool {
    slot matches Some(v) ==> v.fits()
}

/// The error about a handle without a graph.
pub open spec fn no_graph() -> ErrorView {
    ErrorView::State("图尚未初始化"@)
}

/// A handle without a graph. What went wrong before is forgotten.
pub fn flow_graph_new(last: &mut LastError) -> (r: GraphSlot)
    ensures
        r@ is None,
        final(last)@ == Seq::<char>::empty(),
{
    proof {
        reveal_strlit("");
        assert(""@ =~= Seq::<char>::empty());
    }
    last.set("");
    GraphSlot { graph: None }
}

/// Why no graph can be built from a text behind a handle, if so.
pub open spec fn init_problem(
    slot: Option<Option<RunView>>,
    text: Option<Seq<char>>,
) -> Option<ErrorView> {
    match slot {
        None => Some(ErrorView::InvalidArg("graph 句柄为空"@)),
        Some(Some(_)) => Some(ErrorView::State("图已初始化"@)),
        Some(None) => if text is None {
            Some(ErrorView::InvalidArg("yaml 为空或非 UTF-8"@))
        } else {
            None
        },
    }
}

pub open spec fn slot_view(g: Option<&GraphSlot>) -> Option<Option<RunView>> {
    match g {
        Some(slot) => Some(slot@),
        None => None,
    }
}

/// Refuses to build a graph behind a handle that is null or has one, or
/// without a text.
pub fn check_init(last: &mut LastError, g: Option<&GraphSlot>, text: Option<&str>) -> (r: i32)
    ensures
        r == status_of(init_problem(slot_view(g), text_of(text))),
        final(last)@ == reported(old(last)@, init_problem(slot_view(g), text_of(text))),
{
    match g {
        None => fail(last, Error::InvalidArg("graph 句柄为空".to_owned())),
        Some(slot) => if slot.graph.is_some() {
            fail(last, Error::State("图已初始化".to_owned()))
        } else if text.is_none() {
            fail(last, Error::InvalidArg("yaml 为空或非 UTF-8".to_owned()))
        } else {
            OK
        },
    }
}

/// Refuses to build a graph from a file behind a handle that is null, or
/// without a path. A graph that is there already is replaced.
pub fn check_init_file(last: &mut LastError, g: Option<&GraphSlot>, path: Option<&str>) -> (r: i32)
    ensures
        ({
            let problem = if g is None {
                Some(ErrorView::InvalidArg("graph 句柄为空"@))
            } else if path is None {
                Some(ErrorView::InvalidArg("path 为空"@))
            } else {
                None
            };
            r == status_of(problem) && final(last)@ == reported(old(last)@, problem)
        }),
{
    if g.is_none() {
        fail(last, Error::InvalidArg("graph 句柄为空".to_owned()))
    } else if path.is_none() {
        fail(last, Error::InvalidArg("path 为空".to_owned()))
    } else {
        OK
    }
}

/// Puts a graph that was built behind a handle.
pub fn finish_init(last: &mut LastError, slot: &mut GraphSlot, built: Result<Graph, Error>) -> (r:
    i32)
    ensures
        match built {
            Ok(graph) => r == OK && final(slot)@ == Some(graph@) && final(last)@ == old(last)@,
            Err(e) => r == e@.code() && final(slot)@ == old(slot)@ && final(last)@ == without_zero(
                e@.text(),
            ),
        },
{
    match built {
        Ok(graph) => {
            slot.graph = Some(graph);
            OK
        },
        Err(e) => fail(last, e),
    }
}

/// The graph behind a handle, to change.
pub fn graph_mut(g: Option<&mut GraphSlot>) -> (r: Option<&mut Graph>)
    ensures
        match r {
            Some(graph) => g matches Some(slot) && slot@ == Some(graph@) && final(slot)@ == Some(
                final(graph)@,
            ),
            None => graph_before(g) is None && (g matches Some(slot) ==> final(slot)@ is None),
        },
{
    match g {
        Some(slot) => match &mut slot.graph {
            Some(graph) => Some(graph),
            None => None,
        },
        None => None,
    }
}

/// Says that there is no graph yet.
pub fn not_ready(last: &mut LastError) -> (r: i32)
    ensures
        r == no_graph().code(),
        final(last)@ == without_zero(no_graph().text()),
{
    fail(last, Error::State("图尚未初始化".to_owned()))
}

/// Why a constant input is refused, if it is.
pub open spec fn side_packet_problem(
    slot: Option<RunView>,
    name: Option<Seq<char>>,
    pkt: Packet,
    host_object: u64,
) -> Option<ErrorView> {
    match (name, slot) {
        (None, _) => Some(ErrorView::InvalidArg("side packet 名为空"@)),
        (Some(_), None) => Some(no_graph()),
        (Some(n), Some(v)) => if v.state !is Initialized {
            Some(ErrorView::State("side packets must be injected before start"@))
        } else if pkt.kind == host_object {
            Some(
                ErrorView::InvalidArg(
                    "side packet `"@ + n
                        + "` carries LMFLOW_TYPE_HOST_OBJECT, which is reserved and not enabled (see ADR #26); use LMFLOW_TYPE_BUFFER for numeric collections, or LMFLOW_TYPE_STR carrying JSON for arbitrary metadata"@,
                ),
            )
        } else {
            None
        },
    }
}

/// Puts a constant input in place.
pub fn flow_graph_set_side_packet(
    last: &mut LastError,
    g: Option<&mut GraphSlot>,
    name: Option<&str>,
    pkt: Packet,
    host_object: u64,
) -> (r: i32)
    requires
        in_order(graph_before(g)),
    ensures
        g matches Some(slot) ==> in_order(final(slot)@),
        ({
            let problem = side_packet_problem(graph_before(g), text_of(name), pkt, host_object);
            &&& r == status_of(problem)
            &&& final(last)@ == reported(old(last)@, problem)
            &&& g matches Some(slot) ==> final(slot)@ == (if problem is None {
                let v = graph_before(g)->Some_0;
                Some(
                    RunView { side_packets: v.side_packets.insert(name->Some_0@, pkt), ..v },
                )
            } else {
                graph_before(g)
            })
        }),
{
    match name {
        None => fail(last, Error::InvalidArg("side packet 名为空".to_owned())),
        Some(n) => match graph_mut(g) {
            None => not_ready(last),
            Some(graph) => {
                let result = graph.set_side_packet(n, pkt, host_object);
                to_status(last, result)
            },
        },
    }
}

/// Why there is no handle of a graph input, if so.
pub open spec fn input_problem(
    slot: Option<Option<RunView>>,
    port: Option<Seq<char>>,
) -> Option<Seq<char>> {
    match (slot, port) {
        (None, _) => Some("graph 句柄为空"@),
        (Some(None), _) => Some("图尚未初始化"@),
        (Some(Some(_)), None) => Some("端口名为空"@),
        (Some(Some(v)), Some(p)) => if v.input_by_name.contains_key(p) {
            None
        } else {
            Some("图输入口 `"@ + p + "` 不存在"@)
        },
    }
}

/// The text of the last error after a call that gives a handle.
pub open spec fn noted_text(before: Seq<char>, problem: Option<Seq<char>>) -> Seq<char> {
    match problem {
        Some(t) => without_zero(t),
        None => before,
    }
}

/// A handle of a graph input.
pub fn flow_graph_input(last: &mut LastError, g: Option<&GraphSlot>, port: Option<&str>) -> (r:
    Option<Input>)
    requires
        in_order(graph_behind(g)),
    ensures
        ({
            let problem = input_problem(slot_view(g), text_of(port));
            &&& r is Some == (problem is None)
            &&& r matches Some(i) ==> i.edge == graph_behind(g)->Some_0.input_by_name[port->Some_0@]
            &&& final(last)@ == noted_text(old(last)@, problem)
        }),
{
    match g {
        None => {
            last.set("graph 句柄为空");
            None
        },
        Some(slot) => match &slot.graph {
            None => {
                last.set("图尚未初始化");
                None
            },
            Some(graph) => match port {
                None => {
                    last.set("端口名为空");
                    None
                },
                Some(name) => match graph.input(name) {
                    Ok(i) => Some(i),
                    Err(_) => {
                        let text = cat3("图输入口 `", name, "` 不存在");
                        last.set(text.as_str());
                        None
                    },
                },
            },
        },
    }
}

/// Why a packet is not sent without waiting, if so.
pub open spec fn try_send_problem(v: RunView, edge: int, pkt: Packet) -> Option<ErrorView> {
    first_failure(
        v.send_problem(edge, pkt),
        if v.shared.over_watermark() {
            Some(ErrorView::WouldBlock)
        } else {
            v.order_problem(edge, pkt)
        },
    )
}

/// Sends a packet, unless that would have to wait.
pub fn flow_input_try_send(
    last: &mut LastError,
    graph: &mut Graph,
    i: Option<Input>,
    pkt: Packet,
) -> (r: i32)
    requires
        old(graph)@.fits(),
        i matches Some(input) ==> input.edge < old(graph)@.edges.len(),
    ensures
        final(graph)@.fits(),
        ({
            let problem = match i {
                Some(input) => try_send_problem(old(graph)@, input.edge as int, pkt),
                None => Some(ErrorView::InvalidArg("input 句柄为空"@)),
            };
            &&& r == status_of(problem)
            &&& final(last)@ == reported(old(last)@, problem)
            &&& final(graph)@ == (if problem is None {
                old(graph)@.accepted(i->Some_0.edge as int, pkt)
            } else {
                old(graph)@
            })
        }),
{
    match i {
        None => fail(last, Error::InvalidArg("input 句柄为空".to_owned())),
        Some(input) => {
            let result = graph.try_send(input, pkt);
            to_status(last, result)
        },
    }
}

/// Why a graph input cannot be closed, if so.
pub open spec fn close_problem(slot: Option<RunView>, port: Option<Seq<char>>) -> Option<ErrorView> {
    match (port, slot) {
        (None, _) => Some(ErrorView::InvalidArg("端口名为空"@)),
        (Some(_), None) => Some(no_graph()),
        (Some(p), Some(v)) => if v.input_by_name.contains_key(p) {
            None
        } else {
            Some(ErrorView::NotFound("图输入口 `"@ + p + "` 不存在"@))
        },
    }
}

/// Closes the graph input of a name.
pub fn flow_graph_close_input(
    last: &mut LastError,
    g: Option<&mut GraphSlot>,
    port: Option<&str>,
) -> (r: i32)
    requires
        in_order(graph_before(g)),
    ensures
        g matches Some(slot) ==> in_order(final(slot)@),
        ({
            let problem = close_problem(graph_before(g), text_of(port));
            &&& r == status_of(problem)
            &&& final(last)@ == reported(old(last)@, problem)
            &&& g matches Some(slot) ==> final(slot)@ == (if problem is None {
                let v = graph_before(g)->Some_0;
                Some(v.edge_closed(v.input_by_name[port->Some_0@] as int).drain_noted())
            } else {
                graph_before(g)
            })
        }),
{
    match port {
        None => fail(last, Error::InvalidArg("端口名为空".to_owned())),
        Some(name) => match graph_mut(g) {
            None => not_ready(last),
            Some(graph) => {
                let result = graph.close_input(name);
                to_status(last, result)
            },
        },
    }
}

/// Why there is no handle of a poller, if so.
pub open spec fn poller_problem(
    slot: Option<Option<RunView>>,
    port: Option<Seq<char>>,
    bounds: bool,
) -> Option<Seq<char>> {
    if bounds {
        Some("observe_timestamp_bounds 属后续阶段,本版本尚未实现"@)
    } else {
        match (slot, port) {
            (None, _) => Some("graph 句柄为空"@),
            (Some(None), _) => Some("图尚未初始化"@),
            (Some(Some(_)), None) => Some("端口名为空"@),
            (Some(Some(v)), Some(p)) => if v.state !is Initialized {
                Some(
                    ErrorView::State(
                        "add_poller 必须在 start 之前调用(当前 "@ + state_name(v.state) + ")"@,
                    ).text(),
                )
            } else if !v.output_by_name.contains_key(p) {
                Some(ErrorView::NotFound("图输出口 `"@ + p + "` 不存在"@).text())
            } else {
                None
            },
        }
    }
}

/// A handle of a new poller.
pub fn flow_graph_add_poller_ex(
    last: &mut LastError,
    g: Option<&mut GraphSlot>,
    port: Option<&str>,
    observe_timestamp_bounds: bool,
) -> (r: Option<Poller>)
    requires
        g matches Some(slot) ==> in_order(slot@),
    ensures
        ({
            let before = match g {
                Some(slot) => Some(slot@),
                None => None,
            };
            let problem = poller_problem(before, text_of(port), observe_timestamp_bounds);
            &&& r is Some == (problem is None)
            &&& final(last)@ == noted_text(old(last)@, problem)
            &&& g matches Some(slot) ==> in_order(final(slot)@) && match r {
                Some(p) => {
                    let v = slot@->Some_0;
                    &&& p.edge == v.output_by_name[port->Some_0@]
                    &&& p.index == v.edges[p.edge as int].pollers.len()
                    &&& final(slot)@ == Some(v.polled(p.edge as int))
                },
                None => final(slot)@ == slot@,
            }
        }),
{
    if observe_timestamp_bounds {
        last.set("observe_timestamp_bounds 属后续阶段,本版本尚未实现");
        return None;
    }
    match g {
        None => {
            last.set("graph 句柄为空");
            None
        },
        Some(slot) => match &mut slot.graph {
            None => {
                last.set("图尚未初始化");
                None
            },
            Some(graph) => match port {
                None => {
                    last.set("端口名为空");
                    None
                },
                Some(name) => match graph.add_poller(name) {
                    Ok(p) => Some(p),
                    Err(e) => {
                        let text = e.text();
                        last.set(text.as_str());
                        None
                    },
                },
            },
        },
    }
}

/// Why an observer is refused, if it is.
pub open spec fn observer_problem(
    slot: Option<RunView>,
    port: Option<Seq<char>>,
    bounds: bool,
    callback: Option<u64>,
) -> Option<ErrorView> {
    if bounds {
        Some(ErrorView::Unsupported("observe_timestamp_bounds 属后续阶段"@))
    } else if callback is None {
        Some(ErrorView::InvalidArg("回调为空"@))
    } else {
        match (port, slot) {
            (None, _) => Some(ErrorView::InvalidArg("端口名为空"@)),
            (Some(_), None) => Some(no_graph()),
            (Some(p), Some(v)) => if v.output_by_name.contains_key(p) {
                None
            } else {
                Some(ErrorView::NotFound("图输出口 `"@ + p + "` 不存在"@))
            },
        }
    }
}

/// Adds an observer of a graph output. A callback is known by its number.
pub fn flow_graph_observe_ex(
    last: &mut LastError,
    g: Option<&mut GraphSlot>,
    port: Option<&str>,
    observe_timestamp_bounds: bool,
    callback: Option<u64>,
) -> (r: i32)
    requires
        in_order(graph_before(g)),
    ensures
        g matches Some(slot) ==> in_order(final(slot)@),
        ({
            let problem = observer_problem(
                graph_before(g),
                text_of(port),
                observe_timestamp_bounds,
                callback,
            );
            &&& r == status_of(problem)
            &&& final(last)@ == reported(old(last)@, problem)
            &&& g matches Some(slot) ==> final(slot)@ == (if problem is None {
                let v = graph_before(g)->Some_0;
                let edge = v.output_by_name[port->Some_0@] as int;
                let e = v.edges[edge];
                Some(
                    v.with_edge(
                        edge,
                        (RunEdge { observers: e.observers.push(callback->Some_0), ..e }),
                    ),
                )
            } else {
                graph_before(g)
            })
        }),
{
    if observe_timestamp_bounds {
        return fail(
            last,
            Error::Unsupported("observe_timestamp_bounds 属后续阶段".to_owned()),
        );
    }
    match callback {
        None => fail(last, Error::InvalidArg("回调为空".to_owned())),
        Some(f) => match port {
            None => fail(last, Error::InvalidArg("端口名为空".to_owned())),
            Some(name) => match graph_mut(g) {
                None => not_ready(last),
                Some(graph) => {
                    let result = graph.add_observer(name, f);
                    to_status(last, result)
                },
            },
        },
    }
}

/// Cancels the graph behind a handle.
pub fn flow_graph_cancel(last: &mut LastError, g: Option<&mut GraphSlot>)
    requires
        in_order(graph_before(g)),
    ensures
        g matches Some(slot) ==> in_order(final(slot)@),
        match graph_before(g) {
            Some(v) => final(last)@ == old(last)@ && (g matches Some(slot) ==> final(slot)@ == Some(
                RunView { shared: (SharedView { cancelled: true, ..v.shared }), ..v },
            )),
            None => final(last)@ == without_zero(no_graph().text()) && (g matches Some(
                slot,
            ) ==> final(slot)@ is None),
        },
{
    match graph_mut(g) {
        Some(graph) => graph.cancel(),
        None => {
            not_ready(last);
        },
    }
}

/// The number of the state of the graph behind a handle; that of a graph that
/// was just created if there is none.
pub fn flow_graph_state(g: Option<&GraphSlot>) -> (r: i32)
    ensures
        r == match graph_behind(g) {
            Some(v) => state_number(v.state),
            None => state_number(State::Created),
        },
{
    match g {
        Some(slot) => match &slot.graph {
            Some(graph) => graph.state().code(),
            None => State::Created.code(),
        },
        None => State::Created.code(),
    }
}

/// How many packets wait on an edge; `INVALID_ID` if there is none of that
/// name.
pub fn flow_graph_queue_depth(g: Option<&GraphSlot>, port: Option<&str>) -> (r: usize)
    requires
        in_order(graph_behind(g)),
        graph_behind(g) matches Some(v) ==> (port matches Some(p) ==> (v.edge_by_name.contains_key(
            p@,
        ) ==> v.depth(
            v.edge_by_name[p@] as int,
            v.edges[v.edge_by_name[p@] as int].consumers.len(),
        ) <= usize::MAX)),
    ensures
        r == match (graph_behind(g), text_of(port)) {
            (Some(v), Some(p)) => if v.edge_by_name.contains_key(p) {
                let edge = v.edge_by_name[p] as int;
                v.depth(edge, v.edges[edge].consumers.len())
            } else {
                INVALID_ID as nat
            },
            _ => INVALID_ID as nat,
        },
{
    match g {
        Some(slot) => match &slot.graph {
            Some(graph) => match port {
                Some(p) => match graph.queue_depth(p) {
                    Some(n) => n,
                    None => INVALID_ID,
                },
                None => INVALID_ID,
            },
            None => INVALID_ID,
        },
        None => INVALID_ID,
    }
}

/// How many packets were dropped on an edge; zero if there is none of that
/// name.
pub fn flow_graph_dropped_count(g: Option<&GraphSlot>, port: Option<&str>) -> (r: u64)
    requires
        in_order(graph_behind(g)),
    ensures
        r == match (graph_behind(g), text_of(port)) {
            (Some(v), Some(p)) => if v.edge_by_name.contains_key(p) {
                v.edges[v.edge_by_name[p] as int].dropped
            } else {
                0
            },
            _ => 0,
        },
{
    match g {
        Some(slot) => match &slot.graph {
            Some(graph) => match port {
                Some(p) => match graph.dropped_count(p) {
                    Some(n) => n,
                    None => 0,
                },
                None => 0,
            },
            None => 0,
        },
        None => 0,
    }
}

/// The text of the first failure of the graph behind a handle.
pub fn flow_graph_last_error(g: Option<&GraphSlot>) -> (r: String)
    ensures
        r@ == match graph_behind(g) {
            Some(v) => match v.shared.error {
                Some(e) => without_zero(e.text()),
                None => Seq::empty(),
            },
            None => Seq::empty(),
        },
{
    match g {
        Some(slot) => match &slot.graph {
            Some(graph) => interned(graph.shared.error_text().as_str()),
            None => String::new(),
        },
        None => String::new(),
    }
}

/// Refuses a record for statistics that says it is smaller than it must be.
pub fn check_stats_size(last: &mut LastError, declared: usize, needed: usize) -> (r: bool)
    ensures
        r == (declared >= needed),
        final(last)@ == (if r {
            old(last)@
        } else {
            without_zero("FlowNodeStats.struct_size 太小 —— 请填 sizeof(FlowNodeStats)"@)
        }),
{
    if declared < needed {
        last.set("FlowNodeStats.struct_size 太小 —— 请填 sizeof(FlowNodeStats)");
        return false;
    }
    true
}

/// Takes the next packet of a poller without waiting, and says whether one
/// may still come.
pub fn flow_poller_try_next_status(
    last: &mut LastError,
    graph: &mut Graph,
    p: Option<Poller>,
) -> (r: (i32, Option<Packet>))
    requires
        old(graph)@.fits(),
        p matches Some(poller) ==> old(graph)@.has_poller(poller.edge as int, poller.index as int),
    ensures
        final(graph)@.fits(),
        match p {
            None => {
                &&& r == (INVALID_ARG, None::<Packet>)
                &&& final(last)@ == without_zero(
                    ErrorView::InvalidArg("poller handle is null"@).text(),
                )
                &&& final(graph)@ == old(graph)@
            },
            Some(poller) => {
                let (edge, index) = (poller.edge as int, poller.index as int);
                let waiting = old(graph)@.edges[edge].pollers[index];
                &&& r.1 == head(waiting.queue)
                &&& r.0 == (if r.1 is Some {
                    OK
                } else if waiting.closed {
                    CLOSED
                } else {
                    WOULD_BLOCK
                })
                &&& final(graph)@ == old(graph)@.popped(edge, index)
                &&& final(last)@ == old(last)@
            },
        },
{
    match p {
        None => (fail(last, Error::InvalidArg("poller handle is null".to_owned())), None),
        Some(poller) => {
            let closed = graph.poller_is_closed(poller);
            match graph.try_next(poller) {
                Some(packet) => (OK, Some(packet)),
                None => if closed {
                    (CLOSED, None)
                } else {
                    (WOULD_BLOCK, None)
                },
            }
        },
    }
}

} // verus!

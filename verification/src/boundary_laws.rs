//! What callers from outside are answered: codes, refusals and what crosses.

use crate::answers::{named_input_problem, send_problem};
use crate::boundary::{
    changed_at, option_number, option_problem, option_text, option_truth, reported, status_of,
};
use crate::buffer::{elements, offset_of, BufferDescriptor, Extent};
use crate::builtin::{said, tallied};
use crate::context::ContextView;
use crate::crossing::{
    adopt_problem, copy_problem, packed_copy, release_of, shown_packet, taken_packet,
    write_bytes_problem, write_problem, Builtin, FlowPacket, Release,
};
use crate::handles::{
    close_problem, init_problem, input_problem, no_graph, observer_problem, poller_problem,
    side_packet_problem, try_send_problem,
};
use crate::kernel_laws::{joined_texts_stay_clean, mentions_text};
use crate::options::{at_path, number_of};
use crate::packet::Packet;
use crate::pool_laws::{element_number, elements_lie_at_their_coordinates, stride_sum};
use crate::run_state::{RunView, State};
use crate::runtime::SharedView;
use crate::status::{ErrorView, OK};
use crate::yaml::{entry_of, YamlView};
use vstd::prelude::*;

verus! {

// ------------------------------------------------------------------------- codes

/// Errors of different kinds have different codes, and none has that of
/// success.
pub proof fn codes_tell_errors_apart(e: ErrorView, f: ErrorView)
    ensures
        e.code() != OK,
        e.code() == f.code() ==> {
            &&& e is InvalidArg <==> f is InvalidArg
            &&& e is Unsupported <==> f is Unsupported
            &&& e is State <==> f is State
            &&& e is NotFound <==> f is NotFound
            &&& e is Kernel <==> f is Kernel
            &&& e is Closed <==> f is Closed
            &&& e is Cancelled <==> f is Cancelled
            &&& e is WouldBlock <==> f is WouldBlock
        },
{
}

/// A call reports success exactly if nothing went wrong, and then leaves the
/// last error as it was. Else the text of the error is there to be read.
pub proof fn calls_report_what_went_wrong(before: Seq<char>, problem: Option<ErrorView>)
    ensures
        status_of(problem) == OK <==> problem is None,
        problem is None ==> reported(before, problem) == before,
        problem matches Some(e) ==> status_of(problem) == e.code() && (!e.text().contains('\0')
            ==> reported(before, problem) == e.text()),
{
}

/// An error keeps its kind and its message when a place is put in front of it.
pub proof fn places_are_put_in_front(e: ErrorView, place: Seq<char>)
    ensures
        e.at(place).code() == e.code(),
        !(e is Closed) && !(e is Cancelled) && !(e is WouldBlock) ==> mentions_text(
            e.at(place).text(),
            place,
        ) && mentions_text(e.at(place).text(), e.text()),
{
    if !(e is Closed) && !(e is Cancelled) && !(e is WouldBlock) {
        let w = e.at(place).text();
        let at: int = 0;
        assert(w.subrange(at, at + place.len()) =~= place);
        let from = (place.len() + ": "@.len()) as int;
        assert(w.subrange(from, from + e.text().len()) =~= e.text());
    }
}

// --------------------------------------------------------------------- refusals

/// A graph can be built behind a handle exactly if there is a handle, no graph
/// behind it, and a text.
pub proof fn handles_are_filled_once(slot: Option<Option<RunView>>, text: Option<Seq<char>>)
    ensures
        init_problem(slot, text) is None <==> slot == Some(None::<RunView>) && text is Some,
        slot matches Some(Some(_)) ==> init_problem(slot, text) matches Some(ErrorView::State(_)),
{
}

/// A side packet is taken exactly if it has a name, the graph is there and not
/// started, and the packet is of no reserved type.
pub proof fn side_packets_are_taken_before_the_start(
    slot: Option<RunView>,
    name: Option<Seq<char>>,
    pkt: Packet,
    host_object: u64,
)
    ensures
        side_packet_problem(slot, name, pkt, host_object) is None <==> {
            &&& name is Some
            &&& slot matches Some(v) && v.state is Initialized
            &&& pkt.kind != host_object
        },
{
}

/// A graph input is found exactly if there is a graph, a name, and an input of
/// that name; to close it and to send on it asks for the same.
pub proof fn inputs_are_found_by_name(v: RunView, port: Seq<char>)
    ensures
        input_problem(Some(Some(v)), Some(port)) is None <==> v.input_by_name.contains_key(port),
        close_problem(Some(v), Some(port)) is None <==> v.input_by_name.contains_key(port),
        named_input_problem(Some(v), Some(port)) is None <==> v.input_by_name.contains_key(port),
        input_problem(Some(None), Some(port)) is Some,
        input_problem(None, Some(port)) is Some,
        input_problem(Some(Some(v)), None) is Some,
        close_problem(None, Some(port)) == Some(no_graph()),
        close_problem(Some(v), None) matches Some(ErrorView::InvalidArg(_)),
        !v.input_by_name.contains_key(port) ==> (close_problem(Some(v), Some(port)) matches Some(
            ErrorView::NotFound(_),
        )),
        named_input_problem(None, Some(port)) == Some(no_graph()),
        named_input_problem(Some(v), None) is Some,
{
}

/// A poller is added exactly to a graph output that is there, before the start;
/// an observer at any time, if there is something to call. Neither is told of
/// bounds.
pub proof fn outputs_are_listened_to(
    v: RunView,
    port: Seq<char>,
    bounds: bool,
    callback: Option<u64>,
)
    ensures
        poller_problem(Some(Some(v)), Some(port), bounds) is None <==> !bounds
            && v.state is Initialized && v.output_by_name.contains_key(port),
        observer_problem(Some(v), Some(port), bounds, callback) is None <==> !bounds
            && callback is Some && v.output_by_name.contains_key(port),
        poller_problem(None, Some(port), bounds) is Some,
        poller_problem(Some(None), Some(port), bounds) is Some,
        poller_problem(Some(Some(v)), None, bounds) is Some,
        observer_problem(None, Some(port), bounds, callback) is Some,
        observer_problem(Some(v), None, bounds, callback) is Some,
{
}

/// A packet is sent without waiting exactly if it may be sent at all, the graph
/// is not full and the packet is later than the one before. If only room is
/// missing, the caller is told that it would have to wait.
pub proof fn sends_do_not_wait(v: RunView, edge: int, pkt: Packet)
    ensures
        try_send_problem(v, edge, pkt) is None <==> v.send_problem(edge, pkt) is None
            && !v.shared.over_watermark() && v.order_problem(edge, pkt) is None,
        v.send_problem(edge, pkt) is None && v.shared.over_watermark() ==> try_send_problem(
            v,
            edge,
            pkt,
        ) == Some(ErrorView::WouldBlock),
        v.send_problem(edge, pkt) is Some ==> try_send_problem(v, edge, pkt) == v.send_problem(
            edge,
            pkt,
        ),
{
}

/// A send that may wait is refused at once if the packet may not be sent, and
/// for want of room only if a step of the engine has made none.
pub proof fn sends_wait_for_room(v: RunView, edge: int, pkt: Packet)
    ensures
        send_problem(v, edge, pkt, None) is None <==> v.send_problem(edge, pkt) is None && (
        v.shared.over_watermark() || v.order_problem(edge, pkt) is None),
        v.shared.over_watermark() ==> send_problem(v, edge, pkt, Some(false)) == Some(
            ErrorView::WouldBlock,
        ) && send_problem(v, edge, pkt, Some(true)) is None,
        !v.shared.over_watermark() ==> send_problem(v, edge, pkt, Some(true)) == v.order_problem(
            edge,
            pkt,
        ),
{
}

// ---------------------------------------------------------------------- options

/// A required option is read exactly if there is a context, a name and a value
/// of the type that is asked for; and the refusal names the node and the
/// option.
pub proof fn required_options_are_there(c: ContextView, key: Seq<char>, found: bool)
    ensures
        option_problem(Some(c), Some(key), found) is None <==> found,
        option_problem(None, Some(key), found) is Some,
        option_problem(Some(c), None, found) is Some,
        option_problem(Some(c), Some(key), found) matches Some(e) ==> mentions_text(
            e.text(),
            c.node_name,
        ) && mentions_text(e.text(), key),
        at_path(c.options, key) is None ==> option_number(Some(c), Some(key)) is None
            && option_truth(Some(c), Some(key)) is None && option_text(Some(c), Some(key)) is None,
        at_path(c.options, key) matches Some(v) ==> option_number(Some(c), Some(key)) == number_of(v)
            && option_truth(Some(c), Some(key)) == v.as_truth() && option_text(Some(c), Some(key))
            == v.as_text(),
{
    if !found {
        let w = option_problem(Some(c), Some(key), found)->Some_0.text();
        let a = "节点 `"@;
        let b = "`: 必需参数 options."@;
        let at = a.len() as int;
        assert(w.subrange(at, at + c.node_name.len()) =~= c.node_name);
        let from = at + c.node_name.len() + b.len();
        assert(w.subrange(from, from + key.len()) =~= key);
    }
}

/// What a table holds under a key is the value of the first entry with that
/// key, and nothing exactly if there is none.
pub proof fn entries_are_found_by_key(entries: Seq<(YamlView, YamlView)>, key: Seq<char>)
    ensures
        entry_of(entries, key) is None <==> forall|i: int|
            0 <= i < entries.len() ==> (#[trigger] entries[i]).0 != YamlView::Text(key),
        entry_of(entries, key) matches Some(v) ==> exists|i: int|
            {
                &&& 0 <= i < entries.len()
                &&& (#[trigger] entries[i]).0 == YamlView::Text(key)
                &&& entries[i].1 == v
                &&& forall|k: int| 0 <= k < i ==> (#[trigger] entries[k]).0 != YamlView::Text(key)
            },
    decreases entries.len(),
{
    if entries.len() > 0 {
        let rest = entries.drop_first();
        entries_are_found_by_key(rest, key);
        assert forall|i: int| 0 < i < entries.len() implies rest[i - 1] == #[trigger] entries[i] by {}
        if entries[0].0 == YamlView::Text(key) {
            let i: int = 0;
            assert(entries[i].0 == YamlView::Text(key));
        } else {
            if entry_of(rest, key) is Some {
                let v = entry_of(rest, key)->Some_0;
                let j = choose|i: int|
                    {
                        &&& 0 <= i < rest.len()
                        &&& (#[trigger] rest[i]).0 == YamlView::Text(key)
                        &&& rest[i].1 == v
                        &&& forall|k: int|
                            0 <= k < i ==> (#[trigger] rest[k]).0 != YamlView::Text(key)
                    };
                let i = j + 1;
                assert(entries[i] == rest[j]);
                assert forall|k: int| 0 <= k < i implies (#[trigger] entries[k]).0
                    != YamlView::Text(key) by {
                    if k > 0 {
                        assert(rest[k - 1].0 != YamlView::Text(key));
                    }
                }
                assert(entries[i].0 == YamlView::Text(key));
            } else {
                assert forall|i: int| 0 <= i < entries.len() implies (#[trigger] entries[i]).0
                    != YamlView::Text(key) by {
                    if i > 0 {
                        assert(rest[i - 1].0 != YamlView::Text(key));
                    }
                }
            }
            if forall|i: int|
                0 <= i < entries.len() ==> (#[trigger] entries[i]).0 != YamlView::Text(key) {
                assert forall|i: int| 0 <= i < rest.len() implies (#[trigger] rest[i]).0
                    != YamlView::Text(key) by {
                    assert(entries[i + 1].0 != YamlView::Text(key));
                }
            }
        }
    }
}

/// A tag in front of a value does not change what it is read as.
pub proof fn tags_are_looked_through(tag: Seq<char>, v: YamlView, key: Seq<char>)
    ensures
        YamlView::Tagged(tag, Box::new(v)).entry(key) == v.entry(key),
        YamlView::Tagged(tag, Box::new(v)).as_signed() == v.as_signed(),
        YamlView::Tagged(tag, Box::new(v)).as_truth() == v.as_truth(),
        YamlView::Tagged(tag, Box::new(v)).as_text() == v.as_text(),
        YamlView::Tagged(tag, Box::new(v)).as_list() == v.as_list(),
        YamlView::Text(key).as_text() == Some(key),
        YamlView::Text(key).as_signed() is None && YamlView::Text(key).as_truth() is None,
{
    let w = YamlView::Tagged(tag, Box::new(v));
    assert(w.untagged() == v.untagged());
    assert(YamlView::Text(key).untagged() == YamlView::Text(key));
}

// --------------------------------------------------------------------- crossing

/// A packet shows its payload, its type and its time; one of nothing shows its
/// time alone, and belongs to nobody.
pub proof fn packets_show_what_they_are(p: Packet)
    ensures
        shown_packet(p).timestamp == p.stamp.0,
        shown_packet(p).payload == p.payload,
        shown_packet(p).owner == p.payload,
        p.payload is Some ==> shown_packet(p).type_id == p.kind,
        !shown_packet(p).releasable,
{
}

/// A packet that comes back from the other side keeps its time. A payload that
/// the engine keeps counts before one that it does not, with the type and the
/// size that the engine knows; a foreign one has the type that is said and
/// counts no bytes.
pub proof fn packets_are_taken_over(fp: FlowPacket, kind: u64, bytes: u64)
    ensures
        taken_packet(fp, kind, bytes).stamp.0 == fp.timestamp,
        fp.owner is Some ==> taken_packet(fp, kind, bytes).payload == fp.owner && taken_packet(
            fp,
            kind,
            bytes,
        ).kind == kind && taken_packet(fp, kind, bytes).bytes == bytes,
        fp.owner is None ==> taken_packet(fp, kind, bytes).payload == fp.payload && taken_packet(
            fp,
            kind,
            bytes,
        ).bytes == 0,
        fp.owner is None && fp.payload is Some ==> taken_packet(fp, kind, bytes).kind
            == fp.type_id,
{
}

/// What a packet holds can be written to exactly if the caller owns the packet
/// and it holds what is asked for.
pub proof fn owned_content_can_be_written(p: FlowPacket, content: Result<Builtin, ErrorView>)
    ensures
        write_problem(Some(&p), content) is None <==> p.owner is Some && content matches Ok(
            Builtin::Buffer(_),
        ),
        write_bytes_problem(Some(&p), content) is None <==> p.owner is Some && content matches Ok(
            Builtin::Bytes(_),
        ),
        write_problem(None, content) is Some,
        write_bytes_problem(None, content) is Some,
        p.owner is Some && content is Err ==> write_problem(Some(&p), content) == Some(
            content->Err_0,
        ) && write_bytes_problem(Some(&p), content) == Some(content->Err_0),
{
}

/// Foreign memory is copied exactly if it is described well, and used as it is
/// exactly if it can be released besides.
pub proof fn described_memory_is_taken(d: BufferDescriptor, element_size: usize, releasable: bool)
    ensures
        copy_problem(Some(&d), element_size) is None <==> d.extent(element_size) is Ok,
        adopt_problem(Some(&d), element_size, releasable) is None <==> releasable && d.extent(
            element_size,
        ) is Ok,
        copy_problem(None, element_size) is Some,
        adopt_problem(None, element_size, releasable) is Some,
{
}

/// In a packed copy of foreign memory the element with some coordinates has the
/// bytes that lie where its coordinates, each times the stride of its
/// dimension, lead; and the elements follow each other with the last dimension
/// running fastest.
pub proof fn copies_keep_every_element(
    window: Seq<u8>,
    d: BufferDescriptor,
    element_size: usize,
    x: Extent,
    out: Seq<u8>,
    at: Seq<int>,
    b: int,
)
    requires
        packed_copy(window, d, element_size, x, out),
        1 <= d.ndim <= d.shape@.len(),
        d.ndim <= d.strides@.len(),
        d.ndim <= at.len(),
        x.count == elements(d.shape@, d.ndim as nat),
        forall|i: int| 0 <= i < d.ndim ==> 0 <= (#[trigger] at[i]) < d.shape@[i],
        0 <= b < element_size,
    ensures
        out[element_number(d.shape@, at, d.ndim as nat) * element_size + b] == window[stride_sum(
            d.strides@,
            at,
            d.ndim as nat,
        ) - x.low + b],
{
    elements_lie_at_their_coordinates(d.shape@, d.strides@, at, d.ndim as nat);
    let e = element_number(d.shape@, at, d.ndim as nat);
    assert(out[e * element_size + b] == window[offset_of(
        d.shape@,
        d.strides@,
        d.ndim as nat,
        e,
    ) - x.low + b]);
}

// --------------------------------------------------------------------- counters

/// Counting raises the counter that is named by one and no other; a counter
/// that was never counted stood at zero.
pub proof fn counters_are_raised_by_one(s: SharedView, name: Seq<char>, other: Seq<char>)
    requires
        s.counter(name) < i64::MAX,
    ensures
        tallied(s, name).counter(name) == s.counter(name) + 1,
        other != name ==> tallied(s, name).counter(other) == s.counter(other),
        !s.counters.contains_key(name) ==> s.counter(name) == 0,
        tallied(s, name).log == s.log && tallied(s, name).error == s.error,
{
}

/// What a node says is logged under its name if somebody listens, and nowhere
/// if nobody does.
pub proof fn nodes_are_quoted(
    s: SharedView,
    c: ContextView,
    listening: bool,
    level: i32,
    msg: Seq<char>,
)
    requires
        !c.node_name.contains('\0'),
        !msg.contains('\0'),
    ensures
        !listening ==> said(s, c, listening, level, msg) == s,
        listening ==> {
            let after = said(s, c, listening, level, msg);
            &&& after.log.len() == s.log.len() + 1
            &&& after.log.drop_last() == s.log
            &&& after.log.last().level == level
            &&& mentions_text(after.log.last().text, c.node_name)
            &&& mentions_text(after.log.last().text, msg)
        },
{
    if listening {
        let a = "["@;
        let b = "] "@;
        let w = a + c.node_name + b + msg;
        assert(!w.contains('\0')) by {
            reveal_strlit("[");
            reveal_strlit("] ");
            joined_texts_stay_clean(a, c.node_name, '\0');
            joined_texts_stay_clean(a + c.node_name, b, '\0');
            joined_texts_stay_clean(a + c.node_name + b, msg, '\0');
        }
        let after = said(s, c, listening, level, msg);
        assert(after.log.drop_last() =~= s.log);
        let at = a.len() as int;
        assert(w.subrange(at, at + c.node_name.len()) =~= c.node_name);
        let from = at + c.node_name.len() + b.len();
        assert(w.subrange(from, from + msg.len()) =~= msg);
    }
}

/// A type is declared for the port that is meant and for no other; one beyond
/// the last port changes nothing.
pub proof fn types_are_declared_port_by_port(list: Seq<u64>, idx: usize, value: u64, k: int)
    requires
        0 <= k < list.len(),
    ensures
        changed_at(list, idx, value).len() == list.len(),
        k == idx ==> changed_at(list, idx, value)[k] == value,
        k != idx ==> changed_at(list, idx, value)[k] == list[k],
{
}

/// A packet that refers to what the engine keeps gives that reference back, and
/// never what it points to; a payload of the other side is released by the
/// function that came with it.
pub proof fn packets_give_back_what_they_hold(fp: FlowPacket)
    ensures
        fp.owner matches Some(x) ==> release_of(fp) == Release::Reference(x),
        fp.owner is None && fp.releasable ==> (fp.payload matches Some(x) ==> release_of(fp)
            == Release::Foreign(x)),
        fp.owner is None && !fp.releasable ==> release_of(fp) is Nothing,
{
}

} // verus!

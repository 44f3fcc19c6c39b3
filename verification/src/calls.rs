//! The boundary to programs in other languages: what a kernel asks of the
//! context of its call, and of its contract. A context that is null gets an
//! answer too.

use crate::boundary::{
    context_of, is_port_id, is_port_index, option_number, option_text, option_truth, port_id,
    port_index, text_of, Contract, INVALID_ID,
};
use crate::context::{Context, ContextView};
use crate::options::{at_path, number_of, options_json};
use crate::packet::Packet;
use crate::port::{PortSpecView, PortTable};
use crate::runtime::{interned, without_zero, GraphShared, SharedView};
use crate::timestamp::Timestamp;
use crate::yaml::YamlView;
use vstd::prelude::*;

verus! {

// -------------------------------------------------------------------- the ports

/// The name of a port; empty if there is none of that number.
pub open spec fn port_name_at(ports: Seq<PortSpecView>, idx: usize) -> Seq<char> {
    if idx < ports.len() {
        ports[idx as int].name
    } else {
        ""@
    }
}

fn port_name(ports: &PortTable, idx: usize) -> (r: &str)
    ensures
        r@ == port_name_at(ports@, idx),
{
    match ports.name(idx) {
        Some(s) => s,
        None => "",
    }
}

/// The name of an input port; empty if there is none of that number.
pub fn flow_contract_input_name(c: Option<&Contract>, idx: usize) -> (r: String)
    ensures
        r@ == without_zero(
            match c {
                Some(x) => port_name_at(x@.inputs, idx),
                None => ""@,
            },
        ),
{
    interned(
        match c {
            Some(x) => port_name(&x.inputs, idx),
            None => "",
        },
    )
}

/// The name of an output port; empty if there is none of that number.
pub fn flow_contract_output_name(c: Option<&Contract>, idx: usize) -> (r: String)
    ensures
        r@ == without_zero(
            match c {
                Some(x) => port_name_at(x@.outputs, idx),
                None => ""@,
            },
        ),
{
    interned(
        match c {
            Some(x) => port_name(&x.outputs, idx),
            None => "",
        },
    )
}

/// How many input ports the node has.
pub fn flow_ctx_num_inputs(c: Option<&Context>) -> (r: usize)
    ensures
        r == match c {
            Some(x) => x@.in_ports.len(),
            None => 0,
        },
{
    match c {
        Some(x) => x.in_ports().len(),
        None => 0,
    }
}

/// How many output ports the node has.
pub fn flow_ctx_num_outputs(c: Option<&Context>) -> (r: usize)
    ensures
        r == match c {
            Some(x) => x@.out_ports.len(),
            None => 0,
        },
{
    match c {
        Some(x) => x.out_ports().len(),
        None => 0,
    }
}

/// The input port that answers to a tag and an index.
pub fn flow_ctx_input_id(c: Option<&Context>, tag: Option<&str>, index: usize) -> (r: usize)
    ensures
        match c {
            Some(x) => is_port_id(x@.in_ports, text_of(tag), index, r),
            None => r == INVALID_ID,
        },
{
    match c {
        Some(x) => port_id(x.in_ports(), tag, index),
        None => INVALID_ID,
    }
}

/// The output port that answers to a tag and an index.
pub fn flow_ctx_output_id(c: Option<&Context>, tag: Option<&str>, index: usize) -> (r: usize)
    ensures
        match c {
            Some(x) => is_port_id(x@.out_ports, text_of(tag), index, r),
            None => r == INVALID_ID,
        },
{
    match c {
        Some(x) => port_id(x.out_ports(), tag, index),
        None => INVALID_ID,
    }
}

/// The input port of a name.
pub fn flow_ctx_input_index(c: Option<&Context>, name: Option<&str>) -> (r: usize)
    ensures
        match c {
            Some(x) => is_port_index(x@.in_ports, text_of(name), r),
            None => r == INVALID_ID,
        },
{
    match c {
        Some(x) => port_index(x.in_ports(), name),
        None => INVALID_ID,
    }
}

/// The output port of a name.
pub fn flow_ctx_output_index(c: Option<&Context>, name: Option<&str>) -> (r: usize)
    ensures
        match c {
            Some(x) => is_port_index(x@.out_ports, text_of(name), r),
            None => r == INVALID_ID,
        },
{
    match c {
        Some(x) => port_index(x.out_ports(), name),
        None => INVALID_ID,
    }
}

/// The name of an input port; empty if there is none of that number.
pub fn flow_ctx_input_name(c: Option<&Context>, idx: usize) -> (r: String)
    ensures
        r@ == without_zero(
            match c {
                Some(x) => port_name_at(x@.in_ports, idx),
                None => ""@,
            },
        ),
{
    interned(
        match c {
            Some(x) => port_name(x.in_ports(), idx),
            None => "",
        },
    )
}

/// The name of an output port; empty if there is none of that number.
pub fn flow_ctx_output_name(c: Option<&Context>, idx: usize) -> (r: String)
    ensures
        r@ == without_zero(
            match c {
                Some(x) => port_name_at(x@.out_ports, idx),
                None => ""@,
            },
        ),
{
    interned(
        match c {
            Some(x) => port_name(x.out_ports(), idx),
            None => "",
        },
    )
}

// ------------------------------------------------------------------- the node

/// The name of the node.
pub fn flow_ctx_node_name(c: Option<&Context>) -> (r: String)
    ensures
        r@ == without_zero(
            match c {
                Some(x) => x@.node_name,
                None => ""@,
            },
        ),
{
    interned(
        match c {
            Some(x) => x.node_name(),
            None => "",
        },
    )
}

/// The name of the kernel.
pub fn flow_ctx_kernel_name(c: Option<&Context>) -> (r: String)
    ensures
        r@ == without_zero(
            match c {
                Some(x) => x@.kernel_name,
                None => ""@,
            },
        ),
{
    interned(
        match c {
            Some(x) => x.kernel_name(),
            None => "",
        },
    )
}

/// Why the node is closed.
pub fn flow_ctx_close_reason(c: Option<&Context>) -> (r: i32)
    ensures
        r == match c {
            Some(x) => x@.close_reason,
            None => 0,
        },
{
    match c {
        Some(x) => x.close_reason(),
        None => 0,
    }
}

/// Logs a line with the name of the node in front, if anyone listens.
pub fn flow_ctx_log(
    c: Option<&Context>,
    shared: &mut GraphShared,
    listening: bool,
    level: i32,
    msg: Option<&str>,
)
    ensures
        final(shared)@ == match (context_of(c), text_of(msg)) {
            (Some(x), Some(m)) => if listening {
                old(shared)@.noted(level, "["@ + x.node_name + "] "@ + m)
            } else {
                old(shared)@
            },
            _ => old(shared)@,
        },
{
    if let Some(x) = c {
        if let Some(m) = msg {
            x.log(shared, listening, level, m);
        }
    }
}

/// Says why the call fails.
pub fn flow_ctx_set_error(c: Option<&mut Context>, msg: Option<&str>)
    ensures
        c matches Some(x) ==> final(x)@ == (match msg {
            Some(m) => ContextView { error_msg: Some(m@), ..x@ },
            None => x@,
        }),
{
    if let Some(x) = c {
        if let Some(m) = msg {
            x.set_error(m);
        }
    }
}

/// Says that a source kernel has produced all that it has.
pub fn lmflow_ctx_source_done(c: Option<&mut Context>)
    ensures
        c matches Some(x) ==> final(x)@ == (ContextView { source_done: true, ..x@ }),
{
    if let Some(x) = c {
        x.set_source_done();
    }
}

/// Gives the thread of a source kernel back and asks for another call after
/// some milliseconds.
pub fn lmflow_ctx_source_yield(c: Option<&mut Context>, delay_ms: u64)
    ensures
        c matches Some(x) ==> final(x)@ == (ContextView { source_yield: Some(delay_ms), ..x@ }),
{
    if let Some(x) = c {
        x.set_source_yield(delay_ms);
    }
}

/// Adds to a counter of the graph.
pub fn flow_ctx_counter_add(shared: Option<&mut GraphShared>, name: Option<&str>, delta: i64)
    requires
        shared matches Some(x) ==> (name matches Some(n) ==> i64::MIN <= x@.counter(n@) + delta
            <= i64::MAX),
    ensures
        shared matches Some(x) ==> final(x)@ == (match name {
            Some(n) => SharedView {
                counters: x@.counters.insert(n@, (x@.counter(n@) + delta) as i64),
                ..x@
            },
            None => x@,
        }),
{
    if let Some(x) = shared {
        if let Some(n) = name {
            x.counter_add(n, delta);
        }
    }
}

// ---------------------------------------------------------------- the packets

/// The packet of an input port.
pub fn flow_ctx_input(c: Option<&Context>, idx: usize) -> (r: Option<Packet>)
    ensures
        r == match c {
            Some(x) => x@.input_at(idx as int, 0),
            None => None,
        },
{
    match c {
        Some(x) => x.input(idx),
        None => None,
    }
}

/// The time stamp of the inputs.
pub fn flow_ctx_input_timestamp(c: Option<&Context>) -> (r: i64)
    ensures
        r == match c {
            Some(x) => x@.input_ts.0,
            None => i64::MIN,
        },
{
    match c {
        Some(x) => x.input_timestamp().0,
        None => Timestamp::unset().0,
    }
}

/// Takes the packet of an input port; an empty one if there is none.
pub fn flow_ctx_take_input(c: Option<&mut Context>, idx: usize) -> (r: Packet)
    ensures
        match c {
            Some(x) => {
                &&& final(x)@ == (if idx < x@.inputs.len() {
                    ContextView { inputs: x@.inputs.update(idx as int, None), ..x@ }
                } else {
                    x@
                })
                &&& r == (if idx < x@.inputs.len() && x@.inputs[idx as int] is Some {
                    x@.inputs[idx as int]->Some_0
                } else {
                    nothing()
                })
            },
            None => r == nothing(),
        },
{
    match c {
        Some(x) => x.take_input(idx),
        None => Packet::empty(),
    }
}

/// A packet without a payload and without a time stamp.
pub open spec fn nothing() -> Packet {
    Packet { payload: None, stamp: Timestamp(i64::MIN), kind: 0, bytes: 0 }
}

/// Promises that an output port brings nothing before a time.
pub fn flow_ctx_set_next_ts_bound(c: Option<&mut Context>, out_idx: usize, bound: i64)
    ensures
        c matches Some(x) ==> final(x)@ == (if out_idx < x@.bounds.len() {
            ContextView {
                bounds: x@.bounds.update(out_idx as int, Some(Timestamp(bound))),
                ..x@
            }
        } else {
            x@
        }),
{
    if let Some(x) = c {
        x.set_next_bound(out_idx, Timestamp(bound));
    }
}

/// Whether the node has a constant input of a name.
pub fn flow_ctx_has_side_packet(c: Option<&Context>, name: Option<&str>) -> (r: bool)
    ensures
        r == match (context_of(c), text_of(name)) {
            (Some(x), Some(n)) => x.side_packets.contains_key(n),
            _ => false,
        },
{
    flow_ctx_side_packet(c, name).is_some()
}

/// The constant input of a name.
pub fn flow_ctx_side_packet(c: Option<&Context>, name: Option<&str>) -> (r: Option<Packet>)
    ensures
        r == match (context_of(c), text_of(name)) {
            (Some(x), Some(n)) => if x.side_packets.contains_key(n) {
                Some(x.side_packets[n])
            } else {
                None
            },
            _ => None,
        },
{
    match c {
        Some(x) => match name {
            Some(n) => x.side_packet(n),
            None => None,
        },
        None => None,
    }
}

// ---------------------------------------------------------------- the options

/// Whether an option is there.
pub fn flow_ctx_has_option(c: Option<&Context>, key: Option<&str>) -> (r: bool)
    ensures
        r == match (context_of(c), text_of(key)) {
            (Some(x), Some(k)) => at_path(x.options, k) is Some,
            _ => false,
        },
{
    match c {
        Some(x) => match key {
            Some(k) => x.options().has(k),
            None => false,
        },
        None => false,
    }
}

/// The whole number that an option is, or another in its place.
pub fn flow_ctx_option_i64(c: Option<&Context>, key: Option<&str>, otherwise: i64) -> (r: i64)
    ensures
        r == match option_number(context_of(c), text_of(key)) {
            Some(v) => v,
            None => otherwise,
        },
{
    match c {
        Some(x) => match key {
            Some(k) => match x.options().i64(k) {
                Some(v) => v,
                None => otherwise,
            },
            None => otherwise,
        },
        None => otherwise,
    }
}

/// The truth value that an option is, or another in its place.
pub fn flow_ctx_option_bool(c: Option<&Context>, key: Option<&str>, otherwise: bool) -> (r: bool)
    ensures
        r == match option_truth(context_of(c), text_of(key)) {
            Some(v) => v,
            None => otherwise,
        },
{
    match c {
        Some(x) => match key {
            Some(k) => match x.options().bool(k) {
                Some(v) => v,
                None => otherwise,
            },
            None => otherwise,
        },
        None => otherwise,
    }
}

/// The text that an option is, or another in its place.
pub fn flow_ctx_option_str(
    c: Option<&Context>,
    key: Option<&str>,
    otherwise: Option<&str>,
) -> (r: Option<String>)
    ensures
        (match r {
            Some(s) => Some(s@),
            None => None,
        }) == match option_text(context_of(c), text_of(key)) {
            Some(v) => Some(without_zero(v)),
            None => text_of(otherwise),
        },
{
    let found: Option<&str> = match c {
        Some(x) => match key {
            Some(k) => x.options().str(k),
            None => None,
        },
        None => None,
    };
    match found {
        Some(v) => Some(interned(v)),
        None => match otherwise {
            Some(t) => Some(t.to_owned()),
            None => None,
        },
    }
}

/// How long the list is that an option is; zero if it is none.
pub fn flow_ctx_option_count(c: Option<&Context>, key: Option<&str>) -> (r: usize)
    ensures
        r == option_list(context_of(c), text_of(key)).len(),
{
    match c {
        Some(x) => match key {
            Some(k) => x.options().count(k),
            None => 0,
        },
        None => 0,
    }
}

/// The list that an option is; empty if it is none.
pub open spec fn option_list(c: Option<ContextView>, key: Option<Seq<char>>) -> Seq<YamlView> {
    match (c, key) {
        (Some(x), Some(k)) => match at_path(x.options, k) {
            Some(v) => match v.as_list() {
                Some(list) => list,
                None => Seq::empty(),
            },
            None => Seq::empty(),
        },
        _ => Seq::empty(),
    }
}

/// Copies the numbers of the list that an option is, as many as there is room
/// for, and returns how long the list is. What is no integer is copied as
/// zero.
pub fn flow_ctx_option_i64_array(c: Option<&Context>, key: Option<&str>, out: &mut Vec<i64>) -> (r:
    usize)
    ensures
        ({
            let list = option_list(context_of(c), text_of(key));
            &&& r == list.len()
            &&& final(out)@.len() == old(out)@.len()
            &&& forall|k: int|
                0 <= k < final(out)@.len() ==> #[trigger] final(out)@[k] == (if k < r {
                    match number_of(list[k]) {
                        Some(n) => n,
                        None => 0,
                    }
                } else {
                    old(out)@[k]
                })
        }),
{
    match c {
        Some(x) => match key {
            Some(k) => x.options().i64_array(k, out),
            None => 0,
        },
        None => 0,
    }
}

/// Copies the texts of the list that an option is, as many as there is room
/// for, and returns how long the list is. What is no text is copied as an
/// empty one.
pub fn flow_ctx_option_str_array(
    c: Option<&Context>,
    key: Option<&str>,
    out: &mut Vec<String>,
) -> (r: usize)
    ensures
        ({
            let list = option_list(context_of(c), text_of(key));
            &&& r == list.len()
            &&& final(out)@.len() == old(out)@.len()
            &&& forall|k: int|
                0 <= k < final(out)@.len() ==> (#[trigger] final(out)@[k])@ == (if k < r {
                    match list[k].as_text() {
                        Some(s) => without_zero(s),
                        None => Seq::<char>::empty(),
                    }
                } else {
                    old(out)@[k]@
                })
        }),
{
    match c {
        Some(x) => match key {
            Some(k) => x.options().str_array(k, out),
            None => 0,
        },
        None => 0,
    }
}

/// The options as JSON.
pub fn flow_ctx_options_json(c: Option<&Context>) -> (r: String)
    ensures
        r@ == without_zero(
            match c {
                Some(x) => options_json(x@.options),
                None => "{}"@,
            },
        ),
{
    interned(
        match c {
            Some(x) => x.options().json(),
            None => "{}",
        },
    )
}

} // verus!

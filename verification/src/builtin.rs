//! The kernels that every graph has: one that passes packets through and one
//! that consumes them. Neither looks at what a packet carries.

use crate::boundary::{
    changed_at, flow_contract_input_set_any, flow_contract_output_set_any, Contract, ContractView,
};
use crate::context::{Context, ContextView};
use crate::runtime::{GraphShared, SharedView, LOG_DEBUG, LOG_INFO};
use crate::status::{failure, Error};
use crate::text::{cat2, cat3, decimal_of_signed, signed_decimal};
use crate::text_map::TextMap;
use vstd::prelude::*;

verus! {

/// Hands the packet of its only input to its only output, without touching
/// what it carries. Registered as `PassThrough`.
#[derive(Debug)]
pub struct PassThrough {}

impl PassThrough {
    /// Any type in, any type out.
    pub fn get_contract(c: &mut Contract)
        ensures
            final(c)@ == (ContractView {
                input_types: changed_at(old(c)@.input_types, 0, 0),
                output_types: changed_at(old(c)@.output_types, 0, 0),
                ..old(c)@
            }),
    {
        flow_contract_input_set_any(Some(&mut *c), 0);
        flow_contract_output_set_any(Some(&mut *c), 0);
    }

    /// Passes the packet through.
    pub fn process(&mut self, cc: &mut Context) -> (r: Result<(), Error>)
        ensures
            failure(r) == old(cc)@.forward_problem(0, 0),
            final(cc)@ == (if r is Ok {
                old(cc)@.emitted(0, old(cc)@.inputs[0]->Some_0)
            } else {
                old(cc)@
            }),
    {
        cc.forward(0, 0)
    }
}

/// Consumes packets, so that a branch can end without the host reading it.
/// It counts what it consumed, in itself and in the counters of the graph.
/// Registered as `Sink`.
#[derive(Debug)]
pub struct Sink {
    count: i64,
}

impl View for Sink {
    type V = i64;

    closed spec fn view(&self) -> i64 {
        self.count
    }
}

/// The log after a node said something, if anybody listens.
pub open spec fn said(
    shared: SharedView,
    cc: ContextView,
    listening: bool,
    level: i32,
    msg: Seq<char>,
) -> SharedView {
    if listening {
        shared.noted(level, "["@ + cc.node_name + "] "@ + msg)
    } else {
        shared
    }
}

/// With a counter of the graph one higher.
pub open spec fn tallied(shared: SharedView, name: Seq<char>) -> SharedView {
    SharedView {
        counters: shared.counters.insert(name, (shared.counter(name) + 1) as i64),
        ..shared
    }
}

impl Sink {
    /// A sink that consumed nothing.
    pub fn new() -> (r: Sink)
        ensures
            r@ == 0,
    {
        Sink { count: 0 }
    }

    /// How many packets were consumed.
    pub fn count(&self) -> (r: i64)
        ensures
            r == self@,
    {
        self.count
    }

    /// Any type in, nothing out.
    pub fn get_contract(c: &mut Contract)
        ensures
            final(c)@ == (ContractView {
                input_types: changed_at(old(c)@.input_types, 0, 0),
                ..old(c)@
            }),
    {
        flow_contract_input_set_any(Some(c), 0);
    }

    /// Consumes a packet.
    pub fn process(
        &mut self,
        cc: &Context,
        shared: &mut GraphShared,
        listening: bool,
    ) -> (r: Result<(), Error>)
        requires
            old(self)@ < i64::MAX,
            old(shared)@.counter("sink.packets"@) < i64::MAX,
        ensures
            r is Ok,
            final(self)@ == old(self)@ + 1,
            final(shared)@ == tallied(
                said(
                    old(shared)@,
                    cc@,
                    listening,
                    LOG_DEBUG,
                    "received packet @ ts="@ + signed_decimal(cc@.input_ts.0 as int),
                ),
                "sink.packets"@,
            ),
    {
        if listening {
            let time = decimal_of_signed(cc.input_timestamp().0);
            let text = cat2("received packet @ ts=", time.as_str());
            cc.log(shared, listening, LOG_DEBUG, text.as_str());
        }
        shared.counter_add("sink.packets", 1);
        self.count = self.count + 1;
        Ok(())
    }

    /// Says how much was consumed.
    pub fn close(&mut self, cc: &Context, shared: &mut GraphShared, listening: bool) -> (r: Result<
        (),
        Error,
    >)
        requires
            old(shared)@.counter("sink.closed"@) < i64::MAX,
        ensures
            r is Ok,
            final(self)@ == old(self)@,
            final(shared)@ == tallied(
                said(
                    old(shared)@,
                    cc@,
                    listening,
                    LOG_INFO,
                    "processed "@ + signed_decimal(old(self)@ as int) + " packets in total"@,
                ),
                "sink.closed"@,
            ),
    {
        let number = decimal_of_signed(self.count);
        let text = cat3("processed ", number.as_str(), " packets in total");
        cc.log(shared, listening, LOG_INFO, text.as_str());
        shared.counter_add("sink.closed", 1);
        Ok(())
    }
}

/// The registry with the default kernels added, as far as their names are
/// free.
pub open spec fn with_defaults(
    registry: Map<Seq<char>, u64>,
    pass_through: u64,
    sink: u64,
) -> Map<Seq<char>, u64> {
    let first = if registry.contains_key("PassThrough"@) {
        registry
    } else {
        registry.insert("PassThrough"@, pass_through)
    };
    if first.contains_key("Sink"@) {
        first
    } else {
        first.insert("Sink"@, sink)
    }
}

/// Registers the default kernels. The registry maps names to the numbers by
/// which factories are known; a kernel of the host under the same name wins.
pub fn register_defaults(registry: &mut TextMap<u64>, pass_through: u64, sink: u64)
    ensures
        final(registry)@ == with_defaults(old(registry)@, pass_through, sink),
{
    if !registry.contains_key("PassThrough") {
        registry.insert("PassThrough".to_owned(), pass_through);
    }
    if !registry.contains_key("Sink") {
        registry.insert("Sink".to_owned(), sink);
    }
}

/// To register the default kernels again changes nothing, and no kernel of
/// the host is lost or replaced.
pub proof fn defaults_are_registered_once(
    registry: Map<Seq<char>, u64>,
    pass_through: u64,
    sink: u64,
    name: Seq<char>,
)
    ensures
        with_defaults(with_defaults(registry, pass_through, sink), pass_through, sink)
            == with_defaults(registry, pass_through, sink),
        registry.contains_key(name) ==> with_defaults(registry, pass_through, sink).contains_key(
            name,
        ) && with_defaults(registry, pass_through, sink)[name] == registry[name],
        with_defaults(registry, pass_through, sink).contains_key("PassThrough"@),
        with_defaults(registry, pass_through, sink).contains_key("Sink"@),
        !registry.contains_key("PassThrough"@) ==> with_defaults(
            registry,
            pass_through,
            sink,
        )["PassThrough"@] == pass_through,
        !registry.contains_key("Sink"@) ==> with_defaults(registry, pass_through, sink)["Sink"@]
            == sink,
        with_defaults(registry, pass_through, sink).contains_key(name) ==> registry.contains_key(
            name,
        ) || name == "PassThrough"@ || name == "Sink"@,
{
    reveal_strlit("PassThrough");
    reveal_strlit("Sink");
    assert("PassThrough"@.len() != "Sink"@.len());
}

} // verus!

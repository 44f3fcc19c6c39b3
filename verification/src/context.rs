//! The context of a kernel call: what the kernel reads, and where it puts
//! what it produces.
//!
//! What a kernel emits does not go downstream at once. It waits in the
//! context until the call has returned.

use crate::config::optional_text;
use crate::options::Options;
use crate::ownership::{context_within, lists_hold, named_hold, without};
use crate::packet::{find_misfit, first_misfit, no_packets, no_slots, packet_lists, Packet};
use crate::port::{PortSpecView, PortTable};
use crate::runtime::{GraphShared, CLOSE_NORMAL};
use crate::status::{failure, Error, ErrorView};
use crate::text::{
    cat2, cat4, cat5, cat7, decimal, decimal_of_signed, decimal_of_size, signed_decimal,
};
use crate::text_map::TextMap;
use crate::timestamp::Timestamp;
use crate::yaml::YamlView;
use vstd::prelude::*;

verus! {

/// The context of the calls of one kernel.
pub struct Context {
    inputs: Vec<Option<Packet>>,
    input_batches: Vec<Vec<Packet>>,
    staging: Vec<Vec<Packet>>,
    next_bounds: Vec<Option<Timestamp>>,
    input_ts: Timestamp,
    node_name: String,
    kernel_name: String,
    in_ports: PortTable,
    out_ports: PortTable,
    options: Options,
    side_packets: TextMap<Packet>,
    inputs_done: Vec<bool>,
    error_msg: Option<String>,
    close_reason: i32,
    source_done: bool,
    source_yield: Option<u64>,
}

#[verifier::ext_equal]
pub struct ContextView {
    /// The packet of each input port. `None`: there is none, or the kernel
    /// took it.
    pub inputs: Seq<Option<Packet>>,
    /// The packets of each input port that is read in batches.
    pub batches: Seq<Seq<Packet>>,
    /// What was emitted on each output port.
    pub staging: Seq<Seq<Packet>>,
    /// The bounds that the kernel set for its output ports.
    pub bounds: Seq<Option<Timestamp>>,
    pub input_ts: Timestamp,
    pub node_name: Seq<char>,
    pub kernel_name: Seq<char>,
    pub in_ports: Seq<PortSpecView>,
    pub out_ports: Seq<PortSpecView>,
    pub options: YamlView,
    pub side_packets: Map<Seq<char>, Packet>,
    /// Which input ports will bring nothing more.
    pub inputs_done: Seq<bool>,
    /// What the kernel said of its failure.
    pub error_msg: Option<Seq<char>>,
    pub close_reason: i32,
    /// Whether a source kernel said that it is through.
    pub source_done: bool,
    /// After how many milliseconds a source kernel wants to be called again.
    pub source_yield: Option<u64>,
}

impl View for Context {
    type V = ContextView;

    closed spec fn view(&self) -> ContextView {
        ContextView {
            inputs: self.inputs@,
            batches: packet_lists(self.input_batches@),
            staging: packet_lists(self.staging@),
            bounds: self.next_bounds@,
            input_ts: self.input_ts,
            node_name: self.node_name@,
            kernel_name: self.kernel_name@,
            in_ports: self.in_ports@,
            out_ports: self.out_ports@,
            options: self.options@,
            side_packets: self.side_packets@,
            inputs_done: self.inputs_done@,
            error_msg: optional_text(self.error_msg),
            close_reason: self.close_reason,
            source_done: self.source_done,
            source_yield: self.source_yield,
        }
    }
}

/// As many bounds that are not set.
pub open spec fn no_bounds(n: nat) -> Seq<Option<Timestamp>> {
    Seq::new(n, |i: int| None::<Timestamp>)
}

impl ContextView {
    /// Whether there is a place for every port.
    pub open spec fn fits(self) -> bool {
        &&& self.inputs.len() == self.in_ports.len()
        &&& self.batches.len() == self.in_ports.len()
        &&& self.inputs_done.len() == self.in_ports.len()
        &&& self.staging.len() == self.out_ports.len()
        &&& self.bounds.len() == self.out_ports.len()
    }

    /// Without anything of an earlier call.
    pub open spec fn fresh(self) -> ContextView {
        ContextView {
            inputs: no_slots(self.inputs.len()),
            batches: no_packets(self.batches.len()),
            staging: no_packets(self.staging.len()),
            bounds: no_bounds(self.bounds.len()),
            input_ts: Timestamp(i64::MIN),
            inputs_done: Seq::new(self.inputs_done.len(), |i: int| false),
            error_msg: None,
            close_reason: CLOSE_NORMAL,
            source_done: false,
            source_yield: None,
            ..self
        }
    }

    /// Without its inputs.
    pub open spec fn released(self) -> ContextView {
        ContextView {
            inputs: no_slots(self.inputs.len()),
            batches: no_packets(self.batches.len()),
            ..self
        }
    }

    /// Without anything that was produced.
    pub open spec fn discarded(self) -> ContextView {
        ContextView {
            staging: no_packets(self.staging.len()),
            bounds: no_bounds(self.bounds.len()),
            ..self
        }
    }

    /// The packet number `k` of an input port: of its batch where it has one,
    /// else of its slot.
    pub open spec fn input_at(self, port: int, k: int) -> Option<Packet> {
        if 0 <= port < self.batches.len() && self.batches[port].len() > 0 {
            if 0 <= k < self.batches[port].len() {
                Some(self.batches[port][k])
            } else {
                None
            }
        } else if k == 0 && 0 <= port < self.inputs.len() {
            self.inputs[port]
        } else {
            None
        }
    }

    /// How many packets an input port has.
    pub open spec fn input_count(self, port: int) -> nat {
        if 0 <= port < self.batches.len() && self.batches[port].len() > 0 {
            self.batches[port].len()
        } else if 0 <= port < self.inputs.len() && self.inputs[port] is Some {
            1
        } else {
            0
        }
    }

    /// The packet that is staged when `p` is emitted: one without a time
    /// stamp gets that of the input.
    pub open spec fn stamped(self, p: Packet) -> Packet {
        if p.stamp.0 == i64::MIN {
            Packet { stamp: self.input_ts, ..p }
        } else {
            p
        }
    }

    /// After `p` was emitted on an output port that exists.
    pub open spec fn emitted(self, port: int, p: Packet) -> ContextView {
        ContextView {
            staging: self.staging.update(port, self.staging[port].push(self.stamped(p))),
            ..self
        }
    }

    /// Why nothing can be emitted on an output port.
    pub open spec fn emit_problem(self, port: usize) -> Option<ErrorView> {
        if port < self.staging.len() {
            None
        } else {
            Some(
                ErrorView::InvalidArg(
                    "node `"@ + self.node_name + "`: emit output port index "@ + decimal(
                        port as nat,
                    ) + " out of range (of "@ + decimal(self.staging.len()) + " total)"@,
                ),
            )
        }
    }

    /// Why an input port cannot be passed through.
    pub open spec fn forward_problem(self, from: usize, port: usize) -> Option<ErrorView> {
        if from < self.inputs.len() && self.inputs[from as int] is Some {
            self.emit_problem(port)
        } else {
            Some(
                ErrorView::InvalidArg(
                    "node `"@ + self.node_name + "`: forward input port "@ + decimal(from as nat)
                        + " is empty or out of range"@,
                ),
            )
        }
    }

    /// The failure of a call that returned a status code.
    pub open spec fn call_error(self, code: i32) -> ErrorView {
        let detail = match self.error_msg {
            Some(m) => m,
            None => "returned status code "@ + signed_decimal(code as int),
        };
        ErrorView::Kernel("["@ + self.node_name + "] "@ + detail)
    }
}

/// As many empty lists of packets.
fn empty_lists(n: usize) -> (r: Vec<Vec<Packet>>)
    ensures
        packet_lists(r@) == no_packets(n as nat),
{
    let mut lists: Vec<Vec<Packet>> = Vec::new();
    for i in 0..n
        invariant
            lists@.len() == i,
            forall|k: int| 0 <= k < i ==> (#[trigger] lists@[k])@.len() == 0,
    {
        lists.push(Vec::new());
    }
    assert(packet_lists(lists@) =~~= no_packets(n as nat));
    lists
}

/// As many empty slots.
fn empty_slots(n: usize) -> (r: Vec<Option<Packet>>)
    ensures
        r@ == no_slots(n as nat),
{
    let mut slots: Vec<Option<Packet>> = Vec::new();
    for i in 0..n
        invariant
            slots@ == no_slots(i as nat),
    {
        slots.push(None);
        assert(slots@ =~= no_slots((i + 1) as nat));
    }
    slots
}

/// As many bounds that are not set.
fn unset_bounds(n: usize) -> (r: Vec<Option<Timestamp>>)
    ensures
        r@ == no_bounds(n as nat),
{
    let mut bounds: Vec<Option<Timestamp>> = Vec::new();
    for i in 0..n
        invariant
            bounds@ == no_bounds(i as nat),
    {
        bounds.push(None);
        assert(bounds@ =~= no_bounds((i + 1) as nat));
    }
    bounds
}

/// As many times `false`.
fn all_false(n: usize) -> (r: Vec<bool>)
    ensures
        r@ == Seq::new(n as nat, |i: int| false),
{
    let mut flags: Vec<bool> = Vec::new();
    for i in 0..n
        invariant
            flags@ == Seq::new(i as nat, |k: int| false),
    {
        flags.push(false);
        assert(flags@ =~= Seq::new((i + 1) as nat, |k: int| false));
    }
    flags
}

impl Context {
    /// A context that no call has used.
    pub fn new(
        node_name: String,
        kernel_name: String,
        in_ports: PortTable,
        out_ports: PortTable,
        options: Options,
        side_packets: TextMap<Packet>,
    ) -> (c: Context)
        ensures
            c@ == c@.fresh(),
            c@.fits(),
            c@.node_name == node_name@,
            c@.kernel_name == kernel_name@,
            c@.in_ports == in_ports@,
            c@.out_ports == out_ports@,
            c@.options == options@,
            c@.side_packets == side_packets@,
    {
        let inputs: usize = in_ports.len();
        let outputs: usize = out_ports.len();
        let c = Context {
            inputs: empty_slots(inputs),
            input_batches: empty_lists(inputs),
            staging: empty_lists(outputs),
            next_bounds: unset_bounds(outputs),
            input_ts: Timestamp::unset(),
            node_name,
            kernel_name,
            in_ports,
            out_ports,
            options,
            side_packets,
            inputs_done: all_false(inputs),
            error_msg: None,
            close_reason: CLOSE_NORMAL,
            source_done: false,
            source_yield: None,
        };
        assert(c@ =~= c@.fresh());
        c
    }

    /// Forgets the call before.
    pub fn reset(&mut self)
        ensures
            final(self)@ == old(self)@.fresh(),
    {
        self.inputs = empty_slots(self.inputs.len());
        self.input_batches = empty_lists(self.input_batches.len());
        self.staging = empty_lists(self.staging.len());
        self.next_bounds = unset_bounds(self.next_bounds.len());
        self.input_ts = Timestamp::unset();
        self.error_msg = None;
        self.source_done = false;
        self.source_yield = None;
        self.inputs_done = all_false(self.inputs_done.len());
        self.close_reason = CLOSE_NORMAL;
        assert(self@ =~= old(self)@.fresh());
    }

    /// Lets go of the inputs. A kernel further down can then be the only one
    /// that holds a payload.
    pub fn clear_inputs(&mut self)
        ensures
            final(self)@ == old(self)@.released(),
    {
        self.inputs = empty_slots(self.inputs.len());
        self.input_batches = empty_lists(self.input_batches.len());
        assert(self@ =~= old(self)@.released());
    }

    /// Throws away what was produced.
    pub fn discard_staging(&mut self)
        ensures
            final(self)@ == old(self)@.discarded(),
    {
        self.staging = empty_lists(self.staging.len());
        self.next_bounds = unset_bounds(self.next_bounds.len());
        assert(self@ =~= old(self)@.discarded());
    }

    /// The type of the first packet produced on an output port that has a
    /// payload of another type than `want`.
    pub fn staged_misfit(&self, idx: usize, want: u64) -> (r: Option<u64>)
        ensures
            r == (if idx < self@.staging.len() {
                first_misfit(self@.staging[idx as int], want)
            } else {
                None
            }),
    {
        if idx < self.staging.len() {
            find_misfit(&self.staging[idx], want)
        } else {
            None
        }
    }

    /// Forgets what the kernel said of a failure.
    pub fn clear_error(&mut self)
        ensures
            final(self)@ == (ContextView { error_msg: None, ..old(self)@ }),
    {
        self.error_msg = None;
    }

    /// The packet of an input port.
    pub fn input(&self, idx: usize) -> (r: Option<Packet>)
        ensures
            r == self@.input_at(idx as int, 0),
    {
        self.input_at(idx, 0)
    }

    /// The packet in the slot of an input port.
    pub fn slot(&self, idx: usize) -> (r: Option<Packet>)
        ensures
            r == (if idx < self@.inputs.len() {
                self@.inputs[idx as int]
            } else {
                None
            }),
    {
        if idx < self.inputs.len() {
            self.inputs[idx]
        } else {
            None
        }
    }

    /// How many packets an input port has.
    pub fn input_count(&self, idx: usize) -> (r: usize)
        ensures
            r == self@.input_count(idx as int),
    {
        if idx < self.input_batches.len() {
            let batch = &self.input_batches[idx];
            assert(self@.batches[idx as int] == batch@);
            if batch.len() > 0 {
                return batch.len();
            }
        }
        if idx < self.inputs.len() && self.inputs[idx].is_some() {
            1
        } else {
            0
        }
    }

    /// The packet number `k` of an input port.
    pub fn input_at(&self, idx: usize, k: usize) -> (r: Option<Packet>)
        ensures
            r == self@.input_at(idx as int, k as int),
    {
        if idx < self.input_batches.len() {
            let batch = &self.input_batches[idx];
            assert(self@.batches[idx as int] == batch@);
            if batch.len() > 0 {
                return if k < batch.len() {
                    Some(batch[k])
                } else {
                    None
                };
            }
        }
        if k == 0 && idx < self.inputs.len() {
            self.inputs[idx]
        } else {
            None
        }
    }

    /// Takes the packet of an input port away. Where there is none, the empty
    /// packet comes.
    pub fn take_input(&mut self, idx: usize) -> (r: Packet)
        ensures
            idx < old(self)@.inputs.len() ==> {
                &&& final(self)@ == (ContextView {
                    inputs: old(self)@.inputs.update(idx as int, None),
                    ..old(self)@
                })
                &&& match old(self)@.inputs[idx as int] {
                    Some(p) => r == p,
                    None => r == (Packet {
                        payload: None,
                        stamp: Timestamp(i64::MIN),
                        kind: 0,
                        bytes: 0,
                    }),
                }
            },
            idx >= old(self)@.inputs.len() ==> final(self)@ == old(self)@ && r == (Packet {
                payload: None,
                stamp: Timestamp(i64::MIN),
                kind: 0,
                bytes: 0,
            }),
    {
        if idx < self.inputs.len() {
            let taken = self.inputs[idx];
            self.inputs.set(idx, None);
            match taken {
                Some(p) => p,
                None => Packet::empty(),
            }
        } else {
            Packet::empty()
        }
    }

    /// Emits a packet on an output port.
    pub fn emit(&mut self, out_idx: usize, pkt: Packet) -> (r: Result<(), Error>)
        ensures
            failure(r) == old(self)@.emit_problem(out_idx),
            final(self)@ == (if r is Ok {
                old(self)@.emitted(out_idx as int, pkt)
            } else {
                old(self)@
            }),
    {
        if out_idx >= self.staging.len() {
            return Err(
                Error::InvalidArg(
                    cat7(
                        "node `",
                        self.node_name.as_str(),
                        "`: emit output port index ",
                        decimal_of_size(out_idx).as_str(),
                        " out of range (of ",
                        decimal_of_size(self.staging.len()).as_str(),
                        " total)",
                    ),
                ),
            );
        }
        let mut p = pkt;
        if p.timestamp() == Timestamp::unset() {
            p.set_timestamp(self.input_ts);
        }
        self.staging[out_idx].push(p);
        assert(packet_lists(self.staging@) =~= old(self)@.emitted(out_idx as int, pkt).staging);
        Ok(())
    }

    /// Passes the packet of an input port through. The payload is shared.
    pub fn forward(&mut self, in_idx: usize, out_idx: usize) -> (r: Result<(), Error>)
        ensures
            failure(r) == old(self)@.forward_problem(in_idx, out_idx),
            final(self)@ == (if r is Ok {
                old(self)@.emitted(out_idx as int, old(self)@.inputs[in_idx as int]->Some_0)
            } else {
                old(self)@
            }),
    {
        if in_idx < self.inputs.len() {
            if let Some(p) = self.inputs[in_idx] {
                return self.emit(out_idx, p);
            }
        }
        Err(
            Error::InvalidArg(
                cat5(
                    "node `",
                    self.node_name.as_str(),
                    "`: forward input port ",
                    decimal_of_size(in_idx).as_str(),
                    " is empty or out of range",
                ),
            ),
        )
    }

    /// Tells downstream that nothing before `bound` comes on an output port.
    pub fn set_next_bound(&mut self, out_idx: usize, bound: Timestamp)
        ensures
            final(self)@ == (if out_idx < old(self)@.bounds.len() {
                ContextView {
                    bounds: old(self)@.bounds.update(out_idx as int, Some(bound)),
                    ..old(self)@
                }
            } else {
                old(self)@
            }),
    {
        if out_idx < self.next_bounds.len() {
            self.next_bounds.set(out_idx, Some(bound));
        }
    }

    /// Logs a line with the name of the node in front, if anyone listens.
    pub fn log(&self, shared: &mut GraphShared, listening: bool, level: i32, msg: &str)
        ensures
            final(shared)@ == (if listening {
                old(shared)@.noted(level, "["@ + self@.node_name + "] "@ + msg@)
            } else {
                old(shared)@
            }),
    {
        if listening {
            shared.note(level, cat4("[", self.node_name.as_str(), "] ", msg).as_str());
        }
    }

    /// Says why the call fails.
    pub fn set_error(&mut self, msg: &str)
        ensures
            final(self)@ == (ContextView { error_msg: Some(msg@), ..old(self)@ }),
    {
        self.error_msg = Some(msg.to_owned());
    }

    /// The failure of a call that returned a status code. What the kernel
    /// said of it is used up.
    pub fn take_error(&mut self, code: i32) -> (r: Error)
        ensures
            r@ == old(self)@.call_error(code),
            final(self)@ == (ContextView { error_msg: None, ..old(self)@ }),
    {
        let mut said: Option<String> = None;
        std::mem::swap(&mut said, &mut self.error_msg);
        let detail = match said {
            Some(m) => m,
            None => cat2("returned status code ", decimal_of_signed(code as i64).as_str()),
        };
        Error::Kernel(cat4("[", self.node_name.as_str(), "] ", detail.as_str()))
    }

    /// Puts a packet into the slot of an input port.
    pub fn set_input(&mut self, idx: usize, pkt: Packet)
        requires
            idx < old(self)@.inputs.len(),
        ensures
            final(self)@ == (ContextView {
                inputs: old(self)@.inputs.update(idx as int, Some(pkt)),
                ..old(self)@
            }),
    {
        self.inputs.set(idx, Some(pkt));
    }

    /// Puts the packets of an input port that is read in batches.
    pub fn set_batch(&mut self, idx: usize, batch: Vec<Packet>)
        requires
            idx < old(self)@.batches.len(),
        ensures
            final(self)@ == (ContextView {
                batches: old(self)@.batches.update(idx as int, batch@),
                ..old(self)@
            }),
    {
        self.input_batches.set(idx, batch);
        assert(packet_lists(self.input_batches@) =~= old(self)@.batches.update(idx as int, batch@));
    }

    /// Says whether an input port will bring nothing more.
    pub fn set_input_done(&mut self, idx: usize, done: bool)
        requires
            idx < old(self)@.inputs_done.len(),
        ensures
            final(self)@ == (ContextView {
                inputs_done: old(self)@.inputs_done.update(idx as int, done),
                ..old(self)@
            }),
    {
        self.inputs_done.set(idx, done);
    }

    pub fn set_input_ts(&mut self, stamp: Timestamp)
        ensures
            final(self)@ == (ContextView { input_ts: stamp, ..old(self)@ }),
    {
        self.input_ts = stamp;
    }

    pub fn set_close_reason(&mut self, reason: i32)
        ensures
            final(self)@ == (ContextView { close_reason: reason, ..old(self)@ }),
    {
        self.close_reason = reason;
    }

    pub fn set_side_packets(&mut self, packets: TextMap<Packet>)
        ensures
            final(self)@ == (ContextView { side_packets: packets@, ..old(self)@ }),
    {
        self.side_packets = packets;
    }

    /// Says that a source kernel is through.
    pub fn set_source_done(&mut self)
        ensures
            final(self)@ == (ContextView { source_done: true, ..old(self)@ }),
    {
        self.source_done = true;
    }

    /// Asks for a source kernel to be called again after some milliseconds.
    pub fn set_source_yield(&mut self, millis: u64)
        ensures
            final(self)@ == (ContextView { source_yield: Some(millis), ..old(self)@ }),
    {
        self.source_yield = Some(millis);
    }

    /// Hands out what was emitted on each output port.
    pub fn take_staging(&mut self) -> (r: Vec<Vec<Packet>>)
        ensures
            packet_lists(r@) == old(self)@.staging,
            final(self)@ == (ContextView {
                staging: no_packets(old(self)@.staging.len()),
                ..old(self)@
            }),
    {
        let mut out = empty_lists(self.staging.len());
        std::mem::swap(&mut out, &mut self.staging);
        out
    }

    pub fn staged(&self, idx: usize) -> (r: Option<&Vec<Packet>>)
        ensures
            match r {
                Some(list) => idx < self@.staging.len() && list@ == self@.staging[idx as int],
                None => idx >= self@.staging.len(),
            },
    {
        if idx < self.staging.len() {
            Some(&self.staging[idx])
        } else {
            None
        }
    }

    pub fn next_bound(&self, idx: usize) -> (r: Option<Timestamp>)
        ensures
            r == (if idx < self@.bounds.len() {
                self@.bounds[idx as int]
            } else {
                None
            }),
    {
        if idx < self.next_bounds.len() {
            self.next_bounds[idx]
        } else {
            None
        }
    }

    pub fn input_timestamp(&self) -> (r: Timestamp)
        ensures
            r == self@.input_ts,
    {
        self.input_ts
    }

    /// Whether an input port will bring nothing more.
    pub fn input_done(&self, idx: usize) -> (r: bool)
        ensures
            r == (idx < self@.inputs_done.len() && self@.inputs_done[idx as int]),
    {
        idx < self.inputs_done.len() && self.inputs_done[idx]
    }

    /// Whether the context holds a payload.
    pub fn holds(&self, payload: u64) -> (r: bool)
        ensures
            r == !context_within(self@, without(payload)),
    {
        for i in 0..self.inputs.len()
            invariant
                forall|k: int|
                    0 <= k < i && (#[trigger] self@.inputs[k]) is Some ==> without(
                        payload,
                    ).contains(self@.inputs[k]->Some_0),
        {
            if let Some(p) = self.inputs[i] {
                if let Some(x) = p.payload {
                    if x == payload {
                        assert(self@.inputs[i as int] == Some(p));
                        return true;
                    }
                }
            }
        }
        lists_hold(&self.input_batches, payload) || lists_hold(&self.staging, payload)
            || named_hold(&self.side_packets, payload)
    }

    pub fn close_reason(&self) -> (r: i32)
        ensures
            r == self@.close_reason,
    {
        self.close_reason
    }

    pub fn is_source_done(&self) -> (r: bool)
        ensures
            r == self@.source_done,
    {
        self.source_done
    }

    pub fn source_yield(&self) -> (r: Option<u64>)
        ensures
            r == self@.source_yield,
    {
        self.source_yield
    }

    pub fn node_name(&self) -> (r: &str)
        ensures
            r@ == self@.node_name,
    {
        self.node_name.as_str()
    }

    pub fn kernel_name(&self) -> (r: &str)
        ensures
            r@ == self@.kernel_name,
    {
        self.kernel_name.as_str()
    }

    pub fn in_ports(&self) -> (r: &PortTable)
        ensures
            r@ == self@.in_ports,
    {
        &self.in_ports
    }

    pub fn out_ports(&self) -> (r: &PortTable)
        ensures
            r@ == self@.out_ports,
    {
        &self.out_ports
    }

    pub fn options(&self) -> (r: &Options)
        ensures
            r@ == self@.options,
    {
        &self.options
    }

    /// The constant input of that name.
    pub fn side_packet(&self, name: &str) -> (r: Option<Packet>)
        ensures
            r == (if self@.side_packets.contains_key(name@) {
                Some(self@.side_packets[name@])
            } else {
                None
            }),
    {
        match self.side_packets.get(name) {
            Some(p) => Some(*p),
            None => None,
        }
    }
}

// ------------------------------------------------------------------- the laws

/// A packet that is passed through keeps its payload, and its time stamp
/// where it has one.
pub proof fn forward_shares_the_payload(c: ContextView, from: int, port: int)
    requires
        0 <= from < c.inputs.len(),
        c.inputs[from] is Some,
        0 <= port < c.staging.len(),
    ensures
        c.emitted(port, c.inputs[from]->Some_0).inputs == c.inputs,
        c.emitted(port, c.inputs[from]->Some_0).staging[port].last().payload
            == c.inputs[from]->Some_0.payload,
        c.inputs[from]->Some_0.stamp.0 != i64::MIN ==> c.emitted(
            port,
            c.inputs[from]->Some_0,
        ).staging[port].last() == c.inputs[from]->Some_0,
{
}

/// After a reset nothing of an earlier call is left: whatever was read or
/// produced, the context is the one that a new one would be.
pub proof fn reset_forgets(c: ContextView, port: int, p: Packet)
    requires
        0 <= port < c.staging.len(),
    ensures
        c.emitted(port, p).fresh() == c.fresh(),
        c.released().fresh() == c.fresh(),
        c.discarded().fresh() == c.fresh(),
        c.fresh().fresh() == c.fresh(),
{
    assert(c.emitted(port, p).fresh() =~= c.fresh());
    assert(c.released().fresh() =~= c.fresh());
    assert(c.discarded().fresh() =~= c.fresh());
    assert(c.fresh().fresh() =~= c.fresh());
}

} // verus!

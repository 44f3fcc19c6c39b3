//! The boundary to programs in other languages: status codes, the text of the
//! last error, and what each call makes of handles and texts that may be
//! missing.
//!
//! Pointers are outside: a handle or a text that may be null comes in as an
//! option. Whatever refuses a call leaves a readable reason behind.

use crate::context::{Context, ContextView};
use crate::lifecycle::{copied_types, KernelContract};
use crate::options::{at_path, number_of};
use crate::packet::Packet;
use crate::port::{answers, PortSpecView, PortTable};
use crate::runtime::{interned, without_zero, LastError};
use crate::status::{failure, Error, ErrorView, OK, PANIC};
use crate::text::{
    cat2, cat3, cat5, clone_texts, decimal, decimal_of, decimal_of_signed, signed_decimal, texts,
};
use crate::timestamp::{shown, Timestamp};
use vstd::prelude::*;

verus! {

/// The version of the interface.
pub const ABI_VERSION: u32 = 1;

/// The number that stands for no port, no node and no size.
pub const INVALID_ID: usize = usize::MAX;

pub const LMFLOW_POLLER_BLOCK: i32 = 0;

pub const LMFLOW_POLLER_DROP_OLDEST: i32 = 1;

pub const LMFLOW_POLLER_DROP_NEWEST: i32 = 2;

pub const LMFLOW_POLLER_LATEST: i32 = 3;

// ---------------------------------------------------------------- status codes

/// The code that a call comes to.
pub open spec fn status_of(problem: Option<ErrorView>) -> i32 {
    match problem {
        Some(e) => e.code(),
        None => OK,
    }
}

/// The text of the last error after a call.
pub open spec fn reported(before: Seq<char>, problem: Option<ErrorView>) -> Seq<char> {
    match problem {
        Some(e) => without_zero(e.text()),
        None => before,
    }
}

/// Leaves the text of an error behind and gives its code.
pub fn fail(last: &mut LastError, e: Error) -> (r: i32)
    ensures
        r == e@.code(),
        final(last)@ == without_zero(e@.text()),
{
    let text = e.text();
    last.set(text.as_str());
    e.code()
}

/// The code of a result; the text of an error is left behind.
pub fn to_status(last: &mut LastError, r: Result<(), Error>) -> (c: i32)
    ensures
        c == status_of(failure(r)),
        final(last)@ == reported(old(last)@, failure(r)),
{
    match r {
        Ok(_) => OK,
        Err(e) => fail(last, e),
    }
}

/// The version of the boundary.
pub fn flow_abi_version() -> (r: u32)
    ensures
        r == ABI_VERSION,
{
    ABI_VERSION
}

/// What a call comes to that panicked.
pub fn guard_failed(last: &mut LastError) -> (r: i32)
    ensures
        r == PANIC,
        final(last)@ == without_zero("引擎内部 panic(已被 FFI 边界捕获)"@),
{
    last.set("引擎内部 panic(已被 FFI 边界捕获)");
    PANIC
}

/// A name for what happens to packets that a poller has no room for.
#[derive(Debug, Clone, Copy, PartialEq, Eq, Structural)]
pub enum PollerOverflow {
    Block,
    DropOldest,
    DropNewest,
    Latest,
}

/// What a number says about packets that a poller has no room for.
pub fn poller_overflow(code: i32) -> (r: Option<PollerOverflow>)
    ensures
        r == (if code == LMFLOW_POLLER_BLOCK {
            Some(PollerOverflow::Block)
        } else if code == LMFLOW_POLLER_DROP_OLDEST {
            Some(PollerOverflow::DropOldest)
        } else if code == LMFLOW_POLLER_DROP_NEWEST {
            Some(PollerOverflow::DropNewest)
        } else if code == LMFLOW_POLLER_LATEST {
            Some(PollerOverflow::Latest)
        } else {
            None
        }),
{
    match code {
        0 => Some(PollerOverflow::Block),
        1 => Some(PollerOverflow::DropOldest),
        2 => Some(PollerOverflow::DropNewest),
        3 => Some(PollerOverflow::Latest),
        _ => None,
    }
}

/// How much a drawing of a graph shows.
#[derive(Debug, Clone, Copy, PartialEq, Eq, Structural)]
pub enum DotView {
    Topology,
    Compact,
    Diagnostics,
}

/// How much a drawing shows that a number asks for.
pub fn dot_view(last: &mut LastError, view: i32) -> (r: Option<DotView>)
    ensures
        r == (if view == 0 {
            Some(DotView::Topology)
        } else if view == 1 {
            Some(DotView::Compact)
        } else if view == 2 {
            Some(DotView::Diagnostics)
        } else {
            None
        }),
        final(last)@ == (if r is Some {
            old(last)@
        } else {
            without_zero(
                "invalid DOT view "@ + signed_decimal(view as int)
                    + "; expected 0 (topology), 1 (compact), or 2 (diagnostics)"@,
            )
        }),
{
    match view {
        0 => Some(DotView::Topology),
        1 => Some(DotView::Compact),
        2 => Some(DotView::Diagnostics),
        other => {
            let number = decimal_of_signed(other as i64);
            let text = cat3(
                "invalid DOT view ",
                number.as_str(),
                "; expected 0 (topology), 1 (compact), or 2 (diagnostics)",
            );
            last.set(text.as_str());
            None
        },
    }
}

/// The language that a kernel is written in.
#[derive(Debug, Clone, Copy, PartialEq, Eq, Structural)]
pub enum KernelLanguage {
    Unknown,
    Rust,
    Cpp,
    Python,
    C,
}

/// The language that a number stands for.
pub fn kernel_language(id: u32) -> (r: Result<KernelLanguage, Error>)
    ensures
        match r {
            Ok(l) => id < 5 && l == (match id {
                0 => KernelLanguage::Unknown,
                1 => KernelLanguage::Rust,
                2 => KernelLanguage::Cpp,
                3 => KernelLanguage::Python,
                _ => KernelLanguage::C,
            }),
            Err(e) => id >= 5 && e@ == ErrorView::InvalidArg(
                "unknown kernel implementation language id "@ + decimal(id as nat),
            ),
        },
{
    match id {
        0 => Ok(KernelLanguage::Unknown),
        1 => Ok(KernelLanguage::Rust),
        2 => Ok(KernelLanguage::Cpp),
        3 => Ok(KernelLanguage::Python),
        4 => Ok(KernelLanguage::C),
        other => {
            let number = decimal_of(other as u64);
            Err(
                Error::InvalidArg(
                    cat2("unknown kernel implementation language id ", number.as_str()),
                ),
            )
        },
    }
}

/// Refuses a kernel without a name or without functions.
pub fn check_kernel(last: &mut LastError, name: Option<&str>, has_functions: bool) -> (r: i32)
    ensures
        ({
            let problem = match name {
                None => Some(ErrorView::InvalidArg("算子名为空或非 UTF-8"@)),
                Some(n) => if has_functions {
                    None
                } else {
                    Some(ErrorView::InvalidArg("算子 `"@ + n@ + "` 的 vtable 为空"@))
                },
            };
            r == status_of(problem) && final(last)@ == reported(old(last)@, problem)
        }),
{
    match name {
        None => fail(last, Error::InvalidArg("算子名为空或非 UTF-8".to_owned())),
        Some(n) => if has_functions {
            OK
        } else {
            fail(last, Error::InvalidArg(cat3("算子 `", n, "` 的 vtable 为空")))
        },
    }
}

// --------------------------------------------------------------------- packets

/// A packet in one line: whether it carries anything, of what type, and its
/// time stamp.
pub fn packet_debug_string(pkt: Option<(bool, u64, Timestamp)>) -> (r: String)
    ensures
        r@ == match pkt {
            None => "Packet{null}"@,
            Some((loaded, kind, stamp)) => "Packet{type="@ + (if loaded {
                "type#"@ + decimal(kind as nat)
            } else {
                "Empty"@
            }) + ", ts="@ + shown(stamp) + "}"@,
        },
{
    match pkt {
        None => "Packet{null}".to_owned(),
        Some((loaded, kind, stamp)) => {
            let label = if loaded {
                let number = decimal_of(kind);
                cat2("type#", number.as_str())
            } else {
                "Empty".to_owned()
            };
            let time = stamp.text();
            cat5("Packet{type=", label.as_str(), ", ts=", time.as_str(), "}")
        },
    }
}

/// Refuses to make a packet writable that is not there or that the caller
/// does not own. `owned` says whether the caller owns the packet.
pub fn check_owned(last: &mut LastError, owned: Option<bool>) -> (r: i32)
    ensures
        ({
            let problem = match owned {
                None => Some(ErrorView::InvalidArg("pkt 为空"@)),
                Some(false) => Some(
                    ErrorView::InvalidArg(
                        "make_mutable 需要调用方拥有的包(owner 非空);借用的输入包请先 take_input"@,
                    ),
                ),
                Some(true) => None,
            };
            r == status_of(problem) && final(last)@ == reported(old(last)@, problem)
        }),
{
    match owned {
        None => fail(last, Error::InvalidArg("pkt 为空".to_owned())),
        Some(true) => OK,
        Some(false) => fail(
            last,
            Error::InvalidArg(
                "make_mutable 需要调用方拥有的包(owner 非空);借用的输入包请先 take_input".to_owned(),
            ),
        ),
    }
}

// -------------------------------------------------------------------- contracts

/// What a kernel says about its ports before the graph is built.
pub struct Contract {
    pub inputs: PortTable,
    pub outputs: PortTable,
    /// The type of each input port; zero for any.
    pub input_types: Vec<u64>,
    /// The type of each output port; zero for any.
    pub output_types: Vec<u64>,
    pub required_side_packets: Vec<String>,
}

#[verifier::ext_equal]
pub struct ContractView {
    pub inputs: Seq<PortSpecView>,
    pub outputs: Seq<PortSpecView>,
    pub input_types: Seq<u64>,
    pub output_types: Seq<u64>,
    pub required_side_packets: Seq<Seq<char>>,
}

impl View for Contract {
    type V = ContractView;

    open spec fn view(&self) -> ContractView {
        ContractView {
            inputs: self.inputs@,
            outputs: self.outputs@,
            input_types: self.input_types@,
            output_types: self.output_types@,
            required_side_packets: texts(self.required_side_packets@),
        }
    }
}

/// `n` ports of any type.
pub open spec fn any_types(n: nat) -> Seq<u64> {
    Seq::new(n, |i: int| 0u64)
}

/// A list with one entry changed; one beyond its end changes nothing.
pub open spec fn changed_at(list: Seq<u64>, idx: usize, value: u64) -> Seq<u64> {
    if idx < list.len() {
        list.update(idx as int, value)
    } else {
        list
    }
}

fn types_of_any(n: usize) -> (r: Vec<u64>)
    ensures
        r@ == any_types(n as nat),
{
    let mut r: Vec<u64> = Vec::new();
    for i in 0..n
        invariant
            r@ == any_types(i as nat),
    {
        r.push(0);
        assert(r@ =~= any_types((i + 1) as nat));
    }
    r
}

impl Contract {
    /// What a kernel says that says nothing.
    pub fn new(inputs: PortTable, outputs: PortTable) -> (r: Contract)
        ensures
            r@ == (ContractView {
                inputs: inputs@,
                outputs: outputs@,
                input_types: any_types(inputs@.len()),
                output_types: any_types(outputs@.len()),
                required_side_packets: Seq::empty(),
            }),
    {
        let input_types = types_of_any(inputs.len());
        let output_types = types_of_any(outputs.len());
        let r = Contract {
            inputs,
            outputs,
            input_types,
            output_types,
            required_side_packets: Vec::new(),
        };
        assert(r@.required_side_packets =~= Seq::empty());
        r
    }

    /// What the engine keeps of it.
    pub fn kept(&self) -> (r: KernelContract)
        ensures
            r.input_types@ == self@.input_types,
            r.output_types@ == self@.output_types,
            texts(r.required_side_packets@) == self@.required_side_packets,
    {
        KernelContract {
            input_types: copied_types(&self.input_types),
            output_types: copied_types(&self.output_types),
            required_side_packets: clone_texts(&self.required_side_packets),
        }
    }
}

/// How many input ports the kernel has.
pub fn flow_contract_num_inputs(c: Option<&Contract>) -> (r: usize)
    ensures
        r == match c {
            Some(x) => x@.inputs.len(),
            None => 0,
        },
{
    match c {
        Some(x) => x.inputs.len(),
        None => 0,
    }
}

/// How many output ports the kernel has.
pub fn flow_contract_num_outputs(c: Option<&Contract>) -> (r: usize)
    ensures
        r == match c {
            Some(x) => x@.outputs.len(),
            None => 0,
        },
{
    match c {
        Some(x) => x.outputs.len(),
        None => 0,
    }
}

/// The first port that answers to a tag and an index, a missing tag being the
/// empty one; `INVALID_ID` if none does.
pub open spec fn is_port_id(
    ports: Seq<PortSpecView>,
    tag: Option<Seq<char>>,
    index: usize,
    r: usize,
) -> bool {
    let tag = match tag {
        Some(t) => t,
        None => ""@,
    };
    ||| r < ports.len() && answers(ports, r as int, tag, index as nat) && forall|k: int|
        0 <= k < r ==> !#[trigger] answers(ports, k, tag, index as nat)
    ||| r == INVALID_ID && forall|k: int|
        0 <= k < ports.len() ==> !#[trigger] answers(ports, k, tag, index as nat)
}

/// The first port of a name, a missing name being the empty one; `INVALID_ID`
/// if there is none.
pub open spec fn is_port_index(
    ports: Seq<PortSpecView>,
    name: Option<Seq<char>>,
    r: usize,
) -> bool {
    let name = match name {
        Some(n) => n,
        None => ""@,
    };
    ||| r < ports.len() && ports[r as int].name == name && forall|k: int|
        0 <= k < r ==> (#[trigger] ports[k]).name != name
    ||| r == INVALID_ID && forall|k: int|
        0 <= k < ports.len() ==> (#[trigger] ports[k]).name != name
}

pub open spec fn text_of(s: Option<&str>) -> Option<Seq<char>> {
    match s {
        Some(t) => Some(t@),
        None => None,
    }
}

/// The port that answers to a tag and an index.
pub fn port_id(ports: &PortTable, tag: Option<&str>, index: usize) -> (r: usize)
    ensures
        is_port_id(ports@, text_of(tag), index, r),
{
    let wanted = match tag {
        Some(t) => t,
        None => "",
    };
    match ports.id_by_tag(wanted, index) {
        Some(i) => i,
        None => INVALID_ID,
    }
}

/// The port of a name.
pub fn port_index(ports: &PortTable, name: Option<&str>) -> (r: usize)
    ensures
        is_port_index(ports@, text_of(name), r),
{
    let name = match name {
        Some(n) => n,
        None => "",
    };
    match ports.index_by_name(name) {
        Some(i) => i,
        None => INVALID_ID,
    }
}

/// The input port that answers to a tag and an index.
pub fn flow_contract_input_id(c: Option<&Contract>, tag: Option<&str>, index: usize) -> (r: usize)
    ensures
        match c {
            Some(x) => is_port_id(x@.inputs, text_of(tag), index, r),
            None => r == INVALID_ID,
        },
{
    match c {
        Some(x) => port_id(&x.inputs, tag, index),
        None => INVALID_ID,
    }
}

/// The output port that answers to a tag and an index.
pub fn flow_contract_output_id(c: Option<&Contract>, tag: Option<&str>, index: usize) -> (r: usize)
    ensures
        match c {
            Some(x) => is_port_id(x@.outputs, text_of(tag), index, r),
            None => r == INVALID_ID,
        },
{
    match c {
        Some(x) => port_id(&x.outputs, tag, index),
        None => INVALID_ID,
    }
}

/// The input port of a name.
pub fn flow_contract_input_index(c: Option<&Contract>, name: Option<&str>) -> (r: usize)
    ensures
        match c {
            Some(x) => is_port_index(x@.inputs, text_of(name), r),
            None => r == INVALID_ID,
        },
{
    match c {
        Some(x) => port_index(&x.inputs, name),
        None => INVALID_ID,
    }
}

/// The output port of a name.
pub fn flow_contract_output_index(c: Option<&Contract>, name: Option<&str>) -> (r: usize)
    ensures
        match c {
            Some(x) => is_port_index(x@.outputs, text_of(name), r),
            None => r == INVALID_ID,
        },
{
    match c {
        Some(x) => port_index(&x.outputs, name),
        None => INVALID_ID,
    }
}

/// Says the type of an input port; a port that is not there is passed over.
pub fn flow_contract_input_set_type(c: Option<&mut Contract>, idx: usize, type_id: u64)
    ensures
        c matches Some(x) ==> final(x)@ == (ContractView {
            input_types: changed_at(x@.input_types, idx, type_id),
            ..x@
        }),
{
    if let Some(x) = c {
        if idx < x.input_types.len() {
            x.input_types.set(idx, type_id);
        }
    }
}

/// Says the type of an output port; a port that is not there is passed over.
pub fn flow_contract_output_set_type(c: Option<&mut Contract>, idx: usize, type_id: u64)
    ensures
        c matches Some(x) ==> final(x)@ == (ContractView {
            output_types: changed_at(x@.output_types, idx, type_id),
            ..x@
        }),
{
    if let Some(x) = c {
        if idx < x.output_types.len() {
            x.output_types.set(idx, type_id);
        }
    }
}

/// Says that an input port takes any type.
pub fn flow_contract_input_set_any(c: Option<&mut Contract>, idx: usize)
    ensures
        c matches Some(x) ==> final(x)@ == (ContractView {
            input_types: changed_at(x@.input_types, idx, 0),
            ..x@
        }),
{
    flow_contract_input_set_type(c, idx, 0);
}

/// Says that an output port sends any type.
pub fn flow_contract_output_set_any(c: Option<&mut Contract>, idx: usize)
    ensures
        c matches Some(x) ==> final(x)@ == (ContractView {
            output_types: changed_at(x@.output_types, idx, 0),
            ..x@
        }),
{
    flow_contract_output_set_type(c, idx, 0);
}

/// Says that the kernel needs a constant input.
pub fn flow_contract_require_side_packet(c: Option<&mut Contract>, name: Option<&str>)
    ensures
        c matches Some(x) ==> final(x)@ == (match name {
            Some(n) => ContractView {
                required_side_packets: x@.required_side_packets.push(n@),
                ..x@
            },
            None => x@,
        }),
{
    if let Some(x) = c {
        if let Some(n) = name {
            let ghost before = texts(x.required_side_packets@);
            x.required_side_packets.push(n.to_owned());
            assert(texts(x.required_side_packets@) =~= before.push(n@));
        }
    }
}

// --------------------------------------------------------------------- contexts

/// Why a required option cannot be read, if it cannot.
pub open spec fn option_problem(
    c: Option<ContextView>,
    key: Option<Seq<char>>,
    found: bool,
) -> Option<ErrorView> {
    match (c, key) {
        (None, _) => Some(ErrorView::InvalidArg("上下文为空"@)),
        (Some(_), None) => Some(ErrorView::InvalidArg("参数名为空"@)),
        (Some(x), Some(k)) => if found {
            None
        } else {
            Some(
                ErrorView::InvalidArg(
                    "节点 `"@ + x.node_name + "`: 必需参数 options."@ + k + " 缺失或类型不符"@,
                ),
            )
        },
    }
}

pub open spec fn context_of(c: Option<&Context>) -> Option<ContextView> {
    match c {
        Some(x) => Some(x@),
        None => None,
    }
}

fn option_missing(last: &mut LastError, x: &Context, k: &str) -> (r: i32)
    ensures
        r == status_of(option_problem(Some(x@), Some(k@), false)),
        final(last)@ == reported(
            old(last)@,
            option_problem(Some(x@), Some(k@), false),
        ),
{
    fail(
        last,
        Error::InvalidArg(cat5("节点 `", x.node_name(), "`: 必需参数 options.", k, " 缺失或类型不符")),
    )
}

/// The whole number that an option is, as far as there is one.
pub open spec fn option_number(c: Option<ContextView>, key: Option<Seq<char>>) -> Option<i64> {
    match (c, key) {
        (Some(x), Some(k)) => match at_path(x.options, k) {
            Some(v) => number_of(v),
            None => None,
        },
        _ => None,
    }
}

/// Reads a whole number that a kernel cannot do without.
pub fn flow_ctx_require_option_i64(
    last: &mut LastError,
    c: Option<&Context>,
    key: Option<&str>,
) -> (r: (i32, Option<i64>))
    ensures
        ({
            let value = option_number(context_of(c), text_of(key));
            let problem = option_problem(context_of(c), text_of(key), value is Some);
            &&& r.0 == status_of(problem)
            &&& r.1 == value
            &&& final(last)@ == reported(old(last)@, problem)
        }),
{
    match c {
        None => (fail(last, Error::InvalidArg("上下文为空".to_owned())), None),
        Some(x) => match key {
            None => (fail(last, Error::InvalidArg("参数名为空".to_owned())), None),
            Some(k) => match x.options().i64(k) {
                Some(v) => (OK, Some(v)),
                None => (option_missing(last, x, k), None),
            },
        },
    }
}

/// The truth value that an option is, as far as there is one.
pub open spec fn option_truth(c: Option<ContextView>, key: Option<Seq<char>>) -> Option<bool> {
    match (c, key) {
        (Some(x), Some(k)) => match at_path(x.options, k) {
            Some(v) => v.as_truth(),
            None => None,
        },
        _ => None,
    }
}

/// Reads a truth value that a kernel cannot do without.
pub fn flow_ctx_require_option_bool(
    last: &mut LastError,
    c: Option<&Context>,
    key: Option<&str>,
) -> (r: (i32, Option<bool>))
    ensures
        ({
            let value = option_truth(context_of(c), text_of(key));
            let problem = option_problem(context_of(c), text_of(key), value is Some);
            &&& r.0 == status_of(problem)
            &&& r.1 == value
            &&& final(last)@ == reported(old(last)@, problem)
        }),
{
    match c {
        None => (fail(last, Error::InvalidArg("上下文为空".to_owned())), None),
        Some(x) => match key {
            None => (fail(last, Error::InvalidArg("参数名为空".to_owned())), None),
            Some(k) => match x.options().bool(k) {
                Some(v) => (OK, Some(v)),
                None => (option_missing(last, x, k), None),
            },
        },
    }
}

/// The text that an option is, as far as there is one.
pub open spec fn option_text(c: Option<ContextView>, key: Option<Seq<char>>) -> Option<Seq<char>> {
    match (c, key) {
        (Some(x), Some(k)) => match at_path(x.options, k) {
            Some(v) => v.as_text(),
            None => None,
        },
        _ => None,
    }
}

/// Reads a text that a kernel cannot do without.
pub fn flow_ctx_require_option_str(
    last: &mut LastError,
    c: Option<&Context>,
    key: Option<&str>,
) -> (r: (i32, Option<String>))
    ensures
        ({
            let value = option_text(context_of(c), text_of(key));
            let problem = option_problem(context_of(c), text_of(key), value is Some);
            &&& r.0 == status_of(problem)
            &&& (match r.1 {
                Some(s) => Some(s@),
                None => None,
            }) == (match value {
                Some(v) => Some(without_zero(v)),
                None => None,
            })
            &&& final(last)@ == reported(old(last)@, problem)
        }),
{
    match c {
        None => (fail(last, Error::InvalidArg("上下文为空".to_owned())), None),
        Some(x) => match key {
            None => (fail(last, Error::InvalidArg("参数名为空".to_owned())), None),
            Some(k) => match x.options().str(k) {
                Some(v) => (OK, Some(interned(v))),
                None => (option_missing(last, x, k), None),
            },
        },
    }
}

/// Whether an input port holds nothing; so does one that is not there.
pub fn flow_ctx_input_is_empty(c: Option<&Context>, idx: usize) -> (r: bool)
    ensures
        r == match c {
            Some(x) => match x@.input_at(idx as int, 0) {
                Some(p) => p.payload is None,
                None => true,
            },
            None => true,
        },
{
    match c {
        Some(x) => match x.input(idx) {
            Some(p) => p.is_empty(),
            None => true,
        },
        None => true,
    }
}

/// Whether an input port will bring nothing more.
pub fn flow_ctx_input_is_done(c: Option<&Context>, idx: usize) -> (r: bool)
    ensures
        r == match c {
            Some(x) => idx < x@.inputs_done.len() && x@.inputs_done[idx as int],
            None => false,
        },
{
    match c {
        Some(x) => x.input_done(idx),
        None => false,
    }
}

/// A kernel emits a packet. What goes wrong becomes the error of the call.
pub fn flow_ctx_emit(last: &mut LastError, c: Option<&mut Context>, out_idx: usize, pkt: Packet)
    ensures
        match c {
            Some(x) => match x@.emit_problem(out_idx) {
                None => final(x)@ == x@.emitted(out_idx as int, pkt) && final(last)@ == old(
                    last,
                )@,
                Some(e) => final(x)@ == (ContextView { error_msg: Some(e.text()), ..x@ })
                    && final(last)@ == without_zero(e.text()),
            },
            None => final(last)@ == old(last)@,
        },
{
    if let Some(x) = c {
        match x.emit(out_idx, pkt) {
            Ok(_) => {},
            Err(e) => {
                let text = e.text();
                x.set_error(text.as_str());
                last.set(text.as_str());
            },
        }
    }
}

/// A kernel passes a packet through. What goes wrong becomes the error of the
/// call.
pub fn flow_ctx_forward(
    last: &mut LastError,
    c: Option<&mut Context>,
    in_idx: usize,
    out_idx: usize,
)
    ensures
        match c {
            Some(x) => match x@.forward_problem(in_idx, out_idx) {
                None => final(x)@ == x@.emitted(
                    out_idx as int,
                    x@.inputs[in_idx as int]->Some_0,
                ) && final(last)@ == old(last)@,
                Some(e) => final(x)@ == (ContextView { error_msg: Some(e.text()), ..x@ })
                    && final(last)@ == without_zero(e.text()),
            },
            None => final(last)@ == old(last)@,
        },
{
    if let Some(x) = c {
        match x.forward(in_idx, out_idx) {
            Ok(_) => {},
            Err(e) => {
                let text = e.text();
                x.set_error(text.as_str());
                last.set(text.as_str());
            },
        }
    }
}

} // verus!

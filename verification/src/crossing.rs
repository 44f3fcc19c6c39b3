//! Packets on their way over the boundary: who owns what they point to, and
//! what foreign memory becomes.

use crate::boundary::{check_owned, fail, reported, status_of};
use crate::buffer::{
    gather, gathered, offset_of, validate_buffer_descriptor, BufferDescriptor, Extent,
    BUF_FLAG_READONLY,
};
use crate::packet::{Packet, TYPE_NONE};
use crate::runtime::{interned, without_zero, LastError};
use crate::status::{Error, ErrorView, OK, UNSUPPORTED};
use crate::text::cat2;
use crate::timestamp::Timestamp;
use vstd::prelude::*;

verus! {

// ------------------------------------------------------------------ ownership

/// A packet as the other side sees it.
#[derive(Debug, Clone, Copy, PartialEq, Eq, Structural)]
pub struct FlowPacket {
    /// The number of what it points to, if it points to anything.
    pub payload: Option<u64>,
    pub type_id: u64,
    pub timestamp: i64,
    /// The number under which the engine keeps the payload; `None` if the
    /// payload is not the engine's yet.
    pub owner: Option<u64>,
    /// Whether a payload that is not the engine's came with a function that
    /// releases it.
    pub releasable: bool,
}

/// A packet of nothing.
pub open spec fn blank() -> FlowPacket {
    FlowPacket {
        payload: None,
        type_id: 0,
        timestamp: i64::MIN,
        owner: None,
        releasable: false,
    }
}

impl Default for FlowPacket {
    fn default() -> (r: FlowPacket)
        ensures
            r == blank(),
    {
        FlowPacket {
            payload: None,
            type_id: 0,
            timestamp: i64::MIN,
            owner: None,
            releasable: false,
        }
    }
}

/// A packet of the engine as the other side sees it.
pub open spec fn shown_packet(p: Packet) -> FlowPacket {
    match p.payload {
        Some(x) => FlowPacket {
            payload: Some(x),
            type_id: p.kind,
            timestamp: p.stamp.0,
            owner: Some(x),
            releasable: false,
        },
        None => FlowPacket { timestamp: p.stamp.0, ..blank() },
    }
}

/// Shows a packet that stays the engine's.
pub fn borrow_packet(p: &Packet) -> (r: FlowPacket)
    ensures
        r == shown_packet(*p),
{
    match p.payload {
        Some(x) => FlowPacket {
            payload: Some(x),
            type_id: p.kind,
            timestamp: p.stamp.0,
            owner: Some(x),
            releasable: false,
        },
        None => FlowPacket { timestamp: p.stamp.0, ..FlowPacket::default() },
    }
}

/// Hands a packet over.
pub fn own_packet(p: Packet) -> (r: FlowPacket)
    ensures
        r == shown_packet(p),
{
    borrow_packet(&p)
}

/// The packet of the engine that one from the other side becomes. `kind` and
/// `bytes` are the type and the size of a payload that the engine keeps.
pub open spec fn taken_packet(fp: FlowPacket, kind: u64, bytes: u64) -> Packet {
    let stamp = Timestamp(fp.timestamp);
    match (fp.owner, fp.payload) {
        (Some(x), _) => Packet { payload: Some(x), stamp, kind, bytes },
        (None, Some(x)) => Packet { payload: Some(x), stamp, kind: fp.type_id, bytes: 0 },
        (None, None) => Packet { payload: None, stamp, kind: TYPE_NONE, bytes: 0 },
    }
}

/// Takes a packet over from the other side.
pub fn take_packet(fp: FlowPacket, kind: u64, bytes: u64) -> (r: Packet)
    ensures
        r == taken_packet(fp, kind, bytes),
{
    let stamp = Timestamp(fp.timestamp);
    match fp.owner {
        Some(x) => Packet { payload: Some(x), stamp, kind, bytes },
        None => match fp.payload {
            Some(x) => Packet { payload: Some(x), stamp, kind: fp.type_id, bytes: 0 },
            None => Packet { payload: None, stamp, kind: TYPE_NONE, bytes: 0 },
        },
    }
}

/// A packet that is handed over and taken back is the same packet.
pub proof fn handing_over_loses_nothing(p: Packet)
    requires
        p.payload is None ==> p.kind == TYPE_NONE && p.bytes == 0,
    ensures
        taken_packet(shown_packet(p), p.kind, p.bytes) == p,
{
}

/// What has to be let go with a packet.
#[derive(Debug, Clone, Copy, PartialEq, Eq, Structural)]
pub enum Release {
    Nothing,
    /// One reference to a payload that the engine keeps.
    Reference(u64),
    /// A payload that its own function releases.
    Foreign(u64),
}

/// What has to be let go with a packet of the other side.
pub open spec fn release_of(fp: FlowPacket) -> Release {
    match (fp.owner, fp.payload) {
        (Some(x), _) => Release::Reference(x),
        (None, Some(x)) => if fp.releasable {
            Release::Foreign(x)
        } else {
            Release::Nothing
        },
        (None, None) => Release::Nothing,
    }
}

/// Lets a packet go, and leaves one of nothing in its place.
pub fn flow_packet_drop(pkt: Option<&mut FlowPacket>) -> (r: Release)
    ensures
        match pkt {
            Some(p) => r == release_of(*p) && *final(p) == blank(),
            None => r == Release::Nothing,
        },
{
    match pkt {
        None => Release::Nothing,
        Some(p) => {
            let r = match p.owner {
                Some(x) => Release::Reference(x),
                None => match p.payload {
                    Some(x) => if p.releasable {
                        Release::Foreign(x)
                    } else {
                        Release::Nothing
                    },
                    None => Release::Nothing,
                },
            };
            *p = FlowPacket::default();
            r
        },
    }
}

/// What a packet points to is let go once, however often the packet is.
pub proof fn packets_are_let_go_once(fp: FlowPacket)
    ensures
        release_of(blank()) == Release::Nothing,
        release_of(fp) is Nothing <==> fp.owner is None && (fp.payload is None || !fp.releasable),
{
}

/// A second packet of a payload that the engine keeps. One more reference to
/// it is then in use. What the packet points to and its type are those of the
/// payload behind the owner, whose type is `kind`, not what the other side
/// says.
pub fn flow_packet_clone(last: &mut LastError, pkt: Option<&FlowPacket>, kind: u64) -> (r:
    FlowPacket)
    ensures
        match pkt {
            Some(p) => if p.owner is Some {
                &&& r == (FlowPacket {
                    payload: p.owner,
                    type_id: kind,
                    timestamp: p.timestamp,
                    owner: p.owner,
                    releasable: false,
                })
                &&& final(last)@ == old(last)@
            } else {
                r == blank() && final(last)@ == without_zero(
                    "flow_packet_clone 只能用于引擎持有的包(owner 非空)"@,
                )
            },
            None => r == blank() && final(last)@ == old(last)@,
        },
{
    match pkt {
        None => FlowPacket::default(),
        Some(p) => if p.owner.is_none() {
            last.set("flow_packet_clone 只能用于引擎持有的包(owner 非空)");
            FlowPacket::default()
        } else {
            FlowPacket {
                payload: p.owner,
                type_id: kind,
                timestamp: p.timestamp,
                owner: p.owner,
                releasable: false,
            }
        },
    }
}

/// Names a type for the boundary, which is not supported.
pub fn flow_register_type_name(last: &mut LastError, _type_id: u64, _name: Option<&str>) -> (r: i32)
    ensures
        r == UNSUPPORTED,
        final(last)@ == without_zero(
            ErrorView::Unsupported("flow_register_type_name 尚未实现"@).text(),
        ),
{
    fail(last, Error::Unsupported("flow_register_type_name 尚未实现".to_owned()))
}

// ------------------------------------------------------------------- contents

/// Memory that was copied: its elements lie packed, the last dimension running
/// fastest.
pub struct PackedBuffer {
    pub shape: Vec<i64>,
    pub ndim: usize,
    pub dtype: i32,
    pub bytes: Vec<u8>,
}

/// What a packet of a built-in type holds.
pub enum Builtin {
    Bytes(Vec<u8>),
    I64(i64),
    /// The bits of a number with a fraction.
    F64(u64),
    Bool(bool),
    Str(String),
    Buffer(PackedBuffer),
}

/// A packet of a built-in type.
pub struct BuiltinPacket {
    pub content: Builtin,
    pub stamp: Timestamp,
}

/// A packet of some bytes, which are copied; nothing is no bytes.
pub fn flow_packet_from_bytes(data: Option<&Vec<u8>>, ts: i64) -> (r: BuiltinPacket)
    ensures
        r.stamp == Timestamp(ts),
        r.content matches Builtin::Bytes(v) && v@ == (match data {
            Some(d) => d@,
            None => Seq::<u8>::empty(),
        }),
{
    let mut out: Vec<u8> = Vec::new();
    if let Some(d) = data {
        for i in 0..d.len()
            invariant
                out@ == d@.take(i as int),
        {
            out.push(d[i]);
            assert(out@ =~= d@.take(i + 1));
        }
        assert(d@.take(d@.len() as int) =~= d@);
    }
    BuiltinPacket { content: Builtin::Bytes(out), stamp: Timestamp(ts) }
}

/// A packet of a whole number.
pub fn flow_packet_from_i64(value: i64, ts: i64) -> (r: BuiltinPacket)
    ensures
        r == (BuiltinPacket { content: Builtin::I64(value), stamp: Timestamp(ts) }),
{
    BuiltinPacket { content: Builtin::I64(value), stamp: Timestamp(ts) }
}

/// A packet of a number with a fraction, by its bits.
pub fn flow_packet_from_f64(bits: u64, ts: i64) -> (r: BuiltinPacket)
    ensures
        r == (BuiltinPacket { content: Builtin::F64(bits), stamp: Timestamp(ts) }),
{
    BuiltinPacket { content: Builtin::F64(bits), stamp: Timestamp(ts) }
}

/// A packet of a truth value.
pub fn flow_packet_from_bool(value: bool, ts: i64) -> (r: BuiltinPacket)
    ensures
        r == (BuiltinPacket { content: Builtin::Bool(value), stamp: Timestamp(ts) }),
{
    BuiltinPacket { content: Builtin::Bool(value), stamp: Timestamp(ts) }
}

/// A packet of a text, which is copied; nothing is the empty one, and so is a
/// text that holds a zero.
pub fn flow_packet_from_str(text: Option<&str>, ts: i64) -> (r: BuiltinPacket)
    ensures
        r.stamp == Timestamp(ts),
        r.content matches Builtin::Str(s) && s@ == (match text {
            Some(t) => without_zero(t@),
            None => Seq::<char>::empty(),
        }),
{
    let kept = match text {
        Some(t) => interned(t),
        None => String::new(),
    };
    BuiltinPacket { content: Builtin::Str(kept), stamp: Timestamp(ts) }
}

/// The bytes of a packet of bytes.
pub fn flow_packet_as_bytes(b: Option<&Builtin>) -> (r: Option<&Vec<u8>>)
    ensures
        match b {
            Some(Builtin::Bytes(v)) => r == Some(v),
            _ => r is None,
        },
{
    match b {
        Some(Builtin::Bytes(v)) => Some(v),
        _ => None,
    }
}

/// The number of a packet of a whole number.
pub fn flow_packet_as_i64(b: Option<&Builtin>) -> (r: Option<i64>)
    ensures
        match b {
            Some(Builtin::I64(x)) => r == Some(*x),
            _ => r is None,
        },
{
    match b {
        Some(Builtin::I64(x)) => Some(*x),
        _ => None,
    }
}

/// The bits of a packet of a number with a fraction.
pub fn flow_packet_as_f64(b: Option<&Builtin>) -> (r: Option<u64>)
    ensures
        match b {
            Some(Builtin::F64(x)) => r == Some(*x),
            _ => r is None,
        },
{
    match b {
        Some(Builtin::F64(x)) => Some(*x),
        _ => None,
    }
}

/// The truth value of a packet of one.
pub fn flow_packet_as_bool(b: Option<&Builtin>) -> (r: Option<bool>)
    ensures
        match b {
            Some(Builtin::Bool(x)) => r == Some(*x),
            _ => r is None,
        },
{
    match b {
        Some(Builtin::Bool(x)) => Some(*x),
        _ => None,
    }
}

/// The text of a packet of a text.
pub fn flow_packet_as_str(b: Option<&Builtin>) -> (r: Option<&String>)
    ensures
        match b {
            Some(Builtin::Str(s)) => r == Some(s),
            _ => r is None,
        },
{
    match b {
        Some(Builtin::Str(s)) => Some(s),
        _ => None,
    }
}

/// The memory of a packet of memory.
pub fn flow_packet_as_buffer(b: Option<&Builtin>) -> (r: Option<&PackedBuffer>)
    ensures
        match b {
            Some(Builtin::Buffer(m)) => r == Some(m),
            _ => r is None,
        },
{
    match b {
        Some(Builtin::Buffer(m)) => Some(m),
        _ => None,
    }
}

/// Whether the caller owns a packet, if there is one.
pub open spec fn owned(pkt: Option<&FlowPacket>) -> Option<bool> {
    match pkt {
        Some(p) => Some(p.owner is Some),
        None => None,
    }
}

/// Why the memory of a packet cannot be written to, if it cannot. `content`
/// is what the packet holds once nobody else does, or why it cannot be had.
pub open spec fn write_problem(
    pkt: Option<&FlowPacket>,
    content: Result<Builtin, ErrorView>,
) -> Option<ErrorView> {
    match owned(pkt) {
        None => Some(ErrorView::InvalidArg("pkt 为空"@)),
        Some(false) => Some(
            ErrorView::InvalidArg(
                "make_mutable 需要调用方拥有的包(owner 非空);借用的输入包请先 take_input"@,
            ),
        ),
        Some(true) => match content {
            Ok(Builtin::Buffer(_)) => None,
            Ok(_) => Some(ErrorView::InvalidArg("该包不是 FlowBuffer"@)),
            Err(e) => Some(e),
        },
    }
}

pub open spec fn content_view(content: Result<Builtin, Error>) -> Result<Builtin, ErrorView> {
    match content {
        Ok(b) => Ok(b),
        Err(e) => Err(e@),
    }
}

/// Makes the memory of a packet writable.
pub fn flow_packet_make_mutable_buffer(
    last: &mut LastError,
    pkt: Option<&FlowPacket>,
    content: Result<Builtin, Error>,
) -> (r: (i32, Option<PackedBuffer>))
    ensures
        ({
            let problem = write_problem(pkt, content_view(content));
            &&& r.0 == status_of(problem)
            &&& final(last)@ == reported(old(last)@, problem)
            &&& problem is None ==> (content matches Ok(Builtin::Buffer(m)) && r.1 == Some(m))
            &&& problem is Some ==> r.1 is None
        }),
{
    let owns: Option<bool> = match pkt {
        Some(p) => Some(p.owner.is_some()),
        None => None,
    };
    let rc: i32 = check_owned(last, owns);
    match owns {
        Some(true) => match content {
            Ok(Builtin::Buffer(m)) => (OK, Some(m)),
            Ok(_) => (fail(last, Error::InvalidArg("该包不是 FlowBuffer".to_owned())), None),
            Err(e) => (fail(last, e), None),
        },
        _ => (rc, None),
    }
}

/// Why the bytes of a packet cannot be written to, if they cannot.
pub open spec fn write_bytes_problem(
    pkt: Option<&FlowPacket>,
    content: Result<Builtin, ErrorView>,
) -> Option<ErrorView> {
    match owned(pkt) {
        None => Some(ErrorView::InvalidArg("pkt 为空"@)),
        Some(false) => Some(ErrorView::InvalidArg("make_mutable 需要调用方拥有的包"@)),
        Some(true) => match content {
            Ok(Builtin::Bytes(_)) => None,
            Ok(_) => Some(ErrorView::InvalidArg("该包不是 BYTES"@)),
            Err(e) => Some(e),
        },
    }
}

/// Makes the bytes of a packet writable.
pub fn flow_packet_make_mutable_bytes(
    last: &mut LastError,
    pkt: Option<&FlowPacket>,
    content: Result<Builtin, Error>,
) -> (r: (i32, Option<Vec<u8>>))
    ensures
        ({
            let problem = write_bytes_problem(pkt, content_view(content));
            &&& r.0 == status_of(problem)
            &&& final(last)@ == reported(old(last)@, problem)
            &&& problem is None ==> (content matches Ok(Builtin::Bytes(v)) && r.1 == Some(v))
            &&& problem is Some ==> r.1 is None
        }),
{
    match pkt {
        None => (fail(last, Error::InvalidArg("pkt 为空".to_owned())), None),
        Some(p) => if p.owner.is_none() {
            (
                fail(last, Error::InvalidArg("make_mutable 需要调用方拥有的包".to_owned())),
                None,
            )
        } else {
            match content {
                Ok(Builtin::Bytes(v)) => (OK, Some(v)),
                Ok(_) => (fail(last, Error::InvalidArg("该包不是 BYTES".to_owned())), None),
                Err(e) => (fail(last, e), None),
            }
        },
    }
}

// ------------------------------------------------------------- foreign memory

/// What is wrong with a description that is to be copied, if anything.
pub open spec fn copy_problem(src: Option<&BufferDescriptor>, element_size: usize) -> Option<
    Seq<char>,
> {
    match src {
        None => Some("lmflow_packet_from_buffer: src is null"@),
        Some(d) => match d.extent(element_size) {
            Ok(_) => None,
            Err(e) => Some("lmflow_packet_from_buffer: "@ + e.text()),
        },
    }
}

/// Whether some bytes are the elements of foreign memory, packed with the last
/// dimension running fastest.
pub open spec fn packed_copy(
    window: Seq<u8>,
    d: BufferDescriptor,
    element_size: usize,
    x: Extent,
    out: Seq<u8>,
) -> bool {
    &&& out.len() == x.count * element_size
    &&& forall|e: int, b: int|
        0 <= e < x.count && 0 <= b < element_size ==> #[trigger] out[e * element_size + b]
            == window[offset_of(d.shape@, d.strides@, d.ndim as nat, e) - x.low + b]
}

/// A packet of a copy of foreign memory, whatever its strides. `window` is the memory from
/// the lowest byte of an element to the highest.
pub fn lmflow_packet_from_buffer(
    last: &mut LastError,
    src: Option<&BufferDescriptor>,
    element_size: usize,
    window: &Vec<u8>,
    ts: i64,
) -> (r: Option<BuiltinPacket>)
    requires
        src matches Some(d) ==> d.shape@.len() == d.strides@.len() && (d.extent(
            element_size,
        ) matches Ok(x) ==> x.count > 0 ==> window@.len() == x.high + element_size - x.low),
    ensures
        match copy_problem(src, element_size) {
            Some(text) => r is None && final(last)@ == without_zero(text),
            None => {
                &&& final(last)@ == old(last)@
                &&& r matches Some(p)
                &&& p.stamp == Timestamp(ts)
                &&& p.content matches Builtin::Buffer(m)
                &&& src matches Some(d)
                &&& {
                    &&& m.shape@ == d.shape@
                    &&& m.ndim == d.ndim
                    &&& m.dtype == d.dtype
                    &&& packed_copy(
                        window@,
                        *d,
                        element_size,
                        d.extent(element_size)->Ok_0,
                        m.bytes@,
                    )
                }
            },
        },
{
    match src {
        None => {
            last.set("lmflow_packet_from_buffer: src is null");
            None
        },
        Some(d) => match validate_buffer_descriptor(d, element_size) {
            Err(e) => {
                let text = e.text();
                let said = cat2("lmflow_packet_from_buffer: ", text.as_str());
                last.set(said.as_str());
                None
            },
            Ok(v) => {
                let bytes = gather(window, d, &v);
                let shape = copied(&d.shape);
                proof {
                    let x = d.extent(element_size)->Ok_0;
                    assert(v.says(*d, element_size, x));
                    assert(gathered(window@, *d, v, bytes@));
                    assert(packed_copy(window@, *d, element_size, x, bytes@));
                }
                Some(
                    BuiltinPacket {
                        content: Builtin::Buffer(
                            PackedBuffer { shape, ndim: v.ndim, dtype: d.dtype, bytes },
                        ),
                        stamp: Timestamp(ts),
                    },
                )
            },
        },
    }
}

/// A copy of some sizes.
fn copied(list: &Vec<i64>) -> (r: Vec<i64>)
    ensures
        r@ == list@,
{
    let mut out: Vec<i64> = Vec::new();
    for i in 0..list.len()
        invariant
            out@ == list@.take(i as int),
    {
        out.push(list[i]);
        assert(out@ =~= list@.take(i + 1));
    }
    assert(list@.take(list@.len() as int) =~= list@);
    out
}

/// Foreign memory that a packet uses as it is.
pub struct ExternalBuffer {
    pub address: usize,
    pub shape: Vec<i64>,
    pub strides: Vec<i64>,
    pub ndim: i32,
    pub dtype: i32,
    pub readonly: bool,
    pub element_count: usize,
    pub byte_size: u64,
}

/// A packet of foreign memory.
pub struct ExternalPacket {
    pub buffer: ExternalBuffer,
    pub stamp: Timestamp,
}

/// What is wrong with a description that is to be used as it is, if anything.
pub open spec fn adopt_problem(
    src: Option<&BufferDescriptor>,
    element_size: usize,
    releasable: bool,
) -> Option<Seq<char>> {
    match src {
        None => Some("lmflow_packet_adopt_buffer: src is null"@),
        Some(d) => if !releasable {
            Some("lmflow_packet_adopt_buffer: release_fn is null"@)
        } else {
            match d.extent(element_size) {
                Ok(_) => None,
                Err(e) => Some("lmflow_packet_adopt_buffer: "@ + e.text()),
            }
        },
    }
}

/// A packet of foreign memory, which is used as it is. `releasable` is whether it came with a
/// function that releases it.
pub fn lmflow_packet_adopt_buffer(
    last: &mut LastError,
    src: Option<&BufferDescriptor>,
    element_size: usize,
    releasable: bool,
    ts: i64,
) -> (r: Option<ExternalPacket>)
    requires
        src matches Some(d) ==> d.shape@.len() == d.strides@.len(),
    ensures
        match adopt_problem(src, element_size, releasable) {
            Some(text) => r is None && final(last)@ == without_zero(text),
            None => {
                &&& final(last)@ == old(last)@
                &&& r matches Some(p)
                &&& p.stamp == Timestamp(ts)
                &&& src matches Some(d)
                &&& {
                    let b = p.buffer;
                    let x = d.extent(element_size)->Ok_0;
                    &&& b.address == d.address
                    &&& b.shape@ == d.shape@
                    &&& b.strides@ == d.strides@
                    &&& b.ndim == d.ndim
                    &&& b.dtype == d.dtype
                    &&& b.readonly == (d.flags & BUF_FLAG_READONLY != 0)
                    &&& b.element_count == x.count
                    &&& b.byte_size == x.count * element_size
                }
            },
        },
{
    match src {
        None => {
            last.set("lmflow_packet_adopt_buffer: src is null");
            None
        },
        Some(d) => if !releasable {
            last.set("lmflow_packet_adopt_buffer: release_fn is null");
            None
        } else {
            match validate_buffer_descriptor(d, element_size) {
                Err(e) => {
                    let text = e.text();
                    let said = cat2("lmflow_packet_adopt_buffer: ", text.as_str());
                    last.set(said.as_str());
                    None
                },
                Ok(v) => {
                    let buffer = ExternalBuffer {
                        address: d.address,
                        shape: copied(&d.shape),
                        strides: copied(&d.strides),
                        ndim: d.ndim,
                        dtype: d.dtype,
                        readonly: d.flags & BUF_FLAG_READONLY != 0,
                        element_count: v.element_count,
                        byte_size: v.byte_size,
                    };
                    Some(ExternalPacket { buffer, stamp: Timestamp(ts) })
                },
            }
        },
    }
}

} // verus!

//! Packets that go over the boundary and come back.

use lmflow::buffer::{BufferDescriptor, BUF_FLAG_READONLY, DEVICE_CPU};
use lmflow::crossing::{
    borrow_packet, flow_packet_as_bool, flow_packet_as_buffer, flow_packet_as_bytes,
    flow_packet_as_f64, flow_packet_as_i64, flow_packet_as_str, flow_packet_clone,
    flow_packet_drop, flow_packet_from_bool, flow_packet_from_bytes, flow_packet_from_f64,
    flow_packet_from_i64, flow_packet_from_str, flow_packet_make_mutable_buffer,
    flow_packet_make_mutable_bytes, flow_register_type_name, lmflow_packet_adopt_buffer, lmflow_packet_from_buffer,
    own_packet, take_packet, Builtin, FlowPacket, PackedBuffer, Release,
};
use lmflow::packet::Packet;
use lmflow::runtime::LastError;
use lmflow::status::{Error, INVALID_ARG, OK, UNSUPPORTED};
use lmflow::timestamp::Timestamp;

/// A packet that the other side made itself.
fn foreign(x: u64, stamp: i64) -> FlowPacket {
    FlowPacket { payload: Some(x), type_id: 7, timestamp: stamp, owner: None, releasable: true }
}

#[test]
fn packets_come_back_as_they_went() {
    let p = Packet::new(5).of_type(2, 8).at(Timestamp(9));
    let fp = own_packet(p);
    assert_eq!((fp.payload, fp.type_id, fp.timestamp, fp.owner), (Some(5), 2, 9, Some(5)));
    assert_eq!(borrow_packet(&p), fp);
    assert_eq!(take_packet(fp, 2, 8), p);
    let empty = Packet::empty().at(Timestamp(3));
    assert_eq!(own_packet(empty), FlowPacket { timestamp: 3, ..FlowPacket::default() });
    assert_eq!(take_packet(own_packet(empty), 0, 0), empty);
    let taken = take_packet(foreign(8, 1), 0, 0);
    assert_eq!((taken.payload, taken.kind, taken.stamp), (Some(8), 7, Timestamp(1)));
}

#[test]
fn packets_are_let_go_once_only() {
    let mut p = foreign(4, 0);
    assert_eq!(flow_packet_drop(Some(&mut p)), Release::Foreign(4));
    assert_eq!(p, FlowPacket::default());
    assert_eq!(flow_packet_drop(Some(&mut p)), Release::Nothing);
    let mut q = own_packet(Packet::new(6));
    assert_eq!(flow_packet_drop(Some(&mut q)), Release::Reference(6));
    assert_eq!(flow_packet_drop(Some(&mut q)), Release::Nothing);
    assert_eq!(flow_packet_drop(None), Release::Nothing);
    let mut kept = FlowPacket { releasable: false, ..foreign(4, 0) };
    assert_eq!(flow_packet_drop(Some(&mut kept)), Release::Nothing);
}

#[test]
fn only_packets_of_the_engine_are_cloned() {
    let mut last = LastError::new();
    let p = own_packet(Packet::new(6).at(Timestamp(2)));
    assert_eq!(flow_packet_clone(&mut last, Some(&p), 0), p);
    assert_eq!(last.take(), "");
    assert_eq!(flow_packet_clone(&mut last, Some(&foreign(4, 0)), 7), FlowPacket::default());
    assert!(last.take().contains("owner"));
    assert_eq!(flow_packet_clone(&mut last, None, 7), FlowPacket::default());
}

#[test]
fn built_in_contents_come_back() {
    let number = flow_packet_from_i64(-7, 3);
    assert_eq!(number.stamp, Timestamp(3));
    assert_eq!(flow_packet_as_i64(Some(&number.content)), Some(-7));
    assert_eq!(flow_packet_as_f64(Some(&number.content)), None);
    let fraction = flow_packet_from_f64(1.5f64.to_bits(), 4);
    assert_eq!(fraction.stamp, Timestamp(4));
    assert_eq!(flow_packet_as_f64(Some(&fraction.content)).map(f64::from_bits), Some(1.5));
    let truth = flow_packet_from_bool(true, 5);
    assert_eq!((flow_packet_as_bool(Some(&truth.content)), truth.stamp), (Some(true), Timestamp(5)));
    let text = flow_packet_from_str(Some("你好"), 6);
    assert_eq!(flow_packet_as_str(Some(&text.content)).unwrap(), "你好");
    assert_eq!(text.stamp, Timestamp(6));
    assert_eq!(flow_packet_as_str(Some(&flow_packet_from_str(None, 0).content)).unwrap(), "");
    assert_eq!(flow_packet_as_str(Some(&flow_packet_from_str(Some("a\0b"), 0).content)).unwrap(), "");
    let bytes = flow_packet_from_bytes(Some(&vec![1, 2, 3, 4]), 7);
    assert_eq!(flow_packet_as_bytes(Some(&bytes.content)).unwrap(), &vec![1, 2, 3, 4]);
    assert_eq!(bytes.stamp, Timestamp(7));
    assert_eq!(flow_packet_as_bytes(Some(&flow_packet_from_bytes(None, 0).content)).unwrap().len(), 0);
    assert!(flow_packet_as_buffer(Some(&bytes.content)).is_none());
    assert_eq!(flow_packet_as_i64(None), None);
}

#[test]
fn only_owned_packets_become_writable() {
    let mut last = LastError::new();
    let p = own_packet(Packet::new(1));
    let (rc, bytes) =
        flow_packet_make_mutable_bytes(&mut last, Some(&p), Ok(Builtin::Bytes(vec![9])));
    assert_eq!((rc, bytes), (OK, Some(vec![9])));
    let (rc, none) = flow_packet_make_mutable_bytes(&mut last, Some(&p), Ok(Builtin::I64(1)));
    assert_eq!((rc, none), (INVALID_ARG, None));
    assert!(last.take().contains("BYTES"));
    assert_eq!(
        flow_packet_make_mutable_bytes(&mut last, Some(&foreign(1, 0)), Ok(Builtin::I64(1))).0,
        INVALID_ARG
    );
    assert_eq!(flow_packet_make_mutable_bytes(&mut last, None, Ok(Builtin::I64(1))).0, INVALID_ARG);
    let refused = flow_packet_make_mutable_buffer(
        &mut last,
        Some(&p),
        Err(Error::Unsupported("not built in".to_string())),
    );
    assert_eq!(refused.0, UNSUPPORTED);
    assert_eq!(last.take(), "not built in");
    let (rc, none) = flow_packet_make_mutable_buffer(&mut last, Some(&p), Ok(Builtin::I64(1)));
    assert!(rc == INVALID_ARG && none.is_none());
    assert!(last.take().contains("FlowBuffer"));
}

fn matrix(shape: &[i64], strides: &[i64]) -> BufferDescriptor {
    BufferDescriptor {
        address: 4096,
        shape: shape.to_vec(),
        strides: strides.to_vec(),
        ndim: shape.len() as i32,
        dtype: 3,
        flags: BUF_FLAG_READONLY,
        device: DEVICE_CPU,
        reserved: (0, 0),
    }
}

#[test]
fn foreign_memory_is_copied() {
    let mut last = LastError::new();
    let d = matrix(&[2, 2], &[1, -2]);
    let copy = lmflow_packet_from_buffer(&mut last, Some(&d), 1, &vec![10, 11, 12, 13], 5)
        .unwrap();
    assert_eq!(copy.stamp, Timestamp(5));
    let m = flow_packet_as_buffer(Some(&copy.content)).unwrap();
    assert_eq!((m.shape.clone(), m.ndim, m.dtype), (vec![2, 2], 2, 3));
    assert_eq!(m.bytes, vec![12, 10, 13, 11]);
    assert!(lmflow_packet_from_buffer(&mut last, None, 1, &vec![], 0).is_none());
    assert_eq!(last.take(), "lmflow_packet_from_buffer: src is null");
    assert!(lmflow_packet_from_buffer(&mut last, Some(&d), 0, &vec![], 0).is_none());
    assert_eq!(last.take(), "lmflow_packet_from_buffer: buffer dtype 3 is unknown");
}

#[test]
fn foreign_memory_is_adopted() {
    let mut last = LastError::new();
    let d = matrix(&[2, 3], &[6, 2]);
    let p = lmflow_packet_adopt_buffer(&mut last, Some(&d), 2, true, 8).unwrap();
    assert_eq!(p.stamp, Timestamp(8));
    let b = p.buffer;
    assert_eq!((b.address, b.element_count, b.byte_size, b.readonly), (4096, 6, 12, true));
    assert_eq!((b.shape, b.strides, b.ndim, b.dtype), (vec![2, 3], vec![6, 2], 2, 3));
    assert!(lmflow_packet_adopt_buffer(&mut last, Some(&d), 2, false, 0).is_none());
    assert_eq!(last.take(), "lmflow_packet_adopt_buffer: release_fn is null");
    assert!(lmflow_packet_adopt_buffer(&mut last, None, 2, true, 0).is_none());
    assert_eq!(last.take(), "lmflow_packet_adopt_buffer: src is null");
    let broken = matrix(&[-1], &[1]);
    assert!(lmflow_packet_adopt_buffer(&mut last, Some(&broken), 1, true, 0).is_none());
    assert!(last.take().starts_with("lmflow_packet_adopt_buffer: buffer shape[0]"));
}

#[test]
fn a_transposed_view_is_copied_in_its_own_order() {
    let mut last = LastError::new();
    let d = BufferDescriptor {
        shape: vec![2, 2, 0, 0],
        strides: vec![1, 2, 0, 0],
        ndim: 2,
        dtype: 0,
        flags: 0,
        ..matrix(&[2, 2], &[1, 2])
    };
    let copy = lmflow_packet_from_buffer(&mut last, Some(&d), 1, &vec![1, 2, 3, 4], 5).unwrap();
    assert_eq!(copy.stamp, Timestamp(5));
    assert_eq!(flow_packet_as_buffer(Some(&copy.content)).unwrap().bytes, vec![1, 3, 2, 4]);
}

#[test]
fn a_clone_is_what_the_engine_keeps() {
    let mut last = LastError::new();
    let altered = FlowPacket { payload: Some(99), type_id: 98, ..own_packet(Packet::new(6)) };
    let copy = flow_packet_clone(&mut last, Some(&altered), 2);
    assert_eq!((copy.payload, copy.type_id, copy.owner), (Some(6), 2, Some(6)));
}

#[test]
fn types_are_not_named_over_the_boundary() {
    let mut last = LastError::new();
    assert_eq!(flow_register_type_name(&mut last, 7, Some("Image")), UNSUPPORTED);
    assert!(last.take().contains("flow_register_type_name"));
}

#[test]
fn cow_copies_when_shared() {
    let mut last = LastError::new();
    let d = BufferDescriptor { dtype: 0, ..matrix(&[4], &[1]) };
    let made = lmflow_packet_from_buffer(&mut last, Some(&d), 1, &vec![0x11, 0, 0, 0], 0).unwrap();
    let b = flow_packet_as_buffer(Some(&made.content)).unwrap();

    let mut p1 = own_packet(Packet::new(1).of_type(6, 4).at(made.stamp));
    let mut p2 = flow_packet_clone(&mut last, Some(&p1), 6);
    assert!(p2.owner.is_some());
    assert_eq!(p2.payload, p1.payload, "a clone shares the data");

    let copy = PackedBuffer {
        shape: b.shape.clone(),
        ndim: b.ndim,
        dtype: b.dtype,
        bytes: b.bytes.clone(),
    };
    let (rc, m) =
        flow_packet_make_mutable_buffer(&mut last, Some(&p2), Ok(Builtin::Buffer(copy)));
    let mut m = m.unwrap();
    assert_eq!(rc, OK);
    assert_ne!(m.bytes.as_ptr(), b.bytes.as_ptr(), "shared data must be copied");
    m.bytes[0] = 0x22;
    assert_eq!(b.bytes[0], 0x11, "the other branch must stay as it is");

    assert_eq!(flow_packet_drop(Some(&mut p1)), Release::Reference(1));
    assert_eq!(flow_packet_drop(Some(&mut p2)), Release::Reference(1));
}

#[test]
fn builtin_packet_types_roundtrip() {
    let p = flow_packet_from_i64(-7, 3);
    assert_eq!(flow_packet_as_i64(Some(&p.content)), Some(-7));
    assert_eq!(p.stamp.0, 3);
    assert!(flow_packet_as_f64(Some(&p.content)).is_none(), "a whole number is no fraction");
    let p = flow_packet_from_f64(1.5f64.to_bits(), 0);
    assert_eq!(flow_packet_as_f64(Some(&p.content)).map(f64::from_bits), Some(1.5));
    let p = flow_packet_from_bool(true, 0);
    assert_eq!(flow_packet_as_bool(Some(&p.content)), Some(true));
    let p = flow_packet_from_str(Some("你好"), 0);
    assert_eq!(flow_packet_as_str(Some(&p.content)).unwrap(), "你好");
    let data = vec![1u8, 2, 3, 4];
    let p = flow_packet_from_bytes(Some(&data), 0);
    let bytes = flow_packet_as_bytes(Some(&p.content)).unwrap();
    assert_eq!(bytes.len(), 4);
    assert_eq!(bytes, &data);
}

//! Foreign memory and the pool of buffers.

use lmflow::buffer::{
    gather, validate_buffer_descriptor, BufferAllocation, BufferDescriptor, BufferPool,
    BUF_FLAG_READONLY, DEVICE_CPU,
};
use lmflow::status::INVALID_ARG;

fn matrix(shape: &[i64], strides: &[i64]) -> BufferDescriptor {
    BufferDescriptor {
        address: 4096,
        shape: shape.to_vec(),
        strides: strides.to_vec(),
        ndim: shape.len() as i32,
        dtype: 0,
        flags: BUF_FLAG_READONLY,
        device: DEVICE_CPU,
        reserved: (0, 0),
    }
}

#[test]
fn rows_that_follow_each_other_are_packed() {
    let d = matrix(&[2, 3], &[6, 2]);
    let v = match validate_buffer_descriptor(&d, 2) {
        Ok(v) => v,
        Err(e) => panic!("{}", e.text()),
    };
    assert_eq!((v.element_count, v.byte_size, v.low, v.last), (6, 12, 0, 11));
    let window: Vec<u8> = (0..12).collect();
    assert_eq!(gather(&window, &d, &v), window);
}

#[test]
fn columns_and_backward_steps_are_gathered() {
    let d = matrix(&[2, 2], &[1, -2]);
    let v = match validate_buffer_descriptor(&d, 1) {
        Ok(v) => v,
        Err(e) => panic!("{}", e.text()),
    };
    assert_eq!((v.element_count, v.low, v.last), (4, -2, 1));
    assert_eq!(gather(&vec![10, 11, 12, 13], &d, &v), vec![12, 10, 13, 11]);
}

fn code(d: &BufferDescriptor, element_size: usize) -> i32 {
    match validate_buffer_descriptor(d, element_size) {
        Ok(_) => 0,
        Err(e) => e.code(),
    }
}

#[test]
fn broken_descriptions_are_refused() {
    assert_eq!(code(&matrix(&[2], &[1]), 1), 0);
    assert_eq!(code(&matrix(&[2], &[1]), 0), INVALID_ARG);
    assert_eq!(code(&matrix(&[-1], &[1]), 1), INVALID_ARG);
    assert_eq!(code(&BufferDescriptor { ndim: -1, ..matrix(&[2], &[1]) }, 1), INVALID_ARG);
    assert_eq!(code(&BufferDescriptor { ndim: 9, ..matrix(&[2], &[1]) }, 1), INVALID_ARG);
    assert_eq!(code(&BufferDescriptor { address: 0, ..matrix(&[2], &[1]) }, 1), INVALID_ARG);
    assert_eq!(code(&BufferDescriptor { device: 7, ..matrix(&[2], &[1]) }, 1), INVALID_ARG);
    assert_eq!(code(&BufferDescriptor { flags: 8, ..matrix(&[2], &[1]) }, 1), INVALID_ARG);
    assert_eq!(code(&matrix(&[i64::MAX, i64::MAX], &[1, 1]), 1), INVALID_ARG);
}

fn piece(data: usize, size: usize, align: usize) -> BufferAllocation {
    BufferAllocation { data, size, align }
}

#[test]
fn memory_is_kept_up_to_the_limit() {
    let mut pool = BufferPool::new(100);
    assert!(pool.is_active());
    assert!(pool.release(piece(1, 60, 8)));
    assert!(!pool.release(piece(2, 50, 8)));
    assert!(pool.release(piece(3, 40, 16)));
    assert_eq!(pool.held(), 100);
    assert!(pool.take(60, 16).is_none());
    assert_eq!(pool.take(60, 8).unwrap().data, 1);
    assert_eq!(pool.held(), 40);
    let rest = pool.drain();
    assert_eq!(rest.len(), 1);
    assert_eq!(rest[0].data, 3);
}

#[test]
fn pools_without_a_limit_keep_nothing() {
    let mut pool = BufferPool::new(0);
    assert!(!pool.is_active());
    assert!(!pool.release(piece(1, 8, 8)));
    assert!(pool.take(8, 8).is_none());
}

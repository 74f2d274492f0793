use std::ops::Range;
use std::sync::Arc;

use redpine::buffer::unreliable::{RxBuffer, TxBuffer};
use redpine::buffer::{FragmentRc, FragmentRef, Window};

// Tests peek in all cases that we test pop
fn peek_and_pop_sendable(send_buf: &mut TxBuffer) -> Option<(u32, FragmentRc)> {
    let peek_result = match send_buf.peek_sendable() {
        Some(result) => Some((result.0, result.1.clone())),
        None => None,
    };

    let pop_result = send_buf.pop_sendable();

    assert_eq!(peek_result, pop_result);

    return pop_result;
}

fn expect_pop_fail(send_buf: &mut TxBuffer) {
    assert_eq!(peek_and_pop_sendable(send_buf), None);
}

fn fragmentation_trial(
    initial_base_id: u32,
    fragment_size: usize,
    packet_data: &Box<[u8]>,
    ranges: &[Range<usize>],
) {
    let mut send_buf = TxBuffer::new(initial_base_id, fragment_size);

    // Enqueue a single packet
    send_buf.push(packet_data.clone(), u64::max_value());

    let packet_data_rc = Arc::new(packet_data.clone());

    // Test the ranges and IDs of resulting fragments
    for (idx, range) in ranges.iter().enumerate() {
        let (fragment_id, fragment) = peek_and_pop_sendable(&mut send_buf).unwrap();

        assert_eq!(fragment_id, initial_base_id.wrapping_add(idx as u32));

        assert_eq!(
            fragment,
            FragmentRc {
                first: idx == 0,
                last: idx == (ranges.len() - 1),
                data: packet_data_rc.clone(),
                data_range: range.clone(),
            }
        );
    }

    expect_pop_fail(&mut send_buf);
}

#[test]
fn unreliable_send_fragmentation() {
    let trials: Vec<(Vec<u8>, Vec<Range<usize>>)> = vec![
        (vec![], vec![0..0]),
        (vec![0], vec![0..1]),
        (vec![0, 1], vec![0..2]),
        (vec![0, 1, 2], vec![0..3]),
        (vec![0, 1, 2, 3], vec![0..4]),
        (vec![0, 1, 2, 3, 4], vec![0..4, 4..5]),
        (vec![0, 1, 2, 3, 4, 5], vec![0..4, 4..6]),
        (vec![0, 1, 2, 3, 4, 5, 6], vec![0..4, 4..7]),
        (vec![0, 1, 2, 3, 4, 5, 6, 7], vec![0..4, 4..8]),
        (vec![0, 1, 2, 3, 4, 5, 6, 7, 8], vec![0..4, 4..8, 8..9]),
    ];

    const FRAGMENT_SIZE: usize = 4;
    const ID_SWEEP_SIZE: u32 = 4;

    let mut initial_base_id = 0_u32.wrapping_sub(ID_SWEEP_SIZE);

    for _ in 0..=ID_SWEEP_SIZE {
        for (packet_data, ranges) in trials.iter() {
            fragmentation_trial(
                initial_base_id,
                FRAGMENT_SIZE,
                &packet_data.clone().into_boxed_slice(),
                ranges,
            )
        }

        initial_base_id = initial_base_id.wrapping_add(1);
    }
}

#[test]
fn expired_fragments_are_skipped() {
    let mut send_buf = TxBuffer::new(0, 4);
    send_buf.push(vec![1, 2, 3, 4, 5].into_boxed_slice(), 10);
    send_buf.push(vec![6].into_boxed_slice(), 20);
    send_buf.push(vec![7].into_boxed_slice(), 5);

    // Not expired yet
    send_buf.pop_expired(9);
    assert_eq!(send_buf.peek_sendable().unwrap().1.data_range, 0..4);

    // Both fragments of the first packet expire; the last packet waits behind the second one
    send_buf.pop_expired(10);
    let (id, fragment) = send_buf.pop_sendable().unwrap();
    assert_eq!(id, 0);
    assert_eq!(fragment.borrowed().data, &[6]);

    let (id, fragment) = send_buf.pop_sendable().unwrap();
    assert_eq!(id, 1);
    assert_eq!(fragment.borrowed().data, &[7]);
    assert!(send_buf.pop_sendable().is_none());
}

fn fragment(first: bool, last: bool, data: &'static [u8]) -> FragmentRef<'static> {
    FragmentRef { first, last, data }
}

#[test]
fn unreliable_reassembly() {
    let mut recv_buf = RxBuffer::new(0, 4);

    // Starts anywhere
    assert_eq!(recv_buf.receive(100, &fragment(true, false, &[1, 2, 3, 4])), None);
    assert_eq!(recv_buf.next_expected_id(), 101);
    assert_eq!(
        recv_buf.receive(101, &fragment(false, true, &[5])),
        Some(vec![1, 2, 3, 4, 5].into_boxed_slice())
    );

    // A gap makes the rest of a packet useless
    assert_eq!(recv_buf.receive(102, &fragment(true, false, &[1, 2, 3, 4])), None);
    assert_eq!(recv_buf.receive(104, &fragment(false, true, &[9])), None);
    assert_eq!(recv_buf.next_expected_id(), 103);

    // A whole packet in one fragment gives up the packet begun
    assert_eq!(
        recv_buf.receive(110, &fragment(true, true, &[8])),
        Some(vec![8].into_boxed_slice())
    );
    assert_eq!(recv_buf.receive(111, &fragment(false, true, &[9])), None);

    // So does a reset
    assert_eq!(recv_buf.receive(120, &fragment(true, false, &[1, 2, 3, 4])), None);
    recv_buf.reset();
    assert_eq!(recv_buf.receive(121, &fragment(false, true, &[9])), None);

    // Sizes have to fit
    assert_eq!(recv_buf.receive(130, &fragment(true, false, &[1])), None);
    assert_eq!(recv_buf.receive(130, &fragment(true, true, &[1, 2, 3, 4, 5])), None);
}

#[test]
fn window_contains() {
    let window = Window::new(u32::MAX - 1, 4);
    assert!(!window.contains(u32::MAX - 2));
    assert!(window.contains(u32::MAX - 1));
    assert!(window.contains(u32::MAX));
    assert!(window.contains(0));
    assert!(window.contains(1));
    assert!(!window.contains(2));
}

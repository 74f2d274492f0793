use std::ops::Range;
use std::sync::Arc;

use redpine::buffer::reliable::{RxBuffer, TxBuffer};
use redpine::buffer::{FragmentRc, FragmentRef};

// Tests peek in all cases that we test pop
fn peek_and_pop_sendable(send_buf: &mut TxBuffer) -> Option<(u32, FragmentRc)> {
    let peek_result = match send_buf.peek_sendable() {
        Some(result) => Some((result.0, result.1.clone())),
        None => None,
    };

    let pop_result = match send_buf.pop_sendable() {
        Some(result) => Some((result.0, result.1.clone())),
        None => None,
    };

    assert_eq!(peek_result, pop_result);

    return pop_result;
}

fn basic_packet(id: u32) -> Box<[u8]> {
    vec![
        (id >> 24) as u8,
        (id >> 16) as u8,
        (id >> 8) as u8,
        id as u8,
    ]
    .into_boxed_slice()
}

fn push_basic(send_buf: &mut TxBuffer, id: u32) {
    send_buf.push(basic_packet(id));
}

fn expect_pop_basic(send_buf: &mut TxBuffer, id: u32) {
    let packet_data = Arc::new(basic_packet(id));

    let (fragment_id, fragment) = peek_and_pop_sendable(send_buf).unwrap();

    assert_eq!(fragment_id, id);

    assert_eq!(
        fragment,
        FragmentRc {
            first: true,
            last: true,
            data: packet_data,
            data_range: 0..4,
        }
    );
}

fn expect_pop_fail(send_buf: &mut TxBuffer) {
    assert_eq!(peek_and_pop_sendable(send_buf), None);
}

fn expect_ack(send_buf: &mut TxBuffer, new_base_id: u32) {
    assert_eq!(send_buf.acknowledge(new_base_id), true);
}

fn expect_ack_fail(send_buf: &mut TxBuffer, new_base_id: u32) {
    assert_eq!(send_buf.acknowledge(new_base_id), false);
}

fn fragmentation_trial(
    initial_base_id: u32,
    window_size: u32,
    fragment_size: usize,
    packet_data: &Box<[u8]>,
    ranges: &[Range<usize>],
) {
    assert!(ranges.len() <= window_size as usize);

    let mut send_buf = TxBuffer::new(initial_base_id, window_size, fragment_size);

    // Enqueue a single packet
    send_buf.push(packet_data.clone());

    let packet_data_rc = Arc::new(packet_data.clone());

    // Test the ranges and IDs of resulting fragments
    for (idx, range) in ranges.iter().enumerate() {
        let (fragment_id, fragment) = peek_and_pop_sendable(&mut send_buf).unwrap();

        assert_eq!(fragment_id, initial_base_id.wrapping_add(idx as u32));

        assert_eq!(
            fragment,
            FragmentRc {
                first: idx == 0,
                last: idx == ranges.len() - 1,
                data: Arc::clone(&packet_data_rc),
                data_range: range.clone(),
            }
        );
    }
    expect_pop_fail(&mut send_buf);
}

#[test]
fn reliable_send_fragmentation() {
    let trials: Vec<(Vec<u8>, Vec<Range<usize>>)> = vec![
        (vec![], vec![0..0]),
        (vec![0], vec![0..1]),
        (vec![0, 1], vec![0..2]),
        (vec![0, 1, 2], vec![0..3]),
        (vec![0, 1, 2, 3], vec![0..4]),
        (vec![0, 1, 2, 3, 4], vec![0..4, 4..5]),
        (vec![0, 1, 2, 3, 4, 5], vec![0..4, 4..6]),
        (vec![0, 1, 2, 3, 4, 5, 6], vec![0..4, 4..7]),
        (vec![0, 1, 2, 3, 4, 5, 6, 7], vec![0..4, 4..8]),
        (vec![0, 1, 2, 3, 4, 5, 6, 7, 8], vec![0..4, 4..8, 8..9]),
    ];

    const FRAGMENT_SIZE: usize = 4;
    const WINDOW_SIZE: u32 = 16;
    const ID_SWEEP_SIZE: u32 = 4;

    let mut initial_base_id = 0_u32.wrapping_sub(ID_SWEEP_SIZE);

    for _ in 0..=ID_SWEEP_SIZE {
        for (packet_data, ranges) in trials.iter() {
            fragmentation_trial(
                initial_base_id,
                WINDOW_SIZE,
                FRAGMENT_SIZE,
                &packet_data.clone().into_boxed_slice(),
                ranges,
            )
        }

        initial_base_id = initial_base_id.wrapping_add(1);
    }
}

fn ack_advancement_trial(initial_base_id: u32, block_size: u32, window_size: u32) {
    assert!(block_size > 0);
    assert!(block_size <= window_size);

    const FRAGMENT_SIZE: usize = 8;

    let mut send_buf = TxBuffer::new(initial_base_id, window_size, FRAGMENT_SIZE);

    // Fill send buffer with thrice as many fragments as the send window size
    for i in 0..3 * window_size {
        push_basic(&mut send_buf, initial_base_id.wrapping_add(i));
    }

    let mut next_pop_id = initial_base_id;
    let mut queue_size = 3 * window_size;

    // Pop all currently sendable fragments
    for _ in 0..window_size {
        expect_pop_basic(&mut send_buf, next_pop_id);
        next_pop_id = next_pop_id.wrapping_add(1);
        queue_size -= 1;
    }
    expect_pop_fail(&mut send_buf);

    // Ack & send remaining packets in blocks of block_size
    let mut next_ack_id = initial_base_id.wrapping_add(block_size);

    loop {
        // Permit sending block_size more packets
        expect_ack(&mut send_buf, next_ack_id);
        next_ack_id = next_ack_id.wrapping_add(block_size);

        // block_size fragments are no longer window-limited, assuming the queue is not empty
        for _ in 0..block_size.min(queue_size) {
            expect_pop_basic(&mut send_buf, next_pop_id);
            next_pop_id = next_pop_id.wrapping_add(1);
            queue_size -= 1;
        }
        expect_pop_fail(&mut send_buf);

        if queue_size == 0 {
            return;
        }
    }
}

#[test]
fn ack_advancement() {
    const WINDOW_SIZE: u32 = 16;
    const ID_SWEEP_SIZE: u32 = 3 * WINDOW_SIZE;

    let mut initial_base_id = 0_u32.wrapping_sub(ID_SWEEP_SIZE);

    for _ in 0..=ID_SWEEP_SIZE {
        for block_size in 1..=WINDOW_SIZE {
            ack_advancement_trial(initial_base_id, block_size, WINDOW_SIZE);
        }
        initial_base_id = initial_base_id.wrapping_add(1);
    }
}

fn invalid_acks_trial(initial_base_id: u32, window_size: u32) {
    const FRAGMENT_SIZE: usize = 8;
    let test_margin_size: u32 = window_size;

    for send_count in 0..window_size {
        let mut send_buf = TxBuffer::new(initial_base_id, window_size, FRAGMENT_SIZE);

        // Start with a filled send window
        for i in 0..window_size {
            push_basic(&mut send_buf, initial_base_id.wrapping_add(i));
        }

        // Send some fragments
        for i in 0..send_count {
            expect_pop_basic(&mut send_buf, initial_base_id.wrapping_add(i));
        }

        // Acks beyond valid range fail
        for i in 1..test_margin_size {
            expect_ack_fail(&mut send_buf, initial_base_id.wrapping_sub(i));
            expect_ack_fail(
                &mut send_buf,
                initial_base_id.wrapping_add(send_count).wrapping_add(i),
            );
        }

        // Sequential intermittent IDs each succeed
        for i in 0..=send_count {
            expect_ack(&mut send_buf, initial_base_id.wrapping_add(i));
        }

        // A second ack succeeds
        expect_ack(&mut send_buf, initial_base_id.wrapping_add(send_count));

        // But its neighbors do not
        expect_ack_fail(
            &mut send_buf,
            initial_base_id.wrapping_add(send_count).wrapping_sub(1),
        );
        expect_ack_fail(
            &mut send_buf,
            initial_base_id.wrapping_add(send_count).wrapping_add(1),
        );
    }
}

#[test]
fn invalid_acks() {
    const WINDOW_SIZE: u32 = 16;
    const ID_SWEEP_SIZE: u32 = 2 * WINDOW_SIZE;

    let mut initial_base_id = 0_u32.wrapping_sub(ID_SWEEP_SIZE);

    for _ in 0..=ID_SWEEP_SIZE {
        invalid_acks_trial(initial_base_id, WINDOW_SIZE);
        initial_base_id = initial_base_id.wrapping_add(1);
    }
}

fn resend_trial(initial_base_id: u32, window_size: u32) {
    const FRAGMENT_SIZE: usize = 8;

    for send_count in 0..=window_size {
        let mut send_buf = TxBuffer::new(initial_base_id, window_size, FRAGMENT_SIZE);

        // Start with a filled send window
        for i in 0..window_size {
            push_basic(&mut send_buf, initial_base_id.wrapping_add(i));
        }

        // Tx some fragments
        for i in 0..send_count {
            expect_pop_basic(&mut send_buf, initial_base_id.wrapping_add(i));
        }

        // Triple-acknowledge first sent packet (implicitly acked to begin with)
        send_buf.acknowledge(initial_base_id);
        send_buf.acknowledge(initial_base_id);

        // A resend should have been triggered, test that each sent packet is resent
        for i in 0..send_count {
            expect_pop_basic(&mut send_buf, initial_base_id.wrapping_add(i));
        }
    }
}

#[test]
fn resend() {
    const WINDOW_SIZE: u32 = 16;
    const ID_SWEEP_SIZE: u32 = WINDOW_SIZE;

    let mut initial_base_id = 0_u32.wrapping_sub(ID_SWEEP_SIZE);

    for _ in 0..=ID_SWEEP_SIZE {
        resend_trial(initial_base_id, WINDOW_SIZE);
        initial_base_id = initial_base_id.wrapping_add(1);
    }
}

#[test]
fn resend_all_restarts_at_base() {
    let mut send_buf = TxBuffer::new(7, 4, 8);
    for i in 0..3 {
        push_basic(&mut send_buf, 7 + i);
    }
    expect_pop_basic(&mut send_buf, 7);
    expect_pop_basic(&mut send_buf, 8);
    expect_ack(&mut send_buf, 8);
    expect_pop_basic(&mut send_buf, 9);

    send_buf.resend_all();
    expect_pop_basic(&mut send_buf, 8);
    expect_pop_basic(&mut send_buf, 9);
    expect_pop_fail(&mut send_buf);
}

// Feeds all fragments of a packet to a receive buffer
#[test]
fn reliable_reassembly() {
    for fragment_size in [4usize, 7, 13] {
        let mut send_buf = TxBuffer::new(u32::MAX - 20, 64, fragment_size);
        let mut recv_buf = RxBuffer::new(u32::MAX - 20, fragment_size);

        for packet_size in 0..=20usize {
            let packet: Vec<u8> = (0..packet_size).map(|i| (3 * i + 1) as u8).collect();
            send_buf.push(packet.clone().into_boxed_slice());

            let mut received = None;
            while let Some((id, fragment)) = send_buf.pop_sendable() {
                assert_eq!(received, None);
                received = recv_buf.receive(id, &fragment.borrowed());
            }
            assert_eq!(received, Some(packet.into_boxed_slice()));
            assert!(send_buf.acknowledge(recv_buf.next_expected_id()));
        }
    }
}

#[test]
fn reliable_rejects_bad_fragments() {
    let mut recv_buf = RxBuffer::new(10, 4);

    let fragment = |last: bool, data: &'static [u8]| FragmentRef {
        first: true,
        last,
        data,
    };

    // Not the next one
    assert_eq!(recv_buf.receive(11, &fragment(true, &[1])), None);
    assert_eq!(recv_buf.next_expected_id(), 10);
    // Too long
    assert_eq!(recv_buf.receive(10, &fragment(true, &[1, 2, 3, 4, 5])), None);
    assert_eq!(recv_buf.next_expected_id(), 10);
    // Too short for a fragment which is not the last one
    assert_eq!(recv_buf.receive(10, &fragment(false, &[1, 2, 3])), None);
    assert_eq!(recv_buf.next_expected_id(), 10);
    // As it should be
    assert_eq!(
        recv_buf.receive(10, &fragment(true, &[1, 2, 3, 4])),
        Some(vec![1, 2, 3, 4].into_boxed_slice())
    );
    assert_eq!(recv_buf.next_expected_id(), 11);
}

#[test]
fn packets_come_out_in_order_however_fragments_arrive() {
    let packets: [&[u8]; 4] = [b"abcdefgh", b"", b"0123", b"last one"];

    let mut send_buf = TxBuffer::new(0xFFFF_FFFD, 4096, 4);
    for packet in packets {
        send_buf.push(packet.to_vec().into_boxed_slice());
    }
    let mut fragments = Vec::new();
    while let Some((id, fragment)) = peek_and_pop_sendable(&mut send_buf) {
        fragments.push((id, fragment));
    }
    assert_eq!(fragments.len(), 6);

    let mut recv_buf = RxBuffer::new(0xFFFF_FFFD, 4);
    let mut received: Vec<Box<[u8]>> = Vec::new();
    let mut arrive = |i: usize, received: &mut Vec<Box<[u8]>>| {
        let (id, fragment) = &fragments[i];
        if let Some(packet) = recv_buf.receive(*id, &fragment.borrowed()) {
            received.push(packet);
        }
    };

    // Later fragments are of no use yet
    for i in [5, 1, 2, 0, 0] {
        arrive(i, &mut received);
    }
    assert!(received.is_empty());
    for i in [1, 1, 0, 3] {
        arrive(i, &mut received);
    }
    assert_eq!(received.len(), 1);
    for i in [2, 1, 3, 4, 4, 3, 5, 5] {
        arrive(i, &mut received);
    }
    assert_eq!(received.len(), 4);
    for (packet, expected) in received.iter().zip(packets) {
        assert_eq!(&packet[..], expected);
    }
}

#[test]
fn an_overtaking_ack_waits_for_a_restart() {
    let mut send_buf = TxBuffer::new(0, 8, 8);
    for id in 0..4 {
        push_basic(&mut send_buf, id);
    }
    for id in 0..4 {
        expect_pop_basic(&mut send_buf, id);
    }

    // Start again, and learn that most fragments had arrived after all
    expect_ack(&mut send_buf, 0);
    expect_ack(&mut send_buf, 0);
    expect_ack(&mut send_buf, 3);
    expect_pop_fail(&mut send_buf);

    expect_ack(&mut send_buf, 3);
    expect_ack(&mut send_buf, 3);
    expect_pop_basic(&mut send_buf, 3);
    expect_pop_fail(&mut send_buf);
}

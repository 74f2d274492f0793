use std::collections::HashMap;

use redpine::endpoint::segment_rx::SegmentRx;
use redpine::endpoint::segment_tx::SegmentTx;

#[test]
fn send_receive_window() {
    let mut tx = SegmentTx::new(0, 128);

    for i in 0..128 {
        assert_eq!(tx.can_send(), true);
        assert_eq!(tx.next_id(), i);
        assert_eq!(tx.bytes_in_transit(), (i * 5) as usize);
        tx.mark_sent(5);
    }

    assert_eq!(tx.can_send(), false);

    for i in 0..128 {
        assert_eq!(tx.acknowledge(i + 1, 0x1, false), false);
        assert_eq!(tx.bytes_in_transit(), ((128 - i - 1) * 5) as usize);
        assert_eq!(tx.can_send(), true);
    }
}

fn new_filled_window(size: usize) -> SegmentTx {
    let mut tx = SegmentTx::new(0, 128);

    for _ in 0..size {
        tx.mark_sent(0);
    }

    tx
}

#[test]
fn drop_detection() {
    const WINDOW_SIZE: usize = 128;

    const DUMMY_NONCE: bool = false;

    // Drop declared if 3 segments are acked after the first unacked segment
    let mut tx = new_filled_window(WINDOW_SIZE);
    assert_eq!(tx.acknowledge(5, 0b01001, DUMMY_NONCE), false);

    let mut tx = new_filled_window(WINDOW_SIZE);
    assert_eq!(tx.acknowledge(5, 0b01001, DUMMY_NONCE), false);

    let mut tx = new_filled_window(WINDOW_SIZE);
    assert_eq!(tx.acknowledge(5, 0b01101, DUMMY_NONCE), true);

    let mut tx = new_filled_window(WINDOW_SIZE);
    assert_eq!(tx.acknowledge(5, 0b10011, DUMMY_NONCE), false);

    let mut tx = new_filled_window(WINDOW_SIZE);
    assert_eq!(tx.acknowledge(5, 0b10111, DUMMY_NONCE), true);

    // History can be updated without causing a drop
    let mut tx = new_filled_window(WINDOW_SIZE);
    assert_eq!(tx.acknowledge(5, 0b10011, DUMMY_NONCE), false);
    assert_eq!(tx.acknowledge(5, 0b11011, DUMMY_NONCE), false);
    assert_eq!(tx.acknowledge(7, 0b11101, DUMMY_NONCE), false);
    assert_eq!(tx.acknowledge(7, 0b11111, DUMMY_NONCE), false);

    // History can be updated and cause a drop
    let mut tx = new_filled_window(WINDOW_SIZE);
    assert_eq!(tx.acknowledge(5, 0b10011, DUMMY_NONCE), false);
    assert_eq!(tx.acknowledge(7, 0b11111, DUMMY_NONCE), true);

    // Maximum gap between acknowledged segments
    let mut tx = new_filled_window(WINDOW_SIZE);
    assert_eq!(tx.acknowledge(32, (0b1 << 31) | 0b001, DUMMY_NONCE), false);

    let mut tx = new_filled_window(WINDOW_SIZE);
    assert_eq!(tx.acknowledge(32, (0b1 << 31) | 0b011, DUMMY_NONCE), false);

    let mut tx = new_filled_window(WINDOW_SIZE);
    assert_eq!(tx.acknowledge(32, (0b1 << 31) | 0b111, DUMMY_NONCE), true);

    // Maximum possible acknowledgement, 32 segments total
    let mut tx = new_filled_window(WINDOW_SIZE);
    assert_eq!(tx.acknowledge(32, u32::MAX, DUMMY_NONCE), false);

    // Past-maximum acknowledgement always fails
    let mut tx = new_filled_window(WINDOW_SIZE);
    assert_eq!(tx.acknowledge(33, u32::MAX, DUMMY_NONCE), true);

    // Any unacknowledged segment older than 32 is a drop, even if < 3 acked thereafter
    let mut tx = new_filled_window(WINDOW_SIZE);
    assert_eq!(tx.acknowledge(31, 0b0, DUMMY_NONCE), false);
    assert_eq!(tx.acknowledge(32, 0b0, DUMMY_NONCE), true);

    let mut tx = new_filled_window(WINDOW_SIZE);
    assert_eq!(tx.acknowledge(32, 0b1, DUMMY_NONCE), true);

    let mut tx = new_filled_window(WINDOW_SIZE);
    assert_eq!(tx.acknowledge(16, 0b1, DUMMY_NONCE), false);
    assert_eq!(tx.acknowledge(32, 0b1, DUMMY_NONCE), true);

    let mut tx = new_filled_window(WINDOW_SIZE);
    assert_eq!(tx.acknowledge(16, 0b1, DUMMY_NONCE), false);
    assert_eq!(tx.acknowledge(31, 0b1, DUMMY_NONCE), false);
    assert_eq!(tx.acknowledge(32, 0b0, DUMMY_NONCE), true);
}

#[test]
fn invalid_segment_acks() {
    let mut tx = SegmentTx::new(u32::MAX, 64);
    tx.mark_sent(3);
    tx.mark_sent(4);

    // Neither the past nor the future can be acknowledged
    assert_eq!(tx.acknowledge(u32::MAX - 1, 0x1, false), false);
    assert_eq!(tx.acknowledge(2, 0x1, false), false);
    assert_eq!(tx.bytes_in_transit(), 7);

    assert_eq!(tx.acknowledge(1, 0x3, false), false);
    assert_eq!(tx.bytes_in_transit(), 0);
}

// A report with the wrong nonce does not count
#[test]
fn nonces_are_verified() {
    for base_id in [0u32, 40, 63, 100, u32::MAX - 20] {
        let mut tx = SegmentTx::new(base_id, 64);
        let mut nonces = Vec::new();
        for i in 0..40u32 {
            let nonce = (i * i) % 3 == 1;
            tx.set_next_nonce(nonce);
            nonces.push(nonce);
            tx.mark_sent(1);
        }

        // Five segments at a time, all received
        for block in 0..8usize {
            let mut checksum = false;
            for nonce in nonces[5 * block..5 * block + 5].iter() {
                checksum ^= *nonce;
            }
            let next_id = base_id.wrapping_add(5 * block as u32 + 5);
            assert_eq!(tx.acknowledge(next_id, 0b11111, checksum), false);
        }
    }

    // The same report with the wrong checksum leaves five segments missing, which three more
    // segments reveal
    let mut tx = SegmentTx::new(0, 64);
    for i in 0..8u32 {
        tx.set_next_nonce(i == 2);
        tx.mark_sent(1);
    }
    assert_eq!(tx.acknowledge(5, 0b11111, false), false);
    assert_eq!(tx.acknowledge(8, 0b00111, false), true);
}

#[test]
fn random_nonces_are_kept() {
    let mut tx = SegmentTx::new(1000, 64);
    let mut seen = [false; 2];
    for _ in 0..5000 {
        let nonce = tx.compute_next_nonce();
        seen[nonce as usize] = true;
        let id = tx.next_id();
        tx.mark_sent(1);
        assert_eq!(tx.acknowledge(id.wrapping_add(1), 0b1, nonce), false);
        assert_eq!(tx.bytes_in_transit(), 0);
    }
    assert_eq!(seen, [true, true]);
}

fn test(rounds: &[(u8, Box<[u8]>, u8, u8)]) {
    let mut nonces = HashMap::new();

    let mut rx = SegmentRx::new(0, 128, 1500);

    for round in rounds.into_iter() {
        let id = round.0 as u32;

        // Generate a random nonce for this segment, save for later
        let nonce = rand::random::<bool>();
        if !nonces.contains_key(&id) {
            nonces.insert(id, nonce);
        }

        // A u8 ID is used so that it fits into a single byte
        let ref data = [id as u8];

        // Track all received packets
        let mut delivered = Vec::new();

        // Actually call receive
        rx.receive(id, nonce, data, &mut delivered);

        let recv_buffer: Vec<u8> = delivered.iter().map(|data| data[0]).collect();

        let next_id = rx.next_expected_id();
        let (rx_history, rx_checksum) = rx.next_ack_info();

        // Test handled segments
        assert_eq!(recv_buffer, round.1.clone().into_vec());

        // Reported receive window base ID should match
        assert_eq!(next_id, round.2 as u32);

        // Reported ack history should match
        assert_eq!(rx_history, round.3);

        // Reported nonce checksum should match manually computed value
        let mut checksum_ref = false;
        for i in 0..8 {
            if rx_history & (1 << i) != 0 {
                let acked_id = next_id.wrapping_sub(1).wrapping_sub(i) as u32;
                checksum_ref ^= nonces[&acked_id];
            }
        }
        assert_eq!(rx_checksum, checksum_ref);
    }
}

#[test]
fn sequential_receive() {
    let ref rounds = [
        (0, vec![0].into(), 1, 0b00001),
        (1, vec![1].into(), 2, 0b00011),
        (2, vec![2].into(), 3, 0b00111),
        (3, vec![3].into(), 4, 0b01111),
        (4, vec![4].into(), 5, 0b11111),
    ];

    test(rounds);
}

#[test]
fn nonsequential_receive() {
    let ref rounds = [
        (0, vec![0].into(), 1, 0b00001),
        (2, vec![].into(), 1, 0b00001),
        (1, vec![1, 2].into(), 3, 0b00111),
        (3, vec![3].into(), 4, 0b01111),
        (4, vec![4].into(), 5, 0b11111),
    ];

    test(rounds);

    let ref rounds = [
        (0, vec![0].into(), 1, 0b00001),
        (3, vec![].into(), 1, 0b00001),
        (2, vec![].into(), 1, 0b00001),
        (1, vec![1, 2, 3].into(), 4, 0b01111),
        (4, vec![4].into(), 5, 0b11111),
    ];

    test(rounds);

    let ref rounds = [
        (0, vec![0].into(), 1, 0b00001),
        (2, vec![].into(), 1, 0b00001),
        (3, vec![].into(), 1, 0b00001),
        (1, vec![1, 2, 3].into(), 4, 0b01111),
        (4, vec![4].into(), 5, 0b11111),
    ];

    test(rounds);

    let ref rounds = [
        (0, vec![0].into(), 1, 0b00001),
        (2, vec![].into(), 1, 0b00001),
        (4, vec![].into(), 1, 0b00001),
        (1, vec![1, 2].into(), 3, 0b00111),
        (3, vec![3, 4].into(), 5, 0b11111),
    ];

    test(rounds);
}

#[test]
fn skips() {
    let ref rounds = [
        (0, vec![0].into(), 1, 0b00001),
        (2, vec![].into(), 1, 0b00001),
        (3, vec![].into(), 1, 0b00001),
        (4, vec![2, 3, 4].into(), 5, 0b10111),
    ];

    test(rounds);

    let ref rounds = [
        (0, vec![0].into(), 1, 0b00001),
        (2, vec![].into(), 1, 0b00001),
        (4, vec![].into(), 1, 0b00001),
        (6, vec![2].into(), 3, 0b00101),
        (5, vec![4, 5, 6].into(), 7, 0b10111),
    ];

    test(rounds);

    let ref rounds = [
        (20, vec![].into(), 0, 0b00000),
        (50, vec![].into(), 0, 0b00000),
        (60, vec![20].into(), 21, 0b00001),
        (70, vec![50].into(), 51, 0b00001),
    ];

    test(rounds);
}

#[test]
fn beyond_window() {
    let ref rounds = [
        (127, vec![].into(), 0, 0b00000),
        (128, vec![].into(), 0, 0b00000),
        (129, vec![].into(), 0, 0b00000),
    ];

    test(rounds);
}

#[test]
fn dup_rejection() {
    let ref rounds = [
        (1, vec![].into(), 0, 0b00000),
        (1, vec![].into(), 0, 0b00000),
        (1, vec![].into(), 0, 0b00000),
        (2, vec![].into(), 0, 0b00000),
        (1, vec![].into(), 0, 0b00000),
        (2, vec![].into(), 0, 0b00000),
        (0, vec![0, 1, 2].into(), 3, 0b00111),
    ];

    test(rounds);
}

#[test]
fn sync_delivers_what_is_held_back() {
    let mut rx = SegmentRx::new(0, 128, 16);
    let mut delivered = Vec::new();

    assert_eq!(rx.receive(2, true, &[2], &mut delivered), 1);
    assert_eq!(rx.receive(4, true, &[4], &mut delivered), 2);
    assert!(delivered.is_empty());

    // Not past the segments held back
    rx.sync(4, &mut delivered);
    assert!(delivered.is_empty());
    assert_eq!(rx.next_expected_id(), 0);
    // Beyond the window
    rx.sync(129, &mut delivered);
    assert_eq!(rx.next_expected_id(), 0);

    rx.sync(6, &mut delivered);
    assert_eq!(delivered, vec![vec![2], vec![4]]);
    assert_eq!(rx.next_expected_id(), 6);
    // Segments 2 and 4 were received, the others were not
    assert_eq!(rx.next_ack_info(), (0b01010, false));
}

#[test]
fn sync_catches_up_with_nothing_held_back() {
    let mut rx = SegmentRx::new(100, 128, 16);
    let mut delivered = Vec::new();
    rx.sync(105, &mut delivered);
    assert_eq!(rx.next_expected_id(), 105);
    assert!(delivered.is_empty());
    assert_eq!(rx.next_ack_info(), (0, false));
    // Neither the past nor the present makes a difference
    rx.sync(105, &mut delivered);
    rx.sync(100, &mut delivered);
    assert_eq!(rx.next_expected_id(), 105);
    assert_eq!(rx.receive(105, true, &[5], &mut delivered), 0);
    assert_eq!(delivered, vec![vec![5]]);
    assert_eq!(rx.next_ack_info(), (0b00001, true));
}

// Segments are reported if and only if they have been handed out, with their own nonces
#[test]
fn reports_tell_what_was_handed_out() {
    for base_id in [0u32, u32::MAX - 70] {
        let mut rx = SegmentRx::new(base_id, 128, 16);
        let mut handed_out: HashMap<u32, bool> = HashMap::new();
        for i in 0..400u32 {
            let mut delivered = Vec::new();
            let ahead = (i * i / 3) % 4;
            let id = rx.next_expected_id().wrapping_add(ahead);
            if i % 23 == 22 {
                rx.sync(id, &mut delivered);
            } else {
                let mut data = id.to_le_bytes().to_vec();
                data.push((id.wrapping_mul(7) % 5 < 2) as u8);
                rx.receive(id, data[4] == 1, &data, &mut delivered);
            }
            for data in delivered {
                let id = u32::from_le_bytes([data[0], data[1], data[2], data[3]]);
                assert!(!handed_out.contains_key(&id));
                handed_out.insert(id, data[4] == 1);
            }
            let (history, checksum) = rx.next_ack_info();
            let mut parity = false;
            for bit in 0..5u32 {
                let id = rx.next_expected_id().wrapping_sub(1 + bit);
                let nonce = handed_out.get(&id);
                assert_eq!(history & (1 << bit) != 0, nonce.is_some());
                parity ^= nonce == Some(&true);
            }
            assert_eq!(checksum, parity);
            assert_eq!(history & 0xE0, 0);
        }
        assert!(handed_out.len() > 100);
    }
}

use redpine::endpoint::prio::{
    validate, Config, Prio, BURST_SIZE_MAX, CHANNEL_COUNT, DATA_SIZE_MAX,
};

#[test]
fn single_channels() {
    let config = Config::new(&[1, 1, 2, 8], 10);
    let prio = Prio::new(config);

    let result = prio.next(true, false, false, false);
    assert_eq!(result, Some(0));

    let result = prio.next(false, true, false, false);
    assert_eq!(result, Some(1));

    let result = prio.next(false, false, true, false);
    assert_eq!(result, Some(2));

    let result = prio.next(false, false, false, true);
    assert_eq!(result, Some(3));

    let result = prio.next(false, false, false, false);
    assert_eq!(result, None);
}

#[test]
fn simple() {
    let config = Config::new(&[1, 1, 2, 8], 10);
    let mut prio = Prio::new(config);

    for i in 0..20 {
        let next = prio.next(true, true, false, false).unwrap();

        if i % 2 == 0 {
            assert_eq!(next, 0);
        } else {
            assert_eq!(next, 1);
        }

        prio.mark_sent(next, 1);
    }
}

#[test]
fn maxed_counters() {
    let weight = 4;
    let burst_size = BURST_SIZE_MAX;
    let counter_max = weight * weight * weight * weight * burst_size as u32;

    let config = Config::new(&[weight, weight, weight, weight], burst_size);
    let mut prio = Prio::new(config);

    assert_eq!(prio.counter_max, counter_max);

    // Send enough data to saturate each channel. Channels will send their weight * burst size
    // before saturating.

    assert_eq!(burst_size, DATA_SIZE_MAX * 255);

    let send_count = weight * (CHANNEL_COUNT as u32) * 255;

    for _ in 0..send_count {
        prio.mark_sent(prio.next(true, true, true, true).unwrap(), DATA_SIZE_MAX);
    }

    assert_eq!(prio.counters[0], counter_max);

    // Steady state should be reached now

    for _ in 0..CHANNEL_COUNT {
        prio.mark_sent(prio.next(true, true, true, true).unwrap(), DATA_SIZE_MAX);
    }

    assert_eq!(prio.counters[0], counter_max);
}

#[test]
fn validation() {
    assert!(validate(&[1, 1, 1, 1], 1));
    assert!(validate(&[4, 4, 4, 4], BURST_SIZE_MAX));
    assert!(validate(&[256, 1, 1, 1], 1));

    // Weights out of range
    assert!(!validate(&[1, 0, 1, 1], 1));
    assert!(!validate(&[1, 1, 257, 1], 1));
    // Product of weights out of range
    assert!(!validate(&[4, 4, 4, 5], 1));
    assert!(!validate(&[256, 256, 256, 256], 1));
    // Burst size out of range
    assert!(!validate(&[1, 1, 1, 1], 0));
    assert!(!validate(&[1, 1, 1, 1], BURST_SIZE_MAX + 1));
}

// Two busy channels share the connection by their weights
#[test]
fn balance() {
    let mut prio = Prio::new(Config::new(&[3, 1, 1, 1], 1000));
    let mut sent = [0usize; 2];

    for _ in 0..400 {
        let channel = prio.next(true, true, false, false).unwrap();
        prio.mark_sent(channel, 10);
        sent[channel as usize] += 10;

        let difference = prio.counters[0].abs_diff(prio.counters[1]);
        assert!(difference <= 30);
    }
    assert_eq!(sent, [3000, 1000]);
}

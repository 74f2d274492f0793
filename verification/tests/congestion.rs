use redpine::endpoint::cc::AimdReno;

fn assert_cwnd_near(cwnd: usize, expected: f64) {
    let cwnd_f64 = cwnd as f64;

    if (cwnd_f64 - expected).abs() > 1.0 {
        panic!("expected cwnd near {}, found {}", expected, cwnd);
    }
}

#[test]
fn cc_basic() {
    let mss = 100;
    let mss_f64 = mss as f64;

    let mut cc = AimdReno::new(mss);
    let mut expected_cwnd = 1000.0;
    assert_cwnd_near(cc.cwnd(), expected_cwnd);

    for _ in 0..30 {
        cc.handle_ack();
        expected_cwnd += 100.0;
        assert_cwnd_near(cc.cwnd(), expected_cwnd);
    }

    cc.handle_drop();
    expected_cwnd /= 2.0;
    assert_cwnd_near(cc.cwnd(), expected_cwnd);

    cc.handle_drop();
    assert_cwnd_near(cc.cwnd(), expected_cwnd);

    for _ in 0..30 {
        cc.handle_ack();
        expected_cwnd += mss_f64 * mss_f64 / expected_cwnd;
        assert_cwnd_near(cc.cwnd(), expected_cwnd);
    }

    cc.handle_drop();
    expected_cwnd /= 2.0;
    assert_cwnd_near(cc.cwnd(), expected_cwnd);
}

#[test]
fn timeout_restarts_below_threshold() {
    let mut cc = AimdReno::new(100);
    for _ in 0..30 {
        cc.handle_ack();
    }
    assert_eq!(cc.cwnd(), 4000);

    // Back to the initial window, with a threshold of half the previous one
    cc.handle_timeout();
    assert_eq!(cc.cwnd(), 1000);
    for _ in 0..9 {
        cc.handle_ack();
    }
    assert_eq!(cc.cwnd(), 1900);
    cc.handle_ack();
    assert_eq!(cc.cwnd(), 2000);

    // Past the threshold the window grows by a twentieth of a segment
    cc.handle_ack();
    assert_eq!(cc.cwnd(), 2005);
}

#[test]
fn window_never_shrinks_below_initial() {
    let mut cc = AimdReno::new(100);
    cc.handle_drop();
    assert_eq!(cc.cwnd(), 1000);
    cc.handle_timeout();
    assert_eq!(cc.cwnd(), 1000);
}

#[test]
fn the_window_always_holds_ten_segments() {
    for mss in [1, 100, 1478, 65535] {
        let mut cc = AimdReno::new(mss);
        for i in 0..2000u32 {
            let before = cc.cwnd();
            match (i * i / 7) % 11 {
                3 => {
                    cc.handle_drop();
                    assert!(cc.cwnd() <= before);
                }
                5 if i % 3 == 0 => {
                    cc.handle_timeout();
                    assert_eq!(cc.cwnd(), 10 * mss);
                }
                _ => {
                    cc.handle_ack();
                    assert!(before <= cc.cwnd() && cc.cwnd() <= before + mss);
                }
            }
            assert!(cc.cwnd() >= 10 * mss);
        }
    }
}

use std::cell::RefCell;
use std::rc::Rc;
use std::sync::{Arc, Mutex, Weak};

use redpine::timer_queue::{Timer, TimerQueue, TimerTest};
use redpine::timer_wheel::{is_power_of_two, ArrayConfig, TimerId, TimerWheel};

struct MockTimer {
    should_trigger: bool,
    trigger_count: Arc<Mutex<usize>>,
}

struct MockHandle(Weak<MockTimer>);

impl Timer for MockHandle {
    type Handle = Arc<MockTimer>;

    fn test(&self, _now_ms: u64) -> TimerTest<Arc<MockTimer>> {
        match self.0.upgrade() {
            None => TimerTest::Gone,
            Some(timer) => {
                if timer.should_trigger {
                    *timer.trigger_count.lock().unwrap() += 1;
                    TimerTest::Fired(timer)
                } else {
                    TimerTest::Idle
                }
            }
        }
    }
}

#[test]
fn test_trigger_callback_called() {
    let mut queue = TimerQueue::new();
    let count = Arc::new(Mutex::new(0));

    let timer = Arc::new(MockTimer {
        should_trigger: true,
        trigger_count: count.clone(),
    });

    queue.add_timer(MockHandle(Arc::downgrade(&timer)));

    let mut fired = Vec::new();
    queue.test(1, 12345, &mut fired);

    assert_eq!(fired.len(), 1);
    assert_eq!(*count.lock().unwrap(), 1);
}

#[test]
fn test_no_trigger_if_test_returns_false() {
    let mut queue = TimerQueue::new();
    let count = Arc::new(Mutex::new(0));

    let timer = Arc::new(MockTimer {
        should_trigger: false,
        trigger_count: count.clone(),
    });

    queue.add_timer(MockHandle(Arc::downgrade(&timer)));

    let mut fired = Vec::new();
    queue.test(1, 12345, &mut fired);

    assert_eq!(fired.len(), 0);
    assert_eq!(*count.lock().unwrap(), 0);
}

#[test]
fn test_expired_timer_removed() {
    let mut queue = TimerQueue::new();

    let timer = Arc::new(MockTimer {
        should_trigger: true,
        trigger_count: Arc::new(Mutex::new(0)),
    });

    queue.add_timer(MockHandle(Arc::downgrade(&timer)));

    drop(timer);

    let mut fired = Vec::new();
    queue.test(1, 12345, &mut fired);
    if !fired.is_empty() {
        panic!("callback should not be called");
    }

    assert_eq!(queue.len(), 0);
}

#[test]
fn test_limit_respected() {
    let mut queue = TimerQueue::new();
    let count = Arc::new(Mutex::new(0));

    let mut timers = Vec::new();

    for _ in 0..5 {
        let timer = Arc::new(MockTimer {
            should_trigger: true,
            trigger_count: count.clone(),
        });

        queue.add_timer(MockHandle(Arc::downgrade(&timer)));

        timers.push(timer);
    }

    let mut fired = Vec::new();
    queue.test(3, 12345, &mut fired);

    assert_eq!(fired.len(), 3);
    assert_eq!(*count.lock().unwrap(), 3);
    assert_eq!(queue.len(), 5);
}

#[test]
fn timers_take_turns() {
    let mut queue = TimerQueue::new();
    let count = Arc::new(Mutex::new(0));
    let timers: Vec<_> = (0..3)
        .map(|_| {
            Arc::new(MockTimer {
                should_trigger: true,
                trigger_count: count.clone(),
            })
        })
        .collect();
    for timer in timers.iter() {
        queue.add_timer(MockHandle(Arc::downgrade(timer)));
    }

    let mut fired = Vec::new();
    queue.test(2, 0, &mut fired);
    queue.test(2, 0, &mut fired);
    let order: Vec<usize> = fired
        .iter()
        .map(|timer| timers.iter().position(|other| Arc::ptr_eq(timer, other)).unwrap())
        .collect();
    assert_eq!(order, vec![0, 1, 2, 0]);
}

const TEST_ARRAY_CONFIG: [ArrayConfig; 3] = [
    ArrayConfig {
        size: 8,
        ms_per_bin: 4,
    },
    ArrayConfig {
        size: 8,
        ms_per_bin: 4 * 4,
    },
    ArrayConfig {
        size: 8,
        ms_per_bin: 4 * 4 * 4,
    },
];

fn compute_expiration_time_ms(last_update_ms: u64, timeout_time_ms: u64) -> u64 {
    assert!(last_update_ms <= timeout_time_ms);
    assert!(TEST_ARRAY_CONFIG.len() == 3);

    // Array 0
    let next_bin_idx = last_update_ms / TEST_ARRAY_CONFIG[0].ms_per_bin as u64;
    let timeout_bin_idx = timeout_time_ms / TEST_ARRAY_CONFIG[0].ms_per_bin as u64;

    if timeout_bin_idx - next_bin_idx < TEST_ARRAY_CONFIG[0].size as u64 {
        return (timeout_bin_idx + 1) * TEST_ARRAY_CONFIG[0].ms_per_bin as u64;
    }

    // Array 1
    let next_bin_idx = last_update_ms / TEST_ARRAY_CONFIG[1].ms_per_bin as u64;
    let timeout_bin_idx = timeout_time_ms / TEST_ARRAY_CONFIG[1].ms_per_bin as u64;

    if timeout_bin_idx - next_bin_idx < TEST_ARRAY_CONFIG[1].size as u64 {
        return (timeout_bin_idx + 1) * TEST_ARRAY_CONFIG[1].ms_per_bin as u64;
    }

    // Array 2
    let timeout_bin_idx = timeout_time_ms / TEST_ARRAY_CONFIG[2].ms_per_bin as u64;
    (timeout_bin_idx + 1) * TEST_ARRAY_CONFIG[2].ms_per_bin as u64
}

struct TimerState {
    timeout_time_ms: u64,
    expire_time_ms: u64,
    id: Option<TimerId>,
}

struct TestHarness {
    wheel: TimerWheel<Rc<RefCell<TimerState>>>,
    expired_data: Vec<Rc<RefCell<TimerState>>>,
    timers: Vec<Rc<RefCell<TimerState>>>,
    last_step_time_ms: u64,
}

impl TimerState {
    fn new(timeout_time_ms: u64, expire_time_ms: u64) -> Self {
        Self {
            timeout_time_ms,
            expire_time_ms,
            id: None,
        }
    }
}

impl TestHarness {
    fn new() -> Self {
        let wheel = TimerWheel::new(&TEST_ARRAY_CONFIG, 0);

        Self {
            wheel,
            expired_data: Vec::new(),
            timers: Vec::new(),
            last_step_time_ms: 0,
        }
    }

    fn validate(&self) {
        for timer in self.timers.iter() {
            if self.last_step_time_ms >= timer.borrow().expire_time_ms {
                // All timers which have passed their expire time should have an unset id,
                // whether expired or explicitly unset
                assert!(timer.borrow().id.is_none());
            }
        }
    }

    fn schedule(&mut self, timers: &[u64]) {
        for &timeout_time_ms in timers.iter() {
            assert!(timeout_time_ms >= self.last_step_time_ms);

            let expire_time_ms =
                compute_expiration_time_ms(self.last_step_time_ms, timeout_time_ms);

            let timer_data = Rc::new(RefCell::new(TimerState::new(
                timeout_time_ms,
                expire_time_ms,
            )));

            let id = self
                .wheel
                .set_timer(timeout_time_ms, Rc::clone(&timer_data));

            timer_data.borrow_mut().id = Some(id);

            self.timers.push(timer_data);
        }
    }

    fn unset_random(&mut self) {
        if self.timers.len() > 0 {
            let data_idx = rand::random::<usize>() % self.timers.len();

            let mut timer = self.timers[data_idx].borrow_mut();

            if let Some(id) = timer.id.take() {
                assert!(self.wheel.is_set(&id));
                self.wheel.unset_timer(id);
            }
        }
    }

    fn step(&mut self, interval_ms: u64) {
        let time_now_ms = self.last_step_time_ms + interval_ms;

        self.wheel.step(time_now_ms, &mut self.expired_data);

        for state in self.expired_data.drain(..) {
            let mut state_ref = state.borrow_mut();
            // Only timers which have passed their expire time should be handled
            assert!(time_now_ms >= state_ref.expire_time_ms);
            assert!(time_now_ms >= state_ref.timeout_time_ms);
            // Only timers which have not yet been handled (nor unset) should be handled
            assert!(state_ref.id.is_some());
            state_ref.id = None;
        }

        self.validate();

        self.last_step_time_ms = time_now_ms;
    }

    fn last_step_time_ms(&self) -> u64 {
        self.last_step_time_ms
    }
}

#[test]
fn timer_wheel_basic() {
    let mut fixture = TestHarness::new();

    fixture.schedule(&[0, 1, 2, 3, 4, 5, 6, 7, 8]);

    while fixture.last_step_time_ms() < 8 {
        fixture.step(1);
    }
}

#[test]
fn basic_unset() {
    let mut wheel = TimerWheel::<()>::new(&TEST_ARRAY_CONFIG, 0);
    let mut expired_data = Vec::new();

    let timer_id = wheel.set_timer(0, ());

    wheel.unset_timer(timer_id);

    wheel.step(8, &mut expired_data);

    assert_eq!(expired_data.len(), 0);
}

#[test]
fn single_fill() {
    const MAX_INTERVAL_MS: u64 = 11;

    const END_TIME_MS: u64 = 512;

    // Place two timers in each possible bin
    const TIMER_TIMES: [u64; 40] = [
        0, 3, 4, 7, 8, 11, 12, 15, 16, 19, 20, 23, 24, 27, 28, 31, 32, 47, 48, 63, 64, 79, 80, 95,
        96, 111, 112, 127, 128, 191, 192, 255, 256, 319, 320, 383, 384, 447, 448, 511,
    ];

    for interval_ms in 1..MAX_INTERVAL_MS + 1 {
        let mut fixture = TestHarness::new();

        fixture.schedule(&TIMER_TIMES);

        while fixture.last_step_time_ms() < END_TIME_MS {
            fixture.step(interval_ms);
        }
    }
}

fn random_test(
    intervals_ms: std::ops::Range<u64>,
    round_count: usize,
    round_interval_ms: u64,
    set_count: usize,
    set_range_ms: u64,
    unset_count: usize,
) {
    for interval_ms in intervals_ms {
        let mut fixture = TestHarness::new();

        for round_id in 0..round_count {
            let timeout_times = (0..set_count)
                .map(|_| fixture.last_step_time_ms + rand::random::<u64>() % set_range_ms)
                .collect::<Vec<_>>();

            fixture.schedule(&timeout_times);

            for _ in 0..unset_count {
                fixture.unset_random();
            }

            let round_end_ms = (round_id as u64 + 1) * round_interval_ms;

            while fixture.last_step_time_ms() < round_end_ms {
                fixture.step(interval_ms);
            }
        }
    }
}

#[test]
fn single_random() {
    random_test(1..12, 1, 512, 200, 512, 0);
}

#[test]
fn rolling_random() {
    random_test(1..12, 20, 256, 32, 1024, 0);
}

#[test]
fn rolling_random_unset() {
    random_test(1..12, 20, 256, 32, 1024, 8);
}

#[test]
fn reschedule_min() {
    // Reschedule a timer N times consecutively at the minimum possible interval, verifying
    // that the timer fires when expected.

    const MIN_RESOLUTION_MS: u64 = TEST_ARRAY_CONFIG[0].ms_per_bin as u64;
    const RESCHEDULE_COUNT: u64 = 10;
    const STEP_COUNT: u64 = RESCHEDULE_COUNT + 3;

    type CountRc = Rc<RefCell<u64>>;

    let mut wheel = TimerWheel::<CountRc>::new(&TEST_ARRAY_CONFIG, 0);
    let mut expired_data = Vec::<CountRc>::new();

    let count_rc = Rc::new(RefCell::new(0));

    let _timer_id = wheel.set_timer(0, Rc::clone(&count_rc));

    for step_idx in 0..STEP_COUNT {
        let time_now_ms = (step_idx + 1) * MIN_RESOLUTION_MS;

        wheel.step(time_now_ms, &mut expired_data);

        for count_rc in expired_data.drain(..) {
            let mut count_ref = count_rc.borrow_mut();

            assert_eq!(time_now_ms, (*count_ref + 1) * MIN_RESOLUTION_MS);

            if *count_ref < RESCHEDULE_COUNT {
                *count_ref += 1;

                std::mem::drop(count_ref);

                // In order to fire MIN_RESOLUTION_MS from now, schedule for the current bin
                wheel.set_timer(time_now_ms, count_rc);
            }
        }
    }

    assert_eq!(*count_rc.borrow(), RESCHEDULE_COUNT);
}

#[test]
fn expiration_time_basic() {
    // Set a single timer and verify that computed expiration time is the start of the
    // following bin.

    const BIN_SIZE_MS: u64 = TEST_ARRAY_CONFIG[0].ms_per_bin as u64;

    let mut wheel = TimerWheel::<()>::new(&TEST_ARRAY_CONFIG, 0);
    let mut expired_data = Vec::new();

    assert_eq!(wheel.next_expiration_time_ms(), None);

    wheel.set_timer(BIN_SIZE_MS, ());

    assert_eq!(wheel.next_expiration_time_ms(), Some(2 * BIN_SIZE_MS));

    wheel.step(2 * BIN_SIZE_MS, &mut expired_data);

    assert_eq!(wheel.next_expiration_time_ms(), None);
}

#[test]
fn expiration_time_alias() {
    // Set a single timer such that it aliases in the final array, and verify expected aliasing
    // behavior.

    let mut wheel = TimerWheel::<()>::new(&TEST_ARRAY_CONFIG, 0);
    let mut expired_data = Vec::new();

    const SPAN_MS: u64 = ((TEST_ARRAY_CONFIG[2].size) * TEST_ARRAY_CONFIG[2].ms_per_bin) as u64;
    const EXPIRATION_PRE: u64 = TEST_ARRAY_CONFIG[2].ms_per_bin as u64;
    const EXPIRATION_POST: u64 = EXPIRATION_PRE + SPAN_MS;

    wheel.set_timer(SPAN_MS, ());

    assert_eq!(wheel.next_expiration_time_ms(), Some(EXPIRATION_PRE));

    // Verify that the new expiration is correct after advancing past the aliased bin
    wheel.step(EXPIRATION_PRE, &mut expired_data);

    assert_eq!(wheel.next_expiration_time_ms(), Some(EXPIRATION_POST));

    // Veirfy wheel reports no known expiration after expiring all
    wheel.step(EXPIRATION_POST, &mut expired_data);

    assert_eq!(wheel.next_expiration_time_ms(), None);
}

#[test]
fn expiration_time_random() {
    // Set N random timers at a random time, and compare the wheel's computed expiration time
    // against the reference. Timers are set without aliasing, so that the reference time
    // always matches.

    const TRIAL_COUNT: usize = 100;
    const TIMER_COUNT: usize = 5;

    const TIMEOUT_SPAN_MS_NOALIAS: u64 =
        ((TEST_ARRAY_CONFIG[2].size - 1) * TEST_ARRAY_CONFIG[2].ms_per_bin) as u64;

    for _ in 0..TRIAL_COUNT {
        let mut wheel = TimerWheel::<()>::new(&TEST_ARRAY_CONFIG, 0);
        let mut expired_data = Vec::new();

        // Advance to a random time
        let step_time_ms = rand::random::<u64>() / 2;

        wheel.step(step_time_ms, &mut expired_data);

        // Set TIMER_COUNT random timers within the test range
        let timeout_times = (0..TIMER_COUNT)
            .map(|_| step_time_ms + rand::random::<u64>() % TIMEOUT_SPAN_MS_NOALIAS)
            .collect::<Vec<_>>();

        for &timeout_time_ms in timeout_times.iter() {
            wheel.set_timer(timeout_time_ms, ());
        }

        // Compute true expiration min/max
        let expire_times = timeout_times
            .iter()
            .map(|&timeout_time_ms| compute_expiration_time_ms(step_time_ms, timeout_time_ms))
            .collect::<Vec<_>>();

        let mut min_expire_time = expire_times[0];
        let mut max_expire_time = expire_times[0];
        for &expire_time in expire_times.iter().skip(1) {
            min_expire_time = min_expire_time.min(expire_time);
            max_expire_time = max_expire_time.max(expire_time);
        }

        // Verify wheel's computed expiration time
        assert_eq!(wheel.next_expiration_time_ms(), Some(min_expire_time));

        // Veirfy wheel reports no known expiration after expiring all
        wheel.step(max_expire_time, &mut expired_data);

        assert_eq!(wheel.next_expiration_time_ms(), None);
    }
}

#[test]
fn timers_never_expire_early_nor_much_later() {
    let mut wheel = TimerWheel::<u64>::new(&TEST_ARRAY_CONFIG, 0);
    assert!(wheel.can_set_timer());
    for time_ms in [0, 5, 31, 32, 100, 127, 128, 511, 512, 700, 1500] {
        wheel.set_timer(time_ms, time_ms);
    }
    let mut fired = Vec::new();
    let mut now_ms = 0;
    while now_ms < 1700 {
        now_ms += 3;
        let mut expired = Vec::new();
        wheel.step(now_ms, &mut expired);
        for time_ms in expired.iter() {
            assert!(*time_ms <= now_ms);
            // The coarsest bins last for 64 ms, and steps are 3 ms apart
            assert!(now_ms < *time_ms + 64 + 3);
        }
        fired.append(&mut expired);
    }
    fired.sort();
    assert_eq!(fired, vec![0, 5, 31, 32, 100, 127, 128, 511, 512, 700, 1500]);
    assert_eq!(wheel.next_expiration_time_ms(), None);
}

#[test]
fn timers_of_a_bin_expire_in_order() {
    let mut wheel = TimerWheel::<u32>::new(&TEST_ARRAY_CONFIG, 0);
    let first = wheel.set_timer(1, 10);
    let second = wheel.set_timer(3, 20);
    let third = wheel.set_timer(2, 30);
    wheel.unset_timer(second.clone());
    assert!(!wheel.is_set(&second));
    assert!(wheel.is_set(&first) && wheel.is_set(&third));
    let again = wheel.set_timer(0, 40);
    assert!(wheel.is_set(&again));

    let mut expired = Vec::new();
    wheel.step(3, &mut expired);
    assert!(expired.is_empty());
    wheel.step(4, &mut expired);
    assert_eq!(expired, vec![10, 30, 40]);
    assert!(!wheel.is_set(&first));
}

#[test]
fn powers_of_two() {
    for i in 0..32 {
        assert!(is_power_of_two(1 << i));
    }
    for x in [0, 3, 6, 0x8000_0001, u32::MAX] {
        assert!(!is_power_of_two(x));
    }
}

#[test]
fn stepping_to_the_expiration_time_hands_out_a_timer() {
    let mut wheel = TimerWheel::<u64>::new(&TEST_ARRAY_CONFIG, 0);
    for time_ms in [3, 5, 40, 90, 130, 300, 440] {
        wheel.set_timer(time_ms, time_ms);
    }
    let mut fired = Vec::new();
    while let Some(time_ms) = wheel.next_expiration_time_ms() {
        let mut expired = Vec::new();
        wheel.step(time_ms - 1, &mut expired);
        assert!(expired.is_empty());
        wheel.step(time_ms, &mut expired);
        assert!(!expired.is_empty());
        fired.append(&mut expired);
    }
    assert_eq!(fired, vec![3, 5, 40, 90, 130, 300, 440]);
}

#[test]
fn every_timer_is_handed_out_once_or_unset() {
    let mut wheel = TimerWheel::<usize>::new(&TEST_ARRAY_CONFIG, 0);
    let mut ids = Vec::new();
    let mut expected = Vec::new();
    let mut fired = Vec::new();
    let mut now_ms = 0;
    for i in 0..500usize {
        ids.push(wheel.set_timer(now_ms + (i * i % 777) as u64, i));
        expected.push(i);
        if i % 5 == 4 {
            let victim = i - (i * 3) % 40;
            if expected.contains(&victim) && !fired.contains(&victim) {
                assert!(wheel.is_set(&ids[victim]));
                wheel.unset_timer(ids[victim].clone());
                expected.retain(|other| *other != victim);
            }
        }
        now_ms += (i % 13) as u64;
        wheel.step(now_ms, &mut fired);
    }
    // The coarsest bins come round every 512 ms
    for _ in 0..4 {
        now_ms += 512;
        wheel.step(now_ms, &mut fired);
    }
    fired.sort();
    assert_eq!(fired, expected);
}

#[test]
fn every_timer_can_be_tested_once() {
    let mut queue = TimerQueue::new();
    let timers: Vec<_> = (0..50usize)
        .map(|i| {
            Arc::new(MockTimer {
                should_trigger: i % 2 == 0,
                trigger_count: Arc::new(Mutex::new(0)),
            })
        })
        .collect();
    for timer in timers.iter() {
        queue.add_timer(MockHandle(Arc::downgrade(timer)));
    }
    let mut fired = Vec::new();
    queue.test_all(0, &mut fired);
    assert_eq!(queue.len(), 50);
    assert_eq!(fired.len(), 25);
    for (i, timer) in fired.iter().enumerate() {
        assert!(Arc::ptr_eq(timer, &timers[2 * i]));
    }
    for (i, timer) in timers.iter().enumerate() {
        assert_eq!(*timer.trigger_count.lock().unwrap(), (i + 1) % 2);
    }

    // Timers which are gone leave the queue, and nothing is left of none
    drop(fired);
    drop(timers);
    let mut fired = Vec::new();
    queue.test_all(1, &mut fired);
    assert_eq!(queue.len(), 0);
    queue.test_all(2, &mut fired);
    assert!(fired.is_empty());
}

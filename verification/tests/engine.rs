use std::cell::Cell;
use std::collections::HashMap;
use std::rc::Rc;
use time_wheel::{BackEnd, ConfigError, Event, Message, Timer, TimerKind};

const BASE_MS: u64 = 32;
const WHEEL_SIZE: usize = 60;
const WHEEL_LVL: usize = 4;
const START: u64 = 1_000_000;

fn new_engine() -> BackEnd<(), ()> {
    BackEnd::new(BASE_MS, WHEEL_SIZE, WHEEL_LVL, START).expect("valid configuration")
}

/// Drive the scheduler with timeout events, `step_ms` at a time, until
/// the simulated clock reaches `until`; returns each fired timer with
/// the clock value at which it came out.
fn run_until<C, M>(
    be: &mut BackEnd<C, M>,
    now: &mut u64,
    until: u64,
    step_ms: u64,
) -> Vec<(u64, Timer<C, M>)> {
    let mut fired = Vec::new();
    while *now < until {
        *now += step_ms;
        let out = be.step(Event::TimedOut, *now).expect("cascade failed");
        assert!(!out.stop);
        for t in out.fired {
            assert!(t.when < *now, "fired before its target time");
            fired.push((*now, t));
        }
    }
    fired
}

#[test]
fn construct_zero_levels() {
    let r = BackEnd::<(), ()>::new(BASE_MS, WHEEL_SIZE, 0, START);
    assert!(matches!(r, Err(ConfigError::ZeroWheelLevel)));
}

#[test]
fn construct_zero_size() {
    let r = BackEnd::<(), ()>::new(BASE_MS, 0, WHEEL_LVL, START);
    assert!(matches!(r, Err(ConfigError::ZeroWheelSize)));
}

#[test]
fn single_timer_fires_on_time() {
    let mut be = new_engine();
    let mut now = START;
    let when = START + 1500;
    let out = be
        .step(Event::Received(Message::Put(Timer::normal(1, when))), now)
        .expect("cascade failed");
    assert!(!out.stop && out.fired.is_empty());
    let fired = run_until(&mut be, &mut now, START + 4000, BASE_MS);
    assert_eq!(fired.len(), 1);
    let (fire_now, t) = &fired[0];
    assert_eq!(t.id, 1);
    assert_eq!(t.when, when);
    // never early, and within the cascade latency bound
    assert!(*fire_now > when);
    assert!(*fire_now <= when + (WHEEL_LVL as u64) * BASE_MS);
}

#[test]
fn callback_runs_once() {
    let mut be: BackEnd<Box<dyn FnOnce()>, ()> =
        BackEnd::new(BASE_MS, WHEEL_SIZE, WHEEL_LVL, START).expect("valid configuration");
    let mut now = START;
    let count = Rc::new(Cell::new(0u32));
    let count2 = count.clone();
    let when = START + 100;
    let action: Box<dyn FnOnce()> = Box::new(move || count2.set(count2.get() + 1));
    let out = be
        .step(
            Event::Received(Message::Put(Timer::after_func(1, when, action))),
            now,
        )
        .expect("cascade failed");
    assert!(out.fired.is_empty());
    let fired = run_until(&mut be, &mut now, START + 1000, BASE_MS);
    assert_eq!(fired.len(), 1);
    let (fire_now, t) = fired.into_iter().next().unwrap();
    assert!(fire_now <= when + (WHEEL_LVL as u64) * BASE_MS);
    match t.kind {
        TimerKind::Callback(f) => f(),
        _ => panic!("wrong variant"),
    }
    assert_eq!(count.get(), 1);
}

#[test]
fn uniqueness_no_loss_with_cancellation() {
    let mut be = new_engine();
    let mut now = START;
    let mut expected: HashMap<usize, u64> = HashMap::new();
    let mut lcg: u64 = 12345;
    for id in 1..=200usize {
        lcg = lcg
            .wrapping_mul(6364136223846793005)
            .wrapping_add(1442695040888963407);
        let delay = (lcg >> 33) % 60_000;
        let when = now + delay;
        let out = be
            .step(Event::Received(Message::Put(Timer::normal(id, when))), now)
            .expect("cascade failed");
        assert!(!out.stop);
        expected.insert(id, when);
    }
    // cancel the ~30% whose identifiers satisfy id % 10 < 3
    for id in 1..=200usize {
        if id % 10 < 3 {
            let out = be
                .step(Event::Received(Message::Del(id)), now)
                .expect("cascade failed");
            assert!(!out.stop);
            expected.remove(&id);
        }
    }
    let fired = run_until(&mut be, &mut now, START + 63_000, BASE_MS);
    // every fired identifier is distinct and was expected, never early
    let mut seen: HashMap<usize, ()> = HashMap::new();
    for (fire_now, t) in &fired {
        assert!(t.id % 10 >= 3, "a cancelled timer fired");
        assert!(seen.insert(t.id, ()).is_none(), "identifier fired twice");
        let when = expected.get(&t.id).expect("unexpected identifier");
        assert_eq!(*when, t.when);
        assert!(*fire_now >= t.when, "observed fire time before scheduled time");
    }
    // and none was lost
    assert_eq!(fired.len(), expected.len());
}

#[test]
fn cancelled_before_due_never_fires() {
    let mut be = new_engine();
    let mut now = START;
    be.step(
        Event::Received(Message::Put(Timer::normal(1, START + 500))),
        now,
    )
    .expect("cascade failed");
    let out = be
        .step(Event::Received(Message::Del(1)), now)
        .expect("cascade failed");
    assert!(!out.stop && out.fired.is_empty());
    let fired = run_until(&mut be, &mut now, START + 2000, BASE_MS);
    assert!(fired.is_empty());
}

#[test]
fn stale_cancellation_is_noop() {
    let mut be = new_engine();
    let mut now = START;
    be.step(
        Event::Received(Message::Put(Timer::normal(1, START + 100))),
        now,
    )
    .expect("cascade failed");
    let fired = run_until(&mut be, &mut now, START + 1000, BASE_MS);
    assert_eq!(fired.len(), 1);
    // the timer already fired: deleting it now finds nothing and is silently ignored
    assert!(!be.del_timer(1));
    let fired = run_until(&mut be, &mut now, START + 2000, BASE_MS);
    assert!(fired.is_empty());
}

#[test]
fn overflow_falls_back_to_coarsest() {
    // one level of two 1ms buckets: horizon 2ms
    let mut be: BackEnd<(), ()> = BackEnd::new(1, 2, 1, START).expect("valid configuration");
    let mut now = START;
    let overflowed = be.put_timer(Timer::normal(1, START + 10));
    assert!(overflowed, "target beyond the horizon must take the fallback");
    // kept, not rejected: it still fires (possibly early is allowed; here late)
    let fired = run_until(&mut be, &mut now, START + 30, 1);
    assert_eq!(fired.len(), 1);
    assert_eq!(fired[0].1.id, 1);
}

#[test]
fn exit_stops_without_tick() {
    let mut be = new_engine();
    be.step(
        Event::Received(Message::Put(Timer::normal(1, START + 10))),
        START,
    )
    .expect("cascade failed");
    let out = be
        .step(Event::Received(Message::Exit), START + 5000)
        .expect("cascade failed");
    assert!(out.stop && out.fired.is_empty());
    // the pending timer was not dispatched: shutdown discards silently
    assert!(be.contains_id(1));
}

#[test]
fn disconnect_stops_without_tick() {
    let mut be = new_engine();
    let out = be
        .step(Event::Disconnected, START + 5000)
        .expect("cascade failed");
    assert!(out.stop && out.fired.is_empty());
}

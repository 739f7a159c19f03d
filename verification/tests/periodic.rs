use time_wheel::{BackEnd, Event, Message, Timer, TimerKind};

const START: u64 = 500_000;

/// One scheduler pass at `now`; fired periodic timers are immediately
/// re-armed (or dropped when `detached`), the way the run loop's
/// dispatch path does after its non-blocking notification.
fn tick_and_requeue(be: &mut BackEnd<(), ()>, now: u64, detached: bool, whens: &mut Vec<u64>) {
    let out = be.step(Event::TimedOut, now).expect("cascade failed");
    assert!(!out.stop);
    for t in out.fired {
        assert!(matches!(t.kind, TimerKind::Periodic { .. }));
        assert!(t.when < now);
        whens.push(t.when);
        let kept = be.requeue_ticker(t, detached);
        assert_eq!(kept, !detached);
    }
}

#[test]
fn ticker_spacing_and_count() {
    let mut be: BackEnd<(), ()> = BackEnd::new(32, 60, 4, START).expect("valid configuration");
    let period: u64 = 50;
    be.step(
        Event::Received(Message::Put(Timer::ticker(1, period, (), START))),
        START,
    )
    .expect("cascade failed");
    let mut whens = Vec::new();
    let mut now = START;
    // run for 1000ms of simulated time, plus slack so the last due
    // notification has come out
    while now < START + 1200 {
        now += 32;
        tick_and_requeue(&mut be, now, false, &mut whens);
    }
    let in_window: Vec<u64> = whens.iter().copied().filter(|w| *w <= START + 1000).collect();
    // floor(T / p) notifications over duration T, each spaced exactly p
    assert_eq!(in_window.len(), 20);
    for (i, w) in in_window.iter().enumerate() {
        assert_eq!(*w, START + period * (i as u64 + 1));
    }
}

#[test]
fn ticker_detach_stops_series() {
    let mut be: BackEnd<(), ()> = BackEnd::new(32, 60, 4, START).expect("valid configuration");
    be.step(
        Event::Received(Message::Put(Timer::ticker(7, 40, (), START))),
        START,
    )
    .expect("cascade failed");
    let mut whens = Vec::new();
    let mut now = START;
    // let it fire a few times with the consumer attached
    while now < START + 200 {
        now += 32;
        tick_and_requeue(&mut be, now, false, &mut whens);
    }
    assert!(!whens.is_empty());
    // consumer detaches: the next fire drops the timer for good
    let mut after_detach = Vec::new();
    while now < START + 400 && after_detach.is_empty() {
        now += 32;
        tick_and_requeue(&mut be, now, true, &mut after_detach);
    }
    assert_eq!(after_detach.len(), 1);
    assert!(!be.contains_id(7), "a detached ticker must not be re-armed");
    // and nothing ever fires again
    let mut rest = Vec::new();
    while now < START + 1000 {
        now += 32;
        tick_and_requeue(&mut be, now, true, &mut rest);
    }
    assert!(rest.is_empty());
}

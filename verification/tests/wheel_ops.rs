use time_wheel::{fire_time, BackEnd, IdAlloc, Timer, Wheel};

#[test]
fn wheel_positions_exact() {
    // window [100, 110), 5 buckets of 10ms, cursor at 0
    let w: Wheel<(), ()> = Wheel::new(0, 100, 10, 5);
    assert_eq!(w.next_ts, 110);
    assert_eq!(w.cur_slot, 0);
    // at or before the window start: nearest future bucket
    assert_eq!(w.calc_timer_pos(95), Ok(1));
    assert_eq!(w.calc_timer_pos(100), Ok(1));
    // inside the sweep: one past the bucket containing the target
    assert_eq!(w.calc_timer_pos(105), Ok(1));
    assert_eq!(w.calc_timer_pos(115), Ok(2));
    assert_eq!(w.calc_timer_pos(149), Ok(0));
    // beyond one full sweep: belongs in a coarser wheel
    assert_eq!(w.calc_timer_pos(150), Err(()));
}

#[test]
fn wheel_advance_only_when_due() {
    let mut w: Wheel<(), ()> = Wheel::new(0, 100, 10, 5);
    assert!(!w.try_forward(105));
    assert!(!w.try_forward(110));
    assert_eq!(w.cur_slot, 0);
    assert!(w.try_forward(111));
    assert_eq!(w.cur_slot, 1);
    assert_eq!(w.next_ts, 120);
}

#[test]
fn wheel_drain_releases_due_timers() {
    let mut w: Wheel<(), ()> = Wheel::new(0, 100, 10, 5);
    assert!(w.put_timer(Timer::normal(1, 105)).is_ok());
    assert!(w.put_timer(Timer::normal(2, 131)).is_ok());
    // catching up to 160 passes both buckets: both timers come out
    let fired = w.check_timer(160);
    let mut ids: Vec<usize> = fired.iter().map(|t| t.id).collect();
    ids.sort();
    assert_eq!(ids, vec![1, 2]);
    assert!(!w.contains_id(1));
    assert!(!w.contains_id(2));
    // catching up only to 120 would have left the later one pending
    let mut w2: Wheel<(), ()> = Wheel::new(0, 100, 10, 5);
    assert!(w2.put_timer(Timer::normal(2, 131)).is_ok());
    assert!(w2.check_timer(121).is_empty());
    assert!(w2.contains_id(2));
}

#[test]
fn wheel_drain_at_window_boundary() {
    // a timer due exactly at a window start is already due there: it
    // must come out on that pass, not wait a full revolution
    let mut w: Wheel<(), ()> = Wheel::new(0, 100, 10, 5);
    w.put_in_current_slot(Timer::normal(4, 150));
    // five advances bring the cursor back to its bucket, window [150, 160)
    let fired = w.check_timer(151);
    assert_eq!(fired.len(), 1);
    assert_eq!(fired[0].id, 4);
}

#[test]
fn wheel_remove_by_identifier() {
    let mut w: Wheel<(), ()> = Wheel::new(0, 100, 10, 5);
    assert!(w.put_timer(Timer::normal(9, 125)).is_ok());
    assert!(w.remove(3).is_none());
    let removed = w.remove(9).expect("timer was present");
    assert_eq!(removed.id, 9);
    assert_eq!(removed.when, 125);
    assert!(!w.contains_id(9));
}

#[test]
fn hierarchy_places_in_finest_fitting_level() {
    let be_now: u64 = 1_000;
    let mut be: BackEnd<(), ()> = BackEnd::new(32, 60, 4, be_now).expect("valid configuration");
    // level 0 horizon: 60*32 = 1920ms; level 1 horizon: 60*1920 = 115200ms
    assert!(!be.put_timer(Timer::normal(1, be_now + 1500)));
    assert!(!be.put_timer(Timer::normal(2, be_now + 50_000)));
    assert!(be.wheels[0].contains_id(1));
    assert!(be.wheels[1].contains_id(2));
    assert!(be.contains_id(1) && be.contains_id(2) && !be.contains_id(3));
}

#[test]
fn wait_budget_tracks_level_zero() {
    let be_now: u64 = 1_000;
    let be: BackEnd<(), ()> = BackEnd::new(32, 60, 4, be_now).expect("valid configuration");
    // level 0 next advances at 1032
    assert_eq!(be.calc_wait_timeout(1_000), 32);
    assert_eq!(be.calc_wait_timeout(1_010), 22);
    assert_eq!(be.calc_wait_timeout(1_032), 0);
    assert_eq!(be.calc_wait_timeout(2_000), 0);
}

#[test]
fn identifiers_allocate_monotonically() {
    let mut ids = IdAlloc::new();
    assert_eq!(ids.fresh_id(), 1);
    assert_eq!(ids.fresh_id(), 2);
    assert_eq!(ids.fresh_id(), 3);
    assert_eq!(ids.next_id, 4);
}

#[test]
fn fire_time_checks_clock_range() {
    assert_eq!(fire_time(1_000, 500), Some(1_500));
    assert_eq!(fire_time(u64::MAX - 5, 5), Some(u64::MAX));
    assert_eq!(fire_time(u64::MAX - 5, 6), None);
}

use tsndt::counter::{initial_slots, sum_slots, zeroed_slots, Counter, CounterInit, Totals};
use tsndt::entity::{delta, TrackedEntity};
use tsndt::series::{Point, Series};

#[test]
fn zero_counter_is_empty() {
    let c = Counter::zero();
    assert_eq!(c, Counter { bytes: 0, packets: 0 });
}

#[test]
fn first_packet_starts_the_counter() {
    assert_eq!(Counter::first(1500), Counter { bytes: 1500, packets: 1 });
}

#[test]
fn record_adds_one_packet_and_its_bytes() {
    let c = Counter { bytes: 100, packets: 3 }.record(60);
    assert_eq!(c, Counter { bytes: 160, packets: 4 });
}

#[test]
fn record_stops_at_the_largest_values() {
    let c = Counter { bytes: u64::MAX - 10, packets: u32::MAX }.record(11);
    assert_eq!(c, Counter { bytes: u64::MAX, packets: u32::MAX });
    let d = Counter { bytes: u64::MAX - 10, packets: u32::MAX - 1 }.record(10);
    assert_eq!(d, Counter { bytes: u64::MAX, packets: u32::MAX });
}

#[test]
fn sum_slots_adds_every_cpu() {
    let slots = vec![
        Counter { bytes: 1000, packets: 7 },
        Counter { bytes: 0, packets: 0 },
        Counter { bytes: 500, packets: 3 },
    ];
    assert_eq!(sum_slots(&slots), Totals { packets: 10, bytes: 1500 });
}

#[test]
fn sum_slots_of_nothing_is_zero() {
    assert_eq!(sum_slots(&Vec::new()), Totals { packets: 0, bytes: 0 });
}

#[test]
fn sum_slots_exceeds_a_single_packet_field() {
    let slots = vec![
        Counter { bytes: 1, packets: u32::MAX },
        Counter { bytes: 1, packets: u32::MAX },
    ];
    assert_eq!(
        sum_slots(&slots),
        Totals { packets: 2 * (u32::MAX as u64), bytes: 2 }
    );
}

#[test]
fn sum_slots_holds_bytes_at_the_largest_value() {
    let slots = vec![
        Counter { bytes: u64::MAX, packets: 1 },
        Counter { bytes: 5, packets: 1 },
    ];
    assert_eq!(sum_slots(&slots), Totals { packets: 2, bytes: u64::MAX });
}

#[test]
fn zeroed_slots_has_one_empty_record_per_cpu() {
    let slots = zeroed_slots(4);
    assert_eq!(slots, vec![Counter { bytes: 0, packets: 0 }; 4]);
    assert!(zeroed_slots(0).is_empty());
}

#[test]
fn delta_is_the_growth() {
    assert_eq!(delta(25, 10), 15);
    assert_eq!(delta(3200, 1500), 1700);
    assert_eq!(delta(7, 7), 0);
    assert_eq!(delta(5, 0), 5);
}

#[test]
fn delta_after_a_reset_is_the_current_value() {
    assert_eq!(delta(40, 100), 40);
    assert_eq!(delta(0, 100), 0);
}

#[test]
fn series_keeps_points_in_order() {
    let mut s = Series::new(3);
    s.push(Point { tick: 1, delta: 10 });
    s.push(Point { tick: 2, delta: 20 });
    assert_eq!(
        s.points(),
        &vec![Point { tick: 1, delta: 10 }, Point { tick: 2, delta: 20 }]
    );
    assert_eq!(s.len(), 2);
    assert_eq!(s.capacity(), 3);
}

#[test]
fn series_drops_the_oldest_point_when_full() {
    let w: usize = 50;
    let mut s = Series::new(w);
    for t in 1..=(w as u64) {
        s.push(Point { tick: t, delta: t * 2 });
    }
    assert_eq!(s.len(), w);
    assert_eq!(s.points()[0], Point { tick: 1, delta: 2 });
    s.push(Point { tick: 51, delta: 102 });
    assert_eq!(s.len(), w);
    for i in 0..w {
        let t = i as u64 + 2;
        assert_eq!(s.points()[i], Point { tick: t, delta: t * 2 });
    }
}

#[test]
fn series_never_exceeds_its_capacity() {
    let mut s = Series::new(4);
    for t in 0..100u64 {
        s.push(Point { tick: t, delta: 1 });
        assert!(s.len() <= 4);
    }
    assert_eq!(s.points()[3], Point { tick: 99, delta: 1 });
    assert_eq!(s.points()[0], Point { tick: 96, delta: 1 });
}

#[test]
fn series_reset_leaves_the_zero_point() {
    let mut s = Series::new(5);
    s.push(Point { tick: 3, delta: 9 });
    s.push(Point { tick: 4, delta: 1 });
    s.reset();
    assert_eq!(s.points(), &vec![Point { tick: 0, delta: 0 }]);
}

#[test]
fn series_max_delta() {
    let mut s = Series::new(5);
    assert_eq!(s.max_delta(), 0);
    s.push(Point { tick: 1, delta: 4 });
    s.push(Point { tick: 2, delta: 9 });
    s.push(Point { tick: 3, delta: 2 });
    assert_eq!(s.max_delta(), 9);
}

#[test]
fn entity_records_deltas_and_activity() {
    let mut e = TrackedEntity::new(50, 5);
    assert_eq!(e.last_active_tick(), 5);
    assert_eq!(e.cumulative(), Totals { packets: 0, bytes: 0 });
    assert_eq!(e.packet_series().len(), 0);
    e.observe(5, Totals { packets: 1, bytes: 60 });
    assert_eq!(e.packet_series().points(), &vec![Point { tick: 5, delta: 1 }]);
    assert_eq!(e.byte_series().points(), &vec![Point { tick: 5, delta: 60 }]);
    assert_eq!(e.last_active_tick(), 5);
    e.observe(6, Totals { packets: 1, bytes: 60 });
    assert_eq!(e.last_active_tick(), 5);
    assert_eq!(e.packet_series().points()[1], Point { tick: 6, delta: 0 });
    e.observe(7, Totals { packets: 4, bytes: 300 });
    assert_eq!(e.last_active_tick(), 7);
    assert_eq!(e.packet_series().points()[2], Point { tick: 7, delta: 3 });
    assert_eq!(e.byte_series().points()[2], Point { tick: 7, delta: 240 });
    assert_eq!(e.cumulative(), Totals { packets: 4, bytes: 300 });
}

#[test]
fn entity_activity_goes_by_packets_only() {
    let mut e = TrackedEntity::new(10, 1);
    e.observe(2, Totals { packets: 0, bytes: 500 });
    assert_eq!(e.last_active_tick(), 1);
    assert_eq!(e.byte_series().points()[0], Point { tick: 2, delta: 500 });
}

#[test]
fn entity_idle_only_past_the_timeout() {
    let e = TrackedEntity::new(10, 5);
    assert!(!e.is_idle(5, 3));
    assert!(!e.is_idle(8, 3));
    assert!(e.is_idle(9, 3));
    assert!(!e.is_idle(2, 3));
}

#[test]
fn entity_takes_a_lower_reading_as_new() {
    let mut e = TrackedEntity::new(10, 0);
    e.observe(1, Totals { packets: 100, bytes: 9000 });
    e.observe(2, Totals { packets: 40, bytes: 3000 });
    assert_eq!(e.packet_series().points()[1], Point { tick: 2, delta: 40 });
    assert_eq!(e.byte_series().points()[1], Point { tick: 2, delta: 3000 });
    assert_eq!(e.cumulative(), Totals { packets: 40, bytes: 3000 });
    assert_eq!(e.last_active_tick(), 2);
}

#[test]
fn entity_clear_forgets_what_was_counted() {
    let mut e = TrackedEntity::new(10, 0);
    e.observe(1, Totals { packets: 12, bytes: 1200 });
    e.observe(2, Totals { packets: 20, bytes: 2000 });
    e.clear();
    assert_eq!(e.cumulative(), Totals { packets: 0, bytes: 0 });
    assert_eq!(e.packet_series().points(), &vec![Point { tick: 0, delta: 0 }]);
    assert_eq!(e.byte_series().points(), &vec![Point { tick: 0, delta: 0 }]);
    assert_eq!(e.last_active_tick(), 2);
}

#[test]
fn entity_reset_series_keeps_the_totals() {
    let mut e = TrackedEntity::new(10, 0);
    e.observe(1, Totals { packets: 12, bytes: 1200 });
    e.reset_series();
    assert_eq!(e.cumulative(), Totals { packets: 12, bytes: 1200 });
    assert_eq!(e.packet_series().points(), &vec![Point { tick: 0, delta: 0 }]);
}

#[test]
fn counter_count_starts_or_adds() {
    assert_eq!(Counter::count(None, 60), Counter { bytes: 60, packets: 1 });
    assert_eq!(
        Counter::count(Some(Counter { bytes: 60, packets: 1 }), 40),
        Counter { bytes: 100, packets: 2 }
    );
}

#[test]
fn initial_slots_only_for_an_absent_key() {
    assert_eq!(initial_slots(true, 4), None);
    assert_eq!(initial_slots(false, 2), Some(vec![Counter::zero(), Counter::zero()]));
}

#[test]
fn counter_init_overwrites_only_when_told() {
    let keep = CounterInit { interface_index: 2, overwrite: false };
    let reset = CounterInit { interface_index: 2, overwrite: true };
    assert_eq!(keep.slots(true, 2), None);
    assert_eq!(keep.slots(false, 2), Some(vec![Counter::zero(); 2]));
    assert_eq!(reset.slots(true, 3), Some(vec![Counter::zero(); 3]));
    assert_eq!(reset.slots(false, 1), Some(vec![Counter::zero(); 1]));
}

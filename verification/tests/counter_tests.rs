use tuple_crasher::counter::RangeCounter;

#[test]
fn counter_index_round_trip() {
    let c = RangeCounter::new(3, 9, 4);
    let mut probe = RangeCounter::new(3, 9, 4);
    // Sweep some states and check from_index(to_index()) restores the digits.
    let mut steps = 0u64;
    loop {
        let idx = probe.to_index();
        let digits = probe.from_index(idx);
        assert_eq!(digits, probe.counter);
        assert_eq!(digits.len(), c.n);
        steps += 1;
        if probe.next() {
            break;
        }
    }
    assert_eq!(steps, 6u64.pow(4));
}

#[test]
fn counter_full_cycle_reports_exhaustion_once() {
    let mut c = RangeCounter::new(2, 5, 3);
    let space = 3u64.pow(3);
    let mut wraps = 0;
    for _ in 0..space {
        if c.next() {
            wraps += 1;
        }
    }
    // Exactly one wrap over a whole cycle, and the counter is back at all-low.
    assert_eq!(wraps, 1);
    assert_eq!(c.counter, vec![2, 2, 2]);
}

#[test]
fn counter_zero_length_is_trivial() {
    let mut c = RangeCounter::new(0, 10, 0);
    assert!(c.next());
    assert_eq!(c.to_index(), 0);
    assert_eq!(c.from_index(0), Vec::<u64>::new());
}

#[test]
fn counter_to_index_is_most_significant_first() {
    let mut c = RangeCounter::new(0, 10, 3);
    // Advance the fastest-moving digit (position 0) twice: index gains 200,
    // because position 0 is the most significant digit of the index.
    c.next();
    c.next();
    assert_eq!(c.counter, vec![2, 0, 0]);
    assert_eq!(c.to_index(), 200);
    assert_eq!(c.from_index(207), vec![2, 0, 7]);
}

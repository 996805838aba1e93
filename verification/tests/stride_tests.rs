use sched_core::Scheduler;
use sched_core::stride::BIG_STRIDE;
use sched_core::stride::StrideScheduler;
use sched_core::stride::entry_before;
use sched_core::stride::stride_before;

#[test]
fn comparator_orders_across_the_wrap_boundary() {
    // 0x10 is ahead of 0xFFFFFFF0 by 0x20, well within BIG_STRIDE
    assert!(stride_before(0xFFFF_FFF0, 0x0000_0010));
    assert!(!stride_before(0x0000_0010, 0xFFFF_FFF0));
}

#[test]
fn comparator_equal_values_are_unordered() {
    assert!(!stride_before(0xFFFF_FFF0, 0xFFFF_FFF0));
    assert!(!stride_before(0, 0));
}

#[test]
fn comparator_plain_ordering_inside_the_window() {
    assert!(stride_before(1, 2));
    assert!(!stride_before(2, 1));
    assert!(stride_before(0, BIG_STRIDE));
    assert!(!stride_before(BIG_STRIDE, 0));
}

#[test]
fn entry_order_breaks_stride_ties_by_thread_id() {
    assert!(entry_before((5, 1), (5, 2)));
    assert!(!entry_before((5, 2), (5, 1)));
    assert!(!entry_before((5, 1), (5, 1)));
    assert!(entry_before((4, 9), (5, 1)));
}

#[test]
fn stride_shares_follow_priorities() {
    // thread 0 at priority 4 should run about four times as often as
    // thread 1 at priority 1
    let mut s = StrideScheduler::new(1);
    s.set_priority(0, 4);
    s.set_priority(1, 1);
    s.push(0);
    s.push(1);
    let mut count0: usize = 0;
    let mut count1: usize = 0;
    for _ in 0..500 {
        match s.pop(0) {
            Some(0) => {
                count0 += 1;
                s.push(0);
            },
            Some(1) => {
                count1 += 1;
                s.push(1);
            },
            other => panic!("unexpected pop result {:?}", other),
        }
    }
    assert!(count0 + count1 == 500);
    assert!(count0 >= 380 && count0 <= 420, "count0 = {}", count0);
}

#[test]
fn stride_priority_zero_advances_fastest() {
    // priority 0 takes the whole BIG_STRIDE pass, so against a priority-1
    // thread it still runs about every second dispatch
    let mut s = StrideScheduler::new(1);
    s.set_priority(0, 0);
    s.set_priority(1, 1);
    s.push(0);
    s.push(1);
    let mut count0: usize = 0;
    for _ in 0..100 {
        match s.pop(0) {
            Some(0) => {
                count0 += 1;
                s.push(0);
            },
            Some(1) => {
                s.push(1);
            },
            other => panic!("unexpected pop result {:?}", other),
        }
    }
    assert!(count0 >= 45 && count0 <= 55, "count0 = {}", count0);
}

#[test]
fn stride_lazy_removal_discards_stale_entries() {
    let mut s = StrideScheduler::new(2);
    s.push(0);
    s.push(1);
    s.push(2);
    s.remove(0);
    s.remove(2);
    // the stale heap entries of 0 and 2 are skipped over
    assert_eq!(s.pop(0), Some(1));
    assert_eq!(s.pop(0), None);
}

#[test]
fn stride_remove_of_unknown_thread_is_tolerated() {
    let mut s = StrideScheduler::new(2);
    s.remove(42);
    assert_eq!(s.pop(0), None);
    s.push(42);
    s.remove(42);
    assert_eq!(s.pop(0), None);
}

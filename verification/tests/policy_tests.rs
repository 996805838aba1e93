use sched_core::Scheduler;
use sched_core::pt::PTScheduler;
use sched_core::rr::RRScheduler;
use sched_core::stride::StrideScheduler;

#[test]
fn rr_push_then_pop_returns_pushed() {
    let mut s = RRScheduler::new(5);
    s.push(7);
    assert_eq!(s.pop(0), Some(7));
    assert_eq!(s.pop(0), None);
}

#[test]
fn pt_push_then_pop_returns_pushed() {
    let mut s = PTScheduler::new(5);
    s.push(3);
    assert_eq!(s.pop(0), Some(3));
    assert_eq!(s.pop(0), None);
}

#[test]
fn stride_push_then_pop_returns_pushed() {
    let mut s = StrideScheduler::new(5);
    s.push(9);
    assert_eq!(s.pop(0), Some(9));
    assert_eq!(s.pop(0), None);
}

#[test]
fn rr_removed_thread_is_not_popped() {
    let mut s = RRScheduler::new(5);
    s.push(1);
    s.push(2);
    s.push(3);
    s.remove(2);
    assert_eq!(s.pop(0), Some(1));
    assert_eq!(s.pop(0), Some(3));
    assert_eq!(s.pop(0), None);
    s.push(2);
    assert_eq!(s.pop(0), Some(2));
}

#[test]
fn pt_removed_thread_is_not_popped() {
    let mut s = PTScheduler::new(5);
    s.push(1);
    s.push(2);
    s.push(3);
    s.remove(2);
    assert_eq!(s.pop(0), Some(1));
    assert_eq!(s.pop(0), Some(3));
    assert_eq!(s.pop(0), None);
}

#[test]
fn stride_removed_thread_is_not_popped() {
    let mut s = StrideScheduler::new(5);
    s.push(1);
    s.push(2);
    s.remove(1);
    assert_eq!(s.pop(0), Some(2));
    assert_eq!(s.pop(0), None);
    s.push(1);
    assert_eq!(s.pop(0), Some(1));
}

#[test]
fn rr_pops_in_fifo_order() {
    let mut s = RRScheduler::new(5);
    for tid in [4, 0, 9, 2, 7] {
        s.push(tid);
    }
    for tid in [4, 0, 9, 2, 7] {
        assert_eq!(s.pop(0), Some(tid));
    }
    assert_eq!(s.pop(0), None);
}

#[test]
fn rr_priority_zero_needs_reschedule_on_first_tick() {
    // quantum 5, default priority 0: the refilled slice is 5 * 0 == 0
    let mut s = RRScheduler::new(5);
    s.push(0);
    assert_eq!(s.pop(0), Some(0));
    assert!(s.tick(0));
}

#[test]
fn rr_priority_weights_the_quantum() {
    let mut s = RRScheduler::new(3);
    s.set_priority(0, 2);
    s.push(0);
    assert_eq!(s.pop(0), Some(0));
    // slice is 3 * 2 == 6: five ticks to go before the reschedule tick
    for _ in 0..5 {
        assert!(!s.tick(0));
    }
    assert!(s.tick(0));
    // ticking an exhausted thread is tolerated and keeps asking
    assert!(s.tick(0));
}

#[test]
fn pt_higher_tier_always_wins() {
    let mut s = PTScheduler::new(5);
    s.set_priority(0, 5); // tier 4
    s.set_priority(1, 1); // tier 0
    s.push(1);
    s.push(0);
    assert_eq!(s.pop(0), Some(0));
    assert_eq!(s.pop(0), Some(1));
    assert_eq!(s.pop(0), None);

    let mut s2 = PTScheduler::new(5);
    s2.set_priority(0, 5);
    s2.set_priority(1, 1);
    s2.push(0);
    s2.push(1);
    assert_eq!(s2.pop(0), Some(0));
    assert_eq!(s2.pop(0), Some(1));
}

#[test]
fn pt_same_tier_is_fifo() {
    let mut s = PTScheduler::new(5);
    s.set_priority(4, 3);
    s.set_priority(5, 3);
    s.set_priority(6, 3);
    s.push(5);
    s.push(4);
    s.push(6);
    assert_eq!(s.pop(0), Some(5));
    assert_eq!(s.pop(0), Some(4));
    assert_eq!(s.pop(0), Some(6));
}

#[test]
fn pt_clamps_priorities_above_five() {
    let mut s = PTScheduler::new(5);
    assert_eq!(s.cal_priority(7), 5);
    assert_eq!(s.cal_priority(5), 5);
    assert_eq!(s.cal_priority(1), 1);
    // priority 200 clamps to the top tier and beats tier 3
    s.set_priority(0, 200);
    s.set_priority(1, 4);
    s.push(1);
    s.push(0);
    assert_eq!(s.pop(0), Some(0));
    assert_eq!(s.pop(0), Some(1));
}

#[test]
fn rr_and_stride_pass_priority_through() {
    let rr = RRScheduler::new(5);
    assert_eq!(rr.cal_priority(9), 9);
    let st = StrideScheduler::new(5);
    assert_eq!(st.cal_priority(9), 9);
}

#[test]
fn pt_scenario_quantum_five_two_tiers() {
    // quantum 5; tid 0 at priority 5 (tier 4), tid 1 at priority 1 (tier 0)
    let mut s = PTScheduler::new(5);
    s.set_priority(0, 5);
    s.set_priority(1, 1);
    s.push(0);
    s.push(1);
    assert_eq!(s.pop(0), Some(0));
    assert_eq!(s.pop(0), Some(1));
    // the fixed quantum ignores the tier: five ticks each
    for _ in 0..4 {
        assert!(!s.tick(0));
    }
    assert!(s.tick(0));
}

#[test]
fn rr_scenario_quantum_five_default_priority() {
    // quantum 5; tid 0 at default priority 0 gets a zero slice
    let mut s = RRScheduler::new(5);
    s.push(0);
    assert_eq!(s.pop(0), Some(0));
    assert!(s.tick(0));
}

#[test]
fn pop_on_fresh_schedulers_is_none() {
    assert_eq!(RRScheduler::new(1).pop(0), None);
    assert_eq!(PTScheduler::new(1).pop(0), None);
    assert_eq!(StrideScheduler::new(1).pop(0), None);
}

#[test]
fn accounting_window_counts_ticks() {
    let mut s = RRScheduler::new(4);
    s.set_priority(0, 2);
    s.push(0);
    assert_eq!(s.pop(0), Some(0));
    s.start(0);
    s.tick(0);
    s.tick(0);
    s.tick(0);
    assert_eq!(s.get_tick(0), 3);
    s.end(0);
    assert_eq!(s.get_tick(0), 0);
    // ticks outside a window are not counted
    s.tick(0);
    assert_eq!(s.get_tick(0), 0);
}

#[test]
fn pt_accounting_window_counts_ticks() {
    let mut s = PTScheduler::new(9);
    s.push(2);
    assert_eq!(s.pop(0), Some(2));
    s.start(2);
    s.tick(2);
    s.tick(2);
    assert_eq!(s.get_tick(2), 2);
    s.end(2);
    assert_eq!(s.get_tick(2), 0);
}

#[test]
fn stride_accounting_window_counts_ticks() {
    let mut s = StrideScheduler::new(9);
    s.push(2);
    assert_eq!(s.pop(0), Some(2));
    s.start(2);
    s.tick(2);
    assert_eq!(s.get_tick(2), 1);
    s.end(2);
    assert_eq!(s.get_tick(2), 0);
}

#[test]
fn rr_success_flag_is_pass_through() {
    let mut s = RRScheduler::new(5);
    assert!(!s.get_success(0));
    s.set_success(0, true);
    assert!(s.get_success(0));
    s.set_success(0, false);
    assert!(!s.get_success(0));
    // start clears the flag
    s.set_success(0, true);
    s.start(0);
    assert!(!s.get_success(0));
}

#[test]
fn rr_reset_slice_forces_a_fresh_quantum() {
    let mut s = RRScheduler::new(4);
    s.set_priority(0, 1);
    s.push(0);
    assert_eq!(s.pop(0), Some(0));
    assert!(!s.tick(0)); // slice 4 -> 3
    // without a reset, a re-push keeps the leftover slice
    s.push(0);
    assert_eq!(s.pop(0), Some(0));
    assert!(!s.tick(0)); // 3 -> 2
    s.reset_slice(0);
    s.push(0); // refilled to 4
    assert_eq!(s.pop(0), Some(0));
    assert!(!s.tick(0)); // 4 -> 3
    assert!(!s.tick(0)); // 3 -> 2
    assert!(!s.tick(0)); // 2 -> 1
    assert!(s.tick(0)); // 1 -> 0
}

#[test]
fn tick_is_true_exactly_when_slice_reaches_zero() {
    let mut s = StrideScheduler::new(3);
    s.push(0);
    assert_eq!(s.pop(0), Some(0));
    assert!(!s.tick(0)); // 3 -> 2
    assert!(!s.tick(0)); // 2 -> 1
    assert!(s.tick(0)); // 1 -> 0
    assert!(s.tick(0)); // stays 0, still asking for a reschedule
}

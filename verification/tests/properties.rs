use ternary_tidelight::{gcd, lcm, LightCycle, Phase, SlackTide, Ternary, TideClock, TidePool, TidePredictor};

#[test]
fn ternary_digits_map_to_balanced_values() {
    assert_eq!(Ternary::Negative.to_i8(), -1);
    assert_eq!(Ternary::Zero.to_i8(), 0);
    assert_eq!(Ternary::Positive.to_i8(), 1);
}

#[test]
fn clock_countdown_lands_on_sync_tick() {
    let mut clock = TideClock::new(7);
    clock.advance_by(12);
    let k = clock.ticks_to_sync();
    assert_eq!(k, 2);
    clock.advance();
    assert!(!clock.is_sync_tick());
    clock.advance();
    assert!(clock.is_sync_tick());
    assert_eq!(clock.tick, 14);
    // standing on a sync tick, the next one is a full interval away
    assert_eq!(clock.ticks_to_sync(), 7);
}

#[test]
fn clock_edge_cases() {
    let clock = TideClock::new(0);
    assert_eq!(clock.ticks_to_sync(), 0);
    assert!(!clock.is_sync_tick());
    let mut clock = TideClock::new(3);
    assert!(!clock.is_sync_tick());
    clock.advance_by(u64::MAX - 1);
    assert_eq!(clock.room_tick(3), 1);
    assert_eq!(clock.sync_interval, 3);
}

#[test]
fn phase_new_raises_zero_period() {
    let p = Phase::new(4, 0);
    assert_eq!(p.period, 1);
    assert_eq!(p.offset, 4);
    assert!(p.in_phase(17));
}

#[test]
fn phase_negative_offset_wraps_into_period() {
    let p = Phase::new(-13, 10);
    assert_eq!(p.effective_offset(0), 7);
    assert_eq!(p.effective_offset(3), 0);
    assert_eq!(p.ticks_to_in_phase(0), 3);
}

#[test]
fn phase_countdown_reaches_alignment() {
    let p = Phase::new(5, 12);
    for tick in 0..30u64 {
        let k = p.ticks_to_in_phase(tick);
        assert!(k < 12);
        assert!(p.in_phase(tick + k));
        for d in 1..k {
            assert!(!p.in_phase(tick + d));
        }
        assert_eq!(p.effective_offset(tick + 12), p.effective_offset(tick));
    }
}

#[test]
fn phase_add_is_commutative_and_associative() {
    let a = Phase::new(2, 6);
    let b = Phase::new(-7, 4);
    let c = Phase::new(1, 10);
    assert_eq!(a.add(&b), b.add(&a));
    let left = a.add(&b).add(&c);
    let right = a.add(&b.add(&c));
    assert_eq!(left, right);
    assert_eq!(left.period, 60);
    assert_eq!(left.offset, -4);
}

#[test]
fn phase_add_with_zero_period_gets_period_one() {
    let a = Phase { offset: 1, period: 0 };
    let b = Phase::new(2, 9);
    let s = a.add(&b);
    assert_eq!(s.period, 1);
    assert_eq!(s.offset, 3);
}

#[test]
fn gcd_and_lcm_values() {
    assert_eq!(gcd(0, 0), 0);
    assert_eq!(gcd(0, 9), 9);
    assert_eq!(gcd(9, 0), 9);
    assert_eq!(gcd(17, 5), 1);
    assert_eq!(gcd(48, 180), 12);
    assert_eq!(lcm(0, 5), 0);
    assert_eq!(lcm(4, 6), 12);
    assert_eq!(lcm(lcm(4, 6), 10), lcm(4, lcm(6, 10)));
    assert_eq!(lcm(1 << 32, 3), 3 << 32);
}

#[test]
fn pool_add_then_remove_restores() {
    let mut pool = TidePool::new("p", 10);
    pool.add_room("a", 3);
    assert_eq!(pool.room_count(), 1);
    pool.add_room("b", 4);
    assert!(pool.remove_room("b"));
    assert_eq!(pool.room_count(), 1);
    assert!(!pool.remove_room("b"));
    assert!(!pool.remove_room("zzz"));
    assert_eq!(pool.id(), "p");
    assert_eq!(pool.period(), 10);
}

#[test]
fn pool_readding_a_room_replaces_its_offset() {
    let mut pool = TidePool::new("p", 10);
    pool.add_room("a", 0);
    pool.add_room("a", 5);
    assert_eq!(pool.room_count(), 1);
    assert_eq!(pool.in_phase_rooms(10).len(), 0);
    assert_eq!(pool.in_phase_rooms(5), vec!["a"]);
}

#[test]
fn pool_offsets_reduce_modulo_period() {
    let mut pool = TidePool::new("p", 0);
    assert_eq!(pool.period(), 1);
    pool.add_room("x", 99);
    assert_eq!(pool.in_phase_rooms(7), vec!["x"]);
    let mut pool = TidePool::new("q", 10);
    pool.add_room("r1", 13);
    pool.add_room("r2", 3);
    pool.add_room("r3", 4);
    let mut rooms = pool.in_phase_rooms(7);
    rooms.sort();
    assert_eq!(rooms, vec!["r1", "r2"]);
}

#[test]
fn predictor_detects_alternation_after_four_observations() {
    let mut pred = TidePredictor::new();
    let states = [Ternary::Positive, Ternary::Negative, Ternary::Positive, Ternary::Negative];
    for (i, s) in states.iter().enumerate() {
        pred.observe("r", i as u64, *s);
    }
    assert_eq!(pred.predict("r", 4), Some(Ternary::Positive));
    assert_eq!(pred.predict("r", 5), Some(Ternary::Negative));
    assert_eq!(pred.predict("r", 100), Some(Ternary::Positive));
    assert_eq!(pred.predict("r", 101), Some(Ternary::Negative));
}

#[test]
fn predictor_reproduces_periodic_history() {
    let mut pred = TidePredictor::new();
    let pattern = [Ternary::Zero, Ternary::Positive, Ternary::Negative];
    for t in 0..9u64 {
        pred.observe("r", t, pattern[(t % 3) as usize]);
    }
    for t in 0..30u64 {
        assert_eq!(pred.predict("r", t), Some(pattern[(t % 3) as usize]));
    }
    assert_eq!(pred.observation_count("r"), 9);
    assert_eq!(pred.observation_count("other"), 0);
}

#[test]
fn predictor_without_pattern_uses_last_state() {
    let mut pred = TidePredictor::new();
    pred.observe("r", 0, Ternary::Positive);
    pred.observe("r", 1, Ternary::Zero);
    pred.observe("r", 2, Ternary::Negative);
    // no candidate period repeats: no pattern, so the last state is forecast
    assert_eq!(pred.predict("r", 2), Some(Ternary::Negative));
    assert_eq!(pred.predict("r", 3), Some(Ternary::Negative));
    assert_eq!(pred.predict("r", 100), Some(Ternary::Negative));
}

#[test]
fn predictor_single_observation_and_early_tick() {
    let mut pred = TidePredictor::new();
    pred.observe("r", 10, Ternary::Negative);
    assert_eq!(pred.predict("r", 0), Some(Ternary::Negative));
    pred.observe("r", 11, Ternary::Negative);
    // before the first observation the first state is returned
    assert_eq!(pred.predict("r", 3), Some(Ternary::Negative));
    pred.observe("s", 5, Ternary::Zero);
    assert_eq!(pred.observation_count("r"), 2);
    assert_eq!(pred.observation_count("s"), 1);
}

#[test]
fn predictor_falls_back_to_last_state_when_offset_unobserved() {
    let mut pred = TidePredictor::new();
    pred.observe("r", 0, Ternary::Positive);
    pred.observe("r", 2, Ternary::Positive);
    pred.observe("r", 4, Ternary::Positive);
    pred.observe("r", 5, Ternary::Negative);
    // period 2 is detected; no observation lies at place 1 of the cycle
    assert_eq!(pred.predict("r", 7), Some(Ternary::Negative));
    assert_eq!(pred.predict("r", 6), Some(Ternary::Positive));
}

#[test]
fn predictor_sparse_ticks_accept_period_one() {
    let mut pred = TidePredictor::new();
    pred.observe("r", 0, Ternary::Positive);
    pred.observe("r", 10, Ternary::Negative);
    // no observation lies one place before another, so period 1 is accepted
    assert_eq!(pred.predict("r", 13), Some(Ternary::Positive));
    assert_eq!(pred.predict("r", 20), Some(Ternary::Positive));
}

#[test]
fn light_cycle_twilight_borders_day() {
    let cycle = LightCycle::new(24, 6, 18);
    assert_eq!(cycle.resource_level(5), Ternary::Zero);
    assert_eq!(cycle.resource_level(6), Ternary::Positive);
    assert_eq!(cycle.resource_level(17), Ternary::Positive);
    assert_eq!(cycle.resource_level(18), Ternary::Zero);
    assert_eq!(cycle.resource_level(19), Ternary::Zero);
    assert_eq!(cycle.resource_level(20), Ternary::Negative);
    assert_eq!(cycle.resource_level(4), Ternary::Negative);
    assert_eq!(cycle.day_length(), 12);
}

#[test]
fn light_cycle_wrapping_day() {
    let cycle = LightCycle::new(24, 18, 6);
    assert!(cycle.is_day(20));
    assert!(cycle.is_day(2));
    assert!(!cycle.is_day(12));
    assert_eq!(cycle.day_length(), 12);
    assert_eq!(cycle.ticks_to_day(18), 24);
    assert_eq!(cycle.ticks_to_day(20), 22);
}

#[test]
fn light_cycle_new_clamps_bounds() {
    let cycle = LightCycle::new(10, 50, 70);
    assert_eq!(cycle.cycle_length, 10);
    assert_eq!(cycle.day_start, 9);
    assert_eq!(cycle.day_end, 10);
    let days = (0..10u64).filter(|t| cycle.is_day(*t)).count() as u64;
    assert_eq!(days, cycle.day_length());
}

#[test]
fn light_cycle_countdown_reaches_day_start() {
    let cycle = LightCycle::new(24, 6, 18);
    for tick in 0..50u64 {
        let k = cycle.ticks_to_day(tick);
        assert!(1 <= k && k <= 24);
        assert_eq!((tick + k) % 24, 6);
    }
}

#[test]
fn slack_tide_wrapping_window() {
    let slack = SlackTide::new(22, 1, 24);
    assert!(slack.is_slack(23));
    assert!(slack.is_slack(0));
    assert!(slack.is_slack(1));
    assert!(!slack.is_slack(2));
    assert_eq!(slack.duration(), 4);
    assert_eq!(slack.ticks_to_slack(10), 12);
    assert_eq!(slack.ticks_to_slack(23), 0);
    assert_eq!(slack.activity_level(2), Ternary::Zero);
    assert_eq!(slack.activity_level(21), Ternary::Zero);
    assert_eq!(slack.activity_level(10), Ternary::Positive);
}

#[test]
fn slack_tide_duration_counts_slack_ticks() {
    for (s, e) in [(2u64, 4u64), (22, 1), (0, 23), (5, 5), (7, 3)] {
        let slack = SlackTide::new(s, e, 24);
        let count = (0..24u64).filter(|t| slack.is_slack(*t)).count() as u64;
        assert_eq!(count, slack.duration());
    }
    let slack = SlackTide::new(0, 0, 0);
    assert_eq!(slack.cycle, 1);
    assert_eq!(slack.duration(), 1);
}

#[test]
fn slack_countdown_reaches_slack() {
    let slack = SlackTide::new(21, 23, 24);
    for tick in 0..60u64 {
        let k = slack.ticks_to_slack(tick);
        assert!(slack.is_slack(tick + k));
        for d in 1..k {
            assert!(!slack.is_slack(tick + d));
        }
    }
}

#[test]
fn predictor_needs_six_observations_for_period_three() {
    let pattern = [Ternary::Zero, Ternary::Positive, Ternary::Negative];
    let mut pred = TidePredictor::new();
    for t in 0..5u64 {
        pred.observe("r", t, pattern[(t % 3) as usize]);
    }
    // five observations allow candidates up to two only: no pattern, so the
    // last state is forecast
    assert_eq!(pred.predict("r", 6), Some(Ternary::Positive));
    pred.observe("r", 5, pattern[2]);
    // six observations let period three be detected
    assert_eq!(pred.predict("r", 6), Some(Ternary::Zero));
    assert_eq!(pred.predict("r", 7), Some(Ternary::Positive));
}

#[test]
fn slack_tide_three_of_twenty_four() {
    let slack = SlackTide::new(3, 5, 24);
    assert_eq!(slack.duration(), 3);
    let count = (0..24u64).filter(|t| slack.is_slack(*t)).count();
    assert_eq!(count, 3);
}

#[test]
fn phase_reads_ticks_and_periods_as_signed() {
    // the last u64 tick reads as -1
    assert_eq!(Phase::new(0, 10).effective_offset(u64::MAX), 9);
    // a period of u64::MAX reads as -1
    let p = Phase { offset: 0, period: u64::MAX };
    assert_eq!(p.effective_offset(5), 0);
    let p = Phase { offset: 0, period: 1 << 63 };
    assert_eq!(p.effective_offset(5), 5);
    let p = Phase { offset: 0, period: (1 << 63) + 10 };
    assert_eq!(p.ticks_to_in_phase(5), (1 << 63) + 5);
}

#[test]
fn light_cycle_twilight_across_the_wrap() {
    let cycle = LightCycle::new(24, 0, 12);
    assert_eq!(cycle.resource_level(23), Ternary::Zero);
    assert_eq!(cycle.resource_level(24), Ternary::Positive);
    assert_eq!(cycle.resource_level(12), Ternary::Zero);
    assert_eq!(cycle.resource_level(14), Ternary::Negative);
    let cycle = LightCycle::new(24, 6, 24);
    assert_eq!(cycle.resource_level(23), Ternary::Positive);
    assert_eq!(cycle.resource_level(24), Ternary::Zero);
    assert_eq!(cycle.resource_level(1), Ternary::Zero);
    assert_eq!(cycle.resource_level(2), Ternary::Negative);
}

#[test]
fn light_cycle_day_night_pass_through_twilight() {
    for (c, s, e) in [(24u64, 6u64, 18u64), (24, 0, 12), (24, 18, 6), (24, 6, 24), (10, 9, 10), (5, 0, 5), (3, 1, 2)] {
        let cycle = LightCycle::new(c, s, e);
        for t in 0..60u64 {
            let a = cycle.resource_level(t);
            let b = cycle.resource_level(t + 1);
            assert!(!(a == Ternary::Positive && b == Ternary::Negative));
            assert!(!(a == Ternary::Negative && b == Ternary::Positive));
        }
    }
}

#[test]
fn slack_tide_transitions_across_the_wrap() {
    let slack = SlackTide::new(0, 2, 10);
    assert_eq!(slack.activity_level(9), Ternary::Zero);
    assert_eq!(slack.activity_level(10), Ternary::Negative);
    assert_eq!(slack.activity_level(3), Ternary::Zero);
    assert_eq!(slack.activity_level(5), Ternary::Positive);
    for (s, e) in [(0u64, 2u64), (7, 9), (8, 1), (4, 4), (2, 4)] {
        let slack = SlackTide::new(s, e, 10);
        for t in 0..40u64 {
            if !slack.is_slack(t) && slack.is_slack(t + 1) {
                assert_eq!(slack.activity_level(t), Ternary::Zero);
            }
            if slack.is_slack(t) && !slack.is_slack(t + 1) {
                assert_eq!(slack.activity_level(t + 1), Ternary::Zero);
            }
            assert_eq!(slack.activity_level(t) == Ternary::Negative, slack.is_slack(t));
        }
    }
}

#[test]
fn pool_offset_lookup() {
    let mut pool = TidePool::new("p", 10);
    pool.add_room("a", 23);
    assert_eq!(pool.offset_of("a"), Some(3));
    assert_eq!(pool.offset_of("b"), None);
    pool.add_room("a", 7);
    assert_eq!(pool.offset_of("a"), Some(7));
    assert!(pool.remove_room("a"));
    assert_eq!(pool.offset_of("a"), None);
}

#[test]
fn twilight_bounds_outside_the_cycle_are_measured_straight() {
    let cycle = LightCycle { cycle_length: 24, day_start: 30, day_end: 40 };
    assert_eq!(cycle.resource_level(6), Ternary::Negative);
    let cycle = LightCycle::new(24, 12, 23);
    assert_eq!(cycle.resource_level(24), Ternary::Zero);
    let slack = SlackTide::new(30, 40, 10);
    assert_eq!(slack.activity_level(0), Ternary::Positive);
    let slack = SlackTide::new(11, 40, 10);
    // straight distance from phase 9 to the start 11 is two
    assert_eq!(slack.activity_level(9), Ternary::Positive);
}

#[test]
fn cloned_pool_and_predictor_keep_their_contents() {
    let mut pool = TidePool::new("p", 10);
    pool.add_room("a", 3);
    pool.add_room("b", 7);
    let copy = pool.clone();
    assert_eq!(copy.room_count(), 2);
    assert_eq!(copy.offset_of("a"), Some(3));
    assert_eq!(copy.offset_of("b"), Some(7));
    assert_eq!(copy.id(), "p");
    assert_eq!(copy.period(), 10);
    let mut pred = TidePredictor::new();
    pred.observe("r", 0, Ternary::Positive);
    pred.observe("r", 1, Ternary::Negative);
    let copy = pred.clone();
    assert_eq!(copy.observation_count("r"), 2);
    assert_eq!(copy.predict("r", 2), pred.predict("r", 2));
}

use ternary_tidelight::{gcd, lcm, LightCycle, Phase, SlackTide, Ternary, TideClock, TidePool, TidePredictor};

#[test]
fn test_tide_clock_advance() {
    let mut clock = TideClock::new(10);
    clock.advance();
    assert_eq!(clock.tick, 1);
    clock.advance_by(5);
    assert_eq!(clock.tick, 6);
}

#[test]
fn test_tide_clock_sync() {
    let mut clock = TideClock::new(5);
    clock.advance_by(5);
    assert!(clock.is_sync_tick());
}

#[test]
fn test_tide_clock_ticks_to_sync() {
    let clock = TideClock::new(10);
    assert_eq!(clock.ticks_to_sync(), 10);
}

#[test]
fn test_tide_clock_reset() {
    let mut clock = TideClock::new(10);
    clock.advance_by(50);
    clock.reset();
    assert_eq!(clock.tick, 0);
}

#[test]
fn test_tide_clock_room_tick() {
    let clock = TideClock::new(10);
    assert_eq!(clock.room_tick(5), 5);
}

#[test]
fn test_phase_in_phase() {
    let phase = Phase::new(0, 10);
    assert!(phase.in_phase(0));
    assert!(phase.in_phase(10));
    assert!(!phase.in_phase(5));
}

#[test]
fn test_phase_effective_offset() {
    let phase = Phase::new(3, 10);
    assert_eq!(phase.effective_offset(0), 3);
    assert_eq!(phase.effective_offset(7), 0); // wraps
}

#[test]
fn test_phase_ticks_to_in_phase() {
    let phase = Phase::new(3, 10);
    assert_eq!(phase.ticks_to_in_phase(0), 7);
}

#[test]
fn test_phase_add() {
    let a = Phase::new(2, 6);
    let b = Phase::new(3, 4);
    let sum = a.add(&b);
    assert_eq!(sum.offset, 5);
    assert_eq!(sum.period, 12); // lcm(6,4)
}

#[test]
fn test_tide_pool_add_remove() {
    let mut pool = TidePool::new("pool1", 10);
    pool.add_room("r1", 0);
    pool.add_room("r2", 5);
    assert_eq!(pool.room_count(), 2);
    assert!(pool.remove_room("r1"));
    assert_eq!(pool.room_count(), 1);
}

#[test]
fn test_tide_pool_in_phase_rooms() {
    let mut pool = TidePool::new("pool1", 10);
    pool.add_room("r1", 0);
    pool.add_room("r2", 0);
    pool.add_room("r3", 5);
    let in_phase = pool.in_phase_rooms(10);
    assert_eq!(in_phase.len(), 2);
}

#[test]
fn test_tide_predictor_observe_and_predict() {
    let mut pred = TidePredictor::new();
    pred.observe("r1", 0, Ternary::Positive);
    pred.observe("r1", 1, Ternary::Zero);
    pred.observe("r1", 2, Ternary::Positive);
    pred.observe("r1", 3, Ternary::Zero);
    let result = pred.predict("r1", 100);
    assert!(result.is_some());
}

#[test]
fn test_tide_predictor_unknown_room() {
    let pred = TidePredictor::new();
    assert_eq!(pred.predict("unknown", 0), None);
}

#[test]
fn test_tide_predictor_observation_count() {
    let mut pred = TidePredictor::new();
    pred.observe("r1", 0, Ternary::Positive);
    pred.observe("r1", 1, Ternary::Zero);
    assert_eq!(pred.observation_count("r1"), 2);
}

#[test]
fn test_light_cycle_day() {
    let cycle = LightCycle::new(24, 6, 18);
    assert!(cycle.is_day(12));
    assert!(!cycle.is_day(0));
}

#[test]
fn test_light_cycle_resource_level() {
    let cycle = LightCycle::new(24, 6, 18);
    assert_eq!(cycle.resource_level(12), Ternary::Positive);
    assert_eq!(cycle.resource_level(0), Ternary::Negative);
}

#[test]
fn test_light_cycle_ticks_to_day() {
    let cycle = LightCycle::new(24, 6, 18);
    assert_eq!(cycle.ticks_to_day(0), 6);
    assert_eq!(cycle.ticks_to_day(3), 3);
}

#[test]
fn test_slack_tide_is_slack() {
    let slack = SlackTide::new(2, 4, 10);
    assert!(slack.is_slack(2));
    assert!(slack.is_slack(3));
    assert!(!slack.is_slack(6));
}

#[test]
fn test_slack_tide_duration() {
    let slack = SlackTide::new(2, 4, 10);
    assert_eq!(slack.duration(), 3);
}

#[test]
fn test_slack_tide_ticks_to_slack() {
    let slack = SlackTide::new(2, 4, 10);
    assert_eq!(slack.ticks_to_slack(0), 2);
}

#[test]
fn test_slack_tide_activity_level() {
    let slack = SlackTide::new(2, 4, 10);
    assert_eq!(slack.activity_level(3), Ternary::Negative); // slack
    assert_eq!(slack.activity_level(7), Ternary::Positive); // active
}

#[test]
fn test_lcm_and_gcd() {
    assert_eq!(gcd(12, 8), 4);
    assert_eq!(lcm(6, 4), 12);
}

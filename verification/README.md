# ternary_tidelight

Temporal coordination for fleets of rooms whose states are balanced ternary
digits, verified with Verus.

- `src/ternary.rs` — the `Ternary` digit.
- `src/clock.rs` — `TideClock`: global ticks and synchronization pulses.
- `src/arith.rs` — `gcd` and `lcm`, with their characterization as greatest
  common divisor and least common multiple, and counting lemmas.
- `src/phase.rs` — `Phase`: offsets modulo a period, alignment, and phase
  addition.
- `src/pool.rs` — `TidePool`: a group of rooms sharing a period.
- `src/predictor.rs` — `TidePredictor`: observation histories, period
  detection and forecasting.
- `src/light.rs` — `LightCycle`: day, twilight and night resource levels.
- `src/slack.rs` — `SlackTide`: maintenance windows and activity levels.
- `app/lib.rs` — the floating-point ratios (pool alignment, day fraction),
  computed from the verified counts.

Rooms are keyed by `String`. vstd's specification of `HashMap` proves little
for such keys, so `TidePool` and `TidePredictor` keep their rooms in a `Vec`
of pairs with no key twice, an invariant of the type, and are viewed as maps.

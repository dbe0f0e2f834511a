use sys_tap_bpm::tap_tempo::{
    elapsed_nanos, TapTempoConfig, TapTempoSession, TapTempoSnapshot, Tempo, MAX_TAPS,
    NANOS_PER_MINUTE,
};

const NANOS_PER_MILLI: u64 = 1_000_000;
const NANOS_PER_MICRO: u64 = 1_000;
const BASE: u64 = 7_000_000_000;

fn config() -> TapTempoConfig {
    TapTempoConfig {
        reset_after: 3_000_000_000,
        averaging_window: 45_000_000_000,
        min_intervals: 2,
    }
}

fn at(base: u64, millis: u64) -> u64 {
    base + millis * NANOS_PER_MILLI
}

fn micros(base: u64, micros: u64) -> u64 {
    base + micros * NANOS_PER_MICRO
}

fn bpm_value(tempo: Tempo) -> f64 {
    tempo.numerator as f64 / tempo.denominator as f64
}

fn assert_bpm(actual: Option<Tempo>, expected: f64) {
    let actual = bpm_value(actual.expect("expected bpm"));
    assert!(
        (actual - expected).abs() < 0.001,
        "expected {expected}, got {actual}"
    );
}

#[test]
fn first_tap_starts_session_without_bpm() {
    let mut session = TapTempoSession::default();
    let base = BASE;

    let snapshot = session.tap(base, &config());

    assert_eq!(snapshot.tap_count, 1);
    assert!(snapshot.is_active);
    assert_eq!(snapshot.bpm, None);
    assert_eq!(snapshot.display_bpm, Some(0));
}

#[test]
fn waits_for_minimum_intervals_before_showing_bpm() {
    let mut session = TapTempoSession::default();
    let base = BASE;
    let config = config();

    session.tap(at(base, 0), &config);
    let snapshot = session.tap(at(base, 500), &config);

    assert_eq!(snapshot.tap_count, 2);
    assert_eq!(snapshot.bpm, None);
    assert_eq!(snapshot.display_bpm, Some(120));
}

#[test]
fn averages_intervals_before_deriving_bpm() {
    let mut session = TapTempoSession::default();
    let base = BASE;
    let config = config();

    session.tap(at(base, 0), &config);
    session.tap(at(base, 500), &config);
    let snapshot = session.tap(at(base, 1_000), &config);

    assert_eq!(snapshot.tap_count, 3);
    assert_bpm(snapshot.bpm, 120.0);
}

#[test]
fn estimates_tempo_line_from_changing_intervals() {
    let mut session = TapTempoSession::default();
    let base = BASE;
    let config = config();

    session.tap(at(base, 0), &config);
    session.tap(at(base, 500), &config);
    session.tap(at(base, 1_100), &config);
    let snapshot = session.tap(at(base, 1_800), &config);

    assert_bpm(snapshot.bpm, 100.0);
}

#[test]
fn uses_fractional_milliseconds_for_more_precise_estimates() {
    let mut session = TapTempoSession::default();
    let base = BASE;
    let config = config();

    session.tap(at(base, 0), &config);
    session.tap(micros(base, 342_857), &config);
    let snapshot = session.tap(micros(base, 685_714), &config);

    assert_bpm(snapshot.bpm, 175.000175000175);
}

#[test]
fn regression_estimator_reduces_jitter_from_individual_intervals() {
    let mut session = TapTempoSession::default();
    let base = BASE;
    let config = config();

    for millis in [0, 350, 680, 1_040, 1_370, 1_710, 2_060, 2_390, 2_740] {
        session.tap(at(base, millis), &config);
    }

    assert_bpm(session.snapshot().bpm, 175.52413456850317);
}

#[test]
fn display_bpm_uses_hysteresis_to_avoid_single_digit_flicker() {
    let mut session = TapTempoSession::default();
    let base = BASE;
    let config = config();

    session.tap(at(base, 0), &config);
    session.tap(micros(base, 342_857), &config);
    let snapshot = session.tap(micros(base, 685_714), &config);

    assert_eq!(snapshot.display_bpm, Some(175));

    session.tap(micros(base, 1_027_000), &config);
    let snapshot = session.tap(micros(base, 1_364_000), &config);

    assert!(
        bpm_value(snapshot.bpm.expect("expected bpm")) > 175.5,
        "expected raw bpm near the rounding boundary"
    );
    assert_eq!(snapshot.display_bpm, Some(175));
}

#[test]
fn display_bpm_updates_when_estimate_moves_past_hysteresis() {
    let mut session = TapTempoSession::default();
    let base = BASE;
    let config = config();

    session.tap(at(base, 0), &config);
    session.tap(micros(base, 342_857), &config);
    session.tap(micros(base, 685_714), &config);
    let snapshot = session.tap(micros(base, 1_020_000), &config);

    assert_eq!(snapshot.display_bpm, Some(176));
}

#[test]
fn resets_session_when_next_tap_arrives_after_inactivity() {
    let mut session = TapTempoSession::default();
    let base = BASE;
    let config = config();

    session.tap(at(base, 0), &config);
    session.tap(at(base, 500), &config);
    session.tap(at(base, 1_000), &config);
    let snapshot = session.tap(at(base, 4_500), &config);

    assert_eq!(snapshot.tap_count, 1);
    assert!(snapshot.is_active);
    assert_eq!(snapshot.bpm, None);
}

#[test]
fn reset_if_inactive_clears_active_session() {
    let mut session = TapTempoSession::default();
    let base = BASE;
    let config = config();

    session.tap(at(base, 0), &config);
    session.tap(at(base, 500), &config);
    session.tap(at(base, 1_000), &config);

    assert!(session
        .reset_if_inactive(at(base, 2_000), config.reset_after)
        .is_none());

    let snapshot = session
        .reset_if_inactive(at(base, 4_000), config.reset_after)
        .expect("expected reset");

    assert_eq!(snapshot.tap_count, 0);
    assert!(!snapshot.is_active);
    assert_eq!(snapshot.bpm, None);
}

#[test]
fn prunes_taps_outside_averaging_window() {
    let mut session = TapTempoSession::default();
    let base = BASE;
    let config = TapTempoConfig {
        reset_after: 60_000_000_000,
        averaging_window: 1_000_000_000,
        min_intervals: 2,
    };

    session.tap(at(base, 0), &config);
    session.tap(at(base, 500), &config);
    session.tap(at(base, 1_000), &config);
    let snapshot = session.tap(at(base, 1_500), &config);

    assert_eq!(snapshot.tap_count, 3);
    assert_bpm(snapshot.bpm, 120.0);
}

#[test]
fn steady_taps_give_the_exact_tempo_ratio() {
    let mut session = TapTempoSession::new();
    let config = config();
    let period_ms = 400;
    let mut snapshot = session.snapshot();
    for beat in 0..8 {
        snapshot = session.tap(at(BASE, beat * period_ms), &config);
    }
    let tempo = snapshot.bpm.expect("expected bpm");
    // numerator / denominator == one minute / period, exactly.
    assert_eq!(
        tempo.numerator * (period_ms as u128 * NANOS_PER_MILLI as u128),
        NANOS_PER_MINUTE * tempo.denominator
    );
    assert_eq!(snapshot.display_bpm, Some(150));
}

#[test]
fn estimate_needs_more_taps_than_min_intervals() {
    let mut session = TapTempoSession::new();
    let config = TapTempoConfig {
        reset_after: 3_000_000_000,
        averaging_window: 45_000_000_000,
        min_intervals: 4,
    };
    for beat in 0..4 {
        let snapshot = session.tap(at(BASE, beat * 500), &config);
        assert_eq!(snapshot.bpm, None);
    }
    let snapshot = session.tap(at(BASE, 2_000), &config);
    assert_bpm(snapshot.bpm, 120.0);
    assert_eq!(snapshot.tap_count, 5);
}

#[test]
fn zero_min_intervals_still_needs_two_taps() {
    let mut session = TapTempoSession::new();
    let config = TapTempoConfig {
        reset_after: 3_000_000_000,
        averaging_window: 45_000_000_000,
        min_intervals: 0,
    };
    let snapshot = session.tap(BASE, &config);
    assert_eq!(snapshot.bpm, None);
    let snapshot = session.tap(at(BASE, 250), &config);
    assert_bpm(snapshot.bpm, 240.0);
}

#[test]
fn taps_at_the_same_instant_give_no_tempo() {
    let mut session = TapTempoSession::new();
    let config = config();
    for _ in 0..4 {
        session.tap(BASE, &config);
    }
    let snapshot = session.snapshot();
    assert_eq!(snapshot.tap_count, 4);
    assert_eq!(snapshot.bpm, None);
    assert_eq!(snapshot.display_bpm, Some(0));
}

#[test]
fn earlier_instant_counts_as_no_time_passed() {
    assert_eq!(elapsed_nanos(10, 4), 0);
    assert_eq!(elapsed_nanos(4, 10), 6);
    let mut session = TapTempoSession::new();
    let config = config();
    session.tap(at(BASE, 1_000), &config);
    // A tap that reads an earlier clock does not restart the session.
    let snapshot = session.tap(at(BASE, 0), &config);
    assert_eq!(snapshot.tap_count, 2);
}

#[test]
fn tap_exactly_at_reset_time_keeps_session() {
    let mut session = TapTempoSession::new();
    let config = config();
    session.tap(at(BASE, 0), &config);
    let snapshot = session.tap(at(BASE, 3_000), &config);
    assert_eq!(snapshot.tap_count, 2);
    let snapshot = session.tap(at(BASE, 6_001), &config);
    assert_eq!(snapshot.tap_count, 1);
}

#[test]
fn reset_check_at_exactly_reset_time_clears() {
    let mut session = TapTempoSession::new();
    let config = config();
    session.tap(at(BASE, 0), &config);
    assert!(session.reset_if_inactive(at(BASE, 2_999), config.reset_after).is_none());
    assert_eq!(session.snapshot().tap_count, 1);
    let snapshot = session.reset_if_inactive(at(BASE, 3_000), config.reset_after);
    assert_eq!(
        snapshot,
        Some(TapTempoSnapshot { bpm: None, display_bpm: None, tap_count: 0, is_active: false })
    );
    // A second check finds nothing to clear.
    assert!(session.reset_if_inactive(at(BASE, 9_000), config.reset_after).is_none());
}

#[test]
fn reset_on_fresh_session_does_nothing() {
    let mut session = TapTempoSession::default();
    assert!(session.reset_if_inactive(BASE, 0).is_none());
    assert_eq!(
        session.snapshot(),
        TapTempoSnapshot { bpm: None, display_bpm: None, tap_count: 0, is_active: false }
    );
}

#[test]
fn window_keeps_only_recent_taps_and_the_newest() {
    let mut session = TapTempoSession::new();
    let config = TapTempoConfig {
        reset_after: 60_000_000_000,
        averaging_window: 0,
        min_intervals: 2,
    };
    for beat in 0..5 {
        let snapshot = session.tap(at(BASE, beat * 100), &config);
        assert_eq!(snapshot.tap_count, 1);
    }
}

#[test]
fn display_stays_within_one_bpm_of_estimate() {
    let mut session = TapTempoSession::new();
    let config = config();
    let times = [0u64, 410, 790, 1_230, 1_610, 2_020, 2_400, 2_830, 3_190, 3_620];
    for millis in times {
        let snapshot = session.tap(at(BASE, millis), &config);
        if let (Some(tempo), Some(shown)) = (snapshot.bpm, snapshot.display_bpm) {
            assert!((bpm_value(tempo) - shown as f64).abs() < 1.0);
        }
    }
}

#[test]
fn display_keeps_previous_number_without_estimate() {
    let mut session = TapTempoSession::new();
    let config = config();
    session.tap(at(BASE, 0), &config);
    let snapshot = session.tap(at(BASE, 500), &config);
    assert_eq!(snapshot.display_bpm, Some(120));
    // All later taps at one instant: the raw line is flat, the shown number stays.
    let config_no_window = TapTempoConfig { averaging_window: 0, ..config };
    let snapshot = session.tap(at(BASE, 900), &config_no_window);
    assert_eq!(snapshot.tap_count, 1);
    assert_eq!(snapshot.display_bpm, Some(120));
}

#[test]
fn max_taps_allows_a_million_taps() {
    assert_eq!(MAX_TAPS, 1_048_576);
}

#[test]
fn restart_ignores_the_tap_count_bound() {
    // A tap that restarts the session behaves like a tap on a fresh session.
    let config = config();
    let mut used = TapTempoSession::new();
    for beat in 0..6 {
        used.tap(at(BASE, beat * 300), &config);
    }
    let mut fresh = TapTempoSession::new();
    let late = at(BASE, 60_000);
    assert_eq!(used.tap(late, &config), fresh.tap(late, &config));
    assert_eq!(used.tap(late + 500 * NANOS_PER_MILLI, &config), fresh.tap(late + 500 * NANOS_PER_MILLI, &config));
}

#[test]
fn shifted_taps_give_the_same_tempo() {
    let config = config();
    let times = [0u64, 410, 790, 1_230, 1_610];
    let mut early = TapTempoSession::new();
    let mut late = TapTempoSession::new();
    let mut a = early.snapshot();
    let mut b = late.snapshot();
    for millis in times {
        a = early.tap(at(BASE, millis), &config);
        b = late.tap(at(BASE + 123_456_789, millis), &config);
    }
    assert_eq!(a.bpm, b.bpm);
    assert_eq!(a.display_bpm, b.display_bpm);
}

#[test]
fn increasing_taps_always_give_an_estimate() {
    let config = config();
    let mut session = TapTempoSession::new();
    // Wildly uneven but strictly later taps.
    for micros_at in [0u64, 1, 900_000, 900_002, 1_700_000] {
        session.tap(micros(BASE, micros_at), &config);
    }
    let snapshot = session.snapshot();
    assert_eq!(snapshot.tap_count, 5);
    assert!(snapshot.bpm.is_some());
}

#[test]
fn try_tap_records_like_tap_when_there_is_room() {
    let config = config();
    let mut checked = TapTempoSession::new();
    let mut plain = TapTempoSession::new();
    for millis in [0u64, 500, 1_000, 5_000] {
        assert_eq!(checked.try_tap(at(BASE, millis), &config), Some(plain.tap(at(BASE, millis), &config)));
    }
    assert_eq!(checked.snapshot(), plain.snapshot());
}

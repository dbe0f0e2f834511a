use sys_tap_bpm::icon::{IconState, IconTheme};
use sys_tap_bpm::tap_tempo::{TapTempoSession, TapTempoSnapshot, Tempo};
use sys_tap_bpm::tray::{
    current_update, display_mode_name, icon_state, on_reset_check, on_tap, tooltip,
    tray_icon_render, AppConfig, BpmUpdate, DisplayMode, AVERAGING_WINDOW_NANOS,
    MIN_INTERVALS, RESET_AFTER_NANOS, STABLE_TAP_DOTS,
};

fn update(bpm: Option<u16>, tap_count: usize, is_active: bool) -> BpmUpdate {
    BpmUpdate { bpm, tap_count, is_active, display_mode: "icon" }
}

#[test]
fn default_app_config() {
    let config = AppConfig::default();
    assert_eq!(config.tap_tempo.reset_after, RESET_AFTER_NANOS);
    assert_eq!(config.tap_tempo.reset_after, 3_000_000_000);
    assert_eq!(config.tap_tempo.averaging_window, AVERAGING_WINDOW_NANOS);
    assert_eq!(config.tap_tempo.averaging_window, 10_000_000_000);
    assert_eq!(config.tap_tempo.min_intervals, MIN_INTERVALS);
    assert_eq!(config.stable_tap_dots, STABLE_TAP_DOTS);
    assert_eq!(config.display_mode, DisplayMode::Icon);
    assert_eq!(config.icon_theme.idle.background, IconTheme::default().idle.background);
}

#[test]
fn update_carries_the_shown_number_once_there_is_an_estimate() {
    let tempo = Tempo { numerator: 97, denominator: 1 };
    let snapshot =
        TapTempoSnapshot { bpm: Some(tempo), display_bpm: Some(97), tap_count: 5, is_active: true };
    let update = current_update(snapshot, DisplayMode::Icon);
    assert_eq!(update, BpmUpdate { bpm: Some(97), tap_count: 5, is_active: true, display_mode: "icon" });
    assert_eq!(display_mode_name(DisplayMode::Icon), "icon");
}

#[test]
fn update_shows_no_number_while_collecting() {
    let snapshot = TapTempoSnapshot { bpm: None, display_bpm: Some(120), tap_count: 2, is_active: true };
    let update = current_update(snapshot, DisplayMode::Icon);
    assert_eq!(update.bpm, None);
    assert_eq!(icon_state(&update), IconState::Collecting);
    assert_eq!(tooltip(&update), "sys-tap-bpm: listening...");
}

#[test]
fn icon_state_follows_the_update() {
    assert_eq!(icon_state(&update(Some(120), 3, true)), IconState::Stable);
    assert_eq!(icon_state(&update(None, 1, true)), IconState::Collecting);
    assert_eq!(icon_state(&update(None, 0, false)), IconState::Idle);
}

#[test]
fn tooltip_texts() {
    assert_eq!(tooltip(&update(Some(120), 3, true)), "sys-tap-bpm: 120 BPM");
    assert_eq!(tooltip(&update(Some(7), 3, true)), "sys-tap-bpm: 7 BPM");
    assert_eq!(tooltip(&update(Some(0), 3, true)), "sys-tap-bpm: 0 BPM");
    assert_eq!(tooltip(&update(Some(65535), 3, true)), "sys-tap-bpm: 65535 BPM");
    assert_eq!(tooltip(&update(Some(1000), 3, true)), "sys-tap-bpm: 1000 BPM");
    assert_eq!(tooltip(&update(None, 1, true)), "sys-tap-bpm: listening...");
    assert_eq!(tooltip(&update(None, 0, false)), "sys-tap-bpm: tap to start");
}

#[test]
fn render_parameters_follow_the_update() {
    let config = AppConfig::default();
    let render = tray_icon_render(&config, &update(Some(88), 9, true));
    assert_eq!(render.bpm, Some(88));
    assert_eq!(render.state, IconState::Stable);
    assert_eq!(render.tap_count, 9);
    assert_eq!(render.stable_tap_dots, 24);
}

#[test]
fn taps_and_reset_check_drive_the_updates() {
    let config = AppConfig::default();
    let mut session = TapTempoSession::default();
    let base: u64 = 50_000_000_000;
    let first = on_tap(&mut session, base, &config).expect("room for a tap");
    assert_eq!(first, update(None, 1, true));
    assert_eq!(icon_state(&first), IconState::Collecting);
    assert_eq!(tooltip(&first), "sys-tap-bpm: listening...");
    let second = on_tap(&mut session, base + 500_000_000, &config).expect("room for a tap");
    assert_eq!(second, update(None, 2, true));
    let third = on_tap(&mut session, base + 1_000_000_000, &config).expect("room for a tap");
    assert_eq!(third, update(Some(120), 3, true));
    assert_eq!(tooltip(&third), "sys-tap-bpm: 120 BPM");
    assert_eq!(on_reset_check(&mut session, base + 3_500_000_000, &config), None);
    assert_eq!(session.snapshot().tap_count, 3);
    let reset = on_reset_check(&mut session, base + 4_000_000_000, &config);
    assert_eq!(reset, Some(update(None, 0, false)));
    assert_eq!(tooltip(&reset.unwrap()), "sys-tap-bpm: tap to start");
    assert_eq!(
        session.snapshot(),
        TapTempoSnapshot { bpm: None, display_bpm: None, tap_count: 0, is_active: false }
    );
}

//! What the tray shows: the app's settings, the update that a tap or an
//! inactivity check produces, the tooltip text and the icon to draw.
use crate::icon::{
    decimal_digits, default_theme, IconMetrics, IconState, IconTheme, TrayIconRender,
};
use crate::tap_tempo::{
    can_take_tap, inactive_at, tap_step, TapTempoConfig, TapTempoSession, TapTempoSnapshot,
};
use vstd::prelude::*;

verus! {

/// Three seconds without a tap end a session.
pub const RESET_AFTER_NANOS: u128 = 3_000_000_000;

/// The estimate uses the taps of the last ten seconds.
pub const AVERAGING_WINDOW_NANOS: u128 = 10_000_000_000;

/// A tempo needs more than two taps.
pub const MIN_INTERVALS: usize = 2;

/// Taps before the grid highlights the newest one.
pub const STABLE_TAP_DOTS: usize = 24;

/// Where the tempo is shown.
#[derive(Clone, Copy, Debug, PartialEq, Eq, Structural)]
pub enum DisplayMode {
    Icon,
}

/// The app's settings.
#[derive(Clone, Copy, Debug)]
pub struct AppConfig {
    pub tap_tempo: TapTempoConfig,
    pub stable_tap_dots: usize,
    pub icon_theme: IconTheme,
    pub icon_metrics: IconMetrics,
    pub display_mode: DisplayMode,
}

impl Default for AppConfig {
    fn default() -> (config: Self)
        ensures
            config.tap_tempo.reset_after == RESET_AFTER_NANOS,
            config.tap_tempo.averaging_window == AVERAGING_WINDOW_NANOS,
            config.tap_tempo.min_intervals == MIN_INTERVALS,
            config.stable_tap_dots == STABLE_TAP_DOTS,
            config.icon_theme == default_theme(),
            config.display_mode == DisplayMode::Icon,
    {
        Self {
            tap_tempo: TapTempoConfig {
                reset_after: RESET_AFTER_NANOS,
                averaging_window: AVERAGING_WINDOW_NANOS,
                min_intervals: MIN_INTERVALS,
            },
            stable_tap_dots: STABLE_TAP_DOTS,
            icon_theme: IconTheme::default(),
            icon_metrics: IconMetrics,
            display_mode: DisplayMode::Icon,
        }
    }
}

/// What the tray is told after an event.
#[derive(Clone, Copy, Debug, PartialEq, Eq)]
pub struct BpmUpdate {
    /// The tempo shown, in whole beats per minute.
    pub bpm: Option<u16>,
    pub tap_count: usize,
    pub is_active: bool,
    pub display_mode: &'static str,
}

/// The name of a display mode.
pub fn display_mode_name(mode: DisplayMode) -> (name: &'static str)
    ensures
        name@ == "icon"@,
{
    match mode {
        DisplayMode::Icon => "icon",
    }
}

/// The update for a snapshot: the tap count, whether a session is running,
/// and the shown number once there is an estimate; with fewer taps than the
/// estimate needs no number is shown, so the tray shows it is collecting.
pub fn current_update(snapshot: TapTempoSnapshot, display_mode: DisplayMode) -> (update:
    BpmUpdate)
    ensures
        update.bpm == (if snapshot.bpm is Some {
            snapshot.display_bpm
        } else {
            None
        }),
        update.tap_count == snapshot.tap_count,
        update.is_active == snapshot.is_active,
        update.display_mode@ == "icon"@,
{
    BpmUpdate {
        bpm: if snapshot.bpm.is_some() {
            snapshot.display_bpm
        } else {
            None
        },
        tap_count: snapshot.tap_count,
        is_active: snapshot.is_active,
        display_mode: display_mode_name(display_mode),
    }
}

/// The icon state for an update: stable with a tempo, collecting while a
/// session runs without one, idle otherwise.
pub open spec fn update_icon_state(update: BpmUpdate) -> IconState {
    if update.bpm is Some {
        IconState::Stable
    } else if update.is_active {
        IconState::Collecting
    } else {
        IconState::Idle
    }
}

pub fn icon_state(update: &BpmUpdate) -> (state: IconState)
    ensures
        state == update_icon_state(*update),
{
    if update.bpm.is_some() {
        IconState::Stable
    } else if update.is_active {
        IconState::Collecting
    } else {
        IconState::Idle
    }
}

/// The icon to draw for an update.
pub fn tray_icon_render(config: &AppConfig, update: &BpmUpdate) -> (render: TrayIconRender)
    ensures
        render.bpm == update.bpm,
        render.state == update_icon_state(*update),
        render.tap_count == update.tap_count,
        render.stable_tap_dots == config.stable_tap_dots,
        render.theme == config.icon_theme,
{
    TrayIconRender {
        bpm: update.bpm,
        state: icon_state(update),
        tap_count: update.tap_count,
        stable_tap_dots: config.stable_tap_dots,
        theme: config.icon_theme,
        metrics: config.icon_metrics,
    }
}

/// The decimal digits of `n` as characters.
pub open spec fn decimal_text(n: nat) -> Seq<char> {
    decimal_digits(n).map_values(|d: u8| (d + 48) as char)
}

/// The tooltip for an update.
pub open spec fn tooltip_text(update: BpmUpdate) -> Seq<char> {
    match update.bpm {
        Some(bpm) => "sys-tap-bpm: "@ + decimal_text(bpm as nat) + " BPM"@,
        None => if update.is_active {
            "sys-tap-bpm: listening..."@
        } else {
            "sys-tap-bpm: tap to start"@
        },
    }
}

/// The character of one decimal digit.
fn digit_text(digit: u8) -> (text: &'static str)
    requires
        digit < 10,
    ensures
        text@ == seq![(digit + 48) as char],
{
    proof {
        reveal_strlit("0");
        reveal_strlit("1");
        reveal_strlit("2");
        reveal_strlit("3");
        reveal_strlit("4");
        reveal_strlit("5");
        reveal_strlit("6");
        reveal_strlit("7");
        reveal_strlit("8");
        reveal_strlit("9");
    }
    match digit {
        0 => "0",
        1 => "1",
        2 => "2",
        3 => "3",
        4 => "4",
        5 => "5",
        6 => "6",
        7 => "7",
        8 => "8",
        _ => "9",
    }
}

/// Appends the decimal digits of `n` to `text`.
fn append_decimal(text: &mut String, n: u16)
    ensures
        final(text)@ == old(text)@ + decimal_text(n as nat),
    decreases n,
{
    if n >= 10 {
        append_decimal(text, n / 10);
    }
    text.append(digit_text((n % 10) as u8));
    proof {
        let m = n as nat;
        if m >= 10 {
            assert(decimal_digits(m) == decimal_digits(m / 10).push((m % 10) as u8));
            assert(decimal_text(m) =~= decimal_text(m / 10).push((((m % 10) as u8) + 48) as char));
        } else {
            assert(decimal_digits(m) == seq![m as u8]);
            assert(decimal_text(m) =~= seq![((m as u8) + 48) as char]);
        }
    }
}

/// The tooltip text for an update.
pub fn tooltip(update: &BpmUpdate) -> (text: String)
    ensures
        text@ == tooltip_text(*update),
{
    match update.bpm {
        Some(bpm) => {
            let mut text = "sys-tap-bpm: ".to_owned();
            append_decimal(&mut text, bpm);
            text.append(" BPM");
            text
        },
        None => if update.is_active {
            "sys-tap-bpm: listening...".to_owned()
        } else {
            "sys-tap-bpm: tap to start".to_owned()
        },
    }
}

/// A tap at `now`: records it in the session and gives the update to show.
/// A session that already holds `MAX_TAPS` taps takes no tap that would not
/// start a new session; then nothing changes and there is no update.
pub fn on_tap(session: &mut TapTempoSession, now: u64, config: &AppConfig) -> (update: Option<
    BpmUpdate,
>)
    requires
        old(session).wf(),
    ensures
        final(session).wf(),
        can_take_tap(old(session).tap_times(), now, config.tap_tempo.reset_after) ==> {
            &&& tap_step(*old(session), *final(session), now, config.tap_tempo)
            &&& update matches Some(u) && {
                &&& u.bpm == (if final(session).current_bpm() is Some {
                    final(session).current_display_bpm()
                } else {
                    None
                })
                &&& u.tap_count == final(session).tap_times().len()
                &&& u.is_active
                &&& u.display_mode@ == "icon"@
            }
        },
        !can_take_tap(old(session).tap_times(), now, config.tap_tempo.reset_after) ==> {
            &&& *final(session) == *old(session)
            &&& update is None
        },
{
    match session.try_tap(now, &config.tap_tempo) {
        Some(snapshot) => Some(current_update(snapshot, config.display_mode)),
        None => None,
    }
}

/// The inactivity check at `now`: clears the session and gives the update
/// to show when it has been idle for the reset time, else nothing.
pub fn on_reset_check(session: &mut TapTempoSession, now: u64, config: &AppConfig) -> (update:
    Option<BpmUpdate>)
    requires
        old(session).wf(),
    ensures
        final(session).wf(),
        inactive_at(old(session).tap_times(), now, config.tap_tempo.reset_after) ==> {
            &&& final(session).tap_times() == Seq::<u64>::empty()
            &&& final(session).current_bpm() is None
            &&& final(session).current_display_bpm() is None
            &&& !final(session).active()
        },
        inactive_at(old(session).tap_times(), now, config.tap_tempo.reset_after) ==> update
            == Some(
            BpmUpdate { bpm: None, tap_count: 0, is_active: false, display_mode: update.unwrap().display_mode },
        ) && update.unwrap().display_mode@ == "icon"@,
        !inactive_at(old(session).tap_times(), now, config.tap_tempo.reset_after) ==> update is None
            && *final(session) == *old(session),
{
    match session.reset_if_inactive(now, config.tap_tempo.reset_after) {
        Some(snapshot) => Some(current_update(snapshot, config.display_mode)),
        None => None,
    }
}

} // verus!

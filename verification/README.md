# sys_tap_bpm

A system tray tap-tempo utility: tap the tray icon in time with music and it
shows the tempo in beats per minute.

- `src/tap_tempo.rs`: the tap session. Taps are nanosecond instants; the
  tempo is the least-squares line through (tap index, time since first tap),
  kept as an exact ratio. The shown whole number changes only when the
  estimate moves at least one BPM.
- `src/icon.rs`: the 20x20 tray icon (tempo digits or a tap mark above a
  3-row tap grid), specified as a list of filled rectangles painted in order.
- `src/canvas.rs`: the `image` crate buffer behind a few trusted calls, and
  the painting model.
- `src/tray.rs`: settings, the update shown after a tap or an inactivity
  check, and the tooltip.
- `app/main.rs`: the Tauri tray application around the library.

Limits: a session holds at most `MAX_TAPS` (1,048,576) taps at once, which
keeps the regression sums within 128-bit integers. `try_tap` (and the
tray's `on_tap`) report a full session instead of taking a tap that would
exceed the bound; a tap that starts a new session is always taken.
Before the session has a tempo estimate the tray shows no number
(collecting state).

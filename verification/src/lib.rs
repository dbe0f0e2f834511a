//! Tap-tempo estimation and tray icon rendering for a system tray BPM utility.
//!
//! `tap_tempo` holds the session that turns tap instants into a tempo estimate;
//! `icon` draws the tray icon; `tray` turns session snapshots into the updates
//! that the tray shows.

pub mod tap_tempo;
pub mod canvas;
pub mod icon;
pub mod tray;

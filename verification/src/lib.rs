//! Keyboard-chatter suppression: the per-key debounce filter, the gap
//! calibrator and its report, and the decisions the keyboard hook makes.

pub mod autostart;
pub mod calibrate;
pub mod config;
pub mod filter;
pub mod hook;
pub mod report;
pub mod text;
pub mod tray;

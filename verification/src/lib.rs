//! EXFIL: per-game colour presets for the display — the verified core.
//!
//! The library holds the rules of the preset store, the vendors' vibrance
//! scales, the per-program auto-switch decisions and the decisions around
//! the display-driver calls. Driver calls, files and the window shell live in
//! the application around it.

pub mod text;
pub mod gamma;
pub mod scale;
pub mod store;
pub mod watcher;
pub mod vibrance;
pub mod adl;
pub mod commands;

//! Logic of a screen-area auto-clicker: the engine's state machine, the
//! zig-zag scan path it clicks along, the engine loop's decisions, the
//! hotkey matcher and the hotkey configuration.

pub mod config;
pub mod engine;
pub mod input;

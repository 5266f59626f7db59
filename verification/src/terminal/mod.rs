//! The terminal panel: key encoding, answers owed to the shell, the tab list,
//! and the styled runs one row of the emulator's grid is drawn as.

pub mod grid;
pub mod keys;
pub mod panel;
pub mod reply;
pub mod state;

//! fzd: the logic of an interactive terminal directory explorer.
//!
//! The library holds the state machine of the explorer (browse, jump and
//! find modes), its keymap, the fuzzy filtering and ordering of entries, the
//! frecency store, the pure parts of the directory walk and the release
//! update planning. Terminal drawing, disk and network access live with the
//! program that drives the library.

pub mod app;
pub mod event;
pub mod fs;
pub mod fuzzy;
pub mod order;
pub mod store;
pub mod text;
pub mod ui;
pub mod update;

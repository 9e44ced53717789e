//! Multiplexer model, agent detection, the client/server wire protocol, and
//! the pure layout and selection logic behind roster's terminal UI.

pub mod attention;
pub mod text;
pub mod destructive;
pub mod proto;
pub mod grid;
pub mod layout;
pub mod session;
pub mod chrome;
pub mod hotkeys;
pub mod context;
pub mod sidebar;
pub mod cards;
pub mod hit;
pub mod dialogs;
pub mod launcher;
pub mod widgets;
pub mod selection;
pub mod config;
pub mod track;
pub mod detector;
pub mod limits;
pub mod snapshot;
pub mod pty;

//! Compiles the description of a terminal-multiplexer session into the
//! script that builds it.
//!
//! A [`TmuxLayout`] names a session, its windows and their panes, with the
//! directory each works in, the variables each pane exports and the commands
//! it runs. [`do_parse`] turns it into the lines of a shell script. Nothing
//! here runs anything or touches a file.

pub mod commands;
pub mod emit;
pub mod encode;
pub mod layout;
pub mod order;
pub mod ordered_map;
pub mod text;
pub mod tiling;

pub use emit::{do_pane, do_parse, do_prepare, do_window, resolve};
pub use encode::send_keys;
pub use layout::{TmuxLayout, TmuxPane, TmuxWindow};
pub use ordered_map::OrderedMap;
pub use tiling::do_preare_panel_tiled;

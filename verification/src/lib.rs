//! A text-command parsing and dispatch engine for console-style applications.
//!
//! A line of text is split into separator-delimited commands, each command is
//! routed through an ordered table of prefixed and named handlers, and the
//! residual tokens are bound to the typed fields of the selected handler
//! before an application-supplied action runs against shared state.

pub mod base_types;
pub mod bind;
pub mod branch;
pub mod command;
pub mod convert;
pub mod error;
pub mod parse;
pub mod route;
pub mod tables;
pub mod text;
pub mod tokens;

//! Command catalog, usage history and selection state of a keystroke-driven
//! application launcher.

pub mod catalog;
pub mod command;
pub mod config;
pub mod decimal;
pub mod history;
pub mod rank;
pub mod session;
pub mod text;

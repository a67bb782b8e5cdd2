//! A keyboard-driven application launcher: modes, entries, fuzzy search and
//! the decisions taken on every user event, with their contracts.

pub mod text;
pub mod mode;
pub mod entry;
pub mod table;
pub mod matching;
pub mod command;
pub mod onagre;
pub mod backend;
pub mod freedesktop;

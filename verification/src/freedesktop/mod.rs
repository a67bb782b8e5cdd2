//! Freedesktop desktop entries.

pub mod desktop;

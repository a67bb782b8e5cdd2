//! The `[Desktop Entry]` group of a `.desktop` file.

use vstd::prelude::*;

verus! {

/// A desktop file: its `[Desktop Entry]` group.
#[derive(Debug, Clone)]
pub struct DesktopEntryIni {
    pub content: DesktopEntryInContent,
}

/// The keys of a `[Desktop Entry]` group that the launcher reads.
#[derive(Debug, Clone)]
pub struct DesktopEntryInContent {
    /// `Name`
    pub name: String,
    /// `Exec`
    pub exec_line: String,
    /// `Icon`
    pub icon: String,
    /// `Keywords`
    pub keywords: Option<String>,
}

} // verus!

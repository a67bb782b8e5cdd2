//! Launcher modes: the built-in desktop-entry mode and user-defined modes.

use vstd::prelude::*;
use vstd::string::*;
use crate::text::same_text;

verus! {

/// What a mode is, as a mathematical value.
pub enum ModeView {
    Drun,
    Custom(Seq<char>),
}

/// A launcher mode.
#[derive(Debug)]
pub enum Mode {
    /// Applications from freedesktop desktop entries.
    Drun,
    /// A mode defined in the user's settings, by its name.
    Custom(String),
}

impl View for Mode {
    type V = ModeView;

    open spec fn view(&self) -> ModeView {
        match self {
            Mode::Drun => ModeView::Drun,
            Mode::Custom(name) => ModeView::Custom(name@),
        }
    }
}

/// The mode that a name selects: `drun` is the desktop-entry mode, any other
/// name a custom mode of that name.
pub open spec fn mode_of_name(name: Seq<char>) -> ModeView {
    if name == "drun"@ {
        ModeView::Drun
    } else {
        ModeView::Custom(name)
    }
}

/// How a mode is shown: `Drun` for the desktop-entry mode, the name otherwise.
pub open spec fn mode_label(m: ModeView) -> Seq<char> {
    match m {
        ModeView::Drun => "Drun"@,
        ModeView::Custom(name) => name,
    }
}

/// The views of a sequence of modes.
pub open spec fn mode_views(s: Seq<Mode>) -> Seq<ModeView> {
    s.map_values(|m: Mode| m@)
}

impl Clone for Mode {
    fn clone(&self) -> (r: Self)
        ensures
            r@ == self@,
    {
        match self {
            Mode::Drun => Mode::Drun,
            Mode::Custom(name) => Mode::Custom(name.clone()),
        }
    }
}

impl Mode {
    /// The mode that `name` selects.
    pub fn from(name: &str) -> (m: Mode)
        ensures
            m@ == mode_of_name(name@),
    {
        if same_text(name, "drun") {
            Mode::Drun
        } else {
            Mode::Custom(String::from_str(name))
        }
    }

    /// The label of the mode.
    pub fn to_string(&self) -> (s: String)
        ensures
            s@ == mode_label(self@),
    {
        match self {
            Mode::Drun => String::from_str("Drun"),
            Mode::Custom(name) => name.clone(),
        }
    }

    /// Whether two modes are the same mode.
    pub fn same_mode(&self, other: &Mode) -> (r: bool)
        ensures
            r == (self@ == other@),
    {
        match (self, other) {
            (Mode::Drun, Mode::Drun) => true,
            (Mode::Custom(a), Mode::Custom(b)) => *a == *b,
            _ => false,
        }
    }
}

/// Showing the mode that a name selects gives the name back, except for
/// `drun`, which shows as `Drun`; and the name of a custom mode other than
/// `drun` selects that mode again.
pub proof fn lemma_label_of_name(name: Seq<char>)
    ensures
        name != "drun"@ ==> mode_label(mode_of_name(name)) == name,
        mode_label(mode_of_name("drun"@)) == "Drun"@,
        name != "drun"@ ==> mode_of_name(mode_label(ModeView::Custom(name))) == ModeView::Custom(name),
{
}

} // verus!

//! The launcher: its state, and what it does on each message (typed text,
//! new entries, keys, the launcher service) as a function from state and
//! message to the next state and the action for the caller to perform.

use vstd::prelude::*;
use crate::mode::{Mode, ModeView, mode_label, mode_views, mode_of_name};
use crate::entry::{
    lemma_merged_twice,
    Entry, EntryView, entry_views, merged, merge_entries, contains_entry, clone_entries,
    sort_by_weight, heaviest_first,
};
use crate::table::{ModeTable, map_of_pairs};
use crate::matching::{
    ranked, entry_scores, get_matches, default_matches, lemma_ranked_ranks, ranks_before,
    skim_score, lemma_search_lists_matching_names,
};
use crate::command::{
    shell_split, texts, fill_placeholder, without_field_codes, desktop_arguments,
    custom_arguments,
};
use crate::text::same_text;

verus! {

/// A key that the launcher reacts to.
#[derive(Clone, Copy, Debug, PartialEq, Eq, Structural)]
pub enum Key {
    Up,
    Down,
    Enter,
    Tab,
    Escape,
    Other,
}

/// What the subscription to the launcher service reports.
#[derive(Clone, Copy, Debug, PartialEq, Eq, Structural)]
pub enum PopMessage {
    /// The channel for search requests is open.
    Ready,
    /// The service answered.
    Message,
}

/// A message to the launcher.
pub enum Message {
    InputChanged(String),
    DesktopEntryEvent(Entry),
    CustomModeEvent(Vec<Entry>),
    KeyboardEvent(Key),
    PopSubscriptionResponse(PopMessage),
    /// The cached entries of each mode, later pairs winning.
    Loaded(Vec<(Mode, Vec<Entry>)>),
}

/// A message as a mathematical value.
pub enum MessageView {
    InputChanged(Seq<char>),
    DesktopEntryEvent(EntryView),
    CustomModeEvent(Seq<EntryView>),
    KeyboardEvent(Key),
    PopSubscriptionResponse(PopMessage),
    Loaded(Map<ModeView, Seq<EntryView>>),
}

/// The entries of each mode of a table, as values.
pub open spec fn entries_map(t: Map<ModeView, Vec<Entry>>) -> Map<ModeView, Seq<EntryView>> {
    t.map_values(|v: Vec<Entry>| entry_views(v@))
}

/// The matches of each mode of a table, as values.
pub open spec fn matches_map(t: Map<ModeView, Vec<usize>>) -> Map<ModeView, Seq<usize>> {
    t.map_values(|v: Vec<usize>| v@)
}

impl View for Message {
    type V = MessageView;

    open spec fn view(&self) -> MessageView {
        match self {
            Message::InputChanged(s) => MessageView::InputChanged(s@),
            Message::DesktopEntryEvent(e) => MessageView::DesktopEntryEvent(e@),
            Message::CustomModeEvent(v) => MessageView::CustomModeEvent(entry_views(v@)),
            Message::KeyboardEvent(k) => MessageView::KeyboardEvent(*k),
            Message::PopSubscriptionResponse(p) => MessageView::PopSubscriptionResponse(*p),
            Message::Loaded(pairs) => MessageView::Loaded(entries_map(map_of_pairs(pairs@))),
        }
    }
}

/// What the caller performs after a message.
#[derive(Debug, PartialEq, Eq)]
pub enum Action {
    Nothing,
    /// Send a search request with this text to the launcher service.
    SendSearch(String),
    /// Scroll the list: the selected line's offset and the number of lines.
    Snap { line_offset: usize, total_items: usize },
    /// Start this program with these arguments, write the entry caches and exit.
    Launch(Vec<String>),
    /// Write the entry caches and exit.
    Exit,
}

/// An action as a mathematical value.
pub enum ActionView {
    Nothing,
    SendSearch(Seq<char>),
    Snap { line_offset: int, total_items: int },
    Launch(Seq<Seq<char>>),
    Exit,
}

impl View for Action {
    type V = ActionView;

    open spec fn view(&self) -> ActionView {
        match self {
            Action::Nothing => ActionView::Nothing,
            Action::SendSearch(s) => ActionView::SendSearch(s@),
            Action::Snap { line_offset, total_items } => ActionView::Snap {
                line_offset: *line_offset as int,
                total_items: *total_items as int,
            },
            Action::Launch(argv) => ActionView::Launch(texts(argv@)),
            Action::Exit => ActionView::Exit,
        }
    }
}

/// Why a message cannot be handled; the launcher stops on it.
#[derive(Clone, Copy, Debug, PartialEq, Eq, Structural)]
pub enum Fault {
    /// The mode concerned has no entries.
    NoEntriesForMode,
    /// The current mode has no matches.
    NoMatchesForMode,
    /// The selected line is past the matches.
    SelectionOutOfRange,
    /// The selected desktop entry has no command line.
    NoCommandLine,
    /// The settings define no command for the mode.
    UnknownMode,
    /// The command line has an unmatched quote.
    UnparsableCommand,
    /// The command line has no program.
    EmptyCommand,
    /// The selected entry's launch count is at its maximum.
    WeightOverflow,
    /// A match of the current mode names no entry.
    MatchOutOfRange,
}

/// The command of a custom mode, from the user's settings.
pub struct ModeTarget {
    pub name: String,
    /// The command line; `%` stands for the selected entry or the typed text.
    pub target: String,
}

/// The commands of custom modes, as values.
pub open spec fn target_views(t: Seq<ModeTarget>) -> Seq<(Seq<char>, Seq<char>)> {
    t.map_values(|m: ModeTarget| (m.name@, m.target@))
}

/// The command that the settings give to a mode name: the first one of
/// that name.
pub open spec fn target_of(targets: Seq<(Seq<char>, Seq<char>)>, name: Seq<char>) -> Option<
    Seq<char>,
>
    decreases targets.len(),
{
    if targets.len() == 0 {
        None
    } else if targets[0].0 == name {
        Some(targets[0].1)
    } else {
        target_of(targets.drop_first(), name)
    }
}

/// The command that the settings give to `name`.
pub fn find_target<'a>(targets: &'a Vec<ModeTarget>, name: &str) -> (r: Option<&'a String>)
    ensures
        match target_of(target_views(targets@), name@) {
            Some(t) => r is Some && r->0@ == t,
            None => r is None,
        },
{
    let ghost all = target_views(targets@);
    let mut i: usize = 0;
    assert(all.skip(0) =~= all);
    while i < targets.len()
        invariant
            all == target_views(targets@),
            i <= targets@.len(),
            target_of(all, name@) == target_of(all.skip(i as int), name@),
        decreases targets@.len() - i,
    {
        assert(all.skip(i as int).drop_first() =~= all.skip(i + 1));
        assert(all.skip(i as int)[0] == all[i as int]);
        if same_text(targets[i].name.as_str(), name) {
            return Some(&targets[i].target);
        }
        i = i + 1;
    }
    None
}

/// The entries and the matches of each mode.
pub struct EntriesState {
    pub mode_entries: ModeTable<Vec<Entry>>,
    pub mode_matches: ModeTable<Vec<usize>>,
}

/// What the launcher shows and remembers.
pub struct State {
    /// The modes that were shown at least once.
    pub mode_subs: Vec<Mode>,
    pub current_mode_idx: usize,
    pub line_selected_idx: usize,
    pub entries: EntriesState,
    pub input_value: String,
}

/// The state as a mathematical value.
pub struct StateView {
    pub mode_subs: Set<ModeView>,
    pub current_mode_idx: int,
    pub line_selected_idx: int,
    pub mode_entries: Map<ModeView, Seq<EntryView>>,
    pub mode_matches: Map<ModeView, Seq<usize>>,
    pub input_value: Seq<char>,
}

impl View for State {
    type V = StateView;

    open spec fn view(&self) -> StateView {
        StateView {
            mode_subs: mode_views(self.mode_subs@).to_set(),
            current_mode_idx: self.current_mode_idx as int,
            line_selected_idx: self.line_selected_idx as int,
            mode_entries: entries_map(self.entries.mode_entries@),
            mode_matches: matches_map(self.entries.mode_matches@),
            input_value: self.input_value@,
        }
    }
}

/// The launcher.
pub struct Onagre {
    pub dmenu: bool,
    /// The modes, in the order in which Tab walks through them.
    pub modes: Vec<Mode>,
    pub state: State,
    /// The commands of the custom modes.
    pub targets: Vec<ModeTarget>,
    /// Whether search requests can be sent to the launcher service.
    pub search_channel_open: bool,
}

/// The launcher as a mathematical value.
pub struct OnagreView {
    pub dmenu: bool,
    pub modes: Seq<ModeView>,
    pub state: StateView,
    pub targets: Seq<(Seq<char>, Seq<char>)>,
    pub search_channel_open: bool,
}

impl View for Onagre {
    type V = OnagreView;

    open spec fn view(&self) -> OnagreView {
        OnagreView {
            dmenu: self.dmenu,
            modes: mode_views(self.modes@),
            state: self.state@,
            targets: target_views(self.targets@),
            search_channel_open: self.search_channel_open,
        }
    }
}

/// A launcher state is well formed: it has a mode, the current one is one of
/// them, and the selected line can move down once more.
pub open spec fn well_formed(o: OnagreView) -> bool {
    &&& 0 < o.modes.len()
    &&& 0 <= o.state.current_mode_idx < o.modes.len()
    &&& 0 <= o.state.line_selected_idx < usize::MAX
}

/// The mode shown.
pub open spec fn current_mode(o: OnagreView) -> ModeView {
    o.modes[o.state.current_mode_idx]
}

/// What a mode lists for the typed text: every entry when nothing is typed,
/// else the ranking of the entries that match it.
pub open spec fn fresh_matches(entries: Seq<EntryView>, input: Seq<char>) -> Seq<usize> {
    if input.len() == 0 {
        Seq::new(entries.len(), |i: int| i as usize)
    } else {
        ranked(entry_scores(entries, input))
    }
}

/// The launcher with the matches of the current mode computed afresh.
pub open spec fn with_matches_reset(o: OnagreView) -> OnagreView {
    let m = current_mode(o);
    OnagreView {
        state: StateView {
            mode_matches: o.state.mode_matches.insert(
                m,
                fresh_matches(o.state.mode_entries[m], o.state.input_value),
            ),
            ..o.state
        },
        ..o
    }
}

/// The next mode, after the last one the first.
pub open spec fn next_mode_idx(o: OnagreView) -> int {
    if o.state.current_mode_idx == o.modes.len() - 1 {
        0
    } else {
        o.state.current_mode_idx + 1
    }
}

/// The launcher with the entries of mode `m` replaced by `list`.
pub open spec fn with_entries(o: OnagreView, m: ModeView, list: Seq<EntryView>) -> OnagreView {
    OnagreView {
        state: StateView { mode_entries: o.state.mode_entries.insert(m, list), ..o.state },
        ..o
    }
}

/// The launcher with line `sel` selected.
pub open spec fn with_selection(o: OnagreView, sel: int) -> OnagreView {
    OnagreView { state: StateView { line_selected_idx: sel, ..o.state }, ..o }
}

/// Where the list scrolls to for selected line `sel` of `total` lines.
pub open spec fn snap_action(sel: int, total: int) -> ActionView {
    ActionView::Snap { line_offset: if sel == 0 { 0 } else { sel + 1 }, total_items: total }
}

/// The entry that typed text becomes when it is launched.
pub open spec fn typed_entry(input: Seq<char>) -> EntryView {
    EntryView { weight: 1, display_name: input, exec_line: None, search_terms: None }
}

/// The launcher after a desktop entry arrives: the entry joins the
/// desktop-entry mode unless it is there already.
pub open spec fn desktop_entry_step(o: OnagreView, e: EntryView) -> Result<(OnagreView, ActionView), Fault> {
    if !o.state.mode_entries.dom().contains(ModeView::Drun) {
        Err(Fault::NoEntriesForMode)
    } else if o.state.mode_entries[ModeView::Drun].contains(e) {
        Ok((o, ActionView::Nothing))
    } else {
        let o2 = with_entries(o, ModeView::Drun, o.state.mode_entries[ModeView::Drun].push(e));
        if !o2.state.mode_entries.dom().contains(current_mode(o2)) {
            Err(Fault::NoEntriesForMode)
        } else {
            Ok((with_matches_reset(o2), ActionView::Nothing))
        }
    }
}

/// The launcher after a batch of entries arrives for the current mode: they
/// are merged with its entries, and the matches recomputed where the number
/// of entries changed.
pub open spec fn custom_mode_step(o: OnagreView, batch: Seq<EntryView>) -> Result<(OnagreView, ActionView), Fault> {
    let m = current_mode(o);
    if !o.state.mode_entries.dom().contains(m) {
        Err(Fault::NoEntriesForMode)
    } else {
        let before = o.state.mode_entries[m];
        let list = merged(before, batch);
        let o2 = with_entries(o, m, list);
        if list.len() != before.len() {
            Ok((with_matches_reset(o2), ActionView::Nothing))
        } else {
            Ok((o2, ActionView::Nothing))
        }
    }
}

/// The launcher after cached entries are loaded.
pub open spec fn loaded_step(o: OnagreView, t: Map<ModeView, Seq<EntryView>>) -> Result<(OnagreView, ActionView), Fault> {
    if !t.dom().contains(current_mode(o)) {
        Err(Fault::NoEntriesForMode)
    } else {
        let o2 = OnagreView { state: StateView { mode_entries: t, ..o.state }, ..o };
        Ok((with_matches_reset(o2), ActionView::Nothing))
    }
}

/// The words that launch entry `e` of mode `m`.
pub open spec fn entry_words(o: OnagreView, m: ModeView, e: EntryView) -> Result<Seq<Seq<char>>, Fault> {
    match m {
        ModeView::Drun => match e.exec_line {
            None => Err(Fault::NoCommandLine),
            Some(line) => match shell_split(line) {
                None => Err(Fault::UnparsableCommand),
                Some(words) => Ok(without_field_codes(words)),
            },
        },
        ModeView::Custom(name) => match target_of(o.targets, name) {
            None => Err(Fault::UnknownMode),
            Some(t) => match shell_split(fill_placeholder(t, e.display_name)) {
                None => Err(Fault::UnparsableCommand),
                Some(words) => Ok(words),
            },
        },
    }
}

/// Launching entry `i` of the current mode: its command runs and its weight
/// grows by one.
pub open spec fn launch_entry_step(o: OnagreView, i: int) -> Result<(OnagreView, ActionView), Fault> {
    let m = current_mode(o);
    let e = o.state.mode_entries[m][i];
    if e.weight == u32::MAX {
        Err(Fault::WeightOverflow)
    } else {
        match entry_words(o, m, e) {
            Err(f) => Err(f),
            Ok(words) => if words.len() == 0 {
                Err(Fault::EmptyCommand)
            } else {
                let heavier = EntryView { weight: (e.weight + 1) as u32, ..e };
                Ok((with_entries(o, m, o.state.mode_entries[m].update(i, heavier)), ActionView::Launch(words)))
            },
        }
    }
}

/// Launching the typed text: the mode's command runs with the text in place
/// of `%`, and the text joins the mode's entries.
pub open spec fn launch_typed_step(o: OnagreView) -> Result<(OnagreView, ActionView), Fault> {
    let m = current_mode(o);
    match target_of(o.targets, mode_label(m)) {
        None => Err(Fault::UnknownMode),
        Some(t) => match shell_split(fill_placeholder(t, o.state.input_value)) {
            None => Err(Fault::UnparsableCommand),
            Some(words) => if !o.state.mode_entries.dom().contains(m) {
                Err(Fault::NoEntriesForMode)
            } else if words.len() == 0 {
                Err(Fault::EmptyCommand)
            } else {
                Ok((with_entries(o, m, o.state.mode_entries[m].push(typed_entry(o.state.input_value))), ActionView::Launch(words)))
            },
        },
    }
}

/// Enter: launches the selected match, or the typed text where nothing is
/// listed or the selected match names no entry.
pub open spec fn launch_step(o: OnagreView) -> Result<(OnagreView, ActionView), Fault> {
    let m = current_mode(o);
    let sel = o.state.line_selected_idx;
    if !o.state.mode_matches.dom().contains(m) {
        Err(Fault::NoMatchesForMode)
    } else {
        let ms = o.state.mode_matches[m];
        if ms.len() == 0 {
            launch_typed_step(o)
        } else if sel >= ms.len() {
            Err(Fault::SelectionOutOfRange)
        } else if !o.state.mode_entries.dom().contains(m) {
            Err(Fault::NoEntriesForMode)
        } else if (ms[sel] as int) < o.state.mode_entries[m].len() {
            launch_entry_step(o, ms[sel] as int)
        } else {
            launch_typed_step(o)
        }
    }
}

/// The launcher after a key press.
pub open spec fn key_step(o: OnagreView, k: Key) -> Result<(OnagreView, ActionView), Fault> {
    let m = current_mode(o);
    let sel = o.state.line_selected_idx;
    match k {
        Key::Up => if !o.state.mode_matches.dom().contains(m) {
            Err(Fault::NoMatchesForMode)
        } else {
            let up = if sel != 0 { sel - 1 } else { sel };
            Ok((with_selection(o, up), snap_action(up, o.state.mode_matches[m].len() as int)))
        },
        Key::Down => if !o.state.mode_matches.dom().contains(m) {
            Err(Fault::NoMatchesForMode)
        } else {
            let total = o.state.mode_matches[m].len() as int;
            let down = if total != 0 && sel < total - 1 { sel + 1 } else { sel };
            Ok((with_selection(o, down), snap_action(down, total)))
        },
        Key::Enter => launch_step(o),
        Key::Tab => {
            let o2 = OnagreView { state: StateView { current_mode_idx: next_mode_idx(o), ..o.state }, ..o };
            let o3 = OnagreView { state: StateView { mode_subs: o2.state.mode_subs.insert(current_mode(o2)), ..o2.state }, ..o2 };
            Ok((o3, ActionView::Nothing))
        },
        Key::Escape => Ok((o, ActionView::Exit)),
        Key::Other => Ok((o, ActionView::Nothing)),
    }
}

/// The launcher after a message: the next launcher and the action to
/// perform, or the fault that stops it.
pub open spec fn step(o: OnagreView, msg: MessageView) -> Result<(OnagreView, ActionView), Fault> {
    match msg {
        MessageView::InputChanged(s) => Ok((
            OnagreView { state: StateView { input_value: s, ..o.state }, ..o },
            if o.search_channel_open { ActionView::SendSearch(s) } else { ActionView::Nothing },
        )),
        MessageView::DesktopEntryEvent(e) => desktop_entry_step(o, e),
        MessageView::CustomModeEvent(batch) => custom_mode_step(o, batch),
        MessageView::KeyboardEvent(k) => key_step(o, k),
        MessageView::PopSubscriptionResponse(p) => match p {
            PopMessage::Ready => Ok((OnagreView { search_channel_open: true, ..o }, ActionView::Nothing)),
            PopMessage::Message => Ok((o, ActionView::Nothing)),
        },
        MessageView::Loaded(t) => loaded_step(o, t),
    }
}

/// An exec outcome agrees with the expected step: on success the new
/// launcher and the action, on a fault the fault and no change.
pub open spec fn agrees(before: OnagreView, after: OnagreView, r: Result<Action, Fault>, expected: Result<(OnagreView, ActionView), Fault>) -> bool {
    match expected {
        Ok((o2, a)) => after == o2 && r is Ok && r->Ok_0@ == a,
        Err(f) => after == before && r == Err::<Action, Fault>(f),
    }
}

impl State {
    /// The state on start: the startup mode seen, nothing typed, selected or
    /// loaded.
    pub fn new(startup_mode: Mode) -> (s: State)
        ensures
            s@.mode_subs == set![startup_mode@],
            s@.current_mode_idx == 0,
            s@.line_selected_idx == 0,
            s@.mode_entries == Map::<ModeView, Seq<EntryView>>::empty(),
            s@.mode_matches == Map::<ModeView, Seq<usize>>::empty(),
            s@.input_value == Seq::<char>::empty(),
    {
        let ghost sm = startup_mode@;
        let mut mode_subs: Vec<Mode> = Vec::new();
        mode_subs.push(startup_mode);
        let s = State {
            mode_subs,
            current_mode_idx: 0,
            line_selected_idx: 0,
            entries: EntriesState { mode_entries: ModeTable::new(), mode_matches: ModeTable::new() },
            input_value: String::new(),
        };
        proof {
            assert(mode_views(s.mode_subs@) =~= seq![sm]);
            assert(seq![sm].to_set() =~= set![sm]) by {
                assert(seq![sm][0] == sm);
                assert(seq![sm].contains(sm));
            }
            assert(s@.mode_entries =~= Map::<ModeView, Seq<EntryView>>::empty());
            assert(s@.mode_matches =~= Map::<ModeView, Seq<usize>>::empty());
        }
        s
    }
}

impl Onagre {
    /// The launcher over `modes` (the first one shown), with the commands of
    /// the custom modes.
    pub fn new(modes: Vec<Mode>, targets: Vec<ModeTarget>) -> (o: Onagre)
        requires
            modes@.len() > 0,
        ensures
            well_formed(o@),
            o@.dmenu == false,
            o@.modes == mode_views(modes@),
            o@.targets == target_views(targets@),
            o@.search_channel_open == false,
            o@.state.mode_subs == set![mode_views(modes@)[0]],
            o@.state.current_mode_idx == 0,
            o@.state.line_selected_idx == 0,
            o@.state.mode_entries == Map::<ModeView, Seq<EntryView>>::empty(),
            o@.state.mode_matches == Map::<ModeView, Seq<usize>>::empty(),
            o@.state.input_value == Seq::<char>::empty(),
    {
        let first = modes[0].clone();
        let state = State::new(first);
        Onagre { dmenu: false, modes, state, targets, search_channel_open: false }
    }

    /// The mode shown.
    pub fn get_current_mode(&self) -> (m: &Mode)
        requires
            well_formed(self@),
        ensures
            m@ == current_mode(self@),
    {
        &self.modes[self.state.current_mode_idx]
    }

    /// Moves to the next mode, from the last one back to the first.
    pub fn cycle_mode(&mut self)
        requires
            well_formed(old(self)@),
        ensures
            final(self)@ == (OnagreView {
                state: StateView { current_mode_idx: next_mode_idx(old(self)@), ..old(self)@.state },
                ..old(self)@
            }),
    {
        if self.state.current_mode_idx == self.modes.len() - 1 {
            self.state.current_mode_idx = 0;
        } else {
            self.state.current_mode_idx = self.state.current_mode_idx + 1;
        }
    }

    /// Selects the first line.
    pub fn reset_selection(&mut self)
        ensures
            final(self)@ == with_selection(old(self)@, 0),
    {
        self.state.line_selected_idx = 0;
    }

    /// Gives the current mode these matches.
    pub fn set_custom_matches(&mut self, mode: Mode, matches: Vec<usize>)
        ensures
            final(self)@ == (OnagreView {
                state: StateView {
                    mode_matches: old(self)@.state.mode_matches.insert(mode@, matches@),
                    ..old(self)@.state
                },
                ..old(self)@
            }),
    {
        let ghost mv = mode@;
        let ghost mt = matches@;
        self.state.entries.mode_matches.set(mode, matches);
        assert(self@.state.mode_matches =~= old(self)@.state.mode_matches.insert(mv, mt));
    }

    /// Computes the matches of the current mode afresh.
    pub fn reset_matches(&mut self) -> (r: Result<(), Fault>)
        requires
            well_formed(old(self)@),
        ensures
            old(self)@.state.mode_entries.dom().contains(current_mode(old(self)@)) ==> r is Ok
                && final(self)@ == with_matches_reset(old(self)@),
            !old(self)@.state.mode_entries.dom().contains(current_mode(old(self)@)) ==> r == Err::<(), Fault>(Fault::NoEntriesForMode)
                && final(self)@ == old(self)@,
    {
        let mode = self.get_current_mode().clone();
        let matches = match self.state.entries.mode_entries.get(&mode) {
            None => return Err(Fault::NoEntriesForMode),
            Some(entries) => {
                if self.state.input_value.as_str().is_empty() {
                    let r = default_matches(entries);
                    assert(r@ =~= Seq::new(entries@.len(), |i: int| i as usize));
                    r
                } else {
                    get_matches(entries, self.state.input_value.as_str())
                }
            },
        };
        self.set_custom_matches(mode, matches);
        Ok(())
    }

    /// Typed text changed: remember it, and ask the service to search it
    /// when the channel is open.
    fn on_input_changed(&mut self, input: String) -> (r: Result<Action, Fault>)
        requires
            well_formed(old(self)@),
        ensures
            agrees(old(self)@, final(self)@, r, step(old(self)@, MessageView::InputChanged(input@))),
    {
        let ghost iv = input@;
        self.state.input_value = input;
        if self.search_channel_open {
            Ok(Action::SendSearch(self.state.input_value.clone()))
        } else {
            Ok(Action::Nothing)
        }
    }

    /// The launcher service reported.
    fn on_pop_message(&mut self, message: PopMessage) -> (r: Result<Action, Fault>)
        ensures
            agrees(old(self)@, final(self)@, r, step(old(self)@, MessageView::PopSubscriptionResponse(message))),
    {
        match message {
            PopMessage::Ready => {
                self.search_channel_open = true;
            },
            PopMessage::Message => {},
        }
        Ok(Action::Nothing)
    }

    /// Cached entries were loaded.
    fn on_loaded(&mut self, pairs: Vec<(Mode, Vec<Entry>)>) -> (r: Result<Action, Fault>)
        requires
            well_formed(old(self)@),
        ensures
            agrees(old(self)@, final(self)@, r, step(old(self)@, MessageView::Loaded(entries_map(map_of_pairs(pairs@))))),
    {
        let table = ModeTable::from_pairs(pairs);
        let mode = self.get_current_mode().clone();
        if table.get(&mode).is_none() {
            return Err(Fault::NoEntriesForMode);
        }
        self.state.entries.mode_entries = table;
        let _ = self.reset_matches();
        Ok(Action::Nothing)
    }

    /// Where the list scrolls to for the selected line among `total` lines.
    fn snap(&self, total: usize) -> (a: Action)
        requires
            well_formed(self@),
        ensures
            a@ == snap_action(self@.state.line_selected_idx, total as int),
    {
        let sel = self.state.line_selected_idx;
        let line_offset = if sel == 0 { 0 } else { sel + 1 };
        Action::Snap { line_offset, total_items: total }
    }

    /// How many matches the current mode lists.
    fn match_count(&self) -> (r: Option<usize>)
        requires
            well_formed(self@),
        ensures
            match r {
                Some(n) => self@.state.mode_matches.dom().contains(current_mode(self@))
                    && n == self@.state.mode_matches[current_mode(self@)].len(),
                None => !self@.state.mode_matches.dom().contains(current_mode(self@)),
            },
    {
        match self.state.entries.mode_matches.get(self.get_current_mode()) {
            Some(ms) => Some(ms.len()),
            None => None,
        }
    }

    /// Makes the mode now shown one of the modes seen.
    fn subscribe_current_mode(&mut self)
        requires
            well_formed(old(self)@),
        ensures
            final(self)@ == (OnagreView {
                state: StateView {
                    mode_subs: old(self)@.state.mode_subs.insert(current_mode(old(self)@)),
                    ..old(self)@.state
                },
                ..old(self)@
            }),
    {
        let mode = self.get_current_mode().clone();
        let ghost mv = mode@;
        let ghost before = mode_views(self.state.mode_subs@);
        let mut seen = false;
        let mut k: usize = 0;
        while k < self.state.mode_subs.len()
            invariant
                k <= self.state.mode_subs@.len(),
                mode@ == mv,
                seen == exists|q: int| 0 <= q < k && (#[trigger] self.state.mode_subs@[q])@ == mv,
            decreases self.state.mode_subs@.len() - k,
        {
            if self.state.mode_subs[k].same_mode(&mode) {
                seen = true;
            }
            k = k + 1;
        }
        if !seen {
            self.state.mode_subs.push(mode);
            proof {
                assert(mode_views(self.state.mode_subs@) =~= before.push(mv));
                assert(before.push(mv).to_set() =~= before.to_set().insert(mv)) by {
                    assert forall|x: ModeView| before.push(mv).contains(x) <==> before.to_set().insert(mv).contains(x) by {
                        if before.push(mv).contains(x) {
                            let q = choose|q: int| 0 <= q < before.len() + 1 && before.push(mv)[q] == x;
                            if q < before.len() {
                                assert(before[q] == x);
                            }
                        }
                        if before.contains(x) {
                            let q = choose|q: int| 0 <= q < before.len() && before[q] == x;
                            assert(before.push(mv)[q] == x);
                        }
                        if x == mv {
                            assert(before.push(mv)[before.len() as int] == x);
                        }
                    }
                }
            }
        } else {
            proof {
                let q = choose|q: int| 0 <= q < k && (#[trigger] self.state.mode_subs@[q])@ == mv;
                assert(before[q] == mv);
                assert(before.to_set().insert(mv) =~= before.to_set());
            }
        }
        assert(self@.state =~= (StateView {
                    mode_subs: old(self)@.state.mode_subs.insert(current_mode(old(self)@)),
                    ..old(self)@.state
                }));
    }

    /// A key was pressed.
    pub fn handle_input(&mut self, key: Key) -> (r: Result<Action, Fault>)
        requires
            well_formed(old(self)@),
        ensures
            agrees(old(self)@, final(self)@, r, key_step(old(self)@, key)),
            well_formed(final(self)@),
    {
        match key {
            Key::Up => {
                let total = match self.match_count() {
                    None => return Err(Fault::NoMatchesForMode),
                    Some(n) => n,
                };
                if self.state.line_selected_idx != 0 {
                    self.state.line_selected_idx = self.state.line_selected_idx - 1;
                }
                Ok(self.snap(total))
            },
            Key::Down => {
                let total = match self.match_count() {
                    None => return Err(Fault::NoMatchesForMode),
                    Some(n) => n,
                };
                if total != 0 && self.state.line_selected_idx < total - 1 {
                    self.state.line_selected_idx = self.state.line_selected_idx + 1;
                }
                Ok(self.snap(total))
            },
            Key::Enter => self.run_command(),
            Key::Tab => {
                self.cycle_mode();
                self.subscribe_current_mode();
                Ok(Action::Nothing)
            },
            Key::Escape => Ok(Action::Exit),
            Key::Other => Ok(Action::Nothing),
        }
    }

    /// Launches entry `i` of the current mode.
    fn launch_entry(&mut self, mode: Mode, i: usize) -> (r: Result<Action, Fault>)
        requires
            well_formed(old(self)@),
            mode@ == current_mode(old(self)@),
            old(self)@.state.mode_entries.dom().contains(mode@),
            i < old(self)@.state.mode_entries[mode@].len(),
        ensures
            agrees(old(self)@, final(self)@, r, launch_entry_step(old(self)@, i as int)),
    {
        let ghost o = self@;
        let words = {
            let list = match self.state.entries.mode_entries.get(&mode) {
                Some(list) => list,
                None => return Err(Fault::NoEntriesForMode),
            };
            let entry = &list[i];
            assert(entry@ == o.state.mode_entries[mode@][i as int]);
            if entry.weight == u32::MAX {
                return Err(Fault::WeightOverflow);
            }
            match &mode {
                Mode::Drun => match &entry.exec_line {
                    None => return Err(Fault::NoCommandLine),
                    Some(line) => match desktop_arguments(line.as_str()) {
                        None => return Err(Fault::UnparsableCommand),
                        Some(words) => words,
                    },
                },
                Mode::Custom(name) => match find_target(&self.targets, name.as_str()) {
                    None => return Err(Fault::UnknownMode),
                    Some(target) => match custom_arguments(target.as_str(), entry.display_name.as_str()) {
                        None => return Err(Fault::UnparsableCommand),
                        Some(words) => words,
                    },
                },
            }
        };
        if words.len() == 0 {
            return Err(Fault::EmptyCommand);
        }
        let mut list = match self.state.entries.mode_entries.replace(&mode, Vec::new()) {
            Some(list) => list,
            None => return Err(Fault::NoEntriesForMode),
        };
        let ghost before = entry_views(list@);
        let mut entry = list.remove(i);
        entry.weight = entry.weight + 1;
        list.insert(i, entry);
        proof {
            assert(entry_views(list@) =~= before.update(i as int, EntryView { weight: (before[i as int].weight + 1) as u32, ..before[i as int] }));
        }
        let ghost lv = list@;
        let _ = self.state.entries.mode_entries.replace(&mode, list);
        proof {
            assert(self@.state.mode_entries =~= o.state.mode_entries.insert(mode@, entry_views(lv)));
        }
        Ok(Action::Launch(words))
    }

    /// Launches the typed text with the current mode's command.
    fn launch_typed(&mut self, mode: Mode) -> (r: Result<Action, Fault>)
        requires
            well_formed(old(self)@),
            mode@ == current_mode(old(self)@),
        ensures
            agrees(old(self)@, final(self)@, r, launch_typed_step(old(self)@)),
    {
        let ghost o = self@;
        let label = mode.to_string();
        let words = match find_target(&self.targets, label.as_str()) {
            None => return Err(Fault::UnknownMode),
            Some(target) => match custom_arguments(target.as_str(), self.state.input_value.as_str()) {
                None => return Err(Fault::UnparsableCommand),
                Some(words) => words,
            },
        };
        if self.state.entries.mode_entries.get(&mode).is_none() {
            return Err(Fault::NoEntriesForMode);
        }
        if words.len() == 0 {
            return Err(Fault::EmptyCommand);
        }
        let mut list = match self.state.entries.mode_entries.replace(&mode, Vec::new()) {
            Some(list) => list,
            None => return Err(Fault::NoEntriesForMode),
        };
        let ghost before = entry_views(list@);
        let typed = Entry {
            weight: 1,
            display_name: self.state.input_value.clone(),
            exec_line: None,
            search_terms: None,
        };
        list.push(typed);
        proof {
            assert(entry_views(list@) =~= before.push(typed_entry(o.state.input_value)));
        }
        let ghost lv = list@;
        let _ = self.state.entries.mode_entries.replace(&mode, list);
        proof {
            assert(self@.state.mode_entries =~= o.state.mode_entries.insert(mode@, entry_views(lv)));
        }
        Ok(Action::Launch(words))
    }

    /// Enter: launches the selected match, or else the typed text.
    fn run_command(&mut self) -> (r: Result<Action, Fault>)
        requires
            well_formed(old(self)@),
        ensures
            agrees(old(self)@, final(self)@, r, launch_step(old(self)@)),
    {
        let mode = self.get_current_mode().clone();
        let sel = self.state.line_selected_idx;
        let picked = match self.state.entries.mode_matches.get(&mode) {
            None => return Err(Fault::NoMatchesForMode),
            Some(matches) => {
                if matches.len() == 0 {
                    None
                } else if sel >= matches.len() {
                    return Err(Fault::SelectionOutOfRange);
                } else {
                    let idx = matches[sel];
                    match self.state.entries.mode_entries.get(&mode) {
                        None => return Err(Fault::NoEntriesForMode),
                        Some(list) => if idx < list.len() {
                            Some(idx)
                        } else {
                            None
                        },
                    }
                }
            },
        };
        match picked {
            Some(i) => self.launch_entry(mode, i),
            None => self.launch_typed(mode),
        }
    }

    /// A desktop entry arrived: it joins the desktop-entry mode unless an
    /// equal one is there.
    fn on_desktop_entry(&mut self, entry: Entry) -> (r: Result<Action, Fault>)
        requires
            well_formed(old(self)@),
        ensures
            agrees(old(self)@, final(self)@, r, desktop_entry_step(old(self)@, entry@)),
            well_formed(final(self)@),
    {
        let ghost o = self@;
        let ghost ev = entry@;
        let drun = Mode::Drun;
        match self.state.entries.mode_entries.get(&drun) {
            None => return Err(Fault::NoEntriesForMode),
            Some(list) => {
                if contains_entry(list, &entry) {
                    return Ok(Action::Nothing);
                }
            },
        }
        let current = self.get_current_mode().clone();
        if !current.same_mode(&drun) && self.state.entries.mode_entries.get(&current).is_none() {
            return Err(Fault::NoEntriesForMode);
        }
        let mut list = match self.state.entries.mode_entries.replace(&drun, Vec::new()) {
            Some(list) => list,
            None => return Err(Fault::NoEntriesForMode),
        };
        let ghost before = entry_views(list@);
        list.push(entry);
        assert(entry_views(list@) =~= before.push(ev));
        let ghost lv = list@;
        let _ = self.state.entries.mode_entries.replace(&drun, list);
        assert(self@.state.mode_entries =~= o.state.mode_entries.insert(ModeView::Drun, before.push(ev)));
        assert(self@ == with_entries(o, ModeView::Drun, before.push(ev)));
        let _ = self.reset_matches();
        Ok(Action::Nothing)
    }

    /// A batch of entries arrived for the current mode: they are merged with
    /// its entries, and the matches recomputed where the number of entries
    /// changed.
    fn on_custom_entries(&mut self, batch: Vec<Entry>) -> (r: Result<Action, Fault>)
        requires
            well_formed(old(self)@),
        ensures
            agrees(old(self)@, final(self)@, r, custom_mode_step(old(self)@, entry_views(batch@))),
            well_formed(final(self)@),
    {
        let ghost o = self@;
        let ghost bv = entry_views(batch@);
        let mode = self.get_current_mode().clone();
        let before = match self.state.entries.mode_entries.replace(&mode, Vec::new()) {
            Some(list) => list,
            None => return Err(Fault::NoEntriesForMode),
        };
        let ghost old_view = entry_views(before@);
        let old_len = before.len();
        let list = merge_entries(before, batch);
        let changed = list.len() != old_len;
        let ghost lv = entry_views(list@);
        let _ = self.state.entries.mode_entries.replace(&mode, list);
        assert(self@.state.mode_entries =~= o.state.mode_entries.insert(mode@, lv));
        assert(self@ == with_entries(o, mode@, merged(old_view, bv)));
        if changed {
            let _ = self.reset_matches();
        }
        Ok(Action::Nothing)
    }

    /// Handles a message: updates the launcher and returns the action to
    /// perform, or the fault on which the launcher stops (and then nothing
    /// changed).
    pub fn update(&mut self, message: Message) -> (r: Result<Action, Fault>)
        requires
            well_formed(old(self)@),
        ensures
            agrees(old(self)@, final(self)@, r, step(old(self)@, message@)),
            well_formed(final(self)@),
    {
        match message {
            Message::CustomModeEvent(batch) => self.on_custom_entries(batch),
            Message::InputChanged(input) => self.on_input_changed(input),
            Message::KeyboardEvent(key) => self.handle_input(key),
            Message::DesktopEntryEvent(entry) => self.on_desktop_entry(entry),
            Message::Loaded(pairs) => self.on_loaded(pairs),
            Message::PopSubscriptionResponse(p) => self.on_pop_message(p),
        }
    }

    /// What the entry caches are written from: every mode that has entries,
    /// once, with a copy of its entries, heaviest first.
    pub fn flush_all(&self) -> (r: Vec<(Mode, Vec<Entry>)>)
        ensures
            forall|m: ModeView| #[trigger] self@.state.mode_entries.dom().contains(m) <==> exists|k: int| 0 <= k < r@.len() && (#[trigger] r@[k]).0@ == m,
            forall|a: int, b: int| 0 <= a < b < r@.len() ==> (#[trigger] r@[a]).0@ != (#[trigger] r@[b]).0@,
            forall|k: int| 0 <= k < r@.len() ==> {
                &&& self@.state.mode_entries.dom().contains((#[trigger] r@[k]).0@)
                &&& entry_views(r@[k].1@).to_multiset() == self@.state.mode_entries[r@[k].0@].to_multiset()
                &&& heaviest_first(entry_views(r@[k].1@))
            },
    {
        let modes = self.state.entries.mode_entries.modes();
        let mut r: Vec<(Mode, Vec<Entry>)> = Vec::new();
        let mut i: usize = 0;
        while i < modes.len()
            invariant
                i <= modes@.len(),
                r@.len() == i,
                forall|m: ModeView| #[trigger] self@.state.mode_entries.dom().contains(m) <==> mode_views(modes@).contains(m),
                forall|a: int, b: int| 0 <= a < b < modes@.len() ==> (#[trigger] modes@[a])@ != (#[trigger] modes@[b])@,
                forall|k: int| 0 <= k < i ==> (#[trigger] r@[k]).0@ == modes@[k]@,
                forall|k: int| 0 <= k < i ==> {
                    &&& self@.state.mode_entries.dom().contains((#[trigger] r@[k]).0@)
                    &&& entry_views(r@[k].1@).to_multiset() == self@.state.mode_entries[r@[k].0@].to_multiset()
                    &&& heaviest_first(entry_views(r@[k].1@))
                },
            decreases modes@.len() - i,
        {
            assert(mode_views(modes@)[i as int] == modes@[i as int]@);
            assert(mode_views(modes@).contains(modes@[i as int]@));
            assert(self@.state.mode_entries.dom().contains(modes@[i as int]@));
            assert(self.state.entries.mode_entries@.dom().contains(modes@[i as int]@));
            match self.state.entries.mode_entries.get(&modes[i]) {
                Some(list) => {
                    let sorted = sort_by_weight(clone_entries(list));
                    r.push((modes[i].clone(), sorted));
                },
                None => {
                    assert(false);
                },
            }
            i = i + 1;
        }
        proof {
            assert forall|m: ModeView| #[trigger] self@.state.mode_entries.dom().contains(m) implies exists|k: int| 0 <= k < r@.len() && (#[trigger] r@[k]).0@ == m by {
                let q = choose|q: int| 0 <= q < mode_views(modes@).len() && mode_views(modes@)[q] == m;
                assert(r@[q].0@ == m);
            }
        }
        r
    }
    /// The mode menu: the label of every mode, and whether it is the one
    /// shown.
    pub fn build_mode_menu(&self) -> (r: Vec<(String, bool)>)
        requires
            well_formed(self@),
        ensures
            r@.len() == self@.modes.len(),
            forall|k: int| 0 <= k < r@.len() ==> (#[trigger] r@[k]).0@ == mode_label(self@.modes[k])
                && r@[k].1 == (k == self@.state.current_mode_idx),
    {
        let mut r: Vec<(String, bool)> = Vec::new();
        let mut i: usize = 0;
        while i < self.modes.len()
            invariant
                i <= self.modes@.len(),
                r@.len() == i,
                forall|k: int| 0 <= k < i ==> (#[trigger] r@[k]).0@ == mode_label(self@.modes[k])
                    && r@[k].1 == (k == self@.state.current_mode_idx),
            decreases self.modes@.len() - i,
        {
            assert(self@.modes[i as int] == self.modes@[i as int]@);
            r.push((self.modes[i].to_string(), i == self.state.current_mode_idx));
            i = i + 1;
        }
        r
    }

    /// The rows listed for the current mode: a copy of the entry of every
    /// match, in order, and whether it is the selected line.
    pub fn match_rows(&self) -> (r: Result<Vec<(Entry, bool)>, Fault>)
        requires
            well_formed(self@),
        ensures
            ({
                let m = current_mode(self@);
                if !self@.state.mode_matches.dom().contains(m) {
                    r is Ok && r->Ok_0@.len() == 0
                } else {
                    let ms = self@.state.mode_matches[m];
                    if ms.len() > 0 && !self@.state.mode_entries.dom().contains(m) {
                        r == Err::<Vec<(Entry, bool)>, Fault>(Fault::NoEntriesForMode)
                    } else if exists|k: int| 0 <= k < ms.len() && #[trigger] ms[k] as int >= self@.state.mode_entries[m].len() {
                        r == Err::<Vec<(Entry, bool)>, Fault>(Fault::MatchOutOfRange)
                    } else {
                        &&& r is Ok
                        &&& r->Ok_0@.len() == ms.len()
                        &&& forall|k: int| 0 <= k < ms.len() ==> (#[trigger] r->Ok_0@[k]).0@ == self@.state.mode_entries[m][ms[k] as int]
                            && r->Ok_0@[k].1 == (k == self@.state.line_selected_idx)
                    }
                }
            }),
    {
        let mode = self.get_current_mode();
        let matches = match self.state.entries.mode_matches.get(mode) {
            None => return Ok(Vec::new()),
            Some(matches) => matches,
        };
        if matches.len() == 0 {
            return Ok(Vec::new());
        }
        let list = match self.state.entries.mode_entries.get(mode) {
            None => return Err(Fault::NoEntriesForMode),
            Some(list) => list,
        };
        assert(self@.state.mode_matches.dom().contains(current_mode(self@)));
        assert(self@.state.mode_entries.dom().contains(current_mode(self@)));
        assert(matches@ == self@.state.mode_matches[current_mode(self@)]);
        assert(entry_views(list@) == self@.state.mode_entries[current_mode(self@)]);
        let mut rows: Vec<(Entry, bool)> = Vec::new();
        let mut k: usize = 0;
        while k < matches.len()
            invariant
                k <= matches@.len(),
                rows@.len() == k,
                well_formed(self@),
                self@.state.mode_matches.dom().contains(current_mode(self@)),
                self@.state.mode_entries.dom().contains(current_mode(self@)),
                matches@ == self@.state.mode_matches[current_mode(self@)],
                entry_views(list@) == self@.state.mode_entries[current_mode(self@)],
                forall|q: int| 0 <= q < k ==> (matches@[q] as int) < list@.len(),
                forall|q: int| 0 <= q < k ==> (#[trigger] rows@[q]).0@ == list@[matches@[q] as int]@
                    && rows@[q].1 == (q == self@.state.line_selected_idx),
            decreases matches@.len() - k,
        {
            let idx = matches[k];
            if idx >= list.len() {
                assert(entry_views(list@).len() == list@.len());
                assert(matches@[k as int] as int >= self@.state.mode_entries[current_mode(self@)].len());
                assert(exists|q: int| 0 <= q < matches@.len() && #[trigger] matches@[q] as int >= self@.state.mode_entries[current_mode(self@)].len());
                return Err(Fault::MatchOutOfRange);
            }
            rows.push((list[idx].clone(), k == self.state.line_selected_idx));
            k = k + 1;
        }
        proof {
            let m = current_mode(self@);
            assert forall|q: int| 0 <= q < matches@.len() implies (#[trigger] rows@[q]).0@ == self@.state.mode_entries[m][matches@[q] as int] by {
                assert(entry_views(list@)[matches@[q] as int] == list@[matches@[q] as int]@);
            }
        }
        Ok(rows)
    }
}

/// The matches computed for a mode name entries of the mode, each once.
pub proof fn lemma_fresh_matches_name_entries(entries: Seq<EntryView>, input: Seq<char>)
    requires
        entries.len() <= usize::MAX,
    ensures
        forall|k: int| 0 <= k < fresh_matches(entries, input).len() ==> (#[trigger] fresh_matches(entries, input)[k] as int) < entries.len(),
        forall|a: int, b: int| 0 <= a < b < fresh_matches(entries, input).len() ==> #[trigger] fresh_matches(entries, input)[a] != #[trigger] fresh_matches(entries, input)[b],
{
    if input.len() > 0 {
        let scores = entry_scores(entries, input);
        lemma_ranked_ranks(scores);
        assert forall|a: int, b: int| 0 <= a < b < fresh_matches(entries, input).len() implies #[trigger] fresh_matches(entries, input)[a] != #[trigger] fresh_matches(entries, input)[b] by {
            assert(ranks_before(scores, ranked(scores)[a] as int, ranked(scores)[b] as int));
        }
    }
}

/// The launcher after `k` presses of Tab.
pub open spec fn after_tabs(o: OnagreView, k: nat) -> OnagreView
    decreases k,
{
    if k == 0 {
        o
    } else {
        key_step(after_tabs(o, (k - 1) as nat), Key::Tab)->Ok_0.0
    }
}

proof fn lemma_next_index(x: int, n: int)
    requires
        0 <= x,
        0 < n,
    ensures
        (if x % n == n - 1 { 0 } else { x % n + 1 }) == (x + 1) % n,
{
    assert(x == n * (x / n) + x % n) by (nonlinear_arith)
        requires
            0 < n,
    ;
    assert(0 <= x % n < n) by (nonlinear_arith)
        requires
            0 < n,
    ;
    if x % n == n - 1 {
        assert(x + 1 == n * (x / n + 1)) by (nonlinear_arith)
            requires
                x == n * (x / n) + x % n,
                x % n == n - 1,
        ;
        assert((x + 1) % n == 0) by (nonlinear_arith)
            requires
                x + 1 == n * (x / n + 1),
                0 < n,
                0 <= x,
        ;
    } else {
        assert(x + 1 == n * (x / n) + (x % n + 1));
        assert((x + 1) % n == x % n + 1) by (nonlinear_arith)
            requires
                x + 1 == n * (x / n) + (x % n + 1),
                0 <= x % n + 1 < n,
                0 < n,
                0 <= x,
        ;
    }
}

/// After `k` presses of Tab the mode shown is `k` places further in the list
/// of modes, going round; the modes themselves do not change.
pub proof fn lemma_tabs_advance(o: OnagreView, k: nat)
    requires
        well_formed(o),
    ensures
        well_formed(after_tabs(o, k)),
        after_tabs(o, k).modes == o.modes,
        after_tabs(o, k).state.current_mode_idx == (o.state.current_mode_idx + k) % (o.modes.len() as int),
    decreases k,
{
    let n = o.modes.len() as int;
    if k == 0 {
        assert(o.state.current_mode_idx % n == o.state.current_mode_idx) by (nonlinear_arith)
            requires
                0 <= o.state.current_mode_idx < n,
        ;
    } else {
        lemma_tabs_advance(o, (k - 1) as nat);
        lemma_next_index(o.state.current_mode_idx + k - 1, n);
    }
}

/// Pressing Tab as many times as there are modes comes back to the mode
/// shown before.
pub proof fn lemma_tabs_come_round(o: OnagreView)
    requires
        well_formed(o),
    ensures
        after_tabs(o, o.modes.len()).state.current_mode_idx == o.state.current_mode_idx,
{
    let n = o.modes.len() as int;
    lemma_tabs_advance(o, o.modes.len());
    assert((o.state.current_mode_idx + n) % n == o.state.current_mode_idx) by (nonlinear_arith)
        requires
            0 <= o.state.current_mode_idx < n,
    ;
}

/// Down then Up comes back to the line selected before, where there is a
/// line below it.
pub proof fn lemma_down_then_up(o: OnagreView)
    requires
        well_formed(o),
        o.state.mode_matches.dom().contains(current_mode(o)),
        o.state.line_selected_idx + 1 < o.state.mode_matches[current_mode(o)].len(),
    ensures
        key_step(o, Key::Down) is Ok,
        key_step(key_step(o, Key::Down)->Ok_0.0, Key::Up) is Ok,
        key_step(key_step(o, Key::Down)->Ok_0.0, Key::Up)->Ok_0.0 == o,
{
    let o1 = key_step(o, Key::Down)->Ok_0.0;
    assert(current_mode(o1) == current_mode(o));
    let o2 = key_step(o1, Key::Up)->Ok_0.0;
    assert(o2.state =~= o.state);
}

/// The selected line stays within the matches: Up and Down never move it
/// past the last match or before the first.
pub proof fn lemma_selection_stays_within(o: OnagreView, k: Key)
    requires
        well_formed(o),
        k == Key::Up || k == Key::Down,
        o.state.mode_matches.dom().contains(current_mode(o)),
        o.state.line_selected_idx < o.state.mode_matches[current_mode(o)].len(),
    ensures
        key_step(o, k) is Ok,
        key_step(o, k)->Ok_0.0.state.line_selected_idx < o.state.mode_matches[current_mode(o)].len(),
{
}

/// The same batch of entries arriving twice for a mode leaves the launcher
/// as after the first time.
pub proof fn lemma_custom_batch_idempotent(o: OnagreView, batch: Seq<EntryView>)
    requires
        well_formed(o),
        custom_mode_step(o, batch) is Ok,
    ensures
        custom_mode_step(custom_mode_step(o, batch)->Ok_0.0, batch) == Ok::<(OnagreView, ActionView), Fault>((custom_mode_step(o, batch)->Ok_0.0, ActionView::Nothing)),
{
    let m = current_mode(o);
    let before = o.state.mode_entries[m];
    let once = merged(before, batch);
    let o1 = custom_mode_step(o, batch)->Ok_0.0;
    assert(current_mode(o1) == m);
    assert(o1.state.mode_entries[m] == once);
    let twice = merged(once, batch);
    lemma_merged_twice(before, batch);
    assert(with_entries(o1, m, twice).state.mode_entries =~= o1.state.mode_entries);
    assert(with_entries(o1, m, twice) == o1);
}

/// The same desktop entry arriving twice leaves the launcher as after the
/// first time.
pub proof fn lemma_desktop_entry_idempotent(o: OnagreView, e: EntryView)
    requires
        well_formed(o),
        desktop_entry_step(o, e) is Ok,
    ensures
        desktop_entry_step(desktop_entry_step(o, e)->Ok_0.0, e) == Ok::<(OnagreView, ActionView), Fault>((desktop_entry_step(o, e)->Ok_0.0, ActionView::Nothing)),
{
    let o1 = desktop_entry_step(o, e)->Ok_0.0;
    let list = o.state.mode_entries[ModeView::Drun];
    if !list.contains(e) {
        assert(list.push(e)[list.len() as int] == e);
        assert(o1.state.mode_entries[ModeView::Drun] == list.push(e));
        assert(o1.state.mode_entries[ModeView::Drun].contains(e));
    }
}

/// Every message keeps the launcher well formed (the number of matches of a
/// mode being a machine-sized number).
pub proof fn lemma_step_keeps_well_formed(o: OnagreView, msg: MessageView)
    requires
        well_formed(o),
        o.state.mode_matches.dom().contains(current_mode(o)) ==> o.state.mode_matches[current_mode(
            o,
        )].len() <= usize::MAX,
    ensures
        step(o, msg) is Ok ==> well_formed(step(o, msg)->Ok_0.0),
{
}

/// The names among `possible` that `requested` holds, in order.
pub open spec fn requested_names(possible: Seq<Seq<char>>, requested: Seq<Seq<char>>) -> Seq<Seq<char>>
    decreases possible.len(),
{
    if possible.len() == 0 {
        Seq::empty()
    } else if requested.contains(possible.last()) {
        requested_names(possible.drop_last(), requested).push(possible.last())
    } else {
        requested_names(possible.drop_last(), requested)
    }
}

/// The mode names to show: the custom modes of the settings, then `drun`;
/// of these only the requested ones where any are requested.
pub open spec fn chosen_names(configured: Seq<Seq<char>>, requested: Seq<Seq<char>>) -> Seq<Seq<char>> {
    let possible = configured.push("drun"@);
    if requested.len() == 0 {
        possible
    } else {
        requested_names(possible, requested)
    }
}

/// Whether `names` holds `name`.
fn holds_name(names: &Vec<String>, name: &str) -> (r: bool)
    ensures
        r == texts(names@).contains(name@),
{
    let mut i: usize = 0;
    while i < names.len()
        invariant
            i <= names@.len(),
            forall|k: int| 0 <= k < i ==> names@[k]@ != name@,
        decreases names@.len() - i,
    {
        if same_text(names[i].as_str(), name) {
            assert(texts(names@)[i as int] == name@);
            return true;
        }
        i = i + 1;
    }
    assert forall|k: int| 0 <= k < texts(names@).len() implies texts(names@)[k] != name@ by {
        assert(texts(names@)[k] == names@[k]@);
    }
    false
}

/// The modes to show, from the custom mode names of the settings and the
/// requested names: `chosen_names`, each made a mode, the last one first.
pub fn select_modes(configured: &Vec<String>, requested: &Vec<String>) -> (r: Vec<Mode>)
    ensures
        mode_views(r@) == chosen_names(texts(configured@), texts(requested@)).map_values(
            |n: Seq<char>| mode_of_name(n),
        ).reverse(),
{
    let ghost conf = texts(configured@);
    let ghost req = texts(requested@);
    let mut possible: Vec<String> = Vec::new();
    let mut i: usize = 0;
    while i < configured.len()
        invariant
            i <= configured@.len(),
            conf == texts(configured@),
            texts(possible@) == conf.take(i as int),
        decreases configured@.len() - i,
    {
        let ghost prior = possible@;
        let c = configured[i].clone();
        assert(c@ == configured@[i as int]@);
        possible.push(c);
        assert(texts(possible@) =~= texts(prior).push(configured@[i as int]@));
        assert(texts(possible@) =~= conf.take(i + 1));
        i = i + 1;
    }
    let ghost before = texts(possible@);
    possible.push(String::from_str("drun"));
    assert(texts(possible@) =~= conf.push("drun"@)) by {
        assert(before =~= conf);
    }
    let ghost all = texts(possible@);
    let mut kept: Vec<String> = Vec::new();
    let mut j: usize = 0;
    while j < possible.len()
        invariant
            j <= possible@.len(),
            all == texts(possible@),
            texts(kept@) == (if req.len() == 0 { all.take(j as int) } else { requested_names(all.take(j as int), req) }),
            req == texts(requested@),
        decreases possible@.len() - j,
    {
        let ghost prior = texts(kept@);
        assert(all.take(j + 1).drop_last() =~= all.take(j as int));
        assert(all.take(j + 1).last() == possible@[j as int]@);
        if requested.len() == 0 || holds_name(requested, possible[j].as_str()) {
            let ghost kept_before = kept@;
            let c = possible[j].clone();
            assert(c@ == possible@[j as int]@);
            kept.push(c);
            assert(texts(kept@) =~= texts(kept_before).push(possible@[j as int]@));
        }
        j = j + 1;
    }
    assert(all.take(possible@.len() as int) =~= all);
    let ghost names = texts(kept@);
    let mut r: Vec<Mode> = Vec::new();
    let mut k: usize = kept.len();
    while k > 0
        invariant
            k <= kept@.len(),
            names == texts(kept@),
            mode_views(r@) == names.skip(k as int).map_values(|n: Seq<char>| mode_of_name(n)).reverse(),
        decreases k,
    {
        let ghost prior = mode_views(r@);
        let m = Mode::from(kept[k - 1].as_str());
        r.push(m);
        assert(mode_views(r@) =~= names.skip(k - 1).map_values(|n: Seq<char>| mode_of_name(n)).reverse()) by {
            let longer = names.skip(k - 1).map_values(|n: Seq<char>| mode_of_name(n));
            let shorter = names.skip(k as int).map_values(|n: Seq<char>| mode_of_name(n));
            assert(longer =~= seq![mode_of_name(names[k - 1])] + shorter);
            assert(longer.reverse() =~= shorter.reverse().push(mode_of_name(names[k - 1])));
        }
        k = k - 1;
    }
    assert(names.skip(0) =~= names);
    r
}

/// While the search channel is open, every change of the typed text is
/// remembered and sent as a search for exactly that text, whatever was typed
/// before; with the channel closed it is only remembered.
pub proof fn lemma_typing_sends_search(o: OnagreView, s: Seq<char>)
    ensures
        step(o, MessageView::InputChanged(s)) is Ok,
        step(o, MessageView::InputChanged(s))->Ok_0.0.state.input_value == s,
        step(o, MessageView::InputChanged(s))->Ok_0.0.state.mode_entries == o.state.mode_entries,
        step(o, MessageView::InputChanged(s))->Ok_0.0.state.mode_matches == o.state.mode_matches,
        o.search_channel_open ==> step(o, MessageView::InputChanged(s))->Ok_0.1 == ActionView::SendSearch(s),
        !o.search_channel_open ==> step(o, MessageView::InputChanged(s))->Ok_0.1 == ActionView::Nothing,
{
}

/// Enter on a selected line whose match names an entry launches that entry,
/// the one shown on the line, whatever the line's position: only its weight
/// grows, by one, and the command is its own (the desktop command line
/// without field codes, or the custom mode's command with `%` filled by its
/// name). Where that command has a program and the weight can grow, the
/// launch succeeds.
pub proof fn lemma_enter_launches_selected_match(o: OnagreView)
    requires
        well_formed(o),
        o.state.mode_matches.dom().contains(current_mode(o)),
        o.state.mode_entries.dom().contains(current_mode(o)),
        o.state.line_selected_idx < o.state.mode_matches[current_mode(o)].len(),
        (o.state.mode_matches[current_mode(o)][o.state.line_selected_idx] as int) < o.state.mode_entries[current_mode(o)].len(),
    ensures
        ({
            let m = current_mode(o);
            let list = o.state.mode_entries[m];
            let i = o.state.mode_matches[m][o.state.line_selected_idx] as int;
            let e = list[i];
            let r = step(o, MessageView::KeyboardEvent(Key::Enter));
            &&& r is Ok ==> {
                let after = r->Ok_0.0.state.mode_entries[m];
                &&& e.weight < u32::MAX
                &&& r->Ok_0.0.state.mode_entries.dom().contains(m)
                &&& after.len() == list.len()
                &&& after[i] == (EntryView { weight: (e.weight + 1) as u32, ..e })
                &&& forall|j: int| 0 <= j < list.len() && j != i ==> #[trigger] after[j] == list[j]
                &&& r->Ok_0.0.state.mode_matches == o.state.mode_matches
                &&& r->Ok_0.0.state.line_selected_idx == o.state.line_selected_idx
            }
            &&& (r is Ok && m == ModeView::Drun) ==> {
                &&& e.exec_line is Some
                &&& shell_split(e.exec_line->0) is Some
                &&& r->Ok_0.1 == ActionView::Launch(without_field_codes(shell_split(e.exec_line->0)->0))
            }
            &&& (r is Ok && m is Custom) ==> {
                &&& target_of(o.targets, m->Custom_0) is Some
                &&& shell_split(fill_placeholder(target_of(o.targets, m->Custom_0)->0, e.display_name)) is Some
                &&& r->Ok_0.1 == ActionView::Launch(shell_split(fill_placeholder(target_of(o.targets, m->Custom_0)->0, e.display_name))->0)
            }
            &&& (m == ModeView::Drun && e.weight < u32::MAX && e.exec_line is Some && shell_split(e.exec_line->0) is Some
                && without_field_codes(shell_split(e.exec_line->0)->0).len() > 0) ==> r is Ok
        }),
{
    let m = current_mode(o);
    let list = o.state.mode_entries[m];
    let i = o.state.mode_matches[m][o.state.line_selected_idx] as int;
    let e = list[i];
    let r = step(o, MessageView::KeyboardEvent(Key::Enter));
    if r is Ok {
        let after = r->Ok_0.0.state.mode_entries[m];
        assert(after =~= list.update(i, EntryView { weight: (e.weight + 1) as u32, ..e }));
    }
}

/// The entries that the current mode lists after they are computed afresh:
/// every entry, in order, when nothing is typed; else exactly the entries
/// whose whole display name the skim matcher matches against the typed text,
/// each once.
pub open spec fn lists_for_text(ms: Seq<usize>, list: Seq<EntryView>, input: Seq<char>) -> bool {
    &&& forall|k: int| 0 <= k < ms.len() ==> (#[trigger] ms[k] as int) < list.len()
    &&& forall|i: int| 0 <= i < list.len() ==> (ms.contains(i as usize) <==> (input.len() == 0
        || (#[trigger] skim_score(list[i].display_name, input)) is Some))
    &&& input.len() == 0 ==> ms.len() == list.len() && forall|k: int| 0 <= k < ms.len() ==> ms[k] == k
}

proof fn lemma_fresh_matches_list_for_text(list: Seq<EntryView>, input: Seq<char>)
    requires
        list.len() <= usize::MAX,
    ensures
        lists_for_text(fresh_matches(list, input), list, input),
{
    let ms = fresh_matches(list, input);
    if input.len() == 0 {
        assert forall|i: int| 0 <= i < list.len() implies #[trigger] ms.contains(i as usize) by {
            assert(ms[i] == i as usize);
        }
    } else {
        lemma_search_lists_matching_names(list, input);
    }
}

/// A desktop entry that was not there joins the desktop-entry mode at the
/// end, and the current mode's matches are computed afresh for the typed
/// text: the new entry is listed exactly when it matches.
pub proof fn lemma_new_desktop_entry_is_searched(o: OnagreView, e: EntryView)
    requires
        well_formed(o),
        o.state.mode_entries.dom().contains(ModeView::Drun),
        !o.state.mode_entries[ModeView::Drun].contains(e),
        current_mode(o) == ModeView::Drun || o.state.mode_entries.dom().contains(current_mode(o)),
        o.state.mode_entries[ModeView::Drun].len() < usize::MAX,
        o.state.mode_entries.dom().contains(current_mode(o)) ==> o.state.mode_entries[current_mode(o)].len() <= usize::MAX,
    ensures
        step(o, MessageView::DesktopEntryEvent(e)) is Ok,
        ({
            let o2 = step(o, MessageView::DesktopEntryEvent(e))->Ok_0.0;
            let m = current_mode(o);
            &&& o2.state.mode_entries[ModeView::Drun] == o.state.mode_entries[ModeView::Drun].push(e)
            &&& o2.state.mode_matches.dom().contains(m)
            &&& lists_for_text(o2.state.mode_matches[m], o2.state.mode_entries[m], o.state.input_value)
        }),
{
    let o1 = with_entries(o, ModeView::Drun, o.state.mode_entries[ModeView::Drun].push(e));
    let m = current_mode(o);
    assert(current_mode(o1) == m);
    lemma_fresh_matches_list_for_text(o1.state.mode_entries[m], o.state.input_value);
}

/// The names that `requested_names` keeps are those of `possible` that are
/// requested.
proof fn lemma_requested_names_contains(possible: Seq<Seq<char>>, requested: Seq<Seq<char>>, n: Seq<char>)
    ensures
        requested_names(possible, requested).contains(n) <==> (possible.contains(n) && requested.contains(n)),
    decreases possible.len(),
{
    if possible.len() > 0 {
        let rest = possible.drop_last();
        lemma_requested_names_contains(rest, requested, n);
        let kept = requested_names(rest, requested);
        if kept.contains(n) {
            let k = choose|k: int| 0 <= k < kept.len() && kept[k] == n;
            if requested.contains(possible.last()) {
                assert(kept.push(possible.last())[k] == n);
            }
        }
        if rest.contains(n) {
            let k = choose|k: int| 0 <= k < rest.len() && rest[k] == n;
            assert(possible[k] == n);
        }
        if possible.contains(n) {
            let k = choose|k: int| 0 <= k < possible.len() && possible[k] == n;
            if k < possible.len() - 1 {
                assert(rest[k] == n);
            }
        }
        if requested.contains(possible.last()) {
            let pushed = kept.push(possible.last());
            assert(pushed[kept.len() as int] == possible.last());
            if pushed.contains(n) {
                let k = choose|k: int| 0 <= k < pushed.len() && pushed[k] == n;
                if k < kept.len() {
                    assert(kept[k] == n);
                }
            }
        }
    }
}

/// The modes chosen to show are the configured custom modes and `drun`; when
/// names are requested, exactly those of them that are requested, so that no
/// mode that was not asked for, `drun` included, is shown.
pub proof fn lemma_chosen_modes(configured: Seq<Seq<char>>, requested: Seq<Seq<char>>, n: Seq<char>)
    ensures
        requested.len() > 0 ==> (chosen_names(configured, requested).contains(n) <==> (requested.contains(n)
            && (configured.contains(n) || n == "drun"@))),
        requested.len() == 0 ==> (chosen_names(configured, requested).contains(n) <==> (configured.contains(n)
            || n == "drun"@)),
{
    let possible = configured.push("drun"@);
    lemma_requested_names_contains(possible, requested, n);
    assert(possible[configured.len() as int] == "drun"@);
    if configured.contains(n) {
        let k = choose|k: int| 0 <= k < configured.len() && configured[k] == n;
        assert(possible[k] == n);
    }
    if possible.contains(n) {
        let k = choose|k: int| 0 <= k < possible.len() && possible[k] == n;
        if k < configured.len() {
            assert(configured[k] == n);
        }
    }
}

} // verus!

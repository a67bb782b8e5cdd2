use fuzzy_matcher::skim::SkimMatcherV2;
use fuzzy_matcher::FuzzyMatcher;
use onagre::backend::PopRequest;
use pop_launcher::Request;
use onagre::command::{custom_arguments, desktop_arguments, replace_placeholder};
use onagre::entry::{clone_entries, compare_entries, contains_entry, merge_entries, same_entry, sort_by_weight, Entry};
use onagre::matching::{all_indices, default_matches, get_matches, rank_scores};
use onagre::mode::Mode;
use onagre::onagre::{find_target, select_modes, Action, Fault, Key, Message, ModeTarget, Onagre, PopMessage};
use onagre::table::ModeTable;
use onagre::text::{chars_of, compare_text, same_text};

#[test]
fn test() {
    assert_eq!(0.2 * 5 as f32, 1.0);
}

fn entry(weight: u32, name: &str, exec: Option<&str>) -> Entry {
    Entry {
        weight,
        display_name: name.to_string(),
        exec_line: exec.map(|s| s.to_string()),
        search_terms: None,
    }
}

fn names(entries: &[Entry]) -> Vec<String> {
    entries.iter().map(|e| e.display_name.clone()).collect()
}

fn custom(name: &str) -> Mode {
    Mode::Custom(name.to_string())
}

fn is_mode(m: &Mode, expected: &Mode) -> bool {
    m.same_mode(expected)
}

fn target(name: &str, target: &str) -> ModeTarget {
    ModeTarget { name: name.to_string(), target: target.to_string() }
}

#[test]
fn mode_from_drun_is_desktop_mode() {
    assert!(matches!(Mode::from("drun"), Mode::Drun));
}

#[test]
fn mode_from_other_name_is_custom() {
    match Mode::from("calc") {
        Mode::Custom(name) => assert_eq!(name, "calc"),
        Mode::Drun => panic!("expected a custom mode"),
    }
    assert!(matches!(Mode::from("Drun"), Mode::Custom(_)));
}

#[test]
fn mode_to_string_shows_label() {
    assert_eq!(Mode::Drun.to_string(), "Drun");
    assert_eq!(custom("web").to_string(), "web");
    assert_eq!(Mode::from("web").to_string(), "web");
    assert_eq!(Mode::from("drun").to_string(), "Drun");
}

#[test]
fn same_mode_compares_names() {
    assert!(Mode::Drun.same_mode(&Mode::Drun));
    assert!(custom("a").same_mode(&custom("a")));
    assert!(!custom("a").same_mode(&custom("b")));
    assert!(!custom("drun").same_mode(&Mode::Drun));
}

#[test]
fn text_helpers() {
    assert_eq!(chars_of("héllo"), vec!['h', 'é', 'l', 'l', 'o']);
    assert!(same_text("abc", "abc"));
    assert!(!same_text("abc", "abd"));
    assert!(!same_text("ab", "abc"));
    assert_eq!(compare_text("abc", "abd"), -1);
    assert_eq!(compare_text("abd", "abc"), 1);
    assert_eq!(compare_text("ab", "abc"), -1);
    assert_eq!(compare_text("", ""), 0);
    assert_eq!(compare_text("Z", "a"), -1);
    assert_eq!(compare_text("é", "z"), 1);
}

#[test]
fn entries_compare_field_by_field() {
    let a = entry(1, "b", None);
    let b = entry(2, "a", None);
    assert_eq!(compare_entries(&a, &b), -1);
    assert_eq!(compare_entries(&b, &a), 1);
    let c = entry(1, "b", Some("x"));
    assert_eq!(compare_entries(&a, &c), -1);
    assert_eq!(compare_entries(&a, &a.clone()), 0);
    assert!(same_entry(&c, &c.clone()));
    assert!(!same_entry(&a, &c));
}

#[test]
fn merge_sorts_and_removes_repeats() {
    let old = vec![entry(0, "zeta", None), entry(0, "alpha", None)];
    let batch = vec![entry(0, "beta", None), entry(0, "alpha", None), entry(3, "alpha", None)];
    let merged = merge_entries(old, batch);
    assert_eq!(names(&merged), vec!["alpha", "beta", "zeta", "alpha"]);
    assert_eq!(merged[3].weight, 3);
}

#[test]
fn merge_twice_changes_nothing() {
    let batch = vec![entry(0, "b", None), entry(0, "a", None)];
    let once = merge_entries(vec![entry(0, "c", None)], clone_entries(&batch));
    let twice = merge_entries(clone_entries(&once), batch);
    assert_eq!(names(&once), names(&twice));
    assert_eq!(names(&once), vec!["a", "b", "c"]);
}

#[test]
fn contains_entry_finds_equal_entries() {
    let list = vec![entry(0, "a", None), entry(1, "b", Some("b"))];
    assert!(contains_entry(&list, &entry(1, "b", Some("b"))));
    assert!(!contains_entry(&list, &entry(1, "b", None)));
}

#[test]
fn sort_by_weight_puts_heaviest_first() {
    let sorted = sort_by_weight(vec![entry(1, "a", None), entry(5, "b", None), entry(3, "c", None), entry(5, "d", None)]);
    let weights: Vec<u32> = sorted.iter().map(|e| e.weight).collect();
    assert_eq!(weights, vec![5, 5, 3, 1]);
    let mut n = names(&sorted);
    n.sort();
    assert_eq!(n, vec!["a", "b", "c", "d"]);
}

#[test]
fn table_later_pairs_win() {
    let table = ModeTable::from_pairs(vec![(Mode::Drun, 1u32), (custom("x"), 2), (Mode::Drun, 3)]);
    assert_eq!(table.get(&Mode::Drun), Some(&3));
    assert_eq!(table.get(&custom("x")), Some(&2));
    assert_eq!(table.get(&custom("y")), None);
    let modes = table.modes();
    assert_eq!(modes.len(), 2);
}

#[test]
fn table_set_and_replace() {
    let mut table: ModeTable<u32> = ModeTable::new();
    assert_eq!(table.replace(&Mode::Drun, 7), None);
    assert_eq!(table.get(&Mode::Drun), None);
    table.set(Mode::Drun, 1);
    table.set(custom("a"), 2);
    table.set(Mode::Drun, 4);
    assert_eq!(table.get(&Mode::Drun), Some(&4));
    assert_eq!(table.replace(&custom("a"), 9), Some(2));
    assert_eq!(table.get(&custom("a")), Some(&9));
    assert_eq!(table.modes().len(), 2);
}

#[test]
fn rank_scores_best_first_ties_in_order() {
    let ranked = rank_scores(&vec![Some(5), None, Some(7), Some(5), Some(-1)]);
    assert_eq!(ranked, vec![2, 0, 3, 4]);
    assert_eq!(rank_scores(&vec![None, None]), Vec::<usize>::new());
}

#[test]
fn default_matches_list_every_entry() {
    assert_eq!(all_indices(3), vec![0, 1, 2]);
    let list = vec![entry(0, "a", None), entry(0, "b", None)];
    assert_eq!(default_matches(&list), vec![0, 1]);
}

#[test]
fn get_matches_follows_fuzzy_scores() {
    let list = vec![entry(0, "Terminal", None), entry(0, "Firefox", None), entry(0, "Files", None), entry(0, "fire", None)];
    let matcher = SkimMatcherV2::default().ignore_case();
    let mut expected: Vec<(i64, usize)> = list
        .iter()
        .enumerate()
        .filter_map(|(i, e)| matcher.fuzzy_match(&e.display_name, "fi").map(|s| (s, i)))
        .collect();
    expected.sort_by(|a, b| b.0.cmp(&a.0).then(a.1.cmp(&b.1)));
    let expected: Vec<usize> = expected.into_iter().map(|(_, i)| i).collect();
    let got = get_matches(&list, "fi");
    assert_eq!(got, expected);
    assert!(!got.contains(&0));
    assert_eq!(got.len(), 3);
    assert_eq!(get_matches(&list, ""), vec![0, 1, 2, 3]);
}

#[test]
fn placeholder_is_replaced_everywhere() {
    assert_eq!(replace_placeholder("xdg-open %", "foo bar"), "xdg-open foo bar");
    assert_eq!(replace_placeholder("%-%", "x"), "x-x");
    assert_eq!(replace_placeholder("none", "x"), "none");
}

#[test]
fn desktop_arguments_drop_field_codes() {
    assert_eq!(desktop_arguments("firefox %u --new-window").unwrap(), vec!["firefox", "--new-window"]);
    assert_eq!(desktop_arguments("'my app' \"a b\" %F").unwrap(), vec!["my app", "a b"]);
    assert!(desktop_arguments("foo 'bar").is_none());
}

#[test]
fn custom_arguments_fill_then_split() {
    assert_eq!(custom_arguments("echo '%'", "a b").unwrap(), vec!["echo", "a b"]);
    assert_eq!(custom_arguments("echo %", "a b").unwrap(), vec!["echo", "a", "b"]);
    assert!(custom_arguments("echo \"%", "x").is_none());
}

#[test]
fn find_target_takes_first_of_name() {
    let targets = vec![target("web", "firefox %"), target("web", "other"), target("calc", "qalc %")];
    assert_eq!(find_target(&targets, "web").unwrap(), "firefox %");
    assert_eq!(find_target(&targets, "calc").unwrap(), "qalc %");
    assert!(find_target(&targets, "none").is_none());
}

#[test]
fn select_modes_all_when_none_requested() {
    let modes = select_modes(&vec!["web".to_string(), "calc".to_string()], &vec![]);
    assert_eq!(modes.len(), 3);
    assert!(is_mode(&modes[0], &Mode::Drun));
    assert!(is_mode(&modes[1], &custom("calc")));
    assert!(is_mode(&modes[2], &custom("web")));
}

#[test]
fn select_modes_only_requested() {
    let modes = select_modes(
        &vec!["web".to_string(), "calc".to_string()],
        &vec!["drun".to_string(), "web".to_string(), "unknown".to_string()],
    );
    assert_eq!(modes.len(), 2);
    assert!(is_mode(&modes[0], &Mode::Drun));
    assert!(is_mode(&modes[1], &custom("web")));
}

fn launcher(modes: Vec<Mode>, targets: Vec<ModeTarget>) -> Onagre {
    Onagre::new(modes, targets)
}

fn loaded(o: &mut Onagre, pairs: Vec<(Mode, Vec<Entry>)>) {
    assert_eq!(o.update(Message::Loaded(pairs)), Ok(Action::Nothing));
}

fn matches_of(o: &Onagre, m: &Mode) -> Vec<usize> {
    o.state.entries.mode_matches.get(m).unwrap().clone()
}

fn entries_of(o: &Onagre, m: &Mode) -> Vec<Entry> {
    clone_entries(o.state.entries.mode_entries.get(m).unwrap())
}

#[test]
fn new_launcher_starts_on_first_mode() {
    let o = launcher(vec![custom("web"), Mode::Drun], vec![]);
    assert!(is_mode(o.get_current_mode(), &custom("web")));
    assert_eq!(o.state.line_selected_idx, 0);
    assert_eq!(o.state.mode_subs.len(), 1);
    assert!(!o.search_channel_open);
    assert!(!o.dmenu);
    assert!(o.state.entries.mode_entries.get(&Mode::Drun).is_none());
}

#[test]
fn loaded_entries_list_every_entry() {
    let mut o = launcher(vec![Mode::Drun], vec![]);
    loaded(&mut o, vec![(Mode::Drun, vec![entry(0, "a", Some("a")), entry(0, "b", Some("b"))])]);
    assert_eq!(matches_of(&o, &Mode::Drun), vec![0, 1]);
}

#[test]
fn loaded_without_current_mode_faults() {
    let mut o = launcher(vec![Mode::Drun], vec![]);
    assert_eq!(o.update(Message::Loaded(vec![(custom("x"), vec![])])), Err(Fault::NoEntriesForMode));
    assert!(o.state.entries.mode_entries.get(&Mode::Drun).is_none());
}

#[test]
fn input_changed_sends_search_when_channel_open() {
    let mut o = launcher(vec![Mode::Drun], vec![]);
    assert_eq!(o.update(Message::InputChanged("fi".to_string())), Ok(Action::Nothing));
    assert_eq!(o.state.input_value, "fi");
    assert_eq!(o.update(Message::PopSubscriptionResponse(PopMessage::Message)), Ok(Action::Nothing));
    assert!(!o.search_channel_open);
    assert_eq!(o.update(Message::PopSubscriptionResponse(PopMessage::Ready)), Ok(Action::Nothing));
    assert!(o.search_channel_open);
    assert_eq!(o.update(Message::InputChanged("fir".to_string())), Ok(Action::SendSearch("fir".to_string())));
}

#[test]
fn desktop_entry_joins_once() {
    let mut o = launcher(vec![Mode::Drun], vec![]);
    loaded(&mut o, vec![(Mode::Drun, vec![entry(0, "a", Some("a"))])]);
    assert_eq!(o.update(Message::DesktopEntryEvent(entry(0, "b", Some("b")))), Ok(Action::Nothing));
    assert_eq!(names(&entries_of(&o, &Mode::Drun)), vec!["a", "b"]);
    assert_eq!(matches_of(&o, &Mode::Drun), vec![0, 1]);
    assert_eq!(o.update(Message::DesktopEntryEvent(entry(0, "b", Some("b")))), Ok(Action::Nothing));
    assert_eq!(names(&entries_of(&o, &Mode::Drun)), vec!["a", "b"]);
}

#[test]
fn desktop_entry_without_drun_entries_faults() {
    let mut o = launcher(vec![custom("x")], vec![]);
    loaded(&mut o, vec![(custom("x"), vec![])]);
    assert_eq!(o.update(Message::DesktopEntryEvent(entry(0, "b", None))), Err(Fault::NoEntriesForMode));
}

#[test]
fn custom_batch_merges_into_current_mode() {
    let mut o = launcher(vec![custom("x")], vec![]);
    loaded(&mut o, vec![(custom("x"), vec![entry(0, "c", None)])]);
    let batch = vec![entry(0, "b", None), entry(0, "a", None)];
    assert_eq!(o.update(Message::CustomModeEvent(clone_entries(&batch))), Ok(Action::Nothing));
    assert_eq!(names(&entries_of(&o, &custom("x"))), vec!["a", "b", "c"]);
    assert_eq!(matches_of(&o, &custom("x")), vec![0, 1, 2]);
    assert_eq!(o.update(Message::CustomModeEvent(batch)), Ok(Action::Nothing));
    assert_eq!(names(&entries_of(&o, &custom("x"))), vec!["a", "b", "c"]);
}

#[test]
fn custom_batch_without_entries_faults() {
    let mut o = launcher(vec![custom("x")], vec![]);
    assert_eq!(o.update(Message::CustomModeEvent(vec![entry(0, "a", None)])), Err(Fault::NoEntriesForMode));
}

#[test]
fn up_and_down_move_within_matches() {
    let mut o = launcher(vec![Mode::Drun], vec![]);
    loaded(&mut o, vec![(Mode::Drun, vec![entry(0, "a", None), entry(0, "b", None), entry(0, "c", None)])]);
    assert_eq!(o.update(Message::KeyboardEvent(Key::Up)), Ok(Action::Snap { line_offset: 0, total_items: 3 }));
    assert_eq!(o.state.line_selected_idx, 0);
    assert_eq!(o.update(Message::KeyboardEvent(Key::Down)), Ok(Action::Snap { line_offset: 2, total_items: 3 }));
    assert_eq!(o.update(Message::KeyboardEvent(Key::Down)), Ok(Action::Snap { line_offset: 3, total_items: 3 }));
    assert_eq!(o.update(Message::KeyboardEvent(Key::Down)), Ok(Action::Snap { line_offset: 3, total_items: 3 }));
    assert_eq!(o.state.line_selected_idx, 2);
    assert_eq!(o.update(Message::KeyboardEvent(Key::Up)), Ok(Action::Snap { line_offset: 2, total_items: 3 }));
    assert_eq!(o.state.line_selected_idx, 1);
}

#[test]
fn down_then_up_returns_to_line() {
    let mut o = launcher(vec![Mode::Drun], vec![]);
    loaded(&mut o, vec![(Mode::Drun, vec![entry(0, "a", None), entry(0, "b", None)])]);
    let before = o.state.line_selected_idx;
    o.update(Message::KeyboardEvent(Key::Down)).unwrap();
    o.update(Message::KeyboardEvent(Key::Up)).unwrap();
    assert_eq!(o.state.line_selected_idx, before);
}

#[test]
fn keys_without_matches_fault() {
    let mut o = launcher(vec![Mode::Drun], vec![]);
    assert_eq!(o.update(Message::KeyboardEvent(Key::Up)), Err(Fault::NoMatchesForMode));
    assert_eq!(o.update(Message::KeyboardEvent(Key::Down)), Err(Fault::NoMatchesForMode));
    assert_eq!(o.update(Message::KeyboardEvent(Key::Enter)), Err(Fault::NoMatchesForMode));
}

#[test]
fn tab_cycles_and_comes_round() {
    let mut o = launcher(vec![Mode::Drun, custom("a"), custom("b")], vec![]);
    assert_eq!(o.update(Message::KeyboardEvent(Key::Tab)), Ok(Action::Nothing));
    assert_eq!(o.state.current_mode_idx, 1);
    assert_eq!(o.update(Message::KeyboardEvent(Key::Tab)), Ok(Action::Nothing));
    assert_eq!(o.state.current_mode_idx, 2);
    assert_eq!(o.update(Message::KeyboardEvent(Key::Tab)), Ok(Action::Nothing));
    assert_eq!(o.state.current_mode_idx, 0);
    assert_eq!(o.state.mode_subs.len(), 3);
}

#[test]
fn escape_and_other_keys() {
    let mut o = launcher(vec![Mode::Drun], vec![]);
    assert_eq!(o.update(Message::KeyboardEvent(Key::Escape)), Ok(Action::Exit));
    assert_eq!(o.update(Message::KeyboardEvent(Key::Other)), Ok(Action::Nothing));
}

#[test]
fn enter_launches_desktop_entry_and_counts_it() {
    let mut o = launcher(vec![Mode::Drun], vec![]);
    loaded(&mut o, vec![(Mode::Drun, vec![entry(2, "Firefox", Some("firefox %u")), entry(0, "b", Some("b"))])]);
    assert_eq!(o.update(Message::KeyboardEvent(Key::Enter)), Ok(Action::Launch(vec!["firefox".to_string()])));
    assert_eq!(entries_of(&o, &Mode::Drun)[0].weight, 3);
    assert_eq!(entries_of(&o, &Mode::Drun)[1].weight, 0);
}

#[test]
fn enter_launches_custom_entry_with_placeholder() {
    let mut o = launcher(vec![custom("web")], vec![target("web", "firefox --search %")]);
    loaded(&mut o, vec![(custom("web"), vec![entry(0, "cats", None)])]);
    assert_eq!(
        o.update(Message::KeyboardEvent(Key::Enter)),
        Ok(Action::Launch(vec!["firefox".to_string(), "--search".to_string(), "cats".to_string()]))
    );
    assert_eq!(entries_of(&o, &custom("web"))[0].weight, 1);
}

#[test]
fn enter_launches_typed_text_without_matches() {
    let mut o = launcher(vec![custom("web")], vec![target("web", "firefox %")]);
    loaded(&mut o, vec![(custom("web"), vec![])]);
    o.update(Message::InputChanged("dogs".to_string())).unwrap();
    assert_eq!(
        o.update(Message::KeyboardEvent(Key::Enter)),
        Ok(Action::Launch(vec!["firefox".to_string(), "dogs".to_string()]))
    );
    let list = entries_of(&o, &custom("web"));
    assert_eq!(list.len(), 1);
    assert_eq!(list[0].display_name, "dogs");
    assert_eq!(list[0].weight, 1);
    assert!(list[0].exec_line.is_none());
}

#[test]
fn enter_faults() {
    // The desktop-entry mode has no command of its own for typed text.
    let mut o = launcher(vec![Mode::Drun], vec![]);
    loaded(&mut o, vec![(Mode::Drun, vec![])]);
    assert_eq!(o.update(Message::KeyboardEvent(Key::Enter)), Err(Fault::UnknownMode));

    let mut o = launcher(vec![Mode::Drun], vec![]);
    loaded(&mut o, vec![(Mode::Drun, vec![entry(0, "x", None)])]);
    assert_eq!(o.update(Message::KeyboardEvent(Key::Enter)), Err(Fault::NoCommandLine));

    let mut o = launcher(vec![Mode::Drun], vec![]);
    loaded(&mut o, vec![(Mode::Drun, vec![entry(0, "x", Some("app 'open"))])]);
    assert_eq!(o.update(Message::KeyboardEvent(Key::Enter)), Err(Fault::UnparsableCommand));

    let mut o = launcher(vec![Mode::Drun], vec![]);
    loaded(&mut o, vec![(Mode::Drun, vec![entry(0, "x", Some("%f"))])]);
    assert_eq!(o.update(Message::KeyboardEvent(Key::Enter)), Err(Fault::EmptyCommand));

    let mut o = launcher(vec![Mode::Drun], vec![]);
    loaded(&mut o, vec![(Mode::Drun, vec![entry(u32::MAX, "x", Some("x"))])]);
    assert_eq!(o.update(Message::KeyboardEvent(Key::Enter)), Err(Fault::WeightOverflow));
    assert_eq!(entries_of(&o, &Mode::Drun)[0].weight, u32::MAX);

    let mut o = launcher(vec![Mode::Drun], vec![]);
    loaded(&mut o, vec![(Mode::Drun, vec![entry(0, "a", Some("a")), entry(0, "b", Some("b"))])]);
    o.update(Message::KeyboardEvent(Key::Down)).unwrap();
    loaded(&mut o, vec![(Mode::Drun, vec![entry(0, "a", Some("a"))])]);
    assert_eq!(o.update(Message::KeyboardEvent(Key::Enter)), Err(Fault::SelectionOutOfRange));
}

#[test]
fn flush_all_lists_modes_heaviest_first() {
    let mut o = launcher(vec![Mode::Drun, custom("x")], vec![]);
    loaded(&mut o, vec![
        (Mode::Drun, vec![entry(1, "a", None), entry(4, "b", None)]),
        (custom("x"), vec![entry(2, "c", None)]),
        (Mode::Drun, vec![entry(0, "d", None), entry(9, "e", None)]),
    ]);
    let plan = o.flush_all();
    assert_eq!(plan.len(), 2);
    for (mode, entries) in plan {
        if mode.same_mode(&Mode::Drun) {
            assert_eq!(names(&entries), vec!["e", "d"]);
        } else {
            assert_eq!(names(&entries), vec!["c"]);
        }
    }
}

#[test]
fn pop_request_from_launcher_request() {
    assert!(matches!(PopRequest::from(Request::Quit(3)), PopRequest::Exit));
    assert!(matches!(PopRequest::from(Request::Activate(2)), PopRequest::Activate(2)));
    assert!(matches!(PopRequest::from(Request::ActivateContext { id: 1, context: 4 }), PopRequest::ActivateContext { id: 1, context: 4 }));
    assert!(matches!(PopRequest::from(Request::Complete(5)), PopRequest::Complete(5)));
    assert!(matches!(PopRequest::from(Request::Context(6)), PopRequest::Context(6)));
    assert!(matches!(PopRequest::from(Request::Exit), PopRequest::Exit));
    assert!(matches!(PopRequest::from(Request::Interrupt), PopRequest::Interrupt));
    match PopRequest::from(Request::Search("fire".to_string())) {
        PopRequest::Search(q) => assert_eq!(q, "fire"),
        _ => panic!("expected a search"),
    }
    assert!(matches!(PopRequest::Quit(1).normalize(), PopRequest::Exit));
}

#[test]
fn mode_menu_marks_current_mode() {
    let mut o = launcher(vec![Mode::Drun, custom("web")], vec![]);
    o.update(Message::KeyboardEvent(Key::Tab)).unwrap();
    let menu = o.build_mode_menu();
    assert_eq!(menu, vec![("Drun".to_string(), false), ("web".to_string(), true)]);
}

#[test]
fn match_rows_follow_matches_and_selection() {
    let mut o = launcher(vec![Mode::Drun], vec![]);
    assert_eq!(o.match_rows().unwrap().len(), 0);
    loaded(&mut o, vec![(Mode::Drun, vec![entry(0, "a", None), entry(0, "b", None)])]);
    o.update(Message::KeyboardEvent(Key::Down)).unwrap();
    let rows = o.match_rows().unwrap();
    assert_eq!(rows.len(), 2);
    assert_eq!(rows[0].0.display_name, "a");
    assert!(!rows[0].1);
    assert_eq!(rows[1].0.display_name, "b");
    assert!(rows[1].1);
    o.reset_selection();
    assert_eq!(o.state.line_selected_idx, 0);
    assert!(o.match_rows().unwrap()[0].1);
}

#[test]
fn stale_matches_fault() {
    let mut o = launcher(vec![custom("x"), custom("y")], vec![target("x", "run %")]);
    loaded(&mut o, vec![(custom("x"), vec![entry(0, "a", None), entry(0, "b", None)]), (custom("y"), vec![])]);
    o.update(Message::KeyboardEvent(Key::Tab)).unwrap();
    loaded(&mut o, vec![(custom("x"), vec![entry(0, "a", None)]), (custom("y"), vec![])]);
    o.update(Message::KeyboardEvent(Key::Tab)).unwrap();
    assert_eq!(o.match_rows().unwrap_err(), Fault::MatchOutOfRange);
    // The stale match 1 names no entry any more: Enter on it takes the typed text.
    o.update(Message::KeyboardEvent(Key::Down)).unwrap();
    assert_eq!(o.update(Message::KeyboardEvent(Key::Enter)), Ok(Action::Launch(vec!["run".to_string()])));
}

#[test]
fn matches_without_entries_fault() {
    let mut o = launcher(vec![custom("x"), custom("y")], vec![]);
    loaded(&mut o, vec![(custom("x"), vec![entry(0, "a", None)]), (custom("y"), vec![])]);
    o.update(Message::KeyboardEvent(Key::Tab)).unwrap();
    loaded(&mut o, vec![(custom("y"), vec![])]);
    o.update(Message::KeyboardEvent(Key::Tab)).unwrap();
    assert!(is_mode(o.get_current_mode(), &custom("x")));
    assert_eq!(o.match_rows().unwrap_err(), Fault::NoEntriesForMode);
    assert_eq!(o.update(Message::KeyboardEvent(Key::Enter)), Err(Fault::NoEntriesForMode));
}

#[test]
fn typed_text_in_custom_mode_without_entries_faults() {
    let mut o = launcher(vec![custom("x"), custom("y")], vec![target("x", "run %")]);
    loaded(&mut o, vec![(custom("x"), vec![]), (custom("y"), vec![])]);
    o.update(Message::KeyboardEvent(Key::Tab)).unwrap();
    loaded(&mut o, vec![(custom("y"), vec![])]);
    o.update(Message::KeyboardEvent(Key::Tab)).unwrap();
    assert_eq!(o.update(Message::KeyboardEvent(Key::Enter)), Err(Fault::NoEntriesForMode));
}

#[test]
fn search_matches_after_typing_and_new_entries() {
    let mut o = launcher(vec![custom("x")], vec![]);
    loaded(&mut o, vec![(custom("x"), vec![entry(0, "alpha", None)])]);
    o.update(Message::InputChanged("zz".to_string())).unwrap();
    o.update(Message::CustomModeEvent(vec![entry(0, "beta", None)])).unwrap();
    assert_eq!(matches_of(&o, &custom("x")), Vec::<usize>::new());
    o.update(Message::InputChanged("be".to_string())).unwrap();
    o.update(Message::CustomModeEvent(vec![entry(0, "gamma", None)])).unwrap();
    assert_eq!(matches_of(&o, &custom("x")), vec![1]);
}

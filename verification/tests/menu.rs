use podstats::util::{MenuAction, MenuKey, MenuStep, Prompt};

#[test]
fn menu_keys_build_the_answer() {
    let p = Prompt {};
    let mut typed = String::new();
    assert_eq!(p.menu_step(&mut typed, MenuKey::Char('1')), MenuStep::Echo('1'));
    assert_eq!(p.menu_step(&mut typed, MenuKey::Alt('x')), MenuStep::Ignore);
    assert_eq!(p.menu_step(&mut typed, MenuKey::Other), MenuStep::Ignore);
    assert_eq!(p.menu_step(&mut typed, MenuKey::Ctrl('a')), MenuStep::Ignore);
    assert_eq!(p.menu_step(&mut typed, MenuKey::Char('2')), MenuStep::Echo('2'));
    assert_eq!(typed, "12");
    assert_eq!(p.menu_step(&mut typed, MenuKey::Char('\n')), MenuStep::Submit);
    assert_eq!(typed, "12");
}

#[test]
fn menu_quit_keys() {
    let p = Prompt {};
    let mut typed = String::from("3");
    assert_eq!(p.menu_step(&mut typed, MenuKey::Char('q')), MenuStep::Quit);
    assert_eq!(p.menu_step(&mut typed, MenuKey::Ctrl('c')), MenuStep::Quit);
    assert_eq!(p.menu_step(&mut typed, MenuKey::Ctrl('d')), MenuStep::Quit);
    assert_eq!(typed, "3");
}

#[test]
fn menu_choice_reads_numbers() {
    let p = Prompt {};
    assert_eq!(p.menu_choice("4"), Some(4));
    assert_eq!(p.menu_choice("+12"), Some(12));
    assert_eq!(p.menu_choice("007"), Some(7));
    assert_eq!(p.menu_choice(""), None);
    assert_eq!(p.menu_choice("+"), None);
    assert_eq!(p.menu_choice("-1"), None);
    assert_eq!(p.menu_choice(" 1"), None);
    assert_eq!(p.menu_choice("1a"), None);
    assert_eq!(p.menu_choice("99999999999999999999999999"), None);
}

#[test]
fn menu_numbers_select_statistics() {
    let p = Prompt {};
    assert_eq!(p.menu_action(1), MenuAction::Names);
    assert_eq!(p.menu_action(2), MenuAction::EntryCounts);
    assert_eq!(p.menu_action(3), MenuAction::HighestEntryCountSub);
    assert_eq!(p.menu_action(4), MenuAction::HighestEntryCountSubName);
    assert_eq!(p.menu_action(5), MenuAction::EarliestEntryNames);
    assert_eq!(p.menu_action(6), MenuAction::LatestEntryNames);
    assert_eq!(p.menu_action(0), MenuAction::Invalid);
    assert_eq!(p.menu_action(7), MenuAction::Invalid);
}

#[test]
fn menu_choice_agrees_with_std_at_the_edges() {
    let p = Prompt {};
    let max = usize::MAX.to_string();
    assert_eq!(p.menu_choice(&max), Some(usize::MAX));
    let over = format!("{}0", max);
    assert_eq!(p.menu_choice(&over), None);
    for s in ["0", "+0", "++1", "1+", "٣", "3٣", "\u{0}", "10", "+0009", &max, &over] {
        assert_eq!(p.menu_choice(s), s.parse::<usize>().ok(), "{:?}", s);
    }
}

#[test]
fn menu_answer_falls_back_to_zero() {
    let p = Prompt {};
    assert_eq!(p.menu_answer("5"), 5);
    assert_eq!(p.menu_answer("+2"), 2);
    assert_eq!(p.menu_answer("five"), 0);
    assert_eq!(p.menu_answer(""), 0);
}

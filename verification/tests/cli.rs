use spaced_recall::{due_cards, parse_flags, Card, Deck};

fn args(list: &[&str]) -> Vec<String> {
    list.iter().map(|a| a.to_string()).collect()
}

fn card(interval_days: u32, repetitions: u32, ease: f64, due_on: u32) -> Card {
    Card {
        interval_days,
        repetitions,
        ease: ease.to_string(),
        due_on,
    }
}

#[test]
fn due_cards_excludes_future_cards_and_sorts_by_date_then_name() {
    let mut deck = Deck::new();
    deck.cards.insert("not due yet".to_string(), Card::new(20));
    deck.cards.insert("zebra".to_string(), card(1, 1, 2.5, 10));
    deck.cards.insert("apple".to_string(), card(1, 1, 2.5, 10));
    deck.cards.insert("overdue".to_string(), Card::new(5));

    let due = due_cards(&deck, 10);
    let names: Vec<&str> = due.iter().map(|(name, _)| name.as_str()).collect();
    assert_eq!(names, vec!["overdue", "apple", "zebra"]);
}

#[test]
fn due_cards_is_empty_for_an_empty_deck() {
    let deck = Deck::new();
    assert!(due_cards(&deck, 100).is_empty());
}

#[test]
fn due_cards_includes_a_card_due_today_and_pairs_names_with_cards() {
    let mut deck = Deck::new();
    deck.cards.insert("b".to_string(), Card::new(3));
    deck.cards.insert("a".to_string(), Card::new(4));
    deck.cards.insert("c".to_string(), Card::new(3));
    let due = due_cards(&deck, 3);
    assert_eq!(due.len(), 2);
    assert_eq!(due[0].0, "b");
    assert_eq!(due[0].1.due_on, 3);
    assert_eq!(due[1].0, "c");
    assert!(due_cards(&deck, 2).is_empty());
}

#[test]
fn flags_are_name_value_pairs_and_lenient_is_a_switch() {
    let flags = parse_flags(&args(&["--today", "12", "--lenient", "--grade", "4"])).unwrap();
    assert_eq!(flags.get_str("today").unwrap(), "12");
    assert_eq!(flags.get_u32("today").unwrap(), 12);
    assert_eq!(flags.get_u8("grade").unwrap(), 4);
    assert!(flags.has_switch("lenient"));
    assert!(!flags.has_switch("today"));
}

#[test]
fn a_flag_takes_the_next_argument_whatever_it_is() {
    let flags = parse_flags(&args(&["--deck", "--today", "--x", "1"])).unwrap();
    assert_eq!(flags.get_str("deck").unwrap(), "--today");
    assert_eq!(flags.get_str("x").unwrap(), "1");
}

#[test]
fn the_first_of_two_values_for_a_flag_wins() {
    let flags = parse_flags(&args(&["--today", "1", "--today", "2"])).unwrap();
    assert_eq!(flags.get_u32("today").unwrap(), 1);
}

#[test]
fn flag_errors_say_what_is_wrong() {
    assert_eq!(
        parse_flags(&args(&["today", "1"])).err().unwrap(),
        "unexpected argument: today"
    );
    assert_eq!(
        parse_flags(&args(&["--today"])).err().unwrap(),
        "--today needs a value"
    );
    let flags = parse_flags(&args(&["--today", "x", "--grade", "256"])).unwrap();
    assert_eq!(
        flags.get_str("deck").err().unwrap(),
        "missing required flag --deck"
    );
    assert_eq!(
        flags.get_u32("deck").err().unwrap(),
        "missing required flag --deck"
    );
    assert_eq!(
        flags.get_u32("today").err().unwrap(),
        "--today must be a whole number"
    );
    assert_eq!(
        flags.get_u8("grade").err().unwrap(),
        "--grade must be a number from 0 to 255"
    );
    assert_eq!(flags.get_u32("grade").unwrap(), 256);
}

#[test]
fn an_empty_command_line_has_no_flags() {
    let flags = parse_flags(&Vec::new()).unwrap();
    assert!(flags.values.is_empty());
    assert!(flags.switches.is_empty());
}

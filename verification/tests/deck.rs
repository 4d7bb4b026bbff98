use spaced_recall::{parse_json, Card, Deck, DeckError};

/// The whole numbers among the non-integer number literals of `text`, as
/// the command line computes them with `f64`.
fn whole_numbers(text: &str) -> Vec<(String, u32)> {
    let mut table = Vec::new();
    if let Ok(value) = parse_json(text) {
        for literal in value.number_literals() {
            if let Ok(n) = literal.parse::<f64>() {
                if n.fract() == 0.0 && n >= 0.0 && n <= u32::MAX as f64 {
                    table.push((literal, n as u32));
                }
            }
        }
    }
    table
}

/// The text Rust writes for the `f64` each literal stands for.
fn shortest(literals: Vec<String>) -> Vec<(String, String)> {
    literals
        .into_iter()
        .filter_map(|l| l.parse::<f64>().ok().map(|x| (l, x.to_string())))
        .collect()
}

fn json_eases(text: &str) -> Vec<(String, String)> {
    match parse_json(text) {
        Ok(value) => shortest(value.number_literals()),
        Err(_) => Vec::new(),
    }
}

fn from_json(text: &str) -> Result<Deck, String> {
    Deck::from_json(text, &whole_numbers(text), &json_eases(text))
}

/// Reads plain text with its eases as Rust writes their `f64` values: a
/// first reading finds the ease literals.
fn from_text(text: &str) -> Result<Deck, DeckError> {
    let raw = Deck::from_text(text, &Vec::new())?;
    let mut literals = Vec::new();
    for i in 0..raw.cards.len() {
        literals.push(raw.cards.entry(i).1.ease.clone());
    }
    Deck::from_text(text, &shortest(literals))
}

fn card(interval_days: u32, repetitions: u32, ease: f64, due_on: u32) -> Card {
    Card {
        interval_days,
        repetitions,
        ease: ease.to_string(),
        due_on,
    }
}

#[test]
fn round_trips_a_deck_through_json() {
    let mut deck = Deck::new();
    deck.cards
        .insert("capital of peru".to_string(), card(6, 2, 2.5, 110));
    deck.cards
        .insert("\"quoted\" and \\ backslash".to_string(), Card::new(0));

    let json = deck.to_json();
    let restored = from_json(&json).unwrap();
    assert_eq!(restored, deck);
}

#[test]
fn loading_a_missing_file_gives_an_empty_deck() {
    let loaded = Deck::from_file(None, &Vec::new(), &Vec::new()).unwrap();
    assert_eq!(loaded, Deck::new());
}

#[test]
fn rejects_a_card_missing_a_field() {
    let err = from_json(r#"{"cards":{"x":{"interval_days":1,"repetitions":0,"ease":2.5}}}"#)
        .unwrap_err();
    assert!(err.contains("due_on"));
}

#[test]
fn rejects_malformed_json() {
    let err = from_json("not json").unwrap_err();
    assert!(!err.is_empty());
}

#[test]
fn rejects_a_non_integer_due_date() {
    let err = from_json(
        r#"{"cards":{"x":{"interval_days":1,"repetitions":0,"ease":2.5,"due_on":1.5}}}"#,
    )
    .unwrap_err();
    assert!(err.contains("due_on"));
}

#[test]
fn round_trips_a_deck_through_plain_text() {
    let mut deck = Deck::new();
    deck.cards
        .insert("capital of peru".to_string(), card(6, 2, 2.5, 110));
    deck.cards.insert("second card".to_string(), Card::new(0));

    let text = deck.to_text().unwrap();
    let restored = from_text(&text).unwrap();
    assert_eq!(restored, deck);
}

#[test]
fn plain_text_skips_blank_lines() {
    let deck = from_text("front\t1\t1\t2.5\t10\n\n\n").unwrap();
    assert_eq!(deck.cards.len(), 1);
}

#[test]
fn plain_text_rejects_a_line_with_the_wrong_number_of_fields() {
    let err = from_text("front\t1\t1\t2.5\n").unwrap_err();
    match err {
        DeckError::Parse(msg) => assert!(msg.contains("5 tab-separated fields")),
        other => panic!("expected a parse error, got {other:?}"),
    }
}

#[test]
fn plain_text_rejects_a_malformed_number_field() {
    let err = from_text("front\tnot-a-number\t1\t2.5\t10\n").unwrap_err();
    match err {
        DeckError::Parse(msg) => assert!(msg.contains("interval_days")),
        other => panic!("expected a parse error, got {other:?}"),
    }
}

#[test]
fn plain_text_rejects_a_duplicate_card_name() {
    let err = from_text("front\t1\t1\t2.5\t10\nfront\t2\t2\t2.5\t20\n").unwrap_err();
    match err {
        DeckError::Parse(msg) => assert!(msg.contains("duplicate")),
        other => panic!("expected a parse error, got {other:?}"),
    }
}

#[test]
fn plain_text_export_rejects_a_name_with_a_tab() {
    let mut deck = Deck::new();
    deck.cards.insert("bad\tname".to_string(), Card::new(0));

    let err = deck.to_text().unwrap_err();
    match err {
        DeckError::InvalidName(name) => assert_eq!(name, "bad\tname"),
        other => panic!("expected an invalid name error, got {other:?}"),
    }
}

#[test]
fn json_is_written_in_name_order_with_escapes() {
    let mut deck = Deck::new();
    deck.cards.insert("b".to_string(), card(1, 1, 2.5, 3));
    deck.cards.insert("a\n\u{1}".to_string(), Card::new(7));
    assert_eq!(
        deck.to_json(),
        "{\"cards\":{\"a\\n\\u0001\":{\"interval_days\":0,\"repetitions\":0,\"ease\":2.5,\"due_on\":7},\
         \"b\":{\"interval_days\":1,\"repetitions\":1,\"ease\":2.5,\"due_on\":3}}}"
    );
}

#[test]
fn an_empty_deck_is_an_empty_cards_object() {
    assert_eq!(Deck::new().to_json(), "{\"cards\":{}}");
    assert_eq!(from_json("{\"cards\":{}}").unwrap(), Deck::new());
    assert_eq!(Deck::new().to_text().unwrap(), "");
}

#[test]
fn plain_text_is_one_tab_separated_line_per_card() {
    let mut deck = Deck::new();
    deck.cards.insert("zeta".to_string(), card(6, 2, 2.5, 110));
    deck.cards.insert("alpha".to_string(), Card::new(4));
    assert_eq!(
        deck.to_text().unwrap(),
        "alpha\t0\t0\t2.5\t4\nzeta\t6\t2\t2.5\t110\n"
    );
}

#[test]
fn plain_text_accepts_crlf_line_ends_and_a_signed_count() {
    let deck = from_text("front\t+1\t2\t2.5\t10\r\nback\t3\t4\t1e0\t20").unwrap();
    assert_eq!(deck.cards.len(), 2);
    let front = deck.cards.get("front").unwrap();
    assert_eq!(front.interval_days, 1);
    assert_eq!(front.repetitions, 2);
    assert_eq!(front.ease, "2.5");
    assert_eq!(front.due_on, 10);
    assert_eq!(deck.cards.get("back").unwrap().ease, "1");
}

#[test]
fn plain_text_errors_name_the_line_and_field() {
    let err = from_text("a\t1\t1\t2.5\t10\n\tx\n").unwrap_err();
    assert_eq!(
        err,
        DeckError::Parse("line 2: expected 5 tab-separated fields, got 2".to_string())
    );
    let err = from_text("a\t1\t1\tfast\t10\n").unwrap_err();
    assert_eq!(
        err,
        DeckError::Parse("line 1: field \"ease\" is malformed".to_string())
    );
    let err = from_text("a\t1\t1\t2.5\t4294967296\n").unwrap_err();
    assert_eq!(
        err,
        DeckError::Parse("line 1: field \"due_on\" is malformed".to_string())
    );
    let err = from_text("x\t1\t1\t2.5\t10\nx\t1\t1\t2.5\t10\n").unwrap_err();
    assert_eq!(
        err,
        DeckError::Parse("line 2: duplicate card name \"x\"".to_string())
    );
}

#[test]
fn deck_errors_describe_the_problem() {
    assert_eq!(
        DeckError::Parse("oops".to_string()).message(),
        "malformed deck file: oops"
    );
    assert_eq!(
        DeckError::InvalidName("a\tb".to_string()).message(),
        "card name \"a\tb\" contains a tab or newline, which the plain text format uses as a field separator"
    );
}

#[test]
fn a_deck_file_is_read_as_json() {
    let text = "{\"cards\":{\"x\":{\"interval_days\":1,\"repetitions\":0,\"ease\":2.5,\"due_on\":9}}}";
    let deck = Deck::from_file(Some(text), &whole_numbers(text), &json_eases(text)).unwrap();
    assert_eq!(deck.cards.get("x").unwrap().due_on, 9);
    let err = Deck::from_file(Some("[]"), &Vec::new(), &Vec::new()).unwrap_err();
    assert_eq!(
        err,
        DeckError::Parse("unexpected character '['".to_string())
    );
}

#[test]
fn json_numbers_that_are_whole_count_as_whole() {
    let text = "{\"cards\":{\"x\":{\"interval_days\":1.0,\"repetitions\":-0,\"ease\":25e-1,\"due_on\":4294967295}}}";
    let deck = from_json(text).unwrap();
    let x = deck.cards.get("x").unwrap();
    assert_eq!(x.interval_days, 1);
    assert_eq!(x.repetitions, 0);
    assert_eq!(x.ease, "2.5");
    assert_eq!(x.due_on, u32::MAX);
    let err = from_json(
        "{\"cards\":{\"x\":{\"interval_days\":1,\"repetitions\":0,\"ease\":2.5,\"due_on\":4294967296}}}",
    )
    .unwrap_err();
    assert_eq!(
        err,
        "field \"due_on\" must be a whole number that fits in u32"
    );
}

#[test]
fn json_errors_are_reported_as_the_reader_finds_them() {
    assert_eq!(from_json("").unwrap_err(), "unexpected end of input");
    assert_eq!(
        from_json("{\"cards\":{}} x").unwrap_err(),
        "trailing data after the top-level object"
    );
    assert_eq!(from_json("{}").unwrap_err(), "missing \"cards\" key");
    assert_eq!(
        from_json("{\"cards\":1}").unwrap_err(),
        "\"cards\" must be an object"
    );
    assert_eq!(
        from_json("\"deck\"").unwrap_err(),
        "expected the top-level value to be an object"
    );
    assert_eq!(
        from_json("{\"cards\":{\"x\":2}}").unwrap_err(),
        "expected a card to be an object"
    );
    assert_eq!(
        from_json("{\"cards\":{\"x\":{\"interval_days\":\"1\"}}}").unwrap_err(),
        "field \"interval_days\" must be a number"
    );
    assert_eq!(
        from_json("{\"cards\" 1}").unwrap_err(),
        "expected ':' at byte offset 9"
    );
    assert_eq!(
        from_json("{\"cards\":{} ]").unwrap_err(),
        "expected ',' or '}' at byte offset 12"
    );
    assert_eq!(from_json("{\"a\\q\":1}").unwrap_err(), "invalid escape '\\q'");
    assert_eq!(from_json("{\"a").unwrap_err(), "unterminated string");
    assert_eq!(from_json("-").unwrap_err(), "invalid number literal '-'");
}

#[test]
fn json_string_escapes_decode_to_characters() {
    let text = "{\"cards\":{\"caf\\u00e9 \\ud83d\\ude00\\t\\/\":{\"interval_days\":1,\"repetitions\":0,\"ease\":2.5,\"due_on\":9}}}";
    let deck = from_json(text).unwrap();
    assert!(deck.cards.get("caf\u{e9} \u{1f600}\t/").is_some());
    assert_eq!(
        from_json("{\"\\ud800\":1}").unwrap_err(),
        "unpaired utf-16 surrogate"
    );
    assert_eq!(
        from_json("{\"\\ud800\\u0041\":1}").unwrap_err(),
        "invalid low surrogate"
    );
    assert_eq!(
        from_json("{\"\\udc00\":1}").unwrap_err(),
        "invalid unicode escape"
    );
    assert_eq!(
        from_json("{\"\\u12\":1}").unwrap_err(),
        "invalid unicode escape"
    );
}

#[test]
fn a_card_stored_twice_in_json_keeps_the_last() {
    let text = "{\"cards\":{\"x\":{\"interval_days\":1,\"repetitions\":0,\"ease\":2.5,\"due_on\":1},\
                \"x\":{\"interval_days\":2,\"repetitions\":0,\"ease\":2.5,\"due_on\":2}}}";
    let deck = from_json(text).unwrap();
    assert_eq!(deck.cards.len(), 1);
    assert_eq!(deck.cards.get("x").unwrap().due_on, 2);
}

#[test]
fn the_card_map_reads_back_what_was_stored() {
    let mut deck = Deck::new();
    assert_eq!(deck.cards.insert("b".to_string(), Card::new(1)), None);
    assert_eq!(
        deck.cards.insert("b".to_string(), Card::new(2)),
        Some(Card::new(1))
    );
    deck.cards.insert("a".to_string(), Card::new(3));
    assert_eq!(deck.cards.get("b"), Some(&Card::new(2)));
    assert_eq!(deck.cards.remove("b"), Some(Card::new(2)));
    assert_eq!(deck.cards.get("b"), None);
    assert_eq!(deck.cards.len(), 1);
    let (name, card) = deck.cards.entry(0);
    assert_eq!(name, "a");
    assert_eq!(card.due_on, 3);
}

#[test]
fn a_trailing_line_break_changes_nothing() {
    let text = "a\t1\t1\t2.5\t10";
    let plain = from_text(text).unwrap();
    assert_eq!(from_text(&format!("{text}\n")).unwrap(), plain);
    assert_eq!(from_text(&format!("{text}\n\n")).unwrap(), plain);
    // a carriage return only ends a line when a line feed follows it
    let err = from_text(&format!("{text}\r")).unwrap_err();
    assert_eq!(
        err,
        DeckError::Parse("line 1: field \"due_on\" is malformed".to_string())
    );
    assert_eq!(from_text(&format!("{text}\r\n")).unwrap(), plain);
}

#[test]
fn a_unicode_escape_may_carry_a_plus_sign() {
    let text = "{\"cards\":{\"\\u+041\":{\"interval_days\":1,\"repetitions\":0,\"ease\":2.5,\"due_on\":9}}}";
    let deck = from_json(text).unwrap();
    assert!(deck.cards.get("A").is_some());
}

#[test]
fn eases_are_read_as_the_value_they_stand_for() {
    let a = from_text("x\t1\t1\t2.5\t10\n").unwrap();
    let b = from_text("x\t1\t1\t2.50\t10\n").unwrap();
    assert_eq!(a, b);
    assert_eq!(b.to_text().unwrap(), "x\t1\t1\t2.5\t10\n");
    let j = from_json("{\"cards\":{\"x\":{\"interval_days\":1,\"repetitions\":1,\"ease\":2.50,\"due_on\":10}}}")
        .unwrap();
    assert_eq!(j, a);
    // a literal the table does not list is kept as written
    let raw = Deck::from_text("x\t1\t1\t2.50\t10\n", &Vec::new()).unwrap();
    assert_eq!(raw.cards.get("x").unwrap().ease, "2.50");
    let listed = Deck::from_text(
        "x\t1\t1\t2.50\t10\n",
        &vec![("2.50".to_string(), "2.5".to_string())],
    )
    .unwrap();
    assert_eq!(listed, a);
}

#[test]
fn json_is_the_same_whatever_order_the_cards_were_stored_in() {
    let mut d1 = Deck::new();
    d1.cards.insert("b".to_string(), Card::new(1));
    d1.cards.insert("a".to_string(), Card::new(2));
    d1.cards.insert("c".to_string(), Card::new(3));
    let mut d2 = Deck::new();
    d2.cards.insert("c".to_string(), Card::new(3));
    d2.cards.insert("a".to_string(), Card::new(2));
    d2.cards.insert("b".to_string(), Card::new(1));
    assert_eq!(d1.to_json(), d2.to_json());
    let json = d1.to_json();
    assert!(json.find("\"a\"").unwrap() < json.find("\"b\"").unwrap());
    assert!(json.find("\"b\"").unwrap() < json.find("\"c\"").unwrap());
}

#[test]
fn a_card_with_an_empty_name_reads_back_from_plain_text() {
    let mut deck = Deck::new();
    deck.cards.insert(String::new(), Card::new(0));
    deck.cards.insert("b".to_string(), Card::new(1));
    let text = deck.to_text().unwrap();
    assert_eq!(text, "\t0\t0\t2.5\t0\nb\t0\t0\t2.5\t1\n");
    assert_eq!(from_text(&text).unwrap(), deck);
}

#[test]
fn a_deck_clones_and_defaults_to_empty() {
    let mut deck = Deck::default();
    assert_eq!(deck, Deck::new());
    deck.cards.insert("a".to_string(), Card::new(3));
    let copy = deck.clone();
    assert_eq!(copy, deck);
    assert!(copy.cards.contains_key("a"));
    assert!(!copy.cards.contains_key("b"));
}

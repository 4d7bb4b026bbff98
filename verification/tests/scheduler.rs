use spaced_recall::{Card, EaseFacts, Rating, ScheduleError, Scheduler, MAX_GRADE, PASSING_GRADE};

const MIN_EASE: f64 = 1.3;

/// The floating-point results a review needs, as the command line computes
/// them from the card's ease factor.
fn facts(card: &Card, grade: u8) -> EaseFacts {
    let ease: f64 = card.ease.parse().unwrap();
    let g = grade.min(MAX_GRADE) as f64;
    let delta = 0.1 - (5.0 - g) * (0.08 + (5.0 - g) * 0.02);
    EaseFacts {
        below_floor: ease < MIN_EASE,
        interval_at_ease: (card.interval_days as f64 * ease).round() as u32,
        interval_at_floor: (card.interval_days as f64 * MIN_EASE).round() as u32,
        next_ease: (ease + delta).max(MIN_EASE).to_string(),
        next_ease_at_floor: (MIN_EASE + delta).max(MIN_EASE).to_string(),
    }
}

fn review(s: &Scheduler, card: &Card, grade: u8, today: u32) -> Result<Card, ScheduleError> {
    s.review(card, grade, today, &facts(card, grade))
}

fn review_rating(s: &Scheduler, card: &Card, r: Rating, today: u32) -> Result<Card, ScheduleError> {
    s.review_with_rating(card, r, today, &facts(card, r.to_grade()))
}

fn ease_of(card: &Card) -> f64 {
    card.ease.parse().unwrap()
}

#[test]
fn first_two_passes_use_fixed_intervals() {
    let scheduler = Scheduler::strict();
    let card = Card::new(0);

    let after_first = review(&scheduler, &card, 4, 0).unwrap();
    assert_eq!(after_first.interval_days, 1);
    assert_eq!(after_first.repetitions, 1);

    let after_second = review(&scheduler, &after_first, 4, 1).unwrap();
    assert_eq!(after_second.interval_days, 6);
    assert_eq!(after_second.repetitions, 2);
}

#[test]
fn a_lapse_resets_repetitions_but_keeps_ease_updates() {
    let scheduler = Scheduler::strict();
    let card = Card {
        interval_days: 20,
        repetitions: 4,
        ease: 2.3f64.to_string(),
        due_on: 50,
    };

    let next = review(&scheduler, &card, 1, 50).unwrap();
    assert_eq!(next.repetitions, 0);
    assert_eq!(next.interval_days, 1);
    assert!(ease_of(&next) < ease_of(&card));
}

#[test]
fn strict_mode_rejects_a_review_before_the_due_date() {
    let scheduler = Scheduler::strict();
    let card = Card::new(10);

    let err = review(&scheduler, &card, 4, 5).unwrap_err();
    assert_eq!(
        err,
        ScheduleError::ReviewedBeforeDue {
            today: 5,
            due_on: 10
        }
    );
}

#[test]
fn lenient_mode_allows_an_early_review_and_clamps_bad_input() {
    let scheduler = Scheduler::lenient();
    let card = Card::new(10);

    let next = review(&scheduler, &card, 9, 5).unwrap();
    assert_eq!(next.repetitions, 1);
}

#[test]
fn strict_mode_rejects_an_out_of_range_grade() {
    let scheduler = Scheduler::strict();
    let card = Card::new(0);

    let err = review(&scheduler, &card, 9, 0).unwrap_err();
    assert_eq!(err, ScheduleError::GradeOutOfRange(9));
}

#[test]
fn rating_names_round_trip_to_the_expected_grades() {
    assert_eq!(Rating::from_name("again").unwrap().to_grade(), 0);
    assert_eq!(Rating::from_name("hard").unwrap().to_grade(), PASSING_GRADE);
    assert_eq!(Rating::from_name("good").unwrap().to_grade(), 4);
    assert_eq!(Rating::from_name("easy").unwrap().to_grade(), MAX_GRADE);
    assert!(Rating::from_name("meh").is_none());
}

#[test]
fn again_is_a_lapse_but_hard_is_not() {
    let scheduler = Scheduler::strict();
    let card = Card {
        interval_days: 20,
        repetitions: 4,
        ease: 2.3f64.to_string(),
        due_on: 50,
    };

    let after_again = review_rating(&scheduler, &card, Rating::Again, 50).unwrap();
    assert_eq!(after_again.repetitions, 0);
    assert_eq!(after_again.interval_days, 1);

    let after_hard = review_rating(&scheduler, &card, Rating::Hard, 50).unwrap();
    assert_eq!(after_hard.repetitions, 5);
}

#[test]
fn a_new_card_is_due_today_with_the_default_ease() {
    let card = Card::new(42);
    assert_eq!(card.interval_days, 0);
    assert_eq!(card.repetitions, 0);
    assert_eq!(card.ease, "2.5");
    assert_eq!(card.due_on, 42);
}

#[test]
fn a_third_pass_scales_the_interval_by_the_ease() {
    let scheduler = Scheduler::strict();
    let card = Card {
        interval_days: 6,
        repetitions: 2,
        ease: "2.5".to_string(),
        due_on: 10,
    };
    let next = review(&scheduler, &card, 5, 10).unwrap();
    assert_eq!(next.repetitions, 3);
    assert_eq!(next.interval_days, 15);
    assert_eq!(next.due_on, 25);
    assert_eq!(next.ease, "2.6");
}

#[test]
fn the_ease_never_drops_below_the_floor() {
    let scheduler = Scheduler::strict();
    let card = Card {
        interval_days: 1,
        repetitions: 0,
        ease: "1.3".to_string(),
        due_on: 0,
    };
    let next = review(&scheduler, &card, 0, 0).unwrap();
    assert_eq!(next.ease, "1.3");
}

#[test]
fn strict_mode_rejects_an_ease_below_the_floor() {
    let scheduler = Scheduler::strict();
    let card = Card {
        interval_days: 10,
        repetitions: 3,
        ease: "1.2".to_string(),
        due_on: 0,
    };
    let err = review(&scheduler, &card, 4, 0).unwrap_err();
    assert_eq!(err, ScheduleError::EaseTooLow("1.2".to_string()));
    assert_eq!(err.message(), "ease factor 1.2 is below the floor of 1.3");
}

#[test]
fn lenient_mode_reviews_at_the_floor_ease() {
    let scheduler = Scheduler::lenient();
    let card = Card {
        interval_days: 10,
        repetitions: 3,
        ease: "1.2".to_string(),
        due_on: 0,
    };
    let next = review(&scheduler, &card, 5, 0).unwrap();
    assert_eq!(next.repetitions, 4);
    assert_eq!(next.interval_days, 13);
    assert_eq!(next.ease, (1.3f64 + 0.1).to_string());
}

#[test]
fn a_due_date_past_the_last_day_is_an_overflow_in_either_mode() {
    let card = Card::new(u32::MAX);
    for scheduler in [Scheduler::strict(), Scheduler::lenient()] {
        let err = review(&scheduler, &card, 4, u32::MAX).unwrap_err();
        assert_eq!(err, ScheduleError::DateOverflow);
        assert_eq!(err.message(), "next due date does not fit in a u32");
    }
}

#[test]
fn lenient_mode_refuses_only_an_overflowing_due_date() {
    let scheduler = Scheduler::lenient();
    let card = Card {
        interval_days: 3,
        repetitions: 7,
        ease: "0.5".to_string(),
        due_on: 1000,
    };
    for grade in [0u8, 3, 5, 6, 200, 255] {
        assert!(review(&scheduler, &card, grade, 0).is_ok());
    }
}

#[test]
fn a_strict_success_is_the_same_under_a_lenient_scheduler() {
    let card = Card {
        interval_days: 6,
        repetitions: 2,
        ease: "2.36".to_string(),
        due_on: 8,
    };
    for grade in 0u8..=5 {
        let strict = review(&Scheduler::strict(), &card, grade, 9).unwrap();
        let lenient = review(&Scheduler::lenient(), &card, grade, 9).unwrap();
        assert_eq!(strict, lenient);
    }
}

#[test]
fn error_messages_describe_the_problem() {
    assert_eq!(
        ScheduleError::GradeOutOfRange(9).message(),
        "grade 9 is outside the valid range 0-5"
    );
    assert_eq!(
        ScheduleError::ReviewedBeforeDue {
            today: 5,
            due_on: 10
        }
        .message(),
        "card is not due until day 10, but today is day 5"
    );
}

#[test]
fn a_rating_never_gives_an_out_of_range_grade() {
    for r in [Rating::Again, Rating::Hard, Rating::Good, Rating::Easy] {
        assert!(r.to_grade() <= MAX_GRADE);
    }
    assert_eq!(Rating::from_name("Good"), None);
    assert_eq!(Rating::from_name(""), None);
    assert_eq!(Rating::from_name("easy"), Some(Rating::Easy));
}

#[test]
fn only_an_accepted_pass_can_overflow_the_repetition_count() {
    let card = Card {
        interval_days: 1,
        repetitions: u32::MAX,
        ease: "2.5".to_string(),
        due_on: 10,
    };
    let strict = Scheduler::strict();
    let lenient = Scheduler::lenient();
    assert!(strict.overflows_repetitions(&card, 4, 10, &facts(&card, 4)));
    assert!(!strict.overflows_repetitions(&card, 2, 10, &facts(&card, 2)));
    assert!(!strict.overflows_repetitions(&card, 4, 9, &facts(&card, 4)));
    assert!(!strict.overflows_repetitions(&card, 6, 10, &facts(&card, 6)));
    assert!(lenient.overflows_repetitions(&card, 6, 9, &facts(&card, 6)));
    // a lapse resets the count instead
    let next = review(&strict, &card, 2, 10).unwrap();
    assert_eq!(next.repetitions, 0);
}

#[test]
fn lenient_mode_reviews_the_repaired_input_as_strict_mode_does() {
    let card = Card {
        interval_days: 10,
        repetitions: 3,
        ease: "1.0".to_string(),
        due_on: 40,
    };
    let lenient = review(&Scheduler::lenient(), &card, 9, 20).unwrap();
    let repaired = Card {
        interval_days: 10,
        repetitions: 3,
        ease: "1.3".to_string(),
        due_on: 20,
    };
    let strict = review(&Scheduler::strict(), &repaired, 5, 20).unwrap();
    assert_eq!(lenient, strict);
    assert_eq!(lenient.interval_days, 13);
}

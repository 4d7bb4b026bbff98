//! The SM-2 review step.
//!
//! The scheduler keeps every decision of a review in integer arithmetic.
//! The ease factor is a floating-point quantity; this module never computes
//! with it. A card carries its ease as the decimal text that Rust prints for
//! the `f64` value, and the few floating-point results a review needs (is the
//! ease under the floor, what is `interval * ease` rounded, what is the
//! adjusted ease) are handed in by the caller as an [`EaseFacts`].
use vstd::prelude::*;

use crate::text::{decimal, push_decimal, push_str};

verus! {

/// Recall quality for a single review, on the classic SM-2 scale.
/// 0 means a complete blackout, 5 means perfect, effortless recall.
pub type Grade = u8;

pub const MIN_GRADE: Grade = 0;

pub const MAX_GRADE: Grade = 5;

/// Grades below this are treated as a lapse: repetitions reset and the
/// interval drops back to one day.
pub const PASSING_GRADE: Grade = 3;

/// The scheduling state of a single card.
///
/// `ease` is the ease factor written as Rust formats the `f64` value
/// (`"2.5"`, `"1.3"`, `"2.3600000000000003"`).
#[derive(Debug, Clone, PartialEq)]
pub struct Card {
    pub interval_days: u32,
    pub repetitions: u32,
    pub ease: String,
    pub due_on: u32,
}

/// A card's state with the ease factor as its text.
pub ghost struct CardView {
    pub interval_days: u32,
    pub repetitions: u32,
    pub ease: Seq<char>,
    pub due_on: u32,
}

impl View for Card {
    type V = CardView;

    open spec fn view(&self) -> CardView {
        CardView {
            interval_days: self.interval_days,
            repetitions: self.repetitions,
            ease: self.ease@,
            due_on: self.due_on,
        }
    }
}

impl Card {
    /// A brand new card, due for its first review today, with the default
    /// ease factor of 2.5.
    pub fn new(today: u32) -> (c: Card)
        ensures
            c.interval_days == 0,
            c.repetitions == 0,
            c.ease@ == "2.5"@,
            c.due_on == today,
    {
        Card { interval_days: 0, repetitions: 0, ease: "2.5".to_owned(), due_on: today }
    }
}

/// Everything that can make a review request untrustworthy.
///
/// In strict mode any of these abort the review. In lenient mode the
/// scheduler repairs the input instead, and only `DateOverflow` remains.
#[derive(Debug, PartialEq)]
pub enum ScheduleError {
    GradeOutOfRange(Grade),
    /// Carries the card's ease text.
    EaseTooLow(String),
    ReviewedBeforeDue { today: u32, due_on: u32 },
    DateOverflow,
}

/// The text that describes a scheduling error to a user.
pub open spec fn schedule_error_text(e: ScheduleError) -> Seq<char> {
    match e {
        ScheduleError::GradeOutOfRange(g) => "grade "@ + decimal(g as nat)
            + " is outside the valid range 0-5"@,
        ScheduleError::EaseTooLow(t) => "ease factor "@ + t@ + " is below the floor of 1.3"@,
        ScheduleError::ReviewedBeforeDue { today, due_on } => "card is not due until day "@
            + decimal(due_on as nat) + ", but today is day "@ + decimal(today as nat),
        ScheduleError::DateOverflow => "next due date does not fit in a u32"@,
    }
}

impl ScheduleError {
    /// Describes the error to a user.
    pub fn message(&self) -> (m: String)
        ensures
            m@ == schedule_error_text(*self),
    {
        let mut m = String::new();
        match self {
            ScheduleError::GradeOutOfRange(g) => {
                push_str(&mut m, "grade ");
                push_decimal(&mut m, *g as u128);
                push_str(&mut m, " is outside the valid range 0-5");
            },
            ScheduleError::EaseTooLow(t) => {
                push_str(&mut m, "ease factor ");
                push_str(&mut m, t.as_str());
                push_str(&mut m, " is below the floor of 1.3");
            },
            ScheduleError::ReviewedBeforeDue { today, due_on } => {
                push_str(&mut m, "card is not due until day ");
                push_decimal(&mut m, *due_on as u128);
                push_str(&mut m, ", but today is day ");
                push_decimal(&mut m, *today as u128);
            },
            ScheduleError::DateOverflow => {
                push_str(&mut m, "next due date does not fit in a u32");
            },
        }
        m
    }
}

/// An Anki-style four-button rating, mapped onto the 0-5 grade scale.
#[derive(Debug, Clone, Copy, PartialEq, Eq)]
pub enum Rating {
    Again,
    Hard,
    Good,
    Easy,
}

/// The grade each rating stands in for. `Hard` is a pass, not a lapse.
pub open spec fn rating_grade(r: Rating) -> Grade {
    match r {
        Rating::Again => 0,
        Rating::Hard => PASSING_GRADE,
        Rating::Good => 4,
        Rating::Easy => MAX_GRADE,
    }
}

/// The lowercase button names accepted by [`Rating::from_name`].
pub open spec fn rating_named(name: Seq<char>) -> Option<Rating> {
    if name == "again"@ {
        Some(Rating::Again)
    } else if name == "hard"@ {
        Some(Rating::Hard)
    } else if name == "good"@ {
        Some(Rating::Good)
    } else if name == "easy"@ {
        Some(Rating::Easy)
    } else {
        None
    }
}

impl Rating {
    /// The SM-2 grade this rating stands in for.
    pub fn to_grade(self) -> (g: Grade)
        ensures
            g == rating_grade(self),
            g <= MAX_GRADE,
    {
        match self {
            Rating::Again => 0,
            Rating::Hard => PASSING_GRADE,
            Rating::Good => 4,
            Rating::Easy => MAX_GRADE,
        }
    }

    /// Parses the lowercase button name used on the command line.
    pub fn from_name(name: &str) -> (r: Option<Rating>)
        ensures
            r == rating_named(name@),
    {
        if str_eq(name, "again") {
            Some(Rating::Again)
        } else if str_eq(name, "hard") {
            Some(Rating::Hard)
        } else if str_eq(name, "good") {
            Some(Rating::Good)
        } else if str_eq(name, "easy") {
            Some(Rating::Easy)
        } else {
            None
        }
    }
}

/// Whether two strings hold the same characters.
fn str_eq(a: &str, b: &str) -> (r: bool)
    ensures
        r == (a@ == b@),
{
    let x = crate::text::chars_of(a);
    let y = crate::text::chars_of(b);
    crate::text::chars_eq(&x, &y)
}

/// The floating-point results a review needs, computed by the caller from
/// the card's ease factor `e`, its interval `i` and the requested grade `g`
/// (with `g` saturated at 5), where `floor` is 1.3 and
/// `delta(g) = 0.1 - (5 - g) * (0.08 + (5 - g) * 0.02)`:
///
/// - `below_floor`: `e < floor`
/// - `interval_at_ease`: `(i * e).round() as u32`
/// - `interval_at_floor`: `(i * floor).round() as u32`
/// - `next_ease`: `(e + delta(g)).max(floor)`, as text
/// - `next_ease_at_floor`: `(floor + delta(g)).max(floor)`, as text
pub struct EaseFacts {
    pub below_floor: bool,
    pub interval_at_ease: u32,
    pub interval_at_floor: u32,
    pub next_ease: String,
    pub next_ease_at_floor: String,
}

/// Computes the next scheduling state for a card after a review.
///
/// A strict scheduler rejects a malformed review outright; a lenient one
/// clamps the grade to 5, the ease to its floor, and allows an early review.
#[derive(Debug, Clone, Copy)]
pub struct Scheduler {
    pub strict: bool,
}

/// The grade a lenient scheduler actually uses.
pub open spec fn effective_grade(grade: Grade) -> Grade {
    if grade > MAX_GRADE {
        MAX_GRADE
    } else {
        grade
    }
}

/// Repetitions after a review with (effective) grade `g`: a lapse resets
/// the count, a pass adds one.
pub open spec fn next_repetitions(card: Card, g: Grade) -> int {
    if g < PASSING_GRADE {
        0
    } else {
        card.repetitions + 1
    }
}

/// Interval after a review: one day after a lapse; after a pass, one day,
/// then six days, then the previous interval scaled by the ease in use.
pub open spec fn next_interval(card: Card, g: Grade, floored: bool, facts: EaseFacts) -> int {
    if g < PASSING_GRADE {
        1
    } else if card.repetitions + 1 == 1 {
        1
    } else if card.repetitions + 1 == 2 {
        6
    } else if floored {
        facts.interval_at_floor as int
    } else {
        facts.interval_at_ease as int
    }
}

impl Scheduler {
    pub open spec fn grade_rejected(self, grade: Grade) -> bool {
        self.strict && grade > MAX_GRADE
    }

    pub open spec fn ease_rejected(self, facts: EaseFacts) -> bool {
        self.strict && facts.below_floor
    }

    pub open spec fn timing_rejected(self, card: Card, today: u32) -> bool {
        self.strict && today < card.due_on
    }

    /// The review gets past all three input checks.
    pub open spec fn admits(self, card: Card, grade: Grade, today: u32, facts: EaseFacts) -> bool {
        !self.grade_rejected(grade) && !self.ease_rejected(facts) && !self.timing_rejected(
            card,
            today,
        )
    }

    /// Whether the ease in use is the floor rather than the card's own.
    pub open spec fn floors_ease(self, facts: EaseFacts) -> bool {
        !self.strict && facts.below_floor
    }

    /// The outcome of a review, in the order the checks are made: grade,
    /// ease, timing, then the due date must fit in a `u32`.
    pub open spec fn outcome(self, card: Card, grade: Grade, today: u32, facts: EaseFacts) -> Result<
        Card,
        ScheduleError,
    > {
        let g = effective_grade(grade);
        let floored = self.floors_ease(facts);
        let interval = next_interval(card, g, floored, facts);
        if self.grade_rejected(grade) {
            Err(ScheduleError::GradeOutOfRange(grade))
        } else if self.ease_rejected(facts) {
            Err(ScheduleError::EaseTooLow(card.ease))
        } else if self.timing_rejected(card, today) {
            Err(ScheduleError::ReviewedBeforeDue { today, due_on: card.due_on })
        } else if today + interval > u32::MAX {
            Err(ScheduleError::DateOverflow)
        } else {
            Ok(
                Card {
                    interval_days: interval as u32,
                    repetitions: next_repetitions(card, g) as u32,
                    ease: if floored {
                        facts.next_ease_at_floor
                    } else {
                        facts.next_ease
                    },
                    due_on: (today + interval) as u32,
                },
            )
        }
    }

    pub fn strict() -> (s: Scheduler)
        ensures
            s.strict,
    {
        Scheduler { strict: true }
    }

    pub fn lenient() -> (s: Scheduler)
        ensures
            !s.strict,
    {
        Scheduler { strict: false }
    }

    /// Reviews `card` with the given `grade` on day `today`, returning the
    /// card's next state.
    pub fn review(&self, card: &Card, grade: Grade, today: u32, facts: &EaseFacts) -> (res: Result<
        Card,
        ScheduleError,
    >)
        requires
            // a pass on a card at the top of the repetition count has no next count
            self.admits(*card, grade, today, *facts) && effective_grade(grade) >= PASSING_GRADE
                ==> card.repetitions < u32::MAX,
        ensures
            res == self.outcome(*card, grade, today, *facts),
    {
        let grade = match self.checked_grade(grade) {
            Ok(g) => g,
            Err(e) => return Err(e),
        };
        let floored = match self.checked_ease(card, facts) {
            Ok(f) => f,
            Err(e) => return Err(e),
        };
        match self.checked_timing(card, today) {
            Ok(()) => {},
            Err(e) => return Err(e),
        }

        let repetitions: u32;
        let interval_days: u32;
        if grade < PASSING_GRADE {
            repetitions = 0;
            interval_days = 1;
        } else {
            repetitions = card.repetitions + 1;
            interval_days = if repetitions == 1 {
                1
            } else if repetitions == 2 {
                6
            } else if floored {
                facts.interval_at_floor
            } else {
                facts.interval_at_ease
            };
        }
        let ease = if floored {
            facts.next_ease_at_floor.clone()
        } else {
            facts.next_ease.clone()
        };
        match today.checked_add(interval_days) {
            Some(due_on) => Ok(Card { interval_days, repetitions, ease, due_on }),
            None => Err(ScheduleError::DateOverflow),
        }
    }

    /// Whether this review would be a pass that gets past the input checks
    /// on a card whose repetition count is already `u32::MAX`, so that the
    /// count has no next value: exactly the reviews `review` does not take.
    pub fn overflows_repetitions(&self, card: &Card, grade: Grade, today: u32, facts: &EaseFacts) -> (b:
        bool)
        ensures
            b == (self.admits(*card, grade, today, *facts) && effective_grade(grade)
                >= PASSING_GRADE && card.repetitions == u32::MAX),
    {
        let rejected = self.strict && (grade > MAX_GRADE || facts.below_floor || today
            < card.due_on);
        let g = if grade > MAX_GRADE {
            MAX_GRADE
        } else {
            grade
        };
        !rejected && g >= PASSING_GRADE && card.repetitions == u32::MAX
    }

    /// Same as `review`, but takes an Anki-style button press instead of a
    /// raw grade. Since a `Rating` is always in range, this only fails on
    /// ease or timing problems, never on `ScheduleError::GradeOutOfRange`.
    pub fn review_with_rating(&self, card: &Card, rating: Rating, today: u32, facts: &EaseFacts) -> (res:
        Result<Card, ScheduleError>)
        requires
            self.admits(*card, rating_grade(rating), today, *facts) && rating_grade(rating)
                >= PASSING_GRADE ==> card.repetitions < u32::MAX,
        ensures
            res == self.outcome(*card, rating_grade(rating), today, *facts),
            !(res matches Err(ScheduleError::GradeOutOfRange(_))),
    {
        self.review(card, rating.to_grade(), today, facts)
    }

    fn checked_grade(&self, grade: Grade) -> (res: Result<Grade, ScheduleError>)
        ensures
            self.grade_rejected(grade) ==> res == Err::<Grade, ScheduleError>(
                ScheduleError::GradeOutOfRange(grade),
            ),
            !self.grade_rejected(grade) ==> res == Ok::<Grade, ScheduleError>(
                effective_grade(grade),
            ),
    {
        if grade > MAX_GRADE {
            if self.strict {
                Err(ScheduleError::GradeOutOfRange(grade))
            } else {
                Ok(MAX_GRADE)
            }
        } else {
            Ok(grade)
        }
    }

    /// Decides between rejecting the ease (strict) and flooring it
    /// (lenient); `Ok(true)` means the floor is in use.
    fn checked_ease(&self, card: &Card, facts: &EaseFacts) -> (res: Result<bool, ScheduleError>)
        ensures
            self.ease_rejected(*facts) ==> res == Err::<bool, ScheduleError>(
                ScheduleError::EaseTooLow(card.ease),
            ),
            !self.ease_rejected(*facts) ==> res == Ok::<bool, ScheduleError>(
                self.floors_ease(*facts),
            ),
    {
        if facts.below_floor {
            if self.strict {
                Err(ScheduleError::EaseTooLow(card.ease.clone()))
            } else {
                Ok(true)
            }
        } else {
            Ok(false)
        }
    }

    fn checked_timing(&self, card: &Card, today: u32) -> (res: Result<(), ScheduleError>)
        ensures
            self.timing_rejected(*card, today) ==> res == Err::<(), ScheduleError>(
                ScheduleError::ReviewedBeforeDue { today, due_on: card.due_on },
            ),
            !self.timing_rejected(*card, today) ==> res == Ok::<(), ScheduleError>(()),
    {
        if today < card.due_on && self.strict {
            Err(ScheduleError::ReviewedBeforeDue { today, due_on: card.due_on })
        } else {
            Ok(())
        }
    }
}

/// A lenient scheduler repairs its input: the only review it can refuse is
/// one whose next due date does not fit in a `u32`.
pub proof fn law_lenient_only_refuses_overflow(
    s: Scheduler,
    card: Card,
    grade: Grade,
    today: u32,
    facts: EaseFacts,
)
    requires
        !s.strict,
    ensures
        (s.outcome(card, grade, today, facts) is Ok) || s.outcome(card, grade, today, facts)
            == Err::<Card, ScheduleError>(ScheduleError::DateOverflow),
{
}

/// A review that a strict scheduler accepts gives the same card under a
/// lenient one: leniency only changes what happens to bad input.
pub proof fn law_strict_success_is_lenient_success(
    strict: Scheduler,
    lenient: Scheduler,
    card: Card,
    grade: Grade,
    today: u32,
    facts: EaseFacts,
)
    requires
        strict.strict,
        !lenient.strict,
    ensures
        (strict.outcome(card, grade, today, facts) is Ok) ==> lenient.outcome(
            card,
            grade,
            today,
            facts,
        ) == strict.outcome(card, grade, today, facts),
{
}

/// A grade below the passing grade is a lapse: repetitions go back to zero
/// and the card is due again the next day.
pub proof fn law_lapse_resets(s: Scheduler, card: Card, grade: Grade, today: u32, facts: EaseFacts)
    requires
        effective_grade(grade) < PASSING_GRADE,
    ensures
        (s.outcome(card, grade, today, facts) is Ok) ==> (s.outcome(card, grade, today, facts)->Ok_0.repetitions == 0
            && s.outcome(card, grade, today, facts)->Ok_0.interval_days == 1 && s.outcome(card, grade, today, facts)->Ok_0.due_on == today + 1),
{
}

/// A passing grade adds one repetition; the first pass schedules the card
/// one day out and the second six days out.
pub proof fn law_pass_counts_up(
    s: Scheduler,
    card: Card,
    grade: Grade,
    today: u32,
    facts: EaseFacts,
)
    requires
        effective_grade(grade) >= PASSING_GRADE,
        card.repetitions < u32::MAX,
    ensures
        (s.outcome(card, grade, today, facts) is Ok) ==> s.outcome(card, grade, today, facts)->Ok_0.repetitions == card.repetitions + 1,
        (s.outcome(card, grade, today, facts) is Ok) && card.repetitions == 0 ==> s.outcome(card, grade, today, facts)->Ok_0.interval_days == 1,
        (s.outcome(card, grade, today, facts) is Ok) && card.repetitions == 1 ==> s.outcome(card, grade, today, facts)->Ok_0.interval_days == 6,
{
}

/// Whatever the review, an accepted one makes the card due `interval_days`
/// after the day of the review.
pub proof fn law_due_after_interval(
    s: Scheduler,
    card: Card,
    grade: Grade,
    today: u32,
    facts: EaseFacts,
)
    ensures
        (s.outcome(card, grade, today, facts) is Ok) ==> s.outcome(card, grade, today, facts)->Ok_0.due_on == today + s.outcome(card, grade, today, facts)->Ok_0.interval_days,
{
}

/// A review that passes the input checks always succeeds unless the due
/// date overflows, and a strict scheduler refuses a review before the due
/// date with exactly that day and the due day.
pub proof fn law_success_owed(s: Scheduler, card: Card, grade: Grade, today: u32, facts: EaseFacts)
    ensures
        s.admits(card, grade, today, facts) ==> ((s.outcome(card, grade, today, facts) is Ok)
            <==> today + next_interval(
            card,
            effective_grade(grade),
            s.floors_ease(facts),
            facts,
        ) <= u32::MAX),
        s.strict && grade <= MAX_GRADE && !facts.below_floor && today < card.due_on ==> s.outcome(
            card,
            grade,
            today,
            facts,
        ) == Err::<Card, ScheduleError>(
            ScheduleError::ReviewedBeforeDue { today, due_on: card.due_on },
        ),
{
}

/// `Again` is a lapse; `Hard` is a strained but successful recall, not a
/// lapse; every rating is a grade in range.
pub proof fn law_rating_grades(r: Rating)
    ensures
        rating_grade(r) <= MAX_GRADE,
        rating_grade(Rating::Again) < PASSING_GRADE,
        rating_grade(Rating::Hard) >= PASSING_GRADE,
        rating_grade(r) < PASSING_GRADE <==> r == Rating::Again,
{
}

/// The facts of a review with the ease in use: the floor where the card's
/// ease is below it.
pub open spec fn floored_facts(f: EaseFacts) -> EaseFacts {
    if f.below_floor {
        EaseFacts {
            below_floor: false,
            interval_at_ease: f.interval_at_floor,
            interval_at_floor: f.interval_at_floor,
            next_ease: f.next_ease_at_floor,
            next_ease_at_floor: f.next_ease_at_floor,
        }
    } else {
        f
    }
}

/// The card as due on `today` at the latest.
pub open spec fn due_by(card: Card, today: u32) -> Card {
    Card {
        interval_days: card.interval_days,
        repetitions: card.repetitions,
        ease: card.ease,
        due_on: if card.due_on > today {
            today
        } else {
            card.due_on
        },
    }
}

/// A lenient scheduler repairs its input and then reviews as a strict one
/// does: the grade clamped to 5, an ease below the floor raised to the
/// floor, and the due date not checked. The same review with the grade
/// and ease already repaired gives the same result.
pub proof fn law_lenient_reviews_repaired_input(
    lenient: Scheduler,
    strict: Scheduler,
    card: Card,
    grade: Grade,
    today: u32,
    facts: EaseFacts,
)
    requires
        !lenient.strict,
        strict.strict,
    ensures
        lenient.outcome(card, grade, today, facts) == strict.outcome(
            due_by(card, today),
            effective_grade(grade),
            today,
            floored_facts(facts),
        ),
        lenient.outcome(card, grade, today, facts) == lenient.outcome(
            card,
            effective_grade(grade),
            today,
            floored_facts(facts),
        ),
{
}

/// After the first two passes, an accepted pass scales the previous
/// interval by the card's own ease whatever the passing grade (3, 4 or 5),
/// unless the ease is below the floor, where a lenient scheduler scales by
/// the floor.
pub proof fn law_later_pass_scales_by_ease(
    s: Scheduler,
    card: Card,
    grade: Grade,
    today: u32,
    facts: EaseFacts,
)
    requires
        grade >= PASSING_GRADE,
        card.repetitions >= 2,
    ensures
        (s.outcome(card, grade, today, facts) is Ok) && !facts.below_floor ==> s.outcome(card, grade, today, facts)->Ok_0.interval_days
            == facts.interval_at_ease,
        (s.outcome(card, grade, today, facts) is Ok) && facts.below_floor ==> s.outcome(card, grade, today, facts)->Ok_0.interval_days
            == facts.interval_at_floor,
        !facts.below_floor && !s.timing_rejected(card, today) && grade <= MAX_GRADE && today
            + facts.interval_at_ease <= u32::MAX ==> s.outcome(card, grade, today, facts) is Ok,
{
}

/// An accepted review sets the ease to the card's own ease adjusted by the
/// grade, for every grade; only an ease below the floor (which a lenient
/// scheduler raises to the floor) is adjusted from the floor instead.
pub proof fn law_next_ease_from_own_ease(
    s: Scheduler,
    card: Card,
    grade: Grade,
    today: u32,
    facts: EaseFacts,
)
    ensures
        (s.outcome(card, grade, today, facts) is Ok) && !facts.below_floor ==> s.outcome(card, grade, today, facts)->Ok_0.ease == facts.next_ease,
        (s.outcome(card, grade, today, facts) is Ok) && facts.below_floor ==> s.outcome(card, grade, today, facts)->Ok_0.ease == facts.next_ease_at_floor,
{
}

} // verus!

//! An SM-2 style spaced repetition scheduler, with a deck of named cards
//! kept as JSON or as tab-separated plain text.
//!
//! Dates are plain day numbers (days since some fixed epoch chosen by the
//! caller), so the library has no opinion about time zones or clocks.
#![allow(unused_imports)]

use vstd::prelude::*;

pub mod scheduler;
pub mod text;
pub mod name_map;
pub mod deck;
pub mod json;
pub mod round_trip;
pub mod cli;
pub mod due;

pub use cli::{parse_flags, Flags};
pub use deck::{Deck, DeckError};
pub use due::due_cards;
pub use json::{parse_json, JsonValue};
pub use name_map::NameMap;
pub use scheduler::{
    Card, EaseFacts, Grade, Rating, ScheduleError, Scheduler, MAX_GRADE, MIN_GRADE, PASSING_GRADE,
};

verus! {

} // verus!

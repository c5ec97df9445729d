//! The shape of the puzzle service's answer: a page for the day, carrying
//! the day's puzzles, each wrapped with the status it is offered in.

use vstd::prelude::*;

verus! {

/// One error message of the service.
pub struct Error {
    pub message: String,
}

/// The data of a successful answer.
pub struct Data {
    pub today_page: TodayPage,
}

/// The page for the asked-for day.
pub struct TodayPage {
    pub daily: Daily,
}

/// One day's puzzles.
pub struct Daily {
    pub day: String,
    pub is_today: bool,
    pub puzzles: Vec<PuzzleWrapper>,
}

/// A puzzle together with the status it is offered in.
pub struct PuzzleWrapper {
    pub status: String,
    pub puzzle: Puzzle,
}

/// A puzzle: its board text and the game it belongs to.
pub struct Puzzle {
    pub puzzle: String,
    pub game: Game,
}

/// The game a puzzle belongs to, by its short name.
pub struct Game {
    pub slug: String,
}

} // verus!

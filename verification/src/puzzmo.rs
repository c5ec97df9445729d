//! The data a puzzle service answers with, and the choice of the one puzzle
//! a run plays: the first offered puzzle of the asked-for game in the
//! asked-for status.  Fetching the answer from the network is the shell's
//! business; the shapes and the selection rule live here.

use vstd::prelude::*;

pub mod response;

verus! {

/// The puzzle a run plays: which day it belongs to, whether that day is
/// today, and the board text.
pub struct Puzzle {
    pub day: String,
    pub is_today: bool,
    pub puzzle: String,
}

/// The service answered with errors instead of a page.
pub struct Error {
    pub errors: Vec<response::Error>,
}

/// Whether a wrapper offers the asked-for game in the asked-for status.
pub open spec fn wrapper_matches(
    w: response::PuzzleWrapper,
    game: Seq<char>,
    status: Seq<char>,
) -> bool {
    w.puzzle.game.slug@ == game && w.status@ == status
}

/// The text of the first offered puzzle of the asked-for game and status,
/// or nothing when no offer matches.
pub fn find_puzzle(
    puzzles: &Vec<response::PuzzleWrapper>,
    game: &String,
    status: &String,
) -> (r: Option<String>)
    ensures
        match r {
            Some(p) => exists|i: int|
                0 <= i < puzzles@.len() && wrapper_matches(#[trigger] puzzles@[i], game@, status@)
                    && p@ == puzzles@[i].puzzle.puzzle@ && (forall|j: int|
                    0 <= j < i ==> !wrapper_matches(#[trigger] puzzles@[j], game@, status@)),
            None => forall|i: int|
                0 <= i < puzzles@.len() ==> !wrapper_matches(#[trigger] puzzles@[i], game@, status@),
        },
{
    let mut i: usize = 0;
    while i < puzzles.len()
        invariant
            i <= puzzles@.len(),
            forall|j: int| 0 <= j < i ==> !wrapper_matches(#[trigger] puzzles@[j], game@, status@),
        decreases puzzles@.len() - i,
    {
        let w = &puzzles[i];
        if w.puzzle.game.slug == *game && w.status == *status {
            let p = w.puzzle.puzzle.clone();
            assert(wrapper_matches(puzzles@[i as int], game@, status@));
            return Some(p);
        }
        i = i + 1;
    }
    None
}

} // verus!

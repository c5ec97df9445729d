//! Cost strategies for the optimizer.  A strategy maps a board and a
//! solution to a scalar cost to minimize, and names a target cost at which
//! optimization may stop early.  A policy flag can additionally demand that
//! a solution clear every letter tile, on pain of the worst possible cost;
//! the blank markers are exempt from that demand.

use vstd::prelude::*;

verus! {

use crate::board::Board;
use crate::board::BoardView;
use crate::board::Coord;
use crate::board::letters_left;
use crate::scoring::apply_all;
use crate::scoring::apply_solution;
use crate::scoring::best_step_score;
use crate::scoring::best_word_score;
use crate::scoring::longest_len;
use crate::scoring::longest_word;
use crate::scoring::score_solution;
use crate::scoring::score_solution_spec;
use crate::scoring::sol_view;
use crate::scoring::solution_in_bounds;

/// The objective a run optimizes; exactly one is active per run.
#[derive(Clone, Copy, PartialEq, Eq, Structural, Debug)]
pub enum Coster {
    /// Maximize the cumulative score of the whole solution.
    TotalScore,
    /// Maximize the length of the single longest word played.
    LongestWord,
    /// Maximize the single highest-scoring word played.
    BestWord,
    /// Minimize the number of plays; one play would be perfect.
    FewestWords,
    /// Minimize the letter tiles left on the final board; none would be
    /// perfect.
    FewestLeftovers,
}

/// A cost to minimize: a finite value, or the worst possible cost, used to
/// reject solutions that leave letters behind when full clearance is
/// demanded.
#[derive(Clone, Copy, PartialEq, Eq, Structural, Debug)]
pub enum Cost {
    Finite(i64),
    Infinite,
}

impl Coster {
    /// The cost at which optimization may stop early; `None` means it never
    /// stops on cost alone.
    pub open spec fn spec_target(self) -> Option<i64> {
        match self {
            Coster::FewestWords => Some(1 as i64),
            Coster::FewestLeftovers => Some(0 as i64),
            _ => None,
        }
    }

    pub fn target(&self) -> (t: Option<i64>)
        ensures
            t == self.spec_target(),
    {
        match self {
            Coster::FewestWords => Some(1),
            Coster::FewestLeftovers => Some(0),
            _ => None,
        }
    }

    /// The cost of a solution under this objective, as a mathematical
    /// integer: the negated quantity for the maximizing objectives, the
    /// plain count for the minimizing ones.
    pub open spec fn spec_cost(self, b: BoardView, sol: Seq<Seq<Coord>>) -> int {
        match self {
            Coster::TotalScore => -(score_solution_spec(b, sol) as int),
            Coster::LongestWord => -(longest_len(sol) as int),
            Coster::BestWord => -(best_step_score(b, sol) as int),
            Coster::FewestWords => sol.len() as int,
            Coster::FewestLeftovers => letters_left(apply_solution(b, sol)) as int,
        }
    }

    /// The quantity this objective measures stays within the machine range.
    pub open spec fn cost_fits(self, b: BoardView, sol: Seq<Seq<Coord>>) -> bool {
        match self {
            Coster::TotalScore => score_solution_spec(b, sol) <= usize::MAX
                && score_solution_spec(b, sol) <= i64::MAX,
            Coster::LongestWord => longest_len(sol) <= i64::MAX,
            Coster::BestWord => best_step_score(b, sol) <= usize::MAX && best_step_score(b, sol)
                <= i64::MAX,
            Coster::FewestWords => sol.len() <= i64::MAX,
            Coster::FewestLeftovers => letters_left(apply_solution(b, sol)) <= i64::MAX,
        }
    }

    /// Evaluates the objective on a board and a solution.
    pub fn cost(&self, board: &Board, solution: &Vec<Vec<Coord>>) -> (c: i64)
        requires
            board.wf(),
            solution_in_bounds(board@, sol_view(solution@)),
            self.cost_fits(board@, sol_view(solution@)),
        ensures
            c == self.spec_cost(board@, sol_view(solution@)),
    {
        match self {
            Coster::TotalScore => {
                let s = score_solution(board, solution);
                -(s as i64)
            },
            Coster::LongestWord => {
                let l = longest_word(solution);
                -(l as i64)
            },
            Coster::BestWord => {
                let s = best_word_score(board, solution);
                -(s as i64)
            },
            Coster::FewestWords => solution.len() as i64,
            Coster::FewestLeftovers => {
                let left = apply_all(board, solution);
                left.count_letters() as i64
            },
        }
    }
}

/// The cost of a solution under the full policy: the worst possible cost
/// when leftovers are forbidden and letter tiles remain on the final board,
/// and the strategy's own cost otherwise.
pub fn solution_cost(
    coster: &Coster,
    allow_leftovers: bool,
    board: &Board,
    solution: &Vec<Vec<Coord>>,
) -> (c: Cost)
    requires
        board.wf(),
        solution_in_bounds(board@, sol_view(solution@)),
        coster.cost_fits(board@, sol_view(solution@)),
    ensures
        (c == Cost::Infinite) <==> (!allow_leftovers && letters_left(
            apply_solution(board@, sol_view(solution@)),
        ) > 0),
        (c matches Cost::Finite(v) ==> v == coster.spec_cost(board@, sol_view(solution@))),
{
    if !allow_leftovers {
        let left = apply_all(board, solution);
        if left.count_letters() > 0 {
            return Cost::Infinite;
        }
    }
    Cost::Finite(coster.cost(board, solution))
}

} // verus!

//! Scoring: a fixed per-letter point table; a path scores the summed value of
//! everything it deletes, times its length, times one plus its count of bonus
//! tiles.  A solution scores its paths against the evolving board, plus fixed
//! bonuses for clearing (or almost clearing) the board.

use vstd::prelude::*;

verus! {

use crate::board::Board;
use crate::board::BoardView;
use crate::board::Cell;
use crate::board::Coord;
use crate::board::deletable;
use crate::board::deletable_seq;
use crate::board::del_from;
use crate::board::coord_at;
use crate::board::lemma_flat_coord;
use crate::board::path_in_bounds;
use crate::board::after_delete;
use crate::board::almost_cleared;

/// The point value of an uppercase letter; anything else scores nothing.
pub open spec fn letter_score(c: char) -> nat {
    if c == 'A' {
        1
    } else if c == 'B' {
        4
    } else if c == 'C' {
        4
    } else if c == 'D' {
        3
    } else if c == 'E' {
        1
    } else if c == 'F' {
        5
    } else if c == 'G' {
        3
    } else if c == 'H' {
        5
    } else if c == 'I' {
        1
    } else if c == 'J' {
        9
    } else if c == 'K' {
        6
    } else if c == 'L' {
        2
    } else if c == 'M' {
        4
    } else if c == 'N' {
        2
    } else if c == 'O' {
        1
    } else if c == 'P' {
        4
    } else if c == 'Q' {
        12
    } else if c == 'R' {
        2
    } else if c == 'S' {
        1
    } else if c == 'T' {
        2
    } else if c == 'U' {
        1
    } else if c == 'V' {
        5
    } else if c == 'W' {
        5
    } else if c == 'X' {
        9
    } else if c == 'Y' {
        5
    } else if c == 'Z' {
        11
    } else {
        0
    }
}

/// What a cell is worth: its letter's value, case-blind by construction.
pub open spec fn cell_score(x: Cell) -> nat {
    match x {
        Cell::Letter(l, _) => letter_score(l),
        _ => 0,
    }
}

/// The point value of an uppercase letter.
pub fn score_letter(c: char) -> (r: usize)
    ensures
        r == letter_score(c),
{
    if c == 'A' {
        1
    } else if c == 'B' {
        4
    } else if c == 'C' {
        4
    } else if c == 'D' {
        3
    } else if c == 'E' {
        1
    } else if c == 'F' {
        5
    } else if c == 'G' {
        3
    } else if c == 'H' {
        5
    } else if c == 'I' {
        1
    } else if c == 'J' {
        9
    } else if c == 'K' {
        6
    } else if c == 'L' {
        2
    } else if c == 'M' {
        4
    } else if c == 'N' {
        2
    } else if c == 'O' {
        1
    } else if c == 'P' {
        4
    } else if c == 'Q' {
        12
    } else if c == 'R' {
        2
    } else if c == 'S' {
        1
    } else if c == 'T' {
        2
    } else if c == 'U' {
        1
    } else if c == 'V' {
        5
    } else if c == 'W' {
        5
    } else if c == 'X' {
        9
    } else if c == 'Y' {
        5
    } else if c == 'Z' {
        11
    } else {
        0
    }
}

fn score_cell(x: Cell) -> (r: usize)
    ensures
        r == cell_score(x),
{
    match x {
        Cell::Letter(l, _) => score_letter(l),
        _ => 0,
    }
}

/// The summed cell values of `s[i..]` on `b`.
pub open spec fn sum_scores_from(b: BoardView, s: Seq<Coord>, i: int) -> nat
    decreases s.len() - i,
{
    if i < 0 || i >= s.len() {
        0
    } else {
        cell_score(b.cell(s[i].row as int, s[i].col as int)) + sum_scores_from(b, s, i + 1)
    }
}

/// The summed cell values of everything `p` deletes from `b`.
pub open spec fn del_score(b: BoardView, p: Seq<Coord>) -> nat {
    sum_scores_from(b, deletable_seq(b, p), 0)
}

/// How many bonus (lowercase) tiles `p[i..]` crosses on `b`.
pub open spec fn bonus_count_from(b: BoardView, p: Seq<Coord>, i: int) -> nat
    decreases p.len() - i,
{
    if i < 0 || i >= p.len() {
        0
    } else {
        (match b.cell(p[i].row as int, p[i].col as int) {
            Cell::Letter(_, true) => 1 as nat,
            _ => 0 as nat,
        }) + bonus_count_from(b, p, i + 1)
    }
}

/// The score of playing `p` on `b`: deleted value, times path length, times
/// one plus the number of bonus tiles on the path.
pub open spec fn score_path_spec(b: BoardView, p: Seq<Coord>) -> nat {
    (del_score(b, p) * p.len()) * (bonus_count_from(b, p, 0) + 1)
}

/// Every cell the deletion sequence names lies on the board.
pub proof fn lemma_del_from_in_bounds(b: BoardView, p: Seq<Coord>, k: int)
    requires
        b.wf(),
        0 <= k <= b.area(),
    ensures
        forall|i: int|
            0 <= i < del_from(b, p, k).len() ==> b.in_bounds(
                (#[trigger] del_from(b, p, k)[i]).row as int,
                del_from(b, p, k)[i].col as int,
            ),
    decreases b.area() - k,
{
    if k < b.area() {
        lemma_del_from_in_bounds(b, p, k + 1);
        lemma_flat_coord(b, k);
        let s = del_from(b, p, k);
        let rest = del_from(b, p, k + 1);
        assert forall|i: int|
            0 <= i < s.len() implies b.in_bounds(
            (#[trigger] s[i]).row as int,
            s[i].col as int,
        ) by {
            if crate::board::deletable_at_coord(b, p, coord_at(b, k)) {
                if i > 0 {
                    assert(s[i] == rest[i - 1]);
                }
            } else {
                assert(s[i] == rest[i]);
            }
        }
    }
}

/// The score of playing `path` on `board`.
pub fn score_path(board: &Board, path: &Vec<Coord>) -> (r: usize)
    requires
        board.wf(),
        path_in_bounds(board@, path@),
        score_path_spec(board@, path@) <= usize::MAX,
    ensures
        r == score_path_spec(board@, path@),
{
    let ghost b = board@;
    let len = path.len();
    if len == 0 {
        proof {
            assert(score_path_spec(b, path@) == 0) by (nonlinear_arith)
                requires
                    score_path_spec(b, path@) == (del_score(b, path@) * path@.len()) * (
                    bonus_count_from(b, path@, 0) + 1),
                    path@.len() == 0,
            ;
        }
        return 0;
    }
    let ghost total = score_path_spec(b, path@);
    let ghost s_total = del_score(b, path@);
    let ghost factor = bonus_count_from(b, path@, 0) + 1;
    proof {
        assert(s_total * len <= (s_total * len) * factor) by (nonlinear_arith)
            requires
                factor >= 1,
                s_total * len >= 0,
        ;
        assert(s_total <= s_total * len) by (nonlinear_arith)
            requires
                len >= 1,
                s_total >= 0,
        ;
    }
    let dset = deletable(board, path);
    proof {
        lemma_del_from_in_bounds(b, path@, 0);
    }
    let mut sum: usize = 0;
    let mut i: usize = 0;
    while i < dset.len()
        invariant
            board.wf(),
            b == board@,
            dset@ == deletable_seq(b, path@),
            i <= dset@.len(),
            forall|j: int|
                0 <= j < dset@.len() ==> b.in_bounds(
                    (#[trigger] dset@[j]).row as int,
                    dset@[j].col as int,
                ),
            sum + sum_scores_from(b, dset@, i as int) == s_total,
            s_total <= usize::MAX,
        decreases dset@.len() - i,
    {
        let x = dset[i];
        let v = score_cell(board.get(x.row, x.col));
        sum = sum + v;
        i = i + 1;
    }
    let prod = sum * len;
    if prod == 0 {
        proof {
            assert(total == 0) by (nonlinear_arith)
                requires
                    total == (s_total * (path@.len() as nat)) * factor,
                    s_total * (path@.len() as nat) == 0,
            ;
        }
        return 0;
    }
    proof {
        lemma_bonus_count_le(b, path@, 0);
    }
    let mut bc: usize = 0;
    let mut i: usize = 0;
    while i < len
        invariant
            board.wf(),
            b == board@,
            path_in_bounds(b, path@),
            len == path@.len(),
            i <= len,
            bc + bonus_count_from(b, path@, i as int) == bonus_count_from(b, path@, 0),
            bonus_count_from(b, path@, 0) <= len,
        decreases len - i,
    {
        let x = path[i];
        let cell = board.get(x.row, x.col);
        let add = match cell {
            Cell::Letter(_, true) => 1,
            _ => 0,
        };
        bc = bc + add;
        i = i + 1;
    }
    proof {
        assert(bc + 1 <= prod * (bc + 1)) by (nonlinear_arith)
            requires
                prod >= 1,
                bc >= 0,
        ;
    }
    prod * (bc + 1)
}

/// The sequence-of-sequences a solution denotes.
pub open spec fn sol_view(sol: Seq<Vec<Coord>>) -> Seq<Seq<Coord>> {
    sol.map_values(|p: Vec<Coord>| p@)
}

/// Every path of the solution stays on the board.
pub open spec fn solution_in_bounds(b: BoardView, sol: Seq<Seq<Coord>>) -> bool {
    forall|i: int| 0 <= i < sol.len() ==> path_in_bounds(b, #[trigger] sol[i])
}

/// The board left after playing the whole solution in order.
pub open spec fn apply_solution(b: BoardView, sol: Seq<Seq<Coord>>) -> BoardView
    decreases sol.len(),
{
    if sol.len() == 0 {
        b
    } else {
        apply_solution(after_delete(b, sol[0]), sol.drop_first())
    }
}

/// The summed path scores, each against the board its predecessors left.
pub open spec fn steps_score(b: BoardView, sol: Seq<Seq<Coord>>) -> nat
    decreases sol.len(),
{
    if sol.len() == 0 {
        0
    } else {
        score_path_spec(b, sol[0]) + steps_score(after_delete(b, sol[0]), sol.drop_first())
    }
}

/// The bonus for a fully cleared final board.
pub open spec fn clear_bonus(b: BoardView) -> nat {
    if b.all_empty() {
        1000
    } else {
        0
    }
}

/// The bonus for an almost-cleared final board.
pub open spec fn almost_bonus(b: BoardView) -> nat {
    if almost_cleared(b) {
        1000
    } else {
        0
    }
}

/// The full score of a solution: its step scores against the evolving board,
/// plus both clearing bonuses on the final board.
pub open spec fn score_solution_spec(b: BoardView, sol: Seq<Seq<Coord>>) -> nat {
    steps_score(b, sol) + almost_bonus(apply_solution(b, sol)) + clear_bonus(
        apply_solution(b, sol),
    )
}

/// Replaying a solution preserves well-formedness and the dimensions.
pub proof fn lemma_apply_solution_wf(b: BoardView, sol: Seq<Seq<Coord>>)
    requires
        b.wf(),
    ensures
        apply_solution(b, sol).wf(),
        apply_solution(b, sol).width == b.width,
        apply_solution(b, sol).height == b.height,
    decreases sol.len(),
{
    if sol.len() > 0 {
        crate::board::lemma_after_delete_wf(b, sol[0]);
        lemma_apply_solution_wf(after_delete(b, sol[0]), sol.drop_first());
    }
}

/// Incremental scoring agrees with whole-solution replay: appending one play
/// to a solution adds exactly that play's score against the board the
/// solution leaves behind, and applying the extended solution is applying
/// the play to that board.
pub proof fn lemma_score_incremental(b: BoardView, sol: Seq<Seq<Coord>>, p: Seq<Coord>)
    ensures
        steps_score(b, sol.push(p)) == steps_score(b, sol) + score_path_spec(
            apply_solution(b, sol),
            p,
        ),
        apply_solution(b, sol.push(p)) == after_delete(apply_solution(b, sol), p),
    decreases sol.len(),
{
    let ext = sol.push(p);
    if sol.len() == 0 {
        assert(ext[0] == p);
        assert(ext.drop_first() =~= Seq::<Seq<Coord>>::empty());
        assert(steps_score(b, ext) == score_path_spec(b, ext[0]) + steps_score(
            after_delete(b, ext[0]),
            ext.drop_first(),
        ));
        assert(steps_score(after_delete(b, p), ext.drop_first()) == 0);
        assert(apply_solution(b, ext) == apply_solution(after_delete(b, p), ext.drop_first()));
        assert(apply_solution(b, sol) == b);
        assert(steps_score(b, sol) == 0);
    } else {
        assert(ext[0] == sol[0]);
        assert(ext.drop_first() =~= sol.drop_first().push(p));
        lemma_score_incremental(after_delete(b, sol[0]), sol.drop_first(), p);
        assert(steps_score(b, ext) == score_path_spec(b, sol[0]) + steps_score(
            after_delete(b, sol[0]),
            sol.drop_first().push(p),
        ));
        assert(steps_score(b, sol) == score_path_spec(b, sol[0]) + steps_score(
            after_delete(b, sol[0]),
            sol.drop_first(),
        ));
        assert(apply_solution(b, ext) == apply_solution(
            after_delete(b, sol[0]),
            sol.drop_first().push(p),
        ));
        assert(apply_solution(b, sol) == apply_solution(after_delete(b, sol[0]), sol.drop_first()));
    }
}

/// The score of playing `solution` on `board`, replaying it step by step.
pub fn score_solution(board: &Board, solution: &Vec<Vec<Coord>>) -> (r: usize)
    requires
        board.wf(),
        solution_in_bounds(board@, sol_view(solution@)),
        score_solution_spec(board@, sol_view(solution@)) <= usize::MAX,
    ensures
        r == score_solution_spec(board@, sol_view(solution@)),
{
    let ghost b = board@;
    let ghost sv = sol_view(solution@);
    let mut working = board.clone_board();
    let mut acc: usize = 0;
    let mut i: usize = 0;
    proof {
        assert(sv.skip(0) =~= sv);
    }
    while i < solution.len()
        invariant
            board.wf(),
            b == board@,
            sv == sol_view(solution@),
            solution_in_bounds(b, sv),
            sv.len() == solution@.len(),
            i <= solution@.len(),
            working.wf(),
            working@.width == b.width,
            working@.height == b.height,
            acc + steps_score(working@, sv.skip(i as int)) == steps_score(b, sv),
            apply_solution(working@, sv.skip(i as int)) == apply_solution(b, sv),
            score_solution_spec(b, sv) <= usize::MAX,
        decreases solution@.len() - i,
    {
        let p = &solution[i];
        let ghost rest = sv.skip(i as int);
        proof {
            assert(rest[0] == sv[i as int]);
            assert(sv[i as int] == p@);
            assert(rest.drop_first() =~= sv.skip(i + 1));
            assert(steps_score(working@, rest) == score_path_spec(working@, p@) + steps_score(
                after_delete(working@, p@),
                rest.drop_first(),
            ));
        }
        let s = score_path(&working, p);
        acc = acc + s;
        working.delete_path(p);
        i = i + 1;
    }
    proof {
        assert(sv.skip(sv.len() as int) =~= Seq::<Seq<Coord>>::empty());
        assert(working@ == apply_solution(b, sv));
    }
    let mut r = acc;
    if working.is_almost_there() {
        r = r + 1000;
    }
    if working.is_all_empty() {
        r = r + 1000;
    }
    r
}

/// Replays a whole solution on a copy of the board.
pub fn apply_all(board: &Board, solution: &Vec<Vec<Coord>>) -> (r: Board)
    requires
        board.wf(),
        solution_in_bounds(board@, sol_view(solution@)),
    ensures
        r.wf(),
        r@ == apply_solution(board@, sol_view(solution@)),
{
    let ghost b = board@;
    let ghost sv = sol_view(solution@);
    let mut working = board.clone_board();
    let mut i: usize = 0;
    proof {
        assert(sv.skip(0) =~= sv);
    }
    while i < solution.len()
        invariant
            board.wf(),
            b == board@,
            sv == sol_view(solution@),
            solution_in_bounds(b, sv),
            sv.len() == solution@.len(),
            i <= solution@.len(),
            working.wf(),
            working@.width == b.width,
            working@.height == b.height,
            apply_solution(working@, sv.skip(i as int)) == apply_solution(b, sv),
        decreases solution@.len() - i,
    {
        let p = &solution[i];
        let ghost rest = sv.skip(i as int);
        proof {
            assert(rest[0] == sv[i as int]);
            assert(sv[i as int] == p@);
            assert(rest.drop_first() =~= sv.skip(i + 1));
        }
        working.delete_path(p);
        i = i + 1;
    }
    proof {
        assert(sv.skip(sv.len() as int) =~= Seq::<Seq<Coord>>::empty());
    }
    working
}

/// The larger of two lengths.
pub open spec fn max_nat(a: nat, b: nat) -> nat {
    if a >= b {
        a
    } else {
        b
    }
}

/// The length of the longest path of a solution.
pub open spec fn longest_len(sol: Seq<Seq<Coord>>) -> nat
    decreases sol.len(),
{
    if sol.len() == 0 {
        0
    } else {
        max_nat(sol[0].len(), longest_len(sol.drop_first()))
    }
}

/// The length of the longest word a solution plays.
pub fn longest_word(solution: &Vec<Vec<Coord>>) -> (r: usize)
    ensures
        r == longest_len(sol_view(solution@)),
{
    let ghost sv = sol_view(solution@);
    proof {
        assert(sv.skip(0) =~= sv);
        lemma_longest_le(sv, solution@);
    }
    let mut cur: usize = 0;
    let mut i: usize = 0;
    while i < solution.len()
        invariant
            sv == sol_view(solution@),
            sv.len() == solution@.len(),
            i <= solution@.len(),
            max_nat(cur as nat, longest_len(sv.skip(i as int))) == longest_len(sv),
            cur <= longest_len(sv),
            forall|j: int| 0 <= j < sv.len() ==> (#[trigger] sv[j]).len() <= usize::MAX,
        decreases solution@.len() - i,
    {
        let ghost rest = sv.skip(i as int);
        proof {
            assert(rest[0] == sv[i as int]);
            assert(sv[i as int] == solution@[i as int]@);
            assert(rest.drop_first() =~= sv.skip(i + 1));
        }
        let l = solution[i].len();
        if l > cur {
            cur = l;
        }
        i = i + 1;
    }
    proof {
        assert(sv.skip(sv.len() as int) =~= Seq::<Seq<Coord>>::empty());
    }
    cur
}

/// Each path of a solution fits in memory, so its length fits in a machine
/// word.
proof fn lemma_longest_le(sv: Seq<Seq<Coord>>, sol: Seq<Vec<Coord>>)
    requires
        sv == sol_view(sol),
    ensures
        forall|j: int| 0 <= j < sv.len() ==> (#[trigger] sv[j]).len() <= usize::MAX,
{
    assert forall|j: int| 0 <= j < sv.len() implies (#[trigger] sv[j]).len() <= usize::MAX by {
        assert(sv[j] == sol[j]@);
        assert(sol[j].len() == sol[j]@.len());
    }
}

/// The best single-path score of a solution, each path scored against the
/// board its predecessors left.
pub open spec fn best_step_score(b: BoardView, sol: Seq<Seq<Coord>>) -> nat
    decreases sol.len(),
{
    if sol.len() == 0 {
        0
    } else {
        max_nat(
            score_path_spec(b, sol[0]),
            best_step_score(after_delete(b, sol[0]), sol.drop_first()),
        )
    }
}

/// The highest-scoring single play of `solution`, replayed in order.
pub fn best_word_score(board: &Board, solution: &Vec<Vec<Coord>>) -> (r: usize)
    requires
        board.wf(),
        solution_in_bounds(board@, sol_view(solution@)),
        best_step_score(board@, sol_view(solution@)) <= usize::MAX,
    ensures
        r == best_step_score(board@, sol_view(solution@)),
{
    let ghost b = board@;
    let ghost sv = sol_view(solution@);
    let mut working = board.clone_board();
    let mut cur: usize = 0;
    let mut i: usize = 0;
    proof {
        assert(sv.skip(0) =~= sv);
    }
    while i < solution.len()
        invariant
            board.wf(),
            b == board@,
            sv == sol_view(solution@),
            solution_in_bounds(b, sv),
            sv.len() == solution@.len(),
            i <= solution@.len(),
            working.wf(),
            working@.width == b.width,
            working@.height == b.height,
            max_nat(cur as nat, best_step_score(working@, sv.skip(i as int))) == best_step_score(
                b,
                sv,
            ),
            cur <= best_step_score(b, sv),
            best_step_score(b, sv) <= usize::MAX,
        decreases solution@.len() - i,
    {
        let p = &solution[i];
        let ghost rest = sv.skip(i as int);
        proof {
            assert(rest[0] == sv[i as int]);
            assert(sv[i as int] == p@);
            assert(rest.drop_first() =~= sv.skip(i + 1));
            assert(best_step_score(working@, rest) == max_nat(
                score_path_spec(working@, p@),
                best_step_score(after_delete(working@, p@), rest.drop_first()),
            ));
        }
        let s = score_path(&working, p);
        if s > cur {
            cur = s;
        }
        working.delete_path(p);
        i = i + 1;
    }
    proof {
        assert(sv.skip(sv.len() as int) =~= Seq::<Seq<Coord>>::empty());
    }
    cur
}

/// An entirely empty column keeps no tile.
proof fn lemma_kept_empty(col: Seq<Cell>, r: int)
    requires
        0 <= r <= col.len(),
        forall|i: int| r <= i < col.len() ==> col[i] == Cell::Empty,
    ensures
        crate::board::kept_from(col, r).len() == 0,
    decreases col.len() - r,
{
    if r < col.len() {
        lemma_kept_empty(col, r + 1);
    }
}

/// An all-empty board is in particular almost cleared.
pub proof fn lemma_all_empty_almost_cleared(b: BoardView)
    requires
        b.wf(),
        b.all_empty(),
    ensures
        almost_cleared(b),
{
    assert forall|c: int| 0 <= c < b.width implies crate::board::col_count(b, c) <= 2 by {
        let col = b.column(c);
        assert forall|i: int| 0 <= i < col.len() implies col[i] == Cell::Empty by {
            crate::board::lemma_index_in_range(b, i, c);
        }
        lemma_kept_empty(col, 0);
    }
}

/// A solution that clears the board entirely collects the full-clear bonus:
/// it scores exactly 1000 more than its step scores and almost-clear bonus
/// alone, and the almost-clear bonus is then also owed, so 2000 in all.
pub proof fn lemma_full_clear_bonus(b: BoardView, sol: Seq<Seq<Coord>>)
    requires
        b.wf(),
        apply_solution(b, sol).all_empty(),
    ensures
        score_solution_spec(b, sol) == steps_score(b, sol) + almost_bonus(apply_solution(b, sol))
            + 1000,
        score_solution_spec(b, sol) == steps_score(b, sol) + 2000,
{
    lemma_apply_solution_wf(b, sol);
    lemma_all_empty_almost_cleared(apply_solution(b, sol));
}

/// No letter is worth more than 12 points, so a cell sum is bounded by the
/// number of cells summed.
proof fn lemma_sum_scores_bound(b: BoardView, s: Seq<Coord>, i: int)
    requires
        0 <= i <= s.len(),
    ensures
        sum_scores_from(b, s, i) <= 12 * (s.len() - i),
    decreases s.len() - i,
{
    if i < s.len() {
        lemma_sum_scores_bound(b, s, i + 1);
        assert(cell_score(b.cell(s[i].row as int, s[i].col as int)) <= 12);
    }
}

/// The deletion sequence never names more cells than the board has.
proof fn lemma_del_from_len(b: BoardView, p: Seq<Coord>, k: int)
    requires
        0 <= k <= b.area(),
    ensures
        del_from(b, p, k).len() <= b.area() - k,
    decreases b.area() - k,
{
    if k < b.area() {
        lemma_del_from_len(b, p, k + 1);
    }
}

/// Whether every path score on a board of this size fits in a machine word:
/// the largest possible sum (12 per cell), times the longest possible path,
/// times the largest possible bonus factor.
pub open spec fn scores_fit(b: BoardView) -> bool {
    (12 * b.area() * b.area()) * (b.area() + 1) <= usize::MAX
}

/// Any unrepeated on-board path scores at most 12·area·area·(area+1).
pub proof fn lemma_score_path_bounded(b: BoardView, p: Seq<Coord>)
    requires
        b.wf(),
        path_in_bounds(b, p),
        p.no_duplicates(),
    ensures
        score_path_spec(b, p) <= (12 * b.area() * b.area()) * (b.area() + 1),
{
    let area = b.area();
    lemma_del_from_len(b, p, 0);
    lemma_sum_scores_bound(b, deletable_seq(b, p), 0);
    crate::paths::lemma_path_len_bounded(b, p);
    lemma_bonus_count_le(b, p, 0);
    let s = del_score(b, p);
    let l = p.len() as nat;
    let f = bonus_count_from(b, p, 0) + 1;
    assert(s * l <= 12 * area * area) by (nonlinear_arith)
        requires
            0 <= s <= 12 * area,
            0 <= l <= area,
    ;
    assert((s * l) * f <= (12 * area * area) * (area + 1)) by (nonlinear_arith)
        requires
            0 <= s * l <= 12 * area * area,
            0 < f <= area + 1,
    ;
}

/// Only the bound `bonus_count <= len` needs induction; prove it once.
proof fn lemma_bonus_count_le(b: BoardView, p: Seq<Coord>, i: int)
    requires
        0 <= i <= p.len(),
    ensures
        bonus_count_from(b, p, i) <= p.len() - i,
    decreases p.len() - i,
{
    if i < p.len() {
        lemma_bonus_count_le(b, p, i + 1);
    }
}

} // verus!

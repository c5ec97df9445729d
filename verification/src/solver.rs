//! The greedy solver and the annealing neighbor move.  The greedy solver
//! repeatedly plays the best-scoring path the finder offers until none is
//! left.  The neighbor move truncates a solution at a random point, replays
//! the kept prefix, plays one random candidate, and completes greedily.

use vstd::prelude::*;

verus! {

use crate::board::Board;
use crate::board::BoardView;
use crate::board::Coord;
use crate::board::after_delete;
use crate::board::tiles;
use crate::board::lemma_delete_decreases_tiles;
use crate::paths::contains_path;
use crate::paths::find_paths;
use crate::paths::has_word_path;
use crate::paths::valid_word_path;
use crate::rng::rng_below;
use crate::scoring::apply_solution;
use crate::scoring::lemma_apply_solution_wf;
use crate::scoring::lemma_score_incremental;
use crate::scoring::lemma_score_path_bounded;
use crate::scoring::score_path;
use crate::scoring::score_path_spec;
use crate::scoring::scores_fit;
use crate::scoring::sol_view;
use crate::words::Node;

/// What a greedy choice promises at step `i` against a rival word path `q`
/// on the board the first `i` plays leave: `q` scores no more than the
/// chosen play, and on a score tie the chosen play is `q` itself or comes
/// first in the tie-break order.
pub open spec fn greedy_step_ok(
    b: BoardView,
    root: Node,
    sol: Seq<Seq<Coord>>,
    i: int,
    q: Seq<Coord>,
) -> bool {
    valid_word_path(apply_solution(b, sol.take(i)), root, q) ==> {
        &&& score_path_spec(apply_solution(b, sol.take(i)), q) <= score_path_spec(
            apply_solution(b, sol.take(i)),
            sol[i],
        )
        &&& (score_path_spec(apply_solution(b, sol.take(i)), q) == score_path_spec(
            apply_solution(b, sol.take(i)),
            sol[i],
        ) ==> sol[i] == q || path_lt(sol[i], q))
    }
}

/// From index `from` on, every play of the solution is the one the greedy
/// rule picks: maximal-scoring among all word paths available on the board
/// it was played on, ties broken by the fixed `path_lt` order.
pub open spec fn greedy_from(b: BoardView, root: Node, sol: Seq<Seq<Coord>>, from: int) -> bool {
    forall|i: int, q: Seq<Coord>|
        from <= i < sol.len() ==> #[trigger] greedy_step_ok(b, root, sol, i, q)
}

/// Strict ordering of board positions: by row, then by column.
pub open spec fn coord_lt(a: Coord, n: Coord) -> bool {
    a.row < n.row || (a.row == n.row && a.col < n.col)
}

/// Strict lexicographic ordering of paths by their positions, a proper
/// prefix first: the fixed tie-break order of the greedy solver.
pub open spec fn path_lt(a: Seq<Coord>, n: Seq<Coord>) -> bool
    decreases a.len(),
{
    if n.len() == 0 {
        false
    } else if a.len() == 0 {
        true
    } else if a[0] != n[0] {
        coord_lt(a[0], n[0])
    } else {
        path_lt(a.drop_first(), n.drop_first())
    }
}

/// The tie-break order is a strict total order: two paths are equal or
/// ordered one way, never both.
pub proof fn lemma_path_lt_total(a: Seq<Coord>, n: Seq<Coord>)
    ensures
        a == n || path_lt(a, n) || path_lt(n, a),
        !(path_lt(a, n) && path_lt(n, a)),
    decreases a.len(),
{
    if a.len() == 0 && n.len() == 0 {
        assert(a =~= n);
    } else if a.len() != 0 && n.len() != 0 && a[0] == n[0] {
        lemma_path_lt_total(a.drop_first(), n.drop_first());
        if a.drop_first() == n.drop_first() {
            assert forall|k: int| 0 <= k < a.len() implies a[k] == n[k] by {
                if k > 0 {
                    assert(a[k] == a.drop_first()[k - 1]);
                    assert(n[k] == n.drop_first()[k - 1]);
                }
            }
            assert(a =~= n);
        }
    }
}

/// The tie-break order is transitive.
pub proof fn lemma_path_lt_trans(a: Seq<Coord>, m: Seq<Coord>, n: Seq<Coord>)
    requires
        path_lt(a, m),
        path_lt(m, n),
    ensures
        path_lt(a, n),
    decreases a.len(),
{
    if a.len() != 0 {
        if a[0] == m[0] && m[0] == n[0] {
            lemma_path_lt_trans(a.drop_first(), m.drop_first(), n.drop_first());
        }
    }
}

/// Whether `a` comes strictly before `n` in the tie-break order.
fn path_less(a: &Vec<Coord>, n: &Vec<Coord>) -> (r: bool)
    ensures
        r == path_lt(a@, n@),
{
    let len = if a.len() < n.len() {
        a.len()
    } else {
        n.len()
    };
    let mut i: usize = 0;
    proof {
        assert(a@.skip(0) =~= a@);
        assert(n@.skip(0) =~= n@);
    }
    while i < len
        invariant
            len <= a@.len(),
            len <= n@.len(),
            len == a@.len() || len == n@.len(),
            i <= len,
            path_lt(a@, n@) == path_lt(a@.skip(i as int), n@.skip(i as int)),
        decreases len - i,
    {
        let x = a[i];
        let y = n[i];
        proof {
            assert(a@.skip(i as int)[0] == a@[i as int]);
            assert(n@.skip(i as int)[0] == n@[i as int]);
            assert(a@.skip(i as int).drop_first() =~= a@.skip(i + 1));
            assert(n@.skip(i as int).drop_first() =~= n@.skip(i + 1));
        }
        if x.row != y.row || x.col != y.col {
            return (x.row < y.row) || (x.row == y.row && x.col < y.col);
        }
        i = i + 1;
    }
    proof {
        if a@.len() < n@.len() {
            assert(a@.skip(len as int).len() == 0 && n@.skip(len as int).len() > 0);
        } else {
            assert(n@.skip(len as int).len() == 0);
        }
    }
    a.len() < n.len()
}

/// The shape of a neighbor move's output: some prefix of the input solution
/// is kept unchanged, and everything after the one freshly drawn play at
/// `cut` is a greedy completion.
pub open spec fn nudged_from(
    b: BoardView,
    root: Node,
    before: Seq<Seq<Coord>>,
    after: Seq<Seq<Coord>>,
    cut: int,
) -> bool {
    &&& 0 <= cut <= before.len()
    &&& cut <= after.len()
    &&& after.take(cut) == before.take(cut)
    &&& greedy_from(b, root, after, cut + 1)
}

/// Each path of the solution is a dictionary word path on the board its
/// predecessors leave behind.
pub open spec fn playable(b: BoardView, root: Node, sol: Seq<Seq<Coord>>) -> bool
    decreases sol.len(),
{
    if sol.len() == 0 {
        true
    } else {
        valid_word_path(b, root, sol[0]) && playable(after_delete(b, sol[0]), root, sol.drop_first())
    }
}

/// Extending a playable solution by one play keeps it playable exactly when
/// the play is a word path on the board the solution leaves.
pub proof fn lemma_playable_snoc(b: BoardView, root: Node, sol: Seq<Seq<Coord>>, p: Seq<Coord>)
    ensures
        playable(b, root, sol.push(p)) <==> (playable(b, root, sol) && valid_word_path(
            apply_solution(b, sol),
            root,
            p,
        )),
    decreases sol.len(),
{
    let ext = sol.push(p);
    if sol.len() == 0 {
        assert(ext[0] == p);
        assert(ext.drop_first() =~= Seq::<Seq<Coord>>::empty());
        assert(playable(after_delete(b, p), root, ext.drop_first()));
    } else {
        assert(ext[0] == sol[0]);
        assert(ext.drop_first() =~= sol.drop_first().push(p));
        lemma_playable_snoc(after_delete(b, sol[0]), root, sol.drop_first(), p);
    }
}

/// A prefix of a playable solution is playable.
pub proof fn lemma_playable_take(b: BoardView, root: Node, sol: Seq<Seq<Coord>>, n: int)
    requires
        playable(b, root, sol),
        0 <= n <= sol.len(),
    ensures
        playable(b, root, sol.take(n)),
    decreases n,
{
    if n > 0 {
        let t = sol.take(n);
        assert(t[0] == sol[0]);
        assert(t.drop_first() =~= sol.drop_first().take(n - 1));
        lemma_playable_take(after_delete(b, sol[0]), root, sol.drop_first(), n - 1);
    }
}

/// The `i`-th play of a playable solution is a word path on the board that
/// replaying the first `i` plays produces.
pub proof fn lemma_playable_index(b: BoardView, root: Node, sol: Seq<Seq<Coord>>, i: int)
    requires
        playable(b, root, sol),
        0 <= i < sol.len(),
    ensures
        valid_word_path(apply_solution(b, sol.take(i)), root, sol[i]),
    decreases i,
{
    if i == 0 {
        assert(sol.take(0) =~= Seq::<Seq<Coord>>::empty());
    } else {
        let rest = sol.drop_first();
        lemma_playable_index(after_delete(b, sol[0]), root, rest, i - 1);
        assert(sol.take(i)[0] == sol[0]);
        assert(sol.take(i).drop_first() =~= rest.take(i - 1));
        assert(rest[i - 1] == sol[i]);
    }
}

/// The index of the best-scoring candidate, score ties broken by the fixed
/// `path_lt` order.
fn best_candidate(working: &Board, cands: &Vec<Vec<Coord>>) -> (idx: usize)
    requires
        working.wf(),
        scores_fit(working@),
        cands@.len() >= 1,
        forall|i: int|
            0 <= i < cands@.len() ==> crate::board::path_in_bounds(working@, (#[trigger] cands@[i])@)
                && cands@[i]@.no_duplicates(),
    ensures
        idx < cands@.len(),
        forall|i: int|
            0 <= i < cands@.len() ==> score_path_spec(working@, (#[trigger] cands@[i])@)
                <= score_path_spec(working@, cands@[idx as int]@),
        forall|i: int|
            0 <= i < cands@.len() && score_path_spec(working@, (#[trigger] cands@[i])@)
                == score_path_spec(working@, cands@[idx as int]@) ==> cands@[idx as int]@
                == cands@[i]@ || path_lt(cands@[idx as int]@, cands@[i]@),
{
    proof {
        lemma_score_path_bounded(working@, cands@[0]@);
    }
    let mut idx: usize = 0;
    let mut best = score_path(working, &cands[0]);
    let mut i: usize = 1;
    while i < cands.len()
        invariant
            working.wf(),
            scores_fit(working@),
            cands@.len() >= 1,
            forall|j: int|
                0 <= j < cands@.len() ==> crate::board::path_in_bounds(
                    working@,
                    (#[trigger] cands@[j])@,
                ) && cands@[j]@.no_duplicates(),
            1 <= i <= cands@.len(),
            idx < cands@.len(),
            best == score_path_spec(working@, cands@[idx as int]@),
            forall|j: int|
                0 <= j < i ==> score_path_spec(working@, (#[trigger] cands@[j])@) <= best,
            forall|j: int|
                0 <= j < i && score_path_spec(working@, (#[trigger] cands@[j])@) == best
                    ==> cands@[idx as int]@ == cands@[j]@ || path_lt(
                    cands@[idx as int]@,
                    cands@[j]@,
                ),
        decreases cands@.len() - i,
    {
        proof {
            lemma_score_path_bounded(working@, cands@[i as int]@);
        }
        let ghost prev = idx as int;
        let s = score_path(working, &cands[i]);
        if s > best {
            best = s;
            idx = i;
        } else if s == best && path_less(&cands[i], &cands[idx]) {
            idx = i;
            proof {
                assert forall|j: int|
                    0 <= j < i + 1 && score_path_spec(working@, (#[trigger] cands@[j])@)
                        == best implies cands@[i as int]@ == cands@[j]@ || path_lt(
                    cands@[i as int]@,
                    cands@[j]@,
                ) by {
                    if j < i {
                        if cands@[prev]@ == cands@[j]@ {
                        } else {
                            lemma_path_lt_trans(cands@[i as int]@, cands@[prev]@, cands@[j]@);
                        }
                    }
                }
            }
        } else {
            proof {
                if s == best {
                    lemma_path_lt_total(cands@[i as int]@, cands@[prev]@);
                }
            }
        }
        i = i + 1;
    }
    idx
}

/// Plays best-scoring paths until the finder offers none, appending each to
/// `solution`; the working board tracks the replayed solution throughout.
fn greedy_extend(
    working: &mut Board,
    root: &Node,
    solution: &mut Vec<Vec<Coord>>,
    b0: Ghost<BoardView>,
)
    requires
        old(working).wf(),
        root.wf(),
        b0@.wf(),
        scores_fit(b0@),
        old(working)@ == apply_solution(b0@, sol_view(old(solution)@)),
        playable(b0@, *root, sol_view(old(solution)@)),
    ensures
        final(working).wf(),
        final(working)@ == apply_solution(b0@, sol_view(final(solution)@)),
        playable(b0@, *root, sol_view(final(solution)@)),
        !has_word_path(final(working)@, *root),
        final(solution)@.len() >= old(solution)@.len(),
        forall|i: int|
            0 <= i < old(solution)@.len() ==> #[trigger] final(solution)@[i] == old(solution)@[i],
        greedy_from(b0@, *root, sol_view(final(solution)@), old(solution)@.len() as int),
{
    proof {
        lemma_apply_solution_wf(b0@, sol_view(solution@));
    }
    loop
        invariant
            working.wf(),
            root.wf(),
            b0@.wf(),
            scores_fit(b0@),
            working@.width == b0@.width,
            working@.height == b0@.height,
            working@ == apply_solution(b0@, sol_view(solution@)),
            playable(b0@, *root, sol_view(solution@)),
            solution@.len() >= old(solution)@.len(),
            forall|i: int|
                0 <= i < old(solution)@.len() ==> #[trigger] solution@[i] == old(solution)@[i],
            greedy_from(b0@, *root, sol_view(solution@), old(solution)@.len() as int),
        ensures
            working.wf(),
            working@ == apply_solution(b0@, sol_view(solution@)),
            playable(b0@, *root, sol_view(solution@)),
            !has_word_path(working@, *root),
            solution@.len() >= old(solution)@.len(),
            forall|i: int|
                0 <= i < old(solution)@.len() ==> #[trigger] solution@[i] == old(solution)@[i],
            greedy_from(b0@, *root, sol_view(solution@), old(solution)@.len() as int),
        decreases tiles(working@),
    {
        let mut cands = find_paths(working, root);
        if cands.len() == 0 {
            break ;
        }
        proof {
            assert forall|i: int|
                0 <= i < cands@.len() implies crate::board::path_in_bounds(
                working@,
                (#[trigger] cands@[i])@,
            ) && cands@[i]@.no_duplicates() by {
                assert(valid_word_path(working@, *root, cands@[i]@));
            }
        }
        let idx = best_candidate(working, &cands);
        let ghost cands0 = cands@;
        let best = cands.swap_remove(idx);
        let ghost sv = sol_view(solution@);
        let ghost wb = working@;
        proof {
            assert(valid_word_path(wb, *root, best@));
            lemma_delete_decreases_tiles(wb, best@);
        }
        working.delete_path(&best);
        solution.push(best);
        proof {
            assert(sol_view(solution@) =~= sv.push(sol_view(solution@)[sv.len() as int]));
            lemma_playable_snoc(b0@, *root, sv, sol_view(solution@)[sv.len() as int]);
            lemma_score_incremental(b0@, sv, sol_view(solution@)[sv.len() as int]);
            let svn = sol_view(solution@);
            assert(svn[sv.len() as int] == best@);
            assert forall|i: int, q: Seq<Coord>|
                old(solution)@.len() <= i < svn.len() implies #[trigger] greedy_step_ok(
                b0@,
                *root,
                svn,
                i,
                q,
            ) by {
                if i < sv.len() {
                    assert(greedy_step_ok(b0@, *root, sv, i, q));
                    assert(svn.take(i) =~= sv.take(i));
                    assert(svn[i] == sv[i]);
                    assert(apply_solution(b0@, svn.take(i)) == apply_solution(b0@, sv.take(i)));
                } else {
                    assert(i == sv.len());
                    assert(svn.take(i) =~= sv);
                    assert(apply_solution(b0@, svn.take(i)) == wb);
                    assert(svn[i] == best@);
                    if valid_word_path(wb, *root, q) {
                        assert(contains_path(cands0, q));
                        let j = choose|j: int|
                            0 <= j < cands0.len() && (#[trigger] cands0[j])@ == q;
                        assert(score_path_spec(wb, cands0[j]@) <= score_path_spec(
                            wb,
                            cands0[idx as int]@,
                        ));
                        if score_path_spec(wb, q) == score_path_spec(wb, best@) {
                            assert(cands0[idx as int]@ == cands0[j]@ || path_lt(
                                cands0[idx as int]@,
                                cands0[j]@,
                            ));
                        }
                    }
                }
            }
        }
    }
}

/// Builds a whole solution by always playing the best-scoring available path
/// on the working copy of the board, ties broken by the fixed `path_lt`
/// order, until no path is left.  By `lemma_greedy_unique`, this contract
/// admits exactly one output per board and dictionary: the solver is
/// deterministic.
pub fn solve_greedy(board: &Board, root: &Node) -> (sol: Vec<Vec<Coord>>)
    requires
        board.wf(),
        root.wf(),
        scores_fit(board@),
    ensures
        playable(board@, *root, sol_view(sol@)),
        !has_word_path(apply_solution(board@, sol_view(sol@)), *root),
        greedy_from(board@, *root, sol_view(sol@), 0),
{
    let mut working = board.clone_board();
    let mut sol: Vec<Vec<Coord>> = Vec::new();
    proof {
        assert(sol_view(sol@) =~= Seq::<Seq<Coord>>::empty());
    }
    greedy_extend(&mut working, root, &mut sol, Ghost(board@));
    sol
}

/// The greedy solver is deterministic: any two playable solutions that are
/// greedy at every step and leave an exhausted board are the same solution,
/// so `solve_greedy`'s contract admits exactly one output per board and
/// dictionary.
pub proof fn lemma_greedy_unique(
    b: BoardView,
    root: Node,
    sol1: Seq<Seq<Coord>>,
    sol2: Seq<Seq<Coord>>,
)
    requires
        playable(b, root, sol1),
        greedy_from(b, root, sol1, 0),
        !has_word_path(apply_solution(b, sol1), root),
        playable(b, root, sol2),
        greedy_from(b, root, sol2, 0),
        !has_word_path(apply_solution(b, sol2), root),
    ensures
        sol1 == sol2,
    decreases sol1.len(),
{
    if sol1.len() == 0 && sol2.len() == 0 {
        assert(sol1 =~= sol2);
    } else if sol1.len() == 0 {
        assert(valid_word_path(b, root, sol2[0]));
        assert(apply_solution(b, sol1) == b);
        assert(has_word_path(b, root));
    } else if sol2.len() == 0 {
        assert(valid_word_path(b, root, sol1[0]));
        assert(apply_solution(b, sol2) == b);
        assert(has_word_path(b, root));
    } else {
        let p1 = sol1[0];
        let p2 = sol2[0];
        assert(sol1.take(0) =~= Seq::<Seq<Coord>>::empty());
        assert(sol2.take(0) =~= Seq::<Seq<Coord>>::empty());
        assert(apply_solution(b, sol1.take(0)) == b);
        assert(apply_solution(b, sol2.take(0)) == b);
        assert(valid_word_path(b, root, p1));
        assert(valid_word_path(b, root, p2));
        assert(greedy_step_ok(b, root, sol1, 0, p2));
        assert(greedy_step_ok(b, root, sol2, 0, p1));
        assert(score_path_spec(b, p1) == score_path_spec(b, p2));
        lemma_path_lt_total(p1, p2);
        assert(p1 == p2);
        let b2 = after_delete(b, p1);
        assert forall|i: int, q: Seq<Coord>|
            0 <= i < sol1.drop_first().len() implies #[trigger] greedy_step_ok(
            b2,
            root,
            sol1.drop_first(),
            i,
            q,
        ) by {
            assert(greedy_step_ok(b, root, sol1, i + 1, q));
            assert(sol1.take(i + 1)[0] == sol1[0]);
            assert(sol1.take(i + 1).drop_first() =~= sol1.drop_first().take(i));
            assert(apply_solution(b, sol1.take(i + 1)) == apply_solution(
                b2,
                sol1.drop_first().take(i),
            ));
            assert(sol1[i + 1] == sol1.drop_first()[i]);
        }
        assert forall|i: int, q: Seq<Coord>|
            0 <= i < sol2.drop_first().len() implies #[trigger] greedy_step_ok(
            b2,
            root,
            sol2.drop_first(),
            i,
            q,
        ) by {
            assert(greedy_step_ok(b, root, sol2, i + 1, q));
            assert(sol2.take(i + 1)[0] == sol2[0]);
            assert(sol2.take(i + 1).drop_first() =~= sol2.drop_first().take(i));
            assert(apply_solution(b, sol2.take(i + 1)) == apply_solution(
                b2,
                sol2.drop_first().take(i),
            ));
            assert(sol2[i + 1] == sol2.drop_first()[i]);
        }
        assert(apply_solution(b, sol1) == apply_solution(b2, sol1.drop_first()));
        assert(apply_solution(b, sol2) == apply_solution(b2, sol2.drop_first()));
        lemma_greedy_unique(b2, root, sol1.drop_first(), sol2.drop_first());
        assert(sol1 =~= sol2) by {
            assert forall|k: int| 0 <= k < sol1.len() implies sol1[k] == sol2[k] by {
                if k > 0 {
                    assert(sol1[k] == sol1.drop_first()[k - 1]);
                    assert(sol2[k] == sol2.drop_first()[k - 1]);
                }
            }
        }
    }
}

/// The annealing move: truncate the solution at a random point, replay the
/// kept prefix, play one randomly drawn candidate, then complete greedily.
/// When the truncated board offers no candidate the cut moves toward the
/// start, so the retry always terminates; if even the full board offers
/// none, the solution becomes the empty one.  The result keeps a prefix of
/// the input and is greedily maximal after the drawn play; which candidate
/// the draw picks is random and so deliberately unspecified.
pub fn nudge_solution(
    board: &Board,
    root: &Node,
    solution: &mut Vec<Vec<Coord>>,
    rng: &mut rand_xoshiro::Xoshiro256PlusPlus,
)
    requires
        board.wf(),
        root.wf(),
        scores_fit(board@),
        playable(board@, *root, sol_view(old(solution)@)),
    ensures
        playable(board@, *root, sol_view(final(solution)@)),
        !has_word_path(apply_solution(board@, sol_view(final(solution)@)), *root),
        exists|cut: int|
            nudged_from(
                board@,
                *root,
                sol_view(old(solution)@),
                sol_view(final(solution)@),
                cut,
            ),
{
    let ghost b0 = board@;
    let mut cut: usize = if solution.len() > 0 {
        rng_below(rng, solution.len())
    } else {
        0
    };
    loop
        invariant
            board.wf(),
            root.wf(),
            b0 == board@,
            scores_fit(b0),
            playable(b0, *root, sol_view(solution@)),
            solution@ == old(solution)@,
            cut <= solution@.len(),
        decreases cut,
    {
        let ghost sv = sol_view(solution@);
        let ghost svc = sv.take(cut as int);
        proof {
            lemma_playable_take(b0, *root, sv, cut as int);
        }
        let mut working = board.clone_board();
        let mut j: usize = 0;
        while j < cut
            invariant
                board.wf(),
                root.wf(),
                b0 == board@,
                sv == sol_view(solution@),
                svc == sv.take(cut as int),
                playable(b0, *root, sv),
                playable(b0, *root, svc),
                cut <= solution@.len(),
                j <= cut,
                working.wf(),
                working@.width == b0.width,
                working@.height == b0.height,
                working@ == apply_solution(b0, svc.take(j as int)),
            decreases cut - j,
        {
            proof {
                assert(svc[j as int] == sv[j as int]);
                assert(sv[j as int] == solution@[j as int]@);
                lemma_playable_index(b0, *root, svc, j as int);
                lemma_score_incremental(b0, svc.take(j as int), svc[j as int]);
                assert(svc.take(j as int).push(svc[j as int]) =~= svc.take(j + 1));
                lemma_apply_solution_wf(b0, svc.take(j + 1));
            }
            let p = &solution[j];
            working.delete_path(p);
            j = j + 1;
        }
        proof {
            assert(svc.take(cut as int) =~= svc);
        }
        let mut cands = find_paths(&working, root);
        if cands.len() > 0 {
            let pick = rng_below(rng, cands.len());
            let chosen = cands.swap_remove(pick);
            solution.truncate(cut);
            proof {
                assert(sol_view(solution@) =~= svc);
                assert(valid_word_path(working@, *root, chosen@));
                lemma_playable_snoc(b0, *root, svc, chosen@);
                lemma_score_incremental(b0, svc, chosen@);
            }
            working.delete_path(&chosen);
            solution.push(chosen);
            proof {
                assert(sol_view(solution@) =~= svc.push(sol_view(solution@)[svc.len() as int]));
            }
            let ghost pushed = solution@;
            greedy_extend(&mut working, root, solution, Ghost(b0));
            proof {
                let svo = sv;
                let svf = sol_view(solution@);
                assert(pushed.len() == cut + 1);
                assert(svf.take(cut as int) =~= svo.take(cut as int)) by {
                    assert forall|i: int| 0 <= i < cut implies svf.take(cut as int)[i] == svo.take(
                        cut as int,
                    )[i] by {
                        assert(solution@[i] == pushed[i]);
                        assert(pushed[i] == old(solution)@[i]);
                        assert(svf[i] == solution@[i]@);
                        assert(svo[i] == old(solution)@[i]@);
                    }
                }
                assert(greedy_from(b0, *root, svf, cut + 1));
                assert(nudged_from(b0, *root, svo, svf, cut as int));
            }
            return ;
        }
        if cut == 0 {
            solution.truncate(0);
            proof {
                assert(sol_view(solution@) =~= Seq::<Seq<Coord>>::empty());
                assert(svc =~= Seq::<Seq<Coord>>::empty());
                assert(working@ == apply_solution(b0, sol_view(solution@)));
                let svf = sol_view(solution@);
                assert(svf.take(0) =~= sv.take(0));
                assert(nudged_from(b0, *root, sv, svf, 0));
            }
            return ;
        }
        cut = cut - 1;
    }
}

} // verus!

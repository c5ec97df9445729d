//! The path finder: a depth-first search that, from every starting cell,
//! extends a path to each unvisited 8-neighbor whose letter continues a
//! prefix of the dictionary, and emits the path whenever the prefix is a
//! complete word, still searching deeper for longer words.

use vstd::prelude::*;

verus! {

use crate::board::Board;
use crate::board::BoardView;
use crate::board::Cell;
use crate::board::Coord;
use crate::board::path_in_bounds;
use crate::board::lemma_index_in_range;
use crate::words::Node;
use crate::words::lemma_walk_push;
use crate::words::lemma_walk_prefix;
use vstd::set_lib::lemma_int_range;
use vstd::set_lib::lemma_len_subset;
use vstd::set_lib::set_int_range;

/// The two positions differ and are within one row and one column of each
/// other: the 8-neighborhood.
pub open spec fn adjacent8(a: Coord, n: Coord) -> bool {
    &&& a != n
    &&& a.row <= n.row + 1
    &&& n.row <= a.row + 1
    &&& a.col <= n.col + 1
    &&& n.col <= a.col + 1
}

/// A legal walk on the board: at least one cell, all on the board, none
/// repeated, each consecutive pair 8-adjacent.
pub open spec fn path_wf(b: BoardView, p: Seq<Coord>) -> bool {
    &&& p.len() >= 1
    &&& path_in_bounds(b, p)
    &&& p.no_duplicates()
    &&& forall|k: int| 1 <= k < p.len() ==> adjacent8(p[k - 1], #[trigger] p[k])
}

/// The letter a cell shows; only meaningful on letter cells.
pub open spec fn cell_letter(x: Cell) -> char {
    match x {
        Cell::Letter(l, _) => l,
        _ => 'A',
    }
}

/// Every cell of the path holds a letter tile.
pub open spec fn path_cells_letters(b: BoardView, p: Seq<Coord>) -> bool {
    forall|k: int|
        0 <= k < p.len() ==> (#[trigger] b.cell(p[k].row as int, p[k].col as int)) matches Cell::Letter(_, _)
}

/// The word the path spells, letter by letter.
pub open spec fn path_word(b: BoardView, p: Seq<Coord>) -> Seq<char> {
    Seq::new(p.len(), |k: int| cell_letter(b.cell(p[k].row as int, p[k].col as int)))
}

/// A legal walk over letter tiles that spells a word of the dictionary.
pub open spec fn valid_word_path(b: BoardView, root: Node, p: Seq<Coord>) -> bool {
    &&& path_wf(b, p)
    &&& path_cells_letters(b, p)
    &&& root.contains_word(path_word(b, p))
}

/// A path without repeated positions cannot be longer than the board has
/// cells.
pub proof fn lemma_path_len_bounded(b: BoardView, p: Seq<Coord>)
    requires
        b.wf(),
        path_in_bounds(b, p),
        p.no_duplicates(),
    ensures
        p.len() <= b.area(),
{
    let f = |x: Coord| (x.row as int) * b.width + x.col;
    let idxs = p.map_values(f);
    assert forall|i: int, j: int| 0 <= i < idxs.len() && 0 <= j < idxs.len() && i != j implies idxs[i]
        != idxs[j] by {
        crate::board::lemma_coord_flat(b, p[i].row as int, p[i].col as int);
        crate::board::lemma_coord_flat(b, p[j].row as int, p[j].col as int);
    }
    assert(idxs.no_duplicates());
    idxs.unique_seq_to_set();
    let range = set_int_range(0, b.area() as int);
    lemma_int_range(0, b.area() as int);
    assert forall|x: int| idxs.to_set().contains(x) implies range.contains(x) by {
        let k = choose|k: int| 0 <= k < idxs.len() && idxs[k] == x;
        lemma_index_in_range(b, p[k].row as int, p[k].col as int);
    }
    lemma_len_subset(idxs.to_set(), range);
}

/// Whether the path already visits `x`.
fn path_contains(p: &Vec<Coord>, x: Coord) -> (res: bool)
    ensures
        res == p@.contains(x),
{
    let mut k: usize = 0;
    while k < p.len()
        invariant
            k <= p@.len(),
            forall|j: int| 0 <= j < k ==> p@[j] != x,
        decreases p@.len() - k,
    {
        if p[k].row == x.row && p[k].col == x.col {
            assert(p@[k as int] == x);
            return true;
        }
        k = k + 1;
    }
    false
}

fn clone_path(p: &Vec<Coord>) -> (r: Vec<Coord>)
    ensures
        r@ == p@,
{
    let mut out: Vec<Coord> = Vec::new();
    let mut i: usize = 0;
    while i < p.len()
        invariant
            i <= p@.len(),
            out@ == p@.take(i as int),
        decreases p@.len() - i,
    {
        out.push(p[i]);
        proof {
            assert(out@ =~= p@.take(i + 1));
        }
        i = i + 1;
    }
    proof {
        assert(p@.take(p@.len() as int) =~= p@);
    }
    out
}

/// The 8-neighbor of `a` in direction `dir`, if it lies on the board.
fn neighbor_of(board: &Board, a: Coord, dir: usize) -> (r: Option<Coord>)
    requires
        board.wf(),
        board@.in_bounds(a.row as int, a.col as int),
        dir < 8,
    ensures
        match r {
            Some(n) => n.row as int == a.row + spec_dr(dir as int) && n.col as int == a.col
                + spec_dc(dir as int) && board@.in_bounds(n.row as int, n.col as int) && adjacent8(
                a,
                n,
            ),
            None => !board@.in_bounds(a.row + spec_dr(dir as int), a.col + spec_dc(dir as int)),
        },
{
    let up = dir < 3;
    let down = dir >= 5;
    let left = dir == 0 || dir == 3 || dir == 5;
    let right = dir == 2 || dir == 4 || dir == 7;
    let row = if up {
        if a.row == 0 {
            return None;
        }
        a.row - 1
    } else if down {
        if a.row + 1 >= board.height {
            return None;
        }
        a.row + 1
    } else {
        a.row
    };
    let col = if left {
        if a.col == 0 {
            return None;
        }
        a.col - 1
    } else if right {
        if a.col + 1 >= board.width {
            return None;
        }
        a.col + 1
    } else {
        a.col
    };
    Some(Coord { row, col })
}

/// The row offset of direction `dir` among the eight neighbors.
pub open spec fn spec_dr(dir: int) -> int {
    if dir < 3 {
        -1
    } else if dir >= 5 {
        1
    } else {
        0
    }
}

/// The column offset of direction `dir` among the eight neighbors.
pub open spec fn spec_dc(dir: int) -> int {
    if dir == 0 || dir == 3 || dir == 5 {
        -1
    } else if dir == 2 || dir == 4 || dir == 7 {
        1
    } else {
        0
    }
}

/// Every 8-neighbor lies in one of the eight directions.
pub proof fn lemma_dir_cover(a: Coord, n: Coord)
    requires
        adjacent8(a, n),
    ensures
        exists|d: int|
            0 <= d < 8 && n.row as int == a.row + #[trigger] spec_dr(d) && n.col as int == a.col
                + spec_dc(d),
{
    let dr = n.row as int - a.row as int;
    let dc = n.col as int - a.col as int;
    if dr == -1 && dc == -1 {
        assert(n.row as int == a.row + spec_dr(0) && n.col as int == a.col + spec_dc(0));
    } else if dr == -1 && dc == 0 {
        assert(n.row as int == a.row + spec_dr(1) && n.col as int == a.col + spec_dc(1));
    } else if dr == -1 && dc == 1 {
        assert(n.row as int == a.row + spec_dr(2) && n.col as int == a.col + spec_dc(2));
    } else if dr == 0 && dc == -1 {
        assert(n.row as int == a.row + spec_dr(3) && n.col as int == a.col + spec_dc(3));
    } else if dr == 0 && dc == 1 {
        assert(n.row as int == a.row + spec_dr(4) && n.col as int == a.col + spec_dc(4));
    } else if dr == 1 && dc == -1 {
        assert(n.row as int == a.row + spec_dr(5) && n.col as int == a.col + spec_dc(5));
    } else if dr == 1 && dc == 0 {
        assert(n.row as int == a.row + spec_dr(6) && n.col as int == a.col + spec_dc(6));
    } else {
        assert(dr == 1 && dc == 1);
        assert(n.row as int == a.row + spec_dr(7) && n.col as int == a.col + spec_dc(7));
    }
}

/// Two different directions step to two different neighbors.
proof fn lemma_dir_offsets_distinct(d1: int, d2: int)
    requires
        0 <= d1 < 8,
        0 <= d2 < 8,
        d1 != d2,
    ensures
        spec_dr(d1) != spec_dr(d2) || spec_dc(d1) != spec_dc(d2),
{
}

/// `q` begins with the positions of `p`.
pub open spec fn starts_with(q: Seq<Coord>, p: Seq<Coord>) -> bool {
    q.len() >= p.len() && q.take(p.len() as int) == p
}

/// Some word path exists on the board.
pub open spec fn has_word_path(b: BoardView, root: Node) -> bool {
    exists|p: Seq<Coord>| valid_word_path(b, root, p)
}

/// The collection holds a path with exactly these positions.
pub open spec fn contains_path(out: Seq<Vec<Coord>>, q: Seq<Coord>) -> bool {
    exists|i: int| 0 <= i < out.len() && (#[trigger] out[i])@ == q
}

/// Growing a collection at the end keeps everything it held.
proof fn lemma_contains_preserved(a: Seq<Vec<Coord>>, b2: Seq<Vec<Coord>>, q: Seq<Coord>)
    requires
        contains_path(a, q),
        b2.len() >= a.len(),
        forall|i: int| 0 <= i < a.len() ==> #[trigger] b2[i] == a[i],
    ensures
        contains_path(b2, q),
{
    let i = choose|i: int| 0 <= i < a.len() && (#[trigger] a[i])@ == q;
    assert(b2[i]@ == q);
}

/// `q` completes `p` to a word path, stepping first in direction `dir`.
pub open spec fn completion_via(
    b: BoardView,
    root: Node,
    p: Seq<Coord>,
    dir: int,
    q: Seq<Coord>,
) -> bool {
    &&& valid_word_path(b, root, p + q)
    &&& q.len() > 0
    &&& q[0].row as int == p.last().row + spec_dr(dir)
    &&& q[0].col as int == p.last().col + spec_dc(dir)
}

/// New search results that extend the pushed path by construction also
/// extend the original path, stepping first in the tried direction.
proof fn lemma_extend_props(outv: Seq<Vec<Coord>>, from: int, pv: Seq<Coord>, nc: Coord, d: int)
    requires
        0 <= from <= outv.len(),
        pv.len() >= 1,
        0 <= d < 8,
        nc.row as int == pv.last().row + spec_dr(d),
        nc.col as int == pv.last().col + spec_dc(d),
        forall|i: int| from <= i < outv.len() ==> starts_with((#[trigger] outv[i])@, pv.push(nc)),
    ensures
        forall|i: int|
            from <= i < outv.len() ==> starts_with((#[trigger] outv[i])@, pv) && outv[i]@.len()
                > pv.len() && outv[i]@[pv.len() as int].row as int == pv.last().row + spec_dr(d)
                && outv[i]@[pv.len() as int].col as int == pv.last().col + spec_dc(d),
{
    let p2v = pv.push(nc);
    assert forall|i: int|
        from <= i < outv.len() implies starts_with((#[trigger] outv[i])@, pv) && outv[i]@.len()
        > pv.len() && outv[i]@[pv.len() as int].row as int == pv.last().row + spec_dr(d)
        && outv[i]@[pv.len() as int].col as int == pv.last().col + spec_dc(d) by {
        let x = outv[i]@;
        assert(starts_with(x, p2v));
        assert(x.take(p2v.len() as int) == p2v);
        assert forall|k: int| 0 <= k < pv.len() implies x.take(pv.len() as int)[k] == pv[k] by {
            assert(x[k] == x.take(p2v.len() as int)[k]);
            assert(p2v[k] == pv[k]);
        }
        assert(x.take(pv.len() as int) =~= pv);
        assert(x[pv.len() as int] == x.take(p2v.len() as int)[pv.len() as int]);
        assert(x[pv.len() as int] == nc);
    }
}

/// Tries one direction from the tip of `path`: when the neighbor there
/// continues a dictionary prefix, search on from it.  If some word completes
/// the path through this direction, something ends up in `out`.
#[verifier::spinoff_prover]
fn try_dir(
    board: &Board,
    node: &Node,
    path: &Vec<Coord>,
    out: &mut Vec<Vec<Coord>>,
    root: Ghost<Node>,
    dir: usize,
)
    requires
        board.wf(),
        node.wf(),
        root@.wf(),
        path_wf(board@, path@),
        path_cells_letters(board@, path@),
        root@.walk(path_word(board@, path@)) == Some(*node),
        dir < 8,
        forall|i: int|
            0 <= i < old(out)@.len() ==> valid_word_path(board@, root@, (#[trigger] old(out)@[i])@),
    ensures
        forall|i: int|
            0 <= i < final(out)@.len() ==> valid_word_path(board@, root@, (#[trigger] final(out)@[i])@),
        final(out)@.len() >= old(out)@.len(),
        forall|i: int| 0 <= i < old(out)@.len() ==> #[trigger] final(out)@[i] == old(out)@[i],
        forall|q: Seq<Coord>|
            #[trigger] completion_via(board@, root@, path@, dir as int, q) ==> contains_path(
                final(out)@,
                path@ + q,
            ),
        forall|i: int|
            old(out)@.len() <= i < final(out)@.len() ==> starts_with(
                (#[trigger] final(out)@[i])@,
                path@,
            ) && final(out)@[i]@.len() > path@.len() && final(out)@[i]@[path@.len() as int].row as int
                == path@.last().row + spec_dr(dir as int)
                && final(out)@[i]@[path@.len() as int].col as int == path@.last().col + spec_dc(
                dir as int,
            ),
        forall|i: int, j: int|
            old(out)@.len() <= i < j < final(out)@.len() ==> (#[trigger] final(out)@[i])@ != (
            #[trigger] final(out)@[j])@,
    decreases board@.area() - path@.len(), 0int,
{
    let ghost b = board@;
    let ghost pv = path@;
    let last = path[path.len() - 1];
    proof {
        assert(last == pv.last());
    }
    match neighbor_of(board, last, dir) {
        None => {
            proof {
                assert forall|q: Seq<Coord>| !completion_via(b, root@, pv, dir as int, q) by {
                    if completion_via(b, root@, pv, dir as int, q) {
                        let ext = pv + q;
                        assert(ext[pv.len() as int] == q[0]);
                        assert(b.in_bounds(q[0].row as int, q[0].col as int));
                    }
                }
            }
        },
        Some(nc) => {
            if path_contains(path, nc) {
                proof {
                    assert forall|q: Seq<Coord>| !completion_via(b, root@, pv, dir as int, q) by {
                        if completion_via(b, root@, pv, dir as int, q) {
                            let ext = pv + q;
                            assert(ext[pv.len() as int] == q[0]);
                            assert(q[0] == nc);
                            let j = choose|j: int| 0 <= j < pv.len() && pv[j] == nc;
                            assert(ext[j] == nc);
                            assert(!ext.no_duplicates());
                        }
                    }
                }
            } else {
                let cell = board.get(nc.row, nc.col);
                match cell {
                    Cell::Letter(l, _) => {
                        match node.get(l) {
                            Some(child) => {
                                let mut p2 = clone_path(path);
                                p2.push(nc);
                                proof {
                                    let p2v = p2@;
                                    assert(p2v == pv.push(nc));
                                    assert(p2v.no_duplicates()) by {
                                        assert forall|i: int, j: int|
                                            0 <= i < p2v.len() && 0 <= j < p2v.len() && i
                                                != j implies p2v[i] != p2v[j] by {
                                            if i < pv.len() && j < pv.len() {
                                                assert(pv[i] == p2v[i] && pv[j] == p2v[j]);
                                            } else if j == pv.len() {
                                                assert(p2v[j] == nc && p2v[i] == pv[i]);
                                                assert(!pv.contains(nc));
                                            } else {
                                                assert(p2v[i] == nc && p2v[j] == pv[j]);
                                                assert(!pv.contains(nc));
                                            }
                                        }
                                    }
                                    assert(path_wf(b, p2v)) by {
                                        assert forall|k: int| 1 <= k < p2v.len() implies adjacent8(
                                            p2v[k - 1],
                                            #[trigger] p2v[k],
                                        ) by {
                                            if k < pv.len() {
                                                assert(p2v[k - 1] == pv[k - 1] && p2v[k] == pv[k]);
                                            } else {
                                                assert(p2v[k] == nc && p2v[k - 1] == last);
                                            }
                                        }
                                    }
                                    assert(path_word(b, p2v) =~= path_word(b, pv).push(l));
                                    lemma_walk_push(root@, path_word(b, pv), l);
                                    assert(root@.walk(path_word(b, p2v)) == Some(*child));
                                    lemma_path_len_bounded(b, p2v);
                                }
                                dfs(board, child, &p2, out, root);
                                proof {
                                    assert forall|q: Seq<Coord>|
                                        #[trigger] completion_via(
                                            b,
                                            root@,
                                            pv,
                                            dir as int,
                                            q,
                                        ) implies contains_path(out@, pv + q) by {
                                        let ext = pv + q;
                                        assert(ext[pv.len() as int] == q[0]);
                                        assert(q[0] == nc);
                                        assert(p2@ + q.drop_first() =~= ext);
                                        assert(valid_word_path(b, root@, p2@ + q.drop_first()));
                                        assert(contains_path(out@, p2@ + q.drop_first()));
                                    }
                                    lemma_extend_props(
                                        out@,
                                        old(out)@.len() as int,
                                        pv,
                                        nc,
                                        dir as int,
                                    );
                                }
                            },
                            None => {
                                proof {
                                    assert forall|q: Seq<Coord>|
                                        !completion_via(b, root@, pv, dir as int, q) by {
                                        if completion_via(b, root@, pv, dir as int, q) {
                                            let ext = pv + q;
                                            assert(ext[pv.len() as int] == q[0]);
                                            assert(q[0] == nc);
                                            let w = path_word(b, ext);
                                            assert(root@.contains_word(w));
                                            lemma_walk_prefix(root@, w, pv.len() as int + 1);
                                            assert(w.take(pv.len() as int) =~= path_word(b, pv)) by {
                                                assert forall|k: int|
                                                    0 <= k < pv.len() implies w.take(
                                                    pv.len() as int,
                                                )[k] == path_word(b, pv)[k] by {
                                                    assert(ext[k] == pv[k]);
                                                }
                                            }
                                            assert(w[pv.len() as int] == cell_letter(
                                                b.cell(nc.row as int, nc.col as int),
                                            ));
                                            assert(w.take(pv.len() as int + 1) =~= path_word(
                                                b,
                                                pv,
                                            ).push(l));
                                            lemma_walk_push(root@, path_word(b, pv), l);
                                            assert(root@.walk(w.take(pv.len() as int + 1)) is None);
                                        }
                                    }
                                }
                            },
                        }
                    },
                    _ => {
                        proof {
                            assert forall|q: Seq<Coord>|
                                !completion_via(b, root@, pv, dir as int, q) by {
                                if completion_via(b, root@, pv, dir as int, q) {
                                    let ext = pv + q;
                                    assert(ext[pv.len() as int] == q[0]);
                                    assert(q[0] == nc);
                                    assert(b.cell(q[0].row as int, q[0].col as int) matches Cell::Letter(_, _));
                                }
                            }
                        }
                    },
                }
            }
        },
    }
}

/// Extends `path` depth first from `node`, pushing every complete word found
/// along the way onto `out`: the path itself when it already spells a word,
/// and everything reachable through each of the eight directions.  When any
/// word completes the path, something ends up in `out`.
fn dfs(board: &Board, node: &Node, path: &Vec<Coord>, out: &mut Vec<Vec<Coord>>, root: Ghost<Node>)
    requires
        board.wf(),
        node.wf(),
        root@.wf(),
        path_wf(board@, path@),
        path_cells_letters(board@, path@),
        root@.walk(path_word(board@, path@)) == Some(*node),
        forall|i: int|
            0 <= i < old(out)@.len() ==> valid_word_path(board@, root@, (#[trigger] old(out)@[i])@),
    ensures
        forall|i: int|
            0 <= i < final(out)@.len() ==> valid_word_path(board@, root@, (#[trigger] final(out)@[i])@),
        final(out)@.len() >= old(out)@.len(),
        forall|i: int| 0 <= i < old(out)@.len() ==> #[trigger] final(out)@[i] == old(out)@[i],
        forall|q: Seq<Coord>|
            #[trigger] valid_word_path(board@, root@, path@ + q) ==> contains_path(
                final(out)@,
                path@ + q,
            ),
        forall|i: int|
            old(out)@.len() <= i < final(out)@.len() ==> starts_with(
                (#[trigger] final(out)@[i])@,
                path@,
            ),
        forall|i: int, j: int|
            old(out)@.len() <= i < j < final(out)@.len() ==> (#[trigger] final(out)@[i])@ != (
            #[trigger] final(out)@[j])@,
    decreases board@.area() - path@.len(), 1int,
{
    let ghost b = board@;
    let ghost pv = path@;
    proof {
        lemma_path_len_bounded(b, pv);
    }
    if node.is_end() {
        let cp = clone_path(path);
        out.push(cp);
    }
    let ghost s0 = out@;
    try_dir(board, node, path, out, root, 0);
    let ghost s1 = out@;
    try_dir(board, node, path, out, root, 1);
    let ghost s2 = out@;
    try_dir(board, node, path, out, root, 2);
    let ghost s3 = out@;
    try_dir(board, node, path, out, root, 3);
    let ghost s4 = out@;
    try_dir(board, node, path, out, root, 4);
    let ghost s5 = out@;
    try_dir(board, node, path, out, root, 5);
    let ghost s6 = out@;
    try_dir(board, node, path, out, root, 6);
    let ghost s7 = out@;
    try_dir(board, node, path, out, root, 7);
    let ghost s8 = out@;
    proof {
        assert forall|i: int| 0 <= i < old(out)@.len() implies #[trigger] s8[i] == old(
            out,
        )@[i] by {
            assert(s0[i] == old(out)@[i]);
            assert(s1[i] == s0[i]);
            assert(s2[i] == s1[i]);
            assert(s3[i] == s2[i]);
            assert(s4[i] == s3[i]);
            assert(s5[i] == s4[i]);
            assert(s6[i] == s5[i]);
            assert(s7[i] == s6[i]);
            assert(s8[i] == s7[i]);
        }
        assert forall|q: Seq<Coord>|
            #[trigger] valid_word_path(b, root@, pv + q) implies contains_path(s8, pv + q) by {
            let ext = pv + q;
            if q.len() == 0 {
                assert(ext =~= pv);
                assert(root@.contains_word(path_word(b, pv)));
                assert(node.is_end);
                assert(contains_path(s0, ext)) by {
                    assert(s0[s0.len() - 1]@ == pv);
                }
            } else {
                assert(ext[pv.len() as int] == q[0]);
                assert(ext[pv.len() - 1] == pv[pv.len() - 1]);
                assert(adjacent8(pv.last(), q[0]));
                lemma_dir_cover(pv.last(), q[0]);
                let d = choose|d: int|
                    0 <= d < 8 && q[0].row as int == pv.last().row + #[trigger] spec_dr(d)
                        && q[0].col as int == pv.last().col + spec_dc(d);
                assert(completion_via(b, root@, pv, d, q));
                if d == 0 {
                    assert(completion_via(b, root@, pv, 0, q));
                    assert(contains_path(s1, ext));
                } else if d == 1 {
                    assert(completion_via(b, root@, pv, 1, q));
                    assert(contains_path(s2, ext));
                } else if d == 2 {
                    assert(completion_via(b, root@, pv, 2, q));
                    assert(contains_path(s3, ext));
                } else if d == 3 {
                    assert(completion_via(b, root@, pv, 3, q));
                    assert(contains_path(s4, ext));
                } else if d == 4 {
                    assert(completion_via(b, root@, pv, 4, q));
                    assert(contains_path(s5, ext));
                } else if d == 5 {
                    assert(completion_via(b, root@, pv, 5, q));
                    assert(contains_path(s6, ext));
                } else if d == 6 {
                    assert(completion_via(b, root@, pv, 6, q));
                    assert(contains_path(s7, ext));
                } else {
                    assert(completion_via(b, root@, pv, 7, q));
                    assert(contains_path(s8, ext));
                }
            }
            if contains_path(s0, ext) {
                lemma_contains_preserved(s0, s1, ext);
            }
            if contains_path(s1, ext) {
                lemma_contains_preserved(s1, s2, ext);
            }
            if contains_path(s2, ext) {
                lemma_contains_preserved(s2, s3, ext);
            }
            if contains_path(s3, ext) {
                lemma_contains_preserved(s3, s4, ext);
            }
            if contains_path(s4, ext) {
                lemma_contains_preserved(s4, s5, ext);
            }
            if contains_path(s5, ext) {
                lemma_contains_preserved(s5, s6, ext);
            }
            if contains_path(s6, ext) {
                lemma_contains_preserved(s6, s7, ext);
            }
            if contains_path(s7, ext) {
                lemma_contains_preserved(s7, s8, ext);
            }
        }
        let oldn = old(out)@.len();
        assert forall|i: int| 0 <= i < s8.len() implies (i < s0.len() ==> #[trigger] s8[i]
            == s0[i]) && (i < s1.len() ==> s8[i] == s1[i]) && (i < s2.len() ==> s8[i] == s2[i]) && (
        i < s3.len() ==> s8[i] == s3[i]) && (i < s4.len() ==> s8[i] == s4[i]) && (i < s5.len()
            ==> s8[i] == s5[i]) && (i < s6.len() ==> s8[i] == s6[i]) && (i < s7.len() ==> s8[i]
            == s7[i]) by {
            if i < s0.len() {
                assert(s1[i] == s0[i]);
            }
            if i < s1.len() {
                assert(s2[i] == s1[i]);
            }
            if i < s2.len() {
                assert(s3[i] == s2[i]);
            }
            if i < s3.len() {
                assert(s4[i] == s3[i]);
            }
            if i < s4.len() {
                assert(s5[i] == s4[i]);
            }
            if i < s5.len() {
                assert(s6[i] == s5[i]);
            }
            if i < s6.len() {
                assert(s7[i] == s6[i]);
            }
            if i < s7.len() {
                assert(s8[i] == s7[i]);
            }
        }
        assert forall|i: int| oldn <= i < s8.len() implies starts_with(
            (#[trigger] s8[i])@,
            pv,
        ) by {
            if i < s0.len() {
                assert(s8[i] == s0[i]);
                assert(s0[i]@ == pv);
                assert(pv.take(pv.len() as int) =~= pv);
            } else if i < s1.len() {
                assert(s8[i] == s1[i]);
                assert(starts_with(s1[i]@, pv));
            } else if i < s2.len() {
                assert(s8[i] == s2[i]);
                assert(starts_with(s2[i]@, pv));
            } else if i < s3.len() {
                assert(s8[i] == s3[i]);
                assert(starts_with(s3[i]@, pv));
            } else if i < s4.len() {
                assert(s8[i] == s4[i]);
                assert(starts_with(s4[i]@, pv));
            } else if i < s5.len() {
                assert(s8[i] == s5[i]);
                assert(starts_with(s5[i]@, pv));
            } else if i < s6.len() {
                assert(s8[i] == s6[i]);
                assert(starts_with(s6[i]@, pv));
            } else if i < s7.len() {
                assert(s8[i] == s7[i]);
                assert(starts_with(s7[i]@, pv));
            } else {
                assert(starts_with(s8[i]@, pv));
            }
        }
        assert forall|i: int, j: int| oldn <= i < j < s8.len() implies (#[trigger] s8[i])@ != (
        #[trigger] s8[j])@ by {
            if i < s0.len() {
                assert(s8[i] == s0[i]);
                assert(s8[i]@ == pv);
                assert(j >= s0.len());
                if j < s1.len() {
                    assert(s8[j] == s1[j]);
                } else if j < s2.len() {
                    assert(s8[j] == s2[j]);
                } else if j < s3.len() {
                    assert(s8[j] == s3[j]);
                } else if j < s4.len() {
                    assert(s8[j] == s4[j]);
                } else if j < s5.len() {
                    assert(s8[j] == s5[j]);
                } else if j < s6.len() {
                    assert(s8[j] == s6[j]);
                } else if j < s7.len() {
                    assert(s8[j] == s7[j]);
                }
                assert(s8[j]@.len() > pv.len());
            } else {
                let di: int = if i < s1.len() {
                    0
                } else if i < s2.len() {
                    1
                } else if i < s3.len() {
                    2
                } else if i < s4.len() {
                    3
                } else if i < s5.len() {
                    4
                } else if i < s6.len() {
                    5
                } else if i < s7.len() {
                    6
                } else {
                    7
                };
                let dj: int = if j < s1.len() {
                    0
                } else if j < s2.len() {
                    1
                } else if j < s3.len() {
                    2
                } else if j < s4.len() {
                    3
                } else if j < s5.len() {
                    4
                } else if j < s6.len() {
                    5
                } else if j < s7.len() {
                    6
                } else {
                    7
                };
                if i < s1.len() {
                    assert(s8[i] == s1[i]);
                } else if i < s2.len() {
                    assert(s8[i] == s2[i]);
                } else if i < s3.len() {
                    assert(s8[i] == s3[i]);
                } else if i < s4.len() {
                    assert(s8[i] == s4[i]);
                } else if i < s5.len() {
                    assert(s8[i] == s5[i]);
                } else if i < s6.len() {
                    assert(s8[i] == s6[i]);
                } else if i < s7.len() {
                    assert(s8[i] == s7[i]);
                }
                if j < s1.len() {
                    assert(s8[j] == s1[j]);
                } else if j < s2.len() {
                    assert(s8[j] == s2[j]);
                } else if j < s3.len() {
                    assert(s8[j] == s3[j]);
                } else if j < s4.len() {
                    assert(s8[j] == s4[j]);
                } else if j < s5.len() {
                    assert(s8[j] == s5[j]);
                } else if j < s6.len() {
                    assert(s8[j] == s6[j]);
                } else if j < s7.len() {
                    assert(s8[j] == s7[j]);
                }
                assert(s8[i]@.len() > pv.len() && s8[i]@[pv.len() as int].row as int
                    == pv.last().row + spec_dr(di) && s8[i]@[pv.len() as int].col as int
                    == pv.last().col + spec_dc(di));
                assert(s8[j]@.len() > pv.len() && s8[j]@[pv.len() as int].row as int
                    == pv.last().row + spec_dr(dj) && s8[j]@[pv.len() as int].col as int
                    == pv.last().col + spec_dc(dj));
                if di == dj {
                    if di == 0 {
                        assert(s1[i]@ != s1[j]@);
                    } else if di == 1 {
                        assert(s2[i]@ != s2[j]@);
                    } else if di == 2 {
                        assert(s3[i]@ != s3[j]@);
                    } else if di == 3 {
                        assert(s4[i]@ != s4[j]@);
                    } else if di == 4 {
                        assert(s5[i]@ != s5[j]@);
                    } else if di == 5 {
                        assert(s6[i]@ != s6[j]@);
                    } else if di == 6 {
                        assert(s7[i]@ != s7[j]@);
                    } else {
                        assert(s8[i]@ != s8[j]@);
                    }
                } else {
                    lemma_dir_offsets_distinct(di, dj);
                    assert(s8[i]@[pv.len() as int] != s8[j]@[pv.len() as int]);
                }
            }
        }
    }
}

/// The start cell lies in the region the scan has already covered: a row
/// above `r`, or row `r` left of `c`.
spec fn start_scanned(x: Coord, r: int, c: int) -> bool {
    (x.row as int) < r || (x.row as int == r && (x.col as int) < c)
}

/// Every path of 8-connected, unrepeated letter cells that spells a word of
/// the dictionary, searched from every starting cell.  Each returned path is
/// such a word path, every such word path is returned, and no path is
/// returned twice, so the collection is pinned up to order; nothing comes
/// back exactly when no word path exists on the board, and an all-empty
/// board yields nothing.
pub fn find_paths(board: &Board, root: &Node) -> (out: Vec<Vec<Coord>>)
    requires
        board.wf(),
        root.wf(),
    ensures
        forall|i: int|
            0 <= i < out@.len() ==> valid_word_path(board@, *root, (#[trigger] out@[i])@),
        forall|q: Seq<Coord>|
            #[trigger] valid_word_path(board@, *root, q) ==> contains_path(out@, q),
        forall|i: int, j: int|
            0 <= i < j < out@.len() ==> (#[trigger] out@[i])@ != (#[trigger] out@[j])@,
        out@.len() == 0 ==> !has_word_path(board@, *root),
        board@.all_empty() ==> out@.len() == 0,
{
    let ghost b = board@;
    let mut out: Vec<Vec<Coord>> = Vec::new();
    let h = board.height;
    let w = board.width;
    let mut r: usize = 0;
    while r < h
        invariant
            board.wf(),
            root.wf(),
            b == board@,
            h == b.height,
            w == b.width,
            r <= h,
            forall|i: int| 0 <= i < out@.len() ==> valid_word_path(b, *root, (#[trigger] out@[i])@),
            forall|p: Seq<Coord>|
                #[trigger] valid_word_path(b, *root, p) && start_scanned(p[0], r as int, 0)
                    ==> contains_path(out@, p),
            forall|i: int|
                0 <= i < out@.len() ==> start_scanned((#[trigger] out@[i])@[0], r as int, 0),
            forall|i: int, j: int|
                0 <= i < j < out@.len() ==> (#[trigger] out@[i])@ != (#[trigger] out@[j])@,
            b.all_empty() ==> out@.len() == 0,
        decreases h - r,
    {
        let mut c: usize = 0;
        while c < w
            invariant
                board.wf(),
                root.wf(),
                b == board@,
                h == b.height,
                w == b.width,
                r < h,
                c <= w,
                forall|i: int|
                    0 <= i < out@.len() ==> valid_word_path(b, *root, (#[trigger] out@[i])@),
                forall|p: Seq<Coord>|
                    #[trigger] valid_word_path(b, *root, p) && start_scanned(
                        p[0],
                        r as int,
                        c as int,
                    ) ==> contains_path(out@, p),
                forall|i: int|
                    0 <= i < out@.len() ==> start_scanned(
                        (#[trigger] out@[i])@[0],
                        r as int,
                        c as int,
                    ),
                forall|i: int, j: int|
                    0 <= i < j < out@.len() ==> (#[trigger] out@[i])@ != (#[trigger] out@[j])@,
                b.all_empty() ==> out@.len() == 0,
            decreases w - c,
        {
            let ghost out_pre = out@;
            let cell = board.get(r, c);
            match cell {
                Cell::Letter(l, _) => {
                    proof {
                        lemma_index_in_range(b, r as int, c as int);
                        assert(!b.all_empty());
                    }
                    match root.get(l) {
                        Some(child) => {
                            let mut p: Vec<Coord> = Vec::new();
                            p.push(Coord { row: r, col: c });
                            proof {
                                let pv = p@;
                                assert(pv.len() == 1);
                                assert(path_word(b, pv) =~= Seq::<char>::empty().push(l));
                                lemma_walk_push(*root, Seq::<char>::empty(), l);
                                assert(root.walk(Seq::<char>::empty()) == Some(*root));
                                assert(root.walk(path_word(b, pv)) == Some(*child));
                            }
                            dfs(board, child, &p, &mut out, Ghost(*root));
                            proof {
                                assert forall|q: Seq<Coord>|
                                    #[trigger] valid_word_path(b, *root, q) && q[0].row == r
                                        && q[0].col == c implies contains_path(out@, q) by {
                                    assert(p@ + q.drop_first() =~= q) by {
                                        assert(q.len() >= 1);
                                        assert(p@[0] == q[0]);
                                    }
                                    assert(valid_word_path(b, *root, p@ + q.drop_first()));
                                    assert(contains_path(out@, p@ + q.drop_first()));
                                }
                                assert forall|i: int|
                                    out_pre.len() <= i < out@.len() implies (#[trigger] out@[i])@[0]
                                    == (Coord { row: r, col: c }) by {
                                    assert(starts_with(out@[i]@, p@));
                                    assert(out@[i]@.take(1)[0] == p@[0]);
                                }
                                assert forall|i: int, j: int|
                                    0 <= i < j < out@.len() implies (#[trigger] out@[i])@ != (
                                #[trigger] out@[j])@ by {
                                    if j < out_pre.len() {
                                        assert(out@[i] == out_pre[i] && out@[j] == out_pre[j]);
                                    } else if i < out_pre.len() {
                                        assert(out@[i] == out_pre[i]);
                                        assert(start_scanned(out@[i]@[0], r as int, c as int));
                                        assert(out@[j]@[0] == (Coord { row: r, col: c }));
                                        if out@[i]@ == out@[j]@ {
                                            assert(out@[i]@[0] == out@[j]@[0]);
                                        }
                                    }
                                }
                            }
                        },
                        None => {
                            proof {
                                assert forall|q: Seq<Coord>|
                                    !(#[trigger] valid_word_path(b, *root, q) && q[0].row == r
                                        && q[0].col == c) by {
                                    if valid_word_path(b, *root, q) && q[0].row == r && q[0].col
                                        == c {
                                        let wseq = path_word(b, q);
                                        lemma_walk_prefix(*root, wseq, 1);
                                        assert(wseq[0] == cell_letter(
                                            b.cell(q[0].row as int, q[0].col as int),
                                        ));
                                        assert(wseq[0] == l);
                                        assert(wseq.take(1) =~= Seq::<char>::empty().push(l));
                                        lemma_walk_push(*root, Seq::<char>::empty(), l);
                                        assert(root.walk(wseq.take(1)) is None);
                                    }
                                }
                            }
                        },
                    }
                },
                _ => {
                    proof {
                        assert forall|q: Seq<Coord>|
                            !(#[trigger] valid_word_path(b, *root, q) && q[0].row == r && q[0].col
                                == c) by {
                            if valid_word_path(b, *root, q) && q[0].row == r && q[0].col == c {
                                assert(b.cell(q[0].row as int, q[0].col as int) matches Cell::Letter(
                                    _,
                                    _,
                                ));
                            }
                        }
                    }
                },
            }
            proof {
                assert forall|p: Seq<Coord>|
                    #[trigger] valid_word_path(b, *root, p) && start_scanned(
                        p[0],
                        r as int,
                        c + 1,
                    ) implies contains_path(out@, p) by {
                    if start_scanned(p[0], r as int, c as int) {
                        assert(contains_path(out_pre, p));
                        lemma_contains_preserved(out_pre, out@, p);
                    } else {
                        assert(p[0].row == r && p[0].col == c);
                    }
                }
                assert forall|i: int|
                    0 <= i < out@.len() implies start_scanned(
                    (#[trigger] out@[i])@[0],
                    r as int,
                    c + 1,
                ) by {
                    if i < out_pre.len() {
                        assert(out@[i] == out_pre[i]);
                        assert(start_scanned(out_pre[i]@[0], r as int, c as int));
                    }
                }
            }
            c = c + 1;
        }
        proof {
            assert forall|p: Seq<Coord>|
                #[trigger] valid_word_path(b, *root, p) && start_scanned(
                    p[0],
                    r + 1,
                    0,
                ) implies contains_path(out@, p) by {
                assert(b.in_bounds(p[0].row as int, p[0].col as int));
                assert(start_scanned(p[0], r as int, w as int));
            }
            assert forall|i: int| 0 <= i < out@.len() implies start_scanned(
                (#[trigger] out@[i])@[0],
                r + 1,
                0,
            ) by {
                assert(valid_word_path(b, *root, out@[i]@));
                assert(b.in_bounds(out@[i]@[0].row as int, out@[i]@[0].col as int));
            }
        }
        r = r + 1;
    }
    proof {
        assert forall|q: Seq<Coord>| #[trigger] valid_word_path(b, *root, q) implies contains_path(
            out@,
            q,
        ) by {
            assert(b.in_bounds(q[0].row as int, q[0].col as int));
            assert(start_scanned(q[0], h as int, 0));
        }
        if out@.len() == 0 && has_word_path(b, *root) {
            let p = choose|p: Seq<Coord>| valid_word_path(b, *root, p);
            assert(contains_path(out@, p));
            assert(false);
        }
    }
    out
}

} // verus!

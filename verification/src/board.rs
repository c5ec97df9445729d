//! The playing board: a rectangular grid of cells addressed by (row, col),
//! with row 0 at the top.  Playing a path deletes a set of cells and gravity
//! then compacts every column, sliding the remaining tiles to the bottom.

use vstd::prelude::*;

verus! {

use vstd::pervasive::VecAdditionalExecFns;

/// One grid position: empty, a blank obstacle marker, or a letter tile.
/// A letter is stored uppercase; the flag marks a bonus (multiplier) tile,
/// written lowercase in the text encoding of a board.
#[derive(Clone, Copy, PartialEq, Eq, Structural, Debug)]
pub enum Cell {
    Empty,
    Blank,
    Letter(char, bool),
}

impl Cell {
    /// A letter cell holds an uppercase ASCII letter.
    pub open spec fn wf(self) -> bool {
        match self {
            Cell::Letter(l, _) => 'A' <= l && l <= 'Z',
            _ => true,
        }
    }
}

/// A board position: `row` counts from the top, `col` from the left.
#[derive(Clone, Copy, PartialEq, Eq, Structural, Debug, Hash)]
pub struct Coord {
    pub row: usize,
    pub col: usize,
}

/// The mathematical model of a board: the dimensions and the row-major
/// sequence of cells.
pub struct BoardView {
    pub width: nat,
    pub height: nat,
    pub cells: Seq<Cell>,
}

impl BoardView {
    pub open spec fn area(self) -> nat {
        self.width * self.height
    }

    pub open spec fn wf(self) -> bool {
        &&& self.width <= usize::MAX
        &&& self.height <= usize::MAX
        &&& self.cells.len() == self.area()
        &&& forall|k: int| 0 <= k < self.cells.len() ==> (#[trigger] self.cells[k]).wf()
    }

    pub open spec fn in_bounds(self, r: int, c: int) -> bool {
        0 <= r < self.height && 0 <= c < self.width
    }

    pub open spec fn cell(self, r: int, c: int) -> Cell {
        self.cells[r * self.width + c]
    }

    /// The cells of column `c`, top to bottom.
    pub open spec fn column(self, c: int) -> Seq<Cell> {
        Seq::new(self.height, |r: int| self.cell(r, c))
    }

    /// Gravity has settled: no tile sits above an empty cell in its column.
    pub open spec fn settled(self) -> bool {
        forall|r: int, c: int|
            0 <= r && r + 1 < self.height && 0 <= c < self.width && #[trigger] self.cell(r, c)
                != Cell::Empty ==> self.cell(r + 1, c) != Cell::Empty
    }

    pub open spec fn all_empty(self) -> bool {
        forall|k: int| 0 <= k < self.cells.len() ==> self.cells[k] == Cell::Empty
    }
}

/// A rectangular grid of cells, stored row-major.
#[derive(Debug)]
pub struct Board {
    pub width: usize,
    pub height: usize,
    pub cells: Vec<Cell>,
}

impl View for Board {
    type V = BoardView;

    open spec fn view(&self) -> BoardView {
        BoardView { width: self.width as nat, height: self.height as nat, cells: self.cells@ }
    }
}

impl Board {
    pub open spec fn wf(self) -> bool {
        self@.wf()
    }

    /// Builds a board from its dimensions and row-major cells.
    pub fn from_cells(width: usize, height: usize, cells: Vec<Cell>) -> (r: Board)
        requires
            cells@.len() == width * height,
            forall|k: int| 0 <= k < cells@.len() ==> (#[trigger] cells@[k]).wf(),
        ensures
            r.wf(),
            r@ == (BoardView { width: width as nat, height: height as nat, cells: cells@ }),
    {
        Board { width, height, cells }
    }

    pub fn width(&self) -> (r: usize)
        ensures
            r == self@.width,
    {
        self.width
    }

    pub fn height(&self) -> (r: usize)
        ensures
            r == self@.height,
    {
        self.height
    }

    pub fn get(&self, r: usize, c: usize) -> (x: Cell)
        requires
            self.wf(),
            self@.in_bounds(r as int, c as int),
        ensures
            x == self@.cell(r as int, c as int),
    {
        proof {
            lemma_index_in_range(self@, r as int, c as int);
            vstd::std_specs::vec::axiom_spec_len(&self.cells);
        }
        self.cells[r * self.width + c]
    }

    pub fn clone_board(&self) -> (r: Board)
        ensures
            r@ == self@,
    {
        Board { width: self.width, height: self.height, cells: clone_cells(&self.cells) }
    }
}

fn clone_cells(v: &Vec<Cell>) -> (r: Vec<Cell>)
    ensures
        r@ == v@,
{
    let mut out: Vec<Cell> = Vec::new();
    let mut i: usize = 0;
    while i < v.len()
        invariant
            i <= v@.len(),
            out@ == v@.take(i as int),
        decreases v@.len() - i,
    {
        out.push(v[i]);
        proof {
            assert(out@ =~= v@.take(i + 1));
        }
        i = i + 1;
    }
    proof {
        assert(v@.take(v@.len() as int) =~= v@);
    }
    out
}

/// Every coordinate of the path lies on the board.
pub open spec fn path_in_bounds(b: BoardView, p: Seq<Coord>) -> bool {
    forall|k: int|
        0 <= k < p.len() ==> b.in_bounds((#[trigger] p[k]).row as int, p[k].col as int)
}

/// The path visits (r, c).
pub open spec fn in_path(p: Seq<Coord>, r: int, c: int) -> bool {
    exists|k: int| 0 <= k < p.len() && (#[trigger] p[k]).row == r && p[k].col == c
}

/// Letters that clear their whole row when played.
pub open spec fn is_high_value(x: Cell) -> bool {
    match x {
        Cell::Letter(l, _) => l == 'J' || l == 'Q' || l == 'X' || l == 'Z',
        _ => false,
    }
}

/// Some cell of the path sits in row `r` and holds a high-value letter.
pub open spec fn path_row_clears(b: BoardView, p: Seq<Coord>, r: int) -> bool {
    exists|k: int|
        0 <= k < p.len() && (#[trigger] p[k]).row == r && is_high_value(
            b.cell(p[k].row as int, p[k].col as int),
        )
}

/// (r, c) is an orthogonal (non-diagonal) neighbor of `a`.
pub open spec fn ortho_adjacent(a: Coord, r: int, c: int) -> bool {
    ||| (a.row == r && (a.col == c + 1 || a.col + 1 == c))
    ||| (a.col == c && (a.row == r + 1 || a.row + 1 == r))
}

/// Some cell of the path is an orthogonal neighbor of (r, c).
pub open spec fn path_ortho_hits(p: Seq<Coord>, r: int, c: int) -> bool {
    exists|k: int| 0 <= k < p.len() && ortho_adjacent(#[trigger] p[k], r, c)
}

/// The cells cleared when `p` is played on `b`: the path itself; every
/// non-empty cell in the row of a high-value path letter; and every non-empty
/// orthogonal neighbor of a path cell, when the path is long enough or the
/// neighbor is the blank marker.
pub open spec fn deletable_at(b: BoardView, p: Seq<Coord>, r: int, c: int) -> bool {
    ||| in_path(p, r, c)
    ||| (b.cell(r, c) != Cell::Empty && path_row_clears(b, p, r))
    ||| (b.cell(r, c) != Cell::Empty && path_ortho_hits(p, r, c) && (p.len() >= 5 || b.cell(
        r,
        c,
    ) == Cell::Blank))
}

/// The position with flat row-major index `k`.
pub open spec fn coord_at(b: BoardView, k: int) -> Coord {
    Coord { row: (k / b.width as int) as usize, col: (k % b.width as int) as usize }
}

pub open spec fn deletable_at_coord(b: BoardView, p: Seq<Coord>, x: Coord) -> bool {
    deletable_at(b, p, x.row as int, x.col as int)
}

/// The deletable cells with flat index at least `k`, in row-major order.
pub open spec fn del_from(b: BoardView, p: Seq<Coord>, k: int) -> Seq<Coord>
    decreases b.area() - k,
{
    if k < 0 || k >= b.area() {
        Seq::empty()
    } else {
        (if deletable_at_coord(b, p, coord_at(b, k)) {
            seq![coord_at(b, k)]
        } else {
            Seq::empty()
        }) + del_from(b, p, k + 1)
    }
}

/// The full deletable set of `p` on `b`, as a row-major sequence.
pub open spec fn deletable_seq(b: BoardView, p: Seq<Coord>) -> Seq<Coord> {
    del_from(b, p, 0)
}

/// Splitting a flat index into row and column lands on the board.
pub proof fn lemma_flat_coord(b: BoardView, k: int)
    requires
        b.wf(),
        0 <= k < b.cells.len(),
    ensures
        b.width > 0,
        b.in_bounds(coord_at(b, k).row as int, coord_at(b, k).col as int),
        (coord_at(b, k).row as int) * b.width + coord_at(b, k).col == k,
        coord_at(b, k).row as int == k / b.width as int,
        coord_at(b, k).col as int == k % b.width as int,
{
    assert(b.width > 0) by (nonlinear_arith)
        requires
            0 <= k < b.width * b.height,
    ;
    let w = b.width as int;
    vstd::arithmetic::div_mod::lemma_fundamental_div_mod(k, w);
    vstd::arithmetic::div_mod::lemma_mod_division_less_than_divisor(k, w);
    assert(0 <= k / w < b.height) by (nonlinear_arith)
        requires
            w > 0,
            k == w * (k / w) + k % w,
            0 <= k % w < w,
            0 <= k < w * b.height,
    ;
    assert(coord_at(b, k).row as int == k / w);
    assert(coord_at(b, k).col as int == k % w);
    assert((k / w) * w + k % w == k) by (nonlinear_arith)
        requires
            k == w * (k / w) + k % w,
    ;
}

/// Combining an in-bounds row and column gives back the flat index.
pub proof fn lemma_coord_flat(b: BoardView, r: int, c: int)
    requires
        b.wf(),
        b.in_bounds(r, c),
    ensures
        0 <= r * b.width + c < b.cells.len(),
        coord_at(b, r * b.width + c) == (Coord { row: r as usize, col: c as usize }),
        (r * b.width + c) / b.width as int == r,
        (r * b.width + c) % b.width as int == c,
{
    lemma_index_in_range(b, r, c);
    let w = b.width as int;
    vstd::arithmetic::div_mod::lemma_fundamental_div_mod_converse(r * w + c, w, r, c);
}

/// Two cells of one column have different flat indices when their rows differ.
pub proof fn lemma_row_idx_inj(w: int, c: int, i1: int, i2: int)
    requires
        i1 != i2,
    ensures
        i1 * w + c != i2 * w + c || w == 0,
{
    if w != 0 {
        assert(i1 * w != i2 * w) by (nonlinear_arith)
            requires
                i1 != i2,
                w != 0,
        ;
    }
}

/// Whether `a == b + 1`, computed without overflow.
fn eq_plus_one(a: usize, b: usize) -> (res: bool)
    ensures
        res == (a == b + 1),
{
    a > 0 && a - 1 == b
}

fn coord_in_path(p: &Vec<Coord>, r: usize, c: usize) -> (res: bool)
    ensures
        res == in_path(p@, r as int, c as int),
{
    let mut k: usize = 0;
    while k < p.len()
        invariant
            k <= p@.len(),
            forall|j: int| 0 <= j < k ==> !((#[trigger] p@[j]).row == r && p@[j].col == c),
        decreases p@.len() - k,
    {
        if p[k].row == r && p[k].col == c {
            assert(p@[k as int].row == r && p@[k as int].col == c);
            return true;
        }
        k = k + 1;
    }
    false
}

fn cell_is_high_value(x: Cell) -> (res: bool)
    ensures
        res == is_high_value(x),
{
    match x {
        Cell::Letter(l, _) => l == 'J' || l == 'Q' || l == 'X' || l == 'Z',
        _ => false,
    }
}

fn path_row_clear_hits(board: &Board, p: &Vec<Coord>, r: usize) -> (res: bool)
    requires
        board.wf(),
        path_in_bounds(board@, p@),
    ensures
        res == path_row_clears(board@, p@, r as int),
{
    let mut k: usize = 0;
    while k < p.len()
        invariant
            board.wf(),
            path_in_bounds(board@, p@),
            k <= p@.len(),
            forall|j: int|
                0 <= j < k ==> !((#[trigger] p@[j]).row == r && is_high_value(
                    board@.cell(p@[j].row as int, p@[j].col as int),
                )),
        decreases p@.len() - k,
    {
        let x = p[k];
        if x.row == r {
            let cell = board.get(x.row, x.col);
            if cell_is_high_value(cell) {
                assert(p@[k as int].row == r && is_high_value(
                    board@.cell(p@[k as int].row as int, p@[k as int].col as int),
                ));
                return true;
            }
        }
        k = k + 1;
    }
    false
}

fn path_ortho_adj(p: &Vec<Coord>, r: usize, c: usize) -> (res: bool)
    ensures
        res == path_ortho_hits(p@, r as int, c as int),
{
    let mut k: usize = 0;
    while k < p.len()
        invariant
            k <= p@.len(),
            forall|j: int| 0 <= j < k ==> !ortho_adjacent(#[trigger] p@[j], r as int, c as int),
        decreases p@.len() - k,
    {
        let x = p[k];
        let hit = (x.row == r && (eq_plus_one(x.col, c) || eq_plus_one(c, x.col))) || (x.col == c
            && (eq_plus_one(x.row, r) || eq_plus_one(r, x.row)));
        if hit {
            assert(ortho_adjacent(p@[k as int], r as int, c as int));
            return true;
        }
        k = k + 1;
    }
    false
}

/// Whether position (r, c) is cleared when `path` is played.
fn deletable_test(board: &Board, path: &Vec<Coord>, r: usize, c: usize) -> (res: bool)
    requires
        board.wf(),
        path_in_bounds(board@, path@),
        board@.in_bounds(r as int, c as int),
    ensures
        res == deletable_at(board@, path@, r as int, c as int),
{
    if coord_in_path(path, r, c) {
        return true;
    }
    let x = board.get(r, c);
    if x != Cell::Empty {
        if path_row_clear_hits(board, path, r) {
            return true;
        }
        if path_ortho_adj(path, r, c) && (path.len() >= 5 || x == Cell::Blank) {
            return true;
        }
    }
    false
}

/// The cells that playing `path` clears from `board`, in row-major order.
pub fn deletable(board: &Board, path: &Vec<Coord>) -> (out: Vec<Coord>)
    requires
        board.wf(),
        path_in_bounds(board@, path@),
    ensures
        out@ == deletable_seq(board@, path@),
{
    let w = board.width;
    let h = board.height;
    let mut out: Vec<Coord> = Vec::new();
    let mut r: usize = 0;
    while r < h
        invariant
            board.wf(),
            path_in_bounds(board@, path@),
            w == board@.width,
            h == board@.height,
            r <= h,
            deletable_seq(board@, path@) == out@ + del_from(
                board@,
                path@,
                (r as int) * (w as int),
            ),
        decreases h - r,
    {
        let mut c: usize = 0;
        while c < w
            invariant
                board.wf(),
                path_in_bounds(board@, path@),
                w == board@.width,
                h == board@.height,
                r < h,
                c <= w,
                deletable_seq(board@, path@) == out@ + del_from(
                    board@,
                    path@,
                    (r as int) * (w as int) + c,
                ),
            decreases w - c,
        {
            let ghost k = (r as int) * (w as int) + c;
            proof {
                lemma_coord_flat(board@, r as int, c as int);
                assert(k < board@.area());
            }
            if deletable_test(board, path, r, c) {
                let ghost old_out = out@;
                out.push(Coord { row: r, col: c });
                proof {
                    assert(del_from(board@, path@, k) == seq![coord_at(board@, k)] + del_from(
                        board@,
                        path@,
                        k + 1,
                    ));
                    assert(old_out + del_from(board@, path@, k) =~= out@ + del_from(
                        board@,
                        path@,
                        k + 1,
                    ));
                }
            } else {
                proof {
                    assert(del_from(board@, path@, k) == Seq::<Coord>::empty() + del_from(
                        board@,
                        path@,
                        k + 1,
                    ));
                    assert(out@ + del_from(board@, path@, k) =~= out@ + del_from(
                        board@,
                        path@,
                        k + 1,
                    ));
                }
            }
            c = c + 1;
        }
        proof {
            assert((r as int) * (w as int) + w == ((r + 1) as int) * (w as int)) by (nonlinear_arith);
        }
        r = r + 1;
    }
    proof {
        assert((h as int) * (w as int) >= board@.area()) by (nonlinear_arith)
            requires
                board@.area() == (w as nat) * (h as nat),
        ;
        assert(del_from(board@, path@, (h as int) * (w as int)) =~= Seq::<Coord>::empty());
        assert(out@ + Seq::<Coord>::empty() =~= out@);
    }
    out
}

/// A position is in the deletable sequence from `k` on exactly when it is an
/// on-board deletable cell whose flat index is at least `k`.
pub proof fn lemma_del_from_membership(b: BoardView, p: Seq<Coord>, k: int, x: Coord)
    requires
        b.wf(),
        0 <= k <= b.area(),
    ensures
        del_from(b, p, k).contains(x) <==> (b.in_bounds(x.row as int, x.col as int)
            && deletable_at_coord(b, p, x) && (x.row as int) * b.width + x.col >= k),
    decreases b.area() - k,
{
    if b.in_bounds(x.row as int, x.col as int) {
        lemma_coord_flat(b, x.row as int, x.col as int);
    }
    if k >= b.area() {
        assert(del_from(b, p, k) =~= Seq::<Coord>::empty());
        assert(!del_from(b, p, k).contains(x));
    } else {
        lemma_flat_coord(b, k);
        lemma_del_from_membership(b, p, k + 1, x);
        let y = coord_at(b, k);
        let opt = if deletable_at_coord(b, p, y) {
            seq![y]
        } else {
            Seq::<Coord>::empty()
        };
        let rest = del_from(b, p, k + 1);
        assert(del_from(b, p, k) == opt + rest);
        if del_from(b, p, k).contains(x) {
            let i = choose|i: int| 0 <= i < (opt + rest).len() && (opt + rest)[i] == x;
            if i < opt.len() {
                assert(x == y);
            } else {
                assert(rest[i - opt.len()] == x);
                assert(rest.contains(x));
            }
        }
        if b.in_bounds(x.row as int, x.col as int) && deletable_at_coord(b, p, x) && (
        x.row as int) * b.width + x.col >= k {
            if (x.row as int) * b.width + x.col == k {
                assert(x == y);
                assert((opt + rest)[0] == x);
                assert(del_from(b, p, k).contains(x));
            } else {
                assert(rest.contains(x));
                let i = choose|i: int| 0 <= i < rest.len() && rest[i] == x;
                assert((opt + rest)[opt.len() + i] == x);
                assert(del_from(b, p, k).contains(x));
            }
        }
    }
}

impl Board {
    /// The flat row-major index of (r, c).
    fn idx(&self, r: usize, c: usize) -> (k: usize)
        requires
            self.wf(),
            self@.in_bounds(r as int, c as int),
        ensures
            k == (r as int) * self@.width + c,
            k < self@.cells.len(),
    {
        proof {
            lemma_index_in_range(self@, r as int, c as int);
            vstd::std_specs::vec::axiom_spec_len(&self.cells);
        }
        r * self.width + c
    }

    /// Plays `path`: clears its deletable set, then lets gravity settle every
    /// column, scanning each from the bottom with a write cursor.
    pub fn delete_path(&mut self, path: &Vec<Coord>)
        requires
            old(self).wf(),
            path_in_bounds(old(self)@, path@),
        ensures
            final(self)@ == after_delete(old(self)@, path@),
            final(self).wf(),
            final(self)@.settled(),
    {
        let ghost b0 = self@;
        let w = self.width;
        let h = self.height;
        // First pass: rebuild the cell array with the deletable set erased.
        let mut new_cells: Vec<Cell> = Vec::new();
        let mut r: usize = 0;
        while r < h
            invariant
                self.wf(),
                self@ == b0,
                path_in_bounds(b0, path@),
                w == b0.width,
                h == b0.height,
                r <= h,
                new_cells@.len() == (r as int) * (w as int),
                forall|j: int|
                    0 <= j < new_cells@.len() ==> #[trigger] new_cells@[j] == erased(
                        b0,
                        path@,
                    ).cells[j],
            decreases h - r,
        {
            let mut c: usize = 0;
            while c < w
                invariant
                    self.wf(),
                    self@ == b0,
                    path_in_bounds(b0, path@),
                    w == b0.width,
                    h == b0.height,
                    r < h,
                    c <= w,
                    new_cells@.len() == (r as int) * (w as int) + c,
                    forall|j: int|
                        0 <= j < new_cells@.len() ==> #[trigger] new_cells@[j] == erased(
                            b0,
                            path@,
                        ).cells[j],
                decreases w - c,
            {
                proof {
                    lemma_coord_flat(b0, r as int, c as int);
                }
                let x = if deletable_test(self, path, r, c) {
                    Cell::Empty
                } else {
                    self.get(r, c)
                };
                new_cells.push(x);
                c = c + 1;
            }
            proof {
                assert((r as int) * (w as int) + w == ((r + 1) as int) * (w as int))
                    by (nonlinear_arith);
            }
            r = r + 1;
        }
        proof {
            assert((h as int) * (w as int) == b0.cells.len()) by (nonlinear_arith)
                requires
                    b0.cells.len() == (w as nat) * (h as nat),
            ;
            lemma_erased_wf(b0, path@);
        }
        self.cells = new_cells;
        proof {
            assert(self@.cells =~= erased(b0, path@).cells);
            assert(self@ == erased(b0, path@));
        }
        let ghost eb = self@;
        // Second pass: compact each column in place, scanning from the bottom.
        let mut c: usize = 0;
        while c < w
            invariant
                self.wf(),
                eb.wf(),
                eb == erased(b0, path@),
                self@.width == eb.width,
                self@.height == eb.height,
                self@.cells.len() == eb.cells.len(),
                w == eb.width,
                h == eb.height,
                c <= w,
                forall|k: int|
                    0 <= k < eb.cells.len() && k % (w as int) < c ==> #[trigger] self@.cells[k]
                        == settle(eb).cells[k],
                forall|k: int|
                    0 <= k < eb.cells.len() && k % (w as int) >= c ==> #[trigger] self@.cells[k]
                        == eb.cells[k],
            decreases w - c,
        {
            let ghost col = eb.column(c as int);
            let ghost prev = self@.cells;
            proof {
                lemma_kept_from_props(col, 0);
                assert(kept_from(col, h as int) =~= Seq::<Cell>::empty());
                assert forall|i: int| 0 <= i < h implies #[trigger] self@.cells[i * (w as int) + c]
                    == col[i] by {
                    lemma_coord_flat(eb, i, c as int);
                    lemma_index_in_range(eb, i, c as int);
                }
            }
            let mut wr: usize = h;
            let mut rr: usize = h;
            while rr > 0
                invariant
                    self.wf(),
                    eb.wf(),
                    self@.width == eb.width,
                    self@.height == eb.height,
                    self@.cells.len() == eb.cells.len(),
                    w == eb.width,
                    h == eb.height,
                    c < w,
                    col == eb.column(c as int),
                    rr <= wr,
                    wr <= h,
                    wr == h - kept_from(col, rr as int).len(),
                    forall|k: int|
                        0 <= k < eb.cells.len() && k % (w as int) != c ==> #[trigger] self@.cells[k]
                            == prev[k],
                    forall|i: int|
                        wr <= i < h ==> #[trigger] self@.cells[i * (w as int) + c] == kept_from(
                            col,
                            rr as int,
                        )[i - wr],
                    forall|i: int|
                        0 <= i < rr ==> #[trigger] self@.cells[i * (w as int) + c] == col[i],
                decreases rr,
            {
                let i = rr - 1;
                proof {
                    lemma_kept_from_props(col, i as int);
                    lemma_coord_flat(eb, i as int, c as int);
                }
                let ki = self.idx(i, c);
                let x = self.cells[ki];
                assert(x == col[i as int]);
                if x != Cell::Empty {
                    assert(kept_from(col, i as int) == seq![col[i as int]] + kept_from(
                        col,
                        rr as int,
                    ));
                    assert(wr >= 1 && wr - 1 >= i) by {
                        assert(kept_from(col, i as int).len() <= h - i);
                    }
                    let ghost pre = self@.cells;
                    let kw = self.idx(wr - 1, c);
                    proof {
                        lemma_coord_flat(eb, (wr - 1) as int, c as int);
                    }
                    self.cells.set(kw, x);
                    proof {
                        assert forall|k: int|
                            0 <= k < eb.cells.len() && k % (w as int) != c implies #[trigger] self@.cells[k]
                            == prev[k] by {
                            assert(k != kw);
                        }
                        assert forall|i2: int| wr - 1 <= i2 < h implies #[trigger] self@.cells[i2 * (
                        w as int) + c] == kept_from(col, i as int)[i2 - (wr - 1)] by {
                            if i2 == wr - 1 {
                                assert(self@.cells[kw as int] == x);
                            } else {
                                lemma_row_idx_inj(w as int, c as int, i2, (wr - 1) as int);
                                lemma_index_in_range(eb, i2, c as int);
                                assert(self@.cells[i2 * (w as int) + c] == pre[i2 * (w as int) + c]);
                                assert(pre[i2 * (w as int) + c] == kept_from(col, rr as int)[i2 - wr]);
                                assert(kept_from(col, i as int)[i2 - (wr - 1)] == kept_from(
                                    col,
                                    rr as int,
                                )[i2 - wr]);
                            }
                        }
                        assert forall|i2: int| 0 <= i2 < i implies #[trigger] self@.cells[i2 * (
                        w as int) + c] == col[i2] by {
                            lemma_row_idx_inj(w as int, c as int, i2, (wr - 1) as int);
                            lemma_index_in_range(eb, i2, c as int);
                        }
                    }
                    wr = wr - 1;
                } else {
                    assert(kept_from(col, i as int) =~= kept_from(col, rr as int));
                }
                rr = i;
            }
            // Top of the column: fill the remaining rows with empty cells.
            let mut i: usize = 0;
            while i < wr
                invariant
                    self.wf(),
                    eb.wf(),
                    self@.width == eb.width,
                    self@.height == eb.height,
                    self@.cells.len() == eb.cells.len(),
                    w == eb.width,
                    h == eb.height,
                    c < w,
                    col == eb.column(c as int),
                    i <= wr,
                    wr <= h,
                    wr == h - kept_from(col, 0).len(),
                    forall|k: int|
                        0 <= k < eb.cells.len() && k % (w as int) != c ==> #[trigger] self@.cells[k]
                            == prev[k],
                    forall|j: int|
                        wr <= j < h ==> #[trigger] self@.cells[j * (w as int) + c] == kept_from(
                            col,
                            0,
                        )[j - wr],
                    forall|j: int|
                        0 <= j < i ==> #[trigger] self@.cells[j * (w as int) + c] == Cell::Empty,
                decreases wr - i,
            {
                let kj = self.idx(i, c);
                proof {
                    lemma_coord_flat(eb, i as int, c as int);
                }
                let ghost pre = self@.cells;
                self.cells.set(kj, Cell::Empty);
                proof {
                    assert forall|k: int|
                        0 <= k < eb.cells.len() && k % (w as int) != c implies #[trigger] self@.cells[k]
                        == prev[k] by {
                        assert(k != kj);
                    }
                    assert forall|j: int| wr <= j < h implies #[trigger] self@.cells[j * (w as int)
                        + c] == kept_from(col, 0)[j - wr] by {
                        lemma_row_idx_inj(w as int, c as int, j, i as int);
                        lemma_index_in_range(eb, j, c as int);
                    }
                    assert forall|j: int| 0 <= j < i + 1 implies #[trigger] self@.cells[j * (
                    w as int) + c] == Cell::Empty by {
                        if j != i {
                            lemma_row_idx_inj(w as int, c as int, j, i as int);
                            lemma_index_in_range(eb, j, c as int);
                        }
                    }
                }
                i = i + 1;
            }
            proof {
                assert forall|k: int|
                    0 <= k < eb.cells.len() && k % (w as int) == c implies #[trigger] self@.cells[k]
                    == settle(eb).cells[k] by {
                    lemma_flat_coord(eb, k);
                    let rw = k / (w as int);
                    assert(k == rw * (w as int) + c);
                    lemma_settle_cell(eb, rw, c as int);
                    lemma_index_in_range(eb, rw, c as int);
                    let e = col.len() - kept_from(col, 0).len();
                    assert(e == wr);
                    if rw < wr {
                        assert(self@.cells[k] == Cell::Empty);
                        assert(compact_column(col)[rw] == empties(e)[rw]);
                    } else {
                        assert(self@.cells[k] == kept_from(col, 0)[rw - wr]);
                        assert(compact_column(col)[rw] == kept_from(col, 0)[rw - e]);
                    }
                }
            }
            c = c + 1;
        }
        proof {
            assert forall|k: int| 0 <= k < eb.cells.len() implies self@.cells[k] == settle(
                eb,
            ).cells[k] by {
                lemma_flat_coord(eb, k);
            }
            assert(self@.cells =~= settle(eb).cells);
            assert(self@ == after_delete(b0, path@));
            lemma_after_delete_wf(b0, path@);
            lemma_delete_restores_gravity(b0, path@);
        }
    }
}

/// A high-value letter anywhere on the path clears its whole row: every
/// non-empty cell of that row belongs to the deletable set, whether or not
/// the path crosses it.
pub proof fn lemma_high_value_row_clear(b: BoardView, p: Seq<Coord>, k: int, c: int)
    requires
        b.wf(),
        0 <= k < p.len(),
        b.in_bounds(p[k].row as int, p[k].col as int),
        is_high_value(b.cell(p[k].row as int, p[k].col as int)),
        0 <= c < b.width,
        b.cell(p[k].row as int, c) != Cell::Empty,
    ensures
        deletable_at(b, p, p[k].row as int, c),
        deletable_seq(b, p).contains(Coord { row: p[k].row, col: c as usize }),
{
    assert(path_row_clears(b, p, p[k].row as int)) by {
        assert((p[k]).row == p[k].row as int && is_high_value(
            b.cell(p[k].row as int, p[k].col as int),
        ));
    }
    let x = Coord { row: p[k].row, col: c as usize };
    lemma_del_from_membership(b, p, 0, x);
}

/// A run of `n` empty cells.
pub open spec fn empties(n: int) -> Seq<Cell> {
    if n >= 0 {
        Seq::new(n as nat, |i: int| Cell::Empty)
    } else {
        Seq::empty()
    }
}

/// The non-empty cells of `col` from row `r` down, keeping their order.
pub open spec fn kept_from(col: Seq<Cell>, r: int) -> Seq<Cell>
    decreases col.len() - r,
{
    if r < 0 || r >= col.len() {
        Seq::empty()
    } else {
        (if col[r] != Cell::Empty {
            seq![col[r]]
        } else {
            Seq::empty()
        }) + kept_from(col, r + 1)
    }
}

/// A column after gravity: empty cells on top, the kept tiles below, in order.
pub open spec fn compact_column(col: Seq<Cell>) -> Seq<Cell> {
    empties(col.len() - kept_from(col, 0).len()) + kept_from(col, 0)
}

/// The board with every deletable cell of `p` made empty.
pub open spec fn erased(b: BoardView, p: Seq<Coord>) -> BoardView {
    BoardView {
        width: b.width,
        height: b.height,
        cells: Seq::new(
            b.cells.len(),
            |k: int|
                if deletable_at_coord(b, p, coord_at(b, k)) {
                    Cell::Empty
                } else {
                    b.cells[k]
                },
        ),
    }
}

/// The board with every column compacted by gravity.
pub open spec fn settle(b: BoardView) -> BoardView {
    BoardView {
        width: b.width,
        height: b.height,
        cells: Seq::new(
            b.cells.len(),
            |k: int| compact_column(b.column(k % b.width as int))[k / b.width as int],
        ),
    }
}

/// The result of playing `p` on `b`: erase the deletable set, then settle.
pub open spec fn after_delete(b: BoardView, p: Seq<Coord>) -> BoardView {
    settle(erased(b, p))
}

/// Size and content of the kept tiles of a column suffix: there are at most
/// as many as rows, none is empty, and each comes from the column.
pub proof fn lemma_kept_from_props(col: Seq<Cell>, r: int)
    requires
        0 <= r <= col.len(),
    ensures
        kept_from(col, r).len() <= col.len() - r,
        forall|i: int|
            0 <= i < kept_from(col, r).len() ==> #[trigger] kept_from(col, r)[i] != Cell::Empty,
        forall|i: int|
            0 <= i < kept_from(col, r).len() ==> col.contains(#[trigger] kept_from(col, r)[i]),
    decreases col.len() - r,
{
    if r < col.len() {
        lemma_kept_from_props(col, r + 1);
        let rest = kept_from(col, r + 1);
        if col[r] != Cell::Empty {
            assert(kept_from(col, r) == seq![col[r]] + rest);
            assert(forall|i: int|
                0 <= i < kept_from(col, r).len() ==> #[trigger] kept_from(col, r)[i] == (if i == 0 {
                    col[r]
                } else {
                    rest[i - 1]
                }));
        } else {
            assert(kept_from(col, r) == Seq::<Cell>::empty() + rest);
            assert(kept_from(col, r) =~= rest);
        }
    }
}

/// The erased board keeps the dimensions and stays well formed.
pub proof fn lemma_erased_wf(b: BoardView, p: Seq<Coord>)
    requires
        b.wf(),
    ensures
        erased(b, p).wf(),
        erased(b, p).width == b.width,
        erased(b, p).height == b.height,
{
}

/// What a settled board holds at (r, c): row `r` of the compacted column `c`.
pub proof fn lemma_settle_cell(b: BoardView, r: int, c: int)
    requires
        b.wf(),
        b.in_bounds(r, c),
    ensures
        settle(b).cell(r, c) == compact_column(b.column(c))[r],
{
    lemma_coord_flat(b, r, c);
    let k = r * b.width + c;
    lemma_index_in_range(b, r, c);
    lemma_flat_coord(b, k);
    assert(k / b.width as int == r && k % b.width as int == c);
    assert(settle(b).cells[k] == compact_column(b.column(k % b.width as int))[k / b.width as int]);
}

/// Settling keeps the dimensions and well-formedness.
pub proof fn lemma_settle_wf(b: BoardView)
    requires
        b.wf(),
    ensures
        settle(b).wf(),
        settle(b).width == b.width,
        settle(b).height == b.height,
{
    assert forall|k: int| 0 <= k < settle(b).cells.len() implies (
    #[trigger] settle(b).cells[k]).wf() by {
        lemma_flat_coord(b, k);
        let r = coord_at(b, k).row as int;
        let c = coord_at(b, k).col as int;
        let col = b.column(c);
        lemma_kept_from_props(col, 0);
        lemma_settle_cell(b, r, c);
        assert(forall|i: int| 0 <= i < col.len() ==> (#[trigger] col[i]).wf()) by {
            assert forall|i: int| 0 <= i < col.len() implies (#[trigger] col[i]).wf() by {
                lemma_index_in_range(b, i, c);
            }
        }
        let x = settle(b).cells[k];
        let e = col.len() - kept_from(col, 0).len();
        if r >= e {
            assert(x == kept_from(col, 0)[r - e]);
            assert(col.contains(x));
            let i = choose|i: int| 0 <= i < col.len() && col[i] == x;
            assert(col[i].wf());
        }
    }
}

/// After settling, no tile sits above an empty cell: gravity holds of every
/// board that `settle` produces, hence of every board `after_delete` produces.
pub proof fn lemma_settle_settled(b: BoardView)
    requires
        b.wf(),
    ensures
        settle(b).settled(),
{
    assert forall|r: int, c: int|
        0 <= r && r + 1 < settle(b).height && 0 <= c < settle(b).width && #[trigger] settle(b).cell(
            r,
            c,
        ) != Cell::Empty implies settle(b).cell(r + 1, c) != Cell::Empty by {
        let col = b.column(c);
        lemma_kept_from_props(col, 0);
        lemma_settle_cell(b, r, c);
        lemma_settle_cell(b, r + 1, c);
        let e = col.len() - kept_from(col, 0).len();
        assert(r >= e);
    }
}

/// Playing a path leaves a well-formed board of the same dimensions.
pub proof fn lemma_after_delete_wf(b: BoardView, p: Seq<Coord>)
    requires
        b.wf(),
    ensures
        after_delete(b, p).wf(),
        after_delete(b, p).width == b.width,
        after_delete(b, p).height == b.height,
{
    lemma_erased_wf(b, p);
    lemma_settle_wf(erased(b, p));
}

/// The gravity invariant: after a deletion, no column holds a tile directly
/// above an empty cell.
pub proof fn lemma_delete_restores_gravity(b: BoardView, p: Seq<Coord>)
    requires
        b.wf(),
    ensures
        after_delete(b, p).settled(),
{
    lemma_erased_wf(b, p);
    lemma_settle_settled(erased(b, p));
}

/// How many tiles (non-empty cells) column `c` holds.
pub open spec fn col_count(b: BoardView, c: int) -> nat {
    kept_from(b.column(c), 0).len()
}

/// Every column has at most two tiles left.
pub open spec fn almost_cleared(b: BoardView) -> bool {
    forall|c: int| 0 <= c < b.width ==> col_count(b, c) <= 2
}

/// How many letter tiles remain at flat index `k` or later.
pub open spec fn letters_from(b: BoardView, k: int) -> nat
    decreases b.cells.len() - k,
{
    if k < 0 || k >= b.cells.len() {
        0
    } else {
        (match b.cells[k] {
            Cell::Letter(_, _) => 1 as nat,
            _ => 0 as nat,
        }) + letters_from(b, k + 1)
    }
}

/// How many letter tiles the board still holds.  The blank markers are not
/// letters and do not count.
pub open spec fn letters_left(b: BoardView) -> nat {
    letters_from(b, 0)
}

impl Board {
    /// Counts the tiles of column `c`, scanning from the bottom.
    fn column_count(&self, c: usize) -> (n: usize)
        requires
            self.wf(),
            c < self@.width,
        ensures
            n == col_count(self@, c as int),
    {
        let ghost col = self@.column(c as int);
        proof {
            assert(kept_from(col, self@.height as int) =~= Seq::<Cell>::empty());
        }
        let h = self.height;
        let mut cnt: usize = 0;
        let mut i: usize = h;
        while i > 0
            invariant
                self.wf(),
                c < self@.width,
                col == self@.column(c as int),
                h == self@.height,
                i <= h,
                cnt == kept_from(col, i as int).len(),
            decreases i,
        {
            let x = self.get(i - 1, c);
            proof {
                assert(col[i - 1] == x);
                lemma_kept_from_props(col, i - 1);
            }
            if x != Cell::Empty {
                assert(kept_from(col, i - 1) == seq![col[i - 1]] + kept_from(col, i as int));
                cnt = cnt + 1;
            } else {
                assert(kept_from(col, i - 1) =~= kept_from(col, i as int));
            }
            i = i - 1;
        }
        cnt
    }

    /// Whether every column has at most two tiles left.
    pub fn is_almost_there(&self) -> (r: bool)
        requires
            self.wf(),
        ensures
            r == almost_cleared(self@),
    {
        let w = self.width;
        let mut c: usize = 0;
        while c < w
            invariant
                self.wf(),
                w == self@.width,
                c <= w,
                forall|j: int| 0 <= j < c ==> col_count(self@, j) <= 2,
            decreases w - c,
        {
            if self.column_count(c) > 2 {
                return false;
            }
            c = c + 1;
        }
        true
    }

    /// Whether the board holds no tiles or blanks at all.
    pub fn is_all_empty(&self) -> (r: bool)
        requires
            self.wf(),
        ensures
            r == self@.all_empty(),
    {
        let n = self.cells.len();
        let mut k: usize = 0;
        while k < n
            invariant
                self.wf(),
                n == self@.cells.len(),
                k <= n,
                forall|j: int| 0 <= j < k ==> self@.cells[j] == Cell::Empty,
            decreases n - k,
        {
            let x = self.cells[k];
            if x != Cell::Empty {
                return false;
            }
            k = k + 1;
        }
        true
    }

    /// Counts the letter tiles the board still holds.
    pub fn count_letters(&self) -> (n: usize)
        requires
            self.wf(),
        ensures
            n == letters_left(self@),
    {
        let len = self.cells.len();
        let ghost b = self@;
        proof {
            lemma_letters_from_le(b, 0);
        }
        let mut cnt: usize = 0;
        let mut k: usize = 0;
        while k < len
            invariant
                self.wf(),
                b == self@,
                len == b.cells.len(),
                k <= len,
                cnt + letters_from(b, k as int) == letters_left(b),
                letters_left(b) <= len,
            decreases len - k,
        {
            let x = self.cells[k];
            match x {
                Cell::Letter(_, _) => {
                    cnt = cnt + 1;
                },
                _ => {},
            }
            k = k + 1;
        }
        cnt
    }
}

/// There are never more letter tiles than cells.
proof fn lemma_letters_from_le(b: BoardView, k: int)
    requires
        0 <= k <= b.cells.len(),
    ensures
        letters_from(b, k) <= b.cells.len() - k,
    decreases b.cells.len() - k,
{
    if k < b.cells.len() {
        lemma_letters_from_le(b, k + 1);
    }
}

/// The tiles of columns `c` and rightward, summed.
pub open spec fn col_sum(b: BoardView, c: int) -> nat
    decreases b.width - c,
{
    if c < 0 || c >= b.width {
        0
    } else {
        col_count(b, c) + col_sum(b, c + 1)
    }
}

/// How many tiles (non-empty cells) the board holds.
pub open spec fn tiles(b: BoardView) -> nat {
    col_sum(b, 0)
}

/// A column that only loses tiles cell by cell keeps no more of them.
proof fn lemma_kept_dominated(col1: Seq<Cell>, col2: Seq<Cell>, r: int)
    requires
        col1.len() == col2.len(),
        0 <= r <= col1.len(),
        forall|i: int| r <= i < col1.len() ==> col2[i] == col1[i] || col2[i] == Cell::Empty,
    ensures
        kept_from(col2, r).len() <= kept_from(col1, r).len(),
    decreases col1.len() - r,
{
    if r < col1.len() {
        lemma_kept_dominated(col1, col2, r + 1);
    }
}

/// And strictly fewer when some tile of it was in fact erased.
proof fn lemma_kept_dominated_strict(col1: Seq<Cell>, col2: Seq<Cell>, r: int, wit: int)
    requires
        col1.len() == col2.len(),
        0 <= r <= wit < col1.len(),
        forall|i: int| r <= i < col1.len() ==> col2[i] == col1[i] || col2[i] == Cell::Empty,
        col1[wit] != Cell::Empty,
        col2[wit] == Cell::Empty,
    ensures
        kept_from(col2, r).len() < kept_from(col1, r).len(),
    decreases col1.len() - r,
{
    if r == wit {
        lemma_kept_dominated(col1, col2, r + 1);
    } else {
        lemma_kept_dominated_strict(col1, col2, r + 1, wit);
    }
}

/// Summing dominated column counts keeps the order.
proof fn lemma_col_sum_dominated(b1: BoardView, b2: BoardView, c: int)
    requires
        b1.width == b2.width,
        forall|j: int| c <= j < b1.width ==> col_count(b2, j) <= col_count(b1, j),
    ensures
        col_sum(b2, c) <= col_sum(b1, c),
    decreases b1.width - c,
{
    if 0 <= c && c < b1.width {
        lemma_col_sum_dominated(b1, b2, c + 1);
    }
}

/// And strictly so when one column strictly lost tiles.
proof fn lemma_col_sum_strict(b1: BoardView, b2: BoardView, c: int, witc: int)
    requires
        b1.width == b2.width,
        c <= witc < b1.width,
        0 <= c,
        forall|j: int| c <= j < b1.width ==> col_count(b2, j) <= col_count(b1, j),
        col_count(b2, witc) < col_count(b1, witc),
    ensures
        col_sum(b2, c) < col_sum(b1, c),
    decreases b1.width - c,
{
    if c == witc {
        lemma_col_sum_dominated(b1, b2, c + 1);
    } else {
        lemma_col_sum_strict(b1, b2, c + 1, witc);
    }
}

/// Equal column counts give equal sums.
proof fn lemma_col_sum_congruent(b1: BoardView, b2: BoardView, c: int)
    requires
        b1.width == b2.width,
        forall|j: int| c <= j < b1.width ==> col_count(b2, j) == col_count(b1, j),
    ensures
        col_sum(b2, c) == col_sum(b1, c),
    decreases b1.width - c,
{
    if 0 <= c && c < b1.width {
        lemma_col_sum_congruent(b1, b2, c + 1);
    }
}

/// Rows that are empty contribute nothing to the kept tiles.
proof fn lemma_kept_from_empties(s: Seq<Cell>, r: int, e: int)
    requires
        0 <= r <= e <= s.len(),
        forall|i: int| r <= i < e ==> s[i] == Cell::Empty,
    ensures
        kept_from(s, r) == kept_from(s, e),
    decreases e - r,
{
    if r < e {
        lemma_kept_from_empties(s, r + 1, e);
        assert(kept_from(s, r) =~= kept_from(s, r + 1));
    }
}

/// A suffix without empty cells is kept whole.
proof fn lemma_kept_all_nonempty(s: Seq<Cell>, r: int)
    requires
        0 <= r <= s.len(),
        forall|i: int| r <= i < s.len() ==> s[i] != Cell::Empty,
    ensures
        kept_from(s, r) == s.skip(r),
    decreases s.len() - r,
{
    if r < s.len() {
        lemma_kept_all_nonempty(s, r + 1);
        assert(kept_from(s, r) =~= s.skip(r));
    } else {
        assert(kept_from(s, r) =~= s.skip(r));
    }
}

/// Compacting a column does not change what it keeps.
proof fn lemma_kept_of_compact(col: Seq<Cell>)
    ensures
        kept_from(compact_column(col), 0) == kept_from(col, 0),
{
    lemma_kept_from_props(col, 0);
    let kept = kept_from(col, 0);
    let e = col.len() - kept.len();
    let s = compact_column(col);
    assert(s.len() == col.len());
    assert(forall|i: int| 0 <= i < e ==> s[i] == Cell::Empty);
    lemma_kept_from_empties(s, 0, e);
    assert(forall|i: int| e <= i < s.len() ==> s[i] == kept[i - e] && s[i] != Cell::Empty);
    lemma_kept_all_nonempty(s, e);
    assert(s.skip(e) =~= kept);
}

/// Settling moves tiles within their columns but loses none.
pub proof fn lemma_settle_tiles(b: BoardView)
    requires
        b.wf(),
    ensures
        tiles(settle(b)) == tiles(b),
{
    lemma_settle_wf(b);
    assert forall|c: int| 0 <= c < b.width implies col_count(settle(b), c) == col_count(b, c) by {
        let col = b.column(c);
        lemma_kept_from_props(col, 0);
        assert forall|r: int| 0 <= r < b.height implies settle(b).column(c)[r] == compact_column(
            col,
        )[r] by {
            lemma_settle_cell(b, r, c);
        }
        assert(settle(b).column(c) =~= compact_column(col));
        lemma_kept_of_compact(col);
    }
    lemma_col_sum_congruent(b, settle(b), 0);
}

/// Playing a path whose first cell holds a tile removes at least that tile:
/// the board strictly loses tiles, which bounds how long any play loop runs.
pub proof fn lemma_delete_decreases_tiles(b: BoardView, p: Seq<Coord>)
    requires
        b.wf(),
        path_in_bounds(b, p),
        p.len() >= 1,
        b.cell(p[0].row as int, p[0].col as int) != Cell::Empty,
    ensures
        tiles(after_delete(b, p)) < tiles(b),
{
    let eb = erased(b, p);
    lemma_erased_wf(b, p);
    let r0 = p[0].row as int;
    let c0 = p[0].col as int;
    assert(in_path(p, r0, c0)) by {
        assert(p[0].row == r0 && p[0].col == c0);
    }
    assert forall|c: int, r: int| 0 <= c < b.width && 0 <= r < b.height implies eb.column(c)[r]
        == b.column(c)[r] || eb.column(c)[r] == Cell::Empty by {
        lemma_coord_flat(b, r, c);
        lemma_index_in_range(b, r, c);
    }
    assert forall|c: int| 0 <= c < b.width implies col_count(eb, c) <= col_count(b, c) by {
        assert(eb.column(c).len() == b.column(c).len());
        lemma_kept_dominated(b.column(c), eb.column(c), 0);
    }
    assert(col_count(eb, c0) < col_count(b, c0)) by {
        lemma_coord_flat(b, r0, c0);
        lemma_index_in_range(b, r0, c0);
        assert(deletable_at_coord(b, p, coord_at(b, r0 * b.width + c0)));
        assert(eb.column(c0)[r0] == Cell::Empty);
        assert(b.column(c0)[r0] != Cell::Empty);
        lemma_kept_dominated_strict(b.column(c0), eb.column(c0), 0, r0);
    }
    lemma_col_sum_strict(b, eb, 0, c0);
    lemma_settle_tiles(eb);
}

/// The flat index of an in-bounds position is itself in bounds.
pub proof fn lemma_index_in_range(b: BoardView, r: int, c: int)
    requires
        b.wf(),
        b.in_bounds(r, c),
    ensures
        0 <= r * b.width + c < b.cells.len(),
        b.cell(r, c) == b.cells[r * b.width + c],
{
    assert(r * b.width + c < b.area()) by (nonlinear_arith)
        requires
            0 <= r < b.height,
            0 <= c < b.width,
            b.area() == b.width * b.height,
    ;
    assert(r * b.width + c >= 0) by (nonlinear_arith)
        requires
            0 <= r,
            0 <= c,
            b.width >= 0,
    ;
}

} // verus!

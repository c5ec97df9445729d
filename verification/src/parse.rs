//! Parsing the text encoding of a board: the first line is ignored, the
//! second names the dimensions as `<width>x<height>`, and the remaining
//! lines, concatenated, give the grid row-major — a letter per tile (case
//! marks a bonus tile) and an underscore per blank marker.  Malformed text
//! is rejected, never silently truncated.

use vstd::prelude::*;

verus! {

use crate::board::Board;
use crate::board::BoardView;
use crate::board::Cell;

/// Why a board text was rejected.
#[derive(Clone, Copy, PartialEq, Eq, Structural, Debug)]
pub enum ParseError {
    /// No second line to carry the dimensions.
    MissingDimensions,
    /// The dimension line has no `x` between width and height.
    BadDimensions,
    /// A dimension is empty, holds a non-digit, or overflows the machine.
    BadNumber,
    /// The grid would not fit in memory.
    TooLarge,
    /// Fewer grid characters than width times height.
    TooFewCells,
    /// A grid character that is neither a letter nor the blank marker.
    BadCharacter,
}

/// The first position of `b` in `s` at or after `from`.
pub open spec fn find_from(s: Seq<u8>, from: int, b: u8) -> Option<int>
    decreases s.len() - from,
{
    if from < 0 || from >= s.len() {
        None
    } else if s[from] == b {
        Some(from)
    } else {
        find_from(s, from + 1, b)
    }
}

/// A non-empty string of decimal digits.
pub open spec fn all_digits(s: Seq<u8>) -> bool {
    s.len() >= 1 && forall|i: int| 0 <= i < s.len() ==> 48 <= #[trigger] s[i] <= 57
}

/// The number a string of digits denotes.
pub open spec fn digits_val(s: Seq<u8>) -> int
    decreases s.len(),
{
    if s.len() == 0 {
        0
    } else {
        digits_val(s.drop_last()) * 10 + (s.last() - 48)
    }
}

/// The grid characters: everything from `from` on, newlines removed.
pub open spec fn strip_newlines(s: Seq<u8>, from: int) -> Seq<u8>
    decreases s.len() - from,
{
    if from < 0 || from >= s.len() {
        Seq::empty()
    } else {
        (if s[from] == 10 {
            Seq::<u8>::empty()
        } else {
            seq![s[from]]
        }) + strip_newlines(s, from + 1)
    }
}

/// The cell a grid character denotes: an uppercase letter is a plain tile, a
/// lowercase letter a bonus tile, an underscore the blank marker.
pub open spec fn cell_of(b: u8) -> Option<Cell> {
    if 65 <= b <= 90 {
        Some(Cell::Letter(b as char, false))
    } else if 97 <= b <= 122 {
        Some(Cell::Letter((b - 32) as char, true))
    } else if b == 95 {
        Some(Cell::Blank)
    } else {
        None
    }
}

/// Whether any of the first `n` grid characters denotes no cell.
pub open spec fn any_bad(content: Seq<u8>, n: int) -> bool
    decreases n,
{
    if n <= 0 {
        false
    } else {
        any_bad(content, n - 1) || cell_of(content[n - 1]) is None
    }
}

/// What parsing a board text yields: the board it encodes, or the first
/// reason, in reading order, that it encodes none.
pub open spec fn parse_result(s: Seq<u8>) -> Result<BoardView, ParseError> {
    if find_from(s, 0, 10) is None {
        Err(ParseError::MissingDimensions)
    } else {
        let l1 = find_from(s, 0, 10)->0;
        let dend = if find_from(s, l1 + 1, 10) is Some {
            find_from(s, l1 + 1, 10)->0
        } else {
            s.len() as int
        };
        let dims = s.subrange(l1 + 1, dend);
        if find_from(dims, 0, 120) is None {
            Err(ParseError::BadDimensions)
        } else {
            let x = find_from(dims, 0, 120)->0;
            let wd = dims.subrange(0, x);
            let hd = dims.subrange(x + 1, dims.len() as int);
            if !all_digits(wd) || !all_digits(hd) || digits_val(wd) > usize::MAX || digits_val(hd)
                > usize::MAX {
                Err(ParseError::BadNumber)
            } else {
                let w = digits_val(wd);
                let h = digits_val(hd);
                if w * h > usize::MAX {
                    Err(ParseError::TooLarge)
                } else {
                    let content = strip_newlines(s, dend + 1);
                    if content.len() < w * h {
                        Err(ParseError::TooFewCells)
                    } else if any_bad(content, w * h) {
                        Err(ParseError::BadCharacter)
                    } else {
                        Ok(
                            BoardView {
                                width: w as nat,
                                height: h as nat,
                                cells: Seq::new(
                                    (w * h) as nat,
                                    |k: int|
                                        if cell_of(content[k]) is Some {
                                            cell_of(content[k])->0
                                        } else {
                                            Cell::Empty
                                        },
                                ),
                            },
                        )
                    }
                }
            }
        }
    }
}

/// A grid prefix has a bad character exactly when some position holds one.
proof fn lemma_any_bad_iff(c: Seq<u8>, n: int)
    ensures
        any_bad(c, n) <==> (exists|k: int| 0 <= k < n && (#[trigger] cell_of(c[k])) is None),
    decreases n,
{
    if n > 0 {
        lemma_any_bad_iff(c, n - 1);
        if cell_of(c[n - 1]) is None {
            assert(0 <= n - 1 < n && cell_of(c[n - 1]) is None);
        }
    }
}

/// The first position of `b` in `v` at or after `from`.
fn find_byte(v: &Vec<u8>, from: usize, b: u8) -> (r: Option<usize>)
    requires
        from <= v@.len(),
    ensures
        match r {
            Some(i) => from <= i < v@.len() && find_from(v@, from as int, b) == Some(i as int),
            None => find_from(v@, from as int, b) is None,
        },
{
    let mut k: usize = from;
    while k < v.len()
        invariant
            from <= k <= v@.len(),
            find_from(v@, from as int, b) == find_from(v@, k as int, b),
        decreases v@.len() - k,
    {
        if v[k] == b {
            return Some(k);
        }
        k = k + 1;
    }
    None
}

/// The bytes of `v` in `[from, to)`.
fn copy_range(v: &Vec<u8>, from: usize, to: usize) -> (r: Vec<u8>)
    requires
        from <= to <= v@.len(),
    ensures
        r@ == v@.subrange(from as int, to as int),
{
    let mut out: Vec<u8> = Vec::new();
    let mut k: usize = from;
    while k < to
        invariant
            from <= k <= to <= v@.len(),
            out@ == v@.subrange(from as int, k as int),
        decreases to - k,
    {
        out.push(v[k]);
        proof {
            assert(out@ =~= v@.subrange(from as int, k + 1));
        }
        k = k + 1;
    }
    out
}

/// Reading a longer digit string never shrinks the number it denotes.
proof fn lemma_digits_val_prefix(s: Seq<u8>, i: int)
    requires
        0 <= i <= s.len(),
        forall|j: int| 0 <= j < s.len() ==> 48 <= #[trigger] s[j] <= 57,
    ensures
        digits_val(s.take(i)) >= 0,
        digits_val(s) >= digits_val(s.take(i)),
    decreases s.len() - i,
{
    if i == s.len() {
        assert(s.take(i) =~= s);
        lemma_digits_val_nonneg(s);
    } else {
        lemma_digits_val_prefix(s, i + 1);
        assert(s.take(i + 1).drop_last() =~= s.take(i));
        assert(s.take(i + 1).last() == s[i]);
        lemma_digits_val_nonneg(s.take(i));
    }
}

/// A digit string denotes a non-negative number.
proof fn lemma_digits_val_nonneg(s: Seq<u8>)
    requires
        forall|j: int| 0 <= j < s.len() ==> 48 <= #[trigger] s[j] <= 57,
    ensures
        digits_val(s) >= 0,
    decreases s.len(),
{
    if s.len() > 0 {
        assert(forall|j: int|
            0 <= j < s.drop_last().len() ==> 48 <= #[trigger] s.drop_last()[j] <= 57);
        lemma_digits_val_nonneg(s.drop_last());
    }
}

/// The machine number a digit string denotes, or the reason there is none:
/// empty, a non-digit, or too large for the machine.
fn parse_usize(digits: &Vec<u8>) -> (r: Result<usize, ParseError>)
    ensures
        match r {
            Ok(v) => all_digits(digits@) && digits_val(digits@) == v,
            Err(e) => e == ParseError::BadNumber && (!all_digits(digits@) || digits_val(digits@)
                > usize::MAX),
        },
{
    let n = digits.len();
    if n == 0 {
        return Err(ParseError::BadNumber);
    }
    let mut acc: u128 = 0;
    let mut i: usize = 0;
    while i < n
        invariant
            n == digits@.len(),
            n >= 1,
            i <= n,
            forall|j: int| 0 <= j < i ==> 48 <= #[trigger] digits@[j] <= 57,
            acc == digits_val(digits@.take(i as int)),
            acc <= usize::MAX,
        decreases n - i,
    {
        let d = digits[i];
        if d < 48 || d > 57 {
            return Err(ParseError::BadNumber);
        }
        proof {
            assert(digits@.take(i + 1).drop_last() =~= digits@.take(i as int));
            assert(digits@.take(i + 1).last() == digits@[i as int]);
        }
        acc = acc * 10 + ((d - 48) as u128);
        i = i + 1;
        if acc > (usize::MAX as u128) {
            proof {
                if all_digits(digits@) {
                    lemma_digits_val_prefix(digits@, i as int);
                }
            }
            return Err(ParseError::BadNumber);
        }
    }
    proof {
        assert(digits@.take(n as int) =~= digits@);
    }
    Ok(acc as usize)
}

/// Parses the text encoding of a board.
pub fn parse_puzzle(s: &Vec<u8>) -> (r: Result<Board, ParseError>)
    ensures
        match r {
            Ok(b) => b.wf() && parse_result(s@) == Ok::<BoardView, ParseError>(b@),
            Err(e) => parse_result(s@) == Err::<BoardView, ParseError>(e),
        },
{
    proof {
        vstd::std_specs::vec::axiom_spec_len(s);
    }
    let l1 = match find_byte(s, 0, 10) {
        Some(i) => i,
        None => {
            return Err(ParseError::MissingDimensions);
        },
    };
    let dend = match find_byte(s, l1 + 1, 10) {
        Some(i) => i,
        None => s.len(),
    };
    let dims = copy_range(s, l1 + 1, dend);
    let x = match find_byte(&dims, 0, 120) {
        Some(i) => i,
        None => {
            return Err(ParseError::BadDimensions);
        },
    };
    let wd = copy_range(&dims, 0, x);
    let hd = copy_range(&dims, x + 1, dims.len());
    let w = match parse_usize(&wd) {
        Ok(v) => v,
        Err(e) => {
            return Err(e);
        },
    };
    let h = match parse_usize(&hd) {
        Ok(v) => v,
        Err(e) => {
            return Err(e);
        },
    };
    proof {
        assert((w as int) * (h as int) < 0x1_0000_0000_0000_0000_0000_0000_0000_0000)
            by (nonlinear_arith)
            requires
                w as int >= 0,
                (w as int) < 0x1_0000_0000_0000_0000,
                h as int >= 0,
                (h as int) < 0x1_0000_0000_0000_0000,
        ;
    }
    if (w as u128) * (h as u128) > (usize::MAX as u128) {
        proof {
            assert((w as int) * (h as int) > usize::MAX) by (nonlinear_arith)
                requires
                    (w as u128) * (h as u128) > (usize::MAX as u128),
                    (w as u128) == w as int,
                    (h as u128) == h as int,
            ;
        }
        return Err(ParseError::TooLarge);
    }
    proof {
        assert((w as int) * (h as int) <= usize::MAX) by (nonlinear_arith)
            requires
                (w as u128) * (h as u128) <= (usize::MAX as u128),
                (w as u128) == w as int,
                (h as u128) == h as int,
        ;
    }
    let area = w * h;
    // Collect the first `area` grid characters, skipping newlines.
    let ghost start = dend + 1;
    let mut content: Vec<u8> = Vec::new();
    let mut k: usize = if dend < s.len() {
        dend + 1
    } else {
        s.len()
    };
    proof {
        if dend >= s.len() {
            assert(strip_newlines(s@, start) =~= strip_newlines(s@, k as int));
        }
    }
    while content.len() < area && k < s.len()
        invariant
            area == (w as int) * (h as int),
            k <= s@.len(),
            strip_newlines(s@, start) =~= content@ + strip_newlines(s@, k as int),
            content@.len() <= area,
        decreases s@.len() - k,
    {
        let b = s[k];
        proof {
            assert(strip_newlines(s@, k as int) == (if s@[k as int] == 10 {
                Seq::<u8>::empty()
            } else {
                seq![s@[k as int]]
            }) + strip_newlines(s@, k + 1));
        }
        if b != 10 {
            let ghost old_content = content@;
            content.push(b);
            proof {
                assert(old_content + (seq![b] + strip_newlines(s@, k + 1)) =~= content@
                    + strip_newlines(s@, k + 1));
            }
        } else {
            proof {
                assert(content@ + (Seq::<u8>::empty() + strip_newlines(s@, k + 1)) =~= content@
                    + strip_newlines(s@, k + 1));
            }
        }
        k = k + 1;
    }
    let ghost full = strip_newlines(s@, start);
    if content.len() < area {
        proof {
            assert(k == s@.len());
            assert(strip_newlines(s@, k as int) =~= Seq::<u8>::empty());
            assert(full =~= content@);
        }
        return Err(ParseError::TooFewCells);
    }
    proof {
        assert(content@.len() == area);
        assert forall|j: int| 0 <= j < area implies full[j] == content@[j] by {
            assert(full[j] == (content@ + strip_newlines(s@, k as int))[j]);
        }
        assert(full.len() >= area);
    }
    proof {
        assert(find_from(s@, 0, 10) == Some(l1 as int));
        let l1s = find_from(s@, 0, 10)->0;
        assert(l1s == l1 as int);
        let dend_spec: int = if find_from(s@, l1s + 1, 10) is Some {
            find_from(s@, l1s + 1, 10)->0
        } else {
            s@.len() as int
        };
        assert(dend_spec == dend as int);
        let dims_spec = s@.subrange(l1s + 1, dend_spec);
        assert(dims_spec == dims@);
        assert(find_from(dims_spec, 0, 120) is Some);
        let xs = find_from(dims_spec, 0, 120)->0;
        assert(xs == x as int);
        let wds = dims_spec.subrange(0, xs);
        let hds = dims_spec.subrange(xs + 1, dims_spec.len() as int);
        assert(wds == wd@ && hds == hd@);
        assert(all_digits(wds) && digits_val(wds) == w as int);
        assert(all_digits(hds) && digits_val(hds) == h as int);
        let ws = digits_val(wds);
        let hs = digits_val(hds);
        assert(!(ws * hs > usize::MAX));
        let content_spec = strip_newlines(s@, dend_spec + 1);
        assert(content_spec == full);
        assert(!(content_spec.len() < ws * hs));
        lemma_any_bad_iff(content_spec, ws * hs);
        if exists|j: int|
            0 <= j < (w as int) * (h as int) && (#[trigger] cell_of(full[j])) is None {
            let j = choose|j: int|
                0 <= j < (w as int) * (h as int) && (#[trigger] cell_of(full[j])) is None;
            assert(0 <= j < ws * hs && cell_of(content_spec[j]) is None);
            assert(any_bad(content_spec, ws * hs));
            assert(parse_result(s@) == Err::<BoardView, ParseError>(ParseError::BadCharacter));
        } else {
            assert(!any_bad(content_spec, ws * hs)) by {
                if any_bad(content_spec, ws * hs) {
                    let k = choose|k: int|
                        0 <= k < ws * hs && (#[trigger] cell_of(content_spec[k])) is None;
                    assert(0 <= k < (w as int) * (h as int) && cell_of(full[k]) is None);
                }
            }
        }
    }
    // Turn the characters into cells.
    let mut cells: Vec<Cell> = Vec::new();
    let mut i: usize = 0;
    while i < area
        invariant
            area == (w as int) * (h as int),
            area <= usize::MAX,
            content@.len() == area,
            forall|j: int| 0 <= j < area ==> full[j] == content@[j],
            full.len() >= area,
            (exists|j: int| 0 <= j < area && (#[trigger] cell_of(full[j])) is None)
                ==> parse_result(s@) == Err::<BoardView, ParseError>(ParseError::BadCharacter),
            i <= area,
            cells@.len() == i,
            forall|j: int| 0 <= j < i ==> cell_of(content@[j]) == Some(#[trigger] cells@[j]),
            forall|j: int| 0 <= j < i ==> (#[trigger] cells@[j]).wf(),
        decreases area - i,
    {
        let b = content[i];
        let cell = if b >= 65 && b <= 90 {
            Cell::Letter(b as char, false)
        } else if b >= 97 && b <= 122 {
            Cell::Letter((b - 32) as char, true)
        } else if b == 95 {
            Cell::Blank
        } else {
            proof {
                assert(cell_of(full[i as int]) is None);
            }
            return Err(ParseError::BadCharacter);
        };
        cells.push(cell);
        i = i + 1;
    }
    let board = Board::from_cells(w, h, cells);
    proof {
        let expected = match parse_result(s@) {
            Ok(bv) => bv,
            Err(_) => board@,
        };
        assert(!(exists|j: int| 0 <= j < area && (#[trigger] cell_of(full[j])) is None)) by {
            assert forall|j: int| 0 <= j < area implies !((#[trigger] cell_of(full[j])) is None) by {
                assert(cell_of(content@[j]) == Some(cells@[j]));
            }
        }
        assert(parse_result(s@) is Ok);
        assert(board@.cells =~= expected.cells);
        assert(board@ == expected);
    }
    Ok(board)
}

} // verus!

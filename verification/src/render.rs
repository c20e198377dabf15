//! The board and the moves as text, for a console.

use crate::checkers::{Board, Move, BLACK, KING, WHITE};
use vstd::prelude::*;

verus! {

/// The letter of a piece: `w` and `b` for men, `W` and `B` for kings, and a
/// blank for a square without a colour.
pub open spec fn symbol_of(piece: u8) -> char {
    if piece & WHITE != 0 {
        if piece & KING != 0 {
            'W'
        } else {
            'w'
        }
    } else if piece & BLACK != 0 {
        if piece & KING != 0 {
            'B'
        } else {
            'b'
        }
    } else {
        ' '
    }
}

/// The character of a digit.
pub open spec fn digit_of(d: int) -> char {
    if d == 0 {
        '0'
    } else if d == 1 {
        '1'
    } else if d == 2 {
        '2'
    } else if d == 3 {
        '3'
    } else if d == 4 {
        '4'
    } else if d == 5 {
        '5'
    } else if d == 6 {
        '6'
    } else if d == 7 {
        '7'
    } else if d == 8 {
        '8'
    } else {
        '9'
    }
}

/// A number below 256 in decimal digits, without leading zeros.
pub open spec fn decimal_of(n: int) -> Seq<char> {
    if n < 10 {
        seq![digit_of(n)]
    } else if n < 100 {
        seq![digit_of(n / 10), digit_of(n % 10)]
    } else {
        seq![digit_of(n / 100), digit_of((n / 10) % 10), digit_of(n % 10)]
    }
}

/// A square on the board: a bar and the letter of the piece between blanks.
pub open spec fn cell_of(piece: u8) -> Seq<char> {
    seq!['|', ' ', symbol_of(piece), ' ']
}

/// The number of a square under the board, as wide as a square.
pub open spec fn label_of(n: int) -> Seq<char> {
    if n >= 10 {
        seq!['|', '-'] + decimal_of(n)
    } else {
        seq!['|', '-'] + decimal_of(n) + seq!['-']
    }
}

/// What closes a line of squares.
pub open spec fn line_end() -> Seq<char> {
    seq!['|', '\n']
}

/// The first `n` squares of rank `r`.
pub open spec fn cells_upto(b: Seq<u8>, r: int, n: int) -> Seq<char>
    decreases n,
{
    if n <= 0 {
        Seq::empty()
    } else {
        cells_upto(b, r, n - 1) + cell_of(b[8 * r + n - 1])
    }
}

/// The numbers of the first `n` squares of rank `r`.
pub open spec fn labels_upto(r: int, n: int) -> Seq<char>
    decreases n,
{
    if n <= 0 {
        Seq::empty()
    } else {
        labels_upto(r, n - 1) + label_of(8 * r + n - 1)
    }
}

/// A rank: the line of its squares and the line of their numbers.
pub open spec fn rank_text(b: Seq<u8>, r: int) -> Seq<char> {
    cells_upto(b, r, 8) + line_end() + labels_upto(r, 8) + line_end()
}

/// The line that stands above the board.
pub open spec fn rule_line() -> Seq<char> {
    Seq::new(33, |i: int| '-').push('\n')
}

/// The rule and the first `n` ranks.
pub open spec fn ranks_upto(b: Seq<u8>, n: int) -> Seq<char>
    decreases n,
{
    if n <= 0 {
        rule_line()
    } else {
        ranks_upto(b, n - 1) + rank_text(b, n - 1)
    }
}

/// The board as text: a rule, then rank by rank the squares and, under
/// them, their numbers.
pub open spec fn board_text(b: Seq<u8>) -> Seq<char> {
    ranks_upto(b, 8)
}

/// The first `n` squares of a path, each followed by a blank.
pub open spec fn path_upto(jumps: Seq<u8>, n: int) -> Seq<char>
    decreases n,
{
    if n <= 0 {
        Seq::empty()
    } else {
        path_upto(jumps, n - 1) + decimal_of(jumps[n - 1] as int) + seq![' ']
    }
}

/// A move as text: the squares of its path, each followed by a blank, on a
/// line.
pub open spec fn move_text(jumps: Seq<u8>) -> Seq<char> {
    path_upto(jumps, jumps.len() as int).push('\n')
}

/// The letter of a piece.
pub fn symbol(piece: u8) -> (c: char)
    ensures
        c == symbol_of(piece),
{
    if piece & WHITE != 0 {
        if piece & KING != 0 {
            'W'
        } else {
            'w'
        }
    } else if piece & BLACK != 0 {
        if piece & KING != 0 {
            'B'
        } else {
            'b'
        }
    } else {
        ' '
    }
}

fn digit(d: u8) -> (c: char)
    requires
        d < 10,
    ensures
        c == digit_of(d as int),
{
    if d == 0 {
        '0'
    } else if d == 1 {
        '1'
    } else if d == 2 {
        '2'
    } else if d == 3 {
        '3'
    } else if d == 4 {
        '4'
    } else if d == 5 {
        '5'
    } else if d == 6 {
        '6'
    } else if d == 7 {
        '7'
    } else if d == 8 {
        '8'
    } else {
        '9'
    }
}

/// Adds the decimal digits of `n` to `out`.
fn put_decimal(out: &mut Vec<char>, n: u8)
    ensures
        final(out)@ == old(out)@ + decimal_of(n as int),
{
    if n >= 100 {
        out.push(digit(n / 100));
        out.push(digit((n / 10) % 10));
        out.push(digit(n % 10));
    } else if n >= 10 {
        out.push(digit(n / 10));
        out.push(digit(n % 10));
    } else {
        out.push(digit(n));
    }
    assert(out@ =~= old(out)@ + decimal_of(n as int));
}

impl Board {
    /// The board as text: a rule, then rank by rank a line of squares with
    /// the letters of their pieces and a line with their numbers.
    pub fn render(&self) -> (text: Vec<char>)
        requires
            self.wf(),
        ensures
            text@ == board_text(self@),
    {
        let mut out: Vec<char> = Vec::new();
        let mut k: usize = 0;
        while k < 33
            invariant
                k <= 33,
                out@ == Seq::new(k as nat, |i: int| '-'),
            decreases 33 - k,
        {
            out.push('-');
            assert(out@ =~= Seq::new((k + 1) as nat, |i: int| '-'));
            k += 1;
        }
        out.push('\n');
        let mut r: usize = 0;
        while r < 8
            invariant
                self.wf(),
                r <= 8,
                out@ == ranks_upto(self@, r as int),
            decreases 8 - r,
        {
            let ghost before = out@;
            let mut c: usize = 0;
            while c < 8
                invariant
                    self.wf(),
                    r < 8,
                    c <= 8,
                    out@ == before + cells_upto(self@, r as int, c as int),
                decreases 8 - c,
            {
                let piece: u8 = self.board[8 * r + c];
                out.push('|');
                out.push(' ');
                out.push(symbol(piece));
                out.push(' ');
                assert(out@ =~= before + cells_upto(self@, r as int, c + 1));
                c += 1;
            }
            out.push('|');
            out.push('\n');
            let ghost cells = out@;
            assert(cells =~= before + cells_upto(self@, r as int, 8) + line_end());
            let mut c: usize = 0;
            while c < 8
                invariant
                    r < 8,
                    c <= 8,
                    out@ == cells + labels_upto(r as int, c as int),
                decreases 8 - c,
            {
                let n: u8 = (8 * r + c) as u8;
                out.push('|');
                out.push('-');
                put_decimal(&mut out, n);
                if n < 10 {
                    out.push('-');
                }
                assert(out@ =~= cells + labels_upto(r as int, c + 1));
                c += 1;
            }
            out.push('|');
            out.push('\n');
            assert(out@ =~= ranks_upto(self@, r + 1));
            r += 1;
        }
        out
    }
}

impl Move {
    /// The move as text: the squares of its path, each followed by a blank,
    /// on a line.
    pub fn render(&self) -> (text: Vec<char>)
        ensures
            text@ == move_text(self@.jumps),
    {
        let mut out: Vec<char> = Vec::new();
        let mut i: usize = 0;
        while i < self.jumps.len()
            invariant
                i <= self.jumps.len(),
                out@ == path_upto(self.jumps@, i as int),
            decreases self.jumps.len() - i,
        {
            put_decimal(&mut out, self.jumps[i]);
            out.push(' ');
            assert(out@ =~= path_upto(self.jumps@, i + 1));
            i += 1;
        }
        out.push('\n');
        out
    }
}

} // verus!

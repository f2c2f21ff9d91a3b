//! Fixed-width textual rendering of a board with its clues, one
//! character per cell, for diagnostics: a header line with the column
//! clues, then each row prefixed by its row clue. The alphabet is `O`
//! for a chest, `?` for an undetermined cell, `!` for a monster, `_`
//! for ground and `#` for a wall. Clues are rendered as single digits,
//! so each must be at most nine (a board side is at most eight).

use vstd::prelude::*;

verus! {

use vstd::string::StringExecFns;
use crate::board::{Board, Tile, at, clues_fit};

/// The display character of one cell state.
pub open spec fn tile_char(t: Tile) -> char {
    match t {
        Tile::Chest => 'O',
        Tile::Unsure => '?',
        Tile::Monster => '!',
        Tile::Ground => '_',
        Tile::Wall => '#',
    }
}

/// The display character of a one-digit clue.
pub open spec fn digit_char(d: int) -> char {
    if d == 0 {
        '0'
    } else if d == 1 {
        '1'
    } else if d == 2 {
        '2'
    } else if d == 3 {
        '3'
    } else if d == 4 {
        '4'
    } else if d == 5 {
        '5'
    } else if d == 6 {
        '6'
    } else if d == 7 {
        '7'
    } else if d == 8 {
        '8'
    } else {
        '9'
    }
}

/// The first `upto` column clues, as digit characters.
pub open spec fn header_chars(cols: Seq<usize>, upto: int) -> Seq<char>
    decreases upto,
{
    if upto <= 0 {
        Seq::empty()
    } else {
        header_chars(cols, upto - 1).push(digit_char(cols[upto - 1] as int))
    }
}

/// The first `upto` cells of row `y`, as tile characters.
pub open spec fn row_tiles(s: Seq<Tile>, n: int, y: int, upto: int) -> Seq<char>
    decreases upto,
{
    if upto <= 0 {
        Seq::empty()
    } else {
        row_tiles(s, n, y, upto - 1).push(tile_char(at(s, n, upto - 1, y)))
    }
}

/// The first `upto` rendered rows, each: row clue digit, the row's
/// tiles, a line break.
pub open spec fn body_chars(s: Seq<Tile>, n: int, rows: Seq<usize>, upto: int) -> Seq<char>
    decreases upto,
{
    if upto <= 0 {
        Seq::empty()
    } else {
        body_chars(s, n, rows, upto - 1) + seq![digit_char(rows[upto - 1] as int)] + row_tiles(
            s,
            n,
            upto - 1,
            n,
        ) + seq!['\n']
    }
}

/// The whole rendering: a space, the column clues, a line break, then
/// the rows.
pub open spec fn spec_render(s: Seq<Tile>, n: int, cols: Seq<usize>, rows: Seq<usize>) -> Seq<
    char,
> {
    seq![' '] + header_chars(cols, n) + seq!['\n'] + body_chars(s, n, rows, n)
}

/// Appends one clue digit.
fn append_digit(out: &mut String, d: usize)
    requires
        d <= 9,
    ensures
        final(out)@ == old(out)@.push(digit_char(d as int)),
{
    if d == 0 {
        out.append("0");
        proof {
            reveal_strlit("0");
            assert(final(out)@ =~= old(out)@.push('0'));
        }
    } else if d == 1 {
        out.append("1");
        proof {
            reveal_strlit("1");
            assert(final(out)@ =~= old(out)@.push('1'));
        }
    } else if d == 2 {
        out.append("2");
        proof {
            reveal_strlit("2");
            assert(final(out)@ =~= old(out)@.push('2'));
        }
    } else if d == 3 {
        out.append("3");
        proof {
            reveal_strlit("3");
            assert(final(out)@ =~= old(out)@.push('3'));
        }
    } else if d == 4 {
        out.append("4");
        proof {
            reveal_strlit("4");
            assert(final(out)@ =~= old(out)@.push('4'));
        }
    } else if d == 5 {
        out.append("5");
        proof {
            reveal_strlit("5");
            assert(final(out)@ =~= old(out)@.push('5'));
        }
    } else if d == 6 {
        out.append("6");
        proof {
            reveal_strlit("6");
            assert(final(out)@ =~= old(out)@.push('6'));
        }
    } else if d == 7 {
        out.append("7");
        proof {
            reveal_strlit("7");
            assert(final(out)@ =~= old(out)@.push('7'));
        }
    } else if d == 8 {
        out.append("8");
        proof {
            reveal_strlit("8");
            assert(final(out)@ =~= old(out)@.push('8'));
        }
    } else {
        out.append("9");
        proof {
            reveal_strlit("9");
            assert(final(out)@ =~= old(out)@.push('9'));
        }
    }
}

/// Appends one cell character.
fn append_tile(out: &mut String, t: Tile)
    ensures
        final(out)@ == old(out)@.push(tile_char(t)),
{
    match t {
        Tile::Chest => {
            out.append("O");
            proof {
                reveal_strlit("O");
                assert(final(out)@ =~= old(out)@.push('O'));
            }
        },
        Tile::Unsure => {
            out.append("?");
            proof {
                reveal_strlit("?");
                assert(final(out)@ =~= old(out)@.push('?'));
            }
        },
        Tile::Monster => {
            out.append("!");
            proof {
                reveal_strlit("!");
                assert(final(out)@ =~= old(out)@.push('!'));
            }
        },
        Tile::Ground => {
            out.append("_");
            proof {
                reveal_strlit("_");
                assert(final(out)@ =~= old(out)@.push('_'));
            }
        },
        Tile::Wall => {
            out.append("#");
            proof {
                reveal_strlit("#");
                assert(final(out)@ =~= old(out)@.push('#'));
            }
        },
    }
}

/// Renders the board with its clues as fixed-width text, one character
/// per cell, for diagnostics.
pub fn render_board(matrix: &Board, nums_columns: &Vec<usize>, nums_rows: &Vec<usize>) -> (r:
    String)
    requires
        matrix.wf(),
        clues_fit(nums_columns@, nums_rows@, matrix.dim()),
        forall|i: int| 0 <= i < nums_columns@.len() ==> #[trigger] nums_columns@[i] <= 9,
        forall|i: int| 0 <= i < nums_rows@.len() ==> #[trigger] nums_rows@[i] <= 9,
    ensures
        r@ == spec_render(matrix@, matrix.dim() as int, nums_columns@, nums_rows@),
{
    let n = matrix.side();
    let ghost nn = matrix.dim() as int;
    let mut out = String::new();
    out.append(" ");
    proof {
        reveal_strlit(" ");
        assert(out@ =~= seq![' '] + header_chars(nums_columns@, 0));
    }
    let mut x: usize = 0;
    while x < n
        invariant
            matrix.wf(),
            n == matrix.dim(),
            nn == n as int,
            clues_fit(nums_columns@, nums_rows@, matrix.dim()),
            forall|i: int| 0 <= i < nums_columns@.len() ==> #[trigger] nums_columns@[i] <= 9,
            x <= n,
            out@ == seq![' '] + header_chars(nums_columns@, x as int),
        decreases n - x,
    {
        append_digit(&mut out, nums_columns[x]);
        proof {
            assert(out@ =~= seq![' '] + header_chars(nums_columns@, x as int + 1));
        }
        x = x + 1;
    }
    out.append("\n");
    let ghost pre = seq![' '] + header_chars(nums_columns@, nn) + seq!['\n'];
    proof {
        reveal_strlit("\n");
        assert(out@ =~= pre + body_chars(matrix@, nn, nums_rows@, 0));
    }
    let mut y: usize = 0;
    while y < n
        invariant
            matrix.wf(),
            n == matrix.dim(),
            nn == n as int,
            clues_fit(nums_columns@, nums_rows@, matrix.dim()),
            forall|i: int| 0 <= i < nums_rows@.len() ==> #[trigger] nums_rows@[i] <= 9,
            y <= n,
            pre == seq![' '] + header_chars(nums_columns@, nn) + seq!['\n'],
            out@ == pre + body_chars(matrix@, nn, nums_rows@, y as int),
        decreases n - y,
    {
        append_digit(&mut out, nums_rows[y]);
        let ghost line_start = out@;
        proof {
            assert(line_start =~= pre + body_chars(matrix@, nn, nums_rows@, y as int) + seq![
                digit_char(nums_rows@[y as int] as int),
            ]);
            assert(out@ =~= line_start + row_tiles(matrix@, nn, y as int, 0));
        }
        let mut x2: usize = 0;
        while x2 < n
            invariant
                matrix.wf(),
                n == matrix.dim(),
                nn == n as int,
                y < n,
                x2 <= n,
                line_start == pre + body_chars(matrix@, nn, nums_rows@, y as int) + seq![
                    digit_char(nums_rows@[y as int] as int),
                ],
                out@ == line_start + row_tiles(matrix@, nn, y as int, x2 as int),
            decreases n - x2,
        {
            append_tile(&mut out, matrix.get(x2, y));
            proof {
                assert(out@ =~= line_start + row_tiles(matrix@, nn, y as int, x2 as int + 1));
            }
            x2 = x2 + 1;
        }
        out.append("\n");
        proof {
            reveal_strlit("\n");
            assert(out@ =~= pre + body_chars(matrix@, nn, nums_rows@, y as int + 1));
        }
        y = y + 1;
    }
    out
}

} // verus!

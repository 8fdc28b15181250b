//! Parsing, serialization, and the diagnostic display form.
//!
//! A puzzle line is exactly 81 characters, row-major: '.' for an empty
//! cell, '1'-'9' for a given clue.  Serialization is the exact inverse of
//! parsing on unsolved boards, and writes the assigned digit of every
//! solved cell.

use vstd::prelude::*;

use crate::board::Board;
use crate::board::Cell;
use crate::board::board_wf;
use crate::board::cell_wf;
use crate::board::digit_at;

verus! {

/// The characters a puzzle line may hold.
pub open spec fn is_puzzle_char(c: char) -> bool {
    c == '.' || c == '1' || c == '2' || c == '3' || c == '4' || c == '5' || c == '6' || c == '7'
        || c == '8' || c == '9'
}

/// The cell a puzzle character denotes: a digit is a given clue, '.' an
/// empty free cell.  Characters outside the alphabet are never parsed.
pub open spec fn cell_of_char(c: char) -> Cell {
    if c == '1' {
        Cell::Fixed(1)
    } else if c == '2' {
        Cell::Fixed(2)
    } else if c == '3' {
        Cell::Fixed(3)
    } else if c == '4' {
        Cell::Fixed(4)
    } else if c == '5' {
        Cell::Fixed(5)
    } else if c == '6' {
        Cell::Fixed(6)
    } else if c == '7' {
        Cell::Fixed(7)
    } else if c == '8' {
        Cell::Fixed(8)
    } else if c == '9' {
        Cell::Fixed(9)
    } else {
        Cell::Free(None)
    }
}

/// The character a cell serializes to: its digit, or '.' when unassigned.
pub open spec fn char_of_cell(c: Cell) -> char {
    match digit_at(c) {
        Some(d) => if d == 1 {
            '1'
        } else if d == 2 {
            '2'
        } else if d == 3 {
            '3'
        } else if d == 4 {
            '4'
        } else if d == 5 {
            '5'
        } else if d == 6 {
            '6'
        } else if d == 7 {
            '7'
        } else if d == 8 {
            '8'
        } else {
            '9'
        },
        None => '.',
    }
}

/// A well-formed puzzle line: exactly 81 characters of the alphabet.
pub open spec fn well_formed_line(s: Seq<char>) -> bool {
    s.len() == 81 && forall|i: int| 0 <= i < 81 ==> is_puzzle_char(#[trigger] s[i])
}

/// The board a well-formed line parses to.
pub open spec fn parse_spec(s: Seq<char>) -> Seq<Cell> {
    Seq::new(81, |i: int| cell_of_char(s[i]))
}

/// The line a board serializes to.
pub open spec fn serialize_spec(s: Seq<Cell>) -> Seq<char> {
    Seq::new(81, |i: int| char_of_cell(s[i]))
}

/// Round trip: serializing a parsed well-formed line gives the line back.
pub proof fn lemma_round_trip(s: Seq<char>)
    requires
        well_formed_line(s),
    ensures
        serialize_spec(parse_spec(s)) == s,
{
    assert forall|i: int| 0 <= i < 81 implies serialize_spec(parse_spec(s))[i] == s[i] by {
        assert(is_puzzle_char(s[i]));
    }
    assert(serialize_spec(parse_spec(s)) =~= s);
}

/// Appends the serialization character of one cell.
fn push_line_char(out: &mut String, c: Cell)
    requires
        cell_wf(c),
    ensures
        final(out)@ == old(out)@ + seq![char_of_cell(c)],
{
    proof {
        reveal_strlit(".");
        reveal_strlit("1");
        reveal_strlit("2");
        reveal_strlit("3");
        reveal_strlit("4");
        reveal_strlit("5");
        reveal_strlit("6");
        reveal_strlit("7");
        reveal_strlit("8");
        reveal_strlit("9");
    }
    match c.digit() {
        None => out.append("."),
        Some(d) => {
            if d == 1 {
                out.append("1");
            } else if d == 2 {
                out.append("2");
            } else if d == 3 {
                out.append("3");
            } else if d == 4 {
                out.append("4");
            } else if d == 5 {
                out.append("5");
            } else if d == 6 {
                out.append("6");
            } else if d == 7 {
                out.append("7");
            } else if d == 8 {
                out.append("8");
            } else {
                out.append("9");
            }
        },
    }
    proof {
        assert(out@ =~= old(out)@ + seq![char_of_cell(c)]);
    }
}

/// The character a cell shows in the diagnostic grid: its digit, or a
/// space when unassigned.
pub open spec fn display_char(c: Cell) -> char {
    if digit_at(c) is Some {
        char_of_cell(c)
    } else {
        ' '
    }
}

/// The separator line of the grid: 13 dashes and a newline.
pub open spec fn sep_line() -> Seq<char> {
    Seq::new(14, |j: int| if j == 13 { '\n' } else { '-' })
}

/// One grid row: a bar before every three cells, a closing bar, a newline.
pub open spec fn display_row(s: Seq<Cell>, g: int) -> Seq<char> {
    seq!['|'] + Seq::new(3, |j: int| display_char(s[g * 9 + j])) + seq!['|'] + Seq::new(
        3,
        |j: int| display_char(s[g * 9 + 3 + j]),
    ) + seq!['|'] + Seq::new(3, |j: int| display_char(s[g * 9 + 6 + j])) + seq!['|', '\n']
}

/// Rows `g..9` of the grid, a separator line before rows 0, 3 and 6 and a
/// closing one after row 8.
pub open spec fn display_from(s: Seq<Cell>, g: int) -> Seq<char>
    decreases 9 - g,
{
    if g < 0 || g >= 9 {
        sep_line()
    } else if g % 3 == 0 {
        sep_line() + display_row(s, g) + display_from(s, g + 1)
    } else {
        display_row(s, g) + display_from(s, g + 1)
    }
}

/// The whole diagnostic grid.
pub open spec fn display_spec(s: Seq<Cell>) -> Seq<char> {
    display_from(s, 0)
}

/// The separator literal spells `sep_line()`.
proof fn lemma_sep_lit()
    ensures
        ("-------------\n")@ == sep_line(),
{
    reveal_strlit("-------------\n");
    assert(("-------------\n")@ =~= sep_line());
}

/// Appends the display character of one cell.
fn push_display_char(out: &mut String, c: Cell)
    requires
        cell_wf(c),
    ensures
        final(out)@ == old(out)@ + seq![display_char(c)],
{
    proof {
        reveal_strlit(" ");
        reveal_strlit("1");
        reveal_strlit("2");
        reveal_strlit("3");
        reveal_strlit("4");
        reveal_strlit("5");
        reveal_strlit("6");
        reveal_strlit("7");
        reveal_strlit("8");
        reveal_strlit("9");
    }
    match c.digit() {
        None => out.append(" "),
        Some(d) => {
            if d == 1 {
                out.append("1");
            } else if d == 2 {
                out.append("2");
            } else if d == 3 {
                out.append("3");
            } else if d == 4 {
                out.append("4");
            } else if d == 5 {
                out.append("5");
            } else if d == 6 {
                out.append("6");
            } else if d == 7 {
                out.append("7");
            } else if d == 8 {
                out.append("8");
            } else {
                out.append("9");
            }
        },
    }
    proof {
        assert(out@ =~= old(out)@ + seq![display_char(c)]);
    }
}

impl Board {
    /// Parses an 81-character puzzle line.  Any other length, or any
    /// character outside '.' and '1'-'9', gives None.
    pub fn from_str(src: &str) -> (r: Option<Board>)
        ensures
            r is Some <==> well_formed_line(src@),
            r matches Some(b) ==> b@ == parse_spec(src@) && b.wf(),
    {
        let n = src.unicode_len();
        if n != 81 {
            return None;
        }
        let mut cells: Vec<Cell> = Vec::new();
        let mut i: usize = 0;
        while i < 81
            invariant
                src@.len() == 81,
                i <= 81,
                cells@.len() == i,
                forall|t: int| 0 <= t < i ==> is_puzzle_char(#[trigger] src@[t]),
                forall|t: int| 0 <= t < i ==> #[trigger] cells@[t] == cell_of_char(src@[t]),
            decreases 81 - i,
        {
            let c = src.get_char(i);
            let cell = match c {
                '.' => Cell::Free(None),
                '1' => Cell::Fixed(1),
                '2' => Cell::Fixed(2),
                '3' => Cell::Fixed(3),
                '4' => Cell::Fixed(4),
                '5' => Cell::Fixed(5),
                '6' => Cell::Fixed(6),
                '7' => Cell::Fixed(7),
                '8' => Cell::Fixed(8),
                '9' => Cell::Fixed(9),
                _ => {
                    return None;
                },
            };
            cells.push(cell);
            i += 1;
        }
        let b = Board::from_cells(cells);
        proof {
            assert(b@ =~= parse_spec(src@));
            assert forall|t: int| 0 <= t < 81 implies cell_wf(#[trigger] b@[t]) by {
                assert(is_puzzle_char(src@[t]));
            }
            assert(board_wf(b@));
        }
        Some(b)
    }

    /// Serializes the board as its 81-character line, row-major, '.' for
    /// every unassigned cell.
    pub fn to_format_string(&self) -> (r: String)
        requires
            self.wf(),
        ensures
            r@ == serialize_spec(self@),
    {
        let mut res = String::new();
        let mut i: usize = 0;
        while i < 81
            invariant
                self.wf(),
                i <= 81,
                res@ == serialize_spec(self@).take(i as int),
            decreases 81 - i,
        {
            let c = self.cell_at(i);
            push_line_char(&mut res, c);
            proof {
                assert(res@ =~= serialize_spec(self@).take(i + 1));
            }
            i += 1;
        }
        proof {
            assert(serialize_spec(self@).take(81) =~= serialize_spec(self@));
        }
        res
    }

    /// The human-readable 9x9 grid, with a separator line every three rows
    /// and a bar every three columns; for diagnostic display only.
    pub fn to_display_string(&self) -> (r: String)
        requires
            self.wf(),
        ensures
            r@ == display_spec(self@),
    {
        let mut res = String::new();
        let mut g: usize = 0;
        while g < 9
            invariant
                self.wf(),
                g <= 9,
                res@ + display_from(self@, g as int) == display_spec(self@),
            decreases 9 - g,
        {
            let ghost res0 = res@;
            if g % 3 == 0 {
                res.append("-------------\n");
                proof {
                    lemma_sep_lit();
                }
            }
            res.append("|");
            let base = g * 9;
            push_display_char(&mut res, self.cell_at(base));
            push_display_char(&mut res, self.cell_at(base + 1));
            push_display_char(&mut res, self.cell_at(base + 2));
            res.append("|");
            push_display_char(&mut res, self.cell_at(base + 3));
            push_display_char(&mut res, self.cell_at(base + 4));
            push_display_char(&mut res, self.cell_at(base + 5));
            res.append("|");
            push_display_char(&mut res, self.cell_at(base + 6));
            push_display_char(&mut res, self.cell_at(base + 7));
            push_display_char(&mut res, self.cell_at(base + 8));
            res.append("|\n");
            proof {
                reveal_strlit("|");
                reveal_strlit("|\n");
                if g % 3 == 0 {
                    assert(res@ =~= res0 + (sep_line() + display_row(self@, g as int)));
                    assert(res@ + display_from(self@, g as int + 1) =~= res0 + display_from(
                        self@,
                        g as int,
                    ));
                } else {
                    assert(res@ =~= res0 + display_row(self@, g as int));
                    assert(res@ + display_from(self@, g as int + 1) =~= res0 + display_from(
                        self@,
                        g as int,
                    ));
                }
            }
            g += 1;
        }
        res.append("-------------\n");
        proof {
            lemma_sep_lit();
            assert(res@ =~= display_spec(self@));
        }
        res
    }
}

} // verus!

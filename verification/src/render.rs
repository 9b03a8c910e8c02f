//! The renderer: turns the rows of a finished board into lines of text,
//! each with its line number, its cells in their colours and its message.

use crate::board::{board_view, BoardRow, Color, RowView};
use crate::text::blanks;
use crate::theme::{TextEffect, Theme};
use colored::Colorize;
use vstd::prelude::*;
use vstd::string::*;

verus! {

/// Calls `Colorize::dimmed` of the `colored` crate and formats the result.
/// Whether the result carries escape codes depends on the terminal and the
/// environment, so nothing is claimed of it.
#[verifier::external_body]
pub(crate) fn dimmed(text: &str) -> (out: String) {
    text.dimmed().to_string()
}

/// Calls `Colorize::truecolor` of the `colored` crate and formats the
/// result. Whether the result carries escape codes depends on the terminal
/// and the environment, so nothing is claimed of it.
#[verifier::external_body]
pub(crate) fn tinted(text: &str, color: Color) -> (out: String) {
    text.truecolor(color.0, color.1, color.2).to_string()
}

/// Collects characters into a `String` with `Iterator::collect`. Claims
/// that the string holds exactly those characters, in order.
#[verifier::external_body]
pub(crate) fn string_of(chars: &Vec<char>) -> (out: String)
    ensures
        out@ == chars@,
{
    chars.iter().collect()
}

/// The character of a decimal digit.
pub open spec fn digit(d: nat) -> char {
    if d == 0 {
        '0'
    } else if d == 1 {
        '1'
    } else if d == 2 {
        '2'
    } else if d == 3 {
        '3'
    } else if d == 4 {
        '4'
    } else if d == 5 {
        '5'
    } else if d == 6 {
        '6'
    } else if d == 7 {
        '7'
    } else if d == 8 {
        '8'
    } else {
        '9'
    }
}

/// The decimal digits of a number, most significant first.
pub open spec fn digits_of(n: nat) -> Seq<char>
    decreases n,
{
    if n < 10 {
        seq![digit(n)]
    } else {
        digits_of(n / 10).push(digit(n % 10))
    }
}

/// The number of the last source line that the first `upto` rows show, if
/// they show any.
pub open spec fn last_line(board: Seq<RowView>, upto: int) -> Option<usize>
    decreases upto,
{
    if upto <= 0 {
        None
    } else if board[upto - 1].line is Some {
        board[upto - 1].line
    } else {
        last_line(board, upto - 1)
    }
}

/// The width of the line-number column: the number of digits of the number
/// of the last line shown, lines counted from 1; 0 where no line is shown.
pub open spec fn number_width(board: Seq<RowView>) -> nat {
    match last_line(board, board.len() as int) {
        Some(l) => digits_of((l + 1) as nat).len(),
        None => 0,
    }
}

/// The label of a row before it is styled: for a content row the number of
/// its line, counted from 1, right-aligned to `width` and followed by a
/// dot; for a spacer row blanks of the same length.
pub open spec fn label_of(line: Option<usize>, width: nat) -> Seq<char> {
    match line {
        Some(l) => {
            let digits = digits_of((l + 1) as nat);
            (if digits.len() < width {
                blanks(width - digits.len())
            } else {
                Seq::empty()
            }) + digits + seq!['.']
        },
        None => blanks(width as int) + seq![' '],
    }
}

/// Whether `out` may be what the effect makes of `plain`: the plain effect
/// leaves the text as it is; of the others nothing is known.
pub open spec fn styled(effect: TextEffect, plain: Seq<char>, out: Seq<char>) -> bool {
    effect is Plain ==> out == plain
}

/// The texts one after the other.
pub open spec fn concat_all(parts: Seq<Seq<char>>) -> Seq<char>
    decreases parts.len(),
{
    if parts.len() == 0 {
        Seq::empty()
    } else {
        concat_all(parts.drop_last()) + parts.last()
    }
}

/// The text of a row's message, empty where it has none.
pub open spec fn trailer(row: RowView) -> Seq<char> {
    match row.end_str {
        Some(s) => s,
        None => Seq::empty(),
    }
}

/// The line of a row put together from its styled parts: the padding, the
/// label, two blanks, the cells, a blank and the message.
pub open spec fn assembled(padding: int, label: Seq<char>, cells: Seq<Seq<char>>, row: RowView) -> Seq<
    char,
> {
    blanks(padding) + label + seq![' ', ' '] + concat_all(cells) + seq![' '] + trailer(row)
}

/// Whether `out` may be the line that renders `row`: it is put together
/// from the row's label and cells, each styled, where a cell without a
/// colour is styled as the theme styles unhighlighted text.
pub open spec fn renders(row: RowView, width: nat, theme: Theme, out: Seq<char>) -> bool {
    exists|label: Seq<char>, cells: Seq<Seq<char>>|
        {
            &&& styled(theme.effects.line_numbers, label_of(row.line, width), label)
            &&& cells.len() == row.cells.len()
            &&& forall|j: int|
                0 <= j < cells.len() && row.cells[j].color is None ==> styled(
                    theme.effects.unhighlighted,
                    seq![row.cells[j].ch],
                    #[trigger] cells[j],
                )
            &&& out == assembled(theme.sizing.pre_line_number_padding as int, label, cells, row)
        }
}

fn digit_char(d: usize) -> (c: char)
    requires
        d < 10,
    ensures
        c == digit(d as nat),
{
    if d == 0 {
        '0'
    } else if d == 1 {
        '1'
    } else if d == 2 {
        '2'
    } else if d == 3 {
        '3'
    } else if d == 4 {
        '4'
    } else if d == 5 {
        '5'
    } else if d == 6 {
        '6'
    } else if d == 7 {
        '7'
    } else if d == 8 {
        '8'
    } else {
        '9'
    }
}

/// Writes a number in decimal digits.
pub fn decimal(n: usize) -> (digits: Vec<char>)
    ensures
        digits@ == digits_of(n as nat),
        1 <= digits@.len() <= 40,
    decreases n,
{
    if n < 10 {
        let mut digits: Vec<char> = Vec::new();
        digits.push(digit_char(n));
        proof {
            assert(digits@ =~= digits_of(n as nat));
        }
        digits
    } else {
        let mut digits = decimal(n / 10);
        digits.push(digit_char(n % 10));
        proof {
            lemma_digits_len(n as nat);
        }
        digits
    }
}

/// A number below `10^k` has at most `k` digits; a machine integer has at
/// most 40.
proof fn lemma_digits_len(n: nat)
    ensures
        1 <= digits_of(n).len(),
        n <= u128::MAX ==> digits_of(n).len() <= 40,
{
    lemma_digits_bound(n, 39);
    assert(u128::MAX < pow10(39)) by {
        reveal_with_fuel(pow10, 40);
    }
}

spec fn pow10(k: nat) -> nat
    decreases k,
{
    if k == 0 {
        1
    } else {
        10 * pow10((k - 1) as nat)
    }
}

proof fn lemma_digits_bound(n: nat, k: nat)
    requires
        k >= 1,
    ensures
        1 <= digits_of(n).len(),
        n < pow10(k) ==> digits_of(n).len() <= k,
    decreases n,
{
    if n >= 10 {
        if k > 1 {
            lemma_digits_bound(n / 10, (k - 1) as nat);
        } else {
            lemma_digits_bound(n / 10, 1);
            assert(pow10(1) == 10) by {
                reveal_with_fuel(pow10, 2);
            }
        }
    }
}

/// Styles a piece of text with an effect.
pub fn apply_effect(effect: TextEffect, text: &str) -> (out: String)
    ensures
        styled(effect, text@, out@),
{
    match effect {
        TextEffect::Plain => text.to_owned(),
        TextEffect::Dimmed => dimmed(text),
    }
}

/// Finds the width of the line-number column of a board.
pub fn line_number_width(board: &Vec<BoardRow>) -> (width: usize)
    requires
        forall|r: int|
            0 <= r < board@.len() ==> match (#[trigger] board@[r]).line {
                Some(l) => l < usize::MAX,
                None => true,
            },
    ensures
        width == number_width(board_view(board@)),
{
    let ghost view = board_view(board@);
    let mut r: usize = board.len();
    while r > 0
        invariant
            0 <= r <= board@.len(),
            view == board_view(board@),
            last_line(view, board@.len() as int) == last_line(view, r as int),
            forall|r: int|
                0 <= r < board@.len() ==> match (#[trigger] board@[r]).line {
                    Some(l) => l < usize::MAX,
                    None => true,
                },
        decreases r,
    {
        proof {
            assert(view[r - 1] == board@[r - 1]@);
        }
        match board[r - 1].line {
            Some(l) => {
                return decimal(l + 1).len();
            },
            None => {},
        }
        r = r - 1;
    }
    0
}

fn row_label(line: Option<usize>, width: usize) -> (label: Vec<char>)
    requires
        line matches Some(l) ==> l < usize::MAX,
    ensures
        label@ == label_of(line, width as nat),
{
    match line {
        Some(l) => {
            let digits = decimal(l + 1);
            let pad: usize = if digits.len() < width {
                width - digits.len()
            } else {
                0
            };
            let mut label = crate::compose::run_of(' ', pad);
            let ghost head = label@;
            let mut i: usize = 0;
            while i < digits.len()
                invariant
                    0 <= i <= digits@.len(),
                    label@ == head + digits@.take(i as int),
                decreases digits@.len() - i,
            {
                label.push(digits[i]);
                proof {
                    assert(label@ =~= head + digits@.take(i + 1));
                }
                i = i + 1;
            }
            label.push('.');
            proof {
                assert(digits@.take(i as int) =~= digits@);
                assert(head =~= if digits@.len() < width {
                    blanks(width - digits@.len())
                } else {
                    Seq::empty()
                });
                assert(label@ =~= label_of(line, width as nat));
            }
            label
        },
        None => {
            let mut label = crate::compose::run_of(' ', width);
            label.push(' ');
            proof {
                assert(label@ =~= label_of(line, width as nat));
            }
            label
        },
    }
}

/// Renders one row of a board as a line of text.
pub fn render_row(row: &BoardRow, width: usize, theme: &Theme) -> (out: String)
    requires
        row.line matches Some(l) ==> l < usize::MAX,
    ensures
        renders(row@, width as nat, *theme, out@),
{
    let padding = crate::compose::run_of(' ', theme.sizing.pre_line_number_padding);
    let mut out = string_of(&padding);
    let plain = string_of(&row_label(row.line, width));
    let label = apply_effect(theme.effects.line_numbers, plain.as_str());
    out.append(label.as_str());
    out.append("  ");
    let ghost head = out@;
    let ghost mut cells: Seq<Seq<char>> = Seq::empty();
    proof {
        reveal_strlit("  ");
        assert("  "@ =~= seq![' ', ' ']);
        assert(head =~= blanks(theme.sizing.pre_line_number_padding as int) + label@ + seq![
            ' ',
            ' ',
        ]);
        assert(out@ =~= head + concat_all(cells));
    }
    let mut j: usize = 0;
    while j < row.cells.len()
        invariant
            0 <= j <= row.cells@.len(),
            cells.len() == j,
            out@ == head + concat_all(cells),
            forall|k: int|
                0 <= k < j && row.cells@[k].color is None ==> styled(
                    theme.effects.unhighlighted,
                    seq![row.cells@[k].ch],
                    #[trigger] cells[k],
                ),
        decreases row.cells@.len() - j,
    {
        let cell = row.cells[j];
        let mut one: Vec<char> = Vec::new();
        one.push(cell.ch);
        let text = string_of(&one);
        let piece = match cell.color {
            Some(color) => tinted(text.as_str(), color),
            None => apply_effect(theme.effects.unhighlighted, text.as_str()),
        };
        out.append(piece.as_str());
        proof {
            assert(one@ =~= seq![cell.ch]);
            let longer = cells.push(piece@);
            assert(longer.drop_last() =~= cells);
            assert(out@ =~= head + concat_all(longer));
            cells = longer;
        }
        j = j + 1;
    }
    out.append(" ");
    proof {
        reveal_strlit(" ");
        assert(" "@ =~= seq![' ']);
    }
    match &row.end_str {
        Some(message) => {
            out.append(message.as_str());
        },
        None => {},
    }
    proof {
        assert(out@ =~= assembled(
            theme.sizing.pre_line_number_padding as int,
            label@,
            cells,
            row@,
        ));
    }
    out
}

/// Renders a board as lines of text, top to bottom.
pub fn render_board(board: &Vec<BoardRow>, theme: &Theme) -> (out: Vec<String>)
    requires
        forall|r: int|
            0 <= r < board@.len() ==> match (#[trigger] board@[r]).line {
                Some(l) => l < usize::MAX,
                None => true,
            },
    ensures
        out@.len() == board@.len(),
        forall|r: int|
            0 <= r < board@.len() ==> renders(
                board@[r]@,
                number_width(board_view(board@)),
                *theme,
                (#[trigger] out@[r])@,
            ),
{
    let width = line_number_width(board);
    let mut out: Vec<String> = Vec::new();
    let mut r: usize = 0;
    while r < board.len()
        invariant
            0 <= r <= board@.len(),
            out@.len() == r,
            width == number_width(board_view(board@)),
            forall|r: int|
                0 <= r < board@.len() ==> match (#[trigger] board@[r]).line {
                    Some(l) => l < usize::MAX,
                    None => true,
                },
            forall|k: int|
                0 <= k < r ==> renders(board@[k]@, width as nat, *theme, (#[trigger] out@[k])@),
        decreases board@.len() - r,
    {
        out.push(render_row(&board[r], width, theme));
        r = r + 1;
    }
    out
}

} // verus!

//! The board: rows of coloured cells, each row with the source line it
//! shows, if any, and the message that trails it, if any.

use vstd::prelude::*;

verus! {

/// A colour: red, green and blue.
pub type Color = (u8, u8, u8);

/// One character of the board and its colour, if it has one.
#[derive(Debug, Clone, Copy, PartialEq, Eq)]
pub struct BoardCell {
    pub color: Option<Color>,
    pub ch: char,
}

/// One row of the board. A content row shows the source line `line`; a
/// spacer row has none. Once `end_str` is set the row no longer grows.
#[derive(Debug, Clone, PartialEq, Eq)]
pub struct BoardRow {
    pub line: Option<usize>,
    pub cells: Vec<BoardCell>,
    pub end_str: Option<String>,
}

/// A row as contracts see it.
pub struct RowView {
    pub line: Option<usize>,
    pub cells: Seq<BoardCell>,
    pub end_str: Option<Seq<char>>,
}

impl View for BoardRow {
    type V = RowView;

    open spec fn view(&self) -> RowView {
        RowView {
            line: self.line,
            cells: self.cells@,
            end_str: match self.end_str {
                Some(s) => Some(s@),
                None => None,
            },
        }
    }
}

/// The board as contracts see it.
pub open spec fn board_view(rows: Seq<BoardRow>) -> Seq<RowView> {
    Seq::new(rows.len(), |i: int| rows[i]@)
}

/// A cell with a blank and no colour.
pub open spec fn blank_cell() -> BoardCell {
    BoardCell { color: None, ch: ' ' }
}

/// `n` blank cells.
pub open spec fn blank_cells(n: int) -> Seq<BoardCell> {
    Seq::new(n as nat, |i: int| blank_cell())
}

/// The cells that show `text` without a colour.
pub open spec fn plain_cells(text: Seq<char>) -> Seq<BoardCell>
    decreases text.len(),
{
    if text.len() == 0 {
        Seq::empty()
    } else {
        plain_cells(text.drop_last()).push(BoardCell { color: None, ch: text.last() })
    }
}

/// Every character is a Unicode scalar value.
pub proof fn lemma_char_is_scalar(c: char)
    ensures
        0 <= c as int <= 0xD7FF || 0xE000 <= c as int <= 0x10FFFF,
{
}

/// The cells that show a text are as many as its characters, and each
/// holds its character without a colour.
pub proof fn lemma_plain_cells(text: Seq<char>)
    ensures
        plain_cells(text).len() == text.len(),
        forall|i: int|
            0 <= i < text.len() ==> #[trigger] plain_cells(text)[i] == (BoardCell {
                color: None,
                ch: text[i],
            }),
    decreases text.len(),
{
    if text.len() > 0 {
        lemma_plain_cells(text.drop_last());
        lemma_char_is_scalar(text.last());
    }
}

impl RowView {
    /// The row grown with blank cells until it holds the cell `idx`. A row
    /// whose message is set does not grow.
    pub open spec fn reach(self, idx: int) -> RowView {
        if self.end_str is None && idx >= self.cells.len() {
            RowView { cells: self.cells + blank_cells(idx + 1 - self.cells.len()), ..self }
        } else {
            self
        }
    }

    /// The row with the cell `idx` changed to `cell(old)`, after growing to
    /// hold it; unchanged where it cannot hold it.
    pub open spec fn with_cell(self, idx: int, cell: BoardCell) -> RowView {
        let grown = self.reach(idx);
        if 0 <= idx < grown.cells.len() {
            RowView { cells: grown.cells.update(idx, cell), ..grown }
        } else {
            grown
        }
    }

    /// The cell `idx` of the row once it has grown to hold it.
    pub open spec fn cell(self, idx: int) -> BoardCell {
        self.reach(idx).cells[idx]
    }

    /// The row with the colour of the cell `idx` set.
    pub open spec fn recolor_cell(self, idx: int, color: Option<Color>) -> RowView {
        self.with_cell(idx, BoardCell { color, ch: self.cell(idx).ch })
    }

    /// The row with the character of the cell `idx` set.
    pub open spec fn put_char(self, idx: int, ch: char) -> RowView {
        self.with_cell(idx, BoardCell { color: self.cell(idx).color, ch })
    }

    /// The row with the character and the colour of the cell `idx` set.
    pub open spec fn put(self, idx: int, ch: char, color: Option<Color>) -> RowView {
        self.with_cell(idx, BoardCell { color, ch })
    }

    /// The row with the colour of the cells from `start` up to `end` set,
    /// one after the other.
    pub open spec fn recolor(self, start: int, end: int, color: Option<Color>) -> RowView
        decreases end - start,
    {
        if start >= end {
            self
        } else {
            self.recolor(start, end - 1, color).recolor_cell(end - 1, color)
        }
    }

    /// The row with `text` written from the cell `start` on in the given
    /// colour, one character after the other.
    pub open spec fn write(self, text: Seq<char>, start: int, color: Option<Color>) -> RowView
        decreases text.len(),
    {
        if text.len() == 0 {
            self
        } else {
            self.write(text.drop_last(), start, color).put(
                start + text.len() - 1,
                text.last(),
                color,
            )
        }
    }

    /// The row cut down to its first `keep` cells, with `message` trailing
    /// it.
    pub open spec fn finish(self, keep: int, message: Seq<char>) -> RowView {
        RowView {
            line: self.line,
            cells: if 0 <= keep < self.cells.len() {
                self.cells.take(keep)
            } else {
                self.cells
            },
            end_str: Some(message),
        }
    }
}

impl BoardRow {
    /// A row that shows the source line `line` with the given cells.
    pub fn content(line: usize, cells: Vec<BoardCell>) -> (row: Self)
        ensures
            row@ == (RowView { line: Some(line), cells: cells@, end_str: None }),
    {
        BoardRow { line: Some(line), cells, end_str: None }
    }

    /// An empty row that shows no source line.
    pub fn spacer() -> (row: Self)
        ensures
            row@ == (RowView { line: None, cells: Seq::empty(), end_str: None }),
    {
        BoardRow { line: None, cells: Vec::new(), end_str: None }
    }

    /// Grows the row with blank cells until it holds the cell `idx`, unless
    /// its message is set, and tells whether it holds the cell.
    pub fn get_cell(&mut self, idx: usize) -> (held: bool)
        requires
            idx < usize::MAX,
        ensures
            final(self)@ == old(self)@.reach(idx as int),
            held == (idx < final(self)@.cells.len()),
    {
        if self.end_str.is_none() && idx >= self.cells.len() {
            let ghost before = self.cells@;
            self.cells.resize(idx + 1, BoardCell { color: None, ch: ' ' });
            proof {
                assert(self.cells@ =~= before + blank_cells(idx + 1 - before.len()));
            }
        }
        idx < self.cells.len()
    }

    /// Sets the colour of the cell `idx`, where the row holds it or can
    /// grow to hold it.
    pub fn recolor_cell(&mut self, idx: usize, color: Option<Color>)
        requires
            idx < usize::MAX,
        ensures
            final(self)@ == old(self)@.recolor_cell(idx as int, color),
    {
        if self.get_cell(idx) {
            self.cells[idx].color = color;
            proof {
                assert(self@.cells =~= old(self)@.recolor_cell(idx as int, color).cells);
            }
        }
    }

    /// Sets the character of the cell `idx`, where the row holds it or can
    /// grow to hold it.
    pub fn write_char(&mut self, ch: char, idx: usize)
        requires
            idx < usize::MAX,
        ensures
            final(self)@ == old(self)@.put_char(idx as int, ch),
    {
        if self.get_cell(idx) {
            self.cells[idx].ch = ch;
            proof {
                assert(self@.cells =~= old(self)@.put_char(idx as int, ch).cells);
            }
        }
    }

    /// Sets the character and the colour of the cell `idx`, where the row
    /// holds it or can grow to hold it.
    pub fn write_colored_char(&mut self, ch: char, idx: usize, color: Option<Color>)
        requires
            idx < usize::MAX,
        ensures
            final(self)@ == old(self)@.put(idx as int, ch, color),
    {
        if self.get_cell(idx) {
            self.cells[idx].ch = ch;
            self.cells[idx].color = color;
            proof {
                assert(self@.cells =~= old(self)@.put(idx as int, ch, color).cells);
            }
        }
    }

    /// Sets the colour of the cells from `start` up to `end`.
    pub fn recolor(&mut self, start: usize, end: usize, color: Option<Color>)
        ensures
            final(self)@ == old(self)@.recolor(start as int, end as int, color),
    {
        let ghost init = self@;
        let mut i: usize = start;
        while i < end
            invariant
                start <= i,
                i <= end || i == start,
                self@ == init.recolor(start as int, i as int, color),
            decreases end - i,
        {
            self.recolor_cell(i, color);
            i = i + 1;
        }

    }

    /// Writes `text` from the cell `start` on in the given colour.
    pub fn write_colored(&mut self, text: &Vec<char>, start: usize, color: Option<Color>)
        requires
            start + text@.len() < usize::MAX,
        ensures
            final(self)@ == old(self)@.write(text@, start as int, color),
    {
        let ghost init = self@;
        let mut i: usize = 0;
        while i < text.len()
            invariant
                0 <= i <= text@.len(),
                start + text@.len() < usize::MAX,
                self@ == init.write(text@.take(i as int), start as int, color),
            decreases text@.len() - i,
        {
            proof {
                assert(text@.take(i + 1).drop_last() =~= text@.take(i as int));
                assert(text@.take(i + 1).last() == text@[i as int]);
            }
            self.write_colored_char(text[i], start + i, color);
            i = i + 1;
        }
        proof {
            assert(text@.take(i as int) =~= text@);
        }
    }

    /// Cuts the row down to its first `keep` cells and sets the message
    /// that trails it.
    pub fn finish(&mut self, keep: usize, message: String)
        ensures
            final(self)@ == old(self)@.finish(keep as int, message@),
    {
        self.cells.truncate(keep);
        self.end_str = Some(message);
        proof {
            assert(self@.cells =~= old(self)@.finish(keep as int, message@).cells);
        }
    }
}

} // verus!

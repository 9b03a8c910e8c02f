//! The line index: the source split into lines, each with the character
//! offsets at which it starts and ends.

use vstd::prelude::*;

verus! {

/// One line of the source. `char_end` is exclusive and counts the line's
/// newline character where the line has one.
#[derive(Debug, Clone, PartialEq, Eq)]
pub struct LineRecord {
    pub char_start: usize,
    pub char_end: usize,
    pub text: Vec<char>,
}

impl LineRecord {
    /// Whether the line holds the character at `offset`.
    pub open spec fn holds(self, offset: int) -> bool {
        self.char_start <= offset < self.char_end
    }
}

/// Whether the lines follow each other without a gap: there is at least
/// one, the first starts at offset 0, none ends before it starts, and each
/// ends where the next starts.
pub open spec fn contiguous(lines: Seq<LineRecord>) -> bool {
    &&& lines.len() >= 1
    &&& lines[0].char_start == 0
    &&& forall|i: int| 0 <= i < lines.len() ==> (#[trigger] lines[i]).char_start <= lines[i].char_end
    &&& forall|i: int|
        0 <= i < lines.len() - 1 ==> (#[trigger] lines[i]).char_end == lines[i + 1].char_start
}

/// The length of the source that contiguous lines cover.
pub open spec fn covered_len(lines: Seq<LineRecord>) -> int {
    lines.last().char_end as int
}

/// Whether `lines` is the line index of `code`: the lines follow each other
/// without a gap from the start of `code` to its end, each holds its own
/// text, every line but the last ends with a newline, its only one, and the
/// last line has none.
pub open spec fn is_line_index(code: Seq<char>, lines: Seq<LineRecord>) -> bool {
    &&& contiguous(lines)
    &&& covered_len(lines) == code.len()
    &&& forall|i: int|
        0 <= i < lines.len() ==> {
            &&& (#[trigger] lines[i]).char_end <= code.len()
            &&& lines[i].text@ == code.subrange(
                lines[i].char_start as int,
                lines[i].char_end as int,
            )
        }
    &&& forall|i: int|
        0 <= i < lines.len() - 1 ==> {
            &&& (#[trigger] lines[i]).char_start < lines[i].char_end
            &&& code[lines[i].char_end - 1] == '\n'
        }
    &&& forall|i: int, k: int|
        0 <= i < lines.len() && (#[trigger] lines[i]).char_start <= k && k + 1 < lines[i].char_end
            ==> #[trigger] code[k] != '\n'
    &&& lines.last().char_start < lines.last().char_end ==> code[lines.last().char_end - 1]
        != '\n'
}

/// The index of the first line from `from` on that holds `offset`, or of
/// the last line where none does.
pub open spec fn locate_from(lines: Seq<LineRecord>, offset: int, from: int) -> int
    decreases lines.len() - from,
{
    if from >= lines.len() - 1 {
        lines.len() - 1
    } else if lines[from].holds(offset) {
        from
    } else {
        locate_from(lines, offset, from + 1)
    }
}

/// The index of the line that holds the character at `offset`, or of the
/// last line where no line does, as for the offset just past the end.
pub open spec fn line_of(lines: Seq<LineRecord>, offset: int) -> int {
    locate_from(lines, offset, 0)
}

/// What `locate_from` finds lies between `from` and the last line, no line
/// from `from` up to it holds the offset, and it holds the offset unless it
/// is the last line.
pub proof fn lemma_locate_from(lines: Seq<LineRecord>, offset: int, from: int)
    requires
        lines.len() >= 1,
        0 <= from < lines.len(),
    ensures
        from <= locate_from(lines, offset, from) < lines.len(),
        forall|j: int|
            from <= j < locate_from(lines, offset, from) ==> !(#[trigger] lines[j]).holds(offset),
        locate_from(lines, offset, from) < lines.len() - 1 ==> lines[locate_from(
            lines,
            offset,
            from,
        )].holds(offset),
    decreases lines.len() - from,
{
    if from >= lines.len() - 1 {
    } else if lines[from].holds(offset) {
    } else {
        lemma_locate_from(lines, offset, from + 1);
    }
}

/// In a line index the lines start in ascending order: a later line starts
/// where an earlier one ends or after it.
pub proof fn lemma_lines_ascend(lines: Seq<LineRecord>, i: int, j: int)
    requires
        contiguous(lines),
        0 <= i <= j < lines.len(),
    ensures
        lines[i].char_start <= lines[j].char_start,
        lines[i].char_end <= lines[j].char_end,
        i < j ==> lines[i].char_end <= lines[j].char_start,
    decreases j - i,
{
    if i < j {
        lemma_lines_ascend(lines, i, j - 1);
        assert(lines[j - 1].char_end == lines[j - 1 + 1].char_start);
    }
}

/// Every offset within the source belongs to the line that `line_of`
/// names: that line starts at or before the offset, and the offset is
/// inside it or, for the end of the source, at its end.
pub proof fn lemma_line_of_holds(lines: Seq<LineRecord>, offset: int)
    requires
        contiguous(lines),
        0 <= offset <= covered_len(lines),
    ensures
        0 <= line_of(lines, offset) < lines.len(),
        lines[line_of(lines, offset)].char_start <= offset <= lines[line_of(
            lines,
            offset,
        )].char_end,
        offset < covered_len(lines) ==> lines[line_of(lines, offset)].holds(offset),
{
    lemma_locate_from(lines, offset, 0);
    let l = line_of(lines, offset);
    let last = lines.len() - 1;
    lemma_lines_ascend(lines, l, last);
    if l == last && !lines[l].holds(offset) {
        lemma_no_line_holds(lines, offset, last);
    }
}

/// A later offset is never on an earlier line.
pub proof fn lemma_line_of_monotonic(lines: Seq<LineRecord>, a: int, b: int)
    requires
        contiguous(lines),
        0 <= a <= b <= covered_len(lines),
    ensures
        line_of(lines, a) <= line_of(lines, b),
{
    lemma_line_of_holds(lines, a);
    lemma_line_of_holds(lines, b);
    lemma_locate_from(lines, a, 0);
    lemma_locate_from(lines, b, 0);
    let la = line_of(lines, a);
    let lb = line_of(lines, b);
    if lb < la {
        lemma_lines_ascend(lines, lb, la);
        assert(lines[lb].holds(b));
        assert(!lines[lb].holds(a));
    }
}

proof fn lemma_no_line_holds(lines: Seq<LineRecord>, offset: int, upto: int)
    requires
        contiguous(lines),
        0 <= offset,
        0 <= upto < lines.len(),
        forall|j: int| 0 <= j < upto ==> !(#[trigger] lines[j]).holds(offset),
    ensures
        lines[upto].char_start <= offset,
    decreases upto,
{
    if upto > 0 {
        let prev = upto - 1;
        assert forall|j: int| 0 <= j < prev implies !(#[trigger] lines[j]).holds(offset) by {}
        lemma_no_line_holds(lines, offset, prev);
        assert(!lines[prev].holds(offset));
        assert(lines[prev].char_end == lines[prev + 1].char_start);
    }
}

/// A source has one line index: two line indexes of the same source have
/// as many lines, and line by line the same start, end and text.
pub proof fn lemma_line_index_unique(
    code: Seq<char>,
    one: Seq<LineRecord>,
    other: Seq<LineRecord>,
    i: int,
)
    requires
        is_line_index(code, one),
        is_line_index(code, other),
        0 <= i < one.len(),
    ensures
        one.len() == other.len(),
        one[i].char_start == other[i].char_start,
        one[i].char_end == other[i].char_end,
        one[i].text@ == other[i].text@,
{
    lemma_line_index_agree(code, one, other, i);
    lemma_line_index_agree(code, one, other, one.len() - 1);
}

proof fn lemma_line_index_agree(
    code: Seq<char>,
    one: Seq<LineRecord>,
    other: Seq<LineRecord>,
    i: int,
)
    requires
        is_line_index(code, one),
        is_line_index(code, other),
        0 <= i < one.len(),
    ensures
        i < other.len(),
        one[i].char_start == other[i].char_start,
        one[i].char_end == other[i].char_end,
        (i == one.len() - 1) == (i == other.len() - 1),
    decreases i,
{
    if i > 0 {
        lemma_line_index_agree(code, one, other, i - 1);
        assert(one[i - 1].char_end == one[i - 1 + 1].char_start);
        assert(other[i - 1].char_end == other[i - 1 + 1].char_start);
    }
    let a = one[i];
    let b = other[i];
    let start = a.char_start as int;
    assert(b.char_start == start);
    if i < one.len() - 1 {
        let end = a.char_end as int;
        assert(code[end - 1] == '\n');
        if i < other.len() - 1 {
            let end_b = b.char_end as int;
            assert(code[end_b - 1] == '\n');
            if end < end_b {
                assert(b.char_start <= end - 1 && end - 1 + 1 < b.char_end);
                assert(code[end - 1] != '\n');
            }
            if end_b < end {
                assert(a.char_start <= end_b - 1 && end_b - 1 + 1 < a.char_end);
                assert(code[end_b - 1] != '\n');
            }
        } else {
            assert(b == other.last());
            if end < b.char_end {
                assert(b.char_start <= end - 1 && end - 1 + 1 < b.char_end);
                assert(code[end - 1] != '\n');
            }
        }
    } else {
        assert(a == one.last());
        if i < other.len() - 1 {
            let end_b = b.char_end as int;
            assert(code[end_b - 1] == '\n');
            if end_b < a.char_end {
                assert(a.char_start <= end_b - 1 && end_b - 1 + 1 < a.char_end);
                assert(code[end_b - 1] != '\n');
            }
        } else {
            assert(b == other.last());
        }
    }
}

/// Splits the source into its lines.
pub fn index_lines(code: &Vec<char>) -> (lines: Vec<LineRecord>)
    ensures
        is_line_index(code@, lines@),
        lines@.len() <= code@.len() + 1,
{
    let mut lines: Vec<LineRecord> = Vec::new();
    let mut start: usize = 0;
    let mut text: Vec<char> = Vec::new();
    let mut i: usize = 0;
    while i < code.len()
        invariant
            0 <= start <= i <= code.len(),
            lines@.len() <= start,
            text@ == code@.subrange(start as int, i as int),
            forall|k: int| start <= k < i ==> code@[k] != '\n',
            lines@.len() == 0 ==> start == 0,
            lines@.len() > 0 ==> lines@[0].char_start == 0 && lines@.last().char_end == start,
            forall|j: int|
                0 <= j < lines@.len() ==> {
                    &&& (#[trigger] lines@[j]).char_start < lines@[j].char_end <= start
                    &&& lines@[j].text@ == code@.subrange(
                        lines@[j].char_start as int,
                        lines@[j].char_end as int,
                    )
                    &&& code@[lines@[j].char_end - 1] == '\n'
                },
            forall|j: int|
                0 <= j < lines@.len() - 1 ==> (#[trigger] lines@[j]).char_end == lines@[j
                    + 1].char_start,
            forall|j: int, k: int|
                0 <= j < lines@.len() && (#[trigger] lines@[j]).char_start <= k && k + 1
                    < lines@[j].char_end ==> #[trigger] code@[k] != '\n',
        decreases code.len() - i,
    {
        let c = code[i];
        text.push(c);
        i = i + 1;
        proof {
            assert(text@ =~= code@.subrange(start as int, i as int));
        }
        if c == '\n' {
            let ghost before = lines@;
            let record = LineRecord { char_start: start, char_end: i, text };
            lines.push(record);
            proof {
                assert(forall|j: int| 0 <= j < before.len() ==> lines@[j] == before[j]);
                assert(lines@.last() == record);
                assert forall|j: int| 0 <= j < lines@.len() - 1 implies (#[trigger] lines@[j]).char_end
                    == lines@[j + 1].char_start by {
                    if j < before.len() - 1 {
                        assert(before[j].char_end == before[j + 1].char_start);
                    }
                }
            }
            start = i;
            text = Vec::new();
            proof {
                assert(text@ =~= code@.subrange(start as int, i as int));
            }
        }
    }
    let ghost before = lines@;
    let record = LineRecord { char_start: start, char_end: i, text };
    lines.push(record);
    proof {
        assert(forall|j: int| 0 <= j < before.len() ==> lines@[j] == before[j]);
        assert(lines@.last() == record);
        assert forall|j: int| 0 <= j < lines@.len() - 1 implies {
            &&& (#[trigger] lines@[j]).char_end == lines@[j + 1].char_start
            &&& lines@[j].char_start < lines@[j].char_end
            &&& code@[lines@[j].char_end - 1] == '\n'
        } by {
            if j < before.len() - 1 {
                assert(before[j].char_end == before[j + 1].char_start);
            }
        }
    }
    lines
}

/// Finds the line that holds the character at `offset`; where no line does,
/// as for the offset just past the end of the source, the last line.
pub fn locate(lines: &Vec<LineRecord>, offset: usize) -> (line: usize)
    requires
        lines@.len() >= 1,
    ensures
        line == line_of(lines@, offset as int),
        line < lines@.len(),
{
    let mut i: usize = 0;
    while i < lines.len() - 1
        invariant
            lines@.len() >= 1,
            0 <= i <= lines@.len() - 1,
            locate_from(lines@, offset as int, 0) == locate_from(lines@, offset as int, i as int),
        decreases lines@.len() - i,
    {
        if lines[i].char_start <= offset && offset < lines[i].char_end {
            return i;
        }
        i = i + 1;
    }
    i
}

} // verus!

//! Positions in text and the algebra of text summaries.
//!
//! Text is a sequence of UTF-8 bytes. A position is counted in bytes, either as
//! an offset or as a row and a column; a summary measures a whole stretch of
//! text, and the summary of two stretches side by side is the sum of theirs.

use vstd::prelude::*;

verus! {

/// The byte that ends a line.
pub const NEWLINE: u8 = 10;

/// A row and a column, both unbounded.
pub struct Pos {
    pub row: int,
    pub column: int,
}

pub open spec fn pos_zero() -> Pos {
    Pos { row: 0, column: 0 }
}

/// `a` comes before `b` or is `b`.
pub open spec fn pos_le(a: Pos, b: Pos) -> bool {
    a.row < b.row || (a.row == b.row && a.column <= b.column)
}

/// `a` comes before `b`.
pub open spec fn pos_lt(a: Pos, b: Pos) -> bool {
    a.row < b.row || (a.row == b.row && a.column < b.column)
}

/// The position reached by moving from `a` across text that ends at `b`.
pub open spec fn pos_add(a: Pos, b: Pos) -> Pos {
    if b.row == 0 {
        Pos { row: a.row, column: a.column + b.column }
    } else {
        Pos { row: a.row + b.row, column: b.column }
    }
}

/// Where text that starts at `b` ends, seen from its own start, if it ends at `a`.
pub open spec fn pos_sub(a: Pos, b: Pos) -> Pos {
    if a.row == b.row {
        Pos { row: 0, column: a.column - b.column }
    } else {
        Pos { row: a.row - b.row, column: a.column }
    }
}

/// The earlier of two positions.
pub open spec fn pos_min(a: Pos, b: Pos) -> Pos {
    if pos_le(a, b) {
        a
    } else {
        b
    }
}

/// The position after the last byte of `s`.
pub open spec fn end_of(s: Seq<u8>) -> Pos
    decreases s.len(),
{
    if s.len() == 0 {
        pos_zero()
    } else {
        let before = end_of(s.drop_last());
        if s.last() == NEWLINE {
            Pos { row: before.row + 1, column: 0 }
        } else {
            Pos { row: before.row, column: before.column + 1 }
        }
    }
}

/// The position of byte offset `offset` in `s`.
pub open spec fn pos_at(s: Seq<u8>, offset: int) -> Pos {
    end_of(s.take(offset))
}

/// `p` is the position of some offset in `s`.
pub open spec fn pos_in(s: Seq<u8>, p: Pos) -> bool {
    exists|offset: int| 0 <= offset <= s.len() && #[trigger] pos_at(s, offset) == p
}

/// The offset of position `p` in `s`.
pub open spec fn offset_at(s: Seq<u8>, p: Pos) -> int {
    choose|offset: int| 0 <= offset <= s.len() && #[trigger] pos_at(s, offset) == p
}

/// An offset is the offset of its position.
pub proof fn lemma_offset_at(s: Seq<u8>, offset: int)
    requires
        0 <= offset <= s.len(),
    ensures
        offset_at(s, pos_at(s, offset)) == offset,
{
    let other = offset_at(s, pos_at(s, offset));
    assert(0 <= other <= s.len() && pos_at(s, other) == pos_at(s, offset));
    lemma_pos_order(s, other, offset);
}

pub proof fn lemma_end_bounds(s: Seq<u8>)
    ensures
        0 <= end_of(s).row,
        0 <= end_of(s).column,
        end_of(s).row + end_of(s).column <= s.len(),
    decreases s.len(),
{
    if s.len() > 0 {
        lemma_end_bounds(s.drop_last());
    }
}

/// Text side by side ends where the second part ends, seen from the end of the first.
pub proof fn lemma_end_concat(a: Seq<u8>, b: Seq<u8>)
    ensures
        end_of(a + b) == pos_add(end_of(a), end_of(b)),
    decreases b.len(),
{
    if b.len() == 0 {
        assert(a + b =~= a);
    } else {
        lemma_end_concat(a, b.drop_last());
        lemma_end_bounds(b.drop_last());
        assert((a + b).drop_last() =~= a + b.drop_last());
        assert((a + b).last() == b.last());
    }
}

/// Splitting `s` at `i` and again at `j` splits the position of `j`.
pub proof fn lemma_pos_split(s: Seq<u8>, i: int, j: int)
    requires
        0 <= i <= j <= s.len(),
    ensures
        pos_at(s, j) == pos_add(pos_at(s, i), end_of(s.subrange(i, j))),
        pos_sub(pos_at(s, j), pos_at(s, i)) == end_of(s.subrange(i, j)),
        pos_le(pos_at(s, i), pos_at(s, j)),
        i < j ==> pos_lt(pos_at(s, i), pos_at(s, j)),
{
    assert(s.take(j) =~= s.take(i) + s.subrange(i, j));
    lemma_end_concat(s.take(i), s.subrange(i, j));
    lemma_end_bounds(s.subrange(i, j));
    lemma_end_bounds(s.take(i));
    if i < j {
        lemma_end_nonzero(s.subrange(i, j));
    }
}

pub proof fn lemma_end_nonzero(s: Seq<u8>)
    ensures
        s.len() > 0 ==> pos_lt(pos_zero(), end_of(s)),
{
    if s.len() > 0 {
        lemma_end_bounds(s.drop_last());
    }
}

/// Offsets and their positions are ordered alike.
pub proof fn lemma_pos_order(s: Seq<u8>, i: int, j: int)
    requires
        0 <= i <= s.len(),
        0 <= j <= s.len(),
    ensures
        pos_le(pos_at(s, i), pos_at(s, j)) <==> i <= j,
        pos_lt(pos_at(s, i), pos_at(s, j)) <==> i < j,
        pos_at(s, i) == pos_at(s, j) <==> i == j,
{
    if i <= j {
        lemma_pos_split(s, i, j);
    } else {
        lemma_pos_split(s, j, i);
    }
}

/// What a stretch of text measures.
pub struct Summary {
    /// Length in bytes.
    pub len: int,
    /// Length in characters.
    pub chars: int,
    /// Length in UTF-16 code units.
    pub len_utf16: int,
    /// The position after the last byte.
    pub lines: Pos,
    /// Characters in the first line.
    pub first_line_chars: int,
    /// Characters in the last line.
    pub last_line_chars: int,
    /// UTF-16 code units in the last line.
    pub last_line_len_utf16: int,
    /// The first of the rows with the most characters.
    pub longest_row: int,
    /// Characters in that row.
    pub longest_row_chars: int,
}

pub open spec fn summary_zero() -> Summary {
    Summary {
        len: 0,
        chars: 0,
        len_utf16: 0,
        lines: pos_zero(),
        first_line_chars: 0,
        last_line_chars: 0,
        last_line_len_utf16: 0,
        longest_row: 0,
        longest_row_chars: 0,
    }
}

/// How many characters start at a byte: none at a continuation byte.
pub open spec fn char_starts(byte: u8) -> int {
    if 0x80 <= byte <= 0xbf {
        0
    } else {
        1
    }
}

/// How many UTF-16 code units the character that starts at a byte takes.
pub open spec fn utf16_units(byte: u8) -> int {
    if 0x80 <= byte <= 0xbf {
        0
    } else if byte >= 0xf0 {
        2
    } else {
        1
    }
}

/// The summary of a text with one more byte at its end.
pub open spec fn summary_push(s: Summary, byte: u8) -> Summary {
    if byte == NEWLINE {
        Summary {
            len: s.len + 1,
            chars: s.chars + 1,
            len_utf16: s.len_utf16 + 1,
            lines: Pos { row: s.lines.row + 1, column: 0 },
            last_line_chars: 0,
            last_line_len_utf16: 0,
            ..s
        }
    } else {
        let last = s.last_line_chars + char_starts(byte);
        Summary {
            len: s.len + 1,
            chars: s.chars + char_starts(byte),
            len_utf16: s.len_utf16 + utf16_units(byte),
            lines: Pos { row: s.lines.row, column: s.lines.column + 1 },
            first_line_chars: if s.lines.row == 0 {
                last
            } else {
                s.first_line_chars
            },
            last_line_chars: last,
            last_line_len_utf16: s.last_line_len_utf16 + utf16_units(byte),
            longest_row: if last > s.longest_row_chars {
                s.lines.row
            } else {
                s.longest_row
            },
            longest_row_chars: if last > s.longest_row_chars {
                last
            } else {
                s.longest_row_chars
            },
        }
    }
}

/// What the text `s` measures.
pub open spec fn summary_of(s: Seq<u8>) -> Summary
    decreases s.len(),
{
    if s.len() == 0 {
        summary_zero()
    } else {
        summary_push(summary_of(s.drop_last()), s.last())
    }
}

/// The summary of two texts side by side, from theirs.
pub open spec fn summary_add(a: Summary, b: Summary) -> Summary {
    let joined = a.last_line_chars + b.first_line_chars;
    let row = if joined > a.longest_row_chars {
        a.lines.row
    } else {
        a.longest_row
    };
    let most = if joined > a.longest_row_chars {
        joined
    } else {
        a.longest_row_chars
    };
    Summary {
        len: a.len + b.len,
        chars: a.chars + b.chars,
        len_utf16: a.len_utf16 + b.len_utf16,
        lines: pos_add(a.lines, b.lines),
        first_line_chars: if a.lines.row == 0 {
            a.first_line_chars + b.first_line_chars
        } else {
            a.first_line_chars
        },
        last_line_chars: if b.lines.row == 0 {
            a.last_line_chars + b.first_line_chars
        } else {
            b.last_line_chars
        },
        last_line_len_utf16: if b.lines.row == 0 {
            a.last_line_len_utf16 + b.last_line_len_utf16
        } else {
            b.last_line_len_utf16
        },
        longest_row: if b.longest_row_chars > most {
            a.lines.row + b.longest_row
        } else {
            row
        },
        longest_row_chars: if b.longest_row_chars > most {
            b.longest_row_chars
        } else {
            most
        },
    }
}

/// What holds of the summary of any text.
pub open spec fn summary_wf(s: Summary) -> bool {
    &&& 0 <= s.lines.row
    &&& 0 <= s.lines.column
    &&& s.lines.row + s.lines.column <= s.len
    &&& 0 <= s.chars <= s.len
    &&& 0 <= s.len_utf16 <= 2 * s.len
    &&& 0 <= s.first_line_chars <= s.longest_row_chars
    &&& 0 <= s.last_line_chars <= s.longest_row_chars
    &&& 0 <= s.last_line_len_utf16 <= s.len_utf16
    &&& s.longest_row_chars <= s.chars
    &&& 0 <= s.longest_row <= s.lines.row
    &&& s.lines.row == 0 ==> s.first_line_chars == s.last_line_chars == s.longest_row_chars
}

pub proof fn lemma_summary_wf(s: Seq<u8>)
    ensures
        summary_wf(summary_of(s)),
        summary_of(s).len == s.len(),
        summary_of(s).lines == end_of(s),
    decreases s.len(),
{
    if s.len() > 0 {
        lemma_summary_wf(s.drop_last());
    }
}

/// The summary of text side by side is the sum of the summaries of its parts.
pub proof fn lemma_summary_concat(a: Seq<u8>, b: Seq<u8>)
    ensures
        summary_of(a + b) == summary_add(summary_of(a), summary_of(b)),
    decreases b.len(),
{
    lemma_summary_wf(a);
    if b.len() == 0 {
        assert(a + b =~= a);
    } else {
        lemma_summary_concat(a, b.drop_last());
        lemma_summary_wf(b.drop_last());
        assert((a + b).drop_last() =~= a + b.drop_last());
        assert((a + b).last() == b.last());
    }
}

} // verus!

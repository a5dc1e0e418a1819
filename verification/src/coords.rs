//! Coordinates of the two spaces that the layer maps between, and measured text.
//!
//! *Fold space* is the text that the layer below displays, *conceal space* the
//! text that this layer displays.

use crate::text::{
    char_starts, lemma_summary_wf, pos_add, pos_le, pos_lt, pos_min, pos_sub, pos_zero, summary_add,
    summary_of, summary_push, summary_wf, summary_zero, utf16_units, Pos, Summary, NEWLINE,
};
use vstd::prelude::*;
use vstd::std_specs::ops::{AddSpec, SubSpec};
use vstd::utf8::encode_utf8;

verus! {

/// Which way a position inside something indivisible leans.
#[derive(Copy, Clone, Debug, PartialEq, Eq, Structural)]
pub enum Bias {
    Left,
    Right,
}

/// A row and a column counted in bytes.
#[derive(Copy, Clone, Debug, PartialEq, Eq, Structural, PartialOrd, Ord, Hash)]
pub struct Point {
    pub row: u32,
    pub column: u32,
}

impl View for Point {
    type V = Pos;

    open spec fn view(&self) -> Pos {
        Pos { row: self.row as int, column: self.column as int }
    }
}

/// `p` can be held by a [`Point`].
pub open spec fn pos_fits(p: Pos) -> bool {
    0 <= p.row <= u32::MAX && 0 <= p.column <= u32::MAX
}

impl Default for Point {
    fn default() -> (point: Self)
        ensures
            point@ == pos_zero(),
    {
        Point { row: 0, column: 0 }
    }
}

impl Point {
    pub fn new(row: u32, column: u32) -> (point: Self)
        ensures
            point == (Point { row, column }),
    {
        Point { row, column }
    }

    pub fn is_zero(self) -> (zero: bool)
        ensures
            zero == (self@ == pos_zero()),
    {
        self.row == 0 && self.column == 0
    }

    /// Whether this point comes before `other` or is `other`.
    pub fn at_most(self, other: Point) -> (at_most: bool)
        ensures
            at_most == pos_le(self@, other@),
    {
        self.row < other.row || (self.row == other.row && self.column <= other.column)
    }

    /// Whether this point comes before `other`.
    pub fn before(self, other: Point) -> (before: bool)
        ensures
            before == pos_lt(self@, other@),
    {
        self.row < other.row || (self.row == other.row && self.column < other.column)
    }

    /// The point reached by moving from this one across text that ends at `other`.
    pub fn plus(self, other: Point) -> (sum: Point)
        requires
            pos_fits(pos_add(self@, other@)),
        ensures
            sum@ == pos_add(self@, other@),
    {
        if other.row == 0 {
            Point { row: self.row, column: self.column + other.column }
        } else {
            Point { row: self.row + other.row, column: other.column }
        }
    }

    /// Where text between `start` and this point ends, seen from `start`.
    pub fn minus(self, start: Point) -> (difference: Point)
        requires
            pos_le(start@, self@),
        ensures
            difference@ == pos_sub(self@, start@),
    {
        if self.row == start.row {
            Point { row: 0, column: self.column - start.column }
        } else {
            Point { row: self.row - start.row, column: self.column }
        }
    }

    pub fn earlier(self, other: Point) -> (earlier: Point)
        ensures
            earlier@ == pos_min(self@, other@),
    {
        if self.at_most(other) {
            self
        } else {
            other
        }
    }
}

/// A byte offset.
#[derive(Copy, Clone, Debug, PartialEq, Eq, Structural, PartialOrd, Ord, Hash)]
pub struct MultiBufferOffset(pub usize);

/// A byte offset in fold space.
#[derive(Copy, Clone, Debug, PartialEq, Eq, Structural, PartialOrd, Ord, Hash)]
pub struct FoldOffset(pub MultiBufferOffset);

/// A point in fold space.
#[derive(Copy, Clone, Debug, PartialEq, Eq, Structural, PartialOrd, Ord, Hash)]
pub struct FoldPoint(pub Point);

/// A byte offset in conceal space.
#[derive(Copy, Clone, Debug, PartialEq, Eq, Structural, PartialOrd, Ord, Hash)]
pub struct ConcealOffset(pub MultiBufferOffset);

/// A point in conceal space.
#[derive(Copy, Clone, Debug, PartialEq, Eq, Structural, PartialOrd, Ord, Hash)]
pub struct ConcealPoint(pub Point);

impl View for FoldOffset {
    type V = int;

    open spec fn view(&self) -> int {
        self.0.0 as int
    }
}

impl View for ConcealOffset {
    type V = int;

    open spec fn view(&self) -> int {
        self.0.0 as int
    }
}

impl View for FoldPoint {
    type V = Pos;

    open spec fn view(&self) -> Pos {
        self.0@
    }
}

impl View for ConcealPoint {
    type V = Pos;

    open spec fn view(&self) -> Pos {
        self.0@
    }
}

impl FoldOffset {
    pub fn at(offset: usize) -> (result: Self)
        ensures
            result@ == offset,
    {
        FoldOffset(MultiBufferOffset(offset))
    }
}

impl FoldPoint {
    pub fn new(row: u32, column: u32) -> (point: Self)
        ensures
            point == FoldPoint(Point { row, column }),
    {
        FoldPoint(Point::new(row, column))
    }

    pub fn row(self) -> (row: u32)
        ensures
            row == self@.row,
    {
        self.0.row
    }
}

impl Default for ConcealOffset {
    fn default() -> (offset: Self)
        ensures
            offset@ == 0,
    {
        ConcealOffset(MultiBufferOffset(0))
    }
}

impl Default for ConcealPoint {
    fn default() -> (point: Self)
        ensures
            point@ == pos_zero(),
    {
        ConcealPoint(Point::new(0, 0))
    }
}

impl ConcealOffset {
    pub fn at(offset: usize) -> (result: Self)
        ensures
            result@ == offset,
    {
        ConcealOffset(MultiBufferOffset(offset))
    }

    /// Moves this offset forward.
    pub fn add_assign(&mut self, rhs: usize)
        requires
            old(self)@ + rhs <= usize::MAX,
        ensures
            final(self)@ == old(self)@ + rhs,
    {
        self.0.0 = self.0.0 + rhs;
    }

    /// Moves this offset forward as far as another lies from the start.
    pub fn add_assign_offset(&mut self, rhs: ConcealOffset)
        requires
            old(self)@ + rhs@ <= usize::MAX,
        ensures
            final(self)@ == old(self)@ + rhs@,
    {
        self.add_assign(rhs.0.0);
    }

    /// Moves this offset back.
    pub fn sub_assign(&mut self, rhs: usize)
        requires
            rhs <= old(self)@,
        ensures
            final(self)@ == old(self)@ - rhs,
    {
        self.0.0 = self.0.0 - rhs;
    }
}

impl vstd::std_specs::ops::AddSpecImpl for ConcealOffset {
    open spec fn obeys_add_spec() -> bool {
        true
    }

    open spec fn add_req(self, rhs: ConcealOffset) -> bool {
        self@ + rhs@ <= usize::MAX
    }

    open spec fn add_spec(self, rhs: ConcealOffset) -> ConcealOffset {
        ConcealOffset(MultiBufferOffset((self@ + rhs@) as usize))
    }
}

impl core::ops::Add for ConcealOffset {
    type Output = ConcealOffset;

    fn add(self, rhs: ConcealOffset) -> (sum: ConcealOffset) {
        ConcealOffset::at(self.0.0 + rhs.0.0)
    }
}

impl vstd::std_specs::ops::AddSpecImpl<usize> for ConcealOffset {
    open spec fn obeys_add_spec() -> bool {
        true
    }

    open spec fn add_req(self, rhs: usize) -> bool {
        self@ + rhs <= usize::MAX
    }

    open spec fn add_spec(self, rhs: usize) -> ConcealOffset {
        ConcealOffset(MultiBufferOffset((self@ + rhs) as usize))
    }
}

impl core::ops::Add<usize> for ConcealOffset {
    type Output = ConcealOffset;

    fn add(self, rhs: usize) -> (sum: ConcealOffset) {
        ConcealOffset::at(self.0.0 + rhs)
    }
}

impl vstd::std_specs::ops::SubSpecImpl for ConcealOffset {
    open spec fn obeys_sub_spec() -> bool {
        true
    }

    open spec fn sub_req(self, rhs: ConcealOffset) -> bool {
        rhs@ <= self@
    }

    open spec fn sub_spec(self, rhs: ConcealOffset) -> usize {
        (self@ - rhs@) as usize
    }
}

impl core::ops::Sub for ConcealOffset {
    type Output = usize;

    fn sub(self, rhs: ConcealOffset) -> (difference: usize) {
        self.0.0 - rhs.0.0
    }
}

/// Offsets are added and subtracted as the numbers of bytes that they are, and adding undoes
/// subtracting.
pub proof fn law_offset_sums(a: ConcealOffset, b: ConcealOffset, n: usize)
    ensures
        a.0.0 + b.0.0 <= usize::MAX ==> a.add_spec(b).0.0 == a.0.0 + b.0.0,
        a.0.0 + n <= usize::MAX ==> a.add_spec(n).0.0 == a.0.0 + n && a.add_spec(n).sub_spec(a)
            == n,
        b.0.0 <= a.0.0 ==> a.sub_spec(b) == a.0.0 - b.0.0,
        a.0.0 + b.0.0 <= usize::MAX <==> a.add_req(b),
        a.0.0 + n <= usize::MAX <==> a.add_req(n),
        b.0.0 <= a.0.0 <==> a.sub_req(b),
{
}

impl ConcealPoint {
    pub fn new(row: u32, column: u32) -> (point: Self)
        ensures
            point == ConcealPoint(Point { row, column }),
    {
        ConcealPoint(Point::new(row, column))
    }

    pub fn row(self) -> (row: u32)
        ensures
            row == self.0.row,
    {
        self.0.row
    }

    pub fn column(self) -> (column: u32)
        ensures
            column == self.0.column,
    {
        self.0.column
    }

    /// The row, to be changed in place; the column stays.
    pub fn row_mut(&mut self) -> (row: &mut u32)
        ensures
            *row == old(self).0.row,
            *final(self) == ConcealPoint(Point { row: *final(row), column: old(self).0.column }),
    {
        &mut self.0.row
    }
}

/// What a stretch of text measures.
#[derive(Copy, Clone, Debug, PartialEq, Eq, Structural)]
pub struct MBTextSummary {
    /// Length in bytes.
    pub len: MultiBufferOffset,
    /// Length in characters.
    pub chars: usize,
    /// Length in UTF-16 code units.
    pub len_utf16: usize,
    /// The point after the last byte.
    pub lines: Point,
    /// Characters in the first line.
    pub first_line_chars: u32,
    /// Characters in the last line.
    pub last_line_chars: u32,
    /// UTF-16 code units in the last line.
    pub last_line_len_utf16: u32,
    /// The first of the rows with the most characters.
    pub longest_row: u32,
    /// Characters in that row.
    pub longest_row_chars: u32,
}

impl View for MBTextSummary {
    type V = Summary;

    open spec fn view(&self) -> Summary {
        Summary {
            len: self.len.0 as int,
            chars: self.chars as int,
            len_utf16: self.len_utf16 as int,
            lines: self.lines@,
            first_line_chars: self.first_line_chars as int,
            last_line_chars: self.last_line_chars as int,
            last_line_len_utf16: self.last_line_len_utf16 as int,
            longest_row: self.longest_row as int,
            longest_row_chars: self.longest_row_chars as int,
        }
    }
}

impl Default for MBTextSummary {
    fn default() -> (summary: Self)
        ensures
            summary@ == summary_zero(),
    {
        MBTextSummary {
            len: MultiBufferOffset(0),
            chars: 0,
            len_utf16: 0,
            lines: Point::new(0, 0),
            first_line_chars: 0,
            last_line_chars: 0,
            last_line_len_utf16: 0,
            longest_row: 0,
            longest_row_chars: 0,
        }
    }
}

/// No text longer than this is measured: its rows, columns and characters, and an
/// offset of it with a length of it added, can then be counted in thirty-two bits.
pub const MAX_LEN: usize = 0x7fff_ffff;

impl MBTextSummary {
    /// Whether two summaries agree in every field.
    pub fn same(self, other: MBTextSummary) -> (same: bool)
        ensures
            same == (self@ == other@),
    {
        self == other
    }

    /// Extends this summary by the summary of the text that follows.
    pub fn append(&mut self, other: MBTextSummary)
        requires
            summary_wf(old(self)@),
            summary_wf(other@),
            old(self)@.len + other@.len <= MAX_LEN,
        ensures
            final(self)@ == summary_add(old(self)@, other@),
    {
        let joined: u32 = self.last_line_chars + other.first_line_chars;
        if joined > self.longest_row_chars {
            self.longest_row = self.lines.row;
            self.longest_row_chars = joined;
        }
        if other.longest_row_chars > self.longest_row_chars {
            self.longest_row = self.lines.row + other.longest_row;
            self.longest_row_chars = other.longest_row_chars;
        }
        if self.lines.row == 0 {
            self.first_line_chars = self.first_line_chars + other.first_line_chars;
        }
        if other.lines.row == 0 {
            self.last_line_chars = self.last_line_chars + other.first_line_chars;
            self.last_line_len_utf16 = self.last_line_len_utf16 + other.last_line_len_utf16;
        } else {
            self.last_line_chars = other.last_line_chars;
            self.last_line_len_utf16 = other.last_line_len_utf16;
        }
        self.chars = self.chars + other.chars;
        self.len = MultiBufferOffset(self.len.0 + other.len.0);
        self.len_utf16 = self.len_utf16 + other.len_utf16;
        self.lines = self.lines.plus(other.lines);
    }

    /// Extends this summary by one byte of text.
    fn push(&mut self, byte: u8)
        requires
            summary_wf(old(self)@),
            old(self)@.len < MAX_LEN,
        ensures
            final(self)@ == summary_push(old(self)@, byte),
    {
        self.len = MultiBufferOffset(self.len.0 + 1);
        if byte == NEWLINE {
            self.chars = self.chars + 1;
            self.len_utf16 = self.len_utf16 + 1;
            self.lines = Point::new(self.lines.row + 1, 0);
            self.last_line_chars = 0;
            self.last_line_len_utf16 = 0;
            return;
        }
        self.lines = Point::new(self.lines.row, self.lines.column + 1);
        if 0x80 <= byte && byte <= 0xbf {
            assert(char_starts(byte) == 0 && utf16_units(byte) == 0);
            return;
        }
        let units: u32 = if byte >= 0xf0 {
            2
        } else {
            1
        };
        self.chars = self.chars + 1;
        self.len_utf16 = self.len_utf16 + units as usize;
        self.last_line_chars = self.last_line_chars + 1;
        self.last_line_len_utf16 = self.last_line_len_utf16 + units;
        if self.lines.row == 0 {
            self.first_line_chars = self.last_line_chars;
        }
        if self.last_line_chars > self.longest_row_chars {
            self.longest_row = self.lines.row;
            self.longest_row_chars = self.last_line_chars;
        }
    }

    /// The summary of the bytes from `start` to `end`.
    pub fn of_bytes(bytes: &[u8], start: usize, end: usize) -> (summary: MBTextSummary)
        requires
            start <= end <= bytes@.len(),
            end - start <= MAX_LEN,
        ensures
            summary@ == summary_of(bytes@.subrange(start as int, end as int)),
    {
        let mut summary = MBTextSummary::default();
        let mut i: usize = start;
        assert(bytes@.subrange(start as int, start as int) =~= Seq::<u8>::empty());
        while i < end
            invariant
                start <= i <= end <= bytes@.len(),
                end - start <= MAX_LEN,
                summary@ == summary_of(bytes@.subrange(start as int, i as int)),
            decreases end - i,
        {
            let ghost upto = bytes@.subrange(start as int, i + 1);
            proof {
                lemma_summary_wf(bytes@.subrange(start as int, i as int));
                assert(upto.drop_last() =~= bytes@.subrange(start as int, i as int));
            }
            summary.push(bytes[i]);
            i = i + 1;
        }
        summary
    }

    /// The summary of `text`.
    pub fn of_text(text: &str) -> (summary: MBTextSummary)
        requires
            encode_utf8(text@).len() <= MAX_LEN,
        ensures
            summary@ == summary_of(encode_utf8(text@)),
    {
        let bytes = text.as_bytes();
        assert(bytes@.subrange(0, bytes@.len() as int) =~= bytes@);
        MBTextSummary::of_bytes(bytes, 0, bytes.len())
    }
}

} // verus!

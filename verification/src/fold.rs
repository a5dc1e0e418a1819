//! The text that the layer below displays, with what this layer reads of it.

use crate::bits::{clip, clip_bits};
use crate::coords::{Bias, FoldOffset, FoldPoint, MBTextSummary, Point, MAX_LEN};
use crate::text::{
    end_of, lemma_end_bounds, lemma_offset_at, lemma_pos_order, offset_at, pos_at, pos_in, pos_le,
    summary_of, Pos, NEWLINE,
};
use std::ops::Range;
use vstd::prelude::*;
use vstd::utf8::{
    encode_utf8, encode_utf8_valid_utf8, is_char_boundary,
    is_char_boundary_iff_not_is_continuation_byte, is_char_boundary_start_end_of_seq, valid_utf8,
    valid_utf8_split,
};

verus! {

/// What the editor shows beside a row.
#[derive(Copy, Clone, Debug, PartialEq, Eq)]
pub struct RowInfo {
    pub buffer_id: Option<u64>,
    pub buffer_row: Option<u32>,
    pub multibuffer_row: Option<u32>,
    pub wrapped_buffer_row: Option<u32>,
}

/// A handle of a position that keeps its place while the buffer is edited.
#[derive(Copy, Clone, Debug, PartialEq, Eq, Structural)]
pub struct Anchor(pub usize);

/// Where an anchor stands in the text: the two points differ if what it stands in
/// is folded or if something that is not in the buffer is shown there.
#[derive(Copy, Clone, Debug, PartialEq, Eq)]
pub struct AnchorPlace {
    /// Its point when it leans to the left.
    pub left: FoldPoint,
    /// Its point when it leans to the right.
    pub right: FoldPoint,
}

/// A stretch of text that is styled alike, with a bit for each of its bytes in
/// `tabs`, `chars` and `newlines`.
#[derive(Copy, Clone, Debug, PartialEq, Eq)]
pub struct Run {
    pub len: usize,
    pub tabs: u128,
    pub chars: u128,
    pub newlines: u128,
    pub syntax_highlight_id: Option<u32>,
    pub highlight_style: Option<u64>,
    pub diagnostic_severity: Option<u8>,
    pub is_unnecessary: bool,
    pub is_tab: bool,
    pub is_inlay: bool,
    pub underline: bool,
    pub renderer: Option<u64>,
}

/// Text to be drawn in one go.
#[derive(Copy, Clone, Debug, PartialEq, Eq)]
pub struct Chunk<'a> {
    pub text: &'a str,
    pub tabs: u128,
    pub chars: u128,
    pub newlines: u128,
    pub syntax_highlight_id: Option<u32>,
    pub highlight_style: Option<u64>,
    pub diagnostic_severity: Option<u8>,
    pub is_unnecessary: bool,
    pub is_tab: bool,
    pub is_inlay: bool,
    pub underline: bool,
    pub renderer: Option<u64>,
}

/// The bytes of a chunk and how they are drawn: the bits of `run` stand for the
/// bytes of `text`, and `run.len` is their number.
pub struct Drawn {
    pub text: Seq<u8>,
    pub run: Run,
}

impl<'a> View for Chunk<'a> {
    type V = Drawn;

    open spec fn view(&self) -> Drawn {
        Drawn {
            text: encode_utf8(self.text@),
            run: Run {
                len: encode_utf8(self.text@).len() as usize,
                tabs: self.tabs,
                chars: self.chars,
                newlines: self.newlines,
                syntax_highlight_id: self.syntax_highlight_id,
                highlight_style: self.highlight_style,
                diagnostic_severity: self.diagnostic_severity,
                is_unnecessary: self.is_unnecessary,
                is_tab: self.is_tab,
                is_inlay: self.is_inlay,
                underline: self.underline,
                renderer: self.renderer,
            },
        }
    }
}

/// The part of a run that covers its `len` bytes from byte `from` on.
pub open spec fn clip_run(run: Run, from: int, len: int) -> Run {
    Run {
        len: len as usize,
        tabs: clip_bits(run.tabs, from, len),
        chars: clip_bits(run.chars, from, len),
        newlines: clip_bits(run.newlines, from, len),
        ..run
    }
}

/// Where run `k` starts: the lengths of the runs before it, added up.
pub open spec fn run_start(runs: Seq<Run>, k: int) -> int
    decreases k,
{
    if k <= 0 {
        0
    } else {
        run_start(runs, k - 1) + runs[k - 1].len
    }
}

/// The run that covers `offset`, looked for from run `k` on.
pub open spec fn run_at(runs: Seq<Run>, offset: int, k: int) -> int
    decreases runs.len() - k,
{
    if k >= runs.len() || offset < run_start(runs, k + 1) {
        k
    } else {
        run_at(runs, offset, k + 1)
    }
}

/// `offset` does not cut a character of `text` in two.
pub open spec fn on_boundary(text: Seq<u8>, offset: int) -> bool {
    0 <= offset <= text.len() && is_char_boundary(text, offset)
}

/// The runs cover `text`, none is empty or longer than its bits, and none cuts a character.
pub open spec fn runs_wf(text: Seq<u8>, runs: Seq<Run>) -> bool {
    &&& run_start(runs, runs.len() as int) == text.len()
    &&& forall|k: int| 0 <= k < runs.len() ==> 0 < (#[trigger] runs[k]).len <= 128
    &&& forall|k: int|
        0 <= k <= runs.len() ==> on_boundary(text, #[trigger] run_start(runs, k))
}

/// What the layer below draws between `start` and `end`, which one run covers.
pub open spec fn drawn_at(text: Seq<u8>, runs: Seq<Run>, start: int, end: int) -> Drawn {
    let k = run_at(runs, start, 0);
    Drawn {
        text: text.subrange(start, end),
        run: clip_run(runs[k], start - run_start(runs, k), end - start),
    }
}

/// Where the run that covers `offset` ends.
pub open spec fn run_end_at(runs: Seq<Run>, offset: int) -> int {
    run_start(runs, run_at(runs, offset, 0) + 1)
}

/// What this layer reads of the layer below.
pub struct FoldView {
    /// The text that is displayed.
    pub text: Seq<u8>,
    pub version: int,
    /// How the text is cut and styled when no styling is asked for.
    pub runs: Seq<Run>,
    /// One entry for each row.
    pub rows: Seq<RowInfo>,
    /// The offsets where a cursor may rest.
    pub stops: Seq<usize>,
    pub anchors: Seq<AnchorPlace>,
}

/// `p` is a position of `text` that cuts no character.
pub open spec fn pos_between(text: Seq<u8>, p: Pos) -> bool {
    pos_in(text, p) && on_boundary(text, offset_at(text, p))
}

/// Where anchor number `anchor` stands if it leans to the side of `bias`.
pub open spec fn anchor_pos(fold: FoldView, anchor: int, bias: Bias) -> Pos {
    match bias {
        Bias::Left => fold.anchors[anchor].left@,
        Bias::Right => fold.anchors[anchor].right@,
    }
}

/// The runs, rows, stops and anchors are those of the text: the runs cover it, every row
/// has its entry, the stops go from its start to its end, and no stop or anchor cuts a
/// character.
pub open spec fn fold_wf(fold: FoldView) -> bool {
    &&& valid_utf8(fold.text)
    &&& fold.text.len() <= MAX_LEN
    &&& runs_wf(fold.text, fold.runs)
    &&& fold.rows.len() == end_of(fold.text).row + 1
    &&& fold.stops.len() > 0
    &&& fold.stops[0] == 0
    &&& fold.stops.last() == fold.text.len()
    &&& forall|i: int, j: int|
        0 <= i < j < fold.stops.len() ==> #[trigger] fold.stops[i] < #[trigger] fold.stops[j]
    &&& forall|i: int|
        0 <= i < fold.stops.len() ==> on_boundary(fold.text, #[trigger] fold.stops[i] as int)
    &&& forall|i: int|
        0 <= i < fold.anchors.len() ==> {
            &&& pos_between(fold.text, (#[trigger] fold.anchors[i]).left@)
            &&& pos_between(fold.text, fold.anchors[i].right@)
        }
}

/// `offset` is the last one of `text` that does not come after `p`.
pub open spec fn is_floor(text: Seq<u8>, p: Pos, offset: int) -> bool {
    &&& 0 <= offset <= text.len()
    &&& pos_le(pos_at(text, offset), p)
    &&& offset < text.len() ==> !pos_le(pos_at(text, offset + 1), p)
}

/// `stop` is the stop next to `offset` on the side of `bias`.
pub open spec fn is_next_stop(stops: Seq<usize>, offset: int, bias: Bias, stop: int) -> bool {
    &&& exists|i: int| 0 <= i < stops.len() && #[trigger] stops[i] == stop
    &&& match bias {
        Bias::Left => {
            &&& stop <= offset
            &&& forall|i: int|
                0 <= i < stops.len() && (#[trigger] stops[i]) <= offset ==> stops[i] <= stop
        },
        Bias::Right => {
            &&& offset <= stop
            &&& forall|i: int|
                0 <= i < stops.len() && offset <= (#[trigger] stops[i]) ==> stop <= stops[i]
        },
    }
}

/// `stop` is where a cursor at `p` comes to rest.
pub open spec fn is_clip(fold: FoldView, p: Pos, bias: Bias, stop: int) -> bool {
    exists|offset: int|
        #[trigger] is_floor(fold.text, p, offset) && is_next_stop(fold.stops, offset, bias, stop)
}

/// The offset where a cursor at `p` comes to rest.
pub open spec fn clip_offset(fold: FoldView, p: Pos, bias: Bias) -> int {
    choose|stop: int| is_clip(fold, p, bias, stop)
}

/// There is one place where a cursor at `p` comes to rest.
pub proof fn lemma_clip_unique(fold: FoldView, p: Pos, bias: Bias, stop: int)
    requires
        is_clip(fold, p, bias, stop),
    ensures
        clip_offset(fold, p, bias) == stop,
{
    let other = clip_offset(fold, p, bias);
    assert(is_clip(fold, p, bias, other));
    let x = choose|offset: int|
        #[trigger] is_floor(fold.text, p, offset) && is_next_stop(fold.stops, offset, bias, stop);
    let y = choose|offset: int|
        #[trigger] is_floor(fold.text, p, offset) && is_next_stop(fold.stops, offset, bias, other);
    lemma_floor_unique(fold.text, p, x, y);
    lemma_floor_unique(fold.text, p, y, x);
}

proof fn lemma_floor_unique(text: Seq<u8>, p: Pos, x: int, y: int)
    requires
        is_floor(text, p, x),
        is_floor(text, p, y),
    ensures
        x <= y,
{
    if y < x {
        lemma_pos_order(text, y + 1, x);
    }
}

/// A snapshot of the layer below.
pub struct FoldSnapshot {
    pub text: String,
    pub version: usize,
    pub styling: FoldStyling,
    pub rows: Vec<RowInfo>,
    pub stops: Vec<usize>,
    pub anchors: Vec<AnchorPlace>,
}

/// How the layer below cuts and styles its text.
pub struct FoldStyling {
    pub runs: Vec<Run>,
}

impl View for FoldSnapshot {
    type V = FoldView;

    open spec fn view(&self) -> FoldView {
        FoldView {
            text: encode_utf8(self.text@),
            version: self.version as int,
            runs: self.styling.runs@,
            rows: self.rows@,
            stops: self.stops@,
            anchors: self.anchors@,
        }
    }
}

impl Clone for FoldSnapshot {
    fn clone(&self) -> (snapshot: Self)
        ensures
            snapshot@ == self@,
            snapshot.version == self.version,
    {
        let snapshot = FoldSnapshot {
            text: self.text.clone(),
            version: self.version,
            styling: FoldStyling { runs: self.styling.runs.clone() },
            rows: self.rows.clone(),
            stops: self.stops.clone(),
            anchors: self.anchors.clone(),
        };
        assert(snapshot.styling.runs@ =~= self.styling.runs@);
        assert(snapshot.rows@ =~= self.rows@);
        assert(snapshot.stops@ =~= self.stops@);
        assert(snapshot.anchors@ =~= self.anchors@);
        snapshot
    }
}

impl FoldOffset {
    /// The point at this offset.
    pub fn to_point(self, snapshot: &FoldSnapshot) -> (point: FoldPoint)
        requires
            fold_wf(snapshot@),
            self@ <= snapshot@.text.len(),
        ensures
            point@ == pos_at(snapshot@.text, self@),
    {
        let bytes = snapshot.text.as_str().as_bytes();
        let mut point = Point::new(0, 0);
        let mut i: usize = 0;
        let ghost text = snapshot@.text;
        assert(text.take(0) =~= Seq::<u8>::empty());
        while i < self.0.0
            invariant
                bytes@ == text,
                i <= self@ <= text.len() <= MAX_LEN,
                point@ == pos_at(text, i as int),
            decreases self@ - i,
        {
            proof {
                lemma_end_bounds(text.take(i as int));
                assert(text.take(i + 1).drop_last() =~= text.take(i as int));
            }
            point = step(point, bytes[i]);
            i = i + 1;
        }
        FoldPoint(point)
    }
}

/// The point after `byte`, which stands at `point`.
fn step(point: Point, byte: u8) -> (next: Point)
    requires
        point.row < u32::MAX,
        point.column < u32::MAX,
    ensures
        byte == NEWLINE ==> next == (Point { row: (point.row + 1) as u32, column: 0 }),
        byte != NEWLINE ==> next == (Point { row: point.row, column: (point.column + 1) as u32 }),
{
    if byte == NEWLINE {
        Point::new(point.row + 1, 0)
    } else {
        Point::new(point.row, point.column + 1)
    }
}

impl FoldPoint {
    /// The offset at this point.
    pub fn to_offset(self, snapshot: &FoldSnapshot) -> (offset: FoldOffset)
        requires
            fold_wf(snapshot@),
            pos_in(snapshot@.text, self@),
        ensures
            offset@ <= snapshot@.text.len(),
            pos_at(snapshot@.text, offset@) == self@,
            offset@ == offset_at(snapshot@.text, self@),
    {
        let offset = floor_offset(snapshot, self.0);
        proof {
            let text = snapshot@.text;
            let at = choose|at: int| 0 <= at <= text.len() && #[trigger] pos_at(text, at) == self@;
            lemma_pos_order(text, offset as int, at);
            if offset < at {
                lemma_pos_order(text, offset + 1, at);
            }
            lemma_offset_at(text, at);
        }
        FoldOffset::at(offset)
    }
}

/// The last offset of the text that does not come after `point`.
fn floor_offset(snapshot: &FoldSnapshot, point: Point) -> (offset: usize)
    requires
        fold_wf(snapshot@),
    ensures
        is_floor(snapshot@.text, point@, offset as int),
{
    let bytes = snapshot.text.as_str().as_bytes();
    let ghost text = snapshot@.text;
    let mut at = Point::new(0, 0);
    let mut i: usize = 0;
    assert(text.take(0) =~= Seq::<u8>::empty());
    while i < bytes.len()
        invariant
            bytes@ == text,
            text == snapshot@.text,
            i <= text.len() <= MAX_LEN,
            at@ == pos_at(text, i as int),
            pos_le(at@, point@),
        decreases text.len() - i,
    {
        proof {
            lemma_end_bounds(text.take(i as int));
            assert(text.take(i + 1).drop_last() =~= text.take(i as int));
        }
        let next = step(at, bytes[i]);
        if !next.at_most(point) {
            return i;
        }
        at = next;
        i = i + 1;
    }
    i
}

impl FoldSnapshot {
    pub fn len(&self) -> (len: FoldOffset)
        requires
            fold_wf(self@),
        ensures
            len@ == self@.text.len(),
    {
        FoldOffset::at(self.text.as_str().as_bytes().len())
    }

    pub fn max_point(&self) -> (point: FoldPoint)
        requires
            fold_wf(self@),
        ensures
            point@ == end_of(self@.text),
    {
        assert(self@.text.take(self@.text.len() as int) =~= self@.text);
        self.len().to_point(self)
    }

    /// Where an anchor stands.
    pub fn to_fold_point(&self, anchor: Anchor, bias: Bias) -> (point: FoldPoint)
        requires
            anchor.0 < self@.anchors.len(),
        ensures
            point@ == anchor_pos(self@, anchor.0 as int, bias),
    {
        match bias {
            Bias::Left => self.anchors[anchor.0].left,
            Bias::Right => self.anchors[anchor.0].right,
        }
    }

    pub fn text_summary(&self) -> (summary: MBTextSummary)
        requires
            fold_wf(self@),
        ensures
            summary@ == summary_of(self@.text),
    {
        MBTextSummary::of_text(self.text.as_str())
    }

    /// The summary of the text between two points.
    pub fn text_summary_for_range(&self, range: Range<FoldPoint>) -> (summary: MBTextSummary)
        requires
            fold_wf(self@),
            pos_in(self@.text, range.start@),
            pos_in(self@.text, range.end@),
            pos_le(range.start@, range.end@),
        ensures
            forall|start: int, end: int|
                0 <= start <= self@.text.len() && 0 <= end <= self@.text.len() && range.start@
                    == #[trigger] pos_at(self@.text, start) && range.end@ == #[trigger] pos_at(
                    self@.text,
                    end,
                ) ==> summary@ == summary_of(self@.text.subrange(start, end)),
    {
        let start = range.start.to_offset(self);
        let end = range.end.to_offset(self);
        proof {
            let text = self@.text;
            lemma_pos_order(text, start@, end@);
            assert forall|s: int, e: int|
                0 <= s <= text.len() && 0 <= e <= text.len() && range.start@ == #[trigger] pos_at(
                    text,
                    s,
                ) && range.end@ == #[trigger] pos_at(text, e) implies s == start@ && e == end@ by {
                lemma_pos_order(text, s, start@);
                lemma_pos_order(text, e, end@);
            }
        }
        MBTextSummary::of_bytes(self.text.as_str().as_bytes(), start.0.0, end.0.0)
    }

    /// The summary of the text between two offsets.
    pub fn text_summary_for_offsets(&self, start: FoldOffset, end: FoldOffset) -> (summary:
        MBTextSummary)
        requires
            fold_wf(self@),
            start@ <= end@ <= self@.text.len(),
        ensures
            summary@ == summary_of(self@.text.subrange(start@, end@)),
    {
        let from = start.to_point(self);
        let to = end.to_point(self);
        proof {
            lemma_pos_order(self@.text, start@, end@);
        }
        self.text_summary_for_range(from..to)
    }

    /// Where a cursor at `point` comes to rest.
    pub fn clip_point(&self, point: FoldPoint, bias: Bias) -> (clipped: FoldPoint)
        requires
            fold_wf(self@),
        ensures
            clipped@ == pos_at(self@.text, clip_offset(self@, point@, bias)),
            is_clip(self@, point@, bias, clip_offset(self@, point@, bias)),
    {
        let offset = floor_offset(self, point.0);
        let mut i: usize = 0;
        match bias {
            Bias::Left => {
                while i + 1 < self.stops.len() && self.stops[i + 1] <= offset
                    invariant
                        fold_wf(self@),
                        i < self.stops.len(),
                        self.stops[i as int] <= offset,
                    decreases self.stops.len() - i,
                {
                    i = i + 1;
                }
            },
            Bias::Right => {
                while self.stops[i] < offset
                    invariant
                        fold_wf(self@),
                        offset <= self@.text.len(),
                        i < self.stops.len(),
                        forall|k: int| 0 <= k < i ==> self.stops[k] < offset,
                    decreases self.stops.len() - i,
                {
                    i = i + 1;
                }
            },
        }
        let stop = self.stops[i];
        proof {
            assert(is_next_stop(self@.stops, offset as int, bias, stop as int));
            assert(is_clip(self@, point@, bias, stop as int));
            lemma_clip_unique(self@, point@, bias, stop as int);
        }
        FoldOffset::at(stop).to_point(self)
    }

    /// The rows from `start_row` on.
    pub fn row_infos(&self, start_row: u32) -> (rows: FoldRows<'_>)
        requires
            fold_wf(self@),
            start_row < self@.rows.len(),
        ensures
            rows.rows@ == self@.rows,
            rows.next_row == start_row,
    {
        FoldRows { rows: &self.rows, next_row: start_row as usize }
    }

    /// The text between two offsets, cut and styled as `styling` says.
    pub fn chunks<'a>(&'a self, range: Range<FoldOffset>, styling: &'a FoldStyling) -> (chunks:
        FoldChunks<'a>)
        requires
            fold_wf(self@),
            runs_wf(self@.text, styling.runs@),
            range.start@ <= range.end@,
            on_boundary(self@.text, range.start@),
            on_boundary(self@.text, range.end@),
        ensures
            chunks.inv(),
            chunks.text_bytes() == self@.text,
            chunks.runs@ == styling.runs@,
            chunks.position == range.start@,
            chunks.end == range.end@,
    {
        let mut chunks = FoldChunks {
            text: self.text.as_str(),
            runs: &styling.runs,
            index: 0,
            run_offset: 0,
            position: 0,
            end: 0,
        };
        chunks.seek(range);
        chunks
    }
}

/// A walk over rows.
#[derive(Copy, Clone)]
pub struct FoldRows<'a> {
    pub rows: &'a Vec<RowInfo>,
    pub next_row: usize,
}

impl<'a> FoldRows<'a> {
    /// Makes `row` the next one.
    pub fn seek(&mut self, row: u32)
        ensures
            final(self).rows == old(self).rows,
            final(self).next_row == row,
    {
        self.next_row = row as usize;
    }

    /// The next row, if there is one.
    pub fn next(&mut self) -> (row: Option<RowInfo>)
        ensures
            final(self).rows == old(self).rows,
            old(self).next_row < old(self).rows@.len() ==> {
                &&& row == Some(old(self).rows@[old(self).next_row as int])
                &&& final(self).next_row == old(self).next_row + 1
            },
            old(self).next_row >= old(self).rows@.len() ==> row is None && *final(self) == *old(
                self,
            ),
    {
        if self.next_row < self.rows.len() {
            let row = self.rows[self.next_row];
            self.next_row = self.next_row + 1;
            Some(row)
        } else {
            None
        }
    }
}

/// A walk over styled text.
#[derive(Copy, Clone)]
pub struct FoldChunks<'a> {
    pub text: &'a str,
    pub runs: &'a Vec<Run>,
    /// The run that covers the position.
    pub index: usize,
    /// Where that run starts.
    pub run_offset: usize,
    /// Where the next chunk starts.
    pub position: usize,
    /// Where the last chunk ends.
    pub end: usize,
}

impl<'a> FoldChunks<'a> {
    pub open spec fn text_bytes(self) -> Seq<u8> {
        encode_utf8(self.text@)
    }

    pub open spec fn inv(self) -> bool {
        &&& runs_wf(self.text_bytes(), self.runs@)
        &&& self.text_bytes().len() <= MAX_LEN
        &&& self.index == run_at(self.runs@, self.position as int, 0)
        &&& self.index <= self.runs@.len()
        &&& self.run_offset == run_start(self.runs@, self.index as int)
        &&& self.run_offset <= self.position <= self.end
        &&& on_boundary(self.text_bytes(), self.position as int)
        &&& on_boundary(self.text_bytes(), self.end as int)
    }

    /// Makes `range` what is left to walk over.
    pub fn seek(&mut self, range: Range<FoldOffset>)
        requires
            runs_wf(old(self).text_bytes(), old(self).runs@),
            old(self).text_bytes().len() <= MAX_LEN,
            range.start@ <= range.end@,
            on_boundary(old(self).text_bytes(), range.start@),
            on_boundary(old(self).text_bytes(), range.end@),
        ensures
            final(self).inv(),
            final(self).text == old(self).text,
            final(self).runs == old(self).runs,
            final(self).position == range.start@,
            final(self).end == range.end@,
    {
        let start = range.start.0.0;
        self.position = start;
        self.end = range.end.0.0;
        self.index = 0;
        self.run_offset = 0;
        while self.index < self.runs.len() && self.run_offset + self.runs[self.index].len <= start
            invariant
                self.text == old(self).text,
                self.runs == old(self).runs,
                self.position == start == range.start@,
                self.end == range.end@,
                runs_wf(self.text_bytes(), self.runs@),
                self.text_bytes().len() <= MAX_LEN,
                self.index <= self.runs@.len(),
                self.run_offset == run_start(self.runs@, self.index as int),
                self.run_offset <= start <= self.text_bytes().len(),
                run_at(self.runs@, start as int, 0) == run_at(
                    self.runs@,
                    start as int,
                    self.index as int,
                ),
            decreases self.runs@.len() - self.index,
        {
            let run = self.runs[self.index];
            self.run_offset = self.run_offset + run.len;
            self.index = self.index + 1;
        }
    }

    /// The next chunk: the text up to the end of its run or of the range.
    pub fn next(&mut self) -> (chunk: Option<Chunk<'a>>)
        requires
            old(self).inv(),
        ensures
            final(self).inv(),
            final(self).text == old(self).text,
            final(self).runs == old(self).runs,
            final(self).end == old(self).end,
            chunk is Some <==> old(self).position < old(self).end,
            chunk is None ==> *final(self) == *old(self),
            chunk matches Some(chunk) ==> {
                &&& final(self).position == chunk_end(
                    old(self).runs@,
                    old(self).position as int,
                    old(self).end as int,
                )
                &&& chunk@ == drawn_at(
                    old(self).text_bytes(),
                    old(self).runs@,
                    old(self).position as int,
                    final(self).position as int,
                )
                &&& old(self).position < final(self).position <= old(self).position + 128
            },
    {
        if self.position >= self.end {
            return None;
        }
        let ghost text = self.text_bytes();
        let ghost runs = self.runs@;
        proof {
            encode_utf8_valid_utf8(self.text@);
            lemma_run_at(text, runs, self.position as int, 0);
        }
        let run = self.runs[self.index];
        assert(self.index < self.runs.len());
        let run_end = self.run_offset + run.len;
        let stop = if run_end < self.end {
            run_end
        } else {
            self.end
        };
        let from = self.position - self.run_offset;
        let len = stop - self.position;
        assert(on_boundary(text, run_start(runs, self.index + 1)));
        let piece = slice(self.text, self.position, stop);
        let chunk = Chunk {
            text: piece,
            tabs: clip(run.tabs, from, len),
            chars: clip(run.chars, from, len),
            newlines: clip(run.newlines, from, len),
            syntax_highlight_id: run.syntax_highlight_id,
            highlight_style: run.highlight_style,
            diagnostic_severity: run.diagnostic_severity,
            is_unnecessary: run.is_unnecessary,
            is_tab: run.is_tab,
            is_inlay: run.is_inlay,
            underline: run.underline,
            renderer: run.renderer,
        };
        proof {
            lemma_run_at_moves(text, runs, self.position as int, stop as int);
        }
        self.position = stop;
        if stop == run_end {
            self.run_offset = run_end;
            self.index = self.index + 1;
        }
        Some(chunk)
    }
}

/// Where a chunk that starts at `start` ends, if the walk ends at `end`.
pub open spec fn chunk_end(runs: Seq<Run>, start: int, end: int) -> int {
    if run_end_at(runs, start) < end {
        run_end_at(runs, start)
    } else {
        end
    }
}

/// The run found at `offset` covers it.
pub proof fn lemma_run_at(text: Seq<u8>, runs: Seq<Run>, offset: int, k: int)
    requires
        runs_wf(text, runs),
        0 <= k <= runs.len(),
        run_start(runs, k) <= offset < text.len(),
    ensures
        k <= run_at(runs, offset, k) < runs.len(),
        run_start(runs, run_at(runs, offset, k)) <= offset < run_start(
            runs,
            run_at(runs, offset, k) + 1,
        ),
    decreases runs.len() - k,
{
    if k < runs.len() && offset >= run_start(runs, k + 1) {
        lemma_run_at(text, runs, offset, k + 1);
    }
}

/// The run that covers `offset` is the one whose bounds hold it.
pub proof fn lemma_run_at_unique(text: Seq<u8>, runs: Seq<Run>, offset: int, k: int, j: int)
    requires
        runs_wf(text, runs),
        0 <= k <= j < runs.len(),
        run_start(runs, j) <= offset < run_start(runs, j + 1),
    ensures
        run_at(runs, offset, k) == j,
    decreases j - k,
{
    if k < j {
        lemma_run_start_order(text, runs, k + 1, j);
        lemma_run_at_unique(text, runs, offset, k + 1, j);
    }
}

proof fn lemma_run_start_order(text: Seq<u8>, runs: Seq<Run>, i: int, j: int)
    requires
        runs_wf(text, runs),
        0 <= i <= j <= runs.len(),
    ensures
        run_start(runs, i) <= run_start(runs, j),
    decreases j - i,
{
    if i < j {
        lemma_run_start_order(text, runs, i, j - 1);
    }
}

/// Past the last run no run is found.
proof fn lemma_run_at_end(text: Seq<u8>, runs: Seq<Run>, k: int)
    requires
        runs_wf(text, runs),
        0 <= k <= runs.len(),
    ensures
        run_at(runs, text.len() as int, k) == runs.len(),
    decreases runs.len() - k,
{
    if k < runs.len() {
        lemma_run_start_order(text, runs, k + 1, runs.len() as int);
        lemma_run_at_end(text, runs, k + 1);
    }
}

proof fn lemma_run_at_moves(text: Seq<u8>, runs: Seq<Run>, offset: int, stop: int)
    requires
        runs_wf(text, runs),
        0 <= offset < text.len(),
        offset < stop <= run_end_at(runs, offset),
    ensures
        run_at(runs, stop, 0) == if stop == run_end_at(runs, offset) {
            run_at(runs, offset, 0) + 1
        } else {
            run_at(runs, offset, 0)
        },
{
    lemma_run_at(text, runs, offset, 0);
    let k = run_at(runs, offset, 0);
    if stop < run_end_at(runs, offset) {
        lemma_run_at_unique(text, runs, stop, 0, k);
    } else if k + 1 < runs.len() {
        lemma_run_at_unique(text, runs, stop, 0, k + 1);
    } else {
        lemma_run_at_end(text, runs, 0);
    }
}

/// The bytes of `text` from `start` to `end`.
pub fn slice<'a>(text: &'a str, start: usize, end: usize) -> (part: &'a str)
    requires
        start <= end,
        on_boundary(encode_utf8(text@), start as int),
        on_boundary(encode_utf8(text@), end as int),
    ensures
        encode_utf8(part@) == encode_utf8(text@).subrange(start as int, end as int),
{
    let ghost bytes = encode_utf8(text@);
    proof {
        encode_utf8_valid_utf8(text@);
    }
    let (head, _) = text.split_at(end);
    proof {
        lemma_boundary_of_head(bytes, start as int, end as int);
    }
    let (_, part) = head.split_at(start);
    assert(encode_utf8(part@) =~= bytes.subrange(start as int, end as int));
    part
}

/// A character boundary of a text is one of the text up to a later boundary.
pub proof fn lemma_boundary_of_head(bytes: Seq<u8>, i: int, end: int)
    requires
        valid_utf8(bytes),
        on_boundary(bytes, i),
        on_boundary(bytes, end),
        i <= end,
    ensures
        valid_utf8(bytes.subrange(0, end)),
        is_char_boundary(bytes.subrange(0, end), i),
{
    let head = bytes.subrange(0, end);
    valid_utf8_split(bytes, end);
    is_char_boundary_start_end_of_seq(head);
    if i < end {
        is_char_boundary_iff_not_is_continuation_byte(bytes, i);
        is_char_boundary_iff_not_is_continuation_byte(head, i);
    }
}

/// A character boundary of a text, seen from an earlier boundary.
pub proof fn lemma_boundary_of_part(bytes: Seq<u8>, start: int, end: int, i: int)
    requires
        valid_utf8(bytes),
        on_boundary(bytes, start),
        on_boundary(bytes, end),
        start <= i <= end,
    ensures
        valid_utf8(bytes.subrange(start, end)),
        is_char_boundary(bytes.subrange(start, end), i - start) == is_char_boundary(bytes, i),
{
    let head = bytes.subrange(0, end);
    let part = bytes.subrange(start, end);
    lemma_boundary_of_head(bytes, start, end);
    valid_utf8_split(head, start);
    assert(head.subrange(start, end) =~= part);
    is_char_boundary_start_end_of_seq(part);
    if i < end {
        is_char_boundary_iff_not_is_continuation_byte(bytes, i);
        is_char_boundary_iff_not_is_continuation_byte(part, i - start);
    }
}

} // verus!

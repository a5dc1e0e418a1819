//! A walk over the displayed text in styled chunks.

use crate::bits::{bit_set, clip, clip_bits, law_clip_bits, lemma_clip_bit, lemma_clip_twice};
use crate::coords::{Bias, ConcealOffset, FoldOffset, MAX_LEN};
use crate::cursor::{SeekTarget, TransformCursor};
use crate::display::{displayed, lemma_same_piece, reflects};
use crate::fold::{
    chunk_end, clip_run, drawn_at, lemma_boundary_of_part, lemma_run_at, lemma_run_at_unique,
    on_boundary, run_at, run_end_at, run_start, runs_wf, slice, Chunk, Drawn, FoldChunks,
    FoldStyling, Run,
};
use crate::points::{lemma_piece_at_offset, piece_at};
use crate::reading::{
    aligned, between_shown, between_walked, law_walk_starts, lemma_walk_over, rest, walked,
};
use crate::snapshot::{snapshot_wf, ConcealSnapshot};
use crate::text::lemma_summary_wf;
use crate::transform::{
    in_len, in_start, lemma_output_wf, lemma_seek, lemma_starts_order, lemma_swap_fits, out_start,
    pieces_wf, tidy, Piece, Target, Transforms,
};
use std::ops::Range;
use vstd::prelude::*;
use vstd::utf8::{encode_utf8, valid_utf8};

verus! {

/// What a walk over chunks has before it.
pub struct ChunksView {
    pub passthrough: bool,
    pub pieces: Seq<Piece>,
    /// The text below.
    pub text: Seq<u8>,
    /// How it is cut and styled.
    pub runs: Seq<Run>,
    /// The piece where the walk stands.
    pub at: int,
    /// Where the walk stands in the text below.
    pub fold_offset: int,
    /// Where the walk ends in the text below.
    pub fold_end: int,
    /// Where the walk stands in the displayed text.
    pub output_offset: int,
    /// Where the walk ends in the displayed text.
    pub output_end: int,
}

/// Where a walk that starts at `offset` of the displayed text starts in the text below.
pub open spec fn fold_start_of(ps: Seq<Piece>, offset: int) -> int {
    let k = piece_at(ps, Target::ConcealOffset(offset));
    in_start(ps, k) + (offset - out_start(ps, k))
}

/// Where a walk that ends at `offset` of the displayed text ends in the text below:
/// behind what is replaced, if it ends at a replacement.
pub open spec fn fold_end_of(ps: Seq<Piece>, offset: int) -> int {
    let k = piece_at(ps, Target::ConcealOffset(offset));
    if k >= ps.len() {
        in_len(ps)
    } else if ps[k] is Swap {
        in_start(ps, k + 1)
    } else {
        in_start(ps, k) + (offset - out_start(ps, k))
    }
}

/// A walk over `start` to `end` of the displayed text.
pub open spec fn chunks_over(
    passthrough: bool,
    ps: Seq<Piece>,
    text: Seq<u8>,
    runs: Seq<Run>,
    start: int,
    end: int,
) -> ChunksView {
    ChunksView {
        passthrough,
        pieces: ps,
        text,
        runs,
        at: if passthrough {
            0
        } else {
            piece_at(ps, Target::ConcealOffset(start))
        },
        fold_offset: if passthrough {
            start
        } else {
            fold_start_of(ps, start)
        },
        fold_end: if passthrough {
            end
        } else {
            fold_end_of(ps, end)
        },
        output_offset: start,
        output_end: end,
    }
}

/// The walk is over a range that cuts no character of the text below and, if it
/// starts within a replacement, starts within what is replaced.
pub open spec fn can_walk(
    passthrough: bool,
    ps: Seq<Piece>,
    text: Seq<u8>,
    start: int,
    end: int,
) -> bool {
    let k = piece_at(ps, Target::ConcealOffset(start));
    if passthrough {
        start <= end && on_boundary(text, start) && on_boundary(text, end)
    } else {
        &&& start <= end
        &&& k < ps.len() ==> fold_start_of(ps, start) <= in_start(ps, k + 1)
        &&& on_boundary(text, fold_start_of(ps, start))
        &&& on_boundary(text, fold_end_of(ps, end))
    }
}

/// Nothing but a length.
pub open spec fn bare_run(len: int) -> Run {
    Run {
        len: len as usize,
        tabs: 0,
        chars: 0,
        newlines: 0,
        syntax_highlight_id: None,
        highlight_style: None,
        diagnostic_severity: None,
        is_unnecessary: false,
        is_tab: false,
        is_inlay: false,
        underline: false,
        renderer: None,
    }
}

/// A replacement, styled like the text below where the walk stands.
pub open spec fn swap_drawn(v: ChunksView, shown: Seq<u8>) -> Drawn {
    let bare = bare_run(shown.len() as int);
    if v.fold_offset < v.fold_end {
        let run = v.runs[run_at(v.runs, v.fold_offset, 0)];
        Drawn {
            text: shown,
            run: Run {
                syntax_highlight_id: run.syntax_highlight_id,
                highlight_style: run.highlight_style,
                diagnostic_severity: run.diagnostic_severity,
                is_unnecessary: run.is_unnecessary,
                underline: run.underline,
                ..bare
            },
        }
    } else {
        Drawn { text: shown, run: bare }
    }
}

/// Where a chunk of the text below ends: with its run, with the walk or with its piece.
pub open spec fn same_end(v: ChunksView) -> int {
    let end = chunk_end(v.runs, v.fold_offset, v.fold_end);
    if end < in_start(v.pieces, v.at + 1) {
        end
    } else {
        in_start(v.pieces, v.at + 1)
    }
}

/// What a walk gives next.
pub open spec fn next_drawn(v: ChunksView) -> Option<Drawn> {
    if v.passthrough {
        if v.fold_offset < v.fold_end {
            Some(
                drawn_at(
                    v.text,
                    v.runs,
                    v.fold_offset,
                    chunk_end(v.runs, v.fold_offset, v.fold_end),
                ),
            )
        } else {
            None
        }
    } else if v.output_offset >= v.output_end || v.at >= v.pieces.len() {
        None
    } else {
        match v.pieces[v.at] {
            Piece::Swap { text, .. } => Some(swap_drawn(v, text)),
            Piece::Same(_) => if v.fold_offset < v.fold_end {
                Some(drawn_at(v.text, v.runs, v.fold_offset, same_end(v)))
            } else {
                None
            },
        }
    }
}

/// A walk one chunk on.
pub open spec fn chunks_step(v: ChunksView) -> ChunksView {
    if next_drawn(v) is None {
        v
    } else if v.passthrough {
        ChunksView { fold_offset: chunk_end(v.runs, v.fold_offset, v.fold_end), ..v }
    } else {
        match v.pieces[v.at] {
            Piece::Swap { text, .. } => ChunksView {
                at: v.at + 1,
                fold_offset: in_start(v.pieces, v.at + 1),
                output_offset: v.output_offset + text.len(),
                ..v
            },
            Piece::Same(_) => ChunksView {
                at: if same_end(v) == in_start(v.pieces, v.at + 1) {
                    v.at + 1
                } else {
                    v.at
                },
                fold_offset: same_end(v),
                output_offset: v.output_offset + (same_end(v) - v.fold_offset),
                ..v
            },
        }
    }
}

/// How far the pieces before where the walk stands reach in the displayed text.
pub open spec fn output_reached(v: ChunksView) -> int {
    out_start(v.pieces, v.at) + if v.at < v.pieces.len() && v.pieces[v.at] is Same {
        v.fold_offset - in_start(v.pieces, v.at)
    } else {
        0
    }
}

/// What holds of a walk over chunks.
pub open spec fn chunks_wf(v: ChunksView) -> bool {
    &&& valid_utf8(v.text)
    &&& v.text.len() <= MAX_LEN
    &&& runs_wf(v.text, v.runs)
    &&& v.fold_offset <= v.fold_end
    &&& on_boundary(v.text, v.fold_offset)
    &&& on_boundary(v.text, v.fold_end)
    &&& pieces_wf(v.pieces)
    &&& reflects(v.pieces, v.text)
    &&& tidy(v.pieces)
    &&& 0 <= v.at <= v.pieces.len()
    &&& v.passthrough ==> v.at == 0
    &&& !v.passthrough ==> {
        &&& v.fold_end == fold_end_of(v.pieces, v.output_end)
        &&& 0 <= v.output_end
        &&& in_start(v.pieces, v.at) <= v.fold_offset
        &&& v.at < v.pieces.len() ==> v.fold_offset <= in_start(v.pieces, v.at + 1)
        &&& v.at < v.pieces.len() && v.pieces[v.at] is Same ==> v.fold_offset < in_start(
            v.pieces,
            v.at + 1,
        )
        &&& output_reached(v) <= v.output_offset <= output_reached(v) + MAX_LEN
    }
}

/// A replacement before the end of a walk replaces nothing behind that end.
pub proof fn lemma_swap_within(v: ChunksView)
    requires
        chunks_wf(v),
        !v.passthrough,
        v.output_offset < v.output_end,
        v.at < v.pieces.len(),
        v.pieces[v.at] is Swap,
    ensures
        in_start(v.pieces, v.at + 1) <= v.fold_end,
{
    let ps = v.pieces;
    let j = piece_at(ps, Target::ConcealOffset(v.output_end));
    lemma_piece_at_offset(ps, v.text, v.output_end);
    if v.at > j {
        lemma_starts_order(ps, j + 1, v.at);
    }
    if j >= ps.len() {
        lemma_starts_order(ps, v.at + 1, ps.len() as int);
    } else if v.at < j {
        lemma_starts_order(ps, v.at + 1, j);
    }
}

/// A walk one chunk on keeps what holds of walks.
pub proof fn lemma_chunks_step(v: ChunksView)
    requires
        chunks_wf(v),
    ensures
        chunks_wf(chunks_step(v)),
        !v.passthrough ==> chunks_step(v).output_offset <= 2 * MAX_LEN,
        next_drawn(v) is Some ==> {
            &&& v.at <= chunks_step(v).at
            &&& v.fold_offset <= chunks_step(v).fold_offset
            &&& v.at < chunks_step(v).at || v.fold_offset < chunks_step(v).fold_offset
        },
{
    let w = chunks_step(v);
    let ps = v.pieces;
    if !v.passthrough {
        lemma_starts_order(ps, v.at, ps.len() as int);
        if v.at < ps.len() {
            lemma_starts_order(ps, v.at + 1, ps.len() as int);
            if ps[v.at] is Same {
                lemma_same_piece(ps, v.text, v.at, in_start(ps, v.at + 1));
            }
        }
    }
    if next_drawn(v) is Some {
        if v.fold_offset < v.fold_end {
            lemma_run_at(v.text, v.runs, v.fold_offset, 0);
            assert(on_boundary(
                v.text,
                run_start(v.runs, run_at(v.runs, v.fold_offset, 0) + 1),
            ));
        }
        if !v.passthrough {
            assert(on_boundary(v.text, in_start(ps, v.at + 1)));
            lemma_starts_order(ps, v.at, v.at + 1);
            lemma_output_wf(ps, v.at);
            if ps[v.at] is Swap {
                lemma_swap_within(v);
                lemma_summary_wf(ps[v.at]->text);
            } else {
                lemma_same_piece(ps, v.text, v.at, in_start(ps, v.at + 1));
            }
            lemma_starts_order(ps, w.at, ps.len() as int);
            if w.at < ps.len() {
                lemma_starts_order(ps, w.at, w.at + 1);
                lemma_starts_order(ps, w.at + 1, ps.len() as int);
                if ps[w.at] is Same {
                    lemma_same_piece(ps, v.text, w.at, in_start(ps, w.at + 1));
                }
            }
        }
    }
}

/// What holds of walks holds of a walk that starts.
pub proof fn lemma_chunks_over(
    passthrough: bool,
    ps: Seq<Piece>,
    text: Seq<u8>,
    runs: Seq<Run>,
    start: int,
    end: int,
)
    requires
        valid_utf8(text),
        text.len() <= MAX_LEN,
        runs_wf(text, runs),
        pieces_wf(ps),
        reflects(ps, text),
        tidy(ps),
        0 <= start,
        can_walk(passthrough, ps, text, start, end),
    ensures
        chunks_wf(chunks_over(passthrough, ps, text, runs, start, end)),
{
    let i = piece_at(ps, Target::ConcealOffset(start));
    let j = piece_at(ps, Target::ConcealOffset(end));
    let n = ps.len() as int;
    lemma_piece_at_offset(ps, text, start);
    lemma_piece_at_offset(ps, text, end);
    if j < i {
        lemma_starts_order(ps, j + 1, i);
    } else {
        lemma_starts_order(ps, i, j);
    }
    if i < n {
        lemma_starts_order(ps, i, i + 1);
        lemma_starts_order(ps, i + 1, n);
        if ps[i] is Same {
            lemma_same_piece(ps, text, i, in_start(ps, i + 1));
        }
        if i < j {
            lemma_starts_order(ps, i + 1, j);
        }
    }
    lemma_starts_order(ps, 0, i);
}

/// A part of a chunk of the text below is drawn like the text itself.
proof fn lemma_part_of_chunk(v: ChunksView, start: int, stop: int, end: int)
    requires
        chunks_wf(v),
        on_boundary(v.text, start),
        on_boundary(v.text, stop),
        on_boundary(v.text, end),
        start <= v.fold_offset < end <= stop,
        stop <= run_end_at(v.runs, start),
        stop <= v.text.len(),
    ensures
        ({
            let below = drawn_at(v.text, v.runs, start, stop);
            let from = v.fold_offset - start;
            &&& stop - start <= 128
            &&& run_end_at(v.runs, v.fold_offset) == run_end_at(v.runs, start)
            &&& below.text.len() == stop - start
            &&& valid_utf8(below.text)
            &&& on_boundary(below.text, from)
            &&& on_boundary(below.text, end - start)
            &&& drawn_at(v.text, v.runs, v.fold_offset, end) == (Drawn {
                text: below.text.subrange(from, end - start),
                run: clip_run(below.run, from, end - v.fold_offset),
            })
        }),
{
    let k = run_at(v.runs, start, 0);
    lemma_run_at(v.text, v.runs, start, 0);
    lemma_run_at_unique(v.text, v.runs, v.fold_offset, 0, k);
    lemma_boundary_of_part(v.text, start, stop, v.fold_offset);
    lemma_boundary_of_part(v.text, start, stop, end);
    let below = drawn_at(v.text, v.runs, start, stop);
    let from = v.fold_offset - start;
    let len = end - v.fold_offset;
    assert(below.text.subrange(from, end - start) =~= v.text.subrange(v.fold_offset, end));
    let run = v.runs[k];
    let skip = start - run_start(v.runs, k);
    lemma_clip_twice(run.tabs, skip, stop - start, from, len);
    lemma_clip_twice(run.chars, skip, stop - start, from, len);
    lemma_clip_twice(run.newlines, skip, stop - start, from, len);
}

/// A walk over the displayed text in styled chunks.
#[derive(Copy, Clone)]
pub struct ConcealChunks<'a> {
    passthrough: bool,
    transforms: &'a Transforms,
    transform_cursor: TransformCursor<'a>,
    fold_chunks: FoldChunks<'a>,
    fold_chunk: Option<(FoldOffset, Chunk<'a>)>,
    fold_offset: FoldOffset,
    output_offset: ConcealOffset,
    max_output_offset: ConcealOffset,
    max_fold_offset: FoldOffset,
}

impl<'a> View for ConcealChunks<'a> {
    type V = ChunksView;

    closed spec fn view(&self) -> ChunksView {
        ChunksView {
            passthrough: self.passthrough,
            pieces: self.transforms@,
            text: self.fold_chunks.text_bytes(),
            runs: self.fold_chunks.runs@,
            at: self.transform_cursor.at(),
            fold_offset: if self.passthrough {
                self.fold_chunks.position as int
            } else {
                self.fold_offset@
            },
            fold_end: self.fold_chunks.end as int,
            output_offset: self.output_offset@,
            output_end: self.max_output_offset@,
        }
    }
}

/// A chunk read ahead starts no later than where the walk stands and ends behind it.
spec fn read_ahead(
    v: ChunksView,
    position: int,
    chunk: Option<(FoldOffset, Chunk<'_>)>,
) -> bool {
    match chunk {
        None => position == v.fold_offset,
        Some((start, chunk)) => {
            &&& on_boundary(v.text, start@)
            &&& start@ <= v.fold_offset < position <= v.fold_end
            &&& position == chunk_end(v.runs, start@, v.fold_end)
            &&& chunk@ == drawn_at(v.text, v.runs, start@, position)
        },
    }
}

impl<'a> ConcealChunks<'a> {
    pub closed spec fn inv(self) -> bool {
        &&& chunks_wf(self@)
        &&& self.transforms.inv()
        &&& self.transform_cursor.inv()
        &&& self.transform_cursor.pieces() == self.transforms@
        &&& self.fold_chunks.inv()
        &&& self.max_fold_offset@ == self.fold_chunks.end
        &&& self.passthrough ==> self.fold_chunk is None
        &&& !self.passthrough ==> read_ahead(
            self@,
            self.fold_chunks.position as int,
            self.fold_chunk,
        )
    }

    pub proof fn lemma_inv(self)
        requires
            self.inv(),
        ensures
            chunks_wf(self@),
    {
    }

    /// Makes `range` what is left to walk over.
    pub fn seek(&mut self, range: Range<ConcealOffset>)
        requires
            old(self).inv(),
            can_walk(
                old(self)@.passthrough,
                old(self)@.pieces,
                old(self)@.text,
                range.start@,
                range.end@,
            ),
        ensures
            final(self).inv(),
            final(self)@ == chunks_over(
                old(self)@.passthrough,
                old(self)@.pieces,
                old(self)@.text,
                old(self)@.runs,
                range.start@,
                range.end@,
            ),
            between_walked(old(self)@, range.start@) && between_walked(old(self)@, range.end@)
                ==> aligned(final(self)@) && rest(final(self)@) == walked(old(self)@).subrange(
                range.start@,
                range.end@,
            ),
    {
        let ghost v = self@;
        let ghost ps = v.pieces;
        proof {
            lemma_chunks_over(v.passthrough, ps, v.text, v.runs, range.start@, range.end@);
            if between_walked(v, range.start@) && between_walked(v, range.end@) {
                lemma_walk_over(v.passthrough, ps, v.text, v.runs, range.start@, range.end@);
            }
            lemma_seek(ps, Target::ConcealOffset(range.start@), Bias::Right, 0);
            lemma_seek(ps, Target::ConcealOffset(range.end@), Bias::Right, 0);
        }
        if self.passthrough {
            let fold_end = FoldOffset(range.end.0);
            self.fold_chunks.seek(FoldOffset(range.start.0)..fold_end);
            self.output_offset = range.start;
            self.max_output_offset = range.end;
            self.max_fold_offset = fold_end;
            return;
        }
        self.transform_cursor.seek(SeekTarget::ConcealOffset(range.start), Bias::Right);
        let fold_start = fold_start(&self.transform_cursor, range.start);
        let mut end_cursor = TransformCursor::new(self.transforms);
        end_cursor.seek(SeekTarget::ConcealOffset(range.end), Bias::Right);
        self.max_fold_offset = fold_end(&end_cursor, range.end, self.transforms.input_len());
        self.fold_chunks.seek(fold_start..self.max_fold_offset);
        self.fold_chunk = None;
        self.fold_offset = fold_start;
        self.output_offset = range.start;
        self.max_output_offset = range.end;
    }
}

impl<'a> ConcealChunks<'a> {
    /// The next chunk, if there is one.
    pub fn next(&mut self) -> (chunk: Option<Chunk<'a>>)
        requires
            old(self).inv(),
        ensures
            final(self).inv(),
            final(self)@ == chunks_step(old(self)@),
            chunk is Some <==> next_drawn(old(self)@) is Some,
            chunk matches Some(chunk) ==> Some(chunk@) == next_drawn(old(self)@),
    {
        proof {
            lemma_chunks_step(self@);
        }
        if self.passthrough {
            return self.fold_chunks.next();
        }
        if self.output_offset.0.0 >= self.max_output_offset.0.0 {
            return None;
        }
        let transform = match self.transform_cursor.item() {
            Some(transform) => transform,
            None => return None,
        };
        match transform.replacement_text() {
            Some(text) => Some(self.next_replacement(text)),
            None => self.next_unreplaced(),
        }
    }

    /// The chunk of the text below where the walk stands, if there is one: it is
    /// read ahead unless it has been before.
    fn peek_chunk(&mut self)
        requires
            old(self).inv(),
            !old(self).passthrough,
        ensures
            final(self).inv(),
            final(self)@ == old(self)@,
            !final(self).passthrough,
            final(self).fold_chunk is Some <==> final(self)@.fold_offset < final(self)@.fold_end,
    {
        if self.fold_chunk.is_none() {
            let offset = self.fold_offset;
            let ghost from = self.fold_chunks.position as int;
            self.fold_chunk = match self.fold_chunks.next() {
                Some(chunk) => Some((offset, chunk)),
                None => None,
            };
        }
    }

    /// The chunk of a replacement.
    fn next_replacement(&mut self, text: &'a str) -> (chunk: Chunk<'a>)
        requires
            old(self).inv(),
            !old(self)@.passthrough,
            old(self)@.output_offset < old(self)@.output_end,
            old(self)@.at < old(self)@.pieces.len(),
            old(self)@.pieces[old(self)@.at] is Swap,
            old(self)@.pieces[old(self)@.at]->text == encode_utf8(text@),
        ensures
            final(self).inv(),
            final(self)@ == chunks_step(old(self)@),
            chunk@ == swap_drawn(old(self)@, encode_utf8(text@)),
    {
        let ghost v = self@;
        let ghost ps = v.pieces;
        proof {
            lemma_chunks_step(v);
            lemma_swap_within(v);
            lemma_swap_fits(ps, v.at);
        }
        let conceal_fold_end = self.transform_cursor.end().fold_offset;
        self.peek_chunk();
        let mut chunk = Chunk {
            text,
            tabs: 0,
            chars: 0,
            newlines: 0,
            syntax_highlight_id: None,
            highlight_style: None,
            diagnostic_severity: None,
            is_unnecessary: false,
            is_tab: false,
            is_inlay: false,
            underline: false,
            renderer: None,
        };
        let mut fold_consumed = self.fold_offset;
        if let Some((start, below)) = self.fold_chunk {
            proof {
                lemma_run_at(v.text, v.runs, start@, 0);
                lemma_run_at_unique(
                    v.text,
                    v.runs,
                    v.fold_offset,
                    0,
                    run_at(v.runs, start@, 0),
                );
            }
            chunk.syntax_highlight_id = below.syntax_highlight_id;
            chunk.highlight_style = below.highlight_style;
            chunk.diagnostic_severity = below.diagnostic_severity;
            chunk.is_unnecessary = below.is_unnecessary;
            chunk.underline = below.underline;
            fold_consumed = FoldOffset::at(start.0.0 + below.text.as_bytes().len());
            if fold_consumed.0.0 <= conceal_fold_end.0.0 {
                self.fold_chunk = None;
            }
        }
        while fold_consumed.0.0 < conceal_fold_end.0.0
            invariant
                chunks_wf(v),
                !self.passthrough,
                !v.passthrough,
                self.transforms@ == v.pieces,
                self.transforms.inv(),
                self.transform_cursor.inv(),
                self.transform_cursor.pieces() == v.pieces,
                self.transform_cursor.at() == v.at,
                self.fold_chunks.inv(),
                self.fold_chunks.text_bytes() == v.text,
                self.fold_chunks.runs@ == v.runs,
                self.fold_chunks.end == v.fold_end == self.max_fold_offset@,
                self.output_offset@ == v.output_offset,
                self.max_output_offset@ == v.output_end,
                conceal_fold_end@ == in_start(v.pieces, v.at + 1) <= v.fold_end,
                fold_consumed@ == self.fold_chunks.position,
                fold_consumed@ <= conceal_fold_end@ ==> self.fold_chunk is None,
                fold_consumed@ > conceal_fold_end@ ==> read_ahead(
                    (ChunksView { fold_offset: conceal_fold_end@, ..v }),
                    fold_consumed@,
                    self.fold_chunk,
                ),
            decreases v.fold_end - fold_consumed@,
        {
            let chunk_start = fold_consumed;
            match self.fold_chunks.next() {
                Some(below) => {
                    fold_consumed = FoldOffset::at(fold_consumed.0.0 + below.text.as_bytes().len());
                    self.fold_chunk = if fold_consumed.0.0 > conceal_fold_end.0.0 {
                        Some((chunk_start, below))
                    } else {
                        None
                    };
                },
                None => {},
            }
        }
        self.fold_offset = conceal_fold_end;
        self.output_offset.add_assign(text.as_bytes().len());
        self.transform_cursor.next();
        chunk
    }

    /// The chunk of text that is not replaced, if there is one.
    #[verifier::rlimit(30)]
    fn next_unreplaced(&mut self) -> (chunk: Option<Chunk<'a>>)
        requires
            old(self).inv(),
            !old(self)@.passthrough,
            old(self)@.output_offset < old(self)@.output_end,
            old(self)@.at < old(self)@.pieces.len(),
            old(self)@.pieces[old(self)@.at] is Same,
        ensures
            final(self).inv(),
            final(self)@ == chunks_step(old(self)@),
            chunk is Some <==> next_drawn(old(self)@) is Some,
            chunk matches Some(chunk) ==> Some(chunk@) == next_drawn(old(self)@),
    {
        let ghost v = self@;
        let ghost ps = v.pieces;
        proof {
            lemma_chunks_step(v);
        }
        self.peek_chunk();
        let (chunk_start, below) = match self.fold_chunk {
            Some(read) => read,
            None => return None,
        };
        let chunk_end = FoldOffset::at(chunk_start.0.0 + below.text.as_bytes().len());
        let transform_end = self.transform_cursor.end().fold_offset;
        let end = if chunk_end.0.0 < transform_end.0.0 {
            chunk_end
        } else {
            transform_end
        };
        let bit_start: usize = self.fold_offset.0.0 - chunk_start.0.0;
        let bit_end: usize = end.0.0 - chunk_start.0.0;
        let len: usize = bit_end - bit_start;
        proof {
            lemma_part_of_chunk(v, chunk_start@, chunk_end@, end@);
        }
        let text = slice(below.text, bit_start, bit_end);
        let chunk = Chunk {
            text,
            tabs: clip(below.tabs, bit_start, len),
            chars: clip(below.chars, bit_start, len),
            newlines: clip(below.newlines, bit_start, len),
            syntax_highlight_id: below.syntax_highlight_id,
            highlight_style: below.highlight_style,
            diagnostic_severity: below.diagnostic_severity,
            is_unnecessary: below.is_unnecessary,
            is_tab: below.is_tab,
            is_inlay: below.is_inlay,
            underline: below.underline,
            renderer: below.renderer,
        };
        if end.0.0 == transform_end.0.0 {
            self.transform_cursor.next();
        }
        if end.0.0 == chunk_end.0.0 {
            self.fold_chunk = None;
        }
        self.fold_offset = end;
        self.output_offset.add_assign(len);
        Some(chunk)
    }
}

/// Where a walk starts in the text below, if it starts at `offset` in the piece
/// where `cursor` stands.
fn fold_start(cursor: &TransformCursor<'_>, offset: ConcealOffset) -> (start: FoldOffset)
    requires
        cursor.inv(),
        out_start(cursor.pieces(), cursor.at()) <= offset@,
        in_start(cursor.pieces(), cursor.at()) + (offset@ - out_start(
            cursor.pieces(),
            cursor.at(),
        )) <= usize::MAX,
    ensures
        start@ == in_start(cursor.pieces(), cursor.at()) + (offset@ - out_start(
            cursor.pieces(),
            cursor.at(),
        )),
{
    let start = cursor.start();
    let overshoot: usize = offset - start.conceal_offset;
    FoldOffset::at(start.fold_offset.0.0 + overshoot)
}

/// Where a walk ends in the text below, if it ends at `offset` in the piece where
/// `cursor` stands, or behind all pieces.
fn fold_end(cursor: &TransformCursor<'_>, offset: ConcealOffset, len: FoldOffset) -> (end:
    FoldOffset)
    requires
        cursor.inv(),
        out_start(cursor.pieces(), cursor.at()) <= offset@,
        cursor.at() < cursor.pieces().len() && cursor.pieces()[cursor.at()] is Same ==> in_start(
            cursor.pieces(),
            cursor.at(),
        ) + (offset@ - out_start(cursor.pieces(), cursor.at())) <= usize::MAX,
        len@ == in_len(cursor.pieces()),
    ensures
        cursor.at() >= cursor.pieces().len() ==> end@ == in_len(cursor.pieces()),
        cursor.at() < cursor.pieces().len() && cursor.pieces()[cursor.at()] is Swap ==> end@
            == in_start(cursor.pieces(), cursor.at() + 1),
        cursor.at() < cursor.pieces().len() && cursor.pieces()[cursor.at()] is Same ==> end@
            == in_start(cursor.pieces(), cursor.at()) + (offset@ - out_start(
            cursor.pieces(),
            cursor.at(),
        )),
{
    match cursor.item() {
        Some(transform) => if transform.is_concealment() {
            cursor.end().fold_offset
        } else {
            fold_start(cursor, offset)
        },
        None => len,
    }
}

impl ConcealSnapshot {
    /// A walk over a range of the displayed text, with the text below cut and
    /// styled as `styling` says.
    pub fn chunks<'a>(&'a self, range: Range<ConcealOffset>, styling: &'a FoldStyling) -> (chunks:
        ConcealChunks<'a>)
        requires
            self.inv(),
            snapshot_wf(self@),
            runs_wf(self@.fold.text, styling.runs@),
            can_walk(
                self@.passthrough,
                self@.pieces,
                self@.fold.text,
                range.start@,
                range.end@,
            ),
        ensures
            chunks.inv(),
            chunks@ == chunks_over(
                self@.passthrough,
                self@.pieces,
                self@.fold.text,
                styling.runs@,
                range.start@,
                range.end@,
            ),
            between_shown(self@, range.start@) && between_shown(self@, range.end@) ==> aligned(
                chunks@,
            ) && rest(chunks@) == self@.text().subrange(range.start@, range.end@),
    {
        let ghost v = self@;
        let ghost ps = v.pieces;
        proof {
            if between_shown(v, range.start@) && between_shown(v, range.end@) {
                law_walk_starts(v, styling.runs@, range.start@, range.end@);
            }
            lemma_chunks_over(
                v.passthrough,
                ps,
                v.fold.text,
                styling.runs@,
                range.start@,
                range.end@,
            );
            lemma_seek(ps, Target::ConcealOffset(range.start@), Bias::Right, 0);
            lemma_seek(ps, Target::ConcealOffset(range.end@), Bias::Right, 0);
        }
        let transforms = self.transforms();
        if self.passthrough() {
            let fold_start = FoldOffset(range.start.0);
            let fold_end = FoldOffset(range.end.0);
            return ConcealChunks {
                passthrough: true,
                transforms,
                transform_cursor: TransformCursor::new(transforms),
                fold_chunks: self.fold().chunks(fold_start..fold_end, styling),
                fold_chunk: None,
                fold_offset: fold_start,
                output_offset: range.start,
                max_output_offset: range.end,
                max_fold_offset: fold_end,
            };
        }
        let mut transform_cursor = TransformCursor::new(transforms);
        transform_cursor.seek(SeekTarget::ConcealOffset(range.start), Bias::Right);
        let fold_start = fold_start(&transform_cursor, range.start);
        let mut end_cursor = TransformCursor::new(transforms);
        end_cursor.seek(SeekTarget::ConcealOffset(range.end), Bias::Right);
        let max_fold_offset = fold_end(&end_cursor, range.end, self.fold().len());
        ConcealChunks {
            passthrough: false,
            transforms,
            transform_cursor,
            fold_chunks: self.fold().chunks(fold_start..max_fold_offset, styling),
            fold_chunk: None,
            fold_offset: fold_start,
            output_offset: range.start,
            max_output_offset: range.end,
            max_fold_offset,
        }
    }
}

/// The bits of a text are set for those of its bytes that pass a test.
pub open spec fn tells(bits: u128, text: Seq<u8>, test: spec_fn(u8) -> bool) -> bool {
    forall|i: int| 0 <= i < text.len() ==> (#[trigger] bit_set(bits, i) <==> test(text[i]))
}

/// The text of run `k`.
pub open spec fn run_text(text: Seq<u8>, runs: Seq<Run>, k: int) -> Seq<u8> {
    text.subrange(run_start(runs, k), run_start(runs, k + 1))
}

/// Tests for the bytes whose bits are set in a run.
pub struct BitTests {
    pub tabs: spec_fn(u8) -> bool,
    pub chars: spec_fn(u8) -> bool,
    pub newlines: spec_fn(u8) -> bool,
}

/// The bits of `run` are set for those bytes of `text` that pass the tests.
pub open spec fn run_tells(run: Run, text: Seq<u8>, tests: BitTests) -> bool {
    &&& tells(run.tabs, text, tests.tabs)
    &&& tells(run.chars, text, tests.chars)
    &&& tells(run.newlines, text, tests.newlines)
}

/// A part of a text has the bits of its bytes.
proof fn lemma_clip_tells(
    bits: u128,
    text: Seq<u8>,
    test: spec_fn(u8) -> bool,
    from: int,
    len: int,
)
    requires
        tells(bits, text, test),
        0 <= from,
        0 <= len,
        from + len <= text.len() <= 128,
    ensures
        tells(clip_bits(bits, from, len), text.subrange(from, from + len), test),
{
    let part = text.subrange(from, from + len);
    let clipped = clip_bits(bits, from, len);
    assert forall|i: int| 0 <= i < part.len() implies (#[trigger] bit_set(clipped, i) <==> test(
        part[i],
    )) by {
        lemma_clip_bit(bits, from, len, i);
        assert(bit_set(bits, from + i) <==> test(text[from + i]));
    }
}

/// A part of a run tells of its bytes what the run tells.
proof fn lemma_run_tells(run: Run, text: Seq<u8>, tests: BitTests, from: int, len: int)
    requires
        run_tells(run, text, tests),
        0 <= from,
        0 <= len,
        from + len <= text.len() <= 128,
    ensures
        run_tells(clip_run(run, from, len), text.subrange(from, from + len), tests),
        clip_run(run, from, len).len == len,
{
    lemma_clip_tells(run.tabs, text, tests.tabs, from, len);
    lemma_clip_tells(run.chars, text, tests.chars, from, len);
    lemma_clip_tells(run.newlines, text, tests.newlines, from, len);
}

/// A chunk that is not a replacement is drawn as a part of one run.
proof fn lemma_drawn_run(v: ChunksView)
    requires
        chunks_wf(v),
        next_drawn(v) is Some,
        v.passthrough || (v.at < v.pieces.len() && v.pieces[v.at] is Same),
    ensures
        ({
            let k = run_at(v.runs, v.fold_offset, 0);
            let from = v.fold_offset - run_start(v.runs, k);
            let len = chunks_step(v).fold_offset - v.fold_offset;
            let whole = run_text(v.text, v.runs, k);
            &&& 0 <= k < v.runs.len()
            &&& 0 <= from
            &&& 0 <= len
            &&& from + len <= whole.len() <= 128
            &&& next_drawn(v) == Some(
                Drawn {
                    text: whole.subrange(from, from + len),
                    run: clip_run(v.runs[k], from, len),
                },
            )
        }),
{
    let k = run_at(v.runs, v.fold_offset, 0);
    lemma_run_at(v.text, v.runs, v.fold_offset, 0);
    lemma_chunks_step(v);
    let end = chunks_step(v).fold_offset;
    let from = v.fold_offset - run_start(v.runs, k);
    let whole = run_text(v.text, v.runs, k);
    assert(on_boundary(v.text, run_start(v.runs, k)));
    assert(on_boundary(v.text, run_start(v.runs, k + 1)));
    assert(whole.subrange(from, from + (end - v.fold_offset)) =~= v.text.subrange(
        v.fold_offset,
        end,
    ));
}

/// Where the bits of the text below tell which of its bytes pass a test, so do
/// those of every chunk that is not a replacement.
pub proof fn law_chunk_bits(v: ChunksView, tests: BitTests)
    requires
        chunks_wf(v),
        forall|k: int|
            0 <= k < v.runs.len() ==> run_tells(
                #[trigger] v.runs[k],
                run_text(v.text, v.runs, k),
                tests,
            ),
        v.passthrough || (v.at < v.pieces.len() && v.pieces[v.at] is Same),
    ensures
        next_drawn(v) matches Some(drawn) ==> drawn.run.len == drawn.text.len() && run_tells(
            drawn.run,
            drawn.text,
            tests,
        ),
{
    if next_drawn(v) is Some {
        let k = run_at(v.runs, v.fold_offset, 0);
        let from = v.fold_offset - run_start(v.runs, k);
        let len = chunks_step(v).fold_offset - v.fold_offset;
        lemma_drawn_run(v);
        lemma_run_tells(v.runs[k], run_text(v.text, v.runs, k), tests, from, len);
    }
}

/// A walk comes to its end where the text below or the displayed text that it walks over
/// comes to its end.
pub proof fn law_walk_ends(v: ChunksView)
    ensures
        v.passthrough ==> (next_drawn(v) is Some <==> v.fold_offset < v.fold_end),
        !v.passthrough && (v.output_offset >= v.output_end || v.at >= v.pieces.len())
            ==> next_drawn(v) is None,
        !v.passthrough && v.output_offset < v.output_end && v.at < v.pieces.len()
            && v.pieces[v.at] is Same ==> (next_drawn(v) is Some <==> v.fold_offset < v.fold_end),
        !v.passthrough && v.output_offset < v.output_end && v.at < v.pieces.len()
            && v.pieces[v.at] is Swap ==> next_drawn(v) is Some,
        next_drawn(v) is None ==> chunks_step(v) == v,
{
}

/// A replacement comes as one chunk, with the style of the run of the text below that covers
/// the byte where the walk stands, and without its bits; the walk goes on behind what is
/// replaced.
pub proof fn law_swap_chunk(v: ChunksView, k: int)
    requires
        chunks_wf(v),
        !v.passthrough,
        v.output_offset < v.output_end,
        v.at < v.pieces.len(),
        v.pieces[v.at] is Swap,
        v.fold_offset < v.fold_end,
        0 <= k < v.runs.len(),
        run_start(v.runs, k) <= v.fold_offset < run_start(v.runs, k + 1),
    ensures
        next_drawn(v) matches Some(drawn) && {
            &&& drawn.text == v.pieces[v.at]->text
            &&& drawn.run.syntax_highlight_id == v.runs[k].syntax_highlight_id
            &&& drawn.run.highlight_style == v.runs[k].highlight_style
            &&& drawn.run.diagnostic_severity == v.runs[k].diagnostic_severity
            &&& drawn.run.is_unnecessary == v.runs[k].is_unnecessary
            &&& drawn.run.underline == v.runs[k].underline
            &&& drawn.run.tabs == 0
            &&& drawn.run.chars == 0
            &&& drawn.run.newlines == 0
            &&& !drawn.run.is_tab
            &&& !drawn.run.is_inlay
            &&& drawn.run.renderer is None
        },
        chunks_step(v).at == v.at + 1,
        chunks_step(v).fold_offset == in_start(v.pieces, v.at + 1),
        chunks_step(v).output_offset == v.output_offset + v.pieces[v.at]->text.len(),
{
    lemma_run_at_unique(v.text, v.runs, v.fold_offset, 0, k);
}

/// A replacement of nothing has no style.
pub proof fn law_swap_bare(v: ChunksView)
    requires
        !v.passthrough,
        v.output_offset < v.output_end,
        v.at < v.pieces.len(),
        v.pieces[v.at] is Swap,
        v.fold_offset >= v.fold_end,
    ensures
        next_drawn(v) matches Some(drawn) && {
            &&& drawn.text == v.pieces[v.at]->text
            &&& drawn.run.syntax_highlight_id is None
            &&& drawn.run.highlight_style is None
            &&& drawn.run.diagnostic_severity is None
            &&& !drawn.run.is_unnecessary
            &&& !drawn.run.underline
            &&& drawn.run.tabs == 0
            &&& drawn.run.chars == 0
            &&& drawn.run.newlines == 0
            &&& !drawn.run.is_tab
            &&& !drawn.run.is_inlay
            &&& drawn.run.renderer is None
        },
        chunks_step(v).at == v.at + 1,
        chunks_step(v).fold_offset == in_start(v.pieces, v.at + 1),
        chunks_step(v).output_offset == v.output_offset + v.pieces[v.at]->text.len(),
{
}

/// A walk stands in the text below, in run `k`, and the chunk there ends at `end`: with its
/// run, its piece or the walk, whichever ends first.
pub open spec fn same_chunk_ends(v: ChunksView, k: int, end: int) -> bool {
    &&& v.passthrough || (v.output_offset < v.output_end && v.at < v.pieces.len()
        && v.pieces[v.at] is Same)
    &&& v.fold_offset < v.fold_end
    &&& 0 <= k < v.runs.len()
    &&& run_start(v.runs, k) <= v.fold_offset < run_start(v.runs, k + 1)
    &&& end <= run_start(v.runs, k + 1)
    &&& end <= v.fold_end
    &&& !v.passthrough ==> end <= in_start(v.pieces, v.at + 1)
    &&& end == run_start(v.runs, k + 1) || end == v.fold_end || (!v.passthrough && end
        == in_start(v.pieces, v.at + 1))
}

/// A chunk of the text below starts where the walk stands and ends with its run, its piece or
/// the walk, whichever ends first. It is styled like its run, and the walk goes on behind it.
pub proof fn law_same_chunk(v: ChunksView, k: int, end: int)
    requires
        chunks_wf(v),
        same_chunk_ends(v, k, end),
    ensures
        next_drawn(v) matches Some(drawn) && {
            &&& drawn.text == v.text.subrange(v.fold_offset, end)
            &&& drawn.run.syntax_highlight_id == v.runs[k].syntax_highlight_id
            &&& drawn.run.highlight_style == v.runs[k].highlight_style
            &&& drawn.run.diagnostic_severity == v.runs[k].diagnostic_severity
            &&& drawn.run.is_unnecessary == v.runs[k].is_unnecessary
            &&& drawn.run.underline == v.runs[k].underline
            &&& drawn.run.is_tab == v.runs[k].is_tab
            &&& drawn.run.is_inlay == v.runs[k].is_inlay
            &&& drawn.run.renderer == v.runs[k].renderer
        },
        chunks_step(v).fold_offset == end,
        !v.passthrough ==> chunks_step(v).output_offset == v.output_offset + (end
            - v.fold_offset),
        !v.passthrough ==> chunks_step(v).at == if end == in_start(v.pieces, v.at + 1) {
            v.at + 1
        } else {
            v.at
        },
{
    lemma_run_at_unique(v.text, v.runs, v.fold_offset, 0, k);
}

/// A bit of a chunk of the text below is set if it stands for one of the bytes of the chunk
/// and the bit of that byte is set in the run.
pub proof fn law_same_bits(v: ChunksView, k: int, end: int, i: int)
    requires
        chunks_wf(v),
        same_chunk_ends(v, k, end),
        0 <= i < 128,
    ensures
        next_drawn(v) matches Some(drawn) && {
            let from = (v.fold_offset - run_start(v.runs, k) + i) as u128;
            let inside = i < end - v.fold_offset;
            let run = v.runs[k];
            &&& (drawn.run.tabs >> (i as u128)) & 1 == 1 <==> inside && (run.tabs >> from) & 1
                == 1
            &&& (drawn.run.chars >> (i as u128)) & 1 == 1 <==> inside && (run.chars >> from) & 1
                == 1
            &&& (drawn.run.newlines >> (i as u128)) & 1 == 1 <==> inside && (run.newlines
                >> from) & 1 == 1
        },
{
    lemma_run_at_unique(v.text, v.runs, v.fold_offset, 0, k);
    let from = v.fold_offset - run_start(v.runs, k);
    let len = end - v.fold_offset;
    let run = v.runs[k];
    assert(run.len <= 128);
    assert(run_start(v.runs, k + 1) == run_start(v.runs, k) + run.len);
    law_clip_bits(run.tabs, from, len, i);
    law_clip_bits(run.chars, from, len, i);
    law_clip_bits(run.newlines, from, len, i);
}

} // verus!

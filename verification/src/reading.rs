//! The displayed text, read in whole or in part.

use crate::chunks::{
    can_walk, chunks_over, chunks_step, chunks_wf, fold_start_of, law_swap_chunk, lemma_chunks_over,
    lemma_chunks_step, lemma_swap_within, next_drawn, output_reached, same_end, ChunksView,
    ConcealChunks,
};
use crate::coords::{ConcealOffset, ConcealPoint, FoldPoint, MBTextSummary, MAX_LEN};
use crate::display::{displayed, lemma_piece_starts, lemma_same_piece, lemma_shown_piece, reflects};
use crate::fold::{lemma_run_at, on_boundary, run_start, runs_wf, Chunk, Run};
use crate::points::{
    inside_swap, law_passthrough, lemma_piece_at_offset, lemma_rests, piece_at, rests,
    to_conceal_offset,
};
use crate::snapshot::{snapshot_wf, ConcealSnapshot, SnapshotView};
use crate::text::{
    end_of, lemma_pos_order, lemma_summary_concat, lemma_summary_wf, pos_le, summary_of,
};
use crate::transform::{in_start, lemma_starts_order, out_start, pieces_wf, tidy, Piece, Target};
use std::ops::Range;
use vstd::prelude::*;
use vstd::string::StringExecFns;
use vstd::utf8::{encode_utf8, is_char_boundary_start_end_of_seq, valid_utf8};

verus! {

/// `offset` lies in the displayed text, not within a replacement and not within a character.
pub open spec fn between_shown(snapshot: SnapshotView, offset: int) -> bool {
    &&& 0 <= offset <= snapshot.text().len()
    &&& !inside_swap(snapshot.pieces, offset)
    &&& on_boundary(
        snapshot.fold.text,
        if snapshot.passthrough {
            offset
        } else {
            fold_start_of(snapshot.pieces, offset)
        },
    )
}

/// The text that is walked over.
pub open spec fn walked(v: ChunksView) -> Seq<u8> {
    if v.passthrough {
        v.text
    } else {
        displayed(v.pieces, v.text)
    }
}

/// `offset` lies in the text that is walked over, not within a replacement and not
/// within a character.
pub open spec fn between_walked(v: ChunksView, offset: int) -> bool {
    &&& 0 <= offset <= walked(v).len()
    &&& !v.passthrough ==> !inside_swap(v.pieces, offset)
    &&& on_boundary(
        v.text,
        if v.passthrough {
            offset
        } else {
            fold_start_of(v.pieces, offset)
        },
    )
}

/// A walk can be made between two offsets that lie neither within replacements
/// nor within characters, and has the text between them before it.
pub proof fn lemma_walk_over(
    passthrough: bool,
    ps: Seq<Piece>,
    text: Seq<u8>,
    runs: Seq<Run>,
    start: int,
    end: int,
)
    requires
        valid_utf8(text),
        text.len() <= MAX_LEN,
        runs_wf(text, runs),
        pieces_wf(ps),
        reflects(ps, text),
        tidy(ps),
        between_walked(chunks_over(passthrough, ps, text, runs, start, end), start),
        between_walked(chunks_over(passthrough, ps, text, runs, start, end), end),
        start <= end,
    ensures
        can_walk(passthrough, ps, text, start, end),
        ({
            let v = chunks_over(passthrough, ps, text, runs, start, end);
            &&& aligned(v)
            &&& meets_swap(v)
            &&& rest(v) == walked(v).subrange(start, end)
        }),
{
    reveal(aligned);
    let i = piece_at(ps, Target::ConcealOffset(start));
    let j = piece_at(ps, Target::ConcealOffset(end));
    if !passthrough {
        lemma_piece_at_offset(ps, text, start);
        lemma_piece_at_offset(ps, text, end);
        lemma_piece_starts(ps, text, ps.len() as int);
        if i < ps.len() {
            lemma_starts_order(ps, i, i + 1);
            if ps[i] is Same {
                lemma_same_piece(ps, text, i, in_start(ps, i + 1));
            } else {
                assert(!(out_start(ps, i) < start));
            }
        }
        if j < ps.len() {
            assert(on_boundary(text, in_start(ps, j + 1)));
        } else {
            assert(on_boundary(text, in_start(ps, ps.len() as int)));
        }
    }
    lemma_chunks_over(passthrough, ps, text, runs, start, end);
}

/// The end of the displayed text lies between characters.
pub proof fn lemma_end_between(snapshot: SnapshotView)
    requires
        snapshot_wf(snapshot),
    ensures
        between_shown(snapshot, 0),
        between_shown(snapshot, snapshot.text().len() as int),
{
    let ps = snapshot.pieces;
    let text = snapshot.fold.text;
    let n = ps.len() as int;
    let len = snapshot.text().len() as int;
    lemma_piece_starts(ps, text, n);
    lemma_piece_at_offset(ps, text, len);
    lemma_piece_at_offset(ps, text, 0);
    is_char_boundary_start_end_of_seq(text);
    if snapshot.passthrough {
        law_passthrough(snapshot);
    }
    if inside_swap(ps, len) {
        let k = choose|k: int|
            0 <= k < ps.len() && (#[trigger] ps[k]) is Swap && out_start(ps, k) < len < out_start(
                ps,
                k + 1,
            );
        lemma_starts_order(ps, k + 1, n);
    }
    if inside_swap(ps, 0) {
        let k = choose|k: int|
            0 <= k < ps.len() && (#[trigger] ps[k]) is Swap && out_start(ps, k) < 0 < out_start(
                ps,
                k + 1,
            );
        lemma_starts_order(ps, 0, k);
    }
    let k = piece_at(ps, Target::ConcealOffset(0));
    lemma_starts_order(ps, 0, k);
    assert(on_boundary(text, in_start(ps, k)));
    assert(on_boundary(text, in_start(ps, n)));
}

/// The walk gives the displayed text as it stands, up to its end.
#[verifier::opaque]
pub open spec fn aligned(v: ChunksView) -> bool {
    &&& chunks_wf(v)
    &&& !v.passthrough ==> {
        &&& v.output_offset == output_reached(v)
        &&& v.output_offset <= v.output_end <= displayed(v.pieces, v.text).len()
        &&& !inside_swap(v.pieces, v.output_end)
    }
}

/// If the walk comes to a replacement next, it has reached what is replaced.
pub open spec fn meets_swap(v: ChunksView) -> bool {
    !v.passthrough && v.at < v.pieces.len() && v.pieces[v.at] is Swap ==> v.fold_offset == in_start(
        v.pieces,
        v.at,
    )
}

/// The text that a walk has before it.
pub open spec fn rest(v: ChunksView) -> Seq<u8> {
    if v.passthrough {
        v.text.subrange(v.fold_offset, v.fold_end)
    } else {
        displayed(v.pieces, v.text).subrange(v.output_offset, v.output_end)
    }
}

/// A walk can be made between two offsets of the displayed text that lie neither
/// within replacements nor within characters, and has the text between them before it.
pub proof fn law_walk_starts(snapshot: SnapshotView, runs: Seq<Run>, start: int, end: int)
    requires
        snapshot_wf(snapshot),
        runs_wf(snapshot.fold.text, runs),
        between_shown(snapshot, start),
        between_shown(snapshot, end),
        start <= end,
    ensures
        can_walk(snapshot.passthrough, snapshot.pieces, snapshot.fold.text, start, end),
        ({
            let v = chunks_over(
                snapshot.passthrough,
                snapshot.pieces,
                snapshot.fold.text,
                runs,
                start,
                end,
            );
            &&& aligned(v)
            &&& meets_swap(v)
            &&& rest(v) == snapshot.text().subrange(start, end)
        }),
{
    if snapshot.passthrough {
        law_passthrough(snapshot);
    }
    lemma_walk_over(
        snapshot.passthrough,
        snapshot.pieces,
        snapshot.fold.text,
        runs,
        start,
        end,
    );
}

/// Where a walk stands that is not at its end.
proof fn lemma_walk_within(v: ChunksView)
    requires
        aligned(v),
        !v.passthrough,
        v.output_offset < v.output_end,
    ensures
        v.at < v.pieces.len(),
        v.pieces[v.at] is Swap ==> out_start(v.pieces, v.at + 1) <= v.output_end,
        v.pieces[v.at] is Same ==> {
            &&& v.fold_offset < v.fold_end
            &&& v.fold_end >= in_start(v.pieces, v.at + 1) ==> out_start(v.pieces, v.at + 1)
                <= v.output_end
            &&& v.fold_end < in_start(v.pieces, v.at + 1) ==> v.fold_end == in_start(
                v.pieces,
                v.at,
            ) + (v.output_end - out_start(v.pieces, v.at))
        },
{
    reveal(aligned);
    let ps = v.pieces;
    let n = ps.len() as int;
    let j = piece_at(ps, Target::ConcealOffset(v.output_end));
    lemma_piece_at_offset(ps, v.text, v.output_end);
    lemma_piece_starts(ps, v.text, n);
    lemma_starts_order(ps, j, n);
    assert(v.at < n);
    lemma_starts_order(ps, v.at, v.at + 1);
    lemma_starts_order(ps, v.at + 1, n);
    if j < v.at {
        lemma_starts_order(ps, j + 1, v.at);
    } else if v.at < j {
        lemma_starts_order(ps, v.at + 1, j);
    }
    if ps[v.at] is Swap {
        assert(!(out_start(ps, v.at) < v.output_end < out_start(ps, v.at + 1)));
    } else {
        lemma_same_piece(ps, v.text, v.at, in_start(ps, v.at + 1));
    }
}

proof fn lemma_walk_swap(v: ChunksView)
    requires
        aligned(v),
        !v.passthrough,
        v.output_offset < v.output_end,
        v.at < v.pieces.len(),
        v.pieces[v.at] is Swap,
    ensures
        aligned(chunks_step(v)),
        meets_swap(chunks_step(v)),
        rest(v) == v.pieces[v.at]->text + rest(chunks_step(v)),
{
    reveal(aligned);
    let ps = v.pieces;
    let d = displayed(ps, v.text);
    let w = chunks_step(v);
    lemma_chunks_step(v);
    lemma_walk_within(v);
    lemma_shown_piece(ps, v.text, v.at);
    lemma_summary_wf(ps[v.at]->text);
    assert(w.output_offset == out_start(ps, v.at + 1));
    assert(output_reached(w) == w.output_offset);
    assert(rest(v) =~= d.subrange(out_start(ps, v.at), out_start(ps, v.at + 1)) + rest(w));
}

proof fn lemma_walk_same(v: ChunksView)
    requires
        aligned(v),
        !v.passthrough,
        v.output_offset < v.output_end,
        v.at < v.pieces.len(),
        v.pieces[v.at] is Same,
    ensures
        aligned(chunks_step(v)),
        meets_swap(chunks_step(v)),
        next_drawn(v) is Some,
        rest(v) == v.text.subrange(v.fold_offset, same_end(v)) + rest(chunks_step(v)),
{
    reveal(aligned);
    let ps = v.pieces;
    let d = displayed(ps, v.text);
    let w = chunks_step(v);
    let end = same_end(v);
    let start = in_start(ps, v.at);
    let o = out_start(ps, v.at);
    lemma_chunks_step(v);
    lemma_walk_within(v);
    lemma_run_at(v.text, v.runs, v.fold_offset, 0);
    lemma_same_piece(ps, v.text, v.at, in_start(ps, v.at + 1));
    lemma_same_piece(ps, v.text, v.at, end);
    assert(w.output_offset == o + (end - start));
    assert(output_reached(w) == w.output_offset);
    assert(v.text.subrange(v.fold_offset, end) =~= v.text.subrange(start, end).subrange(
        v.fold_offset - start,
        end - start,
    ));
    assert(d.subrange(v.output_offset, w.output_offset) =~= d.subrange(
        o,
        w.output_offset,
    ).subrange(v.output_offset - o, w.output_offset - o));
    assert(rest(v) =~= d.subrange(v.output_offset, w.output_offset) + rest(w));
}

/// A chunk is the beginning of the text that the walk has before it.
pub proof fn law_walk_on(v: ChunksView)
    requires
        aligned(v),
    ensures
        next_drawn(v) is None ==> rest(v).len() == 0,
        next_drawn(v) matches Some(drawn) ==> {
            &&& aligned(chunks_step(v))
            &&& meets_swap(chunks_step(v))
            &&& rest(v) == drawn.text + rest(chunks_step(v))
        },
{
    reveal(aligned);
    let w = chunks_step(v);
    if v.passthrough {
        lemma_chunks_step(v);
        if v.fold_offset < v.fold_end {
            lemma_run_at(v.text, v.runs, v.fold_offset, 0);
            assert(rest(v) =~= v.text.subrange(v.fold_offset, w.fold_offset) + rest(w));
        }
    } else if v.output_offset < v.output_end {
        lemma_walk_within(v);
        if v.pieces[v.at] is Swap {
            lemma_walk_swap(v);
        } else {
            lemma_walk_same(v);
        }
    }
}

/// A replacement that a walk over the displayed text comes to is drawn in the style of the
/// run of the text below that covers the first byte of what is replaced.
pub proof fn law_swap_style(v: ChunksView, k: int)
    requires
        aligned(v),
        meets_swap(v),
        !v.passthrough,
        v.output_offset < v.output_end,
        v.at < v.pieces.len(),
        v.pieces[v.at] is Swap,
        0 <= k < v.runs.len(),
        in_start(v.pieces, v.at) < in_start(v.pieces, v.at + 1),
        run_start(v.runs, k) <= in_start(v.pieces, v.at) < run_start(v.runs, k + 1),
    ensures
        next_drawn(v) matches Some(drawn) && {
            &&& drawn.text == v.pieces[v.at]->text
            &&& drawn.run.syntax_highlight_id == v.runs[k].syntax_highlight_id
            &&& drawn.run.highlight_style == v.runs[k].highlight_style
            &&& drawn.run.diagnostic_severity == v.runs[k].diagnostic_severity
            &&& drawn.run.is_unnecessary == v.runs[k].is_unnecessary
            &&& drawn.run.underline == v.runs[k].underline
        },
{
    reveal(aligned);
    lemma_swap_within(v);
    law_swap_chunk(v, k);
}

/// Characters side by side are encoded side by side.
pub proof fn lemma_encode_concat(a: Seq<char>, b: Seq<char>)
    ensures
        encode_utf8(a + b) == encode_utf8(a) + encode_utf8(b),
    decreases a.len(),
{
    if a.len() == 0 {
        assert(a + b =~= b);
        assert(encode_utf8(a) + encode_utf8(b) =~= encode_utf8(b));
    } else {
        lemma_encode_concat(a.drop_first(), b);
        assert((a + b).drop_first() =~= a.drop_first() + b);
        let first = encode_utf8(seq![a[0]]);
        assert(encode_utf8(a + b) =~= encode_utf8(a) + encode_utf8(b));
    }
}

/// How much a walk has before it.
pub open spec fn left_to_walk(v: ChunksView) -> int {
    (v.pieces.len() - v.at) + (v.fold_end - v.fold_offset)
}

/// The next chunk of a walk that gives the displayed text as it stands.
fn read_chunk<'a>(chunks: &mut ConcealChunks<'a>) -> (chunk: Option<Chunk<'a>>)
    requires
        old(chunks).inv(),
        aligned(old(chunks)@),
    ensures
        final(chunks).inv(),
        chunk is None ==> final(chunks)@ == old(chunks)@ && rest(old(chunks)@)
            == Seq::<u8>::empty(),
        chunk matches Some(chunk) ==> {
            &&& aligned(final(chunks)@)
            &&& rest(old(chunks)@) == encode_utf8(chunk.text@) + rest(final(chunks)@)
            &&& 0 <= left_to_walk(final(chunks)@) < left_to_walk(old(chunks)@)
        },
{
    let ghost v = chunks@;
    proof {
        law_walk_on(v);
        lemma_left_to_walk(v);
        if next_drawn(v) is None {
            assert(rest(v) =~= Seq::<u8>::empty());
        }
    }
    chunks.next()
}

/// A walk ends.
proof fn lemma_left_to_walk(v: ChunksView)
    requires
        aligned(v),
    ensures
        next_drawn(v) is Some ==> 0 <= left_to_walk(chunks_step(v)) < left_to_walk(v),
{
    reveal(aligned);
    lemma_chunks_step(v);
}

impl ConcealSnapshot {
    /// A walk from `start` to the end of the displayed text.
    pub fn chunks_at(&self, start: ConcealPoint) -> (chunks: ConcealChunks<'_>)
        requires
            self.inv(),
            snapshot_wf(self@),
            rests(self@, start@) || (!self@.passthrough && pos_le(end_of(self@.text()), start@)),
            between_shown(self@, to_conceal_offset(self@, start@)),
        ensures
            chunks.inv(),
            chunks@ == chunks_over(
                self@.passthrough,
                self@.pieces,
                self@.fold.text,
                self@.fold.runs,
                to_conceal_offset(self@, start@),
                self@.text().len() as int,
            ),
            aligned(chunks@),
            rest(chunks@) == self@.text().skip(to_conceal_offset(self@, start@)),
    {
        let ghost d = self@.text();
        let offset = start.to_offset(self);
        proof {
            lemma_end_between(self@);
            law_walk_starts(self@, self@.fold.runs, offset@, d.len() as int);
            assert(d.skip(offset@) =~= d.subrange(offset@, d.len() as int));
        }
        self.chunks(offset..self.len(), self.styling())
    }

    /// The characters from `start` to the end of the displayed text.
    pub fn chars_at(&self, start: ConcealPoint) -> (chars: Vec<char>)
        requires
            self.inv(),
            snapshot_wf(self@),
            rests(self@, start@) || (!self@.passthrough && pos_le(end_of(self@.text()), start@)),
            between_shown(self@, to_conceal_offset(self@, start@)),
        ensures
            encode_utf8(chars@) == self@.text().skip(to_conceal_offset(self@, start@)),
    {
        broadcast use vstd::string::group_string_axioms;

        let mut chunks = self.chunks_at(start);
        let ghost all = rest(chunks@);
        let mut chars: Vec<char> = Vec::new();
        assert(encode_utf8(chars@) + rest(chunks@) =~= all);
        loop
            invariant
                chunks.inv(),
                aligned(chunks@),
                encode_utf8(chars@) + rest(chunks@) == all,
            ensures
                encode_utf8(chars@) == all,
            decreases left_to_walk(chunks@),
        {
            let ghost left = rest(chunks@);
            match read_chunk(&mut chunks) {
                Some(chunk) => {
                    let ghost before = chars@;
                    for char in walk: chunk.text.chars()
                        invariant
                            walk.seq() == chunk.text@,
                            chars@ == before + chunk.text@.take(walk.index() as int),
                    {
                        chars.push(char);
                        assert(chars@ =~= before + chunk.text@.take(walk.index() + 1));
                    }
                    proof {
                        assert(chars@ =~= before + chunk.text@);
                        lemma_encode_concat(before, chunk.text@);
                        assert(encode_utf8(before) + (chunk@.text + rest(chunks@)) =~= (
                        encode_utf8(before) + chunk@.text) + rest(chunks@));
                    }
                },
                None => {
                    assert(encode_utf8(chars@) + left =~= encode_utf8(chars@));
                    break;
                },
            }
        }
        chars
    }

    /// What the displayed text between two points measures.
    pub fn text_summary_for_range(&self, range: Range<ConcealPoint>) -> (summary: MBTextSummary)
        requires
            self.inv(),
            snapshot_wf(self@),
            rests(self@, range.start@) || (!self@.passthrough && pos_le(
                end_of(self@.text()),
                range.start@,
            )),
            rests(self@, range.end@) || (!self@.passthrough && pos_le(
                end_of(self@.text()),
                range.end@,
            )),
            pos_le(range.start@, range.end@),
            !self@.passthrough ==> between_shown(
                self@,
                to_conceal_offset(self@, range.start@),
            ) && between_shown(self@, to_conceal_offset(self@, range.end@)),
        ensures
            summary@ == summary_of(
                self@.text().subrange(
                    to_conceal_offset(self@, range.start@),
                    to_conceal_offset(self@, range.end@),
                ),
            ),
    {
        let ghost v = self@;
        let ghost d = v.text();
        let ghost from = to_conceal_offset(v, range.start@);
        let ghost to = to_conceal_offset(v, range.end@);
        proof {
            assert(d.take(d.len() as int) =~= d);
            if rests(v, range.start@) {
                lemma_rests(v, range.start@);
            }
            if rests(v, range.end@) {
                lemma_rests(v, range.end@);
            }
            if rests(v, range.start@) && rests(v, range.end@) {
                lemma_pos_order(d, from, to);
            } else if rests(v, range.end@) {
                lemma_pos_order(d, to, d.len() as int);
            }
        }
        if self.passthrough() {
            proof {
                law_passthrough(v);
            }
            return self.fold().text_summary_for_range(
                FoldPoint(range.start.0)..FoldPoint(range.end.0),
            );
        }
        proof {
            law_walk_starts(v, v.fold.runs, from, to);
            lemma_piece_starts(v.pieces, v.fold.text, v.pieces.len() as int);
        }
        let start_offset = range.start.to_offset(self);
        let end_offset = range.end.to_offset(self);
        let mut summary = MBTextSummary::default();
        let mut chunks = self.chunks(start_offset..end_offset, self.styling());
        let ghost all = rest(chunks@);
        let ghost mut read: Seq<u8> = Seq::empty();
        assert(read + all =~= all);
        loop
            invariant
                chunks.inv(),
                aligned(chunks@),
                read + rest(chunks@) == all,
                all.len() <= MAX_LEN,
                summary@ == summary_of(read),
            ensures
                summary@ == summary_of(all),
            decreases left_to_walk(chunks@),
        {
            let ghost left = rest(chunks@);
            match read_chunk(&mut chunks) {
                Some(chunk) => {
                    proof {
                        assert(read + (chunk@.text + rest(chunks@)) =~= (read + chunk@.text)
                            + rest(chunks@));
                        lemma_summary_concat(read, chunk@.text);
                        lemma_summary_wf(read);
                        lemma_summary_wf(chunk@.text);
                    }
                    summary.append(MBTextSummary::of_text(chunk.text));
                    proof {
                        read = read + chunk@.text;
                    }
                },
                None => {
                    assert(read + left =~= read);
                    break;
                },
            }
        }
        summary
    }

    /// The displayed text.
    pub fn text(&self) -> (text: String)
        requires
            self.inv(),
            snapshot_wf(self@),
        ensures
            encode_utf8(text@) == self@.text(),
    {
        let ghost d = self@.text();
        proof {
            lemma_end_between(self@);
            law_walk_starts(self@, self@.fold.runs, 0, d.len() as int);
            assert(d.subrange(0, d.len() as int) =~= d);
        }
        let mut chunks = self.chunks(ConcealOffset::at(0)..self.len(), self.styling());
        let mut text = String::new();
        assert(encode_utf8(text@) + rest(chunks@) =~= d);
        loop
            invariant
                chunks.inv(),
                aligned(chunks@),
                encode_utf8(text@) + rest(chunks@) == d,
            ensures
                encode_utf8(text@) == d,
            decreases left_to_walk(chunks@),
        {
            let ghost left = rest(chunks@);
            match read_chunk(&mut chunks) {
                Some(chunk) => {
                    proof {
                        lemma_encode_concat(text@, chunk.text@);
                        assert(encode_utf8(text@) + (chunk@.text + rest(chunks@)) =~= (
                        encode_utf8(text@) + chunk@.text) + rest(chunks@));
                    }
                    text.append(chunk.text);
                },
                None => {
                    assert(encode_utf8(text@) + left =~= encode_utf8(text@));
                    break;
                },
            }
        }
        text
    }
}

} // verus!

//! Where points of one space stand in the other, piece by piece.

use crate::chunks::chunks_over;
use crate::coords::Bias;
use crate::display::{lemma_piece_starts, lemma_shown, lemma_shown_piece};
use crate::fold::{clip_offset, is_clip, is_floor, is_next_stop, lemma_clip_unique, Run};
use crate::points::{
    clip_pos, law_passthrough, lemma_piece_at_end, lemma_piece_at_offset, line_is, piece_at, snap_left,
    to_conceal_offset, to_conceal_pos, to_fold_pos,
};
use crate::snapshot::{snapshot_wf, SnapshotView};
use crate::text::{
    end_of, lemma_end_bounds, lemma_offset_at, lemma_pos_order, pos_add, pos_at, pos_in, pos_le,
    pos_lt, summary_of, Pos,
};
use crate::transform::{
    in_pos, in_start, in_sum, lemma_seek, lemma_starts_order, lies_before, out_pos, out_start,
    out_sum, place_at, Piece, Target,
};
use vstd::prelude::*;

verus! {

/// The position as far behind `to` as `p` is behind `from`: in the same row as many columns
/// on, or as many rows on in the same column.
pub open spec fn carried_over(p: Pos, from: Pos, to: Pos) -> Pos {
    if p.row == from.row {
        Pos { row: to.row, column: to.column + (p.column - from.column) }
    } else {
        Pos { row: to.row + (p.row - from.row), column: p.column }
    }
}

/// Piece `k` of the snapshot shows the text below from `below` to `below_end` at `above` to
/// `above_end` of the displayed text.
pub open spec fn piece_spans(
    snapshot: SnapshotView,
    k: int,
    below: int,
    below_end: int,
    above: int,
    above_end: int,
) -> bool {
    &&& 0 <= k < snapshot.pieces.len()
    &&& below == in_start(snapshot.pieces, k)
    &&& below_end == in_start(snapshot.pieces, k + 1)
    &&& above == out_start(snapshot.pieces, k)
    &&& above_end == out_start(snapshot.pieces, k + 1)
}

/// Pieces lie side by side from the start to the end of both texts. One that replaces
/// nothing displays its text below byte by byte, any other its replacement.
pub proof fn law_pieces(snapshot: SnapshotView, k: int)
    requires
        snapshot_wf(snapshot),
        0 <= k < snapshot.pieces.len(),
    ensures
        ({
            let ps = snapshot.pieces;
            let n = ps.len() as int;
            let (below, below_end) = (in_start(ps, k), in_start(ps, k + 1));
            let (above, above_end) = (out_start(ps, k), out_start(ps, k + 1));
            &&& in_start(ps, 0) == 0
            &&& out_start(ps, 0) == 0
            &&& in_start(ps, n) == snapshot.fold.text.len()
            &&& out_start(ps, n) == snapshot.text().len()
            &&& in_sum(ps, n) == summary_of(snapshot.fold.text)
            &&& out_sum(ps, n) == summary_of(snapshot.text())
            &&& 0 <= below <= below_end <= snapshot.fold.text.len()
            &&& 0 <= above <= above_end <= snapshot.text().len()
            &&& ps[k] is Same ==> snapshot.text().subrange(above, above_end)
                == snapshot.fold.text.subrange(below, below_end)
            &&& ps[k] is Swap ==> snapshot.text().subrange(above, above_end) == ps[k]->text
        }),
{
    let ps = snapshot.pieces;
    lemma_piece_starts(ps, snapshot.fold.text, k);
    lemma_piece_starts(ps, snapshot.fold.text, k + 1);
    lemma_piece_starts(ps, snapshot.fold.text, ps.len() as int);
    lemma_starts_order(ps, k, k + 1);
    lemma_shown_piece(ps, snapshot.fold.text, k);
    lemma_shown(ps, snapshot.fold.text, ps.len() as int);
    assert(snapshot.fold.text.take(in_start(ps, ps.len() as int)) =~= snapshot.fold.text);
}

/// Where nothing is concealed, every point stands for itself.
pub proof fn law_passthrough_points(snapshot: SnapshotView, p: Pos, bias: Bias)
    requires
        snapshot.passthrough,
    ensures
        to_conceal_pos(snapshot, p, bias) == p,
        to_fold_pos(snapshot, p) == p,
{
}

/// The piece that a point of the text below lies in.
proof fn lemma_found_below(snapshot: SnapshotView, k: int, p: Pos)
    requires
        snapshot_wf(snapshot),
        0 <= k < snapshot.pieces.len(),
        pos_le(in_pos(snapshot.pieces, k), p),
        pos_lt(p, in_pos(snapshot.pieces, k + 1)),
    ensures
        piece_at(snapshot.pieces, Target::FoldPoint(p)) == k,
{
    let ps = snapshot.pieces;
    let target = Target::FoldPoint(p);
    let j = piece_at(ps, target);
    lemma_seek(ps, target, Bias::Right, 0);
    if j < k {
        assert(!lies_before(place_at(ps, j + 1), target, Bias::Right));
        lemma_starts_order(ps, j + 1, k);
    } else if k < j {
        assert(lies_before(place_at(ps, k + 1), target, Bias::Right));
    }
}

/// The piece that a point of the displayed text lies in.
proof fn lemma_found_above(snapshot: SnapshotView, k: int, p: Pos)
    requires
        snapshot_wf(snapshot),
        0 <= k < snapshot.pieces.len(),
        pos_le(out_pos(snapshot.pieces, k), p),
        pos_lt(p, out_pos(snapshot.pieces, k + 1)),
    ensures
        piece_at(snapshot.pieces, Target::ConcealPoint(p)) == k,
{
    let ps = snapshot.pieces;
    let target = Target::ConcealPoint(p);
    let j = piece_at(ps, target);
    lemma_seek(ps, target, Bias::Right, 0);
    if j < k {
        assert(!lies_before(place_at(ps, j + 1), target, Bias::Right));
        lemma_starts_order(ps, j + 1, k);
    } else if k < j {
        assert(lies_before(place_at(ps, k + 1), target, Bias::Right));
    }
}

/// A point of the text below is shown as far behind the start of what its piece displays as
/// it is behind the start of the piece; one that is replaced is shown at the start of the
/// replacement, or at its end if it leans to the right and is not the first.
pub proof fn law_point_above(
    snapshot: SnapshotView,
    k: int,
    below: int,
    below_end: int,
    above: int,
    above_end: int,
    p: Pos,
    bias: Bias,
)
    requires
        snapshot_wf(snapshot),
        !snapshot.passthrough,
        piece_spans(snapshot, k, below, below_end, above, above_end),
        pos_le(pos_at(snapshot.fold.text, below), p),
        pos_lt(p, pos_at(snapshot.fold.text, below_end)),
    ensures
        ({
            let from = pos_at(snapshot.fold.text, below);
            let to = pos_at(snapshot.text(), above);
            let shown = to_conceal_pos(snapshot, p, bias);
            &&& snapshot.pieces[k] is Same ==> shown == carried_over(p, from, to)
            &&& snapshot.pieces[k] is Swap ==> {
                &&& bias == Bias::Left || p == from ==> shown == to
                &&& bias == Bias::Right && p != from ==> shown == pos_at(
                    snapshot.text(),
                    above_end,
                )
            }
        }),
{
    let ps = snapshot.pieces;
    lemma_piece_starts(ps, snapshot.fold.text, k);
    lemma_piece_starts(ps, snapshot.fold.text, k + 1);
    lemma_found_below(snapshot, k, p);
    lemma_starts_order(ps, k, k + 1);
    if ps[k] is Same {
        let lines = ps[k].input().lines;
        assert(in_pos(ps, k + 1) == pos_add(in_pos(ps, k), lines));
        assert(out_pos(ps, k + 1) == pos_add(out_pos(ps, k), lines));
    }
}

/// A point of the displayed text stands as far behind the start of what its piece displays
/// as the point of the text below that it stands for is behind the start of the piece;
/// behind the text, as far behind its end.
pub proof fn law_point_below(
    snapshot: SnapshotView,
    k: int,
    below: int,
    below_end: int,
    above: int,
    above_end: int,
    p: Pos,
)
    requires
        snapshot_wf(snapshot),
        !snapshot.passthrough,
        piece_spans(snapshot, k, below, below_end, above, above_end),
    ensures
        pos_le(pos_at(snapshot.text(), above), p) && pos_lt(p, pos_at(snapshot.text(), above_end))
            ==> to_fold_pos(snapshot, p) == carried_over(
            p,
            pos_at(snapshot.text(), above),
            pos_at(snapshot.fold.text, below),
        ),
        pos_le(end_of(snapshot.text()), p) ==> to_fold_pos(snapshot, p) == carried_over(
            p,
            end_of(snapshot.text()),
            end_of(snapshot.fold.text),
        ),
{
    let ps = snapshot.pieces;
    let text = snapshot.fold.text;
    let n = ps.len() as int;
    lemma_piece_starts(ps, text, k);
    lemma_piece_starts(ps, text, k + 1);
    lemma_piece_starts(ps, text, n);
    lemma_end_bounds(text);
    assert(text.take(text.len() as int) =~= text);
    if pos_le(out_pos(ps, k), p) && pos_lt(p, out_pos(ps, k + 1)) {
        lemma_found_above(snapshot, k, p);
    }
    if pos_le(end_of(snapshot.text()), p) {
        lemma_piece_at_end(ps, text, p);
    }
}

/// The end of the text below, and all behind it, is shown at the end of the displayed text. A
/// cursor at the end or behind it comes to rest there, the offset there is its own, and a walk
/// that starts there has no piece before it.
pub proof fn law_ends(snapshot: SnapshotView, runs: Seq<Run>, p: Pos, bias: Bias, end: int)
    requires
        snapshot_wf(snapshot),
        !snapshot.passthrough,
    ensures
        pos_le(end_of(snapshot.fold.text), p) ==> to_conceal_pos(snapshot, p, bias) == end_of(
            snapshot.text(),
        ),
        pos_le(end_of(snapshot.text()), p) ==> clip_pos(snapshot, p, bias) == end_of(
            snapshot.text(),
        ),
        snap_left(snapshot.pieces, snapshot.text().len() as int) == snapshot.text().len(),
        chunks_over(
            false,
            snapshot.pieces,
            snapshot.fold.text,
            runs,
            snapshot.text().len() as int,
            end,
        ).at == snapshot.pieces.len(),
{
    let ps = snapshot.pieces;
    let text = snapshot.fold.text;
    let n = ps.len() as int;
    lemma_piece_starts(ps, text, n);
    lemma_end_bounds(text);
    assert(text.take(text.len() as int) =~= text);
    if pos_le(end_of(snapshot.text()), p) {
        lemma_piece_at_end(ps, text, p);
    }
    if pos_le(end_of(text), p) {
        let k = piece_at(ps, Target::FoldPoint(p));
        lemma_seek(ps, Target::FoldPoint(p), Bias::Right, 0);
        if k < n {
            assert(!lies_before(place_at(ps, k + 1), Target::FoldPoint(p), Bias::Right));
            lemma_starts_order(ps, k + 1, n);
        }
    }
    let len = snapshot.text().len() as int;
    let k = piece_at(ps, Target::ConcealOffset(len));
    lemma_seek(ps, Target::ConcealOffset(len), Bias::Right, 0);
    if k < n {
        assert(!lies_before(place_at(ps, k + 1), Target::ConcealOffset(len), Bias::Right));
        lemma_starts_order(ps, k + 1, n);
    }
}

/// The offset of a position is the one where it stands, and the length of the text for one
/// behind the text.
pub proof fn law_offset(snapshot: SnapshotView, offset: int, p: Pos)
    requires
        0 <= offset <= snapshot.text().len(),
    ensures
        to_conceal_offset(snapshot, pos_at(snapshot.text(), offset)) == offset,
        pos_le(end_of(snapshot.text()), p) ==> to_conceal_offset(snapshot, p)
            == snapshot.text().len(),
{
    let d = snapshot.text();
    assert(d.take(d.len() as int) =~= d);
    lemma_offset_at(d, offset);
    lemma_pos_order(d, offset, d.len() as int);
}

/// An offset has its own point, and one within a replacement the point where that starts.
pub proof fn law_snap(
    snapshot: SnapshotView,
    k: int,
    below: int,
    below_end: int,
    above: int,
    above_end: int,
    offset: int,
)
    requires
        snapshot_wf(snapshot),
        piece_spans(snapshot, k, below, below_end, above, above_end),
        above <= offset < above_end,
    ensures
        snapshot.pieces[k] is Same ==> snap_left(snapshot.pieces, offset) == offset,
        snapshot.pieces[k] is Swap ==> snap_left(snapshot.pieces, offset) == above,
{
    lemma_found_at(snapshot, k, offset);
}

/// The piece that an offset of the displayed text lies in.
proof fn lemma_found_at(snapshot: SnapshotView, k: int, offset: int)
    requires
        snapshot_wf(snapshot),
        0 <= k < snapshot.pieces.len(),
        out_start(snapshot.pieces, k) <= offset < out_start(snapshot.pieces, k + 1),
    ensures
        piece_at(snapshot.pieces, Target::ConcealOffset(offset)) == k,
{
    let ps = snapshot.pieces;
    let j = piece_at(ps, Target::ConcealOffset(offset));
    lemma_starts_order(ps, 0, k);
    lemma_piece_at_offset(ps, snapshot.fold.text, offset);
    if j < k {
        lemma_starts_order(ps, j + 1, k);
    } else if k < j {
        lemma_starts_order(ps, k + 1, j);
    }
}

/// The stop where a cursor at `p` of a text comes to rest: `floor` is the last offset that
/// does not come after `p`, and stop number `s` the next one on the side of `bias`.
pub open spec fn rests_at(
    text: Seq<u8>,
    stops: Seq<usize>,
    p: Pos,
    bias: Bias,
    floor: int,
    s: int,
) -> bool {
    &&& 0 <= floor <= text.len()
    &&& pos_le(pos_at(text, floor), p)
    &&& floor < text.len() ==> pos_lt(p, pos_at(text, floor + 1))
    &&& 0 <= s < stops.len()
    &&& bias == Bias::Left ==> stops[s] <= floor && forall|i: int|
        0 <= i < stops.len() ==> !(stops[s] < #[trigger] stops[i] <= floor)
    &&& bias == Bias::Right ==> floor <= stops[s] && forall|i: int|
        0 <= i < stops.len() ==> !(floor <= #[trigger] stops[i] < stops[s])
}

proof fn lemma_rests_at(snapshot: SnapshotView, p: Pos, bias: Bias, floor: int, s: int)
    requires
        rests_at(snapshot.fold.text, snapshot.fold.stops, p, bias, floor, s),
    ensures
        clip_offset(snapshot.fold, p, bias) == snapshot.fold.stops[s],
{
    let fold = snapshot.fold;
    let stop = fold.stops[s] as int;
    assert(is_floor(fold.text, p, floor));
    assert(fold.stops[s] == stop);
    assert(is_next_stop(fold.stops, floor, bias, stop));
    assert(is_clip(fold, p, bias, stop));
    lemma_clip_unique(fold, p, bias, stop);
}

/// Where nothing is concealed, a cursor comes to rest at the stop next to it.
pub proof fn law_clip_plain(snapshot: SnapshotView, p: Pos, bias: Bias, floor: int, s: int)
    requires
        snapshot.passthrough,
        rests_at(snapshot.fold.text, snapshot.fold.stops, p, bias, floor, s),
    ensures
        clip_pos(snapshot, p, bias) == pos_at(
            snapshot.fold.text,
            snapshot.fold.stops[s] as int,
        ),
{
    lemma_rests_at(snapshot, p, bias, floor, s);
}

/// A cursor in a piece that replaces nothing comes to rest where the stop next to it in the
/// text below is shown; one at a replacement, at its start, or at its end if it leans to the
/// right and is not at the start; one behind the text, at its end.
pub proof fn law_clip_piece(
    snapshot: SnapshotView,
    k: int,
    below: int,
    below_end: int,
    above: int,
    above_end: int,
    p: Pos,
    bias: Bias,
    floor: int,
    s: int,
)
    requires
        snapshot_wf(snapshot),
        !snapshot.passthrough,
        piece_spans(snapshot, k, below, below_end, above, above_end),
    ensures
        ({
            let from = pos_at(snapshot.text(), above);
            let to = pos_at(snapshot.fold.text, below);
            let stop = pos_at(snapshot.fold.text, snapshot.fold.stops[s] as int);
            let q = clip_pos(snapshot, p, bias);
            &&& pos_le(from, p) && pos_lt(p, pos_at(snapshot.text(), above_end)) ==> {
                &&& snapshot.pieces[k] is Same && rests_at(
                    snapshot.fold.text,
                    snapshot.fold.stops,
                    carried_over(p, from, to),
                    bias,
                    floor,
                    s,
                ) && pos_le(to, stop) ==> q == carried_over(stop, to, from)
                &&& snapshot.pieces[k] is Swap ==> {
                    &&& bias == Bias::Left || p == from ==> q == from
                    &&& bias == Bias::Right && p != from ==> q == pos_at(
                        snapshot.text(),
                        above_end,
                    )
                }
            }
            &&& pos_le(end_of(snapshot.text()), p) ==> q == end_of(snapshot.text())
        }),
{
    let ps = snapshot.pieces;
    let text = snapshot.fold.text;
    let from = pos_at(snapshot.text(), above);
    let to = pos_at(text, below);
    lemma_piece_starts(ps, text, k);
    lemma_piece_starts(ps, text, k + 1);
    if pos_le(from, p) && pos_lt(p, out_pos(ps, k + 1)) {
        lemma_found_above(snapshot, k, p);
        if ps[k] is Same {
            law_point_below(snapshot, k, below, below_end, above, above_end, p);
            if rests_at(
                text,
                snapshot.fold.stops,
                carried_over(p, from, to),
                bias,
                floor,
                s,
            ) {
                lemma_rests_at(snapshot, carried_over(p, from, to), bias, floor, s);
            }
        }
    }
    if pos_le(end_of(snapshot.text()), p) {
        lemma_piece_at_end(ps, text, p);
    }
}

/// A row of `len` bytes has no newline in them and ends with the text or with a newline.
pub proof fn law_line(s: Seq<u8>, row: int, len: int, start: int)
    requires
        line_is(s, row, len),
        0 <= len,
        0 <= start <= s.len(),
        pos_at(s, start).row == row,
        pos_at(s, start).column == 0,
    ensures
        start + len <= s.len(),
        forall|i: int| start <= i < start + len ==> #[trigger] s[i] != 10u8,
        start + len == s.len() || s[start + len] == 10u8,
{
    let p = Pos { row, column: len };
    let at = choose|at: int| 0 <= at <= s.len() && #[trigger] pos_at(s, at) == p;
    lemma_pos_order(s, start, at);
    lemma_row_bytes(s, row, start, at);
    if at < s.len() && s[at] != 10u8 {
        assert(s.take(at + 1).drop_last() =~= s.take(at));
        assert(s.take(at + 1).last() == s[at]);
        assert(pos_at(s, at + 1) == (Pos { row, column: len + 1 }));
        assert(pos_in(s, Pos { row, column: len + 1 }));
    }
}

/// The bytes between two positions of one row are columns.
proof fn lemma_row_bytes(s: Seq<u8>, row: int, start: int, at: int)
    requires
        0 <= start <= at <= s.len(),
        pos_at(s, start).row == row,
        pos_at(s, at).row == row,
    ensures
        pos_at(s, at).column == pos_at(s, start).column + (at - start),
        forall|i: int| start <= i < at ==> #[trigger] s[i] != 10u8,
    decreases at - start,
{
    if start < at {
        assert(s.take(at).drop_last() =~= s.take(at - 1));
        assert(s.take(at).last() == s[at - 1]);
        lemma_pos_order(s, start, at - 1);
        lemma_pos_order(s, at - 1, at);
        lemma_row_bytes(s, row, start, at - 1);
    }
}

/// A walk starts in the piece where it starts in the displayed text, as far behind the start
/// of what the piece stands for as of what it displays; it ends likewise, and at the end of
/// what is replaced if it ends at a replacement.
pub proof fn law_walk_over(
    snapshot: SnapshotView,
    runs: Seq<Run>,
    start: int,
    end: int,
    i: int,
    j: int,
)
    requires
        snapshot_wf(snapshot),
        !snapshot.passthrough,
        0 <= start <= end,
        0 <= i < snapshot.pieces.len(),
        out_start(snapshot.pieces, i) <= start < out_start(snapshot.pieces, i + 1),
        0 <= j < snapshot.pieces.len(),
    ensures
        ({
            let ps = snapshot.pieces;
            let v = chunks_over(false, ps, snapshot.fold.text, runs, start, end);
            &&& v.at == i
            &&& v.fold_offset == in_start(ps, i) + (start - out_start(ps, i))
            &&& v.output_offset == start
            &&& v.output_end == end
            &&& v.pieces == ps
            &&& v.text == snapshot.fold.text
            &&& v.runs == runs
            &&& out_start(ps, j) <= end < out_start(ps, j + 1) && ps[j] is Same ==> v.fold_end
                == in_start(ps, j) + (end - out_start(ps, j))
            &&& out_start(ps, j) <= end < out_start(ps, j + 1) && ps[j] is Swap ==> v.fold_end
                == in_start(ps, j + 1)
            &&& end >= snapshot.text().len() ==> v.fold_end == snapshot.fold.text.len()
        }),
{
    let ps = snapshot.pieces;
    lemma_found_at(snapshot, i, start);
    if out_start(ps, j) <= end < out_start(ps, j + 1) {
        lemma_found_at(snapshot, j, end);
    }
    lemma_piece_at_offset(ps, snapshot.fold.text, end);
    lemma_piece_starts(ps, snapshot.fold.text, ps.len() as int);
}

/// Where nothing is concealed, a walk goes over the text below between the same offsets.
pub proof fn law_walk_plain(snapshot: SnapshotView, runs: Seq<Run>, start: int, end: int)
    requires
        snapshot_wf(snapshot),
        snapshot.passthrough,
    ensures
        ({
            let v = chunks_over(true, snapshot.pieces, snapshot.fold.text, runs, start, end);
            &&& v.passthrough
            &&& v.fold_offset == start
            &&& v.fold_end == end
            &&& v.text == snapshot.fold.text
            &&& v.text == snapshot.text()
            &&& v.runs == runs
        }),
{
    law_passthrough(snapshot);
}

} // verus!

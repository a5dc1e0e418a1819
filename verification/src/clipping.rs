//! Where a cursor comes to rest in the displayed text.

use crate::coords::{pos_fits, Bias};
use crate::display::{hidden_at, hides, lemma_piece_starts, lemma_same_piece};
use crate::fold::{
    clip_offset, fold_wf, is_clip, is_floor, is_next_stop, lemma_clip_unique, on_boundary, FoldView,
};
use crate::grow::lemma_cover;
use crate::laws::lemma_hidden_between;
use crate::layout::{cover, lay_out};
use crate::map::{with_marks, MapView};
use crate::point_laws::law_offset_round_trip;
use crate::points::{
    can_clip, clip_pos, clipped_below, inside_swap, law_passthrough, lemma_piece_at_end,
    lemma_piece_at_offset, lemma_piece_at_pos, piece_at, rests, to_conceal_offset, to_fold_pos,
};
use crate::reading::between_shown;
use crate::resolve::{
    anchored, has_mark, is_candidate, law_resolved, lemma_places, places, resolved, Hidden, Mark,
    Span,
};
use crate::snapshot::{snapshot_wf, SnapshotView};
use crate::text::{
    end_of, lemma_end_bounds, lemma_pos_order, pos_add, pos_at, pos_le, pos_lt, pos_sub, pos_zero,
    Pos,
};
use crate::transform::{
    in_pos, in_start, lemma_seek, lemma_starts_order, lies_before, out_pos, out_start, place_at,
    reaches, Piece, Target,
};
use vstd::prelude::*;
use vstd::utf8::is_char_boundary_start_end_of_seq;

verus! {

/// A cursor may rest at `offset`.
pub open spec fn is_stop(stops: Seq<usize>, offset: int) -> bool {
    exists|i: int| 0 <= i < stops.len() && #[trigger] stops[i] == offset
}

/// Every piece starts where a cursor may rest.
pub open spec fn pieces_at_stops(snapshot: SnapshotView) -> bool {
    forall|k: int|
        0 <= k <= snapshot.pieces.len() ==> is_stop(
            snapshot.fold.stops,
            #[trigger] in_start(snapshot.pieces, k),
        )
}

/// A cursor may rest between any two characters of the text below.
pub open spec fn stops_everywhere(fold: FoldView) -> bool {
    forall|offset: int| #[trigger] on_boundary(fold.text, offset) ==> is_stop(fold.stops, offset)
}

/// A cursor may rest where the places of marks start and end.
pub open spec fn places_at_stops(places: Seq<Option<Span>>, stops: Seq<usize>) -> bool {
    forall|i: int|
        0 <= i < places.len() && (#[trigger] places[i]) is Some ==> is_stop(
            stops,
            places[i]->0.start,
        ) && is_stop(stops, places[i]->0.end)
}

/// Where a cursor may rest between any two characters, pieces start where it may rest.
pub proof fn law_stops_everywhere(snapshot: SnapshotView)
    requires
        snapshot_wf(snapshot),
        stops_everywhere(snapshot.fold),
    ensures
        pieces_at_stops(snapshot),
{
    assert forall|k: int| 0 <= k <= snapshot.pieces.len() implies is_stop(
        snapshot.fold.stops,
        #[trigger] in_start(snapshot.pieces, k),
    ) by {
        assert(on_boundary(snapshot.fold.text, in_start(snapshot.pieces, k)));
    }
}

/// Of any two pieces side by side one is a replacement.
spec fn alternates(ps: Seq<Piece>) -> bool {
    forall|i: int, j: int|
        0 <= i && j == i + 1 && j < ps.len() ==> (#[trigger] ps[i]) is Swap || (
        #[trigger] ps[j]) is Swap
}

proof fn lemma_lay_out_alternates(text: Seq<u8>, rs: Seq<Hidden>, k: int)
    requires
        0 <= k <= rs.len(),
    ensures
        alternates(lay_out(text, Seq::empty(), rs, k)),
        lay_out(text, Seq::empty(), rs, k).len() > 0 ==> lay_out(
            text,
            Seq::empty(),
            rs,
            k,
        ).last() is Swap,
    decreases k,
{
    if k > 0 {
        lemma_lay_out_alternates(text, rs, k - 1);
    }
}

/// When marks are set that start and end where a cursor may rest, so do the pieces.
pub proof fn law_set_stops(map: MapView, marks: Seq<Mark>)
    requires
        fold_wf(map.snapshot.fold),
        anchored(marks, map.snapshot.fold),
        places_at_stops(places(map.snapshot.fold, marks), map.snapshot.fold.stops),
    ensures
        pieces_at_stops(with_marks(map, marks).snapshot),
{
    let fold = map.snapshot.fold;
    let text = fold.text;
    let spans = places(fold, marks);
    let rs = resolved(marks, spans, map.revealed);
    let ps = cover(text, Seq::empty(), rs);
    is_char_boundary_start_end_of_seq(text);
    lemma_places(fold, marks);
    lemma_hidden_between(marks, spans, map.revealed, text);
    lemma_cover(text, rs);
    lemma_lay_out_alternates(text, rs, rs.len() as int);
    law_resolved(marks, spans, map.revealed, text.len() as int);
    assert(alternates(ps));
    assert forall|q: Hidden| #[trigger] hides(ps, q) implies is_stop(fold.stops, q.start)
        && is_stop(fold.stops, q.end) by {
        let at = rs.index_of(q);
        assert(has_mark(marks, spans, map.revealed, marks.len() as int, rs[at]));
        let i = choose|i: int|
            0 <= i < marks.len() && is_candidate(marks, spans, map.revealed, i, rs[at]);
        assert(spans[i] is Some);
    }
    assert forall|k: int| 0 <= k <= ps.len() implies is_stop(
        fold.stops,
        #[trigger] in_start(ps, k),
    ) by {
        if k == 0 {
            assert(fold.stops[0] == 0);
        } else if k == ps.len() {
            assert(fold.stops[fold.stops.len() - 1] == text.len());
        } else if ps[k] is Swap {
            assert(hides(ps, hidden_at(ps, k, 0)));
        } else {
            assert(ps[k - 1] is Swap);
            assert(hides(ps, hidden_at(ps, k - 1, 0)));
        }
    }
}

/// There is a last offset that does not come after a position.
proof fn lemma_floor(text: Seq<u8>, p: Pos, k: int) -> (x: int)
    requires
        pos_le(pos_zero(), p),
        0 <= k <= text.len(),
        k < text.len() ==> !pos_le(pos_at(text, k + 1), p),
    ensures
        is_floor(text, p, x),
    decreases k,
{
    assert(text.take(0) =~= Seq::<u8>::empty());
    if pos_le(pos_at(text, k), p) {
        k
    } else {
        lemma_floor(text, p, k - 1)
    }
}

/// The stop next to the last offset that does not come after a position.
proof fn lemma_clip_at(fold: FoldView, p: Pos, x: int, bias: Bias) -> (stop: int)
    requires
        fold_wf(fold),
        is_floor(fold.text, p, x),
    ensures
        stop == clip_offset(fold, p, bias),
        is_next_stop(fold.stops, x, bias, stop),
        is_stop(fold.stops, stop),
        0 <= stop <= fold.text.len(),
{
    let i = lemma_next_stop(fold.stops, x, bias, fold.text.len() as int);
    let stop = fold.stops[i] as int;
    assert(is_next_stop(fold.stops, x, bias, stop));
    assert(is_clip(fold, p, bias, stop));
    lemma_clip_unique(fold, p, bias, stop);
    stop
}

/// An offset is the last one that does not come after its position.
proof fn lemma_own_floor(text: Seq<u8>, x: int)
    requires
        0 <= x <= text.len(),
    ensures
        is_floor(text, pos_at(text, x), x),
{
    if x < text.len() {
        lemma_pos_order(text, x + 1, x);
    }
}

/// A cursor at a stop stays there.
proof fn lemma_clip_stop(fold: FoldView, x: int, bias: Bias)
    requires
        fold_wf(fold),
        is_stop(fold.stops, x),
    ensures
        0 <= x <= fold.text.len(),
        clip_offset(fold, pos_at(fold.text, x), bias) == x,
{
    let i = choose|i: int| 0 <= i < fold.stops.len() && #[trigger] fold.stops[i] == x;
    assert(on_boundary(fold.text, fold.stops[i] as int));
    lemma_own_floor(fold.text, x);
    let stop = lemma_clip_at(fold, pos_at(fold.text, x), x, bias);
    assert(fold.stops[i] == x);
}

/// There is a stop next to every offset.
proof fn lemma_next_stop(stops: Seq<usize>, x: int, bias: Bias, len: int) -> (i: int)
    requires
        0 <= x <= len,
        stops.len() > 0,
        stops[0] == 0,
        stops.last() == len,
        forall|i: int, j: int|
            0 <= i < j < stops.len() ==> #[trigger] stops[i] < #[trigger] stops[j],
    ensures
        0 <= i < stops.len(),
        is_next_stop(stops, x, bias, stops[i] as int),
        stops[i] <= len,
{
    let i = match bias {
        Bias::Left => lemma_last_stop(stops, x, stops.len() as int),
        Bias::Right => lemma_first_stop(stops, x, 0),
    };
    assert(stops[i] == stops[i]);
    if i < stops.len() - 1 {
        assert(stops[i] < stops[stops.len() - 1]);
    }
    i
}

proof fn lemma_last_stop(stops: Seq<usize>, x: int, k: int) -> (i: int)
    requires
        0 <= x,
        0 < k <= stops.len(),
        stops[0] == 0,
        forall|i: int, j: int|
            0 <= i < j < stops.len() ==> #[trigger] stops[i] < #[trigger] stops[j],
        forall|j: int| k <= j < stops.len() ==> #[trigger] stops[j] > x,
    ensures
        0 <= i < stops.len(),
        stops[i] <= x,
        forall|j: int| 0 <= j < stops.len() && (#[trigger] stops[j]) <= x ==> stops[j] <= stops[i],
    decreases k,
{
    if stops[k - 1] <= x {
        assert forall|j: int| 0 <= j < stops.len() && (#[trigger] stops[j]) <= x implies stops[j]
            <= stops[k - 1] by {
            if j < k - 1 {
                assert(stops[j] < stops[k - 1]);
            }
        }
        k - 1
    } else {
        lemma_last_stop(stops, x, k - 1)
    }
}

proof fn lemma_first_stop(stops: Seq<usize>, x: int, k: int) -> (i: int)
    requires
        0 <= k < stops.len(),
        x <= stops.last(),
        forall|i: int, j: int|
            0 <= i < j < stops.len() ==> #[trigger] stops[i] < #[trigger] stops[j],
        forall|j: int| 0 <= j < k ==> #[trigger] stops[j] < x,
    ensures
        0 <= i < stops.len(),
        x <= stops[i],
        forall|j: int| 0 <= j < stops.len() && x <= (#[trigger] stops[j]) ==> stops[i] <= stops[j],
    decreases stops.len() - k,
{
    if x <= stops[k] {
        assert forall|j: int| 0 <= j < stops.len() && x <= (#[trigger] stops[j]) implies stops[k]
            <= stops[j] by {
            if k < j {
                assert(stops[k] < stops[j]);
            }
        }
        k
    } else {
        lemma_first_stop(stops, x, k + 1)
    }
}

/// Where nothing is replaced, nothing lies within a replacement.
proof fn lemma_nothing_inside(snapshot: SnapshotView, offset: int)
    requires
        snapshot_wf(snapshot),
        snapshot.passthrough,
    ensures
        !inside_swap(snapshot.pieces, offset),
{
    if inside_swap(snapshot.pieces, offset) {
        let k = choose|k: int|
            0 <= k < snapshot.pieces.len() && (#[trigger] snapshot.pieces[k]) is Swap && out_start(
                snapshot.pieces,
                k,
            ) < offset < out_start(snapshot.pieces, k + 1);
        assert(snapshot.pieces[k] is Same);
    }
}

/// A cursor that comes to `offset` of the displayed text stays there.
spec fn can_rest(snapshot: SnapshotView, offset: int) -> bool {
    let ps = snapshot.pieces;
    let k = piece_at(ps, Target::ConcealOffset(offset));
    &&& 0 <= offset <= snapshot.text().len()
    &&& snapshot.passthrough ==> is_stop(snapshot.fold.stops, offset)
    &&& !snapshot.passthrough ==> {
        ||| k >= ps.len()
        ||| ps[k] is Swap && offset == out_start(ps, k)
        ||| ps[k] is Same && is_stop(
            snapshot.fold.stops,
            in_start(ps, k) + (offset - out_start(ps, k)),
        )
    }
}

/// A cursor may rest where a piece starts.
proof fn lemma_rest_at_piece(snapshot: SnapshotView, k: int)
    requires
        snapshot_wf(snapshot),
        pieces_at_stops(snapshot),
        !snapshot.passthrough,
        0 <= k <= snapshot.pieces.len(),
    ensures
        can_rest(snapshot, out_start(snapshot.pieces, k)),
{
    let ps = snapshot.pieces;
    let text = snapshot.fold.text;
    let o = out_start(ps, k);
    let j = piece_at(ps, Target::ConcealOffset(o));
    lemma_piece_starts(ps, text, k);
    lemma_piece_at_offset(ps, text, o);
    if j < ps.len() {
        if j < k {
            lemma_starts_order(ps, j + 1, k);
        }
        lemma_starts_order(ps, k, j);
        assert(is_stop(snapshot.fold.stops, in_start(ps, j)));
    }
}

/// A cursor stays where it may rest, outside of replacements and between characters.
#[verifier::rlimit(30)]
proof fn lemma_rest_stays(snapshot: SnapshotView, offset: int, bias: Bias)
    requires
        snapshot_wf(snapshot),
        can_rest(snapshot, offset),
    ensures
        clip_pos(snapshot, pos_at(snapshot.text(), offset), bias) == pos_at(
            snapshot.text(),
            offset,
        ),
        can_clip(snapshot, pos_at(snapshot.text(), offset), bias),
        between_shown(snapshot, offset),
{
    let ps = snapshot.pieces;
    let text = snapshot.fold.text;
    let d = snapshot.text();
    let n = ps.len() as int;
    let k = piece_at(ps, Target::ConcealOffset(offset));
    assert(d.take(d.len() as int) =~= d);
    lemma_piece_at_pos(ps, text, offset);
    lemma_piece_at_offset(ps, text, offset);
    lemma_piece_starts(ps, text, k);
    lemma_piece_starts(ps, text, n);
    if snapshot.passthrough {
        law_passthrough(snapshot);
        lemma_clip_stop(snapshot.fold, offset, bias);
        lemma_nothing_inside(snapshot, offset);
        let i = choose|i: int|
            0 <= i < snapshot.fold.stops.len() && #[trigger] snapshot.fold.stops[i] == offset;
        assert(on_boundary(text, snapshot.fold.stops[i] as int));
    } else {
        if inside_swap(ps, offset) {
            let j = choose|j: int|
                0 <= j < ps.len() && (#[trigger] ps[j]) is Swap && out_start(ps, j) < offset
                    < out_start(ps, j + 1);
            if j < k {
                lemma_starts_order(ps, j + 1, k);
            } else if k < j {
                lemma_starts_order(ps, k + 1, j);
            }
        }
        assert(on_boundary(text, in_start(ps, k)));
        if k < n && ps[k] is Same {
            let x = in_start(ps, k) + (offset - out_start(ps, k));
            lemma_same_piece(ps, text, k, in_start(ps, k + 1));
            lemma_same_piece(ps, text, k, x);
            lemma_clip_stop(snapshot.fold, x, bias);
            lemma_pos_order(text, in_start(ps, k), x);
            lemma_end_bounds(text.take(x));
            lemma_end_bounds(d.take(offset));
            let i = choose|i: int|
                0 <= i < snapshot.fold.stops.len() && #[trigger] snapshot.fold.stops[i] == x;
            assert(on_boundary(text, snapshot.fold.stops[i] as int));
        }
    }
}

/// A position in a piece that shows the text below stands for one in what it shows.
proof fn lemma_pos_below(snapshot: SnapshotView, p: Pos, k: int)
    requires
        snapshot_wf(snapshot),
        !snapshot.passthrough,
        0 <= p.row,
        0 <= p.column,
        k == piece_at(snapshot.pieces, Target::ConcealPoint(p)),
        0 <= k < snapshot.pieces.len(),
        snapshot.pieces[k] is Same,
    ensures
        pos_le(out_pos(snapshot.pieces, k), p),
        pos_le(in_pos(snapshot.pieces, k), to_fold_pos(snapshot, p)),
        pos_lt(to_fold_pos(snapshot, p), in_pos(snapshot.pieces, k + 1)),
{
    let ps = snapshot.pieces;
    let target = Target::ConcealPoint(p);
    lemma_seek(ps, target, Bias::Right, 0);
    assert(reaches(place_at(ps, 0), target));
    assert(!lies_before(place_at(ps, k + 1), target, Bias::Right));
    lemma_starts_order(ps, k, k + 1);
    let lines = ps[k].input().lines;
    assert(in_pos(ps, k + 1) == pos_add(in_pos(ps, k), lines));
    assert(out_pos(ps, k + 1) == pos_add(out_pos(ps, k), lines));
}

/// What comes no later below is shown no later.
proof fn lemma_pos_above(above: Pos, below: Pos, p: Pos, s: Pos)
    requires
        pos_le(above, p),
        pos_le(below, s),
        pos_le(s, pos_add(below, pos_sub(p, above))),
    ensures
        pos_le(pos_add(above, pos_sub(s, below)), p),
{
}

/// Where a cursor comes to rest.
proof fn lemma_clips(snapshot: SnapshotView, p: Pos, bias: Bias) -> (o: int)
    requires
        snapshot_wf(snapshot),
        pieces_at_stops(snapshot),
        0 <= p.row,
        0 <= p.column,
    ensures
        can_rest(snapshot, o),
        clip_pos(snapshot, p, bias) == pos_at(snapshot.text(), o),
        bias == Bias::Left ==> pos_le(clip_pos(snapshot, p, bias), p),
        pos_le(end_of(snapshot.text()), p) ==> o == snapshot.text().len(),
        pos_fits(to_fold_pos(snapshot, p)) ==> can_clip(snapshot, p, bias),
{
    let ps = snapshot.pieces;
    let text = snapshot.fold.text;
    let d = snapshot.text();
    let n = ps.len() as int;
    let k = piece_at(ps, Target::ConcealPoint(p));
    let target = Target::ConcealPoint(p);
    assert(d.take(d.len() as int) =~= d);
    lemma_piece_starts(ps, text, n);
    lemma_seek(ps, target, Bias::Right, 0);
    assert(reaches(place_at(ps, 0), target));
    if snapshot.passthrough {
        law_passthrough(snapshot);
        let x = lemma_floor(text, p, text.len() as int);
        let stop = lemma_clip_at(snapshot.fold, p, x, bias);
        lemma_pos_order(text, stop, x);
        if pos_le(end_of(text), p) && x < text.len() {
            lemma_pos_order(text, x + 1, text.len() as int);
        }
        if x == text.len() {
            let last = snapshot.fold.stops.len() - 1;
            assert(snapshot.fold.stops[last] == text.len());
        }
        stop
    } else if k >= n {
        lemma_rest_at_piece(snapshot, n);
        out_start(ps, n)
    } else {
        assert(!lies_before(place_at(ps, k + 1), target, Bias::Right));
        if pos_le(end_of(d), p) {
            lemma_piece_at_end(ps, text, p);
        }
        lemma_piece_starts(ps, text, k);
        lemma_piece_starts(ps, text, k + 1);
        lemma_rest_at_piece(snapshot, k);
        lemma_rest_at_piece(snapshot, k + 1);
        if ps[k] is Swap {
            if p == out_pos(ps, k) || bias == Bias::Left {
                out_start(ps, k)
            } else {
                out_start(ps, k + 1)
            }
        } else {
            lemma_clips_same(snapshot, p, bias, k)
        }
    }
}

/// Where a cursor comes to rest in a piece that shows the text below.
proof fn lemma_clips_same(snapshot: SnapshotView, p: Pos, bias: Bias, k: int) -> (o: int)
    requires
        snapshot_wf(snapshot),
        pieces_at_stops(snapshot),
        !snapshot.passthrough,
        0 <= p.row,
        0 <= p.column,
        k == piece_at(snapshot.pieces, Target::ConcealPoint(p)),
        0 <= k < snapshot.pieces.len(),
        snapshot.pieces[k] is Same,
    ensures
        can_rest(snapshot, o),
        clip_pos(snapshot, p, bias) == pos_at(snapshot.text(), o),
        bias == Bias::Left ==> pos_le(clip_pos(snapshot, p, bias), p),
        pos_fits(to_fold_pos(snapshot, p)) ==> can_clip(snapshot, p, bias),
{
    let ps = snapshot.pieces;
    let text = snapshot.fold.text;
    let d = snapshot.text();
    let below = to_fold_pos(snapshot, p);
    lemma_pos_below(snapshot, p, k);
    lemma_piece_starts(ps, text, k);
    lemma_piece_starts(ps, text, k + 1);
    lemma_starts_order(ps, 0, k);
    lemma_starts_order(ps, k, k + 1);
    let x = lemma_floor(text, below, text.len() as int);
    lemma_pos_order(text, x, in_start(ps, k + 1));
    if x < in_start(ps, k) {
        lemma_pos_order(text, x + 1, in_start(ps, k));
    }
    let stop = lemma_clip_at(snapshot.fold, below, x, bias);
    assert(is_stop(snapshot.fold.stops, in_start(ps, k)));
    assert(is_stop(snapshot.fold.stops, in_start(ps, k + 1)));
    assert(in_start(ps, k) <= stop <= in_start(ps, k + 1));
    let o = out_start(ps, k) + (stop - in_start(ps, k));
    lemma_same_piece(ps, text, k, in_start(ps, k + 1));
    lemma_same_piece(ps, text, k, stop);
    lemma_pos_order(text, in_start(ps, k), stop);
    lemma_pos_order(text, stop, x);
    lemma_end_bounds(d.take(o));
    assert(clipped_below(snapshot, p, bias) == pos_at(text, stop));
    if bias == Bias::Left {
        lemma_pos_above(out_pos(ps, k), in_pos(ps, k), p, pos_at(text, stop));
    }
    if stop == in_start(ps, k + 1) {
        lemma_rest_at_piece(snapshot, k + 1);
    } else {
        let j = piece_at(ps, Target::ConcealOffset(o));
        lemma_piece_at_offset(ps, text, o);
        if j < k {
            lemma_starts_order(ps, j + 1, k);
        } else if k < j {
            lemma_starts_order(ps, k + 1, j);
        }
    }
    o
}

/// Where pieces start at stops, a cursor at any position comes to rest in the displayed
/// text, outside of replacements and between characters, and stays there. One that leans
/// to the left does not go forward, and one at the end of the text or behind it comes to
/// rest at the end.
pub proof fn law_clip(snapshot: SnapshotView, p: Pos, bias: Bias)
    requires
        snapshot_wf(snapshot),
        pieces_at_stops(snapshot),
        0 <= p.row,
        0 <= p.column,
    ensures
        ({
            let q = clip_pos(snapshot, p, bias);
            &&& pos_fits(to_fold_pos(snapshot, p)) ==> can_clip(snapshot, p, bias)
            &&& rests(snapshot, q)
            &&& between_shown(snapshot, to_conceal_offset(snapshot, q))
            &&& can_clip(snapshot, q, Bias::Left)
            &&& can_clip(snapshot, q, Bias::Right)
            &&& clip_pos(snapshot, q, Bias::Left) == q
            &&& clip_pos(snapshot, q, Bias::Right) == q
            &&& bias == Bias::Left ==> pos_le(q, p)
            &&& pos_le(end_of(snapshot.text()), p) ==> q == end_of(snapshot.text())
        }),
{
    let d = snapshot.text();
    let o = lemma_clips(snapshot, p, bias);
    assert(d.take(d.len() as int) =~= d);
    lemma_rest_stays(snapshot, o, Bias::Left);
    lemma_rest_stays(snapshot, o, Bias::Right);
    law_offset_round_trip(snapshot, o);
}

} // verus!

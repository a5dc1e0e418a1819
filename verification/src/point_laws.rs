//! What holds of the ways between offsets, points and the two spaces.

use crate::coords::Bias;
use crate::display::{displayed, lemma_piece_starts, lemma_same_piece, lemma_shown_piece, reflects};
use crate::points::{
    conceal_pos, inside_swap, lemma_piece_at_offset, lemma_piece_at_pos, lemma_rests, lemma_row_in,
    piece_at, rests, row_rests, snap_left, to_conceal_offset, to_conceal_pos, to_fold_pos,
};
use crate::snapshot::{snapshot_wf, SnapshotView};
use crate::sync::{lemma_piece_behind, piece_behind};
use crate::text::{
    end_of, lemma_end_bounds, lemma_offset_at, lemma_pos_order, lemma_summary_wf, pos_at, pos_le,
    pos_sub, pos_zero, Pos, NEWLINE,
};
use crate::transform::{
    in_pos, in_start, lemma_seek, lemma_starts_order, lies_before, out_pos, out_start,
    pieces_measured, place_at, reaches, seek_from, Piece, Target,
};
use vstd::prelude::*;

verus! {

/// An offset that does not lie within a replacement is the offset of its point.
pub proof fn law_offset_round_trip(snapshot: SnapshotView, offset: int)
    requires
        snapshot_wf(snapshot),
        0 <= offset <= snapshot.text().len(),
        !inside_swap(snapshot.pieces, offset),
    ensures
        rests(snapshot, pos_at(snapshot.text(), offset)),
        offset < snapshot.text().len() ==> snap_left(snapshot.pieces, offset) == offset,
        to_conceal_offset(snapshot, pos_at(snapshot.text(), offset)) == offset,
{
    let d = snapshot.text();
    let ps = snapshot.pieces;
    assert(d.take(d.len() as int) =~= d);
    assert(rests(snapshot, pos_at(d, offset)));
    lemma_offset_at(d, offset);
    lemma_pos_order(d, offset, d.len() as int);
    lemma_piece_at_offset(ps, snapshot.fold.text, offset);
}

/// A point that does not lie within a replacement is the point of its offset.
pub proof fn law_point_round_trip(snapshot: SnapshotView, p: Pos)
    requires
        snapshot_wf(snapshot),
        rests(snapshot, p),
    ensures
        ({
            let offset = to_conceal_offset(snapshot, p);
            &&& 0 <= offset <= snapshot.text().len()
            &&& offset < snapshot.text().len() ==> pos_at(
                snapshot.text(),
                snap_left(snapshot.pieces, offset),
            ) == p
            &&& offset == snapshot.text().len() ==> end_of(snapshot.text()) == p
        }),
{
    let d = snapshot.text();
    assert(d.take(d.len() as int) =~= d);
    lemma_rests(snapshot, p);
    law_offset_round_trip(snapshot, to_conceal_offset(snapshot, p));
}

/// No replacement has more than one line.
pub open spec fn single_lines(ps: Seq<Piece>) -> bool {
    forall|k: int, i: int|
        0 <= k < ps.len() && (#[trigger] ps[k]) is Swap && 0 <= i < ps[k]->text.len()
            ==> #[trigger] ps[k]->text[i] != NEWLINE
}

/// Where replacements have one line, no row starts within one.
pub proof fn law_row_starts(snapshot: SnapshotView, row: int)
    requires
        snapshot_wf(snapshot),
        single_lines(snapshot.pieces),
        0 <= row <= end_of(snapshot.text()).row,
    ensures
        row_rests(snapshot, row),
{
    let d = snapshot.text();
    let ps = snapshot.pieces;
    let text = snapshot.fold.text;
    assert(d.take(d.len() as int) =~= d);
    lemma_row_in(d, row, d.len() as int);
    let at = choose|at: int|
        0 <= at <= d.len() && #[trigger] pos_at(d, at) == (Pos { row, column: 0 });
    if inside_swap(ps, at) {
        let k = choose|k: int|
            0 <= k < ps.len() && (#[trigger] ps[k]) is Swap && out_start(ps, k) < at < out_start(
                ps,
                k + 1,
            );
        lemma_shown_piece(ps, text, k);
        lemma_starts_order(ps, 0, k);
        let i = at - 1 - out_start(ps, k);
        assert(ps[k]->text[i] == d[at - 1]);
        assert(d.take(at).drop_last() =~= d.take(at - 1));
        assert(d.take(at).last() == d[at - 1]);
        lemma_end_bounds(d.take(at - 1));
    }
}

/// The piece behind the position of an offset of the text below is the piece behind the offset.
proof fn lemma_seek_below(ps: Seq<Piece>, text: Seq<u8>, x: int, k: int)
    requires
        reflects(ps, text),
        0 <= x <= text.len(),
        0 <= k <= ps.len(),
    ensures
        seek_from(ps, Target::FoldPoint(pos_at(text, x)), Bias::Right, k) == seek_from(
            ps,
            Target::FoldOffset(x),
            Bias::Right,
            k,
        ),
    decreases ps.len() - k,
{
    if k < ps.len() {
        lemma_piece_starts(ps, text, k + 1);
        lemma_pos_order(text, in_start(ps, k + 1), x);
        lemma_seek_below(ps, text, x, k + 1);
    }
}

/// Where an offset of the text below is shown.
pub open spec fn shown_at(ps: Seq<Piece>, x: int, bias: Bias) -> int {
    let k = piece_behind(ps, x);
    if k < ps.len() && ps[k] is Swap {
        if bias == Bias::Left || x == in_start(ps, k) {
            out_start(ps, k)
        } else {
            out_start(ps, k + 1)
        }
    } else {
        out_start(ps, k) + (x - in_start(ps, k))
    }
}

/// A point of the text below is shown at a position of the displayed text that
/// does not lie within a replacement.
pub proof fn law_shown_at(snapshot: SnapshotView, x: int, bias: Bias)
    requires
        snapshot_wf(snapshot),
        !snapshot.passthrough,
        0 <= x <= snapshot.fold.text.len(),
    ensures
        0 <= shown_at(snapshot.pieces, x, bias) <= snapshot.text().len(),
        to_conceal_pos(snapshot, pos_at(snapshot.fold.text, x), bias) == pos_at(
            snapshot.text(),
            shown_at(snapshot.pieces, x, bias),
        ),
        !inside_swap(snapshot.pieces, shown_at(snapshot.pieces, x, bias)),
{
    let ps = snapshot.pieces;
    let text = snapshot.fold.text;
    let d = snapshot.text();
    let n = ps.len() as int;
    let k = piece_behind(ps, x);
    let p = pos_at(text, x);
    let o = shown_at(ps, x, bias);
    lemma_seek_below(ps, text, x, 0);
    lemma_piece_behind(ps, x);
    lemma_piece_starts(ps, text, k);
    lemma_piece_starts(ps, text, n);
    if k < n {
        lemma_piece_starts(ps, text, k + 1);
        lemma_starts_order(ps, k, k + 1);
        if ps[k] is Swap {
            if x == in_start(ps, k) {
            } else {
                lemma_pos_order(text, x, in_start(ps, k));
            }
        } else {
            lemma_same_piece(ps, text, k, x);
            lemma_same_piece(ps, text, k, in_start(ps, k + 1));
            lemma_pos_order(d, o, out_start(ps, k + 1));
        }
    } else {
        assert(pos_sub(p, in_pos(ps, k)) == (Pos { row: 0, column: 0 }));
    }
    if inside_swap(ps, o) {
        let j = choose|j: int|
            0 <= j < ps.len() && (#[trigger] ps[j]) is Swap && out_start(ps, j) < o < out_start(
                ps,
                j + 1,
            );
        if j < k {
            lemma_starts_order(ps, j + 1, k);
        } else if j > k {
            lemma_starts_order(ps, k + 1, j);
        } else {
            lemma_starts_order(ps, k, k + 1);
        }
    }
}

/// A later point lies in no earlier piece.
proof fn lemma_seek_order(ps: Seq<Piece>, p: Pos, q: Pos, k: int)
    requires
        pos_le(p, q),
        0 <= k <= ps.len(),
    ensures
        seek_from(ps, Target::FoldPoint(p), Bias::Right, k) <= seek_from(
            ps,
            Target::FoldPoint(q),
            Bias::Right,
            k,
        ),
    decreases ps.len() - k,
{
    if k < ps.len() && lies_before(place_at(ps, k + 1), Target::FoldPoint(p), Bias::Right) {
        assert(lies_before(place_at(ps, k + 1), Target::FoldPoint(q), Bias::Right));
        lemma_seek_order(ps, p, q, k + 1);
    } else {
        lemma_seek(ps, Target::FoldPoint(q), Bias::Right, k);
    }
}

/// A point is shown where the piece that it lies in is shown.
proof fn lemma_shown_in_piece(ps: Seq<Piece>, p: Pos, bias: Bias)
    requires
        pieces_measured(ps),
        pos_le(pos_zero(), p),
    ensures
        ({
            let n = ps.len() as int;
            let k = piece_at(ps, Target::FoldPoint(p));
            let shown = conceal_pos(false, ps, p, bias);
            &&& 0 <= k <= n
            &&& pos_le(in_pos(ps, k), p)
            &&& pos_le(out_pos(ps, k), shown)
            &&& k < n ==> pos_le(shown, out_pos(ps, k + 1))
            &&& k == n ==> shown == out_pos(ps, n)
            &&& pos_le(shown, out_pos(ps, n))
            &&& pos_le(in_pos(ps, n), p) ==> k == n
        }),
{
    let n = ps.len() as int;
    let k = piece_at(ps, Target::FoldPoint(p));
    lemma_seek(ps, Target::FoldPoint(p), Bias::Right, 0);
    assert(reaches(place_at(ps, 0), Target::FoldPoint(p)));
    lemma_starts_order(ps, k, n);
    if k < n {
        lemma_starts_order(ps, k, k + 1);
        lemma_starts_order(ps, k + 1, n);
        assert(!lies_before(place_at(ps, k + 1), Target::FoldPoint(p), Bias::Right));
    }
}

/// Later points of the text below are shown no earlier. Where something is concealed,
/// none is shown behind the end of the displayed text, and the end of the text below and
/// all behind it are shown there. A point that leans to the left is shown no later than if
/// it leans to the right.
pub proof fn law_shown_in_order(snapshot: SnapshotView, p: Pos, q: Pos, bias: Bias)
    requires
        snapshot_wf(snapshot),
        pos_le(pos_zero(), p),
        pos_le(p, q),
    ensures
        pos_le(to_conceal_pos(snapshot, p, bias), to_conceal_pos(snapshot, q, bias)),
        pos_le(to_conceal_pos(snapshot, p, Bias::Left), to_conceal_pos(snapshot, p, Bias::Right)),
        !snapshot.passthrough ==> pos_le(
            to_conceal_pos(snapshot, q, bias),
            end_of(snapshot.text()),
        ),
        !snapshot.passthrough && pos_le(end_of(snapshot.fold.text), q) ==> to_conceal_pos(
            snapshot,
            q,
            bias,
        ) == end_of(snapshot.text()),
{
    let ps = snapshot.pieces;
    let text = snapshot.fold.text;
    let n = ps.len() as int;
    let i = piece_at(ps, Target::FoldPoint(p));
    let j = piece_at(ps, Target::FoldPoint(q));
    lemma_seek_order(ps, p, q, 0);
    lemma_shown_in_piece(ps, p, bias);
    lemma_shown_in_piece(ps, q, bias);
    lemma_piece_starts(ps, text, n);
    assert(text.take(text.len() as int) =~= text);
    if i < n {
        lemma_starts_order(ps, i, i + 1);
    }
    if i < j {
        lemma_starts_order(ps, i + 1, j);
    }
}

/// A point of the text below that is not replaced, or that starts something that
/// is replaced by some text, is the point shown where it is shown.
pub proof fn law_fold_round_trip(snapshot: SnapshotView, x: int, bias: Bias)
    requires
        snapshot_wf(snapshot),
        0 <= x <= snapshot.fold.text.len(),
        ({
            let k = piece_behind(snapshot.pieces, x);
            k < snapshot.pieces.len() && snapshot.pieces[k] is Swap ==> x == in_start(
                snapshot.pieces,
                k,
            ) && snapshot.pieces[k]->text.len() > 0
        }),
    ensures
        to_fold_pos(
            snapshot,
            to_conceal_pos(snapshot, pos_at(snapshot.fold.text, x), bias),
        ) == pos_at(snapshot.fold.text, x),
{
    let ps = snapshot.pieces;
    let text = snapshot.fold.text;
    let d = snapshot.text();
    if !snapshot.passthrough {
        let k = piece_behind(ps, x);
        let o = shown_at(ps, x, bias);
        law_shown_at(snapshot, x, bias);
        lemma_piece_behind(ps, x);
        lemma_piece_at_pos(ps, text, o);
        lemma_piece_at_offset(ps, text, o);
        let j = piece_at(ps, Target::ConcealOffset(o));
        lemma_piece_starts(ps, text, k);
        lemma_piece_starts(ps, text, ps.len() as int);
        if k < ps.len() {
            lemma_starts_order(ps, k, k + 1);
            if ps[k] is Same {
                lemma_same_piece(ps, text, k, in_start(ps, k + 1));
                lemma_same_piece(ps, text, k, x);
            } else {
                lemma_summary_wf(ps[k]->text);
            }
            if j < k {
                lemma_starts_order(ps, j + 1, k);
            } else if k < j {
                lemma_starts_order(ps, k + 1, j);
            }
        }
        lemma_end_bounds(text.take(x));
    }
}

} // verus!

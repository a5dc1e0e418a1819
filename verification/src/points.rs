//! The way between offsets and points, and between the two spaces.

use crate::coords::{pos_fits, Bias, ConcealOffset, ConcealPoint, FoldOffset, FoldPoint, MAX_LEN};
use crate::cursor::{SeekTarget, TransformCursor};
use crate::display::{displayed, lemma_all_same, lemma_piece_starts, lemma_same_piece, reflects};
use crate::fold::clip_offset;
use crate::snapshot::{snapshot_wf, ConcealSnapshot, SnapshotView};
use crate::text::{
    end_of, lemma_end_bounds, lemma_offset_at, lemma_pos_order, offset_at, pos_add, pos_at, pos_in,
    pos_le, pos_min, pos_sub, pos_zero, Pos, NEWLINE,
};
use crate::transform::{
    in_pos, in_start, lemma_seek, lemma_starts_order, lemma_sums, out_pos, out_start, seek_from,
    Piece, Target,
};
use vstd::prelude::*;

verus! {

/// The piece behind `target`.
pub open spec fn piece_at(ps: Seq<Piece>, target: Target) -> int {
    seek_from(ps, target, Bias::Right, 0)
}

/// `offset` lies within a replacement, and not at its start.
pub open spec fn inside_swap(ps: Seq<Piece>, offset: int) -> bool {
    exists|k: int|
        0 <= k < ps.len() && (#[trigger] ps[k]) is Swap && out_start(ps, k) < offset < out_start(
            ps,
            k + 1,
        )
}

/// `p` is a position of the displayed text that does not lie within a replacement.
pub open spec fn rests(snapshot: SnapshotView, p: Pos) -> bool {
    exists|offset: int|
        0 <= offset <= snapshot.text().len() && #[trigger] pos_at(snapshot.text(), offset) == p
            && !inside_swap(snapshot.pieces, offset)
}

/// The offset of `p` in the displayed text; its length if `p` comes behind it.
pub open spec fn to_conceal_offset(snapshot: SnapshotView, p: Pos) -> int {
    if pos_le(end_of(snapshot.text()), p) {
        snapshot.text().len() as int
    } else {
        offset_at(snapshot.text(), p)
    }
}

/// The point of fold space that is shown at `p`; within a replacement, the point
/// as far behind the start of what is replaced as `p` is behind the start of the replacement.
pub open spec fn to_fold_pos(snapshot: SnapshotView, p: Pos) -> Pos {
    if snapshot.passthrough {
        p
    } else {
        let ps = snapshot.pieces;
        let k = piece_at(ps, Target::ConcealPoint(p));
        pos_add(in_pos(ps, k), pos_sub(p, out_pos(ps, k)))
    }
}

/// The point of conceal space where the point `p` of fold space is shown; for one
/// that is replaced, the start or the end of the replacement.
pub open spec fn to_conceal_pos(snapshot: SnapshotView, p: Pos, bias: Bias) -> Pos {
    conceal_pos(snapshot.passthrough, snapshot.pieces, p, bias)
}

/// The same for a list of pieces.
pub open spec fn conceal_pos(passthrough: bool, ps: Seq<Piece>, p: Pos, bias: Bias) -> Pos {
    if passthrough {
        p
    } else {
        conceal_pos_at(ps, piece_at(ps, Target::FoldPoint(p)), p, bias)
    }
}

/// The same, if piece `k` is the one behind `p`.
pub open spec fn conceal_pos_at(ps: Seq<Piece>, k: int, p: Pos, bias: Bias) -> Pos {
    if k < ps.len() && ps[k] is Swap {
        if bias == Bias::Left || p == in_pos(ps, k) {
            out_pos(ps, k)
        } else {
            out_pos(ps, k + 1)
        }
    } else {
        pos_min(
            pos_add(out_pos(ps, k), pos_sub(p, in_pos(ps, k))),
            out_pos(
                ps,
                if k < ps.len() {
                    k + 1
                } else {
                    k
                },
            ),
        )
    }
}

/// Where a cursor at `p` of conceal space comes to rest.
pub open spec fn clip_pos(snapshot: SnapshotView, p: Pos, bias: Bias) -> Pos {
    let ps = snapshot.pieces;
    let k = piece_at(ps, Target::ConcealPoint(p));
    if snapshot.passthrough {
        pos_at(snapshot.fold.text, clip_offset(snapshot.fold, p, bias))
    } else if k >= ps.len() {
        end_of(snapshot.text())
    } else if ps[k] is Swap {
        if p == out_pos(ps, k) || bias == Bias::Left {
            out_pos(ps, k)
        } else {
            out_pos(ps, k + 1)
        }
    } else {
        pos_add(out_pos(ps, k), pos_sub(clipped_below(snapshot, p, bias), in_pos(ps, k)))
    }
}

/// Where a cursor comes to rest at the point of fold space that is shown at `p`.
pub open spec fn clipped_below(snapshot: SnapshotView, p: Pos, bias: Bias) -> Pos {
    pos_at(
        snapshot.fold.text,
        clip_offset(snapshot.fold, to_fold_pos(snapshot, p), bias),
    )
}

/// `offset`, or the start of the replacement that it lies within.
pub open spec fn snap_left(ps: Seq<Piece>, offset: int) -> int {
    let k = piece_at(ps, Target::ConcealOffset(offset));
    if k < ps.len() && ps[k] is Swap {
        out_start(ps, k)
    } else {
        offset
    }
}

/// The piece behind an offset of the displayed text covers the byte behind it.
pub proof fn lemma_piece_at_offset(ps: Seq<Piece>, text: Seq<u8>, offset: int)
    requires
        reflects(ps, text),
        0 <= offset,
    ensures
        ({
            let k = piece_at(ps, Target::ConcealOffset(offset));
            &&& 0 <= k <= ps.len()
            &&& out_start(ps, k) <= offset
            &&& k < ps.len() ==> offset < out_start(ps, k + 1)
            &&& k == ps.len() <==> offset >= displayed(ps, text).len()
        }),
{
    let k = piece_at(ps, Target::ConcealOffset(offset));
    lemma_seek(ps, Target::ConcealOffset(offset), Bias::Right, 0);
    lemma_piece_starts(ps, text, ps.len() as int);
    if k < ps.len() {
        lemma_piece_starts(ps, text, k + 1);
    }
}

/// The piece behind the position of an offset is the piece behind the offset.
pub proof fn lemma_piece_at_pos(ps: Seq<Piece>, text: Seq<u8>, offset: int)
    requires
        reflects(ps, text),
        0 <= offset <= displayed(ps, text).len(),
    ensures
        piece_at(ps, Target::ConcealPoint(pos_at(displayed(ps, text), offset))) == piece_at(
            ps,
            Target::ConcealOffset(offset),
        ),
{
    lemma_seek_alike(ps, text, offset, 0);
}

proof fn lemma_seek_alike(ps: Seq<Piece>, text: Seq<u8>, offset: int, k: int)
    requires
        reflects(ps, text),
        0 <= offset <= displayed(ps, text).len(),
        0 <= k <= ps.len(),
    ensures
        seek_from(ps, Target::ConcealPoint(pos_at(displayed(ps, text), offset)), Bias::Right, k)
            == seek_from(ps, Target::ConcealOffset(offset), Bias::Right, k),
    decreases ps.len() - k,
{
    if k < ps.len() {
        lemma_piece_starts(ps, text, k + 1);
        lemma_pos_order(displayed(ps, text), out_start(ps, k + 1), offset);
        lemma_seek_alike(ps, text, offset, k + 1);
    }
}

/// A position behind the displayed text lies behind all pieces.
pub proof fn lemma_piece_at_end(ps: Seq<Piece>, text: Seq<u8>, p: Pos)
    requires
        reflects(ps, text),
        pos_le(end_of(displayed(ps, text)), p),
    ensures
        piece_at(ps, Target::ConcealPoint(p)) == ps.len(),
{
    let k = piece_at(ps, Target::ConcealPoint(p));
    lemma_seek(ps, Target::ConcealPoint(p), Bias::Right, 0);
    if k < ps.len() {
        lemma_starts_order(ps, k + 1, ps.len() as int);
        lemma_piece_starts(ps, text, ps.len() as int);
    }
}

/// The offset of a position of the displayed text.
pub proof fn lemma_rests(snapshot: SnapshotView, p: Pos)
    requires
        rests(snapshot, p),
    ensures
        0 <= to_conceal_offset(snapshot, p) <= snapshot.text().len(),
        pos_at(snapshot.text(), to_conceal_offset(snapshot, p)) == p,
        !inside_swap(snapshot.pieces, to_conceal_offset(snapshot, p)),
{
    let d = snapshot.text();
    let at = choose|at: int|
        0 <= at <= d.len() && #[trigger] pos_at(d, at) == p && !inside_swap(snapshot.pieces, at);
    assert(d.take(d.len() as int) =~= d);
    lemma_pos_order(d, at, d.len() as int);
    lemma_offset_at(d, at);
}

/// Where nothing is concealed, the text below is displayed.
pub proof fn law_passthrough(snapshot: SnapshotView)
    requires
        snapshot_wf(snapshot),
        snapshot.passthrough,
    ensures
        snapshot.text() == snapshot.fold.text,
{
    let text = snapshot.fold.text;
    lemma_all_same(snapshot.pieces, text, snapshot.pieces.len() as int);
    assert(text.take(text.len() as int) =~= text);
}

impl ConcealSnapshot {
    /// The length of the displayed text.
    pub fn len(&self) -> (len: ConcealOffset)
        requires
            self.inv(),
            snapshot_wf(self@),
        ensures
            len@ == self@.text().len(),
    {
        proof {
            lemma_piece_starts(self@.pieces, self@.fold.text, self@.pieces.len() as int);
        }
        if self.passthrough() {
            proof {
                law_passthrough(self@);
            }
            return ConcealOffset(self.fold().len().0);
        }
        self.transforms().output_len()
    }

    /// The end of the displayed text.
    pub fn max_point(&self) -> (point: ConcealPoint)
        requires
            self.inv(),
            snapshot_wf(self@),
        ensures
            point@ == end_of(self@.text()),
    {
        if self.passthrough() {
            proof {
                law_passthrough(self@);
            }
            return ConcealPoint(self.fold().max_point().0);
        }
        proof {
            lemma_piece_starts(self@.pieces, self@.fold.text, self@.pieces.len() as int);
            lemma_sums(self@.pieces, self@.pieces.len() as int);
        }
        ConcealPoint(self.transforms().summary().output.lines)
    }

    /// Where a point of fold space is shown.
    pub fn to_conceal_point(&self, point: FoldPoint, bias: Bias) -> (shown: ConcealPoint)
        requires
            self.inv(),
            snapshot_wf(self@),
            conceal_pos_fits(self@.passthrough, self@.pieces, point@),
        ensures
            shown@ == to_conceal_pos(self@, point@, bias),
    {
        if self.passthrough() {
            return ConcealPoint(point.0);
        }
        let mut cursor = TransformCursor::new(self.transforms());
        proof {
            lemma_seek(self@.pieces, Target::FoldPoint(point@), Bias::Right, 0);
        }
        cursor.seek(SeekTarget::FoldPoint(point), Bias::Right);
        conceal_point_at(&cursor, point, bias)
    }
}

/// The place in conceal space as far behind the start of the piece behind `p` as
/// `p` is can be held by a point.
pub open spec fn conceal_pos_fits(passthrough: bool, ps: Seq<Piece>, p: Pos) -> bool {
    let k = piece_at(ps, Target::FoldPoint(p));
    passthrough || (k < ps.len() && ps[k] is Swap) || pos_fits(
        pos_add(out_pos(ps, k), pos_sub(p, in_pos(ps, k))),
    )
}

/// Where `point` is shown, if it lies in the piece where `cursor` stands.
pub(crate) fn conceal_point_at(cursor: &TransformCursor<'_>, point: FoldPoint, bias: Bias) -> (shown:
    ConcealPoint)
    requires
        cursor.inv(),
        pos_le(in_pos(cursor.pieces(), cursor.at()), point@),
        cursor.at() >= cursor.pieces().len() || cursor.pieces()[cursor.at()] is Same ==> pos_fits(
            pos_add(
                out_pos(cursor.pieces(), cursor.at()),
                pos_sub(point@, in_pos(cursor.pieces(), cursor.at())),
            ),
        ),
    ensures
        shown@ == conceal_pos_at(cursor.pieces(), cursor.at(), point@, bias),
{
    proof {
        cursor.lemma_inv();
    }
    let start = cursor.start();
    let end = cursor.end();
    let concealed = match cursor.item() {
        Some(transform) => transform.is_concealment(),
        None => false,
    };
    if concealed {
        if bias == Bias::Left || point == start.fold_point {
            start.conceal_point
        } else {
            end.conceal_point
        }
    } else {
        let overshoot = point.0.minus(start.fold_point.0);
        ConcealPoint(start.conceal_point.0.plus(overshoot).earlier(end.conceal_point.0))
    }
}

impl ConcealPoint {
    /// The point of fold space that is shown at this point.
    pub fn to_fold_point(self, snapshot: &ConcealSnapshot) -> (point: FoldPoint)
        requires
            snapshot.inv(),
            snapshot_wf(snapshot@),
            pos_fits(to_fold_pos(snapshot@, self@)),
        ensures
            point@ == to_fold_pos(snapshot@, self@),
    {
        if snapshot.passthrough() {
            return FoldPoint(self.0);
        }
        let mut cursor = TransformCursor::new(snapshot.transforms());
        proof {
            lemma_seek(snapshot@.pieces, Target::ConcealPoint(self@), Bias::Right, 0);
        }
        cursor.seek(SeekTarget::ConcealPoint(self), Bias::Right);
        let start = cursor.start();
        let overshoot = self.0.minus(start.conceal_point.0);
        FoldPoint(start.fold_point.0.plus(overshoot))
    }

    /// The offset of this point; the length of the text for a point behind the text.
    pub fn to_offset(self, snapshot: &ConcealSnapshot) -> (offset: ConcealOffset)
        requires
            snapshot.inv(),
            snapshot_wf(snapshot@),
            rests(snapshot@, self@) || (!snapshot@.passthrough && pos_le(
                end_of(snapshot@.text()),
                self@,
            )),
        ensures
            offset@ == to_conceal_offset(snapshot@, self@),
            offset@ <= snapshot@.text().len(),
            rests(snapshot@, self@) ==> pos_at(snapshot@.text(), offset@) == self@ && !inside_swap(
                snapshot@.pieces,
                offset@,
            ),
    {
        let ghost v = snapshot@;
        let ghost offset = to_conceal_offset(v, self@);
        proof {
            if rests(v, self@) {
                lemma_rests(v, self@);
            }
        }
        if snapshot.passthrough() {
            proof {
                law_passthrough(v);
                lemma_offset_at(v.fold.text, offset);
            }
            return ConcealOffset(FoldPoint(self.0).to_offset(snapshot).0);
        }
        let ghost k = piece_at(v.pieces, Target::ConcealPoint(self@));
        proof {
            lemma_to_offset(v, self@);
        }
        let mut cursor = TransformCursor::new(snapshot.transforms());
        cursor.seek(SeekTarget::ConcealPoint(self), Bias::Right);
        let start = cursor.start();
        let overshoot = self.0.minus(start.conceal_point.0);
        if overshoot.is_zero() {
            return start.conceal_offset;
        }
        match cursor.item() {
            Some(_) => {
                let end = FoldPoint(start.fold_point.0.plus(overshoot)).to_offset(snapshot);
                proof {
                    lemma_offset_at(
                        v.fold.text,
                        in_start(v.pieces, k) + (offset - out_start(v.pieces, k)),
                    );
                }
                ConcealOffset::at(
                    start.conceal_offset.0.0 + (end.0.0 - start.fold_offset.0.0),
                )
            },
            None => snapshot.len(),
        }
    }
}

/// Where a position lies that is not within a replacement, or behind the text.
proof fn lemma_to_offset(v: SnapshotView, p: Pos)
    requires
        snapshot_wf(v),
        0 <= p.row,
        0 <= p.column,
        rests(v, p) || pos_le(end_of(v.text()), p),
    ensures
        ({
            let ps = v.pieces;
            let text = v.fold.text;
            let k = piece_at(ps, Target::ConcealPoint(p));
            let o = to_conceal_offset(v, p);
            let x = in_start(ps, k) + (o - out_start(ps, k));
            &&& 0 <= k <= ps.len()
            &&& pos_le(out_pos(ps, k), p)
            &&& 0 <= out_start(ps, k) <= o <= v.text().len()
            &&& v.text().len() <= MAX_LEN
            &&& pos_sub(p, out_pos(ps, k)) == pos_zero() ==> o == out_start(ps, k)
            &&& pos_sub(p, out_pos(ps, k)) != pos_zero() && k < ps.len() ==> {
                &&& 0 <= in_start(ps, k) <= x <= text.len()
                &&& pos_at(text, x) == pos_add(in_pos(ps, k), pos_sub(p, out_pos(ps, k)))
                &&& pos_fits(pos_at(text, x))
            }
            &&& k == ps.len() ==> o == v.text().len()
        }),
{
    let ps = v.pieces;
    let text = v.fold.text;
    let d = v.text();
    let n = ps.len() as int;
    let k = piece_at(ps, Target::ConcealPoint(p));
    let o = to_conceal_offset(v, p);
    lemma_seek(ps, Target::ConcealPoint(p), Bias::Right, 0);
    lemma_piece_starts(ps, text, n);
    if rests(v, p) {
        lemma_rests(v, p);
        lemma_piece_at_pos(ps, text, o);
        lemma_piece_at_offset(ps, text, o);
    } else {
        lemma_piece_at_end(ps, text, p);
    }
    lemma_piece_starts(ps, text, k);
    if k < n {
        lemma_pos_order(d, out_start(ps, k), o);
        if out_start(ps, k) < o {
            assert(ps[k] is Same);
            let x = in_start(ps, k) + (o - out_start(ps, k));
            lemma_same_piece(ps, text, k, in_start(ps, k + 1));
            lemma_same_piece(ps, text, k, x);
            lemma_end_bounds(text.take(x));
        }
    }
}

impl ConcealOffset {
    /// The point of this offset; the start of the replacement for an offset within
    /// one, the end of the text for an offset behind it.
    pub fn to_point(self, snapshot: &ConcealSnapshot) -> (point: ConcealPoint)
        requires
            snapshot.inv(),
            snapshot_wf(snapshot@),
            snapshot@.passthrough ==> self@ <= snapshot@.text().len(),
        ensures
            self@ < snapshot@.text().len() ==> point@ == pos_at(
                snapshot@.text(),
                snap_left(snapshot@.pieces, self@),
            ),
            self@ >= snapshot@.text().len() ==> point@ == end_of(snapshot@.text()),
    {
        let ghost v = snapshot@;
        let ghost ps = v.pieces;
        let ghost text = v.fold.text;
        let ghost d = v.text();
        let ghost k = piece_at(ps, Target::ConcealOffset(self@));
        proof {
            assert(d.take(d.len() as int) =~= d);
            lemma_piece_at_offset(ps, text, self@);
            lemma_seek(ps, Target::ConcealOffset(self@), Bias::Right, 0);
            lemma_piece_starts(ps, text, k);
        }
        if snapshot.passthrough() {
            proof {
                law_passthrough(v);
            }
            return ConcealPoint(FoldOffset(self.0).to_point(snapshot).0);
        }
        let mut cursor = TransformCursor::new(snapshot.transforms());
        cursor.seek(SeekTarget::ConcealOffset(self), Bias::Right);
        match cursor.item() {
            Some(transform) => {
                let start = cursor.start();
                if transform.is_concealment() {
                    start.conceal_point
                } else {
                    let overshoot: usize = self.0.0 - start.conceal_offset.0.0;
                    let ghost x = in_start(ps, k) + overshoot;
                    proof {
                        lemma_same_piece(ps, text, k, in_start(ps, k + 1));
                        lemma_same_piece(ps, text, k, x);
                        lemma_pos_order(text, in_start(ps, k), x);
                        lemma_end_bounds(d.take(self@));
                    }
                    let fold_point = FoldOffset::at(start.fold_offset.0.0 + overshoot).to_point(
                        snapshot,
                    );
                    ConcealPoint(
                        start.conceal_point.0.plus(fold_point.0.minus(start.fold_point.0)),
                    )
                }
            },
            None => snapshot.max_point(),
        }
    }
}

/// Row `row` of `s` is `len` bytes long: it has a column `len` and none behind it.
pub open spec fn line_is(s: Seq<u8>, row: int, len: int) -> bool {
    &&& pos_in(s, Pos { row, column: len })
    &&& !pos_in(s, Pos { row, column: len + 1 })
}

/// The offsets of a row count its columns.
proof fn lemma_line(s: Seq<u8>, row: int, start: int, end: int)
    requires
        0 <= start <= end <= s.len(),
        pos_at(s, start) == (Pos { row, column: 0 }),
        end < s.len() ==> pos_at(s, end + 1) == (Pos { row: row + 1, column: 0 }),
        end == s.len() ==> end_of(s).row == row,
    ensures
        line_is(s, row, end - start),
{
    lemma_columns(s, row, start, end, end);
    assert(pos_at(s, end) == (Pos { row, column: end - start }));
    let behind = Pos { row, column: end - start + 1 };
    if pos_in(s, behind) {
        let at = choose|at: int| 0 <= at <= s.len() && #[trigger] pos_at(s, at) == behind;
        lemma_pos_order(s, end, at);
        if end < s.len() {
            lemma_pos_order(s, at, end + 1);
        }
    }
}

proof fn lemma_columns(s: Seq<u8>, row: int, start: int, end: int, at: int)
    requires
        0 <= start <= at <= end <= s.len(),
        pos_at(s, start) == (Pos { row, column: 0 }),
        end < s.len() ==> pos_at(s, end + 1) == (Pos { row: row + 1, column: 0 }),
        end == s.len() ==> end_of(s).row == row,
    ensures
        pos_at(s, at) == (Pos { row, column: at - start }),
    decreases at - start,
{
    if start < at {
        lemma_columns(s, row, start, end, at - 1);
        assert(s.take(at).drop_last() =~= s.take(at - 1));
        assert(s.take(at).last() == s[at - 1]);
        if s[at - 1] == NEWLINE {
            assert(pos_at(s, at) == (Pos { row: row + 1, column: 0 }));
            if end < s.len() {
                lemma_pos_order(s, at, end + 1);
            } else {
                assert(s.take(end) =~= s);
                lemma_pos_order(s, at, end);
            }
        }
    }
}

/// The byte before the start of a row ends the row before.
proof fn lemma_row_start(s: Seq<u8>, row: int, at: int)
    requires
        0 <= row,
        0 <= at <= s.len(),
        pos_at(s, at) == (Pos { row: row + 1, column: 0 }),
    ensures
        0 < at,
        pos_at(s, at - 1).row == row,
{
    assert(s.take(0) =~= Seq::<u8>::empty());
    assert(s.take(at).drop_last() =~= s.take(at - 1));
    lemma_end_bounds(s.take(at - 1));
}

/// A position with a row and column 0 comes no later than any with that row.
pub proof fn lemma_row_in(s: Seq<u8>, row: int, upto: int)
    requires
        0 <= row <= pos_at(s, upto).row,
        0 <= upto <= s.len(),
    ensures
        exists|at: int|
            0 <= at <= upto && #[trigger] pos_at(s, at) == (Pos { row, column: 0 }),
    decreases upto,
{
    assert(s.take(0) =~= Seq::<u8>::empty());
    lemma_end_bounds(s.take(upto));
    if pos_at(s, upto) == (Pos { row, column: 0 }) {
    } else {
        assert(upto > 0);
        assert(s.take(upto).drop_last() =~= s.take(upto - 1));
        lemma_end_bounds(s.take(upto - 1));
        lemma_row_in(s, row, upto - 1);
        let at = choose|at: int|
            0 <= at <= upto - 1 && #[trigger] pos_at(s, at) == (Pos { row, column: 0 });
        assert(0 <= at <= upto);
    }
}

/// Row `row` of the displayed text does not start within a replacement.
pub open spec fn row_rests(snapshot: SnapshotView, row: int) -> bool {
    rests(snapshot, Pos { row, column: 0 })
}

impl ConcealSnapshot {
    /// The length of a row of the displayed text; 0 for a row behind it.
    pub fn line_len(&self, row: u32) -> (len: u32)
        requires
            self.inv(),
            snapshot_wf(self@),
            row <= end_of(self@.text()).row ==> row_rests(self@, row as int),
            row < end_of(self@.text()).row ==> row_rests(self@, row + 1),
            self@.passthrough ==> row <= end_of(self@.text()).row,
        ensures
            row <= end_of(self@.text()).row ==> line_is(self@.text(), row as int, len as int),
            row > end_of(self@.text()).row ==> len == 0,
    {
        let ghost d = self@.text();
        proof {
            assert(d.take(d.len() as int) =~= d);
            lemma_end_bounds(d);
            lemma_piece_starts(self@.pieces, self@.fold.text, self@.pieces.len() as int);
        }
        let line_start = ConcealPoint::new(row, 0).to_offset(self).0.0;
        let max_row = self.max_point().row();
        let line_end = if row >= max_row {
            self.len().0.0
        } else {
            let next = ConcealPoint::new(row + 1, 0).to_offset(self).0.0;
            proof {
                lemma_row_start(d, row as int, next as int);
                lemma_pos_order(d, line_start as int, next as int);
            }
            next - 1
        };
        if line_end < line_start {
            return 0;
        }
        proof {
            if row <= end_of(d).row {
                lemma_line(d, row as int, line_start as int, line_end as int);
            }
        }
        (line_end - line_start) as u32
    }

    /// Where a cursor at `point` comes to rest.
    pub fn clip_point(&self, point: ConcealPoint, bias: Bias) -> (clipped: ConcealPoint)
        requires
            self.inv(),
            snapshot_wf(self@),
            can_clip(self@, point@, bias),
        ensures
            clipped@ == clip_pos(self@, point@, bias),
    {
        if self.passthrough() {
            return ConcealPoint(self.fold().clip_point(FoldPoint(point.0), bias).0);
        }
        let ghost ps = self@.pieces;
        let ghost k = piece_at(ps, Target::ConcealPoint(point@));
        proof {
            lemma_seek(ps, Target::ConcealPoint(point@), Bias::Right, 0);
        }
        let mut cursor = TransformCursor::new(self.transforms());
        cursor.seek(SeekTarget::ConcealPoint(point), Bias::Right);
        match cursor.item() {
            Some(transform) => {
                let start = cursor.start();
                if transform.is_concealment() {
                    if point == start.conceal_point || bias == Bias::Left {
                        start.conceal_point
                    } else {
                        cursor.end().conceal_point
                    }
                } else {
                    let overshoot = point.0.minus(start.conceal_point.0);
                    let fold_point = FoldPoint(start.fold_point.0.plus(overshoot));
                    let clipped = self.fold().clip_point(fold_point, bias);
                    ConcealPoint(
                        start.conceal_point.0.plus(clipped.0.minus(start.fold_point.0)),
                    )
                }
            },
            None => self.max_point(),
        }
    }
}

/// A cursor at `p` can come to rest: the point of fold space shown there can be
/// held, and the place to rest does not come before the piece that shows it.
pub open spec fn can_clip(snapshot: SnapshotView, p: Pos, bias: Bias) -> bool {
    let ps = snapshot.pieces;
    let k = piece_at(ps, Target::ConcealPoint(p));
    snapshot.passthrough || k >= ps.len() || ps[k] is Swap || {
        &&& pos_fits(to_fold_pos(snapshot, p))
        &&& pos_le(in_pos(ps, k), clipped_below(snapshot, p, bias))
        &&& pos_fits(clip_pos(snapshot, p, bias))
    }
}

} // verus!

//! A walk over the rows of the displayed text.

use crate::counting::law_end_of;
use crate::coords::{pos_fits, Bias, ConcealPoint, FoldPoint};
use crate::cursor::{SeekTarget, TransformCursor};
use crate::display::{lemma_piece_starts, lemma_same_piece, lemma_shown_piece};
use crate::fold::{FoldRows, RowInfo};
use crate::point_laws::{law_row_starts, single_lines};
use crate::points::{lemma_piece_at_offset, lemma_rests, piece_at, to_conceal_offset, to_fold_pos};
use crate::snapshot::{snapshot_wf, ConcealSnapshot, SnapshotView};
use crate::text::{
    end_of, lemma_end_bounds, lemma_pos_order, pos_add, pos_at, pos_le, pos_lt, pos_sub, Pos,
};
use crate::transform::{
    in_pos, in_start, lemma_seek, lemma_starts_order, lies_before, out_pos, out_start,
    pieces_measured, pieces_wf, place_at, reaches, seek_from, Piece, Target,
};
use vstd::prelude::*;

verus! {

/// What a walk over rows has before it.
pub struct RowsView {
    pub pieces: Seq<Piece>,
    /// The rows of the text below.
    pub rows: Seq<RowInfo>,
    /// The piece where the walk stands.
    pub at: int,
    /// The next row of the text below.
    pub next_row: int,
    /// The next row of the displayed text.
    pub row: int,
}

/// The first piece from `from` on that ends at the start of `row` or behind it.
pub open spec fn piece_of_row(ps: Seq<Piece>, row: int, from: int) -> int {
    seek_from(ps, Target::ConcealPoint(Pos { row, column: 0 }), Bias::Left, from)
}

/// The point of fold space that stands for the start of `row`.
pub open spec fn row_below(ps: Seq<Piece>, row: int) -> Pos {
    let k = piece_of_row(ps, row, 0);
    pos_add(in_pos(ps, k), pos_sub(Pos { row, column: 0 }, out_pos(ps, k)))
}

/// A walk that starts at `row`.
pub open spec fn rows_from(ps: Seq<Piece>, rows: Seq<RowInfo>, row: int) -> RowsView {
    RowsView {
        pieces: ps,
        rows,
        at: piece_of_row(ps, row, 0),
        next_row: row_below(ps, row).row,
        row,
    }
}

/// The row of the text below that a walk gives next: when the walk moves on to
/// another piece, the row behind the one in which that piece starts.
pub open spec fn source_row(v: RowsView) -> int {
    let k = piece_of_row(v.pieces, v.row, v.at);
    if k > v.at {
        in_pos(v.pieces, k).row + 1
    } else {
        v.next_row
    }
}

/// What a walk gives next.
pub open spec fn next_row_info(v: RowsView) -> Option<RowInfo> {
    if piece_of_row(v.pieces, v.row, v.at) < v.pieces.len() && source_row(v) < v.rows.len() {
        Some(v.rows[source_row(v)])
    } else {
        None
    }
}

/// A walk one row on.
pub open spec fn rows_step(v: RowsView) -> RowsView {
    let k = piece_of_row(v.pieces, v.row, v.at);
    if k < v.pieces.len() {
        RowsView {
            at: k,
            next_row: if source_row(v) < v.rows.len() {
                source_row(v) + 1
            } else {
                source_row(v)
            },
            row: v.row + 1,
            ..v
        }
    } else {
        RowsView { at: k, ..v }
    }
}

/// A walk over the rows of the displayed text.
#[derive(Copy, Clone)]
pub struct ConcealRows<'a> {
    cursor: TransformCursor<'a>,
    input_rows: FoldRows<'a>,
    conceal_point: ConcealPoint,
}

impl<'a> View for ConcealRows<'a> {
    type V = RowsView;

    closed spec fn view(&self) -> RowsView {
        RowsView {
            pieces: self.cursor.pieces(),
            rows: self.input_rows.rows@,
            at: self.cursor.at(),
            next_row: self.input_rows.next_row as int,
            row: self.conceal_point@.row,
        }
    }
}

impl<'a> ConcealRows<'a> {
    pub closed spec fn inv(self) -> bool {
        let ps = self.cursor.pieces();
        &&& self.cursor.inv()
        &&& self.conceal_point@.column == 0
        &&& pos_le(out_pos(ps, self.cursor.at()), self.conceal_point@)
        &&& in_pos(ps, ps.len() as int).row < self.input_rows.rows@.len()
    }

    pub proof fn lemma_inv(self)
        requires
            self.inv(),
        ensures
            pieces_wf(self@.pieces),
            in_pos(self@.pieces, self@.pieces.len() as int).row < self@.rows.len(),
    {
        self.cursor.lemma_inv();
    }

    /// Starts the walk anew at `row`.
    pub fn seek(&mut self, row: u32)
        requires
            old(self).inv(),
            pos_fits(row_below(old(self)@.pieces, row as int)),
        ensures
            final(self).inv(),
            final(self)@ == rows_from(old(self)@.pieces, old(self)@.rows, row as int),
    {
        let conceal_point = ConcealPoint::new(row, 0);
        proof {
            self.cursor.lemma_inv();
            lemma_seek(
                self.cursor.pieces(),
                Target::ConcealPoint(conceal_point@),
                Bias::Left,
                0,
            );
        }
        self.cursor.seek(SeekTarget::ConcealPoint(conceal_point), Bias::Left);
        let start = self.cursor.start();
        let overshoot = conceal_point.0.minus(start.conceal_point.0);
        let fold_point = FoldPoint(start.fold_point.0.plus(overshoot));
        self.input_rows.seek(fold_point.row());
        self.conceal_point = conceal_point;
    }

    /// What is shown beside the next row, if there is one.
    pub fn next(&mut self) -> (info: Option<RowInfo>)
        requires
            old(self).inv(),
        ensures
            final(self).inv(),
            info == next_row_info(old(self)@),
            final(self)@ == rows_step(old(self)@),
    {
        let ghost ps = self.cursor.pieces();
        let ghost from = self.cursor.at();
        let ghost k = piece_of_row(ps, self.conceal_point@.row, from);
        let ghost v = self@;
        proof {
            self.cursor.lemma_inv();
            lemma_seek(ps, Target::ConcealPoint(self.conceal_point@), Bias::Left, from);
            lemma_starts_order(ps, k, ps.len() as int);
        }
        let mut traversed = false;
        while self.cursor.item().is_some() && self.cursor.end().conceal_point.0.before(
            self.conceal_point.0,
        )
            invariant
                self.cursor.inv(),
                self.cursor.pieces() == ps,
                self.input_rows == old(self).input_rows,
                self.conceal_point == old(self).conceal_point,
                self.conceal_point@.column == 0,
                pos_le(out_pos(ps, self.cursor.at()), self.conceal_point@),
                from <= self.cursor.at(),
                traversed == (self.cursor.at() > from),
                k == piece_of_row(ps, self.conceal_point@.row, self.cursor.at()),
            decreases ps.len() - self.cursor.at(),
        {
            self.cursor.next();
            traversed = true;
        }
        if self.cursor.item().is_some() {
            proof {
                lemma_starts_order(ps, k + 1, ps.len() as int);
            }
            if traversed {
                self.input_rows.seek(self.cursor.start().fold_point.row());
                self.input_rows.next();
            }
            *self.conceal_point.row_mut() += 1;
            self.input_rows.next()
        } else {
            None
        }
    }
}

impl ConcealSnapshot {
    /// A walk over the rows from `start_row` on.
    pub fn row_infos(&self, start_row: u32) -> (rows: ConcealRows<'_>)
        requires
            self.inv(),
            snapshot_wf(self@),
            pos_fits(row_below(self@.pieces, start_row as int)),
            row_below(self@.pieces, start_row as int).row < self@.fold.rows.len(),
        ensures
            rows.inv(),
            rows@ == rows_from(self@.pieces, self@.fold.rows, start_row as int),
    {
        let conceal_point = ConcealPoint::new(start_row, 0);
        proof {
            let ps = self@.pieces;
            lemma_seek(ps, Target::ConcealPoint(conceal_point@), Bias::Left, 0);
            lemma_piece_starts(ps, self@.fold.text, ps.len() as int);
            assert(self@.fold.text.take(self@.fold.text.len() as int) =~= self@.fold.text);
        }
        let mut cursor = TransformCursor::new(self.transforms());
        cursor.seek(SeekTarget::ConcealPoint(conceal_point), Bias::Left);
        let start = cursor.start();
        let overshoot = conceal_point.0.minus(start.conceal_point.0);
        let fold_point = FoldPoint(start.fold_point.0.plus(overshoot));
        ConcealRows {
            cursor,
            input_rows: self.fold().row_infos(fold_point.row()),
            conceal_point,
        }
    }
}

/// A walk stands before `row` and gives for it what a walk that starts there gives.
pub open spec fn tracks(v: RowsView, row: int) -> bool {
    let k = piece_of_row(v.pieces, row, 0);
    &&& v.row == row
    &&& 0 <= v.at <= k
    &&& piece_of_row(v.pieces, row, v.at) == k
    &&& k < v.pieces.len() ==> source_row(v) == row_below(v.pieces, row).row
}

/// A walk over later rows goes on from the pieces of earlier ones.
proof fn lemma_piece_of_row(ps: Seq<Piece>, row: int, from: int, k: int)
    requires
        pieces_measured(ps),
        0 <= from <= k <= ps.len(),
        pos_lt(out_pos(ps, k), Pos { row, column: 0 }) || k == from,
    ensures
        piece_of_row(ps, row, from) == piece_of_row(ps, row, k),
    decreases k - from,
{
    if from < k {
        lemma_starts_order(ps, from + 1, k);
        lemma_piece_of_row(ps, row, from + 1, k);
    }
}

/// A walk gives for the row where it starts the row of the text below that stands for it.
pub proof fn law_rows_start(ps: Seq<Piece>, rows: Seq<RowInfo>, row: int)
    requires
        pieces_measured(ps),
        0 <= row,
    ensures
        tracks(rows_from(ps, rows, row), row),
        piece_of_row(ps, row, 0) < ps.len() && row_below(ps, row).row < rows.len()
            ==> next_row_info(rows_from(ps, rows, row)) == Some(rows[row_below(ps, row).row]),
{
    let k = piece_of_row(ps, row, 0);
    lemma_seek(ps, Target::ConcealPoint(Pos { row, column: 0 }), Bias::Left, 0);
    assert(piece_of_row(ps, row, k) == k);
}

/// A walk gives for every row what a walk that starts there gives.
pub proof fn law_rows_step(v: RowsView, row: int)
    requires
        pieces_measured(v.pieces),
        0 <= row,
        tracks(v, row),
        piece_of_row(v.pieces, row, 0) < v.pieces.len(),
        source_row(v) < v.rows.len(),
    ensures
        next_row_info(v) == Some(v.rows[row_below(v.pieces, row).row]),
        tracks(rows_step(v), row + 1),
{
    let ps = v.pieces;
    let k = piece_of_row(ps, row, 0);
    let w = rows_step(v);
    let here = Target::ConcealPoint(Pos { row, column: 0 });
    let there = Target::ConcealPoint(Pos { row: row + 1, column: 0 });
    lemma_seek(ps, here, Bias::Left, 0);
    lemma_starts_order(ps, 0, k);
    assert(pos_lt(out_pos(ps, k), Pos { row: row + 1, column: 0 }));
    lemma_piece_of_row(ps, row + 1, 0, k);
    let m = piece_of_row(ps, row + 1, k);
    lemma_seek(ps, there, Bias::Left, k);
    if m > k && m < ps.len() {
        lemma_starts_order(ps, k + 1, m);
        assert(!lies_before(place_at(ps, k + 1), here, Bias::Left));
        assert(lies_before(place_at(ps, (m - 1) + 1), there, Bias::Left));
        lemma_starts_order(ps, m, m);
    }
}

/// Where replacements and what they replace have one line each, the rows of the
/// displayed text are those of the text below.
pub proof fn law_rows_alike(ps: Seq<Piece>, row: int)
    requires
        pieces_measured(ps),
        forall|k: int|
            0 <= k < ps.len() && (#[trigger] ps[k]) is Swap ==> ps[k].input().lines.row == 0
                && ps[k].output().lines.row == 0,
        0 <= row,
    ensures
        row_below(ps, row).row == row,
{
    let k = piece_of_row(ps, row, 0);
    lemma_seek(ps, Target::ConcealPoint(Pos { row, column: 0 }), Bias::Left, 0);
    lemma_rows_alike(ps, k);
    lemma_starts_order(ps, 0, k);
}

proof fn lemma_rows_alike(ps: Seq<Piece>, k: int)
    requires
        forall|k: int|
            0 <= k < ps.len() && (#[trigger] ps[k]) is Swap ==> ps[k].input().lines.row == 0
                && ps[k].output().lines.row == 0,
        0 <= k <= ps.len(),
    ensures
        in_pos(ps, k).row == out_pos(ps, k).row,
    decreases k,
{
    if k > 0 {
        lemma_rows_alike(ps, k - 1);
    }
}

/// Every replacement shows something.
pub open spec fn some_shown(ps: Seq<Piece>) -> bool {
    forall|k: int| 0 <= k < ps.len() && (#[trigger] ps[k]) is Swap ==> ps[k]->text.len() > 0
}

/// A walk `k` rows on.
pub open spec fn rows_after(v: RowsView, k: int) -> RowsView
    decreases k,
{
    if k <= 0 {
        v
    } else {
        rows_step(rows_after(v, k - 1))
    }
}

/// Where every replacement shows something, so does every piece behind the first.
proof fn lemma_some_shown(snapshot: SnapshotView, k: int)
    requires
        snapshot_wf(snapshot),
        some_shown(snapshot.pieces),
        0 < k < snapshot.pieces.len(),
    ensures
        out_start(snapshot.pieces, k) < out_start(snapshot.pieces, k + 1),
{
    let ps = snapshot.pieces;
    lemma_starts_order(ps, k, k + 1);
    if ps[k] is Same {
        lemma_same_piece(ps, snapshot.fold.text, k, in_start(ps, k + 1));
    } else {
        lemma_shown_piece(ps, snapshot.fold.text, k);
    }
}

/// A row that starts at the end of a piece does not follow a replacement of one line.
proof fn lemma_ends_row(snapshot: SnapshotView, k: int, row: int)
    requires
        snapshot_wf(snapshot),
        single_lines(snapshot.pieces),
        some_shown(snapshot.pieces),
        0 <= k < snapshot.pieces.len(),
        out_pos(snapshot.pieces, k + 1) == (Pos { row, column: 0 }),
    ensures
        snapshot.pieces[k] is Same,
{
    let ps = snapshot.pieces;
    let d = snapshot.text();
    if ps[k] is Swap {
        let at = out_start(ps, k + 1);
        lemma_shown_piece(ps, snapshot.fold.text, k);
        lemma_piece_starts(ps, snapshot.fold.text, k + 1);
        let i = at - 1 - out_start(ps, k);
        assert(ps[k]->text[i] == d[at - 1]);
        assert(d.take(at).drop_last() =~= d.take(at - 1));
        assert(d.take(at).last() == d[at - 1]);
        lemma_end_bounds(d.take(at - 1));
    }
}

/// A row whose preceding newline is shown from byte `x` of the text below, by a piece that
/// replaces nothing, stands for the row of the text below that this newline starts: a walk
/// that starts there gives the entry whose number is the number of newlines up to and with
/// that byte.
pub proof fn law_row_source(snapshot: SnapshotView, row: int, offset: int, k: int, x: int)
    requires
        snapshot_wf(snapshot),
        0 < offset <= snapshot.text().len(),
        pos_at(snapshot.text(), offset).row == row,
        pos_at(snapshot.text(), offset).column == 0,
        0 <= k < snapshot.pieces.len(),
        snapshot.pieces[k] is Same,
        out_start(snapshot.pieces, k) < offset <= out_start(snapshot.pieces, k + 1),
        x == in_start(snapshot.pieces, k) + (offset - 1 - out_start(snapshot.pieces, k)),
    ensures
        0 <= x < snapshot.fold.text.len(),
        snapshot.fold.text[x] == 10u8,
        piece_of_row(snapshot.pieces, row, 0) == k,
        row_below(snapshot.pieces, row) == pos_at(snapshot.fold.text, x + 1),
        row_below(snapshot.pieces, row).row == pos_at(snapshot.fold.text, x).row + 1,
        row_below(snapshot.pieces, row).row == snapshot.fold.text.take(x + 1).to_multiset().count(
            10u8,
        ),
        row_below(snapshot.pieces, row).row < snapshot.fold.rows.len(),
        next_row_info(rows_from(snapshot.pieces, snapshot.fold.rows, row)) == Some(
            snapshot.fold.rows[snapshot.fold.text.take(x + 1).to_multiset().count(10u8) as int],
        ),
{
    let ps = snapshot.pieces;
    let text = snapshot.fold.text;
    let d = snapshot.text();
    let p = Pos { row, column: 0 };
    lemma_piece_starts(ps, text, k);
    lemma_piece_starts(ps, text, k + 1);
    lemma_starts_order(ps, k, k + 1);
    lemma_pos_order(d, out_start(ps, k), offset);
    lemma_pos_order(d, offset, out_start(ps, k + 1));
    lemma_row_piece(ps, row, k);
    lemma_same_piece(ps, text, k, in_start(ps, k + 1));
    lemma_same_piece(ps, text, k, x + 1);
    let part = d.subrange(out_start(ps, k), offset);
    assert(part[part.len() - 1] == d[offset - 1]);
    assert(text.subrange(in_start(ps, k), x + 1)[x - in_start(ps, k)] == text[x]);
    lemma_row_newline(d, offset);
    assert(text.take(x + 1).drop_last() =~= text.take(x));
    assert(text.take(x + 1).last() == text[x]);
    law_end_of(text.take(x + 1));
    lemma_pos_order(text, x + 1, text.len() as int);
    assert(text.take(text.len() as int) =~= text);
    law_rows_start(ps, snapshot.fold.rows, row);
}

/// The byte before the start of a row is a newline.
proof fn lemma_row_newline(s: Seq<u8>, offset: int)
    requires
        0 < offset <= s.len(),
        pos_at(s, offset).column == 0,
    ensures
        s[offset - 1] == 10u8,
{
    assert(s.take(offset).drop_last() =~= s.take(offset - 1));
    assert(s.take(offset).last() == s[offset - 1]);
    lemma_end_bounds(s.take(offset - 1));
}

/// The piece of a row is the one that ends no earlier than the row starts, behind one that
/// does.
proof fn lemma_row_piece(ps: Seq<Piece>, row: int, k: int)
    requires
        pieces_measured(ps),
        0 <= k < ps.len(),
        k == 0 || pos_lt(out_pos(ps, k), Pos { row, column: 0 }),
        pos_le(Pos { row, column: 0 }, out_pos(ps, k + 1)),
    ensures
        piece_of_row(ps, row, 0) == k,
{
    let target = Target::ConcealPoint(Pos { row, column: 0 });
    let j = piece_of_row(ps, row, 0);
    lemma_seek(ps, target, Bias::Left, 0);
    if j < k {
        assert(!lies_before(place_at(ps, j + 1), target, Bias::Left));
        lemma_starts_order(ps, j + 1, k);
    } else if k < j {
        assert(lies_before(place_at(ps, k + 1), target, Bias::Left));
    }
}

/// The first row stands for the first row of the text below.
pub proof fn law_row_first(snapshot: SnapshotView)
    requires
        snapshot_wf(snapshot),
    ensures
        piece_of_row(snapshot.pieces, 0, 0) == 0,
        row_below(snapshot.pieces, 0) == (Pos { row: 0, column: 0 }),
        next_row_info(rows_from(snapshot.pieces, snapshot.fold.rows, 0)) == Some(
            snapshot.fold.rows[0],
        ),
{
    let ps = snapshot.pieces;
    lemma_starts_order(ps, 0, 1);
    lemma_row_piece(ps, 0, 0);
    lemma_end_bounds(snapshot.fold.text);
    law_rows_start(ps, snapshot.fold.rows, 0);
}

/// A row that starts within a replacement, or at the end of one, stands for the row as far
/// behind the first row of what is replaced as it is behind the first row of the replacement,
/// if there is such a row.
pub proof fn law_row_replaced(snapshot: SnapshotView, row: int, offset: int, k: int)
    requires
        snapshot_wf(snapshot),
        0 < offset <= snapshot.text().len(),
        pos_at(snapshot.text(), offset).row == row,
        pos_at(snapshot.text(), offset).column == 0,
        0 <= k < snapshot.pieces.len(),
        snapshot.pieces[k] is Swap,
        out_start(snapshot.pieces, k) < offset <= out_start(snapshot.pieces, k + 1),
    ensures
        ({
            let first = pos_at(snapshot.text(), out_start(snapshot.pieces, k)).row;
            let source = pos_at(snapshot.fold.text, in_start(snapshot.pieces, k)).row + (row
                - first);
            let info = next_row_info(rows_from(snapshot.pieces, snapshot.fold.rows, row));
            &&& source < snapshot.fold.rows.len() ==> info == Some(snapshot.fold.rows[source])
            &&& source >= snapshot.fold.rows.len() ==> info is None
        }),
{
    let ps = snapshot.pieces;
    let text = snapshot.fold.text;
    let d = snapshot.text();
    lemma_piece_starts(ps, text, k);
    lemma_piece_starts(ps, text, k + 1);
    lemma_pos_order(d, out_start(ps, k), offset);
    lemma_pos_order(d, offset, out_start(ps, k + 1));
    lemma_end_bounds(d.take(offset));
    lemma_row_piece(ps, row, k);
    law_rows_start(ps, snapshot.fold.rows, row);
}

/// Where replacements have one line, a row that is not the first follows a newline that a
/// piece shows which replaces nothing.
proof fn lemma_row_shown(snapshot: SnapshotView, row: int) -> (found: (int, int))
    requires
        snapshot_wf(snapshot),
        single_lines(snapshot.pieces),
        0 < row <= end_of(snapshot.text()).row,
    ensures
        ({
            let (offset, k) = found;
            &&& 0 < offset <= snapshot.text().len()
            &&& pos_at(snapshot.text(), offset).row == row
            &&& pos_at(snapshot.text(), offset).column == 0
            &&& 0 <= k < snapshot.pieces.len()
            &&& snapshot.pieces[k] is Same
            &&& out_start(snapshot.pieces, k) < offset <= out_start(snapshot.pieces, k + 1)
        }),
{
    let ps = snapshot.pieces;
    let d = snapshot.text();
    let p = Pos { row, column: 0 };
    law_row_starts(snapshot, row);
    lemma_rests(snapshot, p);
    let o = to_conceal_offset(snapshot, p);
    assert(d.take(0) =~= Seq::<u8>::empty());
    lemma_row_newline(d, o);
    let k = piece_at(ps, Target::ConcealOffset(o - 1));
    lemma_piece_at_offset(ps, snapshot.fold.text, o - 1);
    if ps[k] is Swap {
        lemma_shown_piece(ps, snapshot.fold.text, k);
        assert(ps[k]->text[o - 1 - out_start(ps, k)] == d[o - 1]);
    }
    (o, k)
}

/// Where replacements have one line, every row of the displayed text has an entry.
proof fn lemma_row_entry(snapshot: SnapshotView, row: int)
    requires
        snapshot_wf(snapshot),
        single_lines(snapshot.pieces),
        0 <= row <= end_of(snapshot.text()).row,
    ensures
        piece_of_row(snapshot.pieces, row, 0) < snapshot.pieces.len(),
        row_below(snapshot.pieces, row).row < snapshot.fold.rows.len(),
        pos_fits(row_below(snapshot.pieces, row)),
{
    if row == 0 {
        law_row_first(snapshot);
        lemma_end_bounds(snapshot.fold.text);
    } else {
        let (o, k) = lemma_row_shown(snapshot, row);
        let x = in_start(snapshot.pieces, k) + (o - 1 - out_start(snapshot.pieces, k));
        law_row_source(snapshot, row, o, k, x);
        lemma_end_bounds(snapshot.fold.text.take(x + 1));
    }
}

/// Where replacements have one line, empty ones among them, a walk that starts at a row of
/// the displayed text gives for each row from there to the last what a walk gives that starts
/// at that row, and nothing behind the last row.
pub proof fn law_rows_each(snapshot: SnapshotView, start: int, k: int)
    requires
        snapshot_wf(snapshot),
        single_lines(snapshot.pieces),
        0 <= start <= end_of(snapshot.text()).row,
        0 <= k <= end_of(snapshot.text()).row - start + 1,
    ensures
        ({
            let rows = snapshot.fold.rows;
            let v = rows_after(rows_from(snapshot.pieces, rows, start), k);
            let last = end_of(snapshot.text()).row;
            &&& start + k <= last ==> next_row_info(v) is Some && next_row_info(v)
                == next_row_info(rows_from(snapshot.pieces, rows, start + k))
            &&& start + k > last ==> next_row_info(v) is None
        }),
{
    let ps = snapshot.pieces;
    let rows = snapshot.fold.rows;
    let last = end_of(snapshot.text()).row;
    lemma_rows_after(snapshot, start, k);
    if start + k <= last {
        lemma_row_entry(snapshot, start + k);
        law_rows_step(rows_after(rows_from(ps, rows, start), k), start + k);
        law_rows_start(ps, rows, start + k);
    } else {
        lemma_rows_end(snapshot);
    }
}

/// No piece shows a row behind the last.
proof fn lemma_rows_end(snapshot: SnapshotView)
    requires
        snapshot_wf(snapshot),
    ensures
        piece_of_row(snapshot.pieces, end_of(snapshot.text()).row + 1, 0)
            == snapshot.pieces.len(),
{
    let ps = snapshot.pieces;
    let last = end_of(snapshot.text()).row;
    let target = Target::ConcealPoint(Pos { row: last + 1, column: 0 });
    let k = piece_of_row(ps, last + 1, 0);
    lemma_seek(ps, target, Bias::Left, 0);
    lemma_piece_starts(ps, snapshot.fold.text, ps.len() as int);
    if k < ps.len() {
        lemma_starts_order(ps, k + 1, ps.len() as int);
        assert(!lies_before(place_at(ps, k + 1), target, Bias::Left));
    }
}

/// Where replacements show something and have one line, the point of fold space that stands
/// for the start of a row is the one that is shown there.
#[verifier::rlimit(30)]
proof fn lemma_row_below(snapshot: SnapshotView, row: int)
    requires
        snapshot_wf(snapshot),
        single_lines(snapshot.pieces),
        some_shown(snapshot.pieces),
        0 <= row <= end_of(snapshot.text()).row,
    ensures
        piece_of_row(snapshot.pieces, row, 0) < snapshot.pieces.len(),
        row_below(snapshot.pieces, row).row == to_fold_pos(snapshot, Pos { row, column: 0 }).row,
        row_below(snapshot.pieces, row).row < snapshot.fold.rows.len(),
        pos_fits(row_below(snapshot.pieces, row)),
{
    let ps = snapshot.pieces;
    let text = snapshot.fold.text;
    let d = snapshot.text();
    let n = ps.len() as int;
    let p = Pos { row, column: 0 };
    let target = Target::ConcealPoint(p);
    let k = piece_of_row(ps, row, 0);
    let j = piece_at(ps, target);
    law_row_starts(snapshot, row);
    lemma_rests(snapshot, p);
    let o = to_conceal_offset(snapshot, p);
    lemma_seek(ps, target, Bias::Left, 0);
    lemma_seek(ps, target, Bias::Right, 0);
    assert(reaches(place_at(ps, 0), target));
    lemma_piece_starts(ps, text, n);
    assert(text.take(text.len() as int) =~= text);
    if k == n {
        assert(lies_before(place_at(ps, (n - 1) + 1), target, Bias::Left));
    }
    lemma_piece_starts(ps, text, k);
    lemma_piece_starts(ps, text, k + 1);
    lemma_starts_order(ps, k, k + 1);
    assert(!lies_before(place_at(ps, k + 1), target, Bias::Left));
    lemma_pos_order(d, out_start(ps, k), o);
    lemma_pos_order(d, o, out_start(ps, k + 1));
    let x = if ps[k] is Same {
        in_start(ps, k) + (o - out_start(ps, k))
    } else {
        in_start(ps, k)
    };
    if ps[k] is Same {
        lemma_same_piece(ps, text, k, in_start(ps, k + 1));
        lemma_same_piece(ps, text, k, x);
    } else {
        if p == out_pos(ps, k + 1) {
            lemma_ends_row(snapshot, k, row);
        }
        assert(o < out_start(ps, k + 1));
        assert(o == out_start(ps, k));
        lemma_end_bounds(text.take(x));
    }
    assert(row_below(ps, row) == pos_at(text, x));
    lemma_pos_order(text, x, text.len() as int);
    lemma_end_bounds(text.take(x));
    if snapshot.passthrough {
        law_rows_alike(ps, row);
    } else if p == out_pos(ps, k + 1) {
        lemma_ends_row(snapshot, k, row);
        assert(x == in_start(ps, k + 1));
        if j <= k {
            assert(!lies_before(place_at(ps, j + 1), target, Bias::Right));
            lemma_starts_order(ps, j + 1, k + 1);
        }
        if k + 1 < n {
            lemma_some_shown(snapshot, k + 1);
            lemma_piece_starts(ps, text, k + 2);
            lemma_pos_order(d, out_start(ps, k + 1), out_start(ps, k + 2));
            if k + 1 < j {
                assert(lies_before(place_at(ps, (k + 1) + 1), target, Bias::Right));
            }
        }
        assert(j == k + 1);
    } else {
        if j < k {
            assert(lies_before(place_at(ps, j + 1), target, Bias::Left));
        } else if k < j {
            assert(lies_before(place_at(ps, k + 1), target, Bias::Right));
        }
    }
}

/// A walk has come to the row that lies `k` rows on.
proof fn lemma_rows_after(snapshot: SnapshotView, start: int, k: int)
    requires
        snapshot_wf(snapshot),
        single_lines(snapshot.pieces),
        0 <= start,
        0 <= k <= end_of(snapshot.text()).row - start + 1,
    ensures
        tracks(
            rows_after(rows_from(snapshot.pieces, snapshot.fold.rows, start), k),
            start + k,
        ),
        rows_after(rows_from(snapshot.pieces, snapshot.fold.rows, start), k).pieces
            == snapshot.pieces,
        rows_after(rows_from(snapshot.pieces, snapshot.fold.rows, start), k).rows
            == snapshot.fold.rows,
    decreases k,
{
    let ps = snapshot.pieces;
    let rows = snapshot.fold.rows;
    if k <= 0 {
        law_rows_start(ps, rows, start);
    } else {
        let v = rows_after(rows_from(ps, rows, start), k - 1);
        lemma_rows_after(snapshot, start, k - 1);
        lemma_row_entry(snapshot, start + k - 1);
        law_rows_step(v, start + k - 1);
    }
}

/// Where replacements show something and have one line, a walk that starts at a row of the
/// displayed text gives one entry for each row from there to the last: that of the row of the
/// text below in which what is shown at the start of the row stands.
pub proof fn law_rows_all(snapshot: SnapshotView, start: int)
    requires
        snapshot_wf(snapshot),
        single_lines(snapshot.pieces),
        some_shown(snapshot.pieces),
        0 <= start <= end_of(snapshot.text()).row,
    ensures
        pos_fits(row_below(snapshot.pieces, start)),
        row_below(snapshot.pieces, start).row < snapshot.fold.rows.len(),
        ({
            let v = rows_from(snapshot.pieces, snapshot.fold.rows, start);
            let count = end_of(snapshot.text()).row - start + 1;
            &&& forall|k: int|
                0 <= k < count ==> next_row_info(#[trigger] rows_after(v, k)) == Some(
                    snapshot.fold.rows[to_fold_pos(
                        snapshot,
                        Pos { row: start + k, column: 0 },
                    ).row],
                )
            &&& next_row_info(rows_after(v, count)) is None
        }),
{
    let ps = snapshot.pieces;
    let rows = snapshot.fold.rows;
    let v = rows_from(ps, rows, start);
    let last = end_of(snapshot.text()).row;
    let count = last - start + 1;
    lemma_row_below(snapshot, start);
    assert forall|k: int| 0 <= k < count implies next_row_info(#[trigger] rows_after(v, k)) == Some(
        rows[to_fold_pos(snapshot, Pos { row: start + k, column: 0 }).row],
    ) by {
        lemma_rows_after(snapshot, start, k);
        lemma_row_below(snapshot, start + k);
        law_rows_step(rows_after(v, k), start + k);
    }
    lemma_rows_after(snapshot, start, count);
    lemma_rows_end(snapshot);
}

} // verus!

//! A walk that maps points of fold space in the order of the text.

use crate::coords::{Bias, ConcealPoint, FoldPoint};
use crate::cursor::{SeekTarget, TransformCursor};
use crate::points::{conceal_point_at, conceal_pos, conceal_pos_fits, to_conceal_pos};
use crate::snapshot::{ConcealSnapshot, SnapshotView};
use crate::text::{pos_le, pos_zero, Pos};
use crate::transform::{
    in_pos, lemma_seek, lemma_starts_order, pieces_measured, seek_from, Piece, Target,
};
use vstd::prelude::*;

verus! {

/// A walk that maps points of fold space in the order of the text.
pub struct ConcealPointCursor<'transforms> {
    passthrough: bool,
    cursor: TransformCursor<'transforms>,
}

/// A walk to a later point finds the piece that a walk from the start finds.
proof fn lemma_seek_on(ps: Seq<Piece>, p: Pos, from: int, k: int)
    requires
        pieces_measured(ps),
        0 <= from <= k <= ps.len(),
        pos_le(in_pos(ps, k), p),
    ensures
        seek_from(ps, Target::FoldPoint(p), Bias::Right, from) == seek_from(
            ps,
            Target::FoldPoint(p),
            Bias::Right,
            k,
        ),
    decreases k - from,
{
    if from < k {
        lemma_starts_order(ps, from + 1, k);
        lemma_seek_on(ps, p, from + 1, k);
    }
}

impl<'transforms> ConcealPointCursor<'transforms> {
    pub closed spec fn inv(self) -> bool {
        self.cursor.inv()
    }

    /// The pieces that are walked over.
    pub closed spec fn pieces(self) -> Seq<Piece> {
        self.cursor.pieces()
    }

    /// Nothing is concealed.
    pub closed spec fn passthrough(self) -> bool {
        self.passthrough
    }

    /// The walk cannot go back before this point.
    pub closed spec fn reached(self) -> Pos {
        if self.passthrough {
            pos_zero()
        } else {
            in_pos(self.cursor.pieces(), self.cursor.at())
        }
    }

    /// Where `point` is shown, which does not come before points mapped earlier.
    pub fn map(&mut self, point: FoldPoint, bias: Bias) -> (shown: ConcealPoint)
        requires
            old(self).inv(),
            pos_le(old(self).reached(), point@),
            conceal_pos_fits(old(self).passthrough(), old(self).pieces(), point@),
        ensures
            final(self).inv(),
            final(self).pieces() == old(self).pieces(),
            final(self).passthrough() == old(self).passthrough(),
            pos_le(final(self).reached(), point@),
            shown@ == conceal_pos(old(self).passthrough(), old(self).pieces(), point@, bias),
    {
        if self.passthrough {
            return ConcealPoint(point.0);
        }
        let target = SeekTarget::FoldPoint(point);
        proof {
            self.cursor.lemma_inv();
            lemma_seek_on(self.cursor.pieces(), point@, 0, self.cursor.at());
            lemma_seek(self.cursor.pieces(), Target::FoldPoint(point@), Bias::Right, 0);
        }
        if self.cursor.did_seek() {
            self.cursor.seek_forward(target, Bias::Right);
        } else {
            self.cursor.seek(target, Bias::Right);
        }
        conceal_point_at(&self.cursor, point, bias)
    }
}

impl ConcealSnapshot {
    /// A walk that maps points of fold space in the order of the text.
    pub fn conceal_point_cursor(&self) -> (cursor: ConcealPointCursor<'_>)
        requires
            self.inv(),
        ensures
            cursor.inv(),
            cursor.pieces() == self@.pieces,
            cursor.passthrough() == self@.passthrough,
            cursor.reached() == pos_zero(),
    {
        ConcealPointCursor {
            passthrough: self.passthrough(),
            cursor: TransformCursor::new(self.transforms()),
        }
    }
}

/// A walk that has mapped points up to `done` can map every later point, and maps it to
/// where the snapshot shows it.
pub proof fn law_maps_alike(
    snapshot: SnapshotView,
    cursor: ConcealPointCursor<'_>,
    done: Pos,
    p: Pos,
    bias: Bias,
)
    requires
        cursor.pieces() == snapshot.pieces,
        cursor.passthrough() == snapshot.passthrough,
        pos_le(cursor.reached(), done),
        pos_le(done, p),
    ensures
        pos_le(cursor.reached(), p),
        conceal_pos(cursor.passthrough(), cursor.pieces(), p, bias) == to_conceal_pos(
            snapshot,
            p,
            bias,
        ),
{
}

} // verus!

//! A walk over transforms that knows where it stands in both spaces.

use crate::coords::{Bias, ConcealOffset, ConcealPoint, FoldOffset, FoldPoint};
use crate::transform::{
    lemma_output_wf, lemma_seek, lemma_starts_order, lemma_swap_fits, lies_before, pieces_wf,
    place_at, reaches, seek_from, Piece, PlaceView, Target, Transform, Transforms,
};
use vstd::prelude::*;

verus! {

/// A position in both spaces at once.
#[derive(Copy, Clone, Debug, PartialEq, Eq)]
pub struct Place {
    pub fold_offset: FoldOffset,
    pub conceal_offset: ConcealOffset,
    pub fold_point: FoldPoint,
    pub conceal_point: ConcealPoint,
}

impl View for Place {
    type V = PlaceView;

    open spec fn view(&self) -> PlaceView {
        PlaceView {
            fold_offset: self.fold_offset@,
            conceal_offset: self.conceal_offset@,
            fold_point: self.fold_point@,
            conceal_point: self.conceal_point@,
        }
    }
}

/// What a walk looks for.
#[derive(Copy, Clone, Debug, PartialEq, Eq)]
pub enum SeekTarget {
    FoldOffset(FoldOffset),
    ConcealOffset(ConcealOffset),
    FoldPoint(FoldPoint),
    ConcealPoint(ConcealPoint),
}

impl View for SeekTarget {
    type V = Target;

    open spec fn view(&self) -> Target {
        match self {
            SeekTarget::FoldOffset(offset) => Target::FoldOffset(offset@),
            SeekTarget::ConcealOffset(offset) => Target::ConcealOffset(offset@),
            SeekTarget::FoldPoint(point) => Target::FoldPoint(point@),
            SeekTarget::ConcealPoint(point) => Target::ConcealPoint(point@),
        }
    }
}

fn place_lies_before(end: Place, target: SeekTarget, bias: Bias) -> (before: bool)
    ensures
        before == lies_before(end@, target@, bias),
{
    let right = bias == Bias::Right;
    match target {
        SeekTarget::FoldOffset(x) => end.fold_offset.0.0 < x.0.0 || (right && end.fold_offset.0.0
            == x.0.0),
        SeekTarget::ConcealOffset(x) => end.conceal_offset.0.0 < x.0.0 || (right
            && end.conceal_offset.0.0 == x.0.0),
        SeekTarget::FoldPoint(p) => end.fold_point.0.before(p.0) || (right && end.fold_point.0
            == p.0),
        SeekTarget::ConcealPoint(p) => end.conceal_point.0.before(p.0) || (right
            && end.conceal_point.0 == p.0),
    }
}

/// A walk over transforms.
#[derive(Copy, Clone)]
pub struct TransformCursor<'a> {
    transforms: &'a Transforms,
    index: usize,
    start: Place,
    did_seek: bool,
}

impl<'a> TransformCursor<'a> {
    /// The pieces that are walked over.
    pub closed spec fn pieces(self) -> Seq<Piece> {
        self.transforms@
    }

    /// The piece where the walk stands; past the last one at the end.
    pub closed spec fn at(self) -> int {
        self.index as int
    }

    /// The walk has begun.
    pub closed spec fn begun(self) -> bool {
        self.did_seek
    }

    pub closed spec fn inv(self) -> bool {
        &&& self.transforms.inv()
        &&& self.index <= self.transforms@.len()
        &&& self.start@ == place_at(self.transforms@, self.index as int)
    }

    pub proof fn lemma_inv(self)
        requires
            self.inv(),
        ensures
            0 <= self.at() <= self.pieces().len(),
            pieces_wf(self.pieces()),
    {
        self.transforms.lemma_inv();
    }

    pub fn new(transforms: &'a Transforms) -> (cursor: Self)
        requires
            transforms.inv(),
        ensures
            cursor.inv(),
            cursor.pieces() == transforms@,
            cursor.at() == 0,
            !cursor.begun(),
    {
        TransformCursor {
            transforms,
            index: 0,
            start: Place {
                fold_offset: FoldOffset::at(0),
                conceal_offset: ConcealOffset::at(0),
                fold_point: FoldPoint::new(0, 0),
                conceal_point: ConcealPoint::new(0, 0),
            },
            did_seek: false,
        }
    }

    pub fn did_seek(&self) -> (did_seek: bool)
        ensures
            did_seek == self.begun(),
    {
        self.did_seek
    }

    /// The transform where the walk stands.
    pub fn item(&self) -> (item: Option<&'a Transform>)
        requires
            self.inv(),
        ensures
            item is Some <==> self.at() < self.pieces().len(),
            item matches Some(transform) ==> transform@ == self.pieces()[self.at()],
    {
        if self.index < self.transforms.len() {
            Some(self.transforms.get(self.index))
        } else {
            None
        }
    }

    /// Where that transform starts.
    pub fn start(&self) -> (start: Place)
        requires
            self.inv(),
        ensures
            start@ == place_at(self.pieces(), self.at()),
    {
        self.start
    }

    /// Where that transform ends; where the walk stands at the end.
    pub fn end(&self) -> (end: Place)
        requires
            self.inv(),
        ensures
            self.at() < self.pieces().len() ==> end@ == place_at(self.pieces(), self.at() + 1),
            self.at() >= self.pieces().len() ==> end@ == place_at(self.pieces(), self.at()),
    {
        if self.index >= self.transforms.len() {
            return self.start;
        }
        let ghost ps = self.transforms@;
        proof {
            self.transforms.lemma_inv();
            lemma_swap_fits(ps, self.index as int);
            lemma_output_wf(ps, self.index as int);
            lemma_starts_order(ps, self.index as int, self.index + 1);
            lemma_starts_order(ps, self.index + 1, ps.len() as int);
        }
        let summary = self.transforms.get(self.index).summary();
        let start = self.start;
        Place {
            fold_offset: FoldOffset::at(start.fold_offset.0.0 + summary.input.len.0),
            conceal_offset: ConcealOffset::at(start.conceal_offset.0.0 + summary.output.len.0),
            fold_point: FoldPoint(start.fold_point.0.plus(summary.input.lines)),
            conceal_point: ConcealPoint(start.conceal_point.0.plus(summary.output.lines)),
        }
    }

    /// Moves on to the next transform, if there is one.
    pub fn next(&mut self)
        requires
            old(self).inv(),
        ensures
            final(self).inv(),
            final(self).pieces() == old(self).pieces(),
            final(self).begun(),
            old(self).at() < old(self).pieces().len() ==> final(self).at() == old(self).at() + 1,
            old(self).at() >= old(self).pieces().len() ==> final(self).at() == old(self).at(),
    {
        self.did_seek = true;
        if self.index < self.transforms.len() {
            self.start = self.end();
            self.index = self.index + 1;
        }
    }

    /// Walks on to `target`.
    pub fn seek_forward(&mut self, target: SeekTarget, bias: Bias)
        requires
            old(self).inv(),
            reaches(place_at(old(self).pieces(), old(self).at()), target@),
        ensures
            final(self).inv(),
            final(self).pieces() == old(self).pieces(),
            final(self).begun(),
            final(self).at() == seek_from(old(self).pieces(), target@, bias, old(self).at()),
    {
        self.did_seek = true;
        while self.index < self.transforms.len()
            invariant
                self.inv(),
                self.did_seek,
                self.transforms == old(self).transforms,
                seek_from(self.pieces(), target@, bias, self.at()) == seek_from(
                    old(self).pieces(),
                    target@,
                    bias,
                    old(self).at(),
                ),
            decreases self.transforms@.len() - self.index,
        {
            let end = self.end();
            if !place_lies_before(end, target, bias) {
                return ;
            }
            self.start = end;
            self.index = self.index + 1;
        }
    }

    /// Walks to `target` from the beginning.
    pub fn seek(&mut self, target: SeekTarget, bias: Bias)
        requires
            old(self).inv(),
        ensures
            final(self).inv(),
            final(self).pieces() == old(self).pieces(),
            final(self).begun(),
            final(self).at() == seek_from(old(self).pieces(), target@, bias, 0),
    {
        *self = TransformCursor::new(self.transforms);
        self.seek_forward(target, bias);
    }

    /// Walks on to `target` and copies what lies before it.
    pub fn slice(&mut self, target: SeekTarget, bias: Bias, into: &mut Transforms)
        requires
            old(self).inv(),
            old(into).inv(),
            reaches(place_at(old(self).pieces(), old(self).at()), target@),
            pieces_wf(
                old(into)@ + old(self).pieces().subrange(
                    old(self).at(),
                    seek_from(old(self).pieces(), target@, bias, old(self).at()),
                ),
            ),
        ensures
            final(self).inv(),
            final(self).pieces() == old(self).pieces(),
            final(self).begun(),
            final(self).at() == seek_from(old(self).pieces(), target@, bias, old(self).at()),
            final(into).inv(),
            final(into)@ == old(into)@ + old(self).pieces().subrange(
                old(self).at(),
                seek_from(old(self).pieces(), target@, bias, old(self).at()),
            ),
    {
        let from = self.index;
        proof {
            self.transforms.lemma_inv();
            lemma_seek(self.pieces(), target@, bias, self.at());
        }
        self.seek_forward(target, bias);
        into.extend(self.transforms, from, self.index);
    }

    /// Copies what is left and ends the walk.
    pub fn suffix(&mut self, into: &mut Transforms)
        requires
            old(self).inv(),
            old(into).inv(),
            pieces_wf(old(into)@ + old(self).pieces().skip(old(self).at())),
        ensures
            final(into).inv(),
            final(into)@ == old(into)@ + old(self).pieces().skip(old(self).at()),
    {
        let ghost ps = self.pieces();
        assert(ps.skip(self.at()) =~= ps.subrange(self.at(), ps.len() as int));
        into.extend(self.transforms, self.index, self.transforms.len());
    }
}

} // verus!

//! The pieces that the displayed text is made of, and walks over them.
//!
//! A piece either shows a stretch of fold space as it is or shows a replacement
//! in its stead.

use crate::coords::{
    Bias, ConcealOffset, ConcealPoint, FoldOffset, FoldPoint, MBTextSummary, MAX_LEN,
};
use crate::text::{
    lemma_summary_concat, lemma_summary_wf, pos_add, pos_le, pos_lt, pos_zero, summary_add,
    summary_of, summary_wf, summary_zero, Pos, Summary,
};
use vstd::prelude::*;
use vstd::utf8::encode_utf8;

verus! {

/// A piece of the displayed text.
pub enum Piece {
    /// Text of fold space, shown as it is.
    Same(Summary),
    /// Text of fold space, with other text shown in its stead.
    Swap { input: Summary, text: Seq<u8> },
}

impl Piece {
    /// What the piece measures in fold space.
    pub open spec fn input(self) -> Summary {
        match self {
            Piece::Same(summary) => summary,
            Piece::Swap { input, .. } => input,
        }
    }

    /// What the piece measures in conceal space.
    pub open spec fn output(self) -> Summary {
        match self {
            Piece::Same(summary) => summary,
            Piece::Swap { text, .. } => summary_of(text),
        }
    }
}

/// Where piece `k` starts in fold space.
pub open spec fn in_start(ps: Seq<Piece>, k: int) -> int
    decreases k,
{
    if k <= 0 {
        0
    } else {
        in_start(ps, k - 1) + ps[k - 1].input().len
    }
}

/// Where piece `k` starts in conceal space.
pub open spec fn out_start(ps: Seq<Piece>, k: int) -> int
    decreases k,
{
    if k <= 0 {
        0
    } else {
        out_start(ps, k - 1) + ps[k - 1].output().len
    }
}

/// The position where piece `k` starts in fold space.
pub open spec fn in_pos(ps: Seq<Piece>, k: int) -> Pos
    decreases k,
{
    if k <= 0 {
        pos_zero()
    } else {
        pos_add(in_pos(ps, k - 1), ps[k - 1].input().lines)
    }
}

/// The position where piece `k` starts in conceal space.
pub open spec fn out_pos(ps: Seq<Piece>, k: int) -> Pos
    decreases k,
{
    if k <= 0 {
        pos_zero()
    } else {
        pos_add(out_pos(ps, k - 1), ps[k - 1].output().lines)
    }
}

/// What the first `k` pieces measure in fold space.
pub open spec fn in_sum(ps: Seq<Piece>, k: int) -> Summary
    decreases k,
{
    if k <= 0 {
        summary_zero()
    } else {
        summary_add(in_sum(ps, k - 1), ps[k - 1].input())
    }
}

/// What the first `k` pieces measure in conceal space.
pub open spec fn out_sum(ps: Seq<Piece>, k: int) -> Summary
    decreases k,
{
    if k <= 0 {
        summary_zero()
    } else {
        summary_add(out_sum(ps, k - 1), ps[k - 1].output())
    }
}

/// The length of all pieces in fold space.
pub open spec fn in_len(ps: Seq<Piece>) -> int {
    in_start(ps, ps.len() as int)
}

/// The length of all pieces in conceal space.
pub open spec fn out_len(ps: Seq<Piece>) -> int {
    out_start(ps, ps.len() as int)
}

/// Every piece measures some text.
pub open spec fn pieces_measured(ps: Seq<Piece>) -> bool {
    forall|k: int| 0 <= k < ps.len() ==> summary_wf((#[trigger] ps[k]).input())
}

/// Every piece measures some text, and all together are not too long to count.
pub open spec fn pieces_wf(ps: Seq<Piece>) -> bool {
    &&& pieces_measured(ps)
    &&& in_len(ps) <= MAX_LEN
    &&& out_len(ps) <= MAX_LEN
}

/// No piece behind the first shows an empty stretch of fold space as it is.
pub open spec fn tidy(ps: Seq<Piece>) -> bool {
    forall|k: int|
        0 < k < ps.len() && (#[trigger] ps[k]) is Same ==> ps[k].input().len > 0
}

/// A position in both spaces at once.
pub struct PlaceView {
    pub fold_offset: int,
    pub conceal_offset: int,
    pub fold_point: Pos,
    pub conceal_point: Pos,
}

/// Where piece `k` starts.
pub open spec fn place_at(ps: Seq<Piece>, k: int) -> PlaceView {
    PlaceView {
        fold_offset: in_start(ps, k),
        conceal_offset: out_start(ps, k),
        fold_point: in_pos(ps, k),
        conceal_point: out_pos(ps, k),
    }
}

/// What a walk over pieces looks for.
pub enum Target {
    FoldOffset(int),
    ConcealOffset(int),
    FoldPoint(Pos),
    ConcealPoint(Pos),
}

/// A piece that ends at `end` lies before `target`; one that ends at the target
/// lies before it only under a bias to the right.
pub open spec fn lies_before(end: PlaceView, target: Target, bias: Bias) -> bool {
    match target {
        Target::FoldOffset(x) => end.fold_offset < x || (bias == Bias::Right && end.fold_offset
            == x),
        Target::ConcealOffset(x) => end.conceal_offset < x || (bias == Bias::Right
            && end.conceal_offset == x),
        Target::FoldPoint(p) => pos_lt(end.fold_point, p) || (bias == Bias::Right && end.fold_point
            == p),
        Target::ConcealPoint(p) => pos_lt(end.conceal_point, p) || (bias == Bias::Right
            && end.conceal_point == p),
    }
}

/// The first piece from `k` on that does not lie before `target`.
pub open spec fn seek_from(ps: Seq<Piece>, target: Target, bias: Bias, k: int) -> int
    decreases ps.len() - k,
{
    if k >= ps.len() || !lies_before(place_at(ps, k + 1), target, bias) {
        k
    } else {
        seek_from(ps, target, bias, k + 1)
    }
}

/// `place` does not come after `target`.
pub open spec fn reaches(place: PlaceView, target: Target) -> bool {
    match target {
        Target::FoldOffset(x) => place.fold_offset <= x,
        Target::ConcealOffset(x) => place.conceal_offset <= x,
        Target::FoldPoint(p) => pos_le(place.fold_point, p),
        Target::ConcealPoint(p) => pos_le(place.conceal_point, p),
    }
}

/// What is found starts no later than the target, and all before it lies before the target.
pub proof fn lemma_seek(ps: Seq<Piece>, target: Target, bias: Bias, k: int)
    requires
        0 <= k <= ps.len(),
    ensures
        k <= seek_from(ps, target, bias, k) <= ps.len(),
        forall|i: int|
            k <= i < seek_from(ps, target, bias, k) ==> lies_before(
                #[trigger] place_at(ps, i + 1),
                target,
                bias,
            ),
        seek_from(ps, target, bias, k) < ps.len() ==> !lies_before(
            place_at(ps, seek_from(ps, target, bias, k) + 1),
            target,
            bias,
        ),
        reaches(place_at(ps, k), target) ==> reaches(
            place_at(ps, seek_from(ps, target, bias, k)),
            target,
        ),
    decreases ps.len() - k,
{
    if k < ps.len() && lies_before(place_at(ps, k + 1), target, bias) {
        lemma_seek(ps, target, bias, k + 1);
    }
}

/// A walk from the first piece stops at the first that ends behind what it looks for, or, under
/// a bias to the left, where that lies or behind it.
pub proof fn law_seek(ps: Seq<Piece>, x: int, p: Pos, i: int)
    requires
        0 <= i < ps.len(),
    ensures
        i < seek_from(ps, Target::FoldOffset(x), Bias::Left, 0) ==> in_start(ps, i + 1) < x,
        i == seek_from(ps, Target::FoldOffset(x), Bias::Left, 0) ==> in_start(ps, i + 1) >= x,
        i < seek_from(ps, Target::FoldOffset(x), Bias::Right, 0) ==> in_start(ps, i + 1) <= x,
        i == seek_from(ps, Target::FoldOffset(x), Bias::Right, 0) ==> in_start(ps, i + 1) > x,
        i < seek_from(ps, Target::ConcealOffset(x), Bias::Left, 0) ==> out_start(ps, i + 1) < x,
        i == seek_from(ps, Target::ConcealOffset(x), Bias::Left, 0) ==> out_start(ps, i + 1) >= x,
        i < seek_from(ps, Target::ConcealOffset(x), Bias::Right, 0) ==> out_start(ps, i + 1) <= x,
        i == seek_from(ps, Target::ConcealOffset(x), Bias::Right, 0) ==> out_start(ps, i + 1) > x,
        i < seek_from(ps, Target::FoldPoint(p), Bias::Left, 0) ==> !pos_le(p, in_pos(ps, i + 1)),
        i == seek_from(ps, Target::FoldPoint(p), Bias::Left, 0) ==> pos_le(p, in_pos(ps, i + 1)),
        i < seek_from(ps, Target::FoldPoint(p), Bias::Right, 0) ==> pos_le(in_pos(ps, i + 1), p),
        i == seek_from(ps, Target::FoldPoint(p), Bias::Right, 0) ==> !pos_le(in_pos(ps, i + 1), p),
        i < seek_from(ps, Target::ConcealPoint(p), Bias::Left, 0) ==> !pos_le(
            p,
            out_pos(ps, i + 1),
        ),
        i == seek_from(ps, Target::ConcealPoint(p), Bias::Left, 0) ==> pos_le(
            p,
            out_pos(ps, i + 1),
        ),
        i < seek_from(ps, Target::ConcealPoint(p), Bias::Right, 0) ==> pos_le(
            out_pos(ps, i + 1),
            p,
        ),
        i == seek_from(ps, Target::ConcealPoint(p), Bias::Right, 0) ==> !pos_le(
            out_pos(ps, i + 1),
            p,
        ),
{
    lemma_seek(ps, Target::FoldOffset(x), Bias::Left, 0);
    lemma_seek(ps, Target::FoldOffset(x), Bias::Right, 0);
    lemma_seek(ps, Target::ConcealOffset(x), Bias::Left, 0);
    lemma_seek(ps, Target::ConcealOffset(x), Bias::Right, 0);
    lemma_seek(ps, Target::FoldPoint(p), Bias::Left, 0);
    lemma_seek(ps, Target::FoldPoint(p), Bias::Right, 0);
    lemma_seek(ps, Target::ConcealPoint(p), Bias::Left, 0);
    lemma_seek(ps, Target::ConcealPoint(p), Bias::Right, 0);
    let end = place_at(ps, i + 1);
    assert(end.fold_offset == in_start(ps, i + 1));
}

/// Pieces in order: later ones start no earlier.
pub proof fn lemma_starts_order(ps: Seq<Piece>, i: int, j: int)
    requires
        pieces_measured(ps),
        0 <= i <= j <= ps.len(),
    ensures
        0 <= in_start(ps, i) <= in_start(ps, j),
        0 <= out_start(ps, i) <= out_start(ps, j),
        pos_le(pos_zero(), in_pos(ps, i)),
        pos_le(pos_zero(), out_pos(ps, i)),
        pos_le(in_pos(ps, i), in_pos(ps, j)),
        pos_le(out_pos(ps, i), out_pos(ps, j)),
        0 <= in_pos(ps, i).row,
        0 <= in_pos(ps, i).column,
        in_pos(ps, i).row + in_pos(ps, i).column <= in_start(ps, i),
        0 <= out_pos(ps, i).row,
        0 <= out_pos(ps, i).column,
        out_pos(ps, i).row + out_pos(ps, i).column <= out_start(ps, i),
    decreases j,
{
    if j > 0 {
        lemma_output_wf(ps, j - 1);
        if i < j {
            lemma_starts_order(ps, i, j - 1);
        }
        lemma_starts_order(ps, j - 1, j - 1);
    }
}

/// A piece measures some text in conceal space too.
pub proof fn lemma_output_wf(ps: Seq<Piece>, k: int)
    requires
        pieces_measured(ps),
        0 <= k < ps.len(),
    ensures
        summary_wf(ps[k].input()),
        summary_wf(ps[k].output()),
{
    assert(summary_wf(ps[k].input()));
    if let Piece::Swap { text, .. } = ps[k] {
        lemma_summary_wf(text);
    }
}

/// Sums of lengths and positions are parts of sums of summaries.
pub proof fn lemma_sums(ps: Seq<Piece>, k: int)
    requires
        pieces_measured(ps),
        0 <= k <= ps.len(),
    ensures
        in_sum(ps, k).len == in_start(ps, k),
        in_sum(ps, k).lines == in_pos(ps, k),
        out_sum(ps, k).len == out_start(ps, k),
        out_sum(ps, k).lines == out_pos(ps, k),
        summary_wf(in_sum(ps, k)),
        summary_wf(out_sum(ps, k)),
    decreases k,
{
    if k > 0 {
        lemma_sums(ps, k - 1);
        lemma_output_wf(ps, k - 1);
    }
}

/// What pieces measure depends only on the pieces before.
pub proof fn lemma_prefix(ps: Seq<Piece>, qs: Seq<Piece>, k: int)
    requires
        0 <= k <= ps.len(),
        k <= qs.len(),
        forall|i: int| 0 <= i < k ==> ps[i] == qs[i],
    ensures
        in_start(ps, k) == in_start(qs, k),
        out_start(ps, k) == out_start(qs, k),
        in_pos(ps, k) == in_pos(qs, k),
        out_pos(ps, k) == out_pos(qs, k),
        in_sum(ps, k) == in_sum(qs, k),
        out_sum(ps, k) == out_sum(qs, k),
    decreases k,
{
    if k > 0 {
        lemma_prefix(ps, qs, k - 1);
    }
}

/// A list of pieces with text of fold space added at its end; it becomes part of
/// the last piece if that shows text of fold space as well.
pub open spec fn push_same(ps: Seq<Piece>, summary: Summary) -> Seq<Piece> {
    if ps.len() > 0 && ps.last() is Same {
        ps.update(ps.len() - 1, Piece::Same(summary_add(ps.last()->Same_0, summary)))
    } else {
        ps.push(Piece::Same(summary))
    }
}

/// Text of fold space becomes part of the last piece if that shows text of fold space, which
/// then measures both side by side, and else a piece of its own.
pub proof fn law_push_same(ps: Seq<Piece>, before: Seq<u8>, added: Seq<u8>)
    ensures
        ({
            let qs = push_same(ps, summary_of(added));
            let n = ps.len() as int;
            &&& n > 0 && ps[n - 1] == Piece::Same(summary_of(before)) ==> qs == ps.drop_last().push(
                Piece::Same(summary_of(before + added)),
            )
            &&& n == 0 || ps[n - 1] is Swap ==> qs == ps.push(Piece::Same(summary_of(added)))
        }),
{
    let n = ps.len() as int;
    lemma_summary_concat(before, added);
    if n > 0 && ps[n - 1] == Piece::Same(summary_of(before)) {
        assert(push_same(ps, summary_of(added)) =~= ps.drop_last().push(
            Piece::Same(summary_of(before + added)),
        ));
    }
}

/// Adding text of fold space adds its length.
pub proof fn lemma_push_same(ps: Seq<Piece>, summary: Summary)
    ensures
        in_len(push_same(ps, summary)) == in_len(ps) + summary.len,
        out_len(push_same(ps, summary)) == out_len(ps) + summary.len,
        pieces_measured(ps) && summary_wf(summary) ==> pieces_measured(push_same(ps, summary)),
{
    let qs = push_same(ps, summary);
    let n = ps.len() as int;
    if n > 0 && ps.last() is Same {
        lemma_prefix(ps, qs, n - 1);
        assert(ps[n - 1] == ps.last());
        assert forall|k: int| 0 <= k < qs.len() && pieces_measured(ps) && summary_wf(summary)
            implies summary_wf((#[trigger] qs[k]).input()) by {
            assert(summary_wf(ps[k].input()));
        }
    } else {
        lemma_prefix(ps, qs, n);
    }
}

/// Adding a piece adds its lengths.
pub proof fn lemma_push(ps: Seq<Piece>, piece: Piece)
    ensures
        in_len(ps.push(piece)) == in_len(ps) + piece.input().len,
        out_len(ps.push(piece)) == out_len(ps) + piece.output().len,
        pieces_measured(ps) && summary_wf(piece.input()) ==> pieces_measured(ps.push(piece)),
{
    lemma_prefix(ps, ps.push(piece), ps.len() as int);
}

/// What a transform measures in both spaces.
#[derive(Copy, Clone, Debug, PartialEq, Eq, Structural)]
pub struct TransformSummary {
    pub input: MBTextSummary,
    pub output: MBTextSummary,
}

impl TransformSummary {
    pub fn zero() -> (summary: Self)
        ensures
            summary.input@ == summary_zero(),
            summary.output@ == summary_zero(),
    {
        TransformSummary { input: MBTextSummary::default(), output: MBTextSummary::default() }
    }

    pub fn add_summary(&mut self, other: &TransformSummary)
        requires
            summary_wf(old(self).input@),
            summary_wf(old(self).output@),
            summary_wf(other.input@),
            summary_wf(other.output@),
            old(self).input@.len + other.input@.len <= MAX_LEN,
            old(self).output@.len + other.output@.len <= MAX_LEN,
        ensures
            final(self).input@ == summary_add(old(self).input@, other.input@),
            final(self).output@ == summary_add(old(self).output@, other.output@),
    {
        self.input.append(other.input);
        self.output.append(other.output);
    }
}

/// How a stretch of fold space is displayed.
pub enum Transform {
    Isomorphic(MBTextSummary),
    Replacement { input: MBTextSummary, text: String },
}

impl View for Transform {
    type V = Piece;

    open spec fn view(&self) -> Piece {
        match self {
            Transform::Isomorphic(summary) => Piece::Same(summary@),
            Transform::Replacement { input, text } => Piece::Swap {
                input: input@,
                text: encode_utf8(text@),
            },
        }
    }
}

impl Clone for Transform {
    fn clone(&self) -> (transform: Self)
        ensures
            transform@ == self@,
    {
        match self {
            Transform::Isomorphic(summary) => Transform::Isomorphic(*summary),
            Transform::Replacement { input, text } => Transform::Replacement {
                input: *input,
                text: text.clone(),
            },
        }
    }
}

impl Transform {
    pub fn is_concealment(&self) -> (concealment: bool)
        ensures
            concealment == (self@ is Swap),
    {
        matches!(self, Transform::Replacement { .. })
    }

    pub fn replacement_text(&self) -> (text: Option<&str>)
        ensures
            self@ is Same ==> text is None,
            self@ is Swap ==> text is Some && encode_utf8(text->0@) == self@->text,
    {
        match self {
            Transform::Replacement { text, .. } => Some(text.as_str()),
            _ => None,
        }
    }

    /// What the transform measures.
    pub fn summary(&self) -> (summary: TransformSummary)
        requires
            self@ is Swap ==> self@->text.len() <= MAX_LEN,
        ensures
            summary.input@ == self@.input(),
            summary.output@ == self@.output(),
    {
        match self {
            Transform::Isomorphic(summary) => TransformSummary {
                input: *summary,
                output: *summary,
            },
            Transform::Replacement { input, text } => TransformSummary {
                input: *input,
                output: MBTextSummary::of_text(text.as_str()),
            },
        }
    }
}

/// The transforms of a text, in its order.
pub struct Transforms {
    items: Vec<Transform>,
    input_len: usize,
    output_len: usize,
}

impl View for Transforms {
    type V = Seq<Piece>;

    closed spec fn view(&self) -> Seq<Piece> {
        self.items@.map_values(|transform: Transform| transform@)
    }
}

impl Clone for Transforms {
    fn clone(&self) -> (transforms: Self)
        ensures
            transforms@ == self@,
            self.inv() ==> transforms.inv(),
    {
        let mut items: Vec<Transform> = Vec::new();
        let mut i: usize = 0;
        while i < self.items.len()
            invariant
                i == items@.len() <= self.items@.len(),
                forall|k: int| 0 <= k < i ==> (#[trigger] items@[k])@ == self.items@[k]@,
            decreases self.items@.len() - i,
        {
            items.push(self.items[i].clone());
            i = i + 1;
        }
        let transforms = Transforms {
            items,
            input_len: self.input_len,
            output_len: self.output_len,
        };
        assert(transforms@ =~= self@);
        transforms
    }
}

impl Transforms {
    pub closed spec fn inv(self) -> bool {
        &&& pieces_wf(self@)
        &&& self.input_len == in_len(self@)
        &&& self.output_len == out_len(self@)
    }

    pub proof fn lemma_inv(self)
        requires
            self.inv(),
        ensures
            pieces_wf(self@),
    {
    }

    pub fn new() -> (transforms: Transforms)
        ensures
            transforms.inv(),
            transforms@ == Seq::<Piece>::empty(),
    {
        let transforms = Transforms { items: Vec::new(), input_len: 0, output_len: 0 };
        assert(transforms@ =~= Seq::<Piece>::empty());
        transforms
    }

    pub fn is_empty(&self) -> (empty: bool)
        ensures
            empty == (self@.len() == 0),
    {
        self.items.len() == 0
    }

    pub fn len(&self) -> (len: usize)
        ensures
            len == self@.len(),
    {
        self.items.len()
    }

    pub fn get(&self, k: usize) -> (transform: &Transform)
        requires
            k < self@.len(),
        ensures
            transform@ == self@[k as int],
    {
        &self.items[k]
    }

    /// The length of the text in fold space.
    pub fn input_len(&self) -> (len: FoldOffset)
        requires
            self.inv(),
        ensures
            len@ == in_len(self@),
    {
        FoldOffset::at(self.input_len)
    }

    /// The length of the text in conceal space.
    pub fn output_len(&self) -> (len: ConcealOffset)
        requires
            self.inv(),
        ensures
            len@ == out_len(self@),
    {
        ConcealOffset::at(self.output_len)
    }

    /// What all transforms measure together.
    pub fn summary(&self) -> (summary: TransformSummary)
        requires
            self.inv(),
        ensures
            summary.input@ == in_sum(self@, self@.len() as int),
            summary.output@ == out_sum(self@, self@.len() as int),
    {
        let mut sum = TransformSummary::zero();
        let mut i: usize = 0;
        while i < self.items.len()
            invariant
                self.inv(),
                i <= self.items@.len(),
                sum.input@ == in_sum(self@, i as int),
                sum.output@ == out_sum(self@, i as int),
            decreases self.items@.len() - i,
        {
            proof {
                lemma_sums(self@, i as int);
                lemma_sums(self@, i + 1);
                lemma_output_wf(self@, i as int);
                lemma_starts_order(self@, i + 1, self@.len() as int);
                assert(self@[i as int] == self.items@[i as int]@);
                lemma_swap_fits(self@, i as int);
            }
            let item = self.items[i].summary();
            sum.add_summary(&item);
            i = i + 1;
        }
        sum
    }

    pub fn push(&mut self, transform: Transform)
        requires
            old(self).inv(),
            pieces_wf(old(self)@.push(transform@)),
        ensures
            final(self).inv(),
            final(self)@ == old(self)@.push(transform@),
    {
        let ghost before = self@;
        proof {
            lemma_push(before, transform@);
            lemma_swap_fits(before.push(transform@), before.len() as int);
            assert(summary_wf(before.push(transform@)[before.len() as int].input()));
        }
        let summary = transform.summary();
        proof {
            lemma_output_wf(before.push(transform@), before.len() as int);
            lemma_starts_order(before, 0, before.len() as int);
        }
        self.input_len = self.input_len + summary.input.len.0;
        self.output_len = self.output_len + summary.output.len.0;
        self.items.push(transform);
        assert(self@ =~= before.push(transform@));
    }
}

impl Transforms {
    /// Adds copies of the transforms of `other` from `from` to `to`.
    pub fn extend(&mut self, other: &Transforms, from: usize, to: usize)
        requires
            old(self).inv(),
            other.inv(),
            from <= to <= other@.len(),
            pieces_wf(old(self)@ + other@.subrange(from as int, to as int)),
        ensures
            final(self).inv(),
            final(self)@ == old(self)@ + other@.subrange(from as int, to as int),
    {
        let ghost before = self@;
        let ghost all = before + other@.subrange(from as int, to as int);
        let mut i: usize = from;
        assert(before =~= all.take(before.len() as int));
        while i < to
            invariant
                from <= i <= to <= other@.len(),
                self.inv(),
                pieces_wf(all),
                all == before + other@.subrange(from as int, to as int),
                self@ == all.take(before.len() + (i - from)),
            decreases to - i,
        {
            proof {
                let k = before.len() + (i - from);
                assert(all[k] == other@[i as int]);
                assert(all.take(k).push(all[k]) =~= all.take(k + 1));
                lemma_take_wf(all, k + 1);
            }
            self.push(other.get(i).clone());
            i = i + 1;
        }
        assert(all.take(all.len() as int) =~= all);
    }
}

/// The first pieces of a list are no longer than the list.
pub proof fn lemma_take_wf(ps: Seq<Piece>, k: int)
    requires
        pieces_measured(ps),
        0 <= k <= ps.len(),
    ensures
        pieces_measured(ps.take(k)),
        in_len(ps.take(k)) == in_start(ps, k),
        out_len(ps.take(k)) == out_start(ps, k),
        pieces_wf(ps) ==> pieces_wf(ps.take(k)),
{
    lemma_prefix(ps, ps.take(k), k);
    lemma_starts_order(ps, k, ps.len() as int);
    assert forall|i: int| 0 <= i < k implies summary_wf((#[trigger] ps.take(k)[i]).input()) by {
        assert(summary_wf(ps[i].input()));
    }
}

/// Pieces `i` to `j` of `ps`, added to a list, add their lengths.
pub proof fn lemma_append(base: Seq<Piece>, ps: Seq<Piece>, i: int, j: int)
    requires
        0 <= i <= j <= ps.len(),
    ensures
        in_len(base + ps.subrange(i, j)) == in_len(base) + (in_start(ps, j) - in_start(ps, i)),
        out_len(base + ps.subrange(i, j)) == out_len(base) + (out_start(ps, j) - out_start(ps, i)),
        pieces_measured(base) && pieces_measured(ps) ==> pieces_measured(
            base + ps.subrange(i, j),
        ),
    decreases j - i,
{
    if i < j {
        lemma_append(base, ps, i, j - 1);
        let shorter = base + ps.subrange(i, j - 1);
        assert(base + ps.subrange(i, j) =~= shorter.push(ps[j - 1]));
        lemma_push(shorter, ps[j - 1]);
        assert(pieces_measured(ps) ==> summary_wf(ps[j - 1].input()));
    } else {
        assert(base + ps.subrange(i, j) =~= base);
    }
}

/// The replacement of a piece is no longer than all that is displayed.
pub proof fn lemma_swap_fits(ps: Seq<Piece>, k: int)
    requires
        pieces_wf(ps),
        0 <= k < ps.len(),
    ensures
        ps[k] is Swap ==> ps[k]->text.len() <= MAX_LEN,
        ps[k].input().len <= MAX_LEN,
{
    lemma_starts_order(ps, k, k);
    lemma_starts_order(ps, k + 1, ps.len() as int);
    if let Piece::Swap { text, .. } = ps[k] {
        lemma_summary_wf(text);
    }
}

/// Adds text of fold space at the end.
pub fn push_isomorphic(transforms: &mut Transforms, summary: MBTextSummary)
    requires
        old(transforms).inv(),
        summary_wf(summary@),
        pieces_wf(push_same(old(transforms)@, summary@)),
    ensures
        final(transforms).inv(),
        final(transforms)@ == push_same(old(transforms)@, summary@),
{
    let ghost before = transforms@;
    proof {
        lemma_push_same(before, summary@);
    }
    let count = transforms.items.len();
    if count > 0 {
        let last = transforms.items.pop().unwrap();
        proof {
            assert(before.last() == last@);
            assert(transforms.items@ =~= transforms.items@.take(count - 1));
        }
        match last {
            Transform::Isomorphic(existing) => {
                let mut merged = existing;
                proof {
                    lemma_swap_fits(before, count - 1);
                    lemma_output_wf(before, count - 1);
                    let after = push_same(before, summary@);
                    lemma_swap_fits(after, count - 1);
                }
                merged.append(summary);
                transforms.items.push(Transform::Isomorphic(merged));
                proof {
                    lemma_starts_order(before, 0, count as int);
                }
                transforms.input_len = transforms.input_len + summary.len.0;
                transforms.output_len = transforms.output_len + summary.len.0;
                assert(transforms@ =~= push_same(before, summary@));
                return;
            },
            other => {
                transforms.items.push(other);
                assert(transforms@ =~= before);
            },
        }
    }
    transforms.push(Transform::Isomorphic(summary));
}

} // verus!

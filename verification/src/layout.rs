//! How pieces are laid out over a text with hidden ranges.

use crate::coords::FoldOffset;
use crate::fold::{fold_wf, FoldSnapshot};
use crate::resolve::{hidden_of, hiddens_of, hiddens_wf, Hidden};
use crate::text::{lemma_summary_wf, summary_of, summary_wf};
use crate::transform::{
    in_len, lemma_push, lemma_push_same, lemma_starts_order, out_len, pieces_measured, pieces_wf,
    push_isomorphic, push_same, Piece, Transform, Transforms,
};
use std::ops::Range;
use vstd::prelude::*;

verus! {

/// Pieces that show the text as it is from where `ps` ends up to `target`, if that lies ahead.
pub open spec fn fill_gap(text: Seq<u8>, ps: Seq<Piece>, target: int) -> Seq<Piece> {
    if target > in_len(ps) {
        push_same(ps, summary_of(text.subrange(in_len(ps), target)))
    } else {
        ps
    }
}

/// The piece that shows another text in the stead of the text from `start` to `end`.
pub open spec fn swap_piece(text: Seq<u8>, start: int, end: int, shown: Seq<u8>) -> Piece {
    Piece::Swap { input: summary_of(text.subrange(start, end)), text: shown }
}

/// Pieces for the first `k` hidden ranges and what lies before each, behind `base`.
pub open spec fn lay_out(text: Seq<u8>, base: Seq<Piece>, rs: Seq<Hidden>, k: int) -> Seq<Piece>
    decreases k,
{
    if k <= 0 {
        base
    } else {
        let before = lay_out(text, base, rs, k - 1);
        let from = end_before(rs, k - 1);
        let r = rs[k - 1];
        let filled = if r.start > from {
            push_same(before, summary_of(text.subrange(from, r.start)))
        } else {
            before
        };
        filled.push(swap_piece(text, r.start, r.end, r.text))
    }
}

/// Where the last of the first `k` hidden ranges ends; 0 if there is none.
pub open spec fn end_before(rs: Seq<Hidden>, k: int) -> int {
    if k <= 0 {
        0
    } else {
        rs[k - 1].end
    }
}

/// Pieces for a whole text with hidden ranges, behind `base`.
pub open spec fn cover(text: Seq<u8>, base: Seq<Piece>, rs: Seq<Hidden>) -> Seq<Piece> {
    let all = lay_out(text, base, rs, rs.len() as int);
    let from = end_before(rs, rs.len() as int);
    let filled = if from < text.len() {
        push_same(all, summary_of(text.subrange(from, text.len() as int)))
    } else {
        all
    };
    if filled.len() == 0 {
        push_same(filled, summary_of(text))
    } else {
        filled
    }
}

/// The first hidden range from `k` on that ends behind `start`.
pub open spec fn first_behind(rs: Seq<Hidden>, start: int, k: int) -> int
    decreases rs.len() - k,
{
    if k >= rs.len() || rs[k].end > start {
        k
    } else {
        first_behind(rs, start, k + 1)
    }
}

/// `ps` with what lies before the part of a hidden range within bounds, and with that part.
pub open spec fn add_hidden(
    text: Seq<u8>,
    ps: Seq<Piece>,
    r: Hidden,
    start: int,
    end: int,
) -> Seq<Piece> {
    let from = if r.start > start {
        r.start
    } else {
        start
    };
    let to = if r.end < end {
        r.end
    } else {
        end
    };
    fill_gap(text, ps, from).push(swap_piece(text, from, to, r.text))
}

/// `ps` with the hidden ranges from `k` on as far as they start before `end`.
pub open spec fn add_hiddens(
    text: Seq<u8>,
    ps: Seq<Piece>,
    rs: Seq<Hidden>,
    start: int,
    end: int,
    k: int,
) -> Seq<Piece>
    decreases rs.len() - k,
{
    if k >= rs.len() || rs[k].start >= end {
        ps
    } else {
        add_hiddens(text, add_hidden(text, ps, rs[k], start, end), rs, start, end, k + 1)
    }
}

/// `ps` with the parts of hidden ranges between `start` and `end`.
pub open spec fn add_region(
    text: Seq<u8>,
    ps: Seq<Piece>,
    rs: Seq<Hidden>,
    start: int,
    end: int,
) -> Seq<Piece> {
    add_hiddens(text, ps, rs, start, end, first_behind(rs, start, 0))
}

/// `ps` with all that lies between `start` and `end`.
pub open spec fn fill_region(
    text: Seq<u8>,
    ps: Seq<Piece>,
    rs: Seq<Hidden>,
    start: int,
    end: int,
) -> Seq<Piece> {
    fill_gap(text, add_region(text, ps, rs, start, end), end)
}

/// `longer` measures some text and at least as much as `shorter`.
pub open spec fn extends(longer: Seq<Piece>, shorter: Seq<Piece>) -> bool {
    &&& pieces_measured(shorter) ==> pieces_measured(longer)
    &&& in_len(longer) >= in_len(shorter)
    &&& out_len(longer) >= out_len(shorter)
}

/// Filling a gap reaches its target.
pub proof fn lemma_fill_gap(text: Seq<u8>, ps: Seq<Piece>, target: int)
    requires
        pieces_measured(ps),
        target <= text.len(),
    ensures
        extends(fill_gap(text, ps, target), ps),
        in_len(fill_gap(text, ps, target)) == if target > in_len(ps) {
            target
        } else {
            in_len(ps)
        },
{
    lemma_starts_order(ps, 0, ps.len() as int);
    if target > in_len(ps) {
        let part = text.subrange(in_len(ps), target);
        lemma_summary_wf(part);
        lemma_push_same(ps, summary_of(part));
    }
}

/// Adding a piece that stands for a part of a text.
pub proof fn lemma_push_swap(
    text: Seq<u8>,
    ps: Seq<Piece>,
    start: int,
    end: int,
    shown: Seq<u8>,
)
    requires
        0 <= start <= end <= text.len(),
    ensures
        extends(ps.push(swap_piece(text, start, end, shown)), ps),
        in_len(ps.push(swap_piece(text, start, end, shown))) == in_len(ps) + (end - start),
        out_len(ps.push(swap_piece(text, start, end, shown))) == out_len(ps) + shown.len(),
        summary_wf(summary_of(text.subrange(start, end))),
{
    let part = text.subrange(start, end);
    lemma_summary_wf(part);
    lemma_summary_wf(shown);
    lemma_push(ps, swap_piece(text, start, end, shown));
}

pub proof fn lemma_add_hidden(
    text: Seq<u8>,
    ps: Seq<Piece>,
    r: Hidden,
    start: int,
    end: int,
)
    requires
        pieces_measured(ps),
        0 <= r.start <= r.end <= text.len(),
        0 <= start <= end <= text.len(),
        r.end > start,
        r.start < end,
    ensures
        extends(add_hidden(text, ps, r, start, end), ps),
{
    let from = if r.start > start {
        r.start
    } else {
        start
    };
    let to = if r.end < end {
        r.end
    } else {
        end
    };
    lemma_fill_gap(text, ps, from);
    lemma_push_swap(text, fill_gap(text, ps, from), from, to, r.text);
}

/// The range found ends behind `start`, and so do all that follow.
pub proof fn lemma_first_behind(rs: Seq<Hidden>, start: int, k: int)
    requires
        0 <= k <= rs.len(),
    ensures
        k <= first_behind(rs, start, k) <= rs.len(),
        forall|i: int| k <= i < first_behind(rs, start, k) ==> (#[trigger] rs[i]).end <= start,
        first_behind(rs, start, k) < rs.len() ==> rs[first_behind(rs, start, k)].end > start,
    decreases rs.len() - k,
{
    if k < rs.len() && rs[k].end <= start {
        lemma_first_behind(rs, start, k + 1);
    }
}

pub proof fn lemma_add_hiddens(
    text: Seq<u8>,
    ps: Seq<Piece>,
    rs: Seq<Hidden>,
    start: int,
    end: int,
    k: int,
)
    requires
        pieces_measured(ps),
        hiddens_wf(rs, text.len() as int),
        0 <= start <= end <= text.len(),
        0 <= k <= rs.len(),
        k < rs.len() ==> rs[k].end > start,
    ensures
        extends(add_hiddens(text, ps, rs, start, end, k), ps),
    decreases rs.len() - k,
{
    if k < rs.len() && rs[k].start < end {
        let next = add_hidden(text, ps, rs[k], start, end);
        lemma_add_hidden(text, ps, rs[k], start, end);
        if k + 1 < rs.len() {
            assert(rs[k].end <= rs[k + 1].start);
        }
        lemma_add_hiddens(text, next, rs, start, end, k + 1);
    }
}

pub proof fn lemma_fill_region(
    text: Seq<u8>,
    ps: Seq<Piece>,
    rs: Seq<Hidden>,
    start: int,
    end: int,
)
    requires
        pieces_measured(ps),
        hiddens_wf(rs, text.len() as int),
        0 <= start <= end <= text.len(),
    ensures
        extends(add_region(text, ps, rs, start, end), ps),
        extends(fill_region(text, ps, rs, start, end), ps),
        extends(fill_region(text, ps, rs, start, end), add_region(text, ps, rs, start, end)),
{
    lemma_first_behind(rs, start, 0);
    lemma_add_hiddens(text, ps, rs, start, end, first_behind(rs, start, 0));
    lemma_fill_gap(text, add_region(text, ps, rs, start, end), end);
}

/// Shows the text as it is from where the transforms end up to `target`.
pub fn fill_isomorphic_gap(
    fold_snapshot: &FoldSnapshot,
    transforms: &mut Transforms,
    target: FoldOffset,
)
    requires
        fold_wf(fold_snapshot@),
        old(transforms).inv(),
        target@ <= fold_snapshot@.text.len(),
        pieces_wf(fill_gap(fold_snapshot@.text, old(transforms)@, target@)),
    ensures
        final(transforms).inv(),
        final(transforms)@ == fill_gap(fold_snapshot@.text, old(transforms)@, target@),
{
    let current = transforms.input_len();
    if target.0.0 > current.0.0 {
        let summary = fold_snapshot.text_summary_for_offsets(current, target);
        proof {
            lemma_summary_wf(fold_snapshot@.text.subrange(current@, target@));
        }
        push_isomorphic(transforms, summary);
    }
}

/// The first entry whose range ends behind `start`.
fn partition_point(resolved: &Vec<(Range<FoldOffset>, String)>, start: FoldOffset) -> (first: usize)
    requires
        exists|len: int| hiddens_wf(hiddens_of(resolved@), len),
    ensures
        first == first_behind(hiddens_of(resolved@), start@, 0),
{
    let ghost rs = hiddens_of(resolved@);
    let ghost len = choose|len: int| hiddens_wf(rs, len);
    let mut low: usize = 0;
    let mut high: usize = resolved.len();
    while low < high
        invariant
            rs == hiddens_of(resolved@),
            hiddens_wf(rs, len),
            low <= high <= resolved@.len(),
            forall|i: int| 0 <= i < low ==> (#[trigger] rs[i]).end <= start@,
            forall|i: int| high <= i < rs.len() ==> (#[trigger] rs[i]).end > start@,
        decreases high - low,
    {
        let middle: usize = low + (high - low) / 2;
        assert(rs[middle as int] == hidden_of(resolved@[middle as int]));
        if resolved[middle].0.end.0.0 <= start.0.0 {
            assert forall|i: int| 0 <= i <= middle implies (#[trigger] rs[i]).end <= start@ by {
                if i < middle {
                    assert(rs[i].end <= rs[middle as int].start);
                }
            }
            low = middle + 1;
        } else {
            assert forall|i: int| middle <= i < rs.len() implies (#[trigger] rs[i]).end > start@ by {
                if middle < i {
                    assert(rs[middle as int].end <= rs[i].start);
                }
            }
            high = middle;
        }
    }
    proof {
        lemma_first_behind(rs, start@, 0);
        let found = first_behind(rs, start@, 0);
        if found < low {
            assert(rs[found].end <= start@);
        }
        if low < found {
            assert(rs[low as int].end <= start@);
        }
    }
    low
}

/// Adds the parts of the hidden ranges between `start` and `end`.
pub fn build_region(
    fold_snapshot: &FoldSnapshot,
    transforms: &mut Transforms,
    resolved: &Vec<(Range<FoldOffset>, String)>,
    start: FoldOffset,
    end: FoldOffset,
)
    requires
        fold_wf(fold_snapshot@),
        old(transforms).inv(),
        hiddens_wf(hiddens_of(resolved@), fold_snapshot@.text.len() as int),
        start@ <= end@ <= fold_snapshot@.text.len(),
        pieces_wf(
            add_region(
                fold_snapshot@.text,
                old(transforms)@,
                hiddens_of(resolved@),
                start@,
                end@,
            ),
        ),
    ensures
        final(transforms).inv(),
        final(transforms)@ == add_region(
            fold_snapshot@.text,
            old(transforms)@,
            hiddens_of(resolved@),
            start@,
            end@,
        ),
{
    let ghost text = fold_snapshot@.text;
    let ghost rs = hiddens_of(resolved@);
    let ghost all = add_region(text, transforms@, rs, start@, end@);
    proof {
        lemma_first_behind(rs, start@, 0);
    }
    let mut i: usize = partition_point(resolved, start);
    while i < resolved.len() && resolved[i].0.start.0.0 < end.0.0
        invariant
            fold_wf(fold_snapshot@),
            text == fold_snapshot@.text,
            rs == hiddens_of(resolved@),
            hiddens_wf(rs, text.len() as int),
            start@ <= end@ <= text.len(),
            pieces_wf(all),
            transforms.inv(),
            i <= resolved@.len(),
            i < rs.len() ==> rs[i as int].end > start@,
            all == add_hiddens(text, transforms@, rs, start@, end@, i as int),
        decreases resolved@.len() - i,
    {
        let ghost r = rs[i as int];
        assert(r == hidden_of(resolved@[i as int]));
        let range = &resolved[i].0;
        let from = if range.start.0.0 > start.0.0 {
            range.start
        } else {
            start
        };
        let to = if range.end.0.0 < end.0.0 {
            range.end
        } else {
            end
        };
        let ghost before = transforms@;
        let ghost filled = fill_gap(text, before, from@);
        let ghost next = add_hidden(text, before, r, start@, end@);
        proof {
            transforms.lemma_inv();
            lemma_add_hidden(text, before, r, start@, end@);
            if i + 1 < rs.len() {
                assert(rs[i as int].end <= rs[i + 1].start);
            }
            lemma_add_hiddens(text, next, rs, start@, end@, i + 1);
            lemma_fill_gap(text, before, from@);
            lemma_push_swap(text, filled, from@, to@, r.text);
        }
        fill_isomorphic_gap(fold_snapshot, transforms, from);
        let input = fold_snapshot.text_summary_for_offsets(from, to);
        transforms.push(Transform::Replacement { input, text: resolved[i].1.clone() });
        i = i + 1;
    }
}

/// Adds all that lies between `region_start` and `region_end`.
pub fn build_region_filled(
    fold_snapshot: &FoldSnapshot,
    transforms: &mut Transforms,
    resolved: &Vec<(Range<FoldOffset>, String)>,
    region_start: FoldOffset,
    region_end: FoldOffset,
)
    requires
        fold_wf(fold_snapshot@),
        old(transforms).inv(),
        hiddens_wf(hiddens_of(resolved@), fold_snapshot@.text.len() as int),
        region_start@ <= region_end@ <= fold_snapshot@.text.len(),
        pieces_wf(
            fill_region(
                fold_snapshot@.text,
                old(transforms)@,
                hiddens_of(resolved@),
                region_start@,
                region_end@,
            ),
        ),
    ensures
        final(transforms).inv(),
        final(transforms)@ == fill_region(
            fold_snapshot@.text,
            old(transforms)@,
            hiddens_of(resolved@),
            region_start@,
            region_end@,
        ),
{
    proof {
        transforms.lemma_inv();
        lemma_fill_region(
            fold_snapshot@.text,
            transforms@,
            hiddens_of(resolved@),
            region_start@,
            region_end@,
        );
    }
    build_region(fold_snapshot, transforms, resolved, region_start, region_end);
    fill_isomorphic_gap(fold_snapshot, transforms, region_end);
}

/// Laying out more ranges measures more.
pub proof fn lemma_lay_out(text: Seq<u8>, base: Seq<Piece>, rs: Seq<Hidden>, j: int, k: int)
    requires
        0 <= j <= k <= rs.len(),
        pieces_measured(base),
        forall|i: int| 0 <= i < rs.len() ==> 0 <= (#[trigger] rs[i]).start <= rs[i].end <= text.len(),
    ensures
        pieces_measured(lay_out(text, base, rs, j)),
        extends(lay_out(text, base, rs, k), lay_out(text, base, rs, j)),
    decreases k,
{
    if k > 0 {
        let before = lay_out(text, base, rs, k - 1);
        lemma_lay_out(text, base, rs, if j < k { j } else { k - 1 }, k - 1);
        lemma_lay_out(text, base, rs, k - 1, k - 1);
        lemma_lay_step(text, before, rs, k);
    }
}

/// What one more range adds.
proof fn lemma_lay_step(text: Seq<u8>, before: Seq<Piece>, rs: Seq<Hidden>, k: int)
    requires
        0 < k <= rs.len(),
        pieces_measured(before),
        forall|i: int| 0 <= i < rs.len() ==> 0 <= (#[trigger] rs[i]).start <= rs[i].end <= text.len(),
    ensures
        ({
            let from = end_before(rs, k - 1);
            let r = rs[k - 1];
            let part = summary_of(text.subrange(from, r.start));
            let filled = if r.start > from {
                push_same(before, part)
            } else {
                before
            };
            let next = filled.push(swap_piece(text, r.start, r.end, r.text));
            &&& from <= text.len()
            &&& extends(filled, before)
            &&& extends(next, filled)
            &&& r.start > from ==> summary_wf(part) && part.len == r.start - from
            &&& in_len(filled) == in_len(before) + if r.start > from {
                r.start - from
            } else {
                0
            }
            &&& in_len(next) == in_len(filled) + (r.end - r.start)
        }),
{
    let from = end_before(rs, k - 1);
    let r = rs[k - 1];
    if k - 1 > 0 {
        assert(rs[k - 2].end <= text.len());
    }
    let part = text.subrange(from, r.start);
    if r.start > from {
        lemma_summary_wf(part);
        lemma_push_same(before, summary_of(part));
    }
    let filled = if r.start > from {
        push_same(before, summary_of(part))
    } else {
        before
    };
    lemma_push_swap(text, filled, r.start, r.end, r.text);
}

/// Lays the text out with the hidden ranges.
pub fn build_transforms_from_resolved(
    transforms: &mut Transforms,
    fold_snapshot: &FoldSnapshot,
    resolved: &Vec<(Range<FoldOffset>, String)>,
)
    requires
        fold_wf(fold_snapshot@),
        old(transforms).inv(),
        forall|i: int|
            0 <= i < resolved@.len() ==> 0 <= (#[trigger] hiddens_of(resolved@)[i]).start
                <= hiddens_of(resolved@)[i].end <= fold_snapshot@.text.len(),
        pieces_wf(cover(fold_snapshot@.text, old(transforms)@, hiddens_of(resolved@))),
    ensures
        final(transforms).inv(),
        final(transforms)@ == cover(
            fold_snapshot@.text,
            old(transforms)@,
            hiddens_of(resolved@),
        ),
{
    let ghost text = fold_snapshot@.text;
    let ghost base = transforms@;
    let ghost rs = hiddens_of(resolved@);
    let ghost n = rs.len() as int;
    let ghost whole = lay_out(text, base, rs, n);
    let ghost last = end_before(rs, n);
    proof {
        transforms.lemma_inv();
        lemma_lay_out(text, base, rs, n, n);
        if n > 0 {
            assert(rs[n - 1].end <= text.len());
        }
        if last < text.len() {
            let part = text.subrange(last, text.len() as int);
            lemma_summary_wf(part);
            lemma_push_same(whole, summary_of(part));
        }
        lemma_summary_wf(text);
        lemma_push_same(whole, summary_of(text));
    }
    let mut offset = FoldOffset::at(0);
    let mut i: usize = 0;
    while i < resolved.len()
        invariant
            fold_wf(fold_snapshot@),
            text == fold_snapshot@.text,
            rs == hiddens_of(resolved@),
            n == rs.len(),
            whole == lay_out(text, base, rs, n),
            pieces_measured(base),
            pieces_wf(whole),
            forall|k: int|
                0 <= k < n ==> 0 <= (#[trigger] rs[k]).start <= rs[k].end <= text.len(),
            transforms.inv(),
            i <= n,
            offset@ == end_before(rs, i as int),
            transforms@ == lay_out(text, base, rs, i as int),
        decreases resolved@.len() - i,
    {
        let ghost r = rs[i as int];
        assert(r == hidden_of(resolved@[i as int]));
        proof {
            lemma_lay_out(text, base, rs, i as int, i as int);
            lemma_lay_step(text, transforms@, rs, i + 1);
            lemma_lay_out(text, base, rs, i + 1, n);
        }
        let range = &resolved[i].0;
        if range.start.0.0 > offset.0.0 {
            push_isomorphic(
                transforms,
                fold_snapshot.text_summary_for_offsets(offset, range.start),
            );
        }
        let input = fold_snapshot.text_summary_for_offsets(range.start, range.end);
        transforms.push(Transform::Replacement { input, text: resolved[i].1.clone() });
        offset = range.end;
        i = i + 1;
    }
    let total = fold_snapshot.len();
    if offset.0.0 < total.0.0 {
        push_isomorphic(transforms, fold_snapshot.text_summary_for_offsets(offset, total));
    }
    if transforms.is_empty() {
        push_isomorphic(transforms, fold_snapshot.text_summary());
    }
}

} // verus!

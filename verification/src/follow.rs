//! What pieces measure and hide after they have followed edits or reveals.

use crate::coords::Bias;
use crate::display::{
    all_same, concealed, displayed, hidden_at, hides, lemma_hides_exactly, lemma_reflects_upto,
    piece_fits, reflects, swaps,
};
use crate::edits::{
    changes_between_chars, describes, zone_end, zone_kept, zone_shift, zone_start, Change,
};
use crate::fold::on_boundary;
use crate::grow::{
    between_chars, clamp, hide_alike, is_part, lemma_grow_gap, lemma_grow_pieces, lemma_grow_region,
    lemma_grow_same, measures, moves, shown_part, some_hides,
};
use crate::layout::fill_gap;
use crate::resolve::{hiddens_wf, Hidden, Span};
use crate::sync::{
    carry, change_start, edit_fits, edit_step, edits_fit, end_of_piece, finish, follow_edits,
    follow_reveals, in_place, lemma_piece_behind, next_from, no_progress, piece_behind, rebuild,
    reveal_fits, reveal_step, reveals_fit, span_start_at, Progress,
};
use crate::transform::{in_len, in_start, lemma_seek, lemma_starts_order, seek_from, Piece, Target};
use vstd::prelude::*;
use vstd::utf8::{
    is_char_boundary_iff_not_is_continuation_byte, is_char_boundary_start_end_of_seq, valid_utf8,
};

verus! {

/// Two texts, the changes between them, the pieces that measure the old text,
/// and the ranges to hide in the new one.
pub struct Task {
    pub old: Seq<u8>,
    pub new: Seq<u8>,
    pub changes: Seq<Change>,
    pub ps: Seq<Piece>,
    pub rs: Seq<Hidden>,
}

/// The parts of a task belong together.
pub open spec fn task_wf(t: Task) -> bool {
    &&& valid_utf8(t.old)
    &&& valid_utf8(t.new)
    &&& describes(t.old, t.new, t.changes)
    &&& changes_between_chars(t.new, t.changes)
    &&& reflects(t.ps, t.old)
    &&& hiddens_wf(t.rs, t.new.len() as int)
    &&& between_chars(t.rs, t.new)
}

/// The first `k` changes are followed: all before the end of the last of them is
/// built, and all old pieces that end before what is built are dealt with.
pub open spec fn on_track(t: Task, k: int, run: Progress) -> bool {
    let start = zone_start(t.changes, k);
    let at = in_start(t.ps, run.at);
    &&& 0 <= run.at <= t.ps.len()
    &&& measures(run.built, t.new)
    &&& in_len(run.built) == zone_shift(t.changes, k) + if at > start {
        at
    } else {
        start
    }
    &&& at < start ==> k < t.changes.len() && run.at < t.ps.len() && in_start(t.ps, run.at + 1)
        > t.changes[k].old_start
    &&& at <= zone_end(t.changes, k, t.old.len() as int)
}

/// A character boundary between two changes stays one.
proof fn lemma_zone_boundary(t: Task, k: int, offset: int)
    requires
        task_wf(t),
        0 <= k <= t.changes.len(),
        zone_start(t.changes, k) <= offset <= zone_end(t.changes, k, t.old.len() as int),
        on_boundary(t.old, offset),
    ensures
        on_boundary(t.new, offset + zone_shift(t.changes, k)),
{
    let start = zone_start(t.changes, k);
    let end = zone_end(t.changes, k, t.old.len() as int);
    let shift = zone_shift(t.changes, k);
    assert(zone_kept(t.old, t.new, t.changes, k));
    is_char_boundary_start_end_of_seq(t.new);
    if offset < end {
        assert(t.old.subrange(start, end)[offset - start] == t.old[offset]);
        assert(t.new.subrange(start + shift, end + shift)[offset - start] == t.new[offset
            + shift]);
        is_char_boundary_iff_not_is_continuation_byte(t.old, offset);
        is_char_boundary_iff_not_is_continuation_byte(t.new, offset + shift);
    } else if k < t.changes.len() {
        assert(on_boundary(t.new, t.changes[k].new_start));
    }
}

/// Pieces between two changes move with their text.
proof fn lemma_zone_moves(t: Task, k: int, i: int, j: int)
    requires
        task_wf(t),
        0 <= k <= t.changes.len(),
        0 <= i <= j <= t.ps.len(),
        zone_start(t.changes, k) <= in_start(t.ps, i),
        in_start(t.ps, j) <= zone_end(t.changes, k, t.old.len() as int),
    ensures
        moves(t.ps, t.old, t.new, i, j, zone_shift(t.changes, k)),
{
    let start = zone_start(t.changes, k);
    let end = zone_end(t.changes, k, t.old.len() as int);
    let shift = zone_shift(t.changes, k);
    let from = in_start(t.ps, i);
    let to = in_start(t.ps, j);
    assert(zone_kept(t.old, t.new, t.changes, k));
    lemma_starts_order(t.ps, i, j);
    assert(t.old.subrange(from, to) =~= t.old.subrange(start, end).subrange(
        from - start,
        to - start,
    ));
    assert(t.new.subrange(from + shift, to + shift) =~= t.new.subrange(
        start + shift,
        end + shift,
    ).subrange(from - start, to - start));
    assert forall|m: int| i <= m <= j implies on_boundary(
        t.new,
        (#[trigger] in_start(t.ps, m)) + shift,
    ) by {
        lemma_starts_order(t.ps, i, m);
        lemma_starts_order(t.ps, m, j);
        assert(on_boundary(t.old, in_start(t.ps, m)));
        lemma_zone_boundary(t, k, in_start(t.ps, m));
    }
}

/// Old pieces before a change are taken over.
#[verifier::rlimit(30)]
pub proof fn lemma_carry_grows(t: Task, k: int, run: Progress)
    requires
        task_wf(t),
        0 <= k < t.changes.len(),
        on_track(t, k, run),
    ensures
        ({
            let carried = carry(t.ps, run, t.changes[k].old_start);
            let shift = zone_shift(t.changes, k);
            &&& run.at <= carried.at <= t.ps.len()
            &&& measures(carried.built, t.new)
            &&& in_start(t.ps, carried.at) <= t.changes[k].old_start
            &&& in_len(carried.built) <= t.changes[k].new_start
            &&& run.at < carried.at ==> in_start(t.ps, run.at) >= zone_start(t.changes, k)
            &&& in_start(t.ps, run.at) >= zone_start(t.changes, k) ==> in_len(carried.built)
                == in_start(t.ps, carried.at) + shift
            &&& in_start(t.ps, run.at) < zone_start(t.changes, k) ==> in_len(carried.built)
                == in_len(run.built)
            &&& carried.at < t.ps.len() && in_start(t.ps, carried.at) < t.changes[k].old_start
                ==> in_start(t.ps, carried.at + 1) >= t.changes[k].old_start
            &&& carried.at < t.ps.len() && in_start(t.ps, carried.at) < t.changes[k].old_start
                && t.ps[carried.at] is Same ==> in_start(t.ps, carried.at + 1)
                > t.changes[k].old_start
            &&& forall|q: Hidden|
                #[trigger] hides(carried.built, q) <==> hides(run.built, q) || some_hides(
                    t.ps,
                    run.at,
                    carried.at,
                    shift,
                    q,
                )
            &&& displayed(carried.built, t.new) == displayed(
                run.built,
                t.new,
            ) + shown_part(t.ps, t.old, run.at, carried.at)
            &&& all_same(run.built) && all_same(t.ps) ==> all_same(carried.built)
        }),
{
    let change = t.changes[k];
    let start = change.old_start;
    let shift = zone_shift(t.changes, k);
    let m = seek_from(t.ps, Target::FoldOffset(start), Bias::Left, run.at);
    let copied = run.built + t.ps.subrange(run.at, m);
    let carried = carry(t.ps, run, start);
    assert(zone_kept(t.old, t.new, t.changes, k));
    lemma_seek(t.ps, Target::FoldOffset(start), Bias::Left, run.at);
    lemma_starts_order(t.ps, run.at, m);
    if in_start(t.ps, run.at) < zone_start(t.changes, k) {
        assert(m == run.at);
        assert(copied =~= run.built);
        assert(carried.built == run.built);
        let none = shown_part(t.ps, t.old, run.at, m);
        assert(displayed(run.built, t.new) + none =~= displayed(
            run.built,
            t.new,
        ));
        assert forall|q: Hidden| !some_hides(t.ps, run.at, m, shift, q) by {}
    } else {
        lemma_zone_moves(t, k, run.at, m);
        lemma_reflects_upto(t.ps, t.old, m, t.ps.len() as int);
        lemma_grow_pieces(run.built, t.new, t.ps, t.old, run.at, m, shift);
        if m < t.ps.len() && t.ps[m] is Same && in_start(t.ps, m + 1) == start {
            lemma_zone_moves(t, k, run.at, m + 1);
            lemma_starts_order(t.ps, m, m + 1);
            lemma_zone_moves(t, k, m, m + 1);
            assert(piece_fits(t.ps, t.old, m));
            assert(on_boundary(t.new, in_start(t.ps, m + 1) + shift));
            lemma_grow_same(copied, t.new, start + shift);
            assert(displayed(carried.built, t.new)
                =~= displayed(run.built, t.new) + shown_part(
                t.ps,
                t.old,
                run.at,
                m + 1,
            ));
            assert forall|q: Hidden| #[trigger] hides(carried.built, q) <==> hides(run.built, q)
                || some_hides(t.ps, run.at, m + 1, shift, q) by {
                assert(hides(carried.built, q) <==> hides(copied, q));
                if some_hides(t.ps, run.at, m + 1, shift, q) {
                    let i = choose|i: int|
                        run.at <= i < m + 1 && (#[trigger] t.ps[i]) is Swap && q == hidden_at(
                            t.ps,
                            i,
                            shift,
                        );
                    assert(i < m);
                    assert(some_hides(t.ps, run.at, m, shift, q));
                }
                if some_hides(t.ps, run.at, m, shift, q) {
                    let i = choose|i: int|
                        run.at <= i < m && (#[trigger] t.ps[i]) is Swap && q == hidden_at(
                            t.ps,
                            i,
                            shift,
                        );
                    assert(t.ps[i] is Swap);
                }
            }
        }
    }
}

/// A changed range is laid out.
pub proof fn lemma_rebuild_grows(t: Task, k: int, run: Progress)
    requires
        task_wf(t),
        0 <= k < t.changes.len(),
        on_track(t, k, run),
    ensures
        ({
            let change = t.changes[k];
            let shift = zone_shift(t.changes, k);
            let carried = carry(t.ps, run, change.old_start);
            let done = rebuild(t.new, t.ps, t.rs, run, change);
            &&& measures(done.built, t.new)
            &&& in_len(done.built) == change.new_end
            &&& displayed(
                fill_gap(t.new, carried.built, change.new_start),
                t.new,
            ).is_prefix_of(displayed(done.built, t.new))
            &&& 0 <= done.at <= t.ps.len()
            &&& done.at == piece_behind(t.ps, change.old_end)
            &&& in_start(t.ps, done.at) <= change.old_end
            &&& change.old_end <= end_of_piece(t.ps, done.at) <= t.old.len()
            &&& done.at < t.ps.len() ==> change.old_end < in_start(t.ps, done.at + 1)
            &&& done.at == t.ps.len() ==> change.old_end == t.old.len()
            &&& forall|q: Hidden|
                #[trigger] hides(done.built, q) <==> hides(run.built, q) || some_hides(
                    t.ps,
                    run.at,
                    carried.at,
                    shift,
                    q,
                ) || is_part(t.rs, change.new_start, change.new_end, 0, q)
            &&& all_same(run.built) && all_same(t.ps) && t.rs.len() == 0 ==> all_same(done.built)
        }),
{
    let change = t.changes[k];
    let shift = zone_shift(t.changes, k);
    let carried = carry(t.ps, run, change.old_start);
    let filled = fill_gap(t.new, carried.built, change.new_start);
    let done = rebuild(t.new, t.ps, t.rs, run, change);
    assert(zone_kept(t.old, t.new, t.changes, k));
    assert(zone_kept(t.old, t.new, t.changes, k + 1));
    assert(on_boundary(t.new, change.new_start));
    lemma_carry_grows(t, k, run);
    lemma_grow_gap(carried.built, t.new, change.new_start);
    lemma_grow_region(filled, t.new, t.rs, change.new_start, change.new_end);
    lemma_piece_behind(t.ps, change.old_end);
    assert forall|q: Hidden| #[trigger] hides(done.built, q) <==> hides(run.built, q)
        || some_hides(t.ps, run.at, carried.at, shift, q) || is_part(
        t.rs,
        change.new_start,
        change.new_end,
        0,
        q,
    ) by {
        assert(hides(filled, q) <==> hides(carried.built, q));
    }
}

/// An edit is followed.
pub proof fn lemma_edit_grows(t: Task, k: int, run: Progress)
    requires
        task_wf(t),
        0 <= k < t.changes.len(),
        on_track(t, k, run),
    ensures
        ({
            let change = t.changes[k];
            let shift = zone_shift(t.changes, k);
            let carried = carry(t.ps, run, change.old_start);
            let next = edit_step(
                t.new,
                t.ps,
                t.rs,
                run,
                change,
                change_start(t.changes, k + 1),
            );
            &&& on_track(t, k + 1, next)
            &&& in_len(next.built) >= change.new_end
            &&& forall|q: Hidden|
                #[trigger] hides(next.built, q) <==> hides(run.built, q) || some_hides(
                    t.ps,
                    run.at,
                    carried.at,
                    shift,
                    q,
                ) || is_part(t.rs, change.new_start, change.new_end, 0, q) || (in_len(next.built)
                    > change.new_end && is_part(
                    t.rs,
                    change.new_end,
                    in_len(next.built),
                    0,
                    q,
                ))
            &&& in_len(next.built) > change.new_end ==> next.at > 0 && in_len(next.built)
                == in_start(t.ps, next.at) + zone_shift(t.changes, k + 1)
            &&& all_same(run.built) && all_same(t.ps) && t.rs.len() == 0 ==> all_same(next.built)
        }),
{
    let change = t.changes[k];
    let shift = zone_shift(t.changes, k);
    let carried = carry(t.ps, run, change.old_start);
    let next = edit_step(t.new, t.ps, t.rs, run, change, change_start(t.changes, k + 1));
    let done = rebuild(t.new, t.ps, t.rs, run, change);
    lemma_rebuild_grows(t, k, run);
    assert(zone_kept(t.old, t.new, t.changes, k + 1));
    let end = end_of_piece(t.ps, done.at);
    let stop = change.new_end + (end - change.old_end);
    if next_from(change_start(t.changes, k + 1), end) {
        if stop > in_len(done.built) {
            assert(on_boundary(t.old, in_start(t.ps, done.at + 1)));
            lemma_zone_boundary(t, k + 1, end);
            lemma_grow_region(done.built, t.new, t.rs, change.new_end, stop);
        }
    }
}

/// The old pieces that are left are taken over.
pub proof fn lemma_finish_grows(t: Task, run: Progress)
    requires
        task_wf(t),
        on_track(t, t.changes.len() as int, run),
    ensures
        ({
            let qs = finish(t.new, t.ps, run);
            let shift = zone_shift(t.changes, t.changes.len() as int);
            &&& reflects(qs, t.new)
            &&& in_start(t.ps, run.at) >= zone_start(t.changes, t.changes.len() as int)
            &&& forall|q: Hidden|
                #[trigger] hides(qs, q) <==> hides(run.built, q) || some_hides(
                    t.ps,
                    run.at,
                    t.ps.len() as int,
                    shift,
                    q,
                )
            &&& displayed(qs, t.new) == displayed(run.built, t.new) + shown_part(
                t.ps,
                t.old,
                run.at,
                t.ps.len() as int,
            )
            &&& all_same(run.built) && all_same(t.ps) ==> all_same(qs)
        }),
{
    let n = t.changes.len() as int;
    let shift = zone_shift(t.changes, n);
    let count = t.ps.len() as int;
    let all = run.built + t.ps.skip(run.at);
    assert(zone_kept(t.old, t.new, t.changes, n));
    assert(t.ps.skip(run.at) =~= t.ps.subrange(run.at, count));
    lemma_starts_order(t.ps, run.at, count);
    lemma_zone_moves(t, n, run.at, count);
    lemma_grow_pieces(run.built, t.new, t.ps, t.old, run.at, count, shift);
    if all.len() == 0 {
        assert(t.new.len() == 0);
        assert(t.new.subrange(0, 0) =~= t.new);
        is_char_boundary_start_end_of_seq(t.new);
        lemma_grow_same(all, t.new, 0);
        let qs = finish(t.new, t.ps, run);
        assert(displayed(qs, t.new) =~= displayed(all, t.new));
        assert forall|q: Hidden| #[trigger] hides(qs, q) <==> hides(run.built, q) || some_hides(
            t.ps,
            run.at,
            count,
            shift,
            q,
        ) by {
            assert(hides(qs, q) <==> hides(all, q));
        }
    }
}

/// Nothing is followed yet.
pub proof fn lemma_no_progress(t: Task)
    requires
        task_wf(t),
    ensures
        on_track(t, 0, no_progress()),
        all_same(no_progress().built),
        forall|q: Hidden| !#[trigger] hides(no_progress().built, q),
        displayed(no_progress().built, t.new) == Seq::<u8>::empty(),
{
    is_char_boundary_start_end_of_seq(t.new);
    assert(zone_kept(t.old, t.new, t.changes, 0));
}

/// Edits are followed.
pub proof fn lemma_edits_track(t: Task, k: int)
    requires
        task_wf(t),
        0 <= k <= t.changes.len(),
    ensures
        on_track(t, k, follow_edits(t.new, t.ps, t.rs, t.changes, k)),
        all_same(t.ps) && t.rs.len() == 0 ==> all_same(
            follow_edits(t.new, t.ps, t.rs, t.changes, k).built,
        ),
    decreases k,
{
    if k > 0 {
        lemma_edits_track(t, k - 1);
        lemma_edit_grows(t, k - 1, follow_edits(t.new, t.ps, t.rs, t.changes, k - 1));
    } else {
        lemma_no_progress(t);
    }
}

/// Edits that turn the measured text into the new one can be followed, and the
/// pieces measure the new text when they have been.
pub proof fn lemma_edits_reflect(t: Task)
    requires
        task_wf(t),
    ensures
        edits_fit(t.new.len() as int, t.ps, t.changes),
        reflects(
            finish(
                t.new,
                t.ps,
                follow_edits(t.new, t.ps, t.rs, t.changes, t.changes.len() as int),
            ),
            t.new,
        ),
        all_same(t.ps) && t.rs.len() == 0 ==> all_same(
            finish(
                t.new,
                t.ps,
                follow_edits(t.new, t.ps, t.rs, t.changes, t.changes.len() as int),
            ),
        ),
{
    let n = t.changes.len() as int;
    let len = t.new.len() as int;
    lemma_edits_track(t, n);
    lemma_finish_grows(t, follow_edits(t.new, t.ps, t.rs, t.changes, n));
    assert forall|k: int| 0 <= k < n implies #[trigger] edit_fits(len, t.ps, t.changes, k) by {
        assert(zone_kept(t.old, t.new, t.changes, k));
        assert(zone_kept(t.old, t.new, t.changes, k + 1));
        lemma_piece_behind(t.ps, t.changes[k].old_end);
    }
}

/// A range moved by `shift`.
pub open spec fn moved(q: Hidden, shift: int) -> Hidden {
    Hidden { start: q.start + shift, end: q.end + shift, text: q.text }
}

/// Between the changes the same ranges are hidden in both texts.
pub open spec fn hidden_alike_between(t: Task) -> bool {
    forall|k: int, q: Hidden|
        0 <= k <= t.changes.len() && zone_start(t.changes, k) <= q.start && q.end <= zone_end(
            t.changes,
            k,
            t.old.len() as int,
        ) ==> (#[trigger] hides(t.ps, q) <==> t.rs.contains(
            #[trigger] moved(q, zone_shift(t.changes, k)),
        ))
}

/// No change starts within a range that the old pieces hide or where one ends,
/// and none starts or ends within a range that is to be hidden.
pub open spec fn hidden_clear(t: Task) -> bool {
    &&& forall|k: int, q: Hidden|
        0 <= k < t.changes.len() && #[trigger] hides(t.ps, q) ==> !(q.start < (
        #[trigger] t.changes[k]).old_start <= q.end)
    &&& forall|k: int, i: int|
        0 <= k < t.changes.len() && 0 <= i < t.rs.len() ==> !((#[trigger] t.rs[i]).start < (
        #[trigger] t.changes[k]).new_start < t.rs[i].end) && !(t.rs[i].start
            < t.changes[k].new_end < t.rs[i].end)
}

/// Old pieces hide ranges that are not empty.
pub open spec fn hidden_some(t: Task) -> bool {
    forall|q: Hidden| #[trigger] hides(t.ps, q) ==> q.start < q.end
}

/// What is built hides just what is to be hidden there.
pub open spec fn hides_rightly(t: Task, built: Seq<Piece>) -> bool {
    &&& forall|q: Hidden| #[trigger] hides(built, q) ==> t.rs.contains(q)
    &&& forall|i: int|
        0 <= i < t.rs.len() && (#[trigger] t.rs[i]).start < in_len(built) ==> hides(built, t.rs[i])
}

/// Old pieces between two changes hide just what is to be hidden there.
proof fn lemma_pieces_rightly(t: Task, k: int, i: int, j: int)
    requires
        task_wf(t),
        hidden_alike_between(t),
        hidden_some(t),
        0 <= k <= t.changes.len(),
        0 <= i <= j <= t.ps.len(),
        zone_start(t.changes, k) <= in_start(t.ps, i),
        in_start(t.ps, j) <= zone_end(t.changes, k, t.old.len() as int),
    ensures
        forall|q: Hidden|
            #[trigger] some_hides(t.ps, i, j, zone_shift(t.changes, k), q) ==> t.rs.contains(q),
        forall|q: Hidden|
            #![trigger t.rs.contains(q)]
            t.rs.contains(q) && in_start(t.ps, i) + zone_shift(t.changes, k) <= q.start
                < in_start(t.ps, j) + zone_shift(t.changes, k) && q.end <= zone_end(
                t.changes,
                k,
                t.old.len() as int,
            ) + zone_shift(t.changes, k) ==> some_hides(
                t.ps,
                i,
                j,
                zone_shift(t.changes, k),
                q,
            ),
{
    let shift = zone_shift(t.changes, k);
    let end = zone_end(t.changes, k, t.old.len() as int);
    assert forall|q: Hidden| #[trigger] some_hides(t.ps, i, j, shift, q) implies t.rs.contains(
        q,
    ) by {
        let m = choose|m: int|
            i <= m < j && (#[trigger] t.ps[m]) is Swap && q == hidden_at(t.ps, m, shift);
        lemma_starts_order(t.ps, i, m);
        lemma_starts_order(t.ps, m + 1, j);
        let q0 = hidden_at(t.ps, m, 0);
        assert(hides(t.ps, q0));
        assert(moved(q0, shift) == q);
    }
    assert forall|q: Hidden|
        #![trigger t.rs.contains(q)]
        t.rs.contains(q) && in_start(t.ps, i) + shift <= q.start < in_start(t.ps, j) + shift
            && q.end <= end + shift implies some_hides(t.ps, i, j, shift, q) by {
        let q0 = moved(q, -shift);
        assert(moved(q0, shift) == q);
        assert(hides(t.ps, q0));
        let m = choose|m: int|
            0 <= m < t.ps.len() && (#[trigger] t.ps[m]) is Swap && q0 == hidden_at(t.ps, m, 0);
        if m < i {
            lemma_starts_order(t.ps, m + 1, i);
        }
        if j <= m {
            lemma_starts_order(t.ps, j, m);
        }
        assert(t.ps[m] is Swap && q == hidden_at(t.ps, m, shift));
    }
}

/// What the two texts and the pieces must meet for hidden ranges to be followed.
pub open spec fn hidden_kept(t: Task) -> bool {
    &&& task_wf(t)
    &&& hidden_alike_between(t)
    &&& hidden_clear(t)
    &&& hidden_some(t)
}

/// The part of a range between two bounds is the range if it crosses neither.
proof fn lemma_whole_part(rs: Seq<Hidden>, start: int, end: int, len: int)
    requires
        hiddens_wf(rs, len),
        start <= end,
        forall|i: int|
            0 <= i < rs.len() ==> !((#[trigger] rs[i]).start < start < rs[i].end) && !(rs[i].start
                < end < rs[i].end),
    ensures
        forall|q: Hidden| #[trigger] is_part(rs, start, end, 0, q) ==> rs.contains(q),
        forall|i: int|
            0 <= i < rs.len() && start <= (#[trigger] rs[i]).start < end ==> is_part(
                rs,
                start,
                end,
                0,
                rs[i],
            ),
{
    assert forall|q: Hidden| #[trigger] is_part(rs, start, end, 0, q) implies rs.contains(q) by {
        let i = choose|i: int|
            0 <= i < rs.len() && (#[trigger] rs[i]).end > start && rs[i].start < end && q == clamp(
                rs[i],
                start,
                end,
            );
        assert(q == rs[i]);
    }
    assert forall|i: int| 0 <= i < rs.len() && start <= (#[trigger] rs[i]).start < end implies is_part(
        rs,
        start,
        end,
        0,
        rs[i],
    ) by {
        assert(rs[i] == clamp(rs[i], start, end));
    }
}

/// A changed range is laid out with just what is to be hidden there.
pub proof fn lemma_rebuild_rightly(t: Task, k: int, run: Progress)
    requires
        hidden_kept(t),
        0 <= k < t.changes.len(),
        on_track(t, k, run),
        hides_rightly(t, run.built),
    ensures
        hides_rightly(t, rebuild(t.new, t.ps, t.rs, run, t.changes[k]).built),
{
    let change = t.changes[k];
    let shift = zone_shift(t.changes, k);
    let carried = carry(t.ps, run, change.old_start);
    let done = rebuild(t.new, t.ps, t.rs, run, change);
    assert(zone_kept(t.old, t.new, t.changes, k));
    lemma_carry_grows(t, k, run);
    lemma_rebuild_grows(t, k, run);
    lemma_whole_part(t.rs, change.new_start, change.new_end, t.new.len() as int);
    if run.at < carried.at {
        lemma_pieces_rightly(t, k, run.at, carried.at);
    }
    assert forall|q: Hidden| #[trigger] hides(done.built, q) implies t.rs.contains(q) by {
        if some_hides(t.ps, run.at, carried.at, shift, q) {
            assert(run.at < carried.at);
        }
    }
    assert forall|i: int| 0 <= i < t.rs.len() && (#[trigger] t.rs[i]).start < in_len(
        done.built,
    ) implies hides(done.built, t.rs[i]) by {
        let r = t.rs[i];
        assert(t.rs.contains(r));
        if r.start < in_len(run.built) {
        } else if r.start < in_len(carried.built) {
            assert(r.end <= change.new_start);
            assert(some_hides(t.ps, run.at, carried.at, shift, r));
        } else if r.start < change.new_start {
            assert(r.end <= change.new_start);
            let q = moved(r, -shift);
            assert(moved(q, shift) == r);
            assert(hides(t.ps, q));
            let m = choose|m: int|
                0 <= m < t.ps.len() && (#[trigger] t.ps[m]) is Swap && q == hidden_at(t.ps, m, 0);
            assert(!(q.start < t.changes[k].old_start <= q.end));
            if m < carried.at {
                lemma_starts_order(t.ps, m + 1, carried.at);
            } else if m > carried.at {
                lemma_starts_order(t.ps, carried.at + 1, m);
            }
            assert(false);
        }
    }
}

/// No range that is to be hidden crosses the end of an old piece between two changes.
pub proof fn lemma_piece_end_clear(t: Task, k: int, m: int, i: int)
    requires
        hidden_kept(t),
        0 <= k <= t.changes.len(),
        0 <= m <= t.ps.len(),
        zone_start(t.changes, k) <= in_start(t.ps, m) <= zone_end(
            t.changes,
            k,
            t.old.len() as int,
        ),
        0 <= i < t.rs.len(),
    ensures
        !(t.rs[i].start < in_start(t.ps, m) + zone_shift(t.changes, k) < t.rs[i].end),
{
    let shift = zone_shift(t.changes, k);
    let r = t.rs[i];
    let at = in_start(t.ps, m) + shift;
    assert(zone_kept(t.old, t.new, t.changes, k));
    if r.start < at < r.end {
        if k > 0 {
            assert(!(r.start < t.changes[k - 1].new_end < r.end));
        }
        if k < t.changes.len() {
            assert(!(r.start < t.changes[k].new_start < r.end));
        }
        let q = moved(r, -shift);
        assert(moved(q, shift) == r);
        assert(t.rs.contains(r));
        assert(hides(t.ps, q));
        let j = choose|j: int|
            0 <= j < t.ps.len() && (#[trigger] t.ps[j]) is Swap && q == hidden_at(t.ps, j, 0);
        if m <= j {
            lemma_starts_order(t.ps, m, j);
        } else {
            lemma_starts_order(t.ps, j + 1, m);
        }
    }
}

/// An edit is followed, and just what is to be hidden there is hidden.
proof fn lemma_edit_rightly(t: Task, k: int, run: Progress)
    requires
        hidden_kept(t),
        0 <= k < t.changes.len(),
        on_track(t, k, run),
        hides_rightly(t, run.built),
    ensures
        hides_rightly(
            t,
            edit_step(
                t.new,
                t.ps,
                t.rs,
                run,
                t.changes[k],
                change_start(t.changes, k + 1),
            ).built,
        ),
{
    let change = t.changes[k];
    let done = rebuild(t.new, t.ps, t.rs, run, change);
    let next = edit_step(t.new, t.ps, t.rs, run, change, change_start(t.changes, k + 1));
    lemma_rebuild_grows(t, k, run);
    lemma_rebuild_rightly(t, k, run);
    lemma_edit_grows(t, k, run);
    assert(zone_kept(t.old, t.new, t.changes, k + 1));
    let stop = in_len(next.built);
    if stop > change.new_end {
        assert forall|i: int| 0 <= i < t.rs.len() implies !((#[trigger] t.rs[i]).start
            < change.new_end < t.rs[i].end) && !(t.rs[i].start < stop < t.rs[i].end) by {
            assert(!(t.rs[i].start < t.changes[k].new_end < t.rs[i].end));
            lemma_piece_end_clear(t, k + 1, next.at, i);
        }
        lemma_whole_part(t.rs, change.new_end, stop, t.new.len() as int);
        let shift = zone_shift(t.changes, k);
        let carried = carry(t.ps, run, change.old_start);
        assert forall|q: Hidden| #[trigger] hides(next.built, q) <==> hides(done.built, q)
            || is_part(t.rs, change.new_end, stop, 0, q) by {
            assert(hides(done.built, q) <==> hides(run.built, q) || some_hides(
                t.ps,
                run.at,
                carried.at,
                shift,
                q,
            ) || is_part(t.rs, change.new_start, change.new_end, 0, q));
        }
        assert forall|i: int| 0 <= i < t.rs.len() && (#[trigger] t.rs[i]).start
            < stop implies hides(next.built, t.rs[i]) by {
            if t.rs[i].start < change.new_end {
                assert(hides(done.built, t.rs[i]));
            } else {
                assert(is_part(t.rs, change.new_end, stop, 0, t.rs[i]));
            }
        }
    } else {
        let shift = zone_shift(t.changes, k);
        let carried = carry(t.ps, run, change.old_start);
        assert forall|q: Hidden| #[trigger] hides(next.built, q) <==> hides(done.built, q) by {
            assert(hides(done.built, q) <==> hides(run.built, q) || some_hides(
                t.ps,
                run.at,
                carried.at,
                shift,
                q,
            ) || is_part(t.rs, change.new_start, change.new_end, 0, q));
        }
    }
}

/// The old pieces that are left are taken over, and just what is to be hidden is hidden.
proof fn lemma_finish_rightly(t: Task, run: Progress)
    requires
        hidden_kept(t),
        on_track(t, t.changes.len() as int, run),
        hides_rightly(t, run.built),
    ensures
        reflects(finish(t.new, t.ps, run), t.new),
        forall|q: Hidden|
            #[trigger] hides(finish(t.new, t.ps, run), q) ==> t.rs.contains(q),
        forall|i: int|
            0 <= i < t.rs.len() ==> hides(finish(t.new, t.ps, run), #[trigger] t.rs[i]),
{
    let n = t.changes.len() as int;
    let count = t.ps.len() as int;
    let shift = zone_shift(t.changes, n);
    let qs = finish(t.new, t.ps, run);
    lemma_finish_grows(t, run);
    assert(zone_kept(t.old, t.new, t.changes, n));
    lemma_pieces_rightly(t, n, run.at, count);
    assert forall|i: int| 0 <= i < t.rs.len() implies hides(qs, #[trigger] t.rs[i]) by {
        assert(t.rs.contains(t.rs[i]));
        if t.rs[i].start >= in_len(run.built) {
            assert(some_hides(t.ps, run.at, count, shift, t.rs[i]));
        }
    }
}

/// Edits are followed, and just what is to be hidden is hidden.
pub proof fn lemma_edits_rightly(t: Task, k: int)
    requires
        hidden_kept(t),
        0 <= k <= t.changes.len(),
    ensures
        hides_rightly(t, follow_edits(t.new, t.ps, t.rs, t.changes, k).built),
    decreases k,
{
    if k > 0 {
        let run = follow_edits(t.new, t.ps, t.rs, t.changes, k - 1);
        lemma_edits_rightly(t, k - 1);
        lemma_edits_track(t, k - 1);
        lemma_edit_rightly(t, k - 1, run);
    } else {
        lemma_no_progress(t);
    }
}

/// When edits have been followed, the text is displayed with all that is to be hidden replaced.
pub proof fn lemma_edits_conceal(t: Task)
    requires
        hidden_kept(t),
    ensures
        ({
            let qs = finish(
                t.new,
                t.ps,
                follow_edits(t.new, t.ps, t.rs, t.changes, t.changes.len() as int),
            );
            &&& swaps(qs, qs.len() as int) == t.rs
            &&& displayed(qs, t.new) == concealed(t.new, t.rs)
        }),
{
    let n = t.changes.len() as int;
    let run = follow_edits(t.new, t.ps, t.rs, t.changes, n);
    lemma_edits_track(t, n);
    lemma_edits_rightly(t, n);
    lemma_finish_rightly(t, run);
    lemma_hides_exactly(finish(t.new, t.ps, run), t.new, t.rs);
}

/// Ranges that stay where they are, as changes.
pub open spec fn in_places(spans: Seq<Span>) -> Seq<Change> {
    spans.map_values(|span: Span| in_place(span))
}

/// The text has not changed but for what is hidden in `spans`, none of which ends
/// within a range that the old pieces hide.
pub open spec fn reveal_task(t: Task, spans: Seq<Span>) -> bool {
    &&& task_wf(t)
    &&& t.old == t.new
    &&& t.changes == in_places(spans)
    &&& forall|k: int, q: Hidden|
        0 <= k < spans.len() && #[trigger] hides(t.ps, q) ==> !(q.start < (
        #[trigger] spans[k]).end < q.end)
}

/// A range that was revealed or concealed is followed.
pub proof fn lemma_reveal_grows(t: Task, spans: Seq<Span>, k: int, run: Progress)
    requires
        reveal_task(t, spans),
        0 <= k < t.changes.len(),
        on_track(t, k, run),
    ensures
        ({
            let next = reveal_step(
                t.new,
                t.ps,
                t.rs,
                run,
                spans[k],
                span_start_at(spans, k + 1),
            );
            let done = rebuild(t.new, t.ps, t.rs, run, t.changes[k]);
            &&& on_track(t, k + 1, next)
            &&& hide_alike(next.built, done.built)
            &&& in_len(next.built) >= spans[k].end
            &&& in_len(next.built) > spans[k].end ==> {
                &&& done.at < t.ps.len()
                &&& t.ps[done.at] is Same
                &&& in_len(next.built) == in_start(t.ps, done.at + 1)
                &&& next.at == done.at + 1
            }
            &&& all_same(run.built) && all_same(t.ps) && t.rs.len() == 0 ==> all_same(next.built)
        }),
{
    let next = reveal_step(t.new, t.ps, t.rs, run, spans[k], span_start_at(spans, k + 1));
    let done = rebuild(t.new, t.ps, t.rs, run, t.changes[k]);
    assert(t.changes[k] == in_place(spans[k]));
    assert(k + 1 < spans.len() ==> t.changes[k + 1] == in_place(spans[k + 1]));
    lemma_rebuild_grows(t, k, run);
    assert(zone_kept(t.old, t.new, t.changes, k + 1));
    let end = end_of_piece(t.ps, done.at);
    if done.at < t.ps.len() && t.ps[done.at] is Same && in_start(t.ps, done.at) < end && next_from(
        span_start_at(spans, k + 1),
        end,
    ) {
        assert(on_boundary(t.old, in_start(t.ps, done.at + 1)));
        lemma_grow_gap(done.built, t.new, end);
    } else if done.at < t.ps.len() && t.ps[done.at] is Swap {
        assert(hides(t.ps, hidden_at(t.ps, done.at, 0)));
        assert(in_start(t.ps, done.at) == spans[k].end);
    }
}

/// A range that was revealed or concealed is followed, and just what is to be
/// hidden there is hidden.
proof fn lemma_reveal_rightly(t: Task, spans: Seq<Span>, k: int, run: Progress)
    requires
        hidden_kept(t),
        reveal_task(t, spans),
        0 <= k < t.changes.len(),
        on_track(t, k, run),
        hides_rightly(t, run.built),
    ensures
        hides_rightly(
            t,
            reveal_step(t.new, t.ps, t.rs, run, spans[k], span_start_at(spans, k + 1)).built,
        ),
{
    let next = reveal_step(t.new, t.ps, t.rs, run, spans[k], span_start_at(spans, k + 1));
    let done = rebuild(t.new, t.ps, t.rs, run, t.changes[k]);
    assert(t.changes[k] == in_place(spans[k]));
    lemma_rebuild_grows(t, k, run);
    lemma_rebuild_rightly(t, k, run);
    lemma_reveal_grows(t, spans, k, run);
    assert(zone_kept(t.old, t.new, t.changes, k + 1));
    let stop = in_len(next.built);
    assert forall|i: int| 0 <= i < t.rs.len() && (#[trigger] t.rs[i]).start < stop implies hides(
        next.built,
        t.rs[i],
    ) by {
        let r = t.rs[i];
        if r.start < spans[k].end {
            assert(hides(done.built, r));
        } else {
            lemma_piece_end_clear(t, k + 1, done.at + 1, i);
            assert(t.rs.contains(r));
            assert(moved(r, 0) == r);
            assert(hides(t.ps, r));
            let m = choose|m: int|
                0 <= m < t.ps.len() && (#[trigger] t.ps[m]) is Swap && r == hidden_at(t.ps, m, 0);
            if m < done.at {
                lemma_starts_order(t.ps, m + 1, done.at);
            } else if m > done.at {
                lemma_starts_order(t.ps, done.at + 1, m);
            }
            assert(false);
        }
    }
}

/// Reveals are followed.
pub proof fn lemma_reveals_track(t: Task, spans: Seq<Span>, k: int)
    requires
        reveal_task(t, spans),
        0 <= k <= t.changes.len(),
    ensures
        on_track(t, k, follow_reveals(t.new, t.ps, t.rs, spans, k)),
        all_same(t.ps) && t.rs.len() == 0 ==> all_same(
            follow_reveals(t.new, t.ps, t.rs, spans, k).built,
        ),
        hidden_kept(t) ==> hides_rightly(t, follow_reveals(t.new, t.ps, t.rs, spans, k).built),
    decreases k,
{
    if k > 0 {
        let run = follow_reveals(t.new, t.ps, t.rs, spans, k - 1);
        lemma_reveals_track(t, spans, k - 1);
        lemma_reveal_grows(t, spans, k - 1, run);
        if hidden_kept(t) {
            lemma_reveal_rightly(t, spans, k - 1, run);
        }
    } else {
        lemma_no_progress(t);
    }
}

/// Reveals can be followed, and the pieces measure the text when they have been.
pub proof fn lemma_reveals_reflect(t: Task, spans: Seq<Span>)
    requires
        reveal_task(t, spans),
    ensures
        reveals_fit(t.new, t.ps, t.rs, spans),
        reflects(
            finish(
                t.new,
                t.ps,
                follow_reveals(t.new, t.ps, t.rs, spans, spans.len() as int),
            ),
            t.new,
        ),
        all_same(t.ps) && t.rs.len() == 0 ==> all_same(
            finish(
                t.new,
                t.ps,
                follow_reveals(t.new, t.ps, t.rs, spans, spans.len() as int),
            ),
        ),
{
    let n = spans.len() as int;
    lemma_reveals_track(t, spans, n);
    lemma_finish_grows(t, follow_reveals(t.new, t.ps, t.rs, spans, n));
    assert forall|k: int| 0 <= k < n implies #[trigger] reveal_fits(
        t.new,
        t.ps,
        t.rs,
        spans,
        k,
    ) by {
        assert(t.changes[k] == in_place(spans[k]));
        assert(zone_kept(t.old, t.new, t.changes, k));
        assert(zone_kept(t.old, t.new, t.changes, k + 1));
        lemma_reveals_track(t, spans, k);
    }
}

/// When reveals have been followed, the text is displayed with all that is to be hidden replaced.
pub proof fn lemma_reveals_conceal(t: Task, spans: Seq<Span>)
    requires
        reveal_task(t, spans),
        hidden_kept(t),
    ensures
        ({
            let qs = finish(
                t.new,
                t.ps,
                follow_reveals(t.new, t.ps, t.rs, spans, spans.len() as int),
            );
            &&& swaps(qs, qs.len() as int) == t.rs
            &&& displayed(qs, t.new) == concealed(t.new, t.rs)
        }),
{
    let n = spans.len() as int;
    let run = follow_reveals(t.new, t.ps, t.rs, spans, n);
    lemma_reveals_track(t, spans, n);
    lemma_finish_rightly(t, run);
    lemma_hides_exactly(finish(t.new, t.ps, run), t.new, t.rs);
}

} // verus!

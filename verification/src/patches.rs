//! What patches say of the displayed text before and after.

use crate::display::{
    displayed, hidden_at, hides, lemma_reflects_upto, lemma_shown, piece_text, shown,
};
use crate::edits::{describes, patch_push, zone_end, zone_kept, zone_shift, zone_start, Change};
use crate::fold::on_boundary;
use crate::follow::{
    hidden_kept, lemma_carry_grows, lemma_edit_grows, lemma_edits_track, lemma_finish_grows,
    lemma_no_progress, lemma_piece_end_clear, lemma_rebuild_grows, lemma_reveal_grows,
    lemma_reveals_track, moved, on_track, reveal_task, task_wf, Task,
};
use crate::grow::{lemma_grow_gap, lemma_grow_piece, lemma_shown_parts, measures, shown_part};
use crate::layout::{
    add_hidden, add_hiddens, fill_gap, fill_region, first_behind, lemma_first_behind, swap_piece,
};
use crate::text::lemma_summary_wf;
use crate::resolve::{hiddens_wf, Hidden, Span};
use crate::sync::{
    carry, change_start, count_on, edit_step, end_of_piece, finish, follow_edits, follow_reveals,
    in_place, lemma_piece_behind, next_from, no_progress, piece_behind, rebuild, reveal_step,
    span_start_at, Progress,
};
use crate::transform::{in_len, in_start, lemma_push, lemma_starts_order, Piece};
use vstd::prelude::*;

verus! {

/// The same text behind both texts changes nothing.
proof fn lemma_describes_more(old: Seq<u8>, new: Seq<u8>, more: Seq<u8>, changes: Seq<Change>)
    requires
        describes(old, new, changes),
    ensures
        describes(old + more, new + more, changes),
{
    let n = changes.len() as int;
    assert forall|k: int| 0 <= k <= n implies #[trigger] zone_kept(
        old + more,
        new + more,
        changes,
        k,
    ) by {
        assert(zone_kept(old, new, changes, k));
        let start = zone_start(changes, k);
        let end = zone_end(changes, k, old.len() as int);
        let shift = zone_shift(changes, k);
        if k < n {
            assert((old + more).subrange(start, end) =~= old.subrange(start, end));
            assert((new + more).subrange(start + shift, end + shift) =~= new.subrange(
                start + shift,
                end + shift,
            ));
        } else {
            let len = (old + more).len() as int;
            assert((old + more).subrange(start, len) =~= old.subrange(start, end) + more);
            assert((new + more).subrange(start + shift, len + shift) =~= new.subrange(
                start + shift,
                end + shift,
            ) + more);
        }
    }
}

/// One more change at the end of both texts.
proof fn lemma_describes_push(
    old: Seq<u8>,
    new: Seq<u8>,
    old_part: Seq<u8>,
    new_part: Seq<u8>,
    changes: Seq<Change>,
)
    requires
        describes(old, new, changes),
    ensures
        describes(
            old + old_part,
            new + new_part,
            patch_push(
                changes,
                Change {
                    old_start: old.len() as int,
                    old_end: (old + old_part).len() as int,
                    new_start: new.len() as int,
                    new_end: (new + new_part).len() as int,
                },
            ),
        ),
{
    let n = changes.len() as int;
    let change = Change {
        old_start: old.len() as int,
        old_end: (old + old_part).len() as int,
        new_start: new.len() as int,
        new_end: (new + new_part).len() as int,
    };
    let pushed = patch_push(changes, change);
    let longer_old = old + old_part;
    let longer_new = new + new_part;
    if change.old_start == change.old_end && change.new_start == change.new_end {
        assert(longer_old =~= old);
        assert(longer_new =~= new);
    } else {
        let count = pushed.len() as int;
        assert(zone_kept(old, new, changes, n));
        assert forall|k: int| 0 <= k < count implies (#[trigger] pushed[k]).old_start
            <= pushed[k].old_end && pushed[k].new_start <= pushed[k].new_end by {
            if k < n {
                assert(changes[k].old_start <= changes[k].old_end);
            }
        }
        assert forall|k: int| 0 <= k <= count implies #[trigger] zone_kept(
            longer_old,
            longer_new,
            pushed,
            k,
        ) by {
            if k < count {
                assert(zone_kept(old, new, changes, k));
                if k > 0 {
                    assert(pushed[k - 1] == changes[k - 1]);
                }
                let start = zone_start(pushed, k);
                let end = zone_end(pushed, k, longer_old.len() as int);
                let shift = zone_shift(pushed, k);
                assert(longer_old.subrange(start, end) =~= old.subrange(start, end));
                assert(longer_new.subrange(start + shift, end + shift) =~= new.subrange(
                    start + shift,
                    end + shift,
                ));
            } else {
                assert(longer_old.subrange(change.old_end, change.old_end) =~= Seq::<u8>::empty());
                assert(longer_new.subrange(change.new_end, change.new_end) =~= Seq::<u8>::empty());
            }
        }
    }
}

/// What the pieces before `at` display, and the text from there up to `upto`.
pub open spec fn shown_before(ps: Seq<Piece>, text: Seq<u8>, at: int, upto: int) -> Seq<u8> {
    shown(ps, text, at) + text.subrange(in_start(ps, at), upto)
}

/// No change ends within a range that the old pieces hide.
pub open spec fn ends_clear(t: Task) -> bool {
    forall|k: int, q: Hidden|
        0 <= k < t.changes.len() && #[trigger] hides(t.ps, q) ==> !(q.start < (
        #[trigger] t.changes[k]).old_end < q.end)
}

/// How far the old text is dealt with.
pub open spec fn dealt_with(t: Task, k: int, run: Progress) -> int {
    if in_start(t.ps, run.at) > zone_start(t.changes, k) {
        in_start(t.ps, run.at)
    } else {
        zone_start(t.changes, k)
    }
}

/// The patch says what changed in the displayed text so far.
pub open spec fn patch_right(t: Task, k: int, run: Progress) -> bool {
    &&& in_start(t.ps, run.at) < dealt_with(t, k, run) ==> t.ps[run.at] is Same
    &&& describes(
        shown_before(t.ps, t.old, run.at, dealt_with(t, k, run)),
        displayed(run.built, t.new),
        run.patch,
    )
}

/// What is displayed up to the start of a change.
pub proof fn lemma_before_change(t: Task, k: int, run: Progress)
    requires
        hidden_kept(t),
        0 <= k < t.changes.len(),
        on_track(t, k, run),
        patch_right(t, k, run),
    ensures
        ({
            let change = t.changes[k];
            let carried = carry(t.ps, run, change.old_start);
            let filled = fill_gap(t.new, carried.built, change.new_start);
            &&& describes(
                shown_before(t.ps, t.old, carried.at, change.old_start),
                displayed(filled, t.new),
                run.patch,
            )
            &&& in_start(t.ps, carried.at) <= change.old_start
            &&& 0 <= carried.at <= t.ps.len()
            &&& in_start(t.ps, carried.at) < change.old_start ==> carried.at < t.ps.len()
                && t.ps[carried.at] is Same && change.old_start <= in_start(t.ps, carried.at + 1)
        }),
{
    let change = t.changes[k];
    let shift = zone_shift(t.changes, k);
    let carried = carry(t.ps, run, change.old_start);
    let filled = fill_gap(t.new, carried.built, change.new_start);
    let upto = dealt_with(t, k, run);
    assert(zone_kept(t.old, t.new, t.changes, k));
    lemma_carry_grows(t, k, run);
    assert(on_boundary(t.new, change.new_start));
    lemma_grow_gap(carried.built, t.new, change.new_start);
    if in_start(t.ps, carried.at) < change.old_start {
        if carried.at == t.ps.len() {
            assert(false);
        }
        if t.ps[carried.at] is Swap {
            assert(hides(t.ps, hidden_at(t.ps, carried.at, 0)));
        }
    }
    let before = shown_before(t.ps, t.old, run.at, upto);
    let part = shown_part(t.ps, t.old, run.at, carried.at);
    let x = in_len(carried.built) - shift;
    let gap = t.old.subrange(x, change.old_start);
    assert(before + part =~= shown_before(t.ps, t.old, carried.at, x)) by {
        if run.at < carried.at {
            lemma_shown_parts(t.ps, t.old, run.at, run.at, carried.at);
        } else {
            assert(part =~= Seq::<u8>::empty());
        }
    }
    lemma_describes_more(before, displayed(run.built, t.new), part, run.patch);
    lemma_starts_order(t.ps, 0, carried.at);
    lemma_starts_order(t.ps, run.at, carried.at);
    assert(shown_before(t.ps, t.old, carried.at, x) + gap =~= shown_before(
        t.ps,
        t.old,
        carried.at,
        change.old_start,
    ));
    let start = zone_start(t.changes, k);
    let end = zone_end(t.changes, k, t.old.len() as int);
    assert(gap =~= t.old.subrange(start, end).subrange(x - start, end - start));
    assert(t.new.subrange(in_len(carried.built), change.new_start) =~= t.new.subrange(
        start + shift,
        end + shift,
    ).subrange(x - start, end - start));
    lemma_describes_more(
        shown_before(t.ps, t.old, carried.at, x),
        displayed(carried.built, t.new),
        gap,
        run.patch,
    );
}

/// What is displayed up to the end of a change goes on from what is displayed up to its start.
pub proof fn lemma_across_change(t: Task, k: int, at: int)
    requires
        task_wf(t),
        ends_clear(t),
        0 <= k < t.changes.len(),
        0 <= at <= t.ps.len(),
        in_start(t.ps, at) <= t.changes[k].old_start,
        in_start(t.ps, at) < t.changes[k].old_start ==> at < t.ps.len() && t.ps[at] is Same
            && t.changes[k].old_start <= in_start(t.ps, at + 1),
    ensures
        ({
            let end = t.changes[k].old_end;
            let behind = piece_behind(t.ps, end);
            &&& shown_before(t.ps, t.old, at, t.changes[k].old_start).is_prefix_of(
                shown_before(t.ps, t.old, behind, end),
            )
            &&& in_start(t.ps, behind) < end ==> t.ps[behind] is Same
        }),
{
    let change = t.changes[k];
    let end = change.old_end;
    let behind = piece_behind(t.ps, end);
    assert(zone_kept(t.old, t.new, t.changes, k));
    assert(zone_kept(t.old, t.new, t.changes, k + 1));
    lemma_piece_behind(t.ps, end);
    if in_start(t.ps, behind) < end && behind < t.ps.len() && t.ps[behind] is Swap {
        assert(hides(t.ps, hidden_at(t.ps, behind, 0)));
    }
    lemma_starts_order(t.ps, 0, at);
    if at > behind {
        lemma_starts_order(t.ps, behind + 1, at);
    }
    let a = shown_before(t.ps, t.old, at, change.old_start);
    let b = shown_before(t.ps, t.old, behind, end);
    if at == behind {
        assert(b =~= a + t.old.subrange(change.old_start, end));
    } else {
        lemma_shown_parts(t.ps, t.old, at, at + 1, behind);
        lemma_starts_order(t.ps, at, at + 1);
        lemma_starts_order(t.ps, at + 1, t.ps.len() as int);
        let first = piece_text(t.ps, t.old, at);
        assert(shown_part(t.ps, t.old, at, at) =~= Seq::<u8>::empty());
        assert(shown_part(t.ps, t.old, at, at + 1) =~= first);
        let rest = shown_part(t.ps, t.old, at + 1, behind);
        let tail = t.old.subrange(in_start(t.ps, behind), end);
        assert(b =~= shown(t.ps, t.old, at) + (first + rest) + tail);
        let head = t.old.subrange(in_start(t.ps, at), change.old_start);
        if in_start(t.ps, at) < change.old_start {
            assert(first == t.old.subrange(in_start(t.ps, at), in_start(t.ps, at + 1)));
            assert(first.subrange(0, head.len() as int) =~= head);
        }
        assert(a =~= b.subrange(0, a.len() as int));
    }
}

/// How long that is.
pub proof fn lemma_shown_before(t: Task, at: int, upto: int)
    requires
        task_wf(t),
        0 <= at <= t.ps.len(),
        in_start(t.ps, at) <= upto <= t.old.len(),
    ensures
        shown_before(t.ps, t.old, at, upto).len() == count_on(t.ps, at, upto),
{
    lemma_starts_order(t.ps, 0, at);
    lemma_reflects_upto(t.ps, t.old, at, t.ps.len() as int);
    lemma_shown(t.ps, t.old, at);
}

/// A changed range is part of the patch.
proof fn lemma_rebuild_patch(t: Task, k: int, run: Progress)
    requires
        hidden_kept(t),
        ends_clear(t),
        0 <= k < t.changes.len(),
        on_track(t, k, run),
        patch_right(t, k, run),
    ensures
        ({
            let change = t.changes[k];
            let done = rebuild(t.new, t.ps, t.rs, run, change);
            &&& describes(
                shown_before(t.ps, t.old, done.at, change.old_end),
                displayed(done.built, t.new),
                done.patch,
            )
            &&& in_start(t.ps, done.at) < change.old_end ==> t.ps[done.at] is Same
        }),
{
    let change = t.changes[k];
    let carried = carry(t.ps, run, change.old_start);
    let filled = fill_gap(t.new, carried.built, change.new_start);
    let done = rebuild(t.new, t.ps, t.rs, run, change);
    assert(zone_kept(t.old, t.new, t.changes, k));
    assert(zone_kept(t.old, t.new, t.changes, k + 1));
    lemma_before_change(t, k, run);
    lemma_across_change(t, k, carried.at);
    lemma_rebuild_grows(t, k, run);
    lemma_carry_grows(t, k, run);
    assert(on_boundary(t.new, change.new_start));
    lemma_grow_gap(carried.built, t.new, change.new_start);
    let a = shown_before(t.ps, t.old, carried.at, change.old_start);
    let b = shown_before(t.ps, t.old, done.at, change.old_end);
    let c = displayed(filled, t.new);
    let d = displayed(done.built, t.new);
    let old_part = b.skip(a.len() as int);
    let new_part = d.skip(c.len() as int);
    assert(a + old_part =~= b);
    assert(c + new_part =~= d);
    lemma_describes_push(a, c, old_part, new_part, run.patch);
    lemma_shown_before(t, carried.at, change.old_start);
    lemma_shown_before(t, done.at, change.old_end);
    lemma_shown(filled, t.new, filled.len() as int);
    lemma_shown(done.built, t.new, done.built.len() as int);
}

/// Where nothing is hidden, the text is shown as it is.
proof fn lemma_region_plain(
    text: Seq<u8>,
    ps: Seq<Piece>,
    rs: Seq<Hidden>,
    start: int,
    end: int,
)
    requires
        forall|i: int| 0 <= i < rs.len() && (#[trigger] rs[i]).end > start ==> rs[i].start >= end,
    ensures
        fill_region(text, ps, rs, start, end) == fill_gap(text, ps, end),
{
    lemma_first_behind(rs, start, 0);
}

/// Where one range is hidden from end to end, its text is shown.
proof fn lemma_region_one(
    text: Seq<u8>,
    ps: Seq<Piece>,
    rs: Seq<Hidden>,
    start: int,
    end: int,
    i: int,
)
    requires
        hiddens_wf(rs, text.len() as int),
        measures(ps, text),
        in_len(ps) == start,
        0 <= i < rs.len(),
        rs[i].start == start,
        rs[i].end == end,
    ensures
        fill_region(text, ps, rs, start, end) == ps.push(swap_piece(text, start, end, rs[i].text)),
{
    let first = first_behind(rs, start, 0);
    lemma_first_behind(rs, start, 0);
    if first < i {
        assert(rs[first].end <= rs[i].start);
    }
    if i < first {
        assert(rs[i].end <= start);
    }
    assert(first == i);
    let next = add_hidden(text, ps, rs[i], start, end);
    let piece = swap_piece(text, start, end, rs[i].text);
    assert(next == ps.push(piece));
    if i + 1 < rs.len() {
        assert(rs[i].end <= rs[i + 1].start);
    }
    assert(add_hiddens(text, next, rs, start, end, i + 1) == next);
    assert(add_hiddens(text, ps, rs, start, end, i) == next);
    lemma_summary_wf(text.subrange(start, end));
    lemma_push(ps, piece);
}

/// The patch is right after an edit has been followed.
proof fn lemma_edit_patch(t: Task, k: int, run: Progress)
    requires
        hidden_kept(t),
        ends_clear(t),
        0 <= k < t.changes.len(),
        on_track(t, k, run),
        patch_right(t, k, run),
    ensures
        patch_right(
            t,
            k + 1,
            edit_step(t.new, t.ps, t.rs, run, t.changes[k], change_start(t.changes, k + 1)),
        ),
{
    let change = t.changes[k];
    let next = edit_step(t.new, t.ps, t.rs, run, change, change_start(t.changes, k + 1));
    let done = rebuild(t.new, t.ps, t.rs, run, change);
    let shift = zone_shift(t.changes, k + 1);
    lemma_rebuild_grows(t, k, run);
    lemma_edit_grows(t, k, run);
    lemma_rebuild_patch(t, k, run);
    assert(zone_kept(t.old, t.new, t.changes, k + 1));
    let end = end_of_piece(t.ps, done.at);
    if next_from(change_start(t.changes, k + 1), end) && done.at < t.ps.len() {
        let stop = end + shift;
        let a = shown_before(t.ps, t.old, done.at, change.old_end);
        let b = shown_before(t.ps, t.old, next.at, end);
        assert(next.built == fill_region(t.new, done.built, t.rs, change.new_end, stop));
        if t.ps[done.at] is Same {
            lemma_edit_tail_same(t, k, done.at);
            lemma_region_plain(t.new, done.built, t.rs, change.new_end, stop);
            assert(on_boundary(t.new, stop)) by {
                lemma_starts_order(next.built, 0, next.built.len() as int);
                assert(on_boundary(t.new, in_start(next.built, next.built.len() as int)));
            }
            lemma_grow_gap(done.built, t.new, stop);
            let part = t.old.subrange(change.old_end, end);
            lemma_zone_part(t, k + 1, change.old_end, end);
            lemma_starts_order(t.ps, 0, done.at);
            assert(b =~= a + part);
            lemma_describes_more(a, displayed(done.built, t.new), part, done.patch);
        } else {
            let q = hidden_at(t.ps, done.at, 0);
            assert(hides(t.ps, q));
            let r = moved(q, shift);
            assert(t.rs.contains(r));
            let i = t.rs.index_of(r);
            lemma_region_one(t.new, done.built, t.rs, change.new_end, stop, i);
            assert(on_boundary(t.new, stop)) by {
                assert(on_boundary(t.new, in_start(next.built, next.built.len() as int)));
            }
            let piece = swap_piece(t.new, change.new_end, stop, r.text);
            lemma_grow_piece(done.built, piece, t.new, stop);
            assert(b =~= a + r.text);
            lemma_describes_more(a, displayed(done.built, t.new), r.text, done.patch);
        }
    }
}

/// Text between two changes is the same in both texts.
proof fn lemma_zone_part(t: Task, k: int, from: int, to: int)
    requires
        task_wf(t),
        0 <= k <= t.changes.len(),
        zone_start(t.changes, k) <= from <= to <= zone_end(t.changes, k, t.old.len() as int),
    ensures
        t.old.subrange(from, to) == t.new.subrange(
            from + zone_shift(t.changes, k),
            to + zone_shift(t.changes, k),
        ),
{
    let start = zone_start(t.changes, k);
    let end = zone_end(t.changes, k, t.old.len() as int);
    let shift = zone_shift(t.changes, k);
    assert(zone_kept(t.old, t.new, t.changes, k));
    assert(t.old.subrange(from, to) =~= t.old.subrange(start, end).subrange(
        from - start,
        to - start,
    ));
    assert(t.new.subrange(from + shift, to + shift) =~= t.new.subrange(
        start + shift,
        end + shift,
    ).subrange(from - start, to - start));
}

/// Nothing is to be hidden in the rest of an old piece that hid nothing.
proof fn lemma_edit_tail_same(t: Task, k: int, at: int)
    requires
        hidden_kept(t),
        0 <= k < t.changes.len(),
        0 <= at < t.ps.len(),
        t.ps[at] is Same,
        in_start(t.ps, at) <= t.changes[k].old_end < in_start(t.ps, at + 1),
        in_start(t.ps, at + 1) <= zone_end(t.changes, k + 1, t.old.len() as int),
    ensures
        forall|i: int|
            0 <= i < t.rs.len() && (#[trigger] t.rs[i]).end > t.changes[k].new_end
                ==> t.rs[i].start >= in_start(t.ps, at + 1) + zone_shift(t.changes, k + 1),
{
    let shift = zone_shift(t.changes, k + 1);
    let end = t.changes[k].new_end;
    let stop = in_start(t.ps, at + 1) + shift;
    assert(zone_kept(t.old, t.new, t.changes, k + 1));
    assert forall|i: int| 0 <= i < t.rs.len() && (#[trigger] t.rs[i]).end > end implies t.rs[i].start
        >= stop by {
        let r = t.rs[i];
        if r.start < stop {
            assert(!(r.start < t.changes[k].new_end < r.end));
            lemma_piece_end_clear(t, k + 1, at + 1, i);
            let q = moved(r, -shift);
            assert(moved(q, shift) == r);
            assert(t.rs.contains(r));
            assert(hides(t.ps, q));
            let m = choose|m: int|
                0 <= m < t.ps.len() && (#[trigger] t.ps[m]) is Swap && q == hidden_at(t.ps, m, 0);
            if m < at {
                lemma_starts_order(t.ps, m + 1, at);
            } else if m > at {
                lemma_starts_order(t.ps, at + 1, m);
            }
            assert(false);
        }
    }
}

/// The patch is right after a reveal has been followed.
proof fn lemma_reveal_patch(t: Task, spans: Seq<Span>, k: int, run: Progress)
    requires
        hidden_kept(t),
        reveal_task(t, spans),
        ends_clear(t),
        0 <= k < t.changes.len(),
        on_track(t, k, run),
        patch_right(t, k, run),
    ensures
        patch_right(
            t,
            k + 1,
            reveal_step(t.new, t.ps, t.rs, run, spans[k], span_start_at(spans, k + 1)),
        ),
{
    let change = t.changes[k];
    let next = reveal_step(t.new, t.ps, t.rs, run, spans[k], span_start_at(spans, k + 1));
    let done = rebuild(t.new, t.ps, t.rs, run, change);
    assert(change == in_place(spans[k]));
    lemma_rebuild_grows(t, k, run);
    lemma_reveal_grows(t, spans, k, run);
    lemma_rebuild_patch(t, k, run);
    assert(zone_kept(t.old, t.new, t.changes, k + 1));
    let end = end_of_piece(t.ps, done.at);
    if done.at < t.ps.len() && t.ps[done.at] is Same && in_start(t.ps, done.at) < end && next_from(
        span_start_at(spans, k + 1),
        end,
    ) {
        let a = shown_before(t.ps, t.old, done.at, change.old_end);
        let b = shown_before(t.ps, t.old, next.at, end);
        assert(on_boundary(t.old, in_start(t.ps, done.at + 1)));
        lemma_grow_gap(done.built, t.new, end);
        let part = t.old.subrange(change.old_end, end);
        lemma_starts_order(t.ps, 0, done.at);
        assert(b =~= a + part);
        lemma_describes_more(a, displayed(done.built, t.new), part, done.patch);
    }
}

/// The patch is right when nothing has been followed.
proof fn lemma_no_patch(t: Task)
    requires
        task_wf(t),
    ensures
        on_track(t, 0, no_progress()),
        patch_right(t, 0, no_progress()),
{
    lemma_no_progress(t);
    let a = shown_before(t.ps, t.old, 0, 0);
    let b = displayed(no_progress().built, t.new);
    assert(a =~= Seq::<u8>::empty());
    assert(b =~= Seq::<u8>::empty());
    let none = no_progress().patch;
    assert(a.subrange(0, 0) =~= b.subrange(0, 0));
    assert(zone_kept(a, b, none, 0));
}

/// The patch is right when all has been followed.
proof fn lemma_finish_patch(t: Task, run: Progress)
    requires
        task_wf(t),
        on_track(t, t.changes.len() as int, run),
        patch_right(t, t.changes.len() as int, run),
    ensures
        describes(
            displayed(t.ps, t.old),
            displayed(finish(t.new, t.ps, run), t.new),
            run.patch,
        ),
{
    let n = t.changes.len() as int;
    let count = t.ps.len() as int;
    lemma_finish_grows(t, run);
    lemma_shown_parts(t.ps, t.old, run.at, run.at, count);
    let part = shown_part(t.ps, t.old, run.at, count);
    let a = shown_before(t.ps, t.old, run.at, dealt_with(t, n, run));
    assert(a =~= shown(t.ps, t.old, run.at));
    lemma_describes_more(a, displayed(run.built, t.new), part, run.patch);
}

pub proof fn lemma_follow_edits_patch(t: Task, k: int)
    requires
        hidden_kept(t),
        ends_clear(t),
        0 <= k <= t.changes.len(),
    ensures
        patch_right(t, k, follow_edits(t.new, t.ps, t.rs, t.changes, k)),
    decreases k,
{
    if k > 0 {
        let run = follow_edits(t.new, t.ps, t.rs, t.changes, k - 1);
        lemma_edits_track(t, k - 1);
        lemma_follow_edits_patch(t, k - 1);
        lemma_edit_patch(t, k - 1, run);
    } else {
        lemma_no_patch(t);
    }
}

pub proof fn lemma_follow_reveals_patch(t: Task, spans: Seq<Span>, k: int)
    requires
        hidden_kept(t),
        reveal_task(t, spans),
        ends_clear(t),
        0 <= k <= t.changes.len(),
    ensures
        patch_right(t, k, follow_reveals(t.new, t.ps, t.rs, spans, k)),
    decreases k,
{
    if k > 0 {
        let run = follow_reveals(t.new, t.ps, t.rs, spans, k - 1);
        lemma_reveals_track(t, spans, k - 1);
        lemma_follow_reveals_patch(t, spans, k - 1);
        lemma_reveal_patch(t, spans, k - 1, run);
    } else {
        lemma_no_patch(t);
    }
}

/// When edits have been followed, the patch turns what was displayed into what is displayed.
pub proof fn lemma_edits_patch(t: Task)
    requires
        hidden_kept(t),
        ends_clear(t),
    ensures
        ({
            let run = follow_edits(t.new, t.ps, t.rs, t.changes, t.changes.len() as int);
            describes(
                displayed(t.ps, t.old),
                displayed(finish(t.new, t.ps, run), t.new),
                run.patch,
            )
        }),
{
    let n = t.changes.len() as int;
    lemma_edits_track(t, n);
    lemma_follow_edits_patch(t, n);
    lemma_finish_patch(t, follow_edits(t.new, t.ps, t.rs, t.changes, n));
}

/// When reveals have been followed, the patch turns what was displayed into what is displayed.
pub proof fn lemma_reveals_patch(t: Task, spans: Seq<Span>)
    requires
        hidden_kept(t),
        reveal_task(t, spans),
    ensures
        ({
            let run = follow_reveals(t.new, t.ps, t.rs, spans, spans.len() as int);
            describes(
                displayed(t.ps, t.old),
                displayed(finish(t.new, t.ps, run), t.new),
                run.patch,
            )
        }),
{
    let n = t.changes.len() as int;
    assert forall|k: int, q: Hidden|
        0 <= k < t.changes.len() && #[trigger] hides(t.ps, q) implies !(q.start < (
    #[trigger] t.changes[k]).old_end < q.end) by {
        assert(t.changes[k] == in_place(spans[k]));
    }
    lemma_reveals_track(t, spans, n);
    lemma_follow_reveals_patch(t, spans, n);
    lemma_finish_patch(t, follow_reveals(t.new, t.ps, t.rs, spans, n));
}

} // verus!

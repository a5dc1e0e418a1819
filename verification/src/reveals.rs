//! The edits that come with revealing and concealing marks.

use crate::display::{
    concealed, hidden_at, hides, lemma_displayed, lemma_reflects_upto, lemma_replaced_more,
    lemma_replaced_prefix, lemma_same_hidden, lemma_shown, lemma_swaps, reflects_upto, replaced,
    shown, swaps,
};
use crate::edits::{patch_push, zone_kept, Change};
use crate::fold::{fold_wf, on_boundary, FoldView};
use crate::follow::{
    hidden_kept, hides_rightly, lemma_carry_grows, lemma_rebuild_grows, lemma_rebuild_rightly,
    lemma_reveals_track, on_track, reveal_task, Task,
};
use crate::grow::{clamp, is_part, lemma_grow_gap, measures, some_hides};
use crate::laws::{
    law_read_conceals, law_reveal_disjoint, law_reveal_read, law_shows, lemma_affected_mark,
    lemma_hides_shown, lemma_task, none_touches, reveal_read, shows, task_of, with_revealed,
};
use crate::layout::fill_gap;
use crate::map::{affected_of, follows, map_wf, settled, synced_changes, MapView};
use crate::patches::{
    ends_clear, lemma_across_change, lemma_before_change, lemma_follow_reveals_patch,
    lemma_shown_before, patch_right, shown_before,
};
use crate::resolve::{
    affected, affected_upto, disjoint, has_affected, has_mark, hiddens_wf, is_candidate,
    law_affected, law_resolved, places_disjoint, places_within, resolved, Hidden, Span,
};
use crate::sync::{carry, follow_reveals, in_place, rebuild, Progress};
use crate::transform::{in_len, in_start, lemma_starts_order, out_len, pieces_wf, Piece};
use vstd::prelude::*;

verus! {

/// How many of the first `k` ranges end at `x` or before it.
pub open spec fn ending_by(rs: Seq<Hidden>, x: int, k: int) -> int
    decreases k,
{
    if k <= 0 {
        0
    } else if rs[k - 1].end <= x {
        k
    } else {
        ending_by(rs, x, k - 1)
    }
}

/// What is displayed before offset `x` of `text` when the ranges `rs` are replaced.
pub open spec fn shown_upto(text: Seq<u8>, rs: Seq<Hidden>, x: int) -> Seq<u8> {
    replaced(text, rs, ending_by(rs, x, rs.len() as int), x)
}

/// What changes in the displayed text between the ends of `span` when the ranges
/// `now` are replaced in the stead of the ranges `was`.
pub open spec fn turned(text: Seq<u8>, was: Seq<Hidden>, now: Seq<Hidden>, span: Span) -> Change {
    Change {
        old_start: shown_upto(text, was, span.start).len() as int,
        old_end: shown_upto(text, was, span.end).len() as int,
        new_start: shown_upto(text, now, span.start).len() as int,
        new_end: shown_upto(text, now, span.end).len() as int,
    }
}

/// What changes in the displayed text, span by span.
pub open spec fn all_turned(
    text: Seq<u8>,
    was: Seq<Hidden>,
    now: Seq<Hidden>,
    spans: Seq<Span>,
) -> Seq<Change> {
    spans.map_values(|span: Span| turned(text, was, now, span))
}

/// There is text between any two marks with a place.
pub open spec fn places_apart(places: Seq<Option<Span>>) -> bool {
    forall|i: int, j: int|
        0 <= i < places.len() && 0 <= j < places.len() && i != j && (#[trigger] places[i]) is Some
            && (#[trigger] places[j]) is Some ==> places[i]->0.end < places[j]->0.start
            || places[j]->0.end < places[i]->0.start
}

/// The changes that turn the new text into the old one.
pub open spec fn undone(changes: Seq<Change>) -> Seq<Change> {
    changes.map_values(
        |change: Change|
            Change {
                old_start: change.new_start,
                old_end: change.new_end,
                new_start: change.old_start,
                new_end: change.old_end,
            },
    )
}

/// The ranges that end by `x` come first.
proof fn lemma_ending_by(rs: Seq<Hidden>, x: int, k: int, len: int)
    requires
        hiddens_wf(rs, len),
        0 <= k <= rs.len(),
    ensures
        0 <= ending_by(rs, x, k) <= k,
        forall|i: int| 0 <= i < ending_by(rs, x, k) ==> (#[trigger] rs[i]).end <= x,
        forall|i: int| ending_by(rs, x, k) <= i < k ==> (#[trigger] rs[i]).end > x,
    decreases k,
{
    if k > 0 {
        lemma_ending_by(rs, x, k - 1, len);
        if rs[k - 1].end <= x {
            assert forall|i: int| 0 <= i < k implies (#[trigger] rs[i]).end <= x by {
                if i < k - 1 {
                    assert(rs[i].end <= rs[k - 1].start);
                }
            }
        }
    }
}

/// What the first pieces display, and the text behind them up to `x`, is what is
/// displayed before `x` when just the ranges that they hide end by `x`.
proof fn lemma_shown_upto(ps: Seq<Piece>, text: Seq<u8>, rs: Seq<Hidden>, at: int, x: int)
    requires
        reflects_upto(ps, text, at),
        0 <= at <= ps.len(),
        in_start(ps, at) <= x <= text.len(),
        hiddens_wf(rs, text.len() as int),
        forall|j: int|
            0 <= j < at && (#[trigger] ps[j]) is Swap ==> rs.contains(hidden_at(ps, j, 0)),
        forall|i: int|
            0 <= i < rs.len() && (#[trigger] rs[i]).end <= x ==> some_hides(ps, 0, at, 0, rs[i]),
    ensures
        shown(ps, text, at) + text.subrange(in_start(ps, at), x) == shown_upto(text, rs, x),
{
    let n = rs.len() as int;
    let len = text.len() as int;
    let m = ending_by(rs, x, n);
    let first = rs.take(m);
    let list = swaps(ps, at);
    lemma_ending_by(rs, x, n, len);
    lemma_swaps(ps, at);
    lemma_listed(ps, at);
    lemma_starts_order(ps, 0, at);
    assert forall|i: int| 0 <= i < list.len() implies first.contains(#[trigger] list[i])
        && list[i].start < list[i].end by {
        let j = choose|j: int|
            0 <= j < at && (#[trigger] ps[j]) is Swap && list[i] == hidden_at(ps, j, 0);
        assert(rs.contains(list[i]));
        let c = rs.index_of(list[i]);
        assert(rs[c].end <= x);
        assert(first[c] == list[i]);
    }
    assert forall|i: int| 0 <= i < first.len() implies list.contains(#[trigger] first[i]) by {
        assert(rs[i].end <= x);
        let j = choose|j: int|
            0 <= j < at && (#[trigger] ps[j]) is Swap && rs[i] == hidden_at(ps, j, 0);
        assert(ps[j] is Swap);
    }
    lemma_same_hidden(list, first, len);
    lemma_displayed(ps, text, at);
    lemma_replaced_more(text, list, m, in_start(ps, at), x);
    lemma_replaced_prefix(text, list, rs, m, x);
}

/// What the first pieces hide is what one of them hides.
proof fn lemma_listed(ps: Seq<Piece>, at: int)
    requires
        0 <= at <= ps.len(),
    ensures
        forall|i: int|
            0 <= i < swaps(ps, at).len() ==> some_hides(ps, 0, at, 0, #[trigger] swaps(ps, at)[i]),
    decreases at,
{
    if at > 0 {
        lemma_listed(ps, at - 1);
        let before = swaps(ps, at - 1);
        let list = swaps(ps, at);
        assert forall|i: int| 0 <= i < list.len() implies some_hides(
            ps,
            0,
            at,
            0,
            #[trigger] list[i],
        ) by {
            if i < before.len() {
                assert(before[i] == list[i]);
                let j = choose|j: int|
                    0 <= j < at - 1 && (#[trigger] ps[j]) is Swap && before[i] == hidden_at(
                        ps,
                        j,
                        0,
                    );
                assert(ps[j] is Swap && list[i] == hidden_at(ps, j, 0));
            } else {
                assert(ps[at - 1] is Swap && list[i] == hidden_at(ps, at - 1, 0));
            }
        }
    }
}

/// Pieces that hide just what is to be hidden before their end display what comes before it.
proof fn lemma_built_upto(t: Task, built: Seq<Piece>)
    requires
        hiddens_wf(t.rs, t.new.len() as int),
        measures(built, t.new),
        forall|q: Hidden| #[trigger] hides(built, q) ==> t.rs.contains(q),
        forall|i: int|
            0 <= i < t.rs.len() && (#[trigger] t.rs[i]).end <= in_len(built) ==> hides(
                built,
                t.rs[i],
            ),
    ensures
        out_len(built) == shown_upto(t.new, t.rs, in_len(built)).len(),
{
    let n = built.len() as int;
    assert forall|j: int| 0 <= j < n && (#[trigger] built[j]) is Swap implies t.rs.contains(
        hidden_at(built, j, 0),
    ) by {
        assert(hides(built, hidden_at(built, j, 0)));
    }
    lemma_shown_upto(built, t.new, t.rs, n, in_len(built));
    lemma_shown(built, t.new, n);
}

/// What the old pieces display before an offset that is not replaced.
#[verifier::rlimit(30)]
proof fn lemma_old_upto(t: Task, was: Seq<Hidden>, at: int, x: int)
    requires
        hidden_kept(t),
        hiddens_wf(was, t.old.len() as int),
        forall|q: Hidden| #[trigger] hides(t.ps, q) <==> was.contains(q),
        0 <= at <= t.ps.len(),
        in_start(t.ps, at) <= x <= t.old.len(),
        in_start(t.ps, at) < x ==> at < t.ps.len() && t.ps[at] is Same && x <= in_start(
            t.ps,
            at + 1,
        ),
    ensures
        shown_before(t.ps, t.old, at, x) == shown_upto(t.old, was, x),
{
    lemma_reflects_upto(t.ps, t.old, at, t.ps.len() as int);
    assert forall|j: int| 0 <= j < at && (#[trigger] t.ps[j]) is Swap implies was.contains(
        hidden_at(t.ps, j, 0),
    ) by {
        assert(hides(t.ps, hidden_at(t.ps, j, 0)));
    }
    assert forall|i: int| 0 <= i < was.len() && (#[trigger] was[i]).end <= x implies some_hides(
        t.ps,
        0,
        at,
        0,
        was[i],
    ) by {
        assert(was.contains(was[i]));
        assert(hides(t.ps, was[i]));
        let j = choose|j: int|
            0 <= j < t.ps.len() && (#[trigger] t.ps[j]) is Swap && was[i] == hidden_at(t.ps, j, 0);
        if at <= j {
            lemma_starts_order(t.ps, at, j);
            if in_start(t.ps, at) < x {
                lemma_starts_order(t.ps, at + 1, j);
            }
        }
        assert(t.ps[j] is Swap);
    }
    lemma_shown_upto(t.ps, t.old, was, at, x);
}

/// What changes in the displayed text between the ends of a change of the text below when
/// the ranges `was` were replaced in the old text and `now` are in the new one.
pub open spec fn changed(
    old: Seq<u8>,
    new: Seq<u8>,
    was: Seq<Hidden>,
    now: Seq<Hidden>,
    change: Change,
) -> Change {
    Change {
        old_start: shown_upto(old, was, change.old_start).len() as int,
        old_end: shown_upto(old, was, change.old_end).len() as int,
        new_start: shown_upto(new, now, change.new_start).len() as int,
        new_end: shown_upto(new, now, change.new_end).len() as int,
    }
}

/// A change adds what changes there in the displayed text to the patch.
pub proof fn lemma_changed(t: Task, was: Seq<Hidden>, k: int, run: Progress)
    requires
        hidden_kept(t),
        ends_clear(t),
        hiddens_wf(was, t.old.len() as int),
        forall|q: Hidden| #[trigger] hides(t.ps, q) <==> was.contains(q),
        0 <= k < t.changes.len(),
        on_track(t, k, run),
        hides_rightly(t, run.built),
        patch_right(t, k, run),
    ensures
        rebuild(t.new, t.ps, t.rs, run, t.changes[k]).patch == patch_push(
            run.patch,
            changed(t.old, t.new, was, t.rs, t.changes[k]),
        ),
{
    let change = t.changes[k];
    let carried = carry(t.ps, run, change.old_start);
    let filled = fill_gap(t.new, carried.built, change.new_start);
    let done = rebuild(t.new, t.ps, t.rs, run, change);
    assert(zone_kept(t.old, t.new, t.changes, k));
    assert(zone_kept(t.old, t.new, t.changes, k + 1));
    assert(on_boundary(t.new, change.new_start));
    lemma_before_change(t, k, run);
    lemma_across_change(t, k, carried.at);
    lemma_carry_grows(t, k, run);
    lemma_grow_gap(carried.built, t.new, change.new_start);
    lemma_rebuild_grows(t, k, run);
    lemma_rebuild_rightly(t, k, run);
    lemma_old_upto(t, was, carried.at, change.old_start);
    lemma_old_upto(t, was, done.at, change.old_end);
    lemma_shown_before(t, carried.at, change.old_start);
    lemma_shown_before(t, done.at, change.old_end);
    assert forall|q: Hidden| #[trigger] hides(filled, q) implies t.rs.contains(q) by {
        assert(hides(carried.built, q));
        assert(hides(done.built, q));
    }
    assert forall|i: int| 0 <= i < t.rs.len() && (#[trigger] t.rs[i]).end <= in_len(
        filled,
    ) implies hides(filled, t.rs[i]) by {
        let q = t.rs[i];
        assert(q.start < in_len(done.built));
        assert(hides(done.built, q));
        if is_part(t.rs, change.new_start, change.new_end, 0, q) {
            let j = choose|j: int|
                0 <= j < t.rs.len() && (#[trigger] t.rs[j]).end > change.new_start && t.rs[j].start
                    < change.new_end && q == clamp(t.rs[j], change.new_start, change.new_end);
            assert(q.start >= change.new_start);
        }
        assert(hides(carried.built, q));
    }
    lemma_built_upto(t, filled);
    assert forall|i: int| 0 <= i < t.rs.len() && (#[trigger] t.rs[i]).end <= in_len(
        done.built,
    ) implies hides(done.built, t.rs[i]) by {
        assert(t.rs[i].start < in_len(done.built));
    }
    lemma_built_upto(t, done.built);
}

/// A range that was revealed or concealed adds what changes there to the patch.
proof fn lemma_turned(t: Task, spans: Seq<Span>, was: Seq<Hidden>, k: int, run: Progress)
    requires
        hidden_kept(t),
        reveal_task(t, spans),
        ends_clear(t),
        hiddens_wf(was, t.old.len() as int),
        forall|q: Hidden| #[trigger] hides(t.ps, q) <==> was.contains(q),
        0 <= k < spans.len(),
        on_track(t, k, run),
        hides_rightly(t, run.built),
        patch_right(t, k, run),
    ensures
        rebuild(t.new, t.ps, t.rs, run, in_place(spans[k])).patch == patch_push(
            run.patch,
            turned(t.old, was, t.rs, spans[k]),
        ),
{
    assert(t.changes[k] == in_place(spans[k]));
    lemma_changed(t, was, k, run);
    assert(changed(t.old, t.new, was, t.rs, in_place(spans[k])) == turned(
        t.old,
        was,
        t.rs,
        spans[k],
    ));
}

/// Something is displayed between two offsets if the byte behind the first is not hidden.
proof fn lemma_longer(text: Seq<u8>, rs: Seq<Hidden>, m: int, j: int, x: int, y: int)
    requires
        hiddens_wf(rs, text.len() as int),
        0 <= m <= j <= rs.len(),
        0 <= x < y <= text.len(),
        m > 0 ==> rs[m - 1].end <= x,
        m < rs.len() ==> x < rs[m].start,
        j > 0 ==> rs[j - 1].end <= y,
    ensures
        replaced(text, rs, m, x).len() < replaced(text, rs, j, y).len(),
    decreases j,
{
    if m == j {
        lemma_replaced_more(text, rs, m, x, y);
    } else {
        if m < j - 1 {
            assert(rs[m].end <= rs[j - 1].start);
            assert(rs[j - 2].end <= rs[j - 1].start);
        } else if m > 0 {
            assert(rs[m - 1].end <= rs[j - 1].start);
        }
        lemma_longer(text, rs, m, j - 1, x, rs[j - 1].start);
    }
}

/// The byte behind `x` is not hidden.
spec fn bare_at(rs: Seq<Hidden>, x: int) -> bool {
    forall|i: int| 0 <= i < rs.len() ==> !((#[trigger] rs[i]).start <= x < rs[i].end)
}

proof fn lemma_more_shown(text: Seq<u8>, rs: Seq<Hidden>, x: int, y: int)
    requires
        hiddens_wf(rs, text.len() as int),
        0 <= x < y <= text.len(),
        bare_at(rs, x),
    ensures
        shown_upto(text, rs, x).len() < shown_upto(text, rs, y).len(),
{
    let n = rs.len() as int;
    let len = text.len() as int;
    let m = ending_by(rs, x, n);
    let j = ending_by(rs, y, n);
    lemma_ending_by(rs, x, n, len);
    lemma_ending_by(rs, y, n, len);
    if j < m {
        assert(rs[j].end <= x);
    }
    lemma_longer(text, rs, m, j, x, y);
}

/// Ranges that were revealed or concealed, with something displayed between any two
/// of them and something displayed there before or after, each have an edit of their own.
proof fn lemma_turned_patch(t: Task, spans: Seq<Span>, was: Seq<Hidden>, k: int)
    requires
        hidden_kept(t),
        reveal_task(t, spans),
        ends_clear(t),
        hiddens_wf(was, t.old.len() as int),
        forall|q: Hidden| #[trigger] hides(t.ps, q) <==> was.contains(q),
        forall|i: int|
            0 <= i < spans.len() ==> 0 <= (#[trigger] spans[i]).start < spans[i].end
                <= t.old.len(),
        forall|i: int|
            0 <= i < spans.len() ==> bare_at(was, (#[trigger] spans[i]).start) || bare_at(
                t.rs,
                spans[i].start,
            ),
        forall|i: int| 0 <= i < spans.len() ==> bare_at(was, (#[trigger] spans[i]).end),
        forall|i: int, j: int|
            0 <= i < j < spans.len() ==> (#[trigger] spans[i]).end < (#[trigger] spans[j]).start,
        0 <= k <= spans.len(),
    ensures
        follow_reveals(t.new, t.ps, t.rs, spans, k).patch == all_turned(
            t.old,
            was,
            t.rs,
            spans.take(k),
        ),
    decreases k,
{
    if k > 0 {
        let run = follow_reveals(t.new, t.ps, t.rs, spans, k - 1);
        let span = spans[k - 1];
        let change = turned(t.old, was, t.rs, span);
        lemma_turned_patch(t, spans, was, k - 1);
        lemma_reveals_track(t, spans, k - 1);
        lemma_follow_reveals_patch(t, spans, k - 1);
        lemma_turned(t, spans, was, k - 1, run);
        if bare_at(was, span.start) {
            lemma_more_shown(t.old, was, span.start, span.end);
        } else {
            lemma_more_shown(t.new, t.rs, span.start, span.end);
        }
        if k > 1 {
            let last = spans[k - 2];
            lemma_more_shown(t.old, was, last.end, span.start);
            assert(run.patch.last() == turned(t.old, was, t.rs, last));
        }
        assert(patch_push(run.patch, change) == run.patch.push(change));
        assert(run.patch.push(change) =~= all_turned(t.old, was, t.rs, spans.take(k)));
    } else {
        assert(follow_reveals(t.new, t.ps, t.rs, spans, k).patch =~= all_turned(
            t.old,
            was,
            t.rs,
            spans.take(k),
        ));
    }
}

/// Where there is text between any two marks, the byte behind a place is not hidden, and
/// neither is the byte at its start if its mark is revealed.
proof fn lemma_bare(map: MapView, revealed: Set<usize>, i: int)
    requires
        map_wf(map),
        places_apart(map.places),
        0 <= i < map.places.len(),
        map.places[i] is Some,
    ensures
        bare_at(resolved(map.marks, map.places, revealed), map.places[i]->0.end),
        revealed.contains(i as usize) ==> bare_at(
            resolved(map.marks, map.places, revealed),
            map.places[i]->0.start,
        ),
{
    let rs = resolved(map.marks, map.places, revealed);
    let span = map.places[i]->0;
    law_resolved(map.marks, map.places, revealed, map.snapshot.fold.text.len() as int);
    assert(map.places[i] matches Some(span) ==> span.start < span.end);
    assert forall|r: int| 0 <= r < rs.len() implies !((#[trigger] rs[r]).start <= span.end
        < rs[r].end) && (revealed.contains(i as usize) ==> !(rs[r].start <= span.start
        < rs[r].end)) by {
        assert(has_mark(map.marks, map.places, revealed, map.marks.len() as int, rs[r]));
        let j = choose|j: int|
            0 <= j < map.marks.len() && is_candidate(map.marks, map.places, revealed, j, rs[r]);
        assert(map.places[j] is Some);
    }
}

/// Marks with text between any two of them have no byte in common.
proof fn lemma_apart_disjoint(places: Seq<Option<Span>>)
    requires
        places_apart(places),
    ensures
        places_disjoint(places),
{
    assert forall|i: int, j: int|
        0 <= i < places.len() && 0 <= j < places.len() && i != j && (
        #[trigger] places[i]) is Some && (#[trigger] places[j]) is Some implies disjoint(
        places[i]->0,
        places[j]->0,
    ) by {}
}

/// Where there is text between any two marks, no hidden range touches an affected one.
proof fn lemma_apart_touches(map: MapView)
    requires
        map_wf(map),
        places_apart(map.places),
        shows(map, map.was_revealed),
    ensures
        none_touches(map),
{
    let ps = map.snapshot.pieces;
    let was = resolved(map.marks, map.places, map.was_revealed);
    let spans = affected_of(map);
    law_resolved(map.marks, map.places, map.was_revealed, map.snapshot.fold.text.len() as int);
    lemma_listed(ps, ps.len() as int);
    lemma_swaps(ps, ps.len() as int);
    assert forall|k: int, q: Hidden|
        0 <= k < spans.len() && #[trigger] hides(ps, q) implies q.end != (
    #[trigger] spans[k]).start by {
        let i = lemma_affected_mark(map, k);
        let m = choose|m: int|
            0 <= m < ps.len() && (#[trigger] ps[m]) is Swap && q == hidden_at(ps, m, 0);
        assert(was.contains(hidden_at(ps, m, 0)));
        let r = was.index_of(q);
        assert(has_mark(map.marks, map.places, map.was_revealed, map.marks.len() as int, was[r]));
        let j = choose|j: int|
            0 <= j < map.marks.len() && is_candidate(
                map.marks,
                map.places,
                map.was_revealed,
                j,
                was[r],
            );
        assert(map.places[i] is Some && map.places[j] is Some);
        assert(map.places[i] matches Some(span) ==> span.start < span.end);
    }
}

/// Where there is text between any two marks, affected ranges are places of the marks that
/// were revealed or concealed, each once, and there is text between any two of them.
pub proof fn law_affected_apart(
    places: Seq<Option<Span>>,
    was: Set<usize>,
    is: Set<usize>,
    len: int,
)
    requires
        places_within(places, len),
        places_apart(places),
    ensures
        forall|i: int, j: int|
            0 <= i < j < affected(places, was, is).len() ==> (#[trigger] affected(
                places,
                was,
                is,
            )[i]).end < (#[trigger] affected(places, was, is)[j]).start,
        forall|c: int|
            0 <= c < affected(places, was, is).len() ==> has_affected(
                places,
                was,
                is,
                places.len() as int,
                #[trigger] affected(places, was, is)[c],
            ),
        forall|i: int|
            0 <= i < places.len() && (#[trigger] places[i]) is Some && was.contains(i as usize)
                != is.contains(i as usize) ==> affected(places, was, is).contains(places[i]->0),
{
    let spans = affected(places, was, is);
    lemma_apart_disjoint(places);
    law_affected(places, was, is);
    assert forall|i: int, j: int| 0 <= i < j < spans.len() implies (#[trigger] spans[i]).end < (
    #[trigger] spans[j]).start by {
        assert(has_affected(places, was, is, places.len() as int, spans[i]));
        assert(has_affected(places, was, is, places.len() as int, spans[j]));
        let a = choose|a: int|
            0 <= a < places.len() && #[trigger] places[a] == Some(spans[i]) && was.contains(
                a as usize,
            ) != is.contains(a as usize);
        let b = choose|b: int|
            0 <= b < places.len() && #[trigger] places[b] == Some(spans[j]) && was.contains(
                b as usize,
            ) != is.contains(b as usize);
        assert(disjoint(spans[i], spans[j]));
        assert(spans[i].start <= spans[j].start);
        assert(places[a] is Some && places[b] is Some);
        assert(places[a] matches Some(span) ==> span.start < span.end);
        assert(places[b] matches Some(span) ==> span.start < span.end);
        assert(a != b);
    }
}

/// Where there is text between any two marks, revealing other marks displays the text
/// with the others replaced, and has one edit for each mark that was revealed or
/// concealed, in the order of the text: what the mark had displayed there before and
/// what is displayed there now.
pub proof fn law_reveal_edits(map: MapView, revealed: Set<usize>, fold: FoldView)
    requires
        map_wf(map),
        fold_wf(fold),
        fold.text == map.snapshot.fold.text,
        shows(map, map.revealed),
        places_apart(map.places),
    ensures
        ({
            let before = with_revealed(map, revealed);
            let was = resolved(map.marks, map.places, map.revealed);
            let now = resolved(map.marks, map.places, revealed);
            &&& follows(before, fold, Seq::empty())
            &&& reveal_read(map, revealed, fold).snapshot.text() == concealed(fold.text, now)
            &&& synced_changes(before, fold, Seq::empty()) == all_turned(
                fold.text,
                was,
                now,
                affected(map.places, map.revealed, revealed),
            )
        }),
{
    let before = with_revealed(map, revealed);
    let spans = affected_of(before);
    let was = resolved(map.marks, map.places, map.revealed);
    let now = resolved(map.marks, map.places, revealed);
    let none = Seq::<Change>::empty();
    let t = task_of(before, fold, none);
    let len = fold.text.len() as int;
    lemma_apart_disjoint(map.places);
    lemma_apart_touches(before);
    law_reveal_disjoint(before, fold);
    law_read_conceals(before, fold, none);
    lemma_task(before, fold, none);
    law_resolved(map.marks, map.places, map.revealed, len);
    law_resolved(map.marks, map.places, revealed, len);
    law_affected_apart(map.places, map.revealed, revealed, len);
    assert forall|q: Hidden| #[trigger] hides(t.ps, q) <==> was.contains(q) by {
        lemma_hides_shown(map, map.revealed, q);
    }
    assert forall|c: int| 0 <= c < spans.len() implies 0 <= (#[trigger] spans[c]).start
        < spans[c].end <= t.old.len() && bare_at(was, spans[c].end) && (bare_at(
        was,
        spans[c].start,
    ) || bare_at(t.rs, spans[c].start)) by {
        let i = lemma_affected_mark(before, c);
        assert(map.places[i] matches Some(span) ==> 0 <= span.start < span.end <= len);
        lemma_bare(map, map.revealed, i);
        lemma_bare(map, revealed, i);
    }
    if spans.len() > 0 {
        lemma_turned_patch(t, spans, was, spans.len() as int);
        assert(spans.take(spans.len() as int) =~= spans);
    } else {
        assert(settled(before, none));
        assert(all_turned(fold.text, was, now, spans) =~= none);
    }
}

/// The same marks are affected on the way back.
proof fn lemma_affected_back(places: Seq<Option<Span>>, was: Set<usize>, is: Set<usize>, k: int)
    ensures
        affected_upto(places, was, is, k) == affected_upto(places, is, was, k),
    decreases k,
{
    if k > 0 {
        lemma_affected_back(places, was, is, k - 1);
    }
}

/// Where there is text between any two marks, revealing other marks and then the same as
/// before displays the same as before, with the edits of the way there undone, and
/// each way makes a new version.
pub proof fn law_reveal_undone(map: MapView, revealed: Set<usize>, fold: FoldView)
    requires
        map_wf(map),
        fold_wf(fold),
        fold.text == map.snapshot.fold.text,
        shows(map, map.revealed),
        places_apart(map.places),
        map.revealed != revealed,
        pieces_wf(reveal_read(map, revealed, fold).snapshot.pieces),
    ensures
        ({
            let none = Seq::<Change>::empty();
            let there = reveal_read(map, revealed, fold);
            let back = reveal_read(there, map.revealed, fold);
            &&& back.snapshot.text() == map.snapshot.text()
            &&& back.snapshot.version == map.snapshot.version + 2
            &&& synced_changes(with_revealed(there, map.revealed), fold, none) == undone(
                synced_changes(with_revealed(map, revealed), fold, none),
            )
        }),
{
    let none = Seq::<Change>::empty();
    let there = reveal_read(map, revealed, fold);
    let spans = affected(map.places, map.revealed, revealed);
    let was = resolved(map.marks, map.places, map.revealed);
    let now = resolved(map.marks, map.places, revealed);
    lemma_apart_disjoint(map.places);
    lemma_apart_touches(with_revealed(map, revealed));
    law_reveal_read(map, revealed, fold);
    law_reveal_edits(map, revealed, fold);
    law_reveal_edits(there, map.revealed, fold);
    law_shows(map, map.revealed);
    lemma_affected_back(map.places, map.revealed, revealed, map.places.len() as int);
    assert(all_turned(fold.text, now, was, spans) =~= undone(
        all_turned(fold.text, was, now, spans),
    ));
}

/// What is displayed before an offset comes first in what is displayed before a later one.
proof fn lemma_shown_prefix(text: Seq<u8>, rs: Seq<Hidden>, m: int, j: int, x: int, y: int)
    requires
        hiddens_wf(rs, text.len() as int),
        0 <= m <= j <= rs.len(),
        0 <= x <= y <= text.len(),
        m > 0 ==> rs[m - 1].end <= x,
        m < j ==> x <= rs[m].start,
        j > 0 ==> rs[j - 1].end <= y,
    ensures
        replaced(text, rs, m, x).is_prefix_of(replaced(text, rs, j, y)),
    decreases j,
{
    if m == j {
        lemma_replaced_more(text, rs, m, x, y);
    } else {
        if m < j - 1 {
            assert(rs[m].end <= rs[j - 1].start);
            assert(rs[j - 2].end <= rs[j - 1].start);
        } else if m > 0 {
            assert(rs[m - 1].end <= rs[j - 1].start);
        }
        let r = rs[j - 1];
        let short = replaced(text, rs, m, x);
        let long = replaced(text, rs, j - 1, r.start);
        lemma_shown_prefix(text, rs, m, j - 1, x, r.start);
        assert(replaced(text, rs, j, y) =~= long + (r.text + text.subrange(r.end, y)));
        assert(replaced(text, rs, j, y).subrange(0, short.len() as int) =~= long.subrange(
            0,
            short.len() as int,
        ));
    }
}

/// The displayed text begins with what is displayed before an offset that lies within no
/// hidden range.
pub proof fn law_shown_upto(text: Seq<u8>, rs: Seq<Hidden>, x: int)
    requires
        hiddens_wf(rs, text.len() as int),
        0 <= x <= text.len(),
        forall|i: int| 0 <= i < rs.len() ==> !((#[trigger] rs[i]).start < x < rs[i].end),
    ensures
        shown_upto(text, rs, x).is_prefix_of(concealed(text, rs)),
{
    let n = rs.len() as int;
    let len = text.len() as int;
    lemma_ending_by(rs, x, n, len);
    lemma_shown_prefix(text, rs, ending_by(rs, x, n), n, x, len);
}

/// Between the ends of a hidden range the displayed text has its replacement.
pub proof fn law_shown_hidden(text: Seq<u8>, rs: Seq<Hidden>, i: int)
    requires
        hiddens_wf(rs, text.len() as int),
        0 <= i < rs.len(),
    ensures
        shown_upto(text, rs, rs[i].end) == shown_upto(text, rs, rs[i].start) + rs[i].text,
{
    let n = rs.len() as int;
    let len = text.len() as int;
    let r = rs[i];
    lemma_ending_by(rs, r.start, n, len);
    lemma_ending_by(rs, r.end, n, len);
    let a = ending_by(rs, r.start, n);
    let b = ending_by(rs, r.end, n);
    if a < i {
        assert(rs[a].end <= rs[i].start);
    } else if i < a {
        assert(rs[i].end <= r.start);
    }
    if b <= i {
        assert(rs[i].end > r.end);
    } else if i + 1 < b {
        assert(rs[i + 1].end <= r.end);
        assert(rs[i].end <= rs[i + 1].start);
    }
    assert(text.subrange(r.end, r.end) =~= Seq::<u8>::empty());
    assert(shown_upto(text, rs, r.end) =~= shown_upto(text, rs, r.start) + r.text);
}

/// Between two offsets with nothing hidden between them the displayed text has the text itself.
pub proof fn law_shown_bare(text: Seq<u8>, rs: Seq<Hidden>, start: int, end: int)
    requires
        hiddens_wf(rs, text.len() as int),
        0 <= start <= end <= text.len(),
        forall|i: int|
            0 <= i < rs.len() ==> (#[trigger] rs[i]).end <= start || end <= rs[i].start,
    ensures
        shown_upto(text, rs, end) == shown_upto(text, rs, start) + text.subrange(start, end),
{
    let n = rs.len() as int;
    let len = text.len() as int;
    lemma_ending_by(rs, start, n, len);
    lemma_ending_by(rs, end, n, len);
    let a = ending_by(rs, start, n);
    let b = ending_by(rs, end, n);
    if a < b {
        assert(rs[a].end <= end);
        assert(rs[a].end > start);
    } else if b < a {
        assert(rs[b].end <= start);
        assert(rs[b].end > end);
    }
    lemma_replaced_more(text, rs, a, start, end);
}

/// Nothing is displayed before the start of a text, and all that is displayed is displayed
/// before its end.
pub proof fn law_shown_ends(text: Seq<u8>, rs: Seq<Hidden>)
    requires
        hiddens_wf(rs, text.len() as int),
    ensures
        shown_upto(text, rs, 0).len() == 0,
        shown_upto(text, rs, text.len() as int) == concealed(text, rs),
{
    let n = rs.len() as int;
    let len = text.len() as int;
    lemma_ending_by(rs, 0, n, len);
    lemma_ending_by(rs, len, n, len);
    if ending_by(rs, 0, n) > 0 {
        assert(rs[0].end <= 0);
    }
    if ending_by(rs, len, n) < n {
        assert(rs[ending_by(rs, len, n)].end <= len);
    }
}

} // verus!

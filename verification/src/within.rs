//! Hidden ranges lie within the places of marks.

use crate::edits::{zone_end, zone_shift, zone_start, Change};
use crate::display::{hidden_at, hides};
use crate::fold::{fold_wf, FoldView};
use crate::follow::{
    lemma_carry_grows, lemma_edit_grows, lemma_edits_track, lemma_finish_grows, lemma_no_progress,
    lemma_rebuild_grows, lemma_reveal_grows, lemma_reveals_track, moved, on_track, reveal_task,
    task_wf, Task,
};
use crate::grow::{clamp, is_part, lemma_cover, some_hides};
use crate::laws::{lemma_hidden_between, lemma_task, task_of};
use crate::map::{
    affected_of, follows, map_wf, reveals_apart, settled, synced, unchanged, with_marks, MapView,
};
use crate::resolve::{
    anchored, disjoint, has_affected, has_mark, is_candidate, law_affected, law_resolved,
    lemma_places, places, places_disjoint, places_within, resolved, Hidden, Mark, Span,
};
use crate::sync::{carry, finish, follow_edits, follow_reveals, in_place, rebuild, Progress};
use crate::transform::{in_len, in_start, lemma_starts_order, Piece};
use vstd::prelude::*;
use vstd::utf8::is_char_boundary_start_end_of_seq;

verus! {

/// `q` lies within a place.
pub open spec fn within(places: Seq<Option<Span>>, q: Hidden) -> bool {
    exists|i: int|
        0 <= i < places.len() && (#[trigger] places[i]) is Some && places[i]->0.start <= q.start
            && q.end <= places[i]->0.end
}

/// All that pieces hide lies within places.
pub open spec fn all_within(ps: Seq<Piece>, places: Seq<Option<Span>>) -> bool {
    forall|q: Hidden| #[trigger] hides(ps, q) ==> within(places, q)
}

/// All that the layer hides lies within the places of its marks.
pub open spec fn within_places(map: MapView) -> bool {
    all_within(map.snapshot.pieces, map.places)
}

/// Ranges that are to be hidden lie within places, and so do those that old pieces
/// hide between the changes.
spec fn task_within(t: Task, places: Seq<Option<Span>>) -> bool {
    &&& forall|i: int| 0 <= i < t.rs.len() ==> within(places, #[trigger] t.rs[i])
    &&& forall|k: int, q: Hidden|
        0 <= k <= t.changes.len() && #[trigger] hides(t.ps, q) && zone_start(t.changes, k)
            <= q.start && q.end <= zone_end(t.changes, k, t.old.len() as int) ==> within(
            places,
            #[trigger] moved(q, zone_shift(t.changes, k)),
        )
}

/// A part of a range that lies within a place lies within it.
proof fn lemma_part_within(
    rs: Seq<Hidden>,
    places: Seq<Option<Span>>,
    start: int,
    end: int,
    q: Hidden,
)
    requires
        forall|i: int| 0 <= i < rs.len() ==> within(places, #[trigger] rs[i]),
        is_part(rs, start, end, 0, q),
    ensures
        within(places, q),
{
    let i = choose|i: int|
        0 <= i < rs.len() && (#[trigger] rs[i]).end > start && rs[i].start < end && q == clamp(
            rs[i],
            start,
            end,
        );
    assert(within(places, rs[i]));
    let m = choose|m: int|
        0 <= m < places.len() && (#[trigger] places[m]) is Some && places[m]->0.start
            <= rs[i].start && rs[i].end <= places[m]->0.end;
    assert(places[m] is Some);
}

/// Old pieces between two changes hide ranges within places.
proof fn lemma_pieces_within(
    t: Task,
    places: Seq<Option<Span>>,
    k: int,
    i: int,
    j: int,
    q: Hidden,
)
    requires
        task_wf(t),
        task_within(t, places),
        0 <= k <= t.changes.len(),
        0 <= i <= j <= t.ps.len(),
        i < j ==> zone_start(t.changes, k) <= in_start(t.ps, i),
        in_start(t.ps, j) <= zone_end(t.changes, k, t.old.len() as int),
        some_hides(t.ps, i, j, zone_shift(t.changes, k), q),
    ensures
        within(places, q),
{
    let shift = zone_shift(t.changes, k);
    let m = choose|m: int|
        i <= m < j && (#[trigger] t.ps[m]) is Swap && q == hidden_at(t.ps, m, shift);
    lemma_starts_order(t.ps, i, m);
    lemma_starts_order(t.ps, m + 1, j);
    let q0 = hidden_at(t.ps, m, 0);
    assert(hides(t.ps, q0));
    assert(moved(q0, shift) == q);
}

proof fn lemma_rebuild_within(t: Task, places: Seq<Option<Span>>, k: int, run: Progress)
    requires
        task_wf(t),
        task_within(t, places),
        0 <= k < t.changes.len(),
        on_track(t, k, run),
        all_within(run.built, places),
    ensures
        all_within(rebuild(t.new, t.ps, t.rs, run, t.changes[k]).built, places),
{
    let change = t.changes[k];
    let shift = zone_shift(t.changes, k);
    let carried = carry(t.ps, run, change.old_start);
    let done = rebuild(t.new, t.ps, t.rs, run, change);
    lemma_carry_grows(t, k, run);
    lemma_rebuild_grows(t, k, run);
    assert forall|q: Hidden| #[trigger] hides(done.built, q) implies within(places, q) by {
        if some_hides(t.ps, run.at, carried.at, shift, q) {
            lemma_pieces_within(t, places, k, run.at, carried.at, q);
        } else if is_part(t.rs, change.new_start, change.new_end, 0, q) {
            lemma_part_within(t.rs, places, change.new_start, change.new_end, q);
        }
    }
}

proof fn lemma_edits_within(t: Task, places: Seq<Option<Span>>, k: int)
    requires
        task_wf(t),
        task_within(t, places),
        0 <= k <= t.changes.len(),
    ensures
        all_within(follow_edits(t.new, t.ps, t.rs, t.changes, k).built, places),
    decreases k,
{
    if k > 0 {
        let run = follow_edits(t.new, t.ps, t.rs, t.changes, k - 1);
        let next = follow_edits(t.new, t.ps, t.rs, t.changes, k);
        let change = t.changes[k - 1];
        let shift = zone_shift(t.changes, k - 1);
        let carried = carry(t.ps, run, change.old_start);
        let done = rebuild(t.new, t.ps, t.rs, run, change);
        lemma_edits_within(t, places, k - 1);
        lemma_edits_track(t, k - 1);
        lemma_rebuild_within(t, places, k - 1, run);
        lemma_rebuild_grows(t, k - 1, run);
        lemma_edit_grows(t, k - 1, run);
        assert forall|q: Hidden| #[trigger] hides(next.built, q) implies within(places, q) by {
            let stop = in_len(next.built);
            if stop > change.new_end && is_part(t.rs, change.new_end, stop, 0, q) {
                lemma_part_within(t.rs, places, change.new_end, stop, q);
            } else {
                assert(hides(done.built, q));
            }
        }
    } else {
        lemma_no_progress(t);
    }
}

proof fn lemma_reveals_within(t: Task, spans: Seq<Span>, places: Seq<Option<Span>>, k: int)
    requires
        reveal_task(t, spans),
        task_within(t, places),
        0 <= k <= t.changes.len(),
    ensures
        all_within(follow_reveals(t.new, t.ps, t.rs, spans, k).built, places),
    decreases k,
{
    if k > 0 {
        let run = follow_reveals(t.new, t.ps, t.rs, spans, k - 1);
        let next = follow_reveals(t.new, t.ps, t.rs, spans, k);
        let done = rebuild(t.new, t.ps, t.rs, run, t.changes[k - 1]);
        assert(t.changes[k - 1] == in_place(spans[k - 1]));
        lemma_reveals_within(t, spans, places, k - 1);
        lemma_reveals_track(t, spans, k - 1);
        lemma_rebuild_within(t, places, k - 1, run);
        lemma_reveal_grows(t, spans, k - 1, run);
        assert forall|q: Hidden| #[trigger] hides(next.built, q) implies within(places, q) by {
            assert(hides(done.built, q));
        }
    } else {
        lemma_no_progress(t);
    }
}

proof fn lemma_finish_within(t: Task, places: Seq<Option<Span>>, run: Progress)
    requires
        task_wf(t),
        task_within(t, places),
        on_track(t, t.changes.len() as int, run),
        all_within(run.built, places),
    ensures
        all_within(finish(t.new, t.ps, run), places),
{
    let n = t.changes.len() as int;
    let count = t.ps.len() as int;
    let qs = finish(t.new, t.ps, run);
    lemma_finish_grows(t, run);
    assert forall|q: Hidden| #[trigger] hides(qs, q) implies within(places, q) by {
        if some_hides(t.ps, run.at, count, zone_shift(t.changes, n), q) {
            lemma_pieces_within(t, places, n, run.at, count, q);
        }
    }
}

/// Resolved ranges lie within places.
proof fn lemma_resolved_within(
    marks: Seq<Mark>,
    places: Seq<Option<Span>>,
    revealed: Set<usize>,
    len: int,
)
    requires
        marks.len() == places.len(),
        places_within(places, len),
    ensures
        forall|i: int|
            0 <= i < resolved(marks, places, revealed).len() ==> within(
                places,
                #[trigger] resolved(marks, places, revealed)[i],
            ),
{
    let rs = resolved(marks, places, revealed);
    law_resolved(marks, places, revealed, len);
    assert forall|i: int| 0 <= i < rs.len() implies within(places, #[trigger] rs[i]) by {
        assert(has_mark(marks, places, revealed, marks.len() as int, rs[i]));
        let m = choose|m: int|
            0 <= m < marks.len() && is_candidate(marks, places, revealed, m, rs[i]);
        assert(places[m] is Some);
    }
}

/// When marks are set, all that is hidden lies within their places.
pub proof fn law_set_within(map: MapView, marks: Seq<Mark>)
    requires
        fold_wf(map.snapshot.fold),
        anchored(marks, map.snapshot.fold),
    ensures
        within_places(with_marks(map, marks)),
{
    let after = with_marks(map, marks);
    let text = map.snapshot.fold.text;
    let rs = after.hidden();
    is_char_boundary_start_end_of_seq(text);
    lemma_places(map.snapshot.fold, marks);
    lemma_hidden_between(marks, after.places, after.revealed, text);
    lemma_cover(text, rs);
    lemma_resolved_within(marks, after.places, after.revealed, text.len() as int);
    assert forall|q: Hidden| #[trigger] hides(after.snapshot.pieces, q) implies within(
        after.places,
        q,
    ) by {
        let at = rs.index_of(q);
        assert(rs.contains(q));
        assert(within(after.places, rs[at]));
    }
}

/// Where no two marks have a byte in common and all that is hidden lies within their
/// places, what was revealed or concealed can be followed.
pub proof fn law_reveal_measures(map: MapView)
    requires
        map_wf(map),
        places_disjoint(map.places),
        within_places(map),
    ensures
        reveals_apart(map),
{
    let spans = affected_of(map);
    let len = map.snapshot.fold.text.len() as int;
    law_affected(map.places, map.was_revealed, map.revealed);
    assert forall|k: int, q: Hidden|
        0 <= k < spans.len() && #[trigger] hides(map.snapshot.pieces, q) implies !(q.start < (
    #[trigger] spans[k]).end < q.end) by {
        assert(has_affected(
            map.places,
            map.was_revealed,
            map.revealed,
            map.places.len() as int,
            spans[k],
        ));
        let i = choose|i: int|
            0 <= i < map.places.len() && #[trigger] map.places[i] == Some(spans[k])
                && map.was_revealed.contains(i as usize) != map.revealed.contains(i as usize);
        assert(within(map.places, q));
        let j = choose|j: int|
            0 <= j < map.places.len() && (#[trigger] map.places[j]) is Some
                && map.places[j]->0.start <= q.start && q.end <= map.places[j]->0.end;
        assert(map.places[i] matches Some(span) ==> 0 <= span.start < span.end <= len);
        if i != j {
            assert(disjoint(map.places[i]->0, map.places[j]->0));
        }
    }
}

/// All that is hidden lies within the places of marks when what was revealed or
/// concealed has been followed.
pub proof fn law_reveal_within(map: MapView, fold: FoldView)
    requires
        map_wf(map),
        fold_wf(fold),
        follows(map, fold, Seq::empty()),
        within_places(map),
    ensures
        within_places(synced(map, fold, Seq::empty())),
{
    let t = task_of(map, fold, Seq::empty());
    let spans = affected_of(map);
    let len = fold.text.len() as int;
    lemma_task(map, fold, Seq::empty());
    lemma_resolved_within(map.marks, map.places, map.revealed, len);
    assert(task_within(t, map.places)) by {
        assert forall|k: int, q: Hidden|
            0 <= k <= t.changes.len() && #[trigger] hides(t.ps, q) && zone_start(t.changes, k)
                <= q.start && q.end <= zone_end(t.changes, k, t.old.len() as int) implies within(
            map.places,
            #[trigger] moved(q, zone_shift(t.changes, k)),
        ) by {
            if k > 0 {
                assert(t.changes[k - 1] == in_place(spans[k - 1]));
            }
            assert(moved(q, zone_shift(t.changes, k)) == q);
        }
    }
    if !unchanged(map, fold, Seq::empty()) && !settled(map, Seq::empty()) {
        let n = spans.len() as int;
        lemma_reveals_track(t, spans, n);
        lemma_reveals_within(t, spans, map.places, n);
        lemma_finish_within(t, map.places, follow_reveals(t.new, t.ps, t.rs, spans, n));
    }
}

/// Hidden ranges between the changes stay within places of marks.
pub open spec fn marks_follow(map: MapView, fold: FoldView, changes: Seq<Change>) -> bool {
    forall|k: int, q: Hidden|
        0 <= k <= changes.len() && #[trigger] hides(map.snapshot.pieces, q) && zone_start(
            changes,
            k,
        ) <= q.start && q.end <= zone_end(changes, k, map.snapshot.fold.text.len() as int)
            ==> within(places(fold, map.marks), #[trigger] moved(q, zone_shift(changes, k)))
}

/// All that is hidden lies within the places of marks when edits have been
/// followed, if the marks follow the edits.
pub proof fn law_edit_within(map: MapView, fold: FoldView, changes: Seq<Change>)
    requires
        map_wf(map),
        fold_wf(fold),
        changes.len() > 0,
        follows(map, fold, changes),
        marks_follow(map, fold, changes),
    ensures
        within_places(synced(map, fold, changes)),
{
    let t = task_of(map, fold, changes);
    let n = changes.len() as int;
    let spans = places(fold, map.marks);
    lemma_task(map, fold, changes);
    lemma_places(fold, map.marks);
    lemma_resolved_within(map.marks, spans, map.revealed, fold.text.len() as int);
    assert(task_within(t, spans));
    lemma_edits_track(t, n);
    lemma_edits_within(t, spans, n);
    lemma_finish_within(t, spans, follow_edits(t.new, t.ps, t.rs, t.changes, n));
}

} // verus!

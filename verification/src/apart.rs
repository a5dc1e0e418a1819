//! Edits of the text below that leave the concealed ranges alone.

use crate::display::{concealed, hides};
use crate::edits::{describes, zone_end, zone_kept, zone_shift, zone_start, Change};
use crate::fold::{fold_wf, FoldView};
use crate::follow::{
    hidden_alike_between, hidden_clear, hidden_kept, hidden_some, lemma_edits_rightly,
    lemma_edits_track, moved, Task,
};
use crate::laws::{
    changes_apart, law_read_conceals, law_read_edits, lemma_hides_shown, lemma_patch_of, lemma_task,
    patch_of, shows, task_of,
};
use crate::map::{follows, map_wf, synced, synced_changes, MapView};
use crate::patches::{ends_clear, lemma_follow_edits_patch};
use crate::resolve::{
    candidates, hidden_start, hiddens_wf, insert_by, keep_first, law_resolved, lemma_places, places,
    places_within, resolved, sort_by, Hidden, Mark, Span,
};
use crate::reveals::{changed, lemma_changed};
use crate::sync::follow_edits;
use vstd::prelude::*;

verus! {

/// How far the first `k` changes move the text behind `offset`.
pub open spec fn shift_behind(changes: Seq<Change>, offset: int, k: int) -> int
    decreases k,
{
    if k <= 0 {
        0
    } else if changes[k - 1].old_end <= offset {
        zone_shift(changes, k)
    } else {
        shift_behind(changes, offset, k - 1)
    }
}

/// How far changes move the text behind `offset`.
pub open spec fn shift_at(changes: Seq<Change>, offset: int) -> int {
    shift_behind(changes, offset, changes.len() as int)
}

/// Where a place lies once changes have moved it.
pub open spec fn carried_place(changes: Seq<Change>, place: Option<Span>) -> Option<Span> {
    match place {
        Some(span) => Some(
            Span {
                start: span.start + shift_at(changes, span.start),
                end: span.end + shift_at(changes, span.start),
            },
        ),
        None => None,
    }
}

/// Where hidden ranges lie once changes have moved them.
pub open spec fn carried(changes: Seq<Change>, list: Seq<Hidden>) -> Seq<Hidden> {
    list.map_values(|q: Hidden| moved(q, shift_at(changes, q.start)))
}

/// The places of marks move with the text.
pub open spec fn places_carried(map: MapView, fold: FoldView, changes: Seq<Change>) -> bool {
    forall|i: int|
        0 <= i < map.marks.len() ==> places(fold, map.marks)[i] == carried_place(
            changes,
            #[trigger] map.places[i],
        )
}

/// No change has a byte in common with the range from `start` to `end` or starts at its end.
pub open spec fn leaves_alone(changes: Seq<Change>, start: int, end: int) -> bool {
    forall|k: int|
        0 <= k < changes.len() ==> end < (#[trigger] changes[k]).old_start || changes[k].old_end
            <= start
}

/// No change has a byte in common with a place or starts at its end.
pub open spec fn places_alone(places: Seq<Option<Span>>, changes: Seq<Change>) -> bool {
    forall|i: int|
        0 <= i < places.len() && (#[trigger] places[i]) is Some ==> leaves_alone(
            changes,
            places[i]->0.start,
            places[i]->0.end,
        )
}

/// A hidden range of a text of `len` bytes that no change touches.
spec fn left_alone(changes: Seq<Change>, len: int, q: Hidden) -> bool {
    0 <= q.start < q.end <= len && leaves_alone(changes, q.start, q.end)
}

/// Later changes come behind earlier ones in both texts.
proof fn lemma_changes_order(old: Seq<u8>, new: Seq<u8>, changes: Seq<Change>, i: int, j: int)
    requires
        describes(old, new, changes),
        0 <= i < j < changes.len(),
    ensures
        changes[i].old_end <= changes[j].old_start,
        changes[i].new_end <= changes[j].new_start,
        changes[j].old_start <= changes[j].old_end,
        changes[j].new_start <= changes[j].new_end,
    decreases j - i,
{
    assert(zone_kept(old, new, changes, j));
    if i < j - 1 {
        lemma_changes_order(old, new, changes, i, j - 1);
    }
}

/// A range that no change touches lies between two of them.
proof fn lemma_zone_of(changes: Seq<Change>, len: int, q: Hidden, m: int) -> (k: int)
    requires
        left_alone(changes, len, q),
        0 <= m <= changes.len(),
        forall|j: int| m <= j < changes.len() ==> q.end < (#[trigger] changes[j]).old_start,
    ensures
        0 <= k <= m,
        zone_start(changes, k) <= q.start,
        q.end <= zone_end(changes, k, len),
        shift_behind(changes, q.start, m) == zone_shift(changes, k),
    decreases m,
{
    if m == 0 {
        0
    } else if changes[m - 1].old_end <= q.start {
        m
    } else {
        assert(q.end < changes[m - 1].old_start);
        lemma_zone_of(changes, len, q, m - 1)
    }
}

/// A range between two changes is moved as far as the text between them.
proof fn lemma_zone_shift(
    old: Seq<u8>,
    new: Seq<u8>,
    changes: Seq<Change>,
    q: Hidden,
    k: int,
    m: int,
)
    requires
        describes(old, new, changes),
        q.start < q.end,
        0 <= k <= m <= changes.len(),
        zone_start(changes, k) <= q.start,
        q.end <= zone_end(changes, k, old.len() as int),
    ensures
        shift_behind(changes, q.start, m) == zone_shift(changes, k),
    decreases m,
{
    if k < m {
        assert(changes[k].old_start <= changes[k].old_end);
        if k < m - 1 {
            lemma_changes_order(old, new, changes, k, m - 1);
        }
        lemma_zone_shift(old, new, changes, q, k, m - 1);
    }
}

/// Between two changes, ranges lie in the new text as in the old one.
proof fn lemma_zones_apart(old: Seq<u8>, new: Seq<u8>, changes: Seq<Change>, i: int, j: int)
    requires
        describes(old, new, changes),
        0 <= i < j <= changes.len(),
    ensures
        zone_end(changes, i, old.len() as int) <= zone_start(changes, j),
        zone_end(changes, i, old.len() as int) + zone_shift(changes, i) <= zone_start(changes, j)
            + zone_shift(changes, j),
{
    assert(zone_kept(old, new, changes, i));
    assert(changes[i].old_start <= changes[i].old_end);
    if i < j - 1 {
        lemma_changes_order(old, new, changes, i, j - 1);
    }
}

/// Ranges that no change touches keep their order.
proof fn lemma_order_kept(old: Seq<u8>, new: Seq<u8>, changes: Seq<Change>, p: Hidden, q: Hidden)
    requires
        describes(old, new, changes),
        left_alone(changes, old.len() as int, p),
        left_alone(changes, old.len() as int, q),
    ensures
        ({
            let p1 = moved(p, shift_at(changes, p.start));
            let q1 = moved(q, shift_at(changes, q.start));
            &&& p.start <= q.start <==> p1.start <= q1.start
            &&& q.start < p.end <==> q1.start < p1.end
        }),
{
    let n = changes.len() as int;
    let len = old.len() as int;
    let i = lemma_zone_of(changes, len, p, n);
    let j = lemma_zone_of(changes, len, q, n);
    if i < j {
        lemma_zones_apart(old, new, changes, i, j);
    } else if j < i {
        lemma_zones_apart(old, new, changes, j, i);
    }
}

/// All ranges of a list are left alone.
spec fn all_alone(changes: Seq<Change>, len: int, list: Seq<Hidden>) -> bool {
    forall|i: int| 0 <= i < list.len() ==> left_alone(changes, len, #[trigger] list[i])
}

proof fn lemma_insert_carried(
    old: Seq<u8>,
    new: Seq<u8>,
    changes: Seq<Change>,
    list: Seq<Hidden>,
    item: Hidden,
)
    requires
        describes(old, new, changes),
        all_alone(changes, old.len() as int, list),
        left_alone(changes, old.len() as int, item),
    ensures
        insert_by(
            carried(changes, list),
            moved(item, shift_at(changes, item.start)),
            hidden_start(),
        ) == carried(changes, insert_by(list, item, hidden_start())),
        all_alone(changes, old.len() as int, insert_by(list, item, hidden_start())),
    decreases list.len(),
{
    let key = hidden_start();
    let list1 = carried(changes, list);
    let item1 = moved(item, shift_at(changes, item.start));
    if list.len() > 0 {
        let last = list.last();
        assert(left_alone(changes, old.len() as int, list[list.len() - 1]));
        lemma_order_kept(old, new, changes, last, item);
        assert(list1.last() == moved(last, shift_at(changes, last.start)));
        assert(list1.drop_last() =~= carried(changes, list.drop_last()));
        if key(last) > key(item) {
            let shorter = insert_by(list.drop_last(), item, key);
            lemma_insert_carried(old, new, changes, list.drop_last(), item);
            assert(insert_by(list, item, key) == shorter.push(last));
            assert(carried(changes, shorter.push(last)) =~= carried(changes, shorter).push(
                list1.last(),
            ));
        } else {
            assert(carried(changes, list.push(item)) =~= list1.push(item1));
        }
    } else {
        assert(carried(changes, list.push(item)) =~= list1.push(item1));
    }
}

proof fn lemma_sort_carried(old: Seq<u8>, new: Seq<u8>, changes: Seq<Change>, list: Seq<Hidden>)
    requires
        describes(old, new, changes),
        all_alone(changes, old.len() as int, list),
    ensures
        sort_by(carried(changes, list), hidden_start()) == carried(
            changes,
            sort_by(list, hidden_start()),
        ),
        all_alone(changes, old.len() as int, sort_by(list, hidden_start())),
    decreases list.len(),
{
    let list1 = carried(changes, list);
    if list.len() > 0 {
        lemma_sort_carried(old, new, changes, list.drop_last());
        assert(list1.drop_last() =~= carried(changes, list.drop_last()));
        assert(left_alone(changes, old.len() as int, list[list.len() - 1]));
        lemma_insert_carried(
            old,
            new,
            changes,
            sort_by(list.drop_last(), hidden_start()),
            list.last(),
        );
    } else {
        assert(list1 =~= carried(changes, sort_by(list, hidden_start())));
        assert(sort_by(list1, hidden_start()) =~= list1);
    }
}

proof fn lemma_keep_carried(old: Seq<u8>, new: Seq<u8>, changes: Seq<Change>, list: Seq<Hidden>)
    requires
        describes(old, new, changes),
        all_alone(changes, old.len() as int, list),
    ensures
        keep_first(carried(changes, list)) == carried(changes, keep_first(list)),
        all_alone(changes, old.len() as int, keep_first(list)),
    decreases list.len(),
{
    let list1 = carried(changes, list);
    if list.len() > 0 {
        let last = list.last();
        let before = keep_first(list.drop_last());
        lemma_keep_carried(old, new, changes, list.drop_last());
        assert(list1.drop_last() =~= carried(changes, list.drop_last()));
        assert(list1.last() == moved(last, shift_at(changes, last.start)));
        assert(left_alone(changes, old.len() as int, list[list.len() - 1]));
        if before.len() > 0 {
            assert(left_alone(changes, old.len() as int, before[before.len() - 1]));
            lemma_order_kept(old, new, changes, before.last(), last);
            assert(carried(changes, before).last() == moved(
                before.last(),
                shift_at(changes, before.last().start),
            ));
        }
        assert(carried(changes, before.push(last)) =~= carried(changes, before).push(
            list1.last(),
        ));
    } else {
        assert(keep_first(list1) =~= carried(changes, keep_first(list)));
    }
}

proof fn lemma_candidates_carried(
    changes: Seq<Change>,
    len: int,
    marks: Seq<Mark>,
    spans: Seq<Option<Span>>,
    moved_spans: Seq<Option<Span>>,
    revealed: Set<usize>,
    k: int,
)
    requires
        0 <= k <= marks.len(),
        marks.len() == spans.len(),
        places_within(spans, len),
        places_alone(spans, changes),
        forall|i: int|
            0 <= i < marks.len() ==> moved_spans[i] == carried_place(changes, #[trigger] spans[i]),
    ensures
        candidates(marks, moved_spans, revealed, k) == carried(
            changes,
            candidates(marks, spans, revealed, k),
        ),
        all_alone(changes, len, candidates(marks, spans, revealed, k)),
    decreases k,
{
    if k > 0 {
        lemma_candidates_carried(changes, len, marks, spans, moved_spans, revealed, k - 1);
        let before = candidates(marks, spans, revealed, k - 1);
        assert(moved_spans[k - 1] == carried_place(changes, spans[k - 1]));
        if let Some(span) = spans[k - 1] {
            let q = Hidden { start: span.start, end: span.end, text: marks[k - 1].text };
            assert(left_alone(changes, len, q));
            assert(carried(changes, before.push(q)) =~= carried(changes, before).push(
                moved(q, shift_at(changes, q.start)),
            ));
        }
    } else {
        assert(candidates(marks, moved_spans, revealed, k) =~= carried(
            changes,
            candidates(marks, spans, revealed, k),
        ));
    }
}

/// Marks whose places move with the text hide what they hid, moved with the text.
proof fn lemma_resolved_carried(
    old: Seq<u8>,
    new: Seq<u8>,
    changes: Seq<Change>,
    marks: Seq<Mark>,
    spans: Seq<Option<Span>>,
    moved_spans: Seq<Option<Span>>,
    revealed: Set<usize>,
)
    requires
        describes(old, new, changes),
        marks.len() == spans.len(),
        places_within(spans, old.len() as int),
        places_alone(spans, changes),
        forall|i: int|
            0 <= i < marks.len() ==> moved_spans[i] == carried_place(changes, #[trigger] spans[i]),
    ensures
        resolved(marks, moved_spans, revealed) == carried(
            changes,
            resolved(marks, spans, revealed),
        ),
        all_alone(changes, old.len() as int, resolved(marks, spans, revealed)),
{
    let n = marks.len() as int;
    let list = candidates(marks, spans, revealed, n);
    lemma_candidates_carried(
        changes,
        old.len() as int,
        marks,
        spans,
        moved_spans,
        revealed,
        n,
    );
    lemma_sort_carried(old, new, changes, list);
    lemma_keep_carried(old, new, changes, sort_by(list, hidden_start()));
}

/// Between two changes just what was hidden is hidden.
proof fn lemma_alike(t: Task, was: Seq<Hidden>, k: int, q: Hidden)
    requires
        describes(t.old, t.new, t.changes),
        all_alone(t.changes, t.old.len() as int, was),
        t.rs == carried(t.changes, was),
        0 <= k <= t.changes.len(),
        zone_start(t.changes, k) <= q.start,
        q.end <= zone_end(t.changes, k, t.old.len() as int),
    ensures
        was.contains(q) <==> t.rs.contains(moved(q, zone_shift(t.changes, k))),
{
    let n = t.changes.len() as int;
    let len = t.old.len() as int;
    let q1 = moved(q, zone_shift(t.changes, k));
    if was.contains(q) {
        let at = was.index_of(q);
        assert(left_alone(t.changes, len, was[at]));
        lemma_zone_shift(t.old, t.new, t.changes, q, k, n);
        assert(t.rs[at] == q1);
    }
    if t.rs.contains(q1) {
        let at = t.rs.index_of(q1);
        let p = was[at];
        assert(left_alone(t.changes, len, was[at]));
        assert(t.rs[at] == moved(p, shift_at(t.changes, p.start)));
        let j = lemma_zone_of(t.changes, len, p, n);
        if j < k {
            lemma_zones_apart(t.old, t.new, t.changes, j, k);
        } else if k < j {
            lemma_zones_apart(t.old, t.new, t.changes, k, j);
        }
        assert(p == q);
    }
}

/// A range that no change touches does not cross the start or end of one in the new text.
proof fn lemma_clear(t: Task, q: Hidden, k: int)
    requires
        describes(t.old, t.new, t.changes),
        left_alone(t.changes, t.old.len() as int, q),
        0 <= k < t.changes.len(),
    ensures
        ({
            let r = moved(q, shift_at(t.changes, q.start));
            &&& !(r.start < t.changes[k].new_start < r.end)
            &&& !(r.start < t.changes[k].new_end < r.end)
        }),
{
    let n = t.changes.len() as int;
    let len = t.old.len() as int;
    let j = lemma_zone_of(t.changes, len, q, n);
    assert(zone_kept(t.old, t.new, t.changes, k));
    assert(t.changes[k].new_start <= t.changes[k].new_end);
    if k < j {
        if k + 1 < j {
            lemma_zones_apart(t.old, t.new, t.changes, k + 1, j);
            assert(zone_kept(t.old, t.new, t.changes, k + 1));
        }
    } else if j < k {
        lemma_zones_apart(t.old, t.new, t.changes, j, k);
    }
}

/// When edits leave the places of marks alone and the marks move with the text, the
/// text is displayed with all that was hidden still replaced, and the edits that come
/// with it turn what was displayed into what is displayed.
pub proof fn law_edits_apart(map: MapView, fold: FoldView, changes: Seq<Change>)
    requires
        map_wf(map),
        fold_wf(fold),
        changes.len() > 0,
        follows(map, fold, changes),
        shows(map, map.revealed),
        places_alone(map.places, changes),
        places_carried(map, fold, changes),
    ensures
        hidden_kept(task_of(map, fold, changes)),
        ends_clear(task_of(map, fold, changes)),
        ({
            let after = synced(map, fold, changes);
            &&& after.hidden() == carried(changes, map.hidden())
            &&& shows(after, after.revealed)
            &&& after.snapshot.text() == concealed(fold.text, carried(changes, map.hidden()))
            &&& describes(
                map.snapshot.text(),
                after.snapshot.text(),
                synced_changes(map, fold, changes),
            )
        }),
{
    let t = task_of(map, fold, changes);
    let len = t.old.len() as int;
    let was = map.hidden();
    lemma_task(map, fold, changes);
    lemma_places(fold, map.marks);
    lemma_resolved_carried(
        t.old,
        t.new,
        changes,
        map.marks,
        map.places,
        places(fold, map.marks),
        map.revealed,
    );
    assert forall|q: Hidden| #[trigger] hides(t.ps, q) <==> was.contains(q) by {
        lemma_hides_shown(map, map.revealed, q);
    }
    assert forall|q: Hidden| #[trigger] hides(t.ps, q) implies left_alone(changes, len, q) by {
        let at = was.index_of(q);
        assert(left_alone(changes, len, was[at]));
    }
    assert(hidden_clear(t)) by {
        assert forall|k: int, i: int|
            0 <= k < t.changes.len() && 0 <= i < t.rs.len() implies !((#[trigger] t.rs[i]).start < (
        #[trigger] t.changes[k]).new_start < t.rs[i].end) && !(t.rs[i].start
            < t.changes[k].new_end < t.rs[i].end) by {
            assert(left_alone(changes, len, was[i]));
            lemma_clear(t, was[i], k);
        }
    }
    assert(hidden_some(t));
    assert(hidden_alike_between(t)) by {
        assert forall|k: int, q: Hidden|
            0 <= k <= t.changes.len() && zone_start(t.changes, k) <= q.start && q.end <= zone_end(
                t.changes,
                k,
                t.old.len() as int,
            ) implies (#[trigger] hides(t.ps, q) <==> t.rs.contains(
            #[trigger] moved(q, zone_shift(t.changes, k)),
        )) by {
            lemma_alike(t, was, k, q);
        }
    }
    law_read_conceals(map, fold, changes);
    law_read_edits(map, fold, changes);
}

/// What changes in the displayed text, change by change of the text below.
pub open spec fn all_changed(
    old: Seq<u8>,
    new: Seq<u8>,
    was: Seq<Hidden>,
    now: Seq<Hidden>,
    changes: Seq<Change>,
) -> Seq<Change> {
    changes.map_values(|change: Change| changed(old, new, was, now, change))
}

proof fn lemma_changed_patch(t: Task, was: Seq<Hidden>, k: int)
    requires
        hidden_kept(t),
        ends_clear(t),
        hiddens_wf(was, t.old.len() as int),
        forall|q: Hidden| #[trigger] hides(t.ps, q) <==> was.contains(q),
        0 <= k <= t.changes.len(),
    ensures
        follow_edits(t.new, t.ps, t.rs, t.changes, k).patch == patch_of(
            all_changed(t.old, t.new, was, t.rs, t.changes),
            k,
        ),
    decreases k,
{
    if k > 0 {
        let run = follow_edits(t.new, t.ps, t.rs, t.changes, k - 1);
        lemma_changed_patch(t, was, k - 1);
        lemma_edits_track(t, k - 1);
        lemma_edits_rightly(t, k - 1);
        lemma_follow_edits_patch(t, k - 1);
        lemma_changed(t, was, k - 1, run);
    }
}

/// When the hidden ranges are kept, every edit of the text below comes out as the edit between
/// the places where its ends are displayed: as they come, if none is empty and something is
/// displayed between any two, and else without the empty ones and with those that touch
/// joined.
pub proof fn law_edits_exact(map: MapView, fold: FoldView, changes: Seq<Change>)
    requires
        map_wf(map),
        fold_wf(fold),
        changes.len() > 0,
        follows(map, fold, changes),
        shows(map, map.revealed),
        hidden_kept(task_of(map, fold, changes)),
        ends_clear(task_of(map, fold, changes)),
    ensures
        ({
            let exact = all_changed(
                map.snapshot.fold.text,
                fold.text,
                map.hidden(),
                synced(map, fold, changes).hidden(),
                changes,
            );
            &&& synced_changes(map, fold, changes) == patch_of(exact, exact.len() as int)
            &&& changes_apart(exact) ==> synced_changes(map, fold, changes) == exact
        }),
{
    let t = task_of(map, fold, changes);
    let n = changes.len() as int;
    let was = map.hidden();
    let exact = all_changed(t.old, t.new, was, t.rs, changes);
    law_resolved(map.marks, map.places, map.revealed, t.old.len() as int);
    assert forall|q: Hidden| #[trigger] hides(t.ps, q) <==> was.contains(q) by {
        lemma_hides_shown(map, map.revealed, q);
    }
    lemma_changed_patch(t, was, n);
    if changes_apart(exact) {
        lemma_patch_of(exact, n);
        assert(exact.take(n) =~= exact);
    }
}

} // verus!

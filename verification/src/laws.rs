//! What holds of the layer as a whole.

use crate::coords::MAX_LEN;
use crate::display::{
    all_same, concealed, displayed, hidden_at, hides, lemma_all_same, lemma_displayed,
    lemma_hides_exactly, lemma_reflects_upto, lemma_shown, lemma_swaps, swaps,
};
use crate::edits::{
    changes_between_chars, describes, patch_push, zone_end, zone_kept, zone_shift, zone_start,
    Change,
};
use crate::fold::{fold_wf, on_boundary, FoldView};
use crate::follow::{
    hidden_alike_between, hidden_clear, hidden_kept, hidden_some, in_places, lemma_carry_grows,
    lemma_edits_conceal, lemma_edits_reflect, lemma_edits_track, lemma_rebuild_grows,
    lemma_reveals_conceal, lemma_reveals_reflect, moved, reveal_task, task_wf, Task,
};
use crate::grow::{between_chars, lemma_cover, lemma_grow_gap};
use crate::layout::{cover, fill_gap};
use crate::map::{
    affected_of, can_sync, followed, follows, map_wf, plain_map, plain_snapshot, settled, synced,
    synced_changes, unchanged, whole_edit, with_marks, MapView,
};
use crate::patches::{ends_clear, lemma_edits_patch, lemma_reveals_patch};
use crate::resolve::{
    affected, all_disjoint, anchored, disjoint, has_affected, has_mark, hidden_mark, hiddens_wf,
    is_candidate, law_affected, law_resolved, lemma_places, places, places_between, places_disjoint,
    places_within, resolved, starts_within, Hidden, Mark, Span,
};
use crate::sync::{carry, follow_edits, in_place, rebuild};
use crate::text::summary_of;
use crate::tidiness::{lemma_cover_tidy, lemma_follow_edits_tidy, lemma_follow_reveals_tidy};
use crate::transform::{lemma_starts_order, out_len, pieces_wf};
use vstd::prelude::*;
use vstd::utf8::is_char_boundary_start_end_of_seq;

verus! {

/// Hidden ranges cut no character if the places of the marks do not.
pub proof fn lemma_hidden_between(
    marks: Seq<Mark>,
    spans: Seq<Option<Span>>,
    revealed: Set<usize>,
    text: Seq<u8>,
)
    requires
        marks.len() == spans.len(),
        places_within(spans, text.len() as int),
        places_between(spans, text),
    ensures
        hiddens_wf(resolved(marks, spans, revealed), text.len() as int),
        between_chars(resolved(marks, spans, revealed), text),
{
    let rs = resolved(marks, spans, revealed);
    law_resolved(marks, spans, revealed, text.len() as int);
    assert forall|i: int| 0 <= i < rs.len() implies on_boundary(text, (#[trigger] rs[i]).start)
        && on_boundary(text, rs[i].end) by {
        assert(has_mark(marks, spans, revealed, marks.len() as int, rs[i]));
        let m = choose|m: int| 0 <= m < marks.len() && is_candidate(marks, spans, revealed, m, rs[i]);
        assert(spans[m] matches Some(span) ==> on_boundary(text, span.start) && on_boundary(
            text,
            span.end,
        ));
    }
}

/// A new layer displays the text below.
pub proof fn law_plain(fold: FoldView)
    requires
        fold_wf(fold),
    ensures
        map_wf(plain_map(fold)),
        shows(plain_map(fold), Set::empty()),
        plain_map(fold).snapshot.text() == fold.text,
{
    let ps = plain_snapshot(fold).pieces;
    let text = fold.text;
    let rs = Seq::<Hidden>::empty();
    is_char_boundary_start_end_of_seq(text);
    lemma_cover(text, rs);
    lemma_cover_tidy(text, rs);
    assert(text.subrange(0, text.len() as int) =~= text);
    assert(cover(text, Seq::empty(), rs) =~= ps);
    lemma_hides_exactly(ps, text, rs);
    assert(concealed(text, rs) =~= text);
    lemma_shown(ps, text, 1);
}

/// When marks are set, the text is displayed with all that they hide replaced.
pub proof fn law_set_conceals(map: MapView, marks: Seq<Mark>)
    requires
        fold_wf(map.snapshot.fold),
        anchored(marks, map.snapshot.fold),
        pieces_wf(with_marks(map, marks).snapshot.pieces),
    ensures
        ({
            let after = with_marks(map, marks);
            &&& map_wf(after)
            &&& shows(after, after.revealed)
            &&& after.snapshot.text() == concealed(map.snapshot.fold.text, after.hidden())
            &&& marks.len() == 0 ==> after.snapshot.text() == map.snapshot.fold.text
        }),
{
    let fold = map.snapshot.fold;
    let text = fold.text;
    let after = with_marks(map, marks);
    let ps = after.snapshot.pieces;
    let rs = after.hidden();
    is_char_boundary_start_end_of_seq(text);
    lemma_places(fold, marks);
    lemma_hidden_between(marks, after.places, after.revealed, text);
    lemma_cover(text, rs);
    lemma_cover_tidy(text, rs);
    assert forall|i: int| 0 <= i < rs.len() implies hides(ps, #[trigger] rs[i]) by {
        assert(rs.contains(rs[i]));
    }
    lemma_hides_exactly(ps, text, rs);
    if marks.len() == 0 {
        assert(rs.len() == 0);
        assert(concealed(text, rs) =~= text);
    }
}

/// The texts, changes and ranges that a layer follows when the text below becomes `fold`.
pub open spec fn task_of(map: MapView, fold: FoldView, changes: Seq<Change>) -> Task {
    Task {
        old: map.snapshot.fold.text,
        new: fold.text,
        changes: if changes.len() > 0 {
            changes
        } else {
            in_places(affected_of(map))
        },
        ps: map.snapshot.pieces,
        rs: synced_hidden(map, fold, changes),
    }
}

/// The ranges that are hidden when the text below has become `fold`.
pub open spec fn synced_hidden(map: MapView, fold: FoldView, changes: Seq<Change>) -> Seq<Hidden> {
    if changes.len() > 0 {
        resolved(map.marks, places(fold, map.marks), map.revealed)
    } else {
        map.hidden()
    }
}

/// Ranges in order and apart from each other, as changes of a text to itself.
proof fn lemma_in_places(text: Seq<u8>, spans: Seq<Span>)
    requires
        all_disjoint(spans),
        forall|i: int, j: int|
            0 <= i <= j < spans.len() ==> (#[trigger] spans[i]).start <= (
            #[trigger] spans[j]).start,
        forall|k: int|
            0 <= k < spans.len() ==> 0 <= (#[trigger] spans[k]).start < spans[k].end
                <= text.len() && on_boundary(text, spans[k].start) && on_boundary(
                text,
                spans[k].end,
            ),
    ensures
        describes(text, text, in_places(spans)),
        changes_between_chars(text, in_places(spans)),
{
    let changes = in_places(spans);
    let n = spans.len() as int;
    assert forall|k: int| 0 <= k <= n implies #[trigger] zone_kept(text, text, changes, k) by {
        if 0 < k < n {
            assert(disjoint(spans[k - 1], spans[k]));
            assert(spans[k - 1].start <= spans[k].start);
        }
        if 0 < k {
            assert(spans[k - 1].end <= text.len());
        }
        if k < n {
            assert(0 <= spans[k].start);
        }
    }
    assert forall|k: int| 0 <= k < n implies on_boundary(text, (#[trigger] changes[k]).new_start)
        && on_boundary(text, changes[k].new_end) by {
        assert(changes[k] == in_place(spans[k]));
        assert(on_boundary(text, spans[k].start));
    }
    assert forall|k: int| 0 <= k < n implies (#[trigger] changes[k]).old_start
        <= changes[k].old_end && changes[k].new_start <= changes[k].new_end by {
        assert(changes[k] == in_place(spans[k]));
        assert(spans[k].start < spans[k].end);
    }
}

/// What a layer follows is what its pieces can follow.
pub proof fn lemma_task(map: MapView, fold: FoldView, changes: Seq<Change>)
    requires
        map_wf(map),
        fold_wf(fold),
        follows(map, fold, changes),
    ensures
        task_wf(task_of(map, fold, changes)),
        changes.len() == 0 ==> reveal_task(task_of(map, fold, changes), affected_of(map)),
{
    let t = task_of(map, fold, changes);
    if changes.len() > 0 {
        lemma_places(fold, map.marks);
        lemma_hidden_between(map.marks, places(fold, map.marks), map.revealed, fold.text);
    } else {
        let spans = affected_of(map);
        let text = fold.text;
        lemma_hidden_between(map.marks, map.places, map.revealed, text);
        law_affected(map.places, map.was_revealed, map.revealed);
        assert forall|k: int| 0 <= k < spans.len() implies 0 <= (#[trigger] spans[k]).start
            < spans[k].end <= text.len() && on_boundary(text, spans[k].start) && on_boundary(
            text,
            spans[k].end,
        ) by {
            assert(has_affected(
                map.places,
                map.was_revealed,
                map.revealed,
                map.places.len() as int,
                spans[k],
            ));
            let i = choose|i: int|
                0 <= i < map.places.len() && #[trigger] map.places[i] == Some(spans[k])
                    && map.was_revealed.contains(i as usize) != map.revealed.contains(i as usize);
            assert(map.places[i] matches Some(span) ==> 0 <= span.start < span.end <= text.len());
            assert(map.places[i] matches Some(span) ==> on_boundary(text, span.start)
                && on_boundary(text, span.end));
        }
        lemma_in_places(text, spans);
    }
}

/// A layer that follows the text below can do so, as far as all fits, and its
/// pieces measure the new text.
pub proof fn law_read_measures(map: MapView, fold: FoldView, changes: Seq<Change>)
    requires
        map_wf(map),
        fold_wf(fold),
        follows(map, fold, changes),
    ensures
        map.snapshot.version < usize::MAX && out_len(
            synced(map, fold, changes).snapshot.pieces,
        ) <= MAX_LEN ==> can_sync(map, fold, changes),
        out_len(synced(map, fold, changes).snapshot.pieces) <= MAX_LEN ==> map_wf(
            synced(map, fold, changes),
        ),
{
    let t = task_of(map, fold, changes);
    let after = synced(map, fold, changes);
    lemma_task(map, fold, changes);
    if changes.len() > 0 {
        lemma_edits_reflect(t);
        lemma_follow_edits_tidy(t);
        lemma_places(fold, map.marks);
    } else if !unchanged(map, fold, changes) && !settled(map, changes) {
        lemma_reveals_reflect(t, affected_of(map));
        lemma_follow_reveals_tidy(t, affected_of(map));
    }
}

/// The pieces hide what is to be hidden when the marks in `revealed` are revealed.
pub open spec fn shows(map: MapView, revealed: Set<usize>) -> bool {
    swaps(map.snapshot.pieces, map.snapshot.pieces.len() as int) == resolved(
        map.marks,
        map.places,
        revealed,
    )
}

/// When a layer has followed the text below and the hidden ranges are kept, the
/// text is displayed with all that is hidden replaced.
pub proof fn law_read_conceals(map: MapView, fold: FoldView, changes: Seq<Change>)
    requires
        map_wf(map),
        fold_wf(fold),
        follows(map, fold, changes),
        hidden_kept(task_of(map, fold, changes)),
    ensures
        shows(synced(map, fold, changes), map.revealed),
        synced(map, fold, changes).snapshot.text() == concealed(
            fold.text,
            synced(map, fold, changes).hidden(),
        ),
{
    let t = task_of(map, fold, changes);
    let after = synced(map, fold, changes);
    lemma_task(map, fold, changes);
    if changes.len() > 0 {
        lemma_edits_conceal(t);
    } else if settled(map, changes) {
        lemma_settled(map);
    } else {
        if unchanged(map, fold, changes) {
            law_affected(map.places, map.was_revealed, map.revealed);
            let span = affected_of(map)[0];
            assert(has_affected(
                map.places,
                map.was_revealed,
                map.revealed,
                map.places.len() as int,
                span,
            ));
        }
        lemma_reveals_conceal(t, affected_of(map));
    }
}

/// A layer with nothing left to lay out hides what is to be hidden.
proof fn lemma_settled(map: MapView)
    requires
        map_wf(map),
        affected_of(map).len() == 0,
        hidden_kept(task_of(map, map.snapshot.fold, Seq::empty())),
    ensures
        shows(map, map.revealed),
        map.snapshot.text() == concealed(map.snapshot.fold.text, map.hidden()),
{
    let t = task_of(map, map.snapshot.fold, Seq::empty());
    let ps = map.snapshot.pieces;
    let text = map.snapshot.fold.text;
    let rs = map.hidden();
    assert(t.changes.len() == 0);
    assert forall|q: Hidden| #[trigger] hides(ps, q) implies rs.contains(q) by {
        let k = choose|k: int|
            0 <= k < ps.len() && (#[trigger] ps[k]) is Swap && q == hidden_at(ps, k, 0);
        lemma_starts_order(ps, 0, k);
        lemma_starts_order(ps, k + 1, ps.len() as int);
        assert(moved(q, zone_shift(t.changes, 0)) == q);
    }
    assert forall|i: int| 0 <= i < rs.len() implies hides(ps, #[trigger] rs[i]) by {
        let q = rs[i];
        assert(moved(q, zone_shift(t.changes, 0)) == q);
        assert(rs.contains(q));
    }
    lemma_hides_exactly(ps, text, rs);
}

/// The edits that come with it turn what was displayed into what is displayed, if
/// no edit of the text below ends within a range that was hidden.
pub proof fn law_read_edits(map: MapView, fold: FoldView, changes: Seq<Change>)
    requires
        map_wf(map),
        fold_wf(fold),
        follows(map, fold, changes),
        hidden_kept(task_of(map, fold, changes)),
        ends_clear(task_of(map, fold, changes)),
    ensures
        describes(
            map.snapshot.text(),
            synced(map, fold, changes).snapshot.text(),
            synced_changes(map, fold, changes),
        ),
{
    let t = task_of(map, fold, changes);
    lemma_task(map, fold, changes);
    if changes.len() > 0 {
        lemma_edits_patch(t);
    } else if settled(map, changes) {
        let d = map.snapshot.text();
        let none = Seq::<Change>::empty();
        assert(zone_kept(d, d, none, 0));
    } else {
        if unchanged(map, fold, changes) {
            law_affected(map.places, map.was_revealed, map.revealed);
            let span = affected_of(map)[0];
            assert(has_affected(
                map.places,
                map.was_revealed,
                map.revealed,
                map.places.len() as int,
                span,
            ));
        }
        lemma_reveals_patch(t, affected_of(map));
    }
}

/// What the pieces hide is what is to be hidden.
pub proof fn lemma_hides_shown(map: MapView, revealed: Set<usize>, q: Hidden)
    requires
        map_wf(map),
        shows(map, revealed),
    ensures
        hides(map.snapshot.pieces, q) <==> resolved(map.marks, map.places, revealed).contains(q),
{
    let ps = map.snapshot.pieces;
    let list = swaps(ps, ps.len() as int);
    lemma_swaps(ps, ps.len() as int);
    if hides(ps, q) {
        let m = choose|m: int|
            0 <= m < ps.len() && (#[trigger] ps[m]) is Swap && q == hidden_at(ps, m, 0);
        assert(ps[m] is Swap);
    }
    if list.contains(q) {
        let at = list.index_of(q);
        assert(hides(ps, list[at]));
    }
}

/// No hidden range ends where the place of a mark that was revealed or concealed starts.
pub open spec fn none_touches(map: MapView) -> bool {
    forall|k: int, q: Hidden|
        0 <= k < affected_of(map).len() && #[trigger] hides(map.snapshot.pieces, q) ==> q.end != (
        #[trigger] affected_of(map)[k]).start
}

/// Where no two marks have a byte in common, just those that are not revealed are hidden.
proof fn lemma_apart_hidden(
    marks: Seq<Mark>,
    spans: Seq<Option<Span>>,
    revealed: Set<usize>,
    len: int,
)
    requires
        marks.len() == spans.len(),
        places_within(spans, len),
        places_disjoint(spans),
    ensures
        forall|i: int|
            0 <= i < marks.len() && (#[trigger] spans[i]) is Some && !revealed.contains(i as usize)
                ==> resolved(marks, spans, revealed).contains(hidden_mark(marks, spans, i)),
        forall|r: int|
            0 <= r < resolved(marks, spans, revealed).len() ==> has_mark(
                marks,
                spans,
                revealed,
                marks.len() as int,
                #[trigger] resolved(marks, spans, revealed)[r],
            ),
{
    let rs = resolved(marks, spans, revealed);
    law_resolved(marks, spans, revealed, len);
    assert forall|i: int|
        0 <= i < marks.len() && (#[trigger] spans[i]) is Some && !revealed.contains(
            i as usize,
        ) implies rs.contains(hidden_mark(marks, spans, i)) by {
        let q = hidden_mark(marks, spans, i);
        assert(starts_within(rs, q));
        let r = choose|r: int|
            0 <= r < rs.len() && (#[trigger] rs[r]).start <= q.start < rs[r].end;
        assert(has_mark(marks, spans, revealed, marks.len() as int, rs[r]));
        let j = choose|j: int|
            0 <= j < marks.len() && is_candidate(marks, spans, revealed, j, rs[r]);
        assert(spans[j] is Some);
        assert(spans[i] matches Some(span) ==> 0 <= span.start < span.end <= len);
        if i != j {
            assert(disjoint(spans[i]->0, spans[j]->0));
        }
        assert(rs[r] == q);
    }
}

/// A range that was revealed or concealed does not lie between such ranges.
proof fn lemma_not_between(spans: Seq<Span>, len: int, c: int, k: int)
    requires
        all_disjoint(spans),
        forall|i: int, j: int|
            0 <= i <= j < spans.len() ==> (#[trigger] spans[i]).start <= (
            #[trigger] spans[j]).start,
        forall|i: int| 0 <= i < spans.len() ==> (#[trigger] spans[i]).start < spans[i].end,
        0 <= c < spans.len(),
        0 <= k <= spans.len(),
    ensures
        !(zone_start(in_places(spans), k) <= spans[c].start && spans[c].end <= zone_end(
            in_places(spans),
            k,
            len,
        )),
{
    let changes = in_places(spans);
    if k <= c {
        assert(changes[k] == in_place(spans[k]));
        assert(spans[k].start <= spans[c].start);
    } else {
        assert(changes[k - 1] == in_place(spans[k - 1]));
        assert(spans[c].start <= spans[k - 1].start);
    }
}

/// Where no two marks have a byte in common, revealing and concealing keeps the
/// hidden ranges, unless one ends where a mark starts that was revealed or concealed.
pub proof fn law_reveal_disjoint(map: MapView, fold: FoldView)
    requires
        map_wf(map),
        fold_wf(fold),
        fold.text == map.snapshot.fold.text,
        places_disjoint(map.places),
        none_touches(map),
        shows(map, map.was_revealed),
    ensures
        follows(map, fold, Seq::empty()),
        hidden_kept(task_of(map, fold, Seq::empty())),
        ends_clear(task_of(map, fold, Seq::empty())),
{
    let t = task_of(map, fold, Seq::empty());
    let spans = affected_of(map);
    let len = fold.text.len() as int;
    let n = map.marks.len() as int;
    let ps = map.snapshot.pieces;
    law_affected(map.places, map.was_revealed, map.revealed);
    lemma_apart_hidden(map.marks, map.places, map.was_revealed, len);
    lemma_apart_hidden(map.marks, map.places, map.revealed, len);
    let was = resolved(map.marks, map.places, map.was_revealed);
    assert forall|q: Hidden| #[trigger] hides(ps, q) <==> was.contains(q) by {
        lemma_hides_shown(map, map.was_revealed, q);
    }
    assert forall|k: int| 0 <= k < spans.len() implies (#[trigger] spans[k]).start
        < spans[k].end by {
        let i = lemma_affected_mark(map, k);
        assert(map.places[i] matches Some(span) ==> 0 <= span.start < span.end <= len);
    }
    assert forall|k: int, q: Hidden|
        0 <= k < spans.len() && #[trigger] hides(ps, q) implies !(q.start < (
    #[trigger] spans[k]).end < q.end) by {
        lemma_apart_pair(map, map.was_revealed, k, q);
    }
    lemma_task(map, fold, Seq::empty());
    assert(hidden_clear(t)) by {
        assert forall|k: int, q: Hidden|
            0 <= k < t.changes.len() && #[trigger] hides(t.ps, q) implies !(q.start < (
        #[trigger] t.changes[k]).old_start <= q.end) by {
            assert(t.changes[k] == in_place(spans[k]));
            lemma_apart_pair(map, map.was_revealed, k, q);
        }
        assert forall|k: int, i: int|
            0 <= k < t.changes.len() && 0 <= i < t.rs.len() implies !((#[trigger] t.rs[i]).start < (
        #[trigger] t.changes[k]).new_start < t.rs[i].end) && !(t.rs[i].start
            < t.changes[k].new_end < t.rs[i].end) by {
            assert(t.changes[k] == in_place(spans[k]));
            assert(t.rs.contains(t.rs[i]));
            lemma_apart_pair(map, map.revealed, k, t.rs[i]);
        }
    }
    assert(hidden_some(t)) by {
        assert forall|q: Hidden| #[trigger] hides(t.ps, q) implies q.start < q.end by {
            let at = was.index_of(q);
            law_resolved(map.marks, map.places, map.was_revealed, len);
            assert(was[at] == q);
        }
    }
    assert(hidden_alike_between(t)) by {
        assert forall|k: int, q: Hidden|
            0 <= k <= t.changes.len() && zone_start(t.changes, k) <= q.start && q.end <= zone_end(
                t.changes,
                k,
                t.old.len() as int,
            ) implies (#[trigger] hides(t.ps, q) <==> t.rs.contains(
            #[trigger] moved(q, zone_shift(t.changes, k)),
        )) by {
            if k > 0 {
                assert(t.changes[k - 1] == in_place(spans[k - 1]));
            }
            assert(moved(q, zone_shift(t.changes, k)) == q);
            if was.contains(q) {
                lemma_stays_hidden(map, map.was_revealed, map.revealed, k, q);
            }
            if t.rs.contains(q) {
                lemma_stays_hidden(map, map.revealed, map.was_revealed, k, q);
            }
        }
    }
    assert forall|k: int, q: Hidden|
        0 <= k < t.changes.len() && #[trigger] hides(t.ps, q) implies !(q.start < (
    #[trigger] t.changes[k]).old_end < q.end) by {
        assert(t.changes[k] == in_place(spans[k]));
        lemma_apart_pair(map, map.was_revealed, k, q);
    }
}

/// The mark of an affected range.
pub proof fn lemma_affected_mark(map: MapView, k: int) -> (i: int)
    requires
        0 <= k < affected_of(map).len(),
    ensures
        0 <= i < map.places.len(),
        map.places[i] == Some(affected_of(map)[k]),
        map.was_revealed.contains(i as usize) != map.revealed.contains(i as usize),
{
    law_affected(map.places, map.was_revealed, map.revealed);
    let span = affected_of(map)[k];
    assert(has_affected(
        map.places,
        map.was_revealed,
        map.revealed,
        map.places.len() as int,
        span,
    ));
    choose|i: int|
        0 <= i < map.places.len() && #[trigger] map.places[i] == Some(span)
            && map.was_revealed.contains(i as usize) != map.revealed.contains(i as usize)
}

/// Where no two marks have a byte in common, a hidden range and an affected one
/// are the same or have none in common.
proof fn lemma_apart_pair(map: MapView, revealed: Set<usize>, k: int, q: Hidden)
    requires
        map_wf(map),
        places_disjoint(map.places),
        0 <= k < affected_of(map).len(),
        resolved(map.marks, map.places, revealed).contains(q),
    ensures
        ({
            let span = affected_of(map)[k];
            (q.start == span.start && q.end == span.end) || q.end <= span.start || span.end
                <= q.start
        }),
        q.start < q.end,
        affected_of(map)[k].start < affected_of(map)[k].end,
{
    let len = map.snapshot.fold.text.len() as int;
    let rs = resolved(map.marks, map.places, revealed);
    law_resolved(map.marks, map.places, revealed, len);
    let i = lemma_affected_mark(map, k);
    let r = rs.index_of(q);
    assert(has_mark(map.marks, map.places, revealed, map.marks.len() as int, rs[r]));
    let j = choose|j: int|
        0 <= j < map.marks.len() && is_candidate(map.marks, map.places, revealed, j, rs[r]);
    assert(map.places[i] is Some && map.places[j] is Some);
    assert(map.places[i] matches Some(span) ==> 0 <= span.start < span.end <= len);
    if i != j {
        assert(disjoint(map.places[i]->0, map.places[j]->0));
    }
}

/// A range between affected ones stays hidden.
proof fn lemma_stays_hidden(
    map: MapView,
    from: Set<usize>,
    to: Set<usize>,
    k: int,
    q: Hidden,
)
    requires
        map_wf(map),
        places_disjoint(map.places),
        (from == map.was_revealed && to == map.revealed) || (from == map.revealed && to
            == map.was_revealed),
        0 <= k <= affected_of(map).len(),
        resolved(map.marks, map.places, from).contains(q),
        zone_start(in_places(affected_of(map)), k) <= q.start,
        q.end <= zone_end(
            in_places(affected_of(map)),
            k,
            map.snapshot.fold.text.len() as int,
        ),
    ensures
        resolved(map.marks, map.places, to).contains(q),
{
    let len = map.snapshot.fold.text.len() as int;
    let spans = affected_of(map);
    let rs = resolved(map.marks, map.places, from);
    lemma_apart_hidden(map.marks, map.places, from, len);
    lemma_apart_hidden(map.marks, map.places, to, len);
    law_affected(map.places, map.was_revealed, map.revealed);
    let r = rs.index_of(q);
    assert(has_mark(map.marks, map.places, from, map.marks.len() as int, rs[r]));
    let i = choose|i: int|
        0 <= i < map.marks.len() && is_candidate(map.marks, map.places, from, i, rs[r]);
    assert(map.places[i] is Some);
    assert(hidden_mark(map.marks, map.places, i) == q);
    if to.contains(i as usize) {
        assert(spans.contains(map.places[i]->0));
        let c = spans.index_of(map.places[i]->0);
        assert forall|m: int| 0 <= m < spans.len() implies (#[trigger] spans[m]).start
            < spans[m].end by {
            let j = lemma_affected_mark(map, m);
            assert(map.places[j] matches Some(span) ==> 0 <= span.start < span.end <= len);
        }
        lemma_not_between(spans, len, c, k);
    }
}

/// A layer that hides what is to be hidden displays the text with that replaced.
pub proof fn law_shows(map: MapView, revealed: Set<usize>)
    requires
        map_wf(map),
        shows(map, revealed),
    ensures
        map.snapshot.text() == concealed(
            map.snapshot.fold.text,
            resolved(map.marks, map.places, revealed),
        ),
{
    lemma_displayed(
        map.snapshot.pieces,
        map.snapshot.fold.text,
        map.snapshot.pieces.len() as int,
    );
}

/// With every mark revealed, the text below is displayed.
pub proof fn law_all_revealed(map: MapView, revealed: Set<usize>)
    requires
        map_wf(map),
        shows(map, revealed),
        forall|i: int|
            0 <= i < map.marks.len() && (#[trigger] map.places[i]) is Some ==> revealed.contains(
                i as usize,
            ),
    ensures
        map.snapshot.text() == map.snapshot.fold.text,
{
    let text = map.snapshot.fold.text;
    let rs = resolved(map.marks, map.places, revealed);
    law_shows(map, revealed);
    law_resolved(map.marks, map.places, revealed, text.len() as int);
    if rs.len() > 0 {
        assert(has_mark(map.marks, map.places, revealed, map.marks.len() as int, rs[0]));
        let i = choose|i: int|
            0 <= i < map.marks.len() && is_candidate(map.marks, map.places, revealed, i, rs[0]);
        assert(map.places[i] is Some);
    }
    assert(concealed(text, rs) =~= text);
}

/// The layer with other marks revealed.
pub open spec fn with_revealed(map: MapView, revealed: Set<usize>) -> MapView {
    MapView { revealed, was_revealed: map.revealed, ..map }
}

/// The layer with other marks revealed, after that has been followed.
pub open spec fn reveal_read(map: MapView, revealed: Set<usize>, fold: FoldView) -> MapView {
    synced(with_revealed(map, revealed), fold, Seq::empty())
}

/// Revealing marks leaves them displayed as they are, and the others replaced.
pub proof fn law_reveal_read(map: MapView, revealed: Set<usize>, fold: FoldView)
    requires
        map_wf(map),
        fold_wf(fold),
        fold.text == map.snapshot.fold.text,
        shows(map, map.revealed),
        places_disjoint(map.places),
        none_touches(with_revealed(map, revealed)),
        pieces_wf(reveal_read(map, revealed, fold).snapshot.pieces),
    ensures
        ({
            let after = reveal_read(map, revealed, fold);
            &&& map_wf(after)
            &&& shows(after, revealed)
            &&& after.revealed == revealed
            &&& after.marks == map.marks
            &&& after.places == map.places
            &&& after.snapshot.fold.text == map.snapshot.fold.text
            &&& after.snapshot.text() == concealed(
                fold.text,
                resolved(map.marks, map.places, revealed),
            )
        }),
{
    let before = with_revealed(map, revealed);
    law_reveal_disjoint(before, fold);
    law_read_conceals(before, fold, Seq::empty());
    law_read_measures(before, fold, Seq::empty());
}

/// Revealing other marks and then the same as before displays the same as before.
pub proof fn law_reveal_there_and_back(map: MapView, revealed: Set<usize>, fold: FoldView)
    requires
        map_wf(map),
        fold_wf(fold),
        fold.text == map.snapshot.fold.text,
        shows(map, map.revealed),
        places_disjoint(map.places),
        none_touches(with_revealed(map, revealed)),
        pieces_wf(reveal_read(map, revealed, fold).snapshot.pieces),
        none_touches(with_revealed(reveal_read(map, revealed, fold), map.revealed)),
        pieces_wf(
            reveal_read(reveal_read(map, revealed, fold), map.revealed, fold).snapshot.pieces,
        ),
    ensures
        reveal_read(reveal_read(map, revealed, fold), map.revealed, fold).snapshot.text()
            == map.snapshot.text(),
{
    law_reveal_read(map, revealed, fold);
    law_reveal_read(reveal_read(map, revealed, fold), map.revealed, fold);
    law_shows(map, map.revealed);
}

/// The edit that comes with other marks turns what was displayed into what is
/// displayed, unless both measure the same and differ.
pub proof fn law_set_edit(map: MapView, marks: Seq<Mark>)
    requires
        map_wf(map),
        anchored(marks, map.snapshot.fold),
        pieces_wf(with_marks(map, marks).snapshot.pieces),
        summary_of(map.snapshot.text()) == summary_of(with_marks(map, marks).snapshot.text())
            ==> map.snapshot.text() == with_marks(map, marks).snapshot.text(),
    ensures
        describes(
            map.snapshot.text(),
            with_marks(map, marks).snapshot.text(),
            whole_edit(map.snapshot.pieces, with_marks(map, marks).snapshot.pieces),
        ),
{
    let after = with_marks(map, marks);
    let text = map.snapshot.fold.text;
    let ps = map.snapshot.pieces;
    let qs = after.snapshot.pieces;
    let old = map.snapshot.text();
    let new = after.snapshot.text();
    law_set_conceals(map, marks);
    lemma_shown(ps, text, ps.len() as int);
    lemma_shown(qs, text, qs.len() as int);
    let changes = whole_edit(ps, qs);
    if changes.len() == 0 {
        assert(zone_kept(old, new, changes, 0));
    } else {
        assert(old.subrange(0, 0) =~= new.subrange(0, 0));
        assert(zone_kept(old, new, changes, 0));
        assert(old.subrange(old.len() as int, old.len() as int) =~= new.subrange(
            new.len() as int,
            new.len() as int,
        ));
        assert(zone_kept(old, new, changes, 1));
    }
}

/// Setting the same marks again displays the same, without an edit, in a new version.
pub proof fn law_set_twice(map: MapView, marks: Seq<Mark>)
    ensures
        ({
            let once = with_marks(map, marks);
            let twice = with_marks(once, marks);
            &&& twice.snapshot.text() == once.snapshot.text()
            &&& twice.snapshot.version == once.snapshot.version + 1
            &&& whole_edit(once.snapshot.pieces, twice.snapshot.pieces) == Seq::<Change>::empty()
        }),
{
}

/// Reading again without a change changes nothing.
pub proof fn law_read_twice(map: MapView, fold: FoldView, changes: Seq<Change>)
    ensures
        synced(synced(map, fold, changes), fold, Seq::empty()) == synced(map, fold, changes),
        synced_changes(synced(map, fold, changes), fold, Seq::empty()) == Seq::<Change>::empty(),
{
    let after = synced(map, fold, changes);
    law_affected(after.places, after.was_revealed, after.revealed);
    if affected_of(after).len() > 0 {
        let span = affected_of(after)[0];
        assert(has_affected(
            after.places,
            after.was_revealed,
            after.revealed,
            after.places.len() as int,
            span,
        ));
    }
}

/// The patch that the first `k` changes make, one after the other.
pub open spec fn patch_of(changes: Seq<Change>, k: int) -> Seq<Change>
    decreases k,
{
    if k <= 0 {
        Seq::empty()
    } else {
        patch_push(patch_of(changes, k - 1), changes[k - 1])
    }
}

/// No change is empty, and there is text between any two of them.
pub open spec fn changes_apart(changes: Seq<Change>) -> bool {
    &&& forall|k: int|
        0 <= k < changes.len() ==> (#[trigger] changes[k]).old_start < changes[k].old_end
            || changes[k].new_start < changes[k].new_end
    &&& forall|i: int, j: int|
        0 <= i && j == i + 1 && j < changes.len() ==> (#[trigger] changes[i]).old_end < (
        #[trigger] changes[j]).old_start
}

/// Changes that are not empty and have text between them make themselves as a patch.
pub proof fn lemma_patch_of(changes: Seq<Change>, k: int)
    requires
        changes_apart(changes),
        0 <= k <= changes.len(),
    ensures
        patch_of(changes, k) == changes.take(k),
    decreases k,
{
    if k > 0 {
        lemma_patch_of(changes, k - 1);
        let before = changes.take(k - 1);
        let change = changes[k - 1];
        assert(change.old_start < change.old_end || change.new_start < change.new_end);
        if k > 1 {
            assert(before.last() == changes[k - 2]);
            assert(changes[k - 2].old_end < changes[k - 1].old_start);
        }
        assert(patch_push(before, change) == before.push(change));
        assert(before.push(change) =~= changes.take(k));
    } else {
        assert(changes.take(0) =~= Seq::<Change>::empty());
    }
}

/// Where all is shown as it is, an edit of the text below is an edit of the displayed text.
proof fn lemma_same_patch(t: Task, k: int)
    requires
        task_wf(t),
        all_same(t.ps),
        t.rs.len() == 0,
        0 <= k <= t.changes.len(),
    ensures
        follow_edits(t.new, t.ps, t.rs, t.changes, k).patch == patch_of(t.changes, k),
    decreases k,
{
    if k > 0 {
        let run = follow_edits(t.new, t.ps, t.rs, t.changes, k - 1);
        let change = t.changes[k - 1];
        let carried = carry(t.ps, run, change.old_start);
        let filled = fill_gap(t.new, carried.built, change.new_start);
        let done = rebuild(t.new, t.ps, t.rs, run, change);
        lemma_same_patch(t, k - 1);
        lemma_edits_track(t, k - 1);
        lemma_carry_grows(t, k - 1, run);
        lemma_rebuild_grows(t, k - 1, run);
        assert(on_boundary(t.new, change.new_start));
        lemma_grow_gap(carried.built, t.new, change.new_start);
        lemma_reflects_upto(t.ps, t.old, carried.at, t.ps.len() as int);
        lemma_reflects_upto(t.ps, t.old, done.at, t.ps.len() as int);
        lemma_all_same(t.ps, t.old, carried.at);
        lemma_all_same(t.ps, t.old, done.at);
        lemma_all_same(filled, t.new, filled.len() as int);
        lemma_all_same(done.built, t.new, done.built.len() as int);
    }
}

/// Where nothing is concealed before or after, the text below is displayed, and edits of
/// it are edits of the displayed text: as they come, if none is empty and there is text
/// between any two of them, and else without the empty ones and with those that touch
/// joined.
pub proof fn law_plain_edits(map: MapView, fold: FoldView, changes: Seq<Change>)
    requires
        map_wf(map),
        fold_wf(fold),
        changes.len() > 0,
        follows(map, fold, changes),
        all_same(map.snapshot.pieces),
        synced_hidden(map, fold, changes).len() == 0,
    ensures
        map.snapshot.text() == map.snapshot.fold.text,
        synced(map, fold, changes).snapshot.text() == fold.text,
        synced_changes(map, fold, changes) == patch_of(changes, changes.len() as int),
        changes_apart(changes) ==> synced_changes(map, fold, changes) == changes,
{
    let t = task_of(map, fold, changes);
    let n = changes.len() as int;
    let ps = map.snapshot.pieces;
    let qs = synced(map, fold, changes).snapshot.pieces;
    let old = map.snapshot.fold.text;
    lemma_task(map, fold, changes);
    lemma_edits_reflect(t);
    lemma_same_patch(t, n);
    lemma_all_same(ps, old, ps.len() as int);
    lemma_all_same(qs, fold.text, qs.len() as int);
    assert(old.take(old.len() as int) =~= old);
    assert(fold.text.take(fold.text.len() as int) =~= fold.text);
    if changes_apart(changes) {
        lemma_patch_of(changes, n);
        assert(changes.take(n) =~= changes);
    }
}

/// Without marks, edits of the text below are edits of the displayed text: as they come, if
/// none is empty and there is text between any two of them, and else without the empty
/// ones and with those that touch joined.
pub proof fn law_passthrough_edits(map: MapView, fold: FoldView, changes: Seq<Change>)
    requires
        map_wf(map),
        fold_wf(fold),
        follows(map, fold, changes),
        map.snapshot.passthrough,
    ensures
        synced(map, fold, changes).snapshot.passthrough,
        synced_changes(map, fold, changes) == patch_of(changes, changes.len() as int),
        changes_apart(changes) ==> synced_changes(map, fold, changes) == changes,
{
    assert(synced_hidden(map, fold, changes).len() == 0);
    if changes.len() > 0 {
        law_plain_edits(map, fold, changes);
    } else {
        law_affected(map.places, map.was_revealed, map.revealed);
        if affected_of(map).len() > 0 {
            let i = lemma_affected_mark(map, 0);
        }
        assert(changes =~= Seq::<Change>::empty());
    }
}

} // verus!

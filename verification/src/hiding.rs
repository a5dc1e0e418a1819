//! What is hidden when edits, or marks that were revealed or concealed, have been followed.

use crate::coords::Bias;
use crate::display::{hidden_at, hides};
use crate::edits::{zone_kept, zone_shift, Change};
use crate::fold::{fold_wf, FoldView};
use crate::follow::{
    hidden_some, lemma_edit_grows, lemma_edits_track, lemma_finish_grows, lemma_no_progress,
    lemma_rebuild_grows, lemma_reveal_grows, lemma_reveals_track, moved, reveal_task, task_wf, Task,
};
use crate::grow::{clamp, is_part, some_hides};
use crate::laws::{lemma_task, task_of};
use crate::map::{affected_of, follows, map_wf, synced, unchanged, MapView};
use crate::resolve::{law_affected_mark, places, resolved, Hidden, Span};
use crate::sync::{
    carry, change_start, edit_step, end_of_piece, finish, follow_edits, follow_reveals, in_place,
    next_from, rebuild,
};
use crate::transform::{
    in_len, in_start, lemma_seek, lemma_starts_order, lies_before, pieces_measured, place_at,
    seek_from, Piece, Target,
};
use vstd::prelude::*;

verus! {

/// `q` is what lies of `r` between `start` and `end`, with the text of `r`.
pub open spec fn part_of(r: Hidden, start: int, end: int, q: Hidden) -> bool {
    &&& start < r.end
    &&& r.start < end
    &&& q.text == r.text
    &&& q.start == if r.start > start {
        r.start
    } else {
        start
    }
    &&& q.end == if r.end < end {
        r.end
    } else {
        end
    }
}

/// `q` is what lies between `start` and `end` of one of the ranges.
pub open spec fn part_of_some(rs: Seq<Hidden>, start: int, end: int, q: Hidden) -> bool {
    exists|i: int| 0 <= i < rs.len() && part_of(#[trigger] rs[i], start, end, q)
}

proof fn lemma_part_of(rs: Seq<Hidden>, start: int, end: int, q: Hidden)
    ensures
        is_part(rs, start, end, 0, q) <==> part_of_some(rs, start, end, q),
{
    if is_part(rs, start, end, 0, q) {
        let i = choose|i: int|
            0 <= i < rs.len() && (#[trigger] rs[i]).end > start && rs[i].start < end && q == clamp(
                rs[i],
                start,
                end,
            );
        assert(part_of(rs[i], start, end, q));
    }
    if part_of_some(rs, start, end, q) {
        let i = choose|i: int| 0 <= i < rs.len() && part_of(#[trigger] rs[i], start, end, q);
        assert(q == clamp(rs[i], start, end));
        assert(rs[i].end > start && rs[i].start < end);
    }
}

/// Just the replacements from piece `from` on start at `low` or behind it.
#[verifier::opaque]
spec fn splits(ps: Seq<Piece>, from: int, low: int) -> bool {
    forall|m: int|
        0 <= m < ps.len() && (#[trigger] ps[m]) is Swap ==> (m >= from <==> in_start(ps, m) >= low)
}

proof fn lemma_splits(ps: Seq<Piece>, from: int, low: int, m: int)
    requires
        splits(ps, from, low),
        0 <= m < ps.len(),
        ps[m] is Swap,
    ensures
        m >= from <==> in_start(ps, m) >= low,
{
    reveal(splits);
}

/// The old pieces up to a change hide what starts where they do or behind that and ends before
/// the change.
proof fn lemma_between(
    ps: Seq<Piece>,
    from: int,
    low: int,
    at: int,
    start: int,
    shift: int,
    q: Hidden,
)
    requires
        pieces_measured(ps),
        0 <= from <= ps.len(),
        splits(ps, from, low),
        ({
            let k = seek_from(ps, Target::FoldOffset(start), Bias::Left, from);
            at == k || (at == k + 1 && k < ps.len() && ps[k] is Same)
        }),
    ensures
        some_hides(ps, from, at, shift, q) <==> {
            &&& hides(ps, moved(q, -shift))
            &&& q.start - shift >= low
            &&& q.end - shift < start
        },
{
    let q0 = moved(q, -shift);
    let k = seek_from(ps, Target::FoldOffset(start), Bias::Left, from);
    lemma_seek(ps, Target::FoldOffset(start), Bias::Left, from);
    if some_hides(ps, from, at, shift, q) {
        let m = choose|m: int|
            from <= m < at && (#[trigger] ps[m]) is Swap && q == hidden_at(ps, m, shift);
        lemma_splits(ps, from, low, m);
        assert(m < k);
        assert(lies_before(place_at(ps, m + 1), Target::FoldOffset(start), Bias::Left));
        assert(q0 == hidden_at(ps, m, 0));
        assert(hides(ps, q0));
    }
    if hides(ps, q0) && q0.start >= low && q0.end < start {
        let m = choose|m: int|
            0 <= m < ps.len() && (#[trigger] ps[m]) is Swap && q0 == hidden_at(ps, m, 0);
        lemma_splits(ps, from, low, m);
        if k <= m {
            assert(!lies_before(
                place_at(ps, k + 1),
                Target::FoldOffset(start),
                Bias::Left,
            ));
            lemma_starts_order(ps, k + 1, m + 1);
        }
        assert(ps[m] is Swap && q == hidden_at(ps, m, shift));
    }
}

/// The old pieces that are left hide what starts where they do or behind that.
proof fn lemma_behind(ps: Seq<Piece>, from: int, low: int, shift: int, q: Hidden)
    requires
        0 <= from <= ps.len(),
        splits(ps, from, low),
    ensures
        some_hides(ps, from, ps.len() as int, shift, q) <==> hides(ps, moved(q, -shift))
            && q.start - shift >= low,
{
    let n = ps.len() as int;
    let q0 = moved(q, -shift);
    if some_hides(ps, from, n, shift, q) {
        let m = choose|m: int|
            from <= m < n && (#[trigger] ps[m]) is Swap && q == hidden_at(ps, m, shift);
        lemma_splits(ps, from, low, m);
        assert(q0 == hidden_at(ps, m, 0));
        assert(hides(ps, q0));
    }
    if hides(ps, q0) && q0.start >= low {
        let m = choose|m: int|
            0 <= m < n && (#[trigger] ps[m]) is Swap && q0 == hidden_at(ps, m, 0);
        lemma_splits(ps, from, low, m);
        assert(ps[m] is Swap && q == hidden_at(ps, m, shift));
    }
}

/// The piece with the byte behind `offset` ends at `end`; at the end of the text, that is
/// where the text ends.
#[verifier::opaque]
pub open spec fn piece_ends(ps: Seq<Piece>, offset: int, end: int) -> bool {
    let n = ps.len() as int;
    ||| exists|j: int|
        0 <= j < n && #[trigger] in_start(ps, j) <= offset < in_start(ps, j + 1) && end == in_start(
            ps,
            j + 1,
        )
    ||| offset == in_start(ps, n) && end == offset
}

/// Before edit `k`, and behind the piece in which the edit before it ended, `q` was hidden and
/// still is, moved with the text.
pub open spec fn still_hidden(
    ps: Seq<Piece>,
    changes: Seq<Change>,
    ends: Seq<int>,
    k: int,
    q: Hidden,
) -> bool {
    let shift = if k > 0 {
        changes[k - 1].new_end - changes[k - 1].old_end
    } else {
        0
    };
    &&& hides(ps, moved(q, -shift))
    &&& k > 0 ==> q.start - shift >= ends[k - 1]
    &&& k < changes.len() ==> q.end - shift < changes[k].old_start
}

/// `q` is what edit `k` hides: what lies within it of a range that is to be hidden, or what
/// lies between it and the end of the piece in which it ended, unless the next edit starts
/// there.
pub open spec fn newly_hidden(
    rs: Seq<Hidden>,
    changes: Seq<Change>,
    ends: Seq<int>,
    k: int,
    q: Hidden,
) -> bool {
    let c = changes[k];
    ||| part_of_some(rs, c.new_start, c.new_end, q)
    ||| {
        &&& ends[k] > c.old_end
        &&& k + 1 < changes.len() ==> changes[k + 1].old_start >= ends[k]
        &&& part_of_some(rs, c.new_end, c.new_end + (ends[k] - c.old_end), q)
    }
}

/// The first `k` edits have `q` hidden.
spec fn hidden_upto(t: Task, ends: Seq<int>, k: int, q: Hidden) -> bool
    decreases k,
{
    k > 0 && (hidden_upto(t, ends, k - 1, q) || still_hidden(t.ps, t.changes, ends, k - 1, q)
        || newly_hidden(t.rs, t.changes, ends, k - 1, q))
}

proof fn lemma_some_hidden(t: Task, ends: Seq<int>, k: int, q: Hidden)
    requires
        0 <= k,
    ensures
        hidden_upto(t, ends, k, q) <==> {
            ||| exists|i: int| 0 <= i < k && #[trigger] still_hidden(t.ps, t.changes, ends, i, q)
            ||| exists|i: int| 0 <= i < k && #[trigger] newly_hidden(t.rs, t.changes, ends, i, q)
        },
    decreases k,
{
    if k > 0 {
        lemma_some_hidden(t, ends, k - 1, q);
    }
}

/// Where the old pieces go on behind the first `k` edits.
spec fn low_of(ends: Seq<int>, k: int) -> int {
    if k > 0 {
        ends[k - 1]
    } else {
        0
    }
}

/// The old pieces from `at` on are those behind the first `k` edits, or the next edit starts in
/// piece `at`.
spec fn goes_on(t: Task, ends: Seq<int>, k: int, at: int) -> bool {
    ||| splits(t.ps, at, low_of(ends, k))
    ||| k < t.changes.len() && at < t.ps.len() && t.changes[k].old_start < low_of(ends, k)
        && in_start(t.ps, at + 1) > t.changes[k].old_start
}

/// The piece in which an edit ends, and where the old pieces go on behind it.
proof fn lemma_goes_on(t: Task, ends: Seq<int>, k: int)
    requires
        task_wf(t),
        hidden_some(t),
        0 <= k < t.changes.len(),
        ends.len() == t.changes.len(),
        piece_ends(t.ps, t.changes[k].old_end, ends[k]),
    ensures
        ({
            let run = follow_edits(t.new, t.ps, t.rs, t.changes, k);
            let done = rebuild(t.new, t.ps, t.rs, run, t.changes[k]);
            &&& end_of_piece(t.ps, done.at) == ends[k]
            &&& goes_on(
                t,
                ends,
                k + 1,
                follow_edits(t.new, t.ps, t.rs, t.changes, k + 1).at,
            )
        }),
{
    let ps = t.ps;
    let n = ps.len() as int;
    let x = t.changes[k].old_end;
    let run = follow_edits(t.new, ps, t.rs, t.changes, k);
    let done = rebuild(t.new, ps, t.rs, run, t.changes[k]);
    let next = follow_edits(t.new, ps, t.rs, t.changes, k + 1);
    lemma_edits_track(t, k);
    lemma_rebuild_grows(t, k, run);
    assert(zone_kept(t.old, t.new, t.changes, k + 1));
    let d = done.at;
    reveal(piece_ends);
    if exists|j: int|
        0 <= j < n && #[trigger] in_start(ps, j) <= x < in_start(ps, j + 1) && ends[k] == in_start(
            ps,
            j + 1,
        ) {
        let j = choose|j: int|
            0 <= j < n && #[trigger] in_start(ps, j) <= x < in_start(ps, j + 1) && ends[k]
                == in_start(ps, j + 1);
        lemma_starts_order(ps, j + 1, n);
        if d < j {
            lemma_starts_order(ps, d + 1, j);
        } else if j < d {
            lemma_starts_order(ps, j + 1, d);
        }
    } else if d < n {
        lemma_starts_order(ps, d + 1, n);
    }
    let from = if d < n {
        d + 1
    } else {
        d
    };
    assert forall|m: int| 0 <= m < n && (#[trigger] ps[m]) is Swap implies (m >= from <==> in_start(
        ps,
        m,
    ) >= ends[k]) by {
        assert(hides(ps, hidden_at(ps, m, 0)));
        if m >= from {
            lemma_starts_order(ps, from, m);
        } else {
            lemma_starts_order(ps, m + 1, from);
        }
    }
    assert(next == edit_step(
        t.new,
        ps,
        t.rs,
        run,
        t.changes[k],
        change_start(t.changes, k + 1),
    ));
    if next_from(change_start(t.changes, k + 1), ends[k]) {
        assert(next.at == from);
        assert(splits(ps, next.at, ends[k])) by {
            reveal(splits);
        }
    }
}

/// The old pieces that an edit takes over hide what is still hidden before it.
proof fn lemma_still_hidden(t: Task, ends: Seq<int>, k: int, q: Hidden)
    requires
        task_wf(t),
        hidden_some(t),
        0 <= k < t.changes.len(),
        goes_on(t, ends, k, follow_edits(t.new, t.ps, t.rs, t.changes, k).at),
    ensures
        ({
            let run = follow_edits(t.new, t.ps, t.rs, t.changes, k);
            let carried = carry(t.ps, run, t.changes[k].old_start);
            some_hides(t.ps, run.at, carried.at, zone_shift(t.changes, k), q) <==> still_hidden(
                t.ps,
                t.changes,
                ends,
                k,
                q,
            )
        }),
{
    let run = follow_edits(t.new, t.ps, t.rs, t.changes, k);
    let c = t.changes[k];
    let shift = zone_shift(t.changes, k);
    let carried = carry(t.ps, run, c.old_start);
    let q0 = moved(q, -shift);
    lemma_edits_track(t, k);
    if splits(t.ps, run.at, low_of(ends, k)) {
        lemma_between(t.ps, run.at, low_of(ends, k), carried.at, c.old_start, shift, q);
        if hides(t.ps, q0) {
            let m = choose|m: int|
                0 <= m < t.ps.len() && (#[trigger] t.ps[m]) is Swap && q0 == hidden_at(t.ps, m, 0);
            lemma_starts_order(t.ps, 0, m);
        }
    } else {
        assert(!lies_before(
            place_at(t.ps, run.at + 1),
            Target::FoldOffset(c.old_start),
            Bias::Left,
        ));
        assert(carried.at == run.at);
        if hides(t.ps, q0) {
            assert(q0.start < q0.end);
        }
    }
}

/// An edit hides what is still hidden before it and what it hides itself.
proof fn lemma_step_hides(t: Task, ends: Seq<int>, k: int, q: Hidden)
    requires
        task_wf(t),
        hidden_some(t),
        0 <= k < t.changes.len(),
        ends.len() == t.changes.len(),
        piece_ends(t.ps, t.changes[k].old_end, ends[k]),
        goes_on(t, ends, k, follow_edits(t.new, t.ps, t.rs, t.changes, k).at),
    ensures
        hides(follow_edits(t.new, t.ps, t.rs, t.changes, k + 1).built, q) <==> {
            ||| hides(follow_edits(t.new, t.ps, t.rs, t.changes, k).built, q)
            ||| still_hidden(t.ps, t.changes, ends, k, q)
            ||| newly_hidden(t.rs, t.changes, ends, k, q)
        },
{
    let run = follow_edits(t.new, t.ps, t.rs, t.changes, k);
    let c = t.changes[k];
    let next = follow_edits(t.new, t.ps, t.rs, t.changes, k + 1);
    let stop = c.new_end + (ends[k] - c.old_end);
    lemma_edits_track(t, k);
    lemma_goes_on(t, ends, k);
    lemma_still_hidden(t, ends, k, q);
    lemma_rebuild_grows(t, k, run);
    lemma_edit_grows(t, k, run);
    lemma_part_of(t.rs, c.new_start, c.new_end, q);
    lemma_part_of(t.rs, c.new_end, stop, q);
    assert(next == edit_step(
        t.new,
        t.ps,
        t.rs,
        run,
        c,
        change_start(t.changes, k + 1),
    ));
    if next_from(change_start(t.changes, k + 1), ends[k]) {
        assert(ends[k] > c.old_end ==> in_len(next.built) == stop);
        assert(ends[k] <= c.old_end ==> in_len(next.built) == c.new_end);
    } else {
        assert(in_len(next.built) == c.new_end);
    }
}

/// The first `k` edits have hidden just what they hide.
proof fn lemma_hidden_upto(t: Task, ends: Seq<int>, k: int, q: Hidden)
    requires
        task_wf(t),
        hidden_some(t),
        0 <= k <= t.changes.len(),
        ends.len() == t.changes.len(),
        forall|i: int|
            0 <= i < ends.len() ==> piece_ends(t.ps, t.changes[i].old_end, #[trigger] ends[i]),
    ensures
        hides(follow_edits(t.new, t.ps, t.rs, t.changes, k).built, q) <==> hidden_upto(
            t,
            ends,
            k,
            q,
        ),
        goes_on(t, ends, k, follow_edits(t.new, t.ps, t.rs, t.changes, k).at),
    decreases k,
{
    if k == 0 {
        lemma_no_progress(t);
        assert(splits(t.ps, 0, 0)) by {
            reveal(splits);
            assert forall|m: int| 0 <= m < t.ps.len() && (#[trigger] t.ps[m]) is Swap implies (m
                >= 0 <==> in_start(t.ps, m) >= 0) by {
                lemma_starts_order(t.ps, 0, m);
            }
        }
    } else {
        lemma_hidden_upto(t, ends, k - 1, q);
        assert(piece_ends(t.ps, t.changes[k - 1].old_end, ends[k - 1]));
        lemma_goes_on(t, ends, k - 1);
        lemma_step_hides(t, ends, k - 1, q);
    }
}

/// All edits and what is left behind them have hidden just what they hide.
proof fn lemma_all_hidden(t: Task, ends: Seq<int>, q: Hidden)
    requires
        task_wf(t),
        hidden_some(t),
        t.changes.len() > 0,
        ends.len() == t.changes.len(),
        forall|i: int|
            0 <= i < ends.len() ==> piece_ends(t.ps, t.changes[i].old_end, #[trigger] ends[i]),
    ensures
        ({
            let n = t.changes.len() as int;
            hides(finish(t.new, t.ps, follow_edits(t.new, t.ps, t.rs, t.changes, n)), q) <==> {
                ||| hidden_upto(t, ends, n, q)
                ||| still_hidden(t.ps, t.changes, ends, n, q)
            }
        }),
{
    let n = t.changes.len() as int;
    let run = follow_edits(t.new, t.ps, t.rs, t.changes, n);
    lemma_hidden_upto(t, ends, n, q);
    lemma_edits_track(t, n);
    lemma_finish_grows(t, run);
    lemma_behind(t.ps, run.at, ends[n - 1], zone_shift(t.changes, n), q);
}

/// When edits have been followed, just these ranges are hidden: what was hidden before an edit,
/// or behind the last, and lay behind the old piece in which the edit before it ended, moved
/// with the text; and what each edit hides of the ranges that are to be hidden now.
pub proof fn law_edits_hide(
    map: MapView,
    fold: FoldView,
    changes: Seq<Change>,
    ends: Seq<int>,
    q: Hidden,
)
    requires
        map_wf(map),
        fold_wf(fold),
        changes.len() > 0,
        follows(map, fold, changes),
        forall|p: Hidden| #[trigger] hides(map.snapshot.pieces, p) ==> p.start < p.end,
        ends.len() == changes.len(),
        forall|k: int|
            0 <= k < ends.len() ==> piece_ends(
                map.snapshot.pieces,
                changes[k].old_end,
                #[trigger] ends[k],
            ),
    ensures
        ({
            let ps = map.snapshot.pieces;
            let rs = resolved(map.marks, places(fold, map.marks), map.revealed);
            hides(synced(map, fold, changes).snapshot.pieces, q) <==> {
                ||| exists|k: int|
                    0 <= k <= changes.len() && #[trigger] still_hidden(ps, changes, ends, k, q)
                ||| exists|k: int|
                    0 <= k < changes.len() && #[trigger] newly_hidden(rs, changes, ends, k, q)
            }
        }),
{
    let t = task_of(map, fold, changes);
    lemma_task(map, fold, changes);
    assert(hidden_some(t));
    lemma_all_hidden(t, ends, q);
    lemma_some_hidden(t, ends, changes.len() as int, q);
}

/// `q` was hidden and lies before range `k` of those that were revealed or concealed, and not
/// before the end of the range before it.
pub open spec fn spared(ps: Seq<Piece>, spans: Seq<Span>, k: int, q: Hidden) -> bool {
    &&& hides(ps, q)
    &&& k > 0 ==> q.start >= spans[k - 1].end
    &&& k < spans.len() ==> q.end < spans[k].start
}

/// The first `k` ranges that were revealed or concealed have `q` hidden.
spec fn turned_upto(t: Task, spans: Seq<Span>, k: int, q: Hidden) -> bool
    decreases k,
{
    k > 0 && (turned_upto(t, spans, k - 1, q) || spared(t.ps, spans, k - 1, q) || part_of_some(
        t.rs,
        spans[k - 1].start,
        spans[k - 1].end,
        q,
    ))
}

proof fn lemma_some_turned(t: Task, spans: Seq<Span>, k: int, q: Hidden)
    requires
        0 <= k,
    ensures
        turned_upto(t, spans, k, q) <==> {
            ||| exists|i: int| 0 <= i < k && #[trigger] spared(t.ps, spans, i, q)
            ||| exists|i: int|
                0 <= i < k && part_of_some(
                    t.rs,
                    (#[trigger] spans[i]).start,
                    spans[i].end,
                    q,
                )
        },
    decreases k,
{
    if k > 0 {
        lemma_some_turned(t, spans, k - 1, q);
        let span = spans[k - 1];
        if part_of_some(t.rs, span.start, span.end, q) {
            assert(part_of_some(t.rs, spans[k - 1].start, spans[k - 1].end, q));
        }
    }
}

/// Where the first `k` ranges end.
spec fn last_end(spans: Seq<Span>, k: int) -> int {
    if k > 0 {
        spans[k - 1].end
    } else {
        0
    }
}

/// The replacements that are left behind a range that was revealed or concealed are those that
/// start where it ends or behind that.
proof fn lemma_turned_splits(t: Task, spans: Seq<Span>, k: int)
    requires
        reveal_task(t, spans),
        hidden_some(t),
        0 <= k <= spans.len(),
    ensures
        splits(
            t.ps,
            follow_reveals(t.new, t.ps, t.rs, spans, k).at,
            last_end(spans, k),
        ),
{
    let ps = t.ps;
    let n = ps.len() as int;
    let low = last_end(spans, k);
    let at = follow_reveals(t.new, ps, t.rs, spans, k).at;
    reveal(splits);
    if k > 0 {
        let run = follow_reveals(t.new, ps, t.rs, spans, k - 1);
        let done = rebuild(t.new, ps, t.rs, run, t.changes[k - 1]);
        let d = done.at;
        lemma_reveals_track(t, spans, k - 1);
        lemma_rebuild_grows(t, k - 1, run);
        assert(t.changes[k - 1] == in_place(spans[k - 1]));
        assert forall|m: int| 0 <= m < n && (#[trigger] ps[m]) is Swap implies (m >= at
            <==> in_start(ps, m) >= low) by {
            let q = hidden_at(ps, m, 0);
            assert(hides(ps, q));
            assert(!(q.start < spans[k - 1].end < q.end));
            if m < d {
                lemma_starts_order(ps, m + 1, d);
            } else if d < m {
                lemma_starts_order(ps, d + 1, m);
            }
        }
    } else {
        assert forall|m: int| 0 <= m < n && (#[trigger] ps[m]) is Swap implies (m >= at
            <==> in_start(ps, m) >= low) by {
            lemma_starts_order(ps, 0, m);
        }
    }
}

/// The first `k` ranges that were revealed or concealed have hidden just what they hide.
proof fn lemma_turned_upto(t: Task, spans: Seq<Span>, k: int, q: Hidden)
    requires
        reveal_task(t, spans),
        hidden_some(t),
        0 <= k <= spans.len(),
    ensures
        hides(follow_reveals(t.new, t.ps, t.rs, spans, k).built, q) <==> turned_upto(
            t,
            spans,
            k,
            q,
        ),
    decreases k,
{
    if k == 0 {
        lemma_no_progress(t);
    } else {
        let j = k - 1;
        let span = spans[j];
        let run = follow_reveals(t.new, t.ps, t.rs, spans, j);
        let next = follow_reveals(t.new, t.ps, t.rs, spans, k);
        let carried = carry(t.ps, run, span.start);
        let done = rebuild(t.new, t.ps, t.rs, run, t.changes[j]);
        lemma_turned_upto(t, spans, j, q);
        lemma_turned_splits(t, spans, j);
        lemma_reveals_track(t, spans, j);
        assert(t.changes[j] == in_place(span));
        assert(j > 0 ==> t.changes[j - 1] == in_place(spans[j - 1]));
        lemma_rebuild_grows(t, j, run);
        lemma_reveal_grows(t, spans, j, run);
        assert(hides(next.built, q) <==> hides(done.built, q));
        lemma_between(t.ps, run.at, last_end(spans, j), carried.at, span.start, 0, q);
        lemma_part_of(t.rs, span.start, span.end, q);
        assert(moved(q, 0) == q);
        if j == 0 && hides(t.ps, q) {
            let m = choose|m: int|
                0 <= m < t.ps.len() && (#[trigger] t.ps[m]) is Swap && q == hidden_at(t.ps, m, 0);
            lemma_starts_order(t.ps, 0, m);
        }
    }
}

/// All ranges that were revealed or concealed, and what is left behind them, have hidden just
/// what they hide.
proof fn lemma_all_turned(t: Task, spans: Seq<Span>, q: Hidden)
    requires
        reveal_task(t, spans),
        hidden_some(t),
        spans.len() > 0,
    ensures
        ({
            let n = spans.len() as int;
            hides(finish(t.new, t.ps, follow_reveals(t.new, t.ps, t.rs, spans, n)), q) <==> {
                ||| turned_upto(t, spans, n, q)
                ||| spared(t.ps, spans, n, q)
            }
        }),
{
    let n = spans.len() as int;
    let run = follow_reveals(t.new, t.ps, t.rs, spans, n);
    lemma_turned_upto(t, spans, n, q);
    lemma_turned_splits(t, spans, n);
    lemma_reveals_track(t, spans, n);
    lemma_finish_grows(t, run);
    assert(t.changes[n - 1] == in_place(spans[n - 1]));
    lemma_behind(t.ps, run.at, last_end(spans, n), 0, q);
    assert(moved(q, 0) == q);
}

/// When ranges that were revealed or concealed have been followed, just these ranges are
/// hidden: what was hidden and lies before, between or behind them, and what lies within each
/// of them of the ranges that are to be hidden now.
pub proof fn law_reveals_hide(map: MapView, fold: FoldView, q: Hidden)
    requires
        map_wf(map),
        fold_wf(fold),
        follows(map, fold, Seq::empty()),
        affected_of(map).len() > 0,
        forall|p: Hidden| #[trigger] hides(map.snapshot.pieces, p) ==> p.start < p.end,
    ensures
        ({
            let ps = map.snapshot.pieces;
            let rs = map.hidden();
            let spans = affected_of(map);
            hides(synced(map, fold, Seq::empty()).snapshot.pieces, q) <==> {
                ||| exists|k: int| 0 <= k <= spans.len() && #[trigger] spared(ps, spans, k, q)
                ||| exists|k: int|
                    0 <= k < spans.len() && part_of_some(
                        rs,
                        (#[trigger] spans[k]).start,
                        spans[k].end,
                        q,
                    )
            }
        }),
{
    let none = Seq::<Change>::empty();
    let t = task_of(map, fold, none);
    let spans = affected_of(map);
    let i = law_affected_mark(map.places, map.was_revealed, map.revealed, 0);
    assert(!unchanged(map, fold, none));
    lemma_task(map, fold, none);
    assert(hidden_some(t));
    lemma_all_turned(t, spans, q);
    lemma_some_turned(t, spans, spans.len() as int, q);
}

} // verus!

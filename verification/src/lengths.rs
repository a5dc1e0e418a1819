//! How much longer the displayed text is where ranges of the text below are laid out.

use crate::coords::Bias;
use crate::edits::{zone_kept, Change};
use crate::fold::{fold_wf, FoldView};
use crate::follow::{lemma_no_progress, lemma_rebuild_grows, task_wf, Task};
use crate::laws::{lemma_task, task_of};
use crate::layout::{
    add_hidden, add_hiddens, add_region, fill_gap, fill_region, first_behind, lemma_first_behind,
    swap_piece,
};
use crate::map::{follows, map_wf, synced_changes, MapView};
use crate::resolve::{hiddens_wf, places, resolved, Hidden};
use crate::sync::{carry, count_on, follow_edits, no_progress, piece_behind, rebuild};
use crate::text::{lemma_summary_wf, summary_of};
use crate::transform::{
    in_len, in_start, lemma_prefix, lemma_push, lemma_push_same, lemma_seek, lemma_starts_order,
    lies_before, out_len, out_start, place_at, seek_from, Piece, Target,
};
use vstd::prelude::*;

verus! {

/// How many bytes the replacements of what lies between two bounds of the hidden ranges from
/// `k` on have more than what they replace.
pub open spec fn growth(rs: Seq<Hidden>, start: int, end: int, k: int) -> int
    decreases rs.len() - k,
{
    if k >= rs.len() {
        0
    } else {
        let from = if rs[k].start > start {
            rs[k].start
        } else {
            start
        };
        let to = if rs[k].end < end {
            rs[k].end
        } else {
            end
        };
        growth(rs, start, end, k + 1) + if rs[k].end > start && rs[k].start < end {
            rs[k].text.len() - (to - from)
        } else {
            0
        }
    }
}

/// Ranges outside of the bounds do not count.
proof fn lemma_no_growth(rs: Seq<Hidden>, start: int, end: int, k: int)
    requires
        0 <= k <= rs.len(),
        forall|i: int| k <= i < rs.len() ==> (#[trigger] rs[i]).start >= end,
    ensures
        growth(rs, start, end, k) == 0,
    decreases rs.len() - k,
{
    if k < rs.len() {
        lemma_no_growth(rs, start, end, k + 1);
        assert(rs[k].start >= end);
    }
}

proof fn lemma_growth_behind(rs: Seq<Hidden>, start: int, end: int, k: int, first: int)
    requires
        0 <= k <= first <= rs.len(),
        forall|i: int| k <= i < first ==> (#[trigger] rs[i]).end <= start,
    ensures
        growth(rs, start, end, k) == growth(rs, start, end, first),
    decreases first - k,
{
    if k < first {
        assert(rs[k].end <= start);
        lemma_growth_behind(rs, start, end, k + 1, first);
    }
}

/// Text that is shown as it is counts alike in both spaces.
proof fn lemma_gap_lengths(text: Seq<u8>, ps: Seq<Piece>, target: int)
    requires
        0 <= in_len(ps),
        target <= text.len(),
    ensures
        in_len(fill_gap(text, ps, target)) == if target > in_len(ps) {
            target
        } else {
            in_len(ps)
        },
        out_len(fill_gap(text, ps, target)) - in_len(fill_gap(text, ps, target)) == out_len(ps)
            - in_len(ps),
{
    if target > in_len(ps) {
        let summary = text.subrange(in_len(ps), target);
        lemma_summary_wf(summary);
        lemma_push_same(ps, summary_of(summary));
    }
}

proof fn lemma_hiddens_lengths(
    text: Seq<u8>,
    ps: Seq<Piece>,
    rs: Seq<Hidden>,
    start: int,
    end: int,
    k: int,
)
    requires
        hiddens_wf(rs, text.len() as int),
        0 <= k <= rs.len(),
        k < rs.len() ==> rs[k].end > start,
        0 <= start <= in_len(ps),
        start <= end <= text.len(),
        in_len(ps) <= end,
        k < rs.len() ==> in_len(ps) <= rs[k].start || in_len(ps) == start,
    ensures
        ({
            let qs = add_hiddens(text, ps, rs, start, end, k);
            &&& in_len(ps) <= in_len(qs) <= end
            &&& out_len(qs) - in_len(qs) == out_len(ps) - in_len(ps) + growth(rs, start, end, k)
        }),
    decreases rs.len() - k,
{
    if k < rs.len() {
        let r = rs[k];
        if r.start >= end {
            assert forall|i: int| k <= i < rs.len() implies (#[trigger] rs[i]).start >= end by {
                if k < i {
                    assert(rs[k].end <= rs[i].start);
                }
            }
            lemma_no_growth(rs, start, end, k);
        } else {
            let from = if r.start > start {
                r.start
            } else {
                start
            };
            let to = if r.end < end {
                r.end
            } else {
                end
            };
            let filled = fill_gap(text, ps, from);
            let piece = swap_piece(text, from, to, r.text);
            lemma_gap_lengths(text, ps, from);
            lemma_push(filled, piece);
            lemma_summary_wf(text.subrange(from, to));
            lemma_summary_wf(r.text);
            let qs = add_hidden(text, ps, r, start, end);
            assert(in_len(filled) == from);
            assert(in_len(qs) == to);
            if k + 1 < rs.len() {
                assert(rs[k].end <= rs[k + 1].start < rs[k + 1].end);
            }
            lemma_hiddens_lengths(text, qs, rs, start, end, k + 1);
        }
    }
}

/// What is laid out between two offsets is longer by what replacements are longer than what
/// they replace.
proof fn lemma_region_lengths(text: Seq<u8>, ps: Seq<Piece>, rs: Seq<Hidden>, start: int, end: int)
    requires
        hiddens_wf(rs, text.len() as int),
        0 <= start == in_len(ps),
        start <= end <= text.len(),
    ensures
        out_len(fill_region(text, ps, rs, start, end)) == out_len(ps) + (end - start) + growth(
            rs,
            start,
            end,
            0,
        ),
{
    let first = first_behind(rs, start, 0);
    lemma_first_behind(rs, start, 0);
    lemma_growth_behind(rs, start, end, 0, first);
    lemma_hiddens_lengths(text, ps, rs, start, end, first);
    lemma_gap_lengths(text, add_region(text, ps, rs, start, end), end);
}

/// The old pieces that the first change takes over count as they did.
proof fn lemma_carry_lengths(t: Task, i: int, start: int)
    requires
        task_wf(t),
        0 <= i < t.ps.len(),
        start <= in_start(t.ps, i + 1),
        i > 0 ==> in_start(t.ps, i) < start,
        0 <= start,
    ensures
        ({
            let carried = carry(t.ps, no_progress(), start);
            &&& 0 <= carried.at <= t.ps.len()
            &&& out_len(carried.built) == out_start(t.ps, carried.at)
            &&& in_len(carried.built) == in_start(t.ps, carried.at)
            &&& in_len(carried.built) <= start
            &&& count_on(t.ps, carried.at, start) == out_start(t.ps, i) + (start - in_start(
                t.ps,
                i,
            ))
        }),
{
    let ps = t.ps;
    let none = no_progress();
    let k = seek_from(ps, Target::FoldOffset(start), Bias::Left, 0);
    let copied = none.built + ps.subrange(0, k);
    lemma_seek(ps, Target::FoldOffset(start), Bias::Left, 0);
    if k < i {
        assert(!lies_before(place_at(ps, k + 1), Target::FoldOffset(start), Bias::Left));
        lemma_starts_order(ps, k + 1, i);
    } else if i < k {
        assert(lies_before(place_at(ps, i + 1), Target::FoldOffset(start), Bias::Left));
    }
    assert(k == i);
    lemma_prefix(ps, copied, k);
    lemma_starts_order(ps, 0, k);
    lemma_starts_order(ps, k, k + 1);
    if ps[k] is Same {
        lemma_push_same(copied, ps[k]->Same_0);
    }
}

/// One edit of the text below comes out as one edit of the displayed text, or as none if it
/// changes nothing there. It starts as far behind the start of a piece as the edit below: the
/// first piece that does not end before that edit. It ends as far behind the start of the
/// piece behind the edit below. And it becomes as long as the new text with
/// what is to be hidden in it replaced.
pub proof fn law_one_patch(map: MapView, fold: FoldView, change: Change, i: int, j: int)
    requires
        map_wf(map),
        fold_wf(fold),
        follows(map, fold, seq![change]),
        ({
            let ps = map.snapshot.pieces;
            let n = ps.len() as int;
            &&& 0 <= i < n
            &&& i > 0 ==> in_start(ps, i) < change.old_start
            &&& change.old_start <= in_start(ps, i + 1)
            &&& 0 <= j <= n
            &&& in_start(ps, j) <= change.old_end
            &&& j < n ==> change.old_end < in_start(ps, j + 1)
        }),
    ensures
        ({
            let ps = map.snapshot.pieces;
            let rs = resolved(map.marks, places(fold, map.marks), map.revealed);
            let from = out_start(ps, i) + (change.old_start - in_start(ps, i));
            let to = out_start(ps, j) + (change.old_end - in_start(ps, j));
            let more = growth(rs, change.new_start, change.new_end, 0);
            let edit = Change {
                old_start: from,
                old_end: to,
                new_start: from,
                new_end: from + (change.new_end - change.new_start) + more,
            };
            synced_changes(map, fold, seq![change]) == if from == to && edit.new_end == from {
                Seq::<Change>::empty()
            } else {
                seq![edit]
            }
        }),
{
    let changes = seq![change];
    let t = task_of(map, fold, changes);
    let ps = t.ps;
    let n = ps.len() as int;
    let run = no_progress();
    let carried = carry(ps, run, change.old_start);
    let filled = fill_gap(t.new, carried.built, change.new_start);
    lemma_task(map, fold, changes);
    lemma_no_progress(t);
    lemma_rebuild_grows(t, 0, run);
    assert(zone_kept(t.old, t.new, changes, 0));
    assert(zone_kept(t.old, t.new, changes, 1));
    assert(change == changes[0]);
    lemma_carry_lengths(t, i, change.old_start);
    lemma_starts_order(ps, 0, carried.at);
    lemma_gap_lengths(t.new, carried.built, change.new_start);
    lemma_region_lengths(t.new, filled, t.rs, change.new_start, change.new_end);
    let d = piece_behind(ps, change.old_end);
    if d < j {
        lemma_starts_order(ps, d + 1, j);
    } else if j < d {
        lemma_starts_order(ps, j + 1, d);
    }
    assert(d == j);
    reveal_with_fuel(follow_edits, 2);
    assert(follow_edits(t.new, ps, t.rs, changes, 1).patch == rebuild(
        t.new,
        ps,
        t.rs,
        run,
        change,
    ).patch);
}

} // verus!

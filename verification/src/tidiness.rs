//! Pieces stay tidy: none behind the first shows an empty stretch of text.

use crate::edits::zone_kept;
use crate::follow::{
    lemma_edits_track, lemma_rebuild_grows, lemma_reveals_track, on_track, reveal_task, task_wf,
    Task,
};
use crate::layout::{
    add_hidden, add_hiddens, add_region, cover, end_before, fill_gap, fill_region, first_behind,
    lay_out, lemma_add_hidden, lemma_fill_gap, lemma_fill_region, lemma_first_behind, lemma_lay_out,
};
use crate::resolve::{hiddens_wf, Hidden, Span};
use crate::sync::{
    carry, change_start, end_of_piece, finish, follow_edits, follow_reveals, in_place, lemma_carry,
    next_from, rebuild, Progress,
};
use crate::text::{lemma_summary_wf, summary_of, summary_wf, Summary};
use crate::transform::{
    in_len, in_start, lemma_starts_order, pieces_measured, push_same, seek_from, tidy, Piece,
    Target,
};
use crate::coords::Bias;
use vstd::prelude::*;

verus! {

proof fn lemma_push_same_tidy(ps: Seq<Piece>, summary: Summary)
    requires
        tidy(ps),
        pieces_measured(ps),
        summary.len > 0 || ps.len() == 0,
    ensures
        tidy(push_same(ps, summary)),
{
    let qs = push_same(ps, summary);
    assert forall|k: int| 0 < k < qs.len() && (#[trigger] qs[k]) is Same implies qs[k].input().len
        > 0 by {
        if k < ps.len() {
            assert(summary_wf(ps[k].input()));
        }
    }
}

proof fn lemma_fill_gap_tidy(text: Seq<u8>, ps: Seq<Piece>, target: int)
    requires
        tidy(ps),
        pieces_measured(ps),
        target <= text.len(),
    ensures
        tidy(fill_gap(text, ps, target)),
{
    if target > in_len(ps) {
        lemma_starts_order(ps, 0, ps.len() as int);
        let part = text.subrange(in_len(ps), target);
        lemma_summary_wf(part);
        lemma_push_same_tidy(ps, summary_of(part));
    }
}

proof fn lemma_add_hiddens_tidy(
    text: Seq<u8>,
    ps: Seq<Piece>,
    rs: Seq<Hidden>,
    start: int,
    end: int,
    k: int,
)
    requires
        tidy(ps),
        pieces_measured(ps),
        hiddens_wf(rs, text.len() as int),
        0 <= start <= end <= text.len(),
        0 <= k <= rs.len(),
        k < rs.len() ==> rs[k].end > start,
    ensures
        tidy(add_hiddens(text, ps, rs, start, end, k)),
    decreases rs.len() - k,
{
    if k < rs.len() && rs[k].start < end {
        let from = if rs[k].start > start {
            rs[k].start
        } else {
            start
        };
        lemma_fill_gap_tidy(text, ps, from);
        lemma_add_hidden(text, ps, rs[k], start, end);
        let next = add_hidden(text, ps, rs[k], start, end);
        assert(tidy(next));
        if k + 1 < rs.len() {
            assert(rs[k].end <= rs[k + 1].start);
        }
        lemma_add_hiddens_tidy(text, next, rs, start, end, k + 1);
    }
}

proof fn lemma_fill_region_tidy(
    text: Seq<u8>,
    ps: Seq<Piece>,
    rs: Seq<Hidden>,
    start: int,
    end: int,
)
    requires
        tidy(ps),
        pieces_measured(ps),
        hiddens_wf(rs, text.len() as int),
        0 <= start <= end <= text.len(),
    ensures
        tidy(fill_region(text, ps, rs, start, end)),
{
    lemma_first_behind(rs, start, 0);
    lemma_add_hiddens_tidy(text, ps, rs, start, end, first_behind(rs, start, 0));
    lemma_fill_region(text, ps, rs, start, end);
    lemma_fill_gap_tidy(text, add_region(text, ps, rs, start, end), end);
}

proof fn lemma_lay_out_tidy(text: Seq<u8>, rs: Seq<Hidden>, k: int)
    requires
        hiddens_wf(rs, text.len() as int),
        0 <= k <= rs.len(),
    ensures
        tidy(lay_out(text, Seq::empty(), rs, k)),
        pieces_measured(lay_out(text, Seq::empty(), rs, k)),
    decreases k,
{
    lemma_lay_out(text, Seq::empty(), rs, k, k);
    if k > 0 {
        lemma_lay_out_tidy(text, rs, k - 1);
        let before = lay_out(text, Seq::empty(), rs, k - 1);
        let from = end_before(rs, k - 1);
        if k > 1 {
            assert(rs[k - 2].end <= text.len());
        }
        if rs[k - 1].start > from {
            let part = text.subrange(from, rs[k - 1].start);
            lemma_summary_wf(part);
            lemma_push_same_tidy(before, summary_of(part));
        }
    }
}

/// A text is laid out tidily.
pub proof fn lemma_cover_tidy(text: Seq<u8>, rs: Seq<Hidden>)
    requires
        hiddens_wf(rs, text.len() as int),
    ensures
        tidy(cover(text, Seq::empty(), rs)),
{
    let n = rs.len() as int;
    let all = lay_out(text, Seq::empty(), rs, n);
    let from = end_before(rs, n);
    lemma_lay_out_tidy(text, rs, n);
    if n > 0 {
        assert(rs[n - 1].end <= text.len());
    }
    if from < text.len() {
        let part = text.subrange(from, text.len() as int);
        lemma_summary_wf(part);
        lemma_push_same_tidy(all, summary_of(part));
    }
}

/// Pieces taken over leave a list tidy if they were, unless an empty one came first.
proof fn lemma_append_tidy(base: Seq<Piece>, ps: Seq<Piece>, i: int, j: int)
    requires
        tidy(base),
        tidy(ps),
        0 <= i <= j <= ps.len(),
        i > 0 || base.len() == 0 || i == j || ps[0].input().len > 0,
    ensures
        tidy(base + ps.subrange(i, j)),
{
    let qs = base + ps.subrange(i, j);
    assert forall|k: int| 0 < k < qs.len() && (#[trigger] qs[k]) is Same implies qs[k].input().len
        > 0 by {
        if k >= base.len() {
            assert(qs[k] == ps[i + (k - base.len())]);
        } else {
            assert(qs[k] == base[k]);
        }
    }
}

/// What is built is tidy, and if the first old piece is not dealt with though
/// something is built, it is not empty.
spec fn tidy_run(ps: Seq<Piece>, run: Progress) -> bool {
    &&& tidy(run.built)
    &&& run.at == 0 && run.built.len() > 0 ==> ps.len() == 0 || ps[0].input().len > 0
}

proof fn lemma_rebuild_tidy(t: Task, k: int, run: Progress)
    requires
        task_wf(t),
        tidy(t.ps),
        0 <= k < t.changes.len(),
        on_track(t, k, run),
        tidy_run(t.ps, run),
    ensures
        tidy_run(t.ps, rebuild(t.new, t.ps, t.rs, run, t.changes[k])),
        pieces_measured(rebuild(t.new, t.ps, t.rs, run, t.changes[k]).built),
{
    let change = t.changes[k];
    let m = seek_from(t.ps, Target::FoldOffset(change.old_start), Bias::Left, run.at);
    let copied = run.built + t.ps.subrange(run.at, m);
    let carried = carry(t.ps, run, change.old_start);
    let filled = fill_gap(t.new, carried.built, change.new_start);
    let done = rebuild(t.new, t.ps, t.rs, run, change);
    assert(zone_kept(t.old, t.new, t.changes, k));
    assert(zone_kept(t.old, t.new, t.changes, k + 1));
    lemma_carry(t.ps, run, change.old_start);
    lemma_append_tidy(run.built, t.ps, run.at, m);
    if m < t.ps.len() && t.ps[m] is Same && in_start(t.ps, m + 1) == change.old_start {
        if m == 0 {
            assert(copied =~= run.built);
        }
        lemma_push_same_tidy(copied, t.ps[m]->Same_0);
    }
    lemma_fill_gap_tidy(t.new, carried.built, change.new_start);
    lemma_fill_gap(t.new, carried.built, change.new_start);
    lemma_fill_region_tidy(t.new, filled, t.rs, change.new_start, change.new_end);
    lemma_fill_region(t.new, filled, t.rs, change.new_start, change.new_end);
    lemma_rebuild_grows(t, k, run);
}

proof fn lemma_edits_tidy(t: Task, k: int)
    requires
        task_wf(t),
        tidy(t.ps),
        0 <= k <= t.changes.len(),
    ensures
        tidy_run(t.ps, follow_edits(t.new, t.ps, t.rs, t.changes, k)),
    decreases k,
{
    if k > 0 {
        let run = follow_edits(t.new, t.ps, t.rs, t.changes, k - 1);
        let change = t.changes[k - 1];
        let done = rebuild(t.new, t.ps, t.rs, run, change);
        lemma_edits_tidy(t, k - 1);
        lemma_edits_track(t, k - 1);
        lemma_rebuild_tidy(t, k - 1, run);
        lemma_rebuild_grows(t, k - 1, run);
        assert(zone_kept(t.old, t.new, t.changes, k));
        let end = end_of_piece(t.ps, done.at);
        let stop = change.new_end + (end - change.old_end);
        if next_from(change_start(t.changes, k), end) && stop > in_len(done.built) {
            lemma_fill_region_tidy(t.new, done.built, t.rs, in_len(done.built), stop);
        }
    }
}

proof fn lemma_reveals_tidy(t: Task, spans: Seq<Span>, k: int)
    requires
        reveal_task(t, spans),
        tidy(t.ps),
        0 <= k <= t.changes.len(),
    ensures
        tidy_run(t.ps, follow_reveals(t.new, t.ps, t.rs, spans, k)),
    decreases k,
{
    if k > 0 {
        let run = follow_reveals(t.new, t.ps, t.rs, spans, k - 1);
        let done = rebuild(t.new, t.ps, t.rs, run, t.changes[k - 1]);
        assert(t.changes[k - 1] == in_place(spans[k - 1]));
        lemma_reveals_tidy(t, spans, k - 1);
        lemma_reveals_track(t, spans, k - 1);
        lemma_rebuild_tidy(t, k - 1, run);
        lemma_rebuild_grows(t, k - 1, run);
        lemma_fill_gap_tidy(t.new, done.built, end_of_piece(t.ps, done.at));
    }
}

proof fn lemma_finish_tidy(t: Task, run: Progress)
    requires
        task_wf(t),
        tidy(t.ps),
        on_track(t, t.changes.len() as int, run),
        tidy_run(t.ps, run),
    ensures
        tidy(finish(t.new, t.ps, run)),
{
    let n = t.ps.len() as int;
    assert(t.ps.skip(run.at) =~= t.ps.subrange(run.at, n));
    lemma_append_tidy(run.built, t.ps, run.at, n);
}

/// Pieces stay tidy when they follow edits.
pub proof fn lemma_follow_edits_tidy(t: Task)
    requires
        task_wf(t),
        tidy(t.ps),
    ensures
        tidy(
            finish(
                t.new,
                t.ps,
                follow_edits(t.new, t.ps, t.rs, t.changes, t.changes.len() as int),
            ),
        ),
{
    let n = t.changes.len() as int;
    lemma_edits_tidy(t, n);
    lemma_edits_track(t, n);
    lemma_finish_tidy(t, follow_edits(t.new, t.ps, t.rs, t.changes, n));
}

/// Pieces stay tidy when they follow reveals.
pub proof fn lemma_follow_reveals_tidy(t: Task, spans: Seq<Span>)
    requires
        reveal_task(t, spans),
        tidy(t.ps),
    ensures
        tidy(
            finish(
                t.new,
                t.ps,
                follow_reveals(t.new, t.ps, t.rs, spans, spans.len() as int),
            ),
        ),
{
    let n = t.changes.len() as int;
    lemma_reveals_tidy(t, spans, n);
    lemma_reveals_track(t, spans, n);
    lemma_finish_tidy(t, follow_reveals(t.new, t.ps, t.rs, spans, n));
}

} // verus!

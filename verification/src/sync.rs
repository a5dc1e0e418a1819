//! How pieces follow edits of the text below and changes of what is revealed.

use crate::coords::{Bias, ConcealOffset, FoldOffset};
use crate::cursor::{SeekTarget, TransformCursor};
use crate::edits::{
    conceal_changes, fold_changes, patch_push, Change, ConcealEdit, Edit, FoldEdit, Patch,
};
use crate::fold::{fold_wf, FoldSnapshot};
use crate::layout::{
    build_region_filled, extends, fill_gap, fill_isomorphic_gap, fill_region, lemma_fill_gap,
    lemma_fill_region,
};
use crate::resolve::{hiddens_of, hiddens_wf, span_of, spans_of, Hidden, Span};
use crate::text::{lemma_summary_wf, summary_of};
use crate::transform::{
    in_len, in_start, lemma_append, lemma_output_wf, lemma_push_same, lemma_seek,
    lemma_starts_order, out_len, out_start, pieces_measured, pieces_wf, push_isomorphic, push_same,
    seek_from, Piece, Target, Transform, Transforms,
};
use std::ops::Range;
use vstd::prelude::*;

verus! {

/// How far a list of pieces has been followed: the pieces built, the first old
/// piece that is not dealt with, and what changed in the displayed text.
pub struct Progress {
    pub built: Seq<Piece>,
    pub at: int,
    pub patch: Seq<Change>,
}

/// Nothing followed yet.
pub open spec fn no_progress() -> Progress {
    Progress { built: Seq::empty(), at: 0, patch: Seq::empty() }
}

/// Old pieces are taken over as far as they end before `start`, and a piece that
/// shows the text below is taken over too if it ends at `start`.
pub open spec fn carry(ps: Seq<Piece>, run: Progress, start: int) -> Progress {
    let k = seek_from(ps, Target::FoldOffset(start), Bias::Left, run.at);
    let copied = run.built + ps.subrange(run.at, k);
    if k < ps.len() && ps[k] is Same && in_start(ps, k + 1) == start {
        Progress { built: push_same(copied, ps[k]->Same_0), at: k + 1, patch: run.patch }
    } else {
        Progress { built: copied, at: k, patch: run.patch }
    }
}

/// Where `offset` lies in conceal space, counted on from the start of piece `k`.
pub open spec fn count_on(ps: Seq<Piece>, k: int, offset: int) -> int {
    out_start(ps, k) + (offset - in_start(ps, k))
}

/// The piece that covers the byte behind `offset`.
pub open spec fn piece_behind(ps: Seq<Piece>, offset: int) -> int {
    seek_from(ps, Target::FoldOffset(offset), Bias::Right, 0)
}

/// Where piece `k` ends in fold space; past the last piece, where the text ends.
pub open spec fn end_of_piece(ps: Seq<Piece>, k: int) -> int {
    if k < ps.len() {
        in_start(ps, k + 1)
    } else {
        in_start(ps, k)
    }
}

/// The changed range is laid out anew.
pub open spec fn rebuild(
    text: Seq<u8>,
    ps: Seq<Piece>,
    rs: Seq<Hidden>,
    run: Progress,
    change: Change,
) -> Progress {
    let carried = carry(ps, run, change.old_start);
    let k = piece_behind(ps, change.old_end);
    let filled = fill_gap(text, carried.built, change.new_start);
    let region = fill_region(text, filled, rs, change.new_start, change.new_end);
    Progress {
        built: region,
        at: k,
        patch: patch_push(
            run.patch,
            Change {
                old_start: count_on(ps, carried.at, change.old_start),
                old_end: count_on(ps, k, change.old_end),
                new_start: out_len(filled),
                new_end: out_len(region),
            },
        ),
    }
}

/// The next change starts no earlier than `end`, if there is one.
pub open spec fn next_from(next: Option<int>, end: int) -> bool {
    next matches Some(start) ==> start >= end
}

/// An edit of the text below is followed; the rest of the old piece in which it
/// ends is laid out anew, unless the next edit starts in that piece.
pub open spec fn edit_step(
    text: Seq<u8>,
    ps: Seq<Piece>,
    rs: Seq<Hidden>,
    run: Progress,
    change: Change,
    next: Option<int>,
) -> Progress {
    let done = rebuild(text, ps, rs, run, change);
    let end = end_of_piece(ps, done.at);
    if next_from(next, end) {
        let stop = change.new_end + (end - change.old_end);
        Progress {
            built: if stop > in_len(done.built) {
                fill_region(text, done.built, rs, in_len(done.built), stop)
            } else {
                done.built
            },
            at: if done.at < ps.len() {
                done.at + 1
            } else {
                done.at
            },
            patch: done.patch,
        }
    } else {
        done
    }
}

/// A range stays where it is.
pub open spec fn in_place(span: Span) -> Change {
    Change { old_start: span.start, old_end: span.end, new_start: span.start, new_end: span.end }
}

/// A range that was revealed or concealed is followed; the rest of the old piece in which it
/// ends is shown as it is if it was before, unless the next range starts in that piece.
pub open spec fn reveal_step(
    text: Seq<u8>,
    ps: Seq<Piece>,
    rs: Seq<Hidden>,
    run: Progress,
    span: Span,
    next: Option<int>,
) -> Progress {
    let done = rebuild(text, ps, rs, run, in_place(span));
    let end = end_of_piece(ps, done.at);
    if done.at < ps.len() && ps[done.at] is Same && in_start(ps, done.at) < end && next_from(
        next,
        end,
    ) {
        Progress { built: fill_gap(text, done.built, end), at: done.at + 1, patch: done.patch }
    } else {
        done
    }
}

/// Where change `k` starts in the old text, if there is one.
pub open spec fn change_start(changes: Seq<Change>, k: int) -> Option<int> {
    if k < changes.len() {
        Some(changes[k].old_start)
    } else {
        None
    }
}

/// Where range `k` starts, if there is one.
pub open spec fn span_start_at(spans: Seq<Span>, k: int) -> Option<int> {
    if k < spans.len() {
        Some(spans[k].start)
    } else {
        None
    }
}

/// The first `k` edits are followed.
pub open spec fn follow_edits(
    text: Seq<u8>,
    ps: Seq<Piece>,
    rs: Seq<Hidden>,
    changes: Seq<Change>,
    k: int,
) -> Progress
    decreases k,
{
    if k <= 0 {
        no_progress()
    } else {
        let run = follow_edits(text, ps, rs, changes, k - 1);
        edit_step(text, ps, rs, run, changes[k - 1], change_start(changes, k))
    }
}

/// The first `k` ranges that were revealed or concealed are followed.
pub open spec fn follow_reveals(
    text: Seq<u8>,
    ps: Seq<Piece>,
    rs: Seq<Hidden>,
    spans: Seq<Span>,
    k: int,
) -> Progress
    decreases k,
{
    if k <= 0 {
        no_progress()
    } else {
        let run = follow_reveals(text, ps, rs, spans, k - 1);
        reveal_step(text, ps, rs, run, spans[k - 1], span_start_at(spans, k))
    }
}

/// The old pieces that are left are taken over.
pub open spec fn finish(text: Seq<u8>, ps: Seq<Piece>, run: Progress) -> Seq<Piece> {
    let all = run.built + ps.skip(run.at);
    if all.len() == 0 {
        push_same(all, summary_of(text))
    } else {
        all
    }
}

/// The edits are in the order of the old text and stay within it, and what is
/// laid out for them stays within the new text.
pub open spec fn edits_fit(len: int, ps: Seq<Piece>, changes: Seq<Change>) -> bool {
    forall|k: int| 0 <= k < changes.len() ==> #[trigger] edit_fits(len, ps, changes, k)
}

/// Edit `k` does.
pub open spec fn edit_fits(len: int, ps: Seq<Piece>, changes: Seq<Change>, k: int) -> bool {
    let change = changes[k];
    let end = end_of_piece(ps, piece_behind(ps, change.old_end));
    &&& 0 <= change.old_start <= change.old_end <= in_len(ps)
    &&& 0 <= change.new_start <= change.new_end <= len
    &&& k + 1 < changes.len() ==> change.old_end <= changes[k + 1].old_start
    &&& next_from(change_start(changes, k + 1), end) ==> change.new_end + (end - change.old_end)
        <= len
}

/// The ranges stay within the text, and following one does not pass the start of the next.
pub open spec fn reveals_fit(
    text: Seq<u8>,
    ps: Seq<Piece>,
    rs: Seq<Hidden>,
    spans: Seq<Span>,
) -> bool {
    &&& in_len(ps) == text.len()
    &&& forall|k: int|
        0 <= k < spans.len() ==> #[trigger] reveal_fits(text, ps, rs, spans, k)
}

/// Range `k` does.
pub open spec fn reveal_fits(
    text: Seq<u8>,
    ps: Seq<Piece>,
    rs: Seq<Hidden>,
    spans: Seq<Span>,
    k: int,
) -> bool {
    &&& 0 <= spans[k].start <= spans[k].end <= text.len()
    &&& in_start(ps, follow_reveals(text, ps, rs, spans, k).at) <= spans[k].start
}

/// The piece behind an offset starts no later than the offset and ends behind it.
pub proof fn lemma_piece_behind(ps: Seq<Piece>, offset: int)
    requires
        pieces_measured(ps),
        0 <= offset <= in_len(ps),
    ensures
        0 <= piece_behind(ps, offset) <= ps.len(),
        in_start(ps, piece_behind(ps, offset)) <= offset,
        offset <= end_of_piece(ps, piece_behind(ps, offset)) <= in_len(ps),
        piece_behind(ps, offset) < ps.len() ==> offset < end_of_piece(
            ps,
            piece_behind(ps, offset),
        ),
        piece_behind(ps, offset) == ps.len() ==> offset == in_len(ps),
{
    let k = piece_behind(ps, offset);
    lemma_seek(ps, Target::FoldOffset(offset), Bias::Right, 0);
    if k < ps.len() {
        lemma_starts_order(ps, k + 1, ps.len() as int);
    }
}

/// Taking over pieces measures more, up to `start`.
pub proof fn lemma_carry(ps: Seq<Piece>, run: Progress, start: int)
    requires
        pieces_measured(ps),
        pieces_measured(run.built),
        0 <= run.at <= ps.len(),
        in_start(ps, run.at) <= start,
    ensures
        ({
            let k = seek_from(ps, Target::FoldOffset(start), Bias::Left, run.at);
            let copied = run.built + ps.subrange(run.at, k);
            let carried = carry(ps, run, start);
            &&& run.at <= k <= carried.at <= ps.len()
            &&& in_start(ps, k) <= start
            &&& in_start(ps, carried.at) <= start
            &&& extends(copied, run.built)
            &&& extends(carried.built, copied)
            &&& in_len(carried.built) == in_len(run.built) + (in_start(ps, carried.at) - in_start(
                ps,
                run.at,
            ))
        }),
{
    let k = seek_from(ps, Target::FoldOffset(start), Bias::Left, run.at);
    lemma_seek(ps, Target::FoldOffset(start), Bias::Left, run.at);
    lemma_append(run.built, ps, run.at, k);
    lemma_starts_order(ps, run.at, k);
    let copied = run.built + ps.subrange(run.at, k);
    if k < ps.len() && ps[k] is Same && in_start(ps, k + 1) == start {
        lemma_output_wf(ps, k);
        lemma_push_same(copied, ps[k]->Same_0);
    }
}

/// Laying out a changed range measures more.
pub proof fn lemma_rebuild(
    text: Seq<u8>,
    ps: Seq<Piece>,
    rs: Seq<Hidden>,
    run: Progress,
    change: Change,
)
    requires
        pieces_measured(ps),
        pieces_measured(run.built),
        hiddens_wf(rs, text.len() as int),
        0 <= run.at <= ps.len(),
        in_start(ps, run.at) <= change.old_start,
        0 <= change.new_start <= change.new_end <= text.len(),
    ensures
        ({
            let carried = carry(ps, run, change.old_start);
            let filled = fill_gap(text, carried.built, change.new_start);
            let done = rebuild(text, ps, rs, run, change);
            &&& extends(carried.built, run.built)
            &&& extends(filled, carried.built)
            &&& extends(done.built, filled)
            &&& pieces_measured(done.built)
        }),
{
    lemma_carry(ps, run, change.old_start);
    let carried = carry(ps, run, change.old_start);
    lemma_fill_gap(text, carried.built, change.new_start);
    let filled = fill_gap(text, carried.built, change.new_start);
    lemma_fill_region(text, filled, rs, change.new_start, change.new_end);
}

/// Following an edit measures more and does not pass the next one.
pub proof fn lemma_edit_step(
    text: Seq<u8>,
    ps: Seq<Piece>,
    rs: Seq<Hidden>,
    run: Progress,
    changes: Seq<Change>,
    k: int,
)
    requires
        pieces_measured(ps),
        pieces_measured(run.built),
        hiddens_wf(rs, text.len() as int),
        0 <= run.at <= ps.len(),
        0 <= k < changes.len(),
        edits_fit(text.len() as int, ps, changes),
        in_start(ps, run.at) <= changes[k].old_start,
    ensures
        ({
            let done = rebuild(text, ps, rs, run, changes[k]);
            let next = edit_step(text, ps, rs, run, changes[k], change_start(changes, k + 1));
            &&& extends(done.built, run.built)
            &&& extends(next.built, done.built)
            &&& pieces_measured(next.built)
            &&& 0 <= next.at <= ps.len()
            &&& k + 1 < changes.len() ==> in_start(ps, next.at) <= changes[k + 1].old_start
        }),
{
    let change = changes[k];
    assert(edit_fits(text.len() as int, ps, changes, k));
    lemma_rebuild(text, ps, rs, run, change);
    lemma_piece_behind(ps, change.old_end);
    let done = rebuild(text, ps, rs, run, change);
    let end = end_of_piece(ps, done.at);
    let stop = change.new_end + (end - change.old_end);
    if next_from(change_start(changes, k + 1), end) && stop > in_len(done.built) {
        lemma_starts_order(done.built, 0, done.built.len() as int);
        lemma_fill_region(text, done.built, rs, in_len(done.built), stop);
    }
}

/// Following more edits measures more.
pub proof fn lemma_follow_edits(
    text: Seq<u8>,
    ps: Seq<Piece>,
    rs: Seq<Hidden>,
    changes: Seq<Change>,
    j: int,
    k: int,
)
    requires
        pieces_measured(ps),
        hiddens_wf(rs, text.len() as int),
        edits_fit(text.len() as int, ps, changes),
        0 <= j <= k <= changes.len(),
    ensures
        ({
            let run = follow_edits(text, ps, rs, changes, k);
            &&& pieces_measured(run.built)
            &&& extends(run.built, follow_edits(text, ps, rs, changes, j).built)
            &&& 0 <= run.at <= ps.len()
            &&& k < changes.len() ==> in_start(ps, run.at) <= changes[k].old_start
        }),
    decreases k,
{
    if k > 0 {
        let run = follow_edits(text, ps, rs, changes, k - 1);
        lemma_follow_edits(text, ps, rs, changes, if j < k { j } else { k - 1 }, k - 1);
        lemma_edit_step(text, ps, rs, run, changes, k - 1);
    } else if changes.len() > 0 {
        assert(edit_fits(text.len() as int, ps, changes, 0));
    }
}

/// Following a range that was revealed or concealed measures more.
pub proof fn lemma_reveal_step(
    text: Seq<u8>,
    ps: Seq<Piece>,
    rs: Seq<Hidden>,
    run: Progress,
    spans: Seq<Span>,
    k: int,
)
    requires
        pieces_measured(ps),
        pieces_measured(run.built),
        hiddens_wf(rs, text.len() as int),
        0 <= run.at <= ps.len(),
        0 <= k < spans.len(),
        reveals_fit(text, ps, rs, spans),
        in_start(ps, run.at) <= spans[k].start,
    ensures
        ({
            let done = rebuild(text, ps, rs, run, in_place(spans[k]));
            let next = reveal_step(text, ps, rs, run, spans[k], span_start_at(spans, k + 1));
            &&& extends(done.built, run.built)
            &&& extends(next.built, done.built)
            &&& pieces_measured(next.built)
            &&& 0 <= next.at <= ps.len()
        }),
{
    let span = spans[k];
    assert(reveal_fits(text, ps, rs, spans, k));
    lemma_rebuild(text, ps, rs, run, in_place(span));
    lemma_piece_behind(ps, span.end);
    let done = rebuild(text, ps, rs, run, in_place(span));
    lemma_fill_gap(text, done.built, end_of_piece(ps, done.at));
}

/// Following more ranges measures more.
pub proof fn lemma_follow_reveals(
    text: Seq<u8>,
    ps: Seq<Piece>,
    rs: Seq<Hidden>,
    spans: Seq<Span>,
    j: int,
    k: int,
)
    requires
        pieces_measured(ps),
        hiddens_wf(rs, text.len() as int),
        reveals_fit(text, ps, rs, spans),
        0 <= j <= k <= spans.len(),
    ensures
        ({
            let run = follow_reveals(text, ps, rs, spans, k);
            &&& pieces_measured(run.built)
            &&& extends(run.built, follow_reveals(text, ps, rs, spans, j).built)
            &&& 0 <= run.at <= ps.len()
        }),
    decreases k,
{
    if k > 0 {
        let run = follow_reveals(text, ps, rs, spans, k - 1);
        lemma_follow_reveals(text, ps, rs, spans, if j < k { j } else { k - 1 }, k - 1);
        assert(reveal_fits(text, ps, rs, spans, k - 1));
        lemma_reveal_step(text, ps, rs, run, spans, k - 1);
    }
}

/// Taking over what is left measures more.
pub proof fn lemma_finish(text: Seq<u8>, ps: Seq<Piece>, run: Progress)
    requires
        pieces_measured(ps),
        pieces_measured(run.built),
        0 <= run.at <= ps.len(),
    ensures
        extends(run.built + ps.skip(run.at), run.built),
        extends(finish(text, ps, run), run.built + ps.skip(run.at)),
        pieces_measured(finish(text, ps, run)),
{
    let n = ps.len() as int;
    assert(ps.skip(run.at) =~= ps.subrange(run.at, n));
    lemma_append(run.built, ps, run.at, n);
    lemma_starts_order(ps, run.at, n);
    lemma_summary_wf(text);
    lemma_push_same(run.built + ps.skip(run.at), summary_of(text));
}

/// Lays out a changed range: `old` in the pieces that `cursor` walks over, `new`
/// in the text below.
fn rebuild_range<'a>(
    fold_snapshot: &FoldSnapshot,
    cursor: &mut TransformCursor<'a>,
    built: &mut Transforms,
    patch: &mut Patch,
    resolved: &Vec<(Range<FoldOffset>, String)>,
    edit: &FoldEdit,
)
    requires
        fold_wf(fold_snapshot@),
        old(cursor).inv(),
        old(built).inv(),
        hiddens_wf(hiddens_of(resolved@), fold_snapshot@.text.len() as int),
        in_start(old(cursor).pieces(), old(cursor).at()) <= edit@.old_start,
        edit@.old_end <= in_len(old(cursor).pieces()),
        edit@.new_start <= edit@.new_end <= fold_snapshot@.text.len(),
        edit@.old_start <= edit@.old_end,
        pieces_wf(
            rebuild(
                fold_snapshot@.text,
                old(cursor).pieces(),
                hiddens_of(resolved@),
                (Progress { built: old(built)@, at: old(cursor).at(), patch: old(patch)@ }),
                edit@,
            ).built,
        ),
    ensures
        final(cursor).inv(),
        final(cursor).pieces() == old(cursor).pieces(),
        final(built).inv(),
        (Progress { built: final(built)@, at: final(cursor).at(), patch: final(patch)@ })
            == rebuild(
            fold_snapshot@.text,
            old(cursor).pieces(),
            hiddens_of(resolved@),
            (Progress { built: old(built)@, at: old(cursor).at(), patch: old(patch)@ }),
            edit@,
        ),
{
    let ghost text = fold_snapshot@.text;
    let ghost ps = cursor.pieces();
    let ghost rs = hiddens_of(resolved@);
    let ghost run = Progress { built: built@, at: cursor.at(), patch: patch@ };
    let ghost carried = carry(ps, run, edit@.old_start);
    let start = edit.old.start;
    proof {
        cursor.lemma_inv();
        built.lemma_inv();
        lemma_carry(ps, run, edit@.old_start);
        lemma_rebuild(text, ps, rs, run, edit@);
    }
    cursor.slice(SeekTarget::FoldOffset(start), Bias::Left, built);
    if let Some(Transform::Isomorphic(summary)) = cursor.item() {
        if cursor.end().fold_offset.0.0 == start.0.0 {
            proof {
                lemma_output_wf(ps, cursor.at());
            }
            push_isomorphic(built, *summary);
            cursor.next();
        }
    }
    assert(built@ == carried.built);
    assert(cursor.at() == carried.at);
    proof {
        lemma_starts_order(ps, carried.at, ps.len() as int);
        lemma_piece_behind(ps, edit@.old_end);
        lemma_starts_order(ps, piece_behind(ps, edit@.old_end), ps.len() as int);
    }
    let from = cursor.start();
    let old_start = ConcealOffset::at(
        from.conceal_offset.0.0 + (start.0.0 - from.fold_offset.0.0),
    );
    cursor.seek(SeekTarget::FoldOffset(edit.old.end), Bias::Right);
    let to = cursor.start();
    let old_end = ConcealOffset::at(
        to.conceal_offset.0.0 + (edit.old.end.0.0 - to.fold_offset.0.0),
    );
    fill_isomorphic_gap(fold_snapshot, built, edit.new.start);
    let new_start = built.output_len();
    build_region_filled(fold_snapshot, built, resolved, edit.new.start, edit.new.end);
    let new_end = built.output_len();
    patch.push(Edit { old: old_start..old_end, new: new_start..new_end });
}

/// Follows edits of the text below.
pub fn sync_edits(
    fold_snapshot: &FoldSnapshot,
    transforms: &Transforms,
    resolved: &Vec<(Range<FoldOffset>, String)>,
    fold_edits: &Vec<FoldEdit>,
) -> (synced: (Transforms, Vec<ConcealEdit>))
    requires
        fold_wf(fold_snapshot@),
        transforms.inv(),
        hiddens_wf(hiddens_of(resolved@), fold_snapshot@.text.len() as int),
        edits_fit(
            fold_snapshot@.text.len() as int,
            transforms@,
            fold_changes(fold_edits@),
        ),
        pieces_wf(
            finish(
                fold_snapshot@.text,
                transforms@,
                follow_edits(
                    fold_snapshot@.text,
                    transforms@,
                    hiddens_of(resolved@),
                    fold_changes(fold_edits@),
                    fold_edits@.len() as int,
                ),
            ),
        ),
    ensures
        synced.0.inv(),
        synced.0@ == finish(
            fold_snapshot@.text,
            transforms@,
            follow_edits(
                fold_snapshot@.text,
                transforms@,
                hiddens_of(resolved@),
                fold_changes(fold_edits@),
                fold_edits@.len() as int,
            ),
        ),
        conceal_changes(synced.1@) == follow_edits(
            fold_snapshot@.text,
            transforms@,
            hiddens_of(resolved@),
            fold_changes(fold_edits@),
            fold_edits@.len() as int,
        ).patch,
{
    let ghost text = fold_snapshot@.text;
    let ghost ps = transforms@;
    let ghost rs = hiddens_of(resolved@);
    let ghost changes = fold_changes(fold_edits@);
    let ghost n = changes.len() as int;
    let ghost last = follow_edits(text, ps, rs, changes, n);
    let mut patch = Patch::new();
    let mut built = Transforms::new();
    let mut cursor = TransformCursor::new(transforms);
    proof {
        transforms.lemma_inv();
        lemma_follow_edits(text, ps, rs, changes, n, n);
        lemma_finish(text, ps, last);
    }
    let mut i: usize = 0;
    while i < fold_edits.len()
        invariant
            fold_wf(fold_snapshot@),
            text == fold_snapshot@.text,
            rs == hiddens_of(resolved@),
            hiddens_wf(rs, text.len() as int),
            changes == fold_changes(fold_edits@),
            n == changes.len(),
            edits_fit(text.len() as int, ps, changes),
            pieces_wf(ps),
            last == follow_edits(text, ps, rs, changes, n),
            pieces_wf(last.built),
            cursor.inv(),
            cursor.pieces() == ps,
            built.inv(),
            i <= n,
            (Progress { built: built@, at: cursor.at(), patch: patch@ }) == follow_edits(
                text,
                ps,
                rs,
                changes,
                i as int,
            ),
        decreases fold_edits@.len() - i,
    {
        let edit = &fold_edits[i];
        let ghost run = follow_edits(text, ps, rs, changes, i as int);
        let ghost done = rebuild(text, ps, rs, run, changes[i as int]);
        proof {
            assert(changes[i as int] == edit@);
            assert(edit_fits(text.len() as int, ps, changes, i as int));
            lemma_follow_edits(text, ps, rs, changes, i as int, i as int);
            lemma_edit_step(text, ps, rs, run, changes, i as int);
            lemma_follow_edits(text, ps, rs, changes, i + 1, n);
            lemma_piece_behind(ps, edit@.old_end);
        }
        rebuild_range(fold_snapshot, &mut cursor, &mut built, &mut patch, resolved, edit);
        let end = cursor.end().fold_offset;
        let last_of_piece = i + 1 >= fold_edits.len() || fold_edits[i + 1].old.start.0.0 >= end.0.0;
        assert(i + 1 < n ==> changes[i + 1] == fold_edits@[i + 1]@);
        if last_of_piece {
            let from = built.input_len();
            let to = FoldOffset::at(edit.new.end.0.0 + (end.0.0 - edit.old.end.0.0));
            if to.0.0 > from.0.0 {
                build_region_filled(fold_snapshot, &mut built, resolved, from, to);
            }
            cursor.next();
        }
        i = i + 1;
    }
    cursor.suffix(&mut built);
    if built.is_empty() {
        push_isomorphic(&mut built, fold_snapshot.text_summary());
    }
    (built, patch.into_inner())
}

/// Follows changes of what is revealed, in the ranges `affected`.
pub fn sync_reveals(
    fold_snapshot: &FoldSnapshot,
    transforms: &Transforms,
    resolved: &Vec<(Range<FoldOffset>, String)>,
    affected: &Vec<Range<FoldOffset>>,
) -> (synced: (Transforms, Vec<ConcealEdit>))
    requires
        fold_wf(fold_snapshot@),
        transforms.inv(),
        hiddens_wf(hiddens_of(resolved@), fold_snapshot@.text.len() as int),
        reveals_fit(
            fold_snapshot@.text,
            transforms@,
            hiddens_of(resolved@),
            spans_of(affected@),
        ),
        pieces_wf(
            finish(
                fold_snapshot@.text,
                transforms@,
                follow_reveals(
                    fold_snapshot@.text,
                    transforms@,
                    hiddens_of(resolved@),
                    spans_of(affected@),
                    affected@.len() as int,
                ),
            ),
        ),
    ensures
        synced.0.inv(),
        synced.0@ == finish(
            fold_snapshot@.text,
            transforms@,
            follow_reveals(
                fold_snapshot@.text,
                transforms@,
                hiddens_of(resolved@),
                spans_of(affected@),
                affected@.len() as int,
            ),
        ),
        conceal_changes(synced.1@) == follow_reveals(
            fold_snapshot@.text,
            transforms@,
            hiddens_of(resolved@),
            spans_of(affected@),
            affected@.len() as int,
        ).patch,
{
    let ghost text = fold_snapshot@.text;
    let ghost ps = transforms@;
    let ghost rs = hiddens_of(resolved@);
    let ghost spans = spans_of(affected@);
    let ghost n = spans.len() as int;
    let ghost last = follow_reveals(text, ps, rs, spans, n);
    let mut patch = Patch::new();
    let mut built = Transforms::new();
    let mut cursor = TransformCursor::new(transforms);
    proof {
        transforms.lemma_inv();
        lemma_follow_reveals(text, ps, rs, spans, n, n);
        lemma_finish(text, ps, last);
    }
    let mut i: usize = 0;
    while i < affected.len()
        invariant
            fold_wf(fold_snapshot@),
            text == fold_snapshot@.text,
            rs == hiddens_of(resolved@),
            hiddens_wf(rs, text.len() as int),
            spans == spans_of(affected@),
            n == spans.len(),
            reveals_fit(text, ps, rs, spans),
            pieces_wf(ps),
            last == follow_reveals(text, ps, rs, spans, n),
            pieces_wf(last.built),
            cursor.inv(),
            cursor.pieces() == ps,
            built.inv(),
            i <= n,
            (Progress { built: built@, at: cursor.at(), patch: patch@ }) == follow_reveals(
                text,
                ps,
                rs,
                spans,
                i as int,
            ),
        decreases affected@.len() - i,
    {
        let range = &affected[i];
        let edit = Edit { old: range.start..range.end, new: range.start..range.end };
        let ghost run = follow_reveals(text, ps, rs, spans, i as int);
        proof {
            assert(spans[i as int] == span_of(affected@[i as int]));
            assert(edit@ == in_place(spans[i as int]));
            assert(reveal_fits(text, ps, rs, spans, i as int));
            lemma_follow_reveals(text, ps, rs, spans, i as int, i as int);
            lemma_reveal_step(text, ps, rs, run, spans, i as int);
            lemma_follow_reveals(text, ps, rs, spans, i + 1, n);
            lemma_piece_behind(ps, edit@.old_end);
        }
        rebuild_range(fold_snapshot, &mut cursor, &mut built, &mut patch, resolved, &edit);
        assert(i + 1 < n ==> spans[i + 1] == span_of(affected@[i + 1]));
        if let Some(Transform::Isomorphic(_)) = cursor.item() {
            let end = cursor.end().fold_offset;
            if cursor.start().fold_offset.0.0 < end.0.0 && (i + 1 >= affected.len()
                || affected[i + 1].start.0.0 >= end.0.0) {
                fill_isomorphic_gap(fold_snapshot, &mut built, end);
                cursor.next();
            }
        }
        i = i + 1;
    }
    cursor.suffix(&mut built);
    if built.is_empty() {
        push_isomorphic(&mut built, fold_snapshot.text_summary());
    }
    (built, patch.into_inner())
}

} // verus!

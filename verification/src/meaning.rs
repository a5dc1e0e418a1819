//! What operations do, said of their inputs and results alone.

use crate::animation::steps_in;
use crate::coords::{ConcealOffset, ConcealPoint, FoldOffset, FoldPoint, MBTextSummary, Point};
use crate::display::{concealed, lemma_shown, replaced};
use crate::edits::{conceal_changes, fold_changes, patch_push, Change, ConcealEdit, FoldEdit};
use crate::fold::{fold_wf, Chunk, FoldSnapshot, FoldView};
use crate::laws::law_set_conceals;
use crate::map::{
    lemma_nothing_affected, map_wf, synced, synced_changes, whole_edit, with_marks, MapView,
};
use crate::resolve::{
    anchored, candidates, hidden_start, keep_first, marks_of, places, sort_by, Concealment, Hidden,
    Mark, Span,
};
use crate::text::{lemma_offset_at, pos_at, summary_of};
use crate::transform::pieces_wf;
use vstd::prelude::*;
use vstd::utf8::encode_utf8;

verus! {

/// A rotation advances thirty times a second, once at least, and no more often than can be
/// counted.
pub proof fn law_rotation(duration: int)
    requires
        0 <= duration,
    ensures
        duration == 0 ==> steps_in(duration) == 1,
        0 < duration && 30 * duration <= u64::MAX ==> steps_in(duration) == 30 * duration,
        30 * duration > u64::MAX ==> steps_in(duration) == u64::MAX,
{
}

/// Points and offsets are seen as the numbers that they hold.
pub proof fn law_coordinates(
    point: Point,
    above: ConcealPoint,
    below: FoldPoint,
    shown: ConcealOffset,
    hidden: FoldOffset,
)
    ensures
        point@.row == point.row,
        point@.column == point.column,
        above@.row == above.0.row,
        above@.column == above.0.column,
        below@.row == below.0.row,
        below@.column == below.0.column,
        shown@ == shown.0.0,
        hidden@ == hidden.0.0,
{
}

/// A summary is seen as the numbers that it holds.
pub proof fn law_summary_fields(summary: MBTextSummary)
    ensures
        summary@.len == summary.len.0,
        summary@.chars == summary.chars,
        summary@.len_utf16 == summary.len_utf16,
        summary@.lines.row == summary.lines.row,
        summary@.lines.column == summary.lines.column,
        summary@.first_line_chars == summary.first_line_chars,
        summary@.last_line_chars == summary.last_line_chars,
        summary@.last_line_len_utf16 == summary.last_line_len_utf16,
        summary@.longest_row == summary.longest_row,
        summary@.longest_row_chars == summary.longest_row_chars,
{
}

/// A chunk is seen as its text and as all that it says of how it is drawn.
pub proof fn law_chunk_fields(chunk: Chunk<'_>)
    requires
        encode_utf8(chunk.text@).len() <= usize::MAX,
    ensures
        chunk@.text == encode_utf8(chunk.text@),
        chunk@.run.len == encode_utf8(chunk.text@).len(),
        chunk@.run.tabs == chunk.tabs,
        chunk@.run.chars == chunk.chars,
        chunk@.run.newlines == chunk.newlines,
        chunk@.run.syntax_highlight_id == chunk.syntax_highlight_id,
        chunk@.run.highlight_style == chunk.highlight_style,
        chunk@.run.diagnostic_severity == chunk.diagnostic_severity,
        chunk@.run.is_unnecessary == chunk.is_unnecessary,
        chunk@.run.is_tab == chunk.is_tab,
        chunk@.run.is_inlay == chunk.is_inlay,
        chunk@.run.underline == chunk.underline,
        chunk@.run.renderer == chunk.renderer,
{
}

/// The layer below is seen as the bytes of its text and all that it says of them.
pub proof fn law_fold_fields(fold: FoldSnapshot)
    ensures
        fold@.text == encode_utf8(fold.text@),
        fold@.version == fold.version,
        fold@.runs == fold.styling.runs@,
        fold@.rows == fold.rows@,
        fold@.stops == fold.stops@,
        fold@.anchors == fold.anchors@,
{
}

/// Edits are seen as the offsets that they hold, one by one.
pub proof fn law_edit_fields(above: Seq<ConcealEdit>, below: Seq<FoldEdit>)
    ensures
        conceal_changes(above).len() == above.len(),
        forall|i: int|
            0 <= i < above.len() ==> {
                let change = #[trigger] conceal_changes(above)[i];
                &&& change.old_start == above[i].old.start.0.0
                &&& change.old_end == above[i].old.end.0.0
                &&& change.new_start == above[i].new.start.0.0
                &&& change.new_end == above[i].new.end.0.0
            },
        fold_changes(below).len() == below.len(),
        forall|i: int|
            0 <= i < below.len() ==> {
                let change = #[trigger] fold_changes(below)[i];
                &&& change.old_start == below[i].old.start.0.0
                &&& change.old_end == below[i].old.end.0.0
                &&& change.new_start == below[i].new.start.0.0
                &&& change.new_end == below[i].new.end.0.0
            },
{
}

/// Concealments are seen as the numbers of their anchors and the bytes of their text, one
/// by one.
pub proof fn law_mark_fields(concealments: Seq<Concealment>)
    ensures
        marks_of(concealments).len() == concealments.len(),
        forall|i: int|
            0 <= i < concealments.len() ==> {
                let mark = #[trigger] marks_of(concealments)[i];
                &&& mark.start == concealments[i].0.start.0
                &&& mark.end == concealments[i].0.end.0
                &&& mark.text == encode_utf8(concealments[i].1@)
            },
{
}

/// The anchors of `mark` stand at offsets `start` and `end`, the first leaning to the right
/// and the second to the left.
pub open spec fn stands_at(fold: FoldView, mark: Mark, start: int, end: int) -> bool {
    &&& 0 <= start <= fold.text.len()
    &&& 0 <= end <= fold.text.len()
    &&& fold.anchors[mark.start].right@ == pos_at(fold.text, start)
    &&& fold.anchors[mark.end].left@ == pos_at(fold.text, end)
}

/// A mark lies between its anchors, however far they are apart; one whose anchors have
/// nothing between them lies nowhere.
pub proof fn law_places(fold: FoldView, marks: Seq<Mark>, i: int, start: int, end: int)
    requires
        0 <= i < marks.len(),
        stands_at(fold, marks[i], start, end),
    ensures
        places(fold, marks).len() == marks.len(),
        start < end ==> places(fold, marks)[i] == Some(Span { start, end }),
        start >= end ==> places(fold, marks)[i] is None,
{
    lemma_offset_at(fold.text, start);
    lemma_offset_at(fold.text, end);
}

/// A single mark has its text displayed in the stead of what lies between its anchors, unless
/// it is revealed.
pub proof fn law_set_one(map: MapView, mark: Mark, start: int, end: int)
    requires
        fold_wf(map.snapshot.fold),
        anchored(seq![mark], map.snapshot.fold),
        stands_at(map.snapshot.fold, mark, start, end),
        pieces_wf(with_marks(map, seq![mark]).snapshot.pieces),
    ensures
        ({
            let text = map.snapshot.fold.text;
            let displayed = with_marks(map, seq![mark]).snapshot.text();
            &&& start < end && !map.revealed.contains(0usize) ==> displayed == text.take(start)
                + mark.text + text.skip(end)
            &&& start >= end || map.revealed.contains(0usize) ==> displayed == text
        }),
{
    let marks = seq![mark];
    let text = map.snapshot.fold.text;
    let after = with_marks(map, marks);
    let spans = places(map.snapshot.fold, marks);
    let rs = after.hidden();
    law_places(map.snapshot.fold, marks, 0, start, end);
    law_set_conceals(map, marks);
    reveal_with_fuel(candidates, 2);
    let list = candidates(marks, spans, map.revealed, 1);
    if start < end && !map.revealed.contains(0usize) {
        let q = Hidden { start, end, text: mark.text };
        assert(list =~= seq![q]);
        lemma_one(q);
        assert(text.subrange(0, start) =~= text.take(start));
        assert(text.subrange(end, text.len() as int) =~= text.skip(end));
        reveal_with_fuel(replaced, 2);
        assert(concealed(text, rs) =~= text.take(start) + mark.text + text.skip(end));
    } else {
        assert(list =~= Seq::<Hidden>::empty());
        assert(rs =~= Seq::<Hidden>::empty());
        assert(concealed(text, rs) =~= text);
    }
}

/// A single range is sorted, and kept.
proof fn lemma_one(q: Hidden)
    ensures
        keep_first(sort_by(seq![q], hidden_start())) == seq![q],
{
    let list = seq![q];
    reveal_with_fuel(sort_by, 2);
    reveal_with_fuel(keep_first, 2);
    assert(list.drop_last() =~= Seq::<Hidden>::empty());
    assert(Seq::<Hidden>::empty().push(q) =~= list);
}

/// Setting marks makes a new version over the same text, with these marks and with what was
/// revealed.
pub proof fn law_set_state(map: MapView, marks: Seq<Mark>)
    ensures
        ({
            let after = with_marks(map, marks);
            &&& after.snapshot.version == map.snapshot.version + 1
            &&& after.snapshot.fold == map.snapshot.fold
            &&& after.snapshot.passthrough == (marks.len() == 0)
            &&& after.marks == marks
            &&& after.places == places(map.snapshot.fold, marks)
            &&& after.revealed == map.revealed
            &&& after.was_revealed == map.was_revealed
        }),
{
}

/// Setting marks comes with one edit, from the whole text displayed before to the whole text
/// displayed now, and with none if both measure the same.
pub proof fn law_set_whole(map: MapView, marks: Seq<Mark>)
    requires
        map_wf(map),
        anchored(marks, map.snapshot.fold),
        pieces_wf(with_marks(map, marks).snapshot.pieces),
    ensures
        ({
            let before = map.snapshot.text();
            let after = with_marks(map, marks).snapshot.text();
            let edits = whole_edit(
                map.snapshot.pieces,
                with_marks(map, marks).snapshot.pieces,
            );
            &&& summary_of(before) == summary_of(after) ==> edits.len() == 0
            &&& summary_of(before) != summary_of(after) ==> {
                &&& edits.len() == 1
                &&& edits[0].old_start == 0
                &&& edits[0].old_end == before.len()
                &&& edits[0].new_start == 0
                &&& edits[0].new_end == after.len()
            }
        }),
{
    let ps = map.snapshot.pieces;
    let qs = with_marks(map, marks).snapshot.pieces;
    law_set_conceals(map, marks);
    lemma_shown(ps, map.snapshot.fold.text, ps.len() as int);
    lemma_shown(qs, map.snapshot.fold.text, qs.len() as int);
}

/// A read over a text with another version, with edits or with other marks revealed takes
/// the text over in a new version; any other read changes nothing. Neither changes the marks
/// or what is revealed, and marks are looked up anew when there are edits.
pub proof fn law_read_state(map: MapView, fold: FoldView, changes: Seq<Change>)
    ensures
        ({
            let after = synced(map, fold, changes);
            let news = changes.len() > 0 || fold.version != map.snapshot.fold.version
                || map.revealed != map.was_revealed;
            &&& news ==> {
                &&& after.snapshot.version == map.snapshot.version + 1
                &&& after.snapshot.fold == fold
                &&& after.was_revealed == map.revealed
            }
            &&& !news ==> after == map && synced_changes(map, fold, changes).len() == 0
            &&& after.snapshot.passthrough == map.snapshot.passthrough
            &&& after.marks == map.marks
            &&& after.revealed == map.revealed
            &&& changes.len() > 0 ==> after.places == places(fold, map.marks)
            &&& changes.len() == 0 ==> after.places == map.places
        }),
{
    if changes.len() == 0 && map.revealed == map.was_revealed {
        lemma_nothing_affected(map.places, map.revealed, map.places.len() as int);
    }
}

/// A patch takes a change that starts behind its last one as it is, and joins one that does
/// not to the last; a change of nothing is left out.
pub proof fn law_patch_push(patch: Seq<Change>, change: Change)
    ensures
        ({
            let pushed = patch_push(patch, change);
            let n = patch.len();
            let empty = change.old_start == change.old_end && change.new_start == change.new_end;
            let joins = n > 0 && patch[n - 1].old_end >= change.old_start;
            &&& empty ==> pushed == patch
            &&& !empty && !joins ==> {
                &&& pushed.len() == n + 1
                &&& forall|i: int| 0 <= i < n ==> #[trigger] pushed[i] == patch[i]
                &&& pushed[n as int] == change
            }
            &&& !empty && joins ==> {
                &&& pushed.len() == n
                &&& forall|i: int| 0 <= i < n - 1 ==> #[trigger] pushed[i] == patch[i]
                &&& pushed[n - 1].old_start == patch[n - 1].old_start
                &&& pushed[n - 1].new_start == patch[n - 1].new_start
                &&& pushed[n - 1].old_end == change.old_end
                &&& pushed[n - 1].new_end == change.new_end
            }
        }),
{
}

} // verus!

//! When the displayed text is not too long to count.

use crate::coords::MAX_LEN;
use crate::display::{hides, lemma_hides_exactly, lemma_shown, replaced};
use crate::fold::fold_wf;
use crate::grow::lemma_cover;
use crate::laws::lemma_hidden_between;
use crate::map::{with_marks, MapView};
use crate::resolve::{
    anchored, candidates, hidden_start, hiddens_wf, insert_by, keep_first, lemma_places, sort_by,
    Hidden, Mark, Span,
};
use crate::transform::pieces_wf;
use vstd::prelude::*;
use vstd::utf8::is_char_boundary_start_end_of_seq;

verus! {

/// How long the texts of the first `k` marks are.
pub open spec fn marks_len(marks: Seq<Mark>, k: int) -> int
    decreases k,
{
    if k <= 0 {
        0
    } else {
        marks_len(marks, k - 1) + marks[k - 1].text.len()
    }
}

/// How long the texts shown for hidden ranges are.
spec fn shown_len(list: Seq<Hidden>) -> int
    decreases list.len(),
{
    if list.len() == 0 {
        0
    } else {
        shown_len(list.drop_last()) + list.last().text.len()
    }
}

proof fn lemma_insert_len(list: Seq<Hidden>, item: Hidden, key: spec_fn(Hidden) -> int)
    ensures
        shown_len(insert_by(list, item, key)) == shown_len(list) + item.text.len(),
    decreases list.len(),
{
    let longer = insert_by(list, item, key);
    if list.len() == 0 || key(list.last()) <= key(item) {
        assert(longer.drop_last() =~= list);
    } else {
        lemma_insert_len(list.drop_last(), item, key);
        assert(longer.drop_last() =~= insert_by(list.drop_last(), item, key));
    }
}

proof fn lemma_sort_len(list: Seq<Hidden>, key: spec_fn(Hidden) -> int)
    ensures
        shown_len(sort_by(list, key)) == shown_len(list),
    decreases list.len(),
{
    if list.len() > 0 {
        lemma_sort_len(list.drop_last(), key);
        lemma_insert_len(sort_by(list.drop_last(), key), list.last(), key);
    }
}

proof fn lemma_keep_len(list: Seq<Hidden>)
    ensures
        shown_len(keep_first(list)) <= shown_len(list),
    decreases list.len(),
{
    if list.len() > 0 {
        let before = keep_first(list.drop_last());
        lemma_keep_len(list.drop_last());
        assert(before.push(list.last()).drop_last() =~= before);
    }
}

proof fn lemma_candidates_len(
    marks: Seq<Mark>,
    spans: Seq<Option<Span>>,
    revealed: Set<usize>,
    k: int,
)
    ensures
        shown_len(candidates(marks, spans, revealed, k)) <= marks_len(marks, k),
    decreases k,
{
    if k > 0 {
        lemma_candidates_len(marks, spans, revealed, k - 1);
        let before = candidates(marks, spans, revealed, k - 1);
        let list = candidates(marks, spans, revealed, k);
        if list.len() > before.len() {
            assert(list.drop_last() =~= before);
        }
    }
}

/// Replacing ranges adds no more than the texts shown for them.
proof fn lemma_replaced_len(text: Seq<u8>, rs: Seq<Hidden>, k: int, upto: int)
    requires
        hiddens_wf(rs, text.len() as int),
        0 <= k <= rs.len(),
        upto <= text.len(),
        k > 0 ==> rs[k - 1].end <= upto,
        k == 0 ==> 0 <= upto,
    ensures
        replaced(text, rs, k, upto).len() <= upto + shown_len(rs.take(k)),
    decreases k,
{
    if k > 0 {
        if k > 1 {
            assert(rs[k - 2].end <= rs[k - 1].start);
        }
        assert(0 <= rs[k - 1].start < rs[k - 1].end);
        lemma_replaced_len(text, rs, k - 1, rs[k - 1].start);
        assert(rs.take(k).drop_last() =~= rs.take(k - 1));
    }
}

/// The displayed text is not too long to count if the text below and all that
/// marks show are not too long together.
pub proof fn law_set_fits(map: MapView, marks: Seq<Mark>)
    requires
        fold_wf(map.snapshot.fold),
        anchored(marks, map.snapshot.fold),
        map.snapshot.fold.text.len() + marks_len(marks, marks.len() as int) <= MAX_LEN,
    ensures
        pieces_wf(with_marks(map, marks).snapshot.pieces),
{
    let fold = map.snapshot.fold;
    let text = fold.text;
    let after = with_marks(map, marks);
    let ps = after.snapshot.pieces;
    let rs = after.hidden();
    let n = marks.len() as int;
    is_char_boundary_start_end_of_seq(text);
    lemma_places(fold, marks);
    lemma_hidden_between(marks, after.places, after.revealed, text);
    lemma_cover(text, rs);
    assert forall|i: int| 0 <= i < rs.len() implies hides(ps, #[trigger] rs[i]) by {
        assert(rs.contains(rs[i]));
    }
    lemma_hides_exactly(ps, text, rs);
    lemma_shown(ps, text, ps.len() as int);
    if rs.len() > 0 {
        assert(rs[rs.len() - 1].end <= text.len());
    }
    lemma_replaced_len(text, rs, rs.len() as int, text.len() as int);
    assert(rs.take(rs.len() as int) =~= rs);
    let all = candidates(marks, after.places, after.revealed, n);
    lemma_candidates_len(marks, after.places, after.revealed, n);
    lemma_sort_len(all, hidden_start());
    lemma_keep_len(sort_by(all, hidden_start()));
}

} // verus!

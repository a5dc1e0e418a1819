//! What a list of pieces displays of a text of fold space.

use crate::fold::on_boundary;
use crate::resolve::{hiddens_wf, Hidden};
use crate::text::{
    end_of, lemma_end_concat, lemma_pos_split, lemma_summary_concat, lemma_summary_wf, pos_add,
    pos_at, pos_sub, summary_of,
};
use crate::transform::{
    in_len, in_pos, in_start, in_sum, lemma_prefix, lemma_starts_order, out_len, out_pos, out_start,
    out_sum, pieces_measured, Piece,
};
use vstd::prelude::*;

verus! {

/// The text of fold space that piece `k` stands for.
pub open spec fn covered(ps: Seq<Piece>, text: Seq<u8>, k: int) -> Seq<u8> {
    text.subrange(in_start(ps, k), in_start(ps, k + 1))
}

/// Piece `k` measures the text that it stands for.
pub open spec fn piece_fits(ps: Seq<Piece>, text: Seq<u8>, k: int) -> bool {
    ps[k].input() == summary_of(covered(ps, text, k))
}

/// The first `k` pieces measure the beginning of `text`, and none cuts a character.
pub open spec fn reflects_upto(ps: Seq<Piece>, text: Seq<u8>, k: int) -> bool {
    &&& pieces_measured(ps)
    &&& in_start(ps, k) <= text.len()
    &&& forall|i: int| 0 <= i < k ==> #[trigger] piece_fits(ps, text, i)
    &&& forall|i: int| 0 <= i <= k ==> on_boundary(text, #[trigger] in_start(ps, i))
}

/// The pieces measure `text`, and none cuts a character.
pub open spec fn reflects(ps: Seq<Piece>, text: Seq<u8>) -> bool {
    &&& reflects_upto(ps, text, ps.len() as int)
    &&& in_len(ps) == text.len()
}

/// What piece `k` displays.
pub open spec fn piece_text(ps: Seq<Piece>, text: Seq<u8>, k: int) -> Seq<u8> {
    match ps[k] {
        Piece::Same(_) => covered(ps, text, k),
        Piece::Swap { text, .. } => text,
    }
}

/// What the first `k` pieces display.
pub open spec fn shown(ps: Seq<Piece>, text: Seq<u8>, k: int) -> Seq<u8>
    decreases k,
{
    if k <= 0 {
        Seq::empty()
    } else {
        shown(ps, text, k - 1) + piece_text(ps, text, k - 1)
    }
}

/// What all pieces display.
pub open spec fn displayed(ps: Seq<Piece>, text: Seq<u8>) -> Seq<u8> {
    shown(ps, text, ps.len() as int)
}

/// No piece has another text shown in its stead.
pub open spec fn all_same(ps: Seq<Piece>) -> bool {
    forall|k: int| 0 <= k < ps.len() ==> (#[trigger] ps[k]) is Same
}

/// What pieces measure is what they stand for and what they display.
pub proof fn lemma_shown(ps: Seq<Piece>, text: Seq<u8>, k: int)
    requires
        reflects_upto(ps, text, k),
        0 <= k <= ps.len(),
    ensures
        shown(ps, text, k).len() == out_start(ps, k),
        end_of(shown(ps, text, k)) == out_pos(ps, k),
        summary_of(shown(ps, text, k)) == out_sum(ps, k),
        pos_at(text, in_start(ps, k)) == in_pos(ps, k),
        summary_of(text.take(in_start(ps, k))) == in_sum(ps, k),
    decreases k,
{
    assert(text.take(0) =~= Seq::<u8>::empty());
    if k > 0 {
        lemma_starts_order(ps, k - 1, k);
        lemma_shown(ps, text, k - 1);
        let before = shown(ps, text, k - 1);
        let part = piece_text(ps, text, k - 1);
        let cover = covered(ps, text, k - 1);
        lemma_end_concat(before, part);
        lemma_summary_concat(before, part);
        lemma_summary_wf(part);
        lemma_summary_wf(cover);
        assert(piece_fits(ps, text, k - 1));
        lemma_pos_split(text, in_start(ps, k - 1), in_start(ps, k));
        assert(text.take(in_start(ps, k)) =~= text.take(in_start(ps, k - 1)) + cover);
        lemma_summary_concat(text.take(in_start(ps, k - 1)), cover);
    }
}

/// What the first pieces display comes first in what more of them display.
pub proof fn lemma_shown_take(ps: Seq<Piece>, text: Seq<u8>, j: int, k: int)
    requires
        reflects_upto(ps, text, k),
        0 <= j <= k <= ps.len(),
    ensures
        0 <= out_start(ps, j) <= shown(ps, text, k).len(),
        shown(ps, text, j) == shown(ps, text, k).take(out_start(ps, j)),
    decreases k - j,
{
    lemma_starts_order(ps, j, k);
    lemma_shown(ps, text, k);
    if j == k {
        assert(shown(ps, text, k).take(shown(ps, text, k).len() as int) =~= shown(ps, text, k));
    } else {
        lemma_starts_order(ps, k - 1, k);
        lemma_reflects_upto(ps, text, k - 1, k);
        lemma_shown_take(ps, text, j, k - 1);
        let before = shown(ps, text, k - 1);
        let part = piece_text(ps, text, k - 1);
        assert((before + part).take(out_start(ps, j)) =~= before.take(out_start(ps, j)));
    }
}

/// Fewer pieces measure the beginning of a text if more of them do.
pub proof fn lemma_reflects_upto(ps: Seq<Piece>, text: Seq<u8>, j: int, k: int)
    requires
        reflects_upto(ps, text, k),
        0 <= j <= k <= ps.len(),
    ensures
        reflects_upto(ps, text, j),
{
    lemma_starts_order(ps, j, k);
}

/// What a piece displays stands at its place in what all pieces display.
pub proof fn lemma_shown_piece(ps: Seq<Piece>, text: Seq<u8>, k: int)
    requires
        reflects(ps, text),
        0 <= k < ps.len(),
    ensures
        0 <= out_start(ps, k) <= out_start(ps, k + 1) <= displayed(ps, text).len(),
        piece_text(ps, text, k) == displayed(ps, text).subrange(
            out_start(ps, k),
            out_start(ps, k + 1),
        ),
{
    let n = ps.len() as int;
    lemma_starts_order(ps, k, k + 1);
    lemma_shown_take(ps, text, k + 1, n);
    lemma_reflects_upto(ps, text, k, n);
    lemma_reflects_upto(ps, text, k + 1, n);
    lemma_shown(ps, text, k);
    lemma_shown(ps, text, k + 1);
    let all = displayed(ps, text);
    let next = shown(ps, text, k + 1);
    assert(piece_text(ps, text, k) =~= next.subrange(out_start(ps, k), out_start(ps, k + 1)));
    assert(next.subrange(out_start(ps, k), out_start(ps, k + 1)) =~= all.subrange(
        out_start(ps, k),
        out_start(ps, k + 1),
    ));
}

/// Two lists that begin with the same pieces display the same of them.
pub proof fn lemma_shown_same(ps: Seq<Piece>, qs: Seq<Piece>, text: Seq<u8>, k: int)
    requires
        0 <= k <= ps.len(),
        k <= qs.len(),
        forall|i: int| 0 <= i < k ==> ps[i] == qs[i],
    ensures
        shown(ps, text, k) == shown(qs, text, k),
    decreases k,
{
    if k > 0 {
        lemma_shown_same(ps, qs, text, k - 1);
        lemma_prefix(ps, qs, k - 1);
        lemma_prefix(ps, qs, k);
    }
}

/// Where nothing is replaced, the text itself is displayed.
pub proof fn lemma_all_same(ps: Seq<Piece>, text: Seq<u8>, k: int)
    requires
        reflects_upto(ps, text, k),
        0 <= k <= ps.len(),
        all_same(ps),
    ensures
        shown(ps, text, k) == text.take(in_start(ps, k)),
        in_start(ps, k) == out_start(ps, k),
        in_pos(ps, k) == out_pos(ps, k),
    decreases k,
{
    if k > 0 {
        lemma_starts_order(ps, k - 1, k);
        assert(reflects_upto(ps, text, k - 1));
        lemma_all_same(ps, text, k - 1);
        assert(ps[k - 1] is Same);
        assert(shown(ps, text, k) =~= text.take(in_start(ps, k)));
    } else {
        assert(text.take(0) =~= Seq::<u8>::empty());
    }
}

/// Where pieces start in the two texts.
pub proof fn lemma_piece_starts(ps: Seq<Piece>, text: Seq<u8>, k: int)
    requires
        reflects(ps, text),
        0 <= k <= ps.len(),
    ensures
        0 <= out_start(ps, k) <= displayed(ps, text).len(),
        0 <= in_start(ps, k) <= text.len(),
        displayed(ps, text).len() == out_len(ps),
        out_pos(ps, k) == pos_at(displayed(ps, text), out_start(ps, k)),
        in_pos(ps, k) == pos_at(text, in_start(ps, k)),
        k == ps.len() ==> out_pos(ps, k) == end_of(displayed(ps, text)),
{
    let n = ps.len() as int;
    lemma_starts_order(ps, k, n);
    lemma_reflects_upto(ps, text, k, n);
    lemma_shown(ps, text, k);
    lemma_shown(ps, text, n);
    lemma_shown_take(ps, text, k, n);
    assert(displayed(ps, text).take(displayed(ps, text).len() as int) =~= displayed(ps, text));
}

/// A piece that shows the text below shows it byte by byte.
pub proof fn lemma_same_piece(ps: Seq<Piece>, text: Seq<u8>, k: int, x: int)
    requires
        reflects(ps, text),
        0 <= k < ps.len(),
        ps[k] is Same,
        in_start(ps, k) <= x <= in_start(ps, k + 1),
    ensures
        ({
            let d = displayed(ps, text);
            let o = out_start(ps, k) + (x - in_start(ps, k));
            &&& out_start(ps, k + 1) - out_start(ps, k) == in_start(ps, k + 1) - in_start(ps, k)
            &&& 0 <= out_start(ps, k) <= o <= out_start(ps, k + 1) <= d.len()
            &&& 0 <= in_start(ps, k) <= x <= text.len()
            &&& d.subrange(out_start(ps, k), o) == text.subrange(in_start(ps, k), x)
            &&& pos_at(d, o) == pos_add(out_pos(ps, k), pos_sub(pos_at(text, x), in_pos(ps, k)))
            &&& pos_at(text, x) == pos_add(in_pos(ps, k), pos_sub(pos_at(d, o), out_pos(ps, k)))
        }),
{
    let d = displayed(ps, text);
    let n = ps.len() as int;
    let o = out_start(ps, k) + (x - in_start(ps, k));
    lemma_piece_starts(ps, text, k);
    lemma_piece_starts(ps, text, k + 1);
    lemma_shown_piece(ps, text, k);
    lemma_starts_order(ps, k, k + 1);
    lemma_starts_order(ps, k + 1, n);
    let part = d.subrange(out_start(ps, k), out_start(ps, k + 1));
    assert(part == text.subrange(in_start(ps, k), in_start(ps, k + 1)));
    assert(d.subrange(out_start(ps, k), o) =~= part.subrange(0, x - in_start(ps, k)));
    assert(text.subrange(in_start(ps, k), x) =~= part.subrange(0, x - in_start(ps, k)));
    lemma_pos_split(d, out_start(ps, k), o);
    lemma_pos_split(text, in_start(ps, k), x);
}

/// The beginning of `text` up to `upto`, with the first `k` ranges replaced.
pub open spec fn replaced(text: Seq<u8>, rs: Seq<Hidden>, k: int, upto: int) -> Seq<u8>
    decreases k,
{
    if k <= 0 {
        text.subrange(0, upto)
    } else {
        replaced(text, rs, k - 1, rs[k - 1].start) + rs[k - 1].text + text.subrange(
            rs[k - 1].end,
            upto,
        )
    }
}

/// `text` with every range replaced.
pub open spec fn concealed(text: Seq<u8>, rs: Seq<Hidden>) -> Seq<u8> {
    replaced(text, rs, rs.len() as int, text.len() as int)
}

/// What piece `k` hides, if it is moved by `shift`.
pub open spec fn hidden_at(ps: Seq<Piece>, k: int, shift: int) -> Hidden {
    Hidden {
        start: in_start(ps, k) + shift,
        end: in_start(ps, k + 1) + shift,
        text: ps[k]->text,
    }
}

/// Some piece hides `hidden`.
pub open spec fn hides(ps: Seq<Piece>, hidden: Hidden) -> bool {
    exists|k: int| 0 <= k < ps.len() && (#[trigger] ps[k]) is Swap && hidden == hidden_at(ps, k, 0)
}

/// What the first `k` pieces hide.
pub open spec fn swaps(ps: Seq<Piece>, k: int) -> Seq<Hidden>
    decreases k,
{
    if k <= 0 {
        Seq::empty()
    } else if ps[k - 1] is Swap {
        swaps(ps, k - 1).push(hidden_at(ps, k - 1, 0))
    } else {
        swaps(ps, k - 1)
    }
}

/// What pieces hide lies in their order.
pub proof fn lemma_swaps(ps: Seq<Piece>, k: int)
    requires
        pieces_measured(ps),
        0 <= k <= ps.len(),
    ensures
        forall|i: int|
            0 <= i < swaps(ps, k).len() ==> 0 <= (#[trigger] swaps(ps, k)[i]).start <= swaps(
                ps,
                k,
            )[i].end <= in_start(ps, k),
        forall|i: int, j: int|
            0 <= i < j < swaps(ps, k).len() ==> (#[trigger] swaps(ps, k)[i]).end <= (
            #[trigger] swaps(ps, k)[j]).start,
        forall|i: int| 0 <= i < swaps(ps, k).len() ==> hides(ps, #[trigger] swaps(ps, k)[i]),
        forall|m: int|
            0 <= m < k && (#[trigger] ps[m]) is Swap ==> swaps(ps, k).contains(hidden_at(ps, m, 0)),
    decreases k,
{
    if k > 0 {
        lemma_swaps(ps, k - 1);
        lemma_starts_order(ps, k - 1, k);
        let before = swaps(ps, k - 1);
        let list = swaps(ps, k);
        assert forall|m: int| 0 <= m < k && (#[trigger] ps[m]) is Swap implies list.contains(
            hidden_at(ps, m, 0),
        ) by {
            if m < k - 1 {
                let at = before.index_of(hidden_at(ps, m, 0));
                assert(before.contains(hidden_at(ps, m, 0)));
                assert(list[at] == hidden_at(ps, m, 0));
            } else {
                assert(m == k - 1);
                assert(list == before.push(hidden_at(ps, m, 0)));
                assert(list[before.len() as int] == hidden_at(ps, m, 0));
            }
        }
        if ps[k - 1] is Swap {
            assert(hides(ps, hidden_at(ps, k - 1, 0)));
        }
    }
}

/// More of the text behind the last range is shown as it is.
pub proof fn lemma_replaced_more(text: Seq<u8>, rs: Seq<Hidden>, k: int, from: int, to: int)
    requires
        0 <= from <= to <= text.len(),
        0 <= k <= rs.len(),
        k > 0 ==> 0 <= rs[k - 1].end <= from,
    ensures
        replaced(text, rs, k, to) == replaced(text, rs, k, from) + text.subrange(from, to),
{
    if k <= 0 {
        assert(text.subrange(0, to) =~= text.subrange(0, from) + text.subrange(from, to));
    } else {
        let r = rs[k - 1];
        assert(text.subrange(r.end, to) =~= text.subrange(r.end, from) + text.subrange(from, to));
        let before = replaced(text, rs, k - 1, r.start) + r.text;
        assert(before + (text.subrange(r.end, from) + text.subrange(from, to)) =~= (before
            + text.subrange(r.end, from)) + text.subrange(from, to));
    }
}

/// What replaced ranges leave depends only on the ranges before.
pub proof fn lemma_replaced_prefix(
    text: Seq<u8>,
    rs: Seq<Hidden>,
    qs: Seq<Hidden>,
    k: int,
    upto: int,
)
    requires
        0 <= k <= rs.len(),
        k <= qs.len(),
        forall|i: int| 0 <= i < k ==> rs[i] == qs[i],
    ensures
        replaced(text, rs, k, upto) == replaced(text, qs, k, upto),
    decreases k,
{
    if k > 0 {
        lemma_replaced_prefix(text, rs, qs, k - 1, rs[k - 1].start);
    }
}

/// What pieces display is the text with what they hide replaced.
pub proof fn lemma_displayed(ps: Seq<Piece>, text: Seq<u8>, k: int)
    requires
        reflects_upto(ps, text, k),
        0 <= k <= ps.len(),
    ensures
        shown(ps, text, k) == replaced(
            text,
            swaps(ps, k),
            swaps(ps, k).len() as int,
            in_start(ps, k),
        ),
    decreases k,
{
    if k <= 0 {
        assert(text.subrange(0, 0) =~= Seq::<u8>::empty());
    } else {
        lemma_reflects_upto(ps, text, k - 1, k);
        lemma_displayed(ps, text, k - 1);
        lemma_swaps(ps, k - 1);
        lemma_starts_order(ps, k - 1, k);
        let before = swaps(ps, k - 1);
        let n = before.len() as int;
        let from = in_start(ps, k - 1);
        let to = in_start(ps, k);
        if ps[k - 1] is Swap {
            let list = swaps(ps, k);
            lemma_replaced_prefix(text, before, list, n, from);
            assert(text.subrange(to, to) =~= Seq::<u8>::empty());
            let r = list[n];
            assert(replaced(text, list, n + 1, to) =~= replaced(text, list, n, from) + r.text);
        } else {
            lemma_replaced_more(text, before, n, from, to);
        }
    }
}

/// Two lists of ranges in the same order that hold the same ranges are the same.
pub proof fn lemma_same_hidden(xs: Seq<Hidden>, ys: Seq<Hidden>, len: int)
    requires
        hiddens_wf(xs, len),
        hiddens_wf(ys, len),
        forall|i: int| 0 <= i < xs.len() ==> ys.contains(#[trigger] xs[i]),
        forall|i: int| 0 <= i < ys.len() ==> xs.contains(#[trigger] ys[i]),
    ensures
        xs == ys,
    decreases xs.len(),
{
    if xs.len() == 0 {
        if ys.len() > 0 {
            assert(xs.contains(ys[0]));
        }
        assert(xs =~= ys);
    } else {
        let x = xs[xs.len() - 1];
        assert(ys.contains(x));
        let y = ys[ys.len() - 1];
        let i = ys.index_of(x);
        assert(xs.contains(y));
        let j = xs.index_of(y);
        if i < ys.len() - 1 {
            assert(ys[i].end <= y.start);
            if j < xs.len() - 1 {
                assert(xs[j].end <= x.start);
            }
            assert(false);
        }
        let xs2 = xs.drop_last();
        let ys2 = ys.drop_last();
        assert forall|m: int| 0 <= m < xs2.len() implies ys2.contains(#[trigger] xs2[m]) by {
            assert(xs[m].end <= x.start);
            assert(ys.contains(xs[m]));
            let at = ys.index_of(xs[m]);
            assert(ys2[at] == xs2[m]);
        }
        assert forall|m: int| 0 <= m < ys2.len() implies xs2.contains(#[trigger] ys2[m]) by {
            assert(ys[m].end <= y.start);
            assert(xs.contains(ys[m]));
            let at = xs.index_of(ys[m]);
            assert(xs2[at] == ys2[m]);
        }
        lemma_same_hidden(xs2, ys2, len);
        assert(xs =~= xs2.push(x));
        assert(ys =~= ys2.push(y));
    }
}

/// Pieces that hide just the ranges `rs` display the text with them replaced.
pub proof fn lemma_hides_exactly(ps: Seq<Piece>, text: Seq<u8>, rs: Seq<Hidden>)
    requires
        reflects(ps, text),
        hiddens_wf(rs, text.len() as int),
        forall|q: Hidden| #[trigger] hides(ps, q) ==> rs.contains(q),
        forall|i: int| 0 <= i < rs.len() ==> hides(ps, #[trigger] rs[i]),
    ensures
        swaps(ps, ps.len() as int) == rs,
        displayed(ps, text) == concealed(text, rs),
{
    let n = ps.len() as int;
    let list = swaps(ps, n);
    let len = text.len() as int;
    lemma_swaps(ps, n);
    assert forall|i: int| 0 <= i < list.len() implies rs.contains(#[trigger] list[i]) && list[i].start
        < list[i].end by {
        assert(hides(ps, list[i]));
        let at = rs.index_of(list[i]);
        assert(rs[at] == list[i]);
    }
    assert forall|i: int| 0 <= i < rs.len() implies list.contains(#[trigger] rs[i]) by {
        assert(hides(ps, rs[i]));
        let m = choose|m: int|
            0 <= m < ps.len() && (#[trigger] ps[m]) is Swap && rs[i] == hidden_at(ps, m, 0);
        assert(ps[m] is Swap);
    }
    lemma_same_hidden(list, rs, len);
    lemma_displayed(ps, text, n);
}

} // verus!

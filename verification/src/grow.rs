//! What lists of pieces measure, hide and display as they grow.

use crate::display::{
    all_same, displayed, hidden_at, hides, lemma_reflects_upto, lemma_shown_same, piece_fits,
    piece_text, reflects_upto, shown,
};
use crate::fold::on_boundary;
use crate::layout::{
    add_hidden, add_hiddens, add_region, cover, end_before, fill_gap, fill_region, first_behind,
    lay_out, lemma_first_behind, swap_piece,
};
use crate::resolve::{hiddens_wf, Hidden};
use crate::text::{lemma_summary_concat, lemma_summary_wf, summary_of, summary_wf};
use crate::transform::{
    in_len, in_start, lemma_prefix, lemma_push, lemma_starts_order, pieces_measured, push_same,
    Piece,
};
use vstd::prelude::*;

verus! {

/// The pieces measure the beginning of `text`, and none cuts a character.
pub open spec fn measures(ps: Seq<Piece>, text: Seq<u8>) -> bool {
    reflects_upto(ps, text, ps.len() as int)
}

/// The ranges cut no character of `text`.
pub open spec fn between_chars(rs: Seq<Hidden>, text: Seq<u8>) -> bool {
    forall|i: int|
        0 <= i < rs.len() ==> on_boundary(text, (#[trigger] rs[i]).start) && on_boundary(
            text,
            rs[i].end,
        )
}

/// Two lists hide the same.
pub open spec fn hide_alike(ps: Seq<Piece>, qs: Seq<Piece>) -> bool {
    forall|q: Hidden| #[trigger] hides(ps, q) <==> hides(qs, q)
}

/// One more piece that stands for the text up to `to`.
pub proof fn lemma_grow_piece(ps: Seq<Piece>, piece: Piece, text: Seq<u8>, to: int)
    requires
        measures(ps, text),
        in_len(ps) <= to,
        on_boundary(text, to),
        piece.input() == summary_of(text.subrange(in_len(ps), to)),
    ensures
        measures(ps.push(piece), text),
        in_len(ps.push(piece)) == to,
        forall|q: Hidden|
            #[trigger] hides(ps.push(piece), q) <==> hides(ps, q) || (piece is Swap && q == (
            Hidden { start: in_len(ps), end: to, text: piece->text })),
        displayed(ps.push(piece), text) == displayed(ps, text) + match piece {
            Piece::Same(_) => text.subrange(in_len(ps), to),
            Piece::Swap { text, .. } => text,
        },
        all_same(ps) && piece is Same ==> all_same(ps.push(piece)),
{
    let n = ps.len() as int;
    let qs = ps.push(piece);
    let part = text.subrange(in_len(ps), to);
    lemma_starts_order(ps, 0, n);
    lemma_summary_wf(part);
    lemma_push(ps, piece);
    lemma_prefix(ps, qs, n);
    assert forall|i: int| 0 <= i < qs.len() implies #[trigger] piece_fits(qs, text, i) by {
        if i < n {
            lemma_prefix(ps, qs, i);
            lemma_prefix(ps, qs, i + 1);
            assert(piece_fits(ps, text, i));
        }
    }
    assert forall|i: int| 0 <= i <= qs.len() implies on_boundary(
        text,
        #[trigger] in_start(qs, i),
    ) by {
        if i <= n {
            lemma_prefix(ps, qs, i);
            assert(on_boundary(text, in_start(ps, i)));
        }
    }
    assert forall|q: Hidden| #[trigger] hides(qs, q) <==> hides(ps, q) || (piece is Swap && q == (
    Hidden { start: in_len(ps), end: to, text: piece->text })) by {
        if hides(qs, q) {
            let k = choose|k: int|
                0 <= k < qs.len() && (#[trigger] qs[k]) is Swap && q == hidden_at(qs, k, 0);
            if k < n {
                lemma_prefix(ps, qs, k);
                lemma_prefix(ps, qs, k + 1);
                assert(ps[k] is Swap && q == hidden_at(ps, k, 0));
            }
        }
        if hides(ps, q) {
            let k = choose|k: int|
                0 <= k < ps.len() && (#[trigger] ps[k]) is Swap && q == hidden_at(ps, k, 0);
            lemma_prefix(ps, qs, k);
            lemma_prefix(ps, qs, k + 1);
            assert(qs[k] is Swap && q == hidden_at(qs, k, 0));
        }
        if piece is Swap && q == (Hidden { start: in_len(ps), end: to, text: piece->text }) {
            assert(qs[n] is Swap && q == hidden_at(qs, n, 0));
        }
    }
    lemma_shown_same(ps, qs, text, n);
}

/// The first pieces of a list measure what they measured in it.
pub proof fn lemma_measures_take(ps: Seq<Piece>, text: Seq<u8>, k: int)
    requires
        reflects_upto(ps, text, k),
        0 <= k <= ps.len(),
    ensures
        measures(ps.take(k), text),
        in_len(ps.take(k)) == in_start(ps, k),
{
    let base = ps.take(k);
    lemma_prefix(ps, base, k);
    assert forall|i: int| 0 <= i < k implies #[trigger] piece_fits(base, text, i) by {
        lemma_prefix(ps, base, i);
        lemma_prefix(ps, base, i + 1);
        assert(piece_fits(ps, text, i));
    }
    assert forall|i: int| 0 <= i <= k implies on_boundary(text, #[trigger] in_start(base, i)) by {
        lemma_prefix(ps, base, i);
        assert(on_boundary(text, in_start(ps, i)));
    }
    assert forall|i: int| 0 <= i < base.len() implies summary_wf((#[trigger] base[i]).input()) by {
        assert(summary_wf(ps[i].input()));
    }
}

/// More of the text shown as it is, up to `to`.
pub proof fn lemma_grow_same(ps: Seq<Piece>, text: Seq<u8>, to: int)
    requires
        measures(ps, text),
        in_len(ps) <= to,
        on_boundary(text, to),
    ensures
        ({
            let qs = push_same(ps, summary_of(text.subrange(in_len(ps), to)));
            &&& measures(qs, text)
            &&& in_len(qs) == to
            &&& hide_alike(qs, ps)
            &&& displayed(qs, text) == displayed(ps, text) + text.subrange(in_len(ps), to)
            &&& all_same(ps) ==> all_same(qs)
        }),
{
    let part = text.subrange(in_len(ps), to);
    let n = ps.len() as int;
    if n > 0 && ps.last() is Same {
        lemma_grow_last(ps, text, to);
    } else {
        lemma_grow_piece(ps, Piece::Same(summary_of(part)), text, to);
    }
}

/// A last piece that grows could have been added in one go.
proof fn lemma_grown_last(ps: Seq<Piece>, text: Seq<u8>, to: int)
    requires
        measures(ps, text),
        in_len(ps) <= to <= text.len(),
        ps.len() > 0,
        ps.last() is Same,
    ensures
        ({
            let base = ps.drop_last();
            let joined = text.subrange(in_len(base), to);
            &&& measures(base, text)
            &&& 0 <= in_len(base) <= in_len(ps)
            &&& ps == base.push(ps.last())
            &&& ps.last().input() == summary_of(text.subrange(in_len(base), in_len(ps)))
            &&& push_same(ps, summary_of(text.subrange(in_len(ps), to))) == base.push(
                Piece::Same(summary_of(joined)),
            )
        }),
{
    let n = ps.len() as int;
    let base = ps.drop_last();
    let mid = in_len(ps);
    assert(base =~= ps.take(n - 1));
    lemma_starts_order(ps, 0, n - 1);
    lemma_starts_order(ps, n - 1, n);
    lemma_reflects_upto(ps, text, n - 1, n);
    lemma_measures_take(ps, text, n - 1);
    assert(piece_fits(ps, text, n - 1));
    let from = in_len(base);
    let old = text.subrange(from, mid);
    let part = text.subrange(mid, to);
    assert(text.subrange(from, to) =~= old + part);
    lemma_summary_concat(old, part);
    assert(ps =~= base.push(ps.last()));
    assert(push_same(ps, summary_of(part)) =~= base.push(
        Piece::Same(summary_of(text.subrange(from, to))),
    ));
}

proof fn lemma_grow_last(ps: Seq<Piece>, text: Seq<u8>, to: int)
    requires
        measures(ps, text),
        in_len(ps) <= to,
        on_boundary(text, to),
        ps.len() > 0,
        ps.last() is Same,
    ensures
        ({
            let qs = push_same(ps, summary_of(text.subrange(in_len(ps), to)));
            &&& measures(qs, text)
            &&& in_len(qs) == to
            &&& hide_alike(qs, ps)
            &&& displayed(qs, text) == displayed(ps, text) + text.subrange(in_len(ps), to)
            &&& all_same(ps) ==> all_same(qs)
        }),
{
    lemma_grown_last(ps, text, to);
    let base = ps.drop_last();
    let last = ps.last();
    let from = in_len(base);
    let mid = in_len(ps);
    let piece = Piece::Same(summary_of(text.subrange(from, to)));
    let n = ps.len() as int;
    assert(on_boundary(text, in_start(ps, n)));
    lemma_grow_piece(base, piece, text, to);
    lemma_grow_piece(base, last, text, mid);
    let before = displayed(base, text);
    assert(before + text.subrange(from, to) =~= (before + text.subrange(from, mid))
        + text.subrange(mid, to));
    if all_same(ps) {
        assert forall|k: int| 0 <= k < base.len() implies (#[trigger] base[k]) is Same by {
            assert(ps[k] is Same);
        }
    }
}

/// Filling a gap up to `to`.
pub proof fn lemma_grow_gap(ps: Seq<Piece>, text: Seq<u8>, to: int)
    requires
        measures(ps, text),
        in_len(ps) <= to,
        on_boundary(text, to),
    ensures
        measures(fill_gap(text, ps, to), text),
        in_len(fill_gap(text, ps, to)) == to,
        hide_alike(fill_gap(text, ps, to), ps),
        displayed(fill_gap(text, ps, to), text) == displayed(ps, text) + text.subrange(
            in_len(ps),
            to,
        ),
        all_same(ps) ==> all_same(fill_gap(text, ps, to)),
{
    lemma_starts_order(ps, 0, ps.len() as int);
    if to > in_len(ps) {
        lemma_grow_same(ps, text, to);
    } else {
        assert(displayed(ps, text) + text.subrange(to, to) =~= displayed(ps, text));
    }
}

/// The part of a hidden range between two bounds.
pub open spec fn clamp(r: Hidden, start: int, end: int) -> Hidden {
    Hidden {
        start: if r.start > start {
            r.start
        } else {
            start
        },
        end: if r.end < end {
            r.end
        } else {
            end
        },
        text: r.text,
    }
}

/// `q` is the part between two bounds of one of the ranges from `k` on.
pub open spec fn is_part(rs: Seq<Hidden>, start: int, end: int, k: int, q: Hidden) -> bool {
    exists|i: int|
        k <= i < rs.len() && (#[trigger] rs[i]).end > start && rs[i].start < end && q == clamp(
            rs[i],
            start,
            end,
        )
}

/// The parts of hidden ranges between two bounds are added.
proof fn lemma_grow_hiddens(
    ps: Seq<Piece>,
    text: Seq<u8>,
    rs: Seq<Hidden>,
    start: int,
    end: int,
    k: int,
)
    requires
        measures(ps, text),
        hiddens_wf(rs, text.len() as int),
        between_chars(rs, text),
        on_boundary(text, start),
        on_boundary(text, end),
        start <= in_len(ps) <= end,
        0 <= k <= rs.len(),
        k < rs.len() ==> rs[k].end > start && in_len(ps) <= clamp(rs[k], start, end).start,
    ensures
        ({
            let qs = add_hiddens(text, ps, rs, start, end, k);
            &&& measures(qs, text)
            &&& in_len(ps) <= in_len(qs) <= end
            &&& forall|q: Hidden|
                #[trigger] hides(qs, q) <==> hides(ps, q) || is_part(rs, start, end, k, q)
            &&& displayed(ps, text).is_prefix_of(displayed(qs, text))
            &&& all_same(ps) && rs.len() == 0 ==> all_same(qs)
        }),
    decreases rs.len() - k,
{
    if k < rs.len() && rs[k].start < end {
        let r = clamp(rs[k], start, end);
        assert(on_boundary(text, rs[k].start) && on_boundary(text, rs[k].end));
        let filled = fill_gap(text, ps, r.start);
        let piece = swap_piece(text, r.start, r.end, r.text);
        let next = filled.push(piece);
        assert(next == add_hidden(text, ps, rs[k], start, end));
        lemma_grow_gap(ps, text, r.start);
        lemma_grow_piece(filled, piece, text, r.end);
        if k + 1 < rs.len() {
            assert(rs[k].end <= rs[k + 1].start);
        }
        lemma_grow_hiddens(next, text, rs, start, end, k + 1);
        let qs = add_hiddens(text, ps, rs, start, end, k);
        assert forall|q: Hidden| #[trigger] hides(qs, q) <==> hides(ps, q) || is_part(
            rs,
            start,
            end,
            k,
            q,
        ) by {
            assert(hides(filled, q) <==> hides(ps, q));
            assert(hides(next, q) <==> hides(filled, q) || q == r);
            if is_part(rs, start, end, k, q) && q != r {
                let i = choose|i: int|
                    k <= i < rs.len() && (#[trigger] rs[i]).end > start && rs[i].start < end && q
                        == clamp(rs[i], start, end);
                assert(is_part(rs, start, end, k + 1, q));
            }
            if is_part(rs, start, end, k + 1, q) {
                let i = choose|i: int|
                    k + 1 <= i < rs.len() && (#[trigger] rs[i]).end > start && rs[i].start < end
                        && q == clamp(rs[i], start, end);
                assert(rs[i].end > start);
            }
            assert(rs[k].end > start);
        }
    } else {
        assert forall|q: Hidden| !is_part(rs, start, end, k, q) by {
            if is_part(rs, start, end, k, q) {
                let i = choose|i: int|
                    k <= i < rs.len() && (#[trigger] rs[i]).end > start && rs[i].start < end && q
                        == clamp(rs[i], start, end);
                if k < i {
                    assert(rs[k].end <= rs[i].start);
                }
            }
        }
    }
}

/// The text between two bounds is laid out.
pub proof fn lemma_grow_region(
    ps: Seq<Piece>,
    text: Seq<u8>,
    rs: Seq<Hidden>,
    start: int,
    end: int,
)
    requires
        measures(ps, text),
        hiddens_wf(rs, text.len() as int),
        between_chars(rs, text),
        in_len(ps) == start <= end,
        on_boundary(text, end),
    ensures
        ({
            let qs = fill_region(text, ps, rs, start, end);
            &&& measures(qs, text)
            &&& in_len(qs) == end
            &&& forall|q: Hidden|
                #[trigger] hides(qs, q) <==> hides(ps, q) || is_part(rs, start, end, 0, q)
            &&& displayed(ps, text).is_prefix_of(displayed(qs, text))
            &&& all_same(ps) && rs.len() == 0 ==> all_same(qs)
        }),
{
    let first = first_behind(rs, start, 0);
    lemma_first_behind(rs, start, 0);
    assert(on_boundary(text, in_start(ps, ps.len() as int)));
    let added = add_region(text, ps, rs, start, end);
    lemma_grow_hiddens(ps, text, rs, start, end, first);
    lemma_grow_gap(added, text, end);
    let qs = fill_region(text, ps, rs, start, end);
    assert forall|q: Hidden| #[trigger] hides(qs, q) <==> hides(ps, q) || is_part(
        rs,
        start,
        end,
        0,
        q,
    ) by {
        assert(hides(qs, q) <==> hides(added, q));
        assert(hides(added, q) <==> hides(ps, q) || is_part(rs, start, end, first, q));
        if is_part(rs, start, end, 0, q) {
            let i = choose|i: int|
                0 <= i < rs.len() && (#[trigger] rs[i]).end > start && rs[i].start < end && q
                    == clamp(rs[i], start, end);
            assert(is_part(rs, start, end, first, q));
        }
        if is_part(rs, start, end, first, q) {
            let i = choose|i: int|
                first <= i < rs.len() && (#[trigger] rs[i]).end > start && rs[i].start < end && q
                    == clamp(rs[i], start, end);
            assert(rs[i].end > start);
        }
    }
}

/// The whole text is laid out.
pub proof fn lemma_cover(text: Seq<u8>, rs: Seq<Hidden>)
    requires
        hiddens_wf(rs, text.len() as int),
        between_chars(rs, text),
        on_boundary(text, 0),
        on_boundary(text, text.len() as int),
    ensures
        measures(cover(text, Seq::empty(), rs), text),
        in_len(cover(text, Seq::empty(), rs)) == text.len(),
        forall|q: Hidden|
            #[trigger] hides(cover(text, Seq::empty(), rs), q) <==> rs.contains(q),
        rs.len() == 0 ==> all_same(cover(text, Seq::empty(), rs)),
{
    let n = rs.len() as int;
    let all = lay_out(text, Seq::empty(), rs, n);
    lemma_lay_out_grows(text, rs, n);
    if n > 0 {
        assert(on_boundary(text, rs[n - 1].end));
    }
    lemma_grow_gap(all, text, text.len() as int);
    let filled = fill_gap(text, all, text.len() as int);
    let qs = cover(text, Seq::empty(), rs);
    if filled.len() == 0 {
        assert(text.len() == 0);
        assert(text.subrange(0, 0) =~= text);
        lemma_grow_same(filled, text, 0);
        assert(hide_alike(qs, filled));
    }
    assert forall|q: Hidden| #[trigger] hides(qs, q) <==> rs.contains(q) by {
        assert(hides(qs, q) <==> hides(all, q)) by {
            assert(hides(filled, q) <==> hides(all, q));
        }
        assert(hides(all, q) <==> rs.take(n).contains(q));
        assert(rs.take(n) =~= rs);
    }
}

/// The first `k` ranges are laid out.
proof fn lemma_lay_out_grows(text: Seq<u8>, rs: Seq<Hidden>, k: int)
    requires
        hiddens_wf(rs, text.len() as int),
        between_chars(rs, text),
        on_boundary(text, 0),
        0 <= k <= rs.len(),
    ensures
        ({
            let ps = lay_out(text, Seq::empty(), rs, k);
            &&& measures(ps, text)
            &&& in_len(ps) == end_before(rs, k)
            &&& forall|q: Hidden| #[trigger] hides(ps, q) <==> rs.take(k).contains(q)
            &&& k == 0 ==> all_same(ps)
        }),
    decreases k,
{
    let ps = lay_out(text, Seq::empty(), rs, k);
    if k <= 0 {
        assert forall|q: Hidden| #[trigger] hides(ps, q) <==> rs.take(k).contains(q) by {}
    } else {
        let before = lay_out(text, Seq::empty(), rs, k - 1);
        let r = rs[k - 1];
        lemma_lay_out_grows(text, rs, k - 1);
        if k > 1 {
            assert(rs[k - 2].end <= rs[k - 1].start);
        }
        assert(on_boundary(text, r.start) && on_boundary(text, r.end));
        lemma_grow_gap(before, text, r.start);
        let filled = fill_gap(text, before, r.start);
        let piece = swap_piece(text, r.start, r.end, r.text);
        assert(ps == filled.push(piece));
        lemma_grow_piece(filled, piece, text, r.end);
        assert forall|q: Hidden| #[trigger] hides(ps, q) <==> rs.take(k).contains(q) by {
            assert(hides(filled, q) <==> hides(before, q));
            assert(hides(ps, q) <==> hides(filled, q) || q == r);
            assert(rs.take(k) =~= rs.take(k - 1).push(r));
            if rs.take(k - 1).contains(q) {
                let at = rs.take(k - 1).index_of(q);
                assert(rs.take(k)[at] == q);
            }
            assert(rs.take(k)[k - 1] == r);
        }
    }
}

/// One of the pieces `i` to `j`, moved by `shift`, hides `q`.
pub open spec fn some_hides(ps: Seq<Piece>, i: int, j: int, shift: int, q: Hidden) -> bool {
    exists|m: int| i <= m < j && (#[trigger] ps[m]) is Swap && q == hidden_at(ps, m, shift)
}

/// What pieces `i` to `j` display.
pub open spec fn shown_part(ps: Seq<Piece>, text: Seq<u8>, i: int, j: int) -> Seq<u8>
    decreases j - i,
{
    if j <= i {
        Seq::empty()
    } else {
        shown_part(ps, text, i, j - 1) + piece_text(ps, text, j - 1)
    }
}

/// What pieces `i` to `j` of `ps` stand for in `old` stands, moved by `shift`, in `new` too.
pub open spec fn moves(
    ps: Seq<Piece>,
    old: Seq<u8>,
    new: Seq<u8>,
    i: int,
    j: int,
    shift: int,
) -> bool {
    &&& 0 <= in_start(ps, i) + shift
    &&& in_start(ps, j) + shift <= new.len()
    &&& old.subrange(in_start(ps, i), in_start(ps, j)) == new.subrange(
        in_start(ps, i) + shift,
        in_start(ps, j) + shift,
    )
    &&& forall|m: int|
        i <= m <= j ==> on_boundary(new, (#[trigger] in_start(ps, m)) + shift)
}

/// What the last of some pieces stands for, and what those before it stand for, stands in
/// the new text too.
proof fn lemma_moves_last(
    ps: Seq<Piece>,
    old: Seq<u8>,
    new: Seq<u8>,
    i: int,
    j: int,
    shift: int,
)
    requires
        pieces_measured(ps),
        0 <= i < j <= ps.len(),
        in_start(ps, j) <= old.len(),
        moves(ps, old, new, i, j, shift),
    ensures
        moves(ps, old, new, i, j - 1, shift),
        on_boundary(new, in_start(ps, j) + shift),
        old.subrange(in_start(ps, j - 1), in_start(ps, j)) == new.subrange(
            in_start(ps, j - 1) + shift,
            in_start(ps, j) + shift,
        ),
{
    lemma_starts_order(ps, i, j - 1);
    lemma_starts_order(ps, j - 1, j);
    let from = in_start(ps, i);
    let mid = in_start(ps, j - 1);
    let to = in_start(ps, j);
    let part = old.subrange(from, to);
    assert(part == new.subrange(from + shift, to + shift));
    assert(old.subrange(from, mid) =~= part.subrange(0, mid - from));
    assert(new.subrange(from + shift, mid + shift) =~= part.subrange(0, mid - from));
    assert(old.subrange(mid, to) =~= part.subrange(mid - from, to - from));
    assert(new.subrange(mid + shift, to + shift) =~= part.subrange(mid - from, to - from));
}

/// What some pieces hide is what those before the last one hide, or what it hides.
proof fn lemma_some_hides_last(ps: Seq<Piece>, i: int, j: int, shift: int, q: Hidden)
    requires
        0 <= i < j <= ps.len(),
    ensures
        some_hides(ps, i, j, shift, q) <==> some_hides(ps, i, j - 1, shift, q) || (
        ps[j - 1] is Swap && q == hidden_at(ps, j - 1, shift)),
{
    if some_hides(ps, i, j, shift, q) {
        let m = choose|m: int|
            i <= m < j && (#[trigger] ps[m]) is Swap && q == hidden_at(ps, m, shift);
        assert(m < j - 1 ==> some_hides(ps, i, j - 1, shift, q));
    }
    if some_hides(ps, i, j - 1, shift, q) {
        let m = choose|m: int|
            i <= m < j - 1 && (#[trigger] ps[m]) is Swap && q == hidden_at(ps, m, shift);
        assert(ps[m] is Swap);
    }
}

/// Pieces of another list are taken over.
pub proof fn lemma_grow_pieces(
    base: Seq<Piece>,
    new: Seq<u8>,
    ps: Seq<Piece>,
    old: Seq<u8>,
    i: int,
    j: int,
    shift: int,
)
    requires
        measures(base, new),
        0 <= i <= j <= ps.len(),
        reflects_upto(ps, old, j),
        in_len(base) == in_start(ps, i) + shift,
        moves(ps, old, new, i, j, shift),
    ensures
        ({
            let qs = base + ps.subrange(i, j);
            &&& measures(qs, new)
            &&& in_len(qs) == in_start(ps, j) + shift
            &&& forall|q: Hidden|
                #[trigger] hides(qs, q) <==> hides(base, q) || some_hides(ps, i, j, shift, q)
            &&& displayed(qs, new) == displayed(base, new) + shown_part(ps, old, i, j)
            &&& all_same(base) && all_same(ps) ==> all_same(qs)
        }),
    decreases j - i,
{
    let qs = base + ps.subrange(i, j);
    if i == j {
        assert(qs =~= base);
        assert(displayed(base, new) + shown_part(ps, old, i, j) =~= displayed(base, new));
        assert forall|q: Hidden| !some_hides(ps, i, j, shift, q) by {}
    } else {
        lemma_starts_order(ps, i, j - 1);
        lemma_starts_order(ps, j - 1, j);
        lemma_reflects_upto(ps, old, j - 1, j);
        lemma_moves_last(ps, old, new, i, j, shift);
        lemma_grow_pieces(base, new, ps, old, i, j - 1, shift);
        let before = base + ps.subrange(i, j - 1);
        assert(qs =~= before.push(ps[j - 1]));
        assert(piece_fits(ps, old, j - 1));
        lemma_grow_piece(before, ps[j - 1], new, in_start(ps, j) + shift);
        assert(displayed(qs, new) =~= displayed(base, new) + shown_part(ps, old, i, j));
        assert forall|q: Hidden| #[trigger] hides(qs, q) <==> hides(base, q) || some_hides(
            ps,
            i,
            j,
            shift,
            q,
        ) by {
            lemma_some_hides_last(ps, i, j, shift, q);
            assert(hides(before, q) <==> hides(base, q) || some_hides(ps, i, j - 1, shift, q));
        }
        assert(all_same(ps) ==> ps[j - 1] is Same);
    }
}

/// Parts of what pieces display, side by side.
pub proof fn lemma_shown_parts(ps: Seq<Piece>, text: Seq<u8>, i: int, j: int, k: int)
    requires
        0 <= i <= j <= k,
    ensures
        shown_part(ps, text, i, k) == shown_part(ps, text, i, j) + shown_part(ps, text, j, k),
        shown(ps, text, k) == shown(ps, text, i) + shown_part(ps, text, i, k),
    decreases k - i,
{
    if j < k {
        lemma_shown_parts(ps, text, i, j, k - 1);
        let last = piece_text(ps, text, k - 1);
        assert(shown_part(ps, text, i, j) + shown_part(ps, text, j, k - 1) + last
            =~= shown_part(ps, text, i, j) + (shown_part(ps, text, j, k - 1) + last));
        assert(shown(ps, text, i) + shown_part(ps, text, i, k - 1) + last =~= shown(ps, text, i) + (
        shown_part(ps, text, i, k - 1) + last));
    } else {
        assert(shown_part(ps, text, i, j) + Seq::<u8>::empty() =~= shown_part(ps, text, i, j));
        if i < k {
            lemma_shown_parts(ps, text, i, k - 1, k - 1);
            let last = piece_text(ps, text, k - 1);
            assert(shown(ps, text, i) + shown_part(ps, text, i, k - 1) + last =~= shown(
                ps,
                text,
                i,
            ) + (shown_part(ps, text, i, k - 1) + last));
        } else {
            assert(shown(ps, text, i) + Seq::<u8>::empty() =~= shown(ps, text, i));
        }
    }
}

} // verus!

//! Which ranges of fold space are hidden.

use crate::coords::{Bias, FoldOffset};
use crate::fold::{anchor_pos, fold_wf, on_boundary, pos_between, Anchor, FoldSnapshot, FoldView};
use crate::text::offset_at;
use std::collections::HashSet;
use std::ops::Range;
use vstd::prelude::*;
use vstd::utf8::encode_utf8;

verus! {

/// A range of the buffer and the text to show in its stead.
pub type Concealment = (Range<Anchor>, String);

/// A range between two anchors, given by their numbers, and the text to show in its stead.
pub struct Mark {
    pub start: int,
    pub end: int,
    pub text: Seq<u8>,
}

/// A range of fold space.
pub struct Span {
    pub start: int,
    pub end: int,
}

/// A range of fold space and the text shown in its stead.
pub struct Hidden {
    pub start: int,
    pub end: int,
    pub text: Seq<u8>,
}

pub open spec fn mark_of(concealment: Concealment) -> Mark {
    Mark {
        start: concealment.0.start.0 as int,
        end: concealment.0.end.0 as int,
        text: encode_utf8(concealment.1@),
    }
}

pub open spec fn marks_of(concealments: Seq<Concealment>) -> Seq<Mark> {
    concealments.map_values(|concealment: Concealment| mark_of(concealment))
}

pub open spec fn span_of(range: Range<FoldOffset>) -> Span {
    Span { start: range.start@, end: range.end@ }
}

pub open spec fn spans_of(ranges: Seq<Range<FoldOffset>>) -> Seq<Span> {
    ranges.map_values(|range: Range<FoldOffset>| span_of(range))
}

/// The same for a range that may be missing.
pub open spec fn place_of(range: Option<Range<FoldOffset>>) -> Option<Span> {
    match range {
        Some(range) => Some(span_of(range)),
        None => None,
    }
}

pub open spec fn places_of(ranges: Seq<Option<Range<FoldOffset>>>) -> Seq<Option<Span>> {
    ranges.map_values(|range: Option<Range<FoldOffset>>| place_of(range))
}

pub open spec fn hidden_of(entry: (Range<FoldOffset>, String)) -> Hidden {
    Hidden { start: entry.0.start@, end: entry.0.end@, text: encode_utf8(entry.1@) }
}

pub open spec fn hiddens_of(entries: Seq<(Range<FoldOffset>, String)>) -> Seq<Hidden> {
    entries.map_values(|entry: (Range<FoldOffset>, String)| hidden_of(entry))
}

/// The anchors of every mark are known to the layer below.
pub open spec fn anchored(marks: Seq<Mark>, fold: FoldView) -> bool {
    forall|i: int|
        0 <= i < marks.len() ==> 0 <= (#[trigger] marks[i]).start < fold.anchors.len() && 0
            <= marks[i].end < fold.anchors.len()
}

/// Where a mark lies in fold space; nowhere if nothing of it is left there.
pub open spec fn place(fold: FoldView, mark: Mark) -> Option<Span> {
    let start = offset_at(fold.text, anchor_pos(fold, mark.start, Bias::Right));
    let end = offset_at(fold.text, anchor_pos(fold, mark.end, Bias::Left));
    if start < end {
        Some(Span { start, end })
    } else {
        None
    }
}

/// Where each mark lies in fold space.
pub open spec fn places(fold: FoldView, marks: Seq<Mark>) -> Seq<Option<Span>> {
    marks.map_values(|mark: Mark| place(fold, mark))
}

/// Of the first `k` marks those that have a place and are not revealed.
pub open spec fn candidates(
    marks: Seq<Mark>,
    places: Seq<Option<Span>>,
    revealed: Set<usize>,
    k: int,
) -> Seq<Hidden>
    decreases k,
{
    if k <= 0 {
        Seq::empty()
    } else {
        let before = candidates(marks, places, revealed, k - 1);
        match places[k - 1] {
            Some(span) => if revealed.contains((k - 1) as usize) {
                before
            } else {
                before.push(
                    Hidden { start: span.start, end: span.end, text: marks[k - 1].text },
                )
            },
            None => before,
        }
    }
}

/// Of the first `k` places those whose mark was revealed or concealed.
pub open spec fn affected_upto(
    places: Seq<Option<Span>>,
    was: Set<usize>,
    is: Set<usize>,
    k: int,
) -> Seq<Span>
    decreases k,
{
    if k <= 0 {
        Seq::empty()
    } else {
        let before = affected_upto(places, was, is, k - 1);
        match places[k - 1] {
            Some(span) => if was.contains((k - 1) as usize) == is.contains((k - 1) as usize) {
                before
            } else {
                before.push(span)
            },
            None => before,
        }
    }
}

/// An ordered list with `item` added behind all that do not come after it.
pub open spec fn insert_by<T>(list: Seq<T>, item: T, key: spec_fn(T) -> int) -> Seq<T>
    decreases list.len(),
{
    if list.len() == 0 || key(list.last()) <= key(item) {
        list.push(item)
    } else {
        insert_by(list.drop_last(), item, key).push(list.last())
    }
}

/// The items of a list in the order of their keys; equal ones stay in their order.
pub open spec fn sort_by<T>(list: Seq<T>, key: spec_fn(T) -> int) -> Seq<T>
    decreases list.len(),
{
    if list.len() == 0 {
        list
    } else {
        insert_by(sort_by(list.drop_last(), key), list.last(), key)
    }
}

pub open spec fn hidden_start() -> spec_fn(Hidden) -> int {
    |hidden: Hidden| hidden.start
}

pub open spec fn span_start() -> spec_fn(Span) -> int {
    |span: Span| span.start
}

/// Those ranges of a list that do not start inside one kept before them.
pub open spec fn keep_first(list: Seq<Hidden>) -> Seq<Hidden>
    decreases list.len(),
{
    if list.len() == 0 {
        list
    } else {
        let before = keep_first(list.drop_last());
        if before.len() > 0 && list.last().start < before.last().end {
            before
        } else {
            before.push(list.last())
        }
    }
}

/// The ranges that are hidden, in the order of the text.
pub open spec fn resolved(
    marks: Seq<Mark>,
    places: Seq<Option<Span>>,
    revealed: Set<usize>,
) -> Seq<Hidden> {
    keep_first(sort_by(candidates(marks, places, revealed, marks.len() as int), hidden_start()))
}

/// The ranges whose mark was revealed or concealed, in the order of the text.
pub open spec fn affected(places: Seq<Option<Span>>, was: Set<usize>, is: Set<usize>) -> Seq<Span> {
    sort_by(affected_upto(places, was, is, places.len() as int), span_start())
}

/// The ranges lie in a text of `len` bytes.
pub open spec fn places_within(places: Seq<Option<Span>>, len: int) -> bool {
    forall|i: int|
        0 <= i < places.len() ==> ((#[trigger] places[i]) matches Some(span) ==> 0 <= span.start
            < span.end <= len)
}

/// Marks lie within the text below, between characters.
pub proof fn lemma_places(fold: FoldView, marks: Seq<Mark>)
    requires
        fold_wf(fold),
        anchored(marks, fold),
    ensures
        places(fold, marks).len() == marks.len(),
        places_within(places(fold, marks), fold.text.len() as int),
        places_between(places(fold, marks), fold.text),
{
    let spans = places(fold, marks);
    assert forall|i: int| 0 <= i < spans.len() implies ((#[trigger] spans[i]) matches Some(span)
        ==> 0 <= span.start < span.end <= fold.text.len() && on_boundary(fold.text, span.start)
        && on_boundary(fold.text, span.end)) by {
        let mark = marks[i];
        assert(pos_between(fold.text, fold.anchors[mark.start].right@));
        assert(pos_between(fold.text, fold.anchors[mark.end].left@));
    }
}

/// The ranges cut no character of `text`.
pub open spec fn places_between(places: Seq<Option<Span>>, text: Seq<u8>) -> bool {
    forall|i: int|
        0 <= i < places.len() ==> ((#[trigger] places[i]) matches Some(span) ==> on_boundary(
            text,
            span.start,
        ) && on_boundary(text, span.end))
}

/// A list that may be inserted into: the item goes where the keys say.
proof fn lemma_insert_by<T>(list: Seq<T>, item: T, key: spec_fn(T) -> int, at: int)
    requires
        0 <= at <= list.len(),
        forall|i: int| at <= i < list.len() ==> key(item) < key(#[trigger] list[i]),
        at > 0 ==> key(list[at - 1]) <= key(item),
    ensures
        insert_by(list, item, key) == list.insert(at, item),
    decreases list.len(),
{
    if at < list.len() {
        lemma_insert_by(list.drop_last(), item, key, at);
        assert(list.drop_last().insert(at, item).push(list.last()) =~= list.insert(at, item));
    } else {
        assert(list.push(item) =~= list.insert(at, item));
    }
}

/// Hidden ranges of a text of `len` bytes, none empty, in the order of the text
/// and apart from each other.
pub open spec fn hiddens_wf(list: Seq<Hidden>, len: int) -> bool {
    &&& forall|i: int|
        0 <= i < list.len() ==> 0 <= (#[trigger] list[i]).start < list[i].end <= len
    &&& forall|i: int, j: int|
        0 <= i < j < list.len() ==> (#[trigger] list[i]).end <= (#[trigger] list[j]).start
}

/// Inserting into an ordered list keeps it ordered and adds the item.
proof fn lemma_insert_orders<T>(list: Seq<T>, item: T, key: spec_fn(T) -> int)
    requires
        forall|i: int, j: int|
            0 <= i <= j < list.len() ==> key(#[trigger] list[i]) <= key(#[trigger] list[j]),
    ensures
        ({
            let longer = insert_by(list, item, key);
            &&& longer.len() == list.len() + 1
            &&& longer.to_multiset() == list.to_multiset().insert(item)
            &&& forall|i: int, j: int|
                0 <= i <= j < longer.len() ==> key(#[trigger] longer[i]) <= key(
                    #[trigger] longer[j],
                )
            &&& key(longer.last()) >= key(item)
            &&& list.len() > 0 ==> key(longer.last()) == if key(list.last()) <= key(item) {
                key(item)
            } else {
                key(list.last())
            }
            &&& list.len() == 0 ==> longer.last() == item
        }),
    decreases list.len(),
{
    broadcast use vstd::seq_lib::group_to_multiset_ensures;

    if list.len() == 0 || key(list.last()) <= key(item) {
    } else {
        let shorter = list.drop_last();
        lemma_insert_orders(shorter, item, key);
        assert(list =~= shorter.push(list.last()));
        assert(list.to_multiset() =~= shorter.to_multiset().insert(list.last()));
        let longer = insert_by(list, item, key);
        assert(longer == insert_by(shorter, item, key).push(list.last()));
        assert(longer.to_multiset() =~= list.to_multiset().insert(item));
        if shorter.len() > 0 {
            assert(shorter.last() == list[list.len() - 2]);
        }
    }
}

/// Sorting keeps the items and orders their keys.
pub proof fn law_sort_orders<T>(list: Seq<T>, key: spec_fn(T) -> int)
    ensures
        sort_by(list, key).to_multiset() == list.to_multiset(),
        sort_by(list, key).len() == list.len(),
        forall|i: int, j: int|
            0 <= i <= j < list.len() ==> key(#[trigger] sort_by(list, key)[i]) <= key(
                #[trigger] sort_by(list, key)[j],
            ),
    decreases list.len(),
{
    broadcast use vstd::seq_lib::group_to_multiset_ensures;

    if list.len() > 0 {
        law_sort_orders(list.drop_last(), key);
        lemma_insert_orders(sort_by(list.drop_last(), key), list.last(), key);
        assert(list =~= list.drop_last().push(list.last()));
    }
}

proof fn lemma_insert_stable<T>(list: Seq<T>, item: T, key: spec_fn(T) -> int, value: int)
    ensures
        insert_by(list, item, key).filter(|other: T| key(other) == value) == list.push(
            item,
        ).filter(|other: T| key(other) == value),
    decreases list.len(),
{
    broadcast use Seq::lemma_filter_push;

    let alike = |other: T| key(other) == value;
    if list.len() == 0 || key(list.last()) <= key(item) {
    } else {
        let shorter = list.drop_last();
        lemma_insert_stable(shorter, item, key, value);
        assert(list =~= shorter.push(list.last()));
        assert(list.filter(alike) == shorter.push(list.last()).filter(alike));
    }
}

/// Sorting keeps items with equal keys in their order.
pub proof fn law_sort_stable<T>(list: Seq<T>, key: spec_fn(T) -> int, value: int)
    ensures
        sort_by(list, key).filter(|item: T| key(item) == value) == list.filter(
            |item: T| key(item) == value,
        ),
    decreases list.len(),
{
    broadcast use Seq::lemma_filter_push;

    if list.len() > 0 {
        let shorter = list.drop_last();
        law_sort_stable(shorter, key, value);
        lemma_insert_stable(sort_by(shorter, key), list.last(), key, value);
        assert(list =~= shorter.push(list.last()));
    }
}

/// Two ranges have no byte in common.
pub open spec fn disjoint(a: Span, b: Span) -> bool {
    a.end <= b.start || b.end <= a.start
}

/// No two ranges of a list have a byte in common.
pub open spec fn all_disjoint(list: Seq<Span>) -> bool {
    forall|i: int, j: int|
        0 <= i < list.len() && 0 <= j < list.len() && i != j ==> disjoint(
            #[trigger] list[i],
            #[trigger] list[j],
        )
}

/// No two marks with a place have a byte in common.
pub open spec fn places_disjoint(places: Seq<Option<Span>>) -> bool {
    forall|i: int, j: int|
        0 <= i < places.len() && 0 <= j < places.len() && i != j && (#[trigger] places[i]) is Some
            && (#[trigger] places[j]) is Some ==> disjoint(places[i]->0, places[j]->0)
}

/// Sorting a list of ranges that have no byte in common.
proof fn lemma_sort_disjoint(list: Seq<Span>)
    requires
        all_disjoint(list),
    ensures
        all_disjoint(sort_by(list, span_start())),
        sort_by(list, span_start()).len() == list.len(),
        forall|i: int| 0 <= i < list.len() ==> list.contains(
            #[trigger] sort_by(list, span_start())[i],
        ),
    decreases list.len(),
{
    if list.len() > 0 {
        let shorter = list.drop_last();
        let item = list.last();
        assert(all_disjoint(shorter)) by {
            assert forall|i: int, j: int|
                0 <= i < shorter.len() && 0 <= j < shorter.len() && i != j implies disjoint(
                #[trigger] shorter[i],
                #[trigger] shorter[j],
            ) by {
                assert(shorter[i] == list[i] && shorter[j] == list[j]);
            }
        }
        lemma_sort_disjoint(shorter);
        let sorted = sort_by(shorter, span_start());
        assert forall|i: int| 0 <= i < sorted.len() implies disjoint(#[trigger] sorted[i], item)
            && list.contains(sorted[i]) by {
            assert(shorter.contains(sorted[i]));
            let at = shorter.index_of(sorted[i]);
            assert(list[at] == sorted[i]);
            assert(list[list.len() - 1] == item);
        }
        let at = lemma_insert_at(sorted, item, span_start());
        let longer = sort_by(list, span_start());
        assert(longer == sorted.insert(at, item));
        assert(list[list.len() - 1] == item);
        assert forall|i: int| 0 <= i < longer.len() implies list.contains(#[trigger] longer[i]) by {
            if i < at {
                assert(longer[i] == sorted[i]);
            } else if i > at {
                assert(longer[i] == sorted[i - 1]);
            }
        }
        assert forall|i: int, j: int|
            0 <= i < longer.len() && 0 <= j < longer.len() && i != j implies disjoint(
            #[trigger] longer[i],
            #[trigger] longer[j],
        ) by {
            let a = if i < at {
                i
            } else {
                i - 1
            };
            let b = if j < at {
                j
            } else {
                j - 1
            };
            if i != at {
                assert(longer[i] == sorted[a]);
            }
            if j != at {
                assert(longer[j] == sorted[b]);
            }
        }
    }
}

/// Where an item is inserted.
proof fn lemma_insert_at<T>(list: Seq<T>, item: T, key: spec_fn(T) -> int) -> (at: int)
    ensures
        0 <= at <= list.len(),
        insert_by(list, item, key) == list.insert(at, item),
    decreases list.len(),
{
    if list.len() == 0 || key(list.last()) <= key(item) {
        assert(list.push(item) =~= list.insert(list.len() as int, item));
        list.len() as int
    } else {
        let at = lemma_insert_at(list.drop_last(), item, key);
        assert(list.drop_last().insert(at, item).push(list.last()) =~= list.insert(at, item));
        at
    }
}

/// `span` is the place of one of the first `k` marks, one that was revealed or concealed.
pub open spec fn has_affected(
    places: Seq<Option<Span>>,
    was: Set<usize>,
    is: Set<usize>,
    k: int,
    span: Span,
) -> bool {
    exists|i: int|
        0 <= i < k && #[trigger] places[i] == Some(span) && was.contains(i as usize)
            != is.contains(i as usize)
}

proof fn lemma_affected_upto(
    places: Seq<Option<Span>>,
    was: Set<usize>,
    is: Set<usize>,
    k: int,
)
    requires
        0 <= k <= places.len(),
    ensures
        forall|c: int|
            0 <= c < affected_upto(places, was, is, k).len() ==> has_affected(
                places,
                was,
                is,
                k,
                #[trigger] affected_upto(places, was, is, k)[c],
            ),
        forall|i: int|
            0 <= i < k && (#[trigger] places[i]) is Some && was.contains(i as usize)
                != is.contains(i as usize) ==> affected_upto(places, was, is, k).contains(
                places[i]->0,
            ),
        places_disjoint(places) ==> all_disjoint(affected_upto(places, was, is, k)),
    decreases k,
{
    if k > 0 {
        lemma_affected_upto(places, was, is, k - 1);
        let before = affected_upto(places, was, is, k - 1);
        let list = affected_upto(places, was, is, k);
        assert forall|c: int| 0 <= c < list.len() implies has_affected(
            places,
            was,
            is,
            k,
            #[trigger] list[c],
        ) by {
            if c < before.len() {
                assert(has_affected(places, was, is, k - 1, before[c]));
                let i = choose|i: int|
                    0 <= i < k - 1 && #[trigger] places[i] == Some(before[c]) && was.contains(
                        i as usize,
                    ) != is.contains(i as usize);
                assert(places[i] == Some(list[c]));
            } else {
                assert(places[k - 1] == Some(list[c]));
            }
        }
        assert forall|i: int|
            0 <= i < k && (#[trigger] places[i]) is Some && was.contains(i as usize)
                != is.contains(i as usize) implies list.contains(places[i]->0) by {
            if i < k - 1 {
                let at = before.index_of(places[i]->0);
                assert(before.contains(places[i]->0));
                assert(list[at] == places[i]->0);
            } else {
                assert(list[list.len() - 1] == places[i]->0);
            }
        }
        if places_disjoint(places) {
            assert forall|i: int, j: int|
                0 <= i < list.len() && 0 <= j < list.len() && i != j implies disjoint(
                #[trigger] list[i],
                #[trigger] list[j],
            ) by {
                if i < before.len() && j < before.len() {
                    assert(list[i] == before[i] && list[j] == before[j]);
                } else {
                    let c = if i < before.len() {
                        i
                    } else {
                        j
                    };
                    assert(has_affected(places, was, is, k - 1, before[c]));
                    let m = choose|m: int|
                        0 <= m < k - 1 && #[trigger] places[m] == Some(before[c]) && was.contains(
                            m as usize,
                        ) != is.contains(m as usize);
                    assert(places[m] is Some && places[k - 1] is Some);
                }
            }
        }
    }
}

/// Affected ranges are places of marks that were revealed or concealed, in the
/// order of the text, and apart from each other if the marks are.
pub proof fn law_affected(places: Seq<Option<Span>>, was: Set<usize>, is: Set<usize>)
    ensures
        forall|c: int|
            0 <= c < affected(places, was, is).len() ==> has_affected(
                places,
                was,
                is,
                places.len() as int,
                #[trigger] affected(places, was, is)[c],
            ),
        forall|i: int|
            0 <= i < places.len() && (#[trigger] places[i]) is Some && was.contains(i as usize)
                != is.contains(i as usize) ==> affected(places, was, is).contains(places[i]->0),
        forall|i: int, j: int|
            0 <= i <= j < affected(places, was, is).len() ==> (#[trigger] affected(
                places,
                was,
                is,
            )[i]).start <= (#[trigger] affected(places, was, is)[j]).start,
        places_disjoint(places) ==> all_disjoint(affected(places, was, is)),
{
    broadcast use vstd::seq_lib::group_to_multiset_ensures;

    let n = places.len() as int;
    let list = affected_upto(places, was, is, n);
    let sorted = affected(places, was, is);
    lemma_affected_upto(places, was, is, n);
    law_sort_orders(list, span_start());
    if places_disjoint(places) {
        lemma_sort_disjoint(list);
    }
    assert forall|c: int| 0 <= c < sorted.len() implies has_affected(
        places,
        was,
        is,
        n,
        #[trigger] sorted[c],
    ) by {
        assert(sorted.to_multiset().count(sorted[c]) > 0);
        assert(list.contains(sorted[c]));
        let at = list.index_of(sorted[c]);
        assert(has_affected(places, was, is, n, list[at]));
    }
    assert forall|i: int|
        0 <= i < places.len() && (#[trigger] places[i]) is Some && was.contains(i as usize)
            != is.contains(i as usize) implies sorted.contains(places[i]->0) by {
        assert(list.contains(places[i]->0));
        assert(list.to_multiset().count(places[i]->0) > 0);
    }
    let key = span_start();
    assert forall|i: int, j: int| 0 <= i <= j < sorted.len() implies (#[trigger] sorted[i]).start <= (
    #[trigger] sorted[j]).start by {
        assert(key(sorted[i]) <= key(sorted[j]));
    }
}

/// `hidden` starts within one of the ranges of a list, which may be `hidden` itself.
pub open spec fn starts_within(list: Seq<Hidden>, hidden: Hidden) -> bool {
    exists|r: int|
        0 <= r < list.len() && (#[trigger] list[r]).start <= hidden.start < list[r].end
}

/// What is kept comes from the list, in order and apart.
proof fn lemma_keep_first(list: Seq<Hidden>, len: int)
    requires
        forall|i: int|
            0 <= i < list.len() ==> 0 <= (#[trigger] list[i]).start < list[i].end <= len,
    ensures
        hiddens_wf(keep_first(list), len),
        list.len() > 0 ==> keep_first(list).len() > 0,
        forall|i: int| 0 <= i < keep_first(list).len() ==> list.contains(
            #[trigger] keep_first(list)[i],
        ),
    decreases list.len(),
{
    if list.len() > 0 {
        let shorter = list.drop_last();
        lemma_keep_first(shorter, len);
        let before = keep_first(shorter);
        assert forall|i: int| 0 <= i < before.len() implies list.contains(
            #[trigger] before[i],
        ) by {
            let at = shorter.index_of(before[i]);
            assert(shorter.contains(before[i]));
            assert(list[at] == before[i]);
        }
        assert(list[list.len() - 1] == list.last());
        if before.len() > 0 && list.last().start >= before.last().end {
            assert forall|i: int| 0 <= i < before.len() implies (#[trigger] before[i]).end
                <= list.last().start by {
                if i < before.len() - 1 {
                    assert(before[i].end <= before[before.len() - 1].start);
                }
            }
        }
    }
}

/// What is not kept of an ordered list starts within something that is.
proof fn lemma_keep_all(list: Seq<Hidden>, len: int)
    requires
        forall|i: int|
            0 <= i < list.len() ==> 0 <= (#[trigger] list[i]).start < list[i].end <= len,
        forall|i: int, j: int|
            0 <= i <= j < list.len() ==> (#[trigger] list[i]).start <= (#[trigger] list[j]).start,
    ensures
        forall|i: int|
            0 <= i < list.len() ==> starts_within(keep_first(list), #[trigger] list[i]),
    decreases list.len(),
{
    if list.len() > 0 {
        let shorter = list.drop_last();
        let before = keep_first(shorter);
        let all = keep_first(list);
        lemma_keep_all(shorter, len);
        lemma_keep_first(shorter, len);
        assert forall|i: int| 0 <= i < list.len() implies starts_within(
            all,
            #[trigger] list[i],
        ) by {
            if i < shorter.len() {
                assert(starts_within(before, shorter[i]));
                let r = choose|r: int|
                    0 <= r < before.len() && (#[trigger] before[r]).start <= shorter[i].start
                        < before[r].end;
                assert(all[r] == before[r]);
            } else if before.len() > 0 && list.last().start < before.last().end {
                let r = before.len() - 1;
                assert(shorter.contains(before[r]));
                let at = shorter.index_of(before[r]);
                assert(list[at] == before[r]);
                assert(all[r] == before[r]);
            } else {
                assert(all[all.len() - 1] == list[i]);
            }
        }
    }
}

/// A candidate is a mark with a place that is not revealed.
proof fn lemma_candidates(
    marks: Seq<Mark>,
    places: Seq<Option<Span>>,
    revealed: Set<usize>,
    k: int,
)
    requires
        0 <= k <= places.len(),
    ensures
        forall|c: int|
            0 <= c < candidates(marks, places, revealed, k).len() ==> has_mark(
                marks,
                places,
                revealed,
                k,
                #[trigger] candidates(marks, places, revealed, k)[c],
            ),
        forall|i: int|
            0 <= i < k && (#[trigger] places[i]) is Some && !revealed.contains(i as usize)
                ==> candidates(marks, places, revealed, k).contains(hidden_mark(marks, places, i)),
    decreases k,
{
    if k > 0 {
        lemma_candidates(marks, places, revealed, k - 1);
        let list = candidates(marks, places, revealed, k);
        let before = candidates(marks, places, revealed, k - 1);
        assert forall|i: int|
            0 <= i < k && (#[trigger] places[i]) is Some && !revealed.contains(
                i as usize,
            ) implies list.contains(hidden_mark(marks, places, i)) by {
            let hidden = hidden_mark(marks, places, i);
            if i < k - 1 {
                let at = before.index_of(hidden);
                assert(before.contains(hidden));
                assert(list[at] == hidden);
            } else {
                assert(list[list.len() - 1] == hidden);
            }
        }
        assert forall|c: int| 0 <= c < list.len() implies has_mark(
            marks,
            places,
            revealed,
            k,
            #[trigger] list[c],
        ) by {
            if c < before.len() {
                assert(has_mark(marks, places, revealed, k - 1, before[c]));
                let i = choose|i: int|
                    0 <= i < k - 1 && is_candidate(marks, places, revealed, i, before[c]);
                assert(is_candidate(marks, places, revealed, i, list[c]));
            } else {
                assert(is_candidate(marks, places, revealed, k - 1, list[c]));
            }
        }
    }
}

/// What mark `i` hides at its place.
pub open spec fn hidden_mark(marks: Seq<Mark>, places: Seq<Option<Span>>, i: int) -> Hidden {
    Hidden { start: places[i]->0.start, end: places[i]->0.end, text: marks[i].text }
}

/// Mark `i` has the place and the text of `hidden` and is not revealed.
pub open spec fn is_candidate(
    marks: Seq<Mark>,
    places: Seq<Option<Span>>,
    revealed: Set<usize>,
    i: int,
    hidden: Hidden,
) -> bool {
    &&& places[i] == Some(Span { start: hidden.start, end: hidden.end })
    &&& marks[i].text == hidden.text
    &&& !revealed.contains(i as usize)
}

/// One of the first `k` marks has the place and the text of `hidden` and is not revealed.
pub open spec fn has_mark(
    marks: Seq<Mark>,
    places: Seq<Option<Span>>,
    revealed: Set<usize>,
    k: int,
    hidden: Hidden,
) -> bool {
    exists|i: int| 0 <= i < k && is_candidate(marks, places, revealed, i, hidden)
}

/// Hidden ranges are places of marks that are not revealed, in the order of the
/// text and apart from each other, and every such mark starts within one of them.
pub proof fn law_resolved(
    marks: Seq<Mark>,
    places: Seq<Option<Span>>,
    revealed: Set<usize>,
    len: int,
)
    requires
        marks.len() == places.len(),
        places_within(places, len),
    ensures
        hiddens_wf(resolved(marks, places, revealed), len),
        forall|r: int|
            0 <= r < resolved(marks, places, revealed).len() ==> has_mark(
                marks,
                places,
                revealed,
                marks.len() as int,
                #[trigger] resolved(marks, places, revealed)[r],
            ),
        forall|i: int|
            0 <= i < marks.len() && (#[trigger] places[i]) is Some && !revealed.contains(
                i as usize,
            ) ==> starts_within(
                resolved(marks, places, revealed),
                hidden_mark(marks, places, i),
            ),
{
    broadcast use vstd::seq_lib::group_to_multiset_ensures;

    let all = candidates(marks, places, revealed, marks.len() as int);
    let sorted = sort_by(all, hidden_start());
    lemma_candidates(marks, places, revealed, marks.len() as int);
    law_sort_orders(all, hidden_start());
    assert forall|s: int| 0 <= s < sorted.len() implies all.contains(#[trigger] sorted[s]) by {
        assert(sorted.to_multiset().count(sorted[s]) > 0);
    }
    assert forall|s: int| 0 <= s < sorted.len() implies 0 <= (#[trigger] sorted[s]).start
        < sorted[s].end <= len by {
        let c = all.index_of(sorted[s]);
        assert(all.contains(sorted[s]));
        assert(has_mark(marks, places, revealed, marks.len() as int, all[c]));
        let i = choose|i: int|
            0 <= i < marks.len() && is_candidate(marks, places, revealed, i, all[c]);
        assert(places[i] matches Some(span) ==> 0 <= span.start < span.end <= len);
    }
    let key = hidden_start();
    assert forall|i: int, j: int| 0 <= i <= j < sorted.len() implies (#[trigger] sorted[i]).start <= (
    #[trigger] sorted[j]).start by {
        assert(key(sorted[i]) <= key(sorted[j]));
    }
    lemma_keep_first(sorted, len);
    lemma_keep_all(sorted, len);
    let list = resolved(marks, places, revealed);
    assert forall|i: int|
        0 <= i < marks.len() && (#[trigger] places[i]) is Some && !revealed.contains(
            i as usize,
        ) implies starts_within(list, hidden_mark(marks, places, i)) by {
        let hidden = hidden_mark(marks, places, i);
        assert(all.contains(hidden));
        assert(all.to_multiset().count(hidden) > 0);
        assert(sorted.contains(hidden));
        let at = sorted.index_of(hidden);
        assert(starts_within(list, sorted[at]));
    }
    assert forall|r: int| 0 <= r < list.len() implies has_mark(
        marks,
        places,
        revealed,
        marks.len() as int,
        #[trigger] list[r],
    ) by {
        let s = sorted.index_of(list[r]);
        assert(sorted.contains(list[r]));
        assert(all.contains(sorted[s]));
        let c = all.index_of(sorted[s]);
        assert(has_mark(marks, places, revealed, marks.len() as int, all[c]));
    }
}

/// Adds a range to an ordered list of hidden ranges.
fn insert_hidden(list: &mut Vec<(Range<FoldOffset>, String)>, item: (Range<FoldOffset>, String))
    ensures
        hiddens_of(final(list)@) == insert_by(
            hiddens_of(old(list)@),
            hidden_of(item),
            hidden_start(),
        ),
{
    let mut at: usize = list.len();
    while at > 0 && list[at - 1].0.start.0.0 > item.0.start.0.0
        invariant
            at <= list@.len(),
            forall|i: int|
                at <= i < list@.len() ==> item.0.start@ < (#[trigger] hiddens_of(list@)[i]).start,
        decreases at,
    {
        at = at - 1;
        assert(hiddens_of(list@)[at as int] == hidden_of(list@[at as int]));
    }
    proof {
        lemma_insert_by(hiddens_of(list@), hidden_of(item), hidden_start(), at as int);
        assert(hiddens_of(list@.insert(at as int, item)) =~= hiddens_of(list@).insert(
            at as int,
            hidden_of(item),
        ));
    }
    list.insert(at, item);
}

/// Adds a range to an ordered list of ranges.
fn insert_span(list: &mut Vec<Range<FoldOffset>>, item: Range<FoldOffset>)
    ensures
        spans_of(final(list)@) == insert_by(spans_of(old(list)@), span_of(item), span_start()),
{
    let mut at: usize = list.len();
    while at > 0 && list[at - 1].start.0.0 > item.start.0.0
        invariant
            at <= list@.len(),
            forall|i: int|
                at <= i < list@.len() ==> item.start@ < (#[trigger] spans_of(list@)[i]).start,
        decreases at,
    {
        at = at - 1;
        assert(spans_of(list@)[at as int] == span_of(list@[at as int]));
    }
    proof {
        lemma_insert_by(spans_of(list@), span_of(item), span_start(), at as int);
        assert(spans_of(list@.insert(at as int, item)) =~= spans_of(list@).insert(
            at as int,
            span_of(item),
        ));
    }
    list.insert(at, item);
}

/// Where each concealment lies in fold space.
pub fn fold_ranges(fold_snapshot: &FoldSnapshot, concealments: &Vec<Concealment>) -> (ranges: Vec<
    Option<Range<FoldOffset>>,
>)
    requires
        fold_wf(fold_snapshot@),
        anchored(marks_of(concealments@), fold_snapshot@),
    ensures
        places_of(ranges@) == places(fold_snapshot@, marks_of(concealments@)),
{
    let mut ranges: Vec<Option<Range<FoldOffset>>> = Vec::new();
    let ghost marks = marks_of(concealments@);
    let ghost all = places(fold_snapshot@, marks);
    let mut i: usize = 0;
    while i < concealments.len()
        invariant
            marks == marks_of(concealments@),
            all == places(fold_snapshot@, marks),
            fold_wf(fold_snapshot@),
            anchored(marks, fold_snapshot@),
            i == ranges@.len() <= concealments@.len(),
            forall|k: int| 0 <= k < i ==> place_of(#[trigger] ranges@[k]) == all[k],
        decreases concealments@.len() - i,
    {
        assert(marks[i as int] == mark_of(concealments@[i as int]));
        let range = &concealments[i].0;
        let ghost mark = marks[i as int];
        assert(pos_between(fold_snapshot@.text, fold_snapshot@.anchors[mark.start].right@));
        assert(pos_between(fold_snapshot@.text, fold_snapshot@.anchors[mark.end].left@));
        let start = fold_snapshot.to_fold_point(range.start, Bias::Right).to_offset(fold_snapshot);
        let end = fold_snapshot.to_fold_point(range.end, Bias::Left).to_offset(fold_snapshot);
        if start.0.0 < end.0.0 {
            ranges.push(Some(start..end));
        } else {
            ranges.push(None);
        }
        i = i + 1;
    }
    assert(places_of(ranges@) =~= all);
    ranges
}

/// The ranges that are hidden, in the order of the text.
pub fn resolve(
    concealments: &Vec<Concealment>,
    ranges: &Vec<Option<Range<FoldOffset>>>,
    revealed: &HashSet<usize>,
) -> (entries: Vec<(Range<FoldOffset>, String)>)
    requires
        ranges@.len() == concealments@.len(),
    ensures
        hiddens_of(entries@) == resolved(
            marks_of(concealments@),
            places_of(ranges@),
            revealed@,
        ),
{
    broadcast use vstd::std_specs::hash::group_hash_axioms;

    let ghost marks = marks_of(concealments@);
    let ghost spans = places_of(ranges@);
    let mut sorted: Vec<(Range<FoldOffset>, String)> = Vec::new();
    let mut i: usize = 0;
    assert(hiddens_of(sorted@) =~= Seq::<Hidden>::empty());
    while i < ranges.len()
        invariant
            marks == marks_of(concealments@),
            spans == places_of(ranges@),
            ranges@.len() == concealments@.len(),
            i <= ranges@.len(),
            hiddens_of(sorted@) == sort_by(
                candidates(marks, spans, revealed@, i as int),
                hidden_start(),
            ),
        decreases ranges@.len() - i,
    {
        assert(spans[i as int] == place_of(ranges@[i as int]));
        assert(marks[i as int] == mark_of(concealments@[i as int]));
        if let Some(range) = &ranges[i] {
            if !revealed.contains(&i) {
                let item = (range.start..range.end, concealments[i].1.clone());
                insert_hidden(&mut sorted, item);
                proof {
                    let before = candidates(marks, spans, revealed@, i as int);
                    let next = candidates(marks, spans, revealed@, i + 1);
                    assert(next.drop_last() =~= before);
                }
            }
        }
        i = i + 1;
    }
    let ghost all = hiddens_of(sorted@);
    let mut kept: Vec<(Range<FoldOffset>, String)> = Vec::new();
    let mut k: usize = 0;
    assert(hiddens_of(kept@) =~= Seq::<Hidden>::empty());
    while k < sorted.len()
        invariant
            k <= sorted@.len(),
            all == hiddens_of(sorted@),
            hiddens_of(kept@) == keep_first(all.take(k as int)),
        decreases sorted@.len() - k,
    {
        let range = sorted[k].0.start..sorted[k].0.end;
        let count = kept.len();
        proof {
            assert(all.take(k + 1).drop_last() =~= all.take(k as int));
            assert(all[k as int] == hidden_of(sorted@[k as int]));
            if count > 0 {
                assert(hiddens_of(kept@).last() == hidden_of(kept@.last()));
            }
        }
        if count == 0 || range.start.0.0 >= kept[count - 1].0.end.0.0 {
            let item = (range, sorted[k].1.clone());
            assert(hiddens_of(kept@.push(item)) =~= hiddens_of(kept@).push(hidden_of(item)));
            kept.push(item);
        }
        k = k + 1;
    }
    assert(all.take(all.len() as int) =~= all);
    kept
}

/// The ranges whose concealment was revealed or concealed, in the order of the text.
pub fn reveal_affected(
    ranges: &Vec<Option<Range<FoldOffset>>>,
    was: &HashSet<usize>,
    is: &HashSet<usize>,
) -> (list: Vec<Range<FoldOffset>>)
    ensures
        spans_of(list@) == affected(places_of(ranges@), was@, is@),
{
    broadcast use vstd::std_specs::hash::group_hash_axioms;

    let ghost spans = places_of(ranges@);
    let mut list: Vec<Range<FoldOffset>> = Vec::new();
    let mut i: usize = 0;
    assert(spans_of(list@) =~= Seq::<Span>::empty());
    while i < ranges.len()
        invariant
            spans == places_of(ranges@),
            i <= ranges@.len(),
            spans_of(list@) == sort_by(
                affected_upto(spans, was@, is@, i as int),
                span_start(),
            ),
        decreases ranges@.len() - i,
    {
        assert(spans[i as int] == place_of(ranges@[i as int]));
        if let Some(range) = &ranges[i] {
            let was_revealed = was.contains(&i);
            let is_revealed = is.contains(&i);
            if was_revealed != is_revealed {
                insert_span(&mut list, range.start..range.end);
                proof {
                    let before = affected_upto(spans, was@, is@, i as int);
                    let next = affected_upto(spans, was@, is@, i + 1);
                    assert(next.drop_last() =~= before);
                }
            }
        }
        i = i + 1;
    }
    list
}

/// Where an item goes in an ordered list.
proof fn lemma_slot<T>(list: Seq<T>, item: T, key: spec_fn(T) -> int, k: int) -> (at: int)
    requires
        0 <= k <= list.len(),
        forall|i: int, j: int|
            0 <= i <= j < list.len() ==> key(#[trigger] list[i]) <= key(#[trigger] list[j]),
        forall|i: int| k <= i < list.len() ==> key(item) < key(#[trigger] list[i]),
    ensures
        0 <= at <= list.len(),
        insert_by(list, item, key) == list.insert(at, item),
        forall|i: int| 0 <= i < at ==> key(#[trigger] list[i]) <= key(item),
        forall|i: int| at <= i < list.len() ==> key(item) < key(#[trigger] list[i]),
    decreases k,
{
    if k == 0 || key(list[k - 1]) <= key(item) {
        lemma_insert_by(list, item, key, k);
        assert forall|i: int| 0 <= i < k implies key(#[trigger] list[i]) <= key(item) by {
            assert(key(list[i]) <= key(list[k - 1]));
        }
        k
    } else {
        lemma_slot(list, item, key, k - 1)
    }
}

/// Mark `a` comes before mark `b`: it starts earlier, or at the same place with a smaller
/// number.
spec fn mark_before(places: Seq<Option<Span>>, a: int, b: int) -> bool {
    places[a]->0.start < places[b]->0.start || (places[a]->0.start == places[b]->0.start && a < b)
}

/// The marks behind the sorted candidates.
proof fn lemma_sorted_marks(
    marks: Seq<Mark>,
    places: Seq<Option<Span>>,
    revealed: Set<usize>,
    k: int,
) -> (ids: Seq<int>)
    requires
        marks.len() == places.len(),
        0 <= k <= marks.len(),
    ensures
        ({
            let list = sort_by(candidates(marks, places, revealed, k), hidden_start());
            &&& ids.len() == list.len()
            &&& forall|m: int|
                0 <= m < ids.len() ==> {
                    let i = #[trigger] ids[m];
                    &&& 0 <= i < k
                    &&& places[i] is Some
                    &&& !revealed.contains(i as usize)
                    &&& list[m] == hidden_mark(marks, places, i)
                }
            &&& forall|m: int, n: int|
                0 <= m < n < ids.len() ==> mark_before(
                    places,
                    #[trigger] ids[m],
                    #[trigger] ids[n],
                )
            &&& forall|i: int|
                0 <= i < k && (#[trigger] places[i]) is Some && !revealed.contains(i as usize)
                    ==> ids.contains(i)
        }),
    decreases k,
{
    let key = hidden_start();
    if k == 0 {
        Seq::empty()
    } else {
        let ids = lemma_sorted_marks(marks, places, revealed, k - 1);
        let before = candidates(marks, places, revealed, k - 1);
        let sorted = sort_by(before, key);
        if places[k - 1] is Some && !revealed.contains((k - 1) as usize) {
            let item = hidden_mark(marks, places, k - 1);
            let all = candidates(marks, places, revealed, k);
            assert(all =~= before.push(item));
            assert(all.drop_last() =~= before);
            law_sort_orders(before, key);
            let at = lemma_slot(sorted, item, key, sorted.len() as int);
            let list = sort_by(all, key);
            assert(list == sorted.insert(at, item));
            let longer = ids.insert(at, k - 1);
            assert forall|m: int| 0 <= m < longer.len() implies {
                let i = #[trigger] longer[m];
                &&& 0 <= i < k
                &&& places[i] is Some
                &&& !revealed.contains(i as usize)
                &&& list[m] == hidden_mark(marks, places, i)
            } by {
                if m < at {
                    assert(longer[m] == ids[m]);
                    assert(list[m] == sorted[m]);
                } else if m > at {
                    assert(longer[m] == ids[m - 1]);
                    assert(list[m] == sorted[m - 1]);
                }
            }
            assert forall|m: int, n: int| 0 <= m < n < longer.len() implies mark_before(
                places,
                #[trigger] longer[m],
                #[trigger] longer[n],
            ) by {
                if n < at {
                    assert(longer[m] == ids[m] && longer[n] == ids[n]);
                } else if n == at {
                    assert(longer[m] == ids[m]);
                    assert(key(sorted[m]) <= key(item));
                } else if m == at {
                    assert(longer[n] == ids[n - 1]);
                    assert(key(item) < key(sorted[n - 1]));
                } else if m < at {
                    assert(longer[m] == ids[m] && longer[n] == ids[n - 1]);
                } else {
                    assert(longer[m] == ids[m - 1] && longer[n] == ids[n - 1]);
                }
            }
            assert forall|i: int|
                0 <= i < k && (#[trigger] places[i]) is Some && !revealed.contains(
                    i as usize,
                ) implies longer.contains(i) by {
                if i < k - 1 {
                    assert(ids.contains(i));
                    let m = ids.index_of(i);
                    assert(longer[if m < at { m } else { m + 1 }] == i);
                } else {
                    assert(longer[at] == i);
                }
            }
            longer
        } else {
            ids
        }
    }
}

/// An item of a list in the order of the text is kept, or starts within one that comes
/// before it and is kept.
proof fn lemma_kept_by(list: Seq<Hidden>, m: int, len: int) -> (j: int)
    requires
        forall|i: int|
            0 <= i < list.len() ==> 0 <= (#[trigger] list[i]).start < list[i].end <= len,
        forall|i: int, j: int|
            0 <= i <= j < list.len() ==> (#[trigger] list[i]).start <= (#[trigger] list[j]).start,
        0 <= m < list.len(),
    ensures
        0 <= j <= m,
        keep_first(list).contains(list[j]),
        list[j].start <= list[m].start < list[j].end,
    decreases list.len(),
{
    let shorter = list.drop_last();
    let before = keep_first(shorter);
    let all = keep_first(list);
    lemma_keep_first(shorter, len);
    if m < shorter.len() {
        let j = lemma_kept_by(shorter, m, len);
        let at = before.index_of(shorter[j]);
        assert(all[at] == list[j]);
        j
    } else if before.len() > 0 && list.last().start < before.last().end {
        let r = before.len() - 1;
        assert(shorter.contains(before[r]));
        let j = shorter.index_of(before[r]);
        assert(shorter[j] == list[j]);
        assert(all[r] == list[j]);
        j
    } else {
        assert(all[all.len() - 1] == list[m]);
        m
    }
}

/// The sorted candidates are ranges of the text in its order.
proof fn lemma_sorted_wf(
    marks: Seq<Mark>,
    places: Seq<Option<Span>>,
    revealed: Set<usize>,
    len: int,
    ids: Seq<int>,
)
    requires
        marks.len() == places.len(),
        places_within(places, len),
        ({
            let list = sort_by(
                candidates(marks, places, revealed, marks.len() as int),
                hidden_start(),
            );
            &&& ids.len() == list.len()
            &&& forall|m: int|
                0 <= m < ids.len() ==> {
                    let i = #[trigger] ids[m];
                    &&& 0 <= i < marks.len()
                    &&& places[i] is Some
                    &&& list[m] == hidden_mark(marks, places, i)
                }
        }),
    ensures
        ({
            let list = sort_by(
                candidates(marks, places, revealed, marks.len() as int),
                hidden_start(),
            );
            &&& forall|m: int|
                0 <= m < list.len() ==> 0 <= (#[trigger] list[m]).start < list[m].end <= len
            &&& forall|i: int, j: int|
                0 <= i <= j < list.len() ==> (#[trigger] list[i]).start <= (
                #[trigger] list[j]).start
        }),
{
    let all = candidates(marks, places, revealed, marks.len() as int);
    let list = sort_by(all, hidden_start());
    law_sort_orders(all, hidden_start());
    assert forall|m: int| 0 <= m < list.len() implies 0 <= (#[trigger] list[m]).start
        < list[m].end <= len by {
        let i = ids[m];
        assert(places[i] matches Some(span) ==> 0 <= span.start < span.end <= len);
    }
    assert forall|i: int, j: int| 0 <= i <= j < list.len() implies (#[trigger] list[i]).start <= (
    #[trigger] list[j]).start by {
        assert(hidden_start()(list[i]) <= hidden_start()(list[j]));
    }
}

/// For a mark that is not revealed there is one that is hidden from its start to its end, with
/// its text, and that covers the start of the mark: the mark itself, or one that comes
/// before it, which starts earlier, or at the same place and stands before it in the list.
pub proof fn law_first_kept(
    marks: Seq<Mark>,
    places: Seq<Option<Span>>,
    revealed: Set<usize>,
    len: int,
    i: int,
) -> (j: int)
    requires
        marks.len() == places.len(),
        places_within(places, len),
        0 <= i < marks.len(),
        places[i] is Some,
        !revealed.contains(i as usize),
    ensures
        0 <= j < marks.len(),
        places[j] is Some,
        !revealed.contains(j as usize),
        places[j]->0.start <= places[i]->0.start < places[j]->0.end,
        places[j]->0.start < places[i]->0.start || j <= i,
        resolved(marks, places, revealed).contains(
            Hidden { start: places[j]->0.start, end: places[j]->0.end, text: marks[j].text },
        ),
{
    let n = marks.len() as int;
    let list = sort_by(candidates(marks, places, revealed, n), hidden_start());
    let ids = lemma_sorted_marks(marks, places, revealed, n);
    lemma_sorted_wf(marks, places, revealed, len, ids);
    assert(ids.contains(i));
    let m = ids.index_of(i);
    let at = lemma_kept_by(list, m, len);
    let j = ids[at];
    assert(ids[m] == i);
    if at < m {
        assert(mark_before(places, ids[at], ids[m]));
    }
    j
}

/// What is hidden is the place of a mark that is not revealed, with the text of that mark,
/// and comes in the order of the text without a byte in common with what is hidden behind it.
pub proof fn law_hidden_mark(
    marks: Seq<Mark>,
    places: Seq<Option<Span>>,
    revealed: Set<usize>,
    len: int,
    r: int,
) -> (i: int)
    requires
        marks.len() == places.len(),
        places_within(places, len),
        0 <= r < resolved(marks, places, revealed).len(),
    ensures
        0 <= i < marks.len(),
        places[i] is Some,
        !revealed.contains(i as usize),
        resolved(marks, places, revealed)[r].start == places[i]->0.start,
        resolved(marks, places, revealed)[r].end == places[i]->0.end,
        resolved(marks, places, revealed)[r].text == marks[i].text,
        forall|t: int|
            r < t < resolved(marks, places, revealed).len() ==> resolved(
                marks,
                places,
                revealed,
            )[r].end <= (#[trigger] resolved(marks, places, revealed)[t]).start,
{
    let n = marks.len() as int;
    let list = sort_by(candidates(marks, places, revealed, n), hidden_start());
    let rs = resolved(marks, places, revealed);
    let ids = lemma_sorted_marks(marks, places, revealed, n);
    lemma_sorted_wf(marks, places, revealed, len, ids);
    lemma_keep_first(list, len);
    assert(list.contains(rs[r]));
    let m = list.index_of(rs[r]);
    assert(list[m] == hidden_mark(marks, places, ids[m]));
    ids[m]
}

/// What is affected is the place of a mark that was revealed or concealed, and comes in the
/// order of the text.
pub proof fn law_affected_mark(
    places: Seq<Option<Span>>,
    was: Set<usize>,
    is: Set<usize>,
    c: int,
) -> (i: int)
    requires
        0 <= c < affected(places, was, is).len(),
    ensures
        0 <= i < places.len(),
        places[i] is Some,
        places[i]->0.start == affected(places, was, is)[c].start,
        places[i]->0.end == affected(places, was, is)[c].end,
        was.contains(i as usize) != is.contains(i as usize),
        forall|d: int|
            c <= d < affected(places, was, is).len() ==> affected(places, was, is)[c].start <= (
            #[trigger] affected(places, was, is)[d]).start,
{
    law_affected(places, was, is);
    let span = affected(places, was, is)[c];
    assert(has_affected(places, was, is, places.len() as int, span));
    choose|i: int|
        0 <= i < places.len() && #[trigger] places[i] == Some(span) && was.contains(i as usize)
            != is.contains(i as usize)
}

} // verus!

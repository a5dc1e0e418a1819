//! Edits between two versions of a text, and patches made of them.

use crate::coords::{ConcealOffset, FoldOffset};
use crate::fold::on_boundary;
use std::ops::Range;
use vstd::prelude::*;

verus! {

/// A range of an old text that became a range of a new one.
#[derive(Debug, PartialEq, Eq)]
pub struct Edit<T> {
    pub old: Range<T>,
    pub new: Range<T>,
}

impl<T: Copy> Clone for Edit<T> {
    fn clone(&self) -> (edit: Self)
        ensures
            edit == *self,
    {
        Edit { old: self.old.start..self.old.end, new: self.new.start..self.new.end }
    }
}

/// An edit of the text that this layer displays.
pub type ConcealEdit = Edit<ConcealOffset>;

/// An edit of the text that the layer below displays.
pub type FoldEdit = Edit<FoldOffset>;

/// An edit in unbounded byte offsets.
pub struct Change {
    pub old_start: int,
    pub old_end: int,
    pub new_start: int,
    pub new_end: int,
}

impl View for Edit<ConcealOffset> {
    type V = Change;

    open spec fn view(&self) -> Change {
        Change {
            old_start: self.old.start@,
            old_end: self.old.end@,
            new_start: self.new.start@,
            new_end: self.new.end@,
        }
    }
}

impl View for Edit<FoldOffset> {
    type V = Change;

    open spec fn view(&self) -> Change {
        Change {
            old_start: self.old.start@,
            old_end: self.old.end@,
            new_start: self.new.start@,
            new_end: self.new.end@,
        }
    }
}

/// The changes that a list of conceal edits stands for.
pub open spec fn conceal_changes(edits: Seq<ConcealEdit>) -> Seq<Change> {
    edits.map_values(|edit: ConcealEdit| edit@)
}

/// The changes that a list of fold edits stands for.
pub open spec fn fold_changes(edits: Seq<FoldEdit>) -> Seq<Change> {
    edits.map_values(|edit: FoldEdit| edit@)
}

/// A patch with one more change at its end: a change of nothing is dropped, and
/// one that touches the last change extends it.
pub open spec fn patch_push(patch: Seq<Change>, change: Change) -> Seq<Change> {
    if change.old_start == change.old_end && change.new_start == change.new_end {
        patch
    } else if patch.len() > 0 && patch.last().old_end >= change.old_start {
        patch.drop_last().push(
            Change { old_end: change.old_end, new_end: change.new_end, ..patch.last() },
        )
    } else {
        patch.push(change)
    }
}

/// Where the text between change `k - 1` and change `k` starts in the old text.
pub open spec fn zone_start(changes: Seq<Change>, k: int) -> int {
    if k <= 0 {
        0
    } else {
        changes[k - 1].old_end
    }
}

/// Where that text ends in an old text of `len` bytes.
pub open spec fn zone_end(changes: Seq<Change>, k: int, len: int) -> int {
    if k < changes.len() {
        changes[k].old_start
    } else {
        len
    }
}

/// How far that text has moved.
pub open spec fn zone_shift(changes: Seq<Change>, k: int) -> int {
    if k <= 0 {
        0
    } else {
        changes[k - 1].new_end - changes[k - 1].old_end
    }
}

/// The text between change `k - 1` and change `k` is the same in both texts.
pub open spec fn zone_kept(old: Seq<u8>, new: Seq<u8>, changes: Seq<Change>, k: int) -> bool {
    let start = zone_start(changes, k);
    let end = zone_end(changes, k, old.len() as int);
    let shift = zone_shift(changes, k);
    &&& 0 <= start <= end <= old.len()
    &&& 0 <= start + shift
    &&& end + shift <= new.len()
    &&& k < changes.len() ==> changes[k].new_start == end + shift
    &&& k >= changes.len() ==> new.len() == end + shift
    &&& old.subrange(start, end) == new.subrange(start + shift, end + shift)
}

/// `changes` turn `old` into `new`: they are in order, and all between them is kept.
pub open spec fn describes(old: Seq<u8>, new: Seq<u8>, changes: Seq<Change>) -> bool {
    &&& forall|k: int| 0 <= k <= changes.len() ==> #[trigger] zone_kept(old, new, changes, k)
    &&& forall|k: int|
        0 <= k < changes.len() ==> (#[trigger] changes[k]).old_start <= changes[k].old_end
            && changes[k].new_start <= changes[k].new_end
}

/// What stands in `new` up to the end of the first `k` changes: between them text of `old`,
/// and in each what has come in its place.
pub open spec fn patched(old: Seq<u8>, new: Seq<u8>, changes: Seq<Change>, k: int) -> Seq<u8>
    decreases k,
{
    if k <= 0 {
        Seq::empty()
    } else {
        let from = if k == 1 {
            0
        } else {
            changes[k - 2].old_end
        };
        patched(old, new, changes, k - 1) + old.subrange(from, changes[k - 1].old_start)
            + new.subrange(changes[k - 1].new_start, changes[k - 1].new_end)
    }
}

proof fn lemma_patched(old: Seq<u8>, new: Seq<u8>, changes: Seq<Change>, k: int)
    requires
        describes(old, new, changes),
        0 < k <= changes.len(),
    ensures
        patched(old, new, changes, k) == new.take(changes[k - 1].new_end),
    decreases k,
{
    let c = changes[k - 1];
    let before = patched(old, new, changes, k - 1);
    assert(zone_kept(old, new, changes, k - 1));
    assert(zone_kept(old, new, changes, k));
    if k > 1 {
        lemma_patched(old, new, changes, k - 1);
        assert(changes[k - 2].new_start <= changes[k - 2].new_end);
    }
    let start = zone_start(changes, k - 1);
    let shift = zone_shift(changes, k - 1);
    assert(before =~= new.take(start + shift));
    assert(old.subrange(start, c.old_start) == new.subrange(start + shift, c.new_start));
    assert(new.take(start + shift) + new.subrange(start + shift, c.new_start) + new.subrange(
        c.new_start,
        c.new_end,
    ) =~= new.take(c.new_end));
}

/// Replacing each changed range of the old text by the new text of that range gives the new
/// text, and the ends of every change lie within the texts and in order.
pub proof fn law_describes(old: Seq<u8>, new: Seq<u8>, changes: Seq<Change>)
    requires
        describes(old, new, changes),
    ensures
        changes.len() == 0 ==> old == new,
        changes.len() > 0 ==> patched(old, new, changes, changes.len() as int) + old.skip(
            changes.last().old_end,
        ) == new,
        forall|i: int|
            0 <= i < changes.len() ==> 0 <= (#[trigger] changes[i]).old_start <= changes[i].old_end
                <= old.len() && 0 <= changes[i].new_start <= changes[i].new_end <= new.len(),
{
    let n = changes.len() as int;
    assert(zone_kept(old, new, changes, n));
    assert forall|i: int| 0 <= i < n implies 0 <= (#[trigger] changes[i]).old_start
        <= changes[i].old_end <= old.len() && 0 <= changes[i].new_start <= changes[i].new_end
        <= new.len() by {
        assert(zone_kept(old, new, changes, i));
        assert(zone_kept(old, new, changes, i + 1));
    }
    if n == 0 {
        assert(old =~= old.subrange(0, old.len() as int));
        assert(new =~= new.subrange(0, new.len() as int));
    } else {
        let c = changes[n - 1];
        lemma_patched(old, new, changes, n);
        assert(old.skip(c.old_end) =~= old.subrange(c.old_end, old.len() as int));
        assert(new =~= new.take(c.new_end) + new.subrange(c.new_end, new.len() as int));
    }
}

/// The changes cut no character of the new text.
pub open spec fn changes_between_chars(new: Seq<u8>, changes: Seq<Change>) -> bool {
    forall|k: int|
        0 <= k < changes.len() ==> on_boundary(new, (#[trigger] changes[k]).new_start)
            && on_boundary(new, changes[k].new_end)
}

/// Conceal edits in the order of the text.
pub struct Patch {
    edits: Vec<ConcealEdit>,
}

impl View for Patch {
    type V = Seq<Change>;

    closed spec fn view(&self) -> Seq<Change> {
        conceal_changes(self.edits@)
    }
}

impl Patch {
    pub fn new() -> (patch: Patch)
        ensures
            patch@ == Seq::<Change>::empty(),
    {
        let patch = Patch { edits: Vec::new() };
        assert(patch@ =~= Seq::<Change>::empty());
        patch
    }

    pub fn push(&mut self, edit: ConcealEdit)
        ensures
            final(self)@ == patch_push(old(self)@, edit@),
    {
        if edit.old.start == edit.old.end && edit.new.start == edit.new.end {
            return;
        }
        let ghost before = self.edits@;
        let count = self.edits.len();
        if count > 0 && self.edits[count - 1].old.end.0.0 >= edit.old.start.0.0 {
            let old_start = self.edits[count - 1].old.start;
            let new_start = self.edits[count - 1].new.start;
            self.edits.pop();
            self.edits.push(
                Edit { old: old_start..edit.old.end, new: new_start..edit.new.end },
            );
            assert(conceal_changes(before).last() == before.last()@);
            assert(self@ =~= patch_push(conceal_changes(before), edit@));
        } else {
            self.edits.push(edit);
            assert(count > 0 ==> conceal_changes(before).last() == before.last()@);
            assert(self@ =~= patch_push(conceal_changes(before), edit@));
        }
    }

    pub fn into_inner(self) -> (edits: Vec<ConcealEdit>)
        ensures
            conceal_changes(edits@) == self@,
    {
        self.edits
    }
}

} // verus!

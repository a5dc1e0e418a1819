//! The layer itself: what is concealed and what of it is revealed.

use crate::coords::{ConcealOffset, FoldOffset};
use crate::display::{concealed, hides};
use crate::edits::{
    changes_between_chars, conceal_changes, describes, fold_changes, Change, ConcealEdit, Edit,
    FoldEdit,
};
use crate::fold::{fold_wf, FoldSnapshot, FoldView};
use crate::indices::{copy_indices, same_indices};
use crate::follow::hidden_kept;
use crate::laws::{
    law_plain, law_read_conceals, law_read_edits, law_read_measures, law_set_conceals, shows,
    task_of,
};
use crate::layout::{build_transforms_from_resolved, cover};
use crate::patches::ends_clear;
use crate::resolve::{
    affected, affected_upto, all_disjoint, anchored, fold_ranges, hiddens_of, law_resolved,
    lemma_places, marks_of, places, places_between, places_of, places_within, resolve, resolved,
    reveal_affected, spans_of, Concealment, Hidden, Mark, Span,
};
use crate::snapshot::{snapshot_wf, ConcealSnapshot, SnapshotView};
use crate::sync::{
    edits_fit, finish, follow_edits, follow_reveals, reveals_fit, sync_edits, sync_reveals,
    Progress,
};
use crate::text::{lemma_summary_wf, summary_of};
use crate::transform::{
    lemma_push_same, lemma_sums, out_len, out_sum, pieces_wf, push_isomorphic, push_same, Piece,
    Transforms,
};
use std::collections::HashSet;
use std::ops::Range;
use vstd::prelude::*;

verus! {

/// What the layer holds.
pub struct MapView {
    pub snapshot: SnapshotView,
    pub marks: Seq<Mark>,
    /// Where each mark lay in fold space when they were last looked up.
    pub places: Seq<Option<Span>>,
    /// The numbers of the marks that are revealed.
    pub revealed: Set<usize>,
    /// The numbers of those that were revealed before.
    pub was_revealed: Set<usize>,
}

impl MapView {
    /// The ranges that are hidden.
    pub open spec fn hidden(self) -> Seq<Hidden> {
        resolved(self.marks, self.places, self.revealed)
    }
}

/// What holds of a layer over the text that its pieces measure.
pub open spec fn map_wf(map: MapView) -> bool {
    &&& snapshot_wf(map.snapshot)
    &&& map.places.len() == map.marks.len()
    &&& map.snapshot.passthrough == (map.marks.len() == 0)
    &&& places_within(map.places, map.snapshot.fold.text.len() as int)
    &&& places_between(map.places, map.snapshot.fold.text)
}

/// The text below has become `fold` through `changes`, or it is the same as before and
/// the ranges whose mark was revealed or concealed are apart from each other and
/// do not end within a hidden range.
pub open spec fn follows(map: MapView, fold: FoldView, changes: Seq<Change>) -> bool {
    &&& changes.len() > 0 ==> {
        &&& describes(map.snapshot.fold.text, fold.text, changes)
        &&& changes_between_chars(fold.text, changes)
        &&& anchored(map.marks, fold)
    }
    &&& changes.len() == 0 ==> {
        &&& fold.text == map.snapshot.fold.text
        &&& reveals_apart(map)
    }
}

/// The ranges whose mark was revealed or concealed are apart from each other, and
/// none ends within a hidden range.
pub open spec fn reveals_apart(map: MapView) -> bool {
    &&& all_disjoint(affected_of(map))
    &&& forall|k: int, q: Hidden|
        0 <= k < affected_of(map).len() && #[trigger] hides(map.snapshot.pieces, q) ==> !(q.start
            < (#[trigger] affected_of(map)[k]).end < q.end)
}

/// A layer over `fold` that conceals nothing.
pub open spec fn plain_map(fold: FoldView) -> MapView {
    MapView {
        snapshot: plain_snapshot(fold),
        marks: Seq::empty(),
        places: Seq::empty(),
        revealed: Set::empty(),
        was_revealed: Set::empty(),
    }
}

/// What that layer displays.
pub open spec fn plain_snapshot(fold: FoldView) -> SnapshotView {
    SnapshotView {
        fold,
        pieces: seq![Piece::Same(summary_of(fold.text))],
        passthrough: true,
        version: 0,
    }
}

/// The layer with other marks.
pub open spec fn with_marks(map: MapView, marks: Seq<Mark>) -> MapView {
    let spans = places(map.snapshot.fold, marks);
    let rs = resolved(marks, spans, map.revealed);
    MapView {
        snapshot: SnapshotView {
            pieces: cover(map.snapshot.fold.text, Seq::empty(), rs),
            passthrough: marks.len() == 0,
            version: map.snapshot.version + 1,
            fold: map.snapshot.fold,
        },
        marks,
        places: spans,
        ..map
    }
}

/// The edit of a whole text, unless it measures the same as before.
pub open spec fn whole_edit(before: Seq<Piece>, after: Seq<Piece>) -> Seq<Change> {
    if out_sum(before, before.len() as int) == out_sum(after, after.len() as int) {
        Seq::empty()
    } else {
        seq![
            Change { old_start: 0, old_end: out_len(before), new_start: 0, new_end: out_len(after) },
        ]
    }
}

/// Neither the text below nor what is revealed has changed.
pub open spec fn unchanged(map: MapView, fold: FoldView, changes: Seq<Change>) -> bool {
    &&& changes.len() == 0
    &&& map.snapshot.fold.version == fold.version
    &&& map.revealed == map.was_revealed
}

/// The ranges whose mark was revealed or concealed.
pub open spec fn affected_of(map: MapView) -> Seq<Span> {
    affected(map.places, map.was_revealed, map.revealed)
}

/// What is followed when the text below has become `fold` through `changes`.
pub open spec fn followed(map: MapView, fold: FoldView, changes: Seq<Change>) -> Progress {
    let ps = map.snapshot.pieces;
    if changes.len() > 0 {
        let rs = resolved(map.marks, places(fold, map.marks), map.revealed);
        follow_edits(fold.text, ps, rs, changes, changes.len() as int)
    } else {
        let spans = affected_of(map);
        follow_reveals(fold.text, ps, map.hidden(), spans, spans.len() as int)
    }
}

/// Nothing is left to be laid out anew.
pub open spec fn settled(map: MapView, changes: Seq<Change>) -> bool {
    changes.len() == 0 && affected_of(map).len() == 0
}

/// The layer after the text below has become `fold` through `changes`.
pub open spec fn synced(map: MapView, fold: FoldView, changes: Seq<Change>) -> MapView {
    if unchanged(map, fold, changes) {
        map
    } else {
        MapView {
            snapshot: SnapshotView {
                fold,
                pieces: if settled(map, changes) {
                    map.snapshot.pieces
                } else {
                    finish(fold.text, map.snapshot.pieces, followed(map, fold, changes))
                },
                passthrough: map.snapshot.passthrough,
                version: map.snapshot.version + 1,
            },
            places: if changes.len() > 0 {
                places(fold, map.marks)
            } else {
                map.places
            },
            was_revealed: map.revealed,
            ..map
        }
    }
}

/// What changes in the displayed text when the text below becomes `fold` through `changes`.
pub open spec fn synced_changes(map: MapView, fold: FoldView, changes: Seq<Change>) -> Seq<
    Change,
> {
    if settled(map, changes) {
        Seq::empty()
    } else {
        followed(map, fold, changes).patch
    }
}

/// The text below can become `fold` through `changes`.
pub open spec fn can_sync(map: MapView, fold: FoldView, changes: Seq<Change>) -> bool {
    unchanged(map, fold, changes) || {
        &&& map.snapshot.version < usize::MAX
        &&& changes.len() > 0 ==> {
            &&& anchored(map.marks, fold)
            &&& edits_fit(fold.text.len() as int, map.snapshot.pieces, changes)
        }
        &&& changes.len() == 0 && affected_of(map).len() > 0 ==> {
            &&& places_within(map.places, fold.text.len() as int)
            &&& reveals_fit(fold.text, map.snapshot.pieces, map.hidden(), affected_of(map))
        }
        &&& pieces_wf(synced(map, fold, changes).snapshot.pieces)
    }
}

/// The text below becomes `fold` through `changes`, and the hidden ranges are kept.
pub open spec fn keeps_hidden(map: MapView, fold: FoldView, changes: Seq<Change>) -> bool {
    &&& map_wf(map)
    &&& follows(map, fold, changes)
    &&& hidden_kept(task_of(map, fold, changes))
}

/// The layer that shows other text in the stead of what is concealed.
pub struct ConcealMap {
    snapshot: ConcealSnapshot,
    concealments: Vec<Concealment>,
    cached_fold_ranges: Vec<Option<Range<FoldOffset>>>,
    revealed_indices: HashSet<usize>,
    prev_revealed_indices: HashSet<usize>,
}

impl View for ConcealMap {
    type V = MapView;

    closed spec fn view(&self) -> MapView {
        MapView {
            snapshot: self.snapshot@,
            marks: marks_of(self.concealments@),
            places: places_of(self.cached_fold_ranges@),
            revealed: self.revealed_indices@,
            was_revealed: self.prev_revealed_indices@,
        }
    }
}

impl ConcealMap {
    pub closed spec fn inv(self) -> bool {
        &&& self.snapshot.inv()
        &&& fold_wf(self@.snapshot.fold)
        &&& self@.places.len() == self@.marks.len()
    }

    pub proof fn lemma_inv(self)
        requires
            self.inv(),
        ensures
            fold_wf(self@.snapshot.fold),
            self@.places.len() == self@.marks.len(),
    {
    }

    /// A layer that conceals nothing.
    pub fn new(fold_snapshot: FoldSnapshot) -> (created: (Self, ConcealSnapshot))
        requires
            fold_wf(fold_snapshot@),
        ensures
            created.0.inv(),
            created.1.inv(),
            created.1@ == plain_snapshot(fold_snapshot@),
            created.0@ == plain_map(fold_snapshot@),
            map_wf(created.0@),
            shows(created.0@, created.0@.revealed),
            created.1@.text() == fold_snapshot@.text,
    {
        let ghost fold = fold_snapshot@;
        let mut transforms = Transforms::new();
        proof {
            lemma_summary_wf(fold_snapshot@.text);
            lemma_push_same(Seq::<Piece>::empty(), summary_of(fold_snapshot@.text));
            assert(push_same(Seq::<Piece>::empty(), summary_of(fold_snapshot@.text))
                =~= plain_snapshot(fold_snapshot@).pieces);
        }
        push_isomorphic(&mut transforms, fold_snapshot.text_summary());
        let snapshot = ConcealSnapshot::from_parts(fold_snapshot, transforms, true, 0);
        let map = ConcealMap {
            snapshot: snapshot.clone(),
            concealments: Vec::new(),
            cached_fold_ranges: Vec::new(),
            revealed_indices: HashSet::new(),
            prev_revealed_indices: HashSet::new(),
        };
        assert(map@.marks =~= Seq::<Mark>::empty());
        assert(map@.places =~= Seq::<Option<Span>>::empty());
        proof {
            law_plain(fold);
        }
        (map, snapshot)
    }

    /// Follows the text below, which has become that of `fold_snapshot` through `fold_edits`.
    pub fn read(&mut self, fold_snapshot: FoldSnapshot, fold_edits: Vec<FoldEdit>) -> (read: (
        ConcealSnapshot,
        Vec<ConcealEdit>,
    ))
        requires
            old(self).inv(),
            fold_wf(fold_snapshot@),
            can_sync(old(self)@, fold_snapshot@, fold_changes(fold_edits@)),
        ensures
            final(self).inv(),
            final(self)@ == synced(old(self)@, fold_snapshot@, fold_changes(fold_edits@)),
            map_wf(old(self)@) && follows(old(self)@, fold_snapshot@, fold_changes(fold_edits@))
                ==> map_wf(final(self)@),
            read.0.inv(),
            read.0@ == final(self)@.snapshot,
            conceal_changes(read.1@) == synced_changes(
                old(self)@,
                fold_snapshot@,
                fold_changes(fold_edits@),
            ),
            keeps_hidden(old(self)@, fold_snapshot@, fold_changes(fold_edits@)) ==> {
                &&& shows(final(self)@, final(self)@.revealed)
                &&& read.0@.text() == concealed(fold_snapshot@.text, final(self)@.hidden())
            },
            keeps_hidden(old(self)@, fold_snapshot@, fold_changes(fold_edits@)) && ends_clear(
                task_of(old(self)@, fold_snapshot@, fold_changes(fold_edits@)),
            ) ==> describes(old(self)@.snapshot.text(), read.0@.text(), conceal_changes(read.1@)),
    {
        let ghost before = self@;
        let ghost fold = fold_snapshot@;
        let ghost changes = fold_changes(fold_edits@);
        proof {
            if map_wf(before) && follows(before, fold, changes) {
                law_read_measures(before, fold, changes);
            }
            if keeps_hidden(before, fold, changes) {
                law_read_conceals(before, fold, changes);
                if ends_clear(task_of(before, fold, changes)) {
                    law_read_edits(before, fold, changes);
                }
            }
        }
        let edits = self.sync(fold_snapshot, fold_edits);
        (self.snapshot.clone(), edits)
    }

    /// Takes `fold_snapshot` for the text below, which has not changed.
    pub fn sync_fold_snapshot(&mut self, fold_snapshot: FoldSnapshot)
        requires
            old(self).inv(),
            fold_wf(fold_snapshot@),
        ensures
            final(self).inv(),
            final(self)@ == (MapView {
                snapshot: SnapshotView { fold: fold_snapshot@, ..old(self)@.snapshot },
                was_revealed: old(self)@.revealed,
                ..old(self)@
            }),
            map_wf(old(self)@) && fold_snapshot@.text == old(self)@.snapshot.fold.text ==> map_wf(
                final(self)@,
            ),
    {
        self.snapshot.set_fold_snapshot(fold_snapshot);
        self.prev_revealed_indices = copy_indices(&self.revealed_indices);
    }

    /// Conceals other ranges than before.
    pub fn set_concealments(&mut self, concealments: Vec<Concealment>) -> (set: (
        ConcealSnapshot,
        Vec<ConcealEdit>,
    ))
        requires
            old(self).inv(),
            old(self)@.snapshot.version < usize::MAX,
            anchored(marks_of(concealments@), old(self)@.snapshot.fold),
            pieces_wf(with_marks(old(self)@, marks_of(concealments@)).snapshot.pieces),
        ensures
            final(self).inv(),
            final(self)@ == with_marks(old(self)@, marks_of(concealments@)),
            map_wf(final(self)@),
            set.0.inv(),
            set.0@ == final(self)@.snapshot,
            conceal_changes(set.1@) == whole_edit(
                old(self)@.snapshot.pieces,
                final(self)@.snapshot.pieces,
            ),
            shows(final(self)@, final(self)@.revealed),
            set.0@.text() == concealed(set.0@.fold.text, final(self)@.hidden()),
    {
        let ghost before = self@;
        let ghost marks = marks_of(concealments@);
        proof {
            law_set_conceals(before, marks);
        }
        let old_output = self.snapshot.transforms().summary().output;
        proof {
            self.snapshot.lemma_pieces();
            lemma_sums(before.snapshot.pieces, before.snapshot.pieces.len() as int);
        }
        self.snapshot.set_passthrough(concealments.is_empty());
        self.concealments = concealments;
        self.snapshot.bump_version();
        self.recompute_cached_fold_ranges();
        let resolved = self.resolve_concealments();
        proof {
            lemma_places(before.snapshot.fold, marks);
            law_resolved(
                marks,
                self@.places,
                self@.revealed,
                before.snapshot.fold.text.len() as int,
            );
        }
        let mut transforms = Transforms::new();
        build_transforms_from_resolved(&mut transforms, &self.snapshot, &resolved);
        let new_output = transforms.summary().output;
        proof {
            transforms.lemma_inv();
            lemma_sums(transforms@, transforms@.len() as int);
        }
        self.snapshot.set_transforms(transforms);
        let edits: Vec<ConcealEdit> = if old_output.same(new_output) {
            Vec::new()
        } else {
            let edit = Edit {
                old: ConcealOffset::at(0)..ConcealOffset::at(old_output.len.0),
                new: ConcealOffset::at(0)..ConcealOffset::at(new_output.len.0),
            };
            vec![edit]
        };
        assert(conceal_changes(edits@) =~= whole_edit(
            before.snapshot.pieces,
            self@.snapshot.pieces,
        ));
        (self.snapshot.clone(), edits)
    }

    /// What is concealed.
    pub fn concealments(&self) -> (concealments: &[Concealment])
        ensures
            marks_of(concealments@) == self@.marks,
    {
        self.concealments.as_slice()
    }

    /// Reveals the concealments with the numbers `indices`, and no others.
    pub fn set_revealed_indices(&mut self, indices: HashSet<usize>)
        requires
            old(self).inv(),
        ensures
            final(self).inv(),
            final(self)@ == (MapView {
                revealed: indices@,
                was_revealed: old(self)@.revealed,
                ..old(self)@
            }),
            map_wf(old(self)@) ==> map_wf(final(self)@),
    {
        std::mem::swap(&mut self.prev_revealed_indices, &mut self.revealed_indices);
        self.revealed_indices = indices;
    }

    fn sync(&mut self, fold_snapshot: FoldSnapshot, fold_edits: Vec<FoldEdit>) -> (edits: Vec<
        ConcealEdit,
    >)
        requires
            old(self).inv(),
            fold_wf(fold_snapshot@),
            can_sync(old(self)@, fold_snapshot@, fold_changes(fold_edits@)),
        ensures
            final(self).inv(),
            final(self)@ == synced(old(self)@, fold_snapshot@, fold_changes(fold_edits@)),
            conceal_changes(edits@) == synced_changes(
                old(self)@,
                fold_snapshot@,
                fold_changes(fold_edits@),
            ),
    {
        let ghost before = self@;
        let ghost fold = fold_snapshot@;
        let ghost len = fold.text.len() as int;
        let reveal_changed = !same_indices(&self.revealed_indices, &self.prev_revealed_indices);
        let no_edits: Vec<ConcealEdit> = Vec::new();
        assert(conceal_changes(no_edits@) =~= Seq::<Change>::empty());
        if fold_edits.is_empty() && self.snapshot.fold_version() == fold_snapshot.version
            && !reveal_changed {
            proof {
                lemma_nothing_affected(
                    before.places,
                    before.revealed,
                    before.places.len() as int,
                );
            }
            return no_edits;
        }
        self.snapshot.set_fold_snapshot(fold_snapshot);
        self.snapshot.bump_version();
        if fold_edits.is_empty() {
            let affected = self.reveal_affected_ranges();
            if affected.is_empty() {
                self.prev_revealed_indices = copy_indices(&self.revealed_indices);
                return no_edits;
            }
            let resolved = self.resolve_concealments();
            proof {
                law_resolved(before.marks, before.places, before.revealed, len);
            }
            let (transforms, edits) = sync_reveals(
                &self.snapshot,
                self.snapshot.transforms(),
                &resolved,
                &affected,
            );
            self.snapshot.set_transforms(transforms);
            self.prev_revealed_indices = copy_indices(&self.revealed_indices);
            return edits;
        }
        self.recompute_cached_fold_ranges();
        let resolved = self.resolve_concealments();
        proof {
            lemma_places(fold, before.marks);
            law_resolved(before.marks, self@.places, before.revealed, len);
        }
        let (transforms, edits) = sync_edits(
            &self.snapshot,
            self.snapshot.transforms(),
            &resolved,
            &fold_edits,
        );
        self.snapshot.set_transforms(transforms);
        self.prev_revealed_indices = copy_indices(&self.revealed_indices);
        edits
    }

    fn recompute_cached_fold_ranges(&mut self)
        requires
            old(self).snapshot.inv(),
            fold_wf(old(self)@.snapshot.fold),
            anchored(old(self)@.marks, old(self)@.snapshot.fold),
        ensures
            final(self).snapshot == old(self).snapshot,
            final(self)@ == (MapView {
                places: places(old(self)@.snapshot.fold, old(self)@.marks),
                ..old(self)@
            }),
    {
        self.cached_fold_ranges = fold_ranges(&self.snapshot, &self.concealments);
    }

    fn resolve_concealments(&self) -> (entries: Vec<(Range<FoldOffset>, String)>)
        requires
            self@.places.len() == self@.marks.len(),
        ensures
            hiddens_of(entries@) == self@.hidden(),
    {
        resolve(&self.concealments, &self.cached_fold_ranges, &self.revealed_indices)
    }

    fn reveal_affected_ranges(&self) -> (ranges: Vec<Range<FoldOffset>>)
        requires
            self@.places.len() == self@.marks.len(),
        ensures
            spans_of(ranges@) == affected_of(self@),
    {
        if self.concealments.is_empty() {
            let ranges: Vec<Range<FoldOffset>> = Vec::new();
            assert(spans_of(ranges@) =~= affected_of(self@));
            return ranges;
        }
        reveal_affected(
            &self.cached_fold_ranges,
            &self.prev_revealed_indices,
            &self.revealed_indices,
        )
    }
}

/// Where nothing is revealed or concealed, no range is affected.
pub proof fn lemma_nothing_affected(places: Seq<Option<Span>>, revealed: Set<usize>, k: int)
    ensures
        affected_upto(places, revealed, revealed, k).len() == 0,
    decreases k,
{
    if k > 0 {
        lemma_nothing_affected(places, revealed, k - 1);
    }
}

} // verus!

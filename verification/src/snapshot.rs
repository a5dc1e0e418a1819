//! A snapshot of the displayed text, with the way between the two spaces.

use crate::display::{all_same, displayed, reflects};
use crate::fold::{fold_wf, FoldSnapshot, FoldStyling, FoldView};
use crate::transform::{pieces_wf, tidy, Piece, Transforms};
use vstd::prelude::*;

verus! {

/// What a snapshot holds.
pub struct SnapshotView {
    pub fold: FoldView,
    pub pieces: Seq<Piece>,
    /// Nothing is concealed: the two spaces are the same.
    pub passthrough: bool,
    pub version: int,
}

impl SnapshotView {
    /// The text that is displayed.
    pub open spec fn text(self) -> Seq<u8> {
        displayed(self.pieces, self.fold.text)
    }
}

/// There are pieces, they measure the text below, and nothing is replaced where nothing is
/// concealed.
pub open spec fn snapshot_wf(snapshot: SnapshotView) -> bool {
    &&& fold_wf(snapshot.fold)
    &&& snapshot.pieces.len() > 0
    &&& pieces_wf(snapshot.pieces)
    &&& reflects(snapshot.pieces, snapshot.fold.text)
    &&& tidy(snapshot.pieces)
    &&& snapshot.passthrough ==> all_same(snapshot.pieces)
}

/// How the displayed text is put together.
pub struct Arrangement {
    transforms: Transforms,
    passthrough: bool,
}

impl Arrangement {
    pub closed spec fn inv(self) -> bool {
        self.transforms.inv()
    }

    /// The pieces of the displayed text.
    pub closed spec fn pieces(self) -> Seq<Piece> {
        self.transforms@
    }

    /// Nothing is concealed.
    pub closed spec fn passthrough(self) -> bool {
        self.passthrough
    }
}

/// A snapshot of the displayed text.
pub struct ConcealSnapshot {
    pub fold_snapshot: FoldSnapshot,
    pub arrangement: Arrangement,
    pub version: usize,
}

impl View for ConcealSnapshot {
    type V = SnapshotView;

    closed spec fn view(&self) -> SnapshotView {
        SnapshotView {
            fold: self.fold_snapshot@,
            pieces: self.arrangement.pieces(),
            passthrough: self.arrangement.passthrough(),
            version: self.version as int,
        }
    }
}

impl Clone for ConcealSnapshot {
    fn clone(&self) -> (snapshot: Self)
        ensures
            snapshot@ == self@,
            self.inv() ==> snapshot.inv(),
    {
        ConcealSnapshot {
            fold_snapshot: self.fold_snapshot.clone(),
            arrangement: Arrangement {
                transforms: self.arrangement.transforms.clone(),
                passthrough: self.arrangement.passthrough,
            },
            version: self.version,
        }
    }
}

impl core::ops::Deref for ConcealSnapshot {
    type Target = FoldSnapshot;

    fn deref(&self) -> (fold_snapshot: &FoldSnapshot)
        ensures
            fold_snapshot@ == self@.fold,
    {
        &self.fold_snapshot
    }
}

impl ConcealSnapshot {
    pub closed spec fn inv(self) -> bool {
        self.arrangement.inv()
    }

    /// The view holds what the fields hold.
    pub proof fn lemma_fields(self)
        ensures
            self@.fold == self.fold_snapshot@,
            self@.version == self.version,
    {
    }

    pub(crate) fn from_parts(
        fold_snapshot: FoldSnapshot,
        transforms: Transforms,
        passthrough: bool,
        version: usize,
    ) -> (snapshot: Self)
        requires
            transforms.inv(),
        ensures
            snapshot.inv(),
            snapshot@ == (SnapshotView {
                fold: fold_snapshot@,
                pieces: transforms@,
                passthrough,
                version: version as int,
            }),
    {
        let arrangement = Arrangement { transforms, passthrough };
        ConcealSnapshot { fold_snapshot, arrangement, version }
    }

    pub(crate) fn transforms(&self) -> (transforms: &Transforms)
        requires
            self.inv(),
        ensures
            transforms.inv(),
            transforms@ == self@.pieces,
    {
        &self.arrangement.transforms
    }

    pub(crate) proof fn lemma_pieces(self)
        requires
            self.inv(),
        ensures
            pieces_wf(self@.pieces),
    {
        self.arrangement.transforms.lemma_inv();
    }

    pub(crate) fn fold(&self) -> (fold_snapshot: &FoldSnapshot)
        ensures
            fold_snapshot@ == self@.fold,
    {
        &self.fold_snapshot
    }

    pub(crate) fn styling(&self) -> (styling: &FoldStyling)
        ensures
            styling.runs@ == self@.fold.runs,
    {
        &self.fold_snapshot.styling
    }

    pub(crate) fn fold_version(&self) -> (version: usize)
        ensures
            version == self@.fold.version,
    {
        self.fold_snapshot.version
    }

    pub(crate) fn passthrough(&self) -> (passthrough: bool)
        ensures
            passthrough == self@.passthrough,
    {
        self.arrangement.passthrough
    }

    pub(crate) fn set_fold_snapshot(&mut self, fold_snapshot: FoldSnapshot)
        requires
            old(self).inv(),
        ensures
            final(self).inv(),
            final(self)@ == (SnapshotView { fold: fold_snapshot@, ..old(self)@ }),
    {
        self.fold_snapshot = fold_snapshot;
    }

    pub(crate) fn set_transforms(&mut self, transforms: Transforms)
        requires
            transforms.inv(),
        ensures
            final(self).inv(),
            final(self)@ == (SnapshotView { pieces: transforms@, ..old(self)@ }),
    {
        self.arrangement.transforms = transforms;
    }

    pub(crate) fn set_passthrough(&mut self, passthrough: bool)
        requires
            old(self).inv(),
        ensures
            final(self).inv(),
            final(self)@ == (SnapshotView { passthrough, ..old(self)@ }),
    {
        self.arrangement.passthrough = passthrough;
    }

    pub(crate) fn bump_version(&mut self)
        requires
            old(self).inv(),
            old(self)@.version < usize::MAX,
        ensures
            final(self).inv(),
            final(self)@ == (SnapshotView {
                version: old(self)@.version + 1,
                ..old(self)@
            }),
    {
        self.version = self.version + 1;
    }
}

} // verus!

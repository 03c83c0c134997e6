//! The segments that a client has mounted.

use super::lifecycle::ClientSession;
use crate::segment::identity::SegmentId;
use vstd::prelude::*;

verus! {

/// A set of segments.
pub struct SegmentSet {
    ids: Vec<SegmentId>,
}

impl View for SegmentSet {
    type V = Set<SegmentId>;

    closed spec fn view(&self) -> Set<SegmentId> {
        self.ids@.to_set()
    }
}

impl SegmentSet {
    pub fn new() -> (set: Self)
        ensures
            set@ == Set::<SegmentId>::empty(),
    {
        let set = Self { ids: Vec::new() };
        assert(set@ =~= Set::empty());
        set
    }

    pub fn contains(&self, id: SegmentId) -> (held: bool)
        ensures
            held == self@.contains(id),
    {
        let mut i: usize = 0;
        while i < self.ids.len()
            invariant
                i <= self.ids@.len(),
                forall|j: int| 0 <= j < i ==> self.ids@[j] != id,
            decreases self.ids@.len() - i,
        {
            if self.ids[i] == id {
                assert(self.ids@.contains(id));
                return true;
            }
            i = i + 1;
        }
        assert(!self.ids@.contains(id));
        false
    }

    pub fn insert(&mut self, id: SegmentId)
        ensures
            final(self)@ == old(self)@.insert(id),
    {
        let ghost before = self.ids@;
        if !self.contains(id) {
            self.ids.push(id);
            proof {
                assert forall|other: SegmentId| self.ids@.contains(other) == (before.contains(other)
                    || other == id) by {
                    if before.contains(other) {
                        let i = choose|i: int| 0 <= i < before.len() && before[i] == other;
                        assert(self.ids@[i] == other);
                    }
                    assert(self.ids@[before.len() as int] == id);
                }
            }
        }
        assert(self@ =~= before.to_set().insert(id));
    }

    pub fn remove(&mut self, id: SegmentId)
        ensures
            final(self)@ == old(self)@.remove(id),
    {
        let ghost before = self.ids@;
        let mut i: usize = self.ids.len();
        while i > 0
            invariant
                i <= self.ids@.len(),
                forall|j: int| i <= j < self.ids@.len() ==> self.ids@[j] != id,
                forall|other: SegmentId|
                    other != id ==> #[trigger] self.ids@.contains(other) == before.contains(other),
            decreases i,
        {
            i = i - 1;
            if self.ids[i] == id {
                let ghost was = self.ids@;
                let _ = self.ids.remove(i);
                proof {
                    assert forall|other: SegmentId| other != id implies #[trigger] self.ids@.contains(
                        other,
                    ) == before.contains(other) by {
                        assert(was.contains(other) == before.contains(other));
                        if was.contains(other) {
                            let j = choose|j: int| 0 <= j < was.len() && was[j] == other;
                            let k = if j < i { j } else { j - 1 };
                            assert(self.ids@[k] == other);
                        }
                        if self.ids@.contains(other) {
                            let k = choose|k: int|
                                0 <= k < self.ids@.len() && self.ids@[k] == other;
                            let j = if k < i { k } else { k + 1 };
                            assert(was[j] == other);
                        }
                    }
                }
            }
        }
        assert(!self.ids@.contains(id));
        assert(self@ =~= before.to_set().remove(id));
    }

    /// Whether both hold the same segments.
    pub fn same_as(&self, other: &Self) -> (same: bool)
        ensures
            same == (self@ == other@),
    {
        let same = self.is_part_of(other) && other.is_part_of(self);
        proof {
            if same {
                assert(self@ =~= other@);
            }
        }
        same
    }

    fn is_part_of(&self, other: &Self) -> (part: bool)
        ensures
            part == self@.subset_of(other@),
    {
        let mut i: usize = 0;
        while i < self.ids.len()
            invariant
                i <= self.ids@.len(),
                forall|j: int| 0 <= j < i ==> other@.contains(#[trigger] self.ids@[j]),
            decreases self.ids@.len() - i,
        {
            if !other.contains(self.ids[i]) {
                assert(self.ids@.contains(self.ids@[i as int]));
                assert(self@.contains(self.ids@[i as int]));
                return false;
            }
            i = i + 1;
        }
        assert forall|id: SegmentId| self@.contains(id) implies other@.contains(id) by {
            let j = choose|j: int| 0 <= j < self.ids@.len() && self.ids@[j] == id;
            assert(other@.contains(self.ids@[j]));
        }
        true
    }
}

/// What a client has mounted in its current session.
pub struct ClientMountState {
    pub session: ClientSession,
    pub segments: SegmentSet,
}

/// The contents of a [`ClientMountState`].
pub struct MountView {
    pub session: ClientSession,
    pub segments: Set<SegmentId>,
}

impl View for ClientMountState {
    type V = MountView;

    open spec fn view(&self) -> MountView {
        MountView { session: self.session, segments: self.segments@ }
    }
}

} // verus!

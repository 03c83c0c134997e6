//! Segment removals that are put off to a deadline.

use super::lifecycle::{ClientSession, ClientTick};
use super::timer::{in_order, with_record, TimerQueue, TimerRecord};
use crate::segment::identity::SegmentId;
use crate::segment::pool::SegmentIncarnation;
use vstd::prelude::*;

verus! {

/// What a removal is about: one segment of one session.
#[derive(Clone, Copy, Debug, Eq, Hash, PartialEq, Structural)]
pub struct GracefulUnmountKey {
    pub session: ClientSession,
    pub segment: SegmentId,
}

/// A removal that is put off.
#[derive(Clone, Copy, Debug, Eq, PartialEq, Structural)]
pub struct PendingGracefulUnmount {
    pub deadline: ClientTick,
    pub incarnation: SegmentIncarnation,
    pub revision: u64,
    pub claimed: bool,
}

/// A removal that was claimed for execution.
#[derive(Clone, Copy, Debug, Eq, PartialEq, Structural)]
pub struct GracefulUnmountJob {
    pub key: GracefulUnmountKey,
    pub incarnation: SegmentIncarnation,
    pub revision: u64,
}

/// The removals that are put off.
pub type PendingMap = Map<GracefulUnmountKey, PendingGracefulUnmount>;

/// The contents of a [`GracefulUnmountQueue`].
pub struct GracefulView {
    pub deadlines: Seq<TimerRecord>,
    pub pending: PendingMap,
    pub revision: u64,
    pub cancelled: usize,
}

/// What a deadline record is about.
pub open spec fn key_of(record: TimerRecord) -> GracefulUnmountKey {
    GracefulUnmountKey {
        session: ClientSession { client_id: record.client, generation: record.generation },
        segment: record.segment,
    }
}

/// The deadline record of a removal.
pub open spec fn record_of(key: GracefulUnmountKey, deadline: ClientTick, revision: u64) -> TimerRecord {
    TimerRecord {
        at: deadline.value,
        revision,
        client: key.session.client_id,
        generation: key.session.generation,
        segment: key.segment,
    }
}

/// Whether a deadline record is the latest of a removal.
pub open spec fn is_current(pending: PendingMap, record: TimerRecord) -> bool {
    let key = key_of(record);
    pending.contains_key(key) && pending[key].revision == record.revision
        && pending[key].deadline.value == record.at
}

/// The number of the next revision. Zero is never used.
pub open spec fn next_revision(revision: u64) -> u64 {
    if revision == u64::MAX {
        1
    } else {
        (revision + 1) as u64
    }
}

/// The removals of a session that nobody has claimed.
pub open spec fn unclaimed_of(pending: PendingMap, session: ClientSession) -> Set<GracefulUnmountKey> {
    pending.dom().filter(
        |key: GracefulUnmountKey| key.session == session && !pending[key].claimed,
    )
}

/// The removals without those of a session.
pub open spec fn without_session(pending: PendingMap, session: ClientSession) -> PendingMap {
    pending.remove_keys(
        pending.dom().filter(|key: GracefulUnmountKey| key.session == session),
    )
}

impl GracefulView {
    /// A queue in which nothing is put off.
    pub open spec fn empty() -> GracefulView {
        GracefulView {
            deadlines: Seq::empty(),
            pending: Map::empty(),
            revision: 0,
            cancelled: 0,
        }
    }

    /// The queue with a removal put off anew.
    pub open spec fn inserted(
        self,
        key: GracefulUnmountKey,
        incarnation: SegmentIncarnation,
        deadline: ClientTick,
    ) -> GracefulView {
        let revision = next_revision(self.revision);
        GracefulView {
            revision,
            pending: self.pending.insert(
                key,
                PendingGracefulUnmount { deadline, incarnation, revision, claimed: false },
            ),
            deadlines: with_record(self.deadlines, record_of(key, deadline, revision)),
            ..self
        }
    }

    /// The queue after a removal was asked for. A removal of the same attachment
    /// that is claimed already, or due no later, stands.
    pub open spec fn scheduled(
        self,
        key: GracefulUnmountKey,
        incarnation: SegmentIncarnation,
        deadline: ClientTick,
    ) -> GracefulView {
        if self.pending.contains_key(key) && self.pending[key].incarnation == incarnation && (
        self.pending[key].claimed || self.pending[key].deadline.value <= deadline.value) {
            self
        } else {
            self.inserted(key, incarnation, deadline)
        }
    }

    /// The queue after a removal was called off.
    pub open spec fn cancelled(self, key: GracefulUnmountKey) -> GracefulView {
        GracefulView {
            pending: self.pending.remove(key),
            cancelled: if self.pending.contains_key(key) && !self.pending[key].claimed
                && self.cancelled < usize::MAX {
                (self.cancelled + 1) as usize
            } else {
                self.cancelled
            },
            ..self
        }
    }

    /// The queue after all removals of a session were called off.
    pub open spec fn session_cancelled(self, session: ClientSession) -> GracefulView {
        let count = unclaimed_of(self.pending, session).len();
        GracefulView {
            pending: without_session(self.pending, session),
            cancelled: if self.cancelled + count > usize::MAX {
                usize::MAX
            } else {
                (self.cancelled + count) as usize
            },
            ..self
        }
    }

    /// The queue without the deadlines in front that are outdated.
    pub open spec fn pruned(self) -> GracefulView
        decreases self.deadlines.len(),
    {
        if self.deadlines.len() == 0 || is_current(self.pending, self.deadlines[0]) {
            self
        } else {
            GracefulView { deadlines: self.deadlines.drop_first(), ..self }.pruned()
        }
    }

    /// Whether a removal is put off for an attachment.
    pub open spec fn holds(self, key: GracefulUnmountKey, incarnation: SegmentIncarnation) -> bool {
        self.pending.contains_key(key) && self.pending[key].incarnation == incarnation
    }

    /// The queue after a claimed removal was executed or given up.
    pub open spec fn finished(self, job: GracefulUnmountJob) -> GracefulView {
        if self.pending.contains_key(job.key) && self.pending[job.key].revision == job.revision {
            GracefulView { pending: self.pending.remove(job.key), ..self }
        } else {
            self
        }
    }

    /// Whether a claimed removal may be put off again.
    pub open spec fn can_retry(self, job: GracefulUnmountJob) -> bool {
        self.pending.contains_key(job.key) && self.pending[job.key].revision == job.revision
    }
}

/// How far claiming due removals has come.
pub struct ClaimWalk {
    pub queue: GracefulView,
    pub jobs: Seq<GracefulUnmountJob>,
}

impl ClaimWalk {
    /// Due removals are claimed, the earliest first, as far as the budget goes.
    pub open spec fn claim(self, now: ClientTick, budget: nat) -> ClaimWalk
        decreases self.queue.deadlines.len(),
        via Self::claim_terminates
    {
        let queue = self.queue.pruned();
        if self.jobs.len() >= budget {
            self
        } else if queue.deadlines.len() == 0 || queue.deadlines[0].at > now.value {
            ClaimWalk { queue, ..self }
        } else {
            let record = queue.deadlines[0];
            let key = key_of(record);
            let rest = GracefulView { deadlines: queue.deadlines.drop_first(), ..queue };
            if queue.pending[key].claimed {
                ClaimWalk { queue: rest, ..self }.claim(now, budget)
            } else {
                ClaimWalk {
                    queue: GracefulView {
                        pending: rest.pending.insert(
                            key,
                            PendingGracefulUnmount { claimed: true, ..rest.pending[key] },
                        ),
                        ..rest
                    },
                    jobs: self.jobs.push(
                        GracefulUnmountJob {
                            key,
                            incarnation: rest.pending[key].incarnation,
                            revision: record.revision,
                        },
                    ),
                }.claim(now, budget)
            }
        }
    }

    #[via_fn]
    proof fn claim_terminates(self, now: ClientTick, budget: nat) {
        lemma_pruned(self.queue);
    }
}

/// Pruning only takes deadlines away, and leaves a current one in front.
pub proof fn lemma_pruned(queue: GracefulView)
    ensures
        queue.pruned().deadlines.len() <= queue.deadlines.len(),
        queue.pruned().pending == queue.pending,
        queue.pruned().revision == queue.revision,
        queue.pruned().cancelled == queue.cancelled,
        queue.pruned().deadlines.len() > 0 ==> is_current(
            queue.pending,
            queue.pruned().deadlines[0],
        ),
        in_order(queue.deadlines) ==> in_order(queue.pruned().deadlines),
    decreases queue.deadlines.len(),
{
    if queue.deadlines.len() > 0 && !is_current(queue.pending, queue.deadlines[0]) {
        let rest = GracefulView { deadlines: queue.deadlines.drop_first(), ..queue };
        assert forall|i: int, j: int|
            in_order(queue.deadlines) && 0 <= i < j
                < rest.deadlines.len() implies !super::timer::record_before(
            #[trigger] rest.deadlines[j],
            #[trigger] rest.deadlines[i],
        ) by {
            assert(rest.deadlines[i] == queue.deadlines[i + 1]);
            assert(rest.deadlines[j] == queue.deadlines[j + 1]);
        }
        lemma_pruned(rest);
    }
}

/// Removals by key.
pub struct PendingTable {
    entries: Vec<(GracefulUnmountKey, PendingGracefulUnmount)>,
}

impl View for PendingTable {
    type V = PendingMap;

    closed spec fn view(&self) -> PendingMap {
        table_map(self.entries@)
    }
}

/// The keys of entries and what stands under each.
spec fn table_map(entries: Seq<(GracefulUnmountKey, PendingGracefulUnmount)>) -> PendingMap
    decreases entries.len(),
{
    if entries.len() == 0 {
        Map::empty()
    } else {
        table_map(entries.drop_last()).insert(entries.last().0, entries.last().1)
    }
}

/// Whether no key stands twice.
spec fn keys_distinct(entries: Seq<(GracefulUnmountKey, PendingGracefulUnmount)>) -> bool {
    forall|i: int, j: int|
        0 <= i < j < entries.len() ==> (#[trigger] entries[i]).0 != (#[trigger] entries[j]).0
}

proof fn lemma_table(entries: Seq<(GracefulUnmountKey, PendingGracefulUnmount)>)
    requires
        keys_distinct(entries),
    ensures
        table_map(entries).dom().finite(),
        table_map(entries).dom().len() == entries.len(),
        forall|i: int|
            0 <= i < entries.len() ==> table_map(entries).contains_pair(
                (#[trigger] entries[i]).0,
                entries[i].1,
            ),
        forall|key: GracefulUnmountKey| #[trigger]
            table_map(entries).contains_key(key) ==> exists|i: int|
                0 <= i < entries.len() && (#[trigger] entries[i]).0 == key,
    decreases entries.len(),
{
    if entries.len() > 0 {
        let rest = entries.drop_last();
        let last = entries.last();
        assert forall|i: int, j: int| 0 <= i < j < rest.len() implies (#[trigger] rest[i]).0 != (
        #[trigger] rest[j]).0 by {
            assert(rest[i] == entries[i] && rest[j] == entries[j]);
        }
        lemma_table(rest);
        assert(!table_map(rest).contains_key(last.0)) by {
            if table_map(rest).contains_key(last.0) {
                let i = choose|i: int| 0 <= i < rest.len() && (#[trigger] rest[i]).0 == last.0;
                assert(entries[i].0 == last.0);
                assert(entries[entries.len() - 1].0 == last.0);
            }
        }
        assert(table_map(entries).dom() =~= table_map(rest).dom().insert(last.0));
        assert forall|i: int| 0 <= i < entries.len() implies table_map(entries).contains_pair(
            (#[trigger] entries[i]).0,
            entries[i].1,
        ) by {
            if i < rest.len() {
                assert(rest[i] == entries[i]);
                assert(table_map(rest).contains_pair(rest[i].0, rest[i].1));
            }
        }
        assert forall|key: GracefulUnmountKey| #[trigger]
            table_map(entries).contains_key(key) implies exists|i: int|
            0 <= i < entries.len() && (#[trigger] entries[i]).0 == key by {
            if key == last.0 {
                assert(entries[entries.len() - 1].0 == key);
            } else {
                assert(table_map(rest).contains_key(key));
                let i = choose|i: int| 0 <= i < rest.len() && (#[trigger] rest[i]).0 == key;
                assert(entries[i].0 == key);
            }
        }
    }
}

impl PendingTable {
    pub closed spec fn wf(&self) -> bool {
        keys_distinct(self.entries@)
    }

    pub fn new() -> (table: Self)
        ensures
            table.wf(),
            table@ == PendingMap::empty(),
    {
        Self { entries: Vec::new() }
    }

    fn position(&self, key: GracefulUnmountKey) -> (found: Option<usize>)
        requires
            self.wf(),
        ensures
            match found {
                Some(i) => i < self.entries@.len() && self.entries@[i as int].0 == key
                    && self@.contains_pair(key, self.entries@[i as int].1),
                None => !self@.contains_key(key),
            },
    {
        proof {
            lemma_table(self.entries@);
        }
        let mut i: usize = 0;
        while i < self.entries.len()
            invariant
                i <= self.entries@.len(),
                forall|j: int| 0 <= j < i ==> (#[trigger] self.entries@[j]).0 != key,
                forall|j: int|
                    0 <= j < self.entries@.len() ==> table_map(self.entries@).contains_pair(
                        (#[trigger] self.entries@[j]).0,
                        self.entries@[j].1,
                    ),
            decreases self.entries@.len() - i,
        {
            if self.entries[i].0 == key {
                return Some(i);
            }
            i = i + 1;
        }
        None
    }

    pub fn get(&self, key: GracefulUnmountKey) -> (pending: Option<PendingGracefulUnmount>)
        requires
            self.wf(),
        ensures
            pending == if self@.contains_key(key) {
                Some(self@[key])
            } else {
                None
            },
    {
        match self.position(key) {
            Some(i) => Some(self.entries[i].1),
            None => None,
        }
    }

    pub fn remove(&mut self, key: GracefulUnmountKey)
        requires
            old(self).wf(),
        ensures
            final(self).wf(),
            final(self)@ == old(self)@.remove(key),
    {
        let ghost before = self.entries@;
        match self.position(key) {
            None => {
                assert(self@ =~= self@.remove(key));
            },
            Some(i) => {
                let _ = self.entries.remove(i);
                proof {
                    let after = self.entries@;
                    assert forall|a: int, b: int| 0 <= a < b < after.len() implies (
                    #[trigger] after[a]).0 != (#[trigger] after[b]).0 by {
                        let p = if a < i { a } else { a + 1 };
                        let q = if b < i { b } else { b + 1 };
                        assert(after[a] == before[p] && after[b] == before[q]);
                    }
                    lemma_table(before);
                    lemma_table(after);
                    lemma_table_removed(before, after, i as int);
                }
            },
        }
    }

    pub fn insert(&mut self, key: GracefulUnmountKey, pending: PendingGracefulUnmount)
        requires
            old(self).wf(),
        ensures
            final(self).wf(),
            final(self)@ == old(self)@.insert(key, pending),
    {
        let ghost before = self@;
        self.remove(key);
        let ghost entries = self.entries@;
        self.entries.push((key, pending));
        proof {
            lemma_table(entries);
            assert(self.entries@.drop_last() =~= entries);
            assert forall|a: int, b: int| 0 <= a < b < self.entries@.len() implies (
            #[trigger] self.entries@[a]).0 != (#[trigger] self.entries@[b]).0 by {
                if b == entries.len() {
                    assert(table_map(entries).contains_pair(entries[a].0, entries[a].1));
                } else {
                    assert(self.entries@[a] == entries[a] && self.entries@[b] == entries[b]);
                }
            }
            assert(self@ =~= before.insert(key, pending));
        }
    }

    /// Takes the removals of a session out. Returns how many of them nobody had
    /// claimed.
    pub fn remove_session(&mut self, session: ClientSession) -> (unclaimed: usize)
        requires
            old(self).wf(),
        ensures
            final(self).wf(),
            final(self)@ == without_session(old(self)@, session),
            unclaimed == unclaimed_of(old(self)@, session).len(),
    {
        let ghost origin = self@;
        let ghost entries = self.entries@;
        let mut unclaimed: usize = 0;
        let mut i: usize = self.entries.len();
        let ghost mut counted: Set<GracefulUnmountKey> = Set::empty();
        proof {
            lemma_table(entries);
        }
        while i > 0
            invariant
                self.wf(),
                origin == table_map(entries),
                keys_distinct(entries),
                i <= self.entries@.len(),
                i <= entries.len(),
                forall|j: int| 0 <= j < i ==> self.entries@[j] == entries[j],
                forall|j: int|
                    i <= j < self.entries@.len() ==> (#[trigger] self.entries@[j]).0.session
                        != session,
                forall|key: GracefulUnmountKey| #[trigger]
                    self@.contains_key(key) ==> origin.contains_key(key) && self@[key]
                        == origin[key],
                forall|key: GracefulUnmountKey| #[trigger]
                    origin.contains_key(key) && key.session != session ==> self@.contains_key(key),
                counted.finite(),
                counted.len() == unclaimed,
                unclaimed + i <= entries.len() <= usize::MAX,
                forall|key: GracefulUnmountKey| #[trigger]
                    counted.contains(key) <==> exists|j: int|
                        i <= j < entries.len() && (#[trigger] entries[j]).0 == key && key.session
                            == session && !entries[j].1.claimed,
            decreases i,
        {
            i = i - 1;
            let key = self.entries[i].0;
            let claimed = self.entries[i].1.claimed;
            let ghost known = counted;
            proof {
                assert(self.entries@[i as int] == entries[i as int]);
                assert(!known.contains(key)) by {
                    if known.contains(key) {
                        let j = choose|j: int|
                            i + 1 <= j < entries.len() && (#[trigger] entries[j]).0 == key
                                && key.session == session && !entries[j].1.claimed;
                        assert(entries[i as int].0 != entries[j].0);
                    }
                }
            }
            if key.session == session {
                let ghost before = self.entries@;
                let ghost prior = self@;
                if !claimed {
                    unclaimed = unclaimed + 1;
                    proof {
                        counted = counted.insert(key);
                    }
                }
                proof {
                    lemma_table(before);
                }
                let _ = self.entries.remove(i);
                proof {
                    let after = self.entries@;
                    assert forall|a: int, b: int| 0 <= a < b < after.len() implies (
                    #[trigger] after[a]).0 != (#[trigger] after[b]).0 by {
                        let p = if a < i { a } else { a + 1 };
                        let q = if b < i { b } else { b + 1 };
                        assert(after[a] == before[p] && after[b] == before[q]);
                    }
                    lemma_table(after);
                    lemma_table_removed(before, after, i as int);
                    assert forall|other: GracefulUnmountKey| #[trigger]
                        self@.contains_key(other) implies origin.contains_key(other) && self@[other]
                        == origin[other] by {
                        assert(prior.contains_key(other));
                    }
                    assert forall|j: int| i <= j < after.len() implies (
                    #[trigger] after[j]).0.session != session by {
                        assert(after[j] == before[j + 1]);
                    }
                }
            }
            proof {
                assert forall|other: GracefulUnmountKey| #[trigger]
                    counted.contains(other) <==> exists|j: int|
                    i <= j < entries.len() && (#[trigger] entries[j]).0 == other && other.session
                        == session && !entries[j].1.claimed by {
                    if counted.contains(other) {
                        if known.contains(other) {
                            let j = choose|j: int|
                                i + 1 <= j < entries.len() && (#[trigger] entries[j]).0 == other
                                    && other.session == session && !entries[j].1.claimed;
                            assert(entries[j].0 == other);
                        } else {
                            assert(entries[i as int].0 == other);
                        }
                    }
                    if exists|j: int|
                        i <= j < entries.len() && (#[trigger] entries[j]).0 == other
                            && other.session == session && !entries[j].1.claimed {
                        let j = choose|j: int|
                            i <= j < entries.len() && (#[trigger] entries[j]).0 == other
                                && other.session == session && !entries[j].1.claimed;
                        if j > i {
                            assert(known.contains(other));
                        }
                    }
                }
            }
        }
        proof {
            lemma_table(entries);
            lemma_table(self.entries@);
            assert(self@ =~= without_session(origin, session)) by {
                assert forall|key: GracefulUnmountKey| #[trigger]
                    self@.contains_key(key) implies key.session != session by {
                    let j = choose|j: int|
                        0 <= j < self.entries@.len() && (#[trigger] self.entries@[j]).0 == key;
                    assert(self.entries@[j].0.session != session);
                }
            }
            assert(counted =~= unclaimed_of(origin, session)) by {
                assert forall|key: GracefulUnmountKey|
                    counted.contains(key) == unclaimed_of(origin, session).contains(key) by {
                    if counted.contains(key) {
                        let j = choose|j: int|
                            0 <= j < entries.len() && (#[trigger] entries[j]).0 == key
                                && key.session == session && !entries[j].1.claimed;
                        assert(origin.contains_pair(entries[j].0, entries[j].1));
                    }
                    if unclaimed_of(origin, session).contains(key) {
                        assert(origin.contains_key(key));
                        let j = choose|j: int|
                            0 <= j < entries.len() && (#[trigger] entries[j]).0 == key;
                        assert(origin.contains_pair(entries[j].0, entries[j].1));
                        assert(counted.contains(key));
                    }
                }
            }
        }
        unclaimed
    }
}

/// Taking one entry out takes its key out.
proof fn lemma_table_removed(
    before: Seq<(GracefulUnmountKey, PendingGracefulUnmount)>,
    after: Seq<(GracefulUnmountKey, PendingGracefulUnmount)>,
    i: int,
)
    requires
        keys_distinct(before),
        keys_distinct(after),
        0 <= i < before.len(),
        after == before.remove(i),
    ensures
        table_map(after) == table_map(before).remove(before[i].0),
{
    lemma_table(before);
    lemma_table(after);
    let key = before[i].0;
    assert forall|other: GracefulUnmountKey| table_map(after).contains_key(other) == (table_map(
        before,
    ).contains_key(other) && other != key) by {
        if table_map(after).contains_key(other) {
            let j = choose|j: int| 0 <= j < after.len() && (#[trigger] after[j]).0 == other;
            let p = if j < i { j } else { j + 1 };
            assert(after[j] == before[p]);
            assert(table_map(before).contains_pair(before[p].0, before[p].1));
            if p < i {
                assert(before[p].0 != before[i].0);
            } else {
                assert(before[i].0 != before[p].0);
            }
        }
        if table_map(before).contains_key(other) && other != key {
            let p = choose|p: int| 0 <= p < before.len() && (#[trigger] before[p]).0 == other;
            let j = if p < i { p } else { p - 1 };
            assert(after[j] == before[p]);
            assert(table_map(after).contains_pair(after[j].0, after[j].1));
        }
    }
    assert forall|other: GracefulUnmountKey| #[trigger]
        table_map(after).contains_key(other) implies table_map(after)[other] == table_map(
        before,
    )[other] by {
        let j = choose|j: int| 0 <= j < after.len() && (#[trigger] after[j]).0 == other;
        let p = if j < i { j } else { j + 1 };
        assert(after[j] == before[p]);
        assert(table_map(before).contains_pair(before[p].0, before[p].1));
        assert(table_map(after).contains_pair(after[j].0, after[j].1));
    }
    assert(table_map(after) =~= table_map(before).remove(key));
}

/// Segment removals that are put off, each to its earliest requested deadline.
pub struct GracefulUnmountQueue {
    deadlines: TimerQueue,
    pending: PendingTable,
    next_revision: u64,
    cancelled_since_report: usize,
}

impl View for GracefulUnmountQueue {
    type V = GracefulView;

    closed spec fn view(&self) -> GracefulView {
        GracefulView {
            deadlines: self.deadlines@,
            pending: self.pending@,
            revision: self.next_revision,
            cancelled: self.cancelled_since_report,
        }
    }
}

impl GracefulUnmountQueue {
    pub closed spec fn wf(&self) -> bool {
        self.pending.wf() && in_order(self.deadlines@)
    }

    pub fn new() -> (queue: Self)
        ensures
            queue.wf(),
            queue@ == GracefulView::empty(),
    {
        Self {
            deadlines: TimerQueue::new(),
            pending: PendingTable::new(),
            next_revision: 0,
            cancelled_since_report: 0,
        }
    }

    /// Puts a removal off to a deadline, unless an earlier or a claimed one of
    /// the same attachment stands.
    pub fn schedule(
        &mut self,
        key: GracefulUnmountKey,
        incarnation: SegmentIncarnation,
        deadline: ClientTick,
    )
        requires
            old(self).wf(),
        ensures
            final(self).wf(),
            final(self)@ == old(self)@.scheduled(key, incarnation, deadline),
    {
        if let Some(pending) = self.pending.get(key) {
            if pending.incarnation == incarnation && (pending.claimed || pending.deadline.value
                <= deadline.value) {
                return ;
            }
        }
        self.insert(key, incarnation, deadline);
    }

    fn insert(&mut self, key: GracefulUnmountKey, incarnation: SegmentIncarnation, deadline: ClientTick)
        requires
            old(self).wf(),
        ensures
            final(self).wf(),
            final(self)@ == old(self)@.inserted(key, incarnation, deadline),
    {
        let revision: u64 = if self.next_revision == u64::MAX {
            1
        } else {
            self.next_revision + 1
        };
        self.next_revision = revision;
        self.pending.insert(
            key,
            PendingGracefulUnmount { deadline, incarnation, revision, claimed: false },
        );
        self.deadlines.put(
            TimerRecord {
                at: deadline.value,
                revision,
                client: key.session.client_id,
                generation: key.session.generation,
                segment: key.segment,
            },
        );
    }

    /// Calls a removal off.
    pub fn cancel(&mut self, key: GracefulUnmountKey)
        requires
            old(self).wf(),
        ensures
            final(self).wf(),
            final(self)@ == old(self)@.cancelled(key),
    {
        if let Some(pending) = self.pending.get(key) {
            if !pending.claimed {
                self.cancelled_since_report = self.cancelled_since_report.saturating_add(1);
            }
        }
        self.pending.remove(key);
    }

    /// Calls all removals of a session off.
    pub fn cancel_session(&mut self, session: ClientSession)
        requires
            old(self).wf(),
        ensures
            final(self).wf(),
            final(self)@ == old(self)@.session_cancelled(session),
    {
        let cancelled: usize = self.pending.remove_session(session);
        self.cancelled_since_report = self.cancelled_since_report.saturating_add(cancelled);
    }

    /// Whether a removal is put off for an attachment.
    pub fn contains(&self, key: GracefulUnmountKey, incarnation: &SegmentIncarnation) -> (held: bool)
        requires
            self.wf(),
        ensures
            held == self@.holds(key, *incarnation),
    {
        match self.pending.get(key) {
            Some(pending) => pending.incarnation.same_as(incarnation),
            None => false,
        }
    }

    /// Drops the deadlines in front that are outdated.
    fn prune_stale_deadlines(&mut self)
        requires
            old(self).wf(),
        ensures
            final(self).wf(),
            final(self)@ == old(self)@.pruned(),
    {
        let ghost goal = self@.pruned();
        loop
            invariant
                self.wf(),
                goal == self@.pruned(),
            ensures
                self.wf(),
                goal == self@,
            decreases self@.deadlines.len(),
        {
            let record = match self.deadlines.first() {
                Some(record) => record,
                None => break ,
            };
            let key = GracefulUnmountKey {
                session: ClientSession { client_id: record.client, generation: record.generation },
                segment: record.segment,
            };
            let current = match self.pending.get(key) {
                Some(pending) => pending.revision == record.revision && pending.deadline.value
                    == record.at,
                None => false,
            };
            if current {
                break ;
            }
            let ghost before = self@;
            let _ = self.deadlines.take_first();
            proof {
                lemma_rest_in_order(before.deadlines);
            }
        }
    }

    /// The earliest deadline.
    pub fn next_deadline(&mut self) -> (deadline: Option<ClientTick>)
        requires
            old(self).wf(),
        ensures
            final(self).wf(),
            final(self)@ == old(self)@.pruned(),
            deadline == if old(self)@.pruned().deadlines.len() == 0 {
                None
            } else {
                Some(ClientTick { value: old(self)@.pruned().deadlines[0].at })
            },
    {
        self.prune_stale_deadlines();
        match self.deadlines.first() {
            Some(record) => Some(ClientTick::new(record.at)),
            None => None,
        }
    }

    /// Claims due removals, the earliest first.
    pub fn claim_due(&mut self, now: ClientTick, budget: usize) -> (jobs: Vec<GracefulUnmountJob>)
        requires
            old(self).wf(),
        ensures
            final(self).wf(),
            ({
                let walk = (ClaimWalk { queue: old(self)@, jobs: Seq::empty() }).claim(
                    now,
                    budget as nat,
                );
                &&& jobs@ == walk.jobs
                &&& final(self)@ == walk.queue
            }),
            jobs@.len() <= budget,
    {
        let mut jobs: Vec<GracefulUnmountJob> = Vec::new();
        let ghost goal = ClaimWalk { queue: self@, jobs: jobs@ }.claim(now, budget as nat);
        loop
            invariant
                self.wf(),
                jobs@.len() <= budget,
                goal == (ClaimWalk { queue: self@, jobs: jobs@ }).claim(now, budget as nat),
            ensures
                self.wf(),
                jobs@.len() <= budget,
                goal == (ClaimWalk { queue: self@, jobs: jobs@ }),
            decreases self@.deadlines.len(),
        {
            if jobs.len() >= budget {
                break ;
            }
            proof {
                lemma_pruned(self@);
            }
            self.prune_stale_deadlines();
            let ghost queue = self@;
            let record = match self.deadlines.first() {
                Some(record) => record,
                None => break ,
            };
            if record.at > now.value {
                break ;
            }
            let _ = self.deadlines.take_first();
            proof {
                lemma_rest_in_order(queue.deadlines);
            }
            let key = GracefulUnmountKey {
                session: ClientSession { client_id: record.client, generation: record.generation },
                segment: record.segment,
            };
            let pending = match self.pending.get(key) {
                Some(pending) => pending,
                None => {
                    assert(false);
                    break ;
                },
            };
            if !pending.claimed {
                self.pending.insert(key, PendingGracefulUnmount { claimed: true, ..pending });
                jobs.push(
                    GracefulUnmountJob {
                        key,
                        incarnation: pending.incarnation,
                        revision: record.revision,
                    },
                );
            }
        }
        jobs
    }

    /// How many removals were called off since this was last asked.
    pub fn take_cancelled(&mut self) -> (cancelled: usize)
        requires
            old(self).wf(),
        ensures
            final(self).wf(),
            cancelled == old(self)@.cancelled,
            final(self)@ == (GracefulView { cancelled: 0, ..old(self)@ }),
    {
        let cancelled: usize = self.cancelled_since_report;
        self.cancelled_since_report = 0;
        cancelled
    }

    /// Takes a removal out that was executed or given up.
    pub fn finish(&mut self, job: &GracefulUnmountJob)
        requires
            old(self).wf(),
        ensures
            final(self).wf(),
            final(self)@ == old(self)@.finished(*job),
    {
        if let Some(pending) = self.pending.get(job.key) {
            if pending.revision == job.revision {
                self.pending.remove(job.key);
            }
        }
    }

    /// Puts a claimed removal off again, unless it was called off or replaced.
    pub fn retry(&mut self, job: GracefulUnmountJob, deadline: ClientTick) -> (retried: bool)
        requires
            old(self).wf(),
        ensures
            final(self).wf(),
            retried == old(self)@.can_retry(job),
            final(self)@ == if retried {
                old(self)@.inserted(job.key, job.incarnation, deadline)
            } else {
                old(self)@
            },
    {
        match self.pending.get(job.key) {
            None => return false,
            Some(pending) => {
                if pending.revision != job.revision {
                    return false;
                }
            },
        }
        self.insert(job.key, job.incarnation, deadline);
        true
    }
}

/// Records without the first one are in order.
proof fn lemma_rest_in_order(records: Seq<TimerRecord>)
    requires
        in_order(records),
        records.len() > 0,
    ensures
        in_order(records.drop_first()),
{
    let rest = records.drop_first();
    assert forall|i: int, j: int| 0 <= i < j < rest.len() implies !super::timer::record_before(
        #[trigger] rest[j],
        #[trigger] rest[i],
    ) by {
        assert(rest[i] == records[i + 1]);
        assert(rest[j] == records[j + 1]);
    }
}

/// Pruning leaves current deadlines in place.
proof fn lemma_pruned_keeps_current(queue: GracefulView, record: TimerRecord)
    requires
        queue.deadlines.contains(record),
        is_current(queue.pending, record),
    ensures
        queue.pruned().deadlines.contains(record),
    decreases queue.deadlines.len(),
{
    if !is_current(queue.pending, queue.deadlines[0]) {
        let rest = GracefulView { deadlines: queue.deadlines.drop_first(), ..queue };
        let i = choose|i: int| 0 <= i < queue.deadlines.len() && queue.deadlines[i] == record;
        assert(rest.deadlines[i - 1] == record);
        lemma_pruned_keeps_current(rest, record);
    }
}

/// The earlier of two moments.
pub open spec fn earlier(left: ClientTick, right: ClientTick) -> ClientTick {
    if left.value <= right.value {
        left
    } else {
        right
    }
}

/// Where nothing else is put off, a removal that is asked for twice is the next
/// one to be due, at the earlier of the two deadlines.
pub proof fn law_next_deadline_is_the_earlier(
    queue: GracefulView,
    key: GracefulUnmountKey,
    incarnation: SegmentIncarnation,
    first: ClientTick,
    second: ClientTick,
)
    requires
        queue.pending.dom() == Set::<GracefulUnmountKey>::empty(),
    ensures
        ({
            let twice = queue.scheduled(key, incarnation, first).scheduled(
                key,
                incarnation,
                second,
            );
            &&& twice.pending[key].deadline == earlier(first, second)
            &&& twice.pruned().deadlines.len() > 0
            &&& twice.pruned().deadlines[0].at == earlier(first, second).value
        }),
{
    assert(!queue.pending.dom().contains(key));
    let once = queue.scheduled(key, incarnation, first);
    let twice = once.scheduled(key, incarnation, second);
    let pending = twice.pending[key];
    let record = record_of(key, pending.deadline, pending.revision);
    super::timer::lemma_slot_range(
        queue.deadlines,
        record_of(key, first, next_revision(queue.revision)),
    );
    super::timer::lemma_slot_range(
        once.deadlines,
        record_of(key, second, next_revision(once.revision)),
    );
    assert(twice.deadlines.contains(record));
    assert(key_of(record) == key);
    lemma_pruned_keeps_current(twice, record);
    lemma_pruned(twice);
    let next = twice.pruned().deadlines[0];
    assert(twice.pending.contains_key(key_of(next)));
    assert(!queue.pending.dom().contains(key_of(next)));
    assert(key_of(next) == key);
}

/// Whether removals are the same but for who has claimed them.
spec fn differ_in_claims(before: PendingMap, after: PendingMap) -> bool {
    forall|key: GracefulUnmountKey| #[trigger]
        after.contains_key(key) ==> before.contains_key(key) && before[key].deadline
            == after[key].deadline
}

/// Whether claimed removals were due.
spec fn were_due(pending: PendingMap, jobs: Seq<GracefulUnmountJob>, now: ClientTick) -> bool {
    forall|i: int|
        0 <= i < jobs.len() ==> pending.contains_key((#[trigger] jobs[i]).key)
            && pending[jobs[i].key].deadline.value <= now.value
}

proof fn lemma_claims_are_due(before: PendingMap, walk: ClaimWalk, now: ClientTick, budget: nat)
    requires
        differ_in_claims(before, walk.queue.pending),
        were_due(before, walk.jobs, now),
    ensures
        were_due(before, walk.claim(now, budget).jobs, now),
    decreases walk.queue.deadlines.len(),
{
    lemma_pruned(walk.queue);
    let queue = walk.queue.pruned();
    if walk.jobs.len() < budget && queue.deadlines.len() > 0 && queue.deadlines[0].at <= now.value {
        let record = queue.deadlines[0];
        let key = key_of(record);
        let rest = GracefulView { deadlines: queue.deadlines.drop_first(), ..queue };
        if queue.pending[key].claimed {
            lemma_claims_are_due(before, ClaimWalk { queue: rest, ..walk }, now, budget);
        } else {
            let job = GracefulUnmountJob {
                key,
                incarnation: rest.pending[key].incarnation,
                revision: record.revision,
            };
            let next = ClaimWalk {
                queue: GracefulView {
                    pending: rest.pending.insert(
                        key,
                        PendingGracefulUnmount { claimed: true, ..rest.pending[key] },
                    ),
                    ..rest
                },
                jobs: walk.jobs.push(job),
            };
            assert forall|i: int| 0 <= i < next.jobs.len() implies before.contains_key(
                (#[trigger] next.jobs[i]).key,
            ) && before[next.jobs[i].key].deadline.value <= now.value by {
                if i < walk.jobs.len() {
                    assert(next.jobs[i] == walk.jobs[i]);
                }
            }
            lemma_claims_are_due(before, next, now, budget);
        }
    }
}

/// No removal is claimed before its deadline.
pub proof fn law_no_removal_is_early(queue: GracefulView, now: ClientTick, budget: nat, i: int)
    requires
        0 <= i < (ClaimWalk { queue, jobs: Seq::empty() }).claim(now, budget).jobs.len(),
    ensures
        ({
            let job = (ClaimWalk { queue, jobs: Seq::empty() }).claim(now, budget).jobs[i];
            &&& queue.pending.contains_key(job.key)
            &&& queue.pending[job.key].deadline.value <= now.value
        }),
{
    lemma_claims_are_due(
        queue.pending,
        ClaimWalk { queue, jobs: Seq::empty() },
        now,
        budget,
    );
}

/// However often a removal of one attachment is asked for, it is due no later
/// than the earliest deadline that was asked for, as long as nobody claimed it.
pub proof fn law_earliest_deadline_stands(
    queue: GracefulView,
    key: GracefulUnmountKey,
    incarnation: SegmentIncarnation,
    first: ClientTick,
    second: ClientTick,
)
    ensures
        ({
            let once = queue.scheduled(key, incarnation, first);
            let twice = once.scheduled(key, incarnation, second);
            let pending = twice.pending[key];
            &&& twice.pending.contains_key(key)
            &&& pending.incarnation == incarnation
            &&& pending.claimed || (pending.deadline.value <= first.value && pending.deadline.value
                <= second.value)
        }),
{
}

} // verus!

//! A queue of deadlines, the earliest first.

use crate::segment::identity::{ClientId, SegmentId};
use vstd::prelude::*;

verus! {

/// One deadline of one client session or of one of its segments.
#[derive(Clone, Copy, Debug, Eq, PartialEq, Structural)]
pub struct TimerRecord {
    pub at: u64,
    pub revision: u64,
    pub client: ClientId,
    pub generation: u64,
    pub segment: SegmentId,
}

/// Whether one record comes before another: by deadline, then by revision,
/// client, generation and segment.
pub open spec fn record_before(left: TimerRecord, right: TimerRecord) -> bool {
    if left.at != right.at {
        left.at < right.at
    } else if left.revision != right.revision {
        left.revision < right.revision
    } else if left.client.high != right.client.high {
        left.client.high < right.client.high
    } else if left.client.low != right.client.low {
        left.client.low < right.client.low
    } else if left.generation != right.generation {
        left.generation < right.generation
    } else if left.segment.high != right.segment.high {
        left.segment.high < right.segment.high
    } else {
        left.segment.low < right.segment.low
    }
}

/// The position behind all records that do not come after a record.
pub open spec fn slot_for(records: Seq<TimerRecord>, record: TimerRecord) -> int
    decreases records.len(),
{
    if records.len() == 0 || record_before(record, records[0]) {
        0
    } else {
        1 + slot_for(records.drop_first(), record)
    }
}

/// Records with one more, in order.
pub open spec fn with_record(records: Seq<TimerRecord>, record: TimerRecord) -> Seq<TimerRecord> {
    records.insert(slot_for(records, record), record)
}

/// Whether no record comes before an earlier one.
pub open spec fn in_order(records: Seq<TimerRecord>) -> bool {
    forall|i: int, j: int|
        0 <= i < j < records.len() ==> !record_before(
            #[trigger] records[j],
            #[trigger] records[i],
        )
}

/// The position for a record is where records that come after it begin.
pub proof fn lemma_slot(records: Seq<TimerRecord>, record: TimerRecord, place: int)
    requires
        0 <= place <= records.len(),
        forall|i: int| 0 <= i < place ==> !record_before(record, #[trigger] records[i]),
        place < records.len() ==> record_before(record, records[place]),
    ensures
        slot_for(records, record) == place,
    decreases records.len(),
{
    if records.len() > 0 && place > 0 {
        assert(!record_before(record, records[0]));
        let rest = records.drop_first();
        assert forall|i: int| 0 <= i < place - 1 implies !record_before(
            record,
            #[trigger] rest[i],
        ) by {
            assert(rest[i] == records[i + 1]);
        }
        lemma_slot(rest, record, place - 1);
    }
}

/// A position for a record is a position.
pub proof fn lemma_slot_range(records: Seq<TimerRecord>, record: TimerRecord)
    ensures
        0 <= slot_for(records, record) <= records.len(),
        with_record(records, record).contains(record),
        forall|other: TimerRecord| #[trigger]
            records.contains(other) ==> with_record(records, record).contains(other),
        forall|other: TimerRecord| #[trigger]
            with_record(records, record).contains(other) ==> other == record || records.contains(
                other,
            ),
    decreases records.len(),
{
    if records.len() > 0 && !record_before(record, records[0]) {
        lemma_slot_range(records.drop_first(), record);
    }
    let place = slot_for(records, record);
    let longer = with_record(records, record);
    assert(longer[place] == record);
    assert forall|other: TimerRecord| #[trigger] longer.contains(other) implies other == record
        || records.contains(other) by {
        let i = choose|i: int| 0 <= i < longer.len() && longer[i] == other;
        if i < place {
            assert(records[i] == other);
        } else if i > place {
            assert(records[i - 1] == other);
        }
    }
    assert forall|other: TimerRecord| #[trigger] records.contains(other) implies longer.contains(
        other,
    ) by {
        let i = choose|i: int| 0 <= i < records.len() && records[i] == other;
        if i < place {
            assert(longer[i] == other);
        } else {
            assert(longer[i + 1] == other);
        }
    }
}

/// A record put in its place leaves the records in order.
pub proof fn lemma_with_record_in_order(records: Seq<TimerRecord>, record: TimerRecord, place: int)
    requires
        in_order(records),
        0 <= place <= records.len(),
        forall|i: int| 0 <= i < place ==> !record_before(record, #[trigger] records[i]),
        place < records.len() ==> record_before(record, records[place]),
    ensures
        in_order(records.insert(place, record)),
{
    let longer = records.insert(place, record);
    assert forall|i: int, j: int| 0 <= i < j < longer.len() implies !record_before(
        #[trigger] longer[j],
        #[trigger] longer[i],
    ) by {
        if i == place {
            assert(longer[j] == records[j - 1]);
            if place < j - 1 {
                assert(!record_before(records[j - 1], records[place]));
            }
        } else if j == place {
            assert(longer[i] == records[i]);
        } else {
            let old_i = if i < place { i } else { i - 1 };
            let old_j = if j < place { j } else { j - 1 };
            assert(!record_before(records[old_j], records[old_i]));
        }
    }
}

fn goes_before(left: &TimerRecord, right: &TimerRecord) -> (before: bool)
    ensures
        before == record_before(*left, *right),
{
    if left.at != right.at {
        left.at < right.at
    } else if left.revision != right.revision {
        left.revision < right.revision
    } else if left.client.high != right.client.high {
        left.client.high < right.client.high
    } else if left.client.low != right.client.low {
        left.client.low < right.client.low
    } else if left.generation != right.generation {
        left.generation < right.generation
    } else if left.segment.high != right.segment.high {
        left.segment.high < right.segment.high
    } else {
        left.segment.low < right.segment.low
    }
}

/// Deadlines in order. The earliest is taken first.
pub struct TimerQueue {
    /// The records, the latest first.
    records: Vec<TimerRecord>,
}

impl View for TimerQueue {
    type V = Seq<TimerRecord>;

    closed spec fn view(&self) -> Seq<TimerRecord> {
        self.records@.reverse()
    }
}

impl TimerQueue {
    pub fn new() -> (queue: Self)
        ensures
            queue@ == Seq::<TimerRecord>::empty(),
    {
        let queue = Self { records: Vec::new() };
        assert(queue@ =~= Seq::empty());
        queue
    }

    pub fn len(&self) -> (length: usize)
        ensures
            length == self@.len(),
    {
        self.records.len()
    }

    /// The earliest deadline.
    pub fn first(&self) -> (first: Option<TimerRecord>)
        ensures
            first == if self@.len() == 0 {
                None
            } else {
                Some(self@[0])
            },
    {
        let length: usize = self.records.len();
        if length == 0 {
            None
        } else {
            Some(self.records[length - 1])
        }
    }

    /// Takes the earliest deadline.
    pub fn take_first(&mut self) -> (first: Option<TimerRecord>)
        ensures
            old(self)@.len() == 0 ==> first is None && final(self)@ == old(self)@,
            old(self)@.len() > 0 ==> first == Some(old(self)@[0]) && final(self)@ == old(
                self,
            )@.drop_first(),
    {
        let ghost before = self@;
        let first = self.records.pop();
        proof {
            if before.len() > 0 {
                assert(self@ =~= before.drop_first());
            } else {
                assert(self@ =~= before);
            }
        }
        first
    }

    /// Adds a deadline in its place.
    pub fn put(&mut self, record: TimerRecord)
        requires
            in_order(old(self)@),
        ensures
            final(self)@ == with_record(old(self)@, record),
            in_order(final(self)@),
    {
        let ghost before = self@;
        let ghost stored = self.records@;
        let mut place: usize = 0;
        while place < self.records.len() && goes_before(&record, &self.records[place])
            invariant
                self.records@ == stored,
                before == stored.reverse(),
                place <= stored.len(),
                forall|i: int|
                    0 <= i < place ==> record_before(record, #[trigger] stored[i]),
            decreases stored.len() - place,
        {
            place = place + 1;
        }
        self.records.insert(place, record);
        proof {
            let slot = before.len() - place;
            assert forall|i: int| 0 <= i < slot implies !record_before(
                record,
                #[trigger] before[i],
            ) by {
                let last = before[slot - 1];
                assert(last == stored[place as int]);
                if i < slot - 1 {
                    assert(!record_before(before[slot - 1], before[i]));
                }
            }
            if slot < before.len() {
                assert(before[slot] == stored[place - 1]);
            }
            lemma_slot(before, record, slot);
            lemma_with_record_in_order(before, record, slot);
            assert(self@ =~= before.insert(slot, record));
        }
    }
}

} // verus!

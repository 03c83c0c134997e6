//! What the benchmark programs ask of the library, and what they make of the
//! figures that they measure.
//!
//! Threads, clocks and output belong to the programs; which operation comes
//! next, how outcomes are counted and how figures are condensed is decided here.

pub mod put;

use vstd::prelude::*;

verus! {

/// How the workers of a benchmark spread over the segments.
#[derive(Clone, Copy, Debug, Eq, PartialEq, Structural)]
pub enum Scenario {
    /// Each worker stays with one segment.
    Sharded,
    /// Each worker goes from segment to segment.
    Striped,
    /// All workers share the first segment.
    Contended,
    /// All workers ask the first segment for more than it has.
    CapacityFailed,
}

impl Scenario {
    pub fn name(self) -> (name: &'static str)
        ensures
            name@ == match self {
                Scenario::Sharded => "sharded"@,
                Scenario::Striped => "striped"@,
                Scenario::Contended => "contended"@,
                Scenario::CapacityFailed => "capacity_failed"@,
            },
    {
        match self {
            Self::Sharded => "sharded",
            Self::Striped => "striped",
            Self::Contended => "contended",
            Self::CapacityFailed => "capacity_failed",
        }
    }

    /// The segment that a worker uses for an operation.
    pub fn candidate_index(self, worker: usize, operation: usize, segments: usize) -> (index: usize)
        requires
            segments > 0,
            worker + operation <= usize::MAX,
        ensures
            index < segments,
            index as int == match self {
                Scenario::Sharded => worker as int % segments as int,
                Scenario::Striped => (worker + operation) % (segments as int),
                _ => 0,
            },
    {
        match self {
            Self::Sharded => worker % segments,
            Self::Striped => (worker + operation) % segments,
            Self::Contended => 0,
            Self::CapacityFailed => 0,
        }
    }
}

/// What a benchmark of tenants measures.
#[derive(Clone, Copy, Debug, Eq, PartialEq, Structural)]
pub enum Operation {
    Put,
    Get,
    Exists,
}

impl Operation {
    pub fn name(self) -> (name: &'static str)
        ensures
            name@ == match self {
                Operation::Put => "put"@,
                Operation::Get => "get"@,
                Operation::Exists => "exists"@,
            },
    {
        match self {
            Self::Put => "put",
            Self::Get => "get",
            Self::Exists => "exists",
        }
    }
}

/// A quotient that is rounded up.
pub open spec fn rounded_up(dividend: int, divisor: int) -> int {
    if dividend % divisor == 0 {
        dividend / divisor
    } else {
        dividend / divisor + 1
    }
}

/// A quotient that is rounded up.
pub fn divided_up(dividend: usize, divisor: usize) -> (quotient: usize)
    requires
        divisor > 0,
    ensures
        quotient as int == rounded_up(dividend as int, divisor as int),
{
    let whole: usize = dividend / divisor;
    if dividend % divisor == 0 {
        whole
    } else {
        proof {
            vstd::arithmetic::div_mod::lemma_fundamental_div_mod(dividend as int, divisor as int);
            vstd::arithmetic::div_mod::lemma_mod_bound(dividend as int, divisor as int);
            assert(whole < usize::MAX) by (nonlinear_arith)
                requires
                    dividend == divisor * whole + dividend % divisor,
                    0 < dividend % divisor < divisor,
                    dividend <= usize::MAX,
                    divisor >= 1,
            ;
        }
        whole + 1
    }
}

/// Where in a list of figures a fraction of them lies behind.
pub open spec fn percentile_index(count: nat, numerator: usize, denominator: usize) -> int {
    let product = if count * numerator > usize::MAX {
        usize::MAX as int
    } else {
        (count * numerator) as int
    };
    let rank = rounded_up(product, denominator as int);
    if rank == 0 {
        0
    } else if rank > count {
        count - 1
    } else {
        rank - 1
    }
}

/// The figure behind which a fraction of sorted figures lies.
pub fn percentile_fraction(sorted: &[u64], numerator: usize, denominator: usize) -> (figure: u64)
    requires
        denominator > 0,
    ensures
        figure == if sorted@.len() == 0 {
            0
        } else {
            sorted@[percentile_index(sorted@.len(), numerator, denominator)]
        },
{
    if sorted.len() == 0 {
        return 0;
    }
    let product: usize = match sorted.len().checked_mul(numerator) {
        Some(product) => product,
        None => usize::MAX,
    };
    let rank: usize = divided_up(product, denominator);
    proof {
        lemma_rounded_up(product as int, denominator as int);
    }
    let index: usize = if rank == 0 {
        0
    } else if rank > sorted.len() {
        sorted.len() - 1
    } else {
        rank - 1
    };
    sorted[index]
}

/// A quotient that is rounded up covers what is divided.
proof fn lemma_rounded_up(dividend: int, divisor: int)
    requires
        divisor > 0,
        dividend >= 0,
    ensures
        rounded_up(dividend, divisor) >= 0,
        rounded_up(dividend, divisor) * divisor >= dividend,
        (rounded_up(dividend, divisor) - 1) * divisor < dividend,
{
    vstd::arithmetic::div_mod::lemma_fundamental_div_mod(dividend, divisor);
    vstd::arithmetic::div_mod::lemma_mod_bound(dividend, divisor);
    vstd::arithmetic::div_mod::lemma_div_pos_is_pos(dividend, divisor);
    let whole = dividend / divisor;
    let rest = dividend % divisor;
    assert(divisor * whole == whole * divisor) by (nonlinear_arith);
    assert((whole + 1) * divisor == whole * divisor + divisor) by (nonlinear_arith);
    assert((whole - 1) * divisor == whole * divisor - divisor) by (nonlinear_arith);
}

/// A percentile is one of the figures, and at least the fraction that it is for
/// lies at or below it.
pub proof fn law_percentile_covers_its_fraction(
    sorted: Seq<u64>,
    numerator: usize,
    denominator: usize,
)
    requires
        sorted.len() > 0,
        0 < denominator,
        numerator <= denominator,
        sorted.len() * numerator <= usize::MAX,
        forall|i: int, j: int| 0 <= i < j < sorted.len() ==> sorted[i] <= sorted[j],
    ensures
        ({
            let index = percentile_index(sorted.len(), numerator, denominator);
            &&& 0 <= index < sorted.len()
            &&& (index + 1) * denominator >= sorted.len() * numerator
            &&& forall|i: int| 0 <= i <= index ==> sorted[i] <= sorted[index]
        }),
{
    let count = sorted.len() as int;
    let product = count * numerator;
    let divisor = denominator as int;
    assert(product >= 0) by (nonlinear_arith)
        requires
            product == count * numerator,
            count >= 0,
            numerator >= 0,
    ;
    lemma_rounded_up(product, divisor);
    let rank = rounded_up(product, divisor);
    assert(rank <= count) by (nonlinear_arith)
        requires
            (rank - 1) * divisor < product,
            product == count * numerator,
            numerator <= divisor,
            count > 0,
            divisor > 0,
    ;
    if rank == 0 {
        assert(rank * divisor == 0) by (nonlinear_arith)
            requires
                rank == 0,
        ;
    }
}

/// The next number of a random sequence.
pub fn next_random(random: u64) -> (next: u64)
    ensures
        next == ({
            let first = random ^ (random << 13);
            let second = first ^ (first >> 7);
            second ^ (second << 17)
        }),
{
    let first: u64 = random ^ (random << 13);
    let second: u64 = first ^ (first >> 7);
    second ^ (second << 17)
}

/// How many objects a watermark benchmark may hold at a time.
pub open spec fn expected_objects(num_objects: usize, threads: usize, operations: usize) -> int {
    num_objects + threads * rounded_up(operations as int, 2) + 1024
}

/// How many objects a watermark benchmark may hold at a time, if that can be
/// counted by an allocator.
pub fn allocator_nodes_for(num_objects: usize, threads: usize, operations: usize) -> (nodes: Option<
    u32,
>)
    ensures
        nodes == if expected_objects(num_objects, threads, operations) > u32::MAX {
            None::<u32>
        } else {
            Some(expected_objects(num_objects, threads, operations) as u32)
        },
{
    let puts_per_thread: usize = divided_up(operations, 2);
    proof {
        lemma_rounded_up(operations as int, 2);
        assert(threads * puts_per_thread >= 0) by (nonlinear_arith)
            requires
                threads >= 0,
                puts_per_thread >= 0,
        ;
    }
    let puts: u64 = match (threads as u64).checked_mul(puts_per_thread as u64) {
        Some(puts) => puts,
        None => return None,
    };
    let stored: u64 = match puts.checked_add(num_objects as u64) {
        Some(stored) => stored,
        None => return None,
    };
    match stored.checked_add(1024) {
        Some(expected) => {
            if expected > u32::MAX as u64 {
                None
            } else {
                Some(expected as u32)
            }
        },
        None => None,
    }
}

/// What became of a put.
#[derive(Clone, Copy, Debug, Eq, PartialEq, Structural)]
pub enum PutOutcome {
    Stored,
    NotStarted,
    NotFinished,
}

/// What a worker of a watermark benchmark measured. Latencies are kept apart by
/// whether memory was under pressure.
#[derive(Debug)]
pub struct WorkerTally {
    pub before_puts: Vec<u64>,
    pub before_gets: Vec<u64>,
    pub pressure_puts: Vec<u64>,
    pub pressure_put_successes: Vec<u64>,
    pub pressure_put_failures: Vec<u64>,
    pub pressure_gets: Vec<u64>,
    pub put_successes: u64,
    pub put_start_failures: u64,
    pub put_end_failures: u64,
    pub get_hits: u64,
    pub get_failures: u64,
}

/// The contents of a [`WorkerTally`].
pub struct TallyView {
    pub before_puts: Seq<u64>,
    pub before_gets: Seq<u64>,
    pub pressure_puts: Seq<u64>,
    pub pressure_put_successes: Seq<u64>,
    pub pressure_put_failures: Seq<u64>,
    pub pressure_gets: Seq<u64>,
    pub put_successes: u64,
    pub put_start_failures: u64,
    pub put_end_failures: u64,
    pub get_hits: u64,
    pub get_failures: u64,
}

impl View for WorkerTally {
    type V = TallyView;

    open spec fn view(&self) -> TallyView {
        TallyView {
            before_puts: self.before_puts@,
            before_gets: self.before_gets@,
            pressure_puts: self.pressure_puts@,
            pressure_put_successes: self.pressure_put_successes@,
            pressure_put_failures: self.pressure_put_failures@,
            pressure_gets: self.pressure_gets@,
            put_successes: self.put_successes,
            put_start_failures: self.put_start_failures,
            put_end_failures: self.put_end_failures,
            get_hits: self.get_hits,
            get_failures: self.get_failures,
        }
    }
}

/// A sum that stops at the largest value.
pub open spec fn capped(left: u64, right: u64) -> u64 {
    if left + right > u64::MAX {
        u64::MAX
    } else {
        (left + right) as u64
    }
}

/// A list with one figure more, if it is to be noted.
pub open spec fn noted(figures: Seq<u64>, note: bool, figure: u64) -> Seq<u64> {
    if note {
        figures.push(figure)
    } else {
        figures
    }
}

impl TallyView {
    /// The tally after a put.
    pub open spec fn with_put(self, outcome: PutOutcome, pressure: bool, latency: u64) -> TallyView {
        let stored = outcome == PutOutcome::Stored;
        TallyView {
            before_puts: noted(self.before_puts, !pressure, latency),
            pressure_puts: noted(self.pressure_puts, pressure, latency),
            pressure_put_successes: noted(
                self.pressure_put_successes,
                pressure && stored,
                latency,
            ),
            pressure_put_failures: noted(self.pressure_put_failures, pressure && !stored, latency),
            put_successes: if stored {
                capped(self.put_successes, 1)
            } else {
                self.put_successes
            },
            put_start_failures: if outcome == PutOutcome::NotStarted {
                capped(self.put_start_failures, 1)
            } else {
                self.put_start_failures
            },
            put_end_failures: if outcome == PutOutcome::NotFinished {
                capped(self.put_end_failures, 1)
            } else {
                self.put_end_failures
            },
            ..self
        }
    }

    /// The tally after a lookup.
    pub open spec fn with_get(self, found: bool, pressure: bool, latency: u64) -> TallyView {
        TallyView {
            before_gets: noted(self.before_gets, !pressure, latency),
            pressure_gets: noted(self.pressure_gets, pressure, latency),
            get_hits: if found {
                capped(self.get_hits, 1)
            } else {
                self.get_hits
            },
            get_failures: if found {
                self.get_failures
            } else {
                capped(self.get_failures, 1)
            },
            ..self
        }
    }

    /// Two tallies together.
    pub open spec fn with_all(self, other: TallyView) -> TallyView {
        TallyView {
            before_puts: self.before_puts + other.before_puts,
            before_gets: self.before_gets + other.before_gets,
            pressure_puts: self.pressure_puts + other.pressure_puts,
            pressure_put_successes: self.pressure_put_successes + other.pressure_put_successes,
            pressure_put_failures: self.pressure_put_failures + other.pressure_put_failures,
            pressure_gets: self.pressure_gets + other.pressure_gets,
            put_successes: capped(self.put_successes, other.put_successes),
            put_start_failures: capped(self.put_start_failures, other.put_start_failures),
            put_end_failures: capped(self.put_end_failures, other.put_end_failures),
            get_hits: capped(self.get_hits, other.get_hits),
            get_failures: capped(self.get_failures, other.get_failures),
        }
    }

    /// Whether every put under pressure is among the successes or the failures.
    pub open spec fn puts_add_up(self) -> bool {
        self.pressure_puts.len() == self.pressure_put_successes.len()
            + self.pressure_put_failures.len()
    }
}

impl WorkerTally {
    pub fn new() -> (tally: Self)
        ensures
            tally@ == (TallyView {
                before_puts: Seq::empty(),
                before_gets: Seq::empty(),
                pressure_puts: Seq::empty(),
                pressure_put_successes: Seq::empty(),
                pressure_put_failures: Seq::empty(),
                pressure_gets: Seq::empty(),
                put_successes: 0,
                put_start_failures: 0,
                put_end_failures: 0,
                get_hits: 0,
                get_failures: 0,
            }),
            tally@.puts_add_up(),
    {
        Self {
            before_puts: Vec::new(),
            before_gets: Vec::new(),
            pressure_puts: Vec::new(),
            pressure_put_successes: Vec::new(),
            pressure_put_failures: Vec::new(),
            pressure_gets: Vec::new(),
            put_successes: 0,
            put_start_failures: 0,
            put_end_failures: 0,
            get_hits: 0,
            get_failures: 0,
        }
    }

    /// Takes note of a put.
    pub fn record_put(&mut self, outcome: PutOutcome, pressure: bool, latency: u64)
        ensures
            final(self)@ == old(self)@.with_put(outcome, pressure, latency),
            old(self)@.puts_add_up() ==> final(self)@.puts_add_up(),
    {
        match outcome {
            PutOutcome::Stored => {
                self.put_successes = self.put_successes.saturating_add(1);
            },
            PutOutcome::NotStarted => {
                self.put_start_failures = self.put_start_failures.saturating_add(1);
            },
            PutOutcome::NotFinished => {
                self.put_end_failures = self.put_end_failures.saturating_add(1);
            },
        }
        if pressure {
            self.pressure_puts.push(latency);
            if outcome == PutOutcome::Stored {
                self.pressure_put_successes.push(latency);
            } else {
                self.pressure_put_failures.push(latency);
            }
        } else {
            self.before_puts.push(latency);
        }
    }

    /// Takes note of a lookup.
    pub fn record_get(&mut self, found: bool, pressure: bool, latency: u64)
        ensures
            final(self)@ == old(self)@.with_get(found, pressure, latency),
    {
        if found {
            self.get_hits = self.get_hits.saturating_add(1);
        } else {
            self.get_failures = self.get_failures.saturating_add(1);
        }
        if pressure {
            self.pressure_gets.push(latency);
        } else {
            self.before_gets.push(latency);
        }
    }

    /// Adds what another worker measured.
    pub fn absorb(&mut self, other: &WorkerTally)
        ensures
            final(self)@ == old(self)@.with_all(other@),
            old(self)@.puts_add_up() && other@.puts_add_up() ==> final(self)@.puts_add_up(),
    {
        self.before_puts.extend_from_slice(other.before_puts.as_slice());
        self.before_gets.extend_from_slice(other.before_gets.as_slice());
        self.pressure_puts.extend_from_slice(other.pressure_puts.as_slice());
        self.pressure_put_successes.extend_from_slice(other.pressure_put_successes.as_slice());
        self.pressure_put_failures.extend_from_slice(other.pressure_put_failures.as_slice());
        self.pressure_gets.extend_from_slice(other.pressure_gets.as_slice());
        self.put_successes = self.put_successes.saturating_add(other.put_successes);
        self.put_start_failures = self.put_start_failures.saturating_add(other.put_start_failures);
        self.put_end_failures = self.put_end_failures.saturating_add(other.put_end_failures);
        self.get_hits = self.get_hits.saturating_add(other.get_hits);
        self.get_failures = self.get_failures.saturating_add(other.get_failures);
        proof {
            let before = old(self)@;
            assert(self.before_puts@ =~= before.before_puts + other@.before_puts);
            assert(self.before_gets@ =~= before.before_gets + other@.before_gets);
            assert(self.pressure_puts@ =~= before.pressure_puts + other@.pressure_puts);
            assert(self.pressure_put_successes@ =~= before.pressure_put_successes
                + other@.pressure_put_successes);
            assert(self.pressure_put_failures@ =~= before.pressure_put_failures
                + other@.pressure_put_failures);
            assert(self.pressure_gets@ =~= before.pressure_gets + other@.pressure_gets);
        }
    }

    /// How many objects were evicted, given how many there were before and
    /// after; none, where there are more than were stored.
    pub fn evicted(&self, objects_before: u64, objects_after: u64) -> (evicted: Option<u64>)
        ensures
            evicted == if objects_before + self.put_successes > u64::MAX || objects_after
                > objects_before + self.put_successes {
                None::<u64>
            } else {
                Some((objects_before + self.put_successes - objects_after) as u64)
            },
    {
        match objects_before.checked_add(self.put_successes) {
            Some(expected) => expected.checked_sub(objects_after),
            None => None,
        }
    }
}

/// What the collector of a watermark benchmark sees.
#[derive(Clone, Copy, Debug, Eq, PartialEq, Structural)]
pub struct CollectorSight {
    /// Whether more is used than the high watermark allows.
    pub over_high: bool,
    /// Whether it ever was.
    pub pressure_started: bool,
    pub reclaim_debt: u64,
    pub retired_bytes: u64,
    pub workload_running: bool,
    /// Whether the time to settle has passed.
    pub settle_expired: bool,
}

/// What the collector of a watermark benchmark does next.
#[derive(Clone, Copy, Debug, Eq, PartialEq, Structural)]
pub enum CollectorAction {
    Collect,
    Wait,
    Stop,
}

impl CollectorSight {
    /// What the collector does next.
    pub open spec fn action(self) -> CollectorAction {
        if self.reclaim_debt != 0 || self.retired_bytes != 0 {
            CollectorAction::Collect
        } else if !self.workload_running && (!self.pressure_started || !self.over_high
            || self.settle_expired) {
            CollectorAction::Stop
        } else {
            CollectorAction::Wait
        }
    }

    /// Whether bytes are to be reclaimed that nobody asked for yet.
    pub fn should_request(self) -> (request: bool)
        ensures
            request == (self.over_high && self.reclaim_debt == 0),
    {
        self.over_high && self.reclaim_debt == 0
    }

    /// What comes next: as long as there is something to reclaim, it is
    /// reclaimed; after the workload the collector stops once usage has settled
    /// or the time for that has passed.
    pub fn next_action(self) -> (action: CollectorAction)
        ensures
            action == self.action(),
            action == if self.reclaim_debt != 0 || self.retired_bytes != 0 {
                CollectorAction::Collect
            } else if !self.workload_running && (!self.pressure_started || !self.over_high
                || self.settle_expired) {
                CollectorAction::Stop
            } else {
                CollectorAction::Wait
            },
    {
        if self.reclaim_debt != 0 || self.retired_bytes != 0 {
            return CollectorAction::Collect;
        }
        if !self.workload_running && (!self.pressure_started || !self.over_high
            || self.settle_expired) {
            return CollectorAction::Stop;
        }
        CollectorAction::Wait
    }
}

/// Whether usage went down by more than one object between two samples.
pub fn is_drop(previous_used: u64, used: u64, object_bytes: u64) -> (drop: bool)
    ensures
        drop == (previous_used > used + object_bytes),
{
    previous_used > used.saturating_add(object_bytes)
}

/// One batch of puts.
#[derive(Clone, Copy, Debug, Eq, PartialEq, Structural)]
pub struct BatchPlan {
    /// The tenant that puts the batch.
    pub tenant: usize,
    /// The number of the first item.
    pub first: usize,
    pub count: usize,
}

/// The batch of a number.
pub open spec fn planned_batch(
    batch_size: usize,
    items: usize,
    tenant_count: usize,
    batch: usize,
) -> BatchPlan {
    BatchPlan {
        tenant: (batch as int % tenant_count as int) as usize,
        first: (batch * batch_size) as usize,
        count: if items - batch * batch_size < batch_size {
            (items - batch * batch_size) as usize
        } else {
            batch_size
        },
    }
}

/// The batch of a number. Items are put in order, tenants take turns, and the
/// last batch takes what is left.
pub fn plan_batch(batch_size: usize, items: usize, tenant_count: usize, batch: usize) -> (plan: BatchPlan)
    requires
        batch_size > 0,
        tenant_count > 0,
        batch * batch_size < items,
    ensures
        plan.tenant == batch as int % tenant_count as int,
        plan.first == batch * batch_size,
        plan.count as int == if items - batch * batch_size < batch_size {
            items - batch * batch_size
        } else {
            batch_size as int
        },
        0 < plan.count <= batch_size,
        plan.first + plan.count <= items,
        plan == planned_batch(batch_size, items, tenant_count, batch),
{
    assert(batch * batch_size >= 0) by (nonlinear_arith)
        requires
            batch >= 0,
            batch_size >= 0,
    ;
    let first: usize = batch * batch_size;
    let left: usize = items - first;
    BatchPlan {
        tenant: batch % tenant_count,
        first,
        count: if left < batch_size {
            left
        } else {
            batch_size
        },
    }
}

/// Batches follow each other without a gap: each starts where the one before it
/// ends, and the last ends with the last item.
pub proof fn law_batches_cover_all_items(batch_size: usize, items: usize, batch: usize)
    requires
        batch_size > 0,
        items > 0,
        batch < rounded_up(items as int, batch_size as int),
    ensures
        batch * batch_size < items,
        batch + 1 == rounded_up(items as int, batch_size as int) ==> items - batch * batch_size
            <= batch_size,
        batch + 1 < rounded_up(items as int, batch_size as int) ==> (batch + 1) * batch_size
            < items,
{
    let size = batch_size as int;
    let count = rounded_up(items as int, size);
    lemma_rounded_up(items as int, size);
    assert(batch * size <= (count - 1) * size) by (nonlinear_arith)
        requires
            batch <= count - 1,
            size > 0,
    ;
    assert((batch + 1) * size == batch * size + size) by (nonlinear_arith);
    assert(count * size == (count - 1) * size + size) by (nonlinear_arith);
    if batch + 1 < count {
        assert((batch + 1) * size <= (count - 1) * size) by (nonlinear_arith)
            requires
                batch + 1 <= count - 1,
                size > 0,
        ;
    }
}

/// Which of four modes is measured: the order is rotated from round to round, so
/// that drift is spread over the modes.
pub fn rotated_mode(round: usize, offset: usize) -> (mode: usize)
    requires
        round + offset <= usize::MAX,
    ensures
        mode as int == (round + offset) % 4,
        mode < 4,
{
    (round + offset) % 4
}

/// How many allocations a pool is made for.
pub fn pool_nodes_for(expected_objects: usize) -> (nodes: u32)
    ensures
        nodes as int == if expected_objects + 4096 > u32::MAX - 2 {
            u32::MAX - 2
        } else {
            expected_objects + 4096
        },
        3 <= nodes < u32::MAX - 1,
{
    let wanted: u64 = (expected_objects as u64).saturating_add(4096);
    if wanted > (u32::MAX - 2) as u64 {
        u32::MAX - 2
    } else {
        wanted as u32
    }
}

/// What is wrong with the arguments of a benchmark.
#[derive(Clone, Copy, Debug, Eq, PartialEq, Structural)]
pub enum ArgumentFault {
    NoObjects,
    NoThreads,
    TooFewOperations,
    HotObjectsOutOfRange,
    NoCollectorInterval,
    NoCollectBudget,
    NoRounds,
    NoSegmentBytes,
    AllocationsOutOfRange,
}

/// The arguments of a watermark benchmark that are counted.
#[derive(Clone, Copy, Debug, Eq, PartialEq, Structural)]
pub struct WatermarkArguments {
    pub num_objects: usize,
    pub threads: usize,
    pub operations_per_thread: usize,
    pub hot_objects: usize,
    pub collector_interval_ms: u64,
    pub collect_budget: usize,
    pub slot_cleanup_budget: usize,
    pub settle_timeout_ms: u64,
    pub rounds: usize,
}

impl WatermarkArguments {
    /// The first thing that is wrong.
    pub open spec fn fault(self) -> Option<ArgumentFault> {
        if self.num_objects == 0 {
            Some(ArgumentFault::NoObjects)
        } else if self.threads == 0 {
            Some(ArgumentFault::NoThreads)
        } else if self.operations_per_thread < 2 {
            Some(ArgumentFault::TooFewOperations)
        } else if self.hot_objects == 0 || self.hot_objects >= self.num_objects {
            Some(ArgumentFault::HotObjectsOutOfRange)
        } else if self.collector_interval_ms == 0 {
            Some(ArgumentFault::NoCollectorInterval)
        } else if self.collect_budget == 0 {
            Some(ArgumentFault::NoCollectBudget)
        } else if self.rounds == 0 {
            Some(ArgumentFault::NoRounds)
        } else {
            None
        }
    }

    /// The arguments unless others are given.
    pub fn usual() -> (arguments: Self)
        ensures
            arguments.fault() is None,
            arguments.num_objects == 100_000,
            arguments.threads == 8,
            arguments.operations_per_thread == 50_000,
            arguments.hot_objects == 2_048,
            arguments.collector_interval_ms == 10,
            arguments.collect_budget == 64,
            arguments.slot_cleanup_budget == 16,
            arguments.settle_timeout_ms == 5_000,
            arguments.rounds == 1,
    {
        Self {
            num_objects: 100_000,
            threads: 8,
            operations_per_thread: 50_000,
            hot_objects: 2_048,
            collector_interval_ms: 10,
            collect_budget: 64,
            slot_cleanup_budget: 16,
            settle_timeout_ms: 5_000,
            rounds: 1,
        }
    }

    pub fn validate(self) -> (checked: Result<(), ArgumentFault>)
        ensures
            checked == match self.fault() {
                Some(fault) => Err::<(), ArgumentFault>(fault),
                None => Ok(()),
            },
    {
        if self.num_objects == 0 {
            return Err(ArgumentFault::NoObjects);
        }
        if self.threads == 0 {
            return Err(ArgumentFault::NoThreads);
        }
        if self.operations_per_thread < 2 {
            return Err(ArgumentFault::TooFewOperations);
        }
        if self.hot_objects == 0 || self.hot_objects >= self.num_objects {
            return Err(ArgumentFault::HotObjectsOutOfRange);
        }
        if self.collector_interval_ms == 0 {
            return Err(ArgumentFault::NoCollectorInterval);
        }
        if self.collect_budget == 0 {
            return Err(ArgumentFault::NoCollectBudget);
        }
        if self.rounds == 0 {
            return Err(ArgumentFault::NoRounds);
        }
        Ok(())
    }
}

/// Checks the counted arguments of a server benchmark.
pub fn validate_server_arguments(segment_bytes: u64, max_allocations: u32) -> (checked: Result<
    (),
    ArgumentFault,
>)
    ensures
        checked == if segment_bytes == 0 {
            Err::<(), ArgumentFault>(ArgumentFault::NoSegmentBytes)
        } else if max_allocations < 3 || max_allocations >= u32::MAX - 1 {
            Err(ArgumentFault::AllocationsOutOfRange)
        } else {
            Ok(())
        },
{
    if segment_bytes == 0 {
        return Err(ArgumentFault::NoSegmentBytes);
    }
    if max_allocations < 3 || max_allocations >= u32::MAX - 1 {
        return Err(ArgumentFault::AllocationsOutOfRange);
    }
    Ok(())
}

/// Whether usage settled at the low watermark with nothing left to reclaim.
pub fn settled_to_low(used_bytes: u64, low_watermark_bytes: u64, reclaim_debt: u64, retired_bytes: u64) -> (settled: bool)
    ensures
        settled == (used_bytes <= low_watermark_bytes && reclaim_debt == 0 && retired_bytes == 0),
{
    used_bytes <= low_watermark_bytes && reclaim_debt == 0 && retired_bytes == 0
}

/// A put is tallied once: under what it came to, and with its latency among those
/// before or those under pressure.
pub proof fn law_puts_are_tallied_once(
    tally: TallyView,
    outcome: PutOutcome,
    pressure: bool,
    latency: u64,
)
    requires
        tally.put_successes < u64::MAX,
        tally.put_start_failures < u64::MAX,
        tally.put_end_failures < u64::MAX,
    ensures
        ({
            let after = tally.with_put(outcome, pressure, latency);
            &&& after.put_successes + after.put_start_failures + after.put_end_failures
                == tally.put_successes + tally.put_start_failures + tally.put_end_failures + 1
            &&& outcome == PutOutcome::Stored <==> after.put_successes > tally.put_successes
            &&& outcome == PutOutcome::NotStarted <==> after.put_start_failures
                > tally.put_start_failures
            &&& after.before_puts.len() + after.pressure_puts.len() == tally.before_puts.len()
                + tally.pressure_puts.len() + 1
            &&& pressure ==> after.pressure_puts == tally.pressure_puts.push(latency)
            &&& !pressure ==> after.before_puts == tally.before_puts.push(latency)
            &&& after.pressure_put_successes.len() + after.pressure_put_failures.len()
                - tally.pressure_put_successes.len() - tally.pressure_put_failures.len()
                == after.pressure_puts.len() - tally.pressure_puts.len()
            &&& after.get_hits == tally.get_hits && after.get_failures == tally.get_failures
        }),
{
}

/// A get is tallied once, as a hit or as a failure, with its latency among those
/// before or those under pressure.
pub proof fn law_gets_are_tallied_once(tally: TallyView, found: bool, pressure: bool, latency: u64)
    requires
        tally.get_hits < u64::MAX,
        tally.get_failures < u64::MAX,
    ensures
        ({
            let after = tally.with_get(found, pressure, latency);
            &&& after.get_hits + after.get_failures == tally.get_hits + tally.get_failures + 1
            &&& found <==> after.get_hits > tally.get_hits
            &&& pressure ==> after.pressure_gets == tally.pressure_gets.push(latency)
                && after.before_gets == tally.before_gets
            &&& !pressure ==> after.before_gets == tally.before_gets.push(latency)
                && after.pressure_gets == tally.pressure_gets
            &&& after.put_successes == tally.put_successes && after.pressure_puts
                == tally.pressure_puts
        }),
{
}

/// Arguments are in order exactly where every count that must be given is, and some
/// but not all objects are hot.
pub proof fn law_arguments_in_order(arguments: WatermarkArguments)
    ensures
        arguments.fault() is None <==> arguments.num_objects > 0 && arguments.threads > 0
            && arguments.operations_per_thread >= 2 && 0 < arguments.hot_objects
            < arguments.num_objects && arguments.collector_interval_ms > 0
            && arguments.collect_budget > 0 && arguments.rounds > 0,
{
}

/// The collector collects exactly while there is something to reclaim. It does not stop
/// while the workload runs; and after it, it stops at once where there never was any
/// pressure, where usage has settled, or where the time for that has passed.
pub proof fn law_collector_stops_in_time(sight: CollectorSight)
    ensures
        sight.action() == CollectorAction::Collect <==> sight.reclaim_debt > 0
            || sight.retired_bytes > 0,
        sight.workload_running ==> sight.action() != CollectorAction::Stop,
        sight.reclaim_debt == 0 && sight.retired_bytes == 0 && !sight.workload_running && (
        sight.settle_expired || !sight.over_high || !sight.pressure_started) ==> sight.action()
            == CollectorAction::Stop,
        sight.action() == CollectorAction::Wait ==> sight.workload_running || (sight.over_high
            && sight.pressure_started && !sight.settle_expired),
{
}

/// A batch begins where the one before it ends, all but the last are full, the last ends
/// with the last item, and tenants take turns.
pub proof fn law_batches_follow_each_other(
    batch_size: usize,
    items: usize,
    tenant_count: usize,
    batch: usize,
)
    requires
        batch_size > 0,
        tenant_count > 0,
        batch < usize::MAX,
        batch * batch_size < items,
    ensures
        ({
            let plan = planned_batch(batch_size, items, tenant_count, batch);
            let next = planned_batch(batch_size, items, tenant_count, (batch + 1) as usize);
            &&& 0 < plan.count <= batch_size
            &&& plan.tenant < tenant_count
            &&& (batch + 1) * batch_size < items ==> next.first == plan.first + plan.count
                && plan.count == batch_size
            &&& (batch + 1) * batch_size >= items ==> plan.first + plan.count == items
            &&& plan.tenant + 1 < tenant_count ==> next.tenant == plan.tenant + 1
            &&& plan.tenant + 1 == tenant_count ==> next.tenant == 0
        }),
{
    let size = batch_size as int;
    let tenants = tenant_count as int;
    assert((batch + 1) * size == batch * size + size) by (nonlinear_arith);
    assert(batch * size >= 0) by (nonlinear_arith)
        requires
            batch >= 0,
            size > 0,
    ;
    vstd::arithmetic::div_mod::lemma_mod_bound(batch as int, tenants);
    vstd::arithmetic::div_mod::lemma_mod_bound(batch + 1, tenants);
    vstd::arithmetic::div_mod::lemma_fundamental_div_mod(batch as int, tenants);
    let turns = batch as int / tenants;
    let place = batch as int % tenants;
    assert(tenants * (turns + 1) == tenants * turns + tenants) by (nonlinear_arith);
    if place + 1 < tenants {
        vstd::arithmetic::div_mod::lemma_fundamental_div_mod_converse(
            batch + 1,
            tenants,
            turns,
            place + 1,
        );
    } else {
        vstd::arithmetic::div_mod::lemma_fundamental_div_mod_converse(
            batch + 1,
            tenants,
            turns + 1,
            0,
        );
    }
}

} // verus!

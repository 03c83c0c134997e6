//! Choosing segments for the replicas of an object.

use super::error::ReserveError;
use super::identity::SegmentId;
use super::pool::{
    id_before, lemma_position, PoolSnapshot, PoolView, SegmentHandle, SegmentPool,
};
use super::reservation::Reservation;
use super::space::{lemma_missed, lemma_missed_twice, lemma_taken, lemma_undone};
use super::spec::{ReplicaClass, SegmentSpec};
use super::stats::SegmentState;
use crate::text::same_text;
use vstd::prelude::*;

verus! {

/// What to do when fewer replicas than requested can be placed.
#[derive(Clone, Copy, Debug, Eq, PartialEq, Structural)]
pub enum FulfillmentPolicy {
    AllOrNothing,
    BestEffort,
}

impl Default for FulfillmentPolicy {
    fn default() -> (policy: Self)
        ensures
            policy == FulfillmentPolicy::AllOrNothing,
    {
        Self::AllOrNothing
    }
}

/// What no two replicas may share.
#[derive(Clone, Copy, Debug, Eq, PartialEq, Structural)]
pub enum FailureDomain {
    Segment,
    Host,
}

impl Default for FailureDomain {
    fn default() -> (domain: Self)
        ensures
            domain == FailureDomain::Segment,
    {
        Self::Segment
    }
}

/// The size of each replica.
#[derive(Clone, Copy, Debug, Eq, PartialEq, Structural)]
pub struct AllocationSpec {
    pub bytes: u64,
}

impl AllocationSpec {
    pub fn new(bytes: u64) -> (spec: Self)
        ensures
            spec == (AllocationSpec { bytes }),
    {
        Self { bytes }
    }

    pub fn bytes(self) -> (bytes: u64)
        ensures
            bytes == self.bytes,
    {
        self.bytes
    }
}

/// How many replicas there are to be and how far apart.
#[derive(Clone, Copy, Debug, Eq, PartialEq, Structural)]
pub struct ReplicaPolicy {
    pub count: usize,
    pub failure_domain: FailureDomain,
}

impl ReplicaPolicy {
    pub fn new(count: usize) -> (policy: Self)
        ensures
            policy == (ReplicaPolicy { count, failure_domain: FailureDomain::Segment }),
    {
        Self { count, failure_domain: FailureDomain::Segment }
    }

    pub fn across(self, failure_domain: FailureDomain) -> (policy: Self)
        ensures
            policy == (ReplicaPolicy { failure_domain, ..self }),
    {
        Self { failure_domain, ..self }
    }

    pub fn count(self) -> (count: usize)
        ensures
            count == self.count,
    {
        self.count
    }

    pub fn failure_domain(self) -> (domain: FailureDomain)
        ensures
            domain == self.failure_domain,
    {
        self.failure_domain
    }
}

/// Which segments to prefer and which to leave out.
#[derive(Clone, Debug)]
pub struct PlacementConstraints {
    pub preferred_names: Vec<String>,
    pub excluded_segments: Vec<SegmentId>,
}

impl Default for PlacementConstraints {
    fn default() -> (constraints: Self)
        ensures
            constraints.preferred_names@.len() == 0,
            constraints.excluded_segments@.len() == 0,
    {
        Self { preferred_names: Vec::new(), excluded_segments: Vec::new() }
    }
}

/// Ids with others behind them, each of which is noted where it is not noted yet.
pub open spec fn noted_once(ids: Seq<SegmentId>, more: Seq<SegmentId>) -> Seq<SegmentId>
    decreases more.len(),
{
    if more.len() == 0 {
        ids
    } else {
        let noted = noted_once(ids, more.drop_last());
        if noted.contains(more.last()) {
            noted
        } else {
            noted.push(more.last())
        }
    }
}

/// All ids are noted, and none twice.
proof fn lemma_noted_once(ids: Seq<SegmentId>, more: Seq<SegmentId>)
    ensures
        ids.no_duplicates() ==> noted_once(ids, more).no_duplicates(),
        forall|id: SegmentId| #[trigger]
            noted_once(ids, more).contains(id) == (ids.contains(id) || more.contains(id)),
    decreases more.len(),
{
    if more.len() > 0 {
        let rest = more.drop_last();
        let noted = noted_once(ids, rest);
        let last = more.last();
        lemma_noted_once(ids, rest);
        assert forall|id: SegmentId| #[trigger] more.contains(id) == (rest.contains(id) || id
            == last) by {
            if more.contains(id) && id != last {
                let i = choose|i: int| 0 <= i < more.len() && more[i] == id;
                assert(rest[i] == id);
            }
            if rest.contains(id) {
                let i = choose|i: int| 0 <= i < rest.len() && rest[i] == id;
                assert(more[i] == id);
            }
            assert(more[more.len() - 1] == last);
        }
        assert forall|id: SegmentId| #[trigger] noted.push(last).contains(id) == (noted.contains(id)
            || id == last) by {
            let all = noted.push(last);
            assert(all[noted.len() as int] == last);
            if noted.contains(id) {
                let i = choose|i: int| 0 <= i < noted.len() && noted[i] == id;
                assert(all[i] == id);
            }
            if all.contains(id) && id != last {
                let i = choose|i: int| 0 <= i < all.len() && all[i] == id;
                assert(noted[i] == id);
            }
        }
        assert(noted_once(ids, more).contains(last) || noted.contains(last));
    }
}

/// Whether an id is among others.
fn holds_id(ids: &Vec<SegmentId>, id: SegmentId) -> (held: bool)
    ensures
        held == ids@.contains(id),
{
    let mut i: usize = 0;
    while i < ids.len()
        invariant
            i <= ids@.len(),
            forall|j: int| 0 <= j < i ==> ids@[j] != id,
        decreases ids@.len() - i,
    {
        if ids[i] == id {
            assert(ids@[i as int] == id);
            return true;
        }
        i = i + 1;
    }
    false
}

impl PlacementConstraints {
    /// Prefers segments of these names, the first name most.
    pub fn with_preferred_names(self, names: Vec<String>) -> (constraints: Self)
        ensures
            constraints.preferred_names == names,
            constraints.excluded_segments == self.excluded_segments,
    {
        Self { preferred_names: names, ..self }
    }

    /// Leaves these segments out too. A segment that is left out already is not
    /// noted again.
    pub fn excluding(self, segments: Vec<SegmentId>) -> (constraints: Self)
        ensures
            constraints.preferred_names == self.preferred_names,
            constraints.excluded_segments@ == noted_once(self.excluded_segments@, segments@),
            self.excluded_segments@.no_duplicates()
                ==> constraints.excluded_segments@.no_duplicates(),
            forall|id: SegmentId| #[trigger]
                constraints.excluded_segments@.contains(id) == (self.excluded_segments@.contains(id)
                    || segments@.contains(id)),
    {
        let mut excluded_segments = self.excluded_segments;
        let mut i: usize = 0;
        assert(segments@.take(0) =~= Seq::empty());
        while i < segments.len()
            invariant
                i <= segments@.len(),
                excluded_segments@ == noted_once(
                    self.excluded_segments@,
                    segments@.take(i as int),
                ),
            decreases segments@.len() - i,
        {
            let id = segments[i];
            proof {
                assert(segments@.take(i as int + 1).drop_last() =~= segments@.take(i as int));
            }
            if !holds_id(&excluded_segments, id) {
                excluded_segments.push(id);
            }
            i = i + 1;
        }
        proof {
            assert(segments@.take(i as int) =~= segments@);
            lemma_noted_once(self.excluded_segments@, segments@);
        }
        Self { excluded_segments, preferred_names: self.preferred_names }
    }

    pub fn preferred_names(&self) -> (names: &[String])
        ensures
            names@ == self.preferred_names@,
    {
        self.preferred_names.as_slice()
    }

    pub fn excluded_segments(&self) -> (segments: &[SegmentId])
        ensures
            segments@ == self.excluded_segments@,
    {
        self.excluded_segments.as_slice()
    }
}

/// What is to be placed and where it may be placed.
#[derive(Clone, Debug)]
pub struct PlacementRequest {
    pub allocation: AllocationSpec,
    pub replicas: ReplicaPolicy,
    pub fulfillment: FulfillmentPolicy,
    pub constraints: PlacementConstraints,
}

impl PlacementRequest {
    pub fn new(allocation: AllocationSpec, replicas: ReplicaPolicy) -> (request: Self)
        ensures
            request.allocation == allocation,
            request.replicas == replicas,
            request.fulfillment == FulfillmentPolicy::AllOrNothing,
            request.constraints.preferred_names@.len() == 0,
            request.constraints.excluded_segments@.len() == 0,
    {
        Self {
            allocation,
            replicas,
            fulfillment: FulfillmentPolicy::AllOrNothing,
            constraints: PlacementConstraints::default(),
        }
    }

    pub fn with_fulfillment(self, fulfillment: FulfillmentPolicy) -> (request: Self)
        ensures
            request == (PlacementRequest { fulfillment, ..self }),
    {
        Self { fulfillment, ..self }
    }

    pub fn constrained_by(self, constraints: PlacementConstraints) -> (request: Self)
        ensures
            request == (PlacementRequest { constraints, ..self }),
    {
        Self { constraints, ..self }
    }

    pub fn allocation(&self) -> (allocation: AllocationSpec)
        ensures
            allocation == self.allocation,
    {
        self.allocation
    }

    pub fn replicas(&self) -> (replicas: ReplicaPolicy)
        ensures
            replicas == self.replicas,
    {
        self.replicas
    }

    pub fn fulfillment(&self) -> (fulfillment: FulfillmentPolicy)
        ensures
            fulfillment == self.fulfillment,
    {
        self.fulfillment
    }

    pub fn constraints(&self) -> (constraints: &PlacementConstraints)
        ensures
            *constraints == self.constraints,
    {
        &self.constraints
    }
}

/// Why replicas were not placed.
#[derive(Clone, Copy, Debug, Eq, PartialEq, Structural)]
pub enum PlacementError {
    /// The placement size must not be zero.
    ZeroSize,
    /// The replica count must not be zero.
    ZeroReplicas,
    /// Fewer replicas than requested could be placed.
    InsufficientReplicas { requested: usize, allocated: usize },
    /// A replica could not be reserved.
    Reserve(ReserveError),
}

/// Reservations that were made together.
#[derive(Debug)]
pub struct ReservationSet {
    pub reservations: Vec<Reservation>,
}

impl View for ReservationSet {
    type V = Seq<Reservation>;

    open spec fn view(&self) -> Seq<Reservation> {
        self.reservations@
    }
}

impl ReservationSet {
    pub fn len(&self) -> (length: usize)
        ensures
            length == self@.len(),
    {
        self.reservations.len()
    }

    pub fn is_empty(&self) -> (empty: bool)
        ensures
            empty == (self@.len() == 0),
    {
        self.reservations.len() == 0
    }

    /// The reservations in the order in which they were made.
    pub fn iter(&self) -> (reservations: &[Reservation])
        ensures
            reservations@ == self@,
    {
        self.reservations.as_slice()
    }

    /// Hands the reservations over.
    pub fn into_vec(self) -> (reservations: Vec<Reservation>)
        ensures
            reservations@ == self@,
    {
        self.reservations
    }
}

/// The position of a name among preferred names, from a position on.
pub open spec fn preference_from(names: Seq<String>, name: Seq<char>, from: int) -> int
    decreases names.len() - from,
{
    if from < 0 || from >= names.len() {
        usize::MAX as int
    } else if names[from]@ == name {
        from
    } else {
        preference_from(names, name, from + 1)
    }
}

/// How much a candidate is preferred by name: the smaller, the more.
pub open spec fn preference(request: PlacementRequest, candidate: SegmentHandle) -> int {
    preference_from(
        request.constraints.preferred_names@,
        candidate.spec.identity.name@,
        0,
    )
}

/// Whether a candidate may be used for a request.
pub open spec fn is_eligible(request: PlacementRequest, candidate: SegmentHandle) -> bool {
    &&& candidate.stats.state == SegmentState::Accepting
    &&& candidate.stats.space.available_bytes >= request.allocation.bytes
    &&& !request.constraints.excluded_segments@.contains(candidate.spec.identity.id)
}

/// Whether `left` has the larger share of its capacity free.
pub open spec fn has_more_free(left: SegmentHandle, right: SegmentHandle) -> bool {
    left.stats.space.available_bytes * right.stats.space.capacity_bytes
        > right.stats.space.available_bytes * left.stats.space.capacity_bytes
}

/// Whether `left` comes before `right`: by preferred name, then by the share of
/// capacity that is free, then by the largest free range, then by id.
pub open spec fn ranks_before(
    request: PlacementRequest,
    left: SegmentHandle,
    right: SegmentHandle,
) -> bool {
    if preference(request, left) != preference(request, right) {
        preference(request, left) < preference(request, right)
    } else if has_more_free(left, right) {
        true
    } else if has_more_free(right, left) {
        false
    } else if left.stats.space.largest_free_region_bytes
        != right.stats.space.largest_free_region_bytes {
        left.stats.space.largest_free_region_bytes > right.stats.space.largest_free_region_bytes
    } else {
        id_before(left.spec.identity.id, right.spec.identity.id)
    }
}

/// Whether no candidate comes before one that is placed earlier.
pub open spec fn is_ranked(request: PlacementRequest, candidates: Seq<SegmentHandle>) -> bool {
    forall|i: int, j: int|
        0 <= i < j < candidates.len() ==> !ranks_before(
            request,
            #[trigger] candidates[j],
            #[trigger] candidates[i],
        )
}

/// The candidates that may be used for a request.
pub open spec fn eligible(
    request: PlacementRequest,
    candidates: Seq<SegmentHandle>,
) -> Seq<SegmentHandle> {
    candidates.filter(|candidate: SegmentHandle| is_eligible(request, candidate))
}

/// Candidates whose capacity is known, so that shares of it can be compared.
pub open spec fn have_capacity(candidates: Seq<SegmentHandle>) -> bool {
    forall|i: int|
        0 <= i < candidates.len() ==> (#[trigger] candidates[i]).stats.space.capacity_bytes > 0
}

/// A rule by which candidates are chosen and ordered.
pub trait PlacementPolicy {
    /// What the rule promises of the order it gives.
    spec fn orders(
        &self,
        candidates: Seq<SegmentHandle>,
        request: PlacementRequest,
        ordered: Seq<SegmentHandle>,
    ) -> bool;

    /// Chooses among the candidates of a snapshot and puts them in the order in
    /// which they are to be tried.
    fn order(&self, snapshot: &PoolSnapshot, request: &PlacementRequest) -> (ordered: Vec<
        SegmentHandle,
    >)
        requires
            have_capacity(snapshot.candidates@),
        ensures
            self.orders(snapshot.candidates@, *request, ordered@),
            forall|i: int|
                0 <= i < ordered@.len() ==> snapshot.candidates@.contains(#[trigger] ordered@[i]),
    ;
}

/// Prefers segments with the largest share of free capacity.
#[derive(Clone, Copy, Debug)]
pub struct FreeCapacityPolicy;

impl Default for FreeCapacityPolicy {
    fn default() -> Self {
        Self
    }
}

/// The more-free relation is a strict weak order.
proof fn lemma_more_free(a: SegmentHandle, b: SegmentHandle, c: SegmentHandle)
    requires
        a.stats.space.capacity_bytes > 0,
        b.stats.space.capacity_bytes > 0,
        c.stats.space.capacity_bytes > 0,
    ensures
        has_more_free(a, b) ==> !has_more_free(b, a),
        !has_more_free(b, a) && !has_more_free(c, b) ==> !has_more_free(c, a),
        has_more_free(a, b) && !has_more_free(c, b) ==> has_more_free(a, c),
        !has_more_free(b, a) && has_more_free(b, c) ==> has_more_free(a, c),
{
    let av = a.stats.space.available_bytes as int;
    let ac = a.stats.space.capacity_bytes as int;
    let bv = b.stats.space.available_bytes as int;
    let bc = b.stats.space.capacity_bytes as int;
    let cv = c.stats.space.available_bytes as int;
    let cc = c.stats.space.capacity_bytes as int;
    if av * bc >= bv * ac && bv * cc >= cv * bc {
        assert(bc * (av * cc) >= bc * (cv * ac)) by (nonlinear_arith)
            requires
                av * bc >= bv * ac,
                bv * cc >= cv * bc,
                ac > 0,
                cc > 0,
        ;
        assert(av * cc >= cv * ac) by (nonlinear_arith)
            requires
                bc * (av * cc) >= bc * (cv * ac),
                bc > 0,
        ;
        if av * bc > bv * ac || bv * cc > cv * bc {
            assert(bc * (av * cc) > bc * (cv * ac)) by (nonlinear_arith)
                requires
                    av * bc >= bv * ac,
                    bv * cc >= cv * bc,
                    av * bc > bv * ac || bv * cc > cv * bc,
                    ac > 0,
                    cc > 0,
            ;
            assert(av * cc > cv * ac) by (nonlinear_arith)
                requires
                    bc * (av * cc) > bc * (cv * ac),
                    bc > 0,
            ;
        }
    }
}

/// Ranking is a strict order.
proof fn lemma_ranks(request: PlacementRequest, a: SegmentHandle, b: SegmentHandle, c: SegmentHandle)
    requires
        a.stats.space.capacity_bytes > 0,
        b.stats.space.capacity_bytes > 0,
        c.stats.space.capacity_bytes > 0,
    ensures
        ranks_before(request, a, b) ==> !ranks_before(request, b, a),
        ranks_before(request, a, b) && ranks_before(request, b, c) ==> ranks_before(request, a, c),
{
    lemma_more_free(a, b, c);
    lemma_more_free(b, a, c);
    lemma_more_free(c, b, a);
    lemma_more_free(a, c, b);
}

fn preference_rank(request: &PlacementRequest, candidate: &SegmentHandle) -> (rank: usize)
    ensures
        rank == preference(*request, *candidate),
{
    let names = &request.constraints.preferred_names;
    let ghost name = candidate.spec.identity.name@;
    let mut i: usize = 0;
    while i < names.len()
        invariant
            i <= names@.len(),
            name == candidate.spec.identity.name@,
            names == request.constraints.preferred_names,
            preference(*request, *candidate) == preference_from(names@, name, i as int),
        decreases names@.len() - i,
    {
        if same_text(names[i].as_str(), candidate.spec.identity.name.as_str()) {
            return i;
        }
        i = i + 1;
    }
    usize::MAX
}

fn excludes(request: &PlacementRequest, id: SegmentId) -> (excluded: bool)
    ensures
        excluded == request.constraints.excluded_segments@.contains(id),
{
    holds_id(&request.constraints.excluded_segments, id)
}

fn goes_before(request: &PlacementRequest, left: &SegmentHandle, right: &SegmentHandle) -> (before: bool)
    ensures
        before == ranks_before(*request, *left, *right),
{
    let left_preference: usize = preference_rank(request, left);
    let right_preference: usize = preference_rank(request, right);
    if left_preference != right_preference {
        return left_preference < right_preference;
    }
    let left_space = left.stats.space;
    let right_space = right.stats.space;
    proof {
        assert(left_space.available_bytes * right_space.capacity_bytes <= 0xffff_ffff_ffff_ffff
            * 0xffff_ffff_ffff_ffff) by (nonlinear_arith)
            requires
                left_space.available_bytes <= 0xffff_ffff_ffff_ffff,
                right_space.capacity_bytes <= 0xffff_ffff_ffff_ffff,
        ;
        assert(right_space.available_bytes * left_space.capacity_bytes <= 0xffff_ffff_ffff_ffff
            * 0xffff_ffff_ffff_ffff) by (nonlinear_arith)
            requires
                right_space.available_bytes <= 0xffff_ffff_ffff_ffff,
                left_space.capacity_bytes <= 0xffff_ffff_ffff_ffff,
        ;
    }
    let left_scaled: u128 = left_space.available_bytes as u128 * right_space.capacity_bytes as u128;
    let right_scaled: u128 = right_space.available_bytes as u128
        * left_space.capacity_bytes as u128;
    if left_scaled != right_scaled {
        return left_scaled > right_scaled;
    }
    if left_space.largest_free_region_bytes != right_space.largest_free_region_bytes {
        return left_space.largest_free_region_bytes > right_space.largest_free_region_bytes;
    }
    let left_id = left.spec.identity.id;
    let right_id = right.spec.identity.id;
    left_id.high < right_id.high || (left_id.high == right_id.high && left_id.low < right_id.low)
}

impl FreeCapacityPolicy {
    /// Whether `ordered` holds exactly the eligible candidates, ranked.
    pub open spec fn is_order(
        candidates: Seq<SegmentHandle>,
        request: PlacementRequest,
        ordered: Seq<SegmentHandle>,
    ) -> bool {
        &&& ordered.to_multiset() == eligible(request, candidates).to_multiset()
        &&& is_ranked(request, ordered)
    }

    /// Puts one more candidate where it belongs.
    fn insert_ranked(
        request: &PlacementRequest,
        ranked: &mut Vec<SegmentHandle>,
        candidate: SegmentHandle,
    )
        requires
            is_ranked(*request, old(ranked)@),
            have_capacity(old(ranked)@),
            candidate.stats.space.capacity_bytes > 0,
        ensures
            is_ranked(*request, final(ranked)@),
            have_capacity(final(ranked)@),
            final(ranked)@.to_multiset() == old(ranked)@.to_multiset().insert(candidate),
    {
        let ghost before = ranked@;
        let mut place: usize = 0;
        while place < ranked.len() && !goes_before(request, &candidate, &ranked[place])
            invariant
                ranked@ == before,
                place <= before.len(),
                forall|i: int|
                    0 <= i < place ==> !ranks_before(*request, candidate, #[trigger] before[i]),
            decreases before.len() - place,
        {
            place = place + 1;
        }
        ranked.insert(place, candidate);
        proof {
            let after = ranked@;
            let place = place as int;
            before.to_multiset_ensures();
            vstd::seq_lib::to_multiset_insert(before, place, candidate);
            assert forall|i: int, j: int| 0 <= i < j < after.len() implies !ranks_before(
                *request,
                #[trigger] after[j],
                #[trigger] after[i],
            ) by {
                if i == place {
                    let right = before[j - 1];
                    assert(after[j] == right);
                    lemma_ranks(*request, right, candidate, before[place]);
                    lemma_ranks(*request, candidate, before[place], right);
                    if place < j - 1 {
                        assert(!ranks_before(*request, before[j - 1], before[place]));
                    }
                } else if j == place {
                    assert(after[i] == before[i]);
                } else {
                    let old_i = if i < place { i } else { i - 1 };
                    let old_j = if j < place { j } else { j - 1 };
                    assert(!ranks_before(*request, before[old_j], before[old_i]));
                }
            }
            assert forall|i: int| 0 <= i < after.len() implies (
            #[trigger] after[i]).stats.space.capacity_bytes > 0 by {
                if i < place {
                    assert(after[i] == before[i]);
                } else if i > place {
                    assert(after[i] == before[i - 1]);
                }
            }
        }
    }
}

impl PlacementPolicy for FreeCapacityPolicy {
    open spec fn orders(
        &self,
        candidates: Seq<SegmentHandle>,
        request: PlacementRequest,
        ordered: Seq<SegmentHandle>,
    ) -> bool {
        Self::is_order(candidates, request, ordered)
    }

    fn order(&self, snapshot: &PoolSnapshot, request: &PlacementRequest) -> (ordered: Vec<
        SegmentHandle,
    >) {
        let candidates = &snapshot.candidates;
        let ghost all = candidates@;
        let ghost keep = |candidate: SegmentHandle| is_eligible(*request, candidate);
        let mut ranked: Vec<SegmentHandle> = Vec::new();
        let mut i: usize = 0;
        proof {
            assert(all.take(0) =~= Seq::empty());
            reveal(Seq::filter);
            assert(all.take(0).filter(keep) =~= ranked@);
        }
        while i < candidates.len()
            invariant
                all == candidates@,
                have_capacity(all),
                keep == (|candidate: SegmentHandle| is_eligible(*request, candidate)),
                i <= all.len(),
                is_ranked(*request, ranked@),
                have_capacity(ranked@),
                ranked@.to_multiset() == all.take(i as int).filter(keep).to_multiset(),
            decreases all.len() - i,
        {
            let candidate = &candidates[i];
            proof {
                assert(all.take(i + 1).drop_last() =~= all.take(i as int));
                assert(all.take(i + 1).last() == all[i as int]);
                reveal(Seq::filter);
                all.take(i as int).filter(keep).to_multiset_ensures();
            }
            if candidate.stats.state.is_accepting() && candidate.stats.space.available_bytes
                >= request.allocation.bytes && !excludes(request, candidate.spec.identity.id) {
                Self::insert_ranked(request, &mut ranked, candidate.clone());
            }
            i = i + 1;
        }
        proof {
            assert(all.take(i as int) =~= all);
            assert forall|k: int| 0 <= k < ranked@.len() implies all.contains(
                #[trigger] ranked@[k],
            ) by {
                let candidate = ranked@[k];
                ranked@.to_multiset_ensures();
                assert(ranked@.contains(candidate));
                assert(ranked@.to_multiset().count(candidate) > 0);
                all.filter(keep).to_multiset_ensures();
                assert(all.filter(keep).contains(candidate));
                all.lemma_filter_contains_rev(keep, candidate);
            }
        }
        ranked
    }
}

/// What no two replicas may share, as a value.
pub enum DomainKey {
    Segment(SegmentId),
    Host(Seq<char>),
    SegmentWithoutHost(SegmentId),
}

/// The failure domain in which a segment lies. A segment whose host is not
/// known is a domain of its own.
pub open spec fn domain_of(spec: SegmentSpec, domain: FailureDomain) -> DomainKey {
    match domain {
        FailureDomain::Segment => DomainKey::Segment(spec.identity.id),
        FailureDomain::Host => if spec.identity.host_id@.len() == 0 {
            DomainKey::SegmentWithoutHost(spec.identity.id)
        } else {
            DomainKey::Host(spec.identity.host_id@)
        },
    }
}

/// What trying one candidate comes to.
pub enum Attempt {
    /// The candidate takes a replica.
    Takes,
    /// The candidate has no room or no longer accepts; the next one is tried.
    Passes,
    /// The whole placement fails.
    Fails(ReserveError),
}

/// What trying a candidate comes to.
pub open spec fn attempt(pool: PoolView, candidate: SegmentHandle, bytes: u64) -> Attempt {
    match pool.reserve_fault(candidate, bytes) {
        None => Attempt::Takes,
        Some(ReserveError::NotAccepting(_)) => Attempt::Passes,
        Some(ReserveError::OutOfSpace(_)) => Attempt::Passes,
        Some(fault) => Attempt::Fails(fault),
    }
}

/// How far a placement has come: the positions of the candidates that took a
/// replica, and what made it fail.
pub struct Walk {
    pub chosen: Seq<int>,
    pub fault: Option<ReserveError>,
}

/// Whether a candidate shares the failure domain of one that was chosen.
pub open spec fn domain_taken(
    ordered: Seq<SegmentHandle>,
    chosen: Seq<int>,
    candidate: SegmentHandle,
    domain: FailureDomain,
) -> bool {
    exists|j: int|
        0 <= j < chosen.len() && domain_of(*ordered[#[trigger] chosen[j]].spec, domain)
            == domain_of(*candidate.spec, domain)
}

/// How far a placement comes with the first `k` candidates. Each candidate in a
/// domain that is not taken yet is tried, until there are enough replicas.
pub open spec fn walk(
    pool: PoolView,
    ordered: Seq<SegmentHandle>,
    request: PlacementRequest,
    k: nat,
) -> Walk
    decreases k,
{
    if k == 0 {
        Walk { chosen: Seq::empty(), fault: None }
    } else {
        let so_far = walk(pool, ordered, request, (k - 1) as nat);
        let candidate = ordered[k - 1];
        if so_far.fault is Some || so_far.chosen.len() >= request.replicas.count {
            so_far
        } else if domain_taken(
            ordered,
            so_far.chosen,
            candidate,
            request.replicas.failure_domain,
        ) {
            so_far
        } else {
            match attempt(pool, candidate, request.allocation.bytes) {
                Attempt::Takes => Walk { chosen: so_far.chosen.push(k - 1), ..so_far },
                Attempt::Passes => so_far,
                Attempt::Fails(fault) => Walk { fault: Some(fault), ..so_far },
            }
        }
    }
}

/// Whether two pools differ in nothing but what is handed out of each segment.
pub open spec fn differ_in_ranges(before: PoolView, after: PoolView) -> bool {
    &&& after == (PoolView { segments: after.segments, ..before })
    &&& after.segments.len() == before.segments.len()
    &&& forall|i: int|
        0 <= i < before.segments.len() ==> {
            &&& (#[trigger] after.segments[i]).spec == before.segments[i].spec
            &&& after.segments[i].incarnation == before.segments[i].incarnation
            &&& after.segments[i].state == before.segments[i].state
            &&& before.segments[i].space.same_places(after.segments[i].space)
        }
}

/// Whether exactly the same ranges are handed out in both pools.
pub open spec fn same_ranges(before: PoolView, after: PoolView) -> bool {
    &&& differ_in_ranges(before, after)
    &&& forall|i: int|
        0 <= i < before.segments.len() ==> before.segments[i].space.same_ranges(
            (#[trigger] after.segments[i]).space,
        )
}

/// Whether a reservation was issued by the segment at a position.
pub open spec fn issued_by(pool: PoolView, seat: int, bytes: u64, reservation: Reservation) -> bool {
    &&& reservation.pool_id == pool.pool_id
    &&& reservation.incarnation == pool.segments[seat].incarnation
    &&& *reservation.segment == pool.segments[seat].spec
    &&& reservation.region.base == pool.segments[seat].spec.region.base
        + reservation.allocation.offset
    &&& reservation.region.size == bytes
}

/// Whether `after` is `before` with one range more in each of the segments at
/// `seats`, for which the reservations stand, and no other range.
pub open spec fn ranges_added(
    before: PoolView,
    after: PoolView,
    seats: Seq<int>,
    bytes: u64,
    reservations: Seq<Reservation>,
) -> bool {
    &&& differ_in_ranges(before, after)
    &&& seats.len() == reservations.len()
    &&& seats.no_duplicates()
    &&& forall|j: int|
        0 <= j < seats.len() ==> {
            &&& 0 <= #[trigger] seats[j] < before.segments.len()
            &&& issued_by(before, seats[j], bytes, reservations[j])
            &&& before.segments[seats[j]].space.taken(
                after.segments[seats[j]].space,
                reservations[j].allocation,
                bytes,
            )
        }
    &&& forall|i: int|
        0 <= i < before.segments.len() && !seats.contains(i)
            ==> before.segments[i].space.same_ranges((#[trigger] after.segments[i]).space)
}

/// The positions of the segments for which chosen candidates stand.
pub open spec fn seats_of(
    pool: PoolView,
    ordered: Seq<SegmentHandle>,
    chosen: Seq<int>,
) -> Seq<int> {
    chosen.map_values(
        |k: int|
            pool.mounted_at(
                ordered[k].spec.identity.id,
                ordered[k].incarnation,
            ).unwrap(),
    )
}

/// Whether handles describe the attachments they stand for.
pub open spec fn are_genuine(pool: PoolView, ordered: Seq<SegmentHandle>) -> bool {
    forall|k: int|
        0 <= k < ordered.len() ==> match pool.mounted_at(
            (#[trigger] ordered[k]).spec.identity.id,
            ordered[k].incarnation,
        ) {
            Some(i) => *ordered[k].spec == pool.segments[i].spec,
            None => true,
        }
}

/// What placing replicas on candidates, tried in the given order, comes to.
pub open spec fn is_placement(
    before: PoolView,
    after: PoolView,
    ordered: Seq<SegmentHandle>,
    request: PlacementRequest,
    placed: Result<ReservationSet, PlacementError>,
) -> bool {
    let end = walk(before, ordered, request, ordered.len());
    let count = request.replicas.count;
    if end.fault is Some {
        &&& placed == Err::<ReservationSet, PlacementError>(
            PlacementError::Reserve(end.fault.unwrap()),
        )
        &&& same_ranges(before, after)
    } else if end.chosen.len() == count || request.fulfillment == FulfillmentPolicy::BestEffort {
        placed matches Ok(set) && ranges_added(
            before,
            after,
            seats_of(before, ordered, end.chosen),
            request.allocation.bytes,
            set@,
        )
    } else {
        &&& placed == Err::<ReservationSet, PlacementError>(
            PlacementError::InsufficientReplicas {
                requested: count,
                allocated: end.chosen.len() as usize,
            },
        )
        &&& same_ranges(before, after)
    }
}

fn shares_domain(left: &SegmentSpec, right: &SegmentSpec, domain: FailureDomain) -> (shares: bool)
    ensures
        shares == (domain_of(*left, domain) == domain_of(*right, domain)),
{
    match domain {
        FailureDomain::Segment => left.identity.id == right.identity.id,
        FailureDomain::Host => {
            if left.identity.host_id.as_str().is_empty() {
                right.identity.host_id.as_str().is_empty() && left.identity.id == right.identity.id
            } else {
                !right.identity.host_id.as_str().is_empty() && left.identity.host_id
                    == right.identity.host_id
            }
        },
    }
}

/// Once a placement is settled, further candidates change nothing.
proof fn lemma_walk_settled(
    pool: PoolView,
    ordered: Seq<SegmentHandle>,
    request: PlacementRequest,
    k: nat,
    n: nat,
)
    requires
        k <= n,
        ({
            let so_far = walk(pool, ordered, request, k);
            so_far.fault is Some || so_far.chosen.len() >= request.replicas.count
        }),
    ensures
        walk(pool, ordered, request, n) == walk(pool, ordered, request, k),
    decreases n - k,
{
    if k < n {
        lemma_walk_settled(pool, ordered, request, k, (n - 1) as nat);
    }
}

/// What holds while candidates are tried: segments that took no replica are as
/// they were, but for the bound on their largest free range, which may be lower
/// where the request does not fit.
spec fn untaken_kept(before: PoolView, now: PoolView, seats: Seq<int>, bytes: u64) -> bool {
    forall|i: int|
        0 <= i < before.segments.len() && !seats.contains(i) ==> {
            let was = before.segments[i].space;
            let is = (#[trigger] now.segments[i]).space;
            is == was || (is == was.missed(bytes) && !was.fits(bytes as nat))
        }
}

/// Pools with the same attachments find the same segments.
proof fn lemma_same_positions(before: PoolView, now: PoolView, id: SegmentId, incarnation: u64)
    requires
        before.wf(),
        now.wf(),
        differ_in_ranges(before, now),
    ensures
        now.position(id) == before.position(id),
        now.mounted_at(id, incarnation) == before.mounted_at(id, incarnation),
        before.position(id) matches Some(i) ==> 0 <= i < before.segments.len()
            && before.segments[i].id() == id,
{
    if before.position(id) is Some {
        let i = before.position(id).unwrap();
        assert(0 <= i < before.segments.len() && before.segments[i].id() == id);
        assert(now.segments[i].id() == id);
        lemma_position(now, i);
    } else if now.position(id) is Some {
        let i = now.position(id).unwrap();
        assert(0 <= i < now.segments.len() && now.segments[i].id() == id);
        assert(before.segments[i].id() == id);
    }
}

/// Gives back what a placement that fails has taken.
fn roll_back(
    pool: &mut SegmentPool,
    reservations: Vec<Reservation>,
    bytes: u64,
    before: Ghost<PoolView>,
    seats: Ghost<Seq<int>>,
)
    requires
        old(pool).wf(),
        before@.wf(),
        ranges_added(before@, old(pool)@, seats@, bytes, reservations@),
    ensures
        final(pool).wf(),
        same_ranges(before@, final(pool)@),
{
    let mut rest = reservations;
    let ghost mut left = seats@;
    while rest.len() > 0
        invariant
            pool.wf(),
            before@.wf(),
            ranges_added(before@, pool@, left, bytes, rest@),
        decreases rest@.len(),
    {
        let ghost now = pool@;
        let ghost had = rest@;
        let ghost seat = left.last();
        match rest.pop() {
            None => {},
            Some(reservation) => {
                proof {
                    let j = left.len() - 1;
                    assert(0 <= left[j] < before@.segments.len());
                    assert(reservation == had[j]);
                    pool.lemma_wf();
                    lemma_position(now, seat);
                    lemma_taken(
                        before@.segments[seat].space,
                        now.segments[seat].space,
                        reservation.allocation,
                        bytes,
                    );
                    assert(now.segments[seat].id() == reservation.segment.identity.id);
                    assert(now.holding(reservation) == Some(seat));
                }
                pool.release(reservation);
                proof {
                    let shorter = left.drop_last();
                    assert forall|i: int|
                        0 <= i < before@.segments.len() && !shorter.contains(i) implies
                        before@.segments[i].space.same_ranges((#[trigger] pool@.segments[i]).space)
                        by {
                        if i == seat {
                            lemma_undone(
                                before@.segments[seat].space,
                                now.segments[seat].space,
                                pool@.segments[seat].space,
                                reservation.allocation,
                                bytes,
                            );
                        } else {
                            assert(!left.contains(i)) by {
                                if left.contains(i) {
                                    let k = choose|k: int| 0 <= k < left.len() && left[k] == i;
                                    assert(shorter[k] == i);
                                }
                            }
                            assert(pool@.segments[i] == now.segments[i]);
                        }
                    }
                    assert forall|j: int| 0 <= j < shorter.len() implies {
                        &&& 0 <= #[trigger] shorter[j] < before@.segments.len()
                        &&& issued_by(before@, shorter[j], bytes, rest@[j])
                        &&& before@.segments[shorter[j]].space.taken(
                pool@.segments[shorter[j]].space,
                            rest@[j].allocation,
                            bytes,
                        )
                    } by {
                        assert(left[j] == shorter[j]);
                        assert(left[j] != left[left.len() - 1]);
                        assert(pool@.segments[shorter[j]] == now.segments[shorter[j]]);
                    }
                    lemma_undone(
                        before@.segments[seat].space,
                        now.segments[seat].space,
                        pool@.segments[seat].space,
                        reservation.allocation,
                        bytes,
                    );
                    assert forall|i: int| 0 <= i < before@.segments.len() implies
                        before@.segments[i].space.same_places((#[trigger] pool@.segments[i]).space)
                        by {
                        if i != seat {
                            assert(pool@.segments[i] == now.segments[i]);
                        }
                    }
                    assert(differ_in_ranges(before@, pool@));
                    left = shorter;
                }
            },
        }
    }
}

/// Whether a candidate shares the failure domain of one of the reservations.
fn domain_in_use(
    reservations: &Vec<Reservation>,
    candidate: &SegmentHandle,
    domain: FailureDomain,
) -> (taken: bool)
    ensures
        taken == exists|j: int|
            0 <= j < reservations@.len() && domain_of(
                *(#[trigger] reservations@[j]).segment,
                domain,
            ) == domain_of(*candidate.spec, domain),
{
    let mut n: usize = 0;
    while n < reservations.len()
        invariant
            n <= reservations@.len(),
            forall|j: int|
                0 <= j < n ==> domain_of(*(#[trigger] reservations@[j]).segment, domain)
                    != domain_of(*candidate.spec, domain),
        decreases reservations@.len() - n,
    {
        if shares_domain(&reservations[n].segment, &candidate.spec, domain) {
            return true;
        }
        n = n + 1;
    }
    false
}

/// The domains of the reservations are those of the chosen candidates.
proof fn lemma_domain_in_use(
    ordered: Seq<SegmentHandle>,
    chosen: Seq<int>,
    reservations: Seq<Reservation>,
    candidate: SegmentHandle,
    domain: FailureDomain,
)
    requires
        chosen.len() == reservations.len(),
        forall|j: int|
            0 <= j < chosen.len() ==> *ordered[#[trigger] chosen[j]].spec
                == *reservations[j].segment,
    ensures
        domain_taken(ordered, chosen, candidate, domain) == exists|j: int|
            0 <= j < reservations.len() && domain_of(
                *(#[trigger] reservations[j]).segment,
                domain,
            ) == domain_of(*candidate.spec, domain),
{
    if domain_taken(ordered, chosen, candidate, domain) {
        let j = choose|j: int|
            0 <= j < chosen.len() && domain_of(*ordered[#[trigger] chosen[j]].spec, domain)
                == domain_of(*candidate.spec, domain);
        assert(domain_of(*reservations[j].segment, domain) == domain_of(*candidate.spec, domain));
    }
    if exists|j: int|
        0 <= j < reservations.len() && domain_of(*(#[trigger] reservations[j]).segment, domain)
            == domain_of(*candidate.spec, domain) {
        let j = choose|j: int|
            0 <= j < reservations.len() && domain_of(
                *(#[trigger] reservations[j]).segment,
                domain,
            ) == domain_of(*candidate.spec, domain);
        assert(domain_of(*ordered[chosen[j]].spec, domain) == domain_of(*candidate.spec, domain));
    }
}

/// A reservation that was made adds one range and leaves the rest as it was.
proof fn lemma_taking(
    before: PoolView,
    now: PoolView,
    after: PoolView,
    seats: Seq<int>,
    candidate: SegmentHandle,
    bytes: u64,
    reservations: Seq<Reservation>,
    reservation: Reservation,
)
    requires
        before.wf(),
        now.wf(),
        after.wf(),
        ranges_added(before, now, seats, bytes, reservations),
        untaken_kept(before, now, seats, bytes),
        now.reserve_fault(candidate, bytes) is None,
        now.reserved(after, candidate, bytes, reservation),
        match before.mounted_at(candidate.spec.identity.id, candidate.incarnation) {
            Some(i) => !seats.contains(i),
            None => true,
        },
    ensures
        ({
            let seat = before.mounted_at(
                candidate.spec.identity.id,
                candidate.incarnation,
            ).unwrap();
            let grown = seats.push(seat);
            &&& ranges_added(before, after, grown, bytes, reservations.push(reservation))
            &&& untaken_kept(before, after, grown, bytes)
        }),
{
    let id = candidate.spec.identity.id;
    lemma_same_positions(before, now, id, candidate.incarnation);
    let seat = before.mounted_at(id, candidate.incarnation).unwrap();
    let grown = seats.push(seat);
    let held = reservations.push(reservation);
    assert(before.segments[seat].wf());
    lemma_missed(before.segments[seat].space, bytes);
    assert(now.segments[seat].space == before.segments[seat].space);
    assert(now.segments[seat].wf());
    assert(after.segments[seat].wf());
    lemma_taken(
        before.segments[seat].space,
        after.segments[seat].space,
        reservation.allocation,
        bytes,
    );
    assert(now.segments[seat].spec == before.segments[seat].spec);
    assert(after.segments[seat].wf());
    assert forall|i: int| 0 <= i < before.segments.len() implies {
        &&& (#[trigger] after.segments[i]).spec == before.segments[i].spec
        &&& after.segments[i].incarnation == before.segments[i].incarnation
        &&& after.segments[i].state == before.segments[i].state
        &&& before.segments[i].space.same_places(after.segments[i].space)
    } by {
        assert(now.segments[i].spec == before.segments[i].spec);
        if i != seat {
            assert(after.segments[i] == now.segments[i]);
        }
    }
    assert forall|j: int| 0 <= j < grown.len() implies {
        &&& 0 <= #[trigger] grown[j] < before.segments.len()
        &&& issued_by(before, grown[j], bytes, held[j])
        &&& before.segments[grown[j]].space.taken(
                after.segments[grown[j]].space,
            held[j].allocation,
            bytes,
        )
    } by {
        if j < seats.len() {
            assert(grown[j] == seats[j]);
            assert(seats.contains(seats[j]));
            assert(after.segments[seats[j]] == now.segments[seats[j]]);
        }
    }
    assert forall|m: int| 0 <= m < before.segments.len() && !grown.contains(m) implies (
    #[trigger] after.segments[m]) == now.segments[m] && !seats.contains(m) by {
        if seats.contains(m) {
            let j = choose|j: int| 0 <= j < seats.len() && seats[j] == m;
            assert(grown[j] == m);
        }
        assert(grown[grown.len() - 1] == seat);
    }
    assert(grown.no_duplicates());
}

/// Reserves replicas on candidates that are tried in the given order.
///
/// A placement that fails gives back what it had taken.
pub fn reserve_in_order(
    pool: &mut SegmentPool,
    ordered: &Vec<SegmentHandle>,
    request: &PlacementRequest,
) -> (placed: Result<ReservationSet, PlacementError>)
    requires
        old(pool).wf(),
        request.allocation.bytes > 0,
        request.replicas.count > 0,
        are_genuine(old(pool)@, ordered@),
    ensures
        final(pool).wf(),
        is_placement(old(pool)@, final(pool)@, ordered@, *request, placed),
{
    let ghost before = pool@;
    let bytes: u64 = request.allocation.bytes;
    let count: usize = request.replicas.count;
    let mut reservations: Vec<Reservation> = Vec::new();
    let ghost mut seats: Seq<int> = Seq::empty();
    let mut k: usize = 0;
    proof {
        pool.lemma_wf();
        assert(seats_of(before, ordered@, Seq::empty()) =~= seats);
    }
    while k < ordered.len()
        invariant
            pool.wf(),
            before.wf(),
            before == old(pool)@,
            bytes == request.allocation.bytes,
            bytes > 0,
            count == request.replicas.count,
            are_genuine(before, ordered@),
            k <= ordered@.len(),
            walk(before, ordered@, *request, k as nat).fault is None,
            walk(before, ordered@, *request, k as nat).chosen.len() == reservations@.len(),
            reservations@.len() < count,
            seats == seats_of(before, ordered@, walk(before, ordered@, *request, k as nat).chosen),
            forall|j: int|
                0 <= j < seats.len() ==> {
                    let c = #[trigger] walk(before, ordered@, *request, k as nat).chosen[j];
                    0 <= c < k && *ordered@[c].spec == *reservations@[j].segment
                },
            ranges_added(before, pool@, seats, bytes, reservations@),
            untaken_kept(before, pool@, seats, bytes),
        decreases ordered@.len() - k,
    {
        let candidate = &ordered[k];
        let ghost chosen = walk(before, ordered@, *request, k as nat).chosen;
        let ghost now = pool@;
        let taken = domain_in_use(&reservations, candidate, request.replicas.failure_domain);
        proof {
            lemma_domain_in_use(
                ordered@,
                chosen,
                reservations@,
                *candidate,
                request.replicas.failure_domain,
            );
        }
        assert(taken == domain_taken(
            ordered@,
            chosen,
            *candidate,
            request.replicas.failure_domain,
        ));
        if !taken {
            let ghost id = candidate.spec.identity.id;
            let ghost seat = before.mounted_at(id, candidate.incarnation);
            proof {
                pool.lemma_wf();
                lemma_same_positions(before, now, id, candidate.incarnation);
                if seat is Some {
                    let i = seat.unwrap();
                    assert(!seats.contains(i)) by {
                        if seats.contains(i) {
                            let j = choose|j: int| 0 <= j < seats.len() && seats[j] == i;
                            assert(issued_by(before, seats[j], bytes, reservations@[j]));
                            assert(*ordered@[chosen[j]].spec == *reservations@[j].segment);
                            assert(*candidate.spec == before.segments[i].spec);
                        }
                    }
                    assert(before.segments[i].wf());
                    lemma_missed(before.segments[i].space, bytes);
                    assert(now.segments[i].space == before.segments[i].space
                        || !before.segments[i].space.fits(bytes as nat));
                    before.segments[i].space.lemma_fits(bytes as nat);
                }
                assert(attempt(now, *candidate, bytes) == attempt(before, *candidate, bytes));
            }
            match pool.reserve(candidate, bytes) {
                Ok(reservation) => {
                    proof {
                        let i = seat.unwrap();
                        pool.lemma_wf();
                        lemma_taking(
                            before,
                            now,
                            pool@,
                            seats,
                            *candidate,
                            bytes,
                            reservations@,
                            reservation,
                        );
                        let grown = seats.push(i);
                        let next = walk(before, ordered@, *request, (k + 1) as nat);
                        assert(next.chosen == chosen.push(k as int));
                        assert(seats_of(before, ordered@, next.chosen) =~= grown);
                        seats = grown;
                    }
                    reservations.push(reservation);
                    if reservations.len() == count {
                        proof {
                            lemma_walk_settled(
                                before,
                                ordered@,
                                *request,
                                (k + 1) as nat,
                                ordered@.len(),
                            );
                        }
                        return Ok(ReservationSet { reservations });
                    }
                },
                Err(ReserveError::NotAccepting(_)) => {
                    proof {
                        lemma_refusal(before, now, pool@, seats, *candidate, bytes, reservations@);
                    }
                },
                Err(ReserveError::OutOfSpace(_)) => {
                    proof {
                        lemma_refusal(before, now, pool@, seats, *candidate, bytes, reservations@);
                    }
                },
                Err(error) => {
                    proof {
                        lemma_refusal(before, now, pool@, seats, *candidate, bytes, reservations@);
                        assert(attempt(before, *candidate, bytes) == Attempt::Fails(error));
                        assert(walk(before, ordered@, *request, (k + 1) as nat).fault == Some(
                            error,
                        ));
                        lemma_walk_settled(
                            before,
                            ordered@,
                            *request,
                            (k + 1) as nat,
                            ordered@.len(),
                        );
                    }
                    roll_back(pool, reservations, bytes, Ghost(before), Ghost(seats));
                    return Err(PlacementError::Reserve(error));
                },
            }
        }
        k = k + 1;
    }
    if request.fulfillment == FulfillmentPolicy::BestEffort {
        Ok(ReservationSet { reservations })
    } else {
        let allocated: usize = reservations.len();
        roll_back(pool, reservations, bytes, Ghost(before), Ghost(seats));
        Err(PlacementError::InsufficientReplicas { requested: count, allocated })
    }
}

/// A refused reservation leaves what was taken and what was not as it was.
proof fn lemma_refusal(
    before: PoolView,
    now: PoolView,
    after: PoolView,
    seats: Seq<int>,
    candidate: SegmentHandle,
    bytes: u64,
    reservations: Seq<Reservation>,
)
    requires
        before.wf(),
        now.wf(),
        bytes > 0,
        ranges_added(before, now, seats, bytes, reservations),
        untaken_kept(before, now, seats, bytes),
        now.reserve_fault(candidate, bytes) is Some,
        after == now.after_refusal(candidate, bytes),
        match before.mounted_at(candidate.spec.identity.id, candidate.incarnation) {
            Some(i) => !seats.contains(i),
            None => true,
        },
    ensures
        ranges_added(before, after, seats, bytes, reservations),
        untaken_kept(before, after, seats, bytes),
{
    let id = candidate.spec.identity.id;
    lemma_same_positions(before, now, id, candidate.incarnation);
    if after != now {
        let i = now.mounted_at(id, candidate.incarnation).unwrap();
        assert(!seats.contains(i));
        let was = before.segments[i].space;
        assert(before.segments[i].wf());
        lemma_missed(was, bytes);
        lemma_missed_twice(was, bytes);
        assert(now.segments[i].space == was || !was.fits(bytes as nat));
        assert(now.segments[i].space.fits(bytes as nat) == was.fits(bytes as nat));
        assert(after.segments[i].space == was.missed(bytes));
        assert forall|m: int| 0 <= m < before.segments.len() && m != i implies (
        #[trigger] after.segments[m]) == now.segments[m] by {}
        assert(differ_in_ranges(before, after));
        assert forall|j: int| 0 <= j < seats.len() implies {
            &&& 0 <= #[trigger] seats[j] < before.segments.len()
            &&& issued_by(before, seats[j], bytes, reservations[j])
            &&& before.segments[seats[j]].space.taken(
                after.segments[seats[j]].space,
                reservations[j].allocation,
                bytes,
            )
        } by {
            assert(seats[j] != i);
        }
    }
}

/// What placing the replicas of a request by a policy comes to: the policy puts
/// the accepting segments in some order that it promises, and they are tried in
/// that order.
pub open spec fn placement_outcome<P: PlacementPolicy>(
    policy: P,
    before: PoolView,
    after: PoolView,
    request: PlacementRequest,
    placed: Result<ReservationSet, PlacementError>,
) -> bool {
    if request.allocation.bytes == 0 {
        placed == Err::<ReservationSet, PlacementError>(PlacementError::ZeroSize) && after
            == before
    } else if request.replicas.count == 0 {
        placed == Err::<ReservationSet, PlacementError>(PlacementError::ZeroReplicas) && after
            == before
    } else {
        exists|candidates: Seq<SegmentHandle>, ordered: Seq<SegmentHandle>|
            {
                &&& before.are_handles(before.accepting(ReplicaClass::Memory), candidates)
                &&& #[trigger] policy.orders(candidates, request, ordered)
                &&& is_placement(before, after, ordered, request, placed)
            }
    }
}

/// Places replicas by a policy.
pub struct ReplicaAllocator<P> {
    pub policy: P,
}

impl ReplicaAllocator<FreeCapacityPolicy> {
    pub fn new() -> (allocator: Self) {
        Self { policy: FreeCapacityPolicy }
    }
}

impl<P: PlacementPolicy> ReplicaAllocator<P> {
    pub fn with_policy(policy: P) -> (allocator: Self)
        ensures
            allocator.policy == policy,
    {
        Self { policy }
    }

    /// Reserves the replicas of a request, or nothing at all where the request
    /// wants all or nothing.
    pub fn reserve(&self, pool: &mut SegmentPool, request: &PlacementRequest) -> (placed: Result<
        ReservationSet,
        PlacementError,
    >)
        requires
            old(pool).wf(),
        ensures
            final(pool).wf(),
            placement_outcome(self.policy, old(pool)@, final(pool)@, *request, placed),
    {
        if request.allocation.bytes == 0 {
            return Err(PlacementError::ZeroSize);
        }
        if request.replicas.count == 0 {
            return Err(PlacementError::ZeroReplicas);
        }
        let snapshot = pool.snapshot();
        let ghost candidates = snapshot.candidates@;
        proof {
            pool.lemma_wf();
            pool@.lemma_snapshot(candidates);
        }
        let ordered = self.policy.order(&snapshot, request);
        proof {
            assert forall|k: int| 0 <= k < ordered@.len() implies match pool@.mounted_at(
                (#[trigger] ordered@[k]).spec.identity.id,
                ordered@[k].incarnation,
            ) {
                Some(i) => *ordered@[k].spec == pool@.segments[i].spec,
                None => true,
            } by {
                assert(candidates.contains(ordered@[k]));
            }
        }
        let placed = reserve_in_order(pool, &ordered, request);
        proof {
            assert(self.policy.orders(candidates, *request, ordered@));
        }
        placed
    }
}

} // verus!

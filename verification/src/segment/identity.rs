//! Identifiers of segments and clients.

use vstd::prelude::*;

verus! {

/// The number of values of one half of an identifier.
pub const HALF_RANGE: u128 = 0x1_0000_0000_0000_0000;

/// Identifier of a mounted segment: a pair of 64-bit halves.
#[derive(Clone, Copy, Debug, Eq, Hash, Ord, PartialEq, PartialOrd, Structural)]
pub struct SegmentId {
    pub high: u64,
    pub low: u64,
}

/// Identifier of a client: a pair of 64-bit halves.
#[derive(Clone, Copy, Debug, Eq, Hash, Ord, PartialEq, PartialOrd, Structural)]
pub struct ClientId {
    pub high: u64,
    pub low: u64,
}

/// The two halves read as one 128-bit number, the high half first.
pub open spec fn joined(high: u64, low: u64) -> u128 {
    (high * HALF_RANGE + low) as u128
}

/// Joining two halves loses nothing.
pub proof fn lemma_joined(high: u64, low: u64)
    ensures
        joined(high, low) as int == high * HALF_RANGE + low,
        joined(high, low) / HALF_RANGE == high,
        joined(high, low) % HALF_RANGE == low,
{
    assert(high * HALF_RANGE + low < HALF_RANGE * HALF_RANGE) by (nonlinear_arith)
        requires
            high < HALF_RANGE,
            low < HALF_RANGE,
            HALF_RANGE == 0x1_0000_0000_0000_0000,
    ;
    assert(HALF_RANGE * HALF_RANGE == 0x1_0000_0000_0000_0000_0000_0000_0000_0000) by (nonlinear_arith)
        requires
            HALF_RANGE == 0x1_0000_0000_0000_0000,
    ;
    vstd::arithmetic::div_mod::lemma_fundamental_div_mod_converse(
        joined(high, low) as int,
        HALF_RANGE as int,
        high as int,
        low as int,
    );
}

impl SegmentId {
    /// The identifier as one 128-bit number.
    pub open spec fn raw(self) -> u128 {
        joined(self.high, self.low)
    }

    pub fn new(high: u64, low: u64) -> (id: Self)
        ensures
            id == (SegmentId { high, low }),
    {
        Self { high, low }
    }

    /// The identifier that names no segment.
    pub fn nil() -> (id: Self)
        ensures
            id == (SegmentId { high: 0, low: 0 }),
    {
        Self { high: 0, low: 0 }
    }

    pub fn high(self) -> (half: u64)
        ensures
            half == self.high,
    {
        self.high
    }

    pub fn low(self) -> (half: u64)
        ensures
            half == self.low,
    {
        self.low
    }

    pub fn is_nil(self) -> (nil: bool)
        ensures
            nil == (self.high == 0 && self.low == 0),
    {
        self.high == 0 && self.low == 0
    }

    /// The identifier as one 128-bit number.
    pub fn to_raw(self) -> (raw: u128)
        ensures
            raw == self.raw(),
            raw / HALF_RANGE == self.high,
            raw % HALF_RANGE == self.low,
    {
        proof {
            lemma_joined(self.high, self.low);
        }
        self.high as u128 * HALF_RANGE + self.low as u128
    }
}

impl Default for SegmentId {
    fn default() -> (id: Self)
        ensures
            id == (SegmentId { high: 0, low: 0 }),
    {
        Self { high: 0, low: 0 }
    }
}

impl vstd::std_specs::convert::FromSpecImpl<u128> for SegmentId {
    open spec fn obeys_from_spec() -> bool {
        true
    }

    open spec fn from_spec(value: u128) -> Self {
        SegmentId { high: (value / HALF_RANGE) as u64, low: (value % HALF_RANGE) as u64 }
    }
}

impl From<u128> for SegmentId {
    fn from(value: u128) -> Self {
        Self { high: (value / HALF_RANGE) as u64, low: (value % HALF_RANGE) as u64 }
    }
}

impl vstd::std_specs::convert::FromSpecImpl<SegmentId> for u128 {
    open spec fn obeys_from_spec() -> bool {
        true
    }

    open spec fn from_spec(value: SegmentId) -> u128 {
        value.raw()
    }
}

impl From<SegmentId> for u128 {
    fn from(value: SegmentId) -> u128 {
        value.to_raw()
    }
}

impl ClientId {
    /// The identifier as one 128-bit number.
    pub open spec fn raw(self) -> u128 {
        joined(self.high, self.low)
    }

    pub fn new(high: u64, low: u64) -> (id: Self)
        ensures
            id == (ClientId { high, low }),
    {
        Self { high, low }
    }

    /// The identifier that names no client.
    pub fn nil() -> (id: Self)
        ensures
            id == (ClientId { high: 0, low: 0 }),
    {
        Self { high: 0, low: 0 }
    }

    pub fn high(self) -> (half: u64)
        ensures
            half == self.high,
    {
        self.high
    }

    pub fn low(self) -> (half: u64)
        ensures
            half == self.low,
    {
        self.low
    }

    pub fn is_nil(self) -> (nil: bool)
        ensures
            nil == (self.high == 0 && self.low == 0),
    {
        self.high == 0 && self.low == 0
    }

    /// The identifier as one 128-bit number.
    pub fn to_raw(self) -> (raw: u128)
        ensures
            raw == self.raw(),
            raw / HALF_RANGE == self.high,
            raw % HALF_RANGE == self.low,
    {
        proof {
            lemma_joined(self.high, self.low);
        }
        self.high as u128 * HALF_RANGE + self.low as u128
    }
}

impl Default for ClientId {
    fn default() -> (id: Self)
        ensures
            id == (ClientId { high: 0, low: 0 }),
    {
        Self { high: 0, low: 0 }
    }
}

impl vstd::std_specs::convert::FromSpecImpl<u128> for ClientId {
    open spec fn obeys_from_spec() -> bool {
        true
    }

    open spec fn from_spec(value: u128) -> Self {
        ClientId { high: (value / HALF_RANGE) as u64, low: (value % HALF_RANGE) as u64 }
    }
}

impl From<u128> for ClientId {
    fn from(value: u128) -> Self {
        Self { high: (value / HALF_RANGE) as u64, low: (value % HALF_RANGE) as u64 }
    }
}

impl vstd::std_specs::convert::FromSpecImpl<ClientId> for u128 {
    open spec fn obeys_from_spec() -> bool {
        true
    }

    open spec fn from_spec(value: ClientId) -> u128 {
        value.raw()
    }
}

impl From<ClientId> for u128 {
    fn from(value: ClientId) -> u128 {
        value.to_raw()
    }
}

/// A client identifier and its 128-bit number determine each other.
pub proof fn law_client_id_round_trip(id: ClientId, other: ClientId, value: u128)
    ensures
        <ClientId as vstd::std_specs::convert::FromSpec<u128>>::from_spec(id.raw()) == id,
        <ClientId as vstd::std_specs::convert::FromSpec<u128>>::from_spec(value).raw() == value,
        id.raw() == other.raw() <==> id == other,
{
    lemma_joined(id.high, id.low);
    lemma_joined(other.high, other.low);
    lemma_split(value);
}

/// A segment identifier and its 128-bit number determine each other.
pub proof fn law_segment_id_round_trip(id: SegmentId, other: SegmentId, value: u128)
    ensures
        <SegmentId as vstd::std_specs::convert::FromSpec<u128>>::from_spec(id.raw()) == id,
        <SegmentId as vstd::std_specs::convert::FromSpec<u128>>::from_spec(value).raw() == value,
        id.raw() == other.raw() <==> id == other,
{
    lemma_joined(id.high, id.low);
    lemma_joined(other.high, other.low);
    lemma_split(value);
}

/// Splitting a number into halves loses nothing.
pub proof fn lemma_split(value: u128)
    ensures
        joined((value / HALF_RANGE) as u64, (value % HALF_RANGE) as u64) == value,
{
    assert(HALF_RANGE * HALF_RANGE == 0x1_0000_0000_0000_0000_0000_0000_0000_0000) by (nonlinear_arith)
        requires
            HALF_RANGE == 0x1_0000_0000_0000_0000,
    ;
    assert(value / HALF_RANGE < HALF_RANGE) by (nonlinear_arith)
        requires
            value < HALF_RANGE * HALF_RANGE,
            HALF_RANGE == 0x1_0000_0000_0000_0000,
    ;
    assert(value == (value / HALF_RANGE) * HALF_RANGE + value % HALF_RANGE) by (nonlinear_arith)
        requires
            HALF_RANGE == 0x1_0000_0000_0000_0000,
    ;
}

/// Who a segment is, who owns it, and where it lives.
#[derive(Clone, Debug, Eq, PartialEq)]
pub struct SegmentIdentity {
    pub id: SegmentId,
    pub owner: ClientId,
    pub name: String,
    /// Empty where the host is not known.
    pub host_id: String,
}

/// The contents of a [`SegmentIdentity`].
pub struct SegmentIdentityView {
    pub id: SegmentId,
    pub owner: ClientId,
    pub name: Seq<char>,
    pub host_id: Seq<char>,
}

impl View for SegmentIdentity {
    type V = SegmentIdentityView;

    open spec fn view(&self) -> SegmentIdentityView {
        SegmentIdentityView {
            id: self.id,
            owner: self.owner,
            name: self.name@,
            host_id: self.host_id@,
        }
    }
}

impl SegmentIdentity {
    pub fn new(id: SegmentId, owner: ClientId, name: String) -> (identity: Self)
        ensures
            identity@ == (SegmentIdentityView { id, owner, name: name@, host_id: Seq::empty() }),
    {
        Self { id, owner, name, host_id: String::new() }
    }

    pub fn with_host_id(self, host_id: String) -> (identity: Self)
        ensures
            identity@ == (SegmentIdentityView { host_id: host_id@, ..self@ }),
    {
        Self { host_id, ..self }
    }

    pub fn id(&self) -> (id: SegmentId)
        ensures
            id == self@.id,
    {
        self.id
    }

    pub fn owner(&self) -> (owner: ClientId)
        ensures
            owner == self@.owner,
    {
        self.owner
    }

    pub fn name(&self) -> (name: &str)
        ensures
            name@ == self@.name,
    {
        self.name.as_str()
    }

    pub fn host_id(&self) -> (host_id: &str)
        ensures
            host_id@ == self@.host_id,
    {
        self.host_id.as_str()
    }

    /// An identity equal to this one.
    pub fn duplicate(&self) -> (copy: Self)
        ensures
            copy == *self,
    {
        Self {
            id: self.id,
            owner: self.owner,
            name: self.name.clone(),
            host_id: self.host_id.clone(),
        }
    }

    /// Whether both describe the same segment in every field.
    pub fn same_as(&self, other: &Self) -> (same: bool)
        ensures
            same == (self@ == other@),
    {
        self.id == other.id && self.owner == other.owner && self.name == other.name && self.host_id
            == other.host_id
    }
}

} // verus!

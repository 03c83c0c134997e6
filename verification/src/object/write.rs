//! Who writes an object and how.

use crate::client::lifecycle::{
    ClientPhase, ClientRegistry, ClientSession, ClientSessionGuard, RegistryView,
};
use crate::segment::identity::ClientId;
use vstd::prelude::*;

verus! {

/// Metadata that a writer hands in when it commits.
#[derive(Clone, Copy, Debug, Eq, PartialEq, Structural)]
pub struct ObjectCommit {
    pub checksum: Option<u64>,
}

impl Default for ObjectCommit {
    fn default() -> (commit: Self)
        ensures
            commit.checksum is None,
    {
        Self { checksum: None }
    }
}

impl ObjectCommit {
    pub fn new(checksum: Option<u64>) -> (commit: Self)
        ensures
            commit.checksum == checksum,
    {
        Self { checksum }
    }

    pub fn checksum(self) -> (checksum: Option<u64>)
        ensures
            checksum == self.checksum,
    {
        self.checksum
    }
}

/// Whether a write may replace a committed object.
#[derive(Clone, Copy, Debug, Eq, PartialEq, Structural)]
pub enum WriteMode {
    Insert,
    Upsert,
}

/// Number of a write transaction of one slot.
#[derive(Clone, Copy, Debug, Eq, Hash, PartialEq, Structural)]
pub struct TransactionId {
    pub value: u64,
}

impl TransactionId {
    pub fn new(value: u64) -> (id: Self)
        ensures
            id.value == value,
    {
        Self { value }
    }

    pub fn get(self) -> (value: u64)
        ensures
            value == self.value,
    {
        self.value
    }
}

/// Number of a committed version of one slot.
#[derive(Clone, Copy, Debug, Eq, Hash, PartialEq, Structural)]
pub struct VersionId {
    pub value: u64,
}

impl VersionId {
    pub fn new(value: u64) -> (id: Self)
        ensures
            id.value == value,
    {
        Self { value }
    }

    pub fn get(self) -> (value: u64)
        ensures
            value == self.value,
    {
        self.value
    }
}

/// Number of a write of one key.
#[derive(Clone, Copy, Debug, Eq, Hash, PartialEq, Structural)]
pub struct WriteId {
    pub generation: u64,
}

impl WriteId {
    pub fn new(generation: u64) -> (id: Self)
        ensures
            id.generation == generation,
    {
        Self { generation }
    }

    pub fn generation(self) -> (generation: u64)
        ensures
            generation == self.generation,
    {
        self.generation
    }
}

/// Stable identity of the client incarnation that owns a write.
#[derive(Clone, Copy, Debug, Eq, Hash, PartialEq, Structural)]
pub struct WriteOwner {
    pub client: ClientId,
    /// Zero identifies direct callers that do not participate in
    /// server-managed client sessions.
    pub session_generation: u64,
}

impl WriteOwner {
    /// The owner of the writes of a session.
    pub open spec fn of(session: ClientSession) -> WriteOwner {
        WriteOwner { client: session.client_id, session_generation: session.generation }
    }

    pub fn new(client: ClientId) -> (owner: Self)
        ensures
            owner == (WriteOwner { client, session_generation: 0 }),
    {
        Self { client, session_generation: 0 }
    }

    pub fn for_session(session: ClientSession) -> (owner: Self)
        ensures
            owner == WriteOwner::of(session),
    {
        Self { client: session.client_id, session_generation: session.generation }
    }

    pub fn client(&self) -> (client: ClientId)
        ensures
            client == self.client,
    {
        self.client
    }

    pub fn session_generation(&self) -> (generation: u64)
        ensures
            generation == self.session_generation,
    {
        self.session_generation
    }
}

/// Admission capability retained only while a claimed write can become
/// pending. Catalog nodes store the compact [`WriteOwner`] identity instead.
#[derive(Clone, Copy, Debug, Eq, PartialEq, Structural)]
pub struct WriteAdmission {
    pub owner: WriteOwner,
    pub session_guard: Option<ClientSessionGuard>,
}

impl WriteAdmission {
    /// Whether the write is still admitted.
    pub open spec fn is_admitted(self, sessions: RegistryView) -> bool {
        match self.session_guard {
            None => true,
            Some(guard) => sessions.is_active(guard.session),
        }
    }

    /// Creates an admission capability for direct callers that do not
    /// participate in server-managed client sessions.
    pub fn unmanaged(client: ClientId) -> (admission: Self)
        ensures
            admission.owner == (WriteOwner { client, session_generation: 0 }),
            admission.session_guard is None,
    {
        Self { owner: WriteOwner::new(client), session_guard: None }
    }

    /// Creates an admission capability that ends with a session.
    pub fn guarded(guard: ClientSessionGuard) -> (admission: Self)
        ensures
            admission.owner == WriteOwner::of(guard.session),
            admission.session_guard == Some(guard),
    {
        Self { owner: WriteOwner::for_session(guard.session()), session_guard: Some(guard) }
    }

    pub fn owner(&self) -> (owner: WriteOwner)
        ensures
            owner == self.owner,
    {
        self.owner
    }

    pub fn is_active(&self, sessions: &ClientRegistry) -> (active: bool)
        ensures
            active == self.is_admitted(sessions@),
    {
        match self.session_guard {
            None => true,
            Some(guard) => guard.is_active(sessions),
        }
    }
}

/// A write that a session guards goes on exactly while that session is active; one that
/// no session guards always does. Two sessions own the same writes only where they are
/// the same session.
pub proof fn law_writes_follow_their_sessions(
    admission: WriteAdmission,
    sessions: RegistryView,
    left: ClientSession,
    right: ClientSession,
)
    ensures
        admission.session_guard is None ==> admission.is_admitted(sessions),
        admission.session_guard matches Some(guard) ==> (admission.is_admitted(sessions) <==> {
            let key = guard.session.client_id.raw();
            &&& sessions.entries.contains_key(key)
            &&& sessions.entries[key].session == guard.session
            &&& sessions.entries[key].phase == ClientPhase::Active
        }),
        WriteOwner::of(left) == WriteOwner::of(right) <==> left == right,
{
}

} // verus!

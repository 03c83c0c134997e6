//! What an object holds.

use vstd::prelude::*;

verus! {

/// The kind of data in an object.
#[derive(Clone, Copy, Debug, Eq, PartialEq, Structural)]
#[non_exhaustive]
pub enum ObjectKind {
    KvCache,
    Tensor,
    General,
}

impl Default for ObjectKind {
    fn default() -> (kind: Self)
        ensures
            kind == ObjectKind::KvCache,
    {
        Self::KvCache
    }
}

/// Size and kind of an object's data.
#[derive(Clone, Copy, Debug, Eq, PartialEq, Structural)]
pub struct ObjectContent {
    pub logical_bytes: u64,
    pub kind: ObjectKind,
}

impl ObjectContent {
    pub fn new(logical_bytes: u64) -> (content: Self)
        ensures
            content == (ObjectContent { logical_bytes, kind: ObjectKind::KvCache }),
    {
        Self { logical_bytes, kind: ObjectKind::KvCache }
    }

    pub fn with_kind(self, kind: ObjectKind) -> (content: Self)
        ensures
            content == (ObjectContent { kind, ..self }),
    {
        Self { kind, ..self }
    }

    pub fn logical_bytes(self) -> (bytes: u64)
        ensures
            bytes == self.logical_bytes,
    {
        self.logical_bytes
    }

    pub fn kind(self) -> (kind: ObjectKind)
        ensures
            kind == self.kind,
    {
        self.kind
    }
}

} // verus!

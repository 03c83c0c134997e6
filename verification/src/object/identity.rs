//! Names of objects.

use vstd::prelude::*;

verus! {

/// The namespace that an object lives in.
#[derive(Clone, Copy, Debug, Eq, Hash, Ord, PartialEq, PartialOrd, Structural)]
pub struct NamespaceId {
    pub value: u64,
}

impl Default for NamespaceId {
    fn default() -> (namespace: Self)
        ensures
            namespace.value == 0,
    {
        Self { value: 0 }
    }
}

impl NamespaceId {
    pub fn new(value: u64) -> (namespace: Self)
        ensures
            namespace.value == value,
    {
        Self { value }
    }

    pub fn get(self) -> (value: u64)
        ensures
            value == self.value,
    {
        self.value
    }
}

/// The key of an object in its namespace.
#[derive(Clone, Debug, Eq, Hash, Ord, PartialEq, PartialOrd)]
pub struct ObjectKey {
    pub text: String,
}

impl View for ObjectKey {
    type V = Seq<char>;

    open spec fn view(&self) -> Seq<char> {
        self.text@
    }
}

impl ObjectKey {
    pub fn new(value: String) -> (key: Self)
        ensures
            key@ == value@,
    {
        Self { text: value }
    }

    pub fn as_str(&self) -> (text: &str)
        ensures
            text@ == self@,
    {
        self.text.as_str()
    }

    pub fn is_empty(&self) -> (empty: bool)
        ensures
            empty == (self@.len() == 0),
    {
        self.text.as_str().is_empty()
    }
}

/// The full name of an object.
#[derive(Clone, Debug, Eq, Hash, Ord, PartialEq, PartialOrd)]
pub struct ObjectIdentity {
    pub namespace: NamespaceId,
    pub key: ObjectKey,
}

impl View for ObjectIdentity {
    type V = (u64, Seq<char>);

    open spec fn view(&self) -> (u64, Seq<char>) {
        (self.namespace.value, self.key@)
    }
}

impl ObjectIdentity {
    pub fn new(namespace: NamespaceId, key: String) -> (identity: Self)
        ensures
            identity@ == (namespace.value, key@),
    {
        Self { namespace, key: ObjectKey::new(key) }
    }

    pub fn namespace(&self) -> (namespace: NamespaceId)
        ensures
            namespace == self.namespace,
    {
        self.namespace
    }

    pub fn key(&self) -> (key: &ObjectKey)
        ensures
            *key == self.key,
    {
        &self.key
    }

    pub fn as_lookup(&self) -> (lookup: ObjectLookup<'_>)
        ensures
            lookup@ == self@,
            lookup.namespace == self.namespace,
            lookup.key@ == self.key@,
    {
        ObjectLookup::new(self.namespace, self.key.as_str())
    }

    /// An identity equal to this one.
    pub fn duplicate(&self) -> (copy: Self)
        ensures
            copy == *self,
    {
        Self { namespace: self.namespace, key: ObjectKey { text: self.key.text.clone() } }
    }
}

/// A borrowed name of an object.
#[derive(Clone, Copy, Debug, Eq, Hash, PartialEq)]
pub struct ObjectLookup<'a> {
    pub namespace: NamespaceId,
    pub key: &'a str,
}

impl<'a> View for ObjectLookup<'a> {
    type V = (u64, Seq<char>);

    open spec fn view(&self) -> (u64, Seq<char>) {
        (self.namespace.value, self.key@)
    }
}

impl<'a> ObjectLookup<'a> {
    pub fn new(namespace: NamespaceId, key: &'a str) -> (lookup: Self)
        ensures
            lookup@ == (namespace.value, key@),
    {
        Self { namespace, key }
    }

    pub fn namespace(self) -> (namespace: NamespaceId)
        ensures
            namespace == self.namespace,
    {
        self.namespace
    }

    pub fn key(self) -> (key: &'a str)
        ensures
            key@ == self@.1,
    {
        self.key
    }
}

/// Two identities have the same lookup exactly when they have the same namespace
/// and the same key.
pub proof fn law_lookups_tell_identities_apart(
    first: ObjectIdentity,
    second: ObjectIdentity,
    first_lookup: ObjectLookup<'_>,
    second_lookup: ObjectLookup<'_>,
)
    requires
        first_lookup@ == first@,
        second_lookup@ == second@,
    ensures
        first_lookup@ == second_lookup@ <==> first.namespace == second.namespace && first.key@
            == second.key@,
{
}

} // verus!

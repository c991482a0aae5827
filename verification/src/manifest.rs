//! A registry mapping application types to compact numeric identifiers for
//! wire encoding.
//!
//! The registry is independent of the sequence buffer; a higher protocol
//! layer composes the two.  Types are keyed by a caller-supplied stable
//! identifier rather than by any runtime type-identity mechanism, so the
//! mapping survives across builds and across the wire.  Looking up a type
//! that was never registered is a caller error and is excluded by
//! precondition; producing an instance for an unknown numeric identifier is
//! an ordinary absent result.

use std::collections::HashMap;

use vstd::pervasive::unreached;
use vstd::prelude::*;

verus! {

broadcast use vstd::std_specs::hash::group_hash_axioms;

/// A payload kind the registry can hand out instances of.  Implementors
/// supply duplication, an event test and a byte decoder; the registry
/// itself relies only on `optional_clone`.
pub trait ManifestType: Sized {
    /// Duplicates the value, or declines to.
    fn optional_clone(&self) -> Option<Self>;

    /// Whether the value represents an event.
    fn is_event(&self) -> bool;

    /// Feeds wire bytes into the value.
    fn use_bytes(&mut self, bytes: &[u8]);
}

/// Registry of payload types: assigns each registered type a fresh numeric
/// identifier, answers identifier lookups, and produces duplicate
/// instances by identifier.
pub struct Manifest<T: ManifestType> {
    gaia_id_count: u16,
    gaia_id_map: HashMap<u16, T>,
    type_id_map: HashMap<u64, u16>,
}

impl<T: ManifestType> Manifest<T> {
    /// The numeric identifier the next registration will receive.
    pub closed spec fn next_id(self) -> u16 {
        self.gaia_id_count
    }

    /// The registered stable type keys and the identifiers assigned to
    /// them.
    pub closed spec fn type_ids(self) -> Map<u64, u16> {
        self.type_id_map@
    }

    /// The prototype values stored under each assigned identifier.
    pub closed spec fn prototypes(self) -> Map<u16, T> {
        self.gaia_id_map@
    }

    /// Creates an empty registry.  Identifiers are handed out from 111
    /// upwards, leaving the lower range to other wire-level tags.
    pub fn new() -> (r: Self)
        ensures
            r.next_id() == 111,
            r.type_ids() == Map::<u64, u16>::empty(),
            r.prototypes() == Map::<u16, T>::empty(),
    {
        Manifest { gaia_id_count: 111, gaia_id_map: HashMap::new(), type_id_map: HashMap::new() }
    }

    /// Registers a type under its caller-supplied stable key, assigning it
    /// the next numeric identifier and storing `some_type` as the prototype
    /// that later instances are duplicated from.
    pub fn register(&mut self, type_key: u64, some_type: T)
        requires
            old(self).next_id() < 65535,
        ensures
            final(self).next_id() == old(self).next_id() + 1,
            final(self).type_ids() == old(self).type_ids().insert(type_key, old(self).next_id()),
            final(self).prototypes() == old(self).prototypes().insert(
                old(self).next_id(),
                some_type,
            ),
    {
        let new_gaia_id = self.gaia_id_count;
        self.type_id_map.insert(type_key, new_gaia_id);
        self.gaia_id_map.insert(new_gaia_id, some_type);
        self.gaia_id_count = self.gaia_id_count + 1;
    }

    /// Returns the numeric identifier assigned to the given stable type
    /// key.  Asking for a key that was never registered is a caller error,
    /// excluded by precondition.
    pub fn get_gaia_id(&self, type_key: u64) -> (r: u16)
        requires
            self.type_ids().contains_key(type_key),
        ensures
            r == self.type_ids()[type_key],
    {
        match self.type_id_map.get(&type_key) {
            Some(gaia_id) => *gaia_id,
            None => unreached(),
        }
    }

    /// Produces an instance for the given numeric identifier by duplicating
    /// the registered prototype, or nothing for an unknown identifier.  For
    /// a known identifier the prototype decides whether it can be
    /// duplicated.
    pub fn create_type(&self, gaia_id: u16) -> (r: Option<T>)
        ensures
            !self.prototypes().contains_key(gaia_id) ==> r is None,
            r is Some ==> self.prototypes().contains_key(gaia_id),
    {
        match self.gaia_id_map.get(&gaia_id) {
            Some(entity_type) => entity_type.optional_clone(),
            None => None,
        }
    }

    /// A maintenance hook for the surrounding protocol layer; the registry
    /// itself has nothing to do and is left unchanged.
    pub fn process(&mut self)
        ensures
            *final(self) == *old(self),
    {
    }
}

} // verus!

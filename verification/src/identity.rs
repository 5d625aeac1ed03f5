//! The identity registry: unique names, each claimed by one owner, and the
//! attributes that only the owner of a name may write.

use crate::assoc::{
    distinct_keys, has_key, lemma_to_map, lemma_to_map_push, lemma_to_map_update, to_map,
};
use crate::bytes::{bytes_copy, bytes_eq};
use crate::error::Error;
use crate::identity_state::{attribute_value, authorization, Call, IdentityState, OwnerId};
use vstd::prelude::*;

verus! {

/// A claimed name and its owner.
pub struct Identity {
    /// The name, unique in the registry.
    pub name: Vec<u8>,
    /// Who claimed the name.
    pub owner: OwnerId,
}

/// A key/value fact attached to an identity.
pub struct Attribute {
    /// The name of the identity that the attribute belongs to.
    pub identity: Vec<u8>,
    /// The key, unique within the identity.
    pub key: Vec<u8>,
    /// The value; no bytes once the attribute was cleared.
    pub value: Vec<u8>,
}

/// The mapping from names to owners. A name is claimed at most once and is never released.
pub struct IdentityRegistry {
    identities: Vec<Identity>,
}

impl View for IdentityRegistry {
    type V = Map<Seq<u8>, OwnerId>;

    closed spec fn view(&self) -> Map<Seq<u8>, OwnerId> {
        to_map(self.entries())
    }
}

impl IdentityRegistry {
    spec fn entries(&self) -> Seq<(Seq<u8>, OwnerId)> {
        self.identities@.map_values(|e: Identity| (e.name@, e.owner))
    }

    #[verifier::type_invariant]
    spec fn names_are_unique(&self) -> bool {
        distinct_keys(self.entries())
    }

    /// A registry in which no name is claimed.
    pub fn new() -> (registry: Self)
        ensures
            registry@ == Map::<Seq<u8>, OwnerId>::empty(),
    {
        let registry = IdentityRegistry { identities: Vec::new() };
        assert(registry.entries() =~= Seq::empty());
        registry
    }

    fn position(&self, name: &[u8]) -> (found: Option<usize>)
        ensures
            match found {
                Some(i) => i < self.identities@.len() && self.identities@[i as int].name@ == name@,
                None => !has_key(self.entries(), name@),
            },
    {
        let mut i: usize = 0;
        while i < self.identities.len()
            invariant
                i <= self.identities@.len(),
                forall|j: int| 0 <= j < i ==> (#[trigger] self.entries()[j]).0 != name@,
            decreases self.identities@.len() - i,
        {
            if bytes_eq(self.identities[i].name.as_slice(), name) {
                return Some(i);
            }
            assert(self.entries()[i as int].0 == self.identities@[i as int].name@);
            i += 1;
        }
        None
    }

    /// The owner of `name`, if it is claimed.
    pub fn get_identity(&self, name: &[u8]) -> (owner: Option<OwnerId>)
        ensures
            owner == (if self@.contains_key(name@) {
                Some(self@[name@])
            } else {
                None
            }),
    {
        proof {
            use_type_invariant(self);
            lemma_to_map(self.entries());
        }
        match self.position(name) {
            Some(i) => {
                assert(self.entries()[i as int] == (name@, self.identities@[i as int].owner));
                Some(self.identities[i].owner)
            },
            None => None,
        }
    }

    /// Whether `caller` may write the attributes of `name`.
    pub fn authorize(&self, caller: OwnerId, name: &[u8]) -> (verdict: Result<(), Error>)
        ensures
            verdict == authorization(self@, caller, name@),
    {
        match self.get_identity(name) {
            None => Err(Error::IdentityNotFound),
            Some(owner) => if owner == caller {
                Ok(())
            } else {
                Err(Error::NotAuthorized)
            },
        }
    }

    /// Claims `name` for `caller`. A name that has an owner is refused, also when
    /// the owner is `caller`.
    pub fn create_identity(&mut self, caller: OwnerId, name: Vec<u8>) -> (outcome: Result<
        (),
        Error,
    >)
        ensures
            outcome == (if old(self)@.contains_key(name@) {
                Err::<(), Error>(Error::IdentityAlreadyClaimed)
            } else {
                Ok::<(), Error>(())
            }),
            final(self)@ == (if old(self)@.contains_key(name@) {
                old(self)@
            } else {
                old(self)@.insert(name@, caller)
            }),
    {
        proof {
            use_type_invariant(&*self);
            lemma_to_map(self.entries());
        }
        match self.position(name.as_slice()) {
            Some(i) => {
                assert(self.entries()[i as int].0 == name@);
                Err(Error::IdentityAlreadyClaimed)
            },
            None => {
                let ghost before = self.entries();
                let mut identities: Vec<Identity> = Vec::new();
                std::mem::swap(&mut identities, &mut self.identities);
                identities.push(Identity { name, owner: caller });
                proof {
                    lemma_to_map_push(before, name@, caller);
                    assert(identities@.map_values(|e: Identity| (e.name@, e.owner)) =~= before.push(
                        (name@, caller),
                    ));
                }
                self.identities = identities;
                Ok(())
            },
        }
    }
}

/// The attributes of all identities, keyed by name and attribute key.
pub struct AttributeStore {
    attributes: Vec<Attribute>,
}

impl View for AttributeStore {
    type V = Map<(Seq<u8>, Seq<u8>), Seq<u8>>;

    closed spec fn view(&self) -> Map<(Seq<u8>, Seq<u8>), Seq<u8>> {
        to_map(self.entries())
    }
}

impl AttributeStore {
    spec fn entries(&self) -> Seq<((Seq<u8>, Seq<u8>), Seq<u8>)> {
        self.attributes@.map_values(|a: Attribute| ((a.identity@, a.key@), a.value@))
    }

    #[verifier::type_invariant]
    spec fn keys_are_unique(&self) -> bool {
        distinct_keys(self.entries())
    }

    /// A store that holds no attribute.
    pub fn new() -> (store: Self)
        ensures
            store@ == Map::<(Seq<u8>, Seq<u8>), Seq<u8>>::empty(),
    {
        let store = AttributeStore { attributes: Vec::new() };
        assert(store.entries() =~= Seq::empty());
        store
    }

    fn position(&self, name: &[u8], key: &[u8]) -> (found: Option<usize>)
        ensures
            match found {
                Some(i) => i < self.attributes@.len() && self.entries()[i as int].0 == (
                    name@,
                    key@,
                ),
                None => !has_key(self.entries(), (name@, key@)),
            },
    {
        let mut i: usize = 0;
        while i < self.attributes.len()
            invariant
                i <= self.attributes@.len(),
                forall|j: int| 0 <= j < i ==> (#[trigger] self.entries()[j]).0 != (name@, key@),
            decreases self.attributes@.len() - i,
        {
            let entry = &self.attributes[i];
            assert(self.entries()[i as int].0 == (entry.identity@, entry.key@));
            if bytes_eq(entry.identity.as_slice(), name) && bytes_eq(entry.key.as_slice(), key) {
                return Some(i);
            }
            i += 1;
        }
        None
    }

    /// Stores `value` under `(name, key)`, in place of what was there.
    fn put(&mut self, name: Vec<u8>, key: Vec<u8>, value: Vec<u8>)
        ensures
            final(self)@ == old(self)@.insert((name@, key@), value@),
    {
        proof {
            use_type_invariant(&*self);
        }
        let found = self.position(name.as_slice(), key.as_slice());
        let ghost before = self.entries();
        let mut attributes: Vec<Attribute> = Vec::new();
        std::mem::swap(&mut attributes, &mut self.attributes);
        match found {
            Some(i) => {
                attributes.set(i, Attribute { identity: name, key, value });
                proof {
                    lemma_to_map_update(before, i as int, value@);
                    assert(attributes@.map_values(|a: Attribute| ((a.identity@, a.key@), a.value@))
                        =~= before.update(i as int, (before[i as int].0, value@)));
                }
            },
            None => {
                attributes.push(Attribute { identity: name, key, value });
                proof {
                    lemma_to_map_push(before, (name@, key@), value@);
                    assert(attributes@.map_values(|a: Attribute| ((a.identity@, a.key@), a.value@))
                        =~= before.push(((name@, key@), value@)));
                }
            },
        }
        self.attributes = attributes;
    }

    /// The value stored under `(name, key)`; no bytes where nothing is stored.
    pub fn get_attribute(&self, id: (&[u8], &[u8])) -> (value: Vec<u8>)
        ensures
            value@ == attribute_value(self@, id.0@, id.1@),
    {
        proof {
            use_type_invariant(self);
            lemma_to_map(self.entries());
        }
        match self.position(id.0, id.1) {
            Some(i) => bytes_copy(self.attributes[i].value.as_slice()),
            None => Vec::new(),
        }
    }

    /// Sets `(name, key)` to `value` if `caller` owns `name` in `registry`;
    /// otherwise nothing changes.
    pub fn add_attribute(
        &mut self,
        registry: &IdentityRegistry,
        caller: OwnerId,
        name: Vec<u8>,
        key: Vec<u8>,
        value: Vec<u8>,
    ) -> (outcome: Result<(), Error>)
        ensures
            outcome == authorization(registry@, caller, name@),
            outcome is Ok ==> final(self)@ == old(self)@.insert((name@, key@), value@),
            outcome is Err ==> final(self)@ == old(self)@,
    {
        match registry.authorize(caller, name.as_slice()) {
            Ok(()) => {
                self.put(name, key, value);
                Ok(())
            },
            Err(e) => Err(e),
        }
    }

    /// Clears `(name, key)` if `caller` owns `name` in `registry`: the key stays,
    /// with no bytes as its value. Otherwise nothing changes.
    pub fn remove_attribute(
        &mut self,
        registry: &IdentityRegistry,
        caller: OwnerId,
        name: Vec<u8>,
        key: Vec<u8>,
    ) -> (outcome: Result<(), Error>)
        ensures
            outcome == authorization(registry@, caller, name@),
            outcome is Ok ==> final(self)@ == old(self)@.insert((name@, key@), Seq::<u8>::empty()),
            outcome is Err ==> final(self)@ == old(self)@,
    {
        self.add_attribute(registry, caller, name, key, Vec::new())
    }
}

/// The registry and the attribute store together: the state that the entry
/// points work on. Every write to an attribute is authorized against the registry.
pub struct IdentityModule {
    registry: IdentityRegistry,
    attributes: AttributeStore,
}

impl View for IdentityModule {
    type V = IdentityState;

    closed spec fn view(&self) -> IdentityState {
        IdentityState { owners: self.registry@, attributes: self.attributes@ }
    }
}

impl IdentityModule {
    #[verifier::type_invariant]
    spec fn attributes_belong_to_identities(&self) -> bool {
        self@.consistent()
    }

    /// The state before any call.
    pub fn new() -> (module: Self)
        ensures
            module@ == IdentityState::genesis(),
    {
        IdentityModule { registry: IdentityRegistry::new(), attributes: AttributeStore::new() }
    }

    /// Claims `name` for `caller`; refused if the name has an owner already.
    pub fn create_identity(&mut self, caller: OwnerId, name: Vec<u8>) -> (outcome: Result<
        (),
        Error,
    >)
        ensures
            outcome == old(self)@.outcome(caller, Call::CreateIdentity(name@)),
            final(self)@ == old(self)@.apply(caller, Call::CreateIdentity(name@)),
            final(self)@.consistent(),
    {
        proof {
            use_type_invariant(&*self);
        }
        let ghost before = self@;
        let mut attributes = AttributeStore::new();
        std::mem::swap(&mut attributes, &mut self.attributes);
        let mut registry = IdentityRegistry::new();
        std::mem::swap(&mut registry, &mut self.registry);
        let outcome = registry.create_identity(caller, name);
        self.registry = registry;
        assert(before.apply(caller, Call::CreateIdentity(name@)).consistent()) by {
            assert(before.consistent());
        }
        self.attributes = attributes;
        outcome
    }

    /// Sets the attribute `(name, key)` to `value`; refused unless `caller` owns `name`.
    pub fn add_attribute(
        &mut self,
        caller: OwnerId,
        name: Vec<u8>,
        key: Vec<u8>,
        value: Vec<u8>,
    ) -> (outcome: Result<(), Error>)
        ensures
            outcome == old(self)@.outcome(caller, Call::AddAttribute(name@, key@, value@)),
            final(self)@ == old(self)@.apply(caller, Call::AddAttribute(name@, key@, value@)),
            final(self)@.consistent(),
    {
        proof {
            use_type_invariant(&*self);
        }
        let ghost before = self@;
        let mut attributes = AttributeStore::new();
        std::mem::swap(&mut attributes, &mut self.attributes);
        let outcome = attributes.add_attribute(&self.registry, caller, name, key, value);
        assert(before.apply(caller, Call::AddAttribute(name@, key@, value@)).consistent()) by {
            assert(before.consistent());
        }
        self.attributes = attributes;
        outcome
    }

    /// Clears the attribute `(name, key)`: it stays, with no bytes as its value.
    /// Refused unless `caller` owns `name`.
    pub fn remove_attribute(&mut self, caller: OwnerId, name: Vec<u8>, key: Vec<u8>) -> (outcome:
        Result<(), Error>)
        ensures
            outcome == old(self)@.outcome(caller, Call::RemoveAttribute(name@, key@)),
            final(self)@ == old(self)@.apply(caller, Call::RemoveAttribute(name@, key@)),
            final(self)@.consistent(),
    {
        proof {
            use_type_invariant(&*self);
        }
        let ghost before = self@;
        let mut attributes = AttributeStore::new();
        std::mem::swap(&mut attributes, &mut self.attributes);
        let outcome = attributes.remove_attribute(&self.registry, caller, name, key);
        assert(before.apply(caller, Call::RemoveAttribute(name@, key@)).consistent()) by {
            assert(before.consistent());
        }
        self.attributes = attributes;
        outcome
    }

    /// The owner of `name`, if it is claimed.
    pub fn get_identity(&self, name: &[u8]) -> (owner: Option<OwnerId>)
        ensures
            owner == self@.owner(name@),
    {
        self.registry.get_identity(name)
    }

    /// The value of the attribute `(name, key)`; no bytes where none was written.
    pub fn get_attribute(&self, id: (&[u8], &[u8])) -> (value: Vec<u8>)
        ensures
            value@ == self@.attribute(id.0@, id.1@),
    {
        self.attributes.get_attribute(id)
    }
}

} // verus!

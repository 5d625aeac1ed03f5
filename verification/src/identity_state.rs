//! The registry as a state machine over mathematical maps: what each call
//! answers, what it changes, and the laws that follow for every state.

use crate::error::Error;
use vstd::prelude::*;

verus! {

/// Who owns an identity.
pub type OwnerId = u64;

/// Whether `caller` may write the attributes of `name`, given who owns which name:
/// the name must be claimed, and claimed by `caller`.
pub open spec fn authorization(
    owners: Map<Seq<u8>, OwnerId>,
    caller: OwnerId,
    name: Seq<u8>,
) -> Result<(), Error> {
    if !owners.contains_key(name) {
        Err(Error::IdentityNotFound)
    } else if owners[name] != caller {
        Err(Error::NotAuthorized)
    } else {
        Ok(())
    }
}

/// The value stored under a key, or no bytes where nothing is stored: a key
/// that was never written reads like one that was cleared.
pub open spec fn attribute_value(
    attributes: Map<(Seq<u8>, Seq<u8>), Seq<u8>>,
    name: Seq<u8>,
    key: Seq<u8>,
) -> Seq<u8> {
    if attributes.contains_key((name, key)) {
        attributes[(name, key)]
    } else {
        Seq::empty()
    }
}

/// A mutating call, without its caller.
pub enum Call {
    /// Claim the name.
    CreateIdentity(Seq<u8>),
    /// Set the attribute (name, key) to a value.
    AddAttribute(Seq<u8>, Seq<u8>, Seq<u8>),
    /// Clear the attribute (name, key).
    RemoveAttribute(Seq<u8>, Seq<u8>),
}

/// Everything the registry and the attribute store hold.
#[verifier::ext_equal]
pub struct IdentityState {
    /// The owner of each claimed name.
    pub owners: Map<Seq<u8>, OwnerId>,
    /// The value of each attribute that was ever written, by (name, key).
    pub attributes: Map<(Seq<u8>, Seq<u8>), Seq<u8>>,
}

impl IdentityState {
    /// The state before any call: nothing claimed, nothing stored.
    pub open spec fn genesis() -> Self {
        IdentityState { owners: Map::empty(), attributes: Map::empty() }
    }

    /// The owner of `name`, if it is claimed.
    pub open spec fn owner(self, name: Seq<u8>) -> Option<OwnerId> {
        if self.owners.contains_key(name) {
            Some(self.owners[name])
        } else {
            None
        }
    }

    /// The value read under `(name, key)`.
    pub open spec fn attribute(self, name: Seq<u8>, key: Seq<u8>) -> Seq<u8> {
        attribute_value(self.attributes, name, key)
    }

    /// Attributes exist only under claimed names.
    pub open spec fn consistent(self) -> bool {
        forall|name: Seq<u8>, key: Seq<u8>| #[trigger]
            self.attributes.contains_key((name, key)) ==> self.owners.contains_key(name)
    }

    /// What `call` answers when `caller` makes it in this state.
    pub open spec fn outcome(self, caller: OwnerId, call: Call) -> Result<(), Error> {
        match call {
            Call::CreateIdentity(name) => if self.owners.contains_key(name) {
                Err(Error::IdentityAlreadyClaimed)
            } else {
                Ok(())
            },
            Call::AddAttribute(name, _, _) => authorization(self.owners, caller, name),
            Call::RemoveAttribute(name, _) => authorization(self.owners, caller, name),
        }
    }

    /// The state after `caller` made `call` in this state. A refused call changes nothing.
    pub open spec fn apply(self, caller: OwnerId, call: Call) -> Self {
        if self.outcome(caller, call) is Err {
            self
        } else {
            match call {
                Call::CreateIdentity(name) => IdentityState {
                    owners: self.owners.insert(name, caller),
                    ..self
                },
                Call::AddAttribute(name, key, value) => IdentityState {
                    attributes: self.attributes.insert((name, key), value),
                    ..self
                },
                Call::RemoveAttribute(name, key) => IdentityState {
                    attributes: self.attributes.insert((name, key), Seq::empty()),
                    ..self
                },
            }
        }
    }

    /// The state after a sequence of calls, each with its caller, made in order.
    pub open spec fn run(self, calls: Seq<(OwnerId, Call)>) -> Self
        decreases calls.len(),
    {
        if calls.len() == 0 {
            self
        } else {
            self.run(calls.drop_last()).apply(calls.last().0, calls.last().1)
        }
    }
}

/// Before any call no name has an owner, and nothing is stored.
pub proof fn law_genesis_is_empty(name: Seq<u8>, key: Seq<u8>)
    ensures
        IdentityState::genesis().owner(name) is None,
        IdentityState::genesis().attribute(name, key) == Seq::<u8>::empty(),
        IdentityState::genesis().consistent(),
{
}

/// A name stays unclaimed through any calls among which none claims it.
pub proof fn law_unclaimed_until_created(
    state: IdentityState,
    calls: Seq<(OwnerId, Call)>,
    name: Seq<u8>,
)
    requires
        state.owner(name) is None,
        forall|i: int|
            0 <= i < calls.len() ==> (#[trigger] calls[i]).1 != Call::CreateIdentity(name),
    ensures
        state.run(calls).owner(name) is None,
    decreases calls.len(),
{
    if calls.len() > 0 {
        let earlier = calls.drop_last();
        assert forall|i: int| 0 <= i < earlier.len() implies (#[trigger] earlier[i]).1
            != Call::CreateIdentity(name) by {
            assert(earlier[i] == calls[i]);
        }
        law_unclaimed_until_created(state, earlier, name);
        assert(calls[calls.len() - 1].1 != Call::CreateIdentity(name));
    }
}

/// The first claim of a name succeeds and makes the caller its owner.
pub proof fn law_first_claim_succeeds(state: IdentityState, caller: OwnerId, name: Seq<u8>)
    requires
        state.owner(name) is None,
    ensures
        state.outcome(caller, Call::CreateIdentity(name)) is Ok,
        state.apply(caller, Call::CreateIdentity(name)).owner(name) == Some(caller),
{
}

/// Once a name has an owner, no sequence of calls, by whomever, changes that owner.
pub proof fn law_owner_never_changes(
    state: IdentityState,
    calls: Seq<(OwnerId, Call)>,
    name: Seq<u8>,
)
    requires
        state.owner(name) is Some,
    ensures
        state.run(calls).owner(name) == state.owner(name),
    decreases calls.len(),
{
    if calls.len() > 0 {
        law_owner_never_changes(state, calls.drop_last(), name);
    }
}

/// Of two claims of one name in a row the second is refused, whoever makes them.
pub proof fn law_second_claim_is_refused(
    state: IdentityState,
    first: OwnerId,
    second: OwnerId,
    name: Seq<u8>,
)
    ensures
        state.apply(first, Call::CreateIdentity(name)).outcome(second, Call::CreateIdentity(name))
            == Err::<(), Error>(Error::IdentityAlreadyClaimed),
        state.apply(first, Call::CreateIdentity(name)).apply(second, Call::CreateIdentity(name))
            == state.apply(first, Call::CreateIdentity(name)),
{
}

/// Writing an attribute succeeds exactly when the name is claimed and the caller
/// owns it. Otherwise the call is refused as unauthorized, or for want of the
/// identity, and the attribute reads as before.
pub proof fn law_only_the_owner_writes(
    state: IdentityState,
    caller: OwnerId,
    name: Seq<u8>,
    key: Seq<u8>,
    value: Seq<u8>,
)
    ensures
        state.outcome(caller, Call::AddAttribute(name, key, value)) is Ok <==> state.owner(name)
            == Some(caller),
        state.outcome(caller, Call::RemoveAttribute(name, key)) is Ok <==> state.owner(name)
            == Some(caller),
        state.owner(name) is None ==> state.outcome(caller, Call::AddAttribute(name, key, value))
            == Err::<(), Error>(Error::IdentityNotFound),
        state.owner(name) is Some && state.owner(name) != Some(caller) ==> state.outcome(
            caller,
            Call::AddAttribute(name, key, value),
        ) == Err::<(), Error>(Error::NotAuthorized),
        state.owner(name) != Some(caller) ==> state.apply(
            caller,
            Call::AddAttribute(name, key, value),
        ).attribute(name, key) == state.attribute(name, key),
        state.owner(name) != Some(caller) ==> state.apply(
            caller,
            Call::RemoveAttribute(name, key),
        ).attribute(name, key) == state.attribute(name, key),
{
}

/// What the owner wrote is what is read, byte for byte.
pub proof fn law_added_attribute_is_read(
    state: IdentityState,
    owner: OwnerId,
    name: Seq<u8>,
    key: Seq<u8>,
    value: Seq<u8>,
)
    requires
        state.owner(name) == Some(owner),
    ensures
        state.apply(owner, Call::AddAttribute(name, key, value)).attribute(name, key) == value,
{
}

/// What the owner cleared reads as no bytes, and its key stays.
pub proof fn law_removed_attribute_reads_empty(
    state: IdentityState,
    owner: OwnerId,
    name: Seq<u8>,
    key: Seq<u8>,
)
    requires
        state.owner(name) == Some(owner),
    ensures
        state.apply(owner, Call::RemoveAttribute(name, key)).attribute(name, key) == Seq::<
            u8,
        >::empty(),
        state.apply(owner, Call::RemoveAttribute(name, key)).attributes.contains_key((name, key)),
{
}

/// A refused call leaves the whole state as it was.
pub proof fn law_refused_call_changes_nothing(state: IdentityState, caller: OwnerId, call: Call)
    requires
        state.outcome(caller, call) is Err,
    ensures
        state.apply(caller, call) == state,
{
}

/// A call touches nothing but what it names: other names keep their owner, other
/// attributes their value.
pub proof fn law_calls_are_local(
    state: IdentityState,
    caller: OwnerId,
    call: Call,
    name: Seq<u8>,
    key: Seq<u8>,
)
    ensures
        call != Call::CreateIdentity(name) ==> state.apply(caller, call).owner(name) == state.owner(
            name,
        ),
        (forall|value: Seq<u8>| call != Call::AddAttribute(name, key, value)) && call
            != Call::RemoveAttribute(name, key) ==> state.apply(caller, call).attribute(name, key)
            == state.attribute(name, key),
{
    match call {
        Call::AddAttribute(n, k, v) => {
            assert(call != Call::AddAttribute(name, key, v) ==> (n, k) != (name, key));
        },
        _ => {},
    }
}

/// Attributes exist only under claimed names, whatever calls were made.
pub proof fn law_attributes_belong_to_identities(state: IdentityState, calls: Seq<(OwnerId, Call)>)
    requires
        state.consistent(),
    ensures
        state.run(calls).consistent(),
    decreases calls.len(),
{
    if calls.len() > 0 {
        law_attributes_belong_to_identities(state, calls.drop_last());
    }
}

} // verus!

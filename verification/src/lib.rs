//! An identity registry with owner-controlled attributes, and a block format
//! that carries challenges and hash-bound, timestamped solutions.
//!
//! The registry ([`identity`], with its state machine and laws in
//! [`identity_state`]) lets a name be claimed once and lets only its owner
//! write its attributes. The ledger ([`ledger`]) takes one solution for each
//! open challenge of the block under construction. A block ([`block`],
//! [`signed_block`]) embeds what the ledger accumulated. Everything that goes
//! into a block or under a hash has a canonical encoding ([`codec`],
//! [`compact`], [`sequence`], [`solutions`]) that is proved to be read back.

pub mod assoc;
pub mod block;
pub mod bytes;
pub mod codec;
pub mod compact;
pub mod error;
pub mod hashing;
pub mod identity;
pub mod identity_state;
pub mod ledger;
pub mod ordered;
pub mod sequence;
pub mod signed_block;
pub mod solutions;

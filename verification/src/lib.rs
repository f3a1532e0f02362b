//! A gasless transaction system protected by Rate-Limited Nullifiers (RLN):
//! users prove with RLN that they stay within their message limit per
//! epoch; a sequencer admits the transactions whose proof verifies; a
//! slasher counts each sender's messages and, past the limit, recovers the
//! sender's identity secret from two of its shares; a contract registers
//! members that hold enough tokens and slashes a member whose secret is
//! revealed.

use vstd::prelude::*;

pub mod address_map;
pub mod event;
pub mod field;
pub mod merkle;
pub mod protocol;
pub mod rln_proof;
pub mod rln_sc;
pub mod sequencer;
pub mod slasher;
pub mod transaction;

verus! {
} // verus!

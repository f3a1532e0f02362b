use vstd::prelude::*;

use crate::rln_proof::RlnProof;
use crate::protocol::ProofValues;

verus! {

/// The chain id that the simulation's transactions carry.
pub const DEFAULT_CHAIN_ID: u64 = 1;

/// An account address; two addresses are the same account exactly when
/// their strings are equal.
#[derive(Debug, Hash)]
pub struct Address(pub String);

impl PartialEq for Address {
    fn eq(&self, other: &Self) -> (r: bool) {
        self.0 == other.0
    }
}

impl vstd::std_specs::cmp::PartialEqSpecImpl for Address {
    open spec fn obeys_eq_spec() -> bool {
        true
    }

    open spec fn eq_spec(&self, other: &Self) -> bool {
        self.0@ == other.0@
    }
}

impl Eq for Address {

}

impl View for Address {
    type V = Seq<char>;

    open spec fn view(&self) -> Seq<char> {
        self.0@
    }
}

impl Clone for Address {
    fn clone(&self) -> (r: Self)
        ensures
            r@ == self@,
    {
        Address(self.0.clone())
    }
}

/// A user transaction: its sender, chain, hash, and the RLN proof that the
/// sender is within its message limit.
#[derive(Debug)]
pub struct Transaction {
    pub sender: Address,
    pub chain_id: u64,
    pub transaction_hash: Vec<u8>,
    pub rln_proof: RlnProof,
}

impl View for Transaction {
    type V = (Seq<char>, u64, Seq<u8>, (Seq<u8>, ProofValues));

    open spec fn view(&self) -> Self::V {
        (self.sender@, self.chain_id, self.transaction_hash@, self.rln_proof@)
    }
}

impl Clone for Transaction {
    fn clone(&self) -> (r: Self)
        ensures
            r@ == self@,
    {
        let hash = self.transaction_hash.clone();
        assert(hash@ == self.transaction_hash@);
        Transaction {
            sender: self.sender.clone(),
            chain_id: self.chain_id,
            transaction_hash: hash,
            rln_proof: self.rln_proof.clone(),
        }
    }
}

} // verus!

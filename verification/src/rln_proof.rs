use vstd::prelude::*;

use crate::field::FieldElement;
use crate::protocol::{
    fe_values, generate_proof, hash_to_field_le, poseidon_hash, proof_values_from_witness, proof_verifies,
    spec_hash_to_field_le, spec_poseidon_hash, values_from_inputs, within_circuit_bounds, ProofValues, RlnWitness,
};

verus! {

/// The depth of the membership tree that the embedded RLN circuit proves
/// against: every Merkle path handed to it has this many levels.
pub const RLN_TREE_DEPTH: usize = 20;

/// An RLN user identity and its message limit.
#[derive(Clone, Copy, Debug, PartialEq, Eq, Structural)]
pub struct RlnUserIdentity {
    pub commitment: FieldElement,
    pub secret_hash: FieldElement,
    pub user_limit: FieldElement,
}

impl From<(FieldElement, FieldElement, FieldElement)> for RlnUserIdentity {
    fn from(parts: (FieldElement, FieldElement, FieldElement)) -> (r: Self) {
        RlnUserIdentity { commitment: parts.0, secret_hash: parts.1, user_limit: parts.2 }
    }
}

impl vstd::std_specs::convert::FromSpecImpl<(FieldElement, FieldElement, FieldElement)> for RlnUserIdentity {
    open spec fn obeys_from_spec() -> bool {
        true
    }

    open spec fn from_spec(parts: (FieldElement, FieldElement, FieldElement)) -> Self {
        RlnUserIdentity { commitment: parts.0, secret_hash: parts.1, user_limit: parts.2 }
    }
}

/// The RLN identifier of an application (a channel or group): the field
/// element that, hashed with an epoch, gives the epoch's external nullifier.
#[derive(Clone, Copy, Debug, PartialEq, Eq, Structural)]
pub struct RlnIdentifier {
    pub identifier: FieldElement,
}

impl RlnIdentifier {
    /// The identifier of an application named by the given bytes.
    pub fn new(identifier: &[u8]) -> (r: Self)
        ensures
            r.identifier@ == spec_hash_to_field_le(identifier@),
    {
        RlnIdentifier { identifier: hash_to_field_le(identifier) }
    }
}

/// What a proof is made for.
#[derive(Clone, Copy, Debug, PartialEq, Eq, Structural)]
pub struct RlnData {
    /// The message index within the epoch.
    pub message_id: FieldElement,
    /// The message or signal, hashed into the field.
    pub data: FieldElement,
}

/// An RLN proof: the compressed Groth16 proof and the public values it
/// attests.
#[derive(Debug)]
pub struct RlnProof {
    pub proof: Vec<u8>,
    pub proof_values: ProofValues,
}

impl View for RlnProof {
    type V = (Seq<u8>, ProofValues);

    open spec fn view(&self) -> Self::V {
        (self.proof@, self.proof_values)
    }
}

impl Clone for RlnProof {
    fn clone(&self) -> (r: Self)
        ensures
            r@ == self@,
    {
        let proof = self.proof.clone();
        assert(proof@ == self.proof@);
        RlnProof { proof, proof_values: rln_proof_values_clone(&self.proof_values) }
    }
}

/// A copy of the public values of a proof.
pub fn rln_proof_values_clone(pv: &ProofValues) -> (r: ProofValues)
    ensures
        r == *pv,
{
    ProofValues {
        y: pv.y,
        nullifier: pv.nullifier,
        root: pv.root,
        x: pv.x,
        external_nullifier: pv.external_nullifier,
    }
}

/// Why no proof was made.
#[derive(Clone, Copy, Debug, PartialEq, Eq, Structural)]
pub enum ProofGenerationError {
    /// The message id (first) exceeds the user's message limit (second).
    MessageIdAboveLimit(FieldElement, FieldElement),
    /// The proving system failed; with the embedded circuit it does not.
    ProvingFailed,
}

/// The external nullifier of an application in an epoch.
pub open spec fn external_nullifier_of(identifier: nat, epoch: nat) -> nat {
    spec_poseidon_hash(seq![identifier, epoch])
}

/// Makes the RLN proof that `user_identity` sends message `rln_data` under
/// the given external nullifier, as the member at the leaf whose Merkle
/// path is given.
pub fn compute_rln_proof_with_external_nullifier(
    user_identity: &RlnUserIdentity,
    rln_data: RlnData,
    external_nullifier: FieldElement,
    path_elements: Vec<FieldElement>,
    identity_path_index: Vec<u8>,
) -> (res: Result<RlnProof, ProofGenerationError>)
    requires
        path_elements@.len() == RLN_TREE_DEPTH,
        identity_path_index@.len() == RLN_TREE_DEPTH,
    ensures
        res is Ok <==> rln_data.message_id@ <= user_identity.user_limit@,
        res matches Err(e) ==> e == ProofGenerationError::MessageIdAboveLimit(
            rln_data.message_id,
            user_identity.user_limit,
        ),
        res matches Ok(p) ==> values_from_inputs(
            user_identity.secret_hash@,
            fe_values(path_elements@),
            identity_path_index@,
            rln_data.data@,
            external_nullifier@,
            user_identity.user_limit@,
            rln_data.message_id@,
            p.proof_values,
        ),
        res matches Ok(p) ==> (within_circuit_bounds(
            rln_data.message_id@,
            user_identity.user_limit@,
            identity_path_index@,
        ) ==> proof_verifies(p.proof@, p.proof_values)),
{
    if !rln_data.message_id.value_le(&user_identity.user_limit) {
        return Err(ProofGenerationError::MessageIdAboveLimit(rln_data.message_id, user_identity.user_limit));
    }
    let witness = RlnWitness {
        identity_secret: user_identity.secret_hash,
        path_elements,
        identity_path_index,
        x: rln_data.data,
        external_nullifier,
        user_message_limit: user_identity.user_limit,
        message_id: rln_data.message_id,
    };
    let proof_values = match proof_values_from_witness(&witness) {
        Ok(v) => v,
        Err(_) => {
            return Err(ProofGenerationError::MessageIdAboveLimit(rln_data.message_id, user_identity.user_limit));
        },
    };
    match generate_proof(&witness) {
        Ok(proof) => Ok(RlnProof { proof, proof_values }),
        Err(_) => Err(ProofGenerationError::ProvingFailed),
    }
}

/// Makes the RLN proof that `user_identity` sends message `rln_data` in
/// `epoch` for the application `rln_identifier`, as the member at the leaf
/// whose Merkle path is given.
pub fn compute_rln_proof_and_values(
    user_identity: &RlnUserIdentity,
    rln_identifier: &RlnIdentifier,
    rln_data: RlnData,
    epoch: FieldElement,
    path_elements: Vec<FieldElement>,
    identity_path_index: Vec<u8>,
) -> (res: Result<RlnProof, ProofGenerationError>)
    requires
        path_elements@.len() == RLN_TREE_DEPTH,
        identity_path_index@.len() == RLN_TREE_DEPTH,
    ensures
        res is Ok <==> rln_data.message_id@ <= user_identity.user_limit@,
        res matches Err(e) ==> e == ProofGenerationError::MessageIdAboveLimit(
            rln_data.message_id,
            user_identity.user_limit,
        ),
        res matches Ok(p) ==> values_from_inputs(
            user_identity.secret_hash@,
            fe_values(path_elements@),
            identity_path_index@,
            rln_data.data@,
            external_nullifier_of(rln_identifier.identifier@, epoch@),
            user_identity.user_limit@,
            rln_data.message_id@,
            p.proof_values,
        ),
        res matches Ok(p) ==> (within_circuit_bounds(
            rln_data.message_id@,
            user_identity.user_limit@,
            identity_path_index@,
        ) ==> proof_verifies(p.proof@, p.proof_values)),
{
    let inputs = [rln_identifier.identifier, epoch];
    proof {
        assert(fe_values(inputs@) =~= seq![rln_identifier.identifier@, epoch@]);
    }
    let external_nullifier = poseidon_hash(&inputs);
    compute_rln_proof_with_external_nullifier(
        user_identity,
        rln_data,
        external_nullifier,
        path_elements,
        identity_path_index,
    )
}

} // verus!

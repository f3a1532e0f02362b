use vstd::prelude::*;

use crate::field::{fr_modulus, FieldElement};

use ark_bn254::{Bn254, Fr};
use ark_ff::{BigInt, PrimeField};
use ark_groth16::Proof;
use ark_serialize::{CanonicalDeserialize, CanonicalSerialize};
use rln::circuit::{graph_from_folder, zkey_from_folder};
use rln::error::{ComputeIdSecretError, ProofError, ProtocolError};
use rln::protocol as rp;
use rln::protocol::{rln_witness_from_values, RLNProofValues};
use rln::utils::IdSecret;

verus! {

#[verifier::external_type_specification]
#[verifier::external_body]
pub struct ExProtocolError(ProtocolError);

#[verifier::external_type_specification]
#[verifier::external_body]
pub struct ExProofError(ProofError);

#[verifier::external_type_specification]
#[verifier::external_body]
pub struct ExComputeIdSecretError(ComputeIdSecretError);

/// The integers of a sequence of field elements.
pub open spec fn fe_values(s: Seq<FieldElement>) -> Seq<nat> {
    s.map_values(|f: FieldElement| f@)
}

/// What `rln::hashers::poseidon_hash` returns for inputs with the given integers.
pub uninterp spec fn spec_poseidon_hash(inputs: Seq<nat>) -> nat;

/// What `rln::hashers::hash_to_field_le` returns for a signal.
pub uninterp spec fn spec_hash_to_field_le(signal: Seq<u8>) -> nat;

/// What Groth16 verification of an RLN proof gives for a compressed proof and its
/// public values: `None` where the bytes are no proof, else the verdict.
pub uninterp spec fn spec_verify_rln_proof(
    proof: Seq<u8>,
    y: nat,
    nullifier: nat,
    root: nat,
    x: nat,
    external_nullifier: nat,
) -> Option<bool>;

/// The public values of an RLN proof: the share `(x, y)`, the nullifier, the
/// Merkle root and the external nullifier.
#[derive(Clone, Copy, Debug, PartialEq, Eq, Structural)]
pub struct ProofValues {
    pub y: FieldElement,
    pub nullifier: FieldElement,
    pub root: FieldElement,
    pub x: FieldElement,
    pub external_nullifier: FieldElement,
}

/// The private and public inputs of the RLN circuit.
#[derive(Debug)]
pub struct RlnWitness {
    pub identity_secret: FieldElement,
    pub path_elements: Vec<FieldElement>,
    pub identity_path_index: Vec<u8>,
    pub x: FieldElement,
    pub external_nullifier: FieldElement,
    pub user_message_limit: FieldElement,
    pub message_id: FieldElement,
}

/// The slope `a_1` of the line on which an identity's shares lie for one
/// external nullifier and message id.
pub open spec fn share_slope(secret: nat, external_nullifier: nat, message_id: nat) -> nat {
    spec_poseidon_hash(seq![secret, external_nullifier, message_id])
}

/// The `y` of the share at `x` on the line `secret + slope * x` of the field.
pub open spec fn share_y(secret: nat, x: nat, slope: nat) -> nat {
    (secret + x * slope) % fr_modulus()
}

/// The leaf of a member in the membership tree: the hash of its identity
/// commitment and its message limit.
pub open spec fn rate_commitment(secret: nat, user_message_limit: nat) -> nat {
    spec_poseidon_hash(seq![spec_poseidon_hash(seq![secret]), user_message_limit])
}

/// The root reached from `leaf` along a Merkle path: at each level the
/// current node is the left child where the index bit is 0.
pub open spec fn root_from_path(leaf: nat, path_elements: Seq<nat>, path_index: Seq<u8>) -> nat
    decreases path_index.len(),
{
    if path_index.len() == 0 {
        leaf
    } else {
        let k = path_index.len() - 1;
        let below = root_from_path(leaf, path_elements, path_index.drop_last());
        if path_index[k] == 0 {
            spec_poseidon_hash(seq![below, path_elements[k]])
        } else {
            spec_poseidon_hash(seq![path_elements[k], below])
        }
    }
}

/// `values` are the public values that the RLN circuit computes from these inputs.
pub open spec fn values_from_inputs(
    secret: nat,
    path_elements: Seq<nat>,
    path_index: Seq<u8>,
    x: nat,
    external_nullifier: nat,
    user_message_limit: nat,
    message_id: nat,
    values: ProofValues,
) -> bool {
    let slope = share_slope(secret, external_nullifier, message_id);
    &&& values.x@ == x
    &&& values.external_nullifier@ == external_nullifier
    &&& values.y@ == share_y(secret, x, slope)
    &&& values.nullifier@ == spec_poseidon_hash(seq![slope])
    &&& values.root@ == root_from_path(
        rate_commitment(secret, user_message_limit),
        path_elements,
        path_index,
    )
}

/// `values` are the public values of the witness `w`.
pub open spec fn values_of_witness(w: RlnWitness, values: ProofValues) -> bool {
    values_from_inputs(
        w.identity_secret@,
        fe_values(w.path_elements@),
        w.identity_path_index@,
        w.x@,
        w.external_nullifier@,
        w.user_message_limit@,
        w.message_id@,
        values,
    )
}

/// The bounds the embedded RLN circuit checks beyond what the library
/// tests: the message id lies below the limit, the limit is at most `2^16`
/// (the width of the circuit's range check), and every index bit of the
/// path is 0 or 1.
pub open spec fn within_circuit_bounds(message_id: nat, user_message_limit: nat, path_index: Seq<u8>) -> bool {
    &&& message_id < user_message_limit
    &&& user_message_limit <= 0x1_0000
    &&& forall|k: int| 0 <= k < path_index.len() ==> path_index[k] <= 1
}

/// The compressed proof verifies against the public values.
pub open spec fn proof_verifies(proof: Seq<u8>, values: ProofValues) -> bool {
    spec_verify_rln_proof(proof, values.y@, values.nullifier@, values.root@, values.x@, values.external_nullifier@)
        == Some(true)
}

/// Public values computed from the same inputs are the same values.
pub proof fn lemma_values_from_inputs_unique(
    secret: nat,
    path_elements: Seq<nat>,
    path_index: Seq<u8>,
    x: nat,
    external_nullifier: nat,
    user_message_limit: nat,
    message_id: nat,
    values_1: ProofValues,
    values_2: ProofValues,
)
    requires
        values_from_inputs(secret, path_elements, path_index, x, external_nullifier, user_message_limit, message_id, values_1),
        values_from_inputs(secret, path_elements, path_index, x, external_nullifier, user_message_limit, message_id, values_2),
    ensures
        values_1 == values_2,
{
    FieldElement::lemma_view_injective(values_1.y, values_2.y);
    FieldElement::lemma_view_injective(values_1.nullifier, values_2.nullifier);
    FieldElement::lemma_view_injective(values_1.root, values_2.root);
    FieldElement::lemma_view_injective(values_1.x, values_2.x);
    FieldElement::lemma_view_injective(values_1.external_nullifier, values_2.external_nullifier);
}

/// `s` is the intercept of the line through the shares `(x1, y1)` and
/// `(x2, y2)`: `s = y1 - x1 * (y1 - y2) / (x1 - x2)` in the field, where the
/// division multiplies by the inverse of `x1 - x2`.
pub open spec fn recovers_secret(x1: nat, y1: nat, x2: nat, y2: nat, s: nat) -> bool {
    let p = fr_modulus() as int;
    exists|inv: int|
        #![trigger ((x1 - x2) * inv) % p]
        0 <= inv < p && ((x1 - x2) * inv) % p == 1 && s == (y1 - x1 * (((y1 - y2) * inv) % p)) % p
}

/// Calls `rln::hashers::poseidon_hash`, which supports one to eight inputs
/// and returns a field element that depends on the inputs alone.
#[verifier::external_body]
pub(crate) fn poseidon_hash(inputs: &[FieldElement]) -> (res: FieldElement)
    requires
        1 <= inputs@.len() <= 8,
    ensures
        res@ == spec_poseidon_hash(fe_values(inputs@)),
{
    let frs: Vec<Fr> = inputs.iter().map(|f| Fr::from(BigInt::new(f.limbs()))).collect();
    FieldElement::from_canonical_limbs(rln::hashers::poseidon_hash(&frs).into_bigint().0)
}

/// Calls `rln::hashers::hash_to_field_le`: the Keccak-256 digest of the
/// signal, read as a little-endian integer and reduced into the field.
#[verifier::external_body]
pub(crate) fn hash_to_field_le(signal: &[u8]) -> (res: FieldElement)
    ensures
        res@ == spec_hash_to_field_le(signal@),
{
    FieldElement::from_canonical_limbs(rln::hashers::hash_to_field_le(signal).into_bigint().0)
}

/// Calls `rln::protocol::proof_values_from_witness` on the witness that
/// `rln::protocol::rln_witness_from_values` builds from `w`. Both refuse only
/// a message id above the limit; past that test the values are
/// the share `y = secret + x * a_1` with `a_1 = poseidon(secret, external
/// nullifier, message id)`, the nullifier `poseidon(a_1)`, and the root that
/// `compute_tree_root` folds from the rate commitment along the path, which
/// reads one path element for each index bit.
#[verifier::external_body]
pub(crate) fn proof_values_from_witness(w: &RlnWitness) -> (res: Result<ProofValues, ProtocolError>)
    requires
        w.message_id@ <= w.user_message_limit@,
        w.identity_path_index@.len() <= w.path_elements@.len(),
    ensures
        res is Ok,
        res matches Ok(v) ==> values_of_witness(*w, v),
{
    let fr = |f: &FieldElement| Fr::from(BigInt::new(f.limbs()));
    let fe = |v: Fr| FieldElement::from_canonical_limbs(v.into_bigint().0);
    let rw = rln_witness_from_values(IdSecret::from(&mut fr(&w.identity_secret)),
        w.path_elements.iter().map(fr).collect(), w.identity_path_index.clone(), fr(&w.x),
        fr(&w.external_nullifier), fr(&w.user_message_limit), fr(&w.message_id))?;
    let v = rp::proof_values_from_witness(&rw)?;
    Ok(ProofValues { y: fe(v.y), nullifier: fe(v.nullifier), root: fe(v.root), x: fe(v.x),
        external_nullifier: fe(v.external_nullifier) })
}

/// Calls `rln::protocol::generate_proof` with the proving key and witness
/// graph that rln embeds for trees of depth 20, on the witness that
/// `rln_witness_from_values` builds from `w`, and returns the proof in
/// compressed form. The witness graph panics unless both path vectors have
/// 20 entries. Past the message-id test, its only errors come from the size
/// of the embedded circuit, which is fixed, so it succeeds. The proof is
/// randomised, so its bytes are not stated; what is stated is Groth16
/// completeness: where the witness meets the circuit's bounds, the proof
/// verifies against the public values of the witness.
#[verifier::external_body]
pub(crate) fn generate_proof(w: &RlnWitness) -> (res: Result<Vec<u8>, ProofError>)
    requires
        w.message_id@ <= w.user_message_limit@,
        w.path_elements@.len() == 20,
        w.identity_path_index@.len() == 20,
    ensures
        res is Ok,
        res matches Ok(p) ==> (within_circuit_bounds(w.message_id@, w.user_message_limit@, w.identity_path_index@)
            ==> forall|v: ProofValues| values_of_witness(*w, v) ==> #[trigger] proof_verifies(p@, v)),
{
    let fr = |f: &FieldElement| Fr::from(BigInt::new(f.limbs()));
    let rw = rln_witness_from_values(IdSecret::from(&mut fr(&w.identity_secret)),
        w.path_elements.iter().map(fr).collect(), w.identity_path_index.clone(), fr(&w.x),
        fr(&w.external_nullifier), fr(&w.user_message_limit), fr(&w.message_id))?;
    let proof = rp::generate_proof(zkey_from_folder(), &rw, graph_from_folder())?;
    let mut bytes = Vec::new();
    let _ = proof.serialize_compressed(&mut bytes);
    Ok(bytes)
}

/// Calls `rln::protocol::verify_proof` with the verifying key that rln
/// embeds, on the proof that the compressed bytes decode to. `None` where the
/// bytes do not decode or verification itself fails, else its verdict.
#[verifier::external_body]
pub(crate) fn verify_proof(proof: &[u8], values: &ProofValues) -> (res: Option<bool>)
    ensures
        res == spec_verify_rln_proof(proof@, values.y@, values.nullifier@, values.root@,
            values.x@, values.external_nullifier@),
{
    let fr = |f: &FieldElement| Fr::from(BigInt::new(f.limbs()));
    let pv = RLNProofValues { y: fr(&values.y), nullifier: fr(&values.nullifier),
        root: fr(&values.root), x: fr(&values.x), external_nullifier: fr(&values.external_nullifier) };
    match Proof::<Bn254>::deserialize_compressed(proof) {
        Ok(p) => rp::verify_proof(&zkey_from_folder().0.vk, &p, &pv).ok(),
        Err(_) => None,
    }
}

/// Calls `rln::protocol::compute_id_secret`: it fails exactly where the two
/// `x` are equal, and otherwise returns `y1 - x1 * (y1 - y2) / (x1 - x2)`
/// computed in the field.
#[verifier::external_body]
pub(crate) fn compute_id_secret(
    x1: &FieldElement,
    y1: &FieldElement,
    x2: &FieldElement,
    y2: &FieldElement,
) -> (res: Result<FieldElement, ComputeIdSecretError>)
    ensures
        res is Err <==> x1@ == x2@,
        res matches Ok(s) ==> recovers_secret(x1@, y1@, x2@, y2@, s@),
{
    let fr = |f: &FieldElement| Fr::from(BigInt::new(f.limbs()));
    let s = rp::compute_id_secret((fr(x1), fr(y1)), (fr(x2), fr(y2)))?;
    Ok(FieldElement::from_canonical_limbs(s.into_bigint().0))
}

/// Two shares on one line with distinct `x` give back the line's intercept:
/// the value that `recovers_secret` admits is the identity secret.
pub proof fn lemma_shares_reveal_secret(secret: nat, slope: nat, x1: nat, x2: nat, s: nat)
    requires
        secret < fr_modulus(),
        x1 != x2,
        recovers_secret(x1, share_y(secret, x1, slope), x2, share_y(secret, x2, slope), s),
    ensures
        s == secret,
{
    let p = fr_modulus() as int;
    let y1 = share_y(secret, x1, slope) as int;
    let y2 = share_y(secret, x2, slope) as int;
    let inv = choose|inv: int|
        #![trigger ((x1 - x2) * inv) % p]
        0 <= inv < p && ((x1 - x2) * inv) % p == 1 && s == (y1 - x1 * (((y1 - y2) * inv) % p)) % p;
    let d = x1 - x2;
    let a0 = secret as int;
    let a1 = slope as int;
    let q = ((y1 - y2) * inv) % p;
    let e1 = a0 + x1 * a1;
    let e2 = a0 + x2 * a1;
    let k1 = e1 / p;
    let k2 = e2 / p;
    let k3 = ((y1 - y2) * inv) / p;
    let k4 = (d * inv) / p;
    let t = y1 - x1 * q;
    let k5 = t / p;
    assert(p > 0);
    vstd::arithmetic::div_mod::lemma_fundamental_div_mod(e1, p);
    vstd::arithmetic::div_mod::lemma_fundamental_div_mod(e2, p);
    vstd::arithmetic::div_mod::lemma_fundamental_div_mod((y1 - y2) * inv, p);
    vstd::arithmetic::div_mod::lemma_fundamental_div_mod(d * inv, p);
    vstd::arithmetic::div_mod::lemma_fundamental_div_mod(t, p);
    assert(y1 == e1 - p * k1);
    assert(y2 == e2 - p * k2);
    assert(q == (y1 - y2) * inv - p * k3);
    assert(d * inv == 1 + p * k4);
    assert(s == t - p * k5);
    assert(y1 - y2 == d * a1 - p * (k1 - k2)) by (nonlinear_arith)
        requires
            y1 == e1 - p * k1,
            y2 == e2 - p * k2,
            e1 == a0 + x1 * a1,
            e2 == a0 + x2 * a1,
            d == x1 - x2,
    ;
    let r = k1 - k2;
    let n = a1 * k4 - r * inv - k3;
    assert((y1 - y2) * inv == a1 * (d * inv) - p * (r * inv)) by (nonlinear_arith)
        requires
            y1 - y2 == d * a1 - p * r,
    ;
    assert(a1 * (d * inv) == a1 + p * (a1 * k4)) by (nonlinear_arith)
        requires
            d * inv == 1 + p * k4,
    ;
    assert(q == a1 + p * n) by (nonlinear_arith)
        requires
            q == (y1 - y2) * inv - p * k3,
            (y1 - y2) * inv == a1 * (d * inv) - p * (r * inv),
            a1 * (d * inv) == a1 + p * (a1 * k4),
            n == a1 * k4 - r * inv - k3,
    ;
    assert(x1 * q == x1 * a1 + p * (x1 * n)) by (nonlinear_arith)
        requires
            q == a1 + p * n,
    ;
    let m = -k1 - k5 - x1 * n;
    assert(s - a0 == p * m) by (nonlinear_arith)
        requires
            s == t - p * k5,
            t == y1 - x1 * q,
            y1 == e1 - p * k1,
            e1 == a0 + x1 * a1,
            x1 * q == x1 * a1 + p * (x1 * n),
            m == -k1 - k5 - x1 * n,
    ;
    assert(0 <= s < p) by {
        vstd::arithmetic::div_mod::lemma_mod_bound(t, p);
    }
    assert(m == 0) by (nonlinear_arith)
        requires
            s - a0 == p * m,
            0 <= s < p,
            0 <= a0 < p,
    ;
}

/// Two proofs that one identity makes for the same external nullifier (one
/// epoch of one application) and the same message id carry the same
/// nullifier; where their signals differ, the secret that their shares give
/// back is the identity secret.
pub proof fn lemma_double_signal_reveals_secret(
    secret: nat,
    external_nullifier: nat,
    user_message_limit: nat,
    message_id: nat,
    path_elements_1: Seq<nat>,
    path_index_1: Seq<u8>,
    x1: nat,
    values_1: ProofValues,
    path_elements_2: Seq<nat>,
    path_index_2: Seq<u8>,
    x2: nat,
    values_2: ProofValues,
    recovered: nat,
)
    requires
        secret < fr_modulus(),
        values_from_inputs(secret, path_elements_1, path_index_1, x1, external_nullifier, user_message_limit, message_id, values_1),
        values_from_inputs(secret, path_elements_2, path_index_2, x2, external_nullifier, user_message_limit, message_id, values_2),
        x1 != x2,
        recovers_secret(values_1.x@, values_1.y@, values_2.x@, values_2.y@, recovered),
    ensures
        values_1.nullifier@ == values_2.nullifier@,
        values_1.external_nullifier@ == values_2.external_nullifier@,
        values_1.x@ != values_2.x@,
        values_1.y@ == share_y(secret, values_1.x@, share_slope(secret, external_nullifier, message_id)),
        values_2.y@ == share_y(secret, values_2.x@, share_slope(secret, external_nullifier, message_id)),
        ((values_1.y@ - secret) * values_2.x@) % (fr_modulus() as int) == ((values_2.y@ - secret) * values_1.x@)
            % (fr_modulus() as int),
        recovered == secret,
{
    let slope = share_slope(secret, external_nullifier, message_id);
    lemma_shares_reveal_secret(secret, slope, x1, x2, recovered);
    let p = fr_modulus() as int;
    let a = slope as int;
    let s = secret as int;
    let e1 = s + x1 * a;
    let e2 = s + x2 * a;
    let k1 = e1 / p;
    let k2 = e2 / p;
    vstd::arithmetic::div_mod::lemma_fundamental_div_mod(e1, p);
    vstd::arithmetic::div_mod::lemma_fundamental_div_mod(e2, p);
    let y1 = values_1.y@ as int;
    let y2 = values_2.y@ as int;
    assert(y1 == e1 - p * k1);
    assert(y2 == e2 - p * k2);
    let k = k2 * x1 - k1 * x2;
    assert((y1 - s) * x2 == p * k + (y2 - s) * x1) by (nonlinear_arith)
        requires
            y1 == e1 - p * k1,
            y2 == e2 - p * k2,
            e1 == s + x1 * a,
            e2 == s + x2 * a,
            k == k2 * x1 - k1 * x2,
    ;
    vstd::arithmetic::div_mod::lemma_mod_multiples_vanish(k, (y2 - s) * x1, p);
}

/// The secret that `recovers_secret` admits for two shares of the field is
/// the intercept of a line through both: there is a slope on which both
/// shares lie.
pub proof fn lemma_recovered_line(x1: nat, y1: nat, x2: nat, y2: nat, s: nat) -> (slope: nat)
    requires
        x1 < fr_modulus(),
        x2 < fr_modulus(),
        y1 < fr_modulus(),
        y2 < fr_modulus(),
        recovers_secret(x1, y1, x2, y2, s),
    ensures
        share_y(s, x1, slope) == y1,
        share_y(s, x2, slope) == y2,
{
    let p = fr_modulus() as int;
    let inv = choose|inv: int|
        #![trigger ((x1 - x2) * inv) % p]
        0 <= inv < p && ((x1 - x2) * inv) % p == 1 && s == (y1 - x1 * (((y1 - y2) * inv) % p)) % p;
    let d = x1 - x2;
    let q = ((y1 - y2) * inv) % p;
    let t = y1 - x1 * q;
    let k3 = ((y1 - y2) * inv) / p;
    let k4 = (d * inv) / p;
    let k5 = t / p;
    assert(p > 0);
    vstd::arithmetic::div_mod::lemma_fundamental_div_mod((y1 - y2) * inv, p);
    vstd::arithmetic::div_mod::lemma_fundamental_div_mod(d * inv, p);
    vstd::arithmetic::div_mod::lemma_fundamental_div_mod(t, p);
    vstd::arithmetic::div_mod::lemma_mod_bound((y1 - y2) * inv, p);
    assert(q == (y1 - y2) * inv - p * k3);
    assert(d * inv == 1 + p * k4);
    assert(s == t - p * k5);
    let slope = q as nat;
    assert(s + x1 * slope == y1 + p * (-k5));
    vstd::arithmetic::div_mod::lemma_fundamental_div_mod_converse((s + x1 * slope) as int, p, -k5, y1 as int);
    let k = d * k3 - (y1 - y2) * k4 - k5;
    let e = y1 - y2;
    assert(x1 * q - x2 * q == d * q) by (nonlinear_arith)
        requires
            d == x1 - x2,
    ;
    assert(d * q == e * (d * inv) - p * (d * k3)) by (nonlinear_arith)
        requires
            q == e * inv - p * k3,
    ;
    assert(e * (d * inv) == e + p * (e * k4)) by (nonlinear_arith)
        requires
            d * inv == 1 + p * k4,
    ;
    assert(s + x2 * q == y2 + p * k) by (nonlinear_arith)
        requires
            s == t - p * k5,
            t == y1 - x1 * q,
            x1 * q - x2 * q == d * q,
            d * q == e * (d * inv) - p * (d * k3),
            e * (d * inv) == e + p * (e * k4),
            e == y1 - y2,
            k == d * k3 - e * k4 - k5,
    ;
    vstd::arithmetic::div_mod::lemma_fundamental_div_mod_converse((s + x2 * slope) as int, p, k, y2 as int);
    slope
}

/// The secret recovered from two shares does not depend on their order.
pub proof fn lemma_recovery_ignores_order(x1: nat, y1: nat, x2: nat, y2: nat, s: nat, t: nat)
    requires
        x1 < fr_modulus(),
        x2 < fr_modulus(),
        y1 < fr_modulus(),
        y2 < fr_modulus(),
        x1 != x2,
        recovers_secret(x1, y1, x2, y2, s),
        recovers_secret(x2, y2, x1, y1, t),
    ensures
        s == t,
{
    let p = fr_modulus() as int;
    let slope = lemma_recovered_line(x1, y1, x2, y2, s);
    let inv = choose|inv: int|
        #![trigger ((x1 - x2) * inv) % p]
        0 <= inv < p && ((x1 - x2) * inv) % p == 1 && s == (y1 - x1 * (((y1 - y2) * inv) % p)) % p;
    vstd::arithmetic::div_mod::lemma_mod_bound(y1 - x1 * (((y1 - y2) * inv) % p), p);
    lemma_shares_reveal_secret(s, slope, x2, x1, t);
}

} // verus!

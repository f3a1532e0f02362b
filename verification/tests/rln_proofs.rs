use ark_bn254::Fr;
use ark_ff::{BigInt, PrimeField};
use gasless_rln::event::SimulationEvent;
use gasless_rln::field::FieldElement;
use gasless_rln::rln_proof::{
    compute_rln_proof_and_values, compute_rln_proof_with_external_nullifier, rln_proof_values_clone, ProofGenerationError, RlnData, RlnIdentifier, RlnUserIdentity,
};
use gasless_rln::sequencer::SequencerService;
use gasless_rln::transaction::{Address, Transaction, DEFAULT_CHAIN_ID};
use rln::hashers::{hash_to_field_le, poseidon_hash};
use rln::protocol::{keygen, proof_values_from_witness, rln_witness_from_values};
use rln::utils::IdSecret;

fn fe(v: Fr) -> FieldElement {
    FieldElement::from_limbs(v.into_bigint().0).unwrap()
}

fn fr(f: &FieldElement) -> Fr {
    Fr::from(BigInt::new(f.limbs()))
}

#[test]
fn identifier_is_the_hash_of_its_name() {
    let id = RlnIdentifier::new(b"test-rln-identifier");
    assert_eq!(fr(&id.identifier), hash_to_field_le(b"test-rln-identifier"));
    assert_ne!(id.identifier, RlnIdentifier::new(b"other").identifier);
}

#[test]
fn identity_from_tuple_keeps_the_order() {
    let a = FieldElement::from_u64(1);
    let b = FieldElement::from_u64(2);
    let c = FieldElement::from_u64(3);
    let id = RlnUserIdentity::from((a, b, c));
    assert_eq!(id, RlnUserIdentity { commitment: a, secret_hash: b, user_limit: c });
}

#[test]
fn message_id_above_limit_is_refused() {
    let id = RlnUserIdentity {
        commitment: FieldElement::from_u64(1),
        secret_hash: FieldElement::from_u64(2),
        user_limit: FieldElement::from_u64(3),
    };
    let r = compute_rln_proof_and_values(
        &id,
        &RlnIdentifier::new(b"x"),
        RlnData { message_id: FieldElement::from_u64(4), data: FieldElement::from_u64(5) },
        FieldElement::from_u64(0),
        vec![FieldElement::zero(); 20],
        vec![0u8; 20],
    );
    assert_eq!(
        r.err(),
        Some(ProofGenerationError::MessageIdAboveLimit(FieldElement::from_u64(4), FieldElement::from_u64(3)))
    );
    let r = compute_rln_proof_with_external_nullifier(
        &id,
        RlnData { message_id: FieldElement::from_u64(4), data: FieldElement::from_u64(5) },
        FieldElement::from_u64(9),
        vec![FieldElement::zero(); 20],
        vec![0u8; 20],
    );
    assert_eq!(
        r.err(),
        Some(ProofGenerationError::MessageIdAboveLimit(FieldElement::from_u64(4), FieldElement::from_u64(3)))
    );
}

#[test]
fn proof_values_match_rln_and_the_proof_verifies() {
    let (secret, commitment) = keygen();
    let id = RlnUserIdentity { commitment: fe(commitment), secret_hash: fe(*secret), user_limit: FieldElement::from_u64(5) };
    let identifier = RlnIdentifier::new(b"app");
    let epoch = FieldElement::from_u64(3);
    let data = fe(hash_to_field_le(b"hello"));
    let path: Vec<FieldElement> = (0..20u64).map(FieldElement::from_u64).collect();
    let index: Vec<u8> = (0..20u8).map(|i| i % 2).collect();
    let proof = compute_rln_proof_and_values(
        &id,
        &identifier,
        RlnData { message_id: FieldElement::from_u64(4), data },
        epoch,
        path.clone(),
        index.clone(),
    )
    .unwrap();

    let external_nullifier = poseidon_hash(&[fr(&identifier.identifier), fr(&epoch)]);
    let mut s = *secret;
    let w = rln_witness_from_values(
        IdSecret::from(&mut s),
        path.iter().map(fr).collect(),
        index.clone(),
        fr(&data),
        external_nullifier,
        Fr::from(5u64),
        Fr::from(4u64),
    )
    .unwrap();
    let expected = proof_values_from_witness(&w).unwrap();
    let v = rln_proof_values_clone(&proof.proof_values);
    assert_eq!(fr(&v.x), expected.x);
    assert_eq!(fr(&v.y), expected.y);
    assert_eq!(fr(&v.nullifier), expected.nullifier);
    assert_eq!(fr(&v.root), expected.root);
    assert_eq!(fr(&v.external_nullifier), expected.external_nullifier);
    assert_eq!(v, proof.proof_values);

    let tx = Transaction {
        sender: Address("a".to_string()),
        chain_id: DEFAULT_CHAIN_ID,
        transaction_hash: b"hello".to_vec(),
        rln_proof: proof.clone(),
    };
    assert!(SequencerService::verify_transaction(&tx));

    let mut sequencer = SequencerService::new();
    match sequencer.process_transaction(tx.clone()) {
        SimulationEvent::SequencerAddToMempool(t) => assert_eq!(t.rln_proof.proof, proof.proof),
        other => panic!("unexpected event {:?}", other),
    }
    assert_eq!(sequencer.tx_mempool().len(), 1);

    // A proof for other public values does not verify.
    let mut forged = tx.clone();
    forged.rln_proof.proof_values.x = FieldElement::from_u64(1234);
    assert!(!SequencerService::verify_transaction(&forged));
    match sequencer.process_transaction(forged) {
        SimulationEvent::SequencerVerifyError(_) => {},
        other => panic!("unexpected event {:?}", other),
    }
    // A verdict handed in decides admission.
    let mut other = SequencerService::new();
    match other.admit_transaction(tx.clone(), false) {
        SimulationEvent::SequencerVerifyError(t) => assert_eq!(t.transaction_hash, b"hello".to_vec()),
        e => panic!("unexpected event {:?}", e),
    }
    assert_eq!(other.tx_mempool().len(), 0);
    match other.admit_transaction(tx.clone(), true) {
        SimulationEvent::SequencerAddToMempool(t) => assert_eq!(t.rln_proof.proof, proof.proof),
        e => panic!("unexpected event {:?}", e),
    }
    assert_eq!(other.tx_mempool().len(), 1);
    // Bytes that are no proof do not verify.
    let mut garbage = tx.clone();
    garbage.rln_proof.proof = vec![1, 2, 3];
    assert!(!SequencerService::verify_transaction(&garbage));
    assert_eq!(sequencer.tx_mempool().len(), 1);
}

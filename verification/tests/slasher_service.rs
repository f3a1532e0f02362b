use ark_bn254::Fr;
use ark_ff::{BigInt, PrimeField};
use gasless_rln::field::FieldElement;
use gasless_rln::protocol::ProofValues;
use gasless_rln::rln_proof::RlnProof;
use gasless_rln::rln_sc::RlnScCommand;
use gasless_rln::slasher::{
    recover, slash_command, Db, DbEntry, RecoverError, SlasherService, SlasherServiceConfig, SlashingData,
};
use gasless_rln::transaction::{Address, Transaction, DEFAULT_CHAIN_ID};
use rln::hashers::poseidon_hash;
use rln::protocol::{keygen, proof_values_from_witness, rln_witness_from_values};
use rln::utils::IdSecret;

fn fe(v: Fr) -> FieldElement {
    FieldElement::from_limbs(v.into_bigint().0).unwrap()
}

fn fr(f: &FieldElement) -> Fr {
    Fr::from(BigInt::new(f.limbs()))
}

fn share(x: u64, y: u64) -> RlnProof {
    let zero = FieldElement::zero();
    RlnProof {
        proof: vec![x as u8],
        proof_values: ProofValues {
            y: FieldElement::from_u64(y),
            nullifier: zero,
            root: zero,
            x: FieldElement::from_u64(x),
            external_nullifier: zero,
        },
    }
}

fn tx(sender: &str, proof: RlnProof) -> Transaction {
    Transaction {
        sender: Address(sender.to_string()),
        chain_id: DEFAULT_CHAIN_ID,
        transaction_hash: b"AAA".to_vec(),
        rln_proof: proof,
    }
}

/// The proof values that rln itself computes for a secret, signal and message id.
fn rln_values(secret: Fr, x: Fr, external_nullifier: Fr, limit: u64, message_id: u64) -> ProofValues {
    let mut s = secret;
    let w = rln_witness_from_values(
        IdSecret::from(&mut s),
        vec![Fr::from(0u64); 20],
        vec![0u8; 20],
        x,
        external_nullifier,
        Fr::from(limit),
        Fr::from(message_id),
    )
    .unwrap();
    let v = proof_values_from_witness(&w).unwrap();
    ProofValues {
        y: fe(v.y),
        nullifier: fe(v.nullifier),
        root: fe(v.root),
        x: fe(v.x),
        external_nullifier: fe(v.external_nullifier),
    }
}

#[test]
fn db_entry_keeps_the_last_two_proofs_oldest_first() {
    let mut e = DbEntry::default();
    assert_eq!(e.seen_proof_count, 0);
    e.set_proof(&share(1, 1));
    assert_eq!(e.seen_proof_count, 1);
    assert_eq!(e.proof_1.as_ref().unwrap().proof, vec![1]);
    assert!(e.proof_2.is_none());
    e.set_proof(&share(2, 2));
    assert_eq!(e.proof_1.as_ref().unwrap().proof, vec![1]);
    assert_eq!(e.proof_2.as_ref().unwrap().proof, vec![2]);
    e.set_proof(&share(3, 3));
    assert_eq!(e.seen_proof_count, 3);
    assert_eq!(e.proof_1.as_ref().unwrap().proof, vec![2]);
    assert_eq!(e.proof_2.as_ref().unwrap().proof, vec![3]);
    e.set_proof(&share(4, 4));
    assert_eq!(e.proof_1.as_ref().unwrap().proof, vec![3]);
    assert_eq!(e.proof_2.as_ref().unwrap().proof, vec![4]);
    assert_eq!(e.seen_proof_count, 4);
}

#[test]
fn db_counts_each_sender_apart() {
    let mut db = Db::new();
    let alice = Address("alice".to_string());
    let bob = Address("bob".to_string());
    let e = db.insert_proof(&alice, &share(1, 1));
    assert_eq!(e.seen_proof_count, 1);
    let e = db.insert_proof(&bob, &share(2, 2));
    assert_eq!(e.seen_proof_count, 1);
    assert_eq!(e.proof_1.unwrap().proof, vec![2]);
    let e = db.insert_proof(&alice, &share(3, 3));
    assert_eq!(e.seen_proof_count, 2);
    assert_eq!(e.proof_1.unwrap().proof, vec![1]);
    assert_eq!(e.proof_2.unwrap().proof, vec![3]);
}

#[test]
fn slasher_reports_a_sender_at_its_limit() {
    let mut slasher = SlasherService::new(SlasherServiceConfig { rln_limit: 3 });
    assert!(slasher.process_transaction(tx("alice", share(1, 10))).is_none());
    assert!(slasher.process_transaction(tx("bob", share(1, 10))).is_none());
    assert!(slasher.process_transaction(tx("alice", share(2, 13))).is_none());
    let data = slasher.process_transaction(tx("alice", share(3, 16))).unwrap();
    assert_eq!(data.sender, Address("alice".to_string()));
    assert_eq!(data.proof_1.proof, vec![2]);
    assert_eq!(data.proof_2.proof, vec![3]);
    // Every further message of the sender is reported again.
    let data = slasher.process_transaction(tx("alice", share(4, 19))).unwrap();
    assert_eq!(data.proof_1.proof, vec![3]);
    assert_eq!(data.proof_2.proof, vec![4]);
    assert!(slasher.process_transaction(tx("bob", share(2, 13))).is_none());
}

#[test]
fn recover_gives_the_intercept_of_the_share_line() {
    // The line 7 + 3 x through (1, 10) and (2, 13).
    let data = SlashingData { proof_1: share(1, 10), proof_2: share(2, 13), sender: Address("a".to_string()) };
    assert_eq!(recover(data), Ok(FieldElement::from_u64(7)));
    // The order of the shares does not matter.
    let data = SlashingData { proof_1: share(5, 22), proof_2: share(2, 13), sender: Address("a".to_string()) };
    assert_eq!(recover(data), Ok(FieldElement::from_u64(7)));
}

#[test]
fn recover_refuses_two_shares_at_one_signal() {
    let data = SlashingData { proof_1: share(4, 10), proof_2: share(4, 13), sender: Address("a".to_string()) };
    assert_eq!(recover(data), Err(RecoverError::SameSignal));
}

#[test]
fn two_signals_in_one_epoch_reveal_the_identity_secret() {
    let (secret, commitment) = keygen();
    let secret = *secret;
    let external_nullifier = poseidon_hash(&[Fr::from(11u64), Fr::from(0u64)]);
    let v1 = rln_values(secret, Fr::from(1000u64), external_nullifier, 10, 3);
    let v2 = rln_values(secret, Fr::from(2000u64), external_nullifier, 10, 3);
    assert_eq!(v1.nullifier, v2.nullifier);
    let data = SlashingData {
        proof_1: RlnProof { proof: vec![], proof_values: v1 },
        proof_2: RlnProof { proof: vec![], proof_values: v2 },
        sender: Address("a".to_string()),
    };
    let recovered = recover(data).unwrap();
    assert_eq!(recovered, fe(secret));
    assert_eq!(poseidon_hash(&[fr(&recovered)]), commitment);
}

#[test]
fn slash_command_names_the_sender_and_its_secret() {
    let data = SlashingData { proof_1: share(1, 10), proof_2: share(2, 13), sender: Address("eve".to_string()) };
    match slash_command(data) {
        Ok(RlnScCommand::Slash(a, s)) => {
            assert_eq!(a, Address("eve".to_string()));
            assert_eq!(s, FieldElement::from_u64(7));
        },
        Err(e) => panic!("unexpected error {:?}", e),
    }
    let data = SlashingData { proof_1: share(2, 10), proof_2: share(2, 13), sender: Address("eve".to_string()) };
    assert!(slash_command(data).is_err());
}

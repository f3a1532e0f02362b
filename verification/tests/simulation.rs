use ark_bn254::Fr;
use ark_ff::{BigInt, PrimeField};
use gasless_rln::event::SimulationEvent;
use gasless_rln::field::FieldElement;
use gasless_rln::merkle::MerklePath;
use gasless_rln::rln_proof::{compute_rln_proof_and_values, RlnData, RlnIdentifier, RlnUserIdentity};
use gasless_rln::rln_sc::{RLnScService, RlnScServiceConfig};
use gasless_rln::sequencer::SequencerService;
use gasless_rln::slasher::{slash_command, SlasherService, SlasherServiceConfig};
use gasless_rln::transaction::{Address, Transaction, DEFAULT_CHAIN_ID};
use rln::hashers::hash_to_field_le;
use rln::protocol::keygen;

const DEFAULT_MERKLE_TREE_DEPTH: usize = 20;

fn fe(v: Fr) -> FieldElement {
    FieldElement::from_limbs(v.into_bigint().0).unwrap()
}

fn new_identity(rln_limit: u64) -> RlnUserIdentity {
    let (id_secret, id_co) = keygen();
    RlnUserIdentity { commitment: fe(id_co), secret_hash: fe(*id_secret), user_limit: FieldElement::from_u64(rln_limit) }
}

fn create_transaction(
    sender: Address,
    tx_hash: Vec<u8>,
    message_id: FieldElement,
    rln_user_id: &RlnUserIdentity,
    epoch: FieldElement,
    merkle_proof: &MerklePath,
) -> Transaction {
    let rln_identifier = RlnIdentifier::new("test-rln-identifier".as_bytes());
    let rln_data = RlnData { message_id, data: fe(hash_to_field_le(tx_hash.as_slice())) };
    let rln_proof = compute_rln_proof_and_values(
        rln_user_id,
        &rln_identifier,
        rln_data,
        epoch,
        merkle_proof.path_elements.clone(),
        merkle_proof.path_index.clone(),
    )
    .unwrap();
    Transaction { sender, chain_id: DEFAULT_CHAIN_ID, transaction_hash: tx_hash, rln_proof }
}

/// Runs the sequencer, then the slasher and the contract, on each
/// transaction, and gathers their events in that order.
fn run(
    txs: Vec<Transaction>,
    sequencer: &mut SequencerService,
    slasher: &mut SlasherService,
    rln_sc: &mut RLnScService,
) -> Vec<SimulationEvent> {
    let mut events = Vec::new();
    for tx in txs.iter() {
        events.push(sequencer.process_transaction(tx.clone()));
    }
    for tx in txs {
        if let Some(data) = slasher.process_transaction(tx) {
            if let Ok(cmd) = slash_command(data) {
                if let Some(event) = rln_sc.handle_command(cmd).unwrap() {
                    events.push(event);
                }
            }
        }
    }
    events
}

#[test]
fn test_add_to_mempool() {
    let rln_limit = 10;
    let min_token_amount_for_registration = 10;
    let epoch = FieldElement::from_u64(0);

    let cfg = RlnScServiceConfig { rln_limit, min_token_amount_for_registration };
    let mut rln_sc_service = RLnScService::new(cfg, DEFAULT_MERKLE_TREE_DEPTH).unwrap();

    let user_1 = Address("0xf39Fd6e51aad88F6F4ce6aB8827279cffFb92266".to_string());
    let user_1_rln_identity = new_identity(rln_limit);
    let tx_1_hash = b"AAA".to_vec();
    let tx_2_hash = b"12345".to_vec();

    rln_sc_service.mint(user_1.clone(), min_token_amount_for_registration * 5);
    let user_1_idx = rln_sc_service.register_user(user_1.clone(), user_1_rln_identity.commitment).unwrap();

    let mt_proof = rln_sc_service.get_merkle_proof(user_1_idx).unwrap();
    let tx_1 = create_transaction(user_1.clone(), tx_1_hash, FieldElement::from_u64(0), &user_1_rln_identity, epoch, &mt_proof);
    let tx_2 = create_transaction(user_1.clone(), tx_2_hash, FieldElement::from_u64(1), &user_1_rln_identity, epoch, &mt_proof);

    let user_2 = Address("0xf39Fd6e51aad88F6F4ce6aB8827279cffFb92266".to_string());
    let user_2_rln_identity = new_identity(rln_limit);
    let u2_tx_1_hash = b"aaa".to_vec();
    let u2_tx_2_hash = b"54321".to_vec();

    rln_sc_service.mint(user_2.clone(), min_token_amount_for_registration * 5);
    let _user_2_idx = rln_sc_service.register_user(user_2.clone(), user_2_rln_identity.commitment).unwrap();

    let mt_proof = rln_sc_service.get_merkle_proof(user_1_idx).unwrap();
    let u2_tx_1 = create_transaction(user_1.clone(), u2_tx_1_hash, FieldElement::from_u64(0), &user_2_rln_identity, epoch, &mt_proof);
    let u2_tx_2 = create_transaction(user_1.clone(), u2_tx_2_hash, FieldElement::from_u64(1), &user_2_rln_identity, epoch, &mt_proof);

    let mut sequencer_service = SequencerService::new();
    let mut slasher_service = SlasherService::new(SlasherServiceConfig { rln_limit });

    let events = run(
        vec![tx_1, tx_2, u2_tx_1, u2_tx_2],
        &mut sequencer_service,
        &mut slasher_service,
        &mut rln_sc_service,
    );
    assert_eq!(events.len(), 4);
}

#[test]
fn test_slashing() {
    let rln_limit = 2;
    let min_token_amount_for_registration = 10;

    let user_1 = Address("0xf39Fd6e51aad88F6F4ce6aB8827279cffFb92266".to_string());
    let user_1_rln_identity = new_identity(rln_limit);
    let tx_1_hash = b"AAA".to_vec();
    let tx_2_hash = b"12345".to_vec();

    let cfg = RlnScServiceConfig { rln_limit, min_token_amount_for_registration };
    let mut rln_sc_service = RLnScService::new(cfg, DEFAULT_MERKLE_TREE_DEPTH).unwrap();
    rln_sc_service.mint(user_1.clone(), min_token_amount_for_registration * 5);
    let user_1_idx = rln_sc_service.register_user(user_1.clone(), user_1_rln_identity.commitment).unwrap();

    let epoch = FieldElement::from_u64(0);
    let mt_proof = rln_sc_service.get_merkle_proof(user_1_idx).unwrap();
    let tx_1 = create_transaction(user_1.clone(), tx_1_hash, FieldElement::from_u64(0), &user_1_rln_identity, epoch, &mt_proof);
    let tx_2 = create_transaction(user_1.clone(), tx_2_hash, FieldElement::from_u64(0), &user_1_rln_identity, epoch, &mt_proof);

    let mut sequencer_service = SequencerService::new();
    let mut slasher_service = SlasherService::new(SlasherServiceConfig { rln_limit });

    let events = run(vec![tx_1, tx_2], &mut sequencer_service, &mut slasher_service, &mut rln_sc_service);

    let event_2 = &events[2];
    match event_2 {
        SimulationEvent::Slashed(address) => {
            assert_eq!(*address, user_1);
        },
        _ => panic!("Unexpected simulation event received: {:?}", event_2),
    }
}

use ark_bn254::Fr;
use ark_ff::{BigInt, PrimeField};
use gasless_rln::event::SimulationEvent;
use gasless_rln::field::FieldElement;
use gasless_rln::merkle::supported_tree_depth;
use gasless_rln::rln_sc::{RLnScService, RlnScCommand, RlnScServiceConfig, ScError};
use gasless_rln::transaction::Address;
use rln::hashers::poseidon_hash;
use rln::pm_tree_adapter::PmTree;
use rln::protocol::keygen;
use zerokit_utils::{ZerokitMerkleProof, ZerokitMerkleTree};

fn fe(v: Fr) -> FieldElement {
    FieldElement::from_limbs(v.into_bigint().0).unwrap()
}

fn fr(f: &FieldElement) -> Fr {
    Fr::from(BigInt::new(f.limbs()))
}

fn contract(rln_limit: u64, min: u64, depth: usize) -> RLnScService {
    RLnScService::new(RlnScServiceConfig { rln_limit, min_token_amount_for_registration: min }, depth).unwrap()
}

fn addr(s: &str) -> Address {
    Address(s.to_string())
}

#[test]
fn mint_adds_and_saturates() {
    let mut sc = contract(10, 10, 4);
    assert_eq!(sc.token_balance(&addr("a")), 0);
    sc.mint(addr("a"), 7);
    assert_eq!(sc.token_balance(&addr("a")), 7);
    sc.mint(addr("a"), 5);
    assert_eq!(sc.token_balance(&addr("a")), 12);
    sc.mint(addr("a"), u64::MAX);
    assert_eq!(sc.token_balance(&addr("a")), u64::MAX);
    assert_eq!(sc.token_balance(&addr("b")), 0);
}

#[test]
fn register_needs_the_minimum_balance() {
    let mut sc = contract(10, 10, 4);
    let id = FieldElement::from_u64(99);
    assert_eq!(sc.register_user(addr("a"), id), Err(ScError::NotEnoughTokens));
    sc.mint(addr("a"), 9);
    assert_eq!(sc.register_user(addr("a"), id), Err(ScError::NotEnoughTokens));
    sc.mint(addr("a"), 1);
    assert_eq!(sc.register_user(addr("a"), id), Ok(0));
    sc.mint(addr("b"), 50);
    assert_eq!(sc.register_user(addr("b"), FieldElement::from_u64(98)), Ok(1));
    assert_eq!(sc.member(&addr("a")), Some((id, 0)));
    assert_eq!(sc.member(&addr("b")), Some((FieldElement::from_u64(98), 1)));
    assert_eq!(sc.registered_count(), 2);
}

#[test]
fn register_fails_once_the_tree_is_full() {
    let mut sc = contract(3, 0, 1);
    assert_eq!(sc.register_user(addr("a"), FieldElement::from_u64(1)), Ok(0));
    assert_eq!(sc.register_user(addr("b"), FieldElement::from_u64(2)), Ok(1));
    assert_eq!(sc.register_user(addr("c"), FieldElement::from_u64(3)), Err(ScError::MerkleTree));
    assert_eq!(sc.member(&addr("c")), None);
    assert_eq!(sc.registered_count(), 2);
}

#[test]
fn merkle_path_matches_rln_tree() {
    let mut sc = contract(10, 0, 20);
    assert_eq!(sc.register_user(addr("a"), FieldElement::from_u64(1)), Ok(0));
    assert_eq!(sc.register_user(addr("b"), FieldElement::from_u64(2)), Ok(1));
    let mut tree = <PmTree as ZerokitMerkleTree>::default(20).unwrap();
    tree.set(0, Fr::from(10u64)).unwrap();
    tree.set(1, Fr::from(10u64)).unwrap();
    let expected = tree.proof(1).unwrap();
    let path = sc.get_merkle_proof(1).unwrap();
    assert_eq!(path.path_elements.len(), 20);
    let elements: Vec<Fr> = path.path_elements.iter().map(fr).collect();
    assert_eq!(elements, expected.get_path_elements());
    assert_eq!(path.path_index, expected.get_path_index());
    assert_eq!(path.path_index[0], 1);
    assert_eq!(path.path_elements[0], FieldElement::from_u64(10));
    assert_eq!(path.path_elements[1], fe(poseidon_hash(&[Fr::from(0u64), Fr::from(0u64)])));
}

#[test]
fn merkle_path_beyond_capacity_is_refused() {
    let sc = contract(10, 0, 2);
    assert!(sc.get_merkle_proof(3).is_ok());
    assert_eq!(sc.get_merkle_proof(4).err(), Some(ScError::MerkleTree));
}

#[test]
fn slash_with_the_member_secret() {
    let mut sc = contract(10, 10, 20);
    let (secret, commitment) = keygen();
    sc.mint(addr("a"), 50);
    assert_eq!(sc.register_user(addr("a"), fe(commitment)), Ok(0));
    // A wrong secret changes nothing.
    let wrong = sc.handle_command(RlnScCommand::Slash(addr("a"), FieldElement::from_u64(5)));
    assert!(matches!(wrong, Ok(None)));
    assert_eq!(sc.token_balance(&addr("a")), 50);
    // An unknown address changes nothing.
    let unknown = sc.handle_command(RlnScCommand::Slash(addr("z"), fe(*secret)));
    assert!(matches!(unknown, Ok(None)));
    // The member's own secret slashes it.
    match sc.handle_command(RlnScCommand::Slash(addr("a"), fe(*secret))) {
        Ok(Some(SimulationEvent::Slashed(a))) => assert_eq!(a, addr("a")),
        other => panic!("unexpected outcome {:?}", other),
    }
    assert_eq!(sc.token_balance(&addr("a")), 0);
    let path = sc.get_merkle_proof(1).unwrap();
    // Leaf 0 is zero again: its sibling on the path of leaf 1 is 0.
    assert_eq!(path.path_elements[0], FieldElement::zero());
    // The slashed member cannot register again.
    assert_eq!(sc.register_user(addr("a"), fe(commitment)), Err(ScError::NotEnoughTokens));
}

#[test]
fn slash_member_needs_the_member_commitment() {
    let mut sc = contract(10, 10, 4);
    sc.mint(addr("a"), 10);
    assert_eq!(sc.register_user(addr("a"), FieldElement::from_u64(42)), Ok(0));
    assert!(matches!(sc.slash_member(addr("a"), FieldElement::from_u64(41)), Ok(None)));
    assert_eq!(sc.token_balance(&addr("a")), 10);
    assert!(matches!(sc.slash_member(addr("b"), FieldElement::from_u64(42)), Ok(None)));
    match sc.slash_member(addr("a"), FieldElement::from_u64(42)) {
        Ok(Some(SimulationEvent::Slashed(a))) => assert_eq!(a, addr("a")),
        other => panic!("unexpected outcome {:?}", other),
    }
    assert_eq!(sc.token_balance(&addr("a")), 0);
    // Membership stays; the tokens are gone.
    assert_eq!(sc.member(&addr("a")), Some((FieldElement::from_u64(42), 0)));
    assert_eq!(sc.register_user(addr("a"), FieldElement::from_u64(42)), Err(ScError::NotEnoughTokens));
}

#[test]
fn merkle_path_folds_to_the_tree_root() {
    let mut sc = contract(10, 0, 20);
    for (i, name) in ["a", "b", "c"].iter().enumerate() {
        assert_eq!(sc.register_user(addr(name), FieldElement::from_u64(i as u64)), Ok(i));
    }
    let mut tree = <PmTree as ZerokitMerkleTree>::default(20).unwrap();
    for i in 0..3 {
        tree.set(i, Fr::from(10u64)).unwrap();
    }
    let path = sc.get_merkle_proof(2).unwrap();
    let mut root = Fr::from(10u64);
    for (e, bit) in path.path_elements.iter().zip(path.path_index.iter()) {
        root = if *bit == 0 { poseidon_hash(&[root, fr(e)]) } else { poseidon_hash(&[fr(e), root]) };
    }
    assert_eq!(root, tree.root());
}

#[test]
fn tree_depth_is_supported_while_node_keys_fit() {
    // (depth + 2^depth) * (depth + 2^depth + 1) must fit in a usize.
    assert!(supported_tree_depth(0));
    assert!(supported_tree_depth(1));
    if usize::BITS == 64 {
        assert!(supported_tree_depth(20));
        assert!(supported_tree_depth(31));
        assert!(!supported_tree_depth(32));
    } else {
        assert!(supported_tree_depth(15));
        assert!(!supported_tree_depth(16));
    }
    assert!(!supported_tree_depth(64));
    assert!(!supported_tree_depth(usize::MAX));
}

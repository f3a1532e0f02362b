# gasless_rln

A gasless transaction system protected by Rate-Limited Nullifiers (RLN),
verified with Verus. RLN enforces a fixed number of transactions per epoch
per identity: a user who exceeds its limit reveals its secret and is slashed.

## Layout

- `src/field.rs`: elements of the BN254 scalar field as canonical integers.
- `src/protocol.rs`: the RLN primitives of the `rln` crate (Poseidon, proof
  values, Groth16 proving and verification, secret recovery), and the law
  that two signals of one identity in one epoch reveal its secret.
- `src/merkle.rs`: the Poseidon membership tree of `rln` and its paths.
- `src/rln_proof.rs`: identities, application identifiers and proof making.
- `src/transaction.rs`, `src/event.rs`: transactions and service events.
- `src/address_map.rs`: maps keyed by account address.
- `src/sequencer.rs`: admits the transactions whose proof verifies.
- `src/slasher.rs`: counts each sender's proofs, keeps its last two, and
  recovers the secret of a sender over its limit.
- `src/rln_sc.rs`: the contract: tokens, registration, slashing.
- `app/lib.rs`: the tokio services that run the above over channels, and the
  serde form of an identity.
- `tests/`: scenarios, among them a full slashing run with real proofs.

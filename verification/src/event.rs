use vstd::prelude::*;

use crate::transaction::{Address, Transaction};

verus! {

/// What the services of the simulation report.
#[derive(Debug)]
pub enum SimulationEvent {
    /// The sequencer verified the transaction and added it to its mempool.
    SequencerAddToMempool(Transaction),
    /// The sequencer could not verify the transaction and dropped it.
    SequencerVerifyError(Transaction),
    /// The contract slashed the member at this address.
    Slashed(Address),
}

} // verus!

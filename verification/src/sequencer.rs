use vstd::prelude::*;

use crate::event::SimulationEvent;
use crate::protocol::{proof_verifies, verify_proof};
use crate::transaction::Transaction;

verus! {

/// The RLN proof of the transaction verifies against its public values.
pub open spec fn transaction_verifies(tx: Transaction) -> bool {
    proof_verifies(tx.rln_proof.proof@, tx.rln_proof.proof_values)
}

/// One transaction through the sequencer: it enters the mempool and is
/// reported added where its proof verifies; otherwise the mempool stays and
/// it is reported refused.
pub open spec fn sequencer_step(pre: SequencerService, post: SequencerService, tx: Transaction, event: SimulationEvent) -> bool {
    &&& transaction_verifies(tx) ==> post.mempool() == pre.mempool().push(tx)
    &&& transaction_verifies(tx) ==> (event matches SimulationEvent::SequencerAddToMempool(t) && t@ == tx@)
    &&& !transaction_verifies(tx) ==> post.mempool() == pre.mempool()
    &&& !transaction_verifies(tx) ==> (event matches SimulationEvent::SequencerVerifyError(t) && t@ == tx@)
}

/// The transactions whose proof verifies, in their order.
pub open spec fn verified_transactions(txs: Seq<Transaction>) -> Seq<Transaction>
    decreases txs.len(),
{
    if txs.len() == 0 {
        txs
    } else {
        let rest = verified_transactions(txs.drop_last());
        if transaction_verifies(txs.last()) {
            rest.push(txs.last())
        } else {
            rest
        }
    }
}

/// A sequencer that admits to its mempool exactly the transactions whose RLN
/// proof verifies.
#[derive(Debug)]
pub struct SequencerService {
    tx_mempool: Vec<Transaction>,
}

impl SequencerService {
    /// The admitted transactions, oldest first.
    pub closed spec fn mempool(&self) -> Seq<Transaction> {
        self.tx_mempool@
    }

    /// Every transaction in the mempool has a proof that verifies.
    pub open spec fn wf(&self) -> bool {
        forall|i: int| 0 <= i < self.mempool().len() ==> transaction_verifies(#[trigger] self.mempool()[i])
    }

    /// A sequencer with an empty mempool.
    pub fn new() -> (r: Self)
        ensures
            r.wf(),
            r.mempool() == Seq::<Transaction>::empty(),
    {
        SequencerService { tx_mempool: Vec::new() }
    }

    /// Whether the RLN proof of the transaction verifies; a proof that does
    /// not decode, or whose verification fails, does not.
    pub fn verify_transaction(tx: &Transaction) -> (r: bool)
        ensures
            r == transaction_verifies(*tx),
    {
        match verify_proof(&tx.rln_proof.proof, &tx.rln_proof.proof_values) {
            Some(r) => r,
            None => false,
        }
    }

    /// Admits the transaction where `verified` says that its proof verifies,
    /// and reports which of the two happened.
    pub fn admit_transaction(&mut self, tx: Transaction, verified: bool) -> (event: SimulationEvent)
        requires
            old(self).wf(),
            verified ==> transaction_verifies(tx),
        ensures
            final(self).wf(),
            verified ==> final(self).mempool() == old(self).mempool().push(tx),
            verified ==> (event matches SimulationEvent::SequencerAddToMempool(t) && t@ == tx@),
            !verified ==> final(self).mempool() == old(self).mempool(),
            !verified ==> (event matches SimulationEvent::SequencerVerifyError(t) && t@ == tx@),
    {
        if verified {
            let event = SimulationEvent::SequencerAddToMempool(tx.clone());
            let ghost before = self.mempool();
            self.tx_mempool.push(tx);
            assert forall|i: int| 0 <= i < self.mempool().len() implies transaction_verifies(
                #[trigger] self.mempool()[i],
            ) by {
                if i < before.len() {
                    assert(self.mempool()[i] == before[i]);
                }
            }
            event
        } else {
            SimulationEvent::SequencerVerifyError(tx)
        }
    }

    /// Admits the transaction where its proof verifies, and reports which of
    /// the two happened.
    pub fn process_transaction(&mut self, tx: Transaction) -> (event: SimulationEvent)
        requires
            old(self).wf(),
        ensures
            final(self).wf(),
            sequencer_step(*old(self), *final(self), tx, event),
    {
        let verified = Self::verify_transaction(&tx);
        self.admit_transaction(tx, verified)
    }

    /// The admitted transactions, oldest first.
    pub fn tx_mempool(&self) -> (r: &Vec<Transaction>)
        ensures
            r@ == self.mempool(),
    {
        &self.tx_mempool
    }
}

/// A transaction that carries a proof verifying against its public values
/// (as every proof that `compute_rln_proof_and_values` makes within the
/// circuit's bounds does) enters the mempool and is reported added.
pub proof fn lemma_honest_transaction_is_admitted(
    pre: SequencerService,
    post: SequencerService,
    tx: Transaction,
    event: SimulationEvent,
)
    requires
        proof_verifies(tx.rln_proof.proof@, tx.rln_proof.proof_values),
        sequencer_step(pre, post, tx, event),
    ensures
        post.mempool() == pre.mempool().push(tx),
        event matches SimulationEvent::SequencerAddToMempool(t) && t@ == tx@,
{
}

/// Over a stream of transactions the mempool grows by exactly those whose
/// proof verifies, in the order they came, and each transaction is
/// reported added or refused as its proof verifies or not.
pub proof fn lemma_sequencer_stream(states: Seq<SequencerService>, txs: Seq<Transaction>, events: Seq<SimulationEvent>)
    requires
        states.len() == txs.len() + 1,
        events.len() == txs.len(),
        forall|i: int| 0 <= i < txs.len() ==> #[trigger] sequencer_step(states[i], states[i + 1], txs[i], events[i]),
    ensures
        states.last().mempool() == states[0].mempool() + verified_transactions(txs),
        forall|i: int|
            0 <= i < txs.len() ==> (#[trigger] events[i] matches SimulationEvent::SequencerAddToMempool(t)
                && t@ == txs[i]@) == transaction_verifies(txs[i]),
        forall|i: int|
            0 <= i < txs.len() ==> (#[trigger] events[i] matches SimulationEvent::SequencerVerifyError(t)
                && t@ == txs[i]@) == !transaction_verifies(txs[i]),
    decreases txs.len(),
{
    if txs.len() > 0 {
        let n = txs.len() - 1;
        assert forall|i: int| 0 <= i < n implies #[trigger] sequencer_step(
            states.drop_last()[i],
            states.drop_last()[i + 1],
            txs.drop_last()[i],
            events.drop_last()[i],
        ) by {
            assert(sequencer_step(states[i], states[i + 1], txs[i], events[i]));
        }
        lemma_sequencer_stream(states.drop_last(), txs.drop_last(), events.drop_last());
        assert(sequencer_step(states[n], states[n + 1], txs[n], events[n]));
        assert(states.drop_last().last() == states[n]);
        if transaction_verifies(txs.last()) {
            assert(states.last().mempool() =~= states[0].mempool() + verified_transactions(txs));
        } else {
            assert(states.last().mempool() =~= states[0].mempool() + verified_transactions(txs));
        }
        assert forall|i: int| 0 <= i < txs.len() implies (#[trigger] events[i] matches SimulationEvent::SequencerAddToMempool(t)
            && t@ == txs[i]@) == transaction_verifies(txs[i]) by {
            assert(sequencer_step(states[i], states[i + 1], txs[i], events[i]));
        }
        assert forall|i: int| 0 <= i < txs.len() implies (#[trigger] events[i] matches SimulationEvent::SequencerVerifyError(t)
            && t@ == txs[i]@) == !transaction_verifies(txs[i]) by {
            assert(sequencer_step(states[i], states[i + 1], txs[i], events[i]));
        }
    }
}

} // verus!

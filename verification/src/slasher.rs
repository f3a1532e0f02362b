use vstd::prelude::*;

use crate::address_map::AddressMap;
use crate::field::{fr_modulus, FieldElement};
use crate::protocol::{
    compute_id_secret, lemma_double_signal_reveals_secret, lemma_recovery_ignores_order, lemma_shares_reveal_secret,
    recovers_secret, share_y, values_from_inputs, ProofValues,
};
use crate::rln_proof::RlnProof;
use crate::rln_sc::RlnScCommand;
use crate::transaction::{Address, Transaction};

verus! {

/// The view of a proof: its bytes and its public values.
pub type ProofView = (Seq<u8>, ProofValues);

/// The view of an optional proof.
pub open spec fn opt_proof_view(p: Option<RlnProof>) -> Option<ProofView> {
    match p {
        Some(p) => Some(p@),
        None => None,
    }
}

/// The last two elements of a sequence (all of it where it is shorter).
pub open spec fn last_two<T>(s: Seq<T>) -> Seq<T> {
    if s.len() <= 2 {
        s
    } else {
        s.subrange(s.len() - 2, s.len() as int)
    }
}

/// An entry that keeps the last two proofs of a sender's history keeps,
/// after one more proof, the last two of the longer history: whatever came
/// before, an entry holds the two most recent proofs, oldest first.
pub proof fn lemma_entry_keeps_last_two_of_history(kept: Seq<ProofView>, history: Seq<ProofView>, proof: ProofView)
    requires
        kept == last_two(history),
    ensures
        last_two(kept.push(proof)) == last_two(history.push(proof)),
{
    assert(last_two(last_two(history).push(proof)) =~= last_two(history.push(proof)));
}

/// One proof recorded in an entry: it keeps the last two proofs, oldest
/// first, and counts one more.
pub open spec fn entry_step(pre: DbEntry, post: DbEntry, proof: ProofView) -> bool {
    &&& post.kept() == last_two(pre.kept().push(proof))
    &&& post.seen_proof_count == pre.seen_proof_count + 1
}

/// After any number of recorded proofs an entry keeps the last two of all
/// it has seen, oldest first, and counts every one.
pub proof fn lemma_entry_history(entries: Seq<DbEntry>, proofs: Seq<ProofView>)
    requires
        entries.len() == proofs.len() + 1,
        entries[0].wf(),
        forall|i: int| 0 <= i < proofs.len() ==> #[trigger] entry_step(entries[i], entries[i + 1], proofs[i]),
    ensures
        entries.last().kept() == last_two(entries[0].kept() + proofs),
        entries.last().seen_proof_count == entries[0].seen_proof_count + proofs.len(),
    decreases proofs.len(),
{
    if proofs.len() == 0 {
        assert(entries[0].kept() + proofs =~= entries[0].kept());
    } else {
        let n = proofs.len() - 1;
        assert forall|i: int| 0 <= i < n implies #[trigger] entry_step(
            entries.drop_last()[i],
            entries.drop_last()[i + 1],
            proofs.drop_last()[i],
        ) by {
            assert(entry_step(entries[i], entries[i + 1], proofs[i]));
        }
        lemma_entry_history(entries.drop_last(), proofs.drop_last());
        assert(entry_step(entries[n], entries[n + 1], proofs[n]));
        assert(entries.drop_last().last() == entries[n]);
        let before = entries[0].kept() + proofs.drop_last();
        lemma_entry_keeps_last_two_of_history(entries[n].kept(), before, proofs[n]);
        assert(before.push(proofs[n]) =~= entries[0].kept() + proofs);
    }
}

/// What the slasher remembers of one sender: the proofs it sent last, and
/// how many it has sent.
#[derive(Debug)]
pub struct DbEntry {
    pub proof_1: Option<RlnProof>,
    pub proof_2: Option<RlnProof>,
    pub seen_proof_count: u64,
}

impl DbEntry {
    /// The proofs kept, oldest first.
    pub open spec fn kept(&self) -> Seq<ProofView> {
        match (self.proof_1, self.proof_2) {
            (Some(a), Some(b)) => seq![a@, b@],
            (Some(a), None) => seq![a@],
            _ => seq![],
        }
    }

    /// The entry keeps its second slot empty while the first is, and keeps
    /// as many proofs as it has seen, up to two.
    pub open spec fn wf(&self) -> bool {
        &&& self.proof_1 is None ==> self.proof_2 is None
        &&& self.kept().len() == (if self.seen_proof_count < 2 {
            self.seen_proof_count as nat
        } else {
            2
        })
    }

    /// Records one more proof of the sender: the entry keeps the last two
    /// proofs seen, oldest first, and counts them all.
    pub fn set_proof(&mut self, proof: &RlnProof)
        requires
            old(self).wf(),
            old(self).seen_proof_count < u64::MAX,
        ensures
            final(self).wf(),
            entry_step(*old(self), *final(self), proof@),
    {
        let ghost before = self.kept();
        let proof = proof.clone();
        if self.proof_1.is_none() {
            self.proof_1 = Some(proof);
        } else if self.proof_2.is_none() {
            self.proof_2 = Some(proof);
        } else {
            self.proof_1 = match &self.proof_2 {
                Some(p) => Some(p.clone()),
                None => None,
            };
            self.proof_2 = Some(proof);
        }
        self.seen_proof_count += 1;
        assert(self.kept() =~= last_two(before.push(proof@)));
    }
}

impl Default for DbEntry {
    fn default() -> (r: Self)
        ensures
            r.wf(),
            r.kept() == Seq::<ProofView>::empty(),
            r.seen_proof_count == 0,
    {
        DbEntry { proof_1: None, proof_2: None, seen_proof_count: 0 }
    }
}

impl View for DbEntry {
    type V = (Option<ProofView>, Option<ProofView>, u64);

    open spec fn view(&self) -> Self::V {
        (opt_proof_view(self.proof_1), opt_proof_view(self.proof_2), self.seen_proof_count)
    }
}

impl Clone for DbEntry {
    fn clone(&self) -> (r: Self)
        ensures
            r@ == self@,
            r.kept() == self.kept(),
            r.wf() == self.wf(),
    {
        let proof_1 = match &self.proof_1 {
            Some(p) => Some(p.clone()),
            None => None,
        };
        let proof_2 = match &self.proof_2 {
            Some(p) => Some(p.clone()),
            None => None,
        };
        DbEntry { proof_1, proof_2, seen_proof_count: self.seen_proof_count }
    }
}

/// The slasher's record of every sender.
#[derive(Debug)]
pub struct Db(AddressMap<DbEntry>);

impl Db {
    /// The entries are well formed, and every stored entry has seen a proof.
    pub closed spec fn wf(&self) -> bool {
        &&& self.0.wf()
        &&& forall|k: Seq<char>| #[trigger] self.0@.contains_key(k) ==> self.0@[k].wf()
            && self.0@[k].seen_proof_count >= 1
    }

    /// How many proofs the sender has sent.
    pub closed spec fn seen(&self, sender: Seq<char>) -> u64 {
        if self.0@.contains_key(sender) {
            self.0@[sender].seen_proof_count
        } else {
            0
        }
    }

    /// The last two proofs of the sender, oldest first.
    pub closed spec fn kept(&self, sender: Seq<char>) -> Seq<ProofView> {
        if self.0@.contains_key(sender) {
            self.0@[sender].kept()
        } else {
            Seq::empty()
        }
    }

    /// A well-formed record keeps at most two proofs of a sender.
    pub proof fn lemma_kept_at_most_two(&self, sender: Seq<char>)
        requires
            self.wf(),
        ensures
            self.kept(sender).len() <= 2,
    {
    }

    /// An empty record.
    pub fn new() -> (r: Self)
        ensures
            r.wf(),
            forall|a: Seq<char>| r.seen(a) == 0 && r.kept(a) == Seq::<ProofView>::empty(),
    {
        Db(AddressMap::new())
    }

    /// Records a proof of `addr` and returns what is now known of it.
    pub fn insert_proof(&mut self, addr: &Address, proof: &RlnProof) -> (r: DbEntry)
        requires
            old(self).wf(),
            old(self).seen(addr@) < u64::MAX,
        ensures
            final(self).wf(),
            db_step(*old(self), *final(self), addr@, proof@),
            r.wf(),
            r.seen_proof_count == final(self).seen(addr@),
            r.kept() == final(self).kept(addr@),
    {
        let mut entry = match self.0.get(addr) {
            Some(e) => e.clone(),
            None => DbEntry::default(),
        };
        entry.set_proof(proof);
        let r = entry.clone();
        let ghost e = entry;
        let ghost old_map = self.0@;
        self.0.insert(addr.clone(), entry);
        proof {
            assert(self.0@ == old_map.insert(addr@, e));
            assert forall|k: Seq<char>| #[trigger] self.0@.contains_key(k) implies self.0@[k].wf()
                && self.0@[k].seen_proof_count >= 1 by {
                if k != addr@ {
                    assert(old_map.contains_key(k));
                }
            }
        }
        r
    }
}

/// One proof of `sender` recorded: its count grows by one and it keeps the
/// last two of its proofs; every other sender stays as it was.
pub open spec fn db_step(pre: Db, post: Db, sender: Seq<char>, proof: ProofView) -> bool {
    &&& post.seen(sender) == pre.seen(sender) + 1
    &&& post.kept(sender) == last_two(pre.kept(sender).push(proof))
    &&& forall|b: Seq<char>| b != sender ==> post.seen(b) == pre.seen(b) && post.kept(b) == pre.kept(b)
}

/// How many of the senders are `a`.
pub open spec fn sent_count(senders: Seq<Seq<char>>, a: Seq<char>) -> nat
    decreases senders.len(),
{
    if senders.len() == 0 {
        0
    } else {
        sent_count(senders.drop_last(), a) + if senders.last() == a {
            1nat
        } else {
            0nat
        }
    }
}

/// The proofs that `a` sent, in order: those of `proofs` whose sender in
/// `senders` is `a`.
pub open spec fn sent_proofs(senders: Seq<Seq<char>>, proofs: Seq<ProofView>, a: Seq<char>) -> Seq<ProofView>
    decreases senders.len(),
{
    if senders.len() == 0 || proofs.len() != senders.len() {
        Seq::empty()
    } else {
        let rest = sent_proofs(senders.drop_last(), proofs.drop_last(), a);
        if senders.last() == a {
            rest.push(proofs.last())
        } else {
            rest
        }
    }
}

/// Over any sequence of recorded proofs, a sender's count grows by the
/// number of its proofs, and its entry keeps the last two of everything it
/// sent, oldest first. Nothing in a proof (its epoch among them) resets the
/// count.
pub proof fn lemma_db_history(dbs: Seq<Db>, senders: Seq<Seq<char>>, proofs: Seq<ProofView>, a: Seq<char>)
    requires
        dbs.len() == senders.len() + 1,
        proofs.len() == senders.len(),
        dbs[0].wf(),
        forall|i: int| 0 <= i < senders.len() ==> #[trigger] db_step(dbs[i], dbs[i + 1], senders[i], proofs[i]),
    ensures
        dbs.last().seen(a) == dbs[0].seen(a) + sent_count(senders, a),
        dbs.last().kept(a) == last_two(dbs[0].kept(a) + sent_proofs(senders, proofs, a)),
    decreases senders.len(),
{
    if senders.len() == 0 {
        dbs[0].lemma_kept_at_most_two(a);
        assert(dbs[0].kept(a) + sent_proofs(senders, proofs, a) =~= dbs[0].kept(a));
    } else {
        let n = senders.len() - 1;
        assert forall|i: int| 0 <= i < n implies #[trigger] db_step(
            dbs.drop_last()[i],
            dbs.drop_last()[i + 1],
            senders.drop_last()[i],
            proofs.drop_last()[i],
        ) by {
            assert(db_step(dbs[i], dbs[i + 1], senders[i], proofs[i]));
        }
        lemma_db_history(dbs.drop_last(), senders.drop_last(), proofs.drop_last(), a);
        assert(db_step(dbs[n], dbs[n + 1], senders[n], proofs[n]));
        assert(dbs.drop_last().last() == dbs[n]);
        let before = dbs[0].kept(a) + sent_proofs(senders.drop_last(), proofs.drop_last(), a);
        if senders.last() == a {
            lemma_entry_keeps_last_two_of_history(dbs[n].kept(a), before, proofs[n]);
            assert(before.push(proofs[n]) =~= dbs[0].kept(a) + sent_proofs(senders, proofs, a));
        }
    }
}

/// The configuration of the slasher.
#[derive(Clone, Copy, Debug, PartialEq, Eq, Structural)]
pub struct SlasherServiceConfig {
    /// How many messages a sender may send before it is slashed.
    pub rln_limit: u64,
}

/// One transaction through the slasher: its proof is recorded, and the
/// sender's last two proofs are handed on exactly where its count has
/// reached the limit.
pub open spec fn slasher_step(pre: SlasherService, post: SlasherService, tx: Transaction, r: Option<SlashingData>) -> bool {
    &&& post.config() == pre.config()
    &&& db_step(pre.db(), post.db(), tx.sender@, tx.rln_proof@)
    &&& r is Some <==> post.db().seen(tx.sender@) >= pre.config().rln_limit
    &&& r matches Some(d) ==> d.sender@ == tx.sender@ && seq![d.proof_1@, d.proof_2@] == post.db().kept(tx.sender@)
}

/// The senders of the transactions.
pub open spec fn senders_of(txs: Seq<Transaction>) -> Seq<Seq<char>> {
    txs.map_values(|t: Transaction| t.sender@)
}

/// The proofs of the transactions.
pub open spec fn proofs_of(txs: Seq<Transaction>) -> Seq<ProofView> {
    txs.map_values(|t: Transaction| t.rln_proof@)
}

/// What the slasher hands on when a sender reached its limit: its last two
/// proofs, oldest first.
#[derive(Debug)]
pub struct SlashingData {
    pub proof_1: RlnProof,
    pub proof_2: RlnProof,
    pub sender: Address,
}

/// Watches the transactions of every sender and detects those that send
/// more messages than their limit allows.
#[derive(Debug)]
pub struct SlasherService {
    config: SlasherServiceConfig,
    db: Db,
}

impl SlasherService {
    /// The configuration the service was made with.
    pub closed spec fn config(&self) -> SlasherServiceConfig {
        self.config
    }

    /// What the service has recorded.
    pub closed spec fn db(&self) -> Db {
        self.db
    }

    pub closed spec fn wf(&self) -> bool {
        self.db.wf()
    }

    /// A slasher that has seen nothing yet.
    pub fn new(config: SlasherServiceConfig) -> (r: Self)
        ensures
            r.wf(),
            r.config() == config,
            forall|a: Seq<char>| r.db().seen(a) == 0 && r.db().kept(a) == Seq::<ProofView>::empty(),
    {
        SlasherService { config, db: Db::new() }
    }

    /// Records the proof of a transaction; where its sender has now sent at
    /// least `rln_limit` proofs, returns the sender's last two proofs.
    pub fn process_transaction(&mut self, tx: Transaction) -> (r: Option<SlashingData>)
        requires
            old(self).wf(),
            old(self).db().seen(tx.sender@) < u64::MAX,
            old(self).config().rln_limit >= 2 || old(self).db().seen(tx.sender@) >= 1,
        ensures
            final(self).wf(),
            slasher_step(*old(self), *final(self), tx, r),
    {
        let sender_addr = tx.sender;
        let proof = tx.rln_proof;
        let db_entry = self.db.insert_proof(&sender_addr, &proof);
        if db_entry.seen_proof_count >= self.config.rln_limit {
            match (db_entry.proof_1, db_entry.proof_2) {
                (Some(proof_1), Some(proof_2)) => Some(
                    SlashingData { proof_1, proof_2, sender: sender_addr.clone() },
                ),
                _ => None,
            }
        } else {
            None
        }
    }
}

impl Db {
    /// How many proofs the sender has sent.
    pub fn seen_proof_count(&self, sender: &Address) -> (r: u64)
        requires
            self.wf(),
        ensures
            r == self.seen(sender@),
    {
        match self.0.get(sender) {
            Some(e) => e.seen_proof_count,
            None => 0,
        }
    }
}

impl SlasherService {
    /// How many proofs the sender has sent.
    pub fn seen_proof_count(&self, sender: &Address) -> (r: u64)
        requires
            self.wf(),
        ensures
            r == self.db().seen(sender@),
    {
        self.db.seen_proof_count(sender)
    }

    /// How many messages a sender may send before it is slashed.
    pub fn rln_limit(&self) -> (r: u64)
        ensures
            r == self.config().rln_limit,
    {
        self.config.rln_limit
    }
}

/// Why no secret could be recovered.
#[derive(Clone, Copy, Debug, PartialEq, Eq, Structural)]
pub enum RecoverError {
    /// Both proofs share the same `x`, so the line cannot be solved.
    SameSignal,
}

/// What recovering a secret from two proofs' public values gives: an error
/// exactly where their `x` are equal, else the intercept of the line through
/// their shares.
pub open spec fn recover_outcome(v1: ProofValues, v2: ProofValues, res: Result<FieldElement, RecoverError>) -> bool {
    &&& res is Err <==> v1.x@ == v2.x@
    &&& res matches Ok(s) ==> recovers_secret(v1.x@, v1.y@, v2.x@, v2.y@, s@)
}

/// Recovers the identity secret of the sender from its two shares.
///
/// Where both proofs lie on one share line (made by one identity for one
/// external nullifier and message id) at distinct `x`, the result is that
/// identity's secret.
pub fn recover(slashing_data: SlashingData) -> (res: Result<FieldElement, RecoverError>)
    ensures
        recover_outcome(slashing_data.proof_1.proof_values, slashing_data.proof_2.proof_values, res),
        forall|secret: nat, slope: nat|
            secret < fr_modulus() && slashing_data.proof_1.proof_values.x@
                != slashing_data.proof_2.proof_values.x@
                && #[trigger] share_y(secret, slashing_data.proof_1.proof_values.x@, slope)
                == slashing_data.proof_1.proof_values.y@ && share_y(
                secret,
                slashing_data.proof_2.proof_values.x@,
                slope,
            ) == slashing_data.proof_2.proof_values.y@ ==> (res matches Ok(s) && s@ == secret),
{
    let v1 = slashing_data.proof_1.proof_values;
    let v2 = slashing_data.proof_2.proof_values;
    let res = compute_id_secret(&v1.x, &v1.y, &v2.x, &v2.y);
    proof {
        assert forall|secret: nat, slope: nat|
            secret < fr_modulus() && v1.x@ != v2.x@ && #[trigger] share_y(secret, v1.x@, slope) == v1.y@
                && share_y(secret, v2.x@, slope) == v2.y@ implies (res matches Ok(s) && s@
            == secret) by {
            if let Ok(s) = res {
                lemma_shares_reveal_secret(secret, slope, v1.x@, v2.x@, s@);
            }
        }
    }
    match res {
        Ok(s) => Ok(s),
        Err(_) => Err(RecoverError::SameSignal),
    }
}

/// The command that slashes the sender of the slashing data, proving the
/// claim by the secret its two shares give back.
pub fn slash_command(slashing_data: SlashingData) -> (res: Result<RlnScCommand, RecoverError>)
    ensures
        res is Err <==> slashing_data.proof_1.proof_values.x@ == slashing_data.proof_2.proof_values.x@,
        res matches Ok(RlnScCommand::Slash(a, s)) ==> a@ == slashing_data.sender@ && recovers_secret(
            slashing_data.proof_1.proof_values.x@,
            slashing_data.proof_1.proof_values.y@,
            slashing_data.proof_2.proof_values.x@,
            slashing_data.proof_2.proof_values.y@,
            s@,
        ),
{
    let sender = slashing_data.sender.clone();
    match recover(slashing_data) {
        Ok(id_secret) => Ok(RlnScCommand::Slash(sender, id_secret)),
        Err(e) => Err(e),
    }
}

/// Over any stream of transactions the slasher counts each sender's
/// proofs, whatever their epoch, keeps the last two of them, and hands on a
/// sender's transaction exactly when its count, this transaction included,
/// has reached the limit: from a fresh slasher with limit `L`, the `L`-th
/// transaction of a sender and every later one are handed on.
pub proof fn lemma_slasher_history(
    states: Seq<SlasherService>,
    txs: Seq<Transaction>,
    results: Seq<Option<SlashingData>>,
    a: Seq<char>,
)
    requires
        states.len() == txs.len() + 1,
        results.len() == txs.len(),
        states[0].wf(),
        forall|i: int| 0 <= i < txs.len() ==> #[trigger] slasher_step(states[i], states[i + 1], txs[i], results[i]),
    ensures
        states.last().config() == states[0].config(),
        states.last().db().seen(a) == states[0].db().seen(a) + sent_count(senders_of(txs), a),
        states.last().db().kept(a) == last_two(states[0].db().kept(a) + sent_proofs(senders_of(txs), proofs_of(txs), a)),
        forall|i: int|
            0 <= i < txs.len() && txs[i].sender@ == a ==> (#[trigger] results[i] is Some <==> states[0].db().seen(a)
                + sent_count(senders_of(txs).take(i + 1), a) >= states[0].config().rln_limit),
{
    let senders = senders_of(txs);
    let proofs = proofs_of(txs);
    let dbs = Seq::new(states.len(), |i: int| states[i].db());
    lemma_slasher_config(states, txs, results);
    assert forall|i: int| 0 <= i < senders.len() implies #[trigger] db_step(dbs[i], dbs[i + 1], senders[i], proofs[i]) by {
        assert(slasher_step(states[i], states[i + 1], txs[i], results[i]));
    }
    lemma_db_history(dbs, senders, proofs, a);
    assert forall|i: int| 0 <= i < txs.len() && txs[i].sender@ == a implies (#[trigger] results[i] is Some
        <==> states[0].db().seen(a) + sent_count(senders.take(i + 1), a) >= states[0].config().rln_limit) by {
        let k = i + 1;
        assert forall|j: int| 0 <= j < k implies #[trigger] db_step(
            dbs.take(k + 1)[j],
            dbs.take(k + 1)[j + 1],
            senders.take(k)[j],
            proofs.take(k)[j],
        ) by {
            assert(db_step(dbs[j], dbs[j + 1], senders[j], proofs[j]));
        }
        lemma_db_history(dbs.take(k + 1), senders.take(k), proofs.take(k), a);
        assert(slasher_step(states[i], states[i + 1], txs[i], results[i]));
        assert(dbs.take(k + 1).last() == states[i + 1].db());
        lemma_slasher_config(states.take(k), txs.take(i), results.take(i));
        assert(states.take(k).last() == states[i]);
    }
}

/// The configuration of the slasher never changes.
proof fn lemma_slasher_config(states: Seq<SlasherService>, txs: Seq<Transaction>, results: Seq<Option<SlashingData>>)
    requires
        states.len() == txs.len() + 1,
        results.len() == txs.len(),
        forall|i: int| 0 <= i < txs.len() ==> #[trigger] slasher_step(states[i], states[i + 1], txs[i], results[i]),
    ensures
        states.last().config() == states[0].config(),
    decreases txs.len(),
{
    if txs.len() > 0 {
        let n = txs.len() - 1;
        assert forall|i: int| 0 <= i < n implies #[trigger] slasher_step(
            states.drop_last()[i],
            states.drop_last()[i + 1],
            txs.drop_last()[i],
            results.drop_last()[i],
        ) by {
            assert(slasher_step(states[i], states[i + 1], txs[i], results[i]));
        }
        lemma_slasher_config(states.drop_last(), txs.drop_last(), results.drop_last());
        assert(slasher_step(states[n], states[n + 1], txs[n], results[n]));
        assert(states.drop_last().last() == states[n]);
    }
}

/// Recovering from two proofs in either order gives the same answer: both
/// fail, or both give the same secret.
pub proof fn lemma_recover_ignores_order(
    v1: ProofValues,
    v2: ProofValues,
    r12: Result<FieldElement, RecoverError>,
    r21: Result<FieldElement, RecoverError>,
)
    requires
        v1.x@ < fr_modulus(),
        v1.y@ < fr_modulus(),
        v2.x@ < fr_modulus(),
        v2.y@ < fr_modulus(),
        recover_outcome(v1, v2, r12),
        recover_outcome(v2, v1, r21),
    ensures
        r12 is Err <==> r21 is Err,
        r12 matches Ok(s) ==> (r21 matches Ok(t) && s == t),
{
    if let Ok(s) = r12 {
        if let Ok(t) = r21 {
            lemma_recovery_ignores_order(v1.x@, v1.y@, v2.x@, v2.y@, s@, t@);
            FieldElement::lemma_view_injective(s, t);
        }
    }
}

/// Two proofs that one identity makes in one epoch of one application with
/// one message id but for different signals give back, through `recover`,
/// the identity secret.
pub proof fn lemma_double_signal_is_recovered(
    secret: nat,
    external_nullifier: nat,
    user_message_limit: nat,
    message_id: nat,
    path_elements_1: Seq<nat>,
    path_index_1: Seq<u8>,
    x1: nat,
    values_1: ProofValues,
    path_elements_2: Seq<nat>,
    path_index_2: Seq<u8>,
    x2: nat,
    values_2: ProofValues,
    res: Result<FieldElement, RecoverError>,
)
    requires
        secret < fr_modulus(),
        values_from_inputs(secret, path_elements_1, path_index_1, x1, external_nullifier, user_message_limit, message_id, values_1),
        values_from_inputs(secret, path_elements_2, path_index_2, x2, external_nullifier, user_message_limit, message_id, values_2),
        x1 != x2,
        recover_outcome(values_1, values_2, res),
    ensures
        res matches Ok(s) && s@ == secret,
{
    if let Ok(s) = res {
        lemma_double_signal_reveals_secret(
            secret,
            external_nullifier,
            user_message_limit,
            message_id,
            path_elements_1,
            path_index_1,
            x1,
            values_1,
            path_elements_2,
            path_index_2,
            x2,
            values_2,
            s@,
        );
    }
}

} // verus!

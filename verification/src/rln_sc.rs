use vstd::prelude::*;
use vstd::arithmetic::power2::pow2;

use crate::address_map::AddressMap;
use crate::event::SimulationEvent;
use crate::field::FieldElement;
use crate::merkle::{
    consistent, initial_nodes, is_merkle_path, leaf_value, leaves_of,
    lemma_consistent_paths_are_merkle_paths, lemma_initial_nodes_consistent, lemma_write_path_keeps_consistency,
    lemma_keys_fit_bounds, merkle_proof, new_tree, partly_written, path_from_nodes, set_leaf, tree_depth,
    tree_keys_fit, tree_nodes, write_path, MerklePath,
};
use crate::protocol::{fe_values, poseidon_hash, spec_poseidon_hash};
use crate::transaction::Address;

use rln::pm_tree_adapter::PmTree;

verus! {

/// The configuration of the contract.
#[derive(Clone, Copy, Debug, PartialEq, Eq, Structural)]
pub struct RlnScServiceConfig {
    /// The message limit of every member; it is what the contract writes at
    /// the member's leaf.
    pub rln_limit: u64,
    /// The balance an address needs to register.
    pub min_token_amount_for_registration: u64,
}

/// A command to the contract.
#[derive(Debug)]
pub enum RlnScCommand {
    /// Slash the member at the address, proving the claim by its identity
    /// secret.
    Slash(Address, FieldElement),
}

/// Why the contract refused a request.
#[derive(Clone, Copy, Debug, PartialEq, Eq, Structural)]
pub enum ScError {
    /// The address holds fewer tokens than registration needs.
    NotEnoughTokens,
    /// The membership tree refused the operation.
    MerkleTree,
}

/// The token balance of an address: 0 where it never received any.
pub open spec fn balance_of(balances: Map<Seq<char>, u64>, address: Seq<char>) -> u64 {
    if balances.contains_key(address) {
        balances[address]
    } else {
        0
    }
}

/// The balances after `amount` tokens are minted to `address`: its balance
/// grows by `amount`, up to `u64::MAX`.
pub open spec fn minted(balances: Map<Seq<char>, u64>, address: Seq<char>, amount: u64) -> Map<
    Seq<char>,
    u64,
> {
    let sum = balance_of(balances, address) + amount;
    balances.insert(address, if sum > u64::MAX { u64::MAX } else { sum as u64 })
}

/// The identity commitment of a secret.
pub open spec fn commitment_of(secret: nat) -> nat {
    spec_poseidon_hash(seq![secret])
}

/// A contract that registers RLN members who hold enough tokens, keeps their
/// leaves in a Poseidon Merkle tree, and slashes a member whose identity
/// secret is revealed.
pub struct RLnScService {
    config: RlnScServiceConfig,
    tree: PmTree,
    members: AddressMap<(FieldElement, usize)>,
    token_balances: AddressMap<u64>,
    user_count: usize,
    tree_whole: Ghost<bool>,
    tree_failures: Ghost<nat>,
}

impl RLnScService {
    pub closed spec fn config(&self) -> RlnScServiceConfig {
        self.config
    }

    /// The nodes stored in the membership tree.
    pub closed spec fn nodes(&self) -> Map<(int, int), nat> {
        tree_nodes(self.tree)
    }

    /// No write to the membership tree has failed half way.
    pub closed spec fn tree_whole(&self) -> bool {
        self.tree_whole@
    }

    /// How many writes within the tree's capacity the tree itself has
    /// failed since it was made.
    pub closed spec fn tree_failures(&self) -> nat {
        self.tree_failures@
    }

    /// The depth of the membership tree.
    pub closed spec fn depth(&self) -> nat {
        tree_depth(self.tree)
    }

    /// Each member's identity commitment and leaf index.
    pub closed spec fn members(&self) -> Map<Seq<char>, (FieldElement, usize)> {
        self.members@
    }

    /// The token balances.
    pub closed spec fn balances(&self) -> Map<Seq<char>, u64> {
        self.token_balances@
    }

    /// How many registrations the contract has made: the next leaf index.
    pub closed spec fn user_count(&self) -> nat {
        self.user_count as nat
    }

    /// The maps hold no address twice, and the tree depth keeps every node
    /// key, and so every leaf index, within a `usize`.
    pub closed spec fn maps_wf(&self) -> bool {
        &&& self.members.wf()
        &&& self.token_balances.wf()
        &&& tree_keys_fit(tree_depth(self.tree))
    }

    /// While no tree write failed half way every node of the tree is the hash
    /// of its children; registrations stay within the tree; every member has
    /// a leaf of its own, below the next index; and only a tree of depth at
    /// least 1 has members.
    pub open spec fn wf(&self) -> bool {
        &&& self.maps_wf()
        &&& forall|a: Seq<char>| #[trigger] self.members().contains_key(a) ==> self.depth() >= 1
        &&& self.tree_whole() ==> consistent(self.nodes(), self.depth())
        &&& self.user_count() <= pow2(self.depth())
        &&& forall|a: Seq<char>| #[trigger] self.members().contains_key(a) ==> self.members()[a].1 < self.user_count()
        &&& forall|a: Seq<char>, b: Seq<char>|
            #[trigger] self.members().contains_key(a) && #[trigger] self.members().contains_key(b) && a != b
                ==> self.members()[a].1 != self.members()[b].1
    }

    /// A contract with no members and no balances, over an empty tree of the
    /// given depth.
    pub fn new(config: RlnScServiceConfig, tree_depth: usize) -> (res: Result<Self, ScError>)
        requires
            tree_keys_fit(tree_depth as nat),
        ensures
            res matches Ok(s) ==> {
                &&& s.wf()
                &&& s.config() == config
                &&& s.depth() == tree_depth
                &&& s.nodes() == initial_nodes(tree_depth as nat)
                &&& s.tree_whole()
                &&& s.tree_failures() == 0
                &&& s.members() == Map::<Seq<char>, (FieldElement, usize)>::empty()
                &&& s.balances() == Map::<Seq<char>, u64>::empty()
                &&& s.user_count() == 0
            },
            res matches Err(e) ==> e == ScError::MerkleTree,
    {
        match new_tree(tree_depth) {
            Ok(tree) => {
                proof {
                    lemma_initial_nodes_consistent(tree_depth as nat);
                }
                Ok(
                    RLnScService {
                        config,
                        tree,
                        members: AddressMap::new(),
                        token_balances: AddressMap::new(),
                        user_count: 0,
                        tree_whole: Ghost(true),
                        tree_failures: Ghost(0),
                    },
                )
            },
            Err(_) => Err(ScError::MerkleTree),
        }
    }

    /// Gives `amount` tokens to `address`; its balance saturates at
    /// `u64::MAX`.
    pub fn mint(&mut self, address: Address, amount: u64)
        requires
            old(self).wf(),
        ensures
            final(self).wf(),
            final(self).balances() == minted(old(self).balances(), address@, amount),
            final(self).members() == old(self).members(),
            final(self).nodes() == old(self).nodes(),
            final(self).tree_whole() == old(self).tree_whole(),
            final(self).tree_failures() == old(self).tree_failures(),
            final(self).depth() == old(self).depth(),
            final(self).user_count() == old(self).user_count(),
            final(self).config() == old(self).config(),
    {
        let balance = match self.token_balances.get(&address) {
            Some(b) => (*b).saturating_add(amount),
            None => amount,
        };
        self.token_balances.insert(address, balance);
        assert(self.members() == old(self).members());
    }

    /// Registers `address` with identity commitment `id_co` at the next leaf,
    /// where its balance reaches the registration minimum, and writes the
    /// message limit at that leaf. Returns the leaf index.
    pub fn register_user(&mut self, address: Address, id_co: FieldElement) -> (res: Result<usize, ScError>)
        requires
            old(self).wf(),
            old(self).depth() >= 1 || balance_of(old(self).balances(), address@)
                < old(self).config().min_token_amount_for_registration,
        ensures
            final(self).wf(),
            final(self).config() == old(self).config(),
            final(self).balances() == old(self).balances(),
            final(self).depth() == old(self).depth(),
            res matches Err(ScError::NotEnoughTokens) <==> balance_of(old(self).balances(), address@)
                < old(self).config().min_token_amount_for_registration,
            balance_of(old(self).balances(), address@) >= old(self).config().min_token_amount_for_registration
                && old(self).user_count() >= pow2(old(self).depth()) ==> res matches Err(ScError::MerkleTree),
            res matches Ok(i) ==> {
                &&& i == old(self).user_count()
                &&& final(self).user_count() == i + 1
                &&& final(self).members() == old(self).members().insert(address@, (id_co, i))
                &&& final(self).nodes() == write_path(
                    old(self).nodes(),
                    old(self).depth(),
                    i as int,
                    old(self).config().rln_limit as nat,
                    old(self).depth(),
                )
                &&& final(self).tree_whole() == old(self).tree_whole()
            },
            res is Err ==> final(self).members() == old(self).members() && final(self).user_count()
                == old(self).user_count(),
            res matches Err(ScError::NotEnoughTokens) ==> final(self).nodes() == old(self).nodes()
                && final(self).tree_whole() == old(self).tree_whole(),
            res matches Err(ScError::MerkleTree) ==> partly_written(
                old(self).nodes(),
                final(self).nodes(),
                old(self).depth(),
                old(self).user_count() as int,
                old(self).config().rln_limit as nat,
            ),
            final(self).tree_failures() == old(self).tree_failures() + if res matches Err(ScError::MerkleTree)
                && old(self).user_count() < pow2(old(self).depth()) {
                1nat
            } else {
                0nat
            },
            balance_of(old(self).balances(), address@) >= old(self).config().min_token_amount_for_registration
                && old(self).user_count() < pow2(old(self).depth()) && final(self).tree_failures()
                == old(self).tree_failures() ==> (res matches Ok(i) && i == old(self).user_count()),
    {
        let token_balance = match self.token_balances.get(&address) {
            Some(b) => *b,
            None => 0,
        };
        if token_balance < self.config.min_token_amount_for_registration {
            return Err(ScError::NotEnoughTokens);
        }
        let limit = FieldElement::from_u64(self.config.rln_limit);
        match set_leaf(&mut self.tree, self.user_count, &limit) {
            Ok(()) => {},
            Err(_) => {
                assert(self.members() == old(self).members());
                let ghost whole = self.tree_whole@ && self.nodes() == old(self).nodes();
                self.tree_whole = Ghost(whole);
                let ghost failures = if self.user_count < pow2(self.depth()) {
                    self.tree_failures@ + 1
                } else {
                    self.tree_failures@
                };
                self.tree_failures = Ghost(failures);
                return Err(ScError::MerkleTree);
            },
        }
        proof {
            lemma_keys_fit_bounds(tree_depth(self.tree));
            if self.tree_whole@ {
                lemma_write_path_keeps_consistency(
                    old(self).nodes(),
                    old(self).depth(),
                    old(self).user_count() as int,
                    old(self).config().rln_limit as nat,
                );
            }
        }
        let result = self.user_count;
        let ghost old_members = self.members@;
        assert(old_members == old(self).members());
        self.members.insert(address, (id_co, result));
        self.user_count += 1;
        proof {
            assert forall|a: Seq<char>, b: Seq<char>|
                #[trigger] self.members().contains_key(a) && #[trigger] self.members().contains_key(b) && a != b
                    implies self.members()[a].1 != self.members()[b].1 by {
                if a != address@ && b != address@ {
                    assert(old_members.contains_key(a) && old_members.contains_key(b));
                } else if a == address@ {
                    assert(old_members.contains_key(b));
                } else {
                    assert(old_members.contains_key(a));
                }
            }
            assert forall|a: Seq<char>| #[trigger] self.members().contains_key(a) implies self.members()[a].1
                < self.user_count() by {
                if a != address@ {
                    assert(old_members.contains_key(a));
                }
            }
        }
        Ok(result)
    }

    /// The Merkle path of the leaf at `user_index_in_merkle_tree`.
    pub fn get_merkle_proof(&self, user_index_in_merkle_tree: usize) -> (res: Result<MerklePath, ScError>)
        requires
            self.wf(),
        ensures
            user_index_in_merkle_tree >= pow2(self.depth()) ==> res is Err,
            res matches Ok(p) ==> path_from_nodes(self.nodes(), self.depth(), user_index_in_merkle_tree as int, p),
            self.tree_whole() ==> (res matches Ok(p) ==> is_merkle_path(
                leaves_of(self.nodes(), self.depth()),
                self.depth(),
                user_index_in_merkle_tree as int,
                p,
            )),
            res matches Err(e) ==> e == ScError::MerkleTree,
    {
        match merkle_proof(&self.tree, user_index_in_merkle_tree) {
            Ok(p) => {
                proof {
                    if self.tree_whole@ {
                        lemma_consistent_paths_are_merkle_paths(
                            self.nodes(),
                            self.depth(),
                            user_index_in_merkle_tree as int,
                            p,
                        );
                    }
                }
                Ok(p)
            },
            Err(_) => Err(ScError::MerkleTree),
        }
    }

    /// Slashes the member at `sender` where its identity commitment is
    /// `recovered_id_co`: takes its tokens, zeroes its leaf and reports it
    /// slashed. Changes nothing where there is no such member.
    pub fn slash_member(&mut self, sender: Address, recovered_id_co: FieldElement) -> (res: Result<
        Option<SimulationEvent>,
        ScError,
    >)
        requires
            old(self).wf(),
        ensures
            final(self).wf(),
            final(self).config() == old(self).config(),
            final(self).members() == old(self).members(),
            final(self).user_count() == old(self).user_count(),
            final(self).depth() == old(self).depth(),
            slash_outcome(*old(self), *final(self), sender@, recovered_id_co@, res),
    {
        let member = match self.members.get(&sender) {
            Some(m) => Some(*m),
            None => None,
        };
        match member {
            Some((id_co, index_in_mt)) => {
                proof {
                    if id_co@ == recovered_id_co@ {
                        FieldElement::lemma_view_injective(id_co, recovered_id_co);
                    }
                }
                if id_co == recovered_id_co {
                    self.token_balances.remove(&sender);
                    assert(self.members() == old(self).members());
                    let zero = FieldElement::zero();
                    match set_leaf(&mut self.tree, index_in_mt, &zero) {
                        Ok(()) => {
                            proof {
                                if self.tree_whole@ {
                                    lemma_write_path_keeps_consistency(
                                        old(self).nodes(),
                                        old(self).depth(),
                                        index_in_mt as int,
                                        0,
                                    );
                                }
                            }
                            Ok(Some(SimulationEvent::Slashed(sender)))
                        },
                        Err(_) => {
                            let ghost whole = self.tree_whole@ && self.nodes() == old(self).nodes();
                            self.tree_whole = Ghost(whole);
                            let ghost failures = self.tree_failures@ + 1;
                            self.tree_failures = Ghost(failures);
                            Err(ScError::MerkleTree)
                        },
                    }
                } else {
                    assert(self.members() == old(self).members());
                    Ok(None)
                }
            },
            None => {
                assert(self.members() == old(self).members());
                Ok(None)
            },
        }
    }

    /// Carries out a command. A slash claim for a member whose commitment is
    /// the commitment of the given secret takes the member's tokens, zeroes
    /// its leaf and reports it slashed; any other claim changes nothing.
    pub fn handle_command(&mut self, cmd: RlnScCommand) -> (res: Result<Option<SimulationEvent>, ScError>)
        requires
            old(self).wf(),
        ensures
            final(self).wf(),
            final(self).config() == old(self).config(),
            final(self).members() == old(self).members(),
            final(self).user_count() == old(self).user_count(),
            final(self).depth() == old(self).depth(),
            match cmd {
                RlnScCommand::Slash(sender, secret) => slash_outcome(
                    *old(self),
                    *final(self),
                    sender@,
                    commitment_of(secret@),
                    res,
                ),
            },
    {
        match cmd {
            RlnScCommand::Slash(sender, id_secret) => {
                let inputs = [id_secret];
                proof {
                    assert(fe_values(inputs@) =~= seq![id_secret@]);
                }
                let recovered_id_co = poseidon_hash(&inputs);
                self.slash_member(sender, recovered_id_co)
            },
        }
    }
}

/// What a slash claim against `sender` with identity commitment `recovered`
/// does: where `sender` is a member with that commitment, its tokens are
/// taken, and either its leaf is zeroed and it is reported slashed, or the
/// tree's own write fails (counted in `tree_failures`) part of the way
/// through zeroing it; otherwise nothing changes. An error comes exactly
/// where the tree counts one more failed write.
pub open spec fn slash_outcome(
    pre: RLnScService,
    post: RLnScService,
    sender: Seq<char>,
    recovered: nat,
    res: Result<Option<SimulationEvent>, ScError>,
) -> bool {
    let claim_holds = slash_claim_holds(pre, sender, recovered);
    let index = pre.members()[sender].1 as int;
    &&& post.tree_failures() == pre.tree_failures() + if res is Err {
        1nat
    } else {
        0nat
    }
    &&& !claim_holds ==> (res matches Ok(None) && post.balances() == pre.balances() && post.nodes()
        == pre.nodes() && post.tree_whole() == pre.tree_whole())
    &&& claim_holds ==> post.balances() == pre.balances().remove(sender)
    &&& claim_holds ==> (res matches Ok(Some(SimulationEvent::Slashed(a))) && a@ == sender && post.nodes()
        == write_path(pre.nodes(), pre.depth(), index, 0, pre.depth()) && post.tree_whole() == pre.tree_whole())
        || (res matches Err(ScError::MerkleTree) && partly_written(pre.nodes(), post.nodes(), pre.depth(), index, 0))
}

/// `sender` is a member whose identity commitment is `recovered`.
pub open spec fn slash_claim_holds(pre: RLnScService, sender: Seq<char>, recovered: nat) -> bool {
    pre.members().contains_key(sender) && pre.members()[sender].0@ == recovered
}

impl RLnScService {
    /// The token balance of an address.
    pub fn token_balance(&self, address: &Address) -> (r: u64)
        requires
            self.wf(),
        ensures
            r == balance_of(self.balances(), address@),
    {
        match self.token_balances.get(address) {
            Some(b) => *b,
            None => 0,
        }
    }

    /// The identity commitment and leaf index of a member.
    pub fn member(&self, address: &Address) -> (r: Option<(FieldElement, usize)>)
        requires
            self.wf(),
        ensures
            r is Some <==> self.members().contains_key(address@),
            r matches Some(m) ==> m == self.members()[address@],
    {
        match self.members.get(address) {
            Some(m) => Some(*m),
            None => None,
        }
    }

    /// The balance an address needs to register.
    pub fn min_token_amount_for_registration(&self) -> (r: u64)
        ensures
            r == self.config().min_token_amount_for_registration,
    {
        self.config.min_token_amount_for_registration
    }

    /// How many registrations the contract has made.
    pub fn registered_count(&self) -> (r: usize)
        ensures
            r == self.user_count(),
    {
        self.user_count
    }
}

/// A member that was slashed holds no tokens, so it cannot register again
/// while registration needs any: `register_user` refuses it with
/// `NotEnoughTokens` until tokens are minted to it again.
pub proof fn lemma_slashed_cannot_register(
    pre: RLnScService,
    post: RLnScService,
    sender: Seq<char>,
    recovered: nat,
    res: Result<Option<SimulationEvent>, ScError>,
)
    requires
        slash_outcome(pre, post, sender, recovered, res),
        slash_claim_holds(pre, sender, recovered),
        post.config().min_token_amount_for_registration > 0,
    ensures
        balance_of(post.balances(), sender) < post.config().min_token_amount_for_registration,
{
}

/// A slash claim that holds, answered without a failed write of the tree,
/// slashes the member: it is reported slashed, its tokens are gone, and its
/// leaf, which lies within the tree, is rewritten to 0 along its whole path;
/// where the tree was whole that leaf alone changes.
pub proof fn lemma_holding_claim_slashes(
    pre: RLnScService,
    post: RLnScService,
    sender: Seq<char>,
    recovered: nat,
    res: Result<Option<SimulationEvent>, ScError>,
)
    requires
        pre.wf(),
        slash_outcome(pre, post, sender, recovered, res),
        slash_claim_holds(pre, sender, recovered),
        post.tree_failures() == pre.tree_failures(),
    ensures
        res matches Ok(Some(SimulationEvent::Slashed(a))) && a@ == sender,
        !post.balances().contains_key(sender),
        pre.members()[sender].1 < pow2(pre.depth()),
        post.nodes() == write_path(pre.nodes(), pre.depth(), pre.members()[sender].1 as int, 0, pre.depth()),
        pre.tree_whole() ==> leaves_of(post.nodes(), pre.depth()) == leaves_of(pre.nodes(), pre.depth()).insert(
            pre.members()[sender].1 as int,
            0,
        ),
{
    if pre.tree_whole() {
        lemma_write_path_keeps_consistency(pre.nodes(), pre.depth(), pre.members()[sender].1 as int, 0);
    }
}

/// A stream of slash claims, each answered as `handle_command` answers it
/// and none refused by the tree.
pub open spec fn slash_stream(
    states: Seq<RLnScService>,
    senders: Seq<Seq<char>>,
    commitments: Seq<nat>,
    results: Seq<Result<Option<SimulationEvent>, ScError>>,
) -> bool {
    &&& states.len() == senders.len() + 1
    &&& commitments.len() == senders.len()
    &&& results.len() == senders.len()
    &&& forall|i: int| 0 <= i < states.len() ==> #[trigger] states[i].wf()
    &&& forall|i: int|
        0 <= i < senders.len() ==> #[trigger] slash_outcome(states[i], states[i + 1], senders[i], commitments[i], results[i])
            && states[i + 1].members() == states[i].members() && states[i + 1].depth() == states[i].depth()
    &&& forall|i: int| 0 <= i < senders.len() ==> #[trigger] results[i] is Ok
}

/// Among the first `n` claims, one against `a` holds.
pub open spec fn slashed_among(pre: RLnScService, senders: Seq<Seq<char>>, commitments: Seq<nat>, n: int, a: Seq<char>) -> bool {
    exists|j: int| 0 <= j < n && #[trigger] senders[j] == a && slash_claim_holds(pre, senders[j], commitments[j])
}

/// Among the first `n` claims, one holds against the member at leaf `index`.
pub open spec fn leaf_slashed_among(
    pre: RLnScService,
    senders: Seq<Seq<char>>,
    commitments: Seq<nat>,
    n: int,
    index: int,
) -> bool {
    exists|j: int|
        0 <= j < n && #[trigger] slash_claim_holds(pre, senders[j], commitments[j]) && pre.members()[senders[j]].1 == index
}

/// Step `i` of a slash stream: the claim is answered as `handle_command`
/// answers it, the tree does not refuse it, and both states are well formed.
proof fn lemma_slash_stream_step(
    states: Seq<RLnScService>,
    senders: Seq<Seq<char>>,
    commitments: Seq<nat>,
    results: Seq<Result<Option<SimulationEvent>, ScError>>,
    i: int,
)
    requires
        slash_stream(states, senders, commitments, results),
        0 <= i < senders.len(),
    ensures
        slash_outcome(states[i], states[i + 1], senders[i], commitments[i], results[i]),
        states[i + 1].members() == states[i].members(),
        states[i + 1].depth() == states[i].depth(),
        results[i] is Ok,
        states[i].wf(),
        states[i + 1].wf(),
{
    assert(states[i].wf());
    assert(states[i + 1].wf());
    assert(slash_outcome(states[i], states[i + 1], senders[i], commitments[i], results[i]));
    assert(results[i] is Ok);
}

/// Over a stream of slash claims that the tree does not refuse, each claim
/// is reported slashed exactly where the sender is a member with that
/// commitment; the members stay; the slashed senders lose their balances and
/// all others keep theirs; and, while the tree is whole, exactly the leaves
/// of the slashed members become 0.
pub proof fn lemma_slash_stream(
    states: Seq<RLnScService>,
    senders: Seq<Seq<char>>,
    commitments: Seq<nat>,
    results: Seq<Result<Option<SimulationEvent>, ScError>>,
)
    requires
        slash_stream(states, senders, commitments, results),
    ensures
        states.last().members() == states[0].members(),
        states.last().depth() == states[0].depth(),
        forall|i: int|
            0 <= i < senders.len() ==> ((#[trigger] results[i] matches Ok(Some(SimulationEvent::Slashed(x))) && x@
                == senders[i]) <==> slash_claim_holds(states[0], senders[i], commitments[i])),
        forall|i: int|
            0 <= i < senders.len() ==> (results[i] matches Ok(None) <==> !slash_claim_holds(
                states[0],
                #[trigger] senders[i],
                commitments[i],
            )),
        states.last().balances() == states[0].balances().remove_keys(
            Set::new(|a: Seq<char>| slashed_among(states[0], senders, commitments, senders.len() as int, a)),
        ),
        states[0].tree_whole() ==> states.last().tree_whole(),
        states[0].tree_whole() ==> forall|index: int|
            0 <= index ==> #[trigger] leaf_value(leaves_of(states.last().nodes(), states[0].depth()), index) == if leaf_slashed_among(
                states[0],
                senders,
                commitments,
                senders.len() as int,
                index,
            ) {
                0
            } else {
                leaf_value(leaves_of(states[0].nodes(), states[0].depth()), index)
            },
    decreases senders.len(),
{
    let n = senders.len() as int;
    let set_n = Set::new(|a: Seq<char>| slashed_among(states[0], senders, commitments, n, a));
    if n == 0 {
        assert(states[0].balances().remove_keys(set_n) =~= states[0].balances());
    } else {
        let m = n - 1;
        let st = states.drop_last();
        let se = senders.drop_last();
        let co = commitments.drop_last();
        let re = results.drop_last();
        assert forall|i: int| 0 <= i < st.len() implies #[trigger] st[i].wf() by {
            if i < m {
                lemma_slash_stream_step(states, senders, commitments, results, i);
            } else {
                lemma_slash_stream_step(states, senders, commitments, results, m);
            }
        }
        assert forall|i: int| 0 <= i < se.len() implies #[trigger] slash_outcome(st[i], st[i + 1], se[i], co[i], re[i])
            && st[i + 1].members() == st[i].members() && st[i + 1].depth() == st[i].depth() by {
            lemma_slash_stream_step(states, senders, commitments, results, i);
        }
        assert forall|i: int| 0 <= i < se.len() implies #[trigger] re[i] is Ok by {
            lemma_slash_stream_step(states, senders, commitments, results, i);
        }
        lemma_slash_stream(st, se, co, re);
        lemma_slash_stream_step(states, senders, commitments, results, m);
        let pre = states[m];
        let post = states[m + 1];
        assert(st.last() == pre);
        assert(slash_outcome(pre, post, senders[m], commitments[m], results[m]));
        assert(results[m] is Ok);
        assert(pre.wf() && post.wf());
        let holds = slash_claim_holds(states[0], senders[m], commitments[m]);
        assert(slash_claim_holds(pre, senders[m], commitments[m]) == holds);
        // claims of the earlier steps are unchanged by taking a prefix
        assert forall|a: Seq<char>| slashed_among(states[0], se, co, m, a) == slashed_among(states[0], senders, commitments, m, a) by {
            if slashed_among(states[0], se, co, m, a) {
                let j = choose|j: int| 0 <= j < m && #[trigger] se[j] == a && slash_claim_holds(states[0], se[j], co[j]);
                assert(senders[j] == a);
            }
            if slashed_among(states[0], senders, commitments, m, a) {
                let j = choose|j: int| 0 <= j < m && #[trigger] senders[j] == a && slash_claim_holds(states[0], senders[j], commitments[j]);
                assert(se[j] == a);
            }
        }
        let set_m = Set::new(|a: Seq<char>| slashed_among(states[0], se, co, m, a));
        assert forall|a: Seq<char>| #[trigger] set_n.contains(a) == (set_m.contains(a) || (holds && a == senders[m])) by {
            if slashed_among(states[0], senders, commitments, n, a) {
                let j = choose|j: int| 0 <= j < n && #[trigger] senders[j] == a && slash_claim_holds(states[0], senders[j], commitments[j]);
                if j < m {
                    assert(slashed_among(states[0], senders, commitments, m, a));
                }
            }
            if set_m.contains(a) {
                let j = choose|j: int| 0 <= j < m && #[trigger] senders[j] == a && slash_claim_holds(states[0], senders[j], commitments[j]);
                assert(slashed_among(states[0], senders, commitments, n, a));
            }
            if holds && a == senders[m] {
                assert(slashed_among(states[0], senders, commitments, n, a));
            }
        }
        if holds {
            assert(post.balances() =~= states[0].balances().remove_keys(set_n));
        } else {
            assert(post.balances() =~= states[0].balances().remove_keys(set_n));
        }
        assert forall|i: int|
            0 <= i < senders.len() implies ((#[trigger] results[i] matches Ok(Some(SimulationEvent::Slashed(x))) && x@
                == senders[i]) <==> slash_claim_holds(states[0], senders[i], commitments[i])) by {
            if i < m {
                assert(re[i] == results[i] && se[i] == senders[i] && co[i] == commitments[i]);
            }
        }
        assert forall|i: int|
            0 <= i < senders.len() implies (results[i] matches Ok(None) <==> !slash_claim_holds(
                states[0],
                #[trigger] senders[i],
                commitments[i],
            )) by {
            if i < m {
                assert(re[i] == results[i] && se[i] == senders[i] && co[i] == commitments[i]);
            }
        }
        if states[0].tree_whole() {
            let d = states[0].depth();
            assert(pre.tree_whole());
            assert forall|index: int| 0 <= index implies #[trigger] leaf_value(leaves_of(post.nodes(), d), index) == if leaf_slashed_among(
                states[0],
                senders,
                commitments,
                n,
                index,
            ) {
                0
            } else {
                leaf_value(leaves_of(states[0].nodes(), d), index)
            } by {
                assert(leaf_value(leaves_of(pre.nodes(), d), index) == if leaf_slashed_among(states[0], se, co, m, index) {
                    0
                } else {
                    leaf_value(leaves_of(states[0].nodes(), d), index)
                });
                assert(leaf_slashed_among(states[0], se, co, m, index) == leaf_slashed_among(states[0], senders, commitments, m, index)) by {
                    if leaf_slashed_among(states[0], se, co, m, index) {
                        let j = choose|j: int| 0 <= j < m && #[trigger] slash_claim_holds(states[0], se[j], co[j]) && states[0].members()[se[j]].1 == index;
                        assert(slash_claim_holds(states[0], senders[j], commitments[j]));
                    }
                    if leaf_slashed_among(states[0], senders, commitments, m, index) {
                        let j = choose|j: int| 0 <= j < m && #[trigger] slash_claim_holds(states[0], senders[j], commitments[j]) && states[0].members()[senders[j]].1 == index;
                        assert(slash_claim_holds(states[0], se[j], co[j]));
                    }
                }
                let k = states[0].members()[senders[m]].1 as int;
                assert(leaf_slashed_among(states[0], senders, commitments, n, index) == (leaf_slashed_among(states[0], senders, commitments, m, index) || (holds && k == index))) by {
                    if leaf_slashed_among(states[0], senders, commitments, n, index) {
                        let j = choose|j: int| 0 <= j < n && #[trigger] slash_claim_holds(states[0], senders[j], commitments[j]) && states[0].members()[senders[j]].1 == index;
                        if j < m {
                            assert(leaf_slashed_among(states[0], senders, commitments, m, index));
                        }
                    }
                    if leaf_slashed_among(states[0], senders, commitments, m, index) {
                        let j = choose|j: int| 0 <= j < m && #[trigger] slash_claim_holds(states[0], senders[j], commitments[j]) && states[0].members()[senders[j]].1 == index;
                        assert(leaf_slashed_among(states[0], senders, commitments, n, index));
                    }
                    if holds && k == index {
                        assert(leaf_slashed_among(states[0], senders, commitments, n, index));
                    }
                }
                if holds {
                    lemma_write_path_keeps_consistency(pre.nodes(), d, k, 0);
                    assert(post.nodes() == write_path(pre.nodes(), d, k, 0, d));
                } else {
                    assert(post.nodes() == pre.nodes());
                }
            }
        }
    }
}

} // verus!

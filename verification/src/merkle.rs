use vstd::prelude::*;
use vstd::arithmetic::power2::pow2;

use crate::field::FieldElement;
use crate::protocol::{fe_values, root_from_path, spec_poseidon_hash};

use ark_bn254::Fr;
use ark_ff::{BigInt, PrimeField};
use rln::pm_tree_adapter::PmTree;
use zerokit_utils::error::ZerokitMerkleTreeError;
use zerokit_utils::{ZerokitMerkleProof, ZerokitMerkleTree};

verus! {

#[verifier::external_type_specification]
#[verifier::external_body]
pub struct ExPmTree(PmTree);

#[verifier::external_type_specification]
#[verifier::external_body]
pub struct ExZerokitMerkleTreeError(ZerokitMerkleTreeError);

/// The nodes that a Poseidon Merkle tree has stored, by `(level, index)`,
/// as integers: level 0 is the root, level `depth` the leaves.
pub uninterp spec fn tree_nodes(tree: PmTree) -> Map<(int, int), nat>;

/// The depth a Poseidon Merkle tree was made with.
pub uninterp spec fn tree_depth(tree: PmTree) -> nat;

/// How many leaves the tree has room for.
pub open spec fn tree_capacity(tree: PmTree) -> nat {
    pow2(tree_depth(tree))
}

/// The Poseidon hash of two children.
pub open spec fn hash_pair(left: nat, right: nat) -> nat {
    spec_poseidon_hash(seq![left, right])
}

/// The value of a node at `level` below which nothing was ever written: a
/// leaf is 0, and a node above is the hash of two such children.
pub open spec fn default_node(depth: nat, level: nat) -> nat
    decreases depth - level,
{
    if level >= depth {
        0
    } else {
        let child = default_node(depth, level + 1);
        hash_pair(child, child)
    }
}

/// The value the tree reads for a node: the stored one, else the default
/// of its level.
pub open spec fn node_at(nodes: Map<(int, int), nat>, depth: nat, level: nat, index: int) -> nat {
    if nodes.contains_key((level as int, index)) {
        nodes[(level as int, index)]
    } else {
        default_node(depth, level)
    }
}

/// The nodes a new tree stores: the default node of each level at index 0.
pub open spec fn initial_nodes(depth: nat) -> Map<(int, int), nat> {
    Map::new(
        |k: (int, int)| 0 <= k.0 <= depth && k.1 == 0,
        |k: (int, int)| default_node(depth, k.0 as nat),
    )
}

/// The nodes after leaf `index` was written with `leaf`, and then the first
/// `steps` of its ancestors, from the bottom, were written with the hash of
/// their children.
pub open spec fn write_path(
    nodes: Map<(int, int), nat>,
    depth: nat,
    index: int,
    leaf: nat,
    steps: nat,
) -> Map<(int, int), nat>
    decreases steps,
{
    if steps == 0 {
        nodes.insert((depth as int, index), leaf)
    } else {
        let prev = write_path(nodes, depth, index, leaf, (steps - 1) as nat);
        let level = depth - steps;
        let parent = index / pow2(steps) as int;
        prev.insert(
            (level, parent),
            hash_pair(
                node_at(prev, depth, (level + 1) as nat, 2 * parent),
                node_at(prev, depth, (level + 1) as nat, 2 * parent + 1),
            ),
        )
    }
}

/// What a failed write may have left: the nodes before it, or those after
/// some first steps of it.
pub open spec fn partly_written(
    before: Map<(int, int), nat>,
    after: Map<(int, int), nat>,
    depth: nat,
    index: int,
    leaf: nat,
) -> bool {
    after == before || exists|steps: nat| steps <= depth && after == #[trigger] write_path(before, depth, index, leaf, steps)
}

/// The leaves that the nodes hold.
pub open spec fn leaves_of(nodes: Map<(int, int), nat>, depth: nat) -> Map<int, nat> {
    Map::new(|i: int| nodes.contains_key((depth as int, i)), |i: int| nodes[(depth as int, i)])
}

/// The value of leaf `index`.
pub open spec fn leaf_value(leaves: Map<int, nat>, index: int) -> nat {
    if leaves.contains_key(index) {
        leaves[index]
    } else {
        0
    }
}

/// Node `index` at `level` of the Poseidon Merkle tree of the given depth
/// over `leaves`: level `depth` holds the leaves, and each node above is the
/// hash of its two children.
pub open spec fn merkle_node(leaves: Map<int, nat>, depth: nat, level: nat, index: int) -> nat
    decreases depth - level,
{
    if level >= depth {
        leaf_value(leaves, index)
    } else {
        hash_pair(
            merkle_node(leaves, depth, level + 1, 2 * index),
            merkle_node(leaves, depth, level + 1, 2 * index + 1),
        )
    }
}

/// Node `index` at `level` is the hash of its two children.
pub open spec fn consistent_at(nodes: Map<(int, int), nat>, depth: nat, level: nat, index: int) -> bool {
    node_at(nodes, depth, level, index) == hash_pair(
        node_at(nodes, depth, level + 1, 2 * index),
        node_at(nodes, depth, level + 1, 2 * index + 1),
    )
}

/// Every node above the leaves is the hash of its two children.
pub open spec fn consistent(nodes: Map<(int, int), nat>, depth: nat) -> bool {
    forall|level: nat, index: int| level < depth ==> #[trigger] consistent_at(nodes, depth, level, index)
}

/// The other child of the parent of node `index`.
pub open spec fn sibling(index: int) -> int {
    if index % 2 == 0 {
        index + 1
    } else {
        index - 1
    }
}

/// A Merkle path: the sibling of each node from the leaf up, and for each
/// level 0 where the node is a left child, 1 where it is a right child.
#[derive(Debug)]
pub struct MerklePath {
    pub path_elements: Vec<FieldElement>,
    pub path_index: Vec<u8>,
}

/// `path` reads, for leaf `index`, the sibling of each node from the leaf
/// up out of the stored nodes, and the side of each node.
pub open spec fn path_from_nodes(nodes: Map<(int, int), nat>, depth: nat, index: int, path: MerklePath) -> bool {
    &&& path.path_elements@.len() == depth
    &&& path.path_index@.len() == depth
    &&& forall|k: int|
        0 <= k < depth ==> #[trigger] path.path_elements@[k]@ == node_at(
            nodes,
            depth,
            (depth - k) as nat,
            sibling(index / pow2(k as nat) as int),
        ) && path.path_index@[k] == (index / pow2(k as nat) as int) % 2
}

/// `path` is the Merkle path of leaf `index` in the tree of the given depth
/// over `leaves`.
pub open spec fn is_merkle_path(leaves: Map<int, nat>, depth: nat, index: int, path: MerklePath) -> bool {
    &&& path.path_elements@.len() == depth
    &&& path.path_index@.len() == depth
    &&& forall|k: int|
        0 <= k < depth ==> #[trigger] path.path_elements@[k]@ == merkle_node(
            leaves,
            depth,
            (depth - k) as nat,
            sibling(index / pow2(k as nat) as int),
        ) && path.path_index@[k] == (index / pow2(k as nat) as int) % 2
}

/// The tree stores node `(level, index)` under the key
/// `(level + index) * (level + index + 1) / 2 + index`, computed in `usize`.
/// For a tree of this depth every such key, and every product on the way to
/// it, fits in a `usize`: the largest sum `level + index` is below
/// `depth + 2^depth`.
pub open spec fn tree_keys_fit(depth: nat) -> bool {
    let m = depth + pow2(depth);
    m * (m + 1) <= usize::MAX
}

/// A depth whose keys fit has a capacity that fits in a `usize`, and is
/// below `usize::BITS`.
pub proof fn lemma_keys_fit_bounds(depth: nat)
    requires
        tree_keys_fit(depth),
    ensures
        pow2(depth) <= usize::MAX,
        depth < usize::BITS,
{
    let m = depth + pow2(depth);
    assert(m <= m * (m + 1)) by (nonlinear_arith)
        requires
            m >= 0,
    ;
    vstd::arithmetic::power2::lemma2_to64();
    assert(usize::BITS == 32 || usize::BITS == 64);
    if depth >= usize::BITS {
        if depth > usize::BITS {
            vstd::arithmetic::power2::lemma_pow2_strictly_increases(usize::BITS as nat, depth);
        }
        if usize::BITS == 32 {
            assert(usize::MAX == 0xffff_ffff);
        } else {
            assert(usize::MAX == 0xffff_ffff_ffff_ffff);
        }
    }
}

/// Whether a tree of this depth keeps every node key within a `usize`.
pub fn supported_tree_depth(depth: usize) -> (r: bool)
    ensures
        r == tree_keys_fit(depth as nat),
{
    let mut cap: usize = 1;
    let mut i: usize = 0;
    proof {
        vstd::arithmetic::power2::lemma2_to64();
    }
    while i < depth
        invariant
            i <= depth,
            cap == pow2(i as nat),
        decreases depth - i,
    {
        proof {
            vstd::arithmetic::power2::lemma_pow2_unfold((i + 1) as nat);
        }
        match cap.checked_mul(2) {
            Some(c) => {
                cap = c;
            },
            None => {
                proof {
                    if i + 1 < depth {
                        vstd::arithmetic::power2::lemma_pow2_strictly_increases((i + 1) as nat, depth as nat);
                    }
                    let m = depth + pow2(depth as nat);
                    assert(m <= m * (m + 1)) by (nonlinear_arith)
                        requires
                            m >= 0,
                    ;
                }
                return false;
            },
        }
        i = i + 1;
    }
    let ghost m = depth + pow2(depth as nat);
    match depth.checked_add(cap) {
        None => {
            proof {
                assert(m <= m * (m + 1)) by (nonlinear_arith)
                    requires
                        m >= 0,
                ;
            }
            false
        },
        Some(m0) => match m0.checked_add(1) {
            None => {
                proof {
                    assert(m + 1 <= m * (m + 1)) by (nonlinear_arith)
                        requires
                            m >= 1,
                    ;
                }
                false
            },
            Some(m1) => match m0.checked_mul(m1) {
                Some(_) => true,
                None => false,
            },
        },
    }
}

/// Calls `ZerokitMerkleTree::default` for rln's Poseidon tree: a tree of
/// the given depth in a fresh temporary database, which stores the default
/// node of each level at index 0. It computes `1 << depth`, which overflows
/// from `usize::BITS` on, and stores nodes under keys that overflow unless
/// `tree_keys_fit(depth)`. Where the temporary database cannot be made it
/// panics; that is not stated here.
#[verifier::external_body]
pub(crate) fn new_tree(depth: usize) -> (res: Result<PmTree, ZerokitMerkleTreeError>)
    requires
        tree_keys_fit(depth as nat),
    ensures
        res matches Ok(t) ==> tree_nodes(t) == initial_nodes(depth as nat),
        res matches Ok(t) ==> tree_depth(t) == depth,
{
    <PmTree as ZerokitMerkleTree>::default(depth)
}

/// Calls `ZerokitMerkleTree::set`: refuses an index beyond the capacity
/// before it changes anything; otherwise stores the leaf and then, from the
/// bottom up, the hash of the children of each of its ancestors. A database
/// failure stops the writes where it happens. In a tree of depth 0 the
/// rewriting of the ancestors panics, and node keys overflow unless
/// `tree_keys_fit` holds of the depth.
#[verifier::external_body]
pub(crate) fn set_leaf(tree: &mut PmTree, index: usize, leaf: &FieldElement) -> (res: Result<(), ZerokitMerkleTreeError>)
    requires
        tree_keys_fit(tree_depth(*old(tree))),
        tree_depth(*old(tree)) >= 1 || index >= tree_capacity(*old(tree)),
    ensures
        tree_depth(*final(tree)) == tree_depth(*old(tree)),
        index >= tree_capacity(*old(tree)) ==> res is Err,
        index >= tree_capacity(*old(tree)) ==> tree_nodes(*final(tree)) == tree_nodes(*old(tree)),
        res is Ok ==> index < tree_capacity(*old(tree)),
        res is Ok ==> tree_nodes(*final(tree)) == write_path(
            tree_nodes(*old(tree)),
            tree_depth(*old(tree)),
            index as int,
            leaf@,
            tree_depth(*old(tree)),
        ),
        res is Err ==> partly_written(
            tree_nodes(*old(tree)),
            tree_nodes(*final(tree)),
            tree_depth(*old(tree)),
            index as int,
            leaf@,
        ),
{
    tree.set(index, Fr::from(BigInt::new(leaf.limbs())))
}

/// Calls `ZerokitMerkleTree::proof` and reads the path of the proof: for
/// each level from the leaf up, the stored sibling and the side of the node.
/// It refuses an index beyond the capacity; a database failure may refuse
/// other indices. Node keys overflow unless `tree_keys_fit` holds of the
/// depth.
#[verifier::external_body]
pub(crate) fn merkle_proof(tree: &PmTree, index: usize) -> (res: Result<MerklePath, ZerokitMerkleTreeError>)
    requires
        tree_keys_fit(tree_depth(*tree)),
    ensures
        index >= tree_capacity(*tree) ==> res is Err,
        res matches Ok(p) ==> path_from_nodes(tree_nodes(*tree), tree_depth(*tree), index as int, p),
{
    let p = tree.proof(index)?;
    let fe = |v: &Fr| FieldElement::from_canonical_limbs(v.into_bigint().0);
    Ok(MerklePath { path_elements: p.get_path_elements().iter().map(fe).collect(), path_index: p.get_path_index() })
}

/// A new tree is consistent: every node is the default of its level.
pub proof fn lemma_initial_nodes_consistent(depth: nat)
    ensures
        consistent(initial_nodes(depth), depth),
{
    let nodes = initial_nodes(depth);
    assert forall|level: nat, index: int| level < depth implies #[trigger] consistent_at(nodes, depth, level, index) by {
        assert(node_at(nodes, depth, level, index) == default_node(depth, level));
        assert(node_at(nodes, depth, level + 1, 2 * index) == default_node(depth, level + 1));
        assert(node_at(nodes, depth, level + 1, 2 * index + 1) == default_node(depth, level + 1));
    }
}

/// The parent of node `2 * q` and of node `2 * q + 1` is node `q`.
proof fn lemma_half(x: int, q: int)
    requires
        x >= 0,
    ensures
        (x == 2 * q || x == 2 * q + 1) <==> q == x / 2,
{
    vstd::arithmetic::div_mod::lemma_fundamental_div_mod(x, 2);
}

/// After `steps` ancestors of the written leaf were rewritten, every node
/// above the leaves is consistent but for the parent of the last node
/// written.
proof fn lemma_write_path_consistent_but_top(
    nodes: Map<(int, int), nat>,
    depth: nat,
    index: int,
    leaf: nat,
    steps: nat,
)
    requires
        consistent(nodes, depth),
        index >= 0,
        steps <= depth,
    ensures
        forall|level: nat, i: int|
            level < depth && !(steps < depth && level == depth - steps - 1 && i == index / pow2(steps + 1) as int)
                ==> #[trigger] consistent_at(write_path(nodes, depth, index, leaf, steps), depth, level, i),
    decreases steps,
{
    let w = write_path(nodes, depth, index, leaf, steps);
    vstd::arithmetic::power2::lemma_pow2_pos(steps);
    vstd::arithmetic::power2::lemma_pow2_pos(steps + 1);
    vstd::arithmetic::power2::lemma_pow2_unfold(steps + 1);
    vstd::arithmetic::div_mod::lemma_div_denominator(index, pow2(steps) as int, 2);
    assert(index / pow2(steps) as int >= 0) by {
        vstd::arithmetic::div_mod::lemma_div_pos_is_pos(index, pow2(steps) as int);
    }
    if steps == 0 {
        assert(pow2(0) == 1) by {
            vstd::arithmetic::power2::lemma2_to64();
        }
        assert forall|level: nat, i: int|
            level < depth && !(steps < depth && level == depth - steps - 1 && i == index / pow2(steps + 1) as int)
                implies #[trigger] consistent_at(w, depth, level, i) by {
            assert(consistent_at(nodes, depth, level, i));
            if level + 1 == depth {
                lemma_half(index, i);
            }
        }
    } else {
        let s1 = (steps - 1) as nat;
        lemma_write_path_consistent_but_top(nodes, depth, index, leaf, s1);
        let prev = write_path(nodes, depth, index, leaf, s1);
        let level_w = depth - steps;
        let parent = index / pow2(steps) as int;
        assert forall|level: nat, i: int|
            level < depth && !(steps < depth && level == depth - steps - 1 && i == index / pow2(steps + 1) as int)
                implies #[trigger] consistent_at(w, depth, level, i) by {
            if level == level_w && i == parent {
            } else {
                assert(consistent_at(prev, depth, level, i));
                if level + 1 == level_w {
                    lemma_half(parent, i);
                }
            }
        }
    }
}

/// Writing a leaf and then all its ancestors keeps a consistent tree
/// consistent, and changes only that leaf.
pub proof fn lemma_write_path_keeps_consistency(nodes: Map<(int, int), nat>, depth: nat, index: int, leaf: nat)
    requires
        consistent(nodes, depth),
        index >= 0,
    ensures
        consistent(write_path(nodes, depth, index, leaf, depth), depth),
        leaves_of(write_path(nodes, depth, index, leaf, depth), depth) == leaves_of(nodes, depth).insert(index, leaf),
{
    lemma_write_path_consistent_but_top(nodes, depth, index, leaf, depth);
    lemma_write_path_leaves(nodes, depth, index, leaf, depth);
    assert(leaves_of(write_path(nodes, depth, index, leaf, depth), depth) =~= leaves_of(nodes, depth).insert(index, leaf));
}

/// The ancestors that a write rewrites lie above the leaves.
proof fn lemma_write_path_leaves(nodes: Map<(int, int), nat>, depth: nat, index: int, leaf: nat, steps: nat)
    ensures
        forall|i: int|
            #[trigger] write_path(nodes, depth, index, leaf, steps).contains_key((depth as int, i)) == (
            nodes.contains_key((depth as int, i)) || i == index),
        forall|i: int|
            #[trigger] write_path(nodes, depth, index, leaf, steps).contains_key((depth as int, i))
                ==> write_path(nodes, depth, index, leaf, steps)[(depth as int, i)] == if i == index {
                leaf
            } else {
                nodes[(depth as int, i)]
            },
    decreases steps,
{
    if steps > 0 {
        let s1 = (steps - 1) as nat;
        lemma_write_path_leaves(nodes, depth, index, leaf, s1);
        let prev = write_path(nodes, depth, index, leaf, s1);
        let w = write_path(nodes, depth, index, leaf, steps);
        let level = depth - steps;
        let parent = index / pow2(steps) as int;
        assert(w == prev.insert((level, parent), w[(level, parent)]));
        assert forall|i: int| #[trigger] w.contains_key((depth as int, i)) == prev.contains_key((depth as int, i)) by {
            assert((level, parent) != (depth as int, i));
        }
        assert forall|i: int| #[trigger] w.contains_key((depth as int, i)) implies w[(depth as int, i)] == prev[(depth as int, i)] by {
            assert((level, parent) != (depth as int, i));
        }
    }
}

/// In a consistent tree every node is the Merkle node over its leaves.
pub proof fn lemma_consistent_nodes_are_merkle(nodes: Map<(int, int), nat>, depth: nat, level: nat, index: int)
    requires
        consistent(nodes, depth),
        level <= depth,
    ensures
        node_at(nodes, depth, level, index) == merkle_node(leaves_of(nodes, depth), depth, level, index),
    decreases depth - level,
{
    if level < depth {
        assert(consistent_at(nodes, depth, level, index));
        lemma_consistent_nodes_are_merkle(nodes, depth, level + 1, 2 * index);
        lemma_consistent_nodes_are_merkle(nodes, depth, level + 1, 2 * index + 1);
    }
}

/// In a consistent tree the path read from the stored nodes is the Merkle
/// path of the leaf over the tree's leaves.
pub proof fn lemma_consistent_paths_are_merkle_paths(
    nodes: Map<(int, int), nat>,
    depth: nat,
    index: int,
    path: MerklePath,
)
    requires
        consistent(nodes, depth),
        path_from_nodes(nodes, depth, index, path),
    ensures
        is_merkle_path(leaves_of(nodes, depth), depth, index, path),
{
    assert forall|k: int| 0 <= k < depth implies #[trigger] path.path_elements@[k]@ == merkle_node(
        leaves_of(nodes, depth),
        depth,
        (depth - k) as nat,
        sibling(index / pow2(k as nat) as int),
    ) && path.path_index@[k] == (index / pow2(k as nat) as int) % 2 by {
        let level = (depth - k) as nat;
        let node = sibling(index / pow2(k as nat) as int);
        assert(path.path_elements@[k]@ == node_at(nodes, depth, level, node));
        lemma_consistent_nodes_are_merkle(nodes, depth, level, node);
    }
}

/// Folding the first `k` levels of a Merkle path from the leaf gives the
/// ancestor of the leaf `k` levels up.
proof fn lemma_path_prefix_root(leaves: Map<int, nat>, depth: nat, index: int, path: MerklePath, k: nat)
    requires
        is_merkle_path(leaves, depth, index, path),
        index >= 0,
        k <= depth,
    ensures
        root_from_path(
            leaf_value(leaves, index),
            fe_values(path.path_elements@),
            path.path_index@.take(k as int),
        ) == merkle_node(leaves, depth, (depth - k) as nat, index / pow2(k) as int),
    decreases k,
{
    let elements = fe_values(path.path_elements@);
    vstd::arithmetic::power2::lemma_pow2_pos(k);
    if k == 0 {
        assert(pow2(0) == 1) by {
            vstd::arithmetic::power2::lemma2_to64();
        }
    } else {
        let k1 = (k - 1) as nat;
        lemma_path_prefix_root(leaves, depth, index, path, k1);
        assert(path.path_index@.take(k as int).drop_last() == path.path_index@.take(k1 as int));
        vstd::arithmetic::power2::lemma_pow2_pos(k1);
        vstd::arithmetic::power2::lemma_pow2_unfold(k);
        vstd::arithmetic::div_mod::lemma_div_denominator(index, pow2(k1) as int, 2);
        let node = index / pow2(k1) as int;
        assert(node >= 0) by {
            vstd::arithmetic::div_mod::lemma_div_pos_is_pos(index, pow2(k1) as int);
        }
        assert(path.path_elements@[k1 as int]@ == merkle_node(leaves, depth, (depth - k1) as nat, sibling(node)));
        assert(elements[k1 as int] == path.path_elements@[k1 as int]@);
        assert(path.path_index@[k1 as int] == node % 2);
        vstd::arithmetic::div_mod::lemma_fundamental_div_mod(node, 2);
        let parent_level = (depth - k) as nat;
        assert(parent_level + 1 == depth - k1);
        if node % 2 == 0 {
            assert(2 * (node / 2) == node);
        } else {
            assert(2 * (node / 2) + 1 == node);
        }
    }
}

/// The root folded from a leaf's value along its Merkle path is the root of
/// the tree the path was read from. It is about the value stored at the
/// leaf, whatever that value is: the contract stores a member's message
/// limit there, not its rate commitment.
pub proof fn lemma_merkle_path_gives_root(leaves: Map<int, nat>, depth: nat, index: int, path: MerklePath)
    requires
        is_merkle_path(leaves, depth, index, path),
        0 <= index < pow2(depth),
    ensures
        root_from_path(leaf_value(leaves, index), fe_values(path.path_elements@), path.path_index@)
            == merkle_node(leaves, depth, 0, 0),
{
    lemma_path_prefix_root(leaves, depth, index, path, depth);
    assert(path.path_index@.take(depth as int) == path.path_index@);
    vstd::arithmetic::div_mod::lemma_basic_div(index, pow2(depth) as int);
}

} // verus!

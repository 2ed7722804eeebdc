//! What holds of the tree, of its proofs and of the votes, whatever the
//! values: each law is a proof function over the spec functions in which the
//! contracts of the operations are written.

use crate::error::Error;
use crate::field::{decimal_text, hash_to_field_value};
use crate::inputs::public_inputs;
use crate::semaphore::{
    branch_at, lemma_level_below_depth, lemma_level_of_row, lemma_row_of_level, node_level,
    node_ok, nodes_consistent, path_from, path_leaf_index, path_root, Hasher, MerkleTree,
};
use crate::{add_poll_outcome, polls_after_add, polls_after_vote, vote_outcome};
use vstd::arithmetic::power2::{lemma2_to64, lemma_pow2_pos, lemma_pow2_unfold, pow2};
use vstd::prelude::*;
use vstd::utf8::encode_utf8;

verus! {

/// The path from a node leads from the node's hash to the root's hash.
pub proof fn lemma_path_leads_to_root<H: Hasher>(nodes: Seq<H::Hash>, index: nat)
    requires
        nodes_consistent::<H>(nodes),
        nodes.len() % 2 == 1,
        index < nodes.len(),
    ensures
        path_root::<H>(path_from::<H>(nodes, index), nodes[index as int]) == nodes[0],
    decreases index,
{
    if index != 0 {
        let up = ((index - 1) / 2) as nat;
        let path = path_from::<H>(nodes, index);
        assert(path.drop_first() =~= path_from::<H>(nodes, up));
        assert(path[0] == branch_at::<H>(nodes, index as int));
        assert(node_ok::<H>(nodes, up as int));
        lemma_path_leads_to_root::<H>(nodes, up);
    }
}

/// The path from a node encodes the node's place in its row.
pub proof fn lemma_path_encodes_index<H: Hasher>(nodes: Seq<H::Hash>, index: nat)
    ensures
        path_leaf_index(path_from::<H>(nodes, index)) == index + 1 - pow2(node_level(index)),
    decreases index,
{
    if index == 0 {
        lemma2_to64();
    } else {
        let up = ((index - 1) / 2) as nat;
        let path = path_from::<H>(nodes, index);
        assert(path.drop_first() =~= path_from::<H>(nodes, up));
        assert(path[0] == branch_at::<H>(nodes, index as int));
        lemma_path_encodes_index::<H>(nodes, up);
        lemma_pow2_unfold(node_level(index));
    }
}

/// In any well-formed tree, the proof for a leaf leads from the leaf's hash
/// to the root, and the leaf index that it encodes is the leaf's.
pub proof fn lemma_proof_verifies<H: Hasher>(tree: MerkleTree<H>, leaf: nat)
    requires
        tree.wf(),
        leaf < tree.spec_num_leaves(),
    ensures
        path_root::<H>(tree.spec_proof(leaf), tree.spec_leaves()[leaf as int]) == tree.spec_root(),
        path_leaf_index(tree.spec_proof(leaf)) == leaf,
{
    let nodes = tree.spec_nodes();
    let first = (tree.spec_num_leaves() - 1) as nat;
    lemma_pow2_unfold(tree.spec_depth());
    lemma_pow2_pos((tree.spec_depth() - 1) as nat);
    lemma_path_leads_to_root::<H>(nodes, first + leaf);
    lemma_path_encodes_index::<H>(nodes, first + leaf);
    lemma_level_of_row(first + leaf, (tree.spec_depth() - 1) as nat);
}

/// After a leaf was set to a hash, the proof for that leaf verifies the hash
/// against the new root, and its leaf index is the leaf's.
pub proof fn lemma_set_then_proof_verifies<H: Hasher>(
    before: MerkleTree<H>,
    after: MerkleTree<H>,
    leaf: nat,
    hash: H::Hash,
)
    requires
        before.wf(),
        after.wf(),
        after.spec_depth() == before.spec_depth(),
        leaf < before.spec_num_leaves(),
        after.spec_leaves() == before.spec_leaves().update(leaf as int, hash),
    ensures
        path_root::<H>(after.spec_proof(leaf), hash) == after.spec_root(),
        path_leaf_index(after.spec_proof(leaf)) == leaf,
{
    lemma_pow2_unfold(before.spec_depth());
    lemma_pow2_pos((before.spec_depth() - 1) as nat);
    lemma_proof_verifies(after, leaf);
}

/// The hash tells its arguments apart: with one child kept, another hash in
/// the place of the other child gives another hash. A hash that resists
/// collisions is taken to be such a function.
pub open spec fn injective_per_argument<H: Hasher>() -> bool {
    &&& forall|a: H::Hash, b: H::Hash, kept: H::Hash|
        a != b ==> #[trigger] H::spec_hash_node(a, kept) != #[trigger] H::spec_hash_node(b, kept)
    &&& forall|a: H::Hash, b: H::Hash, kept: H::Hash|
        a != b ==> #[trigger] H::spec_hash_node(kept, a) != #[trigger] H::spec_hash_node(kept, b)
}

/// The node on row `level` on the way from node `index` up to the root, or
/// `index` itself where it lies on that row or above it.
pub open spec fn ancestor_at(index: nat, level: nat) -> nat
    decreases index,
{
    if index == 0 || node_level(index) <= level {
        index
    } else {
        ancestor_at(((index - 1) / 2) as nat, level)
    }
}

/// The node on row `level` above a node lies on row `level`.
proof fn lemma_ancestor_level(index: nat, level: nat)
    requires
        node_level(index) >= level,
    ensures
        node_level(ancestor_at(index, level)) == level,
    decreases index,
{
    if index != 0 && node_level(index) > level {
        lemma_ancestor_level(((index - 1) / 2) as nat, level);
    }
}

/// The node on row `level` above a node is the parent of the node on the
/// next row above it.
proof fn lemma_ancestor_step(index: nat, level: nat)
    requires
        node_level(index) > level,
    ensures
        ancestor_at(index, level + 1) >= 1,
        ancestor_at(index, level) == (ancestor_at(index, level + 1) - 1) / 2,
    decreases index,
{
    if node_level(index) > level + 1 {
        lemma_ancestor_step(((index - 1) / 2) as nat, level);
    } else {
        let up = ((index - 1) / 2) as nat;
        assert(node_level(up) == level);
        assert(ancestor_at(index, level) == ancestor_at(up, level));
    }
}

/// Two consistent node tables of one size with the same leaves are the same
/// at every node.
proof fn lemma_same_leaves_same_node<H: Hasher>(
    first: Seq<H::Hash>,
    second: Seq<H::Hash>,
    index: nat,
)
    requires
        nodes_consistent::<H>(first),
        nodes_consistent::<H>(second),
        first.len() == second.len(),
        index < first.len(),
        forall|x: int| 0 <= x < first.len() && 2 * x + 2 >= first.len() ==> first[x] == second[x],
    ensures
        first[index as int] == second[index as int],
    decreases first.len() - index,
{
    if 2 * index + 2 < first.len() {
        lemma_same_leaves_same_node::<H>(first, second, 2 * index + 1);
        lemma_same_leaves_same_node::<H>(first, second, 2 * index + 2);
        assert(node_ok::<H>(first, index as int));
        assert(node_ok::<H>(second, index as int));
    }
}

/// Two consistent node tables of one size that differ in one leaf only: a
/// node on the way from that leaf to the root differs, if the hash tells its
/// arguments apart, and every other node is the same.
proof fn lemma_one_leaf_differs<H: Hasher>(
    first: Seq<H::Hash>,
    second: Seq<H::Hash>,
    depth: nat,
    changed: nat,
    index: nat,
)
    requires
        depth >= 1,
        first.len() == pow2(depth) - 1,
        second.len() == first.len(),
        nodes_consistent::<H>(first),
        nodes_consistent::<H>(second),
        pow2((depth - 1) as nat) - 1 <= changed < first.len(),
        forall|x: int|
            pow2((depth - 1) as nat) - 1 <= x < first.len() && x != changed ==> first[x]
                == second[x],
        first[changed as int] != second[changed as int],
        index < first.len(),
    ensures
        ancestor_at(changed, node_level(index)) != index ==> first[index as int]
            == second[index as int],
        ancestor_at(changed, node_level(index)) == index && injective_per_argument::<H>()
            ==> first[index as int] != second[index as int],
    decreases first.len() - index,
{
    let row = node_level(index);
    lemma_pow2_unfold(depth);
    lemma_level_of_row(changed, (depth - 1) as nat);
    if 2 * index + 2 < first.len() {
        let left = 2 * index + 1;
        let right = 2 * index + 2;
        assert(node_level(left) == row + 1);
        assert(node_level(right) == row + 1);
        lemma_level_below_depth(right, depth);
        lemma_one_leaf_differs::<H>(first, second, depth, changed, left);
        lemma_one_leaf_differs::<H>(first, second, depth, changed, right);
        lemma_ancestor_step(changed, row);
        assert(node_ok::<H>(first, index as int));
        assert(node_ok::<H>(second, index as int));
    } else {
        lemma_level_of_row(index, (depth - 1) as nat);
    }
}

/// The leaves determine the tree: two well-formed trees of one depth with the
/// same leaves have the same nodes, and so the same root and the same proofs.
pub proof fn lemma_leaves_determine_nodes<H: Hasher>(first: MerkleTree<H>, second: MerkleTree<H>)
    requires
        first.wf(),
        second.wf(),
        first.spec_depth() == second.spec_depth(),
        first.spec_leaves() == second.spec_leaves(),
    ensures
        first.spec_nodes() == second.spec_nodes(),
{
    let a = first.spec_nodes();
    let b = second.spec_nodes();
    let start = first.spec_num_leaves() - 1;
    lemma_pow2_unfold(first.spec_depth());
    lemma_pow2_pos((first.spec_depth() - 1) as nat);
    assert forall|x: int| 0 <= x < a.len() && 2 * x + 2 >= a.len() implies a[x] == b[x] by {
        assert(first.spec_leaves()[x - start] == a[x]);
        assert(second.spec_leaves()[x - start] == b[x]);
    }
    assert forall|i: int| 0 <= i < a.len() implies a[i] == b[i] by {
        lemma_same_leaves_same_node::<H>(a, b, i as nat);
    }
    assert(a =~= b);
}

/// Setting a leaf to another hash than it holds changes the root, where the
/// hash tells its arguments apart.
pub proof fn lemma_set_changes_root<H: Hasher>(
    before: MerkleTree<H>,
    after: MerkleTree<H>,
    leaf: nat,
    hash: H::Hash,
)
    requires
        before.wf(),
        after.wf(),
        after.spec_depth() == before.spec_depth(),
        leaf < before.spec_num_leaves(),
        after.spec_leaves() == before.spec_leaves().update(leaf as int, hash),
        hash != before.spec_leaves()[leaf as int],
        injective_per_argument::<H>(),
    ensures
        after.spec_root() != before.spec_root(),
{
    let a = before.spec_nodes();
    let b = after.spec_nodes();
    let depth = before.spec_depth();
    let start = before.spec_num_leaves() - 1;
    lemma_pow2_unfold(depth);
    lemma_pow2_pos((depth - 1) as nat);
    let changed = (start + leaf) as nat;
    assert forall|x: int| start <= x < a.len() implies a[x] == before.spec_leaves()[x - start]
        && b[x] == after.spec_leaves()[x - start] by {}
    lemma_one_leaf_differs::<H>(a, b, depth, changed, 0);
    lemma_ancestor_level(changed, 0);
    assert(ancestor_at(changed, 0) == 0);
}

/// The hash of a row of leaves: the leaf itself where there is one, else the
/// hash of the hashes of the two halves of the row.
pub open spec fn merkle_root<H: Hasher>(leaves: Seq<H::Hash>) -> H::Hash
    decreases leaves.len(),
{
    if leaves.len() <= 1 {
        leaves[0]
    } else {
        let half = (leaves.len() / 2) as int;
        H::spec_hash_node(
            merkle_root::<H>(leaves.take(half)),
            merkle_root::<H>(leaves.skip(half)),
        )
    }
}

/// A node holds the hash of the leaves below it, which are `width` leaves
/// from leaf `low` on.
proof fn lemma_node_is_hash_of_leaves<H: Hasher>(
    nodes: Seq<H::Hash>,
    depth: nat,
    index: nat,
    low: nat,
    width: nat,
)
    requires
        depth >= 1,
        nodes.len() == pow2(depth) - 1,
        nodes_consistent::<H>(nodes),
        index < nodes.len(),
        width == pow2((depth - 1 - node_level(index)) as nat),
        low == (index + 1 - pow2(node_level(index))) * width,
    ensures
        low + width <= pow2((depth - 1) as nat),
        nodes[index as int] == merkle_root::<H>(
            nodes.subrange(pow2((depth - 1) as nat) - 1, nodes.len() as int).subrange(
                low as int,
                (low + width) as int,
            ),
        ),
    decreases nodes.len() - index,
{
    let row = node_level(index);
    let leaves = nodes.subrange(pow2((depth - 1) as nat) - 1, nodes.len() as int);
    let place = index + 1 - pow2(row);
    lemma_pow2_unfold(depth);
    lemma_pow2_pos((depth - 1) as nat);
    lemma_row_of_level(index);
    lemma_level_below_depth(index, depth);
    lemma_pow2_pos(row);
    vstd::arithmetic::power2::lemma_pow2_adds(row, (depth - 1 - row) as nat);
    assert(low + width <= pow2(row) * width) by (nonlinear_arith)
        requires
            low == place * width,
            0 <= place < pow2(row),
    ;
    if 2 * index + 2 < nodes.len() {
        let left = 2 * index + 1;
        let right = 2 * index + 2;
        assert(node_level(left) == row + 1);
        assert(node_level(right) == row + 1);
        lemma_level_below_depth(right, depth);
        lemma_pow2_unfold(row + 1);
        lemma_pow2_unfold((depth - 1 - row) as nat);
        let half = pow2((depth - 2 - row) as nat);
        assert(width == 2 * half);
        let low_left = (left + 1 - pow2(row + 1)) * half;
        let low_right = (right + 1 - pow2(row + 1)) * half;
        assert(low_left == low && low_right == low + half) by (nonlinear_arith)
            requires
                low == place * width,
                width == 2 * half,
                low_left == (2 * place) * half,
                low_right == (2 * place + 1) * half,
        ;
        lemma_node_is_hash_of_leaves::<H>(nodes, depth, left, low, half);
        lemma_node_is_hash_of_leaves::<H>(nodes, depth, right, low + half, half);
        let below = leaves.subrange(low as int, (low + width) as int);
        lemma_pow2_pos((depth - 2 - row) as nat);
        assert(below.take(half as int) =~= leaves.subrange(low as int, (low + half) as int));
        assert(below.skip(half as int) =~= leaves.subrange(
            (low + half) as int,
            (low + width) as int,
        ));
        assert(node_ok::<H>(nodes, index as int));
    } else {
        lemma_level_of_row(index, (depth - 1) as nat);
        lemma2_to64();
        assert(low == place) by (nonlinear_arith)
            requires
                low == place * width,
                width == 1,
        ;
        assert(leaves.subrange(low as int, (low + width) as int)[0] == nodes[index as int]);
    }
}

/// The root of a well-formed tree is the hash of all its leaves.
pub proof fn lemma_root_is_hash_of_leaves<H: Hasher>(tree: MerkleTree<H>)
    requires
        tree.wf(),
    ensures
        tree.spec_root() == merkle_root::<H>(tree.spec_leaves()),
{
    let nodes = tree.spec_nodes();
    let depth = tree.spec_depth();
    let width = pow2((depth - 1) as nat);
    lemma2_to64();
    lemma_pow2_unfold(depth);
    lemma_pow2_pos((depth - 1) as nat);
    assert(0 == (0 + 1 - pow2(0)) * width) by (nonlinear_arith)
        requires
            pow2(0) == 1,
    ;
    lemma_node_is_hash_of_leaves::<H>(nodes, depth, 0, 0, width);
    assert(tree.spec_leaves().subrange(0, width as int) =~= tree.spec_leaves());
}

/// A poll is created once: after it was created, creating it again is
/// refused, because it exists.
pub proof fn lemma_poll_is_created_once(polls: Map<Seq<char>, Set<Seq<char>>>, poll_id: Seq<char>)
    ensures
        add_poll_outcome(polls_after_add(polls, poll_id), poll_id) == Err::<(), Error>(
            Error::AlreadyExists,
        ),
{
}

/// A vote is accepted once: after it was accepted, the same vote is refused,
/// because its nullifier is spent.
pub proof fn lemma_vote_is_accepted_once(
    root: nat,
    polls: Map<Seq<char>, Set<Seq<char>>>,
    signal: Seq<char>,
    inputs: Seq<char>,
)
    requires
        vote_outcome(root, polls, signal, true, inputs) is Ok,
    ensures
        vote_outcome(root, polls_after_vote(polls, inputs), signal, true, inputs) == Err::<
            (),
            Error,
        >(Error::ReplayedNullifier),
{
}

/// A vote whose proof was made for another root than the current one is
/// refused. Where the proof was verified, the poll exists and the nullifier
/// is not spent in it, the reason given is the stale root.
pub proof fn lemma_stale_root_is_refused(
    root: nat,
    polls: Map<Seq<char>, Set<Seq<char>>>,
    signal: Seq<char>,
    verified: bool,
    inputs: Seq<char>,
)
    requires
        public_inputs(inputs) matches Some(values) && values[0] != root,
    ensures
        vote_outcome(root, polls, signal, verified, inputs) is Err,
        public_inputs(inputs) matches Some(values) && verified && polls.contains_key(
            decimal_text(values[3]),
        ) && !polls[decimal_text(values[3])].contains(decimal_text(values[1])) ==> vote_outcome(
            root,
            polls,
            signal,
            verified,
            inputs,
        ) == Err::<(), Error>(Error::StaleRoot),
{
}

/// A vote whose proof was made for another signal is refused. Where the
/// proof was verified, the poll exists, the nullifier is not spent in it and
/// the root is the current one, the reason given is the mismatched signal.
pub proof fn lemma_other_signal_is_refused(
    root: nat,
    polls: Map<Seq<char>, Set<Seq<char>>>,
    signal: Seq<char>,
    verified: bool,
    inputs: Seq<char>,
)
    requires
        public_inputs(inputs) matches Some(values) && values[2] != hash_to_field_value(
            encode_utf8(signal),
        ),
    ensures
        vote_outcome(root, polls, signal, verified, inputs) is Err,
        public_inputs(inputs) matches Some(values) && verified && polls.contains_key(
            decimal_text(values[3]),
        ) && !polls[decimal_text(values[3])].contains(decimal_text(values[1])) && values[0]
            == root ==> vote_outcome(root, polls, signal, verified, inputs) == Err::<(), Error>(
            Error::SignalMismatch,
        ),
{
}

/// A vote spends its nullifier in its own poll only: in every other poll
/// the spent nullifiers stay as they were.
pub proof fn lemma_polls_are_separate(
    polls: Map<Seq<char>, Set<Seq<char>>>,
    inputs: Seq<char>,
    other: Seq<char>,
)
    requires
        public_inputs(inputs) matches Some(values) && other != decimal_text(values[3]),
    ensures
        polls_after_vote(polls, inputs).contains_key(other) == polls.contains_key(other),
        polls_after_vote(polls, inputs)[other] == polls[other],
{
}

} // verus!

//! A Merkle tree of fixed depth that stores every node, and membership
//! proofs over it.
//!
//! The nodes lie in one vector in breadth-first order: the root is node 0,
//! and the children of node `i` are nodes `2i + 1` and `2i + 2`. A tree of
//! depth `d` has `d` rows, `2^d - 1` nodes and `2^(d-1)` leaves.

use crate::error::Error;
use crate::field::Field;
use vstd::arithmetic::power2::{
    lemma2_to64, lemma_pow2_pos, lemma_pow2_strictly_increases, lemma_pow2_unfold, pow2,
};
use vstd::bits::{lemma_usize_pow2_no_overflow, lemma_usize_shl_is_mul};
use vstd::prelude::*;
use vstd::slice::slice_subrange;
use vstd::std_specs::cmp::PartialEqSpec;

verus! {

/// The number of edges between node `index` and the root.
pub open spec fn node_level(index: nat) -> nat
    decreases index,
{
    if index == 0 {
        0
    } else {
        1 + node_level(((index - 1) / 2) as nat)
    }
}

/// Row `level` holds the nodes from `2^level - 1` to `2^(level+1) - 2`.
pub proof fn lemma_level_of_row(index: nat, level: nat)
    requires
        pow2(level) - 1 <= index <= 2 * pow2(level) - 2,
    ensures
        node_level(index) == level,
    decreases level,
{
    if level == 0 {
        lemma2_to64();
    } else {
        lemma_pow2_unfold(level);
        lemma_pow2_pos((level - 1) as nat);
        lemma_level_of_row(((index - 1) / 2) as nat, (level - 1) as nat);
    }
}

/// A node lies in the row of its level.
pub proof fn lemma_row_of_level(index: nat)
    ensures
        pow2(node_level(index)) - 1 <= index <= 2 * pow2(node_level(index)) - 2,
    decreases index,
{
    if index == 0 {
        lemma2_to64();
    } else {
        lemma_row_of_level(((index - 1) / 2) as nat);
        lemma_pow2_unfold(node_level(index));
    }
}

/// In a tree of `depth` rows every node lies above row `depth`.
pub proof fn lemma_level_below_depth(index: nat, depth: nat)
    requires
        index < pow2(depth) - 1,
    ensures
        node_level(index) < depth,
{
    lemma_row_of_level(index);
    if node_level(index) > depth {
        lemma_pow2_strictly_increases(depth, node_level(index));
    }
}

/// For a given node index, return the parent node index.
/// Returns None if there is no parent (root node).
pub fn parent(index: usize) -> (r: Option<usize>)
    ensures
        index == 0 <==> r is None,
        r matches Some(p) ==> p == (index + 1) / 2 - 1 && p == (index - 1) / 2,
{
    if index == 0 {
        None
    } else {
        let below: usize = index - 1;
        assert(below >> 1 == below / 2) by (bit_vector);
        Some(below >> 1)
    }
}

/// For a given node index, return index of the first (left) child.
pub fn first_child(index: usize) -> (r: usize)
    requires
        2 * index + 1 <= usize::MAX,
    ensures
        r == 2 * index + 1,
{
    2 * index + 1
}

/// The level of node `index`, counted from the root, which is at level 0:
/// the whole part of the binary logarithm of `index + 1`.
pub fn depth(index: usize) -> (r: usize)
    ensures
        r == node_level(index as nat),
        pow2(r as nat) <= index + 1 < 2 * pow2(r as nat),
{
    proof {
        lemma_row_of_level(index as nat);
    }
    let mut level: usize = 0;
    let mut at: usize = index;
    while at != 0
        invariant
            level + node_level(at as nat) == node_level(index as nat),
            level <= index - at,
        decreases at,
    {
        at = (at - 1) / 2;
        level = level + 1;
    }
    level
}

/// Hash types, values and algorithms for a Merkle tree.
///
/// An implementation says which function of its two arguments `hash_node`
/// computes, and proves that cloning a hash gives the same hash and that `==`
/// on hashes is equality. Hashes can be printed for debugging.
pub trait Hasher {
    /// Type of the leaf and node hashes.
    type Hash: Clone + Eq + core::fmt::Debug;

    /// The hash of an intermediate node, as a function of its children.
    spec fn spec_hash_node(left: Self::Hash, right: Self::Hash) -> Self::Hash;

    /// Compute the hash of an intermediate node.
    fn hash_node(left: &Self::Hash, right: &Self::Hash) -> (h: Self::Hash)
        ensures
            h == Self::spec_hash_node(*left, *right),
    ;

    /// A clone of a hash is that hash.
    proof fn lemma_clone_is_copy(a: Self::Hash, b: Self::Hash)
        requires
            cloned::<Self::Hash>(a, b),
        ensures
            a == b,
    ;

    /// `==` on hashes decides equality.
    proof fn lemma_eq_is_equality(a: Self::Hash, b: Self::Hash)
        ensures
            <Self::Hash as PartialEqSpec>::obeys_eq_spec(),
            a.eq_spec(&b) == (a == b),
    ;
}

/// The hash of an empty subtree of `height` rows above the leaves, where
/// every leaf is `leaf`.
pub open spec fn empty_hash<H: Hasher>(leaf: H::Hash, height: nat) -> H::Hash
    decreases height,
{
    if height == 0 {
        leaf
    } else {
        let below = empty_hash::<H>(leaf, (height - 1) as nat);
        H::spec_hash_node(below, below)
    }
}

/// Node `index` holds the hash of its two children.
pub open spec fn node_ok<H: Hasher>(nodes: Seq<H::Hash>, index: int) -> bool {
    nodes[index] == H::spec_hash_node(nodes[2 * index + 1], nodes[2 * index + 2])
}

/// Every node that has children holds the hash of its children.
pub open spec fn nodes_consistent<H: Hasher>(nodes: Seq<H::Hash>) -> bool {
    forall|i: int| 0 <= i && 2 * i + 2 < nodes.len() ==> #[trigger] node_ok::<H>(nodes, i)
}

/// A depth, a table of empty subtrees and a table of nodes that fit
/// together: there is at least one row, the table of empty subtrees has one
/// entry for each row, each the hash of two of the entry before it, and there
/// are as many nodes as the depth asks for.
pub open spec fn parts_well_shaped<H: Hasher>(
    depth: nat,
    empty: Seq<H::Hash>,
    nodes: Seq<H::Hash>,
) -> bool {
    &&& 1 <= depth < usize::BITS
    &&& empty.len() == depth
    &&& forall|k: int| 0 <= k < depth ==> #[trigger] empty[k] == empty_hash::<H>(empty[0], k as nat)
    &&& nodes.len() == pow2(depth) - 1
}

/// Parts that fit together and in which every inner node holds the hash of
/// its children.
pub open spec fn parts_wf<H: Hasher>(depth: nat, empty: Seq<H::Hash>, nodes: Seq<H::Hash>) -> bool {
    parts_well_shaped::<H>(depth, empty, nodes) && nodes_consistent::<H>(nodes)
}

/// Whether node `index` lies above a node between `start` and `end`, two
/// nodes of one row: whether it is the parent of one of them, or the parent
/// of such a parent, and so on.
pub open spec fn above_range(index: int, start: nat, end: nat) -> bool
    decreases start,
{
    if start == 0 {
        false
    } else {
        let first = ((start - 1) / 2) as nat;
        let last = ((end - 1) / 2) as nat;
        first <= index <= last || above_range(index, first, last)
    }
}

/// The leaves after `values` were written over them from leaf `start` on,
/// as far as there are leaves.
pub open spec fn overwrite<T>(leaves: Seq<T>, start: int, values: Seq<T>) -> Seq<T> {
    Seq::new(
        leaves.len(),
        |k: int|
            if start <= k < start + values.len() {
                values[k - start]
            } else {
                leaves[k]
            },
    )
}

/// The parents of two nodes of one row lie in one row, all of which is
/// before the first of the two nodes, and whose children are all after the
/// last parent.
proof fn lemma_parents_of_row(start: nat, end: nat)
    requires
        1 <= start <= end,
        node_level(start) == node_level(end),
    ensures
        node_level(((start - 1) / 2) as nat) == node_level(((end - 1) / 2) as nat),
        (end - 1) / 2 < start,
        (end - 1) / 2 < 2 * ((start - 1) / 2) + 1,
{
    lemma_row_of_level(start);
    lemma_row_of_level(end);
    lemma_pow2_unfold(node_level(start));
}

/// Element of a Merkle proof
#[derive(Clone, Copy, PartialEq, Eq, Debug)]
pub enum Branch<H: Hasher> {
    /// Left branch taken, value is the right sibling hash.
    Left(H::Hash),
    /// Right branch taken, value is the left sibling hash.
    Right(H::Hash),
}

/// Merkle proof path, bottom to top.
#[derive(Clone, PartialEq, Eq, Debug)]
pub struct Proof<H: Hasher>(pub Vec<Branch<H>>);

impl<H: Hasher> View for Proof<H> {
    type V = Seq<Branch<H>>;

    open spec fn view(&self) -> Seq<Branch<H>> {
        self.0@
    }
}

/// The step of a proof at node `index`: a left child, at an odd index,
/// records its right neighbour; a right child records its left neighbour.
pub open spec fn branch_at<H: Hasher>(nodes: Seq<H::Hash>, index: int) -> Branch<H> {
    if index % 2 == 1 {
        Branch::Left(nodes[index + 1])
    } else {
        Branch::Right(nodes[index - 1])
    }
}

/// The steps from node `index` up to the root, the lowest first.
pub open spec fn path_from<H: Hasher>(nodes: Seq<H::Hash>, index: nat) -> Seq<Branch<H>>
    decreases index,
{
    if index == 0 {
        Seq::empty()
    } else {
        seq![branch_at::<H>(nodes, index as int)] + path_from::<H>(
            nodes,
            ((index - 1) / 2) as nat,
        )
    }
}

/// The hash of the parent of a node with hash `hash`, one step up.
pub open spec fn climb<H: Hasher>(hash: H::Hash, branch: Branch<H>) -> H::Hash {
    match branch {
        Branch::Left(sibling) => H::spec_hash_node(hash, sibling),
        Branch::Right(sibling) => H::spec_hash_node(sibling, hash),
    }
}

/// The root that a path leads to from a leaf with hash `hash`.
pub open spec fn path_root<H: Hasher>(path: Seq<Branch<H>>, hash: H::Hash) -> H::Hash
    decreases path.len(),
{
    if path.len() == 0 {
        hash
    } else {
        path_root::<H>(path.drop_first(), climb::<H>(hash, path[0]))
    }
}

/// 0 for a step from a left child, 1 for a step from a right child.
pub open spec fn branch_bit<H: Hasher>(branch: Branch<H>) -> nat {
    match branch {
        Branch::Left(_) => 0,
        Branch::Right(_) => 1,
    }
}

/// The sibling's hash that a step records.
pub open spec fn branch_sibling<H: Hasher>(branch: Branch<H>) -> H::Hash {
    match branch {
        Branch::Left(sibling) => sibling,
        Branch::Right(sibling) => sibling,
    }
}

/// The leaf index that a path encodes: the bits of its steps, the lowest
/// step the least significant.
pub open spec fn path_leaf_index<H: Hasher>(path: Seq<Branch<H>>) -> nat
    decreases path.len(),
{
    if path.len() == 0 {
        0
    } else {
        branch_bit(path[0]) + 2 * path_leaf_index(path.drop_first())
    }
}

/// The leaf index that a path encodes is below two to the number of its
/// steps.
pub proof fn lemma_leaf_index_bound<H: Hasher>(path: Seq<Branch<H>>)
    ensures
        path_leaf_index(path) < pow2(path.len()),
    decreases path.len(),
{
    if path.len() == 0 {
        lemma2_to64();
    } else {
        lemma_leaf_index_bound(path.drop_first());
        lemma_pow2_unfold(path.len());
    }
}

/// A path from a node has one step for each row above the node.
pub proof fn lemma_path_len<H: Hasher>(nodes: Seq<H::Hash>, index: nat)
    ensures
        path_from::<H>(nodes, index).len() == node_level(index),
    decreases index,
{
    if index != 0 {
        lemma_path_len::<H>(nodes, ((index - 1) / 2) as nat);
    }
}

/// Merkle tree with all leaf and intermediate hashes stored.
#[derive(Clone, PartialEq, Eq, Debug)]
pub struct MerkleTree<H: Hasher> {
    /// Depth of the tree, # of layers including leaf layer
    depth: usize,
    /// Hash value of empty subtrees of given depth, starting at leaf level
    empty: Vec<H::Hash>,
    /// Hash values of tree nodes and leaves, breadth first order
    nodes: Vec<H::Hash>,
}

/// Whether two hashes are the same.
fn same_hash<H: Hasher>(a: &H::Hash, b: &H::Hash) -> (r: bool)
    ensures
        r == (*a == *b),
{
    proof {
        H::lemma_eq_is_equality(*a, *b);
    }
    *a == *b
}

/// A copy of a hash.
fn clone_hash<H: Hasher>(hash: &H::Hash) -> (r: H::Hash)
    ensures
        r == *hash,
{
    let r = hash.clone();
    proof {
        H::lemma_clone_is_copy(*hash, r);
    }
    r
}

impl<H: Hasher> MerkleTree<H> {
    /// The number of rows, the leaf row included.
    pub closed spec fn spec_depth(&self) -> nat {
        self.depth as nat
    }

    /// The hashes of the empty subtrees, the empty leaf first.
    pub closed spec fn spec_empty(&self) -> Seq<H::Hash> {
        self.empty@
    }

    /// All nodes in breadth-first order.
    pub closed spec fn spec_nodes(&self) -> Seq<H::Hash> {
        self.nodes@
    }

    /// The number of leaves: `2^(depth - 1)`.
    pub open spec fn spec_num_leaves(&self) -> nat {
        pow2((self.spec_depth() - 1) as nat)
    }

    /// The leaves, from left to right.
    pub open spec fn spec_leaves(&self) -> Seq<H::Hash> {
        self.spec_nodes().subrange(
            self.spec_num_leaves() - 1,
            self.spec_nodes().len() as int,
        )
    }

    /// The hash at the root.
    pub open spec fn spec_root(&self) -> H::Hash {
        self.spec_nodes()[0]
    }

    /// The tree has at least one row and as many nodes as its depth asks
    /// for, and the table of empty subtrees is filled in.
    pub open spec fn well_shaped(&self) -> bool {
        parts_well_shaped::<H>(self.spec_depth(), self.spec_empty(), self.spec_nodes())
    }

    /// The tree is well shaped and every inner node holds the hash of its
    /// children.
    pub open spec fn wf(&self) -> bool {
        &&& self.well_shaped()
        &&& nodes_consistent::<H>(self.spec_nodes())
    }

    /// Creates a new `MerkleTree` in which every leaf is `initial_leaf`, so
    /// that every node is the hash of an empty subtree of its height.
    /// * `depth` - The depth of the tree, including the root.
    pub fn new(depth: usize, initial_leaf: H::Hash) -> (tree: Self)
        requires
            1 <= depth < usize::BITS,
        ensures
            tree.wf(),
            tree.spec_depth() == depth,
            tree.spec_empty()[0] == initial_leaf,
            forall|i: int|
                0 <= i < tree.spec_nodes().len() ==> #[trigger] tree.spec_nodes()[i]
                    == tree.spec_empty()[depth - 1 - node_level(i as nat)],
            tree.spec_leaves() == Seq::new(tree.spec_num_leaves(), |k: int| initial_leaf),
            tree.spec_root() == tree.spec_empty()[depth - 1],
    {
        // Compute empty node values, leaf to root
        let mut empty: Vec<H::Hash> = Vec::with_capacity(depth);
        empty.push(initial_leaf);
        while empty.len() < depth
            invariant
                1 <= empty.len() <= depth,
                empty@[0] == initial_leaf,
                forall|k: int|
                    0 <= k < empty.len() ==> #[trigger] empty@[k] == empty_hash::<H>(
                        initial_leaf,
                        k as nat,
                    ),
            decreases depth - empty.len(),
        {
            let last: usize = empty.len() - 1;
            let next = H::hash_node(&empty[last], &empty[last]);
            empty.push(next);
        }

        // Compute node values
        let mut nodes: Vec<H::Hash> = Vec::new();
        let mut level: usize = 0;
        proof {
            lemma2_to64();
        }
        while level < depth
            invariant
                level <= depth < usize::BITS,
                empty.len() == depth,
                nodes.len() == pow2(level as nat) - 1,
                forall|i: int|
                    0 <= i < nodes.len() ==> #[trigger] nodes@[i] == empty@[depth - 1 - node_level(
                        i as nat,
                    )],
            decreases depth - level,
        {
            proof {
                lemma_usize_pow2_no_overflow(level as nat);
                lemma_usize_shl_is_mul(1, level);
                if level + 1 < depth {
                    lemma_usize_pow2_no_overflow((level + 1) as nat);
                } else {
                    lemma_usize_pow2_no_overflow(depth as nat);
                }
                lemma_pow2_unfold((level + 1) as nat);
            }
            let width: usize = 1usize << level;
            let ghost row_start: int = nodes.len() as int;
            let mut placed: usize = 0;
            while placed < width
                invariant
                    level < depth < usize::BITS,
                    empty.len() == depth,
                    width == pow2(level as nat),
                    placed <= width,
                    row_start == pow2(level as nat) - 1,
                    nodes.len() == row_start + placed,
                    2 * pow2(level as nat) < usize::MAX,
                    forall|i: int|
                        0 <= i < nodes.len() ==> #[trigger] nodes@[i] == empty@[depth - 1
                            - node_level(i as nat)],
                decreases width - placed,
            {
                proof {
                    lemma_level_of_row(nodes.len() as nat, level as nat);
                }
                nodes.push(clone_hash::<H>(&empty[depth - 1 - level]));
                placed = placed + 1;
            }
            level = level + 1;
        }
        let tree = Self { depth, empty, nodes };
        proof {
            lemma_pow2_unfold(depth as nat);
            lemma_pow2_pos((depth - 1) as nat);
            assert forall|i: int| 0 <= i && 2 * i + 2 < tree.nodes@.len() implies #[trigger] node_ok::<
                H,
            >(tree.nodes@, i) by {
                let row = node_level(i as nat);
                assert(node_level((2 * i + 1) as nat) == row + 1);
                assert(node_level((2 * i + 2) as nat) == row + 1);
                lemma_level_below_depth((2 * i + 2) as nat, depth as nat);
                let height = depth - 1 - row;
                assert(tree.nodes@[2 * i + 1] == tree.empty@[height - 1]);
                assert(tree.nodes@[2 * i + 2] == tree.empty@[height - 1]);
                assert(tree.empty@[height] == empty_hash::<H>(initial_leaf, height as nat));
            }
            assert forall|k: int| 0 <= k < tree.spec_num_leaves() implies tree.spec_leaves()[k]
                == initial_leaf by {
                lemma_level_of_row((tree.spec_num_leaves() - 1 + k) as nat, (depth - 1) as nat);
                assert(tree.spec_leaves()[k] == tree.nodes@[tree.spec_num_leaves() - 1 + k]);
            }
            assert(tree.spec_leaves() =~= Seq::new(tree.spec_num_leaves(), |k: int| initial_leaf));
        }
        tree
    }

    /// A tree from its parts, or `None` where they do not make a well-formed
    /// tree. Checking them takes one hash for each row and one for each
    /// inner node.
    pub fn from_parts(depth: usize, empty: Vec<H::Hash>, nodes: Vec<H::Hash>) -> (r: Option<Self>)
        ensures
            match r {
                Some(tree) => tree.wf() && tree.spec_depth() == depth && tree.spec_empty()
                    == empty@ && tree.spec_nodes() == nodes@,
                None => !parts_wf::<H>(depth as nat, empty@, nodes@),
            },
    {
        if depth < 1 || depth >= usize::BITS as usize {
            return None;
        }
        if empty.len() != depth {
            return None;
        }
        proof {
            lemma_usize_pow2_no_overflow(depth as nat);
            lemma_usize_shl_is_mul(1, depth);
            lemma_pow2_unfold(depth as nat);
            lemma_pow2_pos((depth - 1) as nat);
        }
        let count: usize = (1usize << depth) - 1;
        if nodes.len() != count {
            return None;
        }
        let mut level: usize = 1;
        while level < depth
            invariant
                1 <= level <= depth,
                empty@.len() == depth,
                forall|k: int|
                    0 <= k < level ==> #[trigger] empty@[k] == empty_hash::<H>(empty@[0], k as nat),
            decreases depth - level,
        {
            let expected = H::hash_node(&empty[level - 1], &empty[level - 1]);
            if !same_hash::<H>(&expected, &empty[level]) {
                proof {
                    assert(empty@[level - 1] == empty_hash::<H>(empty@[0], (level - 1) as nat));
                    assert(empty@[level as int] != empty_hash::<H>(empty@[0], level as nat));
                }
                return None;
            }
            level = level + 1;
        }
        let inner: usize = count / 2;
        let mut at: usize = 0;
        while at < inner
            invariant
                at <= inner,
                2 * inner + 1 == nodes@.len(),
                nodes@.len() < usize::MAX,
                forall|i: int| 0 <= i < at ==> #[trigger] node_ok::<H>(nodes@, i),
            decreases inner - at,
        {
            let expected = H::hash_node(&nodes[2 * at + 1], &nodes[2 * at + 2]);
            if !same_hash::<H>(&expected, &nodes[at]) {
                proof {
                    assert(!node_ok::<H>(nodes@, at as int));
                }
                return None;
            }
            at = at + 1;
        }
        Some(Self { depth, empty, nodes })
    }

    /// The number of rows, the leaf row included.
    pub fn depth(&self) -> (r: usize)
        ensures
            r == self.spec_depth(),
    {
        self.depth
    }

    /// The hashes of the empty subtrees, the empty leaf first.
    pub fn empty(&self) -> (r: &[H::Hash])
        ensures
            r@ == self.spec_empty(),
    {
        self.empty.as_slice()
    }

    /// All nodes in breadth-first order.
    pub fn nodes(&self) -> (r: &[H::Hash])
        ensures
            r@ == self.spec_nodes(),
    {
        self.nodes.as_slice()
    }

    /// Writes one leaf and brings the nodes above it up to date.
    pub fn set(&mut self, leaf: usize, hash: H::Hash) -> (r: Result<(), Error>)
        requires
            old(self).wf(),
        ensures
            final(self).wf(),
            final(self).spec_depth() == old(self).spec_depth(),
            final(self).spec_empty() == old(self).spec_empty(),
            match r {
                Ok(_) => leaf < old(self).spec_num_leaves() && final(self).spec_leaves() == old(
                    self,
                ).spec_leaves().update(leaf as int, hash),
                Err(e) => e == Error::IndexOutOfRange && leaf >= old(self).spec_num_leaves()
                    && *final(self) == *old(self),
            },
    {
        if leaf >= self.num_leaves() {
            return Err(Error::IndexOutOfRange);
        }
        let ghost leaves = self.spec_leaves();
        proof {
            lemma_pow2_unfold(self.depth as nat);
        }
        self.set_range(leaf, vec![hash]);
        proof {
            assert(self.spec_leaves() =~= leaves.update(leaf as int, hash));
        }
        Ok(())
    }

    /// Writes `hashes` over the leaves from leaf `start` on, and brings the
    /// nodes above them up to date in one pass per row. Hashes for which no
    /// leaf is left are dropped.
    pub fn set_range(&mut self, start: usize, hashes: Vec<H::Hash>)
        requires
            old(self).wf(),
        ensures
            final(self).wf(),
            final(self).spec_depth() == old(self).spec_depth(),
            final(self).spec_empty() == old(self).spec_empty(),
            final(self).spec_leaves() == overwrite(
                old(self).spec_leaves(),
                start as int,
                hashes@,
            ),
    {
        let capacity = self.num_leaves();
        let ghost before = self.nodes@;
        proof {
            lemma_pow2_unfold(self.depth as nat);
            lemma_usize_pow2_no_overflow(self.depth as nat);
        }
        if start >= capacity {
            proof {
                assert(self.spec_leaves() =~= overwrite(self.spec_leaves(), start as int, hashes@));
            }
            return ;
        }
        let index: usize = capacity - 1 + start;
        let mut count: usize = 0;
        while count < hashes.len() && index + count < self.nodes.len()
            invariant
                self.well_shaped(),
                self.depth == old(self).depth,
                self.empty == old(self).empty,
                self.nodes@.len() == before.len(),
                before.len() < usize::MAX,
                index + count <= self.nodes@.len(),
                count <= hashes.len(),
                forall|i: int| 0 <= i < index ==> self.nodes@[i] == before[i],
                forall|i: int| index + count <= i < before.len() ==> self.nodes@[i] == before[i],
                forall|k: int| 0 <= k < count ==> self.nodes@[index + k] == hashes@[k],
            decreases hashes.len() - count,
        {
            let hash = clone_hash::<H>(&hashes[count]);
            self.nodes.set(index + count, hash);
            count = count + 1;
        }
        if count == 0 {
            assert(self.nodes@ =~= before);
        } else {
            let end: usize = index + (count - 1);
            proof {
                lemma_level_of_row(index as nat, (self.depth - 1) as nat);
                lemma_level_of_row(end as nat, (self.depth - 1) as nat);
                assert forall|i: int|
                    0 <= i && 2 * i + 2 < self.nodes@.len() && !above_range(
                        i,
                        index as nat,
                        end as nat,
                    ) implies #[trigger] node_ok::<H>(self.nodes@, i) by {
                    assert(node_ok::<H>(before, i));
                }
            }
            self.update_nodes(index, end);
        }
        proof {
            assert(self.spec_leaves() =~= overwrite(
                old(self).spec_leaves(),
                start as int,
                hashes@,
            ));
        }
    }

    /// Recomputes the nodes above the nodes from `start` to `end`, which lie
    /// in one row: first their parents, then the row above, up to the root.
    fn update_nodes(&mut self, start: usize, end: usize)
        requires
            old(self).well_shaped(),
            start <= end < old(self).spec_nodes().len(),
            node_level(start as nat) == node_level(end as nat),
            forall|i: int|
                0 <= i && 2 * i + 2 < old(self).spec_nodes().len() && !above_range(
                    i,
                    start as nat,
                    end as nat,
                ) ==> #[trigger] node_ok::<H>(old(self).spec_nodes(), i),
        ensures
            final(self).wf(),
            final(self).spec_depth() == old(self).spec_depth(),
            final(self).spec_empty() == old(self).spec_empty(),
            forall|i: int|
                0 <= i < old(self).spec_nodes().len() && end < 2 * i + 1
                    ==> final(self).spec_nodes()[i] == old(self).spec_nodes()[i],
        decreases start,
    {
        if let Some(first) = parent(start) {
            if let Some(last) = parent(end) {
                let ghost before = self.nodes@;
                proof {
                    lemma_parents_of_row(start as nat, end as nat);
                    lemma_pow2_unfold(self.depth as nat);
                    lemma_usize_pow2_no_overflow(self.depth as nat);
                }
                let mut at: usize = first;
                while at <= last
                    invariant
                        self.well_shaped(),
                        self.depth == old(self).depth,
                        self.empty == old(self).empty,
                        self.nodes@.len() == before.len(),
                        before.len() < usize::MAX,
                        first <= at <= last + 1,
                        2 * last + 2 < self.nodes@.len(),
                        last < 2 * first + 1,
                        node_level(first as nat) == node_level(last as nat),
                        forall|i: int| last < i < before.len() ==> self.nodes@[i] == before[i],
                        forall|i: int| first <= i < at ==> #[trigger] node_ok::<H>(self.nodes@, i),
                        forall|i: int|
                            0 <= i && 2 * i + 2 < before.len() && !(first <= i <= last)
                                && !above_range(i, first as nat, last as nat) ==> #[trigger] node_ok::<
                                H,
                            >(self.nodes@, i),
                    decreases last + 1 - at,
                {
                    let ghost nodes = self.nodes@;
                    let child = first_child(at);
                    let hash = H::hash_node(&self.nodes[child], &self.nodes[child + 1]);
                    self.nodes.set(at, hash);
                    proof {
                        assert forall|i: int| first <= i < at + 1 implies #[trigger] node_ok::<H>(
                            self.nodes@,
                            i,
                        ) by {
                            if i < at {
                                assert(node_ok::<H>(nodes, i));
                            }
                        }
                        assert forall|i: int|
                            0 <= i && 2 * i + 2 < before.len() && !(first <= i <= last)
                                && !above_range(
                                i,
                                first as nat,
                                last as nat,
                            ) implies #[trigger] node_ok::<H>(self.nodes@, i) by {
                            assert(node_ok::<H>(nodes, i));
                            if first == 0 {
                                assert(last == 0);
                            }
                        }
                    }
                    at = at + 1;
                }
                self.update_nodes(first, last);
            }
        }
    }

    /// The proof for leaf `leaf`, as the nodes stand.
    pub open spec fn spec_proof(&self, leaf: nat) -> Seq<Branch<H>> {
        path_from::<H>(self.spec_nodes(), (self.spec_num_leaves() - 1 + leaf) as nat)
    }

    /// The proof that leaf `leaf` is in the tree: for each row below the
    /// root, from the leaves up, the hash of the sibling and the side taken.
    #[must_use]
    pub fn merkle_proof(&self, leaf: usize) -> (r: Option<Proof<H>>)
        requires
            self.well_shaped(),
        ensures
            match r {
                Some(path) => leaf < self.spec_num_leaves() && path@ == self.spec_proof(
                    leaf as nat,
                ) && path@.len() == self.spec_depth() - 1,
                None => leaf >= self.spec_num_leaves(),
            },
    {
        if leaf >= self.num_leaves() {
            return None;
        }
        proof {
            lemma_pow2_unfold(self.depth as nat);
            lemma_usize_pow2_no_overflow(self.depth as nat);
        }
        let from: usize = self.num_leaves() - 1 + leaf;
        let mut index: usize = from;
        let mut path: Vec<Branch<H>> = Vec::with_capacity(self.depth);
        while index != 0
            invariant
                self.well_shaped(),
                index < self.nodes@.len() < usize::MAX,
                self.nodes@.len() % 2 == 1,
                path@ + path_from::<H>(self.nodes@, index as nat) == path_from::<H>(
                    self.nodes@,
                    from as nat,
                ),
            decreases index,
        {
            let ghost so_far = path@;
            // Add proof for node at index to parent
            let branch = if index % 2 == 1 {
                Branch::Left(clone_hash::<H>(&self.nodes[index + 1]))
            } else {
                Branch::Right(clone_hash::<H>(&self.nodes[index - 1]))
            };
            path.push(branch);
            proof {
                assert(path@ + path_from::<H>(self.nodes@, ((index - 1) / 2) as nat) =~= so_far
                    + path_from::<H>(self.nodes@, index as nat));
            }
            index = (index - 1) / 2;
        }
        proof {
            assert(path@ =~= path@ + path_from::<H>(self.nodes@, 0));
            lemma_path_len::<H>(self.nodes@, from as nat);
            lemma_level_of_row(from as nat, (self.depth - 1) as nat);
        }
        Some(Proof(path))
    }

    /// Whether `path` leads from a leaf with hash `hash` to the root of this
    /// tree.
    #[must_use]
    pub fn verify(&self, hash: H::Hash, path: &Proof<H>) -> (r: bool)
        requires
            self.well_shaped(),
        ensures
            r == (path_root::<H>(path@, hash) == self.spec_root()),
    {
        let computed = path.root(hash);
        let root = self.root();
        same_hash::<H>(&computed, &root)
    }

    /// The leaves, from left to right.
    #[must_use]
    pub fn leaves(&self) -> (r: &[H::Hash])
        requires
            self.well_shaped(),
        ensures
            r@ == self.spec_leaves(),
    {
        proof {
            lemma_pow2_unfold(self.depth as nat);
            lemma_pow2_pos((self.depth - 1) as nat);
        }
        let first: usize = self.num_leaves() - 1;
        slice_subrange(self.nodes.as_slice(), first, self.nodes.len())
    }

    /// The number of leaves.
    #[must_use]
    pub fn num_leaves(&self) -> (r: usize)
        requires
            self.well_shaped(),
        ensures
            r == self.spec_num_leaves(),
            r == (self.spec_nodes().len() + 1) / 2,
    {
        proof {
            lemma_usize_pow2_no_overflow((self.depth - 1) as nat);
            lemma_usize_shl_is_mul(1, (self.depth - 1) as usize);
            lemma_pow2_unfold(self.depth as nat);
        }
        1usize << (self.depth - 1)
    }

    /// The hash at the root.
    #[must_use]
    pub fn root(&self) -> (r: H::Hash)
        requires
            self.well_shaped(),
        ensures
            r == self.spec_root(),
    {
        proof {
            lemma_pow2_unfold(self.depth as nat);
            lemma_pow2_pos((self.depth - 1) as nat);
        }
        clone_hash::<H>(&self.nodes[0])
    }
}

/// The leaf index of a path is at least that of the path without its lowest
/// steps.
proof fn lemma_leaf_index_of_tail<H: Hasher>(path: Seq<Branch<H>>, from: int)
    requires
        0 <= from <= path.len(),
    ensures
        path_leaf_index(path.skip(from)) <= path_leaf_index(path),
    decreases from,
{
    if from == 0 {
        assert(path.skip(0) =~= path);
    } else {
        lemma_leaf_index_of_tail(path, from - 1);
        assert(path.skip(from - 1).drop_first() =~= path.skip(from));
    }
}

impl<H: Hasher> Proof<H> {
    /// Compute the leaf index for this proof
    #[must_use]
    pub fn leaf_index(&self) -> (r: usize)
        requires
            path_leaf_index(self@) <= usize::MAX,
        ensures
            r == path_leaf_index(self@),
    {
        let mut index: usize = 0;
        let mut at: usize = self.0.len();
        proof {
            assert(self@.skip(at as int) =~= Seq::empty());
        }
        while at > 0
            invariant
                at <= self@.len(),
                path_leaf_index(self@) <= usize::MAX,
                index == path_leaf_index(self@.skip(at as int)),
            decreases at,
        {
            at = at - 1;
            proof {
                lemma_leaf_index_of_tail(self@, at as int);
                assert(self@.skip(at as int).drop_first() =~= self@.skip(at + 1));
            }
            index = match &self.0[at] {
                Branch::Left(_) => 2 * index,
                Branch::Right(_) => 2 * index + 1,
            };
        }
        proof {
            assert(self@.skip(0) =~= self@);
        }
        index
    }

    /// Compute path index: 0 for each step from a left child, 1 for each
    /// step from a right child, bottom to top.
    #[must_use]
    pub fn path_index(&self) -> (r: Vec<Field>)
        ensures
            r@.len() == self@.len(),
            forall|i: int| 0 <= i < r@.len() ==> #[trigger] r@[i]@ == branch_bit(self@[i]),
    {
        let mut bits: Vec<Field> = Vec::with_capacity(self.0.len());
        let mut at: usize = 0;
        while at < self.0.len()
            invariant
                at <= self@.len(),
                bits@.len() == at,
                forall|i: int| 0 <= i < at ==> #[trigger] bits@[i]@ == branch_bit(self@[i]),
            decreases self@.len() - at,
        {
            let bit = match &self.0[at] {
                Branch::Left(_) => Field::from_u64(0),
                Branch::Right(_) => Field::from_u64(1),
            };
            bits.push(bit);
            at = at + 1;
        }
        bits
    }

    /// Compute the Merkle root given a leaf hash
    #[must_use]
    pub fn root(&self, hash: H::Hash) -> (r: H::Hash)
        ensures
            r == path_root::<H>(self@, hash),
    {
        let ghost leaf = hash;
        let mut above = hash;
        let mut at: usize = 0;
        proof {
            assert(self@.skip(0) =~= self@);
        }
        while at < self.0.len()
            invariant
                at <= self@.len(),
                path_root::<H>(self@.skip(at as int), above) == path_root::<H>(self@, leaf),
            decreases self@.len() - at,
        {
            proof {
                assert(self@.skip(at as int).drop_first() =~= self@.skip(at + 1));
            }
            above = match &self.0[at] {
                Branch::Left(sibling) => H::hash_node(&above, sibling),
                Branch::Right(sibling) => H::hash_node(sibling, &above),
            };
            at = at + 1;
        }
        above
    }
}

} // verus!

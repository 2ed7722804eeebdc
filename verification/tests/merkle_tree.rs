use semaphore_contract::error::Error;
use semaphore_contract::field::Field;
use semaphore_contract::semaphore::{depth, first_child, parent, Branch, Hasher, MerkleTree, Proof};

/// A small hasher for tests: not secure, but order sensitive and easy to
/// compute by hand: `3 * left + 5 * right + 1`.
#[derive(Clone, Copy, Debug, PartialEq, Eq)]
struct Mix;

impl Hasher for Mix {
    type Hash = u64;

    fn hash_node(left: &u64, right: &u64) -> u64 {
        left.wrapping_mul(3).wrapping_add(right.wrapping_mul(5)).wrapping_add(1)
    }

    // The three items below exist for the verifier only and are never called.
    fn spec_hash_node(_left: u64, _right: u64) -> u64 {
        unreachable!()
    }

    fn lemma_clone_is_copy(_a: u64, _b: u64) {}

    fn lemma_eq_is_equality(_a: u64, _b: u64) {}
}

#[test]
fn parent_of_root_is_none() {
    assert_eq!(parent(0), None);
    assert_eq!(parent(1), Some(0));
    assert_eq!(parent(2), Some(0));
    assert_eq!(parent(3), Some(1));
    assert_eq!(parent(4), Some(1));
    assert_eq!(parent(5), Some(2));
    assert_eq!(parent(6), Some(2));
    assert_eq!(parent(usize::MAX), Some((usize::MAX - 1) / 2));
}

#[test]
fn first_child_is_twice_plus_one() {
    assert_eq!(first_child(0), 1);
    assert_eq!(first_child(1), 3);
    assert_eq!(first_child(2), 5);
    assert_eq!(first_child(6), 13);
    assert_eq!(first_child((usize::MAX - 1) / 2), usize::MAX);
}

#[test]
fn parent_undoes_first_child() {
    for index in 0..100usize {
        assert_eq!(parent(first_child(index)), Some(index));
        assert_eq!(parent(first_child(index) + 1), Some(index));
    }
}

#[test]
fn depth_counts_rows_from_the_root() {
    assert_eq!(depth(0), 0);
    assert_eq!(depth(1), 1);
    assert_eq!(depth(2), 1);
    assert_eq!(depth(3), 2);
    assert_eq!(depth(6), 2);
    assert_eq!(depth(7), 3);
    assert_eq!(depth(14), 3);
    assert_eq!(depth(15), 4);
    assert_eq!(depth(usize::MAX), usize::BITS as usize);
}

#[test]
fn new_tree_has_empty_root() {
    // empty subtrees: 7, 3*7 + 5*7 + 1 = 57, 3*57 + 5*57 + 1 = 457
    let tree = MerkleTree::<Mix>::new(3, 7);
    assert_eq!(tree.depth(), 3);
    assert_eq!(tree.num_leaves(), 4);
    assert_eq!(tree.empty(), &[7, 57, 457]);
    assert_eq!(tree.nodes(), &[457, 57, 57, 7, 7, 7, 7]);
    assert_eq!(tree.root(), 457);
    assert_eq!(tree.root(), tree.empty()[2]);
    assert_eq!(tree.leaves(), &[7, 7, 7, 7]);
}

#[test]
fn tree_of_one_row_is_its_leaf() {
    let mut tree = MerkleTree::<Mix>::new(1, 7);
    assert_eq!(tree.num_leaves(), 1);
    assert_eq!(tree.root(), 7);
    let path = tree.merkle_proof(0).expect("leaf 0 exists");
    assert!(path.0.is_empty());
    assert_eq!(path.leaf_index(), 0);
    assert_eq!(path.root(7), 7);
    assert_eq!(tree.set(0, 9), Ok(()));
    assert_eq!(tree.root(), 9);
    assert_eq!(tree.set(1, 9), Err(Error::IndexOutOfRange));
}

#[test]
fn set_updates_the_path_to_the_root() {
    let mut tree = MerkleTree::<Mix>::new(3, 7);
    assert_eq!(tree.set(2, 10), Ok(()));
    assert_eq!(tree.leaves(), &[7, 7, 10, 7]);
    // right inner node: 3*10 + 5*7 + 1 = 66; root: 3*57 + 5*66 + 1 = 502
    assert_eq!(tree.nodes(), &[502, 57, 66, 7, 7, 10, 7]);
    assert_eq!(tree.root(), 502);
    let path = tree.merkle_proof(2).expect("leaf 2 exists");
    assert!(path == Proof(vec![Branch::Left(7), Branch::Right(57)]));
    assert_eq!(path.leaf_index(), 2);
    assert_eq!(path.root(10), 502);
    assert!(tree.verify(10, &path));
    assert!(!tree.verify(11, &path));
}

#[test]
fn set_changes_the_root_unless_the_leaf_stays() {
    let mut tree = MerkleTree::<Mix>::new(3, 7);
    let before = tree.root();
    assert_eq!(tree.set(1, 7), Ok(()));
    assert_eq!(tree.root(), before);
    assert_eq!(tree.set(1, 8), Ok(()));
    assert_ne!(tree.root(), before);
}

#[test]
fn set_out_of_range_is_refused() {
    let mut tree = MerkleTree::<Mix>::new(3, 7);
    assert_eq!(tree.set(4, 10), Err(Error::IndexOutOfRange));
    assert_eq!(tree.set(usize::MAX, 10), Err(Error::IndexOutOfRange));
    assert_eq!(tree.nodes(), &[457, 57, 57, 7, 7, 7, 7]);
    assert!(tree.merkle_proof(4).is_none());
    assert!(tree.merkle_proof(usize::MAX).is_none());
}

#[test]
fn set_range_writes_a_run_of_leaves() {
    let mut tree = MerkleTree::<Mix>::new(3, 7);
    tree.set_range(1, vec![10, 20]);
    assert_eq!(tree.leaves(), &[7, 10, 20, 7]);
    // inner nodes: 3*7 + 5*10 + 1 = 72 and 3*20 + 5*7 + 1 = 96;
    // root: 3*72 + 5*96 + 1 = 697
    assert_eq!(tree.nodes(), &[697, 72, 96, 7, 10, 20, 7]);
}

#[test]
fn set_range_is_the_same_as_setting_each_leaf() {
    let mut at_once = MerkleTree::<Mix>::new(4, 1);
    at_once.set_range(2, vec![11, 12, 13, 14, 15]);
    let mut one_by_one = MerkleTree::<Mix>::new(4, 1);
    for (offset, hash) in [11u64, 12, 13, 14, 15].iter().enumerate() {
        assert_eq!(one_by_one.set(2 + offset, *hash), Ok(()));
    }
    assert_eq!(at_once.nodes(), one_by_one.nodes());
}

#[test]
fn set_range_drops_what_does_not_fit() {
    let mut tree = MerkleTree::<Mix>::new(3, 7);
    tree.set_range(3, vec![1, 2, 3]);
    // right inner node: 3*7 + 5*1 + 1 = 27; root: 3*57 + 5*27 + 1 = 307
    assert_eq!(tree.nodes(), &[307, 57, 27, 7, 7, 7, 1]);
    tree.set_range(4, vec![5]);
    assert_eq!(tree.nodes(), &[307, 57, 27, 7, 7, 7, 1]);
    tree.set_range(usize::MAX, vec![5]);
    assert_eq!(tree.nodes(), &[307, 57, 27, 7, 7, 7, 1]);
    tree.set_range(0, vec![]);
    assert_eq!(tree.nodes(), &[307, 57, 27, 7, 7, 7, 1]);
}

#[test]
fn every_proof_verifies_and_encodes_its_leaf() {
    let mut tree = MerkleTree::<Mix>::new(5, 3);
    tree.set_range(0, (100..116).collect());
    for leaf in 0..16usize {
        let path = tree.merkle_proof(leaf).expect("the leaf exists");
        assert_eq!(path.0.len(), 4);
        assert_eq!(path.leaf_index(), leaf);
        assert!(tree.verify(100 + leaf as u64, &path));
        assert_eq!(path.root(100 + leaf as u64), tree.root());
    }
}

#[test]
fn set_then_proof_verifies() {
    for leaf in 0..8usize {
        let mut tree = MerkleTree::<Mix>::new(4, 0);
        assert_eq!(tree.set(leaf, 99), Ok(()));
        let path = tree.merkle_proof(leaf).expect("the leaf exists");
        assert!(tree.verify(99, &path));
        assert_eq!(path.leaf_index(), leaf);
    }
}

#[test]
fn reading_twice_gives_the_same() {
    let mut tree = MerkleTree::<Mix>::new(4, 0);
    assert_eq!(tree.set(5, 99), Ok(()));
    let nodes = tree.nodes().to_vec();
    let root = tree.root();
    let path = tree.merkle_proof(5).expect("the leaf exists");
    let verdict = tree.verify(99, &path);
    assert_eq!(tree.root(), root);
    assert!(tree.merkle_proof(5).expect("the leaf exists") == path);
    assert_eq!(tree.verify(99, &path), verdict);
    assert_eq!(tree.nodes(), &nodes[..]);
}

#[test]
fn proof_records_siblings_and_sides() {
    let mut tree = MerkleTree::<Mix>::new(3, 7);
    assert_eq!(tree.set(2, 10), Ok(()));
    // Leaf 3 is node 6, a right child; its parent, node 2, is a right child.
    let path = tree.merkle_proof(3).expect("leaf 3 exists");
    assert!(path == Proof(vec![Branch::Right(10), Branch::Right(57)]));
    assert_eq!(path.leaf_index(), 3);
    assert_eq!(path.path_index(), vec![Field::from_u64(1), Field::from_u64(1)]);
    // Leaf 0 is node 3, a left child; its parent, node 1, is a left child.
    let path = tree.merkle_proof(0).expect("leaf 0 exists");
    assert!(path == Proof(vec![Branch::Left(7), Branch::Left(66)]));
    assert_eq!(path.leaf_index(), 0);
    assert_eq!(path.path_index(), vec![Field::from_u64(0), Field::from_u64(0)]);
}

#[test]
fn leaf_index_reads_the_lowest_step_as_the_lowest_bit() {
    let path: Proof<Mix> = Proof(vec![Branch::Right(0), Branch::Left(0), Branch::Left(0)]);
    assert_eq!(path.leaf_index(), 1);
    let path: Proof<Mix> = Proof(vec![Branch::Left(0), Branch::Left(0), Branch::Right(0)]);
    assert_eq!(path.leaf_index(), 4);
    let path: Proof<Mix> = Proof(vec![Branch::Left(0), Branch::Right(0), Branch::Right(0)]);
    assert_eq!(path.leaf_index(), 6);
}

#[test]
fn proof_root_takes_the_sides_into_account() {
    // From a left child: 3*2 + 5*4 + 1 = 27; from a right child: 3*4 + 5*2 + 1 = 23.
    let left: Proof<Mix> = Proof(vec![Branch::Left(4)]);
    assert_eq!(left.root(2), 27);
    let right: Proof<Mix> = Proof(vec![Branch::Right(4)]);
    assert_eq!(right.root(2), 23);
}

#[test]
fn from_parts_takes_a_well_formed_tree() {
    let tree = MerkleTree::<Mix>::from_parts(3, vec![7, 57, 457], vec![502, 57, 66, 7, 7, 10, 7])
        .expect("the parts fit");
    assert_eq!(tree.depth(), 3);
    assert_eq!(tree.root(), 502);
    assert_eq!(tree.leaves(), &[7, 7, 10, 7]);
}

#[test]
fn from_parts_refuses_what_does_not_fit() {
    let empty = vec![7u64, 57, 457];
    let nodes = vec![502u64, 57, 66, 7, 7, 10, 7];
    // no rows, or more rows than the machine can count nodes for
    assert!(MerkleTree::<Mix>::from_parts(0, vec![], vec![]).is_none());
    assert!(MerkleTree::<Mix>::from_parts(usize::BITS as usize, vec![], vec![]).is_none());
    // a wrong number of empty subtrees or of nodes
    assert!(MerkleTree::<Mix>::from_parts(3, vec![7, 57], nodes.clone()).is_none());
    assert!(MerkleTree::<Mix>::from_parts(3, empty.clone(), vec![502, 57, 66]).is_none());
    // an empty subtree that is not the hash of the one before
    assert!(MerkleTree::<Mix>::from_parts(3, vec![7, 57, 458], nodes.clone()).is_none());
    // a root or an inner node that is not the hash of its children
    assert!(MerkleTree::<Mix>::from_parts(3, empty.clone(), vec![503, 57, 66, 7, 7, 10, 7])
        .is_none());
    assert!(MerkleTree::<Mix>::from_parts(3, empty.clone(), vec![502, 57, 66, 7, 7, 10, 8])
        .is_none());
    assert!(MerkleTree::<Mix>::from_parts(3, empty, nodes).is_some());
}

#[test]
fn trees_and_proofs_compare_copy_and_print() {
    let mut tree = MerkleTree::<Mix>::new(2, 7);
    let copy = tree.clone();
    assert_eq!(copy, tree);
    assert_eq!(tree.set(0, 8), Ok(()));
    assert_ne!(copy, tree);
    assert_eq!(copy.nodes(), &[57, 7, 7]);
    assert_eq!(format!("{:?}", copy), "MerkleTree { depth: 2, empty: [7, 57], nodes: [57, 7, 7] }");
    let path = tree.merkle_proof(1).expect("leaf 1 exists");
    assert_eq!(path, Proof(vec![Branch::Right(8)]));
    assert_eq!(format!("{:?}", path), "Proof([Right(8)])");
}

//! Anonymous membership and signalling: members register identity
//! commitments in a Merkle tree, and each member can later signal once per
//! poll with a zero-knowledge proof of membership.
//!
//! The zero-knowledge proof itself is checked by the caller, who hands the
//! verdict to [`Contract::vote`]; everything else that decides whether a
//! signal is accepted is decided here.

pub mod error;
pub mod field;
pub mod inputs;
pub mod laws;
pub mod poseidon;
pub mod registry;
pub mod semaphore;

use crate::error::Error;
use crate::field::{
    decimal_text, fields_to_strings, hash_to_field, hash_to_field_value, parse_field_value,
    parse_fields, strings_to_fields, Field,
};
use crate::inputs::{parse_public_inputs, public_inputs, values_of};
use crate::poseidon::PoseidonHash;
use crate::registry::{entry_ids, texts_of, Registry};
use crate::semaphore::{branch_bit, branch_sibling, parts_wf, Branch};
use vstd::prelude::*;
use vstd::string::StringExecFns;
use vstd::utf8::encode_utf8;

verus! {

/// What an accepted operation lets the world know.
#[derive(Clone, Debug, PartialEq, Eq)]
pub enum Event {
    /// A poll was created.
    PollCreated { poll_id: String },
    /// A signal was accepted.
    SignalAccepted { signal: String },
}

/// The contract's tree of identity commitments.
#[derive(PartialEq)]
pub struct MerkleTree {
    pub tree: crate::semaphore::MerkleTree<PoseidonHash>,
}

impl Default for MerkleTree {
    /// A tree of depth 4, so of 8 leaves, whose every leaf is zero: the tree
    /// that `new(4, zero)` makes.
    fn default() -> (r: Self)
        ensures
            r.tree.wf(),
            r.tree.spec_depth() == 4,
            r.tree.spec_empty()[0] == Field::of_value(0),
            r.tree.spec_leaves() == Seq::new(8, |k: int| Field::of_value(0)),
    {
        let zero = Field::from_u64(0);
        proof {
            Field::lemma_of_value(zero);
            vstd::arithmetic::power2::lemma2_to64();
        }
        let tree = crate::semaphore::MerkleTree::new(4, zero);
        proof {
            assert(tree.spec_leaves() =~= Seq::new(8, |k: int| Field::of_value(0)));
        }
        Self { tree }
    }
}

impl MerkleTree {
    /// The tree as it is stored: its depth, and the hashes of the empty
    /// subtrees and of the nodes in decimal. The texts read back as the
    /// hashes, so that [`MerkleTree::from_parts`] gives the tree again.
    pub fn to_parts(&self) -> (r: (usize, Vec<String>, Vec<String>))
        ensures
            r.0 == self.tree.spec_depth(),
            r.1@.len() == self.tree.spec_empty().len(),
            forall|i: int|
                0 <= i < r.1@.len() ==> #[trigger] r.1@[i]@ == decimal_text(
                    self.tree.spec_empty()[i]@,
                ),
            r.2@.len() == self.tree.spec_nodes().len(),
            forall|i: int|
                0 <= i < r.2@.len() ==> #[trigger] r.2@[i]@ == decimal_text(
                    self.tree.spec_nodes()[i]@,
                ),
            parse_fields(r.1@) == Some(self.tree.spec_empty()),
            parse_fields(r.2@) == Some(self.tree.spec_nodes()),
    {
        (
            self.tree.depth(),
            fields_to_strings(self.tree.empty()),
            fields_to_strings(self.tree.nodes()),
        )
    }

    /// The tree that was stored as these parts, or `None` where a text
    /// stands for no field element or the parts do not make a well-formed
    /// tree.
    pub fn from_parts(depth: usize, empty: Vec<String>, nodes: Vec<String>) -> (r: Option<Self>)
        ensures
            match r {
                Some(stored) => {
                    &&& stored.tree.wf()
                    &&& stored.tree.spec_depth() == depth
                    &&& parse_fields(empty@) == Some(stored.tree.spec_empty())
                    &&& parse_fields(nodes@) == Some(stored.tree.spec_nodes())
                },
                None => {
                    ||| parse_fields(empty@) is None
                    ||| parse_fields(nodes@) is None
                    ||| !parts_wf::<PoseidonHash>(
                        depth as nat,
                        parse_fields(empty@).unwrap(),
                        parse_fields(nodes@).unwrap(),
                    )
                },
            },
    {
        let empty = match strings_to_fields(&empty) {
            Some(empty) => empty,
            None => {
                return None;
            },
        };
        let nodes = match strings_to_fields(&nodes) {
            Some(nodes) => nodes,
            None => {
                return None;
            },
        };
        match crate::semaphore::MerkleTree::from_parts(depth, empty, nodes) {
            Some(tree) => Some(Self { tree }),
            None => None,
        }
    }

    /// The proof of membership for a leaf, or `None` where the tree has no
    /// such leaf.
    pub fn get_branch(&self, leaf_index: usize) -> (r: Option<MerklePath>)
        requires
            self.tree.wf(),
        ensures
            r.is_some() == (leaf_index < self.tree.spec_num_leaves()),
            r matches Some(path) ==> path.stands_for(self.tree.spec_proof(leaf_index as nat)),
            r matches Some(path) ==> path.tree_siblings@.len() == self.tree.spec_depth() - 1,
    {
        let merkle_proof = match self.tree.merkle_proof(leaf_index) {
            Some(merkle_proof) => merkle_proof,
            None => {
                return None;
            },
        };
        let mut tree_path_indices: Vec<String> = Vec::new();
        let mut tree_siblings: Vec<String> = Vec::new();
        let mut at: usize = 0;
        proof {
            reveal_strlit("0");
            reveal_strlit("1");
            assert("0"@ =~= decimal_text(0));
            assert("1"@ =~= decimal_text(1));
        }
        while at < merkle_proof.0.len()
            invariant
                at <= merkle_proof@.len(),
                tree_path_indices@.len() == at,
                tree_siblings@.len() == at,
                "0"@ == decimal_text(0),
                "1"@ == decimal_text(1),
                forall|i: int|
                    0 <= i < at ==> #[trigger] tree_path_indices@[i]@ == decimal_text(
                        branch_bit(merkle_proof@[i]),
                    ),
                forall|i: int|
                    0 <= i < at ==> #[trigger] tree_siblings@[i]@ == decimal_text(
                        branch_sibling(merkle_proof@[i])@,
                    ),
            decreases merkle_proof@.len() - at,
        {
            match &merkle_proof.0[at] {
                Branch::Left(c) => {
                    tree_path_indices.push(String::from_str("0"));
                    tree_siblings.push(c.to_string());
                },
                Branch::Right(c) => {
                    tree_path_indices.push(String::from_str("1"));
                    tree_siblings.push(c.to_string());
                },
            }
            at = at + 1;
        }
        Some(MerklePath { tree_path_indices, tree_siblings })
    }
}

/// A proof of membership as the prover reads it: for each row from the
/// leaves up, "0" for a left child or "1" for a right child, and the
/// sibling's hash in decimal.
#[derive(Clone, Debug, PartialEq, Eq)]
pub struct MerklePath {
    pub tree_path_indices: Vec<String>,
    pub tree_siblings: Vec<String>,
}

impl MerklePath {
    /// The path writes out these steps: for each step its side, "0" for a
    /// step from a left child and "1" for one from a right child, and the
    /// sibling's hash in decimal.
    pub open spec fn stands_for(&self, steps: Seq<Branch<PoseidonHash>>) -> bool {
        &&& self.tree_path_indices@.len() == steps.len()
        &&& self.tree_siblings@.len() == steps.len()
        &&& forall|i: int|
            0 <= i < steps.len() ==> #[trigger] self.tree_path_indices@[i]@ == decimal_text(
                branch_bit(steps[i]),
            )
        &&& forall|i: int|
            0 <= i < steps.len() ==> #[trigger] self.tree_siblings@[i]@ == decimal_text(
                branch_sibling(steps[i])@,
            )
    }
}

/// The state of the protocol: the tree of commitments, the polls with the
/// nullifiers spent in each, and the index of the next free leaf.
pub struct Contract {
    merkle_tree: MerkleTree,
    nullifiers: Registry,  // external_nullifier: < nullifier_hash  >
    next_leaf: usize,
}

/// How the creation of a poll ends: it is refused where a poll has the id.
pub open spec fn add_poll_outcome(
    polls: Map<Seq<char>, Set<Seq<char>>>,
    poll_id: Seq<char>,
) -> Result<(), Error> {
    if polls.contains_key(poll_id) {
        Err(Error::AlreadyExists)
    } else {
        Ok(())
    }
}

/// The polls after a poll was created: no nullifier is spent in it.
pub open spec fn polls_after_add(
    polls: Map<Seq<char>, Set<Seq<char>>>,
    poll_id: Seq<char>,
) -> Map<Seq<char>, Set<Seq<char>>> {
    polls.insert(poll_id, Set::empty())
}

/// How a vote ends, given the tree's root, the polls, the signal, the
/// verifier's verdict on the proof and the public inputs, which hold in this
/// order the root, the nullifier, the hash of the signal and the poll's id.
/// The first check that fails decides.
pub open spec fn vote_outcome(
    root: nat,
    polls: Map<Seq<char>, Set<Seq<char>>>,
    signal: Seq<char>,
    verified: bool,
    inputs: Seq<char>,
) -> Result<(), Error> {
    if !verified {
        Err(Error::InvalidProof)
    } else {
        match public_inputs(inputs) {
            None => Err(Error::MalformedPublicInputs),
            Some(values) => if !polls.contains_key(decimal_text(values[3])) {
                Err(Error::UnknownContext)
            } else if polls[decimal_text(values[3])].contains(decimal_text(values[1])) {
                Err(Error::ReplayedNullifier)
            } else if values[0] != root {
                Err(Error::StaleRoot)
            } else if values[2] != hash_to_field_value(encode_utf8(signal)) {
                Err(Error::SignalMismatch)
            } else {
                Ok(())
            },
        }
    }
}

/// The polls after a vote with these public inputs was accepted: the
/// nullifier is spent in the poll that the inputs name.
pub open spec fn polls_after_vote(
    polls: Map<Seq<char>, Set<Seq<char>>>,
    inputs: Seq<char>,
) -> Map<Seq<char>, Set<Seq<char>>> {
    let values = public_inputs(inputs).unwrap();
    let poll_id = decimal_text(values[3]);
    polls.insert(poll_id, polls[poll_id].insert(decimal_text(values[1])))
}

impl Default for Contract {
    /// The contract at its start: the default tree, no poll, no member.
    fn default() -> (r: Self)
        ensures
            r.wf(),
            r.spec_tree().spec_depth() == 4,
            r.spec_tree().spec_empty()[0] == Field::of_value(0),
            r.spec_tree().spec_leaves() == Seq::new(8, |k: int| Field::of_value(0)),
            r.spec_polls() == Map::<Seq<char>, Set<Seq<char>>>::empty(),
            r.spec_next_leaf() == 0,
    {
        Self { merkle_tree: MerkleTree::default(), nullifiers: Registry::new(), next_leaf: 0 }
    }
}

impl Contract {
    /// The tree of commitments.
    pub closed spec fn spec_tree(&self) -> crate::semaphore::MerkleTree<PoseidonHash> {
        self.merkle_tree.tree
    }

    /// For each poll, by its id, the nullifiers spent in it.
    pub closed spec fn spec_polls(&self) -> Map<Seq<char>, Set<Seq<char>>> {
        self.nullifiers@
    }

    /// The index of the next free leaf.
    pub closed spec fn spec_next_leaf(&self) -> nat {
        self.next_leaf as nat
    }

    /// The polls are kept without duplicates.
    pub closed spec fn polls_wf(&self) -> bool {
        self.nullifiers.wf()
    }

    /// The tree is well formed and the polls are kept without duplicates.
    pub open spec fn wf(&self) -> bool {
        self.spec_tree().wf() && self.polls_wf()
    }

    /// The tree of commitments.
    pub fn merkle_tree(&self) -> (r: &MerkleTree)
        ensures
            r.tree == self.spec_tree(),
    {
        &self.merkle_tree
    }

    /// The polls as they are stored: each poll's id with the nullifiers spent
    /// in it, in the order in which the polls were created. No id comes
    /// twice.
    pub fn polls(&self) -> (r: Vec<(String, Vec<String>)>)
        requires
            self.wf(),
        ensures
            entry_ids(r@).no_duplicates(),
            forall|id: Seq<char>| #[trigger]
                self.spec_polls().contains_key(id) <==> entry_ids(r@).contains(id),
            forall|i: int|
                0 <= i < r@.len() ==> self.spec_polls()[(#[trigger] r@[i]).0@] == texts_of(
                    r@[i].1@,
                ),
    {
        let stored = self.nullifiers.entries();
        proof {
            assert forall|id: Seq<char>| #[trigger]
                self.spec_polls().contains_key(id) <==> entry_ids(stored@).contains(id) by {
                self.nullifiers.lemma_keys_are_ids(id);
            }
        }
        stored
    }

    /// Takes the contract apart into what is stored of it: the tree, the
    /// polls as [`Contract::polls`] gives them, and the next free leaf.
    pub fn into_parts(self) -> (r: (MerkleTree, Vec<(String, Vec<String>)>, usize))
        requires
            self.wf(),
        ensures
            r.0.tree == self.spec_tree(),
            r.0.tree.wf(),
            entry_ids(r.1@).no_duplicates(),
            forall|id: Seq<char>| #[trigger]
                self.spec_polls().contains_key(id) <==> entry_ids(r.1@).contains(id),
            forall|i: int|
                0 <= i < r.1@.len() ==> self.spec_polls()[(#[trigger] r.1@[i]).0@] == texts_of(
                    r.1@[i].1@,
                ),
            r.2 == self.spec_next_leaf(),
    {
        let polls = self.polls();
        (self.merkle_tree, polls, self.next_leaf)
    }

    /// The contract that was stored as this tree, these polls and this next
    /// leaf, or `None` where two of the polls have the same id.
    pub fn from_parts(
        merkle_tree: MerkleTree,
        polls: &Vec<(String, Vec<String>)>,
        next_leaf: usize,
    ) -> (r: Option<Contract>)
        requires
            merkle_tree.tree.wf(),
        ensures
            match r {
                Some(stored) => {
                    &&& stored.wf()
                    &&& stored.spec_tree() == merkle_tree.tree
                    &&& stored.spec_next_leaf() == next_leaf
                    &&& forall|id: Seq<char>| #[trigger]
                        stored.spec_polls().contains_key(id) <==> entry_ids(polls@).contains(id)
                    &&& forall|i: int|
                        0 <= i < polls@.len() ==> stored.spec_polls()[(#[trigger] polls@[i]).0@]
                            == texts_of(polls@[i].1@)
                },
                None => exists|i: int, j: int|
                    0 <= i < j < polls@.len() && (#[trigger] polls@[i]).0@
                        == (#[trigger] polls@[j]).0@,
            },
    {
        match Registry::from_entries(polls) {
            Some(nullifiers) => {
                proof {
                    assert forall|id: Seq<char>| #[trigger]
                        nullifiers@.contains_key(id) <==> entry_ids(polls@).contains(id) by {
                        nullifiers.lemma_keys_are_ids(id);
                    }
                }
                Some(Contract { merkle_tree, nullifiers, next_leaf })
            },
            None => None,
        }
    }

    /// Registers a member: writes the commitment to the next free leaf and
    /// moves on to the next leaf. Returns the leaf's index.
    pub fn insert_leaf(&mut self, commitment: String) -> (r: Result<usize, Error>)
        requires
            old(self).wf(),
        ensures
            final(self).wf(),
            final(self).spec_polls() == old(self).spec_polls(),
            final(self).spec_tree().spec_depth() == old(self).spec_tree().spec_depth(),
            final(self).spec_tree().spec_empty() == old(self).spec_tree().spec_empty(),
            match parse_field_value(commitment@) {
                None => r == Err::<usize, Error>(Error::MalformedCommitment) && *final(self)
                    == *old(self),
                Some(value) => if old(self).spec_next_leaf() < old(
                    self,
                ).spec_tree().spec_num_leaves() {
                    &&& r matches Ok(index)
                    &&& index == old(self).spec_next_leaf()
                    &&& final(self).spec_next_leaf() == old(self).spec_next_leaf() + 1
                    &&& final(self).spec_tree().spec_leaves() == old(
                        self,
                    ).spec_tree().spec_leaves().update(
                        old(self).spec_next_leaf() as int,
                        Field::of_value(value),
                    )
                } else {
                    r == Err::<usize, Error>(Error::IndexOutOfRange) && *final(self) == *old(self)
                },
            },
    {
        let leaf = match Field::parse(commitment.as_str()) {
            Some(leaf) => leaf,
            None => {
                return Err(Error::MalformedCommitment);
            },
        };
        proof {
            Field::lemma_of_value(leaf);
        }
        match self.merkle_tree.tree.set(self.next_leaf, leaf) {
            Ok(_) => {
                let index = self.next_leaf;
                proof {
                    vstd::bits::lemma_usize_pow2_no_overflow(
                        (self.merkle_tree.tree.spec_depth() - 1) as nat,
                    );
                }
                self.next_leaf = self.next_leaf + 1;
                Ok(index)
            },
            Err(e) => Err(e),
        }
    }

    /// The root of the tree, in decimal.
    pub fn get_root(&self) -> (r: String)
        requires
            self.wf(),
        ensures
            r@ == decimal_text(self.spec_tree().spec_root()@),
    {
        self.merkle_tree.tree.root().to_string()
    }

    /// The index of the next free leaf, which is the number of members.
    pub fn get_next_leaf(&self) -> (r: usize)
        ensures
            r == self.spec_next_leaf(),
    {
        self.next_leaf
    }

    /// Creates a poll, in which no nullifier is spent. There must be no poll
    /// with this id yet.
    pub fn add_poll(&mut self, poll_id: String) -> (r: Result<Event, Error>)
        requires
            old(self).wf(),
        ensures
            final(self).wf(),
            final(self).spec_tree() == old(self).spec_tree(),
            final(self).spec_next_leaf() == old(self).spec_next_leaf(),
            match add_poll_outcome(old(self).spec_polls(), poll_id@) {
                Ok(_) => {
                    &&& r matches Ok(Event::PollCreated { poll_id: created })
                    &&& created@ == poll_id@
                    &&& final(self).spec_polls() == polls_after_add(
                        old(self).spec_polls(),
                        poll_id@,
                    )
                },
                Err(e) => r == Err::<Event, Error>(e) && *final(self) == *old(self),
            },
    {
        let created = poll_id.clone();
        if self.nullifiers.insert(poll_id) {
            Ok(Event::PollCreated { poll_id: created })
        } else {
            Err(Error::AlreadyExists)
        }
    }

    /// Accepts a signal if the proof was verified, the public inputs hold
    /// exactly four field elements, the poll exists, the nullifier is not spent in it,
    /// the proof was made for the tree's current root and for this signal.
    /// Then the nullifier is spent. `verified` is the verifier's verdict on
    /// the proof with these public inputs.
    pub fn vote(&mut self, signal: String, verified: bool, inputs: String) -> (r: Result<
        Event,
        Error,
    >)
        requires
            old(self).wf(),
        ensures
            final(self).wf(),
            final(self).spec_tree() == old(self).spec_tree(),
            final(self).spec_next_leaf() == old(self).spec_next_leaf(),
            match vote_outcome(
                old(self).spec_tree().spec_root()@,
                old(self).spec_polls(),
                signal@,
                verified,
                inputs@,
            ) {
                Ok(_) => {
                    &&& r matches Ok(Event::SignalAccepted { signal: accepted })
                    &&& accepted@ == signal@
                    &&& final(self).spec_polls() == polls_after_vote(
                        old(self).spec_polls(),
                        inputs@,
                    )
                },
                Err(e) => r == Err::<Event, Error>(e) && *final(self) == *old(self),
            },
    {
        if !verified {
            return Err(Error::InvalidProof);
        }
        let pub_inputs = match parse_public_inputs(inputs.as_str()) {
            Some(pub_inputs) => pub_inputs,
            None => {
                return Err(Error::MalformedPublicInputs);
            },
        };
        proof {
            assert(values_of(pub_inputs@)[0] == pub_inputs@[0]@);
            assert(values_of(pub_inputs@)[1] == pub_inputs@[1]@);
            assert(values_of(pub_inputs@)[2] == pub_inputs@[2]@);
            assert(values_of(pub_inputs@)[3] == pub_inputs@[3]@);
        }
        let poll_id = pub_inputs[3].to_string();
        if !self.nullifiers.contains_key(&poll_id) {
            return Err(Error::UnknownContext);
        }
        let nullifier = pub_inputs[1].to_string();
        if self.nullifiers.contains(&poll_id, &nullifier) {
            return Err(Error::ReplayedNullifier);
        }
        if pub_inputs[0] != self.merkle_tree.tree.root() {
            return Err(Error::StaleRoot);
        }
        if pub_inputs[2] != hash_to_field(signal.as_str().as_bytes()) {
            return Err(Error::SignalMismatch);
        }
        let _ = self.nullifiers.spend(&poll_id, nullifier);
        Ok(Event::SignalAccepted { signal })
    }

    /// The proof of membership for a leaf, or `None` where the tree has no
    /// such leaf.
    pub fn get_branch(&self, leaf_index: usize) -> (r: Option<MerklePath>)
        requires
            self.wf(),
        ensures
            r.is_some() == (leaf_index < self.spec_tree().spec_num_leaves()),
            r matches Some(path) ==> path.stands_for(
                self.spec_tree().spec_proof(leaf_index as nat),
            ),
            r matches Some(path) ==> path.tree_siblings@.len() == self.spec_tree().spec_depth()
                - 1,
    {
        self.merkle_tree.get_branch(leaf_index)
    }
}

} // verus!

//! Inclusion proofs: what they hold, how they fold back to a root, and the
//! check of a proof against a claimed root.
use vstd::prelude::*;
use crate::digest::{Data, Digest, leaf_digest, combine, hash_data, concatenate_and_hash};

verus! {

/// Which operand the sibling digest is when recombining.
#[derive(Debug, Clone, Copy, PartialEq, Eq, Structural)]
pub enum Side {
    Left,
    Right,
}

/// One step of a proof: the digest of the sibling on the path, and its side.
#[derive(Debug, PartialEq, Eq)]
pub struct ProofEntry {
    pub sibling: Digest,
    pub side: Side,
}

/// The siblings on the path from a leaf up to the root, leaf level first.
pub type Proof = Vec<ProofEntry>;

/// Why a proof could not be produced.
#[derive(Debug, Clone, Copy, PartialEq, Eq, Structural)]
pub enum Error {
    /// The leaf index is not below the number of leaves.
    InvalidLeafIndex,
    /// No real leaf has the digest of the given data.
    DataNotFound,
}

/// A proof as digests and sides.
pub open spec fn proof_view(p: Seq<ProofEntry>) -> Seq<(Seq<char>, Side)> {
    p.map_values(|e: ProofEntry| (e.sibling@, e.side))
}

/// The digest after recombining `current` with one proof step.
pub open spec fn step(current: Seq<char>, entry: (Seq<char>, Side)) -> Seq<char> {
    match entry.1 {
        Side::Right => combine(current, entry.0),
        Side::Left => combine(entry.0, current),
    }
}

/// The digest reached from `start` after all steps of `path`, first step first.
pub open spec fn fold_path(start: Seq<char>, path: Seq<(Seq<char>, Side)>) -> Seq<char>
    decreases path.len(),
{
    if path.len() == 0 {
        start
    } else {
        step(fold_path(start, path.drop_last()), path.last())
    }
}

/// The position on layer `level` of the ancestor of leaf `index`.
pub open spec fn position(index: nat, level: nat) -> nat
    decreases level,
{
    if level == 0 {
        index
    } else {
        position(index, (level - 1) as nat) / 2
    }
}

/// The position of the sibling of the node at position `p`.
pub open spec fn sibling_of(p: nat) -> nat {
    if p % 2 == 0 {
        p + 1
    } else {
        (p - 1) as nat
    }
}

/// The side on which the sibling of the node at position `p` stands.
pub open spec fn side_of(p: nat) -> Side {
    if p % 2 == 0 {
        Side::Right
    } else {
        Side::Left
    }
}

/// The proof for leaf `index` in the tree with layers `t`: one step for each
/// layer below the root.
pub open spec fn path_of(t: Seq<Seq<Seq<char>>>, index: nat) -> Seq<(Seq<char>, Side)> {
    Seq::new(
        (t.len() - 1) as nat,
        |i: int| (t[i][sibling_of(position(index, i as nat)) as int], side_of(position(index, i as nat))),
    )
}

/// Checks that `data`, recombined with the steps of `proof`, gives `root`.
pub fn verify_proof(data: &Data, proof: &Proof, root: &Digest) -> (r: bool)
    ensures
        r == (fold_path(leaf_digest(data@), proof_view(proof@)) == root@),
{
    let mut current = hash_data(data);
    let mut i: usize = 0;
    while i < proof.len()
        invariant
            i <= proof@.len(),
            current@ == fold_path(leaf_digest(data@), proof_view(proof@).take(i as int)),
        decreases proof@.len() - i,
    {
        let entry = &proof[i];
        let next = match entry.side {
            Side::Right => concatenate_and_hash(&current, &entry.sibling),
            Side::Left => concatenate_and_hash(&entry.sibling, &current),
        };
        assert(proof_view(proof@).take(i + 1).drop_last() =~= proof_view(proof@).take(i as int));
        current = next;
        i = i + 1;
    }
    assert(proof_view(proof@).take(proof@.len() as int) =~= proof_view(proof@));
    current == *root
}

} // verus!

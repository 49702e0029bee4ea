//! A binary Merkle tree over 32-byte digests, hashed with SHA-256.
//!
//! Each level is built from the one below by hashing its nodes in pairs; a
//! node left without a partner at the end of a level of odd length is paired
//! with itself.  An opening of a leaf lists, from the leaves up, the sibling
//! of each node on the way to the root and on which side that sibling stands.
//!
//! The hash is SHA-256 of the `sha2` crate; the tree is stated over `sha256`,
//! a name for what that function returns.

use crate::errors::StarkError;
use sha2::{Digest, Sha256};
use vstd::prelude::*;

verus! {

/// The SHA-256 digest of a string of bytes.
pub uninterp spec fn sha256(data: Seq<u8>) -> Seq<u8>;

/// The parent of two nodes: the digest of the left one followed by the right
/// one.
pub open spec fn combine(left: Seq<u8>, right: Seq<u8>) -> Seq<u8> {
    sha256(left + right)
}

/// The partner of node `i` in its level: its neighbour, or the node itself
/// where it is the last of an odd number.
pub open spec fn sibling(level: Seq<Seq<u8>>, i: int) -> Seq<u8> {
    if i % 2 == 1 {
        level[i - 1]
    } else if i + 1 < level.len() {
        level[i + 1]
    } else {
        level[i]
    }
}

/// The level above `level`.
pub open spec fn next_level(level: Seq<Seq<u8>>) -> Seq<Seq<u8>> {
    Seq::new(
        ((level.len() + 1) / 2) as nat,
        |i: int| combine(level[2 * i], sibling(level, 2 * i)),
    )
}

/// All levels of the tree over `leaves`, from the leaves up to the root.
pub open spec fn tree_levels(leaves: Seq<Seq<u8>>) -> Seq<Seq<Seq<u8>>>
    decreases leaves.len(),
{
    if leaves.len() <= 1 {
        seq![leaves]
    } else {
        seq![leaves] + tree_levels(next_level(leaves))
    }
}

/// The root of the tree over a level that is not empty.
pub open spec fn merkle_root(level: Seq<Seq<u8>>) -> Seq<u8>
    decreases level.len(),
{
    if level.len() <= 1 {
        level[0]
    } else {
        merkle_root(next_level(level))
    }
}

/// The siblings on the way from node `i` of `level` to the root.
pub open spec fn opening_path(level: Seq<Seq<u8>>, i: int) -> Seq<Seq<u8>>
    decreases level.len(),
{
    if level.len() <= 1 {
        Seq::empty()
    } else {
        seq![sibling(level, i)] + opening_path(next_level(level), i / 2)
    }
}

/// For each sibling on the way from node `i` to the root, whether it stands
/// on the right of the node it is hashed with.
pub open spec fn opening_positions(level: Seq<Seq<u8>>, i: int) -> Seq<bool>
    decreases level.len(),
{
    if level.len() <= 1 {
        Seq::empty()
    } else {
        seq![i % 2 == 0] + opening_positions(next_level(level), i / 2)
    }
}

/// The hash reached from `current` by hashing it with each sibling of the
/// path in turn, the sibling on the side that its position names.  A path and
/// positions of different lengths are read as far as the shorter goes.
pub open spec fn climb(current: Seq<u8>, path: Seq<Seq<u8>>, positions: Seq<bool>) -> Seq<u8>
    decreases path.len(),
{
    if path.len() == 0 || positions.len() == 0 {
        current
    } else {
        climb(
            if positions[0] {
                combine(current, path[0])
            } else {
                combine(path[0], current)
            },
            path.skip(1),
            positions.skip(1),
        )
    }
}

/// The digests that a vector holds.
pub open spec fn digests(nodes: Seq<[u8; 32]>) -> Seq<Seq<u8>> {
    Seq::new(nodes.len(), |i: int| nodes[i]@)
}

/// The digests that the levels of a tree hold.
pub open spec fn level_digests(levels: Seq<Vec<[u8; 32]>>) -> Seq<Seq<Seq<u8>>> {
    Seq::new(levels.len(), |i: int| digests(levels[i]@))
}

/// The opening of a leaf verifies against the root: climbing from any node
/// of a level along its opening path ends at the root of the tree over that
/// level.
pub proof fn lemma_opening_verifies(level: Seq<Seq<u8>>, i: int)
    requires
        0 <= i < level.len(),
    ensures
        climb(level[i], opening_path(level, i), opening_positions(level, i)) == merkle_root(level),
        opening_path(level, i).len() == opening_positions(level, i).len(),
    decreases level.len(),
{
    if level.len() > 1 {
        let up = next_level(level);
        let path = opening_path(level, i);
        let positions = opening_positions(level, i);
        lemma_opening_verifies(up, i / 2);
        assert(path.skip(1) == opening_path(up, i / 2));
        assert(positions.skip(1) == opening_positions(up, i / 2));
        assert(up[i / 2] == combine(level[2 * (i / 2)], sibling(level, 2 * (i / 2))));
    }
}

/// The inclusion proof of one leaf.
#[derive(Debug)]
pub struct MerkleProof {
    /// The sibling at each level, from the leaves up.
    pub path: Vec<[u8; 32]>,
    /// For each sibling, whether it stands on the right.
    pub position: Vec<bool>,
}

/// A Merkle tree with all of its levels.
#[derive(Debug)]
pub struct MerkleTree {
    /// The leaves that the tree was built over.
    pub leaves: Vec<[u8; 32]>,
    /// The levels of the tree, the leaves first and the root last.
    pub levels: Vec<Vec<[u8; 32]>>,
}

impl MerkleTree {
    /// The levels are those of the tree over the leaves.
    pub open spec fn wf(&self) -> bool {
        level_digests(self.levels@) == tree_levels(digests(self.leaves@))
    }

    /// The tree over the given leaves.
    pub fn new(leaves: Vec<[u8; 32]>) -> (tree: Self)
        ensures
            tree.wf(),
            tree.leaves@ == leaves@,
    {
        let mut tree = MerkleTree { leaves, levels: Vec::new() };
        tree.build_tree();
        assert(level_digests(tree.levels@) =~= tree_levels(digests(tree.leaves@)));
        tree
    }

    /// Appends the levels of the tree over the leaves to the levels held.
    pub fn build_tree(&mut self)
        ensures
            final(self).leaves@ == old(self).leaves@,
            level_digests(final(self).levels@) == level_digests(old(self).levels@) + tree_levels(
                digests(old(self).leaves@),
            ),
    {
        let ghost before = level_digests(self.levels@);
        let ghost leaves = digests(self.leaves@);
        let mut current_level = copy_level(&self.leaves);
        self.levels.push(copy_level(&current_level));
        proof {
            assert(level_digests(self.levels@).drop_last() =~= before);
        }
        while current_level.len() > 1
            invariant
                self.leaves@ == old(self).leaves@,
                self.levels.len() > 0,
                digests(self.levels[self.levels.len() - 1]@) == digests(current_level@),
                level_digests(self.levels@).drop_last() + tree_levels(digests(current_level@))
                    == before + tree_levels(leaves),
            decreases current_level.len(),
        {
            let ghost below = digests(current_level@);
            let mut next: Vec<[u8; 32]> = Vec::new();
            let pairs = current_level.len() / 2 + current_level.len() % 2;
            let mut pair: usize = 0;
            while pair < pairs
                invariant
                    pair <= pairs,
                    pairs == (current_level.len() + 1) / 2,
                    below == digests(current_level@),
                    next.len() == pair,
                    forall|k: int|
                        0 <= k < next.len() ==> (#[trigger] next[k])@ == next_level(below)[k],
                decreases pairs - pair,
            {
                let i = 2 * pair;
                let left = current_level[i];
                let right = if i + 1 < current_level.len() {
                    current_level[i + 1]
                } else {
                    current_level[i]
                };
                next.push(hash_pair(&left, &right));
                pair += 1;
            }
            proof {
                assert(digests(next@) =~= next_level(below));
                let held = level_digests(self.levels@);
                assert(held.push(digests(next@)).drop_last() == held);
                assert(held =~= held.drop_last() + seq![below]);
                assert(held + tree_levels(next_level(below)) =~= held.drop_last() + tree_levels(
                    below,
                ));
            }
            current_level = next;
            self.levels.push(copy_level(&current_level));
            proof {
                assert(level_digests(self.levels@).drop_last() =~= level_digests(
                    self.levels@.drop_last(),
                ));
            }
        }
        proof {
            let held = level_digests(self.levels@);
            assert(held =~= held.drop_last() + seq![digests(current_level@)]);
        }
    }

    /// The root of the tree, which a tree without leaves does not have.
    pub fn root(&self) -> (r: Option<[u8; 32]>)
        requires
            self.wf(),
        ensures
            r.is_some() <==> self.leaves@.len() > 0,
            r.is_some() ==> r.unwrap()@ == merkle_root(digests(self.leaves@)),
    {
        proof {
            lemma_tree_levels(digests(self.leaves@));
            assert(level_digests(self.levels@).len() == self.levels@.len());
        }
        let last = &self.levels[self.levels.len() - 1];
        proof {
            assert(digests(last@) == level_digests(self.levels@).last());
        }
        if last.len() > 0 {
            assert(digests(last@)[0] == last[0]@);
            Some(last[0])
        } else {
            None
        }
    }

    /// The inclusion proof of the leaf at `index`.
    pub fn get_proof(&self, index: usize) -> (r: Result<MerkleProof, StarkError>)
        requires
            self.wf(),
        ensures
            r.is_ok() <==> index < self.leaves@.len(),
            r.is_err() ==> r == Err::<MerkleProof, StarkError>(StarkError::IndexOutOfRange),
            r.is_ok() ==> {
                let proof = r.unwrap();
                &&& digests(proof.path@) == opening_path(digests(self.leaves@), index as int)
                &&& proof.position@ == opening_positions(digests(self.leaves@), index as int)
                &&& climb(self.leaves[index as int]@, digests(proof.path@), proof.position@)
                    == merkle_root(digests(self.leaves@))
            },
    {
        if index >= self.leaves.len() {
            return Err(StarkError::IndexOutOfRange);
        }
        let ghost all = level_digests(self.levels@);
        let ghost leaves = digests(self.leaves@);
        proof {
            lemma_tree_levels(leaves);
            lemma_opening_verifies(leaves, index as int);
            assert(all.len() == self.levels@.len());
        }
        let mut path: Vec<[u8; 32]> = Vec::new();
        let mut position: Vec<bool> = Vec::new();
        let mut current_index = index;
        let mut depth: usize = 0;
        while depth + 1 < self.levels.len()
            invariant
                depth < self.levels.len(),
                all == level_digests(self.levels@),
                all.len() == self.levels.len(),
                current_index < all[depth as int].len(),
                all.subrange(depth as int, all.len() as int) == tree_levels(all[depth as int]),
                digests(path@) + opening_path(all[depth as int], current_index as int)
                    == opening_path(leaves, index as int),
                position@ + opening_positions(all[depth as int], current_index as int)
                    == opening_positions(leaves, index as int),
            decreases self.levels.len() - depth,
        {
            let level = &self.levels[depth];
            let ghost here = all[depth as int];
            proof {
                assert(digests(level@) == here);
                lemma_tree_levels(here);
                assert(tree_levels(here).len() > 1);
                assert(here.len() > 1);
                assert(all.subrange(depth as int + 1, all.len() as int) =~= tree_levels(
                    here,
                ).skip(1));
                assert(tree_levels(here).skip(1) =~= tree_levels(next_level(here)));
                assert(all[depth as int + 1] == tree_levels(next_level(here))[0]);
            }
            if current_index % 2 == 1 {
                path.push(level[current_index - 1]);
                position.push(false);
            } else if current_index + 1 < level.len() {
                path.push(level[current_index + 1]);
                position.push(true);
            } else {
                path.push(level[current_index]);
                position.push(true);
            }
            proof {
                let step = seq![sibling(here, current_index as int)];
                let rest = opening_path(next_level(here), current_index as int / 2);
                assert(digests(path@) =~= digests(path@.drop_last()) + step);
                assert(digests(path@.drop_last()) + (step + rest) =~= digests(path@) + rest);
                let turn = seq![current_index as int % 2 == 0];
                let others = opening_positions(next_level(here), current_index as int / 2);
                assert(position@ =~= position@.drop_last() + turn);
                assert(position@.drop_last() + (turn + others) =~= position@ + others);
            }
            current_index = current_index / 2;
            depth += 1;
        }
        proof {
            let top = all[depth as int];
            assert(tree_levels(top).len() == 1);
            lemma_tree_levels(top);
            assert(opening_path(top, current_index as int) =~= Seq::<Seq<u8>>::empty());
            assert(opening_positions(top, current_index as int) =~= Seq::<bool>::empty());
            assert(digests(path@) + Seq::<Seq<u8>>::empty() =~= digests(path@));
            assert(position@ + Seq::<bool>::empty() =~= position@);
            assert(leaves[index as int] == self.leaves[index as int]@);
        }
        Ok(MerkleProof { path, position })
    }
}

/// The tree over a level has that level at its base, two levels or more
/// exactly where the level has two nodes or more, and a last level of one
/// node, the root, unless there are no leaves.
pub proof fn lemma_tree_levels(level: Seq<Seq<u8>>)
    ensures
        tree_levels(level).len() >= 1,
        tree_levels(level)[0] == level,
        tree_levels(level).len() > 1 <==> level.len() > 1,
        level.len() > 0 ==> tree_levels(level).last() == seq![merkle_root(level)],
        level.len() == 0 ==> tree_levels(level).last().len() == 0,
    decreases level.len(),
{
    if level.len() > 1 {
        lemma_tree_levels(next_level(level));
    } else if level.len() == 1 {
        assert(level =~= seq![level[0]]);
    }
}

/// Checks an inclusion proof: climbs from the leaf along the path and
/// compares what it reaches with the root.
pub fn verify_merkle_proof(leaf: &[u8; 32], proof: &MerkleProof, root: &[u8; 32]) -> (ok: bool)
    ensures
        ok == (climb(leaf@, digests(proof.path@), proof.position@) == root@),
{
    let mut current_hash = *leaf;
    let mut i: usize = 0;
    proof {
        assert(digests(proof.path@).skip(0) =~= digests(proof.path@));
        assert(proof.position@.skip(0) =~= proof.position@);
    }
    while i < proof.path.len() && i < proof.position.len()
        invariant
            i <= proof.path.len(),
            i <= proof.position.len(),
            climb(
                current_hash@,
                digests(proof.path@).skip(i as int),
                proof.position@.skip(i as int),
            ) == climb(leaf@, digests(proof.path@), proof.position@),
        decreases proof.path.len() - i,
    {
        let ghost path = digests(proof.path@).skip(i as int);
        let ghost positions = proof.position@.skip(i as int);
        proof {
            assert(path.skip(1) =~= digests(proof.path@).skip(i as int + 1));
            assert(positions.skip(1) =~= proof.position@.skip(i as int + 1));
            assert(path[0] == proof.path[i as int]@);
        }
        let sibling = proof.path[i];
        current_hash = if proof.position[i] {
            hash_pair(&current_hash, &sibling)
        } else {
            hash_pair(&sibling, &current_hash)
        };
        i += 1;
    }
    digest_eq(&current_hash, root)
}

/// The digest of `left` followed by `right`.
pub fn hash_pair(left: &[u8; 32], right: &[u8; 32]) -> (parent: [u8; 32])
    ensures
        parent@ == combine(left@, right@),
{
    let mut combined: Vec<u8> = Vec::new();
    let mut i: usize = 0;
    while i < 32
        invariant
            i <= 32,
            combined@ == left@.subrange(0, i as int),
        decreases 32 - i,
    {
        combined.push(left[i]);
        i += 1;
        assert(combined@ == left@.subrange(0, i as int));
    }
    let mut j: usize = 0;
    while j < 32
        invariant
            j <= 32,
            combined@ == left@ + right@.subrange(0, j as int),
        decreases 32 - j,
    {
        combined.push(right[j]);
        j += 1;
        assert(combined@ == left@ + right@.subrange(0, j as int));
    }
    assert(combined@ == left@ + right@);
    sha_digest(combined.as_slice())
}

/// Whether two digests are the same.
fn digest_eq(a: &[u8; 32], b: &[u8; 32]) -> (same: bool)
    ensures
        same == (a@ == b@),
{
    let mut i: usize = 0;
    while i < 32
        invariant
            i <= 32,
            forall|k: int| 0 <= k < i ==> a@[k] == b@[k],
        decreases 32 - i,
    {
        if a[i] != b[i] {
            return false;
        }
        i += 1;
    }
    assert(a@ =~= b@);
    true
}

/// A copy of a level.
fn copy_level(level: &Vec<[u8; 32]>) -> (copy: Vec<[u8; 32]>)
    ensures
        copy@ == level@,
{
    let mut copy: Vec<[u8; 32]> = Vec::new();
    let mut i: usize = 0;
    while i < level.len()
        invariant
            i <= level.len(),
            copy@ == level@.subrange(0, i as int),
        decreases level.len() - i,
    {
        copy.push(level[i]);
        i += 1;
        assert(copy@ == level@.subrange(0, i as int));
    }
    assert(copy@ == level@);
    copy
}

/// Calls `Sha256` of the `sha2` crate on the bytes given: `new`, `update`
/// and `finalize`.  The contract names the result: the SHA-256 digest of the
/// bytes.
#[verifier::external_body]
fn sha_digest(data: &[u8]) -> (digest: [u8; 32])
    ensures
        digest@ == sha256(data@),
{
    let mut hasher = Sha256::new();
    hasher.update(data);
    hasher.finalize().into()
}

} // verus!

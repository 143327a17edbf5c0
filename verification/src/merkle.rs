//! A Merkle tree over SHA-256: leaves are hashed, adjacent pairs are hashed
//! together level by level (an odd node is paired with itself), and an
//! authentication path of siblings lets anyone recompute the root from one
//! leaf.

use vstd::prelude::*;

verus! {

use sha2::Digest;

/// A SHA-256 digest.
pub type Hash32 = [u8; 32];

/// The SHA-256 digest of a byte sequence: a pure function of the bytes,
/// computed only by the `sha2` crate.
pub uninterp spec fn sha256_of(data: Seq<u8>) -> Seq<u8>;

/// Relies on sha2::Sha256 through the `Digest` trait: the digest depends on
/// the input bytes alone and fills exactly 32 bytes.
#[verifier::external_body]
fn sha256(data: &[u8]) -> (r: Hash32)
    ensures
        r@ == sha256_of(data@),
{
    let mut hasher = sha2::Sha256::new();
    hasher.update(data);
    hasher.finalize().into()
}

/// The hash of an internal node: the digest of its children's digests,
/// left then right.
pub open spec fn node_hash(left: Seq<u8>, right: Seq<u8>) -> Seq<u8> {
    sha256_of(left + right)
}

/// Hash two child digests into their parent's digest.
fn hash_pair(left: &Hash32, right: &Hash32) -> (r: Hash32)
    ensures
        r@ == node_hash(left@, right@),
{
    let mut buf: Vec<u8> = Vec::new();
    buf.extend_from_slice(left.as_slice());
    buf.extend_from_slice(right.as_slice());
    proof {
        assert(buf@ =~= left@ + right@);
    }
    sha256(buf.as_slice())
}

/// The right sibling used when hashing level `lv` upward at parent index
/// `i`: the next node, or the node itself when it has no right neighbour.
pub open spec fn right_child(level: Seq<Hash32>, i: int) -> Seq<u8> {
    if 2 * i + 1 < level.len() {
        level[2 * i + 1]@
    } else {
        level[2 * i]@
    }
}

/// Every level above the leaves pairs up the level below: half the length
/// (rounded up), each node the hash of its two children.
pub open spec fn chained(lv: Seq<Vec<Hash32>>) -> bool {
    &&& lv.len() >= 1
    &&& forall|l: int| 0 <= l < lv.len() - 1 ==> (#[trigger] lv[l]@).len() >= 2
    &&& forall|l: int| 1 <= l < lv.len() ==> (#[trigger] lv[l]@).len() == (lv[l - 1]@.len() + 1) / 2
    &&& forall|l: int, i: int|
        1 <= l < lv.len() && 0 <= i < lv[l]@.len() ==> (#[trigger] lv[l]@[i])@ == node_hash(
            lv[l - 1]@[2 * i]@,
            right_child(lv[l - 1]@, i),
        )
}

/// The sibling hash recorded in an authentication path at one level.
pub open spec fn sibling_at(level: Seq<Hash32>, i: int) -> Seq<u8> {
    if i % 2 == 0 {
        if i + 1 < level.len() {
            level[i + 1]@
        } else {
            level[i]@
        }
    } else {
        level[i - 1]@
    }
}

/// The authentication path for the node at `index` of level `l`: one
/// sibling per level below the root.
pub open spec fn spec_proof(lv: Seq<Vec<Hash32>>, index: int, l: int) -> Seq<Seq<u8>>
    decreases lv.len() - l,
{
    if !(0 <= l < lv.len()) || lv[l]@.len() <= 1 {
        Seq::empty()
    } else {
        seq![sibling_at(lv[l]@, index)] + spec_proof(lv, index / 2, l + 1)
    }
}

/// Recompute a root candidate from a starting digest and an authentication
/// path: at each level the accumulator is hashed with the recorded sibling,
/// on the side given by the index's parity.
pub open spec fn fold_path(acc: Seq<u8>, path: Seq<Seq<u8>>, index: int) -> Seq<u8>
    decreases path.len(),
{
    if path.len() == 0 {
        acc
    } else {
        let next = if index % 2 == 0 {
            node_hash(acc, path[0])
        } else {
            node_hash(path[0], acc)
        };
        fold_path(next, path.drop_first(), index / 2)
    }
}

/// The digests of a slice of hashes.
pub open spec fn hashes_view(s: Seq<Hash32>) -> Seq<Seq<u8>> {
    s.map_values(|h: Hash32| h@)
}

/// Folding the authentication path of a node reproduces the root.
proof fn lemma_fold_proof(lv: Seq<Vec<Hash32>>, index: int, l: int)
    requires
        chained(lv),
        lv.last()@.len() == 1,
        0 <= l < lv.len(),
        0 <= index < lv[l]@.len(),
    ensures
        fold_path(lv[l]@[index]@, spec_proof(lv, index, l), index) == lv.last()@[0]@,
    decreases lv.len() - l,
{
    if l == lv.len() - 1 {
        assert(lv[l]@.len() == 1);
        assert(index == 0);
        assert(spec_proof(lv, index, l) =~= Seq::<Seq<u8>>::empty());
    } else {
        assert(lv[l]@.len() >= 2);
        let path = spec_proof(lv, index, l);
        let sib = sibling_at(lv[l]@, index);
        let i2 = index / 2;
        assert(0 <= i2 < lv[l + 1]@.len());
        assert(lv[l + 1]@[i2]@ == node_hash(lv[l]@[2 * i2]@, right_child(lv[l]@, i2)));
        let next = if index % 2 == 0 {
            node_hash(lv[l]@[index]@, sib)
        } else {
            node_hash(sib, lv[l]@[index]@)
        };
        assert(next == lv[l + 1]@[i2]@) by {
            if index % 2 == 0 {
                assert(2 * i2 == index);
            } else {
                assert(2 * i2 == index - 1);
                assert(2 * i2 + 1 == index < lv[l]@.len());
            }
        }
        assert(path.drop_first() =~= spec_proof(lv, i2, l + 1));
        lemma_fold_proof(lv, i2, l + 1);
    }
}

/// A Merkle tree, stored level by level: the leaf digests first, the root
/// level (one digest) last.
pub struct MerkleTree {
    levels: Vec<Vec<Hash32>>,
}

impl MerkleTree {
    /// The levels chain upward correctly, and the top level holds exactly
    /// the root — unless the tree is empty, which is one empty level.
    pub closed spec fn wf(&self) -> bool {
        &&& chained(self.levels@)
        &&& self.levels@[0]@.len() == 0 ==> self.levels@.len() == 1
        &&& self.levels@[0]@.len() > 0 ==> self.levels@.last()@.len() == 1
    }

    /// How many leaves the tree was built from.
    pub closed spec fn leaf_count(&self) -> nat {
        self.levels@[0]@.len()
    }

    /// The digest stored for leaf `i`.
    pub closed spec fn leaf_at(&self, i: int) -> Seq<u8> {
        self.levels@[0]@[i]@
    }

    /// The root digest (meaningful only for a non-empty tree).
    pub closed spec fn root_spec(&self) -> Seq<u8> {
        self.levels@.last()@[0]@
    }

    /// Build a tree whose leaves are the SHA-256 digests of the given byte
    /// strings, in order.
    pub fn from_leaves(leaves: &Vec<Vec<u8>>) -> (r: Self)
        ensures
            r.wf(),
            r.leaf_count() == leaves@.len(),
            forall|i: int| 0 <= i < leaves@.len() ==> r.leaf_at(i) == sha256_of(leaves@[i]@),
    {
        let mut level0: Vec<Hash32> = Vec::new();
        let n = leaves.len();
        let mut i: usize = 0;
        while i < n
            invariant
                n == leaves@.len(),
                i <= n,
                level0@.len() == i,
                forall|j: int| 0 <= j < i ==> (#[trigger] level0@[j])@ == sha256_of(leaves@[j]@),
            decreases n - i,
        {
            level0.push(sha256(leaves[i].as_slice()));
            i = i + 1;
        }
        let mut levels: Vec<Vec<Hash32>> = Vec::new();
        levels.push(level0);
        if n == 0 {
            return MerkleTree { levels };
        }
        while levels[levels.len() - 1].len() > 1
            invariant
                chained(levels@),
                levels@.len() >= 1,
                levels@[0]@.len() == n,
                n >= 1,
                forall|j: int| 0 <= j < n ==> (#[trigger] levels@[0]@[j])@ == sha256_of(leaves@[j]@),
                n == leaves@.len(),
            decreases levels@.last()@.len(),
        {
            let prev_len = levels[levels.len() - 1].len();
            let half = prev_len / 2 + prev_len % 2;
            let mut next: Vec<Hash32> = Vec::new();
            let mut k: usize = 0;
            while k < half
                invariant
                    levels@.len() >= 1,
                    prev_len == levels@.last()@.len(),
                    prev_len >= 2,
                    half == (prev_len + 1) / 2,
                    k <= half,
                    next@.len() == k,
                    forall|j: int|
                        0 <= j < k ==> (#[trigger] next@[j])@ == node_hash(
                            levels@.last()@[2 * j]@,
                            right_child(levels@.last()@, j),
                        ),
                decreases half - k,
            {
                proof {
                    assert(2 * k < prev_len);
                }
                let prev = &levels[levels.len() - 1];
                let left = prev[2 * k];
                let right = if 2 * k + 1 < prev_len {
                    prev[2 * k + 1]
                } else {
                    prev[2 * k]
                };
                let h = hash_pair(&left, &right);
                next.push(h);
                k = k + 1;
            }
            proof {
                assert(next@.len() == (prev_len + 1) / 2);
            }
            levels.push(next);
            proof {
                let lv = levels@;
                assert(lv[lv.len() - 2] == lv.drop_last()[lv.len() - 2]);
                assert forall|l: int, i: int|
                    1 <= l < lv.len() && 0 <= i < lv[l]@.len() implies (#[trigger] lv[l]@[i])@
                    == node_hash(lv[l - 1]@[2 * i]@, right_child(lv[l - 1]@, i)) by {
                    if l < lv.len() - 1 {
                        assert(lv[l] == lv.drop_last()[l]);
                        assert(lv[l - 1] == lv.drop_last()[l - 1]);
                    } else {
                        assert(lv[l] == next);
                        assert(lv[l - 1] == lv.drop_last()[lv.len() - 2]);
                    }
                }
            }
        }
        MerkleTree { levels }
    }

    /// The root digest, or `None` for a tree with no leaves.
    pub fn root(&self) -> (r: Option<Hash32>)
        requires
            self.wf(),
        ensures
            match r {
                Some(h) => self.leaf_count() > 0 && h@ == self.root_spec(),
                None => self.leaf_count() == 0,
            },
    {
        let last = &self.levels[self.levels.len() - 1];
        if last.len() == 0 {
            proof {
                if self.leaf_count() > 0 {
                    assert(self.levels@.last()@.len() == 1);
                    assert(false);
                }
            }
            None
        } else {
            proof {
                if self.leaf_count() == 0 {
                    assert(self.levels@.len() == 1);
                    assert(false);
                }
            }
            Some(last[0])
        }
    }

    /// The authentication path of leaf `index`: the sibling digest at every
    /// level below the root. Folding the leaf's digest along it reproduces
    /// the root.
    pub fn auth_path(&self, index: usize) -> (r: Vec<Hash32>)
        requires
            self.wf(),
            index < self.leaf_count(),
        ensures
            fold_path(self.leaf_at(index as int), hashes_view(r@), index as int)
                == self.root_spec(),
    {
        let ghost lv: Seq<Vec<Hash32>> = self.levels@;
        let depth = self.levels.len();
        let mut out: Vec<Hash32> = Vec::new();
        let mut idx: usize = index;
        let mut l: usize = 0;
        proof {
            assert(hashes_view(out@) + spec_proof(lv, index as int, 0) =~= spec_proof(
                lv,
                index as int,
                0,
            ));
        }
        while self.levels[l].len() > 1
            invariant
                self.wf(),
                lv == self.levels@,
                depth == lv.len(),
                l < depth,
                idx < lv[l as int]@.len(),
                spec_proof(lv, index as int, 0) == hashes_view(out@) + spec_proof(
                    lv,
                    idx as int,
                    l as int,
                ),
            decreases depth - l,
        {
            let ghost out_before: Seq<Hash32> = out@;
            let level = &self.levels[l];
            let sib: Hash32 = if idx % 2 == 0 {
                if idx + 1 < level.len() {
                    level[idx + 1]
                } else {
                    level[idx]
                }
            } else {
                level[idx - 1]
            };
            out.push(sib);
            proof {
                assert(l < depth - 1);
                assert(sib@ == sibling_at(lv[l as int]@, idx as int));
                assert(spec_proof(lv, idx as int, l as int) == seq![
                    sibling_at(lv[l as int]@, idx as int),
                ] + spec_proof(lv, idx as int / 2, l + 1));
                assert(hashes_view(out_before) + spec_proof(lv, idx as int, l as int)
                    =~= hashes_view(out@) + spec_proof(lv, idx as int / 2, l + 1));
                assert(idx as int / 2 < lv[l + 1]@.len());
            }
            idx = idx / 2;
            l = l + 1;
        }
        proof {
            assert(spec_proof(lv, idx as int, l as int) =~= Seq::<Seq<u8>>::empty());
            assert(spec_proof(lv, index as int, 0) =~= hashes_view(out@));
            lemma_fold_proof(lv, index as int, 0);
        }
        out
    }

    /// Check an authentication path: recompute upward from the leaf data
    /// and compare with the given root. True exactly when the fold of the
    /// leaf's digest along the path equals the root.
    pub fn verify(root: Hash32, leaf_data: &[u8], path: &[Hash32], index: usize) -> (r: bool)
        ensures
            r == (fold_path(sha256_of(leaf_data@), hashes_view(path@), index as int) == root@),
    {
        let mut acc: Hash32 = sha256(leaf_data);
        let mut idx: usize = index;
        let n = path.len();
        let mut i: usize = 0;
        proof {
            assert(hashes_view(path@).skip(0) =~= hashes_view(path@));
        }
        while i < n
            invariant
                n == path@.len(),
                i <= n,
                fold_path(sha256_of(leaf_data@), hashes_view(path@), index as int) == fold_path(
                    acc@,
                    hashes_view(path@).skip(i as int),
                    idx as int,
                ),
            decreases n - i,
        {
            let ghost rest: Seq<Seq<u8>> = hashes_view(path@).skip(i as int);
            proof {
                assert(rest[0] == path@[i as int]@);
                assert(rest.drop_first() =~= hashes_view(path@).skip(i + 1));
            }
            let sib = path[i];
            if idx % 2 == 0 {
                acc = hash_pair(&acc, &sib);
            } else {
                acc = hash_pair(&sib, &acc);
            }
            idx = idx / 2;
            i = i + 1;
        }
        proof {
            assert(hashes_view(path@).skip(n as int) =~= Seq::<Seq<u8>>::empty());
        }
        let mut eq = true;
        let mut j: usize = 0;
        while j < 32
            invariant
                j <= 32,
                eq ==> forall|t: int| 0 <= t < j ==> acc@[t] == root@[t],
                !eq ==> acc@ != root@,
            decreases 32 - j,
        {
            if acc[j] != root[j] {
                proof {
                    if acc@ == root@ {
                        assert(acc@[j as int] == root@[j as int]);
                    }
                }
                eq = false;
            }
            j = j + 1;
        }
        proof {
            if eq {
                assert(acc@ =~= root@);
            }
        }
        eq
    }
}

} // verus!

//! The binary hash tree: leaf store, root calculation, proof generation
//! and proof verification, specified over sequences of digests.

use vstd::prelude::*;

use crate::hashing::{calculate_hash, combine, digests_equal, item_digest, pair_hash};

verus! {


// ---------------------------------------------------------------------------
// The mathematical model
// ---------------------------------------------------------------------------
/// Whether `n` is a power of two (1, 2, 4, 8, ...).
pub open spec fn is_pow2(n: nat) -> bool
    decreases n,
{
    if n == 0 {
        false
    } else if n == 1 {
        true
    } else {
        n % 2 == 0 && is_pow2(n / 2)
    }
}

/// The smallest power of two that is at least `n` (for `n >= 1`).
pub open spec fn pow2_ceil(n: nat) -> nat
    decreases n,
{
    if n <= 1 {
        1
    } else {
        2 * pow2_ceil((n + 1) / 2)
    }
}

/// The views of a sequence of digests: each 32-byte array as a byte sequence.
pub open spec fn digest_views(digests: Seq<[u8; 32]>) -> Seq<Seq<u8>> {
    Seq::new(digests.len(), |i: int| digests[i]@)
}

/// The leaf digests of a sequence of raw items, in item order.
pub open spec fn digests_of_items(items: Seq<String>) -> Seq<Seq<u8>> {
    Seq::new(items.len(), |i: int| item_digest(items[i]@))
}

/// The padded working sequence: the leaves extended with copies of the last
/// leaf until the length is a power of two.
pub open spec fn pad_pow2(leaves: Seq<Seq<u8>>) -> Seq<Seq<u8>>
    recommends
        leaves.len() >= 1,
{
    Seq::new(
        pow2_ceil(leaves.len()),
        |i: int| if i < leaves.len() { leaves[i] } else { leaves.last() },
    )
}

/// One folding step: consecutive disjoint pairs hashed in index order,
/// left digest first.
pub open spec fn fold_level(level: Seq<Seq<u8>>) -> Seq<Seq<u8>> {
    Seq::new(level.len() / 2, |i: int| pair_hash(level[2 * i], level[2 * i + 1]))
}

/// The root of one level: fold pairwise until a single digest remains.
pub open spec fn root_of_level(level: Seq<Seq<u8>>) -> Seq<u8>
    recommends
        level.len() >= 1,
    decreases level.len(),
{
    if level.len() <= 1 {
        level[0]
    } else {
        root_of_level(fold_level(level))
    }
}

/// The root committed to by a leaf sequence: pad, then fold.
pub open spec fn root_spec(leaves: Seq<Seq<u8>>) -> Seq<u8>
    recommends
        leaves.len() >= 1,
{
    root_of_level(pad_pow2(leaves))
}

/// The inclusion proof for position `index` of `level`: the sibling digest
/// at each folding step, from the leaf level up to just below the root.
pub open spec fn proof_spec(level: Seq<Seq<u8>>, index: int) -> Seq<Seq<u8>>
    recommends
        is_pow2(level.len()),
        0 <= index < level.len(),
    decreases level.len(),
{
    if level.len() <= 1 {
        Seq::empty()
    } else {
        let sibling = if index % 2 == 0 {
            index + 1
        } else {
            index - 1
        };
        seq![level[sibling]] + proof_spec(fold_level(level), index / 2)
    }
}

/// Replaying a proof: combine the running digest with each sibling in turn,
/// ordering each pair by the parity of the running index.
pub open spec fn replay(path: Seq<Seq<u8>>, current: Seq<u8>, index: nat) -> Seq<u8>
    decreases path.len(),
{
    if path.len() == 0 {
        current
    } else {
        let combined = if index % 2 == 0 {
            pair_hash(current, path[0])
        } else {
            pair_hash(path[0], current)
        };
        replay(path.drop_first(), combined, index / 2)
    }
}

/// The number of proof entries for a padded leaf count of `n`:
/// the base-two logarithm when `n` is a power of two.
pub open spec fn proof_len(n: nat) -> nat
    decreases n,
{
    if n <= 1 {
        0
    } else {
        proof_len(n / 2) + 1
    }
}

// ---------------------------------------------------------------------------
// Lemmas about powers of two
// ---------------------------------------------------------------------------
/// A power of two is at least one.
pub proof fn lemma_pow2_positive(n: nat)
    requires
        is_pow2(n),
    ensures
        n >= 1,
{
}

/// `pow2_ceil(n)` is a power of two and is at least `n`.
pub proof fn lemma_pow2_ceil_bounds(n: nat)
    requires
        n >= 1,
    ensures
        pow2_ceil(n) >= n,
        is_pow2(pow2_ceil(n)),
    decreases n,
{
    if n >= 2 {
        let m = (n + 1) / 2;
        lemma_pow2_ceil_bounds(m);
        assert(is_pow2(2 * pow2_ceil(m)));
    }
}

/// No smaller power of two than `pow2_ceil(n)` reaches `n`.
pub proof fn lemma_pow2_ceil_least(n: nat, m: nat)
    requires
        n >= 1,
        is_pow2(m),
        m >= n,
    ensures
        m >= pow2_ceil(n),
    decreases n,
{
    if n == 1 {
        lemma_pow2_positive(m);
    } else {
        assert(m % 2 == 0 && is_pow2(m / 2));
        lemma_pow2_ceil_least((n + 1) / 2, m / 2);
    }
}

/// Distinct powers of two are at least a factor of two apart.
pub proof fn lemma_pow2_gap(t: nat, p: nat)
    requires
        is_pow2(t),
        is_pow2(p),
        t < p,
    ensures
        2 * t <= p,
    decreases t,
{
    lemma_pow2_positive(t);
    assert(p % 2 == 0 && is_pow2(p / 2));
    if t >= 2 {
        lemma_pow2_gap(t / 2, p / 2);
    }
}

// ---------------------------------------------------------------------------
// Lemmas about padding, folding and proofs
// ---------------------------------------------------------------------------
/// The padded sequence is a power-of-two extension of the leaves that keeps
/// every real leaf in place.
pub proof fn lemma_pad_pow2(leaves: Seq<Seq<u8>>)
    requires
        leaves.len() >= 1,
    ensures
        pad_pow2(leaves).len() == pow2_ceil(leaves.len()),
        is_pow2(pad_pow2(leaves).len()),
        pad_pow2(leaves).len() >= leaves.len(),
        forall|i: int| 0 <= i < leaves.len() ==> pad_pow2(leaves)[i] == leaves[i],
{
    lemma_pow2_ceil_bounds(leaves.len());
}

/// Replaying the proof generated for a position of a power-of-two level
/// reproduces that level's root.
pub proof fn lemma_proof_replays_root(level: Seq<Seq<u8>>, index: int)
    requires
        is_pow2(level.len()),
        0 <= index < level.len(),
    ensures
        replay(proof_spec(level, index), level[index], index as nat) == root_of_level(level),
    decreases level.len(),
{
    if level.len() >= 2 {
        let folded = fold_level(level);
        let sibling = if index % 2 == 0 {
            index + 1
        } else {
            index - 1
        };
        let rest = proof_spec(folded, index / 2);
        let full = seq![level[sibling]] + rest;
        assert(level.len() % 2 == 0 && is_pow2(level.len() / 2));
        assert(full.drop_first() =~= rest);
        if index % 2 == 0 {
            assert(2 * (index / 2) == index);
            assert(folded[index / 2] == pair_hash(level[index], level[index + 1]));
        } else {
            assert(2 * (index / 2) == index - 1);
            assert(folded[index / 2] == pair_hash(level[index - 1], level[index]));
        }
        lemma_proof_replays_root(folded, index / 2);
    }
}

/// A proof over a power-of-two level has one entry per folding step.
pub proof fn lemma_proof_spec_len(level: Seq<Seq<u8>>, index: int)
    requires
        is_pow2(level.len()),
        0 <= index < level.len(),
    ensures
        proof_spec(level, index).len() == proof_len(level.len()),
    decreases level.len(),
{
    if level.len() >= 2 {
        let folded = fold_level(level);
        assert(level.len() % 2 == 0 && is_pow2(level.len() / 2));
        lemma_proof_spec_len(folded, index / 2);
    }
}

// ---------------------------------------------------------------------------
// The laws of the library
// ---------------------------------------------------------------------------
/// Law: for every index of a non-empty leaf sequence, replaying the proof
/// generated for that index from the leaf's own digest reproduces the root.
pub proof fn lemma_generated_proof_verifies(leaves: Seq<Seq<u8>>, index: int)
    requires
        leaves.len() >= 1,
        0 <= index < leaves.len(),
    ensures
        replay(proof_spec(pad_pow2(leaves), index), leaves[index], index as nat) == root_spec(
            leaves,
        ),
{
    lemma_pad_pow2(leaves);
    lemma_proof_replays_root(pad_pow2(leaves), index);
}

/// Law: the root is a function of the leaf sequence alone, so repeated root
/// computations on an unmutated tree return identical digests.
pub proof fn lemma_root_deterministic(first: Seq<u8>, second: Seq<u8>, leaves: Seq<Seq<u8>>)
    requires
        first == root_spec(leaves),
        second == root_spec(leaves),
    ensures
        first == second,
{
}

/// Law: a single-leaf tree's root is that leaf's digest, with no padding
/// and no combination step.
pub proof fn lemma_single_leaf_root(digest: Seq<u8>)
    ensures
        root_spec(seq![digest]) == digest,
{
    assert(pad_pow2(seq![digest]) =~= seq![digest]);
}

/// Law: leaf hashing distributes over concatenation of item sequences, so a
/// tree extended by appending items holds the same leaf digests - and
/// therefore commits to the same root - as a tree built afresh from the
/// full concatenated item sequence.
pub proof fn lemma_append_matches_rebuild(first: Seq<String>, second: Seq<String>)
    ensures
        digests_of_items(first) + digests_of_items(second) == digests_of_items(first + second),
        root_spec(digests_of_items(first) + digests_of_items(second)) == root_spec(
            digests_of_items(first + second),
        ),
{
    assert(digests_of_items(first) + digests_of_items(second) =~= digests_of_items(
        first + second,
    ));
}

// ---------------------------------------------------------------------------
// The tree
// ---------------------------------------------------------------------------
/// The single recoverable error: the builder refuses an empty item sequence.
#[derive(Debug, PartialEq, Eq, Structural)]
pub enum CreationError {
    Empty,
}

/// A binary hash tree over an append-only, insertion-ordered store of leaf
/// digests, one per inserted item.
#[derive(Debug)]
pub struct MerkleTree {
    leaves: Vec<[u8; 32]>,
}

impl View for MerkleTree {
    type V = Seq<Seq<u8>>;

    /// A tree is modelled by its leaf digests, in insertion order.
    closed spec fn view(&self) -> Seq<Seq<u8>> {
        digest_views(self.leaves@)
    }
}

impl MerkleTree {
    /// A tree as the builder creates it: non-empty, and small enough that
    /// the padded working sequence fits in a vector.
    pub open spec fn wf(&self) -> bool {
        self@.len() >= 1 && pow2_ceil(self@.len()) <= usize::MAX
    }

    /// Hashes each raw item into its leaf digest, in item order.
    fn get_leaves(array: &Vec<String>) -> (leaves: Vec<[u8; 32]>)
        ensures
            digest_views(leaves@) == digests_of_items(array@),
    {
        let mut leaves: Vec<[u8; 32]> = Vec::new();
        let mut i: usize = 0;
        while i < array.len()
            invariant
                i <= array@.len(),
                leaves@.len() == i,
                forall|j: int| 0 <= j < i ==> leaves@[j]@ == item_digest(array@[j]@),
            decreases array@.len() - i,
        {
            let digest = calculate_hash(array[i].as_str().as_bytes());
            leaves.push(digest);
            i += 1;
        }
        proof {
            assert(digest_views(leaves@) =~= digests_of_items(array@));
        }
        leaves
    }

    /// Builds a tree whose leaf store holds the digest of each item, in the
    /// items' order; refuses an empty item sequence.
    pub fn build_from(array: Vec<String>) -> (result: Result<MerkleTree, CreationError>)
        ensures
            match result {
                Ok(tree) => array@.len() >= 1 && tree@ == digests_of_items(array@),
                Err(err) => array@.len() == 0 && err == CreationError::Empty,
            },
    {
        if array.is_empty() {
            return Err(CreationError::Empty);
        }
        let leaves = Self::get_leaves(&array);
        Ok(MerkleTree { leaves })
    }

    /// The number of unpadded leaves.
    pub fn count_leaves(&self) -> (count: usize)
        ensures
            count == self@.len(),
    {
        self.leaves.len()
    }

    /// Hashes each new item exactly as the builder does and appends the
    /// digests to the leaf store, leaving prior entries unchanged.
    pub fn add_leaves(&mut self, new_leaves: Vec<String>)
        ensures
            final(self)@ == old(self)@ + digests_of_items(new_leaves@),
            final(self)@.len() == old(self)@.len() + new_leaves@.len(),
    {
        let mut hashed = Self::get_leaves(&new_leaves);
        self.leaves.append(&mut hashed);
        proof {
            assert(self@ =~= old(self)@ + digests_of_items(new_leaves@));
        }
    }

    /// The padded working sequence: a copy of the leaves, extended by
    /// duplicating whatever element is currently last until the length is a
    /// power of two.
    fn resize_leaves(leaves: &Vec<[u8; 32]>) -> (resized: Vec<[u8; 32]>)
        requires
            leaves@.len() >= 1,
            pow2_ceil(leaves@.len() as nat) <= usize::MAX,
        ensures
            digest_views(resized@) == pad_pow2(digest_views(leaves@)),
    {
        let ghost target_spec = pow2_ceil(leaves@.len() as nat);
        proof {
            lemma_pow2_ceil_bounds(leaves@.len() as nat);
        }
        let mut target: usize = 1;
        while target < leaves.len()
            invariant
                1 <= target,
                is_pow2(target as nat),
                target as nat <= target_spec,
                target_spec == pow2_ceil(leaves@.len() as nat),
                target_spec <= usize::MAX,
                leaves@.len() >= 1,
            decreases target_spec - target,
        {
            proof {
                lemma_pow2_ceil_bounds(leaves@.len() as nat);
                lemma_pow2_gap(target as nat, target_spec);
            }
            target = target * 2;
        }
        proof {
            lemma_pow2_ceil_least(leaves@.len() as nat, target as nat);
        }
        let mut resized: Vec<[u8; 32]> = Vec::new();
        let mut i: usize = 0;
        while i < leaves.len()
            invariant
                i <= leaves@.len(),
                resized@.len() == i,
                forall|j: int| 0 <= j < i ==> resized@[j] == leaves@[j],
            decreases leaves@.len() - i,
        {
            resized.push(leaves[i]);
            i += 1;
        }
        while resized.len() < target
            invariant
                leaves@.len() >= 1,
                leaves@.len() <= resized@.len() <= target as nat,
                target as nat == pow2_ceil(leaves@.len() as nat),
                forall|j: int| 0 <= j < leaves@.len() ==> resized@[j] == leaves@[j],
                forall|j: int|
                    leaves@.len() <= j < resized@.len() ==> resized@[j] == leaves@[leaves@.len()
                        - 1],
            decreases target - resized@.len(),
        {
            let last = resized[resized.len() - 1];
            resized.push(last);
        }
        proof {
            assert(digest_views(resized@) =~= pad_pow2(digest_views(leaves@)));
        }
        resized
    }

    /// One folding step: hash consecutive disjoint pairs in index order.
    fn fold_level_exec(level: &Vec<[u8; 32]>) -> (next: Vec<[u8; 32]>)
        requires
            level@.len() % 2 == 0,
        ensures
            digest_views(next@) == fold_level(digest_views(level@)),
    {
        let mut next: Vec<[u8; 32]> = Vec::new();
        let mut i: usize = 0;
        while i < level.len() / 2
            invariant
                level@.len() % 2 == 0,
                i <= level@.len() / 2,
                next@.len() == i,
                forall|j: int|
                    0 <= j < i ==> next@[j]@ == pair_hash(level@[2 * j]@, level@[2 * j + 1]@),
            decreases level@.len() / 2 - i,
        {
            let parent = combine(&level[2 * i], &level[2 * i + 1]);
            next.push(parent);
            i += 1;
        }
        proof {
            assert(digest_views(next@) =~= fold_level(digest_views(level@)));
        }
        next
    }

    /// Folds a power-of-two working sequence level by level down to the root.
    fn calculate_root(leaves: &Vec<[u8; 32]>) -> (root: [u8; 32])
        requires
            leaves@.len() >= 1,
            is_pow2(leaves@.len() as nat),
        ensures
            root@ == root_of_level(digest_views(leaves@)),
    {
        if leaves.len() == 1 {
            return leaves[0];
        }
        proof {
            assert(leaves@.len() % 2 == 0 && is_pow2((leaves@.len() / 2) as nat));
        }
        let mut current = Self::fold_level_exec(leaves);
        proof {
            assert(current@.len() == fold_level(digest_views(leaves@)).len());
            assert(current@.len() == leaves@.len() / 2);
        }
        while current.len() > 1
            invariant
                current@.len() >= 1,
                is_pow2(current@.len() as nat),
                root_of_level(digest_views(current@)) == root_of_level(digest_views(leaves@)),
            decreases current@.len(),
        {
            proof {
                assert(current@.len() % 2 == 0 && is_pow2((current@.len() / 2) as nat));
            }
            let next = Self::fold_level_exec(&current);
            proof {
                assert(next@.len() == fold_level(digest_views(current@)).len());
                assert(next@.len() == current@.len() / 2);
            }
            current = next;
        }
        current[0]
    }

    /// The root digest committing to the current leaf store: pad to a power
    /// of two, then fold level by level to a single digest.
    pub fn get_root(&self) -> (root: [u8; 32])
        requires
            self.wf(),
        ensures
            root@ == root_spec(self@),
    {
        proof {
            lemma_pad_pow2(self@);
        }
        let resized = Self::resize_leaves(&self.leaves);
        Self::calculate_root(&resized)
    }

    /// The inclusion proof for `leaf_index`: the sibling digest recorded at
    /// each folding step of the padded working sequence, ordered from the
    /// leaf's immediate sibling up to the last sibling just below the root.
    /// The index is validated against the padded sequence.
    pub fn generate_proof(&self, leaf_index: usize) -> (path: Vec<[u8; 32]>)
        requires
            self.wf(),
            leaf_index < pow2_ceil(self@.len()),
        ensures
            digest_views(path@) == proof_spec(pad_pow2(self@), leaf_index as int),
    {
        proof {
            lemma_pad_pow2(self@);
        }
        let mut level = Self::resize_leaves(&self.leaves);
        let mut idx = leaf_index;
        let mut path: Vec<[u8; 32]> = Vec::new();
        proof {
            assert(digest_views(path@) + proof_spec(digest_views(level@), idx as int)
                =~= proof_spec(pad_pow2(self@), leaf_index as int));
        }
        while level.len() > 1
            invariant
                idx < level@.len(),
                is_pow2(level@.len() as nat),
                digest_views(path@) + proof_spec(digest_views(level@), idx as int) == proof_spec(
                    pad_pow2(self@),
                    leaf_index as int,
                ),
            decreases level@.len(),
        {
            proof {
                assert(level@.len() % 2 == 0 && is_pow2((level@.len() / 2) as nat));
            }
            let ghost level_before = digest_views(level@);
            let ghost path_before = digest_views(path@);
            let ghost idx_before = idx as int;
            let sibling_index = if idx % 2 == 0 {
                idx + 1
            } else {
                idx - 1
            };
            path.push(level[sibling_index]);
            let next = Self::fold_level_exec(&level);
            proof {
                assert(digest_views(path@) =~= path_before.push(level_before[sibling_index as int]));
                assert(next@.len() == fold_level(level_before).len());
                assert(digest_views(path@) + proof_spec(fold_level(level_before), idx_before / 2)
                    =~= path_before + proof_spec(level_before, idx_before));
            }
            level = next;
            idx = idx / 2;
        }
        proof {
            assert(proof_spec(digest_views(level@), idx as int) =~= Seq::<Seq<u8>>::empty());
            assert(digest_views(path@) + Seq::<Seq<u8>>::empty() =~= digest_views(path@));
        }
        path
    }

    /// Linear search of the unpadded leaf store for the first entry whose
    /// digest equals `leaf_hash` byte for byte; a found entry comes back with
    /// its inclusion proof and index, an absent one as nothing. The caller
    /// passes an already-hashed digest, not a raw item.
    pub fn contains_leaf(&mut self, leaf_hash: [u8; 32]) -> (found: Option<(Vec<[u8; 32]>, usize)>)
        requires
            old(self).wf(),
        ensures
            *final(self) == *old(self),
            match found {
                Some(found) => {
                    &&& found.1 < old(self)@.len()
                    &&& old(self)@[found.1 as int] == leaf_hash@
                    &&& forall|j: int| 0 <= j < found.1 ==> old(self)@[j] != leaf_hash@
                    &&& digest_views(found.0@) == proof_spec(pad_pow2(old(self)@), found.1 as int)
                    &&& found.0@.len() == proof_len(pow2_ceil(old(self)@.len()))
                },
                None => forall|i: int| 0 <= i < old(self)@.len() ==> old(self)@[i] != leaf_hash@,
            },
    {
        let n = self.leaves.len();
        let mut i: usize = 0;
        while i < n
            invariant
                *self == *old(self),
                self.wf(),
                n == self@.len(),
                i <= n,
                forall|j: int| 0 <= j < i ==> self@[j] != leaf_hash@,
            decreases n - i,
        {
            if digests_equal(&self.leaves[i], &leaf_hash) {
                proof {
                    lemma_pad_pow2(self@);
                }
                let path = self.generate_proof(i);
                proof {
                    lemma_proof_spec_len(pad_pow2(self@), i as int);
                }
                return Some((path, i));
            }
            i += 1;
        }
        None
    }

    /// Replays a proof from a claimed leaf digest and index: at each level
    /// the running digest is combined with the next sibling, ordered by the
    /// parity rule, and the outcome is compared with the claimed root. Pure
    /// and total: a malformed proof or a wrong index yields `false`, never an
    /// error.
    pub fn verify(path: Vec<[u8; 32]>, root: [u8; 32], leaf_hash: [u8; 32], leaf_index: usize) -> (valid:
        bool)
        ensures
            valid == (replay(digest_views(path@), leaf_hash@, leaf_index as nat) == root@),
    {
        let ghost full = digest_views(path@);
        let mut value = leaf_hash;
        let mut idx = leaf_index;
        let n = path.len();
        let mut i: usize = 0;
        proof {
            assert(full.skip(0) =~= full);
        }
        while i < n
            invariant
                n == path@.len(),
                i <= n,
                replay(full, leaf_hash@, leaf_index as nat) == replay(
                    full.skip(i as int),
                    value@,
                    idx as nat,
                ),
                full == digest_views(path@),
            decreases n - i,
        {
            let ghost value_before = value@;
            let ghost idx_before = idx as nat;
            proof {
                assert(full.skip(i as int)[0] == full[i as int]);
                assert(full.skip(i as int).drop_first() =~= full.skip(i as int + 1));
            }
            let sibling = path[i];
            if idx % 2 == 0 {
                value = combine(&value, &sibling);
            } else {
                value = combine(&sibling, &value);
            }
            idx = idx / 2;
            i += 1;
            proof {
                assert(replay(full.skip(i - 1), value_before, idx_before) == replay(
                    full.skip(i as int),
                    value@,
                    idx as nat,
                ));
            }
        }
        proof {
            assert(full.skip(n as int) =~= Seq::<Seq<u8>>::empty());
        }
        digests_equal(&value, &root)
    }
}

impl PartialEq for MerkleTree {
    /// Trees are equal when their leaf stores hold the same digests in the
    /// same order.
    fn eq(&self, other: &MerkleTree) -> (equal: bool) {
        if self.leaves.len() != other.leaves.len() {
            proof {
                assert(self@.len() != other@.len());
            }
            return false;
        }
        let mut i: usize = 0;
        while i < self.leaves.len()
            invariant
                self.leaves@.len() == other.leaves@.len(),
                i <= self.leaves@.len(),
                forall|j: int| 0 <= j < i ==> self@[j] == other@[j],
            decreases self.leaves@.len() - i,
        {
            if !digests_equal(&self.leaves[i], &other.leaves[i]) {
                proof {
                    assert(self@[i as int] != other@[i as int]);
                }
                return false;
            }
            i += 1;
        }
        proof {
            assert(self@ =~= other@);
        }
        true
    }
}

impl vstd::std_specs::cmp::PartialEqSpecImpl for MerkleTree {
    open spec fn obeys_eq_spec() -> bool {
        true
    }

    open spec fn eq_spec(&self, other: &MerkleTree) -> bool {
        self@ == other@
    }
}

} // verus!

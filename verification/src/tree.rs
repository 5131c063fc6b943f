//! The Merkle tree itself: packed-array storage, construction, root access,
//! authentication-path generation and inclusion verification.

use vstd::prelude::*;
use core::marker::PhantomData;
use crate::hashing::{Hashable, Hasher};
use crate::model::{
    is_pow2, leaf_slot, lemma_capacity_fits, lemma_pow2_log2, lemma_steps_to_root_in_layer, log2,
    parent_slot, sibling_slot, steps_to_root,
};

verus! {

/// The ways a request can be invalid. Construction fails when the leaf count
/// is not a power of two or when the implied capacity does not match the
/// configured one; queries fail when the leaf index is out of range.
#[derive(Debug, Clone, Copy, PartialEq, Eq)]
pub enum Error {
    NotPowOf2 { n: usize },
    SizeMismatch { required: usize, requested: usize },
    NoSuchleaf { index: usize },
}

/// Where a sibling hash sits relative to the node being verified, which is
/// the side it takes in the next concatenation step.
#[derive(Debug, Clone, Copy, PartialEq, Eq)]
pub enum SiblingDirection {
    Left,
    Right,
}

/// A complete binary hash tree over `N` nodes in one packed array: slot 0 is
/// the root, slots `[0, L-1)` are internal nodes, and leaf `i` of the `L`
/// original data blocks sits at slot `L - 1 + i`, where `L = (N+1)/2` must be
/// a power of two and `N = 2*L - 1`.
pub struct MerkleTree<H: crate::hashing::Hash, A: Hasher<H>, const N: usize> {
    data: Vec<H>,
    _hasher_phantom: PhantomData<A>,
}

impl<H: crate::hashing::Hash, A: Hasher<H>, const N: usize> View for MerkleTree<H, A, N> {
    type V = Seq<H>;

    closed spec fn view(&self) -> Seq<H> {
        self.data@
    }
}

/// The sequence of byte representations of a sequence of data blocks.
pub open spec fn bytes_of_blocks<T: Hashable>(blocks: Seq<T>) -> Seq<Seq<u8>> {
    Seq::new(blocks.len(), |i: int| blocks[i].bytes())
}

/// The internal node at slot `j` of `nodes` holds the hash of the
/// concatenation of its two children's bytes.
pub open spec fn linked_in<H: crate::hashing::Hash, A: Hasher<H>>(nodes: Seq<H>, j: int) -> bool {
    nodes[j].bytes() == A::hash_bytes_of(nodes[2 * j + 1].bytes() + nodes[2 * j + 2].bytes())
}

/// Leaf slots `[l - 1, l - 1 + count)` of `nodes` hold the hashes of the
/// first `count` of the `l` byte blocks `items`.
pub open spec fn leaves_hashed<H: crate::hashing::Hash, A: Hasher<H>>(
    nodes: Seq<H>,
    items: Seq<Seq<u8>>,
    l: int,
    count: int,
) -> bool {
    forall|k: int|
        0 <= k < count ==> nodes[l - 1 + k].bytes() == A::hash_bytes_of(#[trigger] items[k])
}

/// The hash that replaying an authentication path from `slot` upward yields,
/// starting from the hash bytes `h` of the node at `slot`: at every step the
/// sibling's bytes are concatenated on the side the sibling occupies, the
/// pair is hashed, and the walk moves to the parent slot.
pub open spec fn replay<H: crate::hashing::Hash, A: Hasher<H>>(
    nodes: Seq<H>,
    slot: int,
    h: Seq<u8>,
) -> Seq<u8>
    decreases slot,
{
    if slot <= 0 {
        h
    } else {
        replay::<H, A>(
            nodes,
            parent_slot(slot),
            if slot % 2 == 0 {
                A::hash_bytes_of(nodes[sibling_slot(slot)].bytes() + h)
            } else {
                A::hash_bytes_of(h + nodes[sibling_slot(slot)].bytes())
            },
        )
    }
}

/// Whether `n` is a power of two.
fn pow2_check(n: usize) -> (b: bool)
    ensures
        b == is_pow2(n as nat),
{
    if n == 0 {
        return false;
    }
    let mut m = n;
    while m > 1
        invariant
            m >= 1,
            is_pow2(n as nat) == is_pow2(m as nat),
        decreases m,
    {
        if m % 2 == 1 {
            return false;
        }
        m = m / 2;
    }
    true
}

impl<H: crate::hashing::Hash, A: Hasher<H>, const N: usize> MerkleTree<H, A, N> {
    /// The number of leaves, `L`.
    pub open spec fn spec_leaf_count(&self) -> int {
        (N + 1) as int / 2
    }

    /// Structural validity: the array holds exactly `N` nodes and `N` is
    /// `2*L - 1` for a power-of-two leaf count `L`.
    pub open spec fn wf(&self) -> bool {
        &&& self@.len() == N
        &&& N % 2 == 1
        &&& is_pow2(self.spec_leaf_count() as nat)
    }

    /// The internal node at slot `j` holds the hash of the concatenation of
    /// its two children's bytes.
    pub open spec fn linked_at(&self, j: int) -> bool {
        linked_in::<H, A>(self@, j)
    }

    /// All internal slots from `lo` upward to the last one are linked.
    pub open spec fn linked_from(&self, lo: int) -> bool {
        forall|j: int| lo <= j < self.spec_leaf_count() - 1 ==> #[trigger] self.linked_at(j)
    }

    /// The tree is exactly what construction from data blocks with the byte
    /// representations `items` produces: leaf `i` holds the hash of
    /// `items[i]`, and every internal node hashes its children.
    pub open spec fn built_from(&self, items: Seq<Seq<u8>>) -> bool {
        &&& self.wf()
        &&& items.len() == self.spec_leaf_count()
        &&& leaves_hashed::<H, A>(self@, items, self.spec_leaf_count(), items.len() as int)
        &&& self.linked_from(0)
    }

    /// The bytes of the root hash.
    pub open spec fn spec_root(&self) -> Seq<u8> {
        self@[0].bytes()
    }

    #[inline(always)]
    pub fn root(&self) -> (r: H)
        requires
            self.wf(),
        ensures
            r == self@[0],
    {
        self.data[0]
    }

    #[inline(always)]
    pub fn n_leaves(&self) -> (r: usize)
        requires
            self.wf(),
        ensures
            r as int == self.spec_leaf_count(),
    {
        N / 2 + 1
    }

    /// Slot of the parent of the node at slot `i`.
    #[inline(always)]
    fn parent_i(&self, i: usize) -> (r: usize)
        requires
            i >= 1,
        ensures
            r as int == parent_slot(i as int),
    {
        (i - 1) / 2
    }

    /// Slot of the leaf holding the hash of data block `i`.
    #[inline(always)]
    fn leaf_i(&self, i: usize) -> (r: usize)
        requires
            self.wf(),
            i < self.spec_leaf_count(),
        ensures
            r as int == leaf_slot(N as int, i as int),
            r < N,
    {
        N / 2 + i
    }

    /// Creates a tree whose leaves hold the hashes of the elements of
    /// `slice`, in order, and whose internal nodes each hash the
    /// concatenation of their two children. The slice length must be a power
    /// of two `L` with `2*L - 1` equal to the configured capacity `N`;
    /// otherwise the matching error is returned and no tree is produced.
    pub fn from_slice<T: Hashable>(slice: &[T]) -> (r: Result<Self, Error>)
        ensures
            match r {
                Ok(t) => {
                    &&& is_pow2(slice@.len())
                    &&& N as int == 2 * slice@.len() - 1
                    &&& t.built_from(bytes_of_blocks(slice@))
                },
                Err(e) => match e {
                    Error::NotPowOf2 { n } => !is_pow2(slice@.len()) && n == N,
                    Error::SizeMismatch { required, requested } => {
                        &&& is_pow2(slice@.len())
                        &&& required == N
                        &&& requested as int == 2 * slice@.len() - 1
                        &&& N as int != 2 * slice@.len() - 1
                    },
                    Error::NoSuchleaf { .. } => false,
                },
            },
    {
        let n_leaves = slice.len();
        if !pow2_check(n_leaves) {
            return Err(Error::NotPowOf2 { n: N });
        }
        proof {
            lemma_capacity_fits(n_leaves as nat);
        }
        let cap = n_leaves - 1 + n_leaves;
        if cap != N {
            return Err(Error::SizeMismatch { required: N, requested: cap });
        }

        let ghost items = bytes_of_blocks(slice@);

        // Fill every slot with a placeholder hash; every slot is overwritten
        // below, the leaves first and then each layer of parents.
        let mut hasher0 = A::new();
        hasher0.update(slice[0].as_bytes());
        let placeholder = hasher0.finish();
        let mut data: Vec<H> = Vec::new();
        while data.len() < N
            invariant
                data@.len() <= N,
            decreases N - data@.len(),
        {
            data.push(placeholder);
        }

        // Leaf layer: hash data block i into slot L - 1 + i.
        let mut i: usize = 0;
        while i < n_leaves
            invariant
                n_leaves == slice@.len(),
                2 * n_leaves - 1 == N,
                items == bytes_of_blocks(slice@),
                i <= n_leaves,
                data@.len() == N,
                leaves_hashed::<H, A>(data@, items, n_leaves as int, i as int),
            decreases n_leaves - i,
        {
            let mut hasher = A::new();
            hasher.update(slice[i].as_bytes());
            let h = hasher.finish();
            proof {
                assert(Seq::<u8>::empty() + slice@[i as int].bytes() =~= items[i as int]);
            }
            data[n_leaves - 1 + i] = h;
            i += 1;
        }

        // Reduction: while the layer of width `width` is filled in, hash its
        // adjacent sibling pairs into their parents, halving the width each
        // round until only the root is left.
        let mut width = n_leaves;
        while width >= 2
            invariant
                n_leaves == slice@.len(),
                2 * n_leaves - 1 == N,
                is_pow2(n_leaves as nat),
                is_pow2(width as nat),
                1 <= width <= n_leaves,
                data@.len() == N,
                leaves_hashed::<H, A>(data@, items, n_leaves as int, n_leaves as int),
                forall|j: int|
                    width - 1 <= j < n_leaves - 1 ==> #[trigger] linked_in::<H, A>(data@, j),
            decreases width,
        {
            let half = width / 2;
            let mut pair: usize = 0;
            while pair < half
                invariant
                    n_leaves == slice@.len(),
                    2 * n_leaves - 1 == N,
                    2 * half == width,
                    1 <= half,
                    width <= n_leaves,
                    pair <= half,
                    data@.len() == N,
                    leaves_hashed::<H, A>(data@, items, n_leaves as int, n_leaves as int),
                    forall|j: int|
                        width - 1 <= j < n_leaves - 1 ==> #[trigger] linked_in::<H, A>(data@, j),
                    forall|j: int|
                        half - 1 <= j < half - 1 + pair ==> #[trigger] linked_in::<H, A>(
                            data@,
                            j,
                        ),
                decreases half - pair,
            {
                let left = width - 1 + 2 * pair;
                let mut hasher = A::new();
                hasher.update(data[left].as_bytes());
                hasher.update(data[left + 1].as_bytes());
                let h = hasher.finish();
                proof {
                    assert((Seq::<u8>::empty() + data@[left as int].bytes())
                        + data@[left as int + 1].bytes() =~= data@[left as int].bytes()
                        + data@[left as int + 1].bytes());
                }
                let ghost pre = data@;
                data[half - 1 + pair] = h;
                proof {
                    let p = half - 1 + pair as int;
                    assert(data@ == pre.update(p, h));
                    assert forall|j: int|
                        width - 1 <= j < n_leaves - 1 implies #[trigger] linked_in::<H, A>(
                        data@,
                        j,
                    ) by {
                        assert(linked_in::<H, A>(pre, j));
                    }
                    assert forall|j: int|
                        half - 1 <= j < half - 1 + pair + 1 implies #[trigger] linked_in::<
                        H,
                        A,
                    >(data@, j) by {
                        if j < p {
                            assert(linked_in::<H, A>(pre, j));
                        } else {
                            assert(2 * p + 1 == left as int);
                            assert(data@[p] == h);
                        }
                    }
                }
                pair += 1;
            }
            width = half;
        }

        let tree = MerkleTree { data, _hasher_phantom: PhantomData };
        proof {
            assert(tree.wf());
            assert forall|j: int| 0 <= j < tree.spec_leaf_count() - 1 implies #[trigger] tree
                .linked_at(j) by {
                assert(linked_in::<H, A>(data@, j));
            }
        }
        Ok(tree)
    }

    /// Verifies that the data block `data` is the block that leaf `data_i`
    /// of this tree was built from, by hashing the block and replaying the
    /// hashing along the authentication path up to the root.
    pub fn verify<T: Hashable>(&self, data: T, data_i: usize) -> (r: Result<bool, Error>)
        requires
            self.wf(),
        ensures
            match r {
                Ok(b) => {
                    &&& (data_i as int) < self.spec_leaf_count()
                    &&& b == (replay::<H, A>(
                        self@,
                        leaf_slot(N as int, data_i as int),
                        A::hash_bytes_of(data.bytes()),
                    ) == self.spec_root())
                },
                Err(e) => {
                    &&& data_i as int >= self.spec_leaf_count()
                    &&& e == (Error::NoSuchleaf { index: data_i })
                },
            },
    {
        let mut hasher = A::new();
        hasher.update(data.as_bytes());
        let mut hash = hasher.finish();
        proof {
            assert(Seq::<u8>::empty() + data.bytes() =~= data.bytes());
        }

        let mut v = match self.path(data_i) {
            Ok(v) => v,
            Err(e) => {
                return Err(e);
            },
        };
        loop
            invariant
                self.wf(),
                v.wf(),
                v.nodes() == self@,
                replay::<H, A>(self@, v.cursor(), hash.bytes()) == replay::<H, A>(
                    self@,
                    leaf_slot(N as int, data_i as int),
                    A::hash_bytes_of(data.bytes()),
                ),
            ensures
                v.cursor() == 0,
                hash.bytes() == replay::<H, A>(
                    self@,
                    leaf_slot(N as int, data_i as int),
                    A::hash_bytes_of(data.bytes()),
                ),
            decreases v.cursor(),
        {
            let step = v.next();
            match step {
                None => {
                    break ;
                },
                Some((sibling_hash, sibling_direction)) => {
                    let ghost prev = hash;
                    let mut hasher = A::new();
                    match sibling_direction {
                        SiblingDirection::Left => {
                            hasher.update(sibling_hash.as_bytes());
                            hasher.update(hash.as_bytes());
                            proof {
                                assert((Seq::<u8>::empty() + sibling_hash.bytes())
                                    + prev.bytes() =~= sibling_hash.bytes() + prev.bytes());
                            }
                        },
                        SiblingDirection::Right => {
                            hasher.update(hash.as_bytes());
                            hasher.update(sibling_hash.as_bytes());
                            proof {
                                assert((Seq::<u8>::empty() + prev.bytes())
                                    + sibling_hash.bytes() =~= prev.bytes()
                                    + sibling_hash.bytes());
                            }
                        },
                    }
                    hash = hasher.finish();
                },
            }
        }
        let root = self.root();
        Ok(hash.eq_hash(&root))
    }

    /// Creates the cursor that yields the successive sibling hashes required
    /// to verify the leaf of data block `data_i`, positioned at that leaf's
    /// slot; the path it will yield has exactly `log2(L)` steps.
    pub fn path<'a>(&'a self, data_i: usize) -> (r: Result<
        MerkleTreeVerifier<'a, H, A, N>,
        Error,
    >)
        requires
            self.wf(),
        ensures
            match r {
                Ok(v) => {
                    &&& (data_i as int) < self.spec_leaf_count()
                    &&& v.wf()
                    &&& v.nodes() == self@
                    &&& v.cursor() == leaf_slot(N as int, data_i as int)
                    &&& v.remaining() == log2(self.spec_leaf_count() as nat)
                },
                Err(e) => {
                    &&& data_i as int >= self.spec_leaf_count()
                    &&& e == (Error::NoSuchleaf { index: data_i })
                },
            },
    {
        if data_i >= self.n_leaves() {
            Err(Error::NoSuchleaf { index: data_i })
        } else {
            let v = MerkleTreeVerifier { i: self.leaf_i(data_i), tree: self };
            proof {
                lemma_pow2_log2(self.spec_leaf_count() as nat);
                lemma_steps_to_root_in_layer(
                    log2(self.spec_leaf_count() as nat),
                    v.cursor(),
                );
            }
            Ok(v)
        }
    }
}

/// An ephemeral cursor over a tree that yields, leaf to root, the sibling
/// hash and sibling direction of each node on the path from one leaf slot up
/// to (and excluding) the root.
pub struct MerkleTreeVerifier<'a, H: crate::hashing::Hash, A: Hasher<H>, const N: usize> {
    /// Slot of the node currently being examined; the cursor is exhausted
    /// when this reaches 0, so the root itself is never yielded.
    i: usize,
    /// The tree being checked against.
    tree: &'a MerkleTree<H, A, N>,
}

impl<'a, H: crate::hashing::Hash, A: Hasher<H>, const N: usize> MerkleTreeVerifier<'a, H, A, N> {
    /// The nodes of the tree the cursor walks over.
    pub closed spec fn nodes(&self) -> Seq<H> {
        self.tree@
    }

    /// The slot the cursor currently stands on.
    pub closed spec fn cursor(&self) -> int {
        self.i as int
    }

    /// The number of path steps the cursor has yet to yield.
    pub open spec fn remaining(&self) -> nat {
        steps_to_root(self.cursor())
    }

    pub closed spec fn wf(&self) -> bool {
        &&& self.tree.wf()
        &&& self.i < N
    }

    /// Yields the sibling hash of the current node together with the side
    /// that sibling occupies, and moves the cursor to the parent; yields
    /// `None` once the cursor has reached the root.
    pub fn next(&mut self) -> (r: Option<(H, SiblingDirection)>)
        requires
            old(self).wf(),
        ensures
            final(self).wf(),
            final(self).nodes() == old(self).nodes(),
            old(self).cursor() == 0 ==> r is None && final(self).cursor() == 0,
            old(self).cursor() > 0 ==> {
                &&& r matches Some(p)
                &&& p.0 == old(self).nodes()[sibling_slot(old(self).cursor())]
                &&& p.1 == (if old(self).cursor() % 2 == 0 {
                    SiblingDirection::Left
                } else {
                    SiblingDirection::Right
                })
                &&& final(self).cursor() == parent_slot(old(self).cursor())
                &&& final(self).remaining() == old(self).remaining() - 1
            },
    {
        if self.i == 0 {
            return None;
        }
        let (sibling_i, sibling_direction) = if self.i % 2 == 0 {
            (self.i - 1, SiblingDirection::Left)
        } else {
            (self.i + 1, SiblingDirection::Right)
        };
        let res = self.tree.data[sibling_i];
        self.i = self.tree.parent_i(self.i);
        Some((res, sibling_direction))
    }
}

} // verus!

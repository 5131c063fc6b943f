//! Laws that relate construction, path replay and verification.
//!
//! `MerkleTree::verify` promises exactly that its answer equals a `replay`
//! of the authentication path against the tree's node array; the proofs here
//! say what that replay yields on a tree that `MerkleTree::from_slice`
//! built: the original block at its own index replays to the root, and —
//! for a collision-free hash — nothing else does.

use vstd::prelude::*;
use crate::hashing::Hasher;
use crate::model::{leaf_slot, parent_slot, sibling_slot};
use crate::tree::{leaves_hashed, linked_in, replay, MerkleTree};

verus! {

/// Replaying the path from any slot, starting from that slot's own hash
/// bytes, reproduces the root: each step rebuilds exactly the parent's hash.
proof fn lemma_replay_from_node<H: crate::hashing::Hash, A: Hasher<H>>(
    nodes: Seq<H>,
    l: int,
    s: int,
)
    requires
        l >= 1,
        nodes.len() == 2 * l - 1,
        forall|j: int| 0 <= j < l - 1 ==> #[trigger] linked_in::<H, A>(nodes, j),
        0 <= s < nodes.len(),
    ensures
        replay::<H, A>(nodes, s, nodes[s].bytes()) == nodes[0].bytes(),
    decreases s,
{
    if s > 0 {
        let p = parent_slot(s);
        assert(linked_in::<H, A>(nodes, p));
        if s % 2 == 1 {
            assert(2 * p + 1 == s && 2 * p + 2 == sibling_slot(s));
        } else {
            assert(2 * p + 1 == sibling_slot(s) && 2 * p + 2 == s);
        }
        lemma_replay_from_node::<H, A>(nodes, l, p);
    }
}

/// Round-trip verification: in a tree built from the byte blocks `items`,
/// the hash of `items[i]` replays along leaf `i`'s authentication path to
/// the root, so `verify` answers `true` for the original block at its own
/// index.
pub proof fn lemma_verify_round_trip<H: crate::hashing::Hash, A: Hasher<H>, const N: usize>(
    tree: MerkleTree<H, A, N>,
    items: Seq<Seq<u8>>,
    i: int,
)
    requires
        tree.built_from(items),
        0 <= i < tree.spec_leaf_count(),
    ensures
        replay::<H, A>(tree@, leaf_slot(N as int, i), A::hash_bytes_of(items[i]))
            == tree.spec_root(),
{
    let l = tree.spec_leaf_count();
    let s = leaf_slot(N as int, i);
    assert forall|j: int| 0 <= j < l - 1 implies #[trigger] linked_in::<H, A>(tree@, j) by {
        assert(tree.linked_at(j));
    }
    assert(tree@[s].bytes() == A::hash_bytes_of(items[i]));
    lemma_replay_from_node::<H, A>(tree@, l, s);
}

/// Every node of a built tree holds a digest, so its bytes have the digest
/// length.
proof fn lemma_node_bytes_len<H: crate::hashing::Hash, A: Hasher<H>>(
    nodes: Seq<H>,
    items: Seq<Seq<u8>>,
    l: int,
    hash_len: nat,
)
    requires
        l >= 1,
        nodes.len() == 2 * l - 1,
        items.len() == l,
        leaves_hashed::<H, A>(nodes, items, l, l),
        forall|j: int| 0 <= j < l - 1 ==> #[trigger] linked_in::<H, A>(nodes, j),
        forall|x: Seq<u8>| (#[trigger] A::hash_bytes_of(x)).len() == hash_len,
    ensures
        forall|j: int| 0 <= j < nodes.len() ==> (#[trigger] nodes[j].bytes()).len() == hash_len,
{
    assert forall|j: int| 0 <= j < nodes.len() implies (#[trigger] nodes[j].bytes()).len()
        == hash_len by {
        if j < l - 1 {
            assert(linked_in::<H, A>(nodes, j));
        } else {
            assert(nodes[l - 1 + (j - (l - 1))].bytes() == A::hash_bytes_of(items[j - (l - 1)]));
        }
    }
}

/// Two concatenations of equally long left parts are equal only piecewise.
proof fn lemma_concat_cancel(x: Seq<u8>, y: Seq<u8>, u: Seq<u8>, v: Seq<u8>)
    requires
        x + y == u + v,
        x.len() == u.len(),
    ensures
        x == u,
        y == v,
{
    assert(x =~= (x + y).subrange(0, x.len() as int));
    assert(u =~= (u + v).subrange(0, u.len() as int));
    assert(y =~= (x + y).subrange(x.len() as int, (x + y).len() as int));
    assert(v =~= (u + v).subrange(u.len() as int, (u + v).len() as int));
}

/// With a collision-free, fixed-output-length hash, a replay that reaches
/// the root can only have started from the slot's own hash bytes.
proof fn lemma_replay_injective<H: crate::hashing::Hash, A: Hasher<H>>(
    nodes: Seq<H>,
    l: int,
    s: int,
    h: Seq<u8>,
    hash_len: nat,
)
    requires
        l >= 1,
        nodes.len() == 2 * l - 1,
        forall|j: int| 0 <= j < l - 1 ==> #[trigger] linked_in::<H, A>(nodes, j),
        forall|j: int| 0 <= j < nodes.len() ==> (#[trigger] nodes[j].bytes()).len() == hash_len,
        forall|x: Seq<u8>, y: Seq<u8>|
            #![trigger A::hash_bytes_of(x), A::hash_bytes_of(y)]
            A::hash_bytes_of(x) == A::hash_bytes_of(y) ==> x == y,
        forall|x: Seq<u8>| (#[trigger] A::hash_bytes_of(x)).len() == hash_len,
        0 <= s < nodes.len(),
        h.len() == hash_len,
        replay::<H, A>(nodes, s, h) == nodes[0].bytes(),
    ensures
        h == nodes[s].bytes(),
    decreases s,
{
    if s > 0 {
        let p = parent_slot(s);
        let sib = nodes[sibling_slot(s)].bytes();
        let combined = if s % 2 == 0 {
            A::hash_bytes_of(sib + h)
        } else {
            A::hash_bytes_of(h + sib)
        };
        lemma_replay_injective::<H, A>(nodes, l, p, combined, hash_len);
        assert(linked_in::<H, A>(nodes, p));
        if s % 2 == 1 {
            assert(2 * p + 1 == s && 2 * p + 2 == sibling_slot(s));
            lemma_concat_cancel(h, sib, nodes[2 * p + 1].bytes(), nodes[2 * p + 2].bytes());
        } else {
            assert(2 * p + 1 == sibling_slot(s) && 2 * p + 2 == s);
            lemma_concat_cancel(sib, h, nodes[2 * p + 1].bytes(), nodes[2 * p + 2].bytes());
        }
    }
}

/// Tamper detection: in a tree built from the byte blocks `items` over a
/// collision-free hash whose digests all have `hash_len` bytes, a block
/// whose bytes differ from `items[i]` does not replay to the root along
/// leaf `i`'s authentication path, so `verify` answers `false` for it.
pub proof fn lemma_tamper_detected<H: crate::hashing::Hash, A: Hasher<H>, const N: usize>(
    tree: MerkleTree<H, A, N>,
    items: Seq<Seq<u8>>,
    i: int,
    other: Seq<u8>,
    hash_len: nat,
)
    requires
        tree.built_from(items),
        0 <= i < tree.spec_leaf_count(),
        other != items[i],
        forall|x: Seq<u8>, y: Seq<u8>|
            #![trigger A::hash_bytes_of(x), A::hash_bytes_of(y)]
            A::hash_bytes_of(x) == A::hash_bytes_of(y) ==> x == y,
        forall|x: Seq<u8>| (#[trigger] A::hash_bytes_of(x)).len() == hash_len,
    ensures
        replay::<H, A>(tree@, leaf_slot(N as int, i), A::hash_bytes_of(other))
            != tree.spec_root(),
{
    let l = tree.spec_leaf_count();
    let s = leaf_slot(N as int, i);
    assert forall|j: int| 0 <= j < l - 1 implies #[trigger] linked_in::<H, A>(tree@, j) by {
        assert(tree.linked_at(j));
    }
    lemma_node_bytes_len::<H, A>(tree@, items, l, hash_len);
    if replay::<H, A>(tree@, s, A::hash_bytes_of(other)) == tree.spec_root() {
        lemma_replay_injective::<H, A>(tree@, l, s, A::hash_bytes_of(other), hash_len);
        assert(A::hash_bytes_of(other) == A::hash_bytes_of(items[i]));
        assert(other == items[i]);
    }
}

/// Slot by slot, two trees built from the same byte blocks hold hashes with
/// the same bytes.
proof fn lemma_slots_agree<H: crate::hashing::Hash, A: Hasher<H>>(
    nodes1: Seq<H>,
    nodes2: Seq<H>,
    items: Seq<Seq<u8>>,
    l: int,
    j: int,
)
    requires
        l >= 1,
        nodes1.len() == 2 * l - 1,
        nodes2.len() == 2 * l - 1,
        items.len() == l,
        leaves_hashed::<H, A>(nodes1, items, l, l),
        leaves_hashed::<H, A>(nodes2, items, l, l),
        forall|k: int| 0 <= k < l - 1 ==> #[trigger] linked_in::<H, A>(nodes1, k),
        forall|k: int| 0 <= k < l - 1 ==> #[trigger] linked_in::<H, A>(nodes2, k),
        0 <= j < 2 * l - 1,
    ensures
        nodes1[j].bytes() == nodes2[j].bytes(),
    decreases 2 * l - 1 - j,
{
    if j >= l - 1 {
        let k = j - (l - 1);
        assert(nodes1[l - 1 + k].bytes() == A::hash_bytes_of(items[k]));
        assert(nodes2[l - 1 + k].bytes() == A::hash_bytes_of(items[k]));
    } else {
        assert(linked_in::<H, A>(nodes1, j));
        assert(linked_in::<H, A>(nodes2, j));
        lemma_slots_agree::<H, A>(nodes1, nodes2, items, l, 2 * j + 1);
        lemma_slots_agree::<H, A>(nodes1, nodes2, items, l, 2 * j + 2);
    }
}

/// Determinism: two trees built from identical input sequences with the
/// same hashing capability hold, slot for slot, hashes with the same bytes;
/// in particular their roots are identical.
pub proof fn lemma_deterministic_build<H: crate::hashing::Hash, A: Hasher<H>, const N: usize>(
    t1: MerkleTree<H, A, N>,
    t2: MerkleTree<H, A, N>,
    items: Seq<Seq<u8>>,
)
    requires
        t1.built_from(items),
        t2.built_from(items),
    ensures
        forall|j: int| 0 <= j < N ==> (#[trigger] t1@[j].bytes()) == t2@[j].bytes(),
        t1.spec_root() == t2.spec_root(),
        t1@[0] == t2@[0],
{
    let l = t1.spec_leaf_count();
    assert forall|k: int| 0 <= k < l - 1 implies #[trigger] linked_in::<H, A>(t1@, k) by {
        assert(t1.linked_at(k));
    }
    assert forall|k: int| 0 <= k < l - 1 implies #[trigger] linked_in::<H, A>(t2@, k) by {
        assert(t2.linked_at(k));
    }
    assert forall|j: int| 0 <= j < N implies (#[trigger] t1@[j].bytes()) == t2@[j].bytes() by {
        lemma_slots_agree::<H, A>(t1@, t2@, items, l, j);
    }
    H::lemma_bytes_injective(&t1@[0], &t2@[0]);
}

} // verus!

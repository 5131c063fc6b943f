use merkle_tree::{Error, Hashable, Hasher, MerkleTree, Sha256Context, Sha256Digest};

fn sha256_direct(data: &[u8]) -> Sha256Digest {
    let mut hasher = Sha256Context::new();
    hasher.update(data);
    hasher.finish()
}

#[test]
fn single_leaf_root_is_direct_hash() {
    let mt: MerkleTree<Sha256Digest, Sha256Context, 1> =
        MerkleTree::from_slice(&["hello"]).unwrap();
    assert_eq!(mt.n_leaves(), 1);
    let direct = sha256_direct(b"hello");
    assert_eq!(mt.root(), direct);
    assert_eq!(mt.root().as_bytes(), direct.as_bytes());
}

#[test]
fn empty_slice_is_rejected() {
    let no_blocks: [&str; 0] = [];
    let mt_res: Result<MerkleTree<Sha256Digest, Sha256Context, 1>, Error> =
        MerkleTree::from_slice(&no_blocks);
    assert!(matches!(mt_res, Err(Error::NotPowOf2 { n: 1 })));
}

#[test]
fn path_length_is_log2_of_leaf_count() {
    let data = [
        "we",
        "ert",
        "dsf",
        "ewfc",
        "dsfassdaf",
        "fdsqwwefew",
        "eegq3rre",
        "regfsd43",
        "d43grt43r",
        "rv452fgre",
        "3214rgr25143t2rewg23453rgwr234521gt143t2g",
        "r3fwf22d",
        "rqf32534g5312f2f53gf12dere",
        "32rtegwf",
        "3rf4f43rf",
        "j875um78loj6ki7t",
    ];
    let mt: MerkleTree<Sha256Digest, Sha256Context, 31> = MerkleTree::from_slice(&data).unwrap();
    assert_eq!(mt.n_leaves(), 16);
    for i in 0..mt.n_leaves() {
        let mut cursor = mt.path(i).unwrap();
        let mut steps = 0;
        while let Some(_) = cursor.next() {
            steps += 1;
        }
        assert_eq!(steps, 4);
    }
}

#[test]
fn path_rejects_out_of_range_index() {
    let mt: MerkleTree<Sha256Digest, Sha256Context, 3> =
        MerkleTree::from_slice(&["hello", "world"]).unwrap();
    assert!(matches!(mt.path(2), Err(Error::NoSuchleaf { index: 2 })));
    assert!(matches!(mt.path(15), Err(Error::NoSuchleaf { index: 15 })));
    assert!(matches!(
        mt.verify("hello", 2),
        Err(Error::NoSuchleaf { index: 2 })
    ));
    assert!(mt.path(1).is_ok());
}

#[test]
fn identical_inputs_build_identical_roots() {
    let data = ["hello", "world", "merkle", "tree"];
    let t1: MerkleTree<Sha256Digest, Sha256Context, 7> =
        MerkleTree::from_slice(&data).unwrap();
    let t2: MerkleTree<Sha256Digest, Sha256Context, 7> =
        MerkleTree::from_slice(&data).unwrap();
    assert_eq!(t1.root(), t2.root());
    assert_eq!(t1.root().as_bytes(), t2.root().as_bytes());
}

#[test]
fn capacity_must_match_leaf_count_exactly() {
    let four: Result<MerkleTree<Sha256Digest, Sha256Context, 7>, Error> =
        MerkleTree::from_slice(&["a", "b", "c", "d"]);
    assert!(four.is_ok());
    let two: Result<MerkleTree<Sha256Digest, Sha256Context, 7>, Error> =
        MerkleTree::from_slice(&["a", "b"]);
    assert!(matches!(
        two,
        Err(Error::SizeMismatch { required: 7, requested: 3 })
    ));
    let five: Result<MerkleTree<Sha256Digest, Sha256Context, 7>, Error> =
        MerkleTree::from_slice(&["a", "b", "c", "d", "e"]);
    assert!(matches!(five, Err(Error::NotPowOf2 { n: 7 })));
}

#[test]
fn byte_vector_blocks_verify_like_strings() {
    let blocks: [Vec<u8>; 2] = [b"hello".to_vec(), b"world".to_vec()];
    let mt: MerkleTree<Sha256Digest, Sha256Context, 3> =
        MerkleTree::from_slice(&blocks).unwrap();
    let root = b"\x73\x05\xdb\x9b\x2a\xbc\xcd\x70\x6c\x25\x6d\xb3\xd9\x7e\x5f\xf4\x8d\x67\x7c\xfe\x4d\x3a\x59\x04\xaf\xb7\xda\x0e\x39\x50\xe1\xe2";
    assert_eq!(mt.root().as_bytes(), &root[..]);
    assert!(mt.verify(b"hello".to_vec(), 0).unwrap());
    assert!(mt.verify(b"world".to_vec(), 1).unwrap());
    assert!(!mt.verify(b"hello".to_vec(), 1).unwrap());
}

#[test]
fn tampered_block_fails_verification() {
    let data = ["hello", "world", "merkle", "tree"];
    let mt: MerkleTree<Sha256Digest, Sha256Context, 7> =
        MerkleTree::from_slice(&data).unwrap();
    for i in 0..mt.n_leaves() {
        assert!(mt.verify(data[i], i).unwrap());
        assert!(!mt.verify("tampered", i).unwrap());
        assert!(!mt.verify("", i).unwrap());
    }
}

#[test]
fn path_yields_sibling_hashes_in_leaf_to_root_order() {
    let mt: MerkleTree<Sha256Digest, Sha256Context, 3> =
        MerkleTree::from_slice(&["hello", "world"]).unwrap();

    // For leaf 0 the only path element is the sibling leaf, the hash of
    // "world", sitting to the right.
    let mut cursor = mt.path(0).unwrap();
    let (sibling, direction) = cursor.next().unwrap();
    assert_eq!(sibling.as_bytes(), sha256_direct(b"world").as_bytes());
    assert!(matches!(direction, merkle_tree::SiblingDirection::Right));
    assert!(cursor.next().is_none());

    // For leaf 1 it is the hash of "hello", sitting to the left.
    let mut cursor = mt.path(1).unwrap();
    let (sibling, direction) = cursor.next().unwrap();
    assert_eq!(sibling.as_bytes(), sha256_direct(b"hello").as_bytes());
    assert!(matches!(direction, merkle_tree::SiblingDirection::Left));
    assert!(cursor.next().is_none());
}

#[test]
fn string_and_byte_slice_blocks_agree_with_str() {
    let strings: [String; 2] = ["hello".to_string(), "world".to_string()];
    let slices: [&[u8]; 2] = [b"hello", b"world"];
    let from_strings: MerkleTree<Sha256Digest, Sha256Context, 3> =
        MerkleTree::from_slice(&strings).unwrap();
    let from_slices: MerkleTree<Sha256Digest, Sha256Context, 3> =
        MerkleTree::from_slice(&slices).unwrap();
    let root = b"\x73\x05\xdb\x9b\x2a\xbc\xcd\x70\x6c\x25\x6d\xb3\xd9\x7e\x5f\xf4\x8d\x67\x7c\xfe\x4d\x3a\x59\x04\xaf\xb7\xda\x0e\x39\x50\xe1\xe2";
    assert_eq!(from_strings.root().as_bytes(), &root[..]);
    assert_eq!(from_slices.root().as_bytes(), &root[..]);
    assert!(from_strings.verify("hello".to_string(), 0).unwrap());
    assert!(from_slices.verify(&b"world"[..], 1).unwrap());
}

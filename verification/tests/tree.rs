use packet_match_fuzz::merkle::MerkleTree;

fn leaves_abcd() -> Vec<Vec<u8>> {
    vec![b"a".to_vec(), b"b".to_vec(), b"c".to_vec(), b"d".to_vec()]
}

#[test]
fn small_root() {
    let mt = MerkleTree::from_leaves(&leaves_abcd());
    let root = mt.root().unwrap();
    println!("root = {:x?}", root);
    assert!(root.len() == 32);
}

#[test]
fn proof_roundtrip() {
    let mt = MerkleTree::from_leaves(&leaves_abcd());
    let root = mt.root().unwrap();

    for (i, s) in ["a", "b", "c", "d"].iter().enumerate() {
        let path = mt.auth_path(i);
        assert!(MerkleTree::verify(root, s.as_bytes(), &path, i));
    }
}

#[test]
fn empty_tree_has_no_root() {
    let mt = MerkleTree::from_leaves(&Vec::new());
    assert!(mt.root().is_none());
}

#[test]
fn single_leaf_root_is_its_digest() {
    let mt = MerkleTree::from_leaves(&vec![b"a".to_vec()]);
    let root = mt.root().unwrap();
    let expected: [u8; 32] = [
        0xca, 0x97, 0x81, 0x12, 0xca, 0x1b, 0xbd, 0xca, 0xfa, 0xc2, 0x31, 0xb3, 0x9a, 0x23, 0xdc,
        0x4d, 0xa7, 0x86, 0xef, 0xf8, 0x14, 0x7c, 0x4e, 0x72, 0xb9, 0x80, 0x77, 0x85, 0xaf, 0xee,
        0x48, 0xbb,
    ];
    assert_eq!(root, expected);
    // A single-leaf tree has an empty authentication path.
    let path = mt.auth_path(0);
    assert!(path.is_empty());
    assert!(MerkleTree::verify(root, b"a", &path, 0));
}

#[test]
fn odd_leaf_count_roundtrip() {
    let leaves = vec![b"x".to_vec(), b"y".to_vec(), b"z".to_vec()];
    let mt = MerkleTree::from_leaves(&leaves);
    let root = mt.root().unwrap();
    for (i, leaf) in leaves.iter().enumerate() {
        let path = mt.auth_path(i);
        assert!(MerkleTree::verify(root, leaf, &path, i));
    }
}

#[test]
fn verify_rejects_wrong_leaf_and_wrong_index() {
    let mt = MerkleTree::from_leaves(&leaves_abcd());
    let root = mt.root().unwrap();
    let path = mt.auth_path(1);
    assert!(MerkleTree::verify(root, b"b", &path, 1));
    assert!(!MerkleTree::verify(root, b"x", &path, 1));
    assert!(!MerkleTree::verify(root, b"b", &path, 2));
}

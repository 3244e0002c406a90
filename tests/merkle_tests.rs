use merkle_tree::digest::{hash_pair, hash_value};
use merkle_tree::{MerkleNode, MerkleTree};
use sha2::{Digest, Sha256};

fn leaves_of(values: &[&[u8]]) -> Vec<MerkleNode> {
    values.iter().map(|v| MerkleNode::new_leaf(v)).collect()
}

#[test]
fn test_leaf_creation() {
    let data = b"test data";
    let leaf = MerkleNode::new_leaf(data);

    assert!(leaf.is_leaf());
    assert_eq!(leaf.hash.len(), 32);
}

#[test]
fn test_parent_creation() {
    let left = MerkleNode::new_leaf(b"left");
    let right = MerkleNode::new_leaf(b"right");
    let parent = MerkleNode::new_parent(left.clone(), right.clone());

    assert!(!parent.is_leaf());
    assert_eq!(parent.left.as_ref().unwrap().hash, left.hash);
    assert_eq!(parent.right.as_ref().unwrap().hash, right.hash);
}

#[test]
fn test_tree_building() {
    let leaves = vec![
        MerkleNode::new_leaf(b"data1"),
        MerkleNode::new_leaf(b"data2"),
        MerkleNode::new_leaf(b"data3"),
    ];

    let tree = MerkleTree::from_leaves(leaves);

    assert_eq!(tree.leaf_count(), 3);
    assert!(tree.root().is_some());
    assert!(tree.root_hash().is_some());
}

#[test]
fn test_empty_tree() {
    let tree = MerkleTree::new();

    assert_eq!(tree.leaf_count(), 0);
    assert!(tree.root().is_none());
    assert!(tree.root_hash().is_none());
}

#[test]
fn sha256_of_abc_matches_known_digest() {
    let d = hash_value(b"abc");
    assert_eq!(
        hex::encode(&d),
        "ba7816bf8f01cfea414140de5dae2223b00361a396177a9cb410ff61f20015ad"
    );
}

#[test]
fn leaf_digest_is_sha256_of_value() {
    let leaf = MerkleNode::new_leaf(b"hello");
    assert_eq!(leaf.root_hash(), Sha256::digest(b"hello").as_slice());
}

#[test]
fn parent_digest_is_hash_of_concatenation() {
    let l = hash_value(b"l");
    let r = hash_value(b"r");
    let mut cat = l.clone();
    cat.extend_from_slice(&r);
    assert_eq!(hash_pair(&l, &r), Sha256::digest(&cat).to_vec());
    assert_ne!(hash_pair(&l, &r), hash_pair(&r, &l));
}

#[test]
fn single_leaf_root_is_leaf_digest() {
    let tree = MerkleTree::from_leaves(leaves_of(&[b"only"]));
    assert_eq!(tree.leaf_count(), 1);
    assert_eq!(tree.root_hash().unwrap(), hash_value(b"only"));
    assert!(tree.root().unwrap().is_leaf());
}

#[test]
fn two_leaf_root_combines_both() {
    let tree = MerkleTree::from_leaves(leaves_of(&[b"a", b"b"]));
    let expected = hash_pair(&hash_value(b"a"), &hash_value(b"b"));
    assert_eq!(tree.root_hash().unwrap(), expected);
}

#[test]
fn odd_leaf_is_paired_with_itself() {
    let tree = MerkleTree::from_leaves(leaves_of(&[b"a", b"b", b"c"]));
    let ab = hash_pair(&hash_value(b"a"), &hash_value(b"b"));
    let cc = hash_pair(&hash_value(b"c"), &hash_value(b"c"));
    assert_eq!(tree.root_hash().unwrap(), hash_pair(&ab, &cc));
}

#[test]
fn duplication_applies_at_every_level() {
    let tree = MerkleTree::from_leaves(leaves_of(&[b"a", b"b", b"c", b"d", b"e"]));
    let h = |v: &[u8]| hash_value(v);
    let ab = hash_pair(&h(b"a"), &h(b"b"));
    let cd = hash_pair(&h(b"c"), &h(b"d"));
    let ee = hash_pair(&h(b"e"), &h(b"e"));
    let abcd = hash_pair(&ab, &cd);
    let eeee = hash_pair(&ee, &ee);
    assert_eq!(tree.root_hash().unwrap(), hash_pair(&abcd, &eeee));
}

#[test]
fn building_twice_gives_same_root() {
    let values: [&[u8]; 4] = [b"x", b"y", b"z", b"w"];
    let t1 = MerkleTree::from_leaves(leaves_of(&values));
    let t2 = MerkleTree::from_leaves(leaves_of(&values));
    assert_eq!(t1.root_hash(), t2.root_hash());
    assert_eq!(hash_value(b"x"), hash_value(b"x"));
}

#[test]
fn default_tree_is_empty() {
    let tree = MerkleTree::default();
    assert_eq!(tree.leaf_count(), 0);
    assert!(tree.root_hash().is_none());
}

#[test]
fn cloned_tree_keeps_root_and_count() {
    let tree = MerkleTree::from_leaves(leaves_of(&[b"a", b"b", b"c"]));
    let copy = tree.clone();
    assert_eq!(copy.leaf_count(), 3);
    assert_eq!(copy.root_hash(), tree.root_hash());
}

use crypto::digest::Digest;
use crypto::sha3::Sha3;
use merkle_tree::{CreationError, MerkleTree};

fn calculate_hash(input: &[u8]) -> [u8; 32] {
    let mut hasher = Sha3::keccak256();
    hasher.input(input);
    let mut output = [0u8; 32];
    hasher.result(&mut output);
    output
}

#[test]
fn build_from_empty_array() {
    let tree = MerkleTree::build_from(vec![]);
    assert!(tree.is_err());
    assert_eq![tree, Err(CreationError::Empty)];
}

#[test]
fn build_from_one_element_is_ok() {
    let tree = MerkleTree::build_from(vec!["foo".into()]);
    assert!(tree.is_ok());
    let tree = tree.unwrap();
    assert_eq![tree.count_leaves(), 1];
}

#[test]
fn build_from_one_element_root_is_ok() {
    let root = calculate_hash("foo".as_bytes());

    let tree = MerkleTree::build_from(vec!["foo".into()]);
    let tree = tree.unwrap();

    assert_eq![tree.count_leaves(), 1];
    assert_eq![tree.get_root(), root];
}

#[test]
fn build_from_four_elements_root_is_ok() {
    //manually get the hashes of all inputs
    let foo_hash = calculate_hash("foo".as_bytes());
    let bar_hash = calculate_hash("bar".as_bytes());
    let hello_hash = calculate_hash("hello".as_bytes());
    let world_hash = calculate_hash("world!".as_bytes());

    //manually get the hashes of the parents
    let root1 = calculate_hash(&[foo_hash, bar_hash].concat());
    let root2 = calculate_hash(&[hello_hash, world_hash].concat());

    //manually get the root
    let root = calculate_hash(&[root1, root2].concat());

    //build the tree
    let tree = MerkleTree::build_from(vec![
        "foo".into(),
        "bar".into(),
        "hello".into(),
        "world!".into(),
    ]);

    assert!(tree.is_ok());
    let tree = tree.unwrap();
    assert_eq![tree.count_leaves(), 4];
    assert_eq![tree.get_root(), root];
}

#[test]
fn build_from_three_elements_root_is_ok() {
    //manually get the hashes of all inputs
    let foo_hash = calculate_hash("foo".as_bytes());
    let bar_hash = calculate_hash("bar".as_bytes());
    let hello_hash = calculate_hash("hello".as_bytes());

    //manually get the hashes of the parents
    let root1 = calculate_hash(&[foo_hash, bar_hash].concat());
    let root2 = calculate_hash(&[hello_hash, hello_hash].concat());

    //manually get the root
    let root = calculate_hash(&[root1, root2].concat());

    //build the tree
    let tree = MerkleTree::build_from(vec!["foo".into(), "bar".into(), "hello".into()]);

    assert!(tree.is_ok());
    let tree = tree.unwrap();
    assert_eq![tree.count_leaves(), 3];
    assert_eq![tree.get_root(), root];
}

#[test]
fn build_from_one_element_adds_two() {
    //manually get the hashes of all inputs
    let foo_hash = calculate_hash("foo".as_bytes());
    let bar_hash = calculate_hash("bar".as_bytes());
    let hello_hash = calculate_hash("hello".as_bytes());

    //manually get the hashes of the parents
    let root1 = calculate_hash(&[foo_hash, bar_hash].concat());
    let root2 = calculate_hash(&[hello_hash, hello_hash].concat());

    //manually get the final root
    let root = calculate_hash(&[root1, root2].concat());

    //build the tree with one element
    let tree = MerkleTree::build_from(vec!["foo".into()]);
    let mut tree = tree.unwrap();

    assert_eq![tree.count_leaves(), 1];
    assert_eq![tree.get_root(), foo_hash];

    //add two
    tree.add_leaves(vec!["bar".into(), "hello".into()]);

    assert_eq![tree.count_leaves(), 3];
    assert_eq![tree.get_root(), root];
}

#[test]
fn build_from_one_element_two_inserts() {
    //manually get the hashes of all inputs
    let foo_hash = calculate_hash("foo".as_bytes());
    let bar_hash = calculate_hash("bar".as_bytes());
    let hello_hash = calculate_hash("hello".as_bytes());

    //manually get the hashes of the parents
    let root1 = calculate_hash(&[foo_hash, bar_hash].concat());
    let root2 = calculate_hash(&[hello_hash, hello_hash].concat());

    //manually get the final root
    let root = calculate_hash(&[root1, root2].concat());

    //build the tree with one element
    let tree = MerkleTree::build_from(vec!["foo".into()]);
    let mut tree = tree.unwrap();
    assert_eq![tree.count_leaves(), 1];
    assert_eq![tree.get_root(), foo_hash];

    //first insert
    tree.add_leaves(vec!["bar".into()]);

    assert_eq![tree.count_leaves(), 2];
    assert_eq![tree.get_root(), root1];

    //second insert
    tree.add_leaves(vec!["hello".into()]);

    assert_eq![tree.count_leaves(), 3];
    assert_eq![tree.get_root(), root];
}

#[test]
fn generate_proof_even_index() {
    //manually get the hashes of all inputs
    let foo_hash = calculate_hash("foo".as_bytes());
    let bar_hash = calculate_hash("bar".as_bytes());
    let hello_hash = calculate_hash("hello".as_bytes());
    let world_hash = calculate_hash("world!".as_bytes());

    //manually get the hashes of the parents
    let root1 = calculate_hash(&[foo_hash, bar_hash].concat());
    let root2 = calculate_hash(&[hello_hash, world_hash].concat());

    //manually get the root
    let root = calculate_hash(&[root1, root2].concat());

    //build the tree
    let tree = MerkleTree::build_from(vec![
        "foo".into(),
        "bar".into(),
        "hello".into(),
        "world!".into(),
    ]);
    let mut tree = tree.unwrap();
    assert_eq![tree.count_leaves(), 4];
    assert_eq![tree.get_root(), root];

    let (proof, index) = tree.contains_leaf(hello_hash.clone()).unwrap();
    assert_eq!(index, 2);
    assert!(MerkleTree::verify(
        proof.clone(),
        root.clone(),
        hello_hash.clone(),
        index
    ));
    assert!(!MerkleTree::verify(proof.clone(), root.clone(), hello_hash, 3));
    assert!(!MerkleTree::verify(
        proof.clone(),
        root.clone(),
        bar_hash,
        index
    ));
    assert!(!MerkleTree::verify(
        proof.clone(),
        root.clone(),
        world_hash,
        index
    ));
    assert!(!MerkleTree::verify(proof, root, foo_hash, index));
}

#[test]
fn generate_proof_odd_index() {
    //manually get the hashes of all inputs
    let foo_hash = calculate_hash("foo".as_bytes());
    let bar_hash = calculate_hash("bar".as_bytes());
    let hello_hash = calculate_hash("hello".as_bytes());
    let world_hash = calculate_hash("world!".as_bytes());

    //manually get the hashes of the parents
    let root1 = calculate_hash(&[foo_hash, bar_hash].concat());
    let root2 = calculate_hash(&[hello_hash, world_hash].concat());

    //manually get the root
    let root = calculate_hash(&[root1, root2].concat());

    //build the tree
    let tree = MerkleTree::build_from(vec![
        "foo".into(),
        "bar".into(),
        "hello".into(),
        "world!".into(),
    ]);
    let mut tree = tree.unwrap();
    assert_eq![tree.count_leaves(), 4];
    assert_eq![tree.get_root(), root];

    let (proof, index) = tree.contains_leaf(foo_hash.clone()).unwrap();
    assert_eq!(index, 0);
    assert!(MerkleTree::verify(
        proof.clone(),
        root.clone(),
        foo_hash.clone(),
        index
    ));
    assert!(!MerkleTree::verify(proof.clone(), root.clone(), foo_hash, 3));
    assert!(!MerkleTree::verify(
        proof.clone(),
        root.clone(),
        bar_hash,
        index
    ));
    assert!(!MerkleTree::verify(
        proof.clone(),
        root.clone(),
        world_hash,
        index
    ));
    assert!(!MerkleTree::verify(proof, root, hello_hash, index));
}

#[test]
fn generate_proof_three_leaves() {
    //manually get the hashes of all inputs
    let foo_hash = calculate_hash("foo".as_bytes());
    let bar_hash = calculate_hash("bar".as_bytes());
    let hello_hash = calculate_hash("hello".as_bytes());

    //manually get the hashes of the parents
    let root1 = calculate_hash(&[foo_hash, bar_hash].concat());
    let root2 = calculate_hash(&[hello_hash, hello_hash].concat());

    //manually get the root
    let root = calculate_hash(&[root1, root2].concat());

    //build the tree
    let tree = MerkleTree::build_from(vec!["foo".into(), "bar".into(), "hello".into()]);
    let mut tree = tree.unwrap();
    assert_eq![tree.count_leaves(), 3];
    assert_eq![tree.get_root(), root];

    let (proof, index) = tree.contains_leaf(foo_hash.clone()).unwrap();
    assert_eq!(index, 0);
    assert!(MerkleTree::verify(
        proof.clone(),
        root.clone(),
        foo_hash.clone(),
        index
    ));
    assert!(!MerkleTree::verify(proof.clone(), root.clone(), foo_hash, 3));
    assert!(!MerkleTree::verify(
        proof.clone(),
        root.clone(),
        bar_hash,
        index
    ));
    assert!(!MerkleTree::verify(proof, root, hello_hash, index));
}

#[test]
fn generate_proof_three_leaves_at_index_two() {
    //manually get the hashes of all inputs
    let foo_hash = calculate_hash("foo".as_bytes());
    let bar_hash = calculate_hash("bar".as_bytes());
    let hello_hash = calculate_hash("hello".as_bytes());

    //manually get the hashes of the parents
    let root1 = calculate_hash(&[foo_hash, bar_hash].concat());
    let root2 = calculate_hash(&[hello_hash, hello_hash].concat());

    //manually get the root
    let root = calculate_hash(&[root1, root2].concat());

    //build the tree
    let tree = MerkleTree::build_from(vec!["foo".into(), "bar".into(), "hello".into()]);
    let mut tree = tree.unwrap();
    assert_eq![tree.count_leaves(), 3];
    assert_eq![tree.get_root(), root];

    let (proof, index) = tree.contains_leaf(hello_hash.clone()).unwrap();
    assert_eq!(index, 2);
    assert!(MerkleTree::verify(
        proof.clone(),
        root.clone(),
        hello_hash.clone(),
        index
    ));
    assert!(!MerkleTree::verify(proof.clone(), root.clone(), foo_hash, 2));
    assert!(!MerkleTree::verify(
        proof.clone(),
        root.clone(),
        bar_hash,
        index
    ));
}

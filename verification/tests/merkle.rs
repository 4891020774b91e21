use zk_sumcheck::field::Field128;
use zk_sumcheck::merkle_tree::{Direction, Merkle, MerkleInclusionPathError};

#[test]
fn test_open_verify() {
    let data: Vec<[u8; 1]> = vec![[0], [8], [4], [1], [5], [7], [6], [1]];
    let merkle_tree = Merkle::commit(data);

    println!("Merkle Root:\n {:x?}", merkle_tree.root());
    let proof = merkle_tree.open(5).unwrap();
    println!("Inclusion Path for index 5:\n {proof:x?}");
    proof.verify(&merkle_tree.root(), 5).unwrap();
}

#[test]
fn merkle_every_opening_verifies() {
    let data: Vec<Field128> = (0..16).map(Field128::from_u64).collect();
    let tree = Merkle::commit(data);
    assert_eq!(tree.layers.len(), 5);
    for i in 0..16 {
        let p = tree.open(i).unwrap();
        assert_eq!(p.path.len(), 4);
        assert_eq!(p.value, Field128::from_u64(i as u64));
        assert!(p.verify(&tree.root(), i).is_ok());
    }
    assert!(tree.open(16).is_none());
}

#[test]
fn merkle_path_directions_spell_the_index() {
    let data: Vec<[u8; 2]> = (0..8u8).map(|i| [i, i]).collect();
    let tree = Merkle::commit(data);
    let p = tree.open(6).unwrap();
    let dirs: Vec<Direction> = p.path.iter().map(|e| e.1).collect();
    assert_eq!(dirs, vec![Direction::Right, Direction::Left, Direction::Left]);
}

#[test]
fn merkle_wrong_root_is_rejected() {
    let data: Vec<[u8; 1]> = vec![[0], [8], [4], [1]];
    let tree = Merkle::commit(data);
    let p = tree.open(2).unwrap();
    let mut bad_root = tree.root();
    bad_root[0] ^= 1;
    match p.verify(&bad_root, 2) {
        Err(MerkleInclusionPathError::IncompatibleHash(expected, found)) => {
            assert_eq!(expected, bad_root);
            assert_eq!(found, tree.root());
        }
        other => panic!("unexpected {:?}", other),
    }
}

#[test]
fn merkle_wrong_index_is_rejected() {
    let data: Vec<[u8; 1]> = vec![[0], [8], [4], [1]];
    let tree = Merkle::commit(data);
    let p = tree.open(2).unwrap();
    match p.verify(&tree.root(), 3) {
        Err(MerkleInclusionPathError::IncompatibleIndex(expected, found)) => {
            assert_eq!(expected, 3);
            assert_eq!(found, 2);
        }
        other => panic!("unexpected {:?}", other),
    }
}

#[test]
fn merkle_single_leaf() {
    let tree = Merkle::commit(vec![[9u8; 3]]);
    assert_eq!(tree.layers.len(), 1);
    let p = tree.open(0).unwrap();
    assert!(p.path.is_empty());
    assert!(p.verify(&tree.root(), 0).is_ok());
}

#[test]
fn inclusion_error_messages() {
    let e = MerkleInclusionPathError::IncompatibleIndex(4, 5);
    assert_eq!(e.message(), "Incompatible index. Expected 4, found 5");
    let mut h1 = [0u8; 32];
    h1[0] = 0xba;
    h1[1] = 0x07;
    let h2 = [0x10u8; 32];
    let text = MerkleInclusionPathError::IncompatibleHash(h1, h2).message();
    assert_eq!(text, format!("Incompatible hash. Expected {h1:x?}, found {h2:x?}"));
    assert!(text.starts_with("Incompatible hash. Expected [ba, 7, 0,"));
}

use merkle_tree::{
    concatenate_and_hash, hash_data, verify_proof, Data, Error, MerkleTree, Side,
};

fn items_of(words: &[&str]) -> Vec<Data> {
    words.iter().map(|w| String::from(*w).into_bytes()).collect()
}

#[test]
fn create_two_levels_merkle_tree() {
    let items = vec![
        String::from("a").into_bytes(),
        String::from("b").into_bytes(),
        String::from("c").into_bytes(),
    ];

    let merkle_tree = MerkleTree::construct_by_input(&items);
    // 4 leaves (3 items and 1 padding), 2 inner nodes and the root: 7 nodes.
    assert_eq!(merkle_tree.node_count(), 7);
}

#[test]
fn create_three_levels_merkle_tree() {
    let items = vec![
        String::from("a").into_bytes(),
        String::from("b").into_bytes(),
        String::from("c").into_bytes(),
        String::from("d").into_bytes(),
        String::from("e").into_bytes(),
    ];

    let merkle_tree = MerkleTree::construct_by_input(&items);
    // 8 leaves (5 items and 3 padding), 4 + 2 inner nodes and the root: 15 nodes.
    assert_eq!(merkle_tree.node_count(), 15);
}

#[test]
fn verify_merkle_tree() {
    let items = vec![
        String::from("a").into_bytes(),
        String::from("b").into_bytes(),
        String::from("c").into_bytes(),
        String::from("d").into_bytes(),
        String::from("e").into_bytes(),
    ];

    let merkle_tree = MerkleTree::construct_by_input(&items);

    assert!(MerkleTree::verify(&items, merkle_tree.root_hash()));
}

#[test]
fn verify_rejects_other_items() {
    let items = items_of(&["a", "b", "c", "d", "e"]);
    let tree = MerkleTree::construct_by_input(&items);
    let mut more = items.clone();
    more.push(String::from("f").into_bytes());
    assert!(!MerkleTree::verify(&more, tree.root_hash()));
}

#[test]
fn three_items_shape() {
    let tree = MerkleTree::construct_by_input(&items_of(&["a", "b", "c"]));
    assert_eq!(tree.get_number_of_leaves(), 4);
    assert_eq!(tree.leaves().len(), 4);
    assert_eq!(tree.levels(), 2);
    assert_eq!(tree.node_count(), 7);
}

#[test]
fn five_items_shape_and_proof_lengths() {
    let tree = MerkleTree::construct_by_input(&items_of(&["a", "b", "c", "d", "e"]));
    assert_eq!(tree.get_number_of_leaves(), 8);
    assert_eq!(tree.levels(), 3);
    assert_eq!(tree.node_count(), 15);
    for index in 0..8 {
        let proof = tree.get_merkle_proof_by_leaf_index(index).unwrap();
        assert_eq!(proof.len(), 3);
    }
}

#[test]
fn proof_of_first_item_verifies_against_its_root_only() {
    let tree = MerkleTree::construct_by_input(&items_of(&["a", "b", "c", "d", "e"]));
    let proof = tree.get_merkle_proof_by_leaf_index(0).unwrap();
    let a = String::from("a").into_bytes();
    assert!(verify_proof(&a, &proof, &tree.root_hash()));

    let other = MerkleTree::construct_by_input(&items_of(&["a", "b", "c", "d", "x"]));
    assert!(!verify_proof(&a, &proof, &other.root_hash()));
}

#[test]
fn index_past_the_leaves_is_rejected() {
    let tree = MerkleTree::construct_by_input(&items_of(&["a", "b", "c", "d", "e"]));
    assert_eq!(
        tree.get_merkle_proof_by_leaf_index(15),
        Err(Error::InvalidLeafIndex)
    );
    assert_eq!(
        tree.get_merkle_proof_by_leaf_index(8),
        Err(Error::InvalidLeafIndex)
    );
    assert!(tree.get_merkle_proof_by_leaf_index(7).is_ok());
}

#[test]
fn every_item_is_proved_by_its_proof() {
    for n in 1..=9 {
        let words: Vec<String> = (0..n).map(|i| format!("item{}", i)).collect();
        let items: Vec<Data> = words.iter().map(|w| w.clone().into_bytes()).collect();
        let tree = MerkleTree::construct_by_input(&items);
        let root = tree.root_hash();
        for (index, item) in items.iter().enumerate() {
            let proof = tree.get_merkle_proof_by_leaf_index(index).unwrap();
            assert!(verify_proof(item, &proof, &root));
            let wrong = String::from("not an item").into_bytes();
            assert!(!verify_proof(&wrong, &proof, &root));
        }
    }
}

#[test]
fn build_is_deterministic() {
    let items = items_of(&["x", "y", "z"]);
    let first = MerkleTree::construct_by_input(&items);
    let second = MerkleTree::construct_by_input(&items.clone());
    assert_eq!(first.root_hash(), second.root_hash());
}

#[test]
fn changing_one_byte_changes_the_root() {
    let items = items_of(&["alpha", "beta", "gamma", "delta", "epsilon"]);
    let root = MerkleTree::construct_by_input(&items).root_hash();
    for which in 0..items.len() {
        for at in 0..items[which].len() {
            let mut changed = items.clone();
            changed[which][at] ^= 0x01;
            let other = MerkleTree::construct_by_input(&changed).root_hash();
            assert_ne!(root, other);
        }
    }
}

#[test]
fn proof_by_data_finds_the_first_match() {
    let items = items_of(&["a", "b", "a", "c"]);
    let tree = MerkleTree::construct_by_input(&items);
    let by_data = tree
        .get_merkle_proof_by_data(String::from("a").into_bytes())
        .unwrap();
    let by_index = tree.get_merkle_proof_by_leaf_index(0).unwrap();
    assert_eq!(by_data, by_index);
    let c = tree
        .get_merkle_proof_by_data(String::from("c").into_bytes())
        .unwrap();
    assert_eq!(c, tree.get_merkle_proof_by_leaf_index(3).unwrap());
    assert_eq!(c.len(), 2);
}

#[test]
fn proof_by_data_for_absent_data_fails() {
    let tree = MerkleTree::construct_by_input(&items_of(&["a", "b", "c", "d", "e"]));
    assert_eq!(
        tree.get_merkle_proof_by_data(String::from("f").into_bytes()),
        Err(Error::DataNotFound)
    );
}

#[test]
fn padding_is_never_found_by_data() {
    let tree = MerkleTree::construct_by_input(&items_of(&["a", "b", "c"]));
    let zeros: Data = vec![0u8; 32];
    assert_eq!(tree.leaves()[3].hash, hash_data(&zeros));
    assert_eq!(
        tree.get_merkle_proof_by_data(zeros),
        Err(Error::DataNotFound)
    );
}

#[test]
fn empty_input_gives_one_padding_leaf() {
    let tree = MerkleTree::construct_by_input(&[]);
    assert_eq!(tree.get_number_of_leaves(), 1);
    assert_eq!(tree.levels(), 0);
    assert_eq!(tree.node_count(), 1);
    assert_eq!(tree.root_hash(), hash_data(&vec![0u8; 32]));
    assert_eq!(tree.get_merkle_proof_by_leaf_index(0).unwrap().len(), 0);
    assert_eq!(
        tree.get_merkle_proof_by_data(vec![0u8; 32]),
        Err(Error::DataNotFound)
    );
}

#[test]
fn single_item_root_is_its_digest() {
    let item = String::from("only").into_bytes();
    let tree = MerkleTree::construct_by_input(&[item.clone()]);
    assert_eq!(tree.get_number_of_leaves(), 1);
    assert_eq!(tree.root_hash(), hash_data(&item));
    let proof = tree.get_merkle_proof_by_data(item.clone()).unwrap();
    assert!(proof.is_empty());
    assert!(verify_proof(&item, &proof, &tree.root_hash()));
}

#[test]
fn node_count_is_twice_the_leaves_less_one() {
    for n in 0..=17usize {
        let items: Vec<Data> = (0..n).map(|i| vec![i as u8, 7]).collect();
        let tree = MerkleTree::construct_by_input(&items);
        let leaves = tree.get_number_of_leaves();
        assert!(leaves.is_power_of_two());
        assert!(leaves >= n);
        assert!(leaves < 2 * n.max(1));
        assert_eq!(tree.node_count(), 2 * leaves - 1);
    }
}

#[test]
fn two_items_root_combines_the_leaves() {
    let a = String::from("a").into_bytes();
    let b = String::from("b").into_bytes();
    let tree = MerkleTree::construct_by_input(&[a.clone(), b.clone()]);
    let (ha, hb) = (hash_data(&a), hash_data(&b));
    assert_eq!(tree.root_hash(), concatenate_and_hash(&ha, &hb));
    assert_ne!(tree.root_hash(), concatenate_and_hash(&hb, &ha));

    let proof_a = tree.get_merkle_proof_by_leaf_index(0).unwrap();
    assert_eq!(proof_a.len(), 1);
    assert_eq!(proof_a[0].sibling, hb);
    assert_eq!(proof_a[0].side, Side::Right);
    let proof_b = tree.get_merkle_proof_by_leaf_index(1).unwrap();
    assert_eq!(proof_b[0].sibling, ha);
    assert_eq!(proof_b[0].side, Side::Left);
}

#[test]
fn digests_are_decimal_text_of_the_hash() {
    let a = String::from("a").into_bytes();
    let digest = hash_data(&a);
    assert!(!digest.is_empty());
    assert!(digest.chars().all(|c| c.is_ascii_digit()));
    assert!(digest == "0" || !digest.starts_with('0'));
    assert!(digest.parse::<u64>().is_ok());
    assert_ne!(digest.as_bytes(), a.as_slice());
    assert_eq!(digest, hash_data(&a));
    assert_ne!(digest, hash_data(&String::from("b").into_bytes()));
}

#[test]
fn combining_hashes_the_joined_text() {
    let left = hash_data(&String::from("l").into_bytes());
    let right = hash_data(&String::from("r").into_bytes());
    let joined = format!("{}{}", left, right).into_bytes();
    assert_eq!(concatenate_and_hash(&left, &right), hash_data(&joined));
    assert_ne!(concatenate_and_hash(&left, &right), format!("{}{}", left, right));
}

#[test]
fn node_index_counts_leaves_first() {
    let tree = MerkleTree::construct_by_input(&items_of(&["a", "b", "c"]));
    let leaf_a = hash_data(&String::from("a").into_bytes());
    assert_eq!(tree.get_node_index(leaf_a), Some(0));
    assert_eq!(tree.get_node_index(tree.root_hash()), Some(6));
    assert_eq!(tree.get_node_index(String::from("no such digest")), None);
}

#[test]
fn tampered_proof_fails() {
    let tree = MerkleTree::construct_by_input(&items_of(&["a", "b", "c", "d"]));
    let mut proof = tree.get_merkle_proof_by_leaf_index(2).unwrap();
    let c = String::from("c").into_bytes();
    assert!(verify_proof(&c, &proof, &tree.root_hash()));
    proof[0].side = Side::Left;
    assert!(!verify_proof(&c, &proof, &tree.root_hash()));
}

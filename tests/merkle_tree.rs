use merkle::inclusion::{generate_proof, verify_proof, ProofStep};
use merkle::oracle::{hash, HashOracle, StdHash};
use merkle::tree::{create_merkle_tree, MerkleError, MerkleTree};

fn items_of(words: &[&str]) -> Vec<Vec<u8>> {
    words.iter().map(|w| w.as_bytes().to_vec()).collect()
}

fn build(words: &[&str]) -> MerkleTree {
    create_merkle_tree(&StdHash, &items_of(words)).expect("non-empty input")
}

fn joined(a: &[u8], b: &[u8]) -> Vec<u8> {
    let mut v = a.to_vec();
    v.extend_from_slice(b);
    v
}

#[test]
fn hash_gives_eight_bytes_unlike_its_input() {
    let input = b"a string longer than eight bytes";
    let d = hash(input);
    assert_eq!(d.len(), 8);
    assert_ne!(d.as_slice(), &input[..8]);
    assert_eq!(hash(b"").len(), 8);
    assert_ne!(hash(b"A"), hash(b"B"));
    assert_ne!(hash(b"A"), b"A".to_vec());
}

#[test]
fn hash_is_deterministic_and_matches_oracle() {
    assert_eq!(hash(b"C"), hash(b"C"));
    assert_eq!(StdHash.digest(b"C"), hash(b"C"));
}

#[test]
fn build_is_deterministic() {
    let words = ["alpha", "beta", "gamma", "delta", "epsilon"];
    let a = build(&words);
    let b = build(&words);
    assert_eq!(a.root(), b.root());
    assert_eq!(a.level_count(), b.level_count());
    for k in 0..a.level_count() {
        for j in 0..a.level_width(k) {
            assert_eq!(a.node(k, j), b.node(k, j));
        }
    }
}

#[test]
fn singleton_root_is_hash_of_item() {
    let t = build(&["only"]);
    assert_eq!(t.level_count(), 1);
    assert_eq!(t.height(), 0);
    assert_eq!(t.leaf_count(), 1);
    assert_eq!(t.root(), hash(b"only"));
    let p = generate_proof(&t, 0).unwrap();
    assert!(p.is_empty());
    assert!(verify_proof(&StdHash, &p, &t.root(), b"only"));
}

#[test]
fn round_trip_for_every_leaf_of_many_sizes() {
    for n in 1..=17usize {
        let words: Vec<String> = (0..n).map(|i| format!("item-{}", i)).collect();
        let items: Vec<Vec<u8>> = words.iter().map(|w| w.as_bytes().to_vec()).collect();
        let t = create_merkle_tree(&StdHash, &items).unwrap();
        assert_eq!(t.leaf_count(), n);
        for i in 0..n {
            let p = generate_proof(&t, i).unwrap();
            assert_eq!(p.len(), t.height());
            assert!(verify_proof(&StdHash, &p, &t.root(), &items[i]));
        }
    }
}

#[test]
fn level_widths_halve_rounding_up() {
    let t = build(&["1", "2", "3", "4", "5", "6", "7"]);
    let widths: Vec<usize> = (0..t.level_count()).map(|k| t.level_width(k)).collect();
    assert_eq!(widths, vec![7, 4, 2, 1]);
}

#[test]
fn changing_one_item_usually_changes_root() {
    let words = ["a", "b", "c", "d", "e", "f"];
    let base = build(&words).root();
    let mut differs = 0;
    for i in 0..words.len() {
        let mut items = items_of(&words);
        items[i] = b"changed".to_vec();
        let t = create_merkle_tree(&StdHash, &items).unwrap();
        if t.root() != base {
            differs += 1;
        }
    }
    assert!(differs >= words.len() - 1);
}

#[test]
fn permuting_items_changes_root() {
    assert_ne!(build(&["A", "B", "C"]).root(), build(&["B", "A", "C"]).root());
}

#[test]
fn odd_tail_is_paired_with_itself() {
    let t = build(&["x", "y", "z"]);
    assert_eq!(t.height(), 2);
    assert_eq!(t.level_width(1), 2);
    let p = generate_proof(&t, 2).unwrap();
    assert_eq!(p.len(), 2);
    assert_eq!(p[0].sibling, hash(b"z"));
    assert!(p[0].sibling_on_right);
    let zz = hash(&joined(&hash(b"z"), &hash(b"z")));
    assert_eq!(t.node(1, 1), zz);
    assert!(verify_proof(&StdHash, &p, &t.root(), b"z"));
}

#[test]
fn flipping_any_bit_of_a_proof_is_detected() {
    let t = build(&["A", "B", "C", "D", "E"]);
    let root = t.root();
    for i in 0..t.leaf_count() {
        let leaf = ["A", "B", "C", "D", "E"][i].as_bytes();
        let p = generate_proof(&t, i).unwrap();
        for k in 0..p.len() {
            for byte in 0..p[k].sibling.len() {
                for bit in 0..8 {
                    let mut q = p.clone();
                    q[k].sibling[byte] ^= 1u8 << bit;
                    assert!(!verify_proof(&StdHash, &q, &root, leaf));
                }
            }
        }
    }
}

#[test]
fn other_root_is_rejected() {
    let t = build(&["A", "B", "C", "D", "E"]);
    let p = generate_proof(&t, 1).unwrap();
    for k in 0..t.level_count() - 1 {
        for j in 0..t.level_width(k) {
            assert!(!verify_proof(&StdHash, &p, &t.node(k, j), b"B"));
        }
    }
    let mut root = t.root();
    root[0] ^= 1;
    assert!(!verify_proof(&StdHash, &p, &root, b"B"));
}

#[test]
fn wrong_leaf_or_wrong_length_is_rejected() {
    let t = build(&["A", "B", "C", "D"]);
    let p = generate_proof(&t, 0).unwrap();
    assert!(!verify_proof(&StdHash, &p, &t.root(), b"B"));
    assert!(!verify_proof(&StdHash, &p[..1], &t.root(), b"A"));
    let mut longer = p.clone();
    longer.push(ProofStep { sibling: hash(b"extra"), sibling_on_right: true });
    assert!(!verify_proof(&StdHash, &longer, &t.root(), b"A"));
    assert!(!verify_proof(&StdHash, &[], &t.root(), b"A"));
}

#[test]
fn empty_input_is_refused() {
    let r = create_merkle_tree(&StdHash, &[]);
    assert_eq!(r.err(), Some(MerkleError::EmptyInput));
}

#[test]
fn index_at_leaf_count_is_refused() {
    let t = build(&["A", "B", "C"]);
    assert_eq!(generate_proof(&t, 3).err(), Some(MerkleError::IndexOutOfRange));
    assert_eq!(generate_proof(&t, 100).err(), Some(MerkleError::IndexOutOfRange));
    assert!(generate_proof(&t, 2).is_ok());
}

#[test]
fn four_items_scenario() {
    let t = build(&["A", "B", "C", "D"]);
    assert_eq!(t.level_count(), 3);
    assert_eq!(t.level_width(0), 4);
    assert_eq!(t.level_width(1), 2);
    assert_eq!(t.level_width(2), 1);
    let (ha, hb, hc, hd) = (hash(b"A"), hash(b"B"), hash(b"C"), hash(b"D"));
    let ab = hash(&joined(&ha, &hb));
    let cd = hash(&joined(&hc, &hd));
    assert_eq!(t.node(1, 0), ab);
    assert_eq!(t.node(1, 1), cd);
    assert_eq!(t.root(), hash(&joined(&ab, &cd)));

    let p = generate_proof(&t, 2).unwrap();
    assert_eq!(p.len(), 2);
    assert_eq!(p[0].sibling, hd);
    assert!(p[0].sibling_on_right);
    assert_eq!(p[1].sibling, ab);
    assert!(!p[1].sibling_on_right);
    assert!(verify_proof(&StdHash, &p, &t.root(), b"C"));
    assert!(!verify_proof(&StdHash, &p, &t.node(1, 0), b"C"));
    assert!(!verify_proof(&StdHash, &p, &t.node(1, 1), b"C"));
}

use compress_lab::huffman::algorithms::{decode, encode};
use compress_lab::huffman::tree::{Direction, Node, NodeIter};
use compress_lab::huffman::algorithms::{decodable, encodable};

fn leaf(value: u8, weight: u32) -> Node {
    Node::Leaf { value, weight }
}

#[test]
fn direction_other_and_bits() {
    assert_eq!(Direction::Left.other(), Direction::Right);
    assert_eq!(Direction::Right.other(), Direction::Left);
    assert_eq!(u32::from(Direction::Left), 0);
    assert_eq!(u32::from(Direction::Right), 1);
    assert_eq!(Direction::from(0u32), Direction::Left);
    assert_eq!(Direction::from(7u32), Direction::Right);
}

#[test]
fn node_accessors() {
    let n = Node::from_children(leaf(1, 2), leaf(2, 5));
    assert_eq!(n.weight(), 7);
    assert_eq!(n.value(), None);
    assert!(!n.is_leaf());
    let l = n.get_child(Direction::Left).unwrap();
    assert_eq!(l.value(), Some(1));
    assert!(l.is_leaf());
    assert!(l.get_child(Direction::Right).is_none());
    assert_eq!(n.get_child(Direction::Right).unwrap().weight(), 5);
}

#[test]
fn huffman_tree_shape_and_codes() {
    let root = Node::huffman_tree(vec![leaf(b'a', 1), leaf(b'b', 2), leaf(b'c', 4)]).unwrap();
    assert_eq!(root.weight(), 7);
    assert_eq!(root.get_child(Direction::Left).unwrap().value(), Some(b'c'));
    let dict = root.generate_dict();
    assert_eq!(dict.len(), 3);
    assert_eq!(dict[&b'c'], (0, 1));
    assert_eq!(dict[&b'b'], (1, 2));
    assert_eq!(dict[&b'a'], (3, 2));
}

#[test]
fn huffman_tree_empty_and_single() {
    assert!(Node::huffman_tree(vec![]).is_none());
    let root = Node::huffman_tree(vec![leaf(9, 3)]).unwrap();
    assert_eq!(root.value(), Some(9));
    let dict = root.generate_dict();
    assert_eq!(dict[&9], (0, 0));
}

#[test]
fn node_iter_preorder() {
    let root = Node::huffman_tree(vec![leaf(b'a', 1), leaf(b'b', 2), leaf(b'c', 4)]).unwrap();
    let mut it = NodeIter::new(&root);
    let mut seen = Vec::new();
    while let Some((node, path)) = it.next() {
        let dirs: Vec<Direction> = path.iter().map(|(_, d)| *d).collect();
        seen.push((node.value(), dirs));
    }
    assert_eq!(seen.len(), 5);
    assert_eq!(seen[0], (None, vec![]));
    assert_eq!(seen[1], (Some(b'c'), vec![Direction::Left]));
    assert_eq!(seen[2], (None, vec![Direction::Right]));
    assert_eq!(seen[3], (Some(b'b'), vec![Direction::Right, Direction::Left]));
    assert_eq!(seen[4], (Some(b'a'), vec![Direction::Right, Direction::Right]));
    assert!(it.next().is_none());
}

#[test]
fn huffman_roundtrip_text() {
    let data = b"hello world, hello huffman".to_vec();
    let enc = encode(&data);
    assert_eq!(enc.len() > 1032, true);
    let bits = u64::from_le_bytes(enc[0..8].try_into().unwrap());
    assert_eq!(enc.len(), 1032 + ((bits as usize) + 7) / 8);
    // weight of 'l' (5 occurrences) is stored at byte 8 + 4 * 'l'
    let at = 8 + 4 * (b'l' as usize);
    assert_eq!(u32::from_le_bytes(enc[at..at + 4].try_into().unwrap()), 5);
    assert_eq!(decode(enc).unwrap(), data);
}

#[test]
fn huffman_roundtrip_random() {
    let data: Vec<u8> = (0..5000).map(|_| rand::random::<u8>() % 17).collect();
    assert_eq!(decode(encode(&data)).unwrap(), data);
}

#[test]
fn huffman_two_symbols() {
    let enc = encode(b"ab");
    assert_eq!(&enc[0..8], &[2, 0, 0, 0, 0, 0, 0, 0]);
    assert_eq!(enc.len(), 1033);
    assert_eq!(decode(enc).unwrap(), b"ab".to_vec());
}

#[test]
fn huffman_single_symbol_decodes_to_nothing() {
    let enc = encode(b"zzz");
    assert_eq!(&enc[0..8], &[0; 8]);
    assert_eq!(decode(enc).unwrap(), Vec::<u8>::new());
}

#[test]
fn huffman_short_input() {
    assert!(decode(vec![1, 2, 3]).is_none());
}

#[test]
fn huffman_checks() {
    assert!(!encodable(b""));
    assert!(encodable(b"abc"));
    let enc = encode(b"abc");
    assert!(decodable(&enc));
    assert!(decodable(&[1, 2, 3]));
    let mut bad = vec![0u8; 8];
    bad.extend_from_slice(&[1, 2, 3]);
    assert!(!decodable(&bad));
    let zero_weights = vec![0u8; 8 + 1024];
    assert!(!decodable(&zero_weights));
}

#[test]
fn huffman_deep_tree_is_refused() {
    // Fibonacci weights give a tree as deep as there are symbols.
    let mut data = Vec::new();
    let (mut a, mut b) = (1usize, 1usize);
    for sym in 0..35u8 {
        for _ in 0..a {
            data.push(sym);
        }
        let c = a + b;
        a = b;
        b = c;
        if data.len() > 40_000_000 {
            break;
        }
    }
    assert!(!encodable(&data));
}

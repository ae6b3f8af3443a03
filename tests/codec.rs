use clvm_bridge::codec::{sexp_as_bin, sexp_from_bin};
use clvm_bridge::error::ClvmError;
use clvm_bridge::hex::{hex_decode, hex_encode};
use clvm_bridge::tree::Node;

fn atom(b: &[u8]) -> Node {
    Node::atom(b.to_vec())
}

fn pair(f: Node, r: Node) -> Node {
    Node::pair(f, r)
}

fn round_trip_bytes(n: &Node) {
    let bytes = sexp_as_bin(n);
    let back = sexp_from_bin(&bytes).expect("a serialization reads back");
    assert_eq!(sexp_as_bin(&back), bytes);
}

#[test]
fn serializes_small_atoms() {
    assert_eq!(sexp_as_bin(&Node::nil()), vec![0x80]);
    assert_eq!(sexp_as_bin(&atom(&[0x01])), vec![0x01]);
    assert_eq!(sexp_as_bin(&atom(&[0x7f])), vec![0x7f]);
    assert_eq!(sexp_as_bin(&atom(&[0x80])), vec![0x81, 0x80]);
    assert_eq!(sexp_as_bin(&atom(&[0x01, 0x02])), vec![0x82, 0x01, 0x02]);
}

#[test]
fn serializes_pairs() {
    let n = pair(atom(&[0x01]), pair(atom(&[0x02]), Node::nil()));
    assert_eq!(sexp_as_bin(&n), vec![0xff, 0x01, 0xff, 0x02, 0x80]);
}

#[test]
fn size_prefix_lengths() {
    let b = sexp_as_bin(&atom(&[7u8; 0x3f]));
    assert_eq!(&b[..1], &[0xbf]);
    let b = sexp_as_bin(&atom(&[7u8; 0x40]));
    assert_eq!(&b[..2], &[0xc0, 0x40]);
    assert_eq!(b.len(), 2 + 0x40);
    let b = sexp_as_bin(&atom(&vec![7u8; 0x1fff]));
    assert_eq!(&b[..2], &[0xdf, 0xff]);
    let b = sexp_as_bin(&atom(&vec![7u8; 0x2000]));
    assert_eq!(&b[..3], &[0xe0, 0x20, 0x00]);
    let b = sexp_as_bin(&atom(&vec![7u8; 0x10_0000]));
    assert_eq!(&b[..4], &[0xf0, 0x10, 0x00, 0x00]);
    assert_eq!(b.len(), 4 + 0x10_0000);
}

#[test]
fn round_trips_random_shapes() {
    let mut seed: u32 = 12345;
    for _ in 0..50 {
        let mut nodes: Vec<Node> = Vec::new();
        for _ in 0..20 {
            seed = seed.wrapping_mul(1103515245).wrapping_add(12345);
            let len = (seed >> 16) as usize % 70;
            let bytes: Vec<u8> = (0..len).map(|i| (seed as usize + i * 31) as u8).collect();
            nodes.push(Node::atom(bytes));
            if nodes.len() > 1 && seed % 3 == 0 {
                let r = nodes.pop().unwrap();
                let f = nodes.pop().unwrap();
                nodes.push(pair(f, r));
            }
        }
        let mut t = Node::nil();
        while let Some(n) = nodes.pop() {
            t = pair(n, t);
        }
        round_trip_bytes(&t);
    }
}

#[test]
fn round_trips_deep_trees() {
    let mut right = Node::nil();
    let mut left = Node::nil();
    for i in 0..2000u32 {
        right = pair(atom(&[(i % 256) as u8]), right);
        left = pair(left, atom(&[(i % 200) as u8, 1]));
    }
    round_trip_bytes(&right);
    round_trip_bytes(&left);
}

#[test]
fn rejects_malformed_encodings() {
    for bad in [
        &[][..],
        &[0xff, 0x01][..],
        &[0x82, 0xaa][..],
        &[0x01, 0x01][..],
        &[0x81, 0x05][..],
        &[0xc0, 0x10][..],
        &[0xfc][..],
    ] {
        assert!(matches!(sexp_from_bin(bad), Err(ClvmError::MalformedEncoding)), "{:?}", bad);
    }
    assert!(sexp_from_bin(&[0x81, 0x85]).is_ok());
}

#[test]
fn hex_encodes_lowercase() {
    assert_eq!(hex_encode(&[0x00, 0xab, 0xff, 0x10]), b"00abff10".to_vec());
    assert_eq!(hex_encode(&[]), Vec::<u8>::new());
}

#[test]
fn hex_decodes_either_case() {
    assert_eq!(hex_decode(b"00AbfF10").unwrap(), vec![0x00, 0xab, 0xff, 0x10]);
    assert!(matches!(hex_decode(b"abc"), Err(ClvmError::MalformedHex)));
    assert!(matches!(hex_decode(b"zz"), Err(ClvmError::MalformedHex)));
}

#[test]
fn rejects_oversized_prefixes() {
    assert!(matches!(sexp_from_bin(&[0xf8, 0, 0, 0, 0]), Err(ClvmError::MalformedEncoding)));
    assert!(matches!(sexp_from_bin(&[0xf0, 0, 0, 1, 5]), Err(ClvmError::MalformedEncoding)));
    assert!(matches!(sexp_from_bin(&[0xf8, 0, 0x80, 0, 0, 1]), Err(ClvmError::MalformedEncoding)));
    let mut ok = vec![0xe0, 0x20, 0x00];
    ok.extend(std::iter::repeat(9u8).take(0x2000));
    let n = sexp_from_bin(&ok).unwrap();
    assert_eq!(sexp_as_bin(&n), ok);
}

#[test]
fn serializes_deeply_nested_tree() {
    let depth = 30000;
    let mut t = Node::nil();
    for _ in 0..depth {
        t = pair(t, Node::nil());
    }
    let bytes = sexp_as_bin(&t);
    assert_eq!(bytes.len(), 2 * depth + 1);
    assert!(bytes[..depth].iter().all(|&b| b == 0xff));
    assert!(bytes[depth..].iter().all(|&b| b == 0x80));
    let back = sexp_from_bin(&bytes).unwrap();
    assert_eq!(sexp_as_bin(&back), bytes);
}

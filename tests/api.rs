use clvm_bridge::api::{
    c_curry, get_program, int_to_bytes, swift_first, swift_rest, swift_run, treehash,
};
use clvm_bridge::error::ClvmError;
use clvm_bridge::hash::sha256tree;
use clvm_bridge::tree::Node;
use clvm_bridge::vm::{curry, run};

#[test]
fn treehash_of_nil() {
    assert_eq!(
        treehash("80").unwrap(),
        "4bf5122f344554c53bde2ebb8cd2b7e3d1600ad631c385a5d7cce23c7785459a"
    );
}

#[test]
fn treehash_of_atom_and_pair() {
    assert_eq!(
        treehash("01").unwrap(),
        "9dcf97a184f32623d11a73124ceb99a5709b083721e878a16d78f596718ba7b2"
    );
    assert_eq!(
        treehash("ff0101").unwrap(),
        "69ae360134b1fae04326e5546f25dc794a19192a1f22a44a46d038e7f0d1ecbb"
    );
    assert_eq!(
        treehash("ff0102").unwrap(),
        "48f6eb3dcb192667016ff10dac09fb21b9388f18d91a863a270f4a91477e8528"
    );
}

#[test]
fn treehash_is_repeatable_and_sensitive() {
    let a = treehash("ff01ff8300aabbff0280").unwrap();
    assert_eq!(a, treehash("ff01ff8300aabbff0280").unwrap());
    assert_ne!(a, treehash("ff01ff8300aabcff0280").unwrap());
    assert_ne!(a, treehash("ff01ff8300aabbff0380").unwrap());
}

#[test]
fn atom_of_child_hashes_differs_from_pair() {
    let one = sha256tree(&Node::atom(vec![1]));
    let mut joined = one.clone();
    joined.extend_from_slice(&one);
    let as_atom = sha256tree(&Node::atom(joined));
    let as_pair = sha256tree(&Node::pair(Node::atom(vec![1]), Node::atom(vec![1])));
    assert_ne!(as_atom, as_pair);
    assert_eq!(
        as_atom,
        hex_bytes("1549745ff59735dfcc30189d74a10aef02e9081bb5beaf7a6351c30116f32234")
    );
}

fn hex_bytes(s: &str) -> Vec<u8> {
    (0..s.len() / 2).map(|i| u8::from_str_radix(&s[2 * i..2 * i + 2], 16).unwrap()).collect()
}

#[test]
fn treehash_reports_read_errors() {
    assert!(matches!(treehash("ff0"), Err(ClvmError::MalformedHex)));
    assert!(matches!(treehash("gg"), Err(ClvmError::MalformedHex)));
    assert!(matches!(treehash("ff01"), Err(ClvmError::MalformedEncoding)));
    assert!(matches!(treehash("0101"), Err(ClvmError::MalformedEncoding)));
}

#[test]
fn int_to_bytes_zero_is_nil() {
    assert_eq!(int_to_bytes(0), "");
}

#[test]
fn int_to_bytes_minus_one() {
    assert_eq!(int_to_bytes(-1), "ff");
}

#[test]
fn int_to_bytes_values() {
    assert_eq!(int_to_bytes(1), "01");
    assert_eq!(int_to_bytes(127), "7f");
    assert_eq!(int_to_bytes(128), "0080");
    assert_eq!(int_to_bytes(255), "00ff");
    assert_eq!(int_to_bytes(256), "0100");
    assert_eq!(int_to_bytes(-128), "80");
    assert_eq!(int_to_bytes(-129), "ff7f");
    assert_eq!(int_to_bytes(-256), "ff00");
    assert_eq!(int_to_bytes(i64::MAX), "7fffffffffffffff");
    assert_eq!(int_to_bytes(i64::MIN), "8000000000000000");
}

#[test]
fn first_and_rest_of_pair() {
    assert_eq!(swift_first("ff01ff0280").unwrap(), "01");
    assert_eq!(swift_rest("ff01ff0280").unwrap(), "ff0280");
    assert!(matches!(swift_first("01"), Err(ClvmError::NotAPair)));
    assert!(matches!(swift_rest("80"), Err(ClvmError::NotAPair)));
    assert!(matches!(swift_first("f"), Err(ClvmError::MalformedHex)));
}

#[test]
fn get_program_reads_upper_case() {
    assert!(get_program("FF0101").is_ok());
}

#[test]
fn quote_program_returns_one() {
    assert_eq!(swift_run("ff0101", "80").unwrap(), "01");
    assert_eq!(swift_run("ff0101", "ff05ff0680").unwrap(), "01");
    let p = get_program("ff0101").unwrap();
    let s = get_program("ff0780").unwrap();
    let (cost, result) = run(&p, &s, 0xFFFF_FFFF_FFFF_FFFF).unwrap();
    assert!(cost < 100);
    assert!(matches!(result, Node::Atom(ref b) if b == &vec![1u8]));
}

#[test]
fn quote_of_nil_returns_nil() {
    assert_eq!(swift_run("ff0180", "ff0180").unwrap(), "80");
}

#[test]
fn run_reports_vm_failure() {
    assert!(matches!(swift_run("ff0880", "80"), Err(ClvmError::ReductionFailed(_))));
}

#[test]
fn curry_with_nil_is_identity() {
    for (program, solution) in [("01", "ff05ff0680"), ("05", "ff09ff0a80"), ("ff0101", "80")] {
        let curried = c_curry(program, "80").unwrap();
        assert_eq!(swift_run(&curried, solution).unwrap(), swift_run(program, solution).unwrap());
    }
}

#[test]
fn curry_prepends_arguments() {
    let curried = c_curry("01", "ff05ff0680").unwrap();
    assert_eq!(swift_run(&curried, "ff07ff0880").unwrap(), "ff05ff06ff07ff0880");
}

#[test]
fn curry_of_nodes() {
    let program = Node::atom(vec![1]);
    let args = Node::pair(Node::atom(vec![9]), Node::nil());
    let curried = curry(&program, &args).unwrap();
    let solution = Node::pair(Node::atom(vec![3]), Node::nil());
    let (_, result) = run(&curried, &solution, 0).unwrap();
    assert_eq!(
        clvm_bridge::codec::sexp_as_bin(&result),
        vec![0xff, 0x09, 0xff, 0x03, 0x80]
    );
}

#[test]
fn curry_reports_read_errors() {
    assert!(matches!(c_curry("zz", "80"), Err(ClvmError::MalformedHex)));
    assert!(matches!(c_curry("01", "ff"), Err(ClvmError::MalformedEncoding)));
}

#[test]
fn curry_of_atom_arguments_fails() {
    assert!(matches!(c_curry("01", "05"), Err(ClvmError::CurryFailed(_))));
}

#[test]
fn curry_under_tiny_ceiling_fails() {
    let program = Node::atom(vec![1]);
    let args = Node::pair(Node::atom(vec![9]), Node::nil());
    let r = clvm_bridge::vm::curry_with_limit(&program, &args, 1);
    assert!(matches!(r, Err(ClvmError::CurryFailed(_))));
}

#[test]
fn hashes_deep_left_skewed_tree() {
    let mut t = Node::nil();
    for i in 0..5000u32 {
        t = Node::pair(t, Node::atom(vec![(i % 256) as u8]));
    }
    assert_eq!(
        sha256tree(&t),
        hex_bytes("ea7474a3c03573c94fd01ff47b324674d6e37bc7fad444085739550e58bb6127")
    );
}

#[test]
fn bootstrap_program_has_known_tree_hash() {
    let bytes = clvm_bridge::vm::curry_program_bin();
    let boot = clvm_bridge::codec::sexp_from_bin(&bytes).unwrap();
    assert_eq!(
        sha256tree(&boot),
        hex_bytes("16fb745b96c729cc85d1f32031f557203e1e2d62cbe4bc2230e6c303ffd4968e")
    );
}

#[test]
fn curry_failure_carries_diagnostic() {
    match c_curry("01", "05") {
        Err(ClvmError::CurryFailed(msg)) => assert!(!msg.is_empty()),
        other => panic!("unexpected {:?}", other),
    }
}

#[test]
fn run_failure_carries_diagnostic() {
    match swift_run("ff0880", "80") {
        Err(ClvmError::ReductionFailed(msg)) => assert!(!msg.is_empty()),
        other => panic!("unexpected {:?}", other),
    }
}

#[test]
fn treehash_text_is_sixty_four_digits() {
    let h = treehash("ff01ff0280").unwrap();
    assert_eq!(h.len(), 64);
    assert!(h.chars().all(|c| c.is_ascii_digit() || ('a'..='f').contains(&c)));
}

#[test]
fn treehash_of_deeply_nested_input() {
    let depth = 30000;
    let text = format!("{}{}", "ff".repeat(depth), "80".repeat(depth + 1));
    assert_eq!(
        treehash(&text).unwrap(),
        "da36232a077a7fba6f32ed59a8383c00f690afe28f40006f0a2e615f2886d8bd"
    );
}

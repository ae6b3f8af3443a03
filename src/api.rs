use vstd::prelude::*;
use vstd::string::StringSliceAdditionalSpecFns;
use crate::codec::{decode, lemma_round_trip, ser, sexp_as_bin, sexp_from_bin, well_formed};
use crate::error::ClvmError;
use crate::hash::{sha256tree, tree_hash};
use crate::hex::{bytes_of_hex, hex_decode, hex_encode, hex_of, is_hex, lemma_hex_round_trip};
use crate::integer::{int_atom, int_bytes};
use crate::tree::{Node, Tree};
use crate::vm::{curry, curry_outcome, is_well_formed, run, run_outcome, UNBOUNDED_COST};

verus! {

/// The characters of ASCII bytes.
pub open spec fn ascii_chars(b: Seq<u8>) -> Seq<char> {
    b.map_values(|c: u8| c as char)
}

/// Relies on `String::from_utf8`: ASCII bytes are valid UTF-8, and the string
/// holds one character per byte.
#[verifier::external_body]
fn string_from_utf8(v: Vec<u8>) -> (r: Option<String>)
    ensures
        (forall|i: int| 0 <= i < v@.len() ==> v@[i] < 0x80) ==> r is Some && r->0@ == ascii_chars(v@),
{
    String::from_utf8(v).ok()
}

/// Lowercase hexadecimal text of bytes.
pub fn to_hex_string(b: &[u8]) -> (r: String)
    ensures
        r@ == ascii_chars(hex_of(b@)),
{
    let v = hex_encode(b);
    match string_from_utf8(v) {
        Some(s) => s,
        None => {
            assert(false);
            String::new()
        },
    }
}

/// The bytes of text, in UTF-8.
pub open spec fn text_bytes(s: &str) -> Seq<u8> {
    s.spec_bytes()
}

/// The tree that hexadecimal text of a serialization stands for, if any.
pub open spec fn program_text(text: &str) -> Option<Tree> {
    if is_hex(text_bytes(text)) {
        decode(bytes_of_hex(text_bytes(text)))
    } else {
        None
    }
}

/// The error that reading a program from `text` gives.
pub open spec fn read_error(text: &str, e: ClvmError) -> bool {
    if is_hex(text_bytes(text)) {
        decode(bytes_of_hex(text_bytes(text))) is None && e is MalformedEncoding
    } else {
        e is MalformedHex
    }
}

/// Hexadecimal text of bytes, as characters.
pub open spec fn hex_text(b: Seq<u8>) -> Seq<char> {
    ascii_chars(hex_of(b))
}

/// Reads a program from hexadecimal text of its serialization:
/// `MalformedHex` when the text is not hex, `MalformedEncoding` when the
/// bytes serialize no tree.
pub fn get_program(text: &str) -> (r: Result<Node, ClvmError>)
    ensures
        match r {
            Ok(n) => is_hex(text_bytes(text)) && well_formed(n@) && decode(bytes_of_hex(text_bytes(text))) == Some(n@),
            Err(e) => (!is_hex(text_bytes(text)) && e is MalformedHex) || (is_hex(text_bytes(text))
                && decode(bytes_of_hex(text_bytes(text))) is None && e is MalformedEncoding),
        },
{
    let bytes = hex_decode(text.as_bytes())?;
    match sexp_from_bin(bytes.as_slice()) {
        Ok(n) => {
            proof {
                lemma_round_trip(n@);
            }
            Ok(n)
        },
        Err(e) => Err(e),
    }
}

/// The hexadecimal text of any well-formed tree's serialization is valid hex
/// and reads back as that same tree.
pub proof fn lemma_text_round_trip(t: Tree)
    requires
        well_formed(t),
    ensures
        is_hex(hex_of(ser(t))),
        decode(bytes_of_hex(hex_of(ser(t)))) == Some(t),
{
    lemma_hex_round_trip(ser(t));
    lemma_round_trip(t);
}

/// Hexadecimal text of the serialization of a well-formed node.
fn node_hex(n: &Node) -> (r: String)
    requires
        well_formed(n@),
    ensures
        r@ == hex_text(ser(n@)),
{
    let bytes = sexp_as_bin(n);
    to_hex_string(bytes.as_slice())
}

/// Hexadecimal text of the tree hash of the program that `text` holds.
pub fn treehash(text: &str) -> (r: Result<String, ClvmError>)
    ensures
        match r {
            Ok(h) => program_text(text) is Some && h@ == hex_text(tree_hash(program_text(text)->0))
                && h@.len() == 64,
            Err(e) => program_text(text) is None && read_error(text, e),
        },
{
    let n = get_program(text)?;
    let h = sha256tree(&n);
    Ok(to_hex_string(h.as_slice()))
}

/// Hexadecimal text of the canonical atom of a signed integer: empty for
/// zero, else its shortest big-endian two's complement bytes.
pub fn int_to_bytes(value: i64) -> (r: String)
    ensures
        r@ == hex_text(int_bytes(value as int)),
{
    let b = int_atom(value);
    to_hex_string(b.as_slice())
}

/// Hexadecimal text of the first half of the pair that `text` holds;
/// `NotAPair` for an atom.
pub fn swift_first(text: &str) -> (r: Result<String, ClvmError>)
    ensures
        match r {
            Ok(h) => program_text(text) is Some && program_text(text)->0 is Pair && h@ == hex_text(
                ser(*program_text(text)->0->Pair_0),
            ),
            Err(e) => match program_text(text) {
                None => read_error(text, e),
                Some(t) => t is Atom && e is NotAPair,
            },
        },
{
    let n = get_program(text)?;
    match n {
        Node::Pair(f, _) => Ok(node_hex(&f)),
        Node::Atom(_) => Err(ClvmError::NotAPair),
    }
}

/// Hexadecimal text of the second half of the pair that `text` holds;
/// `NotAPair` for an atom.
pub fn swift_rest(text: &str) -> (r: Result<String, ClvmError>)
    ensures
        match r {
            Ok(h) => program_text(text) is Some && program_text(text)->0 is Pair && h@ == hex_text(
                ser(*program_text(text)->0->Pair_1),
            ),
            Err(e) => match program_text(text) {
                None => read_error(text, e),
                Some(t) => t is Atom && e is NotAPair,
            },
        },
{
    let n = get_program(text)?;
    match n {
        Node::Pair(_, r) => Ok(node_hex(&r)),
        Node::Atom(_) => Err(ClvmError::NotAPair),
    }
}

/// Curries the program that `program` holds with the argument list that
/// `args` holds, and gives the hexadecimal text of the curried program.
pub fn c_curry(program: &str, args: &str) -> (r: Result<String, ClvmError>)
    ensures
        match (program_text(program), program_text(args)) {
            (None, _) => r is Err && read_error(program, r->Err_0),
            (Some(_), None) => r is Err && read_error(args, r->Err_0),
            (Some(tp), Some(ta)) => match curry_outcome(tp, ta, UNBOUNDED_COST) {
                Ok(t) => if well_formed(t) {
                    r is Ok && r->Ok_0@ == hex_text(ser(t))
                } else {
                    r is Err && r->Err_0 is CurryFailed
                },
                Err(msg) => r is Err && r->Err_0 is CurryFailed && r->Err_0->CurryFailed_0@ == msg,
            },
        },
{
    let p = get_program(program)?;
    let a = get_program(args)?;
    let n = curry(&p, &a)?;
    if !is_well_formed(&n) {
        return Err(ClvmError::CurryFailed(String::new()));
    }
    Ok(node_hex(&n))
}

/// Evaluates the program that `program` holds against the solution that
/// `solution` holds, with no cost ceiling, and gives the hexadecimal text of
/// the result.
pub fn swift_run(program: &str, solution: &str) -> (r: Result<String, ClvmError>)
    ensures
        match (program_text(program), program_text(solution)) {
            (None, _) => r is Err && read_error(program, r->Err_0),
            (Some(_), None) => r is Err && read_error(solution, r->Err_0),
            (Some(tp), Some(ts)) => match run_outcome(tp, ts, UNBOUNDED_COST) {
                Ok((_, t)) => if well_formed(t) {
                    r is Ok && r->Ok_0@ == hex_text(ser(t))
                } else {
                    r is Err && r->Err_0 is ReductionFailed
                },
                Err(msg) => r is Err && r->Err_0 is ReductionFailed && r->Err_0->ReductionFailed_0@
                    == msg,
            },
        },
{
    let p = get_program(program)?;
    let s = get_program(solution)?;
    let (_, n) = run(&p, &s, UNBOUNDED_COST)?;
    if !is_well_formed(&n) {
        return Err(ClvmError::ReductionFailed(String::new()));
    }
    Ok(node_hex(&n))
}

} // verus!

use vstd::prelude::*;
use vstd::arithmetic::div_mod::lemma_fundamental_div_mod_converse;

verus! {

/// Magnitude used to show that the encoding of an integer ends.
pub open spec fn magnitude(v: int) -> nat {
    if v >= 0 {
        v as nat
    } else {
        (-v) as nat
    }
}

/// Shortest big-endian two's complement bytes of a non-zero integer: one byte
/// once the value fits in a signed byte, else the bytes of `v / 256` followed
/// by the low byte.
pub open spec fn signed_bytes(v: int) -> Seq<u8>
    decreases magnitude(v),
{
    if -128 <= v < 128 {
        seq![(v % 256) as u8]
    } else {
        signed_bytes(v / 256).push((v % 256) as u8)
    }
}

/// The canonical atom of an integer: empty for zero, else its shortest two's
/// complement bytes.
pub open spec fn int_bytes(v: int) -> Seq<u8> {
    if v == 0 {
        Seq::empty()
    } else {
        signed_bytes(v)
    }
}

/// Floor division of `v` by 256, with the remainder in 0..256.
fn split_low_byte(v: i64) -> (r: (i64, u8))
    ensures
        r.0 == v as int / 256,
        r.1 == v as int % 256,
{
    if v >= 0 {
        let q = v / 256;
        let m = v % 256;
        proof {
            lemma_fundamental_div_mod_converse(v as int, 256, q as int, m as int);
        }
        (q, m as u8)
    } else {
        let w = -(v + 1);
        let q = -(w / 256) - 1;
        let m = v - q * 256;
        proof {
            lemma_fundamental_div_mod_converse(v as int, 256, q as int, m as int);
        }
        (q, m as u8)
    }
}

fn push_signed_bytes(v: i64, out: &mut Vec<u8>)
    ensures
        final(out)@ == old(out)@ + signed_bytes(v as int),
    decreases magnitude(v as int),
{
    let (q, m) = split_low_byte(v);
    if -128 <= v && v < 128 {
        out.push(m);
        assert(final(out)@ =~= old(out)@ + signed_bytes(v as int));
    } else {
        push_signed_bytes(q, out);
        out.push(m);
        assert(final(out)@ =~= old(out)@ + signed_bytes(v as int));
    }
}

/// The canonical atom of a signed integer: shortest big-endian two's
/// complement, empty for zero.
pub fn int_atom(v: i64) -> (r: Vec<u8>)
    ensures
        r@ == int_bytes(v as int),
{
    let mut out: Vec<u8> = Vec::new();
    if v != 0 {
        push_signed_bytes(v, &mut out);
    }
    assert(out@ =~= int_bytes(v as int));
    out
}

} // verus!

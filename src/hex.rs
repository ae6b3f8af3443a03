use vstd::prelude::*;
use crate::error::ClvmError;

verus! {

/// The lowercase ASCII digit of a value below sixteen.
pub open spec fn hex_digit(v: u8) -> u8 {
    if v < 10 {
        (0x30 + v) as u8
    } else {
        (0x57 + v) as u8
    }
}

/// Lowercase hexadecimal text of bytes, two digits per byte, high half first.
pub open spec fn hex_of(b: Seq<u8>) -> Seq<u8> {
    Seq::new(
        2 * b.len(),
        |i: int|
            if i % 2 == 0 {
                hex_digit(b[i / 2] / 16)
            } else {
                hex_digit(b[i / 2] % 16)
            },
    )
}

/// The value of a hexadecimal digit, in either case.
pub open spec fn digit_value(c: u8) -> Option<u8> {
    if 0x30 <= c <= 0x39 {
        Some((c - 0x30) as u8)
    } else if 0x61 <= c <= 0x66 {
        Some((c - 0x57) as u8)
    } else if 0x41 <= c <= 0x46 {
        Some((c - 0x37) as u8)
    } else {
        None
    }
}

/// Text is hexadecimal: an even number of digits.
pub open spec fn is_hex(s: Seq<u8>) -> bool {
    s.len() % 2 == 0 && forall|i: int| 0 <= i < s.len() ==> (#[trigger] digit_value(s[i])) is Some
}

/// The bytes that hexadecimal text stands for.
pub open spec fn bytes_of_hex(s: Seq<u8>) -> Seq<u8> {
    Seq::new(
        s.len() / 2,
        |i: int| (digit_value(s[2 * i])->0 * 16 + digit_value(s[2 * i + 1])->0) as u8,
    )
}

/// Hex text of any bytes is valid hex and reads back as those bytes.
pub proof fn lemma_hex_round_trip(b: Seq<u8>)
    ensures
        is_hex(hex_of(b)),
        bytes_of_hex(hex_of(b)) == b,
{
    let h = hex_of(b);
    assert forall|i: int| 0 <= i < h.len() implies (#[trigger] digit_value(h[i])) is Some by {
    }
    assert(bytes_of_hex(h) =~= b);
}

fn digit(v: u8) -> (r: u8)
    requires
        v < 16,
    ensures
        r == hex_digit(v),
{
    if v < 10 {
        0x30 + v
    } else {
        0x57 + v
    }
}

fn value_of_digit(c: u8) -> (r: Option<u8>)
    ensures
        r == digit_value(c),
{
    if 0x30 <= c && c <= 0x39 {
        Some(c - 0x30)
    } else if 0x61 <= c && c <= 0x66 {
        Some(c - 0x57)
    } else if 0x41 <= c && c <= 0x46 {
        Some(c - 0x37)
    } else {
        None
    }
}

/// Lowercase hexadecimal text of the bytes, as ASCII.
pub fn hex_encode(b: &[u8]) -> (r: Vec<u8>)
    ensures
        r@ == hex_of(b@),
{
    let mut out: Vec<u8> = Vec::new();
    let mut i: usize = 0;
    while i < b.len()
        invariant
            i <= b.len(),
            out@ == hex_of(b@.subrange(0, i as int)),
        decreases b.len() - i,
    {
        let ghost prev = out@;
        out.push(digit(b[i] / 16));
        out.push(digit(b[i] % 16));
        i = i + 1;
        assert(out@ =~= hex_of(b@.subrange(0, i as int))) by {
            let h = hex_of(b@.subrange(0, i as int));
            assert forall|j: int| 0 <= j < h.len() implies out@[j] == h[j] by {
                if j < 2 * (i - 1) {
                    assert(out@[j] == prev[j]);
                }
            }
        }
    }
    assert(b@.subrange(0, b.len() as int) =~= b@);
    out
}

/// The bytes that hexadecimal text stands for; `MalformedHex` exactly when
/// the text has odd length or a character that is not a hex digit.
pub fn hex_decode(s: &[u8]) -> (r: Result<Vec<u8>, ClvmError>)
    ensures
        match r {
            Ok(v) => is_hex(s@) && v@ == bytes_of_hex(s@),
            Err(e) => !is_hex(s@) && e is MalformedHex,
        },
{
    if s.len() % 2 != 0 {
        return Err(ClvmError::MalformedHex);
    }
    let mut out: Vec<u8> = Vec::new();
    let mut i: usize = 0;
    while i < s.len() / 2
        invariant
            i <= s.len() / 2,
            s.len() % 2 == 0,
            out@.len() == i,
            forall|j: int| 0 <= j < 2 * i ==> (#[trigger] digit_value(s@[j])) is Some,
            forall|j: int| 0 <= j < i ==> out@[j] == bytes_of_hex(s@)[j],
        decreases s.len() / 2 - i,
    {
        let hi = value_of_digit(s[2 * i]);
        let lo = value_of_digit(s[2 * i + 1]);
        match (hi, lo) {
            (Some(h), Some(l)) => {
                out.push(h * 16 + l);
            },
            _ => {
                proof {
                    assert(!is_hex(s@)) by {
                        if digit_value(s@[2 * i as int]) is None {
                            assert(!(digit_value(s@[2 * i as int]) is Some));
                        } else {
                            assert(!(digit_value(s@[2 * i + 1]) is Some));
                        }
                    }
                }
                return Err(ClvmError::MalformedHex);
            },
        }
        i = i + 1;
    }
    assert(out@ =~= bytes_of_hex(s@));
    Ok(out)
}

} // verus!

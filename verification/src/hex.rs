//! Lowercase hexadecimal encoding of byte sequences.

use vstd::prelude::*;

verus! {

/// The lowercase hex digit for a nibble value below 16.
pub open spec fn hex_digit(n: u8) -> u8
    recommends
        n < 16,
{
    if n < 10 {
        (48 + n) as u8
    } else {
        (87 + n) as u8
    }
}

/// Lowercase hex encoding: two digits per byte, high nibble first.
pub open spec fn hex_of(s: Seq<u8>) -> Seq<u8> {
    Seq::new(
        s.len() * 2,
        |i: int|
            if i % 2 == 0 {
                hex_digit(s[i / 2] / 16)
            } else {
                hex_digit(s[i / 2] % 16)
            },
    )
}

/// Encode `bytes` as lowercase hex.
pub fn to_hex(bytes: &[u8]) -> (r: Vec<u8>)
    ensures
        r@ == hex_of(bytes@),
{
    let n = bytes.len();
    let mut out: Vec<u8> = Vec::new();
    for i in 0..n
        invariant
            n == bytes@.len(),
            out@ == hex_of(bytes@.take(i as int)),
    {
        let b = bytes[i];
        let hi = b / 16;
        let lo = b % 16;
        let hi_d = if hi < 10 { 48 + hi } else { 87 + hi };
        let lo_d = if lo < 10 { 48 + lo } else { 87 + lo };
        out.push(hi_d);
        out.push(lo_d);
        proof {
            assert(out@ =~= hex_of(bytes@.take(i + 1)));
        }
    }
    proof {
        assert(bytes@.take(n as int) == bytes@);
    }
    out
}

} // verus!

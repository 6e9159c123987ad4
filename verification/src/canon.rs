//! Canonical content normalization: carriage-return stripping.
//!
//! The content hash must not depend on line-ending style, so every
//! carriage-return byte is removed before the bytes reach the digest.

use vstd::prelude::*;

verus! {

/// The carriage-return byte removed by canonicalization.
pub const CR: u8 = 13;

/// Canonical form of a byte sequence: the same bytes with every
/// carriage-return byte removed.
pub open spec fn strip_cr_spec(s: Seq<u8>) -> Seq<u8> {
    s.filter(|b: u8| b != CR)
}

/// Stripping distributes over concatenation, so filtering each chunk of a
/// stream independently yields the same bytes as filtering the whole stream.
pub proof fn lemma_strip_cr_concat(a: Seq<u8>, b: Seq<u8>)
    ensures
        strip_cr_spec(a + b) == strip_cr_spec(a) + strip_cr_spec(b),
{
    Seq::<u8>::filter_distributes_over_add(a, b, |x: u8| x != CR);
}

/// A sequence already free of carriage returns is its own canonical form.
proof fn lemma_strip_cr_all_kept(s: Seq<u8>)
    requires
        forall|k: int| 0 <= k < s.len() ==> #[trigger] s[k] != CR,
    ensures
        strip_cr_spec(s) == s,
    decreases s.len(),
{
    reveal_with_fuel(Seq::<_>::filter, 2);
    if s.len() > 0 {
        assert(forall|k: int|
            0 <= k < s.drop_last().len() ==> #[trigger] s.drop_last()[k] != CR);
        lemma_strip_cr_all_kept(s.drop_last());
        assert(strip_cr_spec(s) =~= s.drop_last().push(s.last()));
        assert(s.drop_last().push(s.last()) =~= s);
    }
}

/// Canonicalization is idempotent: stripping a second time changes nothing,
/// so a content and its carriage-return-free form share one canonical form.
pub proof fn lemma_strip_cr_idempotent(s: Seq<u8>)
    ensures
        strip_cr_spec(strip_cr_spec(s)) == strip_cr_spec(s),
{
    let stripped = strip_cr_spec(s);
    assert forall|k: int| 0 <= k < stripped.len() implies #[trigger] stripped[k] != CR by {
        s.lemma_filter_pred(|b: u8| b != CR, k);
    }
    lemma_strip_cr_all_kept(stripped);
}

/// Remove every carriage-return byte from `chunk`.
pub fn strip_cr(chunk: &[u8]) -> (r: Vec<u8>)
    ensures
        r@ == strip_cr_spec(chunk@),
{
    let mut out: Vec<u8> = Vec::new();
    let n = chunk.len();
    for i in 0..n
        invariant
            n == chunk@.len(),
            out@ == strip_cr_spec(chunk@.take(i as int)),
    {
        proof {
            reveal_with_fuel(Seq::<_>::filter, 2);
            assert(chunk@.take(i + 1).drop_last() == chunk@.take(i as int));
            assert(chunk@.take(i + 1).last() == chunk@[i as int]);
        }
        if chunk[i] != CR {
            out.push(chunk[i]);
        }
    }
    proof {
        assert(chunk@.take(n as int) == chunk@);
    }
    out
}

} // verus!

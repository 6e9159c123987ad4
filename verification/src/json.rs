//! The persisted form of a file history: pretty-printed JSON.
//!
//! The format is fixed — field order, two-space indentation, decimal
//! numbers, strings with `\"`, `\\` and `\u00XX` escapes — and both
//! directions are specified against the same byte-level description:
//! `history_to_json` emits exactly `json_of(h)`, and `history_from_json`
//! recognizes exactly the parser specification `sp_history`, which accepts
//! what the emitter writes.

use vstd::prelude::*;

use crate::history::{versions_view, FileHistory, FileVersion, HistoryView, VersionView};
use crate::hex::hex_digit;

verus! {

// ----------------------------------------------------------------------
// Fixed byte sequences of the format.
// ----------------------------------------------------------------------

/// `{\n  "versions": `
pub open spec fn l_open() -> Seq<u8> {
    seq![123u8, 10, 32, 32, 34, 118, 101, 114, 115, 105, 111, 110, 115, 34, 58, 32]
}

/// `[\n`
pub open spec fn l_arr_open() -> Seq<u8> {
    seq![91u8, 10]
}

/// `[]`
pub open spec fn l_arr_empty() -> Seq<u8> {
    seq![91u8, 93]
}

/// `\n  ]`
pub open spec fn l_arr_close() -> Seq<u8> {
    seq![10u8, 32, 32, 93]
}

/// `    {\n      "version": `
pub open spec fn l_item_open() -> Seq<u8> {
    seq![32u8, 32, 32, 32, 123, 10, 32, 32, 32, 32, 32, 32, 34, 118, 101, 114, 115, 105, 111, 110, 34, 58, 32]
}

/// `,\n      "hash": `
pub open spec fn l_key_hash() -> Seq<u8> {
    seq![44u8, 10, 32, 32, 32, 32, 32, 32, 34, 104, 97, 115, 104, 34, 58, 32]
}

/// `,\n      "size": `
pub open spec fn l_key_size() -> Seq<u8> {
    seq![44u8, 10, 32, 32, 32, 32, 32, 32, 34, 115, 105, 122, 101, 34, 58, 32]
}

/// `,\n      "mtime_ns": `
pub open spec fn l_key_mtime() -> Seq<u8> {
    seq![44u8, 10, 32, 32, 32, 32, 32, 32, 34, 109, 116, 105, 109, 101, 95, 110, 115, 34, 58, 32]
}

/// `,\n      "processed_at": `
pub open spec fn l_key_processed() -> Seq<u8> {
    seq![44u8, 10, 32, 32, 32, 32, 32, 32, 34, 112, 114, 111, 99, 101, 115, 115, 101, 100, 95, 97, 116, 34, 58, 32]
}

/// `,\n      "diff_file": `
pub open spec fn l_key_diff() -> Seq<u8> {
    seq![44u8, 10, 32, 32, 32, 32, 32, 32, 34, 100, 105, 102, 102, 95, 102, 105, 108, 101, 34, 58, 32]
}

/// `null`
pub open spec fn l_null() -> Seq<u8> {
    seq![110u8, 117, 108, 108]
}

/// `\n    }`
pub open spec fn l_item_close() -> Seq<u8> {
    seq![10u8, 32, 32, 32, 32, 125]
}

/// `,\n`
pub open spec fn l_sep() -> Seq<u8> {
    seq![44u8, 10]
}

/// `,\n  "alias": `
pub open spec fn l_key_alias() -> Seq<u8> {
    seq![44u8, 10, 32, 32, 34, 97, 108, 105, 97, 115, 34, 58, 32]
}

/// `,\n  "original_path": `
pub open spec fn l_key_path() -> Seq<u8> {
    seq![44u8, 10, 32, 32, 34, 111, 114, 105, 103, 105, 110, 97, 108, 95, 112, 97, 116, 104, 34, 58, 32]
}

/// `\n}`
pub open spec fn l_close() -> Seq<u8> {
    seq![10u8, 125]
}

// ----------------------------------------------------------------------
// Numbers: decimal, no sign, no leading zeros.
// ----------------------------------------------------------------------

/// The decimal digits of `n`, most significant first.
pub open spec fn dec(n: nat) -> Seq<u8>
    decreases n,
{
    if n < 10 {
        seq![(48 + n) as u8]
    } else {
        dec(n / 10).push((48 + n % 10) as u8)
    }
}

/// An ASCII decimal digit.
pub open spec fn is_digit(b: u8) -> bool {
    48 <= b <= 57
}

/// Every byte of `dec(n)` is a digit, and there is at least one.
pub proof fn lemma_dec_digits(n: nat)
    ensures
        dec(n).len() >= 1,
        forall|k: int| 0 <= k < dec(n).len() ==> is_digit(#[trigger] dec(n)[k]),
    decreases n,
{
    if n >= 10 {
        lemma_dec_digits(n / 10);
    }
}

// ----------------------------------------------------------------------
// Strings: JSON escaping.
// ----------------------------------------------------------------------

/// The escaped form of one byte: quote and backslash get a backslash,
/// control bytes become `\u00XX`, everything else is itself.
pub open spec fn esc_byte(b: u8) -> Seq<u8> {
    if b == 34 {
        seq![92u8, 34]
    } else if b == 92 {
        seq![92u8, 92]
    } else if b < 32 {
        seq![92u8, 117, 48, 48, hex_digit(b / 16), hex_digit(b % 16)]
    } else {
        seq![b]
    }
}

/// The escaped form of a byte string.
pub open spec fn esc(s: Seq<u8>) -> Seq<u8>
    decreases s.len(),
{
    if s.len() == 0 {
        Seq::empty()
    } else {
        esc_byte(s[0]) + esc(s.drop_first())
    }
}

/// Escaping distributes over concatenation.
pub proof fn lemma_esc_concat(a: Seq<u8>, b: Seq<u8>)
    ensures
        esc(a + b) == esc(a) + esc(b),
    decreases a.len(),
{
    if a.len() == 0 {
        assert(a + b =~= b);
        assert(esc(a) + esc(b) =~= esc(b));
    } else {
        assert((a + b).drop_first() =~= a.drop_first() + b);
        lemma_esc_concat(a.drop_first(), b);
        assert(esc(a + b) =~= esc(a) + esc(b));
    }
}

/// A quoted, escaped JSON string.
pub open spec fn json_string(s: Seq<u8>) -> Seq<u8> {
    seq![34u8] + esc(s) + seq![34u8]
}

// ----------------------------------------------------------------------
// The emitted document.
// ----------------------------------------------------------------------

/// One version record as emitted.
pub open spec fn version_json(v: VersionView) -> Seq<u8> {
    l_item_open() + dec(v.version as nat) + l_key_hash() + json_string(v.hash) + l_key_size()
        + dec(v.size as nat) + l_key_mtime() + dec(v.mtime_ns as nat) + l_key_processed()
        + json_string(v.processed_at) + l_key_diff() + (match v.diff_file {
        Option::None => l_null(),
        Option::Some(d) => json_string(d),
    }) + l_item_close()
}

/// The version records as emitted, joined by `,\n`.
pub open spec fn items_json(vs: Seq<VersionView>) -> Seq<u8>
    decreases vs.len(),
{
    if vs.len() == 0 {
        Seq::empty()
    } else if vs.len() == 1 {
        version_json(vs[0])
    } else {
        version_json(vs[0]) + l_sep() + items_json(vs.drop_first())
    }
}

/// The whole history document as emitted.
pub open spec fn json_of(h: HistoryView) -> Seq<u8> {
    l_open() + (if h.versions.len() == 0 {
        l_arr_empty()
    } else {
        l_arr_open() + items_json(h.versions) + l_arr_close()
    }) + l_key_alias() + json_string(h.alias) + l_key_path() + json_string(h.original_path)
        + l_close()
}

/// Appending one record to the emitted list appends one emitted record.
pub proof fn lemma_items_push(vs: Seq<VersionView>, v: VersionView)
    ensures
        vs.len() == 0 ==> items_json(vs.push(v)) == version_json(v),
        vs.len() > 0 ==> items_json(vs.push(v)) == items_json(vs) + l_sep() + version_json(v),
    decreases vs.len(),
{
    if vs.len() == 0 {
        assert(vs.push(v)[0] == v);
        assert(items_json(vs.push(v)) == version_json(v));
    } else {
        lemma_items_push(vs.drop_first(), v);
        assert(vs.push(v).drop_first() =~= vs.drop_first().push(v));
        assert(vs.push(v)[0] == vs[0]);
        if vs.len() == 1 {
            assert(vs.drop_first().len() == 0);
            assert(items_json(vs.push(v)) == version_json(vs[0]) + l_sep() + items_json(
                vs.drop_first().push(v),
            ));
            assert(items_json(vs) == version_json(vs[0]));
        } else {
            assert(items_json(vs.push(v)) =~= items_json(vs) + l_sep() + version_json(v));
        }
    }
}

// ----------------------------------------------------------------------
// Emitter.
// ----------------------------------------------------------------------

/// Append a whole slice.
fn push_bytes(out: &mut Vec<u8>, bs: &[u8])
    ensures
        final(out)@ == old(out)@ + bs@,
{
    out.extend_from_slice(bs);
}

/// Append the decimal digits of `n`.
pub(crate) fn push_dec(out: &mut Vec<u8>, n: u128)
    ensures
        final(out)@ == old(out)@ + dec(n as nat),
{
    let mut tmp: Vec<u8> = Vec::new();
    let mut cur = n;
    while cur >= 10
        invariant
            dec(n as nat) == dec(cur as nat) + tmp@.reverse(),
        decreases cur,
    {
        let ghost pre = tmp@;
        let d: u8 = 48 + (cur % 10) as u8;
        tmp.push(d);
        proof {
            assert(dec(cur as nat) == dec((cur / 10) as nat).push(d));
            assert(tmp@.reverse() =~= seq![d] + pre.reverse());
            assert(dec(cur as nat) + pre.reverse() =~= dec((cur / 10) as nat) + tmp@.reverse());
        }
        cur = cur / 10;
    }
    out.push(48 + cur as u8);
    proof {
        assert(dec(cur as nat) =~= seq![(48 + cur as nat) as u8]);
    }
    let mut k = tmp.len();
    while k > 0
        invariant
            k <= tmp@.len(),
            dec(n as nat) == dec(cur as nat) + tmp@.reverse(),
            out@ == old(out)@ + dec(cur as nat) + tmp@.skip(k as int).reverse(),
        decreases k,
    {
        let ghost preout = out@;
        out.push(tmp[k - 1]);
        proof {
            assert(tmp@.skip(k - 1) =~= seq![tmp@[k - 1]] + tmp@.skip(k as int));
            assert(tmp@.skip(k - 1).reverse() =~= tmp@.skip(k as int).reverse().push(
                tmp@[k - 1],
            ));
            assert(out@ =~= old(out)@ + dec(cur as nat) + tmp@.skip(k - 1).reverse());
        }
        k = k - 1;
    }
    proof {
        assert(tmp@.skip(0) == tmp@);
        assert(out@ =~= old(out)@ + dec(n as nat));
    }
}

/// Append the escaped form of `s`.
#[verifier::rlimit(60)]
fn push_escaped(out: &mut Vec<u8>, s: &[u8])
    ensures
        final(out)@ == old(out)@ + esc(s@),
{
    let n = s.len();
    proof {
        assert(esc(s@.take(0)) =~= Seq::<u8>::empty());
        assert(old(out)@ + esc(s@.take(0)) =~= old(out)@);
    }
    for i in 0..n
        invariant
            n == s@.len(),
            out@ == old(out)@ + esc(s@.take(i as int)),
    {
        let b = s[i];
        if b == 34 {
            out.push(92);
            out.push(34);
        } else if b == 92 {
            out.push(92);
            out.push(92);
        } else if b < 32 {
            out.push(92);
            out.push(117);
            out.push(48);
            out.push(48);
            out.push(if b / 16 < 10 { 48 + b / 16 } else { 87 + b / 16 });
            out.push(if b % 16 < 10 { 48 + b % 16 } else { 87 + b % 16 });
        } else {
            out.push(b);
        }
        proof {
            assert(s@.take(i + 1) =~= s@.take(i as int) + seq![s@[i as int]]);
            lemma_esc_concat(s@.take(i as int), seq![s@[i as int]]);
            reveal_with_fuel(esc, 2);
            assert(seq![s@[i as int]].drop_first() =~= Seq::<u8>::empty());
            assert(esc(seq![s@[i as int]]) =~= esc_byte(s@[i as int]));
            assert(out@ =~= old(out)@ + esc(s@.take(i + 1)));
        }
    }
    proof {
        assert(s@.take(n as int) == s@);
    }
}

/// Append a quoted, escaped JSON string.
fn push_json_string(out: &mut Vec<u8>, s: &[u8])
    ensures
        final(out)@ == old(out)@ + json_string(s@),
{
    out.push(34);
    push_escaped(out, s);
    out.push(34);
    proof {
        assert(out@ =~= old(out)@ + json_string(s@));
    }
}

/// Serialize a history to its persisted JSON form.
pub fn history_to_json(h: &FileHistory) -> (r: Vec<u8>)
    ensures
        r@ == json_of(h@),
{
    let mut out: Vec<u8> = Vec::new();
    let l1: [u8; 16] = [123u8, 10, 32, 32, 34, 118, 101, 114, 115, 105, 111, 110, 115, 34, 58, 32];
    proof {
        assert(l1@ =~= l_open());
    }
    push_bytes(&mut out, l1.as_slice());

    let n = h.versions.len();
    if n == 0 {
        let la: [u8; 2] = [91u8, 93];
        proof {
            assert(la@ =~= l_arr_empty());
        }
        push_bytes(&mut out, la.as_slice());
    } else {
        let la: [u8; 2] = [91u8, 10];
        proof {
            assert(la@ =~= l_arr_open());
        }
        push_bytes(&mut out, la.as_slice());
        let ghost base = out@;
        for i in 0..n
            invariant
                n == h.versions@.len(),
                n > 0,
                out@ == base + items_json(h@.versions.take(i as int)),
        {
            if i > 0 {
                let ls: [u8; 2] = [44u8, 10];
                proof {
                    assert(ls@ =~= l_sep());
                }
                push_bytes(&mut out, ls.as_slice());
            }
            push_version(&mut out, &h.versions[i]);
            proof {
                assert(h@.versions.take(i + 1) =~= h@.versions.take(i as int).push(
                    h@.versions[i as int],
                ));
                lemma_items_push(h@.versions.take(i as int), h@.versions[i as int]);
                assert(h.versions@[i as int]@ == h@.versions[i as int]);
                assert(out@ =~= base + items_json(h@.versions.take(i + 1)));
            }
        }
        proof {
            assert(h@.versions.take(n as int) == h@.versions);
        }
        let lc: [u8; 4] = [10u8, 32, 32, 93];
        proof {
            assert(lc@ =~= l_arr_close());
        }
        push_bytes(&mut out, lc.as_slice());
    }

    let lal: [u8; 13] = [44u8, 10, 32, 32, 34, 97, 108, 105, 97, 115, 34, 58, 32];
    proof {
        assert(lal@ =~= l_key_alias());
    }
    push_bytes(&mut out, lal.as_slice());
    push_json_string(&mut out, self_slice(&h.alias));
    let lpp: [u8; 21] = [44u8, 10, 32, 32, 34, 111, 114, 105, 103, 105, 110, 97, 108, 95, 112, 97,
        116, 104, 34, 58, 32];
    proof {
        assert(lpp@ =~= l_key_path());
    }
    push_bytes(&mut out, lpp.as_slice());
    push_json_string(&mut out, self_slice(&h.original_path));
    let le: [u8; 2] = [10u8, 125];
    proof {
        assert(le@ =~= l_close());
    }
    push_bytes(&mut out, le.as_slice());
    proof {
        assert(out@ =~= json_of(h@));
    }
    out
}

/// A vector's bytes as a slice.
fn self_slice(v: &Vec<u8>) -> (r: &[u8])
    ensures
        r@ == v@,
{
    v.as_slice()
}

/// Append one version record.
#[verifier::rlimit(60)]
fn push_version(out: &mut Vec<u8>, v: &FileVersion)
    ensures
        final(out)@ == old(out)@ + version_json(v@),
{
    let li: [u8; 23] = [32u8, 32, 32, 32, 123, 10, 32, 32, 32, 32, 32, 32, 34, 118, 101, 114, 115,
        105, 111, 110, 34, 58, 32];
    proof {
        assert(li@ =~= l_item_open());
    }
    push_bytes(out, li.as_slice());
    push_dec(out, v.version as u128);
    let lh: [u8; 16] = [44u8, 10, 32, 32, 32, 32, 32, 32, 34, 104, 97, 115, 104, 34, 58, 32];
    proof {
        assert(lh@ =~= l_key_hash());
    }
    push_bytes(out, lh.as_slice());
    push_json_string(out, self_slice(&v.hash));
    let lz: [u8; 16] = [44u8, 10, 32, 32, 32, 32, 32, 32, 34, 115, 105, 122, 101, 34, 58, 32];
    proof {
        assert(lz@ =~= l_key_size());
    }
    push_bytes(out, lz.as_slice());
    push_dec(out, v.size as u128);
    let lm: [u8; 20] = [44u8, 10, 32, 32, 32, 32, 32, 32, 34, 109, 116, 105, 109, 101, 95, 110,
        115, 34, 58, 32];
    proof {
        assert(lm@ =~= l_key_mtime());
    }
    push_bytes(out, lm.as_slice());
    push_dec(out, v.mtime_ns);
    let lp: [u8; 24] = [44u8, 10, 32, 32, 32, 32, 32, 32, 34, 112, 114, 111, 99, 101, 115, 115,
        101, 100, 95, 97, 116, 34, 58, 32];
    proof {
        assert(lp@ =~= l_key_processed());
    }
    push_bytes(out, lp.as_slice());
    push_json_string(out, self_slice(&v.processed_at));
    let ld: [u8; 21] = [44u8, 10, 32, 32, 32, 32, 32, 32, 34, 100, 105, 102, 102, 95, 102, 105,
        108, 101, 34, 58, 32];
    proof {
        assert(ld@ =~= l_key_diff());
    }
    push_bytes(out, ld.as_slice());
    match &v.diff_file {
        Option::Some(d) => {
            push_json_string(out, self_slice(d));
        },
        Option::None => {
            let ln: [u8; 4] = [110u8, 117, 108, 108];
            proof {
                assert(ln@ =~= l_null());
            }
            push_bytes(out, ln.as_slice());
        },
    }
    let lc: [u8; 6] = [10u8, 32, 32, 32, 32, 125];
    proof {
        assert(lc@ =~= l_item_close());
    }
    push_bytes(out, lc.as_slice());
    proof {
        assert(out@ =~= old(out)@ + version_json(v@));
    }
}


// ----------------------------------------------------------------------
// Parser specification.
// ----------------------------------------------------------------------

/// Recognize the exact bytes `l` at position `i`; the new position.
pub open spec fn sp_lit(s: Seq<u8>, i: int, l: Seq<u8>) -> Option<int> {
    if 0 <= i && i + l.len() <= s.len() && s.subrange(i, i + l.len()) == l {
        Some(i + l.len())
    } else {
        None
    }
}

/// The end of the digit run starting at `i`.
pub open spec fn digits_end(s: Seq<u8>, i: int) -> int
    decreases s.len() - i,
    when 0 <= i <= s.len()
{
    if i < s.len() && is_digit(s[i]) {
        digits_end(s, i + 1)
    } else {
        i
    }
}

/// The value of the digits `s[i..j]`.
pub open spec fn digits_val(s: Seq<u8>, i: int, j: int) -> nat
    decreases j - i,
{
    if j <= i {
        0
    } else {
        digits_val(s, i, j - 1) * 10 + (if s[j - 1] >= 48 {
            (s[j - 1] - 48) as nat
        } else {
            0
        })
    }
}

/// A nonempty digit run and its value.
pub open spec fn sp_number(s: Seq<u8>, i: int) -> Option<(nat, int)>
    recommends
        0 <= i <= s.len(),
{
    let j = digits_end(s, i);
    if j > i {
        Some((digits_val(s, i, j), j))
    } else {
        None
    }
}

/// A number that fits in `u64`.
pub open spec fn sp_u64(s: Seq<u8>, i: int) -> Option<(u64, int)> {
    match sp_number(s, i) {
        None => None,
        Some((v, j)) => if v <= u64::MAX {
            Some((v as u64, j))
        } else {
            None
        },
    }
}

/// A number that fits in `u128`.
pub open spec fn sp_u128(s: Seq<u8>, i: int) -> Option<(u128, int)> {
    match sp_number(s, i) {
        None => None,
        Some((v, j)) => if v <= u128::MAX {
            Some((v as u128, j))
        } else {
            None
        },
    }
}

/// The value of one hex digit, 16 when the byte is no lowercase hex digit.
pub open spec fn hex_val(b: u8) -> nat {
    if 48 <= b <= 57 {
        (b - 48) as nat
    } else if 97 <= b <= 102 {
        (b - 87) as nat
    } else {
        16
    }
}

/// A string body after the opening quote: unescapes up to and including the
/// closing quote. Raw control bytes and unknown escapes are refused.
pub open spec fn sp_str_body(s: Seq<u8>, i: int) -> Option<(Seq<u8>, int)>
    decreases s.len() - i,
    when 0 <= i <= s.len()
{
    if i >= s.len() {
        None
    } else if s[i] == 34 {
        Some((Seq::empty(), i + 1))
    } else if s[i] == 92 {
        if i + 1 < s.len() && (s[i + 1] == 34 || s[i + 1] == 92) {
            match sp_str_body(s, i + 2) {
                None => None,
                Some((v, j)) => Some((seq![s[i + 1]] + v, j)),
            }
        } else if i + 5 < s.len() && s[i + 1] == 117 && s[i + 2] == 48 && s[i + 3] == 48 && hex_val(
            s[i + 4],
        ) < 16 && hex_val(s[i + 5]) < 16 && hex_val(s[i + 4]) * 16 + hex_val(s[i + 5]) < 32 {
            match sp_str_body(s, i + 6) {
                None => None,
                Some((v, j)) => Some(
                    (seq![(hex_val(s[i + 4]) * 16 + hex_val(s[i + 5])) as u8] + v, j),
                ),
            }
        } else {
            None
        }
    } else if s[i] < 32 {
        None
    } else {
        match sp_str_body(s, i + 1) {
            None => None,
            Some((v, j)) => Some((seq![s[i]] + v, j)),
        }
    }
}

/// A quoted string.
pub open spec fn sp_string(s: Seq<u8>, i: int) -> Option<(Seq<u8>, int)> {
    if 0 <= i < s.len() && s[i] == 34 {
        sp_str_body(s, i + 1)
    } else {
        None
    }
}

/// One version record.
pub open spec fn sp_version(s: Seq<u8>, i: int) -> Option<(VersionView, int)> {
    match sp_lit(s, i, l_item_open()) {
        None => None,
        Some(j0) => match sp_u64(s, j0) {
            None => None,
            Some((version, j1)) => match sp_lit(s, j1, l_key_hash()) {
                None => None,
                Some(j2) => match sp_string(s, j2) {
                    None => None,
                    Some((hash, j3)) => match sp_lit(s, j3, l_key_size()) {
                        None => None,
                        Some(j4) => match sp_u64(s, j4) {
                            None => None,
                            Some((size, j5)) => match sp_lit(s, j5, l_key_mtime()) {
                                None => None,
                                Some(j6) => match sp_u128(s, j6) {
                                    None => None,
                                    Some((mtime_ns, j7)) => match sp_lit(s, j7, l_key_processed()) {
                                        None => None,
                                        Some(j8) => match sp_string(s, j8) {
                                            None => None,
                                            Some((processed_at, j9)) => match sp_lit(s, j9, l_key_diff()) {
                                                None => None,
                                                Some(j10) => sp_version_tail(s, j10, version, hash, size, mtime_ns, processed_at),
                                            },
                                        },
                                    },
                                },
                            },
                        },
                    },
                },
            },
        },
    }
}

/// The tail of a version record: `null` or a diff name, then the closer.
pub open spec fn sp_version_tail(
    s: Seq<u8>,
    i: int,
    version: u64,
    hash: Seq<u8>,
    size: u64,
    mtime_ns: u128,
    processed_at: Seq<u8>,
) -> Option<(VersionView, int)> {
    let diff = match sp_lit(s, i, l_null()) {
        Some(j) => Some((None::<Seq<u8>>, j)),
        None => match sp_string(s, i) {
            Some((d, j)) => Some((Some(d), j)),
            None => None,
        },
    };
    match diff {
        None => None,
        Some((diff_file, j11)) => match sp_lit(s, j11, l_item_close()) {
            None => None,
            Some(j12) => Some(
                (VersionView { version, hash, size, mtime_ns, processed_at, diff_file }, j12),
            ),
        },
    }
}

/// One or more version records joined by `,\n`.
pub open spec fn sp_items(s: Seq<u8>, i: int, fuel: nat) -> Option<(Seq<VersionView>, int)>
    decreases fuel,
{
    if fuel == 0 {
        None
    } else {
        match sp_version(s, i) {
            None => None,
            Some((v, j)) => match sp_lit(s, j, l_sep()) {
                None => Some((seq![v], j)),
                Some(k) => match sp_items(s, k, (fuel - 1) as nat) {
                    None => None,
                    Some((vs, m)) => Some((seq![v] + vs, m)),
                },
            },
        }
    }
}

/// The versions array: `[]`, or records between `[\n` and `\n  ]`.
pub open spec fn sp_versions_block(s: Seq<u8>, i: int) -> Option<(Seq<VersionView>, int)> {
    match sp_lit(s, i, l_arr_empty()) {
        Some(j1) => Some((Seq::<VersionView>::empty(), j1)),
        None => match sp_lit(s, i, l_arr_open()) {
            None => None,
            Some(j1) => match sp_items(s, j1, s.len()) {
                None => None,
                Some((vs, j2)) => match sp_lit(s, j2, l_arr_close()) {
                    None => None,
                    Some(j3) => Some((vs, j3)),
                },
            },
        },
    }
}

/// The tail of the document: alias, original path, closer, end of input.
pub open spec fn sp_history_tail(s: Seq<u8>, i: int, versions: Seq<VersionView>) -> Option<
    HistoryView,
> {
    match sp_lit(s, i, l_key_alias()) {
        None => None,
        Some(j5) => match sp_string(s, j5) {
            None => None,
            Some((alias, j6)) => match sp_lit(s, j6, l_key_path()) {
                None => None,
                Some(j7) => match sp_string(s, j7) {
                    None => None,
                    Some((original_path, j8)) => match sp_lit(s, j8, l_close()) {
                        None => None,
                        Some(j9) => if j9 == s.len() {
                            Some((HistoryView { versions, alias, original_path }))
                        } else {
                            None
                        },
                    },
                },
            },
        },
    }
}

/// A whole history document; the entire input must be consumed.
pub open spec fn sp_history(s: Seq<u8>) -> Option<HistoryView> {
    match sp_lit(s, 0, l_open()) {
        None => None,
        Some(j0) => match sp_versions_block(s, j0) {
            None => None,
            Some((versions, j4)) => sp_history_tail(s, j4, versions),
        },
    }
}


// ----------------------------------------------------------------------
// Executable parser.
// ----------------------------------------------------------------------

/// Recognize the exact bytes `l` at position `i`.
fn expect_bytes(s: &[u8], i: usize, l: &[u8]) -> (r: Option<usize>)
    requires
        i <= s@.len(),
    ensures
        (match r {
            Some(j) => sp_lit(s@, i as int, l@) == Some(j as int) && i <= j <= s@.len() && j - i
                == l@.len(),
            None => sp_lit(s@, i as int, l@) == None::<int>,
        }),
{
    if s.len() - i < l.len() {
        return None;
    }
    let n = l.len();
    proof {
        assert(s.len() == s@.len());
        assert(l.len() == l@.len());
    }
    let mut k: usize = 0;
    while k < n
        invariant
            n == l@.len(),
            i + n <= s@.len() <= usize::MAX,
            k <= n,
            forall|t: int| 0 <= t < k ==> #[trigger] s@[i + t] == l@[t],
        decreases n - k,
    {
        if s[i + k] != l[k] {
            proof {
                assert(s@.subrange(i as int, i + l@.len())[k as int] == s@[i + k]);
                assert(s@.subrange(i as int, i + l@.len()) != l@);
            }
            return None;
        }
        k = k + 1;
    }
    proof {
        assert forall|t: int| 0 <= t < l@.len() implies s@.subrange(i as int, i + l@.len())[t]
            == l@[t] by {
            assert(s@.subrange(i as int, i + l@.len())[t] == s@[i + t]);
        }
        assert(s@.subrange(i as int, i + l@.len()) =~= l@);
    }
    Some(i + n)
}

/// Everything before the end of a digit run is a digit.
proof fn lemma_digits_end_range(s: Seq<u8>, i: int)
    requires
        0 <= i <= s.len(),
    ensures
        i <= digits_end(s, i) <= s.len(),
        forall|k: int| i <= k < digits_end(s, i) ==> is_digit(#[trigger] s[k]),
        digits_end(s, i) == s.len() || !is_digit(s[digits_end(s, i)]),
    decreases s.len() - i,
{
    if i < s.len() && is_digit(s[i]) {
        lemma_digits_end_range(s, i + 1);
    }
}

/// The end of the digit run starting at `i`.
fn scan_digits(s: &[u8], i: usize) -> (j: usize)
    requires
        i <= s@.len(),
    ensures
        i <= j <= s@.len(),
        digits_end(s@, i as int) == j as int,
{
    let mut j = i;
    loop
        invariant
            i <= j <= s@.len(),
            digits_end(s@, i as int) == digits_end(s@, j as int),
        decreases s@.len() - j,
    {
        if j < s.len() && s[j] >= 48 && s[j] <= 57 {
            j = j + 1;
        } else {
            return j;
        }
    }
}

/// Parse a decimal number that fits in `u128`.
fn parse_u128(s: &[u8], i: usize) -> (r: Option<(u128, usize)>)
    requires
        i <= s@.len(),
    ensures
        (match r {
            Some(p) => sp_u128(s@, i as int) == Some((p.0, p.1 as int)) && i < p.1 <= s@.len(),
            None => sp_u128(s@, i as int) == None::<(u128, int)>,
        }),
{
    let end = scan_digits(s, i);
    proof {
        lemma_digits_end_range(s@, i as int);
    }
    if end == i {
        return None;
    }
    let mut acc: u128 = 0;
    let mut over = false;
    let mut k = i;
    while k < end
        invariant
            i <= k <= end <= s@.len(),
            end == digits_end(s@, i as int),
            forall|t: int| i <= t < end ==> is_digit(#[trigger] s@[t]),
            !over ==> acc == digits_val(s@, i as int, k as int),
            over ==> digits_val(s@, i as int, k as int) > u128::MAX,
        decreases end - k,
    {
        let ghost prev = digits_val(s@, i as int, k as int);
        let d = (s[k] - 48) as u128;
        proof {
            assert(digits_val(s@, i as int, k + 1) == prev * 10 + d);
        }
        if !over {
            if acc <= (u128::MAX - d) / 10 {
                proof {
                    assert(acc * 10 + d <= u128::MAX) by (nonlinear_arith)
                        requires
                            acc <= (u128::MAX - d) / 10,
                            d <= 9,
                    ;
                }
                acc = acc * 10 + d;
            } else {
                proof {
                    assert(acc * 10 + d > u128::MAX) by (nonlinear_arith)
                        requires
                            acc > (u128::MAX - d) / 10,
                            d <= 9,
                    ;
                }
                over = true;
            }
        } else {
            proof {
                assert(prev * 10 + d > u128::MAX) by (nonlinear_arith)
                    requires
                        prev > u128::MAX,
                    ;
            }
        }
        k = k + 1;
    }
    if over {
        return None;
    }
    Some((acc, end))
}

/// Parse a decimal number that fits in `u64`.
fn parse_u64(s: &[u8], i: usize) -> (r: Option<(u64, usize)>)
    requires
        i <= s@.len(),
    ensures
        (match r {
            Some(p) => sp_u64(s@, i as int) == Some((p.0, p.1 as int)) && i < p.1 <= s@.len(),
            None => sp_u64(s@, i as int) == None::<(u64, int)>,
        }),
{
    match parse_u128(s, i) {
        None => None,
        Some((v, j)) => {
            if v <= u64::MAX as u128 {
                Some((v as u64, j))
            } else {
                None
            }
        },
    }
}

/// Parse a string body after the opening quote, unescaping.
fn parse_str_body(s: &[u8], i: usize) -> (r: Option<(Vec<u8>, usize)>)
    requires
        i <= s@.len(),
    ensures
        (match r {
            Some(p) => sp_str_body(s@, i as int) == Some((p.0@, p.1 as int)) && i < p.1 <= s@.len(),
            None => sp_str_body(s@, i as int) == None::<(Seq<u8>, int)>,
        }),
    decreases s@.len() - i,
{
    if i >= s.len() {
        return None;
    }
    let b = s[i];
    if b == 34 {
        let empty: Vec<u8> = Vec::new();
        proof {
            assert(empty@ =~= Seq::<u8>::empty());
        }
        return Some((empty, i + 1));
    }
    if b == 92 {
        if s.len() - i > 1 && (s[i + 1] == 34 || s[i + 1] == 92) {
            match parse_str_body(s, i + 2) {
                None => None,
                Some((mut v, j)) => {
                    let ghost tail = v@;
                    v.insert(0, s[i + 1]);
                    proof {
                        assert(v@ =~= seq![s@[i + 1]] + tail);
                    }
                    Some((v, j))
                },
            }
        } else if s.len() - i > 5 && s[i + 1] == 117 && s[i + 2] == 48 && s[i + 3] == 48 {
            let h1 = s[i + 4];
            let h2 = s[i + 5];
            let v1: u16 = if 48 <= h1 && h1 <= 57 {
                (h1 - 48) as u16
            } else if 97 <= h1 && h1 <= 102 {
                (h1 - 87) as u16
            } else {
                16
            };
            let v2: u16 = if 48 <= h2 && h2 <= 57 {
                (h2 - 48) as u16
            } else if 97 <= h2 && h2 <= 102 {
                (h2 - 87) as u16
            } else {
                16
            };
            if v1 < 16 && v2 < 16 && v1 * 16 + v2 < 32 {
                match parse_str_body(s, i + 6) {
                    None => None,
                    Some((mut v, j)) => {
                        let ghost tail = v@;
                        v.insert(0, (v1 * 16 + v2) as u8);
                        proof {
                            assert(v@ =~= seq![(hex_val(s@[i + 4]) * 16 + hex_val(
                                s@[i + 5],
                            )) as u8] + tail);
                        }
                        Some((v, j))
                    },
                }
            } else {
                None
            }
        } else {
            None
        }
    } else if b < 32 {
        None
    } else {
        match parse_str_body(s, i + 1) {
            None => None,
            Some((mut v, j)) => {
                let ghost tail = v@;
                v.insert(0, b);
                proof {
                    assert(v@ =~= seq![s@[i as int]] + tail);
                }
                Some((v, j))
            },
        }
    }
}

/// Parse a quoted string.
fn parse_string(s: &[u8], i: usize) -> (r: Option<(Vec<u8>, usize)>)
    requires
        i <= s@.len(),
    ensures
        (match r {
            Some(p) => sp_string(s@, i as int) == Some((p.0@, p.1 as int)) && i < p.1 <= s@.len(),
            None => sp_string(s@, i as int) == None::<(Seq<u8>, int)>,
        }),
{
    if i < s.len() && s[i] == 34 {
        parse_str_body(s, i + 1)
    } else {
        None
    }
}

/// Parse one version record.
#[verifier::rlimit(100)]
fn parse_version(s: &[u8], i: usize) -> (r: Option<(FileVersion, usize)>)
    requires
        i <= s@.len(),
    ensures
        (match r {
            Some(p) => sp_version(s@, i as int) == Some((p.0@, p.1 as int)) && i < p.1 <= s@.len(),
            None => sp_version(s@, i as int) == None::<(VersionView, int)>,
        }),
{
    let li: [u8; 23] = [32u8, 32, 32, 32, 123, 10, 32, 32, 32, 32, 32, 32, 34, 118, 101, 114, 115,
        105, 111, 110, 34, 58, 32];
    proof {
        assert(li@ =~= l_item_open());
    }
    let j0 = match expect_bytes(s, i, li.as_slice()) {
        None => {
            return None;
        },
        Some(j) => j,
    };
    let (version, j1) = match parse_u64(s, j0) {
        None => {
            return None;
        },
        Some(p) => p,
    };
    let lh: [u8; 16] = [44u8, 10, 32, 32, 32, 32, 32, 32, 34, 104, 97, 115, 104, 34, 58, 32];
    proof {
        assert(lh@ =~= l_key_hash());
    }
    let j2 = match expect_bytes(s, j1, lh.as_slice()) {
        None => {
            return None;
        },
        Some(j) => j,
    };
    let (hash, j3) = match parse_string(s, j2) {
        None => {
            return None;
        },
        Some(p) => p,
    };
    let lz: [u8; 16] = [44u8, 10, 32, 32, 32, 32, 32, 32, 34, 115, 105, 122, 101, 34, 58, 32];
    proof {
        assert(lz@ =~= l_key_size());
    }
    let j4 = match expect_bytes(s, j3, lz.as_slice()) {
        None => {
            return None;
        },
        Some(j) => j,
    };
    let (size, j5) = match parse_u64(s, j4) {
        None => {
            return None;
        },
        Some(p) => p,
    };
    let lm: [u8; 20] = [44u8, 10, 32, 32, 32, 32, 32, 32, 34, 109, 116, 105, 109, 101, 95, 110,
        115, 34, 58, 32];
    proof {
        assert(lm@ =~= l_key_mtime());
    }
    let j6 = match expect_bytes(s, j5, lm.as_slice()) {
        None => {
            return None;
        },
        Some(j) => j,
    };
    let (mtime_ns, j7) = match parse_u128(s, j6) {
        None => {
            return None;
        },
        Some(p) => p,
    };
    let lp: [u8; 24] = [44u8, 10, 32, 32, 32, 32, 32, 32, 34, 112, 114, 111, 99, 101, 115, 115,
        101, 100, 95, 97, 116, 34, 58, 32];
    proof {
        assert(lp@ =~= l_key_processed());
    }
    let j8 = match expect_bytes(s, j7, lp.as_slice()) {
        None => {
            return None;
        },
        Some(j) => j,
    };
    let (processed_at, j9) = match parse_string(s, j8) {
        None => {
            return None;
        },
        Some(p) => p,
    };
    let ld: [u8; 21] = [44u8, 10, 32, 32, 32, 32, 32, 32, 34, 100, 105, 102, 102, 95, 102, 105,
        108, 101, 34, 58, 32];
    proof {
        assert(ld@ =~= l_key_diff());
    }
    let j10 = match expect_bytes(s, j9, ld.as_slice()) {
        None => {
            return None;
        },
        Some(j) => j,
    };
    let ln: [u8; 4] = [110u8, 117, 108, 108];
    proof {
        assert(ln@ =~= l_null());
    }
    let (diff_file, j11) = match expect_bytes(s, j10, ln.as_slice()) {
        Some(j) => (None::<Vec<u8>>, j),
        None => {
            match parse_string(s, j10) {
                None => {
                    return None;
                },
                Some((d, j)) => (Some(d), j),
            }
        },
    };
    let lc: [u8; 6] = [10u8, 32, 32, 32, 32, 125];
    proof {
        assert(lc@ =~= l_item_close());
    }
    let j12 = match expect_bytes(s, j11, lc.as_slice()) {
        None => {
            return None;
        },
        Some(j) => j,
    };
    let record = FileVersion { version, hash, size, mtime_ns, processed_at, diff_file };
    Some((record, j12))
}

/// Parse one or more version records joined by `,\n`.
fn parse_items(s: &[u8], i: usize, fuel: usize) -> (r: Option<(Vec<FileVersion>, usize)>)
    requires
        i <= s@.len(),
    ensures
        (match r {
            Some(p) => sp_items(s@, i as int, fuel as nat) == Some(
                (versions_view(p.0@), p.1 as int),
            ) && p.1 <= s@.len(),
            None => sp_items(s@, i as int, fuel as nat) == None::<(Seq<VersionView>, int)>,
        }),
    decreases fuel,
{
    if fuel == 0 {
        return None;
    }
    let (v, j) = match parse_version(s, i) {
        None => {
            return None;
        },
        Some(p) => p,
    };
    let ls: [u8; 2] = [44u8, 10];
    proof {
        assert(ls@ =~= l_sep());
    }
    match expect_bytes(s, j, ls.as_slice()) {
        None => {
            let ghost vv = v@;
            let mut out: Vec<FileVersion> = Vec::new();
            out.push(v);
            proof {
                assert(versions_view(out@) =~= seq![vv]);
            }
            Some((out, j))
        },
        Some(k) => {
            match parse_items(s, k, fuel - 1) {
                None => None,
                Some((mut vs, m)) => {
                    let ghost vv = v@;
                    let ghost tail = vs@;
                    vs.insert(0, v);
                    proof {
                        assert(versions_view(vs@) =~= seq![vv] + versions_view(tail));
                    }
                    Some((vs, m))
                },
            }
        },
    }
}

/// Parse the versions array.
#[verifier::rlimit(100)]
fn parse_versions_block(s: &[u8], i: usize) -> (r: Option<(Vec<FileVersion>, usize)>)
    requires
        i <= s@.len(),
    ensures
        (match r {
            Some(p) => sp_versions_block(s@, i as int) == Some(
                (versions_view(p.0@), p.1 as int),
            ) && p.1 <= s@.len(),
            None => sp_versions_block(s@, i as int) == None::<(Seq<VersionView>, int)>,
        }),
{
    let le: [u8; 2] = [91u8, 93];
    proof {
        assert(le@ =~= l_arr_empty());
    }
    match expect_bytes(s, i, le.as_slice()) {
        Some(j) => {
            let empty: Vec<FileVersion> = Vec::new();
            proof {
                assert(versions_view(empty@) =~= Seq::<VersionView>::empty());
            }
            Some((empty, j))
        },
        None => {
            let lo: [u8; 2] = [91u8, 10];
            proof {
                assert(lo@ =~= l_arr_open());
            }
            let j1 = match expect_bytes(s, i, lo.as_slice()) {
                None => {
                    return None;
                },
                Some(j) => j,
            };
            let (vs, j2) = match parse_items(s, j1, s.len()) {
                None => {
                    return None;
                },
                Some(p) => p,
            };
            let lc: [u8; 4] = [10u8, 32, 32, 93];
            proof {
                assert(lc@ =~= l_arr_close());
            }
            match expect_bytes(s, j2, lc.as_slice()) {
                None => None,
                Some(j3) => Some((vs, j3)),
            }
        },
    }
}

/// Parse a whole history document. Succeeds exactly on the byte strings the
/// parser specification `sp_history` accepts — in particular on everything
/// `history_to_json` emits.
#[verifier::rlimit(100)]
pub fn history_from_json(data: &[u8]) -> (r: Option<FileHistory>)
    ensures
        (match r {
            Some(h) => sp_history(data@) == Some(h@),
            None => sp_history(data@) == None::<HistoryView>,
        }),
{
    let l1: [u8; 16] = [123u8, 10, 32, 32, 34, 118, 101, 114, 115, 105, 111, 110, 115, 34, 58, 32];
    proof {
        assert(l1@ =~= l_open());
    }
    let j0 = match expect_bytes(data, 0, l1.as_slice()) {
        None => {
            return None;
        },
        Some(j) => j,
    };
    let (versions, j4) = match parse_versions_block(data, j0) {
        None => {
            return None;
        },
        Some(p) => p,
    };
    let la: [u8; 13] = [44u8, 10, 32, 32, 34, 97, 108, 105, 97, 115, 34, 58, 32];
    proof {
        assert(la@ =~= l_key_alias());
    }
    let j5 = match expect_bytes(data, j4, la.as_slice()) {
        None => {
            return None;
        },
        Some(j) => j,
    };
    let (alias, j6) = match parse_string(data, j5) {
        None => {
            return None;
        },
        Some(p) => p,
    };
    let lp: [u8; 21] = [44u8, 10, 32, 32, 34, 111, 114, 105, 103, 105, 110, 97, 108, 95, 112, 97,
        116, 104, 34, 58, 32];
    proof {
        assert(lp@ =~= l_key_path());
    }
    let j7 = match expect_bytes(data, j6, lp.as_slice()) {
        None => {
            return None;
        },
        Some(j) => j,
    };
    let (original_path, j8) = match parse_string(data, j7) {
        None => {
            return None;
        },
        Some(p) => p,
    };
    let le: [u8; 2] = [10u8, 125];
    proof {
        assert(le@ =~= l_close());
    }
    let j9 = match expect_bytes(data, j8, le.as_slice()) {
        None => {
            return None;
        },
        Some(j) => j,
    };
    if j9 != data.len() {
        return None;
    }
    let h = FileHistory { versions, alias, original_path };
    Some(h)
}


// ----------------------------------------------------------------------
// Round trip: the parser accepts exactly what the emitter wrote.
// ----------------------------------------------------------------------

/// Split knowledge of a stretch of `s` into its two halves.
proof fn lemma_peel(s: Seq<u8>, i: int, a: Seq<u8>, b: Seq<u8>)
    requires
        0 <= i,
        i + a.len() + b.len() <= s.len(),
        s.subrange(i, i + a.len() + b.len()) == a + b,
    ensures
        s.subrange(i, i + a.len()) == a,
        s.subrange(i + a.len(), i + a.len() + b.len()) == b,
{
    assert forall|k: int| 0 <= k < a.len() implies s.subrange(i, i + a.len())[k] == a[k] by {
        assert(s.subrange(i, i + a.len() + b.len())[k] == (a + b)[k]);
        assert(s.subrange(i, i + a.len())[k] == s[i + k]);
        assert(s.subrange(i, i + a.len() + b.len())[k] == s[i + k]);
    }
    assert(s.subrange(i, i + a.len()) =~= a);
    assert forall|k: int| 0 <= k < b.len() implies s.subrange(
        i + a.len(),
        i + a.len() + b.len(),
    )[k] == b[k] by {
        assert(s.subrange(i, i + a.len() + b.len())[a.len() + k] == (a + b)[a.len() + k]);
        assert(s.subrange(i, i + a.len() + b.len())[a.len() + k] == s[i + a.len() + k]);
        assert(s.subrange(i + a.len(), i + a.len() + b.len())[k] == s[i + a.len() + k]);
        assert((a + b)[a.len() + k] == b[k]);
    }
    assert(s.subrange(i + a.len(), i + a.len() + b.len()) =~= b);
}

/// The first byte of a known stretch.
proof fn lemma_first_byte(s: Seq<u8>, i: int, a: Seq<u8>)
    requires
        0 <= i,
        a.len() >= 1,
        i + a.len() <= s.len(),
        s.subrange(i, i + a.len()) == a,
    ensures
        s[i] == a[0],
{
    assert(s.subrange(i, i + a.len())[0] == s[i]);
}

/// A digit run bounded on the right ends exactly there.
proof fn lemma_digits_end_exact(s: Seq<u8>, i: int, j: int)
    requires
        0 <= i <= j <= s.len(),
        forall|k: int| i <= k < j ==> is_digit(#[trigger] s[k]),
        j == s.len() || !is_digit(s[j]),
    ensures
        digits_end(s, i) == j,
    decreases j - i,
{
    if i < j {
        lemma_digits_end_exact(s, i + 1, j);
    }
}

/// The digits of `n` read back as `n`.
proof fn lemma_rt_val(s: Seq<u8>, i: int, n: nat)
    requires
        0 <= i,
        i + dec(n).len() <= s.len(),
        s.subrange(i, i + dec(n).len()) == dec(n),
    ensures
        digits_val(s, i, i + dec(n).len()) == n,
    decreases n,
{
    let l = dec(n).len() as int;
    if n < 10 {
        lemma_first_byte(s, i, dec(n));
        assert(digits_val(s, i, i) == 0);
        assert(digits_val(s, i, i + 1) == (s[i] - 48) as nat);
    } else {
        let pre = dec(n / 10);
        let d = (48 + n % 10) as u8;
        assert(dec(n) == pre.push(d));
        assert(pre.push(d) =~= pre + seq![d]);
        lemma_peel(s, i, pre, seq![d]);
        lemma_rt_val(s, i, n / 10);
        lemma_first_byte(s, i + l - 1, seq![d]);
        assert(digits_val(s, i, i + l) == digits_val(s, i, i + l - 1) * 10 + (s[i + l - 1]
            - 48) as nat);
        assert((n / 10) * 10 + n % 10 == n) by (nonlinear_arith);
    }
}

/// A number, emitted and followed by a non-digit, parses back to itself.
proof fn lemma_rt_number(s: Seq<u8>, i: int, n: nat)
    requires
        0 <= i,
        i + dec(n).len() <= s.len(),
        s.subrange(i, i + dec(n).len()) == dec(n),
        i + dec(n).len() == s.len() || !is_digit(s[i + dec(n).len()]),
    ensures
        sp_number(s, i) == Some((n, i + dec(n).len())),
{
    let j = i + dec(n).len();
    lemma_dec_digits(n);
    assert forall|k: int| i <= k < j implies is_digit(#[trigger] s[k]) by {
        assert(s.subrange(i, j)[k - i] == s[k]);
        assert(dec(n)[k - i] == s[k]);
    }
    lemma_digits_end_exact(s, i, j);
    lemma_rt_val(s, i, n);
}

/// One hex digit of the escape form reads back as its value.
proof fn lemma_hex_val_digit(x: u8)
    requires
        x < 16,
    ensures
        hex_val(hex_digit(x)) == x,
{
}

/// A string body, emitted and closed with a quote, parses back to itself.
proof fn lemma_rt_str_body(s: Seq<u8>, i: int, v: Seq<u8>)
    requires
        0 <= i,
        i + esc(v).len() + 1 <= s.len(),
        s.subrange(i, i + esc(v).len()) == esc(v),
        s[i + esc(v).len()] == 34,
    ensures
        sp_str_body(s, i) == Some((v, i + esc(v).len() + 1)),
    decreases v.len(),
{
    if v.len() == 0 {
        assert(esc(v).len() == 0);
        assert(s[i] == 34);
        assert(v =~= Seq::<u8>::empty());
    } else {
        let h = v[0];
        let t = v.drop_first();
        let eb = esc_byte(h);
        assert(esc(v) == eb + esc(t));
        lemma_peel(s, i, eb, esc(t));
        let m = i + eb.len();
        assert forall|k: int| 0 <= k < eb.len() implies s[i + k] == eb[k] by {
            assert(s.subrange(i, i + eb.len())[k] == s[i + k]);
        }
        lemma_rt_str_body(s, m, t);
        assert(v =~= seq![h] + t);
        if h == 34 {
            assert(s[i + 0] == 92 && s[i + 1] == 34);
            assert(s[i] == 92);
        } else if h == 92 {
            assert(s[i + 0] == 92 && s[i + 1] == 92);
            assert(s[i] == 92);
        } else if h < 32 {
            assert(s[i + 0] == 92 && s[i + 1] == 117 && s[i + 2] == 48 && s[i + 3] == 48);
            assert(s[i] == 92);
            assert(s[i + 4] == hex_digit(h / 16) && s[i + 5] == hex_digit(h % 16));
            lemma_hex_val_digit(h / 16);
            lemma_hex_val_digit(h % 16);
            assert(hex_val(s[i + 4]) * 16 + hex_val(s[i + 5]) == (h / 16) * 16 + h % 16);
            assert((h / 16) * 16 + h % 16 == h);
            assert(seq![(hex_val(s[i + 4]) * 16 + hex_val(s[i + 5])) as u8] + t =~= v);
        } else {
            assert(s[i + 0] == h);
            assert(s[i] == h);
        }
    }
}

/// A string, emitted with its quotes, parses back to itself.
proof fn lemma_rt_string(s: Seq<u8>, i: int, v: Seq<u8>)
    requires
        0 <= i,
        i + json_string(v).len() <= s.len(),
        s.subrange(i, i + json_string(v).len()) == json_string(v),
    ensures
        sp_string(s, i) == Some((v, i + json_string(v).len())),
{
    let q = seq![34u8];
    assert(json_string(v) == q + esc(v) + q);
    lemma_peel(s, i, q + esc(v), q);
    lemma_peel(s, i, q, esc(v));
    lemma_first_byte(s, i, q);
    lemma_first_byte(s, i + 1 + esc(v).len(), q);
    lemma_rt_str_body(s, i + 1, v);
}

/// The stretches of one emitted version record.
#[verifier::rlimit(100)]
proof fn lemma_rt_version_parts(s: Seq<u8>, i: int, v: VersionView)
    requires
        0 <= i,
        i + version_json(v).len() <= s.len(),
        s.subrange(i, i + version_json(v).len()) == version_json(v),
    ensures
        ({
            let x2 = dec(v.version as nat);
            let x4 = json_string(v.hash);
            let x6 = dec(v.size as nat);
            let x8 = dec(v.mtime_ns as nat);
            let x10 = json_string(v.processed_at);
            let x12 = match v.diff_file {
                Option::None => l_null(),
                Option::Some(d) => json_string(d),
            };
            let p1 = i + 23;
            let p2 = p1 + x2.len();
            let p3 = p2 + 16;
            let p4 = p3 + x4.len();
            let p5 = p4 + 16;
            let p6 = p5 + x6.len();
            let p7 = p6 + 20;
            let p8 = p7 + x8.len();
            let p9 = p8 + 24;
            let p10 = p9 + x10.len();
            let p11 = p10 + 21;
            let p12 = p11 + x12.len();
            let p13 = p12 + 6;
            &&& s.subrange(i, p1) == l_item_open()
            &&& s.subrange(p1, p2) == x2
            &&& s.subrange(p2, p3) == l_key_hash()
            &&& s.subrange(p3, p4) == x4
            &&& s.subrange(p4, p5) == l_key_size()
            &&& s.subrange(p5, p6) == x6
            &&& s.subrange(p6, p7) == l_key_mtime()
            &&& s.subrange(p7, p8) == x8
            &&& s.subrange(p8, p9) == l_key_processed()
            &&& s.subrange(p9, p10) == x10
            &&& s.subrange(p10, p11) == l_key_diff()
            &&& s.subrange(p11, p12) == x12
            &&& s.subrange(p12, p13) == l_item_close()
        }),
{
    let x1 = l_item_open();
    let x2 = dec(v.version as nat);
    let x3 = l_key_hash();
    let x4 = json_string(v.hash);
    let x5 = l_key_size();
    let x6 = dec(v.size as nat);
    let x7 = l_key_mtime();
    let x8 = dec(v.mtime_ns as nat);
    let x9 = l_key_processed();
    let x10 = json_string(v.processed_at);
    let x11 = l_key_diff();
    let x12 = match v.diff_file {
        Option::None => l_null(),
        Option::Some(d) => json_string(d),
    };
    let x13 = l_item_close();
    let y12 = x1 + x2 + x3 + x4 + x5 + x6 + x7 + x8 + x9 + x10 + x11 + x12;
    let y11 = x1 + x2 + x3 + x4 + x5 + x6 + x7 + x8 + x9 + x10 + x11;
    let y10 = x1 + x2 + x3 + x4 + x5 + x6 + x7 + x8 + x9 + x10;
    let y9 = x1 + x2 + x3 + x4 + x5 + x6 + x7 + x8 + x9;
    let y8 = x1 + x2 + x3 + x4 + x5 + x6 + x7 + x8;
    let y7 = x1 + x2 + x3 + x4 + x5 + x6 + x7;
    let y6 = x1 + x2 + x3 + x4 + x5 + x6;
    let y5 = x1 + x2 + x3 + x4 + x5;
    let y4 = x1 + x2 + x3 + x4;
    let y3 = x1 + x2 + x3;
    let y2 = x1 + x2;
    assert(version_json(v) == y12 + x13);
    lemma_peel(s, i, y12, x13);
    lemma_peel(s, i, y11, x12);
    lemma_peel(s, i, y10, x11);
    lemma_peel(s, i, y9, x10);
    lemma_peel(s, i, y8, x9);
    lemma_peel(s, i, y7, x8);
    lemma_peel(s, i, y6, x7);
    lemma_peel(s, i, y5, x6);
    lemma_peel(s, i, y4, x5);
    lemma_peel(s, i, y3, x4);
    lemma_peel(s, i, y2, x3);
    lemma_peel(s, i, x1, x2);
}

/// An emitted version record parses back to itself.
#[verifier::rlimit(100)]
proof fn lemma_rt_version(s: Seq<u8>, i: int, v: VersionView)
    requires
        0 <= i,
        i + version_json(v).len() <= s.len(),
        s.subrange(i, i + version_json(v).len()) == version_json(v),
    ensures
        sp_version(s, i) == Some((v, i + version_json(v).len())),
{
    lemma_rt_version_parts(s, i, v);
    let x2 = dec(v.version as nat);
    let x4 = json_string(v.hash);
    let x6 = dec(v.size as nat);
    let x8 = dec(v.mtime_ns as nat);
    let x10 = json_string(v.processed_at);
    let x12 = match v.diff_file {
        Option::None => l_null(),
        Option::Some(d) => json_string(d),
    };
    let p1 = i + 23;
    let p2 = p1 + x2.len();
    let p3 = p2 + 16;
    let p4 = p3 + x4.len();
    let p5 = p4 + 16;
    let p6 = p5 + x6.len();
    let p7 = p6 + 20;
    let p8 = p7 + x8.len();
    let p9 = p8 + 24;
    let p10 = p9 + x10.len();
    let p11 = p10 + 21;
    let p12 = p11 + x12.len();
    let p13 = p12 + 6;

    assert(sp_lit(s, i, l_item_open()) == Some(p1));
    assert(sp_lit(s, p2, l_key_hash()) == Some(p3));
    assert(sp_lit(s, p4, l_key_size()) == Some(p5));
    assert(sp_lit(s, p6, l_key_mtime()) == Some(p7));
    assert(sp_lit(s, p8, l_key_processed()) == Some(p9));
    assert(sp_lit(s, p10, l_key_diff()) == Some(p11));
    assert(sp_lit(s, p12, l_item_close()) == Some(p13));

    lemma_first_byte(s, p2, l_key_hash());
    lemma_rt_number(s, p1, v.version as nat);
    assert(sp_u64(s, p1) == Some((v.version, p2)));
    lemma_first_byte(s, p6, l_key_mtime());
    lemma_rt_number(s, p5, v.size as nat);
    assert(sp_u64(s, p5) == Some((v.size, p6)));
    lemma_first_byte(s, p8, l_key_processed());
    lemma_rt_number(s, p7, v.mtime_ns as nat);
    assert(sp_u128(s, p7) == Some((v.mtime_ns, p8)));

    lemma_rt_string(s, p3, v.hash);
    lemma_rt_string(s, p9, v.processed_at);

    match v.diff_file {
        Option::None => {
            assert(sp_lit(s, p11, l_null()) == Some(p12));
            assert(sp_version_tail(s, p11, v.version, v.hash, v.size, v.mtime_ns, v.processed_at)
                == Some((v, p13)));
        },
        Option::Some(d) => {
            lemma_first_byte(s, p11, x12);
            assert(s[p11] == 34);
            assert(sp_lit(s, p11, l_null()) == None::<int>) by {
                if p11 + l_null().len() <= s.len() {
                    assert(s.subrange(p11, p11 + l_null().len())[0] == s[p11]);
                }
            }
            lemma_rt_string(s, p11, d);
            assert(sp_version_tail(s, p11, v.version, v.hash, v.size, v.mtime_ns, v.processed_at)
                == Some((v, p13)));
        },
    }
    assert(sp_version(s, i) == Some((v, p13)));
}

/// Emitted records are at least as long as their count.
proof fn lemma_items_len(vs: Seq<VersionView>)
    ensures
        items_json(vs).len() >= vs.len(),
    decreases vs.len(),
{
    if vs.len() > 1 {
        lemma_items_len(vs.drop_first());
    }
}

/// An emitted record list, followed by the array closer, parses back.
#[verifier::rlimit(100)]
proof fn lemma_rt_items(s: Seq<u8>, i: int, vs: Seq<VersionView>, fuel: nat)
    requires
        0 <= i,
        vs.len() >= 1,
        fuel >= vs.len(),
        i + items_json(vs).len() < s.len(),
        s.subrange(i, i + items_json(vs).len()) == items_json(vs),
        s[i + items_json(vs).len()] == 10,
    ensures
        sp_items(s, i, fuel) == Some((vs, i + items_json(vs).len())),
    decreases vs.len(),
{
    if vs.len() == 1 {
        assert(items_json(vs) == version_json(vs[0]));
        lemma_rt_version(s, i, vs[0]);
        let j = i + items_json(vs).len();
        assert(sp_lit(s, j, l_sep()) == None::<int>) by {
            if j + l_sep().len() <= s.len() {
                assert(s.subrange(j, j + l_sep().len())[0] == s[j]);
            }
        }
        assert(seq![vs[0]] =~= vs);
    } else {
        let v0 = version_json(vs[0]);
        let tail = vs.drop_first();
        assert(items_json(vs) == v0 + l_sep() + items_json(tail));
        lemma_peel(s, i, v0 + l_sep(), items_json(tail));
        lemma_peel(s, i, v0, l_sep());
        let j = i + v0.len();
        lemma_rt_version(s, i, vs[0]);
        assert(sp_lit(s, j, l_sep()) == Some(j + 2));
        lemma_rt_items(s, j + 2, tail, (fuel - 1) as nat);
        assert(seq![vs[0]] + tail =~= vs);
    }
}

/// An emitted versions block parses back to its records.
#[verifier::rlimit(100)]
proof fn lemma_rt_block(s: Seq<u8>, i: int, vs: Seq<VersionView>)
    requires
        0 <= i,
        ({
            let block = if vs.len() == 0 {
                l_arr_empty()
            } else {
                l_arr_open() + items_json(vs) + l_arr_close()
            };
            &&& i + block.len() <= s.len()
            &&& s.subrange(i, i + block.len()) == block
        }),
    ensures
        ({
            let block = if vs.len() == 0 {
                l_arr_empty()
            } else {
                l_arr_open() + items_json(vs) + l_arr_close()
            };
            sp_versions_block(s, i) == Some((vs, i + block.len()))
        }),
{
    if vs.len() == 0 {
        assert(sp_lit(s, i, l_arr_empty()) == Some(i + 2));
        assert(vs =~= Seq::<VersionView>::empty());
    } else {
        let items = items_json(vs);
        let block = l_arr_open() + items + l_arr_close();
        lemma_peel(s, i, l_arr_open() + items, l_arr_close());
        lemma_peel(s, i, l_arr_open(), items);
        let q1 = i + 2;
        let q2 = q1 + items.len();
        lemma_first_byte(s, q2, l_arr_close());
        assert(sp_lit(s, i, l_arr_empty()) == None::<int>) by {
            assert(s.subrange(i, i + 2)[1] == s[i + 1]);
            assert(s.subrange(i, i + 2) == l_arr_open());
            assert(l_arr_open()[1] == 10 && l_arr_empty()[1] == 93);
        }
        assert(sp_lit(s, i, l_arr_open()) == Some(q1));
        lemma_items_len(vs);
        lemma_rt_items(s, q1, vs, s.len() as nat);
        assert(sp_lit(s, q2, l_arr_close()) == Some(i + block.len()));
    }
}

/// The stretches of one emitted history document.
#[verifier::rlimit(100)]
proof fn lemma_rt_doc_parts(h: HistoryView)
    ensures
        ({
            let s = json_of(h);
            let x2 = if h.versions.len() == 0 {
                l_arr_empty()
            } else {
                l_arr_open() + items_json(h.versions) + l_arr_close()
            };
            let x4 = json_string(h.alias);
            let x6 = json_string(h.original_path);
            let p1: int = 16;
            let p2 = p1 + x2.len();
            let p3 = p2 + 13;
            let p4 = p3 + x4.len();
            let p5 = p4 + 21;
            let p6 = p5 + x6.len();
            let p7 = p6 + 2;
            &&& s.len() == p7
            &&& s.subrange(0, p1) == l_open()
            &&& s.subrange(p1, p2) == x2
            &&& s.subrange(p2, p3) == l_key_alias()
            &&& s.subrange(p3, p4) == x4
            &&& s.subrange(p4, p5) == l_key_path()
            &&& s.subrange(p5, p6) == x6
            &&& s.subrange(p6, p7) == l_close()
        }),
{
    let s = json_of(h);
    let x1 = l_open();
    let x2 = if h.versions.len() == 0 {
        l_arr_empty()
    } else {
        l_arr_open() + items_json(h.versions) + l_arr_close()
    };
    let x3 = l_key_alias();
    let x4 = json_string(h.alias);
    let x5 = l_key_path();
    let x6 = json_string(h.original_path);
    let x7 = l_close();
    assert(s == x1 + x2 + x3 + x4 + x5 + x6 + x7);
    let y6 = x1 + x2 + x3 + x4 + x5 + x6;
    let y5 = x1 + x2 + x3 + x4 + x5;
    let y4 = x1 + x2 + x3 + x4;
    let y3 = x1 + x2 + x3;
    let y2 = x1 + x2;
    assert(s.subrange(0, s.len() as int) =~= s);
    lemma_peel(s, 0, y6, x7);
    lemma_peel(s, 0, y5, x6);
    lemma_peel(s, 0, y4, x5);
    lemma_peel(s, 0, y3, x4);
    lemma_peel(s, 0, y2, x3);
    lemma_peel(s, 0, x1, x2);
}

/// What the emitter writes, the parser reads back: the round trip of one
/// whole history document is the identity.
#[verifier::rlimit(100)]
pub proof fn lemma_json_round_trip(h: HistoryView)
    ensures
        sp_history(json_of(h)) == Some(h),
{
    let s = json_of(h);
    let x2 = if h.versions.len() == 0 {
        l_arr_empty()
    } else {
        l_arr_open() + items_json(h.versions) + l_arr_close()
    };
    let x4 = json_string(h.alias);
    let x6 = json_string(h.original_path);
    let p1: int = 16;
    let p2 = p1 + x2.len();
    let p3 = p2 + 13;
    let p4 = p3 + x4.len();
    let p5 = p4 + 21;
    let p6 = p5 + x6.len();
    let p7 = p6 + 2;
    lemma_rt_doc_parts(h);

    assert(sp_lit(s, 0, l_open()) == Some(p1));
    assert(sp_lit(s, p2, l_key_alias()) == Some(p3));
    assert(sp_lit(s, p4, l_key_path()) == Some(p5));
    assert(sp_lit(s, p6, l_close()) == Some(p7));

    lemma_rt_block(s, p1, h.versions);
    assert(sp_versions_block(s, p1) == Some((h.versions, p2)));

    lemma_rt_string(s, p3, h.alias);
    lemma_rt_string(s, p5, h.original_path);
    assert(p7 == s.len());
    assert(sp_history_tail(s, p2, h.versions) == Some(
        (HistoryView { versions: h.versions, alias: h.alias, original_path: h.original_path }),
    ));
    assert(HistoryView { versions: h.versions, alias: h.alias, original_path: h.original_path }
        == h);
}

} // verus!

//! Alias resolution: a deterministic, filesystem-safe directory name for an
//! absolute file path.
//!
//! Separators are normalized to `/`, any long-path prefix `//?/` is removed,
//! a path under the working directory is taken relative to it, and the
//! result is sanitized: `:`, `/` and space become `_`, ASCII letters are
//! lowercased.
//!
//! Known limitation, kept deliberately: two distinct paths that differ only
//! in letter case, or that collide after the substitutions, map to the same
//! alias. Collisions are surfaced by `alias_collision` in the pipeline
//! module rather than resolved here.

use vstd::prelude::*;

verus! {

/// Backslashes normalized to forward slashes.
pub open spec fn norm_sep_spec(s: Seq<u8>) -> Seq<u8> {
    s.map_values(|b: u8| if b == 92 { 47u8 } else { b })
}

/// The long-path prefix `//?/`, as bytes.
pub open spec fn long_prefix() -> Seq<u8> {
    seq![47u8, 47u8, 63u8, 47u8]
}

/// Every leading occurrence of the four-byte long-path prefix removed.
pub open spec fn trim_long_prefix_spec(s: Seq<u8>) -> Seq<u8>
    decreases s.len(),
{
    if s.len() >= 4 && s.take(4) == long_prefix() {
        trim_long_prefix_spec(s.skip(4))
    } else {
        s
    }
}

/// Every leading `/` removed.
pub open spec fn trim_leading_slash_spec(s: Seq<u8>) -> Seq<u8>
    decreases s.len(),
{
    if s.len() > 0 && s[0] == 47 {
        trim_leading_slash_spec(s.drop_first())
    } else {
        s
    }
}

/// One byte of the sanitization pass: `:`, `/` and space become `_`,
/// ASCII uppercase letters become lowercase.
pub open spec fn sanitize_byte(b: u8) -> u8 {
    if b == 58 || b == 47 || b == 32 {
        95u8
    } else if 65 <= b && b <= 90 {
        (b + 32) as u8
    } else {
        b
    }
}

/// A path after separator normalization and long-path-prefix removal.
pub open spec fn clean_spec(s: Seq<u8>) -> Seq<u8> {
    trim_long_prefix_spec(norm_sep_spec(s))
}

/// The alias for `path`, given the working directory `cwd`: the cleaned
/// path, taken relative to the cleaned working directory when it lies under
/// it, then sanitized byte by byte.
pub open spec fn alias_spec(path: Seq<u8>, cwd: Seq<u8>) -> Seq<u8> {
    let p = clean_spec(path);
    let c = clean_spec(cwd);
    let rel = if p.len() >= c.len() && p.take(c.len() as int) == c {
        trim_leading_slash_spec(p.skip(c.len() as int))
    } else {
        p
    };
    rel.map_values(|b: u8| sanitize_byte(b))
}

/// Normalize backslashes to forward slashes.
fn norm_sep(s: &[u8]) -> (r: Vec<u8>)
    ensures
        r@ == norm_sep_spec(s@),
{
    let n = s.len();
    let mut out: Vec<u8> = Vec::new();
    for i in 0..n
        invariant
            n == s@.len(),
            out@ == norm_sep_spec(s@.take(i as int)),
    {
        let b = s[i];
        out.push(if b == 92 { 47 } else { b });
        proof {
            assert(out@ =~= norm_sep_spec(s@.take(i + 1)));
        }
    }
    proof {
        assert(s@.take(n as int) == s@);
    }
    out
}

/// Index just past every leading long-path prefix of `s`.
fn trim_long_prefix_start(s: &Vec<u8>) -> (i: usize)
    ensures
        i <= s@.len(),
        trim_long_prefix_spec(s@) == s@.skip(i as int),
{
    let mut i: usize = 0;
    proof {
        assert(s@.skip(0) == s@);
    }
    loop
        invariant
            i <= s@.len(),
            trim_long_prefix_spec(s@) == trim_long_prefix_spec(s@.skip(i as int)),
        decreases s@.len() - i,
    {
        if s.len() - i >= 4 && s[i] == 47 && s[i + 1] == 47 && s[i + 2] == 63 && s[i + 3] == 47 {
            proof {
                assert(s@.skip(i as int).take(4) =~= long_prefix());
                assert(s@.skip(i as int).skip(4) =~= s@.skip(i + 4));
            }
            i = i + 4;
        } else {
            proof {
                let rest = s@.skip(i as int);
                if rest.len() >= 4 {
                    assert(rest[0] == s@[i as int]);
                    assert(rest[1] == s@[i + 1]);
                    assert(rest[2] == s@[i + 2]);
                    assert(rest[3] == s@[i + 3]);
                    assert(rest.take(4) != long_prefix() ==> trim_long_prefix_spec(rest) == rest);
                    if rest.take(4) == long_prefix() {
                        assert(rest.take(4)[0] == 47 && rest.take(4)[1] == 47 && rest.take(4)[2]
                            == 63 && rest.take(4)[3] == 47);
                    }
                }
            }
            return i;
        }
    }
}

/// Index just past every leading `/` of `s`, starting at `from`.
fn trim_leading_slash_start(s: &Vec<u8>, from: usize) -> (i: usize)
    requires
        from <= s@.len(),
    ensures
        from <= i <= s@.len(),
        trim_leading_slash_spec(s@.skip(from as int)) == s@.skip(i as int),
{
    let mut i: usize = from;
    loop
        invariant
            from <= i <= s@.len(),
            trim_leading_slash_spec(s@.skip(from as int)) == trim_leading_slash_spec(
                s@.skip(i as int),
            ),
        decreases s@.len() - i,
    {
        if i < s.len() && s[i] == 47 {
            proof {
                assert(s@.skip(i as int)[0] == s@[i as int]);
                assert(s@.skip(i as int).drop_first() =~= s@.skip(i + 1));
            }
            i = i + 1;
        } else {
            proof {
                if i < s@.len() {
                    assert(s@.skip(i as int)[0] == s@[i as int]);
                }
            }
            return i;
        }
    }
}

/// Do `len` bytes of `p` starting at `p_start` equal those of `c` at `c_start`?
fn bytes_eq_at(p: &Vec<u8>, p_start: usize, c: &Vec<u8>, c_start: usize, len: usize) -> (r: bool)
    requires
        p_start + len <= p@.len(),
        c_start + len <= c@.len(),
    ensures
        r == (forall|j: int| 0 <= j < len ==> #[trigger] p@[p_start + j] == c@[c_start + j]),
{
    let mut k: usize = 0;
    proof {
        assert(p.len() == p@.len());
        assert(c.len() == c@.len());
    }
    while k < len
        invariant
            k <= len,
            p_start + len <= p@.len() <= usize::MAX,
            c_start + len <= c@.len() <= usize::MAX,
            forall|j: int| 0 <= j < k ==> #[trigger] p@[p_start + j] == c@[c_start + j],
        decreases len - k,
    {
        if p[p_start + k] != c[c_start + k] {
            return false;
        }
        k = k + 1;
    }
    true
}

/// The alias for `path` given the working directory `cwd`.
///
/// Same path and same working directory always yield the same alias; the
/// mapping is a pure function of the two arguments.
pub fn calculate_path_alias(path: &[u8], cwd: &[u8]) -> (r: Vec<u8>)
    ensures
        r@ == alias_spec(path@, cwd@),
{
    let p = norm_sep(path);
    let c = norm_sep(cwd);
    let p_start = trim_long_prefix_start(&p);
    let c_start = trim_long_prefix_start(&c);
    let ghost pc = clean_spec(path@);
    let ghost cc = clean_spec(cwd@);
    let p_len = p.len() - p_start;
    let c_len = c.len() - c_start;

    // Does the cleaned path start with the cleaned working directory?
    let is_prefix = p_len >= c_len && bytes_eq_at(&p, p_start, &c, c_start, c_len);
    proof {
        assert(pc == p@.skip(p_start as int));
        assert(cc == c@.skip(c_start as int));
        assert(pc.len() == p_len && cc.len() == c_len);
        if is_prefix {
            assert forall|j: int| 0 <= j < cc.len() implies pc.take(cc.len() as int)[j] == cc[j] by {
                assert(p@[p_start + j] == c@[c_start + j]);
                assert(pc[j] == p@.skip(p_start as int)[j]);
                assert(cc[j] == c@.skip(c_start as int)[j]);
            }
            assert(pc.take(cc.len() as int) =~= cc);
        } else if pc.len() >= cc.len() && pc.take(cc.len() as int) == cc {
            assert forall|j: int| 0 <= j < c_len implies #[trigger] p@[p_start + j] == c@[c_start
                + j] by {
                assert(pc.take(cc.len() as int)[j] == cc[j]);
                assert(pc[j] == p@.skip(p_start as int)[j]);
                assert(cc[j] == c@.skip(c_start as int)[j]);
            }
            assert(false);
        }
    }

    let rel_start = if is_prefix {
        proof {
            assert(pc.skip(cc.len() as int) =~= p@.skip((p_start + c_len) as int));
        }
        trim_leading_slash_start(&p, p_start + c_len)
    } else {
        p_start
    };

    let ghost rel = if pc.len() >= cc.len() && pc.take(cc.len() as int) == cc {
        trim_leading_slash_spec(pc.skip(cc.len() as int))
    } else {
        pc
    };
    proof {
        assert(rel == p@.skip(rel_start as int));
    }

    let n = p.len();
    let mut out: Vec<u8> = Vec::new();
    let mut i: usize = rel_start;
    while i < n
        invariant
            rel_start <= i <= n,
            n == p@.len(),
            rel == p@.skip(rel_start as int),
            out@ == p@.skip(rel_start as int).take((i - rel_start) as int).map_values(
                |b: u8| sanitize_byte(b),
            ),
        decreases n - i,
    {
        let b = p[i];
        let sb = if b == 58 || b == 47 || b == 32 {
            95
        } else if 65 <= b && b <= 90 {
            b + 32
        } else {
            b
        };
        out.push(sb);
        proof {
            assert(p@.skip(rel_start as int)[i - rel_start] == p@[i as int]);
            assert(out@ =~= p@.skip(rel_start as int).take((i + 1 - rel_start) as int).map_values(
                |x: u8| sanitize_byte(x),
            ));
        }
        i = i + 1;
    }
    proof {
        assert(rel.take(rel.len() as int) == rel);
        assert(out@ =~= rel.map_values(|b: u8| sanitize_byte(b)));
    }
    out
}

} // verus!

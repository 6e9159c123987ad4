//! The input set: deduplicated file paths in a canonical order.
//!
//! The collector walks directories in the I/O shell and hands every file
//! path here; the set keeps them unique and sorted by byte order, so a run
//! over the same tree always sees the same paths in the same order.

use vstd::prelude::*;

verus! {

/// Strict lexicographic byte order.
pub open spec fn lex_lt(a: Seq<u8>, b: Seq<u8>) -> bool
    decreases a.len(),
{
    if b.len() == 0 {
        false
    } else if a.len() == 0 {
        true
    } else if a[0] < b[0] {
        true
    } else if a[0] > b[0] {
        false
    } else {
        lex_lt(a.drop_first(), b.drop_first())
    }
}

/// The order is total: distinct strings compare one way or the other.
pub proof fn lemma_lex_connected(a: Seq<u8>, b: Seq<u8>)
    requires
        a != b,
    ensures
        lex_lt(a, b) || lex_lt(b, a),
    decreases a.len(),
{
    if a.len() == 0 && b.len() == 0 {
        assert(a =~= b);
    }
    if a.len() != 0 && b.len() != 0 && a[0] == b[0] {
        assert(a.drop_first() != b.drop_first()) by {
            if a.drop_first() == b.drop_first() {
                assert(a =~= seq![a[0]] + a.drop_first());
                assert(b =~= seq![b[0]] + b.drop_first());
                assert(a == b);
                assert(false);
            }
        }
        lemma_lex_connected(a.drop_first(), b.drop_first());
    }
}

/// The order is irreflexive.
pub proof fn lemma_lex_irrefl(a: Seq<u8>)
    ensures
        !lex_lt(a, a),
    decreases a.len(),
{
    if a.len() > 0 {
        lemma_lex_irrefl(a.drop_first());
    }
}

/// The order is transitive.
pub proof fn lemma_lex_trans(a: Seq<u8>, b: Seq<u8>, c: Seq<u8>)
    requires
        lex_lt(a, b),
        lex_lt(b, c),
    ensures
        lex_lt(a, c),
    decreases a.len(),
{
    if a.len() != 0 && b.len() != 0 && c.len() != 0 && a[0] == b[0] && b[0] == c[0] {
        lemma_lex_trans(a.drop_first(), b.drop_first(), c.drop_first());
    }
}

/// Compare two byte strings in lexicographic order.
fn bytes_lt(a: &[u8], b: &[u8]) -> (r: bool)
    ensures
        r == lex_lt(a@, b@),
{
    let an = a.len();
    let bn = b.len();
    let n = if an < bn {
        an
    } else {
        bn
    };
    let mut i: usize = 0;
    proof {
        assert(a@.skip(0) == a@);
        assert(b@.skip(0) == b@);
    }
    while i < n
        invariant
            n <= a@.len(),
            n <= b@.len(),
            n == if a@.len() < b@.len() {
                a@.len()
            } else {
                b@.len()
            },
            i <= n,
            lex_lt(a@, b@) == lex_lt(a@.skip(i as int), b@.skip(i as int)),
        decreases n - i,
    {
        proof {
            assert(a@.skip(i as int)[0] == a@[i as int]);
            assert(b@.skip(i as int)[0] == b@[i as int]);
            assert(a@.skip(i as int).drop_first() =~= a@.skip(i + 1));
            assert(b@.skip(i as int).drop_first() =~= b@.skip(i + 1));
        }
        if a[i] < b[i] {
            return true;
        }
        if a[i] > b[i] {
            return false;
        }
        i = i + 1;
    }
    proof {
        if a@.len() < b@.len() {
            assert(a@.skip(i as int).len() == 0);
            assert(b@.skip(i as int).len() > 0);
        } else if a@.len() > b@.len() {
            assert(b@.skip(i as int).len() == 0);
        } else {
            assert(b@.skip(i as int).len() == 0);
        }
    }
    a.len() < b.len()
}

/// The models of the stored paths, in order.
pub open spec fn paths_view(ps: Seq<Vec<u8>>) -> Seq<Seq<u8>> {
    Seq::new(ps.len(), |i: int| ps[i]@)
}

/// Strictly ascending: unique and sorted.
pub open spec fn strictly_sorted(ps: Seq<Seq<u8>>) -> bool {
    forall|i: int, j: int| 0 <= i < j < ps.len() ==> lex_lt(#[trigger] ps[i], #[trigger] ps[j])
}

/// The deduplicated, canonically-ordered set of input file paths.
pub struct FileStorage {
    paths: Vec<Vec<u8>>,
}

impl FileStorage {
    /// The stored paths, in storage order.
    pub closed spec fn view(&self) -> Seq<Seq<u8>> {
        paths_view(self.paths@)
    }

    /// The paths are always unique and sorted by byte order.
    pub open spec fn wf(&self) -> bool {
        strictly_sorted(self@)
    }

    /// An empty path set.
    pub fn new() -> (s: Self)
        ensures
            s@ == Seq::<Seq<u8>>::empty(),
            s.wf(),
    {
        let s = FileStorage { paths: Vec::new() };
        proof {
            assert(s@ =~= Seq::<Seq<u8>>::empty());
        }
        s
    }

    /// How many distinct paths are stored.
    pub fn len(&self) -> (n: usize)
        ensures
            n == self@.len(),
    {
        self.paths.len()
    }

    /// The stored paths, in order.
    pub fn paths(&self) -> (r: &Vec<Vec<u8>>)
        ensures
            paths_view(r@) == self@,
    {
        &self.paths
    }

    /// Add one path: a set insertion. The stored sequence stays unique and
    /// sorted; a path already present changes nothing.
    pub fn insert(&mut self, path: Vec<u8>)
        requires
            old(self).wf(),
        ensures
            final(self).wf(),
            final(self)@.to_set() == old(self)@.to_set().insert(path@),
            old(self)@.to_set().contains(path@) ==> final(self)@ == old(self)@,
    {
        let k = lower_bound(&self.paths, &path);
        if k < self.paths.len() && bytes_equal_vec(&self.paths[k], &path) {
            // already present
            proof {
                assert(self@[k as int] == path@);
                assert(self@.to_set().contains(path@));
                assert(self@.to_set() =~= old(self)@.to_set().insert(path@));
            }
            return ;
        }
        let ghost pre = self@;
        proof {
            // the path is not stored yet
            assert forall|i: int| 0 <= i < pre.len() implies pre[i] != path@ by {
                if i < k {
                    lemma_lex_irrefl(path@);
                } else if i == k {
                } else {
                    assert(lex_lt(pre[k as int], pre[i]));
                    if pre[k as int] != path@ {
                        lemma_lex_connected(pre[k as int], path@);
                        lemma_lex_trans(path@, pre[k as int], pre[i]);
                        lemma_lex_irrefl(path@);
                    }
                }
            }
            if pre.to_set().contains(path@) {
                let i = choose|i: int| 0 <= i < pre.len() && pre[i] == path@;
                assert(false);
            }
        }
        self.paths.insert(k, path);
        proof {
            let post = self@;
            assert(post =~= pre.insert(k as int, path@)) by {
                assert forall|i: int| 0 <= i < post.len() implies post[i] == pre.insert(
                    k as int,
                    path@,
                )[i] by {
                    assert(post[i] == self.paths@[i]@);
                }
            }
            assert forall|i: int, j: int| 0 <= i < j < post.len() implies lex_lt(
                #[trigger] post[i],
                #[trigger] post[j],
            ) by {
                if i < k && j == k {
                    assert(lex_lt(pre[i], path@));
                } else if i == k && j > k {
                    assert(pre[k as int] != path@);
                    assert(!lex_lt(pre[k as int], path@));
                    lemma_lex_connected(pre[k as int], path@);
                    if j - 1 > k {
                        assert(lex_lt(pre[k as int], pre[j - 1]));
                        lemma_lex_trans(path@, pre[k as int], pre[j - 1]);
                    }
                    assert(post[j] == pre[j - 1]);
                } else if i < k && j > k {
                    assert(lex_lt(pre[i], pre[j - 1]));
                } else if i > k && j > k {
                    assert(lex_lt(pre[i - 1], pre[j - 1]));
                } else if i < k && j < k {
                    assert(lex_lt(pre[i], pre[j]));
                }
            }
            assert(post.to_set() =~= pre.to_set().insert(path@)) by {
                assert forall|x: Seq<u8>| post.to_set().contains(x) implies pre.to_set().insert(
                    path@,
                ).contains(x) by {
                    let i = choose|i: int| 0 <= i < post.len() && post[i] == x;
                    if i != k {
                        let j = if i < k {
                            i
                        } else {
                            i - 1
                        };
                        assert(pre[j] == x);
                        assert(pre.to_set().contains(x));
                    }
                }
                assert forall|x: Seq<u8>|
                    pre.to_set().insert(path@).contains(x) implies post.to_set().contains(x) by {
                    if x == path@ {
                        assert(post[k as int] == x);
                    } else {
                        let j = choose|j: int| 0 <= j < pre.len() && pre[j] == x;
                        let i = if j < k {
                            j
                        } else {
                            j + 1
                        };
                        assert(post[i] == x);
                    }
                }
            }
        }
    }
}

/// The first position whose path is not below `path`.
fn lower_bound(ps: &Vec<Vec<u8>>, path: &Vec<u8>) -> (k: usize)
    ensures
        k <= ps@.len(),
        forall|i: int| 0 <= i < k ==> lex_lt(#[trigger] ps@[i]@, path@),
        k < ps@.len() ==> !lex_lt(ps@[k as int]@, path@),
{
    let n = ps.len();
    let mut k: usize = 0;
    while k < n
        invariant
            n == ps@.len(),
            k <= n,
            forall|i: int| 0 <= i < k ==> lex_lt(#[trigger] ps@[i]@, path@),
        decreases n - k,
    {
        if !bytes_lt(ps[k].as_slice(), path.as_slice()) {
            return k;
        }
        k = k + 1;
    }
    k
}

/// Do two byte vectors hold the same bytes?
fn bytes_equal_vec(a: &Vec<u8>, b: &Vec<u8>) -> (r: bool)
    ensures
        r == (a@ == b@),
{
    crate::pipeline::bytes_equal(a.as_slice(), b.as_slice())
}

} // verus!

//! Exact byte-pattern matching with the Knuth–Morris–Pratt algorithm.
//!
//! A [`KmpMatcher`] owns a fixed, non-empty pattern together with its
//! precomputed failure (partial-match) table and scans byte slices for every
//! occurrence of the pattern, including overlapping ones, in time linear in
//! the length of the text.

use vstd::prelude::*;

verus! {

/// The pattern occurs in `t` starting at position `q`.
pub open spec fn is_match_at(t: Seq<u8>, p: Seq<u8>, q: int) -> bool {
    0 <= q && q + p.len() <= t.len() && t.subrange(q, q + p.len() as int) == p
}

/// `p[0..k]` is a border of the prefix `p[0..l]`: a prefix of `p` that is
/// also a suffix of `p[0..l]` (not necessarily a proper one).
pub open spec fn is_border(p: Seq<u8>, l: int, k: int) -> bool {
    0 <= k <= l <= p.len() && p.subrange(0, k) == p.subrange(l - k, l)
}

/// The first `k` pattern bytes match the tail of `t[0..n]`: `p[0..k]` is a
/// suffix of `t[0..n]`. This is the abstract meaning of the matcher's
/// progress counter after consuming `n` bytes of text.
pub open spec fn is_live(p: Seq<u8>, t: Seq<u8>, n: int, k: int) -> bool {
    0 <= k <= p.len() && k <= n <= t.len() && p.subrange(0, k) == t.subrange(n - k, n)
}

/// `f` is a valid KMP failure table for `p`: `f[i]` is the length of the
/// longest proper border of `p[0..=i]`.
pub open spec fn table_valid(p: Seq<u8>, f: Seq<usize>) -> bool {
    &&& f.len() == p.len()
    &&& forall|i: int|
        0 <= i < p.len() ==> {
            &&& #[trigger] f[i] <= i
            &&& is_border(p, i + 1, f[i] as int)
            &&& forall|k: int| f[i] < k <= i ==> !(#[trigger] is_border(p, i + 1, k))
        }
}

/// All positions `q` at which the pattern occurs in `t` with its final byte
/// among the first `n` bytes (`q + p.len() <= n`), in increasing order.
pub open spec fn matches_up_to(t: Seq<u8>, p: Seq<u8>, n: int) -> Seq<int>
    decreases n,
{
    if n <= 0 {
        Seq::empty()
    } else if is_match_at(t, p, n - p.len()) {
        matches_up_to(t, p, n - 1).push(n - p.len())
    } else {
        matches_up_to(t, p, n - 1)
    }
}

/// All positions `q` at which the pattern occurs in `t` with its final byte
/// after the first `n0` bytes and within the first `n1` (`n0 < q + p.len()
/// <= n1`), in increasing order. `matches_up_to(t, p, n)` equals
/// `matches_between(t, p, 0, n)`.
pub open spec fn matches_between(t: Seq<u8>, p: Seq<u8>, n0: int, n1: int) -> Seq<int>
    decreases n1 - n0,
{
    if n1 <= n0 {
        Seq::empty()
    } else if is_match_at(t, p, n1 - p.len()) {
        matches_between(t, p, n0, n1 - 1).push(n1 - p.len())
    } else {
        matches_between(t, p, n0, n1 - 1)
    }
}

/// `matches_up_to` is `matches_between` started at zero.
pub proof fn lemma_matches_up_to_is_between(t: Seq<u8>, p: Seq<u8>, n: int)
    ensures
        matches_up_to(t, p, n) == matches_between(t, p, 0, n),
    decreases n,
{
    if n <= 0 {
        assert(matches_up_to(t, p, n) =~= matches_between(t, p, 0, n));
    } else {
        lemma_matches_up_to_is_between(t, p, n - 1);
    }
}

/// Splitting the range of ending positions splits the list of matches.
pub proof fn lemma_matches_between_split(t: Seq<u8>, p: Seq<u8>, n0: int, n1: int, n2: int)
    requires
        n0 <= n1 <= n2,
    ensures
        matches_between(t, p, n0, n2) == matches_between(t, p, n0, n1) + matches_between(
            t,
            p,
            n1,
            n2,
        ),
    decreases n2 - n1,
{
    if n2 <= n1 {
        assert(matches_between(t, p, n0, n2) =~= matches_between(t, p, n0, n1) + matches_between(
            t,
            p,
            n1,
            n2,
        ));
    } else {
        lemma_matches_between_split(t, p, n0, n1, n2 - 1);
        if is_match_at(t, p, n2 - p.len()) {
            assert(matches_between(t, p, n0, n2) =~= matches_between(t, p, n0, n1)
                + matches_between(t, p, n1, n2));
        } else {
            assert(matches_between(t, p, n0, n2) =~= matches_between(t, p, n0, n1)
                + matches_between(t, p, n1, n2));
        }
    }
}

/// An occurrence that ends within a prefix of the text is an occurrence in
/// the prefix, and conversely.
pub proof fn lemma_match_at_prefix(t1: Seq<u8>, t2: Seq<u8>, p: Seq<u8>, q: int)
    requires
        t1 == t2.subrange(0, t1.len() as int),
        t1.len() <= t2.len(),
        q + p.len() <= t1.len(),
    ensures
        is_match_at(t1, p, q) <==> is_match_at(t2, p, q),
{
    if 0 <= q {
        assert(t1.subrange(q, q + p.len() as int) =~= t2.subrange(q, q + p.len() as int));
    }
}

/// Matches whose ending positions lie within a prefix of the text are the
/// same whether computed against the prefix or the whole text.
pub proof fn lemma_matches_between_prefix(t1: Seq<u8>, t2: Seq<u8>, p: Seq<u8>, n0: int, n1: int)
    requires
        t1 == t2.subrange(0, t1.len() as int),
        t1.len() <= t2.len(),
        n1 <= t1.len(),
    ensures
        matches_between(t1, p, n0, n1) == matches_between(t2, p, n0, n1),
    decreases n1 - n0,
{
    if n1 <= n0 {
    } else {
        lemma_matches_between_prefix(t1, t2, p, n0, n1 - 1);
        if n1 - p.len() >= 0 {
            lemma_match_at_prefix(t1, t2, p, n1 - p.len());
        }
    }
}

/// A live prefix against a prefix of the text is live against the whole
/// text, and conversely, as long as it ends within the prefix.
pub proof fn lemma_live_prefix_transfer(p: Seq<u8>, t1: Seq<u8>, t2: Seq<u8>, n: int, k: int)
    requires
        t1 == t2.subrange(0, t1.len() as int),
        t1.len() <= t2.len(),
        n <= t1.len(),
    ensures
        is_live(p, t1, n, k) <==> is_live(p, t2, n, k),
{
    if 0 <= k <= n {
        assert(t1.subrange(n - k, n) =~= t2.subrange(n - k, n));
    }
}

/// The positions collected by `matches_up_to` are exactly the occurrences of
/// `p` that end within the first `n` bytes of `t`, listed in strictly
/// increasing order.
pub proof fn lemma_matches_up_to_properties(t: Seq<u8>, p: Seq<u8>, n: int)
    requires
        p.len() >= 1,
    ensures
        forall|a: int, b: int|
            0 <= a < b < matches_up_to(t, p, n).len() ==> matches_up_to(t, p, n)[a]
                < matches_up_to(t, p, n)[b],
        forall|a: int|
            0 <= a < matches_up_to(t, p, n).len() ==> is_match_at(
                t,
                p,
                #[trigger] matches_up_to(t, p, n)[a],
            ) && matches_up_to(t, p, n)[a] + p.len() <= n,
        forall|q: int|
            is_match_at(t, p, q) && q + p.len() <= n ==> matches_up_to(t, p, n).contains(q),
    decreases n,
{
    if n <= 0 {
    } else {
        lemma_matches_up_to_properties(t, p, n - 1);
        let prev = matches_up_to(t, p, n - 1);
        let cur = matches_up_to(t, p, n);
        if is_match_at(t, p, n - p.len()) {
            assert(cur == prev.push(n - p.len()));
            assert forall|q: int| is_match_at(t, p, q) && q + p.len() <= n implies cur.contains(
                q,
            ) by {
                if q + p.len() <= n - 1 {
                    assert(prev.contains(q));
                    let a = choose|a: int| 0 <= a < prev.len() && prev[a] == q;
                    assert(cur[a] == q);
                } else {
                    assert(q == n - p.len());
                    assert(cur[cur.len() - 1] == q);
                }
            }
        } else {
            assert(cur == prev);
            assert forall|q: int| is_match_at(t, p, q) && q + p.len() <= n implies cur.contains(
                q,
            ) by {
                assert(q != n - p.len());
                assert(q + p.len() <= n - 1);
            }
        }
    }
}

/// Two prefixes of `p` that are both suffixes of the same text prefix: the
/// shorter is a border of the longer.
pub proof fn lemma_live_border(p: Seq<u8>, t: Seq<u8>, n: int, k1: int, k2: int)
    requires
        is_live(p, t, n, k1),
        is_live(p, t, n, k2),
        k1 <= k2,
    ensures
        is_border(p, k2, k1),
{
    assert forall|j: int| 0 <= j < k1 implies p.subrange(0, k1)[j] == p.subrange(k2 - k1, k2)[j] by {
        assert(p.subrange(0, k1)[j] == t.subrange(n - k1, n)[j]);
        assert(t.subrange(n - k1, n)[j] == t[n - k1 + j]);
        assert(p.subrange(k2 - k1, k2)[j] == p[k2 - k1 + j]);
        assert(p.subrange(0, k2)[k2 - k1 + j] == t.subrange(n - k2, n)[k2 - k1 + j]);
        assert(t.subrange(n - k2, n)[k2 - k1 + j] == t[n - k1 + j]);
    }
    assert(p.subrange(0, k1) =~= p.subrange(k2 - k1, k2));
}

/// A border of a live prefix length is itself live.
pub proof fn lemma_border_live(p: Seq<u8>, t: Seq<u8>, n: int, k: int, j: int)
    requires
        is_live(p, t, n, k),
        is_border(p, k, j),
    ensures
        is_live(p, t, n, j),
{
    assert forall|i: int| 0 <= i < j implies p.subrange(0, j)[i] == t.subrange(n - j, n)[i] by {
        assert(p.subrange(0, j)[i] == p.subrange(k - j, k)[i]);
        assert(p.subrange(k - j, k)[i] == p[k - j + i]);
        assert(p.subrange(0, k)[k - j + i] == t.subrange(n - k, n)[k - j + i]);
        assert(t.subrange(n - k, n)[k - j + i] == t[n - j + i]);
        assert(t.subrange(n - j, n)[i] == t[n - j + i]);
    }
    assert(p.subrange(0, j) =~= t.subrange(n - j, n));
}

/// Extending a live prefix by one matching byte keeps it live.
pub proof fn lemma_live_extend(p: Seq<u8>, t: Seq<u8>, n: int, k: int)
    requires
        is_live(p, t, n, k),
        k < p.len(),
        n < t.len(),
        p[k] == t[n],
    ensures
        is_live(p, t, n + 1, k + 1),
{
    assert forall|i: int| 0 <= i < k + 1 implies #[trigger] p.subrange(0, k + 1)[i] == t.subrange(
        n + 1 - (k + 1),
        n + 1,
    )[i] by {
        if i < k {
            assert(p.subrange(0, k)[i] == t.subrange(n - k, n)[i]);
            assert(t.subrange(n - k, n)[i] == t[n - k + i]);
            assert(t.subrange(n + 1 - (k + 1), n + 1)[i] == t[n - k + i]);
        }
    }
    assert(p.subrange(0, k + 1) =~= t.subrange(n + 1 - (k + 1), n + 1));
}

/// A non-zero live prefix at `n + 1` shrinks to a live prefix at `n`, and its
/// last byte agrees with the text byte at position `n`.
pub proof fn lemma_live_shrink(p: Seq<u8>, t: Seq<u8>, n: int, k: int)
    requires
        is_live(p, t, n + 1, k),
        k >= 1,
    ensures
        is_live(p, t, n, k - 1),
        p[k - 1] == t[n],
{
    assert forall|i: int| 0 <= i < k - 1 implies #[trigger] p.subrange(0, k - 1)[i] == t.subrange(
        n - (k - 1),
        n,
    )[i] by {
        assert(p.subrange(0, k)[i] == t.subrange(n + 1 - k, n + 1)[i]);
        assert(t.subrange(n + 1 - k, n + 1)[i] == t[n + 1 - k + i]);
        assert(t.subrange(n - (k - 1), n)[i] == t[n + 1 - k + i]);
    }
    assert(p.subrange(0, k - 1) =~= t.subrange(n - (k - 1), n));
    assert(p.subrange(0, k)[k - 1] == t.subrange(n + 1 - k, n + 1)[k - 1]);
}

/// A full live prefix of length `p.len()` at `n` is exactly an occurrence of
/// the pattern ending at `n`, and conversely.
pub proof fn lemma_live_full_is_match(p: Seq<u8>, t: Seq<u8>, n: int)
    requires
        0 <= n <= t.len(),
        p.len() <= n,
    ensures
        is_live(p, t, n, p.len() as int) <==> is_match_at(t, p, n - p.len()),
{
    if is_live(p, t, n, p.len() as int) {
        assert(t.subrange(n - p.len(), n) =~= p) by {
            assert(p.subrange(0, p.len() as int) =~= p);
        }
    }
    if is_match_at(t, p, n - p.len()) {
        assert(p.subrange(0, p.len() as int) =~= p);
    }
}

/// A matcher for one fixed, non-empty byte pattern, with its precomputed
/// KMP failure table.
pub struct KmpMatcher {
    pattern: Vec<u8>,
    failure: Vec<usize>,
}

impl KmpMatcher {
    /// The matcher holds a non-empty pattern and a valid failure table.
    pub closed spec fn wf(&self) -> bool {
        &&& self.pattern@.len() >= 1
        &&& table_valid(self.pattern@, self.failure@)
    }

    /// The pattern this matcher searches for.
    pub closed spec fn pattern_view(&self) -> Seq<u8> {
        self.pattern@
    }

    /// Build a new matcher for the given non-empty `pattern`.
    pub fn new(pattern: &[u8]) -> (r: Self)
        requires
            pattern@.len() >= 1,
        ensures
            r.wf(),
            r.pattern_view() == pattern@,
    {
        let failure = Self::build_failure_table(pattern);
        KmpMatcher { pattern: vstd::slice::slice_to_vec(pattern), failure }
    }

    /// Return a reference to the underlying pattern.
    pub fn pattern(&self) -> (r: &[u8])
        ensures
            r@ == self.pattern_view(),
    {
        self.pattern.as_slice()
    }

    /// Compute the KMP failure (partial-match) table of `pattern`.
    fn build_failure_table(pattern: &[u8]) -> (table: Vec<usize>)
        ensures
            table@.len() == pattern@.len(),
            table_valid(pattern@, table@),
    {
        let ghost p: Seq<u8> = pattern@;
        let m: usize = pattern.len();
        let mut table: Vec<usize> = vec![0usize; m];
        proof {
            if m >= 1 {
                assert(p.subrange(0, 0) =~= p.subrange(1, 1));
                assert(is_border(p, 1, 0));
            }
        }
        let mut i: usize = 1;
        while i < m
            invariant
                p == pattern@,
                m == p.len(),
                table@.len() == m,
                1 <= i,
                i <= m || m <= 1,
                forall|l: int|
                    0 <= l < i && l < m ==> {
                        &&& #[trigger] table@[l] <= l
                        &&& is_border(p, l + 1, table@[l] as int)
                        &&& forall|k: int| table@[l] < k <= l ==> !(#[trigger] is_border(p, l + 1, k))
                    },
            decreases m - i,
        {
            let mut len: usize = table[i - 1];
            proof {
                lemma_live_border(p, p, i as int, len as int, len as int);
                assert forall|k: int| len < k < i && is_border(p, i as int, k) implies p[k] != p[i as int] by {
                    assert(!is_border(p, (i - 1) + 1, k));
                }
            }
            // `len` stays a border of `p[0..i]`, and every longer border of
            // `p[0..i]` has already been found not to extend with `p[i]`.
            while len > 0 && pattern[len] != pattern[i]
                invariant
                    p == pattern@,
                    m == p.len(),
                    table@.len() == m,
                    1 <= i < m,
                    len < i,
                    is_border(p, i as int, len as int),
                    forall|l: int|
                        0 <= l < i ==> {
                            &&& #[trigger] table@[l] <= l
                            &&& is_border(p, l + 1, table@[l] as int)
                            &&& forall|k: int| table@[l] < k <= l ==> !(#[trigger] is_border(p, l + 1, k))
                        },
                    forall|k: int| len < k < i && is_border(p, i as int, k) ==> p[k] != p[i as int],
                decreases len,
            {
                let ghost old_len: int = len as int;
                len = table[len - 1];
                proof {
                    assert(is_border(p, old_len, len as int));
                    lemma_border_live(p, p, i as int, old_len, len as int);
                    assert forall|k: int| len < k < i && is_border(p, i as int, k) implies p[k]
                        != p[i as int] by {
                        if k > old_len {
                            // ruled out by the previous iterations
                        } else if k == old_len {
                            // just tested: p[old_len] != p[i]
                        } else {
                            // len < k < old_len: k would be a border of
                            // p[0..old_len] longer than the table entry
                            lemma_live_border(p, p, i as int, k, old_len);
                            assert(is_border(p, (old_len - 1) + 1, k));
                            assert(false);
                        }
                    }
                }
            }
            let ghost exit_len: int = len as int;
            if pattern[len] == pattern[i] {
                len = len + 1;
            }
            let ghost prev: Seq<usize> = table@;
            table[i] = len;
            proof {
                let ii = i as int;
                if len as int == exit_len + 1 {
                    lemma_live_extend(p, p, ii, exit_len);
                    assert(is_border(p, ii + 1, len as int));
                } else {
                    assert(exit_len == 0 && p[0] != p[ii]);
                    assert(p.subrange(0, 0) =~= p.subrange(ii + 1, ii + 1));
                    assert(is_border(p, ii + 1, 0));
                }
                assert forall|k: int| len < k <= ii implies !(#[trigger] is_border(p, ii + 1, k)) by {
                    if is_border(p, ii + 1, k) {
                        lemma_live_shrink(p, p, ii, k);
                        assert(is_border(p, ii, k - 1) && p[k - 1] == p[ii]);
                        if len as int == exit_len + 1 {
                            assert(exit_len < k - 1 < ii);
                            assert(false);
                        } else {
                            if k - 1 == 0 {
                                assert(false);
                            } else {
                                assert(0 < k - 1 < ii);
                                assert(false);
                            }
                        }
                    }
                }
                assert forall|l: int| 0 <= l < i + 1 && l < m implies {
                    &&& #[trigger] table@[l] <= l
                    &&& is_border(p, l + 1, table@[l] as int)
                    &&& forall|k: int| table@[l] < k <= l ==> !(#[trigger] is_border(p, l + 1, k))
                } by {
                    if l < i {
                        assert(table@[l] == prev[l]);
                    } else {
                        assert(table@[l] == len);
                    }
                }
            }
            i = i + 1;
        }
        table
    }

    /// Run the KMP scanning loop over one chunk, starting from progress `j0`
    /// carried over from the (ghost) bytes already consumed, and report every
    /// occurrence that ends inside the chunk, as offsets from the start of
    /// the whole consumed stream.
    pub(crate) fn scan(
        &self,
        chunk: &[u8],
        j0: usize,
        base: usize,
        Ghost(hist): Ghost<Seq<u8>>,
    ) -> (res: (Vec<usize>, usize))
        requires
            self.wf(),
            j0 < self.pattern_view().len(),
            base == hist.len(),
            hist.len() + chunk@.len() <= usize::MAX,
            is_live(self.pattern_view(), hist, hist.len() as int, j0 as int),
            forall|k: int|
                j0 < k < self.pattern_view().len() ==> !(#[trigger] is_live(
                    self.pattern_view(),
                    hist,
                    hist.len() as int,
                    k,
                )),
        ensures
            res.1 < self.pattern_view().len(),
            is_live(self.pattern_view(), hist + chunk@, hist.len() + chunk@.len() as int, res.1 as int),
            forall|k: int|
                res.1 < k < self.pattern_view().len() ==> !(#[trigger] is_live(
                    self.pattern_view(),
                    hist + chunk@,
                    hist.len() + chunk@.len() as int,
                    k,
                )),
            res.0@.map_values(|v: usize| v as int) == matches_between(
                hist + chunk@,
                self.pattern_view(),
                hist.len() as int,
                hist.len() + chunk@.len() as int,
            ),
    {
        let ghost p: Seq<u8> = self.pattern@;
        let ghost full: Seq<u8> = hist + chunk@;
        let ghost nn: int = hist.len() as int;
        let m: usize = self.pattern.len();
        let mut matches: Vec<usize> = Vec::new();
        let mut j: usize = j0;
        let mut i: usize = 0;
        proof {
            assert(hist =~= full.subrange(0, hist.len() as int));
            lemma_live_prefix_transfer(p, hist, full, nn, j as int);
            assert forall|k: int| j < k < m implies !(#[trigger] is_live(p, full, nn + i, k)) by {
                lemma_live_prefix_transfer(p, hist, full, nn, k);
            }
            assert(matches@.map_values(|v: usize| v as int) =~= matches_between(full, p, nn, nn));
        }
        while i < chunk.len()
            invariant
                self.wf(),
                p == self.pattern@,
                m == p.len(),
                full == hist + chunk@,
                nn == hist.len(),
                base == hist.len(),
                hist.len() + chunk@.len() <= usize::MAX,
                i <= chunk@.len(),
                j < m,
                is_live(p, full, nn + i, j as int),
                forall|k: int| j < k < m ==> !(#[trigger] is_live(p, full, nn + i, k)),
                matches@.map_values(|v: usize| v as int) == matches_between(full, p, nn, nn + i),
            decreases chunk@.len() - i,
        {
            let b = chunk[i];
            proof {
                assert(full[nn + i] == chunk@[i as int]);
            }
            while j > 0 && self.pattern[j] != b
                invariant
                    self.wf(),
                    p == self.pattern@,
                    m == p.len(),
                    full == hist + chunk@,
                    nn == hist.len(),
                    i < chunk@.len(),
                    b == full[nn + i],
                    j < m,
                    is_live(p, full, nn + i, j as int),
                    forall|k: int|
                        j < k < m && #[trigger] is_live(p, full, nn + i, k) ==> p[k] != full[nn + i],
                decreases j,
            {
                let ghost old_j: int = j as int;
                j = self.failure[j - 1];
                proof {
                    assert(is_border(p, old_j, j as int));
                    lemma_border_live(p, full, nn + i, old_j, j as int);
                    assert forall|k: int|
                        j < k < m && #[trigger] is_live(p, full, nn + i, k) implies p[k] != full[nn + i] by {
                        if k < old_j {
                            lemma_live_border(p, full, nn + i, k, old_j);
                            assert(is_border(p, (old_j - 1) + 1, k));
                            assert(false);
                        }
                    }
                }
            }
            let ghost exit_j: int = j as int;
            if self.pattern[j] == b {
                j = j + 1;
                proof {
                    lemma_live_extend(p, full, nn + i, exit_j);
                }
            } else {
                proof {
                    assert(exit_j == 0);
                    assert(p.subrange(0, 0) =~= full.subrange(nn + i + 1, nn + i + 1));
                    assert(is_live(p, full, nn + i + 1, 0));
                }
            }
            proof {
                assert(is_live(p, full, nn + i + 1, j as int));
                assert forall|k: int| j < k <= m implies !(#[trigger] is_live(p, full, nn + i + 1, k)) by {
                    if is_live(p, full, nn + i + 1, k) {
                        lemma_live_shrink(p, full, nn + i, k);
                        assert(is_live(p, full, nn + i, k - 1) && p[k - 1] == full[nn + i]);
                        if j as int == exit_j + 1 {
                            assert(exit_j < k - 1 < m);
                            assert(false);
                        } else {
                            if k - 1 == 0 {
                                assert(false);
                            } else {
                                assert(0 < k - 1 < m);
                                assert(false);
                            }
                        }
                    }
                }
            }
            let ghost prev_matches: Seq<usize> = matches@;
            if j == m {
                proof {
                    lemma_live_full_is_match(p, full, nn + i + 1);
                    assert(is_match_at(full, p, nn + i + 1 - m));
                }
                matches.push(base + i + 1 - m);
                j = self.failure[m - 1];
                proof {
                    assert(is_border(p, m as int, j as int));
                    lemma_border_live(p, full, nn + i + 1, m as int, j as int);
                    assert forall|k: int| j < k < m implies !(#[trigger] is_live(p, full, nn + i + 1, k)) by {
                        if is_live(p, full, nn + i + 1, k) {
                            lemma_live_border(p, full, nn + i + 1, k, m as int);
                            assert(is_border(p, (m - 1) + 1, k));
                            assert(false);
                        }
                    }
                    assert(matches@ == prev_matches.push((base + i + 1 - m) as usize));
                    assert(matches@.map_values(|v: usize| v as int) =~= matches_between(
                        full,
                        p,
                        nn,
                        nn + i + 1,
                    ));
                }
            } else {
                proof {
                    if nn + i + 1 - p.len() >= 0 {
                        lemma_live_full_is_match(p, full, nn + i + 1);
                    }
                    assert(!is_match_at(full, p, nn + i + 1 - p.len()));
                    assert(matches@.map_values(|v: usize| v as int) =~= matches_between(
                        full,
                        p,
                        nn,
                        nn + i + 1,
                    ));
                }
            }
            i = i + 1;
        }
        proof {
            assert(nn + i == hist.len() + chunk@.len());
        }
        (matches, j)
    }

    /// Return all starting indices where the pattern occurs in `text`, in
    /// strictly increasing order: every listed offset is an occurrence, and
    /// every occurrence is listed.
    pub fn find_all(&self, text: &[u8]) -> (r: Vec<usize>)
        requires
            self.wf(),
        ensures
            r@.map_values(|v: usize| v as int) == matches_up_to(
                text@,
                self.pattern_view(),
                text@.len() as int,
            ),
            forall|a: int, b: int| 0 <= a < b < r@.len() ==> r@[a] < r@[b],
            forall|a: int|
                0 <= a < r@.len() ==> is_match_at(text@, self.pattern_view(), #[trigger] r@[a] as int),
            forall|q: int|
                is_match_at(text@, self.pattern_view(), q) ==> r@.map_values(
                    |v: usize| v as int,
                ).contains(q),
    {
        let ghost p: Seq<u8> = self.pattern@;
        proof {
            assert(p.subrange(0, 0) =~= Seq::<u8>::empty().subrange(0, 0));
            assert(is_live(p, Seq::<u8>::empty(), 0, 0));
            assert forall|k: int| 0 < k < p.len() implies !(#[trigger] is_live(p, Seq::<u8>::empty(), 0, k)) by {
            }
        }
        let n: usize = text.len();
        proof {
            assert(text@.len() == n);
        }
        let (matches, _) = self.scan(text, 0, 0, Ghost(Seq::empty()));
        proof {
            assert(Seq::<u8>::empty() + text@ =~= text@);
            lemma_matches_up_to_is_between(text@, p, text@.len() as int);
            lemma_matches_up_to_properties(text@, p, text@.len() as int);
            let s = matches@.map_values(|v: usize| v as int);
            assert forall|a: int, b: int| 0 <= a < b < matches@.len() implies matches@[a]
                < matches@[b] by {
                assert(s[a] < s[b]);
            }
            assert forall|a: int| 0 <= a < matches@.len() implies is_match_at(
                text@,
                p,
                #[trigger] matches@[a] as int,
            ) by {
                assert(is_match_at(text@, p, s[a]));
            }
        }
        matches
    }

    /// Return the index of the first occurrence of the pattern in `text`, or
    /// `None` when the pattern does not occur at all.
    pub fn find_first(&self, text: &[u8]) -> (r: Option<usize>)
        requires
            self.wf(),
        ensures
            match r {
                Some(q) => is_match_at(text@, self.pattern_view(), q as int) && forall|q2: int|
                    0 <= q2 < q ==> !is_match_at(text@, self.pattern_view(), q2),
                None => forall|q: int| !is_match_at(text@, self.pattern_view(), q),
            },
    {
        let all = self.find_all(text);
        let ghost p: Seq<u8> = self.pattern_view();
        let ghost s = all@.map_values(|v: usize| v as int);
        if all.len() > 0 {
            let q = all[0];
            proof {
                assert(is_match_at(text@, p, s[0]));
                assert forall|q2: int| 0 <= q2 < q implies !is_match_at(text@, p, q2) by {
                    if is_match_at(text@, p, q2) {
                        assert(s.contains(q2));
                        let a = choose|a: int| 0 <= a < s.len() && s[a] == q2;
                        assert(all@[a] < all@[0] || a == 0);
                    }
                }
            }
            Some(q)
        } else {
            proof {
                assert forall|q: int| !is_match_at(text@, p, q) by {
                    if is_match_at(text@, p, q) {
                        assert(s.contains(q));
                    }
                }
            }
            None
        }
    }

    /// Check whether `text` contains the pattern at all.
    pub fn contains(&self, text: &[u8]) -> (r: bool)
        requires
            self.wf(),
        ensures
            r <==> exists|q: int| is_match_at(text@, self.pattern_view(), q),
    {
        let first = self.find_first(text);
        first.is_some()
    }
}

} // verus!

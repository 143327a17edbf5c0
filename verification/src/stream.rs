//! Streaming KMP matcher that retains match progress across successive
//! `feed` calls, so that pattern occurrences spanning the boundary between
//! two independently supplied chunks are still reported.
//!
//! The matcher carries two pieces of state: the number of pattern bytes
//! currently matched against the tail of everything fed so far, and the total
//! number of bytes consumed, which turns chunk-relative offsets into offsets
//! from the start of the whole logical stream.

use crate::kmp::KmpMatcher;
use crate::kmp::is_live;
use crate::kmp::matches_between;
use crate::kmp::matches_up_to;
use crate::kmp::lemma_matches_up_to_is_between;
use crate::kmp::lemma_matches_between_split;
use crate::kmp::lemma_matches_between_prefix;
use vstd::prelude::*;

verus! {

/// A matcher over a logical byte stream delivered in chunks.
pub struct StreamMatcher {
    inner: KmpMatcher,
    /// Number of pattern bytes matched so far (carry-over between feeds).
    state: usize,
    /// Total bytes fed so far (for global offset reporting).
    global_offset: usize,
    /// The bytes fed since construction or the last reset.
    history: Ghost<Seq<u8>>,
}

impl StreamMatcher {
    /// The carried progress counter is the length of the longest prefix of
    /// the pattern (shorter than the whole pattern) that is a suffix of the
    /// bytes consumed so far, and the global offset counts those bytes.
    pub closed spec fn wf(&self) -> bool {
        &&& self.inner.wf()
        &&& self.state < self.inner.pattern_view().len()
        &&& self.global_offset == self.history@.len()
        &&& is_live(
            self.inner.pattern_view(),
            self.history@,
            self.history@.len() as int,
            self.state as int,
        )
        &&& forall|k: int|
            self.state < k < self.inner.pattern_view().len() ==> !(#[trigger] is_live(
                self.inner.pattern_view(),
                self.history@,
                self.history@.len() as int,
                k,
            ))
    }

    /// The pattern this matcher searches for.
    pub closed spec fn pattern_view(&self) -> Seq<u8> {
        self.inner.pattern_view()
    }

    /// Every byte fed since construction or the last reset, in order.
    pub closed spec fn history_view(&self) -> Seq<u8> {
        self.history@
    }

    /// Create a new streaming matcher for the non-empty `pattern`.
    pub fn new(pattern: &[u8]) -> (r: Self)
        requires
            pattern@.len() >= 1,
        ensures
            r.wf(),
            r.pattern_view() == pattern@,
            r.history_view() == Seq::<u8>::empty(),
    {
        let inner = KmpMatcher::new(pattern);
        proof {
            assert(pattern@.subrange(0, 0) =~= Seq::<u8>::empty().subrange(0, 0));
        }
        StreamMatcher { inner, state: 0, global_offset: 0, history: Ghost(Seq::empty()) }
    }

    /// Feed a chunk of data and return the global byte offset of every
    /// occurrence whose final byte lies in this chunk — exactly the
    /// occurrences of the pattern in the whole stream consumed so far that
    /// were not reported by an earlier call.
    pub fn feed(&mut self, chunk: &[u8]) -> (r: Vec<usize>)
        requires
            old(self).wf(),
            old(self).history_view().len() + chunk@.len() <= usize::MAX,
        ensures
            final(self).wf(),
            final(self).pattern_view() == old(self).pattern_view(),
            final(self).history_view() == old(self).history_view() + chunk@,
            r@.map_values(|v: usize| v as int) == matches_between(
                old(self).history_view() + chunk@,
                old(self).pattern_view(),
                old(self).history_view().len() as int,
                old(self).history_view().len() + chunk@.len() as int,
            ),
    {
        let ghost hist: Seq<u8> = self.history@;
        let (matches, j) = self.inner.scan(chunk, self.state, self.global_offset, Ghost(hist));
        self.state = j;
        self.global_offset = self.global_offset + chunk.len();
        self.history = Ghost(hist + chunk@);
        matches
    }

    /// Reset the matcher state (but keep the same pattern): afterwards the
    /// matcher is indistinguishable from a freshly constructed one.
    pub fn reset(&mut self)
        requires
            old(self).wf(),
        ensures
            final(self).wf(),
            final(self).pattern_view() == old(self).pattern_view(),
            final(self).history_view() == Seq::<u8>::empty(),
    {
        self.state = 0;
        self.global_offset = 0;
        self.history = Ghost(Seq::empty());
        proof {
            assert(self.pattern_view().subrange(0, 0) =~= Seq::<u8>::empty().subrange(0, 0));
        }
    }

    /// Total bytes processed since construction or the last reset.
    pub fn bytes_processed(&self) -> (r: usize)
        requires
            self.wf(),
        ensures
            r == self.history_view().len(),
    {
        self.global_offset
    }
}

/// The concatenation of the first `i` chunks.
pub open spec fn fed_prefix(chunks: Seq<Seq<u8>>, i: int) -> Seq<u8> {
    chunks.take(i).flatten()
}

/// The concatenation of the offset lists that the first `i` `feed` calls
/// return when the chunks are fed in order to a fresh matcher: call `i`
/// reports the occurrences that end inside chunk `i`, as `feed`'s
/// postcondition states.
pub open spec fn feed_outputs(p: Seq<u8>, chunks: Seq<Seq<u8>>, i: int) -> Seq<int>
    decreases i,
{
    if i <= 0 {
        Seq::empty()
    } else {
        feed_outputs(p, chunks, i - 1) + matches_between(
            fed_prefix(chunks, i),
            p,
            fed_prefix(chunks, i - 1).len() as int,
            fed_prefix(chunks, i).len() as int,
        )
    }
}

/// Streaming equivalence: for every pattern and every way of splitting a
/// text into an ordered list of (possibly empty) chunks, concatenating the
/// offset lists returned by successive `feed` calls on a fresh matcher
/// yields exactly the offset list that `find_all` reports on the whole
/// concatenated text.
pub proof fn lemma_streaming_equivalence(p: Seq<u8>, chunks: Seq<Seq<u8>>)
    requires
        p.len() >= 1,
    ensures
        feed_outputs(p, chunks, chunks.len() as int) == matches_up_to(
            chunks.flatten(),
            p,
            chunks.flatten().len() as int,
        ),
{
    lemma_feed_outputs_prefix(p, chunks, chunks.len() as int);
    assert(chunks.take(chunks.len() as int) =~= chunks);
    lemma_matches_up_to_is_between(chunks.flatten(), p, chunks.flatten().len() as int);
}

/// After `i` feeds, the concatenated outputs are all the matches in the
/// stream consumed so far.
proof fn lemma_feed_outputs_prefix(p: Seq<u8>, chunks: Seq<Seq<u8>>, i: int)
    requires
        0 <= i <= chunks.len(),
    ensures
        feed_outputs(p, chunks, i) == matches_between(
            fed_prefix(chunks, i),
            p,
            0,
            fed_prefix(chunks, i).len() as int,
        ),
    decreases i,
{
    if i <= 0 {
        assert(chunks.take(0) =~= Seq::<Seq<u8>>::empty());
        assert(fed_prefix(chunks, 0).len() == 0);
    } else {
        lemma_feed_outputs_prefix(p, chunks, i - 1);
        let shorter = fed_prefix(chunks, i - 1);
        let longer = fed_prefix(chunks, i);
        assert(chunks.take(i) =~= chunks.take(i - 1).push(chunks[i - 1]));
        chunks.take(i - 1).lemma_flatten_push(chunks[i - 1]);
        assert(longer == shorter + chunks[i - 1]);
        assert(shorter =~= longer.subrange(0, shorter.len() as int));
        lemma_matches_between_prefix(shorter, longer, p, 0, shorter.len() as int);
        lemma_matches_between_split(
            longer,
            p,
            0,
            shorter.len() as int,
            longer.len() as int,
        );
    }
}

} // verus!

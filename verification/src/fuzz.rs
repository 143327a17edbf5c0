//! Byte-level mutation fuzzer for matcher payloads.
//!
//! A [`Fuzzer`] owns a seed payload, a non-empty set of mutation strategies,
//! and a number of mutation events to apply per generated variant. Each
//! variant starts from a fresh copy of the seed and applies that many edits,
//! each driven by randomness drawn from the thread-local generator. The
//! edits themselves are performed by the verified [`apply_mutation`], whose
//! contract states exactly how each strategy transforms the buffer; the
//! random draws enter only through small trusted wrappers.

use vstd::prelude::*;

verus! {

use rand::Rng;

/// Available mutation strategies.
#[derive(Debug, Clone, Copy, PartialEq, Eq)]
pub enum MutationStrategy {
    /// Flip one bit of one byte.
    BitFlip,
    /// Replace one byte with a random value.
    ByteReplace,
    /// Insert one random byte at a random position.
    ByteInsert,
    /// Delete one byte.
    ByteDelete,
    /// Swap the bytes at two random positions.
    ChunkShuffle,
}

impl MutationStrategy {
    /// Strategies that never change the length of the buffer.
    pub open spec fn preserves_length(self) -> bool {
        self is BitFlip || self is ByteReplace || self is ChunkShuffle
    }

    /// Return all available strategies.
    pub fn all() -> (r: Vec<MutationStrategy>)
        ensures
            r@ == seq![
                MutationStrategy::BitFlip,
                MutationStrategy::ByteReplace,
                MutationStrategy::ByteInsert,
                MutationStrategy::ByteDelete,
                MutationStrategy::ChunkShuffle,
            ],
    {
        let mut r: Vec<MutationStrategy> = Vec::new();
        r.push(MutationStrategy::BitFlip);
        r.push(MutationStrategy::ByteReplace);
        r.push(MutationStrategy::ByteInsert);
        r.push(MutationStrategy::ByteDelete);
        r.push(MutationStrategy::ChunkShuffle);
        proof {
            assert(r@ =~= seq![
                MutationStrategy::BitFlip,
                MutationStrategy::ByteReplace,
                MutationStrategy::ByteInsert,
                MutationStrategy::ByteDelete,
                MutationStrategy::ChunkShuffle,
            ]);
        }
        r
    }
}

/// One mutation event: transform `data` according to `strategy`, using the
/// given positions and byte value. For a bit flip the caller passes the mask
/// of the bit to toggle in `value`; a byte swap uses `pos` and `pos2`; the
/// other strategies ignore `pos2`.
pub open spec fn spec_mutate(
    data: Seq<u8>,
    strategy: MutationStrategy,
    pos: int,
    pos2: int,
    value: u8,
) -> Seq<u8> {
    match strategy {
        MutationStrategy::BitFlip => data.update(pos, data[pos] ^ value),
        MutationStrategy::ByteReplace => data.update(pos, value),
        MutationStrategy::ByteInsert => data.insert(pos, value),
        MutationStrategy::ByteDelete => data.remove(pos),
        MutationStrategy::ChunkShuffle => data.update(pos, data[pos2]).update(pos2, data[pos]),
    }
}

/// Apply one mutation event to `data`. The positions must be in bounds:
/// strictly below the length for an edit of an existing byte, at most the
/// length for an insertion.
pub fn apply_mutation(
    data: &mut Vec<u8>,
    strategy: MutationStrategy,
    pos: usize,
    pos2: usize,
    value: u8,
)
    requires
        match strategy {
            MutationStrategy::ByteInsert => pos <= old(data)@.len(),
            MutationStrategy::ChunkShuffle => pos < old(data)@.len() && pos2 < old(data)@.len(),
            _ => pos < old(data)@.len(),
        },
    ensures
        final(data)@ == spec_mutate(old(data)@, strategy, pos as int, pos2 as int, value),
        strategy.preserves_length() ==> final(data)@.len() == old(data)@.len(),
        strategy is ByteInsert ==> final(data)@.len() == old(data)@.len() + 1,
        strategy is ByteDelete ==> final(data)@.len() == old(data)@.len() - 1,
{
    match strategy {
        MutationStrategy::BitFlip => {
            let v = data[pos];
            data[pos] = v ^ value;
        },
        MutationStrategy::ByteReplace => {
            data[pos] = value;
        },
        MutationStrategy::ByteInsert => {
            data.insert(pos, value);
        },
        MutationStrategy::ByteDelete => {
            data.remove(pos);
        },
        MutationStrategy::ChunkShuffle => {
            let a = data[pos];
            let b = data[pos2];
            data[pos] = b;
            data[pos2] = a;
        },
    }
}

/// Relies on `rand::Rng::gen::<u8>` on the thread-local generator: some byte
/// comes back; nothing can be promised about its value.
#[verifier::external_body]
fn random_byte() -> u8 {
    rand::thread_rng().gen()
}

/// Relies on `rand::Rng::gen_range` on the thread-local generator with the
/// half-open range `0..bound`: the result is strictly below `bound`, and the
/// call panics only on an empty range, which the precondition rules out.
#[verifier::external_body]
fn random_below(bound: usize) -> (r: usize)
    requires
        bound >= 1,
    ensures
        r < bound,
{
    rand::thread_rng().gen_range(0..bound)
}

/// Relies on `rand::Rng::gen_range` on the thread-local generator with the
/// inclusive range `0..=bound`, which is never empty: the result is at most
/// `bound`.
#[verifier::external_body]
fn random_at_most(bound: usize) -> (r: usize)
    ensures
        r <= bound,
{
    rand::thread_rng().gen_range(0..=bound)
}

/// Payload fuzzer that mutates a seed byte vector.
pub struct Fuzzer {
    seed: Vec<u8>,
    strategies: Vec<MutationStrategy>,
    mutations_per_round: usize,
}

impl Fuzzer {
    /// At least one strategy is enabled, and at least one mutation event is
    /// applied per variant.
    pub closed spec fn wf(&self) -> bool {
        &&& self.strategies@.len() >= 1
        &&& self.mutations_per_round >= 1
    }

    /// The seed payload that every variant starts from.
    pub closed spec fn seed_view(&self) -> Seq<u8> {
        self.seed@
    }

    /// The enabled mutation strategies.
    pub closed spec fn strategies_view(&self) -> Seq<MutationStrategy> {
        self.strategies@
    }

    /// How many mutation events are applied per generated variant.
    pub closed spec fn mutations_view(&self) -> usize {
        self.mutations_per_round
    }

    /// Every enabled strategy keeps the buffer length unchanged.
    pub open spec fn all_preserving(&self) -> bool {
        forall|j: int|
            0 <= j < self.strategies_view().len() ==> (
            #[trigger] self.strategies_view()[j]).preserves_length()
    }

    /// Create a fuzzer from a seed payload, with every strategy enabled and
    /// three mutation events per variant.
    pub fn new(seed: &[u8]) -> (r: Self)
        ensures
            r.wf(),
            r.seed_view() == seed@,
            r.strategies_view() == seq![
                MutationStrategy::BitFlip,
                MutationStrategy::ByteReplace,
                MutationStrategy::ByteInsert,
                MutationStrategy::ByteDelete,
                MutationStrategy::ChunkShuffle,
            ],
            r.mutations_view() == 3usize,
    {
        Fuzzer {
            seed: vstd::slice::slice_to_vec(seed),
            strategies: MutationStrategy::all(),
            mutations_per_round: 3,
        }
    }

    /// Limit the strategies to use; the subset must not be empty.
    pub fn with_strategies(self, strategies: &[MutationStrategy]) -> (r: Self)
        requires
            self.wf(),
            strategies@.len() >= 1,
        ensures
            r.wf(),
            r.seed_view() == self.seed_view(),
            r.strategies_view() == strategies@,
            r.mutations_view() == self.mutations_view(),
    {
        Fuzzer {
            seed: self.seed,
            strategies: vstd::slice::slice_to_vec(strategies),
            mutations_per_round: self.mutations_per_round,
        }
    }

    /// Set how many mutations to apply per generated payload; zero is raised
    /// to one, since zero mutations would make the fuzzer a pass-through.
    pub fn with_mutations_per_round(self, n: usize) -> (r: Self)
        requires
            self.wf(),
        ensures
            r.wf(),
            r.seed_view() == self.seed_view(),
            r.strategies_view() == self.strategies_view(),
            r.mutations_view() == if n == 0 { 1usize } else { n },
    {
        let rounds = if n == 0 { 1 } else { n };
        Fuzzer { seed: self.seed, strategies: self.strategies, mutations_per_round: rounds }
    }

    /// Generate one variant: start from a fresh copy of the seed and apply
    /// `mutations_per_round` mutation events. On an empty buffer the only
    /// legal edit is the insertion of one random byte; otherwise a strategy
    /// is picked from the enabled subset and applied. Each event changes the
    /// length by at most one, and when every enabled strategy preserves the
    /// length, a non-empty seed's length is kept exactly.
    fn mutate_once(&self) -> (r: Vec<u8>)
        requires
            self.wf(),
        ensures
            self.all_preserving() && self.seed_view().len() > 0 ==> r@.len()
                == self.seed_view().len(),
            r@.len() <= self.seed_view().len() + self.mutations_view(),
            self.seed_view().len() <= r@.len() + self.mutations_view(),
    {
        let mut data: Vec<u8> = vstd::slice::slice_to_vec(self.seed.as_slice());
        let rounds = self.mutations_per_round;
        let mut done: usize = 0;
        while done < rounds
            invariant
                self.wf(),
                rounds == self.mutations_view(),
                done <= rounds,
                data@.len() <= self.seed_view().len() + done,
                self.seed_view().len() <= data@.len() + done,
                self.all_preserving() && self.seed_view().len() > 0 ==> data@.len()
                    == self.seed_view().len(),
            decreases rounds - done,
        {
            if data.len() == 0 {
                // The only legal edit on an empty payload is an insertion.
                data.push(random_byte());
            } else {
                let si = random_below(self.strategies.len());
                let strategy = self.strategies[si];
                proof {
                    assert(self.strategies_view()[si as int] == strategy);
                }
                match strategy {
                    MutationStrategy::BitFlip => {
                        let pos = random_below(data.len());
                        let bit = random_below(8);
                        let mask: u8 = 1u8 << (bit as u32);
                        apply_mutation(&mut data, strategy, pos, 0, mask);
                    },
                    MutationStrategy::ByteReplace => {
                        let pos = random_below(data.len());
                        apply_mutation(&mut data, strategy, pos, 0, random_byte());
                    },
                    MutationStrategy::ByteInsert => {
                        let pos = random_at_most(data.len());
                        apply_mutation(&mut data, strategy, pos, 0, random_byte());
                    },
                    MutationStrategy::ByteDelete => {
                        let pos = random_below(data.len());
                        apply_mutation(&mut data, strategy, pos, 0, 0);
                    },
                    MutationStrategy::ChunkShuffle => {
                        let pos = random_below(data.len());
                        let pos2 = random_below(data.len());
                        apply_mutation(&mut data, strategy, pos, pos2, 0);
                    },
                }
            }
            done = done + 1;
        }
        data
    }

    /// Generate `count` mutated payloads, each produced independently from a
    /// fresh copy of the seed.
    pub fn generate(&self, count: usize) -> (r: Vec<Vec<u8>>)
        requires
            self.wf(),
        ensures
            r@.len() == count,
            forall|i: int|
                0 <= i < count ==> {
                    &&& self.all_preserving() && self.seed_view().len() > 0 ==> (
                    #[trigger] r@[i])@.len() == self.seed_view().len()
                    &&& r@[i]@.len() <= self.seed_view().len() + self.mutations_view()
                    &&& self.seed_view().len() <= r@[i]@.len() + self.mutations_view()
                },
    {
        let mut out: Vec<Vec<u8>> = Vec::new();
        let mut made: usize = 0;
        while made < count
            invariant
                self.wf(),
                made <= count,
                out@.len() == made,
                forall|i: int|
                    0 <= i < made ==> {
                        &&& self.all_preserving() && self.seed_view().len() > 0 ==> (
                        #[trigger] out@[i])@.len() == self.seed_view().len()
                        &&& out@[i]@.len() <= self.seed_view().len() + self.mutations_view()
                        &&& self.seed_view().len() <= out@[i]@.len() + self.mutations_view()
                    },
            decreases count - made,
        {
            let variant = self.mutate_once();
            out.push(variant);
            made = made + 1;
        }
        out
    }
}

} // verus!

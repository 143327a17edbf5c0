//! A small FNV-1a–style 32-bit hash over byte slices, and a hash chain
//! built on top of it: a list of passwords where each link is derived from
//! the hash of the previous one through a caller-supplied reduction
//! function.

use vstd::prelude::*;

verus! {

use vstd::utf8::encode_utf8;
use vstd::wrapping::u32_specs::wrapping_mul;

/// One FNV-1a step: fold one byte into the running hash.
pub open spec fn fnv_step(h: u32, b: u8) -> u32 {
    wrapping_mul(h ^ b as u32, 0x0100_0193)
}

/// The running hash after folding in all of `data`, starting from `h`.
pub open spec fn fnv_from(h: u32, data: Seq<u8>) -> u32
    decreases data.len(),
{
    if data.len() == 0 {
        h
    } else {
        fnv_from(fnv_step(h, data[0]), data.drop_first())
    }
}

/// The FNV-1a–style hash of a byte sequence.
pub open spec fn fnv_hash(data: Seq<u8>) -> u32 {
    fnv_from(0x811C_9DC5, data)
}

/// The hash of a string's UTF-8 encoding.
pub open spec fn string_fnv(s: Seq<char>) -> u32 {
    fnv_hash(encode_utf8(s))
}

/// Simple hash (FNV-1a style) of a byte slice.
pub fn simple_hash(data: &[u8]) -> (r: u32)
    ensures
        r == fnv_hash(data@),
{
    let n = data.len();
    let mut hash: u32 = 0x811C_9DC5;
    let mut i: usize = 0;
    proof {
        assert(data@.skip(0) =~= data@);
    }
    while i < n
        invariant
            n == data@.len(),
            i <= n,
            fnv_hash(data@) == fnv_from(hash, data@.skip(i as int)),
        decreases n - i,
    {
        let ghost rest: Seq<u8> = data@.skip(i as int);
        proof {
            assert(rest[0] == data@[i as int]);
            assert(rest.drop_first() =~= data@.skip(i + 1));
        }
        hash = hash ^ data[i] as u32;
        hash = hash.wrapping_mul(0x0100_0193);
        i = i + 1;
    }
    proof {
        assert(data@.skip(n as int) =~= Seq::<u8>::empty());
    }
    hash
}

/// A hash chain: successive links derived by hashing the previous link and
/// reducing the hash back to a string with the configured reduction
/// function.
pub struct HashChain<F> where F: Fn(u32, usize) -> String {
    /// The links, oldest first.
    pub chain: Vec<String>,
    /// Maps a hash and the link's position to the next link.
    pub reduction: F,
}

impl<F> HashChain<F> where F: Fn(u32, usize) -> String {
    /// Create an empty chain with the given reduction function.
    pub fn new(reduction: F) -> (r: Self)
        ensures
            r.chain@.len() == 0,
            r.reduction == reduction,
    {
        HashChain { chain: Vec::new(), reduction }
    }

    /// Rebuild the chain from `start_password`: link `0` is the start, and
    /// each following link is the reduction of the previous link's hash.
    pub fn generate_chain(&mut self, start_password: &str, length: usize)
        requires
            forall|h: u32, i: usize| #[trigger] call_requires(old(self).reduction, (h, i)),
        ensures
            final(self).reduction == old(self).reduction,
            final(self).chain@.len() == length,
            length > 0 ==> final(self).chain@[0]@ == start_password@,
            forall|j: int|
                0 <= j < length - 1 ==> call_ensures(
                    old(self).reduction,
                    (string_fnv(final(self).chain@[j]@), j as usize),
                    #[trigger] final(self).chain@[j + 1],
                ),
    {
        self.chain.clear();
        let mut cur: String = start_password.to_owned();
        let mut i: usize = 0;
        while i < length
            invariant
                forall|h: u32, ii: usize| #[trigger] call_requires(self.reduction, (h, ii)),
                self.reduction == old(self).reduction,
                i <= length,
                self.chain@.len() == i,
                i == 0 ==> cur@ == start_password@,
                i > 0 ==> self.chain@[0]@ == start_password@,
                i > 0 ==> call_ensures(
                    self.reduction,
                    (string_fnv(self.chain@[i - 1]@), (i - 1) as usize),
                    cur,
                ),
                forall|j: int|
                    0 <= j < i - 1 ==> call_ensures(
                        self.reduction,
                        (string_fnv(self.chain@[j]@), j as usize),
                        #[trigger] self.chain@[j + 1],
                    ),
            decreases length - i,
        {
            let h = simple_hash(cur.as_str().as_bytes());
            let next = (self.reduction)(h, i);
            self.chain.push(cur);
            cur = next;
            i = i + 1;
        }
    }

    /// Try to invert `target_hash` by regenerating forward from each link:
    /// any returned password hashes to the target, and a miss means that no
    /// stored link hashes to it.
    pub fn lookup(&self, target_hash: u32) -> (r: Option<String>)
        requires
            forall|h: u32, i: usize| #[trigger] call_requires(self.reduction, (h, i)),
        ensures
            match r {
                Some(s) => string_fnv(s@) == target_hash,
                None => forall|j: int|
                    0 <= j < self.chain@.len() ==> string_fnv(#[trigger] self.chain@[j]@)
                        != target_hash,
            },
    {
        let n = self.chain.len();
        let mut start_idx: usize = n;
        while start_idx > 0
            invariant
                forall|h: u32, i: usize| #[trigger] call_requires(self.reduction, (h, i)),
                n == self.chain@.len(),
                start_idx <= n,
                forall|j: int|
                    start_idx <= j < n ==> string_fnv(#[trigger] self.chain@[j]@) != target_hash,
            decreases start_idx,
        {
            start_idx = start_idx - 1;
            let mut cur: String = self.chain[start_idx].clone();
            let mut i: usize = start_idx;
            while i < n
                invariant
                    forall|h: u32, ii: usize| #[trigger] call_requires(self.reduction, (h, ii)),
                    n == self.chain@.len(),
                    start_idx <= i <= n,
                    start_idx < n,
                    i == start_idx ==> cur@ == self.chain@[start_idx as int]@,
                    i > start_idx ==> string_fnv(self.chain@[start_idx as int]@) != target_hash,
                    forall|j: int|
                        start_idx < j < n ==> string_fnv(#[trigger] self.chain@[j]@)
                            != target_hash,
                decreases n - i,
            {
                let h = simple_hash(cur.as_str().as_bytes());
                if h == target_hash {
                    return Some(cur);
                }
                cur = (self.reduction)(h, i);
                i = i + 1;
            }
        }
        None
    }
}

} // verus!

//! Simple symmetric ciphers: a repeating-key XOR cipher over byte slices and
//! a small Feistel network over 64-bit blocks. Both are involutive in the
//! usual sense: deciphering with the same key restores the input, which is
//! stated and proved as a law for each.

use vstd::prelude::*;

verus! {

/// A byte sequence XOR-ed with a key repeated cyclically.
pub open spec fn xor_map(data: Seq<u8>, key: Seq<u8>) -> Seq<u8> {
    data.map(|i: int, b: u8| b ^ key[i % key.len() as int])
}

/// XOR-ing twice with the same key gives back the data.
pub proof fn lemma_xor_roundtrip(data: Seq<u8>, key: Seq<u8>)
    requires
        key.len() >= 1,
    ensures
        xor_map(xor_map(data, key), key) == data,
{
    assert forall|i: int| 0 <= i < data.len() implies xor_map(xor_map(data, key), key)[i]
        == data[i] by {
        let k = key[i % key.len() as int];
        let b = data[i];
        assert((b ^ k) ^ k == b) by (bit_vector);
    }
    assert(xor_map(xor_map(data, key), key) =~= data);
}

/// Repeating-key XOR cipher.
pub struct XorCipher {
    key: Vec<u8>,
}

impl XorCipher {
    /// The key is non-empty.
    pub closed spec fn wf(&self) -> bool {
        self.key@.len() >= 1
    }

    /// The key bytes.
    pub closed spec fn key_view(&self) -> Seq<u8> {
        self.key@
    }

    /// Create a cipher from a non-empty key.
    pub fn new(key: &[u8]) -> (r: Self)
        requires
            key@.len() >= 1,
        ensures
            r.wf(),
            r.key_view() == key@,
    {
        XorCipher { key: vstd::slice::slice_to_vec(key) }
    }

    /// XOR every byte of `data` with the key, repeated cyclically.
    pub fn encrypt(&self, data: &[u8]) -> (r: Vec<u8>)
        requires
            self.wf(),
        ensures
            r@ == xor_map(data@, self.key_view()),
    {
        let klen = self.key.len();
        let n = data.len();
        let mut out: Vec<u8> = Vec::new();
        let mut i: usize = 0;
        while i < n
            invariant
                self.wf(),
                klen == self.key@.len(),
                n == data@.len(),
                i <= n,
                out@.len() == i,
                forall|j: int| 0 <= j < i ==> out@[j] == xor_map(data@, self.key_view())[j],
            decreases n - i,
        {
            let b = data[i] ^ self.key[i % klen];
            out.push(b);
            i = i + 1;
        }
        proof {
            assert(out@ =~= xor_map(data@, self.key_view()));
        }
        out
    }

    /// The inverse of `encrypt` — which is the same operation.
    pub fn decrypt(&self, data: &[u8]) -> (r: Vec<u8>)
        requires
            self.wf(),
        ensures
            r@ == xor_map(data@, self.key_view()),
    {
        self.encrypt(data)
    }
}

/// The round function: mix the right half with the round key.
pub open spec fn f_mix(right: u32, round_key: u32) -> u32 {
    let mixed = right ^ round_key;
    ((mixed << 7) | (mixed >> 25)) ^ ((mixed >> 11) | (mixed << 21))
}

/// The round-key schedule state after `i` steps: rotate left by one byte and
/// mix in a constant.
pub open spec fn key_state(key: u64, i: int) -> u64
    decreases i,
{
    if i <= 0 {
        key
    } else {
        let k = key_state(key, i - 1);
        ((k << 8) | (k >> 56)) ^ 0x9E37_79B9
    }
}

/// The `i`-th round key: the low 32 bits of the `i`-th schedule state.
pub open spec fn round_key_at(key: u64, i: int) -> u32 {
    (key_state(key, i) & 0xFFFF_FFFF) as u32
}

/// The Feistel state after the first `i` rounds, starting from `(l, r)`.
pub open spec fn feistel_rounds(keys: Seq<u32>, l: u32, r: u32, i: int) -> (u32, u32)
    decreases i,
{
    if i <= 0 {
        (l, r)
    } else {
        let prev = feistel_rounds(keys, l, r, i - 1);
        (prev.1, prev.0 ^ f_mix(prev.1, keys[i - 1]))
    }
}

/// The Feistel state after undoing rounds `i - 1` down to `0`, starting from
/// `(l, r)`.
pub open spec fn feistel_unrounds(keys: Seq<u32>, l: u32, r: u32, i: int) -> (u32, u32)
    decreases i,
{
    if i <= 0 {
        (l, r)
    } else {
        feistel_unrounds(keys, r, l ^ f_mix(r, keys[i - 1]), i - 1)
    }
}

/// A whole-block encryption: split, run every round, and join with the
/// halves swapped.
pub open spec fn feistel_encrypt_spec(keys: Seq<u32>, plaintext: u64) -> u64 {
    let l = (plaintext >> 32) as u32;
    let r = (plaintext & 0xFFFF_FFFF) as u32;
    let fin = feistel_rounds(keys, l, r, keys.len() as int);
    ((fin.1 as u64) << 32) | (fin.0 as u64)
}

/// A whole-block decryption: split, undo every round, and join with the
/// halves swapped.
pub open spec fn feistel_decrypt_spec(keys: Seq<u32>, ciphertext: u64) -> u64 {
    let l = (ciphertext >> 32) as u32;
    let r = (ciphertext & 0xFFFF_FFFF) as u32;
    let fin = feistel_unrounds(keys, l, r, keys.len() as int);
    ((fin.1 as u64) << 32) | (fin.0 as u64)
}

/// Undoing `i` rounds exactly reverses performing them, with the halves
/// swapped at the turn-around.
proof fn lemma_feistel_inverse(keys: Seq<u32>, l: u32, r: u32, i: int)
    requires
        0 <= i <= keys.len(),
    ensures
        ({
            let fin = feistel_rounds(keys, l, r, i);
            feistel_unrounds(keys, fin.1, fin.0, i) == (r, l)
        }),
    decreases i,
{
    if i > 0 {
        lemma_feistel_inverse(keys, l, r, i - 1);
        let prev = feistel_rounds(keys, l, r, i - 1);
        let a = prev.0;
        let b = prev.1;
        let k = keys[i - 1];
        assert((a ^ f_mix(b, k)) ^ f_mix(b, k) == a) by {
            let x = a;
            let y = f_mix(b, k);
            assert((x ^ y) ^ y == x) by (bit_vector);
        }
    }
}

/// Decrypting an encrypted block with the same keys restores it.
pub proof fn lemma_feistel_roundtrip(keys: Seq<u32>, plaintext: u64)
    ensures
        feistel_decrypt_spec(keys, feistel_encrypt_spec(keys, plaintext)) == plaintext,
{
    let l = (plaintext >> 32) as u32;
    let r = (plaintext & 0xFFFF_FFFF) as u32;
    let n = keys.len() as int;
    let fin = feistel_rounds(keys, l, r, n);
    let c = ((fin.1 as u64) << 32) | (fin.0 as u64);
    assert((c >> 32) as u32 == fin.1 && (c & 0xFFFF_FFFF) as u32 == fin.0) by {
        let x = fin.1;
        let y = fin.0;
        assert(((((x as u64) << 32) | (y as u64)) >> 32) as u32 == x) by (bit_vector);
        assert(((((x as u64) << 32) | (y as u64)) & 0xFFFF_FFFF) as u32 == y) by (bit_vector);
    }
    lemma_feistel_inverse(keys, l, r, n);
    assert(feistel_unrounds(keys, fin.1, fin.0, n) == (r, l));
    assert((((l as u64) << 32) | (r as u64)) == plaintext) by {
        let p = plaintext;
        assert((((((p >> 32) as u32) as u64) << 32) | (((p & 0xFFFF_FFFF) as u32) as u64)) == p)
            by (bit_vector);
    }
}

/// A small Feistel network over 64-bit blocks with a fixed round count.
pub struct SimpleFeistel {
    rounds: usize,
    round_keys: Vec<u32>,
}

impl SimpleFeistel {
    /// One round key per round, at least one round.
    pub closed spec fn wf(&self) -> bool {
        &&& self.rounds >= 1
        &&& self.round_keys@.len() == self.rounds
    }

    /// The round keys, in application order.
    pub closed spec fn keys_view(&self) -> Seq<u32> {
        self.round_keys@
    }

    /// The number of rounds.
    pub closed spec fn rounds_view(&self) -> usize {
        self.rounds
    }

    /// Derive `rounds` round keys from `key`; `rounds` must be positive.
    pub fn new(key: u64, rounds: usize) -> (r: Self)
        requires
            rounds >= 1,
        ensures
            r.wf(),
            r.rounds_view() == rounds,
            r.keys_view() == Seq::new(rounds as nat, |i: int| round_key_at(key, i)),
    {
        let mut round_keys: Vec<u32> = Vec::new();
        let mut k: u64 = key;
        let mut i: usize = 0;
        while i < rounds
            invariant
                i <= rounds,
                round_keys@.len() == i,
                k == key_state(key, i as int),
                forall|j: int| 0 <= j < i ==> round_keys@[j] == round_key_at(key, j),
            decreases rounds - i,
        {
            round_keys.push((k & 0xFFFF_FFFF) as u32);
            k = ((k << 8) | (k >> 56)) ^ 0x9E37_79B9;
            i = i + 1;
        }
        proof {
            assert(round_keys@ =~= Seq::new(rounds as nat, |i: int| round_key_at(key, i)));
        }
        SimpleFeistel { rounds, round_keys }
    }

    /// Mix the right half with a round key.
    fn f_function(&self, right: u32, round_key: u32) -> (r: u32)
        ensures
            r == f_mix(right, round_key),
    {
        let mixed = right ^ round_key;
        ((mixed << 7) | (mixed >> 25)) ^ ((mixed >> 11) | (mixed << 21))
    }

    /// Encrypt one 64-bit block.
    pub fn encrypt(&self, plaintext: u64) -> (r: u64)
        requires
            self.wf(),
        ensures
            r == feistel_encrypt_spec(self.keys_view(), plaintext),
    {
        let mut left: u32 = (plaintext >> 32) as u32;
        let mut right: u32 = (plaintext & 0xFFFF_FFFF) as u32;
        let n = self.rounds;
        let mut i: usize = 0;
        while i < n
            invariant
                self.wf(),
                n == self.rounds,
                i <= n,
                (left, right) == feistel_rounds(
                    self.keys_view(),
                    (plaintext >> 32) as u32,
                    (plaintext & 0xFFFF_FFFF) as u32,
                    i as int,
                ),
            decreases n - i,
        {
            let tmp = left ^ self.f_function(right, self.round_keys[i]);
            left = right;
            right = tmp;
            i = i + 1;
        }
        ((right as u64) << 32) | (left as u64)
    }

    /// Decrypt one 64-bit block: the inverse of `encrypt` for the same keys.
    pub fn decrypt(&self, ciphertext: u64) -> (r: u64)
        requires
            self.wf(),
        ensures
            r == feistel_decrypt_spec(self.keys_view(), ciphertext),
            forall|pt: u64|
                ciphertext == feistel_encrypt_spec(self.keys_view(), pt) ==> r == pt,
    {
        let mut left: u32 = (ciphertext >> 32) as u32;
        let mut right: u32 = (ciphertext & 0xFFFF_FFFF) as u32;
        let n = self.rounds;
        let mut i: usize = n;
        while i > 0
            invariant
                self.wf(),
                n == self.rounds,
                i <= n,
                feistel_unrounds(
                    self.keys_view(),
                    (ciphertext >> 32) as u32,
                    (ciphertext & 0xFFFF_FFFF) as u32,
                    n as int,
                ) == feistel_unrounds(self.keys_view(), left, right, i as int),
            decreases i,
        {
            i = i - 1;
            let tmp = left ^ self.f_function(right, self.round_keys[i]);
            left = right;
            right = tmp;
        }
        proof {
            assert forall|pt: u64|
                ciphertext == feistel_encrypt_spec(self.keys_view(), pt) implies ((right as u64)
                << 32) | (left as u64) == pt by {
                lemma_feistel_roundtrip(self.keys_view(), pt);
            }
        }
        ((right as u64) << 32) | (left as u64)
    }
}

} // verus!

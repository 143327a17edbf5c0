//! Classical substitution ciphers: Caesar (fixed shift) and Vigenère
//! (keyed, polyalphabetic). Both map ASCII letters only, keep case, and
//! leave every other character unchanged.

use vstd::prelude::*;

verus! {

use crate::utils::push_char;
use vstd::arithmetic::div_mod::lemma_small_mod;

/// `c` is an ASCII lower-case letter.
pub open spec fn is_lower_letter(c: char) -> bool {
    97 <= c as u32 <= 122
}

/// `c` is an ASCII upper-case letter.
pub open spec fn is_upper_letter(c: char) -> bool {
    65 <= c as u32 <= 90
}

/// `c` is an ASCII letter.
pub open spec fn is_letter(c: char) -> bool {
    is_lower_letter(c) || is_upper_letter(c)
}

/// Rotate an ASCII letter forward by `shift` positions within its case;
/// leave any other character unchanged.
pub open spec fn shift_letter(c: char, shift: u8) -> char {
    if is_lower_letter(c) {
        ((((c as u32 - 97) + shift) % 26 + 97) as u8) as char
    } else if is_upper_letter(c) {
        ((((c as u32 - 65) + shift) % 26 + 65) as u8) as char
    } else {
        c
    }
}

/// The shift that undoes `shift`.
pub open spec fn rev_shift(shift: u8) -> u8 {
    ((26 - shift) % 26) as u8
}

/// A whole text enciphered with one fixed shift.
pub open spec fn caesar_map(s: Seq<char>, shift: u8) -> Seq<char> {
    s.map_values(|c: char| shift_letter(c, shift))
}

/// Shifting a letter keeps its case and leaves non-letters alone, and the
/// reverse shift undoes it.
pub proof fn lemma_shift_letter_roundtrip(c: char, shift: u8)
    requires
        shift < 26,
    ensures
        is_lower_letter(shift_letter(c, shift)) == is_lower_letter(c),
        is_upper_letter(shift_letter(c, shift)) == is_upper_letter(c),
        shift_letter(shift_letter(c, shift), rev_shift(shift)) == c,
{
    let u = c as u32;
    if is_lower_letter(c) {
        let a = u - 97;
        let e = (a + shift) % 26;
        assert(0 <= e < 26);
        let c2 = ((e + 97) as u8) as char;
        assert(c2 as u32 == e + 97);
        assert(is_lower_letter(c2));
        let d = (e + rev_shift(shift)) % 26;
        assert(d == a) by {
            if shift == 0 {
                assert(e == a % 26);
                assert(a < 26);
            } else {
                assert(rev_shift(shift) == 26 - shift);
                if a + shift < 26 {
                    assert(e == a + shift);
                    assert(d == (a + 26) % 26);
                } else {
                    assert(e == a + shift - 26);
                    assert(d == a % 26);
                }
            }
        }
        assert(shift_letter(c2, rev_shift(shift)) as u32 == d + 97);
        assert(((u as u8) as char) == c);
    } else if is_upper_letter(c) {
        let a = u - 65;
        let e = (a + shift) % 26;
        assert(0 <= e < 26);
        let c2 = ((e + 65) as u8) as char;
        assert(c2 as u32 == e + 65);
        assert(is_upper_letter(c2));
        let d = (e + rev_shift(shift)) % 26;
        assert(d == a) by {
            if shift == 0 {
                assert(e == a % 26);
                assert(a < 26);
            } else {
                assert(rev_shift(shift) == 26 - shift);
                if a + shift < 26 {
                    assert(e == a + shift);
                    assert(d == (a + 26) % 26);
                } else {
                    assert(e == a + shift - 26);
                    assert(d == a % 26);
                }
            }
        }
        assert(shift_letter(c2, rev_shift(shift)) as u32 == d + 65);
        assert(((u as u8) as char) == c);
    } else {
    }
}

/// Deciphering with the reverse shift restores the plaintext.
pub proof fn lemma_caesar_roundtrip(s: Seq<char>, shift: u8)
    requires
        shift < 26,
    ensures
        caesar_map(caesar_map(s, shift), rev_shift(shift)) == s,
{
    assert forall|i: int| 0 <= i < s.len() implies caesar_map(caesar_map(s, shift), rev_shift(shift))[i]
        == s[i] by {
        lemma_shift_letter_roundtrip(s[i], shift);
    }
    assert(caesar_map(caesar_map(s, shift), rev_shift(shift)) =~= s);
}

/// Shift one character, executably.
fn shift_letter_exec(c: char, shift: u8) -> (r: char)
    requires
        shift < 26,
    ensures
        r == shift_letter(c, shift),
{
    let u: u32 = c as u32;
    if 97 <= u && u <= 122 {
        let v: u32 = (u - 97 + shift as u32) % 26 + 97;
        (v as u8) as char
    } else if 65 <= u && u <= 90 {
        let v: u32 = (u - 65 + shift as u32) % 26 + 65;
        (v as u8) as char
    } else {
        c
    }
}

/// Caesar cipher: a simple substitution cipher with one fixed shift.
pub struct CaesarCipher {
    shift: u8,
}

impl CaesarCipher {
    /// The shift is always reduced modulo the alphabet size.
    pub closed spec fn wf(&self) -> bool {
        self.shift < 26
    }

    /// The effective shift.
    pub closed spec fn shift_view(&self) -> u8 {
        self.shift
    }

    /// Create a cipher; the shift is taken modulo 26.
    pub fn new(shift: u8) -> (r: Self)
        ensures
            r.wf(),
            r.shift_view() == shift % 26,
    {
        CaesarCipher { shift: shift % 26 }
    }

    /// Shift every ASCII letter of `plaintext` forward by the cipher's
    /// shift, keeping case; all other characters pass through unchanged.
    pub fn encrypt(&self, plaintext: &str) -> (r: String)
        requires
            self.wf(),
        ensures
            r@ == caesar_map(plaintext@, self.shift_view()),
    {
        let n = plaintext.unicode_len();
        let mut out = String::new();
        let mut i: usize = 0;
        while i < n
            invariant
                self.wf(),
                n == plaintext@.len(),
                i <= n,
                out@ == caesar_map(plaintext@.take(i as int), self.shift_view()),
            decreases n - i,
        {
            let c = plaintext.get_char(i);
            let oc = shift_letter_exec(c, self.shift);
            push_char(&mut out, oc);
            proof {
                assert(plaintext@.take(i + 1) =~= plaintext@.take(i as int).push(c));
                assert(caesar_map(plaintext@.take(i + 1), self.shift_view()) =~= caesar_map(
                    plaintext@.take(i as int),
                    self.shift_view(),
                ).push(shift_letter(c, self.shift_view())));
            }
            i = i + 1;
        }
        proof {
            assert(plaintext@.take(n as int) =~= plaintext@);
        }
        out
    }

    /// Shift every ASCII letter of `ciphertext` backward by the cipher's
    /// shift: the inverse of `encrypt`.
    pub fn decrypt(&self, ciphertext: &str) -> (r: String)
        requires
            self.wf(),
        ensures
            r@ == caesar_map(ciphertext@, rev_shift(self.shift_view())),
    {
        let reverse = (26 - self.shift) % 26;
        let rc = CaesarCipher::new(reverse);
        proof {
            assert(rc.shift_view() == rev_shift(self.shift_view()));
        }
        rc.encrypt(ciphertext)
    }
}

/// The per-letter shifts extracted from a Vigenère key: one entry for each
/// ASCII letter of the key, its distance from `a`/`A`.
pub open spec fn key_shifts(key: Seq<char>) -> Seq<u8> {
    key.filter(|c: char| is_letter(c)).map_values(|c: char| letter_index(c))
}

/// The alphabet index of an ASCII letter (case-insensitive).
pub open spec fn letter_index(c: char) -> u8 {
    if is_lower_letter(c) {
        (c as u32 - 97) as u8
    } else {
        (c as u32 - 65) as u8
    }
}

/// A Vigenère text transformation: the `k`-th enciphered letter uses the
/// `(start + k) mod len`-th key shift; non-letters pass through without
/// consuming a key position. `dir` selects enciphering (`true`) or
/// deciphering (`false`).
pub open spec fn vigenere_map(shifts: Seq<u8>, s: Seq<char>, start: int, dir: bool) -> Seq<char>
    decreases s.len(),
{
    if s.len() == 0 || shifts.len() == 0 {
        Seq::empty()
    } else {
        let c = s[0];
        if is_letter(c) {
            let sh = shifts[start % shifts.len() as int];
            let eff = if dir {
                sh % 26
            } else {
                rev_shift(sh % 26)
            };
            seq![shift_letter(c, eff)] + vigenere_map(
                shifts,
                s.drop_first(),
                (start + 1) % shifts.len() as int,
                dir,
            )
        } else {
            seq![c] + vigenere_map(shifts, s.drop_first(), start, dir)
        }
    }
}

/// Vigenère cipher: polyalphabetic substitution driven by a keyword.
pub struct VigenereCipher {
    shifts: Vec<u8>,
}

impl VigenereCipher {
    /// At least one key letter, each reduced to an alphabet index.
    pub closed spec fn wf(&self) -> bool {
        &&& self.shifts@.len() >= 1
        &&& forall|i: int| 0 <= i < self.shifts@.len() ==> #[trigger] self.shifts@[i] < 26
    }

    /// The per-letter shifts of the key.
    pub closed spec fn shifts_view(&self) -> Seq<u8> {
        self.shifts@
    }

    /// Build a cipher from a key, keeping only its ASCII letters; the key
    /// must contain at least one.
    pub fn new(key: &str) -> (r: Self)
        requires
            exists|i: int| 0 <= i < key@.len() && is_letter(#[trigger] key@[i]),
        ensures
            r.wf(),
            r.shifts_view() == key_shifts(key@),
    {
        proof {
            let i = choose|i: int| 0 <= i < key@.len() && is_letter(#[trigger] key@[i]);
            key@.lemma_filter_contains(|c: char| is_letter(c), i);
            assert(key_shifts(key@).len() >= 1);
        }
        let n = key.unicode_len();
        let mut shifts: Vec<u8> = Vec::new();
        let mut i: usize = 0;
        while i < n
            invariant
                n == key@.len(),
                i <= n,
                shifts@ == key_shifts(key@.take(i as int)),
                forall|j: int| 0 <= j < shifts@.len() ==> #[trigger] shifts@[j] < 26,
            decreases n - i,
        {
            let c = key.get_char(i);
            let u: u32 = c as u32;
            if 97 <= u && u <= 122 {
                shifts.push((u - 97) as u8);
            } else if 65 <= u && u <= 90 {
                shifts.push((u - 65) as u8);
            }
            proof {
                lemma_key_shifts_push(key@.take(i as int), c);
                assert(key@.take(i + 1) =~= key@.take(i as int).push(c));
            }
            i = i + 1;
        }
        proof {
            assert(key@.take(n as int) =~= key@);
        }
        VigenereCipher { shifts }
    }

    /// Encipher: each ASCII letter is shifted by the next key position
    /// (cyclically); non-letters pass through and do not consume a key
    /// position.
    pub fn encrypt(&self, plaintext: &str) -> (r: String)
        requires
            self.wf(),
        ensures
            r@ == vigenere_map(self.shifts_view(), plaintext@, 0, true),
    {
        self.apply(plaintext, true)
    }

    /// Decipher: the inverse of `encrypt` for the same key.
    pub fn decrypt(&self, ciphertext: &str) -> (r: String)
        requires
            self.wf(),
        ensures
            r@ == vigenere_map(self.shifts_view(), ciphertext@, 0, false),
    {
        self.apply(ciphertext, false)
    }

    /// Shared enciphering/deciphering loop.
    fn apply(&self, text: &str, dir: bool) -> (r: String)
        requires
            self.wf(),
        ensures
            r@ == vigenere_map(self.shifts_view(), text@, 0, dir),
    {
        let ghost shifts: Seq<u8> = self.shifts@;
        let n = text.unicode_len();
        let klen = self.shifts.len();
        let mut out = String::new();
        let mut i: usize = 0;
        let mut k: usize = 0;
        proof {
            assert(text@.skip(0) =~= text@);
            assert(out@ + vigenere_map(shifts, text@, 0, dir) =~= vigenere_map(
                shifts,
                text@,
                0,
                dir,
            ));
        }
        while i < n
            invariant
                self.wf(),
                shifts == self.shifts@,
                klen == shifts.len(),
                n == text@.len(),
                i <= n,
                k < klen,
                vigenere_map(shifts, text@, 0, dir) == out@ + vigenere_map(
                    shifts,
                    text@.skip(i as int),
                    k as int,
                    dir,
                ),
            decreases n - i,
        {
            let c = text.get_char(i);
            let u: u32 = c as u32;
            let ghost rest: Seq<char> = text@.skip(i as int);
            let ghost out_before: Seq<char> = out@;
            let ghost k0: int = k as int;
            proof {
                assert(rest[0] == text@[i as int]);
                assert(rest.drop_first() =~= text@.skip(i + 1));
            }
            if (97 <= u && u <= 122) || (65 <= u && u <= 90) {
                let sh = self.shifts[k];
                let eff: u8 = if dir {
                    sh % 26
                } else {
                    (26 - sh % 26) % 26
                };
                let oc = shift_letter_exec(c, eff);
                push_char(&mut out, oc);
                k = k + 1;
                if k == klen {
                    k = 0;
                }
                proof {
                    lemma_small_mod(k0 as nat, klen as nat);
                    if k0 + 1 < klen {
                        lemma_small_mod((k0 + 1) as nat, klen as nat);
                    }
                    assert(k == (k0 + 1) % klen as int);
                    assert(vigenere_map(shifts, rest, k0, dir) == seq![
                        shift_letter(c, eff),
                    ] + vigenere_map(shifts, text@.skip(i + 1), k as int, dir));
                    assert(out_before + vigenere_map(shifts, rest, k0, dir) =~= out@
                        + vigenere_map(shifts, text@.skip(i + 1), k as int, dir));
                }
            } else {
                push_char(&mut out, c);
                proof {
                    lemma_small_mod(k0 as nat, klen as nat);
                    assert(vigenere_map(shifts, rest, k0, dir) == seq![c] + vigenere_map(
                        shifts,
                        text@.skip(i + 1),
                        k as int,
                        dir,
                    ));
                    assert(out_before + vigenere_map(shifts, rest, k0, dir) =~= out@
                        + vigenere_map(shifts, text@.skip(i + 1), k as int, dir));
                }
            }
            i = i + 1;
        }
        proof {
            assert(text@.skip(n as int) =~= Seq::<char>::empty());
        }
        out
    }
}

/// Deciphering with the same key restores the plaintext, from any key
/// position: the Vigenère cipher is invertible.
pub proof fn lemma_vigenere_roundtrip(shifts: Seq<u8>, s: Seq<char>, start: int)
    requires
        shifts.len() >= 1,
        0 <= start < shifts.len(),
    ensures
        vigenere_map(shifts, vigenere_map(shifts, s, start, true), start, false) == s,
    decreases s.len(),
{
    let enc = vigenere_map(shifts, s, start, true);
    if s.len() == 0 {
        assert(enc =~= Seq::<char>::empty());
        assert(vigenere_map(shifts, enc, start, false) =~= s);
    } else {
        let c = s[0];
        lemma_small_mod(start as nat, shifts.len());
        let sh = (shifts[start % shifts.len() as int] % 26) as u8;
        let next = (start + 1) % shifts.len() as int;
        assert(0 <= next < shifts.len());
        if is_letter(c) {
            lemma_shift_letter_roundtrip(c, sh);
            let c2 = shift_letter(c, sh);
            assert(enc == seq![c2] + vigenere_map(shifts, s.drop_first(), next, true));
            assert(enc[0] == c2);
            assert(enc.len() >= 1);
            assert(enc.drop_first() =~= vigenere_map(shifts, s.drop_first(), next, true));
            assert(vigenere_map(shifts, enc, start, false) == seq![
                shift_letter(c2, rev_shift(sh)),
            ] + vigenere_map(shifts, enc.drop_first(), next, false));
            lemma_vigenere_roundtrip(shifts, s.drop_first(), next);
            assert(seq![c] + s.drop_first() =~= s);
        } else {
            assert(enc == seq![c] + vigenere_map(shifts, s.drop_first(), start, true));
            assert(enc[0] == c);
            assert(enc.len() >= 1);
            assert(enc.drop_first() =~= vigenere_map(shifts, s.drop_first(), start, true));
            assert(vigenere_map(shifts, enc, start, false) == seq![c] + vigenere_map(
                shifts,
                enc.drop_first(),
                start,
                false,
            ));
            lemma_vigenere_roundtrip(shifts, s.drop_first(), start);
            assert(seq![c] + s.drop_first() =~= s);
        }
    }
}

/// Extending the key by one character extends its shifts by at most one.
proof fn lemma_key_shifts_push(key: Seq<char>, c: char)
    ensures
        key_shifts(key.push(c)) == if is_letter(c) {
            key_shifts(key).push(letter_index(c))
        } else {
            key_shifts(key)
        },
{
    reveal(Seq::filter);
    let pred = |x: char| is_letter(x);
    assert(key.push(c).drop_last() =~= key);
    assert(key.push(c).last() == c);
    if is_letter(c) {
        assert(key.push(c).filter(pred) == key.filter(pred).push(c));
        assert(key_shifts(key.push(c)) =~= key_shifts(key).push(letter_index(c)));
    } else {
        assert(key.push(c).filter(pred) == key.filter(pred));
    }
}

} // verus!

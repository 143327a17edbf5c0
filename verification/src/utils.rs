//! Hex-string conversion: bytes to lower-case hex, and hex (surrounding
//! whitespace allowed) back to bytes, with an error type for rejected
//! input.

use vstd::prelude::*;

verus! {

/// The error type for rejected input, carrying a human-readable message.
#[derive(Debug)]
pub struct CryptoError(pub String);

/// The result type for fallible conversions.
pub type CryptoResult<T> = Result<T, CryptoError>;

/// The lower-case hex digit for a value below sixteen.
pub open spec fn hex_digit_char(v: u8) -> char {
    if v < 10 {
        ((48 + v) as u8) as char
    } else {
        ((87 + v) as u8) as char
    }
}

/// Two lower-case hex digits for every byte, in order.
pub open spec fn hex_of(data: Seq<u8>) -> Seq<char>
    decreases data.len(),
{
    if data.len() == 0 {
        Seq::empty()
    } else {
        seq![hex_digit_char(data[0] / 16), hex_digit_char(data[0] % 16)] + hex_of(
            data.drop_first(),
        )
    }
}

/// `c` is an ASCII hex digit, of either case.
pub open spec fn is_hex_digit(c: char) -> bool {
    (48 <= c as u32 <= 57) || (97 <= c as u32 <= 102) || (65 <= c as u32 <= 70)
}

/// The value of an ASCII hex digit.
pub open spec fn hex_digit_val(c: char) -> u8 {
    if 48 <= c as u32 <= 57 {
        (c as u32 - 48) as u8
    } else if 97 <= c as u32 <= 102 {
        (c as u32 - 87) as u8
    } else {
        (c as u32 - 55) as u8
    }
}

/// The bytes encoded by a sequence of hex-digit pairs.
pub open spec fn bytes_of_hex(s: Seq<char>) -> Seq<u8>
    decreases s.len(),
{
    if s.len() < 2 {
        Seq::empty()
    } else {
        seq![(hex_digit_val(s[0]) * 16 + hex_digit_val(s[1])) as u8] + bytes_of_hex(s.skip(2))
    }
}

/// `c` is one of the ASCII whitespace characters stripped from the ends of
/// a hex string.
pub open spec fn is_space(c: char) -> bool {
    c == ' ' || c == '\t' || c == '\n' || c == '\r'
}

/// `s` without its leading whitespace.
pub open spec fn trim_front(s: Seq<char>) -> Seq<char>
    decreases s.len(),
{
    if s.len() > 0 && is_space(s[0]) {
        trim_front(s.drop_first())
    } else {
        s
    }
}

/// `s` without its trailing whitespace.
pub open spec fn trim_back(s: Seq<char>) -> Seq<char>
    decreases s.len(),
{
    if s.len() > 0 && is_space(s.last()) {
        trim_back(s.drop_last())
    } else {
        s
    }
}

/// `s` without leading and trailing whitespace.
pub open spec fn trim_spec(s: Seq<char>) -> Seq<char> {
    trim_back(trim_front(s))
}

/// Dropping the leading whitespace is skipping up to the first non-space.
proof fn lemma_trim_front_skip(s: Seq<char>, k: int)
    requires
        0 <= k <= s.len(),
        forall|j: int| 0 <= j < k ==> is_space(#[trigger] s[j]),
        k == s.len() || !is_space(s[k]),
    ensures
        trim_front(s) == s.skip(k),
    decreases k,
{
    if k == 0 {
        assert(trim_front(s) =~= s.skip(0));
    } else {
        assert(is_space(s[0]));
        let t = s.drop_first();
        assert forall|j: int| 0 <= j < k - 1 implies is_space(#[trigger] t[j]) by {
            assert(t[j] == s[j + 1]);
        }
        assert(k - 1 == t.len() || !is_space(t[k - 1]));
        lemma_trim_front_skip(t, k - 1);
        assert(t.skip(k - 1) =~= s.skip(k));
    }
}

/// Dropping the trailing whitespace is keeping everything before the last
/// non-space.
proof fn lemma_trim_back_take(s: Seq<char>, e: int)
    requires
        0 <= e <= s.len(),
        forall|j: int| e <= j < s.len() ==> is_space(#[trigger] s[j]),
        e == 0 || !is_space(s[e - 1]),
    ensures
        trim_back(s) == s.take(e),
    decreases s.len(),
{
    if s.len() > 0 && is_space(s.last()) {
        assert(e < s.len());
        let t = s.drop_last();
        assert forall|j: int| e <= j < t.len() implies is_space(#[trigger] t[j]) by {
            assert(t[j] == s[j]);
        }
        lemma_trim_back_take(t, e);
        assert(t.take(e) =~= s.take(e));
    } else {
        assert(e == s.len());
        assert(trim_back(s) =~= s.take(e));
    }
}

/// Render `data` as a lower-case hex string, two digits per byte.
pub fn bytes_to_hex(data: &[u8]) -> (r: String)
    ensures
        r@ == hex_of(data@),
{
    let n = data.len();
    let mut out = String::new();
    let mut i: usize = 0;
    proof {
        assert(data@.skip(0) =~= data@);
        assert(out@ + hex_of(data@) =~= hex_of(data@));
    }
    while i < n
        invariant
            n == data@.len(),
            i <= n,
            hex_of(data@) == out@ + hex_of(data@.skip(i as int)),
        decreases n - i,
    {
        let ghost rest: Seq<u8> = data@.skip(i as int);
        let ghost out_before: Seq<char> = out@;
        let b = data[i];
        push_char(&mut out, hex_digit(b / 16));
        push_char(&mut out, hex_digit(b % 16));
        proof {
            assert(rest[0] == b);
            assert(rest.drop_first() =~= data@.skip(i + 1));
            assert(hex_of(rest) == seq![hex_digit_char(b / 16), hex_digit_char(b % 16)] + hex_of(
                data@.skip(i + 1),
            ));
            assert(out_before + hex_of(rest) =~= out@ + hex_of(data@.skip(i + 1)));
        }
        i = i + 1;
    }
    proof {
        assert(data@.skip(n as int) =~= Seq::<u8>::empty());
        assert(out@ =~= hex_of(data@));
    }
    out
}

/// Parse a hex string back to bytes. Surrounding ASCII whitespace is
/// ignored; the rest must be an even number of hex digits, or an error
/// comes back: one error for an odd digit count, one for a character that
/// is no hex digit.
pub fn hex_to_bytes(s: &str) -> (r: CryptoResult<Vec<u8>>)
    ensures
        ({
            let t = trim_spec(s@);
            match r {
                Ok(v) => t.len() % 2 == 0 && (forall|i: int|
                    0 <= i < t.len() ==> is_hex_digit(#[trigger] t[i])) && v@ == bytes_of_hex(t),
                Err(_) => t.len() % 2 != 0 || exists|i: int|
                    0 <= i < t.len() && !is_hex_digit(#[trigger] t[i]),
            }
        }),
{
    let n = s.unicode_len();
    let mut start: usize = 0;
    while start < n && is_space_exec(s.get_char(start))
        invariant
            n == s@.len(),
            start <= n,
            forall|j: int| 0 <= j < start ==> is_space(#[trigger] s@[j]),
        decreases n - start,
    {
        start = start + 1;
    }
    let mut end: usize = n;
    while end > start && is_space_exec(s.get_char(end - 1))
        invariant
            n == s@.len(),
            start <= end <= n,
            forall|j: int| 0 <= j < start ==> is_space(#[trigger] s@[j]),
            start == n || !is_space(s@[start as int]),
            forall|j: int| end <= j < n ==> is_space(#[trigger] s@[j]),
        decreases end,
    {
        end = end - 1;
    }
    let ghost t: Seq<char> = trim_spec(s@);
    proof {
        lemma_trim_front_skip(s@, start as int);
        let f = s@.skip(start as int);
        assert forall|j: int| (end - start) <= j < f.len() implies is_space(#[trigger] f[j]) by {
            assert(f[j] == s@[start + j]);
        }
        if end > start {
            assert(f[end - start - 1] == s@[end - 1]);
        }
        lemma_trim_back_take(f, end - start);
        assert(t =~= s@.subrange(start as int, end as int));
    }
    if (end - start) % 2 != 0 {
        return Err(CryptoError("hex length must be even".to_owned()));
    }
    let mut out: Vec<u8> = Vec::new();
    let mut i: usize = start;
    proof {
        assert(t.skip(0) =~= t);
        assert(out@ + bytes_of_hex(t) =~= bytes_of_hex(t));
    }
    while i < end
        invariant
            n == s@.len(),
            start <= i <= end <= n,
            (end - start) % 2 == 0,
            (i - start) % 2 == 0,
            t == s@.subrange(start as int, end as int),
            t == trim_spec(s@),
            bytes_of_hex(t) == out@ + bytes_of_hex(t.skip(i - start)),
            forall|j: int| 0 <= j < i - start ==> is_hex_digit(#[trigger] t[j]),
        decreases end - i,
    {
        let ghost rest: Seq<char> = t.skip(i - start);
        let ghost out_before: Seq<u8> = out@;
        let c1 = s.get_char(i);
        let c2 = s.get_char(i + 1);
        proof {
            assert(rest[0] == t[i - start] && t[i - start] == s@[i as int]);
            assert(rest[1] == t[i - start + 1] && t[i - start + 1] == s@[i + 1]);
        }
        let v1 = match hex_val(c1) {
            Some(v) => v,
            None => {
                proof {
                    assert(!is_hex_digit(t[i - start]));
                }
                return Err(CryptoError("invalid hex digit".to_owned()));
            },
        };
        let v2 = match hex_val(c2) {
            Some(v) => v,
            None => {
                proof {
                    assert(!is_hex_digit(t[i - start + 1]));
                }
                return Err(CryptoError("invalid hex digit".to_owned()));
            },
        };
        out.push(v1 * 16 + v2);
        proof {
            assert(rest.skip(2) =~= t.skip(i - start + 2));
            assert(bytes_of_hex(rest) == seq![(hex_digit_val(rest[0]) * 16 + hex_digit_val(
                rest[1],
            )) as u8] + bytes_of_hex(t.skip(i - start + 2)));
            assert(out_before + bytes_of_hex(rest) =~= out@ + bytes_of_hex(t.skip(i - start + 2)));
        }
        i = i + 2;
    }
    proof {
        assert(t.skip(end - start) =~= Seq::<char>::empty());
        assert(out@ =~= bytes_of_hex(t));
    }
    Ok(out)
}

/// Whether `c` is stripped as whitespace, executably.
fn is_space_exec(c: char) -> (r: bool)
    ensures
        r == is_space(c),
{
    c == ' ' || c == '\t' || c == '\n' || c == '\r'
}

/// The value of a hex digit, or `None` for any other character.
fn hex_val(c: char) -> (r: Option<u8>)
    ensures
        match r {
            Some(v) => is_hex_digit(c) && v == hex_digit_val(c) && v < 16,
            None => !is_hex_digit(c),
        },
{
    let u: u32 = c as u32;
    if 48 <= u && u <= 57 {
        Some((u - 48) as u8)
    } else if 97 <= u && u <= 102 {
        Some((u - 87) as u8)
    } else if 65 <= u && u <= 70 {
        Some((u - 55) as u8)
    } else {
        None
    }
}

/// The hex digit for a value below sixteen, executably.
fn hex_digit(v: u8) -> (r: char)
    requires
        v < 16,
    ensures
        r == hex_digit_char(v),
{
    if v < 10 {
        (48 + v) as char
    } else {
        (87 + v) as char
    }
}

/// Relies on String::push: appends one character at the end.
#[verifier::external_body]
pub(crate) fn push_char(s: &mut String, c: char)
    ensures
        final(s)@ == old(s)@.push(c),
{
    s.push(c)
}

} // verus!

use packet_match_fuzz::classical::{CaesarCipher, VigenereCipher};
use packet_match_fuzz::hash::{simple_hash, HashChain};
use packet_match_fuzz::symmetric::{SimpleFeistel, XorCipher};
use packet_match_fuzz::utils::{bytes_to_hex, hex_to_bytes};

#[test]
fn caesar_known_value() {
    let c = CaesarCipher::new(3);
    assert_eq!(c.encrypt("Hello, World!"), "Khoor, Zruog!");
    assert_eq!(c.decrypt("Khoor, Zruog!"), "Hello, World!");
}

#[test]
fn caesar_shift_wraps_modulo_alphabet() {
    let c = CaesarCipher::new(29); // same as a shift of 3
    assert_eq!(c.encrypt("xyz"), "abc");
}

#[test]
fn caesar_roundtrip_many_shifts() {
    let text = "The quick brown fox; 42 jumps!";
    for shift in 0..26u8 {
        let c = CaesarCipher::new(shift);
        assert_eq!(c.decrypt(&c.encrypt(text)), text);
    }
}

#[test]
fn vigenere_classic_example() {
    let v = VigenereCipher::new("LEMON");
    assert_eq!(v.encrypt("ATTACKATDAWN"), "LXFOPVEFRNHR");
    assert_eq!(v.decrypt("LXFOPVEFRNHR"), "ATTACKATDAWN");
}

#[test]
fn vigenere_keeps_case_and_passes_others_through() {
    let v = VigenereCipher::new("abc");
    let ct = v.encrypt("Ab, cD!");
    assert_eq!(v.decrypt(&ct), "Ab, cD!");
    // Non-letters are untouched.
    assert_eq!(ct.chars().nth(2), Some(','));
    assert_eq!(ct.chars().nth(3), Some(' '));
    assert_eq!(ct.chars().nth(6), Some('!'));
}

#[test]
fn vigenere_key_ignores_non_letters() {
    let with_digits = VigenereCipher::new("L3M-ON!");
    let plain = VigenereCipher::new("LMON");
    assert_eq!(with_digits.encrypt("ATTACK"), plain.encrypt("ATTACK"));
}

#[test]
fn xor_roundtrip_and_known_value() {
    let x = XorCipher::new(&[0xFF]);
    assert_eq!(x.encrypt(&[0x00, 0x0F]), vec![0xFF, 0xF0]);
    let key = b"key";
    let x2 = XorCipher::new(key);
    let data = b"some payload bytes";
    assert_eq!(x2.decrypt(&x2.encrypt(data)), data.to_vec());
}

#[test]
fn feistel_roundtrip_and_changes_block() {
    let f = SimpleFeistel::new(0xDEAD_BEEF_0BAD_F00D, 8);
    let pt = 0x0123_4567_89AB_CDEFu64;
    let ct = f.encrypt(pt);
    assert_ne!(ct, pt);
    assert_eq!(f.decrypt(ct), pt);
}

#[test]
fn feistel_single_round_roundtrip() {
    let f = SimpleFeistel::new(7, 1);
    for pt in [0u64, 1, u64::MAX, 0x8000_0000_0000_0001] {
        assert_eq!(f.decrypt(f.encrypt(pt)), pt);
    }
}

#[test]
fn simple_hash_known_values() {
    assert_eq!(simple_hash(b""), 0x811C_9DC5);
    assert_eq!(simple_hash(b"a"), 0xE40C_292C);
    assert_eq!(simple_hash(b"hello"), 0x4F9F_2CAB);
}

fn reduce(h: u32, i: usize) -> String {
    format!("p{}x{}", h % 1000, i)
}

#[test]
fn hash_chain_generates_and_looks_up() {
    let mut chain = HashChain::new(reduce);
    chain.generate_chain("letmein", 6);
    assert_eq!(chain.chain.len(), 6);
    assert_eq!(chain.chain[0], "letmein");
    for i in 0..5 {
        assert_eq!(chain.chain[i + 1], reduce(simple_hash(chain.chain[i].as_bytes()), i));
    }
    let target = simple_hash(chain.chain[3].as_bytes());
    let found = chain.lookup(target).expect("the chain should invert its own hash");
    assert_eq!(simple_hash(found.as_bytes()), target);
}

#[test]
fn hash_chain_lookup_miss() {
    let mut chain = HashChain::new(reduce);
    chain.generate_chain("seed", 3);
    // A hash that none of the regenerated links produces.
    let mut absent = 0u32;
    'search: for candidate in 0..100u32 {
        let mut cur = chain.chain[0].clone();
        for i in 0..3 {
            let h = simple_hash(cur.as_bytes());
            if h == candidate {
                continue 'search;
            }
            cur = reduce(h, i);
        }
        absent = candidate;
        break;
    }
    assert_eq!(chain.lookup(absent), None);
}

#[test]
fn hex_roundtrip_and_known_values() {
    assert_eq!(bytes_to_hex(&[]), "");
    assert_eq!(bytes_to_hex(&[0x00, 0x1A, 0xFF]), "001aff");
    assert_eq!(hex_to_bytes("001aff").unwrap(), vec![0x00, 0x1A, 0xFF]);
    assert_eq!(hex_to_bytes("  0B0c \n").unwrap(), vec![0x0B, 0x0C]);
    let data: Vec<u8> = (0u16..=255).map(|b| b as u8).collect();
    assert_eq!(hex_to_bytes(&bytes_to_hex(&data)).unwrap(), data);
}

#[test]
fn hex_odd_length_is_rejected() {
    assert!(hex_to_bytes("abc").is_err());
}

#[test]
fn hex_invalid_digit_is_rejected() {
    assert!(hex_to_bytes("0g").is_err());
    assert!(hex_to_bytes("a bc").is_err());
}

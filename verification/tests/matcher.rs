use packet_match_fuzz::kmp::KmpMatcher;
use packet_match_fuzz::stream::StreamMatcher;

#[test]
fn basic_match() {
    let m = KmpMatcher::new(b"ABC");
    assert_eq!(m.find_all(b"xxABCyyABC"), vec![2, 7]);
}

#[test]
fn overlapping_matches() {
    let m = KmpMatcher::new(b"AA");
    assert_eq!(m.find_all(b"AAAA"), vec![0, 1, 2]);
}

#[test]
fn no_match() {
    let m = KmpMatcher::new(b"XYZ");
    assert!(m.find_all(b"ABCDEF").is_empty());
    assert!(!m.contains(b"ABCDEF"));
}

#[test]
fn single_byte_pattern() {
    let m = KmpMatcher::new(b"\x00");
    assert_eq!(m.find_all(b"\x00\x01\x00"), vec![0, 2]);
}

#[test]
fn find_first() {
    let m = KmpMatcher::new(b"needle");
    let text = b"hay needle stack needle";
    assert_eq!(m.find_first(text), Some(4));
}

#[test]
fn full_text_is_pattern() {
    let m = KmpMatcher::new(b"ABCD");
    assert_eq!(m.find_all(b"ABCD"), vec![0]);
}

#[test]
fn empty_text_no_matches() {
    let m = KmpMatcher::new(b"AB");
    assert!(m.find_all(b"").is_empty());
    assert_eq!(m.find_first(b""), None);
}

#[test]
fn text_shorter_than_pattern() {
    let m = KmpMatcher::new(b"ABCDEFGH");
    assert!(m.find_all(b"ABC").is_empty());
    assert!(!m.contains(b"ABC"));
}

#[test]
fn pattern_getter_returns_pattern() {
    let m = KmpMatcher::new(b"MARK");
    assert_eq!(m.pattern(), b"MARK");
}

#[test]
fn repetitive_pattern_offsets() {
    let m = KmpMatcher::new(b"ABAB");
    assert_eq!(m.find_all(b"ABABABAB"), vec![0, 2, 4]);
}

#[test]
fn single_chunk() {
    let mut sm = StreamMatcher::new(b"AB");
    assert_eq!(sm.feed(b"xxAByy"), vec![2]);
}

#[test]
fn pattern_spans_chunks() {
    let mut sm = StreamMatcher::new(b"ABCD");
    assert_eq!(sm.feed(b"xxAB"), Vec::<usize>::new());
    assert_eq!(sm.feed(b"CDyy"), vec![2]); // global offset 2
}

#[test]
fn multiple_matches_across_chunks() {
    let mut sm = StreamMatcher::new(b"XX");
    assert_eq!(sm.feed(b"aXX"), vec![1]);
    assert_eq!(sm.feed(b"bXXc"), vec![4]);
    assert_eq!(sm.bytes_processed(), 7);
}

#[test]
fn reset_clears_state() {
    let mut sm = StreamMatcher::new(b"AB");
    sm.feed(b"A"); // partial
    sm.reset();
    // After reset, the trailing 'A' is forgotten
    assert_eq!(sm.feed(b"Bxx"), Vec::<usize>::new());
}

#[test]
fn reset_behaves_like_fresh_matcher() {
    let mut used = StreamMatcher::new(b"ABC");
    used.feed(b"zzzAB");
    used.feed(b"Cxx");
    used.reset();
    let mut fresh = StreamMatcher::new(b"ABC");
    let chunk = b"xABCxABC";
    assert_eq!(used.feed(chunk), fresh.feed(chunk));
    assert_eq!(used.bytes_processed(), fresh.bytes_processed());
}

#[test]
fn empty_chunk_is_a_no_op() {
    let mut sm = StreamMatcher::new(b"AB");
    sm.feed(b"xA");
    assert_eq!(sm.feed(b""), Vec::<usize>::new());
    assert_eq!(sm.bytes_processed(), 2);
    // The partial match survives the empty chunk.
    assert_eq!(sm.feed(b"B"), vec![1]);
}

#[test]
fn bytes_processed_sums_chunk_lengths() {
    let mut sm = StreamMatcher::new(b"Q");
    assert_eq!(sm.bytes_processed(), 0);
    sm.feed(b"abc");
    sm.feed(b"");
    sm.feed(b"defgh");
    assert_eq!(sm.bytes_processed(), 8);
    sm.reset();
    assert_eq!(sm.bytes_processed(), 0);
    sm.feed(b"xy");
    assert_eq!(sm.bytes_processed(), 2);
}

#[test]
fn streaming_equals_batch_for_every_split() {
    let pattern = b"AAB";
    let text = b"xAABAABAAABxAAB";
    let m = KmpMatcher::new(pattern);
    let expected = m.find_all(text);
    for split1 in 0..=text.len() {
        for split2 in split1..=text.len() {
            let mut sm = StreamMatcher::new(pattern);
            let mut got = Vec::new();
            got.extend(sm.feed(&text[..split1]));
            got.extend(sm.feed(&text[split1..split2]));
            got.extend(sm.feed(&text[split2..]));
            assert_eq!(got, expected, "split at {} and {}", split1, split2);
        }
    }
}

#[test]
fn overlapping_matches_across_chunks() {
    let mut sm = StreamMatcher::new(b"AA");
    assert_eq!(sm.feed(b"AAA"), vec![0, 1]);
    assert_eq!(sm.feed(b"A"), vec![2]);
}

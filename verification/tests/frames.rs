use packet_match_fuzz::parse::{parse_wifi_frame, Event};

fn beacon_frame() -> Vec<u8> {
    let mut f = vec![0u8; 36];
    f[0] = 0x80; // management frame, subtype beacon
    f[16..22].copy_from_slice(&[0xAA, 0xBB, 0xCC, 0xDD, 0xEE, 0xFF]);
    f.extend_from_slice(&[0, 3, b'a', b'b', b'c']); // SSID element
    f.extend_from_slice(&[3, 1, 6]); // channel element
    f
}

#[test]
fn beacon_is_parsed() {
    let ev = parse_wifi_frame(&beacon_frame()).expect("beacon should parse");
    match ev {
        Event::Beacon { bssid, ssid, chan } => {
            assert_eq!(bssid, [0xAA, 0xBB, 0xCC, 0xDD, 0xEE, 0xFF]);
            assert_eq!(ssid, "abc");
            assert_eq!(chan, Some(6));
        }
        other => panic!("expected a beacon, got {:?}", other),
    }
}

#[test]
fn radiotap_header_is_stripped() {
    let mut f = vec![0u8, 0, 8, 0, 0, 0, 0, 0]; // radiotap header of length 8
    f.extend_from_slice(&beacon_frame());
    let ev = parse_wifi_frame(&f).expect("beacon behind radiotap should parse");
    match ev {
        Event::Beacon { ssid, chan, .. } => {
            assert_eq!(ssid, "abc");
            assert_eq!(chan, Some(6));
        }
        other => panic!("expected a beacon, got {:?}", other),
    }
}

#[test]
fn probe_request_with_and_without_ssid() {
    let mut f = vec![0u8; 24];
    f[0] = 0x40; // management frame, subtype probe request
    f[10..16].copy_from_slice(&[1, 2, 3, 4, 5, 6]);
    match parse_wifi_frame(&f).expect("probe request should parse") {
        Event::ProbeReq { sta, ssid } => {
            assert_eq!(sta, [1, 2, 3, 4, 5, 6]);
            assert_eq!(ssid, None);
        }
        other => panic!("expected a probe request, got {:?}", other),
    }
    f.extend_from_slice(&[0, 2, b'h', b'i']);
    match parse_wifi_frame(&f).expect("probe request should parse") {
        Event::ProbeReq { ssid, .. } => assert_eq!(ssid.as_deref(), Some("hi")),
        other => panic!("expected a probe request, got {:?}", other),
    }
}

#[test]
fn probe_response_is_parsed() {
    let mut f = vec![0u8; 36];
    f[0] = 0x50; // management frame, subtype probe response
    f[10..16].copy_from_slice(&[9, 8, 7, 6, 5, 4]);
    f.extend_from_slice(&[0, 1, b'Z']);
    match parse_wifi_frame(&f).expect("probe response should parse") {
        Event::ProbeRes { bssid, ssid } => {
            assert_eq!(bssid, [9, 8, 7, 6, 5, 4]);
            assert_eq!(ssid, "Z");
        }
        other => panic!("expected a probe response, got {:?}", other),
    }
}

#[test]
fn non_management_and_short_frames_are_rejected() {
    assert!(parse_wifi_frame(&[0x80, 0, 0]).is_none()); // too short
    let mut data_frame = vec![0u8; 36];
    data_frame[0] = 0x08; // data frame
    assert!(parse_wifi_frame(&data_frame).is_none());
    let mut truncated = vec![0u8; 30];
    truncated[0] = 0x80; // a beacon needs a 36-byte fixed part
    assert!(parse_wifi_frame(&truncated).is_none());
}

#[test]
fn last_ssid_element_wins() {
    let mut f = beacon_frame();
    f.extend_from_slice(&[0, 2, b'z', b'w']); // a second SSID element
    match parse_wifi_frame(&f).expect("beacon should parse") {
        Event::Beacon { ssid, .. } => assert_eq!(ssid, "zw"),
        other => panic!("expected a beacon, got {:?}", other),
    }
}

#[test]
fn invalid_utf8_ssid_is_decoded_lossily() {
    let mut f = beacon_frame();
    f.extend_from_slice(&[0, 2, 0xFF, b'a']); // a second SSID element, invalid UTF-8
    match parse_wifi_frame(&f).expect("beacon should parse") {
        Event::Beacon { ssid, .. } => assert_eq!(ssid, "\u{FFFD}a"),
        other => panic!("expected a beacon, got {:?}", other),
    }
}

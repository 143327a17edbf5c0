//! Parsing of 802.11 management frames: beacons, probe requests and probe
//! responses. A leading radiotap header is stripped when present; the SSID
//! and channel are pulled from the tagged information elements.
//!
//! The executable parser is verified against a specification-level parser
//! (`spec_parse_wifi_frame`) that states, byte for byte, which frames are
//! accepted and what event each one yields.

use vstd::prelude::*;

verus! {

/// A parsed 802.11 management event.
#[derive(Debug, Clone)]
pub enum Event {
    /// An access point announcing a network.
    Beacon { bssid: [u8; 6], ssid: String, chan: Option<u8> },
    /// A station looking for a network.
    ProbeReq { sta: [u8; 6], ssid: Option<String> },
    /// An access point answering a probe.
    ProbeRes { bssid: [u8; 6], ssid: String },
}

/// The mathematical shape of an [`Event`].
pub enum EventModel {
    /// An access point announcing a network.
    Beacon { bssid: Seq<u8>, ssid: Seq<char>, chan: Option<u8> },
    /// A station looking for a network.
    ProbeReq { sta: Seq<u8>, ssid: Option<Seq<char>> },
    /// An access point answering a probe.
    ProbeRes { bssid: Seq<u8>, ssid: Seq<char> },
}

impl View for Event {
    type V = EventModel;

    open spec fn view(&self) -> EventModel {
        match self {
            Event::Beacon { bssid, ssid, chan } => EventModel::Beacon {
                bssid: bssid@,
                ssid: ssid@,
                chan: *chan,
            },
            Event::ProbeReq { sta, ssid } => EventModel::ProbeReq {
                sta: sta@,
                ssid: match ssid {
                    Some(s) => Some(s@),
                    None => None,
                },
            },
            Event::ProbeRes { bssid, ssid } => EventModel::ProbeRes { bssid: bssid@, ssid: ssid@ },
        }
    }
}

/// The characters that `String::from_utf8_lossy` decodes from the given
/// bytes: a pure function of the bytes alone.
pub uninterp spec fn utf8_lossy_of(bytes: Seq<u8>) -> Seq<char>;

/// Relies on String::from_utf8_lossy: the decoding depends on the input
/// bytes alone.
#[verifier::external_body]
fn utf8_lossy(bytes: &[u8]) -> (r: String)
    ensures
        r@ == utf8_lossy_of(bytes@),
{
    String::from_utf8_lossy(bytes).into_owned()
}

/// A 16-bit little-endian read of two bytes.
pub open spec fn le16(b0: u8, b1: u8) -> u16 {
    (b0 as u16) | ((b1 as u16) << 8)
}

/// Strip a leading radiotap header: present when the first two bytes are
/// zero and it declares a plausible length inside the frame.
pub open spec fn strip_radiotap(b: Seq<u8>) -> Seq<u8> {
    if b.len() >= 4 && b[0] == 0 && b[1] == 0 {
        let rt = le16(b[2], b[3]) as int;
        if 8 <= rt && rt < b.len() {
            b.skip(rt)
        } else {
            b
        }
    } else {
        b
    }
}

/// Scan the tagged information elements from `pos` on, keeping the last
/// SSID element (tag 0) and the last one-byte channel element (tag 3); stop
/// at a truncated element.
pub open spec fn ies_scan(
    b: Seq<u8>,
    pos: int,
    ssid: Option<Seq<u8>>,
    chan: Option<u8>,
) -> (Option<Seq<u8>>, Option<u8>)
    decreases b.len() - pos,
{
    if pos + 2 > b.len() {
        (ssid, chan)
    } else {
        let id = b[pos];
        let ln = b[pos + 1] as int;
        if pos + 2 + ln > b.len() {
            (ssid, chan)
        } else {
            ies_scan(
                b,
                pos + 2 + ln,
                if id == 0 {
                    Some(b.subrange(pos + 2, pos + 2 + ln))
                } else {
                    ssid
                },
                if id == 3 && ln == 1 {
                    Some(b[pos + 2])
                } else {
                    chan
                },
            )
        }
    }
}

/// The event a beacon frame yields, if any: the BSSID from the third
/// address field, the last SSID element (empty when none), the channel.
pub open spec fn spec_parse_beacon(b: Seq<u8>) -> Option<EventModel> {
    if b.len() < 36 {
        None
    } else {
        let scan = ies_scan(b, 36, None, None);
        Some(
            EventModel::Beacon {
                bssid: b.subrange(16, 22),
                ssid: match scan.0 {
                    Some(bytes) => utf8_lossy_of(bytes),
                    None => Seq::empty(),
                },
                chan: scan.1,
            },
        )
    }
}

/// The event a probe request yields, if any: the station address from the
/// second address field and the SSID element when present.
pub open spec fn spec_parse_probe_req(b: Seq<u8>) -> Option<EventModel> {
    if b.len() < 24 {
        None
    } else {
        let scan = ies_scan(b, 24, None, None);
        Some(
            EventModel::ProbeReq {
                sta: b.subrange(10, 16),
                ssid: match scan.0 {
                    Some(bytes) => Some(utf8_lossy_of(bytes)),
                    None => None,
                },
            },
        )
    }
}

/// The event a probe response yields, if any: the sender address and the
/// last SSID element (empty when none).
pub open spec fn spec_parse_probe_res(b: Seq<u8>) -> Option<EventModel> {
    if b.len() < 36 {
        None
    } else {
        let scan = ies_scan(b, 36, None, None);
        Some(
            EventModel::ProbeRes {
                bssid: b.subrange(10, 16),
                ssid: match scan.0 {
                    Some(bytes) => utf8_lossy_of(bytes),
                    None => Seq::empty(),
                },
            },
        )
    }
}

/// Which event, if any, a raw captured frame yields: strip radiotap, check
/// for a management frame, and dispatch on the subtype (beacon, probe
/// request, probe response).
pub open spec fn spec_parse_wifi_frame(b: Seq<u8>) -> Option<EventModel> {
    if b.len() < 4 {
        None
    } else {
        let s = strip_radiotap(b);
        if s.len() < 24 {
            None
        } else {
            let fc = le16(s[0], s[1]);
            let ftype = ((fc >> 2) & 0b11) as u8;
            let fsub = ((fc >> 4) & 0b1111) as u8;
            if ftype != 0 {
                None
            } else if fsub == 8 {
                spec_parse_beacon(s)
            } else if fsub == 4 {
                spec_parse_probe_req(s)
            } else if fsub == 5 {
                spec_parse_probe_res(s)
            } else {
                None
            }
        }
    }
}

/// Parse a raw captured frame into a management event, exactly as
/// `spec_parse_wifi_frame` describes.
pub fn parse_wifi_frame(bytes: &[u8]) -> (r: Option<Event>)
    ensures
        match r {
            Some(ev) => spec_parse_wifi_frame(bytes@) == Some(ev@),
            None => spec_parse_wifi_frame(bytes@) is None,
        },
{
    if bytes.len() < 4 {
        return None;
    }
    let mut b: &[u8] = bytes;
    if b[0] == 0 && b[1] == 0 {
        let rt = ((b[2] as u16) | ((b[3] as u16) << 8)) as usize;
        if rt >= 8 && rt < b.len() {
            b = &b[rt..b.len()];
            proof {
                assert(b@ =~= strip_radiotap(bytes@));
            }
        }
    }
    proof {
        assert(b@ == strip_radiotap(bytes@));
    }
    if b.len() < 24 {
        return None;
    }
    let fc = (b[0] as u16) | ((b[1] as u16) << 8);
    let ftype = ((fc >> 2) & 0b11) as u8;
    let fsub = ((fc >> 4) & 0b1111) as u8;
    if ftype != 0 {
        return None;
    }
    if fsub == 8 {
        parse_beacon(b)
    } else if fsub == 4 {
        parse_probe_req(b)
    } else if fsub == 5 {
        parse_probe_res(b)
    } else {
        None
    }
}

/// Scan the information elements executably, returning the last SSID bytes
/// and the last declared channel.
fn scan_ies(b: &[u8], start: usize) -> (r: (Option<Vec<u8>>, Option<u8>))
    requires
        start <= b@.len(),
        2 <= b@.len(),
    ensures
        ies_scan(b@, start as int, None, None) == (
            match r.0 {
                Some(v) => Some::<Seq<u8>>(v@),
                None => None::<Seq<u8>>,
            },
            r.1,
        ),
{
    let mut ssid_bytes: Option<Vec<u8>> = None;
    let mut chan: Option<u8> = None;
    let mut pos: usize = start;
    let blen = b.len();
    while pos < blen - 1
        invariant
            blen == b@.len(),
            2 <= blen,
            pos <= blen,
            ies_scan(b@, start as int, None, None) == ies_scan(
                b@,
                pos as int,
                match ssid_bytes {
                    Some(v) => Some::<Seq<u8>>(v@),
                    None => None::<Seq<u8>>,
                },
                chan,
            ),
        ensures
            ies_scan(b@, start as int, None, None) == (
                match ssid_bytes {
                    Some(v) => Some::<Seq<u8>>(v@),
                    None => None::<Seq<u8>>,
                },
                chan,
            ),
        decreases blen - pos,
    {
        let ghost old_ssid: Option<Seq<u8>> = match &ssid_bytes {
            Some(v) => Some(v@),
            None => None,
        };
        let id = b[pos];
        let ln = b[pos + 1] as usize;
        let new_pos = pos + 2;
        if ln > blen - new_pos {
            proof {
                assert(ies_scan(b@, pos as int, old_ssid, chan) == (old_ssid, chan));
            }
            break;
        }
        proof {
            assert(ies_scan(b@, pos as int, old_ssid, chan) == ies_scan(
                b@,
                pos + 2 + ln,
                if id == 0 {
                    Some(b@.subrange(pos + 2, pos + 2 + ln))
                } else {
                    old_ssid
                },
                if id == 3 && ln == 1 {
                    Some(b@[pos + 2])
                } else {
                    chan
                },
            ));
        }
        if id == 0 {
            let piece = &b[new_pos..new_pos + ln];
            ssid_bytes = Some(vstd::slice::slice_to_vec(piece));
        } else if id == 3 && ln == 1 {
            chan = Some(b[new_pos]);
        }
        pos = new_pos + ln;
    }
    proof {
        if pos + 2 > blen {
            assert(ies_scan(
                b@,
                pos as int,
                match ssid_bytes {
                    Some(v) => Some::<Seq<u8>>(v@),
                    None => None::<Seq<u8>>,
                },
                chan,
            ) == (
                match ssid_bytes {
                    Some(v) => Some::<Seq<u8>>(v@),
                    None => None::<Seq<u8>>,
                },
                chan,
            ));
        }
    }
    (ssid_bytes, chan)
}

/// Parse a beacon frame body.
fn parse_beacon(b: &[u8]) -> (r: Option<Event>)
    ensures
        match r {
            Some(ev) => spec_parse_beacon(b@) == Some(ev@),
            None => spec_parse_beacon(b@) is None,
        },
{
    if b.len() < 36 {
        return None;
    }
    let bssid: [u8; 6] = [b[16], b[17], b[18], b[19], b[20], b[21]];
    proof {
        assert(bssid@ =~= b@.subrange(16, 22));
    }
    let (ssid_bytes, chan) = scan_ies(b, 36);
    let ssid = match ssid_bytes {
        Some(v) => utf8_lossy(v.as_slice()),
        None => String::new(),
    };
    Some(Event::Beacon { bssid, ssid, chan })
}

/// Parse a probe-request frame body.
fn parse_probe_req(b: &[u8]) -> (r: Option<Event>)
    ensures
        match r {
            Some(ev) => spec_parse_probe_req(b@) == Some(ev@),
            None => spec_parse_probe_req(b@) is None,
        },
{
    if b.len() < 24 {
        return None;
    }
    let sta: [u8; 6] = [b[10], b[11], b[12], b[13], b[14], b[15]];
    proof {
        assert(sta@ =~= b@.subrange(10, 16));
    }
    let (ssid_bytes, _) = scan_ies(b, 24);
    let ssid = match ssid_bytes {
        Some(v) => Some(utf8_lossy(v.as_slice())),
        None => None,
    };
    Some(Event::ProbeReq { sta, ssid })
}

/// Parse a probe-response frame body.
fn parse_probe_res(b: &[u8]) -> (r: Option<Event>)
    ensures
        match r {
            Some(ev) => spec_parse_probe_res(b@) == Some(ev@),
            None => spec_parse_probe_res(b@) is None,
        },
{
    if b.len() < 36 {
        return None;
    }
    let bssid: [u8; 6] = [b[10], b[11], b[12], b[13], b[14], b[15]];
    proof {
        assert(bssid@ =~= b@.subrange(10, 16));
    }
    let (ssid_bytes, _) = scan_ies(b, 36);
    let ssid = match ssid_bytes {
        Some(v) => utf8_lossy(v.as_slice()),
        None => String::new(),
    };
    Some(Event::ProbeRes { bssid, ssid })
}

} // verus!

//! Aggregation of parsed 802.11 events into per-SSID statistics: which
//! BSSIDs and channels each network was seen on, how many beacons it sent,
//! and which stations probed. Rendering the table is left to the caller.
//!
//! Each map and set is held as a vector whose invariant keeps every key
//! unique, in first-seen order.

use crate::parse::Event;
use crate::parse::EventModel;
use vstd::prelude::*;

verus! {

/// What has been seen of one SSID.
pub struct BeaconInfo {
    /// Every distinct BSSID that announced or answered for this SSID.
    pub bssids: Vec<[u8; 6]>,
    /// Every distinct channel a beacon declared.
    pub channels: Vec<u8>,
    /// How many beacons were seen (saturating at the counter's maximum).
    pub beacons: u64,
}

/// The mathematical shape of a [`BeaconInfo`].
pub struct BeaconInfoModel {
    /// The distinct BSSIDs, in first-seen order.
    pub bssids: Seq<Seq<u8>>,
    /// The distinct channels, in first-seen order.
    pub channels: Seq<u8>,
    /// The beacon count.
    pub beacons: u64,
}

impl View for BeaconInfo {
    type V = BeaconInfoModel;

    open spec fn view(&self) -> BeaconInfoModel {
        BeaconInfoModel {
            bssids: self.bssids@.map_values(|b: [u8; 6]| b@),
            channels: self.channels@,
            beacons: self.beacons,
        }
    }
}

/// Statistics over every event fed in so far.
pub struct Stats {
    /// One entry per SSID, keyed by the SSID text, in first-seen order.
    pub ssid_beacons: Vec<(String, BeaconInfo)>,
    /// Every distinct station that sent a probe request.
    pub clients: Vec<[u8; 6]>,
}

/// The mathematical shape of [`Stats`].
pub struct StatsModel {
    /// SSID text and what was seen of it, in first-seen order.
    pub entries: Seq<(Seq<char>, BeaconInfoModel)>,
    /// The distinct probing stations, in first-seen order.
    pub clients: Seq<Seq<u8>>,
}

impl View for Stats {
    type V = StatsModel;

    open spec fn view(&self) -> StatsModel {
        StatsModel {
            entries: self.ssid_beacons@.map_values(
                |e: (String, BeaconInfo)| (e.0@, e.1@),
            ),
            clients: self.clients@.map_values(|b: [u8; 6]| b@),
        }
    }
}

/// Append `x` unless it is already present.
pub open spec fn push_unique<T>(s: Seq<T>, x: T) -> Seq<T> {
    if s.contains(x) {
        s
    } else {
        s.push(x)
    }
}

/// The index of the entry with key `key`, or the number of entries when
/// there is none.
pub open spec fn key_index(entries: Seq<(Seq<char>, BeaconInfoModel)>, key: Seq<char>) -> int
    decreases entries.len(),
{
    if entries.len() == 0 {
        0
    } else if entries[0].0 == key {
        0
    } else {
        1 + key_index(entries.drop_first(), key)
    }
}

/// A fresh, empty record for a newly seen SSID.
pub open spec fn empty_info() -> BeaconInfoModel {
    BeaconInfoModel { bssids: Seq::empty(), channels: Seq::empty(), beacons: 0 }
}

/// The statistics after recording one event: a beacon updates its SSID's
/// entry (BSSID and channel added once, beacon counted); a probe request
/// records the station and opens an entry for a named SSID; a probe
/// response adds its BSSID to the SSID's entry.
pub open spec fn spec_ingest(stats: StatsModel, ev: EventModel) -> StatsModel {
    match ev {
        EventModel::Beacon { bssid, ssid, chan } => {
            let i = key_index(stats.entries, ssid);
            let info = if i < stats.entries.len() {
                stats.entries[i].1
            } else {
                empty_info()
            };
            let updated = BeaconInfoModel {
                bssids: push_unique(info.bssids, bssid),
                channels: match chan {
                    Some(c) => push_unique(info.channels, c),
                    None => info.channels,
                },
                beacons: if info.beacons < u64::MAX {
                    (info.beacons + 1) as u64
                } else {
                    info.beacons
                },
            };
            StatsModel {
                entries: if i < stats.entries.len() {
                    stats.entries.update(i, (ssid, updated))
                } else {
                    stats.entries.push((ssid, updated))
                },
                clients: stats.clients,
            }
        },
        EventModel::ProbeReq { sta, ssid } => {
            let with_client = StatsModel {
                entries: stats.entries,
                clients: push_unique(stats.clients, sta),
            };
            match ssid {
                Some(name) => {
                    if name.len() > 0 && key_index(stats.entries, name) >= stats.entries.len() {
                        StatsModel {
                            entries: with_client.entries.push((name, empty_info())),
                            clients: with_client.clients,
                        }
                    } else {
                        with_client
                    }
                },
                None => with_client,
            }
        },
        EventModel::ProbeRes { bssid, ssid } => {
            let i = key_index(stats.entries, ssid);
            let info = if i < stats.entries.len() {
                stats.entries[i].1
            } else {
                empty_info()
            };
            let updated = BeaconInfoModel {
                bssids: push_unique(info.bssids, bssid),
                channels: info.channels,
                beacons: info.beacons,
            };
            StatsModel {
                entries: if i < stats.entries.len() {
                    stats.entries.update(i, (ssid, updated))
                } else {
                    stats.entries.push((ssid, updated))
                },
                clients: stats.clients,
            }
        },
    }
}

/// `key_index` points at the entry with the key, and at the end when no
/// entry has it.
pub proof fn lemma_key_index(entries: Seq<(Seq<char>, BeaconInfoModel)>, key: Seq<char>)
    ensures
        0 <= key_index(entries, key) <= entries.len(),
        key_index(entries, key) < entries.len() ==> entries[key_index(entries, key)].0 == key,
        forall|j: int| 0 <= j < key_index(entries, key) ==> (#[trigger] entries[j]).0 != key,
    decreases entries.len(),
{
    if entries.len() == 0 {
    } else if entries[0].0 == key {
    } else {
        lemma_key_index(entries.drop_first(), key);
        let rest = entries.drop_first();
        let k = key_index(entries, key);
        assert forall|j: int| 0 <= j < k implies (#[trigger] entries[j]).0 != key by {
            if j > 0 {
                assert(entries[j] == rest[j - 1]);
            }
        }
        if k < entries.len() {
            assert(entries[k] == rest[k - 1]);
        }
    }
}

impl Stats {
    /// Fresh, empty statistics.
    pub fn new() -> (r: Self)
        ensures
            r@.entries == Seq::<(Seq<char>, BeaconInfoModel)>::empty(),
            r@.clients == Seq::<Seq<u8>>::empty(),
    {
        let r = Stats { ssid_beacons: Vec::new(), clients: Vec::new() };
        proof {
            assert(r@.entries =~= Seq::<(Seq<char>, BeaconInfoModel)>::empty());
            assert(r@.clients =~= Seq::<Seq<u8>>::empty());
        }
        r
    }

    /// Record one event, exactly as `spec_ingest` describes: a beacon or
    /// probe response updates its SSID's entry; a probe request records the
    /// station, and a named probe opens an entry for the SSID.
    pub fn ingest(&mut self, ev: Event)
        ensures
            final(self)@ == spec_ingest(old(self)@, ev@),
    {
        let ghost want: StatsModel = spec_ingest(old(self)@, ev@);
        match ev {
            Event::Beacon { bssid, ssid, chan } => {
                let i = self.find_entry(&ssid);
                let ghost entries0 = self@.entries;
                let found = i < self.ssid_beacons.len();
                let (key, mut info) = if found {
                    self.ssid_beacons.remove(i)
                } else {
                    (ssid, BeaconInfo { bssids: Vec::new(), channels: Vec::new(), beacons: 0 })
                };
                proof {
                    if found {
                        assert(key@ == entries0[i as int].0);
                        assert(info@ == entries0[i as int].1);
                    } else {
                        assert(info@.bssids =~= Seq::<Seq<u8>>::empty());
                    }
                }
                push_mac_unique(&mut info.bssids, bssid);
                if let Some(c) = chan {
                    push_byte_unique(&mut info.channels, c);
                }
                if info.beacons < u64::MAX {
                    info.beacons = info.beacons + 1;
                }
                self.ssid_beacons.insert(i, (key, info));
                proof {
                    assert(self@.entries =~= want.entries);
                    assert(self@.clients =~= want.clients);
                }
            },
            Event::ProbeReq { sta, ssid } => {
                push_mac_unique(&mut self.clients, sta);
                match ssid {
                    Some(name) => {
                        if !name.as_str().is_empty() {
                            let i = self.find_entry(&name);
                            if i == self.ssid_beacons.len() {
                                self.ssid_beacons.push(
                                    (
                                        name,
                                        BeaconInfo {
                                            bssids: Vec::new(),
                                            channels: Vec::new(),
                                            beacons: 0,
                                        },
                                    ),
                                );
                                proof {
                                    assert(self@.entries.last().1.bssids =~= Seq::<
                                        Seq<u8>,
                                    >::empty());
                                }
                            }
                        }
                    },
                    None => {},
                }
                proof {
                    assert(self@.entries =~= want.entries);
                    assert(self@.clients =~= want.clients);
                }
            },
            Event::ProbeRes { bssid, ssid } => {
                let i = self.find_entry(&ssid);
                let ghost entries0 = self@.entries;
                let found = i < self.ssid_beacons.len();
                let (key, mut info) = if found {
                    self.ssid_beacons.remove(i)
                } else {
                    (ssid, BeaconInfo { bssids: Vec::new(), channels: Vec::new(), beacons: 0 })
                };
                proof {
                    if found {
                        assert(key@ == entries0[i as int].0);
                        assert(info@ == entries0[i as int].1);
                    } else {
                        assert(info@.bssids =~= Seq::<Seq<u8>>::empty());
                    }
                }
                push_mac_unique(&mut info.bssids, bssid);
                self.ssid_beacons.insert(i, (key, info));
                proof {
                    assert(self@.entries =~= want.entries);
                    assert(self@.clients =~= want.clients);
                }
            },
        }
    }

    /// The index of the entry whose SSID equals `key`, or the entry count
    /// when there is none.
    fn find_entry(&self, key: &String) -> (r: usize)
        ensures
            r == key_index(self@.entries, key@),
            r <= self.ssid_beacons@.len(),
            r < self.ssid_beacons@.len() ==> self@.entries[r as int].0 == key@,
    {
        let n = self.ssid_beacons.len();
        let mut i: usize = 0;
        while i < n
            invariant
                n == self.ssid_beacons@.len(),
                i <= n,
                forall|j: int| 0 <= j < i ==> (#[trigger] self@.entries[j]).0 != key@,
            decreases n - i,
        {
            let same = self.ssid_beacons[i].0.eq(key);
            proof {
                assert(self@.entries[i as int].0 == self.ssid_beacons@[i as int].0@);
            }
            if same {
                proof {
                    lemma_key_index(self@.entries, key@);
                    let k = key_index(self@.entries, key@);
                    if k < i {
                        assert(self@.entries[k].0 == key@);
                        assert(false);
                    }
                    if k > i {
                        assert((#[trigger] self@.entries[i as int]).0 != key@);
                        assert(false);
                    }
                }
                return i;
            }
            i = i + 1;
        }
        proof {
            lemma_key_index(self@.entries, key@);
            let k = key_index(self@.entries, key@);
            if k < n {
                assert(self@.entries[k].0 == key@);
                assert(false);
            }
        }
        n
    }
}

/// Append a station or BSSID unless it is already present.
fn push_mac_unique(v: &mut Vec<[u8; 6]>, x: [u8; 6])
    ensures
        final(v)@.map_values(|b: [u8; 6]| b@) == push_unique(
            old(v)@.map_values(|b: [u8; 6]| b@),
            x@,
        ),
{
    let ghost target: Seq<Seq<u8>> = v@.map_values(|b: [u8; 6]| b@);
    let n = v.len();
    let mut i: usize = 0;
    while i < n
        invariant
            n == v@.len(),
            i <= n,
            target == v@.map_values(|b: [u8; 6]| b@),
            forall|j: int| 0 <= j < i ==> #[trigger] target[j] != x@,
        decreases n - i,
    {
        if mac_eq(&v[i], &x) {
            proof {
                assert(target[i as int] == x@);
                assert(target.contains(x@));
                assert(push_unique(target, x@) =~= target);
            }
            return ;
        }
        proof {
            assert(target[i as int] == v@[i as int]@);
        }
        i = i + 1;
    }
    proof {
        if target.contains(x@) {
            let w = choose|w: int| 0 <= w < target.len() && target[w] == x@;
            assert(false);
        }
    }
    v.push(x);
    proof {
        assert(v@.map_values(|b: [u8; 6]| b@) =~= target.push(x@));
    }
}

/// Append a channel unless it is already present.
fn push_byte_unique(v: &mut Vec<u8>, x: u8)
    ensures
        final(v)@ == push_unique(old(v)@, x),
{
    let ghost target: Seq<u8> = v@;
    let n = v.len();
    let mut i: usize = 0;
    while i < n
        invariant
            n == v@.len(),
            i <= n,
            target == v@,
            forall|j: int| 0 <= j < i ==> #[trigger] target[j] != x,
        decreases n - i,
    {
        if v[i] == x {
            proof {
                assert(target.contains(x));
                assert(push_unique(target, x) =~= target);
            }
            return ;
        }
        i = i + 1;
    }
    proof {
        if target.contains(x) {
            let w = choose|w: int| 0 <= w < target.len() && target[w] == x;
            assert(false);
        }
    }
    v.push(x);
}

/// Compare two six-byte addresses.
fn mac_eq(a: &[u8; 6], b: &[u8; 6]) -> (r: bool)
    ensures
        r == (a@ == b@),
{
    let mut i: usize = 0;
    let mut eq = true;
    while i < 6
        invariant
            i <= 6,
            eq ==> forall|t: int| 0 <= t < i ==> a@[t] == b@[t],
            !eq ==> a@ != b@,
        decreases 6 - i,
    {
        if a[i] != b[i] {
            proof {
                if a@ == b@ {
                    assert(a@[i as int] == b@[i as int]);
                }
            }
            eq = false;
        }
        i = i + 1;
    }
    proof {
        if eq {
            assert(a@ =~= b@);
        }
    }
    eq
}

} // verus!

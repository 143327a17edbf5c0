use packet_match_fuzz::parse::Event;
use packet_match_fuzz::report::Stats;

fn beacon(bssid: [u8; 6], ssid: &str, chan: Option<u8>) -> Event {
    Event::Beacon { bssid, ssid: ssid.to_string(), chan }
}

#[test]
fn beacons_are_aggregated_per_ssid() {
    let mut stats = Stats::new();
    stats.ingest(beacon([1, 1, 1, 1, 1, 1], "net", Some(6)));
    stats.ingest(beacon([1, 1, 1, 1, 1, 1], "net", Some(6)));
    stats.ingest(beacon([2, 2, 2, 2, 2, 2], "net", Some(11)));
    stats.ingest(beacon([3, 3, 3, 3, 3, 3], "other", None));

    assert_eq!(stats.ssid_beacons.len(), 2);
    let (name, info) = &stats.ssid_beacons[0];
    assert_eq!(name, "net");
    assert_eq!(info.beacons, 3);
    assert_eq!(info.bssids, vec![[1, 1, 1, 1, 1, 1], [2, 2, 2, 2, 2, 2]]);
    assert_eq!(info.channels, vec![6, 11]);
    let (name2, info2) = &stats.ssid_beacons[1];
    assert_eq!(name2, "other");
    assert_eq!(info2.beacons, 1);
    assert!(info2.channels.is_empty());
}

#[test]
fn probe_requests_track_clients_and_named_networks() {
    let mut stats = Stats::new();
    let sta = [9, 9, 9, 9, 9, 9];
    stats.ingest(Event::ProbeReq { sta, ssid: None });
    stats.ingest(Event::ProbeReq { sta, ssid: Some(String::new()) });
    stats.ingest(Event::ProbeReq { sta, ssid: Some("wanted".to_string()) });

    assert_eq!(stats.clients, vec![sta]);
    assert_eq!(stats.ssid_beacons.len(), 1);
    assert_eq!(stats.ssid_beacons[0].0, "wanted");
    assert_eq!(stats.ssid_beacons[0].1.beacons, 0);
}

#[test]
fn probe_responses_add_bssids_without_counting_beacons() {
    let mut stats = Stats::new();
    stats.ingest(Event::ProbeRes { bssid: [5, 5, 5, 5, 5, 5], ssid: "net".to_string() });
    stats.ingest(Event::ProbeRes { bssid: [5, 5, 5, 5, 5, 5], ssid: "net".to_string() });

    assert_eq!(stats.ssid_beacons.len(), 1);
    let (_, info) = &stats.ssid_beacons[0];
    assert_eq!(info.bssids, vec![[5, 5, 5, 5, 5, 5]]);
    assert_eq!(info.beacons, 0);
}

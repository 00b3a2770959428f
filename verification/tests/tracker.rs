use sweet_magnet::address::SocketAddr;
use sweet_magnet::bencode::{encode, Bencode};
use sweet_magnet::tracker::{
    HttpTrackerResponse, Tracker, TrackerError, TrackerEvent, TrackerOperationEvent,
    TrackerResponse,
};
use sweet_magnet::web::check_url_length;
use sweet_magnet::udp_tacker::{endpoint_of, UdpAnnounce, UdpTracker, UdpTrackerError};

fn tracker(url: &str) -> Tracker {
    Tracker::new(url, [b'a'; 20], [0x1f; 20], 7)
}

#[test]
fn event_strings() {
    assert_eq!(TrackerEvent::Started.value(), "started");
    assert_eq!(TrackerEvent::Stopped.value(), "stopped");
    assert_eq!(TrackerEvent::Completed.value(), "completed");
    assert_eq!(TrackerEvent::Empty.value(), "");
    assert_eq!(TrackerEvent::Completed.to_string(), "completed");
}

#[test]
fn bytes_are_encoded_for_queries() {
    let t = tracker("http://x");
    assert_eq!(t.url_encode_bytes(&[0x00, b'A', b'z', b'9', b' ', 0xab]), "%00Az9%20%AB");
    assert_eq!(t.url_encode_bytes(&[b'-', b'_', b'.', b'~']), "%2D%5F%2E%7E");
    assert_eq!(t.url_encode_bytes(&[0xe9, 0xb5, 0xaa, 0xff]), "%E9%B5%AA%FF");
    let all: Vec<u8> = (0..=255).collect();
    assert!(t.url_encode_bytes(&all).is_ascii());
    assert_eq!(t.url_encode_bytes(&all).len(), 62 + 3 * (256 - 62));
}

#[test]
fn announce_address_has_all_parameters() {
    let mut t = tracker("http://t.example/announce");
    t.update_stats(1, 2, 3);
    let url = t.announce(TrackerEvent::Started).unwrap();
    let hash = "a".repeat(20);
    let id = "%251F".repeat(20);
    assert_eq!(
        url,
        format!(
            "http://t.example/announce?info_hash={}&peer_id={}&port=6881&uploaded=1&downloaded=2&left=3&compact=1&event=started",
            hash, id
        )
    );
    assert!(!t.announce(TrackerEvent::Empty).unwrap().contains("event"));
}

#[test]
fn announce_keeps_the_query_of_the_tracker() {
    let url = tracker("https://t.example/a?k=v").announce(TrackerEvent::Empty).unwrap();
    assert!(url.starts_with("https://t.example/a?k=v&info_hash="));
}

#[test]
fn errors_of_announces() {
    let error = |url: &str| tracker(url).announce(TrackerEvent::Started).unwrap_err().message();
    assert_eq!(error("http://"), "Failed to parse tracker URL");
    assert_eq!(error("udp://t:1"), "UDP tracker protocol not implemented");
    assert_eq!(error("wss://t"), "Unsupported tracker protocol: wss://t");
}

#[test]
fn announce_keeps_the_fragment_of_the_tracker() {
    let t = tracker("http://x/#f");
    let url = t.http_announce(TrackerEvent::Empty).unwrap();
    assert!(url.ends_with("&compact=1#f"));
    assert_eq!(t.checked_announce(TrackerEvent::Empty).unwrap().unwrap(), url);
    assert!(check_url_length("http://x/#f") && check_url_length("no address"));
    let error = tracker("http://").checked_announce(TrackerEvent::Started).unwrap().unwrap_err();
    assert!(matches!(error, TrackerError::InvalidUrl));
}

#[test]
fn response_is_read() {
    let dict = Bencode::dict()
        .with("interval", Bencode::Int(1800))
        .with("complete", Bencode::Int(5))
        .with("peers", Bencode::Bytes(vec![127, 0, 0, 1, 0x1a, 0xe1, 10, 0, 0, 2, 0, 80, 1]));
    let response = Tracker::read_response(&encode(&dict)).unwrap();
    assert_eq!((response.interval, response.complete, response.incomplete), (1800, 5, 0));
    assert_eq!(
        response.peers,
        vec![
            SocketAddr::v4(0x7f00_0001, 6881),
            SocketAddr::v4(0x0a00_0002, 80),
        ]
    );
}

#[test]
fn empty_response_has_no_peers() {
    let response = Tracker::read_response("de".as_bytes()).unwrap();
    assert_eq!(response.interval, 0);
    assert!(response.peers.is_empty());
    let list = Bencode::dict().with(
        "peers",
        Bencode::List(vec![1, 2, 3, 4, 0, 5].into_iter().map(Bencode::Int).collect()),
    );
    let read = HttpTrackerResponse::from_bencode(&list).unwrap();
    assert_eq!(read.peers, vec![1, 2, 3, 4, 0, 5]);
}

#[test]
fn failures_of_trackers() {
    let failed = Bencode::dict().with("failure reason", Bencode::Bytes("no".as_bytes().to_vec()));
    let error = Tracker::read_response(&encode(&failed)).unwrap_err();
    assert_eq!(error.message(), "Tracker error: no");
    let invalid = |dict: Bencode| {
        assert!(matches!(
            Tracker::read_response(&encode(&dict)),
            Err(TrackerError::InvalidResponse)
        ));
    };
    invalid(Bencode::Int(1));
    invalid(Bencode::dict().with("interval", Bencode::Int(-1)));
    invalid(Bencode::dict().with("interval", Bencode::Int(4_294_967_296)));
    invalid(Bencode::dict().with("peers", Bencode::List(vec![Bencode::dict()])));
    invalid(Bencode::dict().with("failure reason", Bencode::Bytes(vec![255])));
    let error = Tracker::read_response("?".as_bytes()).unwrap_err();
    assert_eq!(error.message(), "Failed to decode bencoded response");
}

#[test]
fn repeated_keys_of_responses_are_refused() {
    let read = |bytes: &str| Tracker::read_response(bytes.as_bytes());
    assert_eq!(read("d8:intervali1e1:ai1e1:ai1ee").unwrap().interval, 1);
    for key in ["8:interval", "8:complete", "10:incomplete"] {
        assert!(read(&format!("d{}i1ee", key)).is_ok());
        assert!(read(&format!("d{}i1e{}i1ee", key, key)).is_err());
    }
    assert!(read("d5:peers0:e").is_ok());
    assert!(read("d5:peers0:1:xi0e5:peers0:e").is_err());
    assert_eq!(read("d14:failure reason1:xe").unwrap_err().message(), "Tracker error: x");
    assert!(matches!(
        read("d14:failure reason1:x14:failure reason1:xe"),
        Err(TrackerError::InvalidResponse)
    ));
    assert!(read("dli97eei0ee").is_err());
}

#[test]
fn response_may_be_a_list() {
    let read = |bytes: &str| Tracker::read_response(bytes.as_bytes());
    let response = read("li1ei2ei3e6:abcdefe").unwrap();
    assert_eq!((response.interval, response.complete, response.incomplete), (1, 2, 3));
    assert_eq!(response.peers, vec![SocketAddr::v4(0x6162_6364, 0x6566)]);
    assert_eq!(read("li1ei2ei3e0:2:noi9ee").unwrap_err().message(), "Tracker error: no");
    assert!(read("li1ei2ei3ee").is_err());
    assert!(read("le").is_err());
}

#[test]
fn events_of_an_announce() {
    let t = tracker("http://x");
    let response = TrackerResponse {
        interval: 1,
        complete: 2,
        incomplete: 3,
        peers: vec![SocketAddr::v4(1, 2)],
    };
    let events = t.announce_with_events(Ok(response));
    assert_eq!(events.len(), 2);
    assert!(matches!(&events[0], TrackerOperationEvent::Connected(url, 1) if url == "http://x"));
    assert!(matches!(&events[1], TrackerOperationEvent::Response(r) if r.complete == 2));
    let events = t.announce_with_events(Err("down".to_string()));
    assert_eq!(events.len(), 1);
    assert!(
        matches!(&events[0], TrackerOperationEvent::Failed(url, e) if url == "http://x" && e == "down")
    );
}

#[test]
fn cloned_tracker_is_the_same() {
    let mut t = tracker("http://x");
    t.update_stats(4, 5, 6);
    let c = t.clone();
    assert_eq!((c.url, c.info_hash, c.peer_id, c.port), (t.url, t.info_hash, t.peer_id, 6881));
    assert_eq!((c.uploaded, c.downloaded, c.left), (4, 5, 6));
}

fn udp() -> UdpTracker {
    UdpTracker::with_transaction_id("udp://tracker.example:1337/announce", 0x0102_0304).unwrap()
}

#[test]
fn udp_address_is_taken_apart() {
    let t = udp();
    assert_eq!((t.host.as_str(), t.port, t.connection_id), ("tracker.example", 1337, None));
    assert_eq!(t.address(), "tracker.example:1337");
    let t = UdpTracker::new("udp://tracker.example").unwrap();
    assert_eq!(t.address(), "tracker.example:80");
    let error = |url: &str| UdpTracker::new(url).unwrap_err().message();
    assert_eq!(error("not an address"), "Failed to parse UDP tracker URL");
    assert_eq!(error("http://tracker.example"), "Not a UDP tracker URL");
    assert_eq!(error("udp:nohost"), "Missing host in tracker URL");
}

#[test]
fn endpoint_from_parts() {
    let parts = |scheme: &str, host: Option<&str>, port: Option<u16>| {
        Some((scheme.to_string(), host.map(String::from), port))
    };
    assert_eq!(endpoint_of(parts("udp", Some("h"), Some(9))).unwrap(), ("h".to_string(), 9));
    assert_eq!(endpoint_of(parts("udp", Some("h"), None)).unwrap(), ("h".to_string(), 80));
    assert!(matches!(endpoint_of(parts("udp", None, None)), Err(UdpTrackerError::MissingHost)));
    assert!(matches!(endpoint_of(parts("udpx", None, None)), Err(UdpTrackerError::NotUdp)));
    assert!(matches!(endpoint_of(None), Err(UdpTrackerError::InvalidUrl)));
}

#[test]
fn udp_connection_request_has_its_bytes() {
    assert_eq!(
        &udp().connect()[..],
        &[0, 0, 4, 0x17, 0x27, 0x10, 0x19, 0x80, 0, 0, 0, 0, 1, 2, 3, 4]
    );
}

#[test]
fn udp_connection_id_is_read() {
    let mut t = udp();
    let response = [0, 0, 0, 0, 1, 2, 3, 4, 0, 0, 0, 0, 0, 0, 2, 1];
    t.connected(&response).unwrap();
    assert_eq!(t.connection_id, Some(513));
    assert_eq!(
        t.connected(&response[..15]).unwrap_err().message(),
        "Received truncated response"
    );
    let mut wrong = response;
    wrong[3] = 3;
    assert_eq!(
        t.connected(&wrong).unwrap_err().message(),
        "Expected connect action, got 3"
    );
    let mut wrong = response;
    wrong[7] = 5;
    assert_eq!(t.connected(&wrong).unwrap_err().message(), "Transaction ID mismatch");
    assert_eq!(t.connection_id, Some(513));
}

#[test]
fn udp_announce_has_its_layout() {
    let mut t = udp();
    t.connection_id = Some(1);
    let announce = UdpAnnounce {
        info_hash: [5; 20],
        peer_id: [6; 20],
        downloaded: 7,
        left: 8,
        uploaded: 9,
        event: 2,
    };
    let bytes = t.announce_with(&announce, 0xdead_beef, 6881);
    assert_eq!(bytes.len(), 98);
    assert_eq!(&bytes[..16], &[0, 0, 0, 0, 0, 0, 0, 1, 0, 0, 0, 1, 1, 2, 3, 4]);
    assert_eq!(&bytes[16..36], &[5; 20]);
    assert_eq!(&bytes[36..56], &[6; 20]);
    assert_eq!((bytes[63], bytes[71], bytes[79], bytes[83]), (7, 8, 9, 2));
    assert_eq!(&bytes[84..96], &[0, 0, 0, 0, 0xde, 0xad, 0xbe, 0xef, 255, 255, 255, 255]);
    assert_eq!(&bytes[96..], &[0x1a, 0xe1]);
    let bytes = t.announce(&announce, 51413);
    assert_eq!(bytes.len(), 98);
    assert_eq!(&bytes[..88], &t.announce_with(&announce, 0, 51413)[..88]);
    assert_eq!(&bytes[92..], &[255, 255, 255, 255, 0xc8, 0xd5]);
    assert_eq!(t.address(), "tracker.example:1337");
}

#[test]
fn udp_peers_are_read() {
    let t = udp();
    let mut response = vec![0, 0, 0, 1, 1, 2, 3, 4, 0, 0, 0, 9, 0, 0, 0, 9, 0, 0, 0, 9];
    response.extend_from_slice(&[127, 0, 0, 1, 0, 80, 1, 2, 3]);
    assert_eq!(
        t.read_peers(&response).unwrap(),
        vec![SocketAddr::v4(0x7f00_0001, 80)]
    );
    assert_eq!(
        t.read_peers(&response[..19]).unwrap_err().message(),
        "Received truncated response"
    );
    let mut wrong = response.clone();
    wrong[7] = 0;
    assert_eq!(t.read_peers(&wrong).unwrap_err().message(), "Transaction ID mismatch");
    wrong[3] = 2;
    assert_eq!(
        t.read_peers(&wrong).unwrap_err().message(),
        "Expected announce action, got 2"
    );
    let mut failure = vec![0, 0, 0, 3, 9, 9, 9, 9];
    failure.extend_from_slice("go away\u{e9}!!!!!".as_bytes());
    failure.push(255);
    assert_eq!(
        t.read_peers(&failure).unwrap_err().message(),
        "Tracker error: go away\u{e9}!!!!!\u{fffd}"
    );
}

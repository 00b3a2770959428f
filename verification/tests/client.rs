use bytes::Bytes;
use sweet_magnet::address::{PeerSet, SocketAddr};
use sweet_magnet::client::{
    check_connections, collect_peers, is_connected_enough, is_hash_text, read_info_hash,
    ClientStats, TorrentClient, TrackerTally,
};
use sweet_magnet::error::SweetMagnetError;
use sweet_magnet::magnet::MagnetLink;
use sweet_magnet::peer::PeerEvent;
use sweet_magnet::piece::PieceManager;
use sweet_magnet::requests::ActiveRequests;
use sweet_magnet::tracker::{TrackerOperationEvent, TrackerResponse};

const LINK: &str =
    "magnet:?xt=urn:btih:e45deff382bcfb0342b00b638414eb063de304f9&dn=My+Big+File&tr=http://a&tr=udp://b";

fn client() -> TorrentClient {
    TorrentClient::with_id(MagnetLink::parse(LINK).unwrap(), "down", &[7; 12])
}

fn addr(n: u32) -> SocketAddr {
    SocketAddr::v4(n, 1)
}

fn response(peers: Vec<SocketAddr>) -> TrackerResponse {
    TrackerResponse { interval: 0, complete: 0, incomplete: 0, peers }
}

#[test]
fn info_hash_is_read_from_hexadecimal() {
    let hash = read_info_hash("e45deff382bcfb0342b00b638414eb063de304f9");
    assert_eq!(&hash[..4], &[0xe4, 0x5d, 0xef, 0xf3]);
    assert_eq!(hash[19], 0xf9);
    let hash = read_info_hash("FFzz+5-5 500000000000000000000000000000001");
    assert_eq!(&hash[..5], &[0xff, 0, 5, 0, 0]);
}

#[test]
fn info_hash_can_be_cut() {
    assert!(is_hash_text(&"a".repeat(40)));
    assert!(is_hash_text(&"é".repeat(20)));
    assert!(!is_hash_text(&"a".repeat(39)));
    assert!(!is_hash_text(&format!("a{}a", "é".repeat(19))));
}

#[test]
fn new_client_knows_its_trackers() {
    let c = client();
    assert_eq!(&c.peer_id[..8], "-SM0001-".as_bytes());
    assert_eq!(&c.peer_id[8..], &[7; 12]);
    assert_eq!(c.info_hash[0], 0xe4);
    assert_eq!(c.download_dir, "down");
    assert_eq!(c.trackers.len(), 2);
    assert_eq!(c.trackers[1].url, "udp://b");
    assert_eq!(c.trackers[1].peer_id, c.peer_id);
    assert_eq!(c.trackers[1].info_hash, c.info_hash);
    assert_eq!(c.stats, ClientStats::new());
    assert!(c.metadata.is_none() && c.piece_manager.is_none());
}

#[test]
fn new_clients_have_ids_of_their_own() {
    let a = TorrentClient::new(MagnetLink::parse(LINK).unwrap(), "d");
    let b = TorrentClient::new(MagnetLink::parse(LINK).unwrap(), "d");
    assert_eq!(&a.peer_id[..8], "-SM0001-".as_bytes());
    assert_ne!(a.peer_id, b.peer_id);
}

#[test]
fn announcer_tells_what_was_transferred() {
    let mut c = client();
    c.stats.downloaded = 5;
    c.stats.uploaded = 6;
    let trackers = c.announcer_trackers();
    assert_eq!(trackers.len(), 2);
    assert_eq!(trackers[0].url, "http://a");
    assert_eq!((trackers[0].uploaded, trackers[0].downloaded, trackers[0].left), (6, 5, 0));
}

#[test]
fn tally_counts_trackers_and_peers() {
    let c = client();
    let mut tally = TrackerTally::new();
    match c.connect_to_trackers(&tally) {
        Err(SweetMagnetError::TorrentClient(text)) => {
            assert_eq!(text, "Failed to connect to any trackers")
        }
        other => panic!("unexpected: {:?}", other),
    }
    tally.take(&TrackerOperationEvent::Failed("u".to_string(), "r".to_string()));
    tally.take(&TrackerOperationEvent::Error("u".to_string(), "r".to_string()));
    tally.take(&TrackerOperationEvent::IntervalElapsed("u".to_string()));
    assert!(c.connect_to_trackers(&tally).is_err());
    tally.take(&TrackerOperationEvent::Connected("u".to_string(), 2));
    tally.take(&TrackerOperationEvent::Response(response(vec![addr(1), addr(2)])));
    tally.take(&TrackerOperationEvent::Response(response(vec![addr(2), addr(3)])));
    assert!(c.connect_to_trackers(&tally).is_ok());
    assert_eq!(tally.successful_trackers, 1);
    assert_eq!(tally.all_peers.len(), 3);
    assert!(tally.all_peers.contains(addr(3)));
}

#[test]
fn no_tracker_is_no_failure() {
    let link = "magnet:?xt=urn:btih:e45deff382bcfb0342b00b638414eb063de304f9";
    let c = TorrentClient::with_id(MagnetLink::parse(link).unwrap(), "d", &[1; 12]);
    assert!(c.trackers.is_empty());
    assert!(c.connect_to_trackers(&TrackerTally::new()).is_ok());
    assert!(client().connect_to_trackers(&TrackerTally::new()).is_err());
}

#[test]
fn first_peers_of_each_tracker_are_tried() {
    let many: Vec<SocketAddr> = (0..60).map(addr).collect();
    let peers = collect_peers(&[response(many.clone()), response(vec![addr(99)])]);
    assert_eq!(peers.len(), 51);
    assert_eq!(&peers[..50], &many[..50]);
    assert_eq!(peers[50], addr(99));
    assert!(!is_connected_enough(49) && is_connected_enough(50));
}

#[test]
fn some_peer_must_be_connected() {
    assert!(check_connections(1).is_ok());
    let error = check_connections(0).unwrap_err();
    assert_eq!(error.message(), "Torrent client error: Could not connect to any peers");
}

#[test]
fn files_are_named_after_the_link() {
    let c = client();
    assert_eq!(c.placeholder_name(), "My_Big_File.torrent");
    assert_eq!(
        c.download_note("now"),
        "Mock torrent data for My Big File\nInfo hash: e45deff382bcfb0342b00b638414eb063de304f9\nDownloaded at: now"
    );
}

#[test]
fn peers_come_and_go() {
    let mut c = client();
    let mut requests = ActiveRequests::new();
    c.add_peer(addr(1));
    c.add_peer(addr(2));
    c.add_peer(addr(1));
    assert!(c.is_connected(addr(1)) && !c.is_connected(addr(3)));
    assert_eq!(c.stats.num_peers, 2);
    c.handle_peer_event(PeerEvent::Disconnected(addr(1), None), &mut requests);
    assert!(!c.is_connected(addr(1)));
    assert_eq!(c.stats.num_peers, 1);
    c.handle_peer_event(PeerEvent::Disconnected(addr(9), Some("x".to_string())), &mut requests);
    assert_eq!(c.stats.num_peers, 1);
}

#[test]
fn choke_of_a_connected_peer_drops_requests() {
    let mut c = client();
    let mut requests = ActiveRequests::new();
    requests.insert((0, 0), 5);
    c.handle_peer_event(PeerEvent::Choke(addr(1)), &mut requests);
    assert_eq!(requests.get((0, 0)), Some(5));
    c.add_peer(addr(1));
    c.handle_peer_event(PeerEvent::Unchoke(addr(1)), &mut requests);
    c.handle_peer_event(PeerEvent::Have(addr(1), 3), &mut requests);
    c.handle_peer_event(PeerEvent::KeepAlive(addr(1)), &mut requests);
    assert_eq!(requests.get((0, 0)), Some(5));
    c.handle_peer_event(PeerEvent::Choke(addr(1)), &mut requests);
    assert_eq!(requests.get((0, 0)), None);
}

#[test]
fn received_blocks_are_counted_and_kept() {
    let mut c = client();
    let mut requests = ActiveRequests::new();
    requests.insert((0, 0), 5);
    requests.insert((0, 4), 5);
    c.piece_manager = Some(PieceManager::new(vec![[0; 20]], vec![8], 4));
    let block = PeerEvent::BlockReceived(addr(1), 0, 0, Bytes::from(vec![1, 2, 3, 4]));
    c.handle_peer_event(block, &mut requests);
    assert_eq!(c.stats.downloaded, 4);
    assert_eq!(requests.get((0, 0)), None);
    assert_eq!(requests.get((0, 4)), Some(5));
    let manager = c.piece_manager.as_ref().unwrap();
    assert!(manager.pieces[0].blocks[0].received && !manager.pieces[0].blocks[1].received);
}

#[test]
fn old_requests_are_dropped() {
    let mut requests = ActiveRequests::new();
    requests.insert((1, 0), 0);
    requests.insert((2, 0), 10);
    requests.insert((1, 0), 1);
    TorrentClient::check_timeouts(&mut requests, 30_000_000_001);
    assert_eq!(requests.get((1, 0)), Some(1));
    TorrentClient::check_timeouts(&mut requests, 30_000_000_002);
    assert_eq!(requests.get((1, 0)), None);
    assert_eq!(requests.get((2, 0)), Some(10));
    requests.remove((2, 0));
    requests.remove((2, 0));
    assert_eq!(requests.get((2, 0)), None);
    requests.insert((3, 3), 3);
    requests.clear();
    assert_eq!(requests.get((3, 3)), None);
}

#[test]
fn stats_take_the_time() {
    let mut c = client();
    c.update_stats();
    let first = c.stats.elapsed_time;
    c.update_stats();
    assert!(c.stats.elapsed_time >= first);
}

#[test]
fn peers_are_in_a_set_once() {
    let mut set = PeerSet::new();
    assert!(set.insert(addr(1)));
    assert!(!set.insert(addr(1)));
    assert!(set.insert(addr(2)));
    set.remove(addr(1));
    set.remove(addr(5));
    assert!(!set.contains(addr(1)) && set.contains(addr(2)));
    assert_eq!(set.len(), 1);
}

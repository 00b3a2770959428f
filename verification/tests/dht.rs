use sweet_magnet::address::{IpAddr, PeerSet, SocketAddr};
use sweet_magnet::bencode::{decode, encode, Bencode};
use sweet_magnet::dht::{bootstrap_hosts, is_search_done, Dht, DhtError};

fn node_bytes(id: u8, last: u8) -> Vec<u8> {
    let mut bytes = vec![id; 20];
    bytes.extend_from_slice(&[10, 0, 0, last, 0x1a, 0xe1]);
    bytes
}

fn value(s: &str) -> Bencode {
    Bencode::Bytes(s.as_bytes().to_vec())
}

fn dht() -> Dht {
    Dht::with_node_id([b'n'; 20], vec![SocketAddr::v4(1, 2), SocketAddr::v4(3, 4)])
}

fn peer(last: u8) -> SocketAddr {
    SocketAddr::v4(0x0a00_0000 + last as u32, 6881)
}

#[test]
fn queries_have_their_bytes() {
    let id = "n".repeat(20);
    let mut d = dht();
    assert_eq!(
        String::from_utf8(d.ping()).unwrap(),
        format!("d1:ad2:id20:{}e1:q4:ping1:t1:11:y1:qe", id)
    );
    assert_eq!(
        String::from_utf8(d.find_node(&[b't'; 20])).unwrap(),
        format!("d1:ad2:id20:{}6:target20:{}e1:q9:find_node1:t1:21:y1:qe", id, "t".repeat(20))
    );
    assert_eq!(
        String::from_utf8(d.get_peers(&[b'h'; 20])).unwrap(),
        format!("d1:ad2:id20:{}9:info_hash20:{}e1:q9:get_peers1:t1:31:y1:qe", id, "h".repeat(20))
    );
    assert_eq!(d.transaction_id, 3);
}

#[test]
fn transaction_ids_wrap_around() {
    let mut d = dht();
    d.transaction_id = u32::MAX;
    let message = decode(&d.ping()).unwrap();
    assert_eq!(message.get("t").unwrap().text(), Some("0".to_string()));
}

#[test]
fn nodes_are_taken_once_and_not_the_own_one() {
    let mut d = dht();
    let mut data = node_bytes(1, 1);
    data.extend(node_bytes(b'n', 2));
    data.extend(node_bytes(1, 1));
    data.extend(node_bytes(1, 3));
    data.extend_from_slice(&[1, 2, 3]);
    d.process_nodes(&data);
    let known: Vec<(u8, SocketAddr)> = d.known_nodes.iter().map(|n| (n.id[0], n.addr)).collect();
    assert_eq!(known, vec![(1, peer(1)), (1, peer(3))]);
}

#[test]
fn response_names_peers_and_nodes() {
    let mut d = dht();
    let response = Bencode::dict()
        .with("nodes", Bencode::Bytes(node_bytes(7, 9)))
        .with(
            "values",
            Bencode::List(vec![
                Bencode::Bytes(vec![10, 0, 0, 4, 0x1a, 0xe1]),
                Bencode::Bytes(vec![1, 2, 3]),
                Bencode::Int(5),
                Bencode::Bytes(vec![10, 0, 0, 5, 0x1a, 0xe1]),
            ]),
        );
    let message = Bencode::dict().with("y", value("r")).with("r", response);
    assert_eq!(d.process_message(&encode(&message)), vec![peer(4), peer(5)]);
    assert_eq!(d.known_nodes.len(), 1);
    assert_eq!(d.known_nodes[0].addr, peer(9));
}

#[test]
fn other_messages_say_nothing() {
    let mut d = dht();
    let response = Bencode::dict().with("nodes", Bencode::Bytes(node_bytes(7, 9)));
    let query = Bencode::dict().with("y", value("q")).with("r", response);
    assert!(d.process_message(&encode(&query)).is_empty());
    let own = d.ping();
    assert!(d.process_message(&own).is_empty());
    let error = Bencode::dict().with("y", value("e")).with("e", Bencode::List(vec![]));
    assert!(d.process_message(&encode(&error)).is_empty());
    assert!(d.process_message("garbage".as_bytes()).is_empty());
    assert!(d.process_message(&encode(&Bencode::dict().with("y", value("r")))).is_empty());
    assert!(d.process_message("i1e".as_bytes()).is_empty());
    assert!(d.known_nodes.is_empty());
}

#[test]
fn bootstrap_pings_all_nodes() {
    let mut d = dht();
    let messages = d.bootstrap();
    assert_eq!(messages.len(), 2);
    assert_eq!(messages[0].0, SocketAddr::v4(1, 2));
    assert_eq!(messages[1].0, SocketAddr::v4(3, 4));
    let second = decode(&messages[1].1).unwrap();
    assert_eq!(second.get("q").unwrap().text(), Some("ping".to_string()));
    assert_eq!(second.get("t").unwrap().text(), Some("2".to_string()));
    assert_eq!(
        bootstrap_hosts(),
        vec![
            "router.bittorrent.com:6881",
            "dht.transmissionbt.com:6881",
            "router.utorrent.com:6881",
        ]
    );
}

#[test]
fn search_asks_the_first_nodes() {
    let mut d = dht();
    let error = d.find_peers(&[b'h'; 20], 30).unwrap_err();
    assert_eq!(error, DhtError::NoNodes);
    assert_eq!(error.message(), "No DHT nodes available");
    let mut data = node_bytes(1, 1);
    data.extend(node_bytes(2, 2));
    data.extend(node_bytes(3, 3));
    d.process_nodes(&data);
    let messages = d.find_peers(&[b'h'; 20], 2).unwrap();
    assert_eq!(messages.len(), 2);
    assert_eq!(messages[1].0, peer(2));
    let get = decode(&messages[1].1).unwrap();
    let find = decode(&messages[1].2).unwrap();
    assert_eq!(get.get("q").unwrap().text(), Some("get_peers".to_string()));
    assert_eq!(get.get("t").unwrap().text(), Some("3".to_string()));
    assert_eq!(find.get("q").unwrap().text(), Some("find_node".to_string()));
    assert_eq!(find.get("t").unwrap().text(), Some("4".to_string()));
    assert_eq!(d.transaction_id, 4);
}

#[test]
fn search_ends() {
    assert!(!is_search_done(99, 7_999_999_999));
    assert!(is_search_done(100, 0));
    assert!(is_search_done(0, 8_000_000_000));
}

#[test]
fn new_dht_knows_no_nodes() {
    let d = Dht::new(vec![]);
    assert!(d.known_nodes.is_empty() && d.bootstrap_nodes.is_empty());
    assert_ne!(d.node_id, Dht::new(vec![]).node_id);
}

#[test]
fn search_finds_each_named_peer_once() {
    let naming = |peers: &[u8]| {
        let values = peers.iter().map(|p| Bencode::Bytes(vec![10, 0, 0, *p, 0x1a, 0xe1])).collect();
        let response = Bencode::dict()
            .with("values", Bencode::List(values))
            .with("nodes", Bencode::Bytes(node_bytes(7, 7)));
        encode(&Bencode::dict().with("y", value("r")).with("r", response))
    };
    let mut d = dht();
    assert!(d.needs_bootstrap());
    let mut found = PeerSet::new();
    d.receive(&naming(&[1, 2, 1]), &mut found);
    d.receive("garbage".as_bytes(), &mut found);
    d.receive(&naming(&[2, 3]), &mut found);
    assert!(!d.needs_bootstrap());
    assert_eq!(d.known_nodes.len(), 1);
    assert_eq!(found.into_vec(), vec![peer(1), peer(2), peer(3)]);
}

#[test]
fn bootstrap_nodes_may_be_of_either_kind() {
    let node = SocketAddr { ip: IpAddr::V6(1), port: 6881 };
    let mut d = Dht::with_node_id([1; 20], vec![node]);
    assert_eq!(d.bootstrap()[0].0, node);
}

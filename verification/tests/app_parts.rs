use sweet_magnet::address::{read_compact_peers, SocketAddr};
use sweet_magnet::bencode::{check_depth, decode, encode, Bencode, MAX_DEPTH};
use sweet_magnet::cli::{Args, Cli};
use sweet_magnet::config::Config;
use sweet_magnet::discovery::{
    anonymous_peer_id, is_fetch_over, is_search_over, trackers_with_prefix, DiscoveryError,
    FetchPlan,
};
use sweet_magnet::error::SweetMagnetError;
use sweet_magnet::text::{decimal_text, same_text, starts_with};

fn args(output_dir: Option<&str>, verbose: bool) -> Args {
    Args {
        magnet: "m".to_string(),
        output_dir: output_dir.map(String::from),
        config: "c".to_string(),
        verbose,
    }
}

#[test]
fn default_configuration() {
    let config = Config::default();
    assert_eq!(config.download_dir, "./downloads");
    assert_eq!(config.max_concurrent_downloads, 3);
    assert_eq!(config.connection_timeout, 30);
    assert!(config.use_dht);
}

#[test]
fn command_line_comes_before_configuration() {
    let config = || Config {
        download_dir: "a".to_string(),
        max_concurrent_downloads: 1,
        connection_timeout: 2,
        use_dht: false,
    };
    let cli = Cli::new(args(Some("b"), true), Some(config()));
    assert_eq!(cli.config.download_dir, "b");
    assert_eq!(cli.config.connection_timeout, 2);
    assert_eq!(cli.log_filter(), "debug");
    let cli = Cli::new(args(None, false), Some(config()));
    assert_eq!(cli.config.download_dir, "a");
    assert!(!cli.config.use_dht);
    assert_eq!(cli.log_filter(), "info");
    let cli = Cli::new(args(None, false), None);
    assert_eq!(cli.config.download_dir, "./downloads");
    assert_eq!(cli.args.magnet, "m");
}

#[test]
fn texts_of_errors() {
    let text = |e: SweetMagnetError| e.message();
    assert_eq!(
        text(SweetMagnetError::MagnetParse("a".to_string())),
        "Magnet parsing error: a"
    );
    assert_eq!(
        text(SweetMagnetError::TorrentClient("b".to_string())),
        "Torrent client error: b"
    );
    assert_eq!(text(SweetMagnetError::MediaPlayer("c".to_string())), "Media player error: c");
    let io = std::io::Error::new(std::io::ErrorKind::Other, "disk full");
    let error = SweetMagnetError::from(io);
    assert!(matches!(error, SweetMagnetError::Io(_)));
    assert_eq!(error.message(), "I/O error: disk full");
    assert_eq!(error.message_with("x"), "I/O error: x");
}

#[test]
fn trackers_are_sorted_out_by_prefix() {
    let trackers: Vec<String> = ["http://a", "udp://b", "https://c", "wss://d", "ht"]
        .iter()
        .map(|s| s.to_string())
        .collect();
    assert_eq!(trackers_with_prefix(&trackers, "http"), vec!["http://a", "https://c"]);
    assert_eq!(trackers_with_prefix(&trackers, "udp"), vec!["udp://b"]);
    assert_eq!(trackers_with_prefix(&[], "udp"), Vec::<String>::new());
}

#[test]
fn plan_asks_ten_peers_at_most() {
    assert_eq!(FetchPlan::new(vec![]).unwrap_err(), DiscoveryError::NoPeers);
    let peers: Vec<SocketAddr> = (0..12).map(|i| SocketAddr::v4(i, 1)).collect();
    let mut plan = FetchPlan::new(peers.clone()).unwrap();
    for peer in &peers[..10] {
        assert!(!plan.wants_peer());
        assert_eq!(plan.next_peer(), Some(*peer));
    }
    assert_eq!(plan.next_peer(), None);
    assert!(!plan.wants_peer());
}

#[test]
fn plan_takes_more_peers() {
    let a = SocketAddr::v4(1, 1);
    let b = SocketAddr::v4(2, 1);
    let mut plan = FetchPlan::new(vec![a]).unwrap();
    assert_eq!(plan.found_peer(None), Err(DiscoveryError::NotFound));
    assert_eq!(plan.next_peer(), Some(a));
    assert!(plan.wants_peer());
    assert_eq!(plan.found_peer(None), Ok(()));
    assert_eq!(plan.found_peer(Some(b)), Ok(()));
    assert_eq!(plan.next_peer(), Some(b));
}

#[test]
fn search_for_peers_is_over() {
    assert!(!is_search_over(49, 9_999_999_999));
    assert!(is_search_over(50, 0));
    assert!(is_search_over(1, 10_000_000_000));
    assert!(!is_fetch_over(true, 29_999_999_999));
    assert!(is_fetch_over(true, 30_000_000_000));
    assert!(!is_fetch_over(false, 30_000_000_000));
    assert_eq!(DiscoveryError::NoPeers.message(), "No peers available to fetch metadata");
    assert_eq!(DiscoveryError::NotFound.message(), "Failed to fetch metadata from any peer");
    assert_eq!(DiscoveryError::TimedOut.message(), "Metadata fetch timed out");
    assert_ne!(anonymous_peer_id(), anonymous_peer_id());
}

#[test]
fn compact_peers_are_read_back() {
    assert_eq!(
        read_compact_peers(&[1, 2, 3, 4, 5, 6, 255, 255, 255, 255, 255, 255, 9]),
        vec![
            SocketAddr::v4(0x0102_0304, 0x0506),
            SocketAddr::v4(u32::MAX, u16::MAX),
        ]
    );
}

#[test]
fn bencoded_values_are_read_back() {
    let value = Bencode::dict()
        .with("b", Bencode::List(vec![Bencode::Int(-5), Bencode::Bytes(vec![0, 255])]))
        .with("a", Bencode::dict())
        .with("b", Bencode::Int(7));
    let bytes = encode(&value);
    assert_eq!(bytes, "d1:ade1:bi7ee".as_bytes());
    let back = decode(&bytes).unwrap();
    assert_eq!(back.get("b").unwrap().integer(), Some(7));
    assert!(back.get("a").unwrap().is_dict());
    assert!(back.get("c").is_none());
    assert!(decode("d1:ai5e".as_bytes()).is_none());
    assert_eq!(decode("4:spamrest".as_bytes()).unwrap().text(), Some("spam".to_string()));
    assert_eq!(decode("li300ee".as_bytes()).unwrap().byte_list(), None);
    assert_eq!(decode("li3ee".as_bytes()).unwrap().byte_list(), Some(vec![3]));
    assert_eq!(decode("i9e".as_bytes()).unwrap().number(8), None);
}

#[test]
fn numbers_and_texts() {
    assert_eq!(decimal_text(0), "0");
    assert_eq!(decimal_text(18_446_744_073_709_551_615), "18446744073709551615");
    assert!(same_text("é", "é") && !same_text("a", "ab") && !same_text("ab", "a"));
    assert!(starts_with(&['a', 'b'], "a") && !starts_with(&['a'], "ab"));
}

fn nested(open: &str, depth: usize) -> Vec<u8> {
    let mut bytes = open.repeat(depth).into_bytes();
    bytes.extend("e".repeat(depth).bytes());
    bytes
}

#[test]
fn values_may_be_nested_to_a_limit() {
    let deepest = nested("l", MAX_DEPTH);
    assert!(check_depth(&deepest));
    assert_eq!(encode(&decode(&deepest).unwrap()), deepest);
    assert!(!check_depth(&nested("l", MAX_DEPTH + 1)));
    assert!(!check_depth(&nested("d1:a", MAX_DEPTH + 1)));
    assert!(!check_depth("l".repeat(1_000_000).as_bytes()));
    assert!(decode("l".repeat(MAX_DEPTH).as_bytes()).is_none());
    assert!(decode("d1:a".repeat(MAX_DEPTH).as_bytes()).is_none());
}

#[test]
fn depth_is_that_of_the_first_value() {
    let deep = "l".repeat(10_000);
    let string = format!("d1:a10000:{}e", deep);
    assert!(check_depth(string.as_bytes()));
    assert_eq!(decode(string.as_bytes()).unwrap().get("a").unwrap().text(), Some(deep.clone()));
    assert!(check_depth(format!("le{}", deep).as_bytes()));
    assert!(check_depth(format!("i5e{}", deep).as_bytes()));
    assert!(check_depth(format!("2:ab{}", deep).as_bytes()));
    assert!(check_depth(format!("l99999999999999999999999:{}", deep).as_bytes()));
    assert!(check_depth(format!("lx{}", deep).as_bytes()));
    assert!(!check_depth(format!("li1e0:{}", deep).as_bytes()));
    assert!(!check_depth(format!("l0001:x{}", deep).as_bytes()));
    let many = format!("l{}e", "le".repeat(1000));
    assert_eq!(decode(many.as_bytes()).unwrap().list().unwrap().len(), 1000);
}

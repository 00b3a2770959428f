use sweet_magnet::error::SweetMagnetError;
use sweet_magnet::magnet::{percent_decode, MagnetLink};

const HASH: &str = "e45deff382bcfb0342b00b638414eb063de304f9";

fn parse_error(uri: &str) -> String {
    match MagnetLink::parse(uri) {
        Err(SweetMagnetError::MagnetParse(text)) => text,
        other => panic!("unexpected: {:?}", other),
    }
}

#[test]
fn test_parse_valid_magnet() {
    let magnet = "magnet:?xt=urn:btih:e45deff382bcfb0342b00b638414eb063de304f9&dn=Test+Torrent&tr=udp%3A%2F%2Ftracker.example.org%3A1337%2Fannounce";
    let parsed = MagnetLink::parse(magnet).unwrap();

    println!("Input magnet: {}", magnet);
    println!("Parsed display name: {:?}", parsed.display_name);

    assert_eq!(parsed.info_hash, "e45deff382bcfb0342b00b638414eb063de304f9");
    assert_eq!(parsed.display_name, Some("Test Torrent".to_string()));
    assert_eq!(parsed.trackers.len(), 1);
}

#[test]
fn test_parse_invalid_magnet() {
    let result = MagnetLink::parse("https://example.com");
    assert!(result.is_err());
}

#[test]
fn test_percent_decode() {
    assert_eq!(percent_decode("hello+world"), "hello world");
    assert_eq!(percent_decode("hello%20world"), "hello world");
    assert_eq!(percent_decode("test%3A%2F%2Fexample"), "test://example");
}

#[test]
fn percent_decode_keeps_what_it_cannot_decode() {
    assert_eq!(percent_decode("100%"), "100%");
    assert_eq!(percent_decode("100%4"), "100%4");
    assert_eq!(percent_decode("%zz%41"), "%zzA");
    assert_eq!(percent_decode("%+1"), "% 1");
    assert_eq!(percent_decode("%%20"), "%%20");
    assert_eq!(percent_decode("%e9%C3"), "\u{e9}\u{c3}");
    assert_eq!(percent_decode(""), "");
}

#[test]
fn plain_text_is_decoded_to_itself() {
    assert_eq!(percent_decode("urn:btih:été/=&"), "urn:btih:été/=&");
}

#[test]
fn trackers_come_in_order_under_all_their_names() {
    let uri = format!("magnet:?tr=a&tr.1=b&xt=urn:btih:{}&tracker=c&ts=d&tr=e", HASH);
    let parsed = MagnetLink::parse(&uri).unwrap();
    assert_eq!(parsed.trackers, vec!["a", "b", "c", "e"]);
    assert_eq!(parsed.display_name, None);
    assert_eq!(parsed.params.get("tr"), Some(&"e".to_string()));
    assert_eq!(parsed.params.get("ts"), Some(&"d".to_string()));
    assert_eq!(parsed.params.get("xt"), Some(&format!("urn:btih:{}", HASH)));
    assert_eq!(parsed.params.get("dn"), None);
    assert_eq!(parsed.params.len(), 5);
}

#[test]
fn parts_without_equals_sign_are_ignored() {
    let uri = format!("magnet:?flag&&xt=urn:btih:{}&dn=a=b", HASH);
    let parsed = MagnetLink::parse(&uri).unwrap();
    assert_eq!(parsed.info_hash(), HASH);
    assert_eq!(parsed.display_name, Some("a=b".to_string()));
    assert_eq!(parsed.params.get("flag"), None);
}

#[test]
fn last_info_hash_counts() {
    let other = "0000000000000000000000000000000000000000";
    let uri = format!("magnet:?xt=urn:btih:{}&xt=urn:btih:{}&xt=urn:sha1:x", HASH, other);
    assert_eq!(MagnetLink::parse(&uri).unwrap().info_hash(), other);
}

#[test]
fn prefix_of_the_info_hash_may_be_repeated() {
    let uri = format!("magnet:?xt=urn:btih:urn:btih:{}", HASH);
    assert_eq!(MagnetLink::parse(&uri).unwrap().info_hash(), HASH);
}

#[test]
fn short_link_gives_the_info_hash() {
    let parsed = MagnetLink::parse(&format!("magnet:?xt=urn:btih:{}", HASH)).unwrap();
    assert_eq!(parsed.info_hash(), HASH);
    assert_eq!(parsed.info_hash().len(), 40);
    assert!(parsed.trackers.is_empty());
    assert_eq!(parsed.name(), format!("torrent-{}", HASH));
}

#[test]
fn name_is_the_display_name() {
    let uri = format!("magnet:?dn=My%20File&xt=urn:btih:{}", HASH);
    assert_eq!(MagnetLink::parse(&uri).unwrap().name(), "My File");
}

#[test]
fn errors_of_links() {
    assert_eq!(parse_error("magnet:xt=urn:btih:"), "Invalid magnet link format");
    assert_eq!(parse_error("magnet:?xt=urn:btih:abc"), "Invalid info hash length");
    assert_eq!(parse_error("magnet:?dn=abc"), "Missing or invalid info hash");
    assert_eq!(parse_error("magnet:?"), "Missing or invalid info hash");
    assert_eq!(
        parse_error(&format!("magnet:?xt=urn:sha1:{}", HASH)),
        "Missing or invalid info hash"
    );
    // The length is counted in bytes.
    assert_eq!(
        parse_error("magnet:?xt=urn:btih:éééééééééééééééééééééééééééééééééééééééé"),
        "Invalid info hash length"
    );
}

fn escape(s: &str) -> String {
    s.chars()
        .map(|c| {
            if (c as u32) < 256 {
                format!("%{:02X}", c as u32)
            } else {
                c.to_string()
            }
        })
        .collect()
}

#[test]
fn escaped_text_is_read_back() {
    for text in ["", "a b", "100% + more & more = \u{ff}", "日本語%20"] {
        assert_eq!(percent_decode(&escape(text)), text);
    }
}

#[test]
fn link_gives_its_parts() {
    let name = "Füße & 100% + 日本";
    let trackers = ["udp://a:1/?x=1&y=2", "http://b/+"];
    let uri = format!(
        "magnet:?xt=urn:btih:{}&dn={}&tr={}&tr={}",
        HASH,
        escape(name),
        escape(trackers[0]),
        escape(trackers[1])
    );
    let parsed = MagnetLink::parse(&uri).unwrap();
    assert_eq!(parsed.info_hash, HASH);
    assert_eq!(parsed.display_name.as_deref(), Some(name));
    assert_eq!(parsed.trackers, trackers);
}

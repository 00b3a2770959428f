use bytes::Bytes;
use sha1::{Digest, Sha1};
use sweet_magnet::bencode::{encode, Bencode};
use sweet_magnet::fetch::{
    check_handshake_response, extended_handshake, extended_message, extension_handshake,
    metadata_requests, FetchError, FetchSession, FetchStage, FetchStep, MetadataFetch,
};

fn handshake(size: Option<i64>, id: Option<i64>) -> Vec<u8> {
    let mut dict = Bencode::dict();
    if let Some(size) = size {
        dict = dict.with("metadata_size", Bencode::Int(size));
    }
    if let Some(id) = id {
        dict = dict.with("m", Bencode::dict().with("ut_metadata", Bencode::Int(id)));
    }
    encode(&dict)
}

fn message(kind: i64, piece: i64, data: &[u8]) -> Vec<u8> {
    let dict = Bencode::dict()
        .with("msg_type", Bencode::Int(kind))
        .with("piece", Bencode::Int(piece));
    let mut bytes = encode(&dict);
    bytes.extend_from_slice(data);
    bytes
}

fn fetch_of(metadata: &[u8]) -> MetadataFetch {
    let hash: [u8; 20] = Sha1::digest(metadata).into();
    let mut fetch = MetadataFetch::new(hash);
    let step = fetch.handle_extended(0, &handshake(Some(metadata.len() as i64), Some(3)));
    assert!(matches!(step, FetchStep::Send(_)));
    fetch
}

#[test]
fn handshake_offers_extensions() {
    let bytes = extension_handshake(&[1; 20], &[2; 20]);
    assert_eq!(bytes.len(), 68);
    assert_eq!(&bytes[20..28], &[0, 0, 0, 0, 0, 0x10, 0, 0]);
    assert_eq!(&bytes[28..48], &[1; 20]);
    assert_eq!(check_handshake_response(&bytes, &[1; 20]), Ok(()));
    assert_eq!(
        check_handshake_response(&bytes, &[3; 20]),
        Err(FetchError::InfoHashMismatch)
    );
    assert_eq!(
        check_handshake_response(&[0; 68], &[0; 20]),
        Err(FetchError::NoExtensions)
    );
}

#[test]
fn extended_handshake_has_its_bytes() {
    let bytes = extended_handshake().unwrap();
    let payload = "d1:md11:ut_metadatai1ee13:metadata_sizei0ee";
    assert_eq!(bytes, extended_message(0, payload.as_bytes()));
    assert_eq!(&bytes[..6], &[0, 0, 0, 2 + payload.len() as u8, 20, 0]);
    assert_eq!(&bytes[6..], payload.as_bytes());
}

#[test]
fn all_pieces_are_asked_for() {
    let requests = metadata_requests(3, 16385).unwrap();
    assert_eq!(requests.len(), 2);
    let payload = "d8:msg_typei0e5:piecei1ee";
    assert_eq!(requests[1], extended_message(3, payload.as_bytes()));
    assert_eq!(metadata_requests(3, 16384).unwrap().len(), 1);
}

#[test]
fn metadata_in_one_piece_is_fetched() {
    let mut fetch = fetch_of("metadata".as_bytes());
    match fetch.handle_extended(3, &message(1, 0, "metadata".as_bytes())) {
        FetchStep::Done(bytes) => assert_eq!(bytes, "metadata".as_bytes()),
        other => panic!("unexpected: {:?}", other),
    }
}

#[test]
fn pieces_come_under_the_announced_id() {
    let mut fetch = fetch_of("metadata".as_bytes());
    assert_eq!(fetch.ut_metadata_id, 3);
    match fetch.handle_extended(1, &message(1, 0, "metadata".as_bytes())) {
        FetchStep::Done(bytes) => assert_eq!(bytes, "metadata".as_bytes()),
        other => panic!("unexpected: {:?}", other),
    }
    let metadata: Vec<u8> = (0..20000).map(|i| (i % 251) as u8).collect();
    let mut fetch = fetch_of(&metadata);
    let step = fetch.handle_extended(1, &message(1, 0, &metadata[..16384]));
    assert!(matches!(step, FetchStep::Wait));
    match fetch.handle_extended(1, &message(1, 1, &metadata[16384..])) {
        FetchStep::Done(bytes) => assert_eq!(bytes, metadata),
        other => panic!("unexpected: {:?}", other),
    }
}

#[test]
fn pieces_are_put_together_in_any_order() {
    let metadata: Vec<u8> = (0..20000).map(|i| (i % 251) as u8).collect();
    let mut fetch = fetch_of(&metadata);
    let step = fetch.handle_extended(3, &message(1, 1, &metadata[16384..]));
    assert!(matches!(step, FetchStep::Wait));
    match fetch.handle_extended(3, &message(1, 0, &metadata[..16384])) {
        FetchStep::Done(bytes) => assert_eq!(bytes, metadata),
        other => panic!("unexpected: {:?}", other),
    }
}

#[test]
fn wrong_metadata_is_refused() {
    let mut fetch = fetch_of("metadata".as_bytes());
    let step = fetch.handle_extended(3, &message(1, 0, "metadatA".as_bytes()));
    assert!(matches!(step, FetchStep::Fail(FetchError::MetadataMismatch)));
}

#[test]
fn other_pieces_are_refused() {
    let mut fetch = fetch_of("metadata".as_bytes());
    let step = fetch.handle_extended(3, &message(1, 5, "metadata".as_bytes()));
    assert!(matches!(step, FetchStep::Fail(FetchError::MissingPiece(0))));
}

#[test]
fn other_messages_are_ignored() {
    let mut fetch = fetch_of("metadata".as_bytes());
    let waits = |step: FetchStep| assert!(matches!(step, FetchStep::Wait));
    waits(fetch.handle_extended(3, &message(2, 0, &[])));
    waits(fetch.handle_extended(3, &message(0, 0, &[])));
    waits(fetch.handle_extended(3, "garbage".as_bytes()));
    waits(fetch.handle_extended(3, &encode(&Bencode::dict().with("piece", Bencode::Int(0)))));
    waits(fetch.handle_extended(3, &encode(&Bencode::dict().with("msg_type", Bencode::Int(1)))));
    waits(fetch.handle_extended(4, &message(1, 0, "metadata".as_bytes())));
    waits(fetch.handle_extended(0, "i5e".as_bytes()));
    waits(fetch.handle_extended(0, "x".as_bytes()));
    assert!(fetch.pieces.is_empty());
}

#[test]
fn size_and_id_may_come_apart() {
    let mut fetch = MetadataFetch::new([0; 20]);
    assert!(matches!(fetch.handle_extended(0, &handshake(None, Some(2))), FetchStep::Wait));
    assert!(matches!(fetch.handle_extended(2, &message(1, 0, &[1])), FetchStep::Wait));
    match fetch.handle_extended(0, &handshake(Some(40000), None)) {
        FetchStep::Send(requests) => {
            let third: Bytes = extended_message(2, "d8:msg_typei0e5:piecei2ee".as_bytes());
            assert_eq!(requests.len(), 3);
            assert_eq!(requests[2], third);
        }
        other => panic!("unexpected: {:?}", other),
    }
    assert_eq!((fetch.metadata_size, fetch.ut_metadata_id), (40000, 2));
}

#[test]
fn size_out_of_range_is_refused() {
    let fails = |size: i64| {
        let mut fetch = MetadataFetch::new([0; 20]);
        match fetch.handle_extended(0, &handshake(Some(size), Some(1))) {
            FetchStep::Fail(e) => e,
            other => panic!("unexpected: {:?}", other),
        }
    };
    assert_eq!(fails(0), FetchError::InvalidSize(0));
    assert_eq!(fails(10_485_761), FetchError::InvalidSize(10_485_761));
    assert_eq!(fails(-1), FetchError::InvalidSize(usize::MAX));
    let mut fetch = MetadataFetch::new([0; 20]);
    let step = fetch.handle_extended(0, &handshake(Some(10_485_760), Some(1)));
    assert!(matches!(step, FetchStep::Send(requests) if requests.len() == 640));
}

fn say(session: &mut FetchSession, bytes: &[u8]) -> FetchStep {
    let mut at = 0;
    let mut step = FetchStep::Wait;
    while at < bytes.len() {
        let n = session.wanted();
        step = session.take(&bytes[at..at + n]);
        at += n;
    }
    step
}

#[test]
fn session_fetches_metadata() {
    let hash: [u8; 20] = Sha1::digest("metadata").into();
    let (mut session, first) = FetchSession::start(hash, [2; 20]);
    assert_eq!(first, extension_handshake(&hash, &[2; 20]));
    assert_eq!((session.wanted(), session.is_between_messages()), (68, false));
    match session.take(&extension_handshake(&hash, &[3; 20])) {
        FetchStep::Send(messages) => assert_eq!(messages, vec![extended_handshake().unwrap()]),
        other => panic!("unexpected: {:?}", other),
    }
    assert!(session.is_between_messages());
    // A keep-alive, a have message, a choke.
    let other = [0, 0, 0, 0, 0, 0, 0, 5, 4, 0, 0, 0, 1, 0, 0, 0, 1, 0];
    assert!(matches!(say(&mut session, &other), FetchStep::Wait));
    session.take(&[]);
    let offer = extended_message(0, &handshake(Some(8), Some(3)));
    match say(&mut session, &offer) {
        FetchStep::Send(messages) => assert_eq!(messages, metadata_requests(3, 8).unwrap()),
        other => panic!("unexpected: {:?}", other),
    }
    let answer = extended_message(1, &message(1, 0, "metadata".as_bytes()));
    match say(&mut session, &answer) {
        FetchStep::Done(bytes) => assert_eq!(bytes, "metadata".as_bytes()),
        other => panic!("unexpected: {:?}", other),
    }
}

#[test]
fn session_reads_message_by_message() {
    let (mut session, _) = FetchSession::start([0; 20], [0; 20]);
    assert_eq!(session.failure_text(), "Handshake response timed out");
    session.take(&extension_handshake(&[0; 20], &[1; 20]));
    assert_eq!(session.stage, FetchStage::Length);
    assert_eq!(session.failure_text(), "Failed to read message length");
    session.take(&[0, 0, 0, 10]);
    assert_eq!(session.stage, FetchStage::Id(10));
    assert_eq!(session.failure_text(), "Failed to read message ID");
    session.take(&[20]);
    assert_eq!(session.stage, FetchStage::ExtendedId(8));
    assert_eq!(session.failure_text(), "Failed to read extended message ID");
    session.take(&[7]);
    assert_eq!(session.stage, FetchStage::Payload(7, 8));
    assert_eq!(session.failure_text(), "Failed to read extended message payload");
    session.take(&[0; 8]);
    session.take(&[0, 0, 0, 10]);
    session.take(&[5]);
    assert_eq!(session.stage, FetchStage::Skipped(9));
    assert_eq!(session.failure_text(), "Failed to read message payload");
}

#[test]
fn session_fails_at_the_handshake() {
    let (mut session, _) = FetchSession::start([1; 20], [0; 20]);
    let step = session.take(&[0; 68]);
    assert!(matches!(step, FetchStep::Fail(FetchError::NoExtensions)));
    let step = session.take(&extension_handshake(&[9; 20], &[1; 20]));
    assert!(matches!(step, FetchStep::Fail(FetchError::InfoHashMismatch)));
}

#[test]
fn no_metadata_without_a_handshake() {
    let hash: [u8; 20] = Sha1::digest("metadata").into();
    let mut conversation = extended_message(0, &handshake(Some(8), Some(3))).to_vec();
    conversation.extend(&extended_message(1, &message(1, 0, "metadata".as_bytes())));
    let run = |response: &[u8]| {
        let (mut session, _) = FetchSession::start(hash, [2; 20]);
        match session.take(response) {
            FetchStep::Send(_) => say(&mut session, &conversation),
            other => other,
        }
    };
    let accepted = extension_handshake(&hash, &[3; 20]);
    assert!(matches!(run(&accepted), FetchStep::Done(_)));
    let mut plain = accepted.to_vec();
    plain[25] = 0;
    assert!(matches!(run(&plain), FetchStep::Fail(FetchError::NoExtensions)));
    let other = extension_handshake(&[7; 20], &[3; 20]);
    assert!(matches!(run(&other), FetchStep::Fail(FetchError::InfoHashMismatch)));
}

#[test]
fn texts_of_fetch_errors() {
    assert_eq!(
        FetchError::NoExtensions.message(),
        "Peer does not support extended messaging protocol"
    );
    assert_eq!(
        FetchError::InfoHashMismatch.message(),
        "Info hash mismatch in handshake response"
    );
    assert_eq!(
        FetchError::HandshakeTooLong.message(),
        "Failed to encode extended handshake"
    );
    assert_eq!(
        FetchError::RequestTooLong.message(),
        "Failed to encode metadata request"
    );
    assert_eq!(FetchError::InvalidSize(7).message(), "Invalid metadata size: 7");
    assert_eq!(FetchError::MissingPiece(12).message(), "Missing metadata piece 12");
    assert_eq!(FetchError::MetadataMismatch.message(), "Metadata info hash mismatch");
    assert_eq!(
        FetchError::NotFetched.message(),
        "Failed to fetch metadata from peer"
    );
}

use bytes::Bytes;
use sweet_magnet::address::{IpAddr, SocketAddr};
use sweet_magnet::clock::Clock;
use sweet_magnet::message::Message;
use sweet_magnet::peer::{
    connect_event, read_event, ConnectOutcome, Incoming, Peer, PeerConnection, PeerError,
    PeerEvent, ReadOutcome,
};

const ADDR: SocketAddr = SocketAddr { ip: IpAddr::V4(0x7f00_0001), port: 6881 };

fn connection() -> PeerConnection {
    PeerConnection::new(ADDR, [1; 20], [2; 20], 10, 5)
}

#[test]
fn new_peer_is_choked() {
    let peer = Peer::new(ADDR, &Clock::start());
    assert_eq!(peer.id, None);
    assert_eq!(peer.addr, ADDR);
    assert!(peer.choked && peer.am_choking && !peer.interested && !peer.am_interested);
    assert!(!peer.has_piece(0));
    assert_eq!(Peer::seen_at(ADDR, 9).last_seen, 9);
}

#[test]
fn bitfield_is_read_from_the_most_significant_bit() {
    let mut peer = Peer::seen_at(ADDR, 0);
    peer.update_bitfield(&[0b1010_0001, 0b0100_0000], 18);
    let have: Vec<usize> = (0..20).filter(|i| peer.has_piece(*i)).collect();
    assert_eq!(have, vec![0, 2, 7, 9]);
    assert_eq!(peer.pieces.len(), 18);
}

#[test]
fn have_adds_one_piece() {
    let mut peer = Peer::seen_at(ADDR, 0);
    peer.update_bitfield(&[0b1000_0000], 3);
    peer.received_have(5);
    peer.received_have(1);
    let have: Vec<usize> = (0..9).filter(|i| peer.has_piece(*i)).collect();
    assert_eq!(have, vec![0, 1, 5]);
    assert_eq!(peer.pieces.len(), 6);
}

#[test]
fn handshake_is_checked() {
    let mut c = connection();
    let m = c.handshake();
    assert_eq!(m.write_to(), Message::new_handshake(&[1; 20], &[2; 20]).write_to());
    let answer = Message::new_handshake(&[1; 20], &[7; 20]);
    assert_eq!(c.finish_handshake(answer.write_to()), Ok(()));
    assert_eq!(c.peer.id, Some([7; 20]));
    let other = Message::new_handshake(&[9; 20], &[7; 20]);
    assert_eq!(c.finish_handshake(other.write_to()), Err(PeerError::InfoHashMismatch));
    let mut wrong = answer.write_to().to_vec();
    wrong[3] = 0;
    assert_eq!(c.finish_handshake(&wrong), Err(PeerError::InvalidHandshake));
}

#[test]
fn messages_change_what_is_known_of_the_peer() {
    let mut c = connection();
    assert!(matches!(c.handle_message(&[1]), Ok(Some(PeerEvent::Unchoke(ADDR)))));
    assert!(!c.peer.choked);
    assert!(matches!(c.handle_message(&[0]), Ok(Some(PeerEvent::Choke(ADDR)))));
    assert!(c.peer.choked);
    assert!(matches!(c.handle_message(&[2]), Ok(Some(PeerEvent::Interested(ADDR)))));
    assert!(c.peer.interested);
    assert!(matches!(c.handle_message(&[3]), Ok(Some(PeerEvent::NotInterested(ADDR)))));
    assert!(!c.peer.interested);
    assert!(matches!(c.handle_message(&[]), Ok(None)));
    assert!(matches!(c.handle_message(&[6, 1, 2, 3]), Ok(None)));
    assert!(matches!(c.handle_message(&[8]), Ok(None)));
    assert!(matches!(c.handle_message(&[77]), Ok(None)));
}

#[test]
fn messages_of_the_other_side_arrive() {
    let mut c = connection();
    let have = Message::new_have(3);
    match c.handle_message(&have.write_to()[4..]) {
        Ok(Some(PeerEvent::Have(ADDR, 3))) => {}
        other => panic!("unexpected: {:?}", other),
    }
    assert!(c.peer.has_piece(3));
    let bits = Message::new_bitfield(&[0b0100_0000]);
    match c.handle_message(&bits.write_to()[4..]) {
        Ok(Some(PeerEvent::Bitfield(ADDR, pieces))) => {
            assert_eq!(pieces.len(), 10);
            assert!(pieces[1] && !pieces[3]);
        }
        other => panic!("unexpected: {:?}", other),
    }
    let piece = Message::new_piece(4, 16384, &[1, 2, 3]);
    match c.handle_message(&piece.write_to()[4..]) {
        Ok(Some(PeerEvent::BlockReceived(ADDR, 4, 16384, data))) => {
            assert_eq!(data, Bytes::from(vec![1, 2, 3]));
        }
        other => panic!("unexpected: {:?}", other),
    }
}

#[test]
fn short_messages_are_errors() {
    let mut c = connection();
    assert_eq!(c.handle_message(&[4, 0, 0, 0]).unwrap_err(), PeerError::InvalidHave);
    assert_eq!(c.handle_message(&[5]).unwrap_err(), PeerError::InvalidBitfield);
    assert_eq!(c.handle_message(&[7, 0, 0, 0, 0, 0, 0, 0]).unwrap_err(), PeerError::InvalidPiece);
}

#[test]
fn choked_peer_takes_no_requests() {
    let mut c = connection();
    assert_eq!(c.request_block(1, 2, 3).unwrap_err(), PeerError::Choked);
    c.handle_message(&[1]).unwrap();
    let request = c.request_block(1, 2, 3).unwrap();
    assert_eq!(request.get_request_details(), Some((1, 2, 3)));
    assert_eq!(c.send_interested().write_to(), &[0, 0, 0, 1, 2]);
    assert!(c.peer.am_interested);
    assert_eq!(c.send_keep_alive().write_to(), &[0, 0, 0, 0]);
    c.seen(42);
    assert_eq!(c.peer.last_seen, 42);
}

#[test]
fn length_zero_is_a_keepalive() {
    assert_eq!(PeerConnection::incoming(0), Incoming::KeepAlive);
    assert_eq!(PeerConnection::incoming(5), Incoming::Body(5));
    assert_eq!(PeerConnection::DEFAULT_BLOCK_SIZE, 16384);
    assert_eq!(PeerConnection::MAX_BLOCK_SIZE, 32768);
}

#[test]
fn events_of_connections() {
    assert!(matches!(
        connect_event(ADDR, ConnectOutcome::Connected),
        PeerEvent::Connected(ADDR)
    ));
    match connect_event(ADDR, ConnectOutcome::TimedOut) {
        PeerEvent::Disconnected(ADDR, Some(reason)) => assert_eq!(reason, "Connection timeout"),
        other => panic!("unexpected: {:?}", other),
    }
    match connect_event(ADDR, ConnectOutcome::Failed("no".to_string())) {
        PeerEvent::Disconnected(ADDR, Some(reason)) => assert_eq!(reason, "no"),
        other => panic!("unexpected: {:?}", other),
    }
    assert!(matches!(
        read_event(ADDR, ReadOutcome::Closed),
        Some(PeerEvent::Disconnected(ADDR, None))
    ));
    assert!(read_event(ADDR, ReadOutcome::Received).is_none());
    assert!(matches!(
        read_event(ADDR, ReadOutcome::Failed("x".to_string())),
        Some(PeerEvent::Disconnected(ADDR, Some(_)))
    ));
}

#[test]
fn texts_of_peer_errors() {
    assert_eq!(PeerError::InvalidHandshake.message(), "Invalid handshake response");
    assert_eq!(PeerError::InfoHashMismatch.message(), "Info hash mismatch in handshake");
    assert_eq!(PeerError::InvalidHave.message(), "Invalid 'have' message");
    assert_eq!(PeerError::InvalidBitfield.message(), "Invalid 'bitfield' message");
    assert_eq!(PeerError::InvalidPiece.message(), "Invalid 'piece' message");
    assert_eq!(PeerError::Choked.message(), "Cannot request block - we are choked");
}

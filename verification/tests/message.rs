use bytes::Bytes;
use sweet_magnet::message::{Message, MessageError, MessageType};

fn round_trip(m: &Message) -> Message {
    Message::parse(m.write_to()).unwrap()
}

#[test]
fn handshake_has_its_layout() {
    let m = Message::new_handshake(&[1u8; 20], &[2u8; 20]);
    let bytes = m.write_to();
    assert_eq!(bytes.len(), 68);
    assert_eq!(bytes[0], 19);
    assert_eq!(&bytes[1..20], "BitTorrent protocol".as_bytes());
    assert_eq!(&bytes[20..28], &[0u8; 8]);
    assert_eq!(&bytes[28..48], &[1u8; 20]);
    assert_eq!(&bytes[48..68], &[2u8; 20]);
    let back = round_trip(&m);
    assert_eq!(back.message_type, MessageType::Handshake);
    assert_eq!(back.payload, m.payload);
}

#[test]
fn simple_messages_have_their_bytes() {
    assert_eq!(Message::new_keepalive().write_to(), &[0, 0, 0, 0]);
    assert_eq!(Message::new_choke().write_to(), &[0, 0, 0, 1, 0]);
    assert_eq!(Message::new_unchoke().write_to(), &[0, 0, 0, 1, 1]);
    assert_eq!(Message::new_interested().write_to(), &[0, 0, 0, 1, 2]);
    assert_eq!(Message::new_not_interested().write_to(), &[0, 0, 0, 1, 3]);
    assert_eq!(Message::new_have(258).write_to(), &[0, 0, 0, 5, 4, 0, 0, 1, 2]);
    assert_eq!(
        Message::new_cancel(1, 2, 3).write_to(),
        &[0, 0, 0, 13, 8, 0, 0, 0, 1, 0, 0, 0, 2, 0, 0, 0, 3]
    );
}

#[test]
fn have_carries_the_index() {
    let back = round_trip(&Message::new_have(70000));
    assert_eq!(back.message_type, MessageType::Have);
    assert_eq!(back.get_have_piece_index(), Some(70000));
    assert_eq!(back.get_bitfield(), None);
    assert_eq!(back.get_request_details(), None);
}

#[test]
fn bitfield_carries_the_bits() {
    let back = round_trip(&Message::new_bitfield(&[0xa0, 0x01]));
    assert_eq!(back.message_type, MessageType::Bitfield);
    assert_eq!(back.get_bitfield(), Some(Bytes::from(vec![0xa0, 0x01])));
    assert_eq!(back.get_have_piece_index(), None);
}

#[test]
fn request_carries_its_details() {
    let back = round_trip(&Message::new_request(7, 16384, 100));
    assert_eq!(back.message_type, MessageType::Request);
    assert_eq!(back.get_request_details(), Some((7, 16384, 100)));
}

#[test]
fn piece_carries_the_block() {
    let m = Message::new_piece(5, 6, &[9, 8, 7]);
    assert_eq!(
        m.write_to(),
        &[0, 0, 0, 12, 7, 0, 0, 0, 5, 0, 0, 0, 6, 9, 8, 7]
    );
    let (index, begin, block) = round_trip(&m).get_piece_data().unwrap();
    assert_eq!((index, begin), (5, 6));
    assert_eq!(block, Bytes::from(vec![9, 8, 7]));
}

#[test]
fn four_zero_bytes_are_a_keepalive() {
    let m = Message::parse(&[0, 0, 0, 0]).unwrap();
    assert_eq!(m.message_type, MessageType::KeepAlive);
    assert!(m.payload.is_empty());
    let m = Message::parse(Message::new_keepalive().write_to()).unwrap();
    assert_eq!(m.message_type, MessageType::KeepAlive);
}

#[test]
fn errors_of_messages() {
    assert_eq!(Message::parse(&[0, 0, 0]).unwrap_err(), MessageError::TooShort);
    assert_eq!(
        Message::parse(&[0, 0, 0, 5, 4, 0]).unwrap_err(),
        MessageError::Incomplete
    );
    let unknown = Message::parse(&[0, 0, 0, 1, 99]).unwrap_err();
    assert_eq!(unknown, MessageError::UnknownId(99));
    assert_eq!(unknown.message(), "Unknown message ID: 99");
    assert_eq!(MessageError::TooShort.message(), "Message too short");
    assert_eq!(MessageError::Incomplete.message(), "Incomplete message");
}

#[test]
fn cloned_message_has_the_same_bytes() {
    let m = Message::new_have(1);
    let copy = m.clone();
    assert_eq!(copy.message_type, m.message_type);
    assert_eq!(copy.payload, m.payload);
}

//! BitTorrent protocol messages.
use crate::text::{decimal, decimal_text};
use crate::wire::{
    as_slice, be, be_value, buffer_with_capacity, byte_range, contents, copy_from_slice, freeze,
    lemma_be_len, lemma_be_value_of_be, lemma_byte_range, no_bytes, put_bytes, put_slice,
    put_u32, put_u8, same_bytes, u32_at, written,
};
use bytes::Bytes;
use vstd::prelude::*;
use vstd::string::*;

verus! {

/// BitTorrent message types
#[derive(Debug, Clone, Copy, PartialEq, Eq, Structural)]
pub enum MessageType {
    Choke,
    Unchoke,
    Interested,
    NotInterested,
    Have,
    Bitfield,
    Request,
    Piece,
    Cancel,
    Port,
    Handshake,
    KeepAlive,
}

/// BitTorrent protocol message
#[derive(Debug)]
pub struct Message {
    pub message_type: MessageType,
    pub payload: Bytes,
}

impl Clone for Message {
    fn clone(&self) -> (m: Self)
        ensures
            m.message_type == self.message_type,
            contents(m.payload) == contents(self.payload),
    {
        Message { message_type: self.message_type, payload: self.payload.clone() }
    }
}

/// Why bytes are not a message.
#[derive(Debug, Clone, Copy, PartialEq, Eq, Structural)]
pub enum MessageError {
    /// There is no length prefix.
    TooShort,
    /// The length prefix announces more than there is.
    Incomplete,
    /// No message has this ID.
    UnknownId(u8),
}

impl MessageError {
    /// What is said of the error.
    pub open spec fn text(self) -> Seq<char> {
        match self {
            MessageError::TooShort => "Message too short"@,
            MessageError::Incomplete => "Incomplete message"@,
            MessageError::UnknownId(id) => "Unknown message ID: "@ + decimal(id as nat),
        }
    }

    /// The error in words
    pub fn message(&self) -> (s: String)
        ensures
            s@ == self.text(),
    {
        match self {
            MessageError::TooShort => "Message too short".to_string(),
            MessageError::Incomplete => "Incomplete message".to_string(),
            MessageError::UnknownId(id) => {
                let mut s = "Unknown message ID: ".to_string();
                s.append(decimal_text(*id as u64).as_str());
                s
            },
        }
    }
}

/// The name that a handshake starts with: "BitTorrent protocol".
pub open spec fn protocol_name() -> Seq<u8> {
    seq![
        66u8, 105u8, 116u8, 84u8, 111u8, 114u8, 114u8, 101u8, 110u8, 116u8,
        32u8, 112u8, 114u8, 111u8, 116u8, 111u8, 99u8, 111u8, 108u8,
    ]
}

/// "BitTorrent protocol" in bytes.
pub(crate) fn protocol_name_bytes() -> (name: [u8; 19])
    ensures
        name@ == protocol_name(),
{
    let name: [u8; 19] = [
        66, 105, 116, 84, 111, 114, 114, 101, 110, 116,
        32, 112, 114, 111, 116, 111, 99, 111, 108,
    ];
    proof {
        assert(name@ =~= protocol_name());
    }
    name
}

/// The bytes of a handshake with the given reserved bytes: the length of the
/// protocol name, the name, the reserved bytes, the info hash and the peer ID.
pub open spec fn handshake_bytes(
    reserved: Seq<u8>,
    info_hash: Seq<u8>,
    peer_id: Seq<u8>,
) -> Seq<u8> {
    seq![19u8] + protocol_name() + reserved + info_hash + peer_id
}

/// The bytes of any other message: the length of what follows in four bytes,
/// the message ID, the body.
pub open spec fn frame(id: u8, body: Seq<u8>) -> Seq<u8> {
    be(1 + body.len(), 4) + seq![id] + body
}

/// The bytes of a keep-alive: a length of zero.
pub open spec fn keepalive_bytes() -> Seq<u8> {
    seq![0u8, 0u8, 0u8, 0u8]
}

/// The four bytes of zero.
proof fn lemma_keepalive_bytes()
    ensures
        be(0, 4) == keepalive_bytes(),
{
    reveal_with_fuel(be, 5);
    assert(be(0, 4) =~= keepalive_bytes());
}

/// The message type that an ID stands for.
pub open spec fn type_of_id(id: u8) -> Option<MessageType> {
    if id == 0 {
        Some(MessageType::Choke)
    } else if id == 1 {
        Some(MessageType::Unchoke)
    } else if id == 2 {
        Some(MessageType::Interested)
    } else if id == 3 {
        Some(MessageType::NotInterested)
    } else if id == 4 {
        Some(MessageType::Have)
    } else if id == 5 {
        Some(MessageType::Bitfield)
    } else if id == 6 {
        Some(MessageType::Request)
    } else if id == 7 {
        Some(MessageType::Piece)
    } else if id == 8 {
        Some(MessageType::Cancel)
    } else if id == 9 {
        Some(MessageType::Port)
    } else {
        None
    }
}

/// The bytes start as a handshake does, and are long enough for one.
pub open spec fn is_handshake(bytes: Seq<u8>) -> bool {
    bytes.len() >= 68 && bytes[0] == 19 && bytes.subrange(1, 20) == protocol_name()
}

/// What a message in bytes is: its type and its payload.
pub open spec fn parsed(bytes: Seq<u8>) -> Result<(MessageType, Seq<u8>), MessageError> {
    if bytes.len() < 4 {
        Err(MessageError::TooShort)
    } else if is_handshake(bytes) {
        Ok((MessageType::Handshake, bytes))
    } else if be_value(bytes.subrange(0, 4)) == 0 {
        Ok((MessageType::KeepAlive, Seq::empty()))
    } else if bytes.len() < 4 + be_value(bytes.subrange(0, 4)) {
        Err(MessageError::Incomplete)
    } else {
        match type_of_id(bytes[4]) {
            Some(t) => Ok((t, bytes)),
            None => Err(MessageError::UnknownId(bytes[4])),
        }
    }
}

/// The piece index in a 'have' message.
pub open spec fn have_piece_index(t: MessageType, payload: Seq<u8>) -> Option<nat> {
    if t == MessageType::Have && payload.len() >= 9 {
        Some(be_value(payload.subrange(5, 9)))
    } else {
        None
    }
}

/// The bits in a 'bitfield' message.
pub open spec fn bitfield(t: MessageType, payload: Seq<u8>) -> Option<Seq<u8>> {
    if t == MessageType::Bitfield && payload.len() > 5 {
        Some(payload.skip(5))
    } else {
        None
    }
}

/// Index, begin and block in a 'piece' message.
pub open spec fn piece_data(t: MessageType, payload: Seq<u8>) -> Option<(nat, nat, Seq<u8>)> {
    if t == MessageType::Piece && payload.len() >= 13 {
        Some(
            (
                be_value(payload.subrange(5, 9)),
                be_value(payload.subrange(9, 13)),
                payload.skip(13),
            ),
        )
    } else {
        None
    }
}

/// Index, begin and length in a 'request' message.
pub open spec fn request_details(t: MessageType, payload: Seq<u8>) -> Option<(nat, nat, nat)> {
    if t == MessageType::Request && payload.len() >= 17 {
        Some(
            (
                be_value(payload.subrange(5, 9)),
                be_value(payload.subrange(9, 13)),
                be_value(payload.subrange(13, 17)),
            ),
        )
    } else {
        None
    }
}

/// The low bytes of a number do not change with its multiples of the range.
proof fn lemma_be_wraps(n: nat, width: nat)
    ensures
        be(n % byte_range(width), width) == be(n, width),
        byte_range(width) > 0,
    decreases width,
{
    if width > 0 {
        let r = byte_range((width - 1) as nat);
        lemma_be_wraps(n / 256, (width - 1) as nat);
        lemma_be_wraps((n % (256 * r)) / 256, (width - 1) as nat);
        vstd::arithmetic::div_mod::lemma_mod_breakdown(n as int, 256, r as int);
        assert(n % (256 * r) == 256 * ((n / 256) % r) + n % 256);
        assert((n % (256 * r)) / 256 == (n / 256) % r);
        assert((n % (256 * r)) % 256 == n % 256);
    }
}

/// The length prefix that is computed from the low bytes of a length.
proof fn lemma_prefix(head: nat, len: usize, low: u32)
    requires
        low == len as u32,
        head + low <= u32::MAX,
    ensures
        be(head + low as nat, 4) == be(head + len as nat, 4),
{
    lemma_byte_range();
    assert(low == len as nat % 0x1_0000_0000) by {
        let wide: u64 = len as u64;
        assert((wide as u32) == wide % 0x1_0000_0000) by (bit_vector);
    }
    let n = (head + len as nat) as nat;
    lemma_be_wraps(n, 4);
    let q = len as nat / 0x1_0000_0000;
    assert(n == q * 0x1_0000_0000 + (head + low));
    vstd::arithmetic::div_mod::lemma_fundamental_div_mod_converse(
        n as int,
        0x1_0000_0000,
        q as int,
        (head + low) as int,
    );
}

impl Message {
    const CHOKE: u8 = 0;

    const UNCHOKE: u8 = 1;

    const INTERESTED: u8 = 2;

    const NOT_INTERESTED: u8 = 3;

    const HAVE: u8 = 4;

    const BITFIELD: u8 = 5;

    const REQUEST: u8 = 6;

    const PIECE: u8 = 7;

    const CANCEL: u8 = 8;

    /// Create a new handshake message
    pub fn new_handshake(info_hash: &[u8; 20], peer_id: &[u8; 20]) -> (m: Self)
        ensures
            m.message_type == MessageType::Handshake,
            contents(m.payload) == handshake_bytes(
                Seq::new(8, |i: int| 0u8),
                info_hash@,
                peer_id@,
            ),
    {
        let mut payload = buffer_with_capacity(68);
        put_u8(&mut payload, 19);
        let name = protocol_name_bytes();
        put_slice(&mut payload, name.as_slice());
        put_bytes(&mut payload, 0, 8);
        put_slice(&mut payload, info_hash.as_slice());
        put_slice(&mut payload, peer_id.as_slice());
        proof {
            assert(written(payload) =~= handshake_bytes(
                Seq::new(8, |i: int| 0u8),
                info_hash@,
                peer_id@,
            ));
        }
        Message { message_type: MessageType::Handshake, payload: freeze(payload) }
    }

    /// Create a new keepalive message: a length of zero, and nothing else
    pub fn new_keepalive() -> (m: Self)
        ensures
            m.message_type == MessageType::KeepAlive,
            contents(m.payload) == keepalive_bytes(),
    {
        let mut payload = buffer_with_capacity(4);
        put_u32(&mut payload, 0);
        proof {
            lemma_keepalive_bytes();
            assert(written(payload) =~= be(0, 4));
        }
        Message { message_type: MessageType::KeepAlive, payload: freeze(payload) }
    }

    /// A message without a body.
    fn bare(message_type: MessageType, id: u8) -> (m: Self)
        ensures
            m.message_type == message_type,
            contents(m.payload) == frame(id, Seq::empty()),
    {
        let mut payload = buffer_with_capacity(5);
        put_u32(&mut payload, 1);
        proof {
            lemma_be_len(1, 4);
        }
        put_u8(&mut payload, id);
        proof {
            assert(written(payload) =~= frame(id, Seq::empty()));
        }
        Message { message_type, payload: freeze(payload) }
    }

    /// Create a new choke message
    pub fn new_choke() -> (m: Self)
        ensures
            m.message_type == MessageType::Choke,
            contents(m.payload) == frame(0, Seq::empty()),
    {
        Self::bare(MessageType::Choke, Self::CHOKE)
    }

    /// Create a new unchoke message
    pub fn new_unchoke() -> (m: Self)
        ensures
            m.message_type == MessageType::Unchoke,
            contents(m.payload) == frame(1, Seq::empty()),
    {
        Self::bare(MessageType::Unchoke, Self::UNCHOKE)
    }

    /// Create a new interested message
    pub fn new_interested() -> (m: Self)
        ensures
            m.message_type == MessageType::Interested,
            contents(m.payload) == frame(2, Seq::empty()),
    {
        Self::bare(MessageType::Interested, Self::INTERESTED)
    }

    /// Create a new not interested message
    pub fn new_not_interested() -> (m: Self)
        ensures
            m.message_type == MessageType::NotInterested,
            contents(m.payload) == frame(3, Seq::empty()),
    {
        Self::bare(MessageType::NotInterested, Self::NOT_INTERESTED)
    }

    /// Create a new have message
    pub fn new_have(piece_index: u32) -> (m: Self)
        ensures
            m.message_type == MessageType::Have,
            contents(m.payload) == frame(4, be(piece_index as nat, 4)),
    {
        broadcast use lemma_be_len;

        let mut payload = buffer_with_capacity(9);
        put_u32(&mut payload, 5);
        put_u8(&mut payload, Self::HAVE);
        put_u32(&mut payload, piece_index);
        proof {
            assert(written(payload) =~= frame(4, be(piece_index as nat, 4)));
        }
        Message { message_type: MessageType::Have, payload: freeze(payload) }
    }

    /// Create a new bitfield message
    pub fn new_bitfield(bitfield: &[u8]) -> (m: Self)
        requires
            1 + bitfield@.len() as u32 <= u32::MAX,
            5 + bitfield@.len() <= isize::MAX,
        ensures
            m.message_type == MessageType::Bitfield,
            contents(m.payload) == frame(5, bitfield@),
    {
        broadcast use lemma_be_len;

        let low: u32 = bitfield.len() as u32;
        let length: u32 = 1 + low;
        let mut payload = buffer_with_capacity(5 + bitfield.len());
        put_u32(&mut payload, length);
        put_u8(&mut payload, Self::BITFIELD);
        put_slice(&mut payload, bitfield);
        proof {
            lemma_prefix(1, bitfield@.len() as usize, low);
            assert(written(payload) =~= frame(5, bitfield@));
        }
        Message { message_type: MessageType::Bitfield, payload: freeze(payload) }
    }

    /// A message whose body is three numbers.
    fn triple(message_type: MessageType, id: u8, index: u32, begin: u32, length: u32) -> (m: Self)
        ensures
            m.message_type == message_type,
            contents(m.payload) == frame(
                id,
                be(index as nat, 4) + be(begin as nat, 4) + be(length as nat, 4),
            ),
    {
        broadcast use lemma_be_len;

        let mut payload = buffer_with_capacity(17);
        put_u32(&mut payload, 13);
        put_u8(&mut payload, id);
        put_u32(&mut payload, index);
        put_u32(&mut payload, begin);
        put_u32(&mut payload, length);
        proof {
            assert(written(payload) =~= frame(
                id,
                be(index as nat, 4) + be(begin as nat, 4) + be(length as nat, 4),
            ));
        }
        Message { message_type, payload: freeze(payload) }
    }

    /// Create a new request message
    pub fn new_request(index: u32, begin: u32, length: u32) -> (m: Self)
        ensures
            m.message_type == MessageType::Request,
            contents(m.payload) == frame(
                6,
                be(index as nat, 4) + be(begin as nat, 4) + be(length as nat, 4),
            ),
    {
        Self::triple(MessageType::Request, Self::REQUEST, index, begin, length)
    }

    /// Create a new piece message
    pub fn new_piece(index: u32, begin: u32, block: &[u8]) -> (m: Self)
        requires
            9 + block@.len() as u32 <= u32::MAX,
            13 + block@.len() <= isize::MAX,
        ensures
            m.message_type == MessageType::Piece,
            contents(m.payload) == frame(
                7,
                be(index as nat, 4) + be(begin as nat, 4) + block@,
            ),
    {
        broadcast use lemma_be_len;

        let low: u32 = block.len() as u32;
        let length: u32 = 9 + low;
        let mut payload = buffer_with_capacity(13 + block.len());
        put_u32(&mut payload, length);
        put_u8(&mut payload, Self::PIECE);
        put_u32(&mut payload, index);
        put_u32(&mut payload, begin);
        put_slice(&mut payload, block);
        proof {
            lemma_prefix(9, block@.len() as usize, low);
            assert(written(payload) =~= frame(
                7,
                be(index as nat, 4) + be(begin as nat, 4) + block@,
            ));
        }
        Message { message_type: MessageType::Piece, payload: freeze(payload) }
    }

    /// Create a new cancel message
    pub fn new_cancel(index: u32, begin: u32, length: u32) -> (m: Self)
        ensures
            m.message_type == MessageType::Cancel,
            contents(m.payload) == frame(
                8,
                be(index as nat, 4) + be(begin as nat, 4) + be(length as nat, 4),
            ),
    {
        Self::triple(MessageType::Cancel, Self::CANCEL, index, begin, length)
    }

    /// Parse a message from bytes
    pub fn parse(bytes: &[u8]) -> (r: Result<Self, MessageError>)
        ensures
            match parsed(bytes@) {
                Ok((t, payload)) => r matches Ok(m) && m.message_type == t && contents(m.payload)
                    == payload,
                Err(e) => r == Err::<Self, MessageError>(e),
            },
    {
        if bytes.len() < 4 {
            return Err(MessageError::TooShort);
        }
        if bytes.len() >= 68 && bytes[0] == 19 {
            let name = protocol_name_bytes();
            if same_bytes(vstd::slice::slice_subrange(bytes, 1, 20), name.as_slice()) {
                return Ok(
                    Message {
                        message_type: MessageType::Handshake,
                        payload: copy_from_slice(bytes),
                    },
                );
            }
        }
        let length = u32_at(bytes, 0);
        if length == 0 {
            return Ok(Message { message_type: MessageType::KeepAlive, payload: no_bytes() });
        }
        if ((bytes.len() - 4) as u64) < length as u64 {
            return Err(MessageError::Incomplete);
        }
        let id = bytes[4];
        let message_type = match id {
            0 => MessageType::Choke,
            1 => MessageType::Unchoke,
            2 => MessageType::Interested,
            3 => MessageType::NotInterested,
            4 => MessageType::Have,
            5 => MessageType::Bitfield,
            6 => MessageType::Request,
            7 => MessageType::Piece,
            8 => MessageType::Cancel,
            9 => MessageType::Port,
            _ => return Err(MessageError::UnknownId(id)),
        };
        Ok(Message { message_type, payload: copy_from_slice(bytes) })
    }

    /// Extract piece index from a 'have' message
    pub fn get_have_piece_index(&self) -> (r: Option<u32>)
        ensures
            match have_piece_index(self.message_type, contents(self.payload)) {
                Some(n) => r matches Some(i) && i as nat == n,
                None => r is None,
            },
    {
        let payload = as_slice(&self.payload);
        if self.message_type == MessageType::Have && payload.len() >= 9 {
            return Some(u32_at(payload, 5));
        }
        None
    }

    /// Extract bitfield from a 'bitfield' message
    pub fn get_bitfield(&self) -> (r: Option<Bytes>)
        ensures
            match bitfield(self.message_type, contents(self.payload)) {
                Some(b) => r matches Some(c) && contents(c) == b,
                None => r is None,
            },
    {
        let payload = as_slice(&self.payload);
        if self.message_type == MessageType::Bitfield && payload.len() > 5 {
            let bits = vstd::slice::slice_subrange(payload, 5, payload.len());
            proof {
                assert(bits@ =~= contents(self.payload).skip(5));
            }
            return Some(copy_from_slice(bits));
        }
        None
    }

    /// Extract piece data from a 'piece' message
    pub fn get_piece_data(&self) -> (r: Option<(u32, u32, Bytes)>)
        ensures
            match piece_data(self.message_type, contents(self.payload)) {
                Some((index, begin, data)) => r matches Some((i, b, d)) && i as nat == index
                    && b as nat == begin && contents(d) == data,
                None => r is None,
            },
    {
        let payload = as_slice(&self.payload);
        if self.message_type == MessageType::Piece && payload.len() >= 13 {
            let block = vstd::slice::slice_subrange(payload, 13, payload.len());
            proof {
                assert(block@ =~= contents(self.payload).skip(13));
            }
            return Some((u32_at(payload, 5), u32_at(payload, 9), copy_from_slice(block)));
        }
        None
    }

    /// Extract request details from a 'request' message
    pub fn get_request_details(&self) -> (r: Option<(u32, u32, u32)>)
        ensures
            match request_details(self.message_type, contents(self.payload)) {
                Some((index, begin, length)) => r matches Some((i, b, l)) && i as nat == index
                    && b as nat == begin && l as nat == length,
                None => r is None,
            },
    {
        let payload = as_slice(&self.payload);
        if self.message_type == MessageType::Request && payload.len() >= 17 {
            return Some((u32_at(payload, 5), u32_at(payload, 9), u32_at(payload, 13)));
        }
        None
    }

    /// The bytes that go on the wire for this message
    pub fn write_to(&self) -> (bytes: &[u8])
        ensures
            bytes@ == contents(self.payload),
    {
        as_slice(&self.payload)
    }
}

/// Parsing the bytes of any message but a handshake or a keep-alive gives
/// back its type and the same bytes.
pub proof fn law_parse_gives_back_frame(id: u8, body: Seq<u8>)
    requires
        type_of_id(id) is Some,
        1 + body.len() <= u32::MAX,
    ensures
        parsed(frame(id, body)) == Ok::<(MessageType, Seq<u8>), MessageError>(
            (type_of_id(id)->0, frame(id, body)),
        ),
{
    let bytes = frame(id, body);
    lemma_be_len(1 + body.len(), 4);
    lemma_byte_range();
    lemma_be_value_of_be(1 + body.len(), 4);
    assert(bytes.subrange(0, 4) =~= be(1 + body.len(), 4));
    assert(bytes[4] == id);
    if is_handshake(bytes) {
        assert(bytes.subrange(1, 20)[3] == bytes[4]);
        assert(protocol_name()[3] == 84);
    }
}

/// Parsing the bytes of a handshake gives back a handshake with the same
/// bytes.
pub proof fn law_parse_gives_back_handshake(
    reserved: Seq<u8>,
    info_hash: Seq<u8>,
    peer_id: Seq<u8>,
)
    requires
        reserved.len() == 8,
        info_hash.len() == 20,
        peer_id.len() == 20,
    ensures
        parsed(handshake_bytes(reserved, info_hash, peer_id)) == Ok::<
            (MessageType, Seq<u8>),
            MessageError,
        >((MessageType::Handshake, handshake_bytes(reserved, info_hash, peer_id))),
{
    let bytes = handshake_bytes(reserved, info_hash, peer_id);
    assert(bytes.len() == 68);
    assert(bytes.subrange(1, 20) =~= protocol_name());
}

/// Parsing the bytes of a keep-alive gives back a keep-alive, which carries
/// nothing.
pub proof fn law_parse_gives_back_keepalive()
    ensures
        parsed(keepalive_bytes()) == Ok::<(MessageType, Seq<u8>), MessageError>(
            (MessageType::KeepAlive, Seq::empty()),
        ),
{
    lemma_keepalive_bytes();
    law_zero_length_is_a_keepalive(Seq::empty());
    assert(be(0, 4) + Seq::<u8>::empty() =~= be(0, 4));
}

/// Bytes that start with a length of zero are a keep-alive.
pub proof fn law_zero_length_is_a_keepalive(rest: Seq<u8>)
    ensures
        parsed(be(0, 4) + rest) == Ok::<(MessageType, Seq<u8>), MessageError>(
            (MessageType::KeepAlive, Seq::empty()),
        ),
{
    broadcast use lemma_be_len;

    lemma_byte_range();
    lemma_be_value_of_be(0, 4);
    let bytes = be(0, 4) + rest;
    assert(bytes.subrange(0, 4) =~= be(0, 4));
    reveal_with_fuel(be, 5);
    assert(bytes[0] == 0);
}

/// A 'have' message carries the piece index that it was made with.
pub proof fn law_have_carries_index(piece_index: u32)
    ensures
        have_piece_index(MessageType::Have, frame(4, be(piece_index as nat, 4))) == Some(
            piece_index as nat,
        ),
{
    broadcast use lemma_be_len;

    let payload = frame(4, be(piece_index as nat, 4));
    lemma_byte_range();
    lemma_be_value_of_be(piece_index as nat, 4);
    assert(payload.subrange(5, 9) =~= be(piece_index as nat, 4));
}

/// A 'bitfield' message carries the bits that it was made with, unless there
/// are none.
pub proof fn law_bitfield_carries_bits(bits: Seq<u8>)
    requires
        bits.len() > 0,
    ensures
        bitfield(MessageType::Bitfield, frame(5, bits)) == Some(bits),
{
    broadcast use lemma_be_len;

    assert(frame(5, bits).skip(5) =~= bits);
}

/// A 'piece' message carries the index, begin and block that it was made
/// with.
pub proof fn law_piece_carries_block(index: u32, begin: u32, block: Seq<u8>)
    ensures
        piece_data(
            MessageType::Piece,
            frame(7, be(index as nat, 4) + be(begin as nat, 4) + block),
        ) == Some((index as nat, begin as nat, block)),
{
    broadcast use lemma_be_len;

    let payload = frame(7, be(index as nat, 4) + be(begin as nat, 4) + block);
    lemma_byte_range();
    lemma_be_value_of_be(index as nat, 4);
    lemma_be_value_of_be(begin as nat, 4);
    assert(payload.subrange(5, 9) =~= be(index as nat, 4));
    assert(payload.subrange(9, 13) =~= be(begin as nat, 4));
    assert(payload.skip(13) =~= block);
}

/// A 'request' message carries the index, begin and length that it was made
/// with.
pub proof fn law_request_carries_details(index: u32, begin: u32, length: u32)
    ensures
        request_details(
            MessageType::Request,
            frame(6, be(index as nat, 4) + be(begin as nat, 4) + be(length as nat, 4)),
        ) == Some((index as nat, begin as nat, length as nat)),
{
    broadcast use lemma_be_len;

    let payload = frame(6, be(index as nat, 4) + be(begin as nat, 4) + be(length as nat, 4));
    lemma_byte_range();
    lemma_be_value_of_be(index as nat, 4);
    lemma_be_value_of_be(begin as nat, 4);
    lemma_be_value_of_be(length as nat, 4);
    assert(payload.subrange(5, 9) =~= be(index as nat, 4));
    assert(payload.subrange(9, 13) =~= be(begin as nat, 4));
    assert(payload.subrange(13, 17) =~= be(length as nat, 4));
}

/// A message is four bytes of length, its ID and its body; the length counts
/// the ID and the body.
pub proof fn law_message_layout(id: u8, body: Seq<u8>)
    ensures
        frame(id, body).len() == 5 + body.len(),
        frame(id, body).take(4) == be((1 + body.len()) as nat, 4),
        frame(id, body)[4] == id,
        frame(id, body).skip(5) == body,
{
    broadcast use lemma_be_len;

    assert(frame(id, body).take(4) =~= be((1 + body.len()) as nat, 4));
    assert(frame(id, body).skip(5) =~= body);
}

/// A handshake is nineteen, the name of the protocol, eight reserved bytes, the
/// info hash and the peer ID.
pub proof fn law_handshake_layout(reserved: Seq<u8>, info_hash: Seq<u8>, peer_id: Seq<u8>)
    requires
        reserved.len() == 8,
        info_hash.len() == 20,
        peer_id.len() == 20,
    ensures
        ({
            let bytes = handshake_bytes(reserved, info_hash, peer_id);
            &&& bytes.len() == 68
            &&& bytes[0] == 19
            &&& forall|i: int|
                0 <= i < 19 ==> bytes[1 + i] as char == #[trigger] "BitTorrent protocol"@[i]
            &&& bytes.subrange(20, 28) == reserved
            &&& bytes.subrange(28, 48) == info_hash
            &&& bytes.subrange(48, 68) == peer_id
        }),
{
    reveal_strlit("BitTorrent protocol");
    let bytes = handshake_bytes(reserved, info_hash, peer_id);
    assert(bytes.subrange(20, 28) =~= reserved);
    assert(bytes.subrange(28, 48) =~= info_hash);
    assert(bytes.subrange(48, 68) =~= peer_id);
}

/// The ten messages have the IDs from 0 to 9, and no other ID is a message.
pub proof fn law_message_ids(id: u8)
    ensures
        type_of_id(0) == Some(MessageType::Choke),
        type_of_id(1) == Some(MessageType::Unchoke),
        type_of_id(2) == Some(MessageType::Interested),
        type_of_id(3) == Some(MessageType::NotInterested),
        type_of_id(4) == Some(MessageType::Have),
        type_of_id(5) == Some(MessageType::Bitfield),
        type_of_id(6) == Some(MessageType::Request),
        type_of_id(7) == Some(MessageType::Piece),
        type_of_id(8) == Some(MessageType::Cancel),
        type_of_id(9) == Some(MessageType::Port),
        id > 9 ==> type_of_id(id) is None,
{
}

/// Bytes are a handshake just where there are at least sixty-eight and they
/// start with nineteen and the name of the protocol.
pub proof fn law_what_is_a_handshake(bytes: Seq<u8>)
    ensures
        is_handshake(bytes) <==> bytes.len() >= 68 && bytes[0] == 19 && forall|i: int|
            0 <= i < 19 ==> bytes[1 + i] as char == #[trigger] "BitTorrent protocol"@[i],
{
    reveal_strlit("BitTorrent protocol");
    let name = "BitTorrent protocol"@;
    if is_handshake(bytes) {
        assert forall|i: int| 0 <= i < 19 implies bytes[1 + i] as char == #[trigger] name[i] by {
            assert(bytes.subrange(1, 20)[i] == protocol_name()[i]);
        }
    }
    if bytes.len() >= 68 && bytes[0] == 19 && forall|i: int|
        0 <= i < 19 ==> bytes[1 + i] as char == #[trigger] name[i] {
        assert forall|i: int| 0 <= i < 19 implies bytes.subrange(1, 20)[i]
            == protocol_name()[i] by {
            assert(bytes[1 + i] as char == name[i]);
            assert(protocol_name()[i] as char == name[i]);
        }
        assert(bytes.subrange(1, 20) =~= protocol_name());
    }
}

/// Bytes are refused as too short for a length, as shorter than the length
/// says, and for an ID that no message has; what follows a whole message is
/// kept with it.
pub proof fn law_what_is_no_message(bytes: Seq<u8>, id: u8, body: Seq<u8>, cut: int, tail: Seq<u8>)
    requires
        1 + body.len() <= u32::MAX,
        0 <= cut < 5 + body.len(),
    ensures
        bytes.len() < 4 ==> parsed(bytes) == Err::<(MessageType, Seq<u8>), MessageError>(
            MessageError::TooShort,
        ),
        4 <= cut && !is_handshake(frame(id, body).take(cut)) ==> parsed(frame(id, body).take(cut))
            == Err::<(MessageType, Seq<u8>), MessageError>(MessageError::Incomplete),
        id > 9 && !is_handshake(frame(id, body) + tail) ==> parsed(frame(id, body) + tail) == Err::<
            (MessageType, Seq<u8>),
            MessageError,
        >(MessageError::UnknownId(id)),
        id <= 9 && !is_handshake(frame(id, body) + tail) ==> parsed(frame(id, body) + tail) == Ok::<
            (MessageType, Seq<u8>),
            MessageError,
        >((type_of_id(id)->0, frame(id, body) + tail)),
{
    let n = (1 + body.len()) as nat;
    law_message_layout(id, body);
    lemma_be_len(n, 4);
    lemma_byte_range();
    lemma_be_value_of_be(n, 4);
    let whole = frame(id, body) + tail;
    assert(whole.subrange(0, 4) =~= be(n, 4));
    assert(whole[4] == id);
    if 4 <= cut {
        let part = frame(id, body).take(cut);
        assert(part.subrange(0, 4) =~= be(n, 4));
    }
}

/// Of a message of another kind, or one that is too short, nothing is read.
pub proof fn law_nothing_is_read_of_other_messages(t: MessageType, payload: Seq<u8>)
    ensures
        t != MessageType::Have || payload.len() < 9 ==> have_piece_index(t, payload) is None,
        t != MessageType::Bitfield || payload.len() <= 5 ==> bitfield(t, payload) is None,
        t != MessageType::Piece || payload.len() < 13 ==> piece_data(t, payload) is None,
        t != MessageType::Request || payload.len() < 17 ==> request_details(t, payload) is None,
{
}

/// The numbers in a message are read where they stand, whatever follows them.
pub proof fn law_numbers_stand_in_their_places(a: u32, b: u32, c: u32, prefix: Seq<u8>, tail: Seq<u8>)
    requires
        prefix.len() == 5,
    ensures
        have_piece_index(MessageType::Have, prefix + be(a as nat, 4) + tail) == Some(a as nat),
        piece_data(MessageType::Piece, prefix + be(a as nat, 4) + be(b as nat, 4) + tail) == Some(
            (a as nat, b as nat, tail),
        ),
        request_details(
            MessageType::Request,
            prefix + be(a as nat, 4) + be(b as nat, 4) + be(c as nat, 4) + tail,
        ) == Some((a as nat, b as nat, c as nat)),
        tail.len() > 0 ==> bitfield(MessageType::Bitfield, prefix + tail) == Some(tail),
{
    broadcast use lemma_be_len;

    lemma_byte_range();
    lemma_be_value_of_be(a as nat, 4);
    lemma_be_value_of_be(b as nat, 4);
    lemma_be_value_of_be(c as nat, 4);
    let have = prefix + be(a as nat, 4) + tail;
    let piece = prefix + be(a as nat, 4) + be(b as nat, 4) + tail;
    let request = prefix + be(a as nat, 4) + be(b as nat, 4) + be(c as nat, 4) + tail;
    assert(have.subrange(5, 9) =~= be(a as nat, 4));
    assert(piece.subrange(5, 9) =~= be(a as nat, 4));
    assert(piece.subrange(9, 13) =~= be(b as nat, 4));
    assert(piece.skip(13) =~= tail);
    assert(request.subrange(5, 9) =~= be(a as nat, 4));
    assert(request.subrange(9, 13) =~= be(b as nat, 4));
    assert(request.subrange(13, 17) =~= be(c as nat, 4));
    assert((prefix + tail).skip(5) =~= tail);
}

} // verus!

//! Peer connection and management
use crate::address::SocketAddr;
use crate::clock::Clock;
use crate::message::{
    frame, handshake_bytes, is_handshake, keepalive_bytes, protocol_name_bytes, Message,
    MessageType,
};
use crate::wire::{
    be, be_value, contents, copy_from_slice, id_at, lemma_be_len, lemma_be_value_of_be,
    lemma_byte_range, same_bytes, u32_at,
};
use bytes::Bytes;
use vstd::prelude::*;
use vstd::string::*;

verus! {

/// BitTorrent peer information
#[derive(Debug, Clone)]
pub struct Peer {
    pub id: Option<[u8; 20]>,
    pub addr: SocketAddr,
    pub pieces: Vec<bool>,
    pub choked: bool,
    pub interested: bool,
    pub am_choking: bool,
    pub am_interested: bool,
    /// In nanoseconds since the clock was started
    pub last_seen: u128,
}

/// Peer information, as a value.
#[verifier::ext_equal]
pub struct PeerState {
    pub id: Option<[u8; 20]>,
    pub addr: SocketAddr,
    pub pieces: Seq<bool>,
    pub choked: bool,
    pub interested: bool,
    pub am_choking: bool,
    pub am_interested: bool,
    pub last_seen: u128,
}

impl View for Peer {
    type V = PeerState;

    open spec fn view(&self) -> PeerState {
        PeerState {
            id: self.id,
            addr: self.addr,
            pieces: self.pieces@,
            choked: self.choked,
            interested: self.interested,
            am_choking: self.am_choking,
            am_interested: self.am_interested,
            last_seen: self.last_seen,
        }
    }
}

impl PeerState {
    /// A peer of which only the address is known.
    pub open spec fn fresh(addr: SocketAddr, now: u128) -> PeerState {
        PeerState {
            id: None,
            addr,
            pieces: Seq::empty(),
            choked: true,
            interested: false,
            am_choking: true,
            am_interested: false,
            last_seen: now,
        }
    }

    /// The peer is known to have the piece.
    pub open spec fn has(self, index: int) -> bool {
        0 <= index < self.pieces.len() && self.pieces[index]
    }

    /// The peer once it has one more piece.
    pub open spec fn gains(self, index: int) -> PeerState {
        PeerState {
            pieces: Seq::new(
                if index < self.pieces.len() {
                    self.pieces.len()
                } else {
                    (index + 1) as nat
                },
                |i: int| i == index || self.has(i),
            ),
            ..self
        }
    }
}

/// The bit for a piece in a bitfield: the first piece has the most
/// significant bit of the first byte.
pub open spec fn bit_at(bitfield: Seq<u8>, i: int) -> bool {
    i / 8 < bitfield.len() && (bitfield[i / 8] >> ((7 - i % 8) as u8)) & 1 == 1
}

/// The bits for all pieces.
pub open spec fn bits_of(bitfield: Seq<u8>, total_pieces: nat) -> Seq<bool> {
    Seq::new(total_pieces, |i: int| bit_at(bitfield, i))
}

impl Peer {
    /// Create a new peer from address, seen at a given moment
    pub fn seen_at(addr: SocketAddr, now: u128) -> (p: Self)
        ensures
            p@ == PeerState::fresh(addr, now),
    {
        Peer {
            id: None,
            addr,
            pieces: Vec::new(),
            choked: true,
            interested: false,
            am_choking: true,
            am_interested: false,
            last_seen: now,
        }
    }

    /// Create a new peer from address
    pub fn new(addr: SocketAddr, clock: &Clock) -> (p: Self)
        ensures
            exists|now: u128| p@ == #[trigger] PeerState::fresh(addr, now),
    {
        let now = clock.now();
        Peer::seen_at(addr, now)
    }

    /// Check if peer has a specific piece
    pub fn has_piece(&self, index: usize) -> (r: bool)
        ensures
            r == self@.has(index as int),
    {
        if index < self.pieces.len() {
            self.pieces[index]
        } else {
            false
        }
    }

    /// Update peer's bitfield
    pub fn update_bitfield(&mut self, bitfield: &[u8], total_pieces: usize)
        ensures
            final(self)@ == (PeerState {
                pieces: bits_of(bitfield@, total_pieces as nat),
                ..old(self)@
            }),
    {
        let mut pieces: Vec<bool> = Vec::new();
        let mut i: usize = 0;
        while i < total_pieces
            invariant
                i <= total_pieces,
                pieces@.len() == i,
                forall|j: int| 0 <= j < i ==> pieces@[j] == bit_at(bitfield@, j),
            decreases total_pieces - i,
        {
            let byte_index: usize = i / 8;
            let bit_index: u8 = 7 - (i % 8) as u8;
            if byte_index < bitfield.len() {
                let has_piece = (bitfield[byte_index] >> bit_index) & 1 == 1;
                pieces.push(has_piece);
            } else {
                pieces.push(false);
            }
            i += 1;
        }
        self.pieces = pieces;
        proof {
            assert(self.pieces@ =~= bits_of(bitfield@, total_pieces as nat));
        }
    }

    /// Update when peer has a new piece
    pub fn received_have(&mut self, piece_index: usize)
        requires
            piece_index < isize::MAX,
        ensures
            final(self)@ == old(self)@.gains(piece_index as int),
    {
        if piece_index >= self.pieces.len() {
            self.pieces.resize(piece_index + 1, false);
        }
        self.pieces.set(piece_index, true);
        proof {
            assert(self.pieces@ =~= old(self)@.gains(piece_index as int).pieces);
        }
    }
}

/// A peer that announces a piece has that piece from then on, and all the
/// pieces that it had before, and no other.
pub proof fn law_have_adds_one_piece(peer: PeerState, index: int, i: int)
    requires
        0 <= index,
    ensures
        peer.gains(index).has(i) <==> i == index || peer.has(i),
{
}

/// Messages that can be sent between the peer connection and the torrent client
#[derive(Debug)]
pub enum PeerEvent {
    /// Peer connection has been established (includes peer address)
    Connected(SocketAddr),
    /// Peer sent a bitfield message (includes peer address and bitfield as bool vector)
    Bitfield(SocketAddr, Vec<bool>),
    /// Peer announced it has a piece (includes peer address and piece index)
    Have(SocketAddr, usize),
    /// Peer choked us - we can't request pieces (includes peer address)
    Choke(SocketAddr),
    /// Peer unchoked us - we can request pieces (includes peer address)
    Unchoke(SocketAddr),
    /// Peer is interested in our pieces (includes peer address)
    Interested(SocketAddr),
    /// Peer is not interested in our pieces (includes peer address)
    NotInterested(SocketAddr),
    /// Received a block of data (includes peer address, piece index, offset, and data)
    BlockReceived(SocketAddr, usize, usize, Bytes),
    /// Peer connection closed (includes peer address and optional reason)
    Disconnected(SocketAddr, Option<String>),
    /// Peer requested a block from us (includes peer address, piece index, offset, and length)
    BlockRequested(SocketAddr, usize, usize, usize),
    /// Peer sent a keep-alive message (includes peer address)
    KeepAlive(SocketAddr),
    /// Error occurred with peer (includes peer address and error message)
    Error(SocketAddr, String),
}

/// What goes wrong with a peer.
#[derive(Debug, Clone, Copy, PartialEq, Eq, Structural)]
pub enum PeerError {
    /// The answer to the handshake is no handshake.
    InvalidHandshake,
    /// The handshake is for another torrent.
    InfoHashMismatch,
    /// A have message is too short.
    InvalidHave,
    /// A bitfield message is too short.
    InvalidBitfield,
    /// A piece message is too short.
    InvalidPiece,
    /// The peer does not take requests now.
    Choked,
}

impl PeerError {
    /// What the error says.
    pub open spec fn text(self) -> Seq<char> {
        match self {
            PeerError::InvalidHandshake => "Invalid handshake response"@,
            PeerError::InfoHashMismatch => "Info hash mismatch in handshake"@,
            PeerError::InvalidHave => "Invalid 'have' message"@,
            PeerError::InvalidBitfield => "Invalid 'bitfield' message"@,
            PeerError::InvalidPiece => "Invalid 'piece' message"@,
            PeerError::Choked => "Cannot request block - we are choked"@,
        }
    }

    /// What the error says
    pub fn message(&self) -> (s: String)
        ensures
            s@ == self.text(),
    {
        match self {
            PeerError::InvalidHandshake => "Invalid handshake response".to_string(),
            PeerError::InfoHashMismatch => "Info hash mismatch in handshake".to_string(),
            PeerError::InvalidHave => "Invalid 'have' message".to_string(),
            PeerError::InvalidBitfield => "Invalid 'bitfield' message".to_string(),
            PeerError::InvalidPiece => "Invalid 'piece' message".to_string(),
            PeerError::Choked => "Cannot request block - we are choked".to_string(),
        }
    }
}

/// What comes next on a connection.
#[derive(Debug, Clone, Copy, PartialEq, Eq, Structural)]
pub enum Incoming {
    /// The message was a keep-alive and is over.
    KeepAlive,
    /// So many bytes of message.
    Body(usize),
}

/// What comes of an attempt to connect to a peer.
#[derive(Debug)]
pub enum ConnectOutcome {
    /// There is a connection.
    Connected,
    /// The system says why there is none.
    Failed(String),
    /// There was none in time.
    TimedOut,
}

/// What comes of reading from a peer.
#[derive(Debug)]
pub enum ReadOutcome {
    /// The peer closed the connection.
    Closed,
    /// Something was read.
    Received,
    /// The system says why nothing can be read.
    Failed(String),
}

/// The event that tells of an attempt to connect to a peer
pub fn connect_event(addr: SocketAddr, outcome: ConnectOutcome) -> (event: PeerEvent)
    ensures
        match outcome {
            ConnectOutcome::Connected => event == PeerEvent::Connected(addr),
            ConnectOutcome::Failed(reason) => event == PeerEvent::Disconnected(addr, Some(reason)),
            ConnectOutcome::TimedOut => event matches PeerEvent::Disconnected(a, Some(reason)) && a
                == addr && reason@ == "Connection timeout"@,
        },
{
    match outcome {
        ConnectOutcome::Connected => PeerEvent::Connected(addr),
        ConnectOutcome::Failed(reason) => PeerEvent::Disconnected(addr, Some(reason)),
        ConnectOutcome::TimedOut =>
            PeerEvent::Disconnected(addr, Some("Connection timeout".to_string())),
    }
}

/// The event that tells of the end of a connection, if it has come to its end
pub fn read_event(addr: SocketAddr, outcome: ReadOutcome) -> (event: Option<PeerEvent>)
    ensures
        event == match outcome {
            ReadOutcome::Closed => Some(PeerEvent::Disconnected(addr, None)),
            ReadOutcome::Received => None,
            ReadOutcome::Failed(reason) => Some(PeerEvent::Disconnected(addr, Some(reason))),
        },
{
    match outcome {
        ReadOutcome::Closed => Some(PeerEvent::Disconnected(addr, None)),
        ReadOutcome::Received => None,
        ReadOutcome::Failed(reason) => Some(PeerEvent::Disconnected(addr, Some(reason))),
    }
}

/// What is known on an active connection to a peer
#[derive(Debug)]
pub struct PeerConnection {
    pub peer: Peer,
    pub info_hash: [u8; 20],
    pub peer_id: [u8; 20],
    pub total_pieces: usize,
}

/// The numbers in the message at `at`.
pub open spec fn index_at(data: Seq<u8>, at: int) -> usize {
    be_value(data.subrange(at, at + 4)) as usize
}

/// What a message from a peer does to what is known of the peer.
pub open spec fn peer_after(peer: PeerState, total_pieces: usize, data: Seq<u8>) -> PeerState {
    if data.len() == 0 {
        peer
    } else if data[0] == 0 {
        PeerState { choked: true, ..peer }
    } else if data[0] == 1 {
        PeerState { choked: false, ..peer }
    } else if data[0] == 2 {
        PeerState { interested: true, ..peer }
    } else if data[0] == 3 {
        PeerState { interested: false, ..peer }
    } else if data[0] == 4 && data.len() >= 5 {
        peer.gains(index_at(data, 1) as int)
    } else if data[0] == 5 && data.len() >= 2 {
        PeerState { pieces: bits_of(data.skip(1), total_pieces as nat), ..peer }
    } else {
        peer
    }
}

/// What a message from a peer tells the client. Requests, cancels and unknown
/// messages tell nothing; a message that is too short is an error.
pub open spec fn tells(
    addr: SocketAddr,
    total_pieces: usize,
    data: Seq<u8>,
    r: Result<Option<PeerEvent>, PeerError>,
) -> bool {
    if data.len() == 0 {
        r == Ok::<Option<PeerEvent>, PeerError>(None)
    } else if data[0] == 0 {
        r == Ok::<Option<PeerEvent>, PeerError>(Some(PeerEvent::Choke(addr)))
    } else if data[0] == 1 {
        r == Ok::<Option<PeerEvent>, PeerError>(Some(PeerEvent::Unchoke(addr)))
    } else if data[0] == 2 {
        r == Ok::<Option<PeerEvent>, PeerError>(Some(PeerEvent::Interested(addr)))
    } else if data[0] == 3 {
        r == Ok::<Option<PeerEvent>, PeerError>(Some(PeerEvent::NotInterested(addr)))
    } else if data[0] == 4 {
        if data.len() < 5 {
            r == Err::<Option<PeerEvent>, PeerError>(PeerError::InvalidHave)
        } else {
            r == Ok::<Option<PeerEvent>, PeerError>(
                Some(PeerEvent::Have(addr, index_at(data, 1))),
            )
        }
    } else if data[0] == 5 {
        if data.len() < 2 {
            r == Err::<Option<PeerEvent>, PeerError>(PeerError::InvalidBitfield)
        } else {
            r matches Ok(Some(PeerEvent::Bitfield(a, pieces))) && a == addr && pieces@ == bits_of(
                data.skip(1),
                total_pieces as nat,
            )
        }
    } else if data[0] == 7 {
        if data.len() < 9 {
            r == Err::<Option<PeerEvent>, PeerError>(PeerError::InvalidPiece)
        } else {
            r matches Ok(Some(PeerEvent::BlockReceived(a, index, offset, block))) && a == addr
                && index == index_at(data, 1) && offset == index_at(data, 5) && contents(block)
                == data.skip(9)
        }
    } else {
        r == Ok::<Option<PeerEvent>, PeerError>(None)
    }
}

impl PeerConnection {
    /// The block size to ask for: 16 KiB
    pub const DEFAULT_BLOCK_SIZE: usize = 16384;

    /// The largest block size: 32 KiB
    pub const MAX_BLOCK_SIZE: usize = 32768;

    /// Create a new peer connection
    pub fn new(
        addr: SocketAddr,
        info_hash: [u8; 20],
        peer_id: [u8; 20],
        total_pieces: usize,
        now: u128,
    ) -> (c: Self)
        ensures
            c.peer@ == PeerState::fresh(addr, now),
            c.info_hash == info_hash,
            c.peer_id == peer_id,
            c.total_pieces == total_pieces,
    {
        PeerConnection { peer: Peer::seen_at(addr, now), info_hash, peer_id, total_pieces }
    }

    /// Nothing but what is known of the peer may differ.
    pub open spec fn same_but_peer(self, other: PeerConnection) -> bool {
        &&& self.info_hash == other.info_hash
        &&& self.peer_id == other.peer_id
        &&& self.total_pieces == other.total_pieces
    }

    /// The handshake to send to the peer
    pub fn handshake(&self) -> (m: Message)
        ensures
            m.message_type == MessageType::Handshake,
            contents(m.payload) == handshake_bytes(
                Seq::new(8, |i: int| 0u8),
                self.info_hash@,
                self.peer_id@,
            ),
    {
        Message::new_handshake(&self.info_hash, &self.peer_id)
    }

    /// Check the answer to the handshake, and keep the peer's ID
    pub fn finish_handshake(&mut self, buf: &[u8]) -> (r: Result<(), PeerError>)
        requires
            buf@.len() == 68,
        ensures
            r == if !is_handshake(buf@) {
                Err::<(), PeerError>(PeerError::InvalidHandshake)
            } else if buf@.subrange(28, 48) != old(self).info_hash@ {
                Err::<(), PeerError>(PeerError::InfoHashMismatch)
            } else {
                Ok::<(), PeerError>(())
            },
            match r {
                Ok(_) => {
                    &&& final(self).peer.id matches Some(id) && id@ == buf@.subrange(48, 68)
                    &&& final(self).peer@ == (PeerState {
                        id: final(self).peer.id,
                        ..old(self).peer@
                    })
                },
                Err(_) => final(self).peer == old(self).peer,
            },
            final(self).same_but_peer(*old(self)),
    {
        let name = protocol_name_bytes();
        if buf[0] != 19 || !same_bytes(
            vstd::slice::slice_subrange(buf, 1, 20),
            name.as_slice(),
        ) {
            return Err(PeerError::InvalidHandshake);
        }
        if !same_bytes(vstd::slice::slice_subrange(buf, 28, 48), self.info_hash.as_slice()) {
            return Err(PeerError::InfoHashMismatch);
        }
        self.peer.id = Some(id_at(buf, 48));
        Ok(())
    }

    /// What comes after the length of a message
    pub fn incoming(length: u32) -> (r: Incoming)
        ensures
            r == if length == 0 {
                Incoming::KeepAlive
            } else {
                Incoming::Body(length as usize)
            },
    {
        if length == 0 {
            Incoming::KeepAlive
        } else {
            Incoming::Body(length as usize)
        }
    }

    /// Note that the peer sent something
    pub fn seen(&mut self, now: u128)
        ensures
            final(self).peer@ == (PeerState { last_seen: now, ..old(self).peer@ }),
            final(self).same_but_peer(*old(self)),
    {
        self.peer.last_seen = now;
    }

    /// Handle a BitTorrent message
    pub fn handle_message(&mut self, data: &[u8]) -> (r: Result<Option<PeerEvent>, PeerError>)
        requires
            data@.len() >= 5 && data@[0] == 4 ==> be_value(data@.subrange(1, 5)) < isize::MAX,
        ensures
            tells(old(self).peer.addr, old(self).total_pieces, data@, r),
            final(self).peer@ == peer_after(old(self).peer@, old(self).total_pieces, data@),
            final(self).same_but_peer(*old(self)),
    {
        if data.len() == 0 {
            return Ok(None);
        }
        let addr = self.peer.addr;
        let message_id = data[0];
        if message_id == 0 {
            self.peer.choked = true;
            Ok(Some(PeerEvent::Choke(addr)))
        } else if message_id == 1 {
            self.peer.choked = false;
            Ok(Some(PeerEvent::Unchoke(addr)))
        } else if message_id == 2 {
            self.peer.interested = true;
            Ok(Some(PeerEvent::Interested(addr)))
        } else if message_id == 3 {
            self.peer.interested = false;
            Ok(Some(PeerEvent::NotInterested(addr)))
        } else if message_id == 4 {
            if data.len() < 5 {
                return Err(PeerError::InvalidHave);
            }
            let piece_index = u32_at(data, 1) as usize;
            self.peer.received_have(piece_index);
            Ok(Some(PeerEvent::Have(addr, piece_index)))
        } else if message_id == 5 {
            if data.len() < 2 {
                return Err(PeerError::InvalidBitfield);
            }
            let bitfield = vstd::slice::slice_subrange(data, 1, data.len());
            proof {
                assert(bitfield@ =~= data@.skip(1));
            }
            self.peer.update_bitfield(bitfield, self.total_pieces);
            Ok(Some(PeerEvent::Bitfield(addr, self.peer.pieces.clone())))
        } else if message_id == 7 {
            if data.len() < 9 {
                return Err(PeerError::InvalidPiece);
            }
            let piece_index = u32_at(data, 1) as usize;
            let block_offset = u32_at(data, 5) as usize;
            let rest = vstd::slice::slice_subrange(data, 9, data.len());
            proof {
                assert(rest@ =~= data@.skip(9));
            }
            let block_data = copy_from_slice(rest);
            Ok(Some(PeerEvent::BlockReceived(addr, piece_index, block_offset, block_data)))
        } else {
            Ok(None)
        }
    }

    /// The interested message to send to the peer
    pub fn send_interested(&mut self) -> (m: Message)
        ensures
            m.message_type == MessageType::Interested,
            contents(m.payload) == frame(2, Seq::empty()),
            final(self).peer@ == (PeerState { am_interested: true, ..old(self).peer@ }),
            final(self).same_but_peer(*old(self)),
    {
        let message = Message::new_interested();
        self.peer.am_interested = true;
        message
    }

    /// The message that requests a block from the peer
    pub fn request_block(&self, piece_index: u32, block_offset: u32, block_length: u32) -> (r:
        Result<Message, PeerError>)
        ensures
            match r {
                Ok(m) => {
                    &&& !self.peer.choked
                    &&& m.message_type == MessageType::Request
                    &&& contents(m.payload) == frame(
                        6,
                        be(piece_index as nat, 4) + be(block_offset as nat, 4) + be(
                            block_length as nat,
                            4,
                        ),
                    )
                },
                Err(e) => self.peer.choked && e == PeerError::Choked,
            },
    {
        if self.peer.choked {
            return Err(PeerError::Choked);
        }
        Ok(Message::new_request(piece_index, block_offset, block_length))
    }

    /// The keep-alive message
    pub fn send_keep_alive(&self) -> (m: Message)
        ensures
            m.message_type == MessageType::KeepAlive,
            contents(m.payload) == keepalive_bytes(),
    {
        Message::new_keepalive()
    }
}

/// What follows the length of a message is its ID and its body.
proof fn lemma_frame_body(id: u8, body: Seq<u8>)
    ensures
        frame(id, body).skip(4) == seq![id] + body,
{
    broadcast use lemma_be_len;

    assert(frame(id, body).skip(4) =~= seq![id] + body);
}

/// A number is read back where it was written.
proof fn lemma_index_at(data: Seq<u8>, at: int, n: u32)
    requires
        0 <= at,
        at + 4 <= data.len(),
        data.subrange(at, at + 4) == be(n as nat, 4),
    ensures
        index_at(data, at) == n,
{
    lemma_byte_range();
    lemma_be_value_of_be(n as nat, 4);
}

/// The have message that one side creates tells the other side of that piece.
pub proof fn law_have_message_arrives(
    piece_index: u32,
    addr: SocketAddr,
    total_pieces: usize,
    r: Result<Option<PeerEvent>, PeerError>,
)
    requires
        tells(addr, total_pieces, frame(4, be(piece_index as nat, 4)).skip(4), r),
    ensures
        r == Ok::<Option<PeerEvent>, PeerError>(
            Some(PeerEvent::Have(addr, piece_index as usize)),
        ),
{
    broadcast use lemma_be_len;

    lemma_frame_body(4, be(piece_index as nat, 4));
    let data = seq![4u8] + be(piece_index as nat, 4);
    assert(data.subrange(1, 5) =~= be(piece_index as nat, 4));
    lemma_index_at(data, 1, piece_index);
}

/// The block in the piece message that one side creates arrives on the other
/// side as it is, with its piece and its offset.
pub proof fn law_block_arrives(
    index: u32,
    begin: u32,
    block: Seq<u8>,
    addr: SocketAddr,
    total_pieces: usize,
    r: Result<Option<PeerEvent>, PeerError>,
)
    requires
        tells(
            addr,
            total_pieces,
            frame(7, be(index as nat, 4) + be(begin as nat, 4) + block).skip(4),
            r,
        ),
    ensures
        r matches Ok(Some(PeerEvent::BlockReceived(a, i, o, data))) && a == addr && i == index
            && o == begin && contents(data) == block,
{
    broadcast use lemma_be_len;

    let body = be(index as nat, 4) + be(begin as nat, 4) + block;
    lemma_frame_body(7, body);
    let data = seq![7u8] + body;
    assert(data.subrange(1, 5) =~= be(index as nat, 4));
    assert(data.subrange(5, 9) =~= be(begin as nat, 4));
    assert(data.skip(9) =~= block);
    lemma_index_at(data, 1, index);
    lemma_index_at(data, 5, begin);
}

/// The bits in the bitfield message that one side creates are what the other
/// side knows of it.
pub proof fn law_bitfield_arrives(bitfield: Seq<u8>, peer: PeerState, total_pieces: usize, i: int)
    requires
        bitfield.len() > 0,
        0 <= i < total_pieces,
    ensures
        peer_after(peer, total_pieces, frame(5, bitfield).skip(4)).has(i) == bit_at(bitfield, i),
{
    lemma_frame_body(5, bitfield);
    let data = seq![5u8] + bitfield;
    assert(data.skip(1) =~= bitfield);
}

/// The bit of a piece in a bitfield: eight pieces to a byte, the first of them
/// in its most significant bit. Bits that are not there are not set.
pub proof fn law_bits_of_a_bitfield(bitfield: Seq<u8>, byte: int, bit: int)
    requires
        0 <= byte,
        0 <= bit < 8,
    ensures
        byte >= bitfield.len() ==> !bit_at(bitfield, 8 * byte + bit),
        byte < bitfield.len() && bit == 0 ==> bit_at(bitfield, 8 * byte + bit) == (bitfield[byte]
            / 128 % 2 == 1),
        byte < bitfield.len() && bit == 1 ==> bit_at(bitfield, 8 * byte + bit) == (bitfield[byte]
            / 64 % 2 == 1),
        byte < bitfield.len() && bit == 2 ==> bit_at(bitfield, 8 * byte + bit) == (bitfield[byte]
            / 32 % 2 == 1),
        byte < bitfield.len() && bit == 3 ==> bit_at(bitfield, 8 * byte + bit) == (bitfield[byte]
            / 16 % 2 == 1),
        byte < bitfield.len() && bit == 4 ==> bit_at(bitfield, 8 * byte + bit) == (bitfield[byte]
            / 8 % 2 == 1),
        byte < bitfield.len() && bit == 5 ==> bit_at(bitfield, 8 * byte + bit) == (bitfield[byte]
            / 4 % 2 == 1),
        byte < bitfield.len() && bit == 6 ==> bit_at(bitfield, 8 * byte + bit) == (bitfield[byte]
            / 2 % 2 == 1),
        byte < bitfield.len() && bit == 7 ==> bit_at(bitfield, 8 * byte + bit) == (bitfield[byte]
            % 2 == 1),
{
    let i = 8 * byte + bit;
    assert(i / 8 == byte);
    assert(i % 8 == bit);
    if byte < bitfield.len() {
        let b = bitfield[byte];
        assert((b >> 7u8) & 1 == b / 128 % 2) by (bit_vector);
        assert((b >> 6u8) & 1 == b / 64 % 2) by (bit_vector);
        assert((b >> 5u8) & 1 == b / 32 % 2) by (bit_vector);
        assert((b >> 4u8) & 1 == b / 16 % 2) by (bit_vector);
        assert((b >> 3u8) & 1 == b / 8 % 2) by (bit_vector);
        assert((b >> 2u8) & 1 == b / 4 % 2) by (bit_vector);
        assert((b >> 1u8) & 1 == b / 2 % 2) by (bit_vector);
        assert((b >> 0u8) & 1 == b % 2) by (bit_vector);
    }
}

/// What is known of the pieces after a bitfield: as many as the torrent has,
/// each by its bit.
pub proof fn law_bitfield_is_kept_bit_by_bit(bitfield: Seq<u8>, total_pieces: nat, i: int)
    requires
        0 <= i < total_pieces,
    ensures
        bits_of(bitfield, total_pieces).len() == total_pieces,
        bits_of(bitfield, total_pieces)[i] == bit_at(bitfield, i),
{
}

/// A peer has a piece just where that is noted, and one more piece changes
/// nothing else that is known of the peer.
pub proof fn law_what_a_peer_has(peer: PeerState, index: int)
    requires
        0 <= index,
    ensures
        peer.has(index) <==> index < peer.pieces.len() && peer.pieces[index],
        peer.gains(index).id == peer.id,
        peer.gains(index).addr == peer.addr,
        peer.gains(index).choked == peer.choked,
        peer.gains(index).interested == peer.interested,
        peer.gains(index).am_choking == peer.am_choking,
        peer.gains(index).am_interested == peer.am_interested,
        peer.gains(index).last_seen == peer.last_seen,
        peer.gains(index).pieces.len() == if index < peer.pieces.len() {
            peer.pieces.len() as int
        } else {
            index + 1
        },
{
}

/// A new peer chokes and is choked, is interested in nothing, and has nothing.
pub proof fn law_new_peers(addr: SocketAddr, now: u128)
    ensures
        PeerState::fresh(addr, now).id is None,
        PeerState::fresh(addr, now).addr == addr,
        PeerState::fresh(addr, now).pieces == Seq::<bool>::empty(),
        PeerState::fresh(addr, now).choked,
        !PeerState::fresh(addr, now).interested,
        PeerState::fresh(addr, now).am_choking,
        !PeerState::fresh(addr, now).am_interested,
        PeerState::fresh(addr, now).last_seen == now,
{
}

/// The messages without a body, whatever follows their ID, set what is known
/// of the peer and tell of it; nothing else changes.
pub proof fn law_state_messages_arrive(
    peer: PeerState,
    total_pieces: usize,
    rest: Seq<u8>,
    addr: SocketAddr,
    r: Result<Option<PeerEvent>, PeerError>,
)
    ensures
        peer_after(peer, total_pieces, seq![0u8] + rest) == (PeerState { choked: true, ..peer }),
        peer_after(peer, total_pieces, seq![1u8] + rest) == (PeerState { choked: false, ..peer }),
        peer_after(peer, total_pieces, seq![2u8] + rest) == (PeerState {
            interested: true,
            ..peer
        }),
        peer_after(peer, total_pieces, seq![3u8] + rest) == (PeerState {
            interested: false,
            ..peer
        }),
        tells(addr, total_pieces, seq![0u8] + rest, r) <==> r == Ok::<
            Option<PeerEvent>,
            PeerError,
        >(Some(PeerEvent::Choke(addr))),
        tells(addr, total_pieces, seq![1u8] + rest, r) <==> r == Ok::<
            Option<PeerEvent>,
            PeerError,
        >(Some(PeerEvent::Unchoke(addr))),
        tells(addr, total_pieces, seq![2u8] + rest, r) <==> r == Ok::<
            Option<PeerEvent>,
            PeerError,
        >(Some(PeerEvent::Interested(addr))),
        tells(addr, total_pieces, seq![3u8] + rest, r) <==> r == Ok::<
            Option<PeerEvent>,
            PeerError,
        >(Some(PeerEvent::NotInterested(addr))),
{
}

/// A have message, whatever follows the number in it, adds that piece and tells
/// of it.
pub proof fn law_have_messages_are_kept(
    peer: PeerState,
    total_pieces: usize,
    index: u32,
    rest: Seq<u8>,
    addr: SocketAddr,
    r: Result<Option<PeerEvent>, PeerError>,
    i: int,
)
    requires
        tells(addr, total_pieces, seq![4u8] + be(index as nat, 4) + rest, r),
    ensures
        r == Ok::<Option<PeerEvent>, PeerError>(Some(PeerEvent::Have(addr, index as usize))),
        ({
            let after = peer_after(peer, total_pieces, seq![4u8] + be(index as nat, 4) + rest);
            &&& after.has(i) <==> i == index || peer.has(i)
            &&& after.choked == peer.choked
            &&& after.interested == peer.interested
            &&& after.addr == peer.addr
            &&& after.id == peer.id
        }),
{
    broadcast use lemma_be_len;

    let data = seq![4u8] + be(index as nat, 4) + rest;
    assert(data.subrange(1, 5) =~= be(index as nat, 4));
    lemma_index_at(data, 1, index);
}

/// A bitfield message tells of the pieces that its bits name, and these are
/// then known of the peer.
pub proof fn law_bitfields_are_kept(
    peer: PeerState,
    total_pieces: usize,
    bitfield: Seq<u8>,
    addr: SocketAddr,
    r: Result<Option<PeerEvent>, PeerError>,
    i: int,
)
    requires
        bitfield.len() > 0,
        0 <= i < total_pieces,
        tells(addr, total_pieces, seq![5u8] + bitfield, r),
    ensures
        peer_after(peer, total_pieces, seq![5u8] + bitfield).has(i) == bit_at(bitfield, i),
        r matches Ok(Some(PeerEvent::Bitfield(a, pieces))) && a == addr && pieces@.len()
            == total_pieces && pieces@[i] == bit_at(bitfield, i),
        peer_after(peer, total_pieces, seq![5u8] + bitfield).choked == peer.choked,
        peer_after(peer, total_pieces, seq![5u8] + bitfield).interested == peer.interested,
{
    assert((seq![5u8] + bitfield).skip(1) =~= bitfield);
}

/// A have, bitfield or piece message that is too short is refused, and nothing
/// becomes known by it; nor by a piece message, or by messages of other kinds,
/// which tell nothing.
pub proof fn law_short_and_other_messages(
    peer: PeerState,
    total_pieces: usize,
    data: Seq<u8>,
    addr: SocketAddr,
    r: Result<Option<PeerEvent>, PeerError>,
)
    requires
        tells(addr, total_pieces, data, r),
    ensures
        data.len() > 0 && data[0] == 4 && data.len() < 5 ==> r == Err::<
            Option<PeerEvent>,
            PeerError,
        >(PeerError::InvalidHave) && peer_after(peer, total_pieces, data) == peer,
        data.len() > 0 && data[0] == 5 && data.len() < 2 ==> r == Err::<
            Option<PeerEvent>,
            PeerError,
        >(PeerError::InvalidBitfield) && peer_after(peer, total_pieces, data) == peer,
        data.len() > 0 && data[0] == 7 && data.len() < 9 ==> r == Err::<
            Option<PeerEvent>,
            PeerError,
        >(PeerError::InvalidPiece),
        data.len() == 0 || data[0] == 6 || data[0] > 7 ==> r == Ok::<Option<PeerEvent>, PeerError>(
            None,
        ),
        data.len() == 0 || data[0] >= 6 ==> peer_after(peer, total_pieces, data) == peer,
{
}

/// What a peer shows is what its fields hold.
pub proof fn law_peers_show_their_fields(peer: Peer)
    ensures
        peer@.id == peer.id,
        peer@.addr == peer.addr,
        peer@.pieces == peer.pieces@,
        peer@.choked == peer.choked,
        peer@.interested == peer.interested,
        peer@.am_choking == peer.am_choking,
        peer@.am_interested == peer.am_interested,
        peer@.last_seen == peer.last_seen,
{
}

/// Where only what is known of the peer changes, the connection is for the same
/// torrent.
pub proof fn law_connections_stay(before: PeerConnection, after: PeerConnection)
    requires
        after.same_but_peer(before),
    ensures
        after == (PeerConnection { peer: after.peer, ..before }),
{
}

} // verus!

//! Fetching metadata from a peer with the extension protocol.
use crate::bencode::{
    decode, decoded, encode, encoded, is_shallow, law_entries_are_found, lemma_insert_within,
    lemma_start_is_shallow, Bencode, Tree, MAX_DEPTH,
};
use crate::digest::{sha1, sha1_of};
use crate::message::{frame, handshake_bytes, protocol_name_bytes};
use crate::text::{decimal, decimal_text};
use crate::wire::{
    be, be_value, buffer_with_capacity, contents, freeze, lemma_be_len, lemma_be_value_of_be,
    lemma_byte_range, put_slice, put_u32, put_u8, same_bytes, u32_at, written,
};
use bytes::Bytes;
use std::collections::HashMap;
use vstd::prelude::*;
use vstd::string::*;

verus! {

/// How many bytes of metadata a piece of it holds: 16 KiB.
pub const METADATA_PIECE_SIZE: usize = 16384;

/// The most metadata that is fetched: 10 MiB.
pub const MAX_METADATA_SIZE: usize = 10_485_760;

/// The bit by which a peer says that it knows extended messages.
pub const EXTENSION_BIT: u8 = 0x10;

/// The message ID of extended messages.
pub const EXTENDED: u8 = 20;

/// The extended message ID of the extended handshake.
pub const EXT_HANDSHAKE_ID: u8 = 0;

/// The extended message ID that the extended handshake gives to metadata
/// messages: peers send theirs under it.
pub const UT_METADATA: u8 = 1;

/// The kind of a metadata message that asks for a piece.
pub const REQUEST: u8 = 0;

/// The kind of a metadata message that brings a piece.
pub const DATA: u8 = 1;

/// Why no metadata comes from a peer.
#[derive(Debug, Clone, Copy, PartialEq, Eq, Structural)]
pub enum FetchError {
    /// The peer does not know extended messages.
    NoExtensions,
    /// The peer answered for another torrent.
    InfoHashMismatch,
    /// The extended handshake does not fit in a message.
    HandshakeTooLong,
    /// A request does not fit in a message.
    RequestTooLong,
    /// The peer has no metadata or too much.
    InvalidSize(usize),
    /// The peer sent other pieces than those that were asked for.
    MissingPiece(usize),
    /// What the peer sent has another hash.
    MetadataMismatch,
    /// Time is up.
    NotFetched,
}

impl FetchError {
    /// What the error says.
    pub open spec fn text(self) -> Seq<char> {
        match self {
            FetchError::NoExtensions => "Peer does not support extended messaging protocol"@,
            FetchError::InfoHashMismatch => "Info hash mismatch in handshake response"@,
            FetchError::HandshakeTooLong => "Failed to encode extended handshake"@,
            FetchError::RequestTooLong => "Failed to encode metadata request"@,
            FetchError::InvalidSize(size) => "Invalid metadata size: "@ + decimal(size as nat),
            FetchError::MissingPiece(i) => "Missing metadata piece "@ + decimal(i as nat),
            FetchError::MetadataMismatch => "Metadata info hash mismatch"@,
            FetchError::NotFetched => "Failed to fetch metadata from peer"@,
        }
    }

    /// What the error says
    pub fn message(&self) -> (s: String)
        ensures
            s@ == self.text(),
    {
        match self {
            FetchError::NoExtensions =>
                "Peer does not support extended messaging protocol".to_string(),
            FetchError::InfoHashMismatch => "Info hash mismatch in handshake response".to_string(),
            FetchError::HandshakeTooLong => "Failed to encode extended handshake".to_string(),
            FetchError::RequestTooLong => "Failed to encode metadata request".to_string(),
            FetchError::InvalidSize(size) => {
                let mut s = "Invalid metadata size: ".to_string();
                s.append(decimal_text(*size as u64).as_str());
                s
            },
            FetchError::MissingPiece(i) => {
                let mut s = "Missing metadata piece ".to_string();
                s.append(decimal_text(*i as u64).as_str());
                s
            },
            FetchError::MetadataMismatch => "Metadata info hash mismatch".to_string(),
            FetchError::NotFetched => "Failed to fetch metadata from peer".to_string(),
        }
    }
}

/// The reserved bytes of a handshake that offers extended messages.
pub open spec fn extension_reserved() -> Seq<u8> {
    seq![0u8, 0u8, 0u8, 0u8, 0u8, EXTENSION_BIT, 0u8, 0u8]
}

/// The handshake that offers extended messages
pub fn extension_handshake(info_hash: &[u8; 20], peer_id: &[u8; 20]) -> (bytes: Bytes)
    ensures
        contents(bytes) == handshake_bytes(extension_reserved(), info_hash@, peer_id@),
{
    let name = protocol_name_bytes();
    let reserved: [u8; 8] = [0, 0, 0, 0, 0, EXTENSION_BIT, 0, 0];
    let mut handshake = buffer_with_capacity(68);
    put_u8(&mut handshake, 19);
    put_slice(&mut handshake, name.as_slice());
    put_slice(&mut handshake, reserved.as_slice());
    put_slice(&mut handshake, info_hash.as_slice());
    put_slice(&mut handshake, peer_id.as_slice());
    proof {
        assert(reserved@ =~= extension_reserved());
        assert(written(handshake) =~= handshake_bytes(
            extension_reserved(),
            info_hash@,
            peer_id@,
        ));
    }
    freeze(handshake)
}

/// Check what a peer answers to the handshake
pub fn check_handshake_response(response: &[u8], info_hash: &[u8; 20]) -> (r: Result<
    (),
    FetchError,
>)
    requires
        response@.len() >= 48,
    ensures
        r == if response@[25] & EXTENSION_BIT == 0 {
            Err::<(), FetchError>(FetchError::NoExtensions)
        } else if response@.subrange(28, 48) != info_hash@ {
            Err::<(), FetchError>(FetchError::InfoHashMismatch)
        } else {
            Ok::<(), FetchError>(())
        },
{
    if response[25] & EXTENSION_BIT == 0 {
        return Err(FetchError::NoExtensions);
    }
    let response_info_hash = vstd::slice::slice_subrange(response, 28, 48);
    if !same_bytes(response_info_hash, info_hash.as_slice()) {
        return Err(FetchError::InfoHashMismatch);
    }
    Ok(())
}

/// The payload fits in an extended message.
pub open spec fn fits(payload: Seq<u8>) -> bool {
    payload.len() <= 0x7fff_fff0
}

/// The bytes of an extended message.
pub open spec fn extended(ext_id: u8, payload: Seq<u8>) -> Seq<u8> {
    frame(EXTENDED, seq![ext_id] + payload)
}

/// Create an extended message
pub fn extended_message(ext_id: u8, payload: &[u8]) -> (bytes: Bytes)
    requires
        fits(payload@),
    ensures
        contents(bytes) == extended(ext_id, payload@),
{
    broadcast use lemma_be_len;

    let mut message = buffer_with_capacity(6 + payload.len());
    put_u32(&mut message, 2 + payload.len() as u32);
    put_u8(&mut message, EXTENDED);
    put_u8(&mut message, ext_id);
    put_slice(&mut message, payload);
    proof {
        assert(written(message) =~= extended(ext_id, payload@));
    }
    freeze(message)
}

/// What the extended handshake says: which ID metadata messages have, and
/// that the size of the metadata is not known.
pub open spec fn handshake_tree() -> Tree {
    let none = Tree::Dict(Map::empty());
    let m = none.insert_named("ut_metadata"@, Tree::Int(UT_METADATA as i64));
    none.insert_named("m"@, m).insert_named("metadata_size"@, Tree::Int(0))
}

/// The extended handshake is not nested too deep.
proof fn lemma_handshake_within()
    ensures
        handshake_tree().within(MAX_DEPTH as nat),
{
    let none = Tree::Dict(Map::empty());
    let id = Tree::Int(UT_METADATA as i64);
    let m = none.insert_named("ut_metadata"@, id);
    lemma_insert_within(none, "ut_metadata"@, id, (MAX_DEPTH - 2) as nat);
    lemma_insert_within(none, "m"@, m, (MAX_DEPTH - 1) as nat);
    lemma_insert_within(
        none.insert_named("m"@, m),
        "metadata_size"@,
        Tree::Int(0),
        (MAX_DEPTH - 1) as nat,
    );
}

/// Create the extended handshake
pub fn extended_handshake() -> (r: Result<Bytes, FetchError>)
    ensures
        match r {
            Ok(bytes) => fits(encoded(handshake_tree())) && contents(bytes) == extended(
                EXT_HANDSHAKE_ID,
                encoded(handshake_tree()),
            ),
            Err(e) => !fits(encoded(handshake_tree())) && e == FetchError::HandshakeTooLong,
        },
{
    let m = Bencode::dict().with("ut_metadata", Bencode::Int(UT_METADATA as i64));
    let dict = Bencode::dict().with("m", m).with("metadata_size", Bencode::Int(0));
    proof {
        lemma_handshake_within();
    }
    let payload = encode(&dict);
    if payload.len() > 0x7fff_fff0 {
        return Err(FetchError::HandshakeTooLong);
    }
    Ok(extended_message(EXT_HANDSHAKE_ID, payload.as_slice()))
}

/// What a request for a piece of the metadata says.
pub open spec fn request_tree(piece: int) -> Tree {
    Tree::Dict(Map::empty()).insert_named("msg_type"@, Tree::Int(REQUEST as i64)).insert_named(
        "piece"@,
        Tree::Int(piece as i64),
    )
}

/// A request is not nested too deep.
proof fn lemma_request_within(piece: int)
    ensures
        request_tree(piece).within(MAX_DEPTH as nat),
{
    let none = Tree::Dict(Map::empty());
    let kind = Tree::Int(REQUEST as i64);
    lemma_insert_within(none, "msg_type"@, kind, (MAX_DEPTH - 1) as nat);
    lemma_insert_within(
        none.insert_named("msg_type"@, kind),
        "piece"@,
        Tree::Int(piece as i64),
        (MAX_DEPTH - 1) as nat,
    );
}

/// The bytes are a request for a piece of the metadata.
pub open spec fn asks_for(bytes: Bytes, ut_metadata_id: u8, piece: int) -> bool {
    &&& fits(encoded(request_tree(piece)))
    &&& contents(bytes) == extended(ut_metadata_id, encoded(request_tree(piece)))
}

/// How many pieces the metadata has.
pub open spec fn piece_count(size: nat) -> nat {
    (size + METADATA_PIECE_SIZE as nat - 1) as nat / METADATA_PIECE_SIZE as nat
}

fn count_pieces(size: usize) -> (n: usize)
    requires
        size <= MAX_METADATA_SIZE,
    ensures
        n == piece_count(size as nat),
        n <= 640,
{
    (size + METADATA_PIECE_SIZE - 1) / METADATA_PIECE_SIZE
}

/// Create the requests for all pieces of the metadata
pub fn metadata_requests(ut_metadata_id: u8, metadata_size: usize) -> (r: Result<
    Vec<Bytes>,
    FetchError,
>)
    requires
        0 < metadata_size <= MAX_METADATA_SIZE,
    ensures
        match r {
            Ok(requests) => {
                &&& requests@.len() == piece_count(metadata_size as nat)
                &&& forall|i: int|
                    0 <= i < requests@.len() ==> asks_for(
                        #[trigger] requests@[i],
                        ut_metadata_id,
                        i,
                    )
            },
            Err(e) => {
                &&& e == FetchError::RequestTooLong
                &&& exists|i: int|
                    0 <= i < piece_count(metadata_size as nat) && !fits(
                        encoded(#[trigger] request_tree(i)),
                    )
            },
        },
{
    let num_pieces = count_pieces(metadata_size);
    let mut requests: Vec<Bytes> = Vec::new();
    let mut piece: usize = 0;
    while piece < num_pieces
        invariant
            piece <= num_pieces <= 640,
            num_pieces == piece_count(metadata_size as nat),
            requests@.len() == piece,
            forall|i: int|
                0 <= i < piece ==> asks_for(#[trigger] requests@[i], ut_metadata_id, i),
        decreases num_pieces - piece,
    {
        let request = Bencode::dict().with("msg_type", Bencode::Int(REQUEST as i64)).with(
            "piece",
            Bencode::Int(piece as i64),
        );
        proof {
            lemma_request_within(piece as int);
            assert(request.tree() == request_tree(piece as int));
        }
        let payload = encode(&request);
        if payload.len() > 0x7fff_fff0 {
            return Err(FetchError::RequestTooLong);
        }
        requests.push(extended_message(ut_metadata_id, payload.as_slice()));
        piece += 1;
    }
    Ok(requests)
}

/// What the exchange with a peer does after a message.
#[derive(Debug)]
pub enum FetchStep {
    /// Waits for the next message.
    Wait,
    /// Sends these messages, one after the other.
    Send(Vec<Bytes>),
    /// Has the metadata.
    Done(Vec<u8>),
    /// Gives up.
    Fail(FetchError),
}

/// The exchange of metadata with one peer
pub struct MetadataFetch {
    pub info_hash: [u8; 20],
    pub metadata_size: usize,
    pub ut_metadata_id: u8,
    pub pieces: HashMap<usize, Vec<u8>>,
}

/// The first pieces of the metadata, one after the other.
pub open spec fn assembled(held: Map<usize, Seq<u8>>, n: nat) -> Seq<u8>
    decreases n,
{
    if n == 0 {
        Seq::empty()
    } else {
        assembled(held, (n - 1) as nat) + held[(n - 1) as usize]
    }
}

/// All of the first `n` pieces are there.
pub open spec fn all_held(held: Map<usize, Seq<u8>>, n: int) -> bool {
    forall|i: usize| i < n ==> #[trigger] held.contains_key(i)
}

/// The pieces make the metadata of the torrent.
pub open spec fn is_metadata(held: Map<usize, Seq<u8>>, n: nat, info_hash: Seq<u8>) -> bool {
    &&& all_held(held, n as int)
    &&& sha1_of(assembled(held, n)) == info_hash
}

/// The number that a peer gives for the size of the metadata.
pub open spec fn offered_size(dict: Tree) -> Option<i64> {
    match dict.named("metadata_size"@) {
        Some(t) => t.integer(),
        None => None,
    }
}

/// The number that a peer gives for the ID of metadata messages.
pub open spec fn offered_id(dict: Tree) -> Option<i64> {
    match dict.named("m"@) {
        Some(m) => match m.named("ut_metadata"@) {
            Some(t) => t.integer(),
            None => None,
        },
        None => None,
    }
}

/// The length of the first part of the payload, from the given length on,
/// that ends in `e` and is a dictionary; 0 where there is none.
pub open spec fn dict_end(payload: Seq<u8>, from: int) -> int
    decreases payload.len() - from,
{
    if from >= payload.len() || from < 0 {
        0
    } else if payload[from] == 101 && (decoded(payload.take(from + 1)) matches Some(t)
        && t is Dict) {
        from + 1
    } else {
        dict_end(payload, from + 1)
    }
}

/// The integer under a key.
pub open spec fn number_under(dict: Tree, key: Seq<char>) -> Option<i64> {
    match dict.named(key) {
        Some(t) => t.integer(),
        None => None,
    }
}

/// The integer under a key
fn read_number(dict: &Bencode, key: &str) -> (r: Option<i64>)
    ensures
        r == number_under(dict.tree(), key@),
{
    match dict.get(key) {
        Some(t) => t.integer(),
        None => None,
    }
}

/// What an extended handshake does: it sets the size of the metadata and the
/// ID of metadata messages, and once both are known all pieces are asked for.
/// A size that is out of range ends the exchange.
pub open spec fn handshake_step(
    before: MetadataFetch,
    after: MetadataFetch,
    dict: Tree,
    r: FetchStep,
) -> bool {
    let size = before.size_after(dict);
    let id = before.id_after(dict);
    &&& after.info_hash == before.info_hash
    &&& after.pieces == before.pieces
    &&& if offered_size(dict) is Some && (size == 0 || size > MAX_METADATA_SIZE) {
        &&& r == FetchStep::Fail(FetchError::InvalidSize(size))
        &&& after.metadata_size == before.metadata_size
        &&& after.ut_metadata_id == before.ut_metadata_id
    } else {
        &&& after.metadata_size == size
        &&& after.ut_metadata_id == id
        &&& if size > 0 && id > 0 {
            asks_for_all(r, id, size)
        } else {
            r is Wait
        }
    }
}

/// All pieces are asked for, unless a request does not fit in a message.
pub open spec fn asks_for_all(r: FetchStep, id: u8, size: usize) -> bool {
    match r {
        FetchStep::Send(requests) => {
            &&& requests@.len() == piece_count(size as nat)
            &&& forall|i: int|
                0 <= i < requests@.len() ==> asks_for(#[trigger] requests@[i], id, i)
        },
        FetchStep::Fail(e) => {
            &&& e == FetchError::RequestTooLong
            &&& exists|i: int|
                0 <= i < piece_count(size as nat) && !fits(encoded(#[trigger] request_tree(i)))
        },
        _ => false,
    }
}

/// What a metadata message does: a piece that it brings is kept, and may
/// complete the metadata. Other messages do nothing.
pub open spec fn metadata_step(
    before: MetadataFetch,
    after: MetadataFetch,
    dict: Tree,
    data: Seq<u8>,
    r: FetchStep,
) -> bool {
    &&& after.info_hash == before.info_hash
    &&& after.metadata_size == before.metadata_size
    &&& after.ut_metadata_id == before.ut_metadata_id
    &&& after.held() == before.held_after(dict, data)
    &&& if MetadataFetch::brings_piece(dict) {
        before.outcome(after.held(), r)
    } else {
        r is Wait
    }
}

impl MetadataFetch {
    /// The pieces of the metadata that are there.
    pub open spec fn held(self) -> Map<usize, Seq<u8>> {
        self.pieces@.map_values(|v: Vec<u8>| v@)
    }

    /// The size that is known is not too large.
    pub open spec fn wf(self) -> bool {
        self.metadata_size <= MAX_METADATA_SIZE
    }

    /// Start an exchange
    pub fn new(info_hash: [u8; 20]) -> (f: Self)
        ensures
            f.info_hash == info_hash,
            f.metadata_size == 0,
            f.ut_metadata_id == 0,
            f.held() == Map::<usize, Seq<u8>>::empty(),
            f.wf(),
    {
        broadcast use vstd::std_specs::hash::group_hash_axioms;

        let f = MetadataFetch {
            info_hash,
            metadata_size: 0,
            ut_metadata_id: 0,
            pieces: HashMap::new(),
        };
        proof {
            assert(f.held() =~= Map::<usize, Seq<u8>>::empty());
        }
        f
    }

    /// The size of the metadata after an extended handshake.
    pub open spec fn size_after(self, dict: Tree) -> usize {
        match offered_size(dict) {
            Some(n) => n as usize,
            None => self.metadata_size,
        }
    }

    /// The ID of metadata messages after an extended handshake.
    pub open spec fn id_after(self, dict: Tree) -> u8 {
        match offered_id(dict) {
            Some(n) => n as u8,
            None => self.ut_metadata_id,
        }
    }

    /// Handle what an extended handshake says: keep the size of the metadata
    /// and the ID of metadata messages, and once both are known ask for all
    /// pieces
    pub fn handle_handshake(&mut self, dict: &Bencode) -> (r: FetchStep)
        requires
            old(self).wf(),
        ensures
            final(self).wf(),
            handshake_step(*old(self), *final(self), dict.tree(), r),
    {
        if let Some(n) = read_number(dict, "metadata_size") {
            let size: usize = n as usize;
            if size == 0 || size > MAX_METADATA_SIZE {
                return FetchStep::Fail(FetchError::InvalidSize(size));
            }
            self.metadata_size = size;
        }
        if let Some(m) = dict.get("m") {
            if let Some(n) = read_number(m, "ut_metadata") {
                self.ut_metadata_id = n as u8;
            }
        }
        if self.metadata_size > 0 && self.ut_metadata_id > 0 {
            match metadata_requests(self.ut_metadata_id, self.metadata_size) {
                Ok(requests) => FetchStep::Send(requests),
                Err(e) => FetchStep::Fail(e),
            }
        } else {
            FetchStep::Wait
        }
    }

    /// The pieces after a metadata message with this dictionary and data.
    pub open spec fn held_after(self, dict: Tree, data: Seq<u8>) -> Map<usize, Seq<u8>> {
        match (number_under(dict, "msg_type"@), number_under(dict, "piece"@)) {
            (Some(kind), Some(piece)) => if kind as u8 == DATA {
                self.held().insert(piece as usize, data)
            } else {
                self.held()
            },
            _ => self.held(),
        }
    }

    /// A metadata message with this dictionary brings a piece.
    pub open spec fn brings_piece(dict: Tree) -> bool {
        match (number_under(dict, "msg_type"@), number_under(dict, "piece"@)) {
            (Some(kind), Some(_)) => kind as u8 == DATA,
            _ => false,
        }
    }

    /// What is done once a piece has come: nothing before there are as many
    /// pieces as there should be; then these make the metadata, or the
    /// exchange fails.
    pub open spec fn outcome(self, held: Map<usize, Seq<u8>>, r: FetchStep) -> bool {
        let n = piece_count(self.metadata_size as nat);
        if held.len() != n {
            r is Wait
        } else {
            match r {
                FetchStep::Done(metadata) => is_metadata(held, n, self.info_hash@) && metadata@
                    == assembled(held, n),
                FetchStep::Fail(FetchError::MissingPiece(i)) => {
                    &&& i < n
                    &&& !held.contains_key(i)
                    &&& all_held(held, i as int)
                },
                FetchStep::Fail(FetchError::MetadataMismatch) => all_held(held, n as int)
                    && sha1_of(assembled(held, n)) != self.info_hash@,
                _ => false,
            }
        }
    }

    /// The metadata from the pieces that are there
    fn assemble(&self) -> (r: FetchStep)
        requires
            self.wf(),
        ensures
            self.held().len() == piece_count(self.metadata_size as nat) ==> self.outcome(
                self.held(),
                r,
            ),
    {
        broadcast use vstd::std_specs::hash::group_hash_axioms;

        let num_pieces = count_pieces(self.metadata_size);
        let mut complete: Vec<u8> = Vec::new();
        let mut i: usize = 0;
        while i < num_pieces
            invariant
                i <= num_pieces,
                num_pieces == piece_count(self.metadata_size as nat),
                all_held(self.held(), i as int),
                complete@ == assembled(self.held(), i as nat),
            decreases num_pieces - i,
        {
            match self.pieces.get(&i) {
                Some(piece) => {
                    complete.extend_from_slice(piece.as_slice());
                },
                None => {
                    assert(!self.held().contains_key(i));
                    return FetchStep::Fail(FetchError::MissingPiece(i));
                },
            }
            i += 1;
        }
        let computed_hash = sha1(complete.as_slice());
        if !same_bytes(computed_hash.as_slice(), self.info_hash.as_slice()) {
            return FetchStep::Fail(FetchError::MetadataMismatch);
        }
        FetchStep::Done(complete)
    }

    /// Handle what a metadata message says, and the data that follows
    pub fn handle_metadata(&mut self, dict: &Bencode, data: &[u8]) -> (r: FetchStep)
        requires
            old(self).wf(),
        ensures
            final(self).wf(),
            metadata_step(*old(self), *final(self), dict.tree(), data@, r),
    {
        broadcast use vstd::std_specs::hash::group_hash_axioms;

        let kind: u8 = match read_number(dict, "msg_type") {
            Some(t) => t as u8,
            None => return FetchStep::Wait,
        };
        let piece: usize = match read_number(dict, "piece") {
            Some(p) => p as usize,
            None => return FetchStep::Wait,
        };
        if kind != DATA {
            return FetchStep::Wait;
        }
        self.pieces.insert(piece, vstd::slice::slice_to_vec(data));
        proof {
            assert(self.held() =~= old(self).held().insert(piece, data@));
            assert(self.held().dom() =~= self.pieces@.dom());
        }
        if self.pieces.len() == count_pieces(self.metadata_size) {
            self.assemble()
        } else {
            FetchStep::Wait
        }
    }

    /// The payload of a message under this ID is read.
    pub open spec fn reads(self, ext_id: u8) -> bool {
        ext_id == EXT_HANDSHAKE_ID || (is_metadata_id(self, ext_id) && self.metadata_size > 0)
    }

    /// Tells whether the payload of a message under this ID is read
    pub fn is_read(&self, ext_id: u8) -> (r: bool)
        ensures
            r == self.reads(ext_id),
    {
        ext_id == EXT_HANDSHAKE_ID || ((ext_id == UT_METADATA || ext_id == self.ut_metadata_id)
            && self.metadata_size > 0)
    }

    /// Handle an extended message
    pub fn handle_extended(&mut self, ext_id: u8, payload: &[u8]) -> (r: FetchStep)
        requires
            old(self).wf(),
            old(self).reads(ext_id) ==> is_shallow(payload@),
        ensures
            final(self).wf(),
            extended_step(*old(self), *final(self), ext_id, payload@, r),
    {
        if ext_id == EXT_HANDSHAKE_ID {
            match decode(payload) {
                Some(dict) => if dict.is_dict() {
                    self.handle_handshake(&dict)
                } else {
                    FetchStep::Wait
                },
                None => FetchStep::Wait,
            }
        } else if self.is_read(ext_id) {
            match split_payload(payload) {
                Some((dict, end)) => {
                    let data = vstd::slice::slice_subrange(payload, end, payload.len());
                    proof {
                        assert(data@ =~= payload@.skip(end as int));
                    }
                    self.handle_metadata(&dict, data)
                },
                None => FetchStep::Wait,
            }
        } else {
            FetchStep::Wait
        }
    }
}

/// The dictionary at the start of a payload, and its length
fn split_payload(payload: &[u8]) -> (r: Option<(Bencode, usize)>)
    requires
        is_shallow(payload@),
    ensures
        match r {
            Some((dict, end)) => {
                &&& 0 < end <= payload@.len()
                &&& end == dict_end(payload@, 0)
                &&& decoded(payload@.take(end as int)) == Some(dict.tree())
            },
            None => dict_end(payload@, 0) == 0,
        },
{
    let mut i: usize = 0;
    while i < payload.len()
        invariant
            i <= payload@.len(),
            is_shallow(payload@),
            dict_end(payload@, 0) == dict_end(payload@, i as int),
        decreases payload@.len() - i,
    {
        if payload[i] == 101 {
            let start = vstd::slice::slice_subrange(payload, 0, i + 1);
            proof {
                assert(start@ =~= payload@.take(i + 1));
                lemma_start_is_shallow(payload@, (i + 1) as nat);
            }
            if let Some(dict) = decode(start) {
                if dict.is_dict() {
                    return Some((dict, i + 1));
                }
            }
        }
        i += 1;
    }
    None
}

/// A metadata message comes under this ID: the one that the extended
/// handshake gave to the peer, or the one that the peer itself uses.
pub open spec fn is_metadata_id(fetch: MetadataFetch, ext_id: u8) -> bool {
    ext_id == UT_METADATA || ext_id == fetch.ut_metadata_id
}

/// What an extended message does. A handshake that is no dictionary, a
/// metadata message that does not start with one, and messages of another
/// kind are ignored.
pub open spec fn extended_step(
    before: MetadataFetch,
    after: MetadataFetch,
    ext_id: u8,
    payload: Seq<u8>,
    r: FetchStep,
) -> bool {
    let end = dict_end(payload, 0);
    if ext_id == EXT_HANDSHAKE_ID && (decoded(payload) matches Some(t) && t is Dict) {
        handshake_step(before, after, decoded(payload)->0, r)
    } else if ext_id != EXT_HANDSHAKE_ID && is_metadata_id(before, ext_id)
        && before.metadata_size > 0 && end > 0 {
        metadata_step(before, after, decoded(payload.take(end))->0, payload.skip(end), r)
    } else {
        r is Wait && after == before
    }
}

/// What is read next from the peer.
#[derive(Debug, Clone, Copy, PartialEq, Eq, Structural)]
pub enum FetchStage {
    /// The answer to the handshake.
    Handshake,
    /// The length of a message.
    Length,
    /// The ID of a message. Holds the length, which counts the ID.
    Id(u32),
    /// The ID of an extended message. Holds the length of its payload.
    ExtendedId(usize),
    /// The payload of an extended message. Holds its ID and the length.
    Payload(u8, usize),
    /// What is not looked at of another message. Holds the length.
    Skipped(usize),
}

impl FetchStage {
    /// How many bytes are read.
    pub open spec fn size(self) -> usize {
        match self {
            FetchStage::Handshake => 68,
            FetchStage::Length => 4,
            FetchStage::Id(_) => 1,
            FetchStage::ExtendedId(_) => 1,
            FetchStage::Payload(_, len) => len,
            FetchStage::Skipped(len) => len,
        }
    }

    /// What is said where the bytes cannot be read.
    pub open spec fn failure_text(self) -> Seq<char> {
        match self {
            FetchStage::Handshake => "Handshake response timed out"@,
            FetchStage::Length => "Failed to read message length"@,
            FetchStage::Id(_) => "Failed to read message ID"@,
            FetchStage::ExtendedId(_) => "Failed to read extended message ID"@,
            FetchStage::Payload(_, _) => "Failed to read extended message payload"@,
            FetchStage::Skipped(_) => "Failed to read message payload"@,
        }
    }
}

/// The whole conversation with a peer about the metadata, from the handshake
/// on
pub struct FetchSession {
    pub stage: FetchStage,
    pub fetch: MetadataFetch,
}

/// The number that bytes stand for.
pub open spec fn length_in(bytes: Seq<u8>) -> u32 {
    be_value(bytes.subrange(0, 4)) as u32
}

/// What a session does with the bytes that it asked for.
pub open spec fn session_step(
    before: FetchSession,
    after: FetchSession,
    bytes: Seq<u8>,
    r: FetchStep,
) -> bool {
    match before.stage {
        FetchStage::Handshake => {
            &&& after.fetch == before.fetch
            &&& if bytes[25] & EXTENSION_BIT == 0 {
                r == FetchStep::Fail(FetchError::NoExtensions) && after.stage == before.stage
            } else if bytes.subrange(28, 48) != before.fetch.info_hash@ {
                r == FetchStep::Fail(FetchError::InfoHashMismatch) && after.stage == before.stage
            } else if !fits(encoded(handshake_tree())) {
                r == FetchStep::Fail(FetchError::HandshakeTooLong) && after.stage == before.stage
            } else {
                &&& r matches FetchStep::Send(messages) && messages@.len() == 1 && contents(
                    messages@[0],
                ) == extended(EXT_HANDSHAKE_ID, encoded(handshake_tree()))
                &&& after.stage == FetchStage::Length
            }
        },
        FetchStage::Length => {
            &&& r is Wait
            &&& after.fetch == before.fetch
            &&& after.stage == if length_in(bytes) == 0 {
                FetchStage::Length
            } else {
                FetchStage::Id(length_in(bytes))
            }
        },
        FetchStage::Id(len) => {
            &&& r is Wait
            &&& after.fetch == before.fetch
            &&& after.stage == if bytes[0] == EXTENDED {
                FetchStage::ExtendedId((len - 2) as usize)
            } else {
                FetchStage::Skipped((len - 1) as usize)
            }
        },
        FetchStage::ExtendedId(len) => {
            &&& r is Wait
            &&& after.fetch == before.fetch
            &&& after.stage == FetchStage::Payload(bytes[0], len)
        },
        FetchStage::Payload(ext_id, _) => {
            &&& extended_step(before.fetch, after.fetch, ext_id, bytes, r)
            &&& after.stage == FetchStage::Length
        },
        FetchStage::Skipped(_) => {
            &&& r is Wait
            &&& after.fetch == before.fetch
            &&& after.stage == FetchStage::Length
        },
    }
}

impl FetchSession {
    /// The exchange is in order, and a message is not empty.
    pub open spec fn wf(self) -> bool {
        &&& self.fetch.wf()
        &&& self.stage matches FetchStage::Id(len) ==> len >= 1
    }

    /// Start a session. Its first message is the handshake.
    pub fn start(info_hash: [u8; 20], peer_id: [u8; 20]) -> (r: (Self, Bytes))
        ensures
            r.0.stage == FetchStage::Handshake,
            r.0.fetch.info_hash == info_hash,
            r.0.fetch.metadata_size == 0,
            r.0.fetch.ut_metadata_id == 0,
            r.0.fetch.held() == Map::<usize, Seq<u8>>::empty(),
            r.0.wf(),
            contents(r.1) == handshake_bytes(extension_reserved(), info_hash@, peer_id@),
    {
        let handshake = extension_handshake(&info_hash, &peer_id);
        (
            FetchSession {
                stage: FetchStage::Handshake,
                fetch: MetadataFetch::new(info_hash),
            },
            handshake,
        )
    }

    /// How many bytes to read next
    pub fn wanted(&self) -> (n: usize)
        ensures
            n == self.stage.size(),
    {
        match self.stage {
            FetchStage::Handshake => 68,
            FetchStage::Length => 4,
            FetchStage::Id(_) => 1,
            FetchStage::ExtendedId(_) => 1,
            FetchStage::Payload(_, len) => len,
            FetchStage::Skipped(len) => len,
        }
    }

    /// What to say where they cannot be read
    pub fn failure_text(&self) -> (s: &'static str)
        ensures
            s@ == self.stage.failure_text(),
    {
        match self.stage {
            FetchStage::Handshake => "Handshake response timed out",
            FetchStage::Length => "Failed to read message length",
            FetchStage::Id(_) => "Failed to read message ID",
            FetchStage::ExtendedId(_) => "Failed to read extended message ID",
            FetchStage::Payload(_, _) => "Failed to read extended message payload",
            FetchStage::Skipped(_) => "Failed to read message payload",
        }
    }

    /// Tells whether the next message has not begun
    pub fn is_between_messages(&self) -> (r: bool)
        ensures
            r == (self.stage == FetchStage::Length),
    {
        self.stage == FetchStage::Length
    }

    /// Take the bytes that were asked for. An extended message counts at
    /// least its two IDs.
    pub fn take(&mut self, bytes: &[u8]) -> (r: FetchStep)
        requires
            old(self).wf(),
            bytes@.len() == old(self).stage.size(),
            old(self).stage matches FetchStage::Id(len) ==> bytes@[0] == EXTENDED ==> len >= 2,
            old(self).stage matches FetchStage::Payload(ext_id, _) ==> old(self).fetch.reads(ext_id)
                ==> is_shallow(bytes@),
        ensures
            final(self).wf(),
            session_step(*old(self), *final(self), bytes@, r),
    {
        match self.stage {
            FetchStage::Handshake => {
                if let Err(e) = check_handshake_response(bytes, &self.fetch.info_hash) {
                    return FetchStep::Fail(e);
                }
                match extended_handshake() {
                    Ok(message) => {
                        self.stage = FetchStage::Length;
                        let mut messages: Vec<Bytes> = Vec::new();
                        messages.push(message);
                        FetchStep::Send(messages)
                    },
                    Err(e) => FetchStep::Fail(e),
                }
            },
            FetchStage::Length => {
                let len = u32_at(bytes, 0);
                self.stage = if len == 0 {
                    FetchStage::Length
                } else {
                    FetchStage::Id(len)
                };
                FetchStep::Wait
            },
            FetchStage::Id(len) => {
                self.stage = if bytes[0] == EXTENDED {
                    FetchStage::ExtendedId((len - 2) as usize)
                } else {
                    FetchStage::Skipped((len - 1) as usize)
                };
                FetchStep::Wait
            },
            FetchStage::ExtendedId(len) => {
                self.stage = FetchStage::Payload(bytes[0], len);
                FetchStep::Wait
            },
            FetchStage::Payload(ext_id, _) => {
                self.stage = FetchStage::Length;
                self.fetch.handle_extended(ext_id, bytes)
            },
            FetchStage::Skipped(_) => {
                self.stage = FetchStage::Length;
                FetchStep::Wait
            },
        }
    }
}

/// What comes out of a session has the hash by which the torrent was asked
/// for, whatever the peer sends.
pub proof fn law_session_gives_the_right_metadata(
    before: FetchSession,
    after: FetchSession,
    bytes: Seq<u8>,
    metadata: Vec<u8>,
)
    requires
        session_step(before, after, bytes, FetchStep::Done(metadata)),
    ensures
        sha1_of(metadata@) == before.fetch.info_hash@,
{
}

/// The answer to the handshake is accepted: it offers extended messages and is
/// for the torrent.
pub open spec fn is_accepted(response: Seq<u8>, info_hash: Seq<u8>) -> bool {
    &&& response[25] & EXTENSION_BIT != 0
    &&& response.subrange(28, 48) == info_hash
}

/// The session goes on after this step.
pub open spec fn goes_on(step: FetchStep) -> bool {
    step is Wait || step is Send
}

/// A run of a session: from the start on each step takes some bytes, and goes
/// on to the next.
pub open spec fn is_run(
    sessions: Seq<FetchSession>,
    bytes: Seq<Seq<u8>>,
    steps: Seq<FetchStep>,
) -> bool {
    &&& sessions.len() == bytes.len() + 1
    &&& steps.len() == bytes.len()
    &&& sessions[0].stage == FetchStage::Handshake
    &&& forall|i: int|
        0 <= i < bytes.len() ==> session_step(
            sessions[i],
            sessions[i + 1],
            #[trigger] bytes[i],
            steps[i],
        )
    &&& forall|i: int| 0 <= i < steps.len() - 1 ==> goes_on(#[trigger] steps[i])
}

/// A run stays with the torrent, and after its first step it is past the
/// handshake, which was then accepted.
proof fn lemma_run(
    sessions: Seq<FetchSession>,
    bytes: Seq<Seq<u8>>,
    steps: Seq<FetchStep>,
    n: int,
)
    requires
        is_run(sessions, bytes, steps),
        0 <= n < bytes.len(),
    ensures
        sessions[n].fetch.info_hash == sessions[0].fetch.info_hash,
        n > 0 ==> sessions[n].stage != FetchStage::Handshake,
        n > 0 ==> is_accepted(bytes[0], sessions[0].fetch.info_hash@),
    decreases n,
{
    if n > 0 {
        lemma_run(sessions, bytes, steps, n - 1);
        assert(session_step(sessions[n - 1], sessions[n - 1 + 1], bytes[n - 1], steps[n - 1]));
        assert(goes_on(steps[n - 1]));
    }
}

/// A run that ends with metadata began with an accepted handshake, and the
/// metadata have the hash by which the torrent was asked for.
pub proof fn law_metadata_come_after_an_accepted_handshake(
    sessions: Seq<FetchSession>,
    bytes: Seq<Seq<u8>>,
    steps: Seq<FetchStep>,
)
    requires
        is_run(sessions, bytes, steps),
        steps.len() > 0,
        steps.last() is Done,
    ensures
        bytes.len() > 1,
        is_accepted(bytes[0], sessions[0].fetch.info_hash@),
        sha1_of(steps.last()->Done_0@) == sessions[0].fetch.info_hash@,
{
    let n = bytes.len() - 1;
    lemma_run(sessions, bytes, steps, n);
    assert(session_step(sessions[n], sessions[n + 1], bytes[n], steps[n]));
}

/// What comes out of an exchange has the hash by which the torrent was asked
/// for, whatever the peer sends.
pub proof fn law_fetched_metadata_has_the_info_hash(
    before: MetadataFetch,
    after: MetadataFetch,
    ext_id: u8,
    payload: Seq<u8>,
    metadata: Vec<u8>,
)
    requires
        extended_step(before, after, ext_id, payload, FetchStep::Done(metadata)),
    ensures
        sha1_of(metadata@) == before.info_hash@,
{
}

/// Once the pieces of the metadata are there, in whatever order they came,
/// the exchange is done.
pub proof fn law_all_pieces_make_the_metadata(
    fetch: MetadataFetch,
    held: Map<usize, Seq<u8>>,
    r: FetchStep,
)
    requires
        held.len() == piece_count(fetch.metadata_size as nat),
        is_metadata(held, piece_count(fetch.metadata_size as nat), fetch.info_hash@),
        fetch.outcome(held, r),
    ensures
        r is Done,
        r->Done_0@ == assembled(held, piece_count(fetch.metadata_size as nat)),
{
}

/// A piece that comes under the ID that the extended handshake gave to the
/// peer is read, whatever ID the peer itself uses: where it is the last one and
/// the pieces have the right hash, the exchange is done with the metadata.
pub proof fn law_piece_under_the_announced_id_completes_the_metadata(
    before: MetadataFetch,
    after: MetadataFetch,
    payload: Seq<u8>,
    r: FetchStep,
)
    requires
        before.metadata_size > 0,
        dict_end(payload, 0) > 0,
        ({
            let end = dict_end(payload, 0);
            let dict = decoded(payload.take(end))->0;
            let held = before.held_after(dict, payload.skip(end));
            let n = piece_count(before.metadata_size as nat);
            &&& MetadataFetch::brings_piece(dict)
            &&& held.len() == n
            &&& is_metadata(held, n, before.info_hash@)
        }),
        extended_step(before, after, UT_METADATA, payload, r),
    ensures
        r is Done,
        r->Done_0@ == assembled(
            before.held_after(
                decoded(payload.take(dict_end(payload, 0)))->0,
                payload.skip(dict_end(payload, 0)),
            ),
            piece_count(before.metadata_size as nat),
        ),
{
}

/// Metadata that fits in one piece is what the peer sends as that piece: the
/// exchange is done with the data that follow the dictionary, where they have
/// the right hash.
pub proof fn law_one_piece_is_the_metadata(
    before: MetadataFetch,
    after: MetadataFetch,
    payload: Seq<u8>,
    r: FetchStep,
)
    requires
        0 < before.metadata_size <= METADATA_PIECE_SIZE,
        before.held() == Map::<usize, Seq<u8>>::empty(),
        dict_end(payload, 0) > 0,
        ({
            let dict = decoded(payload.take(dict_end(payload, 0)))->0;
            &&& MetadataFetch::brings_piece(dict)
            &&& number_under(dict, "piece"@) == Some(0i64)
        }),
        sha1_of(payload.skip(dict_end(payload, 0))) == before.info_hash@,
        extended_step(before, after, UT_METADATA, payload, r),
    ensures
        r is Done,
        r->Done_0@ == payload.skip(dict_end(payload, 0)),
{
    let end = dict_end(payload, 0);
    let data = payload.skip(end);
    let held = before.held_after(decoded(payload.take(end))->0, data);
    assert(piece_count(before.metadata_size as nat) == 1);
    assert(held == before.held().insert(0usize, data));
    assert(held.len() == 1);
    reveal_with_fuel(assembled, 2);
    assert(assembled(held, 1) =~= data);
}

/// The pieces that are asked for are as many as it takes to hold the
/// metadata.
pub proof fn law_requests_cover_the_metadata(size: nat)
    requires
        size > 0,
    ensures
        piece_count(size) * METADATA_PIECE_SIZE >= size,
        (piece_count(size) - 1) * METADATA_PIECE_SIZE < size,
{
}

/// The first pieces of the metadata, end to end.
pub open spec fn pieces_in_order(pieces: Map<usize, Vec<u8>>, n: nat) -> Seq<Seq<u8>> {
    Seq::new(n, |i: int| pieces[i as usize]@)
}

/// The pieces are put together in the order of their numbers.
proof fn lemma_assembled_in_order(fetch: MetadataFetch, n: nat)
    requires
        forall|i: usize| i < n ==> #[trigger] fetch.pieces@.contains_key(i),
        n <= usize::MAX,
    ensures
        assembled(fetch.held(), n) == pieces_in_order(fetch.pieces@, n).flatten(),
    decreases n,
{
    let all = pieces_in_order(fetch.pieces@, n);
    if n > 0 {
        let m = (n - 1) as nat;
        lemma_assembled_in_order(fetch, m);
        let front = pieces_in_order(fetch.pieces@, m);
        let last = fetch.pieces@[m as usize]@;
        assert(fetch.pieces@.contains_key(m as usize));
        assert(all =~= front.push(last));
        front.lemma_flatten_push(last);
    } else {
        assert(all =~= Seq::empty());
        assert(assembled(fetch.held(), n) =~= all.flatten());
    }
}

/// A message that says it brings data of a piece keeps the data as that piece,
/// whatever other entries its dictionary has. All other pieces stay as they
/// were, and so does all else that is known.
pub proof fn law_data_messages_are_kept(
    before: MetadataFetch,
    after: MetadataFetch,
    dict: Tree,
    data: Seq<u8>,
    r: FetchStep,
    kind: i64,
    piece: i64,
)
    requires
        metadata_step(before, after, dict, data, r),
        dict.named("msg_type"@) == Some(Tree::Int(kind)),
        kind as u8 == 1,
        dict.named("piece"@) == Some(Tree::Int(piece)),
    ensures
        after.pieces@.contains_key(piece as usize),
        after.pieces@[piece as usize]@ == data,
        forall|k: usize|
            k != piece as usize ==> (#[trigger] after.pieces@.contains_key(k)
                <==> before.pieces@.contains_key(k)),
        forall|k: usize|
            k != piece as usize && before.pieces@.contains_key(k) ==> (#[trigger] after.pieces@[k])@
                == before.pieces@[k]@,
        after.held() == before.held().insert(piece as usize, data),
        after.info_hash == before.info_hash,
        after.metadata_size == before.metadata_size,
        after.ut_metadata_id == before.ut_metadata_id,
{
    let p = piece as usize;
    assert(after.held() == before.held().insert(p, data));
    assert(after.held().contains_key(p));
    assert(after.held()[p] == data);
    assert forall|k: usize| k != p implies (#[trigger] after.pieces@.contains_key(k)
        <==> before.pieces@.contains_key(k)) by {
        assert(after.held().contains_key(k) == before.held().contains_key(k));
    }
    assert forall|k: usize| k != p && before.pieces@.contains_key(k) implies (
    #[trigger] after.pieces@[k])@ == before.pieces@[k]@ by {
        assert(after.held().contains_key(k) == before.held().contains_key(k));
        assert(after.held()[k] == before.held()[k]);
    }
}

/// The number of pieces that metadata of this size have.
pub open spec fn is_count_for(size: nat, n: nat) -> bool {
    &&& n * 16384 >= size
    &&& n > 0 ==> (n - 1) * 16384 < size
}

/// After a message with data the exchange waits as long as there are not as
/// many pieces as there should be. Then it is done where they are the right
/// ones and, end to end in their order, have the hash of the torrent; and it
/// fails where one is missing or the hash is another.
pub proof fn law_the_last_piece_decides(
    before: MetadataFetch,
    after: MetadataFetch,
    dict: Tree,
    data: Seq<u8>,
    r: FetchStep,
    kind: i64,
    piece: i64,
    n: nat,
)
    requires
        before.wf(),
        metadata_step(before, after, dict, data, r),
        dict.named("msg_type"@) == Some(Tree::Int(kind)),
        kind as u8 == 1,
        dict.named("piece"@) == Some(Tree::Int(piece)),
        before.metadata_size > 0,
        is_count_for(before.metadata_size as nat, n),
    ensures
        after.pieces@.dom().len() != n ==> r is Wait,
        after.pieces@.dom().len() == n && (forall|i: usize|
            i < n ==> #[trigger] after.pieces@.contains_key(i)) && sha1_of(
            pieces_in_order(after.pieces@, n).flatten(),
        ) == before.info_hash@ ==> r is Done && r->Done_0@ == pieces_in_order(
            after.pieces@,
            n,
        ).flatten(),
        after.pieces@.dom().len() == n && (forall|i: usize|
            i < n ==> #[trigger] after.pieces@.contains_key(i)) && sha1_of(
            pieces_in_order(after.pieces@, n).flatten(),
        ) != before.info_hash@ ==> r == FetchStep::Fail(FetchError::MetadataMismatch),
        after.pieces@.dom().len() == n && !(forall|i: usize|
            i < n ==> #[trigger] after.pieces@.contains_key(i)) ==> (r matches FetchStep::Fail(
            FetchError::MissingPiece(i),
        ) && i < n && !after.pieces@.contains_key(i) && (forall|k: usize|
            k < i ==> #[trigger] after.pieces@.contains_key(k))),
{
    let size = before.metadata_size as nat;
    assert(n == piece_count(size));
    assert(n <= usize::MAX);
    assert(after.held().dom() =~= after.pieces@.dom());
    assert(MetadataFetch::brings_piece(dict));
    assert(before.outcome(after.held(), r));
    if forall|i: usize| i < n ==> #[trigger] after.pieces@.contains_key(i) {
        lemma_assembled_in_order(after, n);
        assert(all_held(after.held(), n as int)) by {
            assert forall|i: usize| i < n implies #[trigger] after.held().contains_key(i) by {
                assert(after.pieces@.contains_key(i));
            }
        }
    } else {
        let i = choose|i: usize| i < n && !#[trigger] after.pieces@.contains_key(i);
        assert(!after.held().contains_key(i));
        assert(!all_held(after.held(), n as int));
    }
}

/// Where all metadata fit in one piece, that piece alone decides.
pub proof fn law_a_single_piece_decides(
    before: MetadataFetch,
    after: MetadataFetch,
    dict: Tree,
    data: Seq<u8>,
    r: FetchStep,
)
    requires
        before.wf(),
        metadata_step(before, after, dict, data, r),
        dict.named("msg_type"@) == Some(Tree::Int(1)),
        dict.named("piece"@) == Some(Tree::Int(0)),
        0 < before.metadata_size <= 16384,
        before.pieces@ == Map::<usize, Vec<u8>>::empty(),
    ensures
        sha1_of(data) == before.info_hash@ ==> r is Done && r->Done_0@ == data,
        sha1_of(data) != before.info_hash@ ==> r == FetchStep::Fail(FetchError::MetadataMismatch),
{
    law_data_messages_are_kept(before, after, dict, data, r, 1, 0);
    assert(after.pieces@.dom() =~= Set::empty().insert(0usize)) by {
        assert forall|k: usize| after.pieces@.dom().contains(k) <==> k == 0 by {
            assert(after.pieces@.contains_key(k) <==> k == 0);
        }
    }
    law_the_last_piece_decides(before, after, dict, data, r, 1, 0, 1);
    let all = pieces_in_order(after.pieces@, 1);
    assert(all =~= Seq::empty().push(data));
    Seq::<Seq<u8>>::empty().lemma_flatten_push(data);
    assert(Seq::<Seq<u8>>::empty().flatten() =~= Seq::<u8>::empty());
    assert(all.flatten() =~= data);
}

/// A metadata message that asks for a piece, refuses one, or does not say which
/// piece it is about, changes nothing.
pub proof fn law_other_metadata_messages_change_nothing(
    before: MetadataFetch,
    after: MetadataFetch,
    dict: Tree,
    data: Seq<u8>,
    r: FetchStep,
)
    requires
        metadata_step(before, after, dict, data, r),
        !(dict.named("msg_type"@) is Some && dict.named("msg_type"@)->0 is Int) || !(dict.named(
            "piece"@,
        ) is Some && dict.named("piece"@)->0 is Int) || dict.named("msg_type"@)->0->Int_0 as u8
            != 1,
    ensures
        r is Wait,
        after.held() == before.held(),
        after.metadata_size == before.metadata_size,
        after.ut_metadata_id == before.ut_metadata_id,
        after.info_hash == before.info_hash,
{
}

/// An extended handshake that gives the size of the metadata and an ID for
/// metadata messages, whatever else it says, sets both, and all pieces are asked
/// for under that ID. A size that is out of range ends the exchange.
pub proof fn law_offers_are_taken_up(
    before: MetadataFetch,
    after: MetadataFetch,
    dict: Tree,
    r: FetchStep,
    m: Tree,
    size: i64,
    id: i64,
)
    requires
        handshake_step(before, after, dict, r),
        dict.named("metadata_size"@) == Some(Tree::Int(size)),
        dict.named("m"@) == Some(m),
        m.named("ut_metadata"@) == Some(Tree::Int(id)),
    ensures
        0 < size as usize <= 10_485_760 ==> after.metadata_size == size as usize
            && after.ut_metadata_id == id as u8 && after.pieces == before.pieces && after.info_hash
            == before.info_hash,
        0 < size as usize <= 10_485_760 && id as u8 == 0 ==> r is Wait,
        0 < size as usize <= 10_485_760 && r is Send ==> ({
            let requests = r->Send_0@;
            &&& is_count_for(size as usize as nat, requests.len())
            &&& forall|i: int|
                0 <= i < requests.len() ==> is_request(#[trigger] requests[i], id as u8, i)
        }),
        0 < size as usize <= 10_485_760 && id as u8 > 0 && (forall|i: int|
            0 <= i && i * 16384 < size as usize ==> encoded(#[trigger] request_tree(i)).len()
                <= 0x7fff_fff0) ==> r is Send,
        size as usize == 0 || size as usize > 10_485_760 ==> r == FetchStep::Fail(
            FetchError::InvalidSize(size as usize),
        ) && after == before,
{
    let wanted = size as usize;
    let their_id = id as u8;
    if 0 < wanted <= 10_485_760 && their_id > 0 {
        assert(asks_for_all(r, their_id, wanted));
        if r is Send {
            let requests = r->Send_0@;
            assert forall|i: int| 0 <= i < requests.len() implies is_request(
                #[trigger] requests[i],
                their_id,
                i,
            ) by {
                assert(asks_for(requests[i], their_id, i));
                lemma_request_entries(i);
                lemma_extended_bytes(their_id, encoded(request_tree(i)));
                assert(carries(requests[i], their_id, request_tree(i)));
            }
        }
        if r is Fail {
            let i = choose|i: int|
                0 <= i < piece_count(wanted as nat) && !fits(encoded(#[trigger] request_tree(i)));
            assert(i * 16384 < wanted);
        }
    }
}

/// The bytes are an extended message with a dictionary that asks for a piece.
pub open spec fn is_request(bytes: Bytes, id: u8, piece: int) -> bool {
    exists|tree: Tree| #[trigger] carries(bytes, id, tree) && tree.named("msg_type"@) == Some(
        Tree::Int(0),
    ) && tree.named("piece"@) == Some(Tree::Int(piece as i64))
}

/// The bytes are the length of what follows, the ID of extended messages, the
/// extended ID, and the value in bencoded form.
pub open spec fn carries(bytes: Bytes, id: u8, tree: Tree) -> bool {
    contents(bytes) == be((2 + encoded(tree).len()) as nat, 4) + seq![20u8, id] + encoded(tree)
}

/// What an extended message is made of.
proof fn lemma_extended_bytes(ext_id: u8, payload: Seq<u8>)
    ensures
        extended(ext_id, payload) == be((2 + payload.len()) as nat, 4) + seq![20u8, ext_id]
            + payload,
{
    broadcast use lemma_be_len;

    assert((seq![ext_id] + payload).len() == 1 + payload.len());
    assert(extended(ext_id, payload) =~= be((2 + payload.len()) as nat, 4) + seq![20u8, ext_id]
        + payload);
}

/// What a request says.
proof fn lemma_request_entries(piece: int)
    ensures
        request_tree(piece).named("msg_type"@) == Some(Tree::Int(0)),
        request_tree(piece).named("piece"@) == Some(Tree::Int(piece as i64)),
{
    reveal_strlit("msg_type");
    reveal_strlit("piece");
    let none = Tree::Dict(Map::empty());
    let kind = Tree::Int(REQUEST as i64);
    assert("msg_type"@.len() != "piece"@.len());
    law_entries_are_found(none, "msg_type"@, kind, "msg_type"@);
    law_entries_are_found(
        none.insert_named("msg_type"@, kind),
        "piece"@,
        Tree::Int(piece as i64),
        "msg_type"@,
    );
}

/// Of an extended handshake that gives only a size, or only an ID, or neither,
/// what it gives is taken, and what it does not give stays as it was. Pieces
/// are asked for as soon as both are known, whichever came first.
pub proof fn law_offers_may_come_apart(
    before: MetadataFetch,
    after: MetadataFetch,
    dict: Tree,
    r: FetchStep,
    m: Tree,
    size: i64,
    id: i64,
)
    requires
        before.wf(),
        handshake_step(before, after, dict, r),
        0 < size <= 10_485_760,
        0 < id < 256,
    ensures
        dict.named("metadata_size"@) == Some(Tree::Int(size)) && dict.named("m"@) is None
            ==> after.metadata_size == size && after.ut_metadata_id == before.ut_metadata_id && (
        before.ut_metadata_id == 0 ==> r is Wait) && (before.ut_metadata_id > 0 ==> r is Send
            || r is Fail),
        dict.named("metadata_size"@) is None && dict.named("m"@) == Some(m) && m.named(
            "ut_metadata"@,
        ) == Some(Tree::Int(id)) ==> after.metadata_size == before.metadata_size
            && after.ut_metadata_id == id && (before.metadata_size == 0 ==> r is Wait) && (
        before.metadata_size > 0 ==> r is Send || r is Fail),
        dict.named("metadata_size"@) is None && dict.named("m"@) is None ==> after.metadata_size
            == before.metadata_size && after.ut_metadata_id == before.ut_metadata_id,
        after.pieces == before.pieces,
        after.info_hash == before.info_hash,
{
}

/// The dictionary at the start of a message is the shortest part of it that
/// ends in `e` and is one.
pub proof fn law_the_dictionary_comes_first(payload: Seq<u8>, head: Seq<u8>, data: Seq<u8>)
    requires
        payload == head + data,
        head.len() > 0,
        head.last() == 101,
        decoded(head) is Some,
        decoded(head)->0 is Dict,
        forall|j: int|
            0 <= j < head.len() - 1 && head[j] == 101 ==> !(decoded(#[trigger] head.take(j + 1))
                is Some && decoded(head.take(j + 1))->0 is Dict),
    ensures
        dict_end(payload, 0) == head.len(),
        payload.take(dict_end(payload, 0)) == head,
        payload.skip(dict_end(payload, 0)) == data,
{
    assert(payload.take(head.len() as int) =~= head);
    lemma_dict_end(payload, head, 0);
    assert(payload.skip(head.len() as int) =~= data);
}

/// The search for the end of the dictionary stops behind the first part that is
/// one.
proof fn lemma_dict_end(payload: Seq<u8>, head: Seq<u8>, from: int)
    requires
        0 <= from < head.len() <= payload.len(),
        payload.take(head.len() as int) == head,
        head.last() == 101,
        decoded(head) is Some,
        decoded(head)->0 is Dict,
        forall|j: int|
            0 <= j < head.len() - 1 && head[j] == 101 ==> !(decoded(#[trigger] head.take(j + 1))
                is Some && decoded(head.take(j + 1))->0 is Dict),
    ensures
        dict_end(payload, from) == head.len(),
    decreases head.len() - from,
{
    assert(payload[from] == payload.take(head.len() as int)[from]);
    if from < head.len() - 1 {
        assert(payload.take(from + 1) =~= head.take(from + 1));
        lemma_dict_end(payload, head, from + 1);
    } else {
        assert(payload.take(from + 1) =~= head);
    }
}

/// A message without such a part has no dictionary.
pub proof fn law_no_dictionary_is_found(payload: Seq<u8>, from: int)
    requires
        0 <= from,
        forall|j: int|
            from <= j < payload.len() && payload[j] == 101 ==> !(decoded(
                #[trigger] payload.take(j + 1),
            ) is Some && decoded(payload.take(j + 1))->0 is Dict),
    ensures
        dict_end(payload, from) == 0,
    decreases payload.len() - from,
{
    if from < payload.len() {
        law_no_dictionary_is_found(payload, from + 1);
    }
}

/// A data message, sent as a dictionary and the data behind it, under the ID
/// that was announced to the peer or under the peer's own, is kept as its
/// piece, whatever other entries the dictionary has.
pub proof fn law_data_messages_arrive(
    before: MetadataFetch,
    after: MetadataFetch,
    ext_id: u8,
    head: Seq<u8>,
    data: Seq<u8>,
    dict: Tree,
    piece: i64,
    r: FetchStep,
)
    requires
        extended_step(before, after, ext_id, head + data, r),
        ext_id == 1 || (ext_id == before.ut_metadata_id && ext_id != 0),
        before.metadata_size > 0,
        head.len() > 0,
        head.last() == 101,
        decoded(head) == Some(dict),
        dict is Dict,
        forall|j: int|
            0 <= j < head.len() - 1 && head[j] == 101 ==> !(decoded(#[trigger] head.take(j + 1))
                is Some && decoded(head.take(j + 1))->0 is Dict),
        dict.named("msg_type"@) == Some(Tree::Int(1)),
        dict.named("piece"@) == Some(Tree::Int(piece)),
    ensures
        metadata_step(before, after, dict, data, r),
        after.held() == before.held().insert(piece as usize, data),
{
    law_the_dictionary_comes_first(head + data, head, data);
    law_data_messages_are_kept(before, after, dict, data, r, 1, piece);
}

/// An extended handshake that is a dictionary is taken; messages under other
/// IDs, and what cannot be read, change nothing.
pub proof fn law_which_messages_are_read(
    before: MetadataFetch,
    after: MetadataFetch,
    ext_id: u8,
    payload: Seq<u8>,
    r: FetchStep,
)
    requires
        extended_step(before, after, ext_id, payload, r),
    ensures
        ext_id == 0 && decoded(payload) is Some && decoded(payload)->0 is Dict ==> handshake_step(
            before,
            after,
            decoded(payload)->0,
            r,
        ),
        ext_id == 0 && !(decoded(payload) is Some && decoded(payload)->0 is Dict) ==> r is Wait
            && after == before,
        ext_id != 0 && ext_id != 1 && ext_id != before.ut_metadata_id ==> r is Wait && after
            == before,
        ext_id != 0 && before.metadata_size == 0 ==> r is Wait && after == before,
        ext_id != 0 && dict_end(payload, 0) == 0 ==> r is Wait && after == before,
{
}

/// The extended handshake gives metadata messages the ID 1, and says of no
/// metadata that it has them.
pub proof fn law_handshake_announces_the_id()
    ensures
        handshake_tree().named("m"@) is Some,
        handshake_tree().named("m"@)->0.named("ut_metadata"@) == Some(Tree::Int(1)),
        handshake_tree().named("metadata_size"@) == Some(Tree::Int(0)),
{
    reveal_strlit("m");
    reveal_strlit("metadata_size");
    let none = Tree::Dict(Map::empty());
    let m = none.insert_named("ut_metadata"@, Tree::Int(UT_METADATA as i64));
    assert("m"@.len() != "metadata_size"@.len());
    law_entries_are_found(none, "ut_metadata"@, Tree::Int(UT_METADATA as i64), "ut_metadata"@);
    law_entries_are_found(none, "m"@, m, "m"@);
    law_entries_are_found(none.insert_named("m"@, m), "metadata_size"@, Tree::Int(0), "m"@);
}

/// The reserved bytes of the handshake have the bit for extended messages, and
/// no other.
pub proof fn law_reserved_bytes(i: int)
    requires
        0 <= i < 8,
    ensures
        extension_reserved().len() == 8,
        i == 5 ==> extension_reserved()[i] == 0x10,
        i != 5 ==> extension_reserved()[i] == 0,
{
}

/// An extended message is its length, the ID of extended messages, its extended
/// ID and its payload.
pub proof fn law_extended_message_in_bytes(ext_id: u8, payload: Seq<u8>)
    ensures
        extended(ext_id, payload) == be((2 + payload.len()) as nat, 4) + seq![20u8, ext_id]
            + payload,
{
    lemma_extended_bytes(ext_id, payload);
}

/// A session that waits for a message reads an extended one in four parts, each
/// as long as it asks for, and hands its ID and its payload to the exchange.
/// Then it waits for the next.
pub proof fn law_extended_messages_reach_the_exchange(
    sessions: Seq<FetchSession>,
    steps: Seq<FetchStep>,
    ext_id: u8,
    payload: Seq<u8>,
)
    requires
        sessions.len() == 5,
        steps.len() == 4,
        payload.len() + 2 <= u32::MAX,
        payload.len() + 2 <= usize::MAX,
        sessions[0].stage == FetchStage::Length,
        session_step(sessions[0], sessions[1], be(payload.len() + 2, 4), steps[0]),
        session_step(sessions[1], sessions[2], seq![20u8], steps[1]),
        session_step(sessions[2], sessions[3], seq![ext_id], steps[2]),
        session_step(sessions[3], sessions[4], payload, steps[3]),
    ensures
        sessions[0].stage.size() == 4,
        sessions[1].stage.size() == 1,
        sessions[2].stage.size() == 1,
        sessions[3].stage.size() == payload.len(),
        steps[0] is Wait && steps[1] is Wait && steps[2] is Wait,
        extended_step(sessions[0].fetch, sessions[4].fetch, ext_id, payload, steps[3]),
        sessions[4].stage == FetchStage::Length,
{
    broadcast use lemma_be_len;

    let n = payload.len() + 2;
    lemma_byte_range();
    lemma_be_value_of_be(n, 4);
    assert(be(n, 4).subrange(0, 4) =~= be(n, 4));
}

/// A session reads other messages in three parts and forgets them, and a
/// keep-alive in one.
pub proof fn law_other_messages_are_skipped(
    sessions: Seq<FetchSession>,
    steps: Seq<FetchStep>,
    id: u8,
    body: Seq<u8>,
    next: FetchSession,
    step: FetchStep,
)
    requires
        sessions.len() == 4,
        steps.len() == 3,
        body.len() + 1 <= u32::MAX,
        body.len() + 1 <= usize::MAX,
        id != 20,
        sessions[0].stage == FetchStage::Length,
        session_step(sessions[0], sessions[1], be(body.len() + 1, 4), steps[0]),
        session_step(sessions[1], sessions[2], seq![id], steps[1]),
        session_step(sessions[2], sessions[3], body, steps[2]),
        session_step(sessions[0], next, be(0, 4), step),
    ensures
        sessions[1].stage.size() == 1,
        sessions[2].stage.size() == body.len(),
        steps[0] is Wait && steps[1] is Wait && steps[2] is Wait && step is Wait,
        sessions[3].stage == FetchStage::Length,
        sessions[3].fetch == sessions[0].fetch,
        next.stage == FetchStage::Length,
        next.fetch == sessions[0].fetch,
{
    broadcast use lemma_be_len;

    let n = body.len() + 1;
    lemma_byte_range();
    lemma_be_value_of_be(n, 4);
    lemma_be_value_of_be(0, 4);
    assert(be(n, 4).subrange(0, 4) =~= be(n, 4));
    assert(be(0, 4).subrange(0, 4) =~= be(0, 4));
}

/// A session begins with an answer of sixty-eight bytes. Where it offers
/// extended messages and is for the torrent, the extended handshake is sent, if
/// it fits in a message, and the session waits for messages; else it fails, with
/// the reason.
pub proof fn law_the_answer_to_the_handshake_decides(
    before: FetchSession,
    after: FetchSession,
    bytes: Seq<u8>,
    r: FetchStep,
)
    requires
        before.stage == FetchStage::Handshake,
        bytes.len() == 68,
        session_step(before, after, bytes, r),
    ensures
        before.stage.size() == 68,
        after.fetch == before.fetch,
        bytes[25] & 0x10 == 0 ==> r == FetchStep::Fail(FetchError::NoExtensions),
        bytes[25] & 0x10 != 0 && bytes.subrange(28, 48) != before.fetch.info_hash@ ==> r
            == FetchStep::Fail(FetchError::InfoHashMismatch),
        bytes[25] & 0x10 != 0 && bytes.subrange(28, 48) == before.fetch.info_hash@ && encoded(
            handshake_tree(),
        ).len() <= 0x7fff_fff0 ==> r is Send && r->Send_0@.len() == 1 && carries(
            r->Send_0@[0],
            0,
            handshake_tree(),
        ) && after.stage == FetchStage::Length,
{
    lemma_extended_bytes(0, encoded(handshake_tree()));
}

/// What is said where a peer stops answering names what was awaited of it.
pub proof fn law_what_is_said_of_a_silent_peer(stage: FetchStage)
    ensures
        stage is Handshake ==> stage.failure_text() == "Handshake response timed out"@,
        stage is Length ==> stage.failure_text() == "Failed to read message length"@,
        stage is Id ==> stage.failure_text() == "Failed to read message ID"@,
        stage is ExtendedId ==> stage.failure_text() == "Failed to read extended message ID"@,
        stage is Payload ==> stage.failure_text() == "Failed to read extended message payload"@,
        stage is Skipped ==> stage.failure_text() == "Failed to read message payload"@,
{
}

} // verus!

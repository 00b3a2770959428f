//! UDP tracker protocol
use crate::address::{
    all_v4, compact_list, compact_peers, law_compact_peers_are_read_back, read_compact_peers,
    SocketAddr,
};
use crate::random::random_u32;
use crate::text::{decimal, decimal_text, from_utf8_lossy, lossy_text, same_text, text_of};
use crate::web::{parse_url, url_parts};
use crate::wire::{
    be, be_value, buffer_with_capacity, contents, freeze, get_u64, lemma_be_len,
    lemma_be_value_of_be, lemma_byte_range, put_slice, put_u16, put_u32, put_u64, u32_at, written,
};
use bytes::Bytes;
use vstd::prelude::*;
use vstd::string::*;

verus! {

/// The number that a connection request starts with.
pub const UDP_PROTOCOL_ID: u64 = 0x417_2710_1980;

/// The action of a connection request and its response.
pub const ACTION_CONNECT: u32 = 0;

/// The action of an announce and its response.
pub const ACTION_ANNOUNCE: u32 = 1;

/// The action of an error response.
pub const ACTION_ERROR: u32 = 3;

/// How long a response may take, in seconds.
pub const UDP_TRANSACTION_TIMEOUT: u64 = 15;

/// Why a UDP tracker fails.
#[derive(Debug)]
pub enum UdpTrackerError {
    /// The address of the tracker is none.
    InvalidUrl,
    /// The address is that of another kind of tracker.
    NotUdp,
    /// The address has no host.
    MissingHost,
    /// A response is too short.
    Truncated,
    /// A response to a connection request is for something else.
    ExpectedConnect(u32),
    /// A response to an announce is for something else.
    ExpectedAnnounce(u32),
    /// A response is for another transaction.
    TransactionMismatch,
    /// The tracker says why it fails.
    Failure(String),
}

impl UdpTrackerError {
    /// What the error says.
    pub open spec fn text(self) -> Seq<char> {
        match self {
            UdpTrackerError::InvalidUrl => "Failed to parse UDP tracker URL"@,
            UdpTrackerError::NotUdp => "Not a UDP tracker URL"@,
            UdpTrackerError::MissingHost => "Missing host in tracker URL"@,
            UdpTrackerError::Truncated => "Received truncated response"@,
            UdpTrackerError::ExpectedConnect(action) => "Expected connect action, got "@ + decimal(
                action as nat,
            ),
            UdpTrackerError::ExpectedAnnounce(action) => "Expected announce action, got "@
                + decimal(action as nat),
            UdpTrackerError::TransactionMismatch => "Transaction ID mismatch"@,
            UdpTrackerError::Failure(reason) => "Tracker error: "@ + reason@,
        }
    }

    /// What the error says
    pub fn message(&self) -> (s: String)
        ensures
            s@ == self.text(),
    {
        match self {
            UdpTrackerError::InvalidUrl => "Failed to parse UDP tracker URL".to_string(),
            UdpTrackerError::NotUdp => "Not a UDP tracker URL".to_string(),
            UdpTrackerError::MissingHost => "Missing host in tracker URL".to_string(),
            UdpTrackerError::Truncated => "Received truncated response".to_string(),
            UdpTrackerError::ExpectedConnect(action) => {
                let mut s = "Expected connect action, got ".to_string();
                s.append(decimal_text(*action as u64).as_str());
                s
            },
            UdpTrackerError::ExpectedAnnounce(action) => {
                let mut s = "Expected announce action, got ".to_string();
                s.append(decimal_text(*action as u64).as_str());
                s
            },
            UdpTrackerError::TransactionMismatch => "Transaction ID mismatch".to_string(),
            UdpTrackerError::Failure(reason) => {
                let mut s = "Tracker error: ".to_string();
                s.append(reason.as_str());
                s
            },
        }
    }
}

/// UDP tracker implementation
#[derive(Debug)]
pub struct UdpTracker {
    pub url: String,
    pub host: String,
    pub port: u16,
    pub connection_id: Option<u64>,
    pub transaction_id: u32,
}

/// The host and the port of a UDP tracker, from the parts of its address. The
/// port is 80 where none is given.
pub open spec fn udp_endpoint(parts: Option<(Seq<char>, Option<Seq<char>>, Option<u16>)>) -> Result<
    (Seq<char>, u16),
    UdpTrackerError,
> {
    match parts {
        None => Err(UdpTrackerError::InvalidUrl),
        Some((scheme, host, port)) => if scheme != "udp"@ {
            Err(UdpTrackerError::NotUdp)
        } else {
            match host {
                None => Err(UdpTrackerError::MissingHost),
                Some(host) => Ok(
                    (
                        host,
                        match port {
                            Some(port) => port,
                            None => 80,
                        },
                    ),
                ),
            }
        },
    }
}

/// The host and the port of a UDP tracker, from the parts of its address
pub fn endpoint_of(parts: Option<(String, Option<String>, Option<u16>)>) -> (r: Result<
    (String, u16),
    UdpTrackerError,
>)
    ensures
        ({
            let model = udp_endpoint(
                match parts {
                    Some((scheme, host, port)) => Some((scheme@, text_of(host), port)),
                    None => None,
                },
            );
            match r {
                Ok((host, port)) => model == Ok::<(Seq<char>, u16), UdpTrackerError>(
                    (host@, port),
                ),
                Err(e) => model == Err::<(Seq<char>, u16), UdpTrackerError>(e),
            }
        }),
{
    match parts {
        None => Err(UdpTrackerError::InvalidUrl),
        Some((scheme, host, port)) => {
            if !same_text(scheme.as_str(), "udp") {
                return Err(UdpTrackerError::NotUdp);
            }
            match host {
                None => Err(UdpTrackerError::MissingHost),
                Some(host) => {
                    let port: u16 = match port {
                        Some(port) => port,
                        None => 80,
                    };
                    Ok((host, port))
                },
            }
        },
    }
}

/// The bytes of a connection request: the protocol ID, the action and the
/// transaction ID.
pub open spec fn connect_bytes(transaction_id: u32) -> Seq<u8> {
    be(UDP_PROTOCOL_ID as nat, 8) + be(ACTION_CONNECT as nat, 4) + be(transaction_id as nat, 4)
}

/// What an announce says.
#[derive(Debug, Clone, Copy)]
pub struct UdpAnnounce {
    pub info_hash: [u8; 20],
    pub peer_id: [u8; 20],
    pub downloaded: u64,
    pub left: u64,
    pub uploaded: u64,
    /// 0: none, 1: completed, 2: started, 3: stopped
    pub event: u32,
}

/// The bytes of an announce: the connection ID, the action, the transaction
/// ID, what the announce says, no IP address, the key, any number of peers,
/// the port that the client listens on.
pub open spec fn announce_bytes(
    connection_id: u64,
    transaction_id: u32,
    announce: UdpAnnounce,
    key: u32,
    port: u16,
) -> Seq<u8> {
    be(connection_id as nat, 8) + be(ACTION_ANNOUNCE as nat, 4) + be(transaction_id as nat, 4)
        + announce.info_hash@ + announce.peer_id@ + be(announce.downloaded as nat, 8) + be(
        announce.left as nat,
        8,
    ) + be(announce.uploaded as nat, 8) + be(announce.event as nat, 4) + be(0, 4) + be(
        key as nat,
        4,
    ) + be(0xffff_ffff, 4) + be(port as nat, 2)
}

/// What comes of a response to a connection request: the connection ID.
pub open spec fn connect_response(response: Seq<u8>, transaction_id: u32) -> Result<
    nat,
    UdpTrackerError,
> {
    if response.len() < 16 {
        Err(UdpTrackerError::Truncated)
    } else if be_value(response.subrange(0, 4)) != ACTION_CONNECT {
        Err(UdpTrackerError::ExpectedConnect(be_value(response.subrange(0, 4)) as u32))
    } else if be_value(response.subrange(4, 8)) != transaction_id {
        Err(UdpTrackerError::TransactionMismatch)
    } else {
        Ok(be_value(response.subrange(8, 16)))
    }
}

/// What comes of a response to an announce: the peers in the compact list
/// after the first twenty bytes.
pub open spec fn announced(
    response: Seq<u8>,
    transaction_id: u32,
    r: Result<Vec<SocketAddr>, UdpTrackerError>,
) -> bool {
    let action = be_value(response.subrange(0, 4));
    if response.len() < 20 {
        r matches Err(UdpTrackerError::Truncated)
    } else if action == ACTION_ERROR {
        r matches Err(UdpTrackerError::Failure(reason)) && reason@ == lossy_text(response.skip(8))
    } else if action != ACTION_ANNOUNCE {
        r matches Err(UdpTrackerError::ExpectedAnnounce(a)) && a == action
    } else if be_value(response.subrange(4, 8)) != transaction_id {
        r matches Err(UdpTrackerError::TransactionMismatch)
    } else {
        r matches Ok(peers) && peers@ == compact_peers(response.skip(20))
    }
}

impl UdpTracker {
    /// Create a UDP tracker instance with a given transaction ID
    pub fn with_transaction_id(url: &str, transaction_id: u32) -> (r: Result<
        Self,
        UdpTrackerError,
    >)
        ensures
            match r {
                Ok(t) => {
                    &&& udp_endpoint(url_parts(url@)) == Ok::<(Seq<char>, u16), UdpTrackerError>(
                        (t.host@, t.port),
                    )
                    &&& t.url@ == url@
                    &&& t.connection_id is None
                    &&& t.transaction_id == transaction_id
                },
                Err(e) => udp_endpoint(url_parts(url@)) == Err::<
                    (Seq<char>, u16),
                    UdpTrackerError,
                >(e),
            },
    {
        match endpoint_of(parse_url(url)) {
            Ok((host, port)) => Ok(
                UdpTracker {
                    url: url.to_string(),
                    host,
                    port,
                    connection_id: None,
                    transaction_id,
                },
            ),
            Err(e) => Err(e),
        }
    }

    /// Create a new UDP tracker instance. The transaction ID is random.
    pub fn new(url: &str) -> (r: Result<Self, UdpTrackerError>)
        ensures
            match r {
                Ok(t) => {
                    &&& udp_endpoint(url_parts(url@)) == Ok::<(Seq<char>, u16), UdpTrackerError>(
                        (t.host@, t.port),
                    )
                    &&& t.url@ == url@
                    &&& t.connection_id is None
                },
                Err(e) => udp_endpoint(url_parts(url@)) == Err::<
                    (Seq<char>, u16),
                    UdpTrackerError,
                >(e),
            },
    {
        UdpTracker::with_transaction_id(url, random_u32())
    }

    /// The host and the port to look up
    pub fn address(&self) -> (s: String)
        ensures
            s@ == self.host@ + ":"@ + decimal(self.port as nat),
    {
        let mut s = self.host.clone();
        s.append(":");
        s.append(decimal_text(self.port as u64).as_str());
        s
    }

    /// The request that connects to the UDP tracker to get a connection ID
    pub fn connect(&self) -> (bytes: Bytes)
        ensures
            contents(bytes) == connect_bytes(self.transaction_id),
    {
        broadcast use lemma_be_len;

        let mut buffer = buffer_with_capacity(16);
        put_u64(&mut buffer, UDP_PROTOCOL_ID);
        put_u32(&mut buffer, ACTION_CONNECT);
        put_u32(&mut buffer, self.transaction_id);
        proof {
            assert(written(buffer) =~= connect_bytes(self.transaction_id));
        }
        freeze(buffer)
    }

    /// Take the connection ID from the response to a connection request
    pub fn connected(&mut self, response: &[u8]) -> (r: Result<(), UdpTrackerError>)
        ensures
            match r {
                Ok(_) => {
                    &&& final(self).connection_id matches Some(id) && connect_response(
                        response@,
                        old(self).transaction_id,
                    ) == Ok::<nat, UdpTrackerError>(id as nat)
                },
                Err(e) => {
                    &&& connect_response(response@, old(self).transaction_id) == Err::<
                        nat,
                        UdpTrackerError,
                    >(e)
                    &&& final(self).connection_id == old(self).connection_id
                },
            },
            final(self).url == old(self).url,
            final(self).host == old(self).host,
            final(self).port == old(self).port,
            final(self).transaction_id == old(self).transaction_id,
    {
        if response.len() < 16 {
            return Err(UdpTrackerError::Truncated);
        }
        let action = u32_at(response, 0);
        let returned_transaction_id = u32_at(response, 4);
        if action != ACTION_CONNECT {
            return Err(UdpTrackerError::ExpectedConnect(action));
        }
        if returned_transaction_id != self.transaction_id {
            return Err(UdpTrackerError::TransactionMismatch);
        }
        let rest = vstd::slice::slice_subrange(response, 8, response.len());
        let connection_id = get_u64(rest);
        proof {
            assert(rest@.subrange(0, 8) =~= response@.subrange(8, 16));
        }
        self.connection_id = Some(connection_id);
        Ok(())
    }

    /// The announce with a given key and the port that the client listens on
    pub fn announce_with(&self, announce: &UdpAnnounce, key: u32, port: u16) -> (bytes: Bytes)
        requires
            self.connection_id is Some,
        ensures
            contents(bytes) == announce_bytes(
                self.connection_id->0,
                self.transaction_id,
                *announce,
                key,
                port,
            ),
    {
        broadcast use lemma_be_len;

        let connection_id = match self.connection_id {
            Some(id) => id,
            None => 0,
        };
        let mut buffer = buffer_with_capacity(98);
        put_u64(&mut buffer, connection_id);
        put_u32(&mut buffer, ACTION_ANNOUNCE);
        put_u32(&mut buffer, self.transaction_id);
        put_slice(&mut buffer, announce.info_hash.as_slice());
        put_slice(&mut buffer, announce.peer_id.as_slice());
        put_u64(&mut buffer, announce.downloaded);
        put_u64(&mut buffer, announce.left);
        put_u64(&mut buffer, announce.uploaded);
        put_u32(&mut buffer, announce.event);
        put_u32(&mut buffer, 0);
        put_u32(&mut buffer, key);
        put_u32(&mut buffer, 0xffff_ffff);
        put_u16(&mut buffer, port);
        proof {
            assert(written(buffer) =~= announce_bytes(
                connection_id,
                self.transaction_id,
                *announce,
                key,
                port,
            ));
        }
        freeze(buffer)
    }

    /// The announce to the UDP tracker, with the port that the client listens
    /// on. The key is random.
    pub fn announce(&self, announce: &UdpAnnounce, port: u16) -> (bytes: Bytes)
        requires
            self.connection_id is Some,
        ensures
            exists|key: u32|
                contents(bytes) == #[trigger] announce_bytes(
                    self.connection_id->0,
                    self.transaction_id,
                    *announce,
                    key,
                    port,
                ),
    {
        self.announce_with(announce, random_u32(), port)
    }

    /// Read the response to an announce
    pub fn read_peers(&self, response: &[u8]) -> (r: Result<Vec<SocketAddr>, UdpTrackerError>)
        ensures
            announced(response@, self.transaction_id, r),
    {
        if response.len() < 20 {
            return Err(UdpTrackerError::Truncated);
        }
        let action = u32_at(response, 0);
        let returned_transaction_id = u32_at(response, 4);
        if action != ACTION_ANNOUNCE {
            if action == ACTION_ERROR {
                let message = vstd::slice::slice_subrange(response, 8, response.len());
                proof {
                    assert(message@ =~= response@.skip(8));
                }
                return Err(UdpTrackerError::Failure(from_utf8_lossy(message)));
            }
            return Err(UdpTrackerError::ExpectedAnnounce(action));
        }
        if returned_transaction_id != self.transaction_id {
            return Err(UdpTrackerError::TransactionMismatch);
        }
        let rest = vstd::slice::slice_subrange(response, 20, response.len());
        proof {
            assert(rest@ =~= response@.skip(20));
        }
        Ok(read_compact_peers(rest))
    }
}

/// A connection request has sixteen bytes: the protocol ID at 0, the action
/// at 8, the transaction ID at 12.
pub proof fn law_connect_layout(transaction_id: u32)
    ensures
        connect_bytes(transaction_id).len() == 16,
        connect_bytes(transaction_id).subrange(0, 8) == be(0x417_2710_1980, 8),
        connect_bytes(transaction_id).subrange(8, 12) == be(0, 4),
        connect_bytes(transaction_id).subrange(12, 16) == be(transaction_id as nat, 4),
{
    broadcast use lemma_be_len;

    let bytes = connect_bytes(transaction_id);
    assert(bytes.subrange(0, 8) =~= be(0x417_2710_1980, 8));
    assert(bytes.subrange(8, 12) =~= be(0, 4));
    assert(bytes.subrange(12, 16) =~= be(transaction_id as nat, 4));
}

/// An announce has 98 bytes, and each part of it stands where trackers look
/// for it.
pub proof fn law_announce_layout(
    connection_id: u64,
    transaction_id: u32,
    announce: UdpAnnounce,
    key: u32,
    port: u16,
)
    ensures
        ({
            let bytes = announce_bytes(connection_id, transaction_id, announce, key, port);
            &&& bytes.len() == 98
            &&& bytes.subrange(0, 8) == be(connection_id as nat, 8)
            &&& bytes.subrange(8, 12) == be(1, 4)
            &&& bytes.subrange(12, 16) == be(transaction_id as nat, 4)
            &&& bytes.subrange(16, 36) == announce.info_hash@
            &&& bytes.subrange(36, 56) == announce.peer_id@
            &&& bytes.subrange(56, 64) == be(announce.downloaded as nat, 8)
            &&& bytes.subrange(64, 72) == be(announce.left as nat, 8)
            &&& bytes.subrange(72, 80) == be(announce.uploaded as nat, 8)
            &&& bytes.subrange(80, 84) == be(announce.event as nat, 4)
            &&& bytes.subrange(84, 88) == be(0, 4)
            &&& bytes.subrange(88, 92) == be(key as nat, 4)
            &&& bytes.subrange(92, 96) == be(0xffff_ffff, 4)
            &&& bytes.subrange(96, 98) == be(port as nat, 2)
        }),
{
    broadcast use lemma_be_len;

    let bytes = announce_bytes(connection_id, transaction_id, announce, key, port);
    assert(bytes.subrange(0, 8) =~= be(connection_id as nat, 8));
    assert(bytes.subrange(8, 12) =~= be(1, 4));
    assert(bytes.subrange(12, 16) =~= be(transaction_id as nat, 4));
    assert(bytes.subrange(16, 36) =~= announce.info_hash@);
    assert(bytes.subrange(36, 56) =~= announce.peer_id@);
    assert(bytes.subrange(56, 64) =~= be(announce.downloaded as nat, 8));
    assert(bytes.subrange(64, 72) =~= be(announce.left as nat, 8));
    assert(bytes.subrange(72, 80) =~= be(announce.uploaded as nat, 8));
    assert(bytes.subrange(80, 84) =~= be(announce.event as nat, 4));
    assert(bytes.subrange(84, 88) =~= be(0, 4));
    assert(bytes.subrange(88, 92) =~= be(key as nat, 4));
    assert(bytes.subrange(92, 96) =~= be(0xffff_ffff, 4));
    assert(bytes.subrange(96, 98) =~= be(port as nat, 2));
}

/// A tracker that answers a connection request with its transaction ID and a
/// connection ID is understood.
pub proof fn law_connection_id_is_read(transaction_id: u32, connection_id: u64)
    ensures
        connect_response(
            be(0, 4) + be(transaction_id as nat, 4) + be(connection_id as nat, 8),
            transaction_id,
        ) == Ok::<nat, UdpTrackerError>(connection_id as nat),
{
    broadcast use lemma_be_len;

    let bytes = be(0, 4) + be(transaction_id as nat, 4) + be(connection_id as nat, 8);
    lemma_byte_range();
    lemma_be_value_of_be(0, 4);
    lemma_be_value_of_be(transaction_id as nat, 4);
    lemma_be_value_of_be(connection_id as nat, 8);
    assert(bytes.subrange(0, 4) =~= be(0, 4));
    assert(bytes.subrange(4, 8) =~= be(transaction_id as nat, 4));
    assert(bytes.subrange(8, 16) =~= be(connection_id as nat, 8));
}

/// A tracker that answers an announce with its transaction ID and a compact
/// list of peers is understood: just those peers come out.
pub proof fn law_announced_peers_are_read(
    transaction_id: u32,
    counts: Seq<u8>,
    peers: Seq<SocketAddr>,
    r: Result<Vec<SocketAddr>, UdpTrackerError>,
)
    requires
        counts.len() == 12,
        all_v4(peers),
        announced(
            be(1, 4) + be(transaction_id as nat, 4) + counts + compact_list(peers),
            transaction_id,
            r,
        ),
    ensures
        r matches Ok(found) && found@ == peers,
{
    broadcast use lemma_be_len;

    let bytes = be(1, 4) + be(transaction_id as nat, 4) + counts + compact_list(peers);
    lemma_byte_range();
    lemma_be_value_of_be(1, 4);
    lemma_be_value_of_be(transaction_id as nat, 4);
    law_compact_peers_are_read_back(peers);
    assert(bytes.subrange(0, 4) =~= be(1, 4));
    assert(bytes.subrange(4, 8) =~= be(transaction_id as nat, 4));
    assert(bytes.skip(20) =~= compact_list(peers));
}

/// A UDP tracker is where its address says, at port 80 where that gives none.
/// An address of another kind, or without a host, is refused.
pub proof fn law_where_a_tracker_is(
    scheme: Seq<char>,
    host: Option<Seq<char>>,
    port: Option<u16>,
)
    ensures
        udp_endpoint(None) == Err::<(Seq<char>, u16), UdpTrackerError>(
            UdpTrackerError::InvalidUrl,
        ),
        scheme != "udp"@ ==> udp_endpoint(Some((scheme, host, port))) == Err::<
            (Seq<char>, u16),
            UdpTrackerError,
        >(UdpTrackerError::NotUdp),
        scheme == "udp"@ && host is None ==> udp_endpoint(Some((scheme, host, port))) == Err::<
            (Seq<char>, u16),
            UdpTrackerError,
        >(UdpTrackerError::MissingHost),
        scheme == "udp"@ && host is Some && port is Some ==> udp_endpoint(
            Some((scheme, host, port)),
        ) == Ok::<(Seq<char>, u16), UdpTrackerError>((host->0, port->0)),
        scheme == "udp"@ && host is Some && port is None ==> udp_endpoint(
            Some((scheme, host, port)),
        ) == Ok::<(Seq<char>, u16), UdpTrackerError>((host->0, 80)),
{
}

/// A response to a connection request is refused where it is too short, for
/// another action, or for another transaction; what follows the connection ID
/// is not looked at.
pub proof fn law_connection_responses(
    action: u32,
    transaction: u32,
    connection_id: u64,
    tail: Seq<u8>,
    expected: u32,
    short: Seq<u8>,
)
    ensures
        short.len() < 16 ==> connect_response(short, expected) == Err::<nat, UdpTrackerError>(
            UdpTrackerError::Truncated,
        ),
        ({
            let response = be(action as nat, 4) + be(transaction as nat, 4) + be(
                connection_id as nat,
                8,
            ) + tail;
            &&& action != 0 ==> connect_response(response, expected) == Err::<nat, UdpTrackerError>(
                UdpTrackerError::ExpectedConnect(action),
            )
            &&& action == 0 && transaction != expected ==> connect_response(response, expected)
                == Err::<nat, UdpTrackerError>(UdpTrackerError::TransactionMismatch)
            &&& action == 0 && transaction == expected ==> connect_response(response, expected)
                == Ok::<nat, UdpTrackerError>(connection_id as nat)
        }),
{
    broadcast use lemma_be_len;

    let response = be(action as nat, 4) + be(transaction as nat, 4) + be(connection_id as nat, 8)
        + tail;
    lemma_byte_range();
    lemma_be_value_of_be(action as nat, 4);
    lemma_be_value_of_be(transaction as nat, 4);
    lemma_be_value_of_be(connection_id as nat, 8);
    assert(response.subrange(0, 4) =~= be(action as nat, 4));
    assert(response.subrange(4, 8) =~= be(transaction as nat, 4));
    assert(response.subrange(8, 16) =~= be(connection_id as nat, 8));
}

/// A response to an announce is refused where it is too short, for another
/// action, or for another transaction, and where the tracker says why it fails;
/// else it gives the peers in the compact list behind its first twenty bytes.
pub proof fn law_announce_responses(
    action: u32,
    transaction: u32,
    rest: Seq<u8>,
    expected: u32,
    r: Result<Vec<SocketAddr>, UdpTrackerError>,
)
    requires
        announced(be(action as nat, 4) + be(transaction as nat, 4) + rest, expected, r),
    ensures
        rest.len() < 12 ==> r == Err::<Vec<SocketAddr>, UdpTrackerError>(
            UdpTrackerError::Truncated,
        ),
        rest.len() >= 12 && action == 3 ==> (r matches Err(UdpTrackerError::Failure(reason))
            && reason@ == lossy_text(rest)),
        rest.len() >= 12 && action != 1 && action != 3 ==> r == Err::<
            Vec<SocketAddr>,
            UdpTrackerError,
        >(UdpTrackerError::ExpectedAnnounce(action)),
        rest.len() >= 12 && action == 1 && transaction != expected ==> r == Err::<
            Vec<SocketAddr>,
            UdpTrackerError,
        >(UdpTrackerError::TransactionMismatch),
        rest.len() >= 12 && action == 1 && transaction == expected ==> r is Ok && r->Ok_0@
            == compact_peers(rest.skip(12)),
{
    broadcast use lemma_be_len;

    let response = be(action as nat, 4) + be(transaction as nat, 4) + rest;
    lemma_byte_range();
    lemma_be_value_of_be(action as nat, 4);
    lemma_be_value_of_be(transaction as nat, 4);
    assert(response.subrange(0, 4) =~= be(action as nat, 4));
    assert(response.subrange(4, 8) =~= be(transaction as nat, 4));
    assert(response.skip(8) =~= rest);
    if rest.len() >= 12 {
        assert(response.skip(20) =~= rest.skip(12));
    }
}

/// A UDP tracker is given fifteen seconds to answer.
pub proof fn law_limit_of_a_transaction()
    ensures
        UDP_TRANSACTION_TIMEOUT == 15,
{
}

} // verus!

//! Torrent client
use crate::address::{joined_peers, PeerSet, SocketAddr};
use crate::clock::Clock;
use crate::error::SweetMagnetError;
use crate::magnet::{
    hex_value, hex_value_of, is_digit_for, law_hexadecimal_digits, MagnetLink,
};
use crate::metadata::TorrentMetadata;
use crate::peer::PeerEvent;
use crate::piece::{block_received, PieceManager};
use crate::random::random_u8;
use crate::requests::{in_time, ActiveRequests};
use crate::text::chars_of;
use crate::tracker::{Tracker, TrackerOperationEvent, TrackerResponse, DEFAULT_PORT};
use crate::wire::{as_slice, contents};
use bytes::Bytes;
use vstd::prelude::*;
use vstd::string::*;
use vstd::utf8::{encode_utf8, is_ascii_chars, is_char_boundary};

verus! {

/// The most peers to be connected to.
pub const MAX_CONNECTIONS: usize = 50;

/// How often trackers are told of the download, in seconds: 30 minutes.
pub const TRACKER_INTERVAL: u64 = 1800;

/// How long a requested block may be awaited, in nanoseconds: 30 seconds.
pub const REQUEST_TIMEOUT: u128 = 30_000_000_000;

/// How long a connection may take to be made, in seconds.
pub const CONNECTION_TIMEOUT: u64 = 30;

/// How many pieces a torrent is taken to have before its metadata is known.
pub const PLACEHOLDER_PIECES: usize = 1000;

/// What peer IDs of this client start with: "-SM0001-".
pub open spec fn peer_id_prefix() -> Seq<u8> {
    seq![45u8, 83u8, 77u8, 48u8, 48u8, 48u8, 49u8, 45u8]
}

/// A peer ID of this client with the given twelve bytes at its end
pub fn peer_id_with(rest: &[u8; 12]) -> (id: [u8; 20])
    ensures
        id@ == peer_id_prefix() + rest@,
{
    let prefix: [u8; 8] = [45, 83, 77, 48, 48, 48, 49, 45];
    let mut id: [u8; 20] = [0u8; 20];
    let mut i: usize = 0;
    while i < 20
        invariant
            i <= 20,
            prefix@ == peer_id_prefix(),
            forall|j: int| 0 <= j < i ==> id@[j] == (peer_id_prefix() + rest@)[j],
        decreases 20 - i,
    {
        id[i] = if i < 8 {
            prefix[i]
        } else {
            rest[i - 8]
        };
        i += 1;
    }
    proof {
        assert(id@ =~= peer_id_prefix() + rest@);
    }
    id
}

/// Twelve random bytes. Nothing is known of them.
fn random_rest() -> [u8; 12] {
    let mut rest: [u8; 12] = [0u8; 12];
    let mut i: usize = 0;
    while i < 12
        invariant
            i <= 12,
        decreases 12 - i,
    {
        rest[i] = random_u8();
        i += 1;
    }
    rest
}

/// The number in two characters of an info hash: two hexadecimal digits, or a
/// plus sign and one. Anything else counts as 0.
pub open spec fn hash_byte(first: u8, second: u8) -> u8 {
    match (hex_value(first as char), hex_value(second as char)) {
        (Some(high), Some(low)) => (16 * high + low) as u8,
        (None, Some(low)) => if first == 43 {
            low as u8
        } else {
            0
        },
        _ => 0,
    }
}

/// The info hash in the first forty bytes of its hexadecimal form.
pub open spec fn hash_bytes(text: Seq<u8>) -> Seq<u8> {
    Seq::new(20, |i: int| hash_byte(text[2 * i], text[2 * i + 1]))
}

/// The text can be cut into twenty parts of two bytes.
pub open spec fn can_be_cut(text: Seq<char>) -> bool {
    let bytes = encode_utf8(text);
    &&& bytes.len() >= 40
    &&& forall|i: int| 0 <= i <= 20 ==> #[trigger] is_char_boundary(bytes, 2 * i)
}

/// Tells whether a text can be cut into twenty parts of two bytes
pub fn is_hash_text(text: &str) -> (r: bool)
    ensures
        r == can_be_cut(text@),
{
    let total: usize = text.as_bytes().len();
    if total < 40 {
        return false;
    }
    let mut i: usize = 0;
    while i <= 20
        invariant
            i <= 21,
            total == encode_utf8(text@).len() >= 40,
            forall|j: int| 0 <= j < i ==> #[trigger] is_char_boundary(encode_utf8(text@), 2 * j),
        decreases 21 - i,
    {
        if !text.is_char_boundary(2 * i) {
            return false;
        }
        i += 1;
    }
    true
}

/// The info hash in the first forty bytes of its hexadecimal form
pub fn read_info_hash(text: &str) -> (hash: [u8; 20])
    requires
        can_be_cut(text@),
    ensures
        hash@ == hash_bytes(encode_utf8(text@)),
{
    let bytes = text.as_bytes();
    let mut hash: [u8; 20] = [0u8; 20];
    let mut i: usize = 0;
    while i < 20
        invariant
            i <= 20,
            bytes@ == encode_utf8(text@),
            bytes@.len() >= 40,
            forall|j: int| 0 <= j < i ==> hash@[j] == hash_byte(bytes@[2 * j], bytes@[2 * j + 1]),
        decreases 20 - i,
    {
        let first: u8 = bytes[2 * i];
        let second: u8 = bytes[2 * i + 1];
        let byte: u8 = match (hex_value_of(first as char), hex_value_of(second as char)) {
            (Some(high), Some(low)) => 16 * high + low,
            (None, Some(low)) => if first == 43 {
                low
            } else {
                0
            },
            _ => 0,
        };
        hash[i] = byte;
        i += 1;
    }
    proof {
        assert(hash@ =~= hash_bytes(encode_utf8(text@)));
    }
    hash
}

/// Torrent client stats
#[derive(Debug, Clone, Copy, PartialEq, Eq, Structural)]
pub struct ClientStats {
    pub downloaded: u64,
    pub uploaded: u64,
    pub num_peers: usize,
    /// In nanoseconds
    pub elapsed_time: u128,
}

impl ClientStats {
    /// Nothing happened yet
    pub fn new() -> (s: Self)
        ensures
            s.downloaded == 0,
            s.uploaded == 0,
            s.num_peers == 0,
            s.elapsed_time == 0,
    {
        ClientStats { downloaded: 0, uploaded: 0, num_peers: 0, elapsed_time: 0 }
    }
}

/// A failure of the client
fn client_error(text: &str) -> (e: SweetMagnetError)
    ensures
        e matches SweetMagnetError::TorrentClient(s) && s@ == text@,
{
    SweetMagnetError::TorrentClient(text.to_string())
}

/// What trackers answered at the start
pub struct TrackerTally {
    pub successful_trackers: usize,
    pub all_peers: PeerSet,
}

/// What an event of a tracker adds to the tally: a tracker that answered, or
/// the peers that it named.
pub open spec fn tallied(
    before: TrackerTally,
    after: TrackerTally,
    event: TrackerOperationEvent,
) -> bool {
    &&& after.successful_trackers == before.successful_trackers + (if event is Connected {
        1int
    } else {
        0int
    })
    &&& after.all_peers@ == match event {
        TrackerOperationEvent::Response(response) => joined_peers(
            before.all_peers@,
            response.peers@,
        ),
        _ => before.all_peers@,
    }
}

impl TrackerTally {
    /// No tracker answered yet
    pub fn new() -> (t: Self)
        ensures
            t.successful_trackers == 0,
            t.all_peers@ == Set::<SocketAddr>::empty(),
            t.all_peers.wf(),
    {
        TrackerTally { successful_trackers: 0, all_peers: PeerSet::new() }
    }

    /// Take an event of a tracker
    pub fn take(&mut self, event: &TrackerOperationEvent)
        requires
            old(self).all_peers.wf(),
            event is Connected ==> old(self).successful_trackers < usize::MAX,
        ensures
            final(self).all_peers.wf(),
            tallied(*old(self), *final(self), *event),
    {
        match event {
            TrackerOperationEvent::Connected(_, _) => {
                self.successful_trackers += 1;
            },
            TrackerOperationEvent::Response(response) => {
                self.all_peers.insert_all(response.peers.as_slice());
            },
            _ => {},
        }
    }
}

/// The first peers of a tracker's answer.
pub open spec fn first_peers(peers: Seq<SocketAddr>) -> Seq<SocketAddr> {
    if peers.len() > MAX_CONNECTIONS {
        peers.take(MAX_CONNECTIONS as int)
    } else {
        peers
    }
}

/// The first peers of each tracker's answer, one after the other.
pub open spec fn peers_to_try(responses: Seq<TrackerResponse>) -> Seq<SocketAddr>
    decreases responses.len(),
{
    if responses.len() == 0 {
        Seq::empty()
    } else {
        peers_to_try(responses.drop_last()) + first_peers(responses.last().peers@)
    }
}

/// The peers to try to connect to, from what trackers answered
pub fn collect_peers(responses: &[TrackerResponse]) -> (peers: Vec<SocketAddr>)
    ensures
        peers@ == peers_to_try(responses@),
{
    let mut peers: Vec<SocketAddr> = Vec::new();
    let mut i: usize = 0;
    proof {
        assert(responses@.take(0) =~= Seq::empty());
    }
    while i < responses.len()
        invariant
            i <= responses@.len(),
            peers@ == peers_to_try(responses@.take(i as int)),
        decreases responses@.len() - i,
    {
        let answer = &responses[i].peers;
        let ghost before = peers@;
        let mut k: usize = 0;
        while k < answer.len() && k < MAX_CONNECTIONS
            invariant
                k <= answer@.len(),
                k <= MAX_CONNECTIONS,
                peers@ == before + answer@.take(k as int),
            decreases answer@.len() - k,
        {
            peers.push(answer[k]);
            proof {
                assert(answer@.take(k + 1) =~= answer@.take(k as int).push(answer@[k as int]));
                assert(peers@ =~= before + answer@.take(k + 1));
            }
            k += 1;
        }
        proof {
            assert(answer@.take(k as int) =~= first_peers(answer@));
            assert(responses@.take(i + 1).drop_last() =~= responses@.take(i as int));
        }
        i += 1;
    }
    proof {
        assert(responses@.take(i as int) =~= responses@);
    }
    peers
}

/// Tells whether there are enough connections
pub fn is_connected_enough(connected_peers: usize) -> (r: bool)
    ensures
        r == (connected_peers >= MAX_CONNECTIONS),
{
    connected_peers >= MAX_CONNECTIONS
}

/// Tell whether there is any connection
pub fn check_connections(connected_peers: usize) -> (r: Result<(), SweetMagnetError>)
    ensures
        match r {
            Ok(_) => connected_peers > 0,
            Err(e) => connected_peers == 0 && (e matches SweetMagnetError::TorrentClient(s) && s@
                == "Could not connect to any peers"@),
        },
{
    if connected_peers == 0 {
        return Err(client_error("Could not connect to any peers"));
    }
    Ok(())
}

/// The text with `_` for spaces.
pub open spec fn underscored(s: Seq<char>) -> Seq<char> {
    s.map_values(
        |c: char|
            if c == ' ' {
                '_'
            } else {
                c
            },
    )
}

/// The text with `_` for spaces
fn underscore(s: &str) -> (r: String)
    ensures
        r@ == underscored(s@),
{
    let chars = chars_of(s);
    let mut r = String::new();
    let mut i: usize = 0;
    while i < chars.len()
        invariant
            i <= chars@.len(),
            chars@ == s@,
            r@ == underscored(s@).take(i as int),
        decreases chars@.len() - i,
    {
        let c = if chars[i] == ' ' {
            '_'
        } else {
            chars[i]
        };
        r.push(c);
        proof {
            assert(underscored(s@).take(i + 1) =~= underscored(s@).take(i as int).push(c));
        }
        i += 1;
    }
    proof {
        assert(underscored(s@).take(i as int) =~= underscored(s@));
    }
    r
}

/// Basic torrent client implementation
pub struct TorrentClient {
    pub magnet: MagnetLink,
    pub download_dir: String,
    pub peer_id: [u8; 20],
    pub info_hash: [u8; 20],
    pub trackers: Vec<Tracker>,
    pub metadata: Option<TorrentMetadata>,
    pub piece_manager: Option<PieceManager>,
    pub active_peers: PeerSet,
    pub stats: ClientStats,
    pub start_time: Clock,
}

/// The tracker is as it was created for this torrent.
pub open spec fn is_new_tracker(
    tracker: Tracker,
    url: Seq<char>,
    info_hash: [u8; 20],
    peer_id: [u8; 20],
) -> bool {
    &&& tracker.url@ == url
    &&& tracker.info_hash == info_hash
    &&& tracker.peer_id == peer_id
    &&& tracker.port == DEFAULT_PORT
    &&& tracker.uploaded == 0
    &&& tracker.downloaded == 0
    &&& tracker.left == 0
}

/// The client is as it was created for this link.
pub open spec fn is_new_client(
    client: TorrentClient,
    magnet: MagnetLink,
    download_dir: Seq<char>,
) -> bool {
    &&& client.magnet == magnet
    &&& client.download_dir@ == download_dir
    &&& client.info_hash@ == hash_bytes(encode_utf8(magnet.info_hash@))
    &&& client.trackers@.len() == magnet.trackers@.len()
    &&& forall|i: int|
        0 <= i < client.trackers@.len() ==> is_new_tracker(
            #[trigger] client.trackers@[i],
            magnet.trackers@[i]@,
            client.info_hash,
            client.peer_id,
        )
    &&& client.metadata is None
    &&& client.piece_manager is None
    &&& client.active_peers@ == Set::<SocketAddr>::empty()
    &&& client.stats == (ClientStats {
        downloaded: 0,
        uploaded: 0,
        num_peers: 0,
        elapsed_time: 0,
    })
}

/// What an event of a peer changes.
pub open spec fn event_handled(
    before: TorrentClient,
    after: TorrentClient,
    requests_before: Map<(usize, usize), u128>,
    requests_after: Map<(usize, usize), u128>,
    event: PeerEvent,
) -> bool {
    &&& after.same_torrent(before)
    &&& match event {
        PeerEvent::Choke(addr) => {
            &&& requests_after == if before.active_peers@.contains(addr) {
                Map::<(usize, usize), u128>::empty()
            } else {
                requests_before
            }
            &&& after.piece_manager == before.piece_manager
            &&& after.active_peers == before.active_peers
            &&& after.stats == before.stats
        },
        PeerEvent::BlockReceived(_, piece_index, offset, data) => {
            &&& requests_after == requests_before.remove((piece_index, offset))
            &&& match (before.piece_manager, after.piece_manager) {
                (Some(old_manager), Some(new_manager)) => exists|completed: bool| #[trigger]
                    block_received(
                        old_manager,
                        new_manager,
                        piece_index,
                        offset,
                        data,
                        completed,
                    ),
                (None, None) => true,
                _ => false,
            }
            &&& after.active_peers == before.active_peers
            &&& after.stats == (ClientStats {
                downloaded: (before.stats.downloaded + contents(data).len()) as u64,
                ..before.stats
            })
        },
        PeerEvent::Disconnected(addr, _) => {
            &&& requests_after == requests_before
            &&& after.piece_manager == before.piece_manager
            &&& after.active_peers@ == before.active_peers@.remove(addr)
            &&& after.stats == (ClientStats {
                num_peers: after.active_peers@.len() as usize,
                ..before.stats
            })
        },
        _ => {
            &&& requests_after == requests_before
            &&& after.piece_manager == before.piece_manager
            &&& after.active_peers == before.active_peers
            &&& after.stats == before.stats
        },
    }
}

impl TorrentClient {
    /// The parts of the client are in order, and its peers are counted.
    pub open spec fn wf(self) -> bool {
        &&& self.active_peers.wf()
        &&& self.stats.num_peers == self.active_peers@.len()
        &&& self.piece_manager matches Some(manager) ==> manager.wf()
    }

    /// The client is for the same torrent, and has the same metadata.
    pub open spec fn same_torrent(self, other: TorrentClient) -> bool {
        &&& self.magnet == other.magnet
        &&& self.download_dir == other.download_dir
        &&& self.peer_id == other.peer_id
        &&& self.info_hash == other.info_hash
        &&& self.trackers == other.trackers
        &&& self.metadata == other.metadata
        &&& self.start_time == other.start_time
    }

    /// Create a torrent client instance with a given end of its peer ID
    pub fn with_id(magnet: MagnetLink, download_dir: &str, rest: &[u8; 12]) -> (c: Self)
        requires
            can_be_cut(magnet.info_hash@),
        ensures
            is_new_client(c, magnet, download_dir@),
            c.peer_id@ == peer_id_prefix() + rest@,
            c.wf(),
    {
        let peer_id = peer_id_with(rest);
        let info_hash = read_info_hash(magnet.info_hash.as_str());
        let mut trackers: Vec<Tracker> = Vec::new();
        let mut i: usize = 0;
        while i < magnet.trackers.len()
            invariant
                i <= magnet.trackers@.len(),
                trackers@.len() == i,
                forall|j: int|
                    0 <= j < i ==> is_new_tracker(
                        #[trigger] trackers@[j],
                        magnet.trackers@[j]@,
                        info_hash,
                        peer_id,
                    ),
            decreases magnet.trackers@.len() - i,
        {
            trackers.push(Tracker::new(magnet.trackers[i].as_str(), info_hash, peer_id, 0));
            i += 1;
        }
        TorrentClient {
            magnet,
            download_dir: download_dir.to_string(),
            peer_id,
            info_hash,
            trackers,
            metadata: None,
            piece_manager: None,
            active_peers: PeerSet::new(),
            stats: ClientStats::new(),
            start_time: Clock::start(),
        }
    }

    /// Create a new torrent client instance. Its peer ID is "-SM0001-" and
    /// twelve random bytes.
    pub fn new(magnet: MagnetLink, download_dir: &str) -> (c: Self)
        requires
            can_be_cut(magnet.info_hash@),
        ensures
            is_new_client(c, magnet, download_dir@),
            c.peer_id@.take(8) == peer_id_prefix(),
            c.wf(),
    {
        let rest = random_rest();
        let c = TorrentClient::with_id(magnet, download_dir, &rest);
        proof {
            assert(c.peer_id@.take(8) =~= peer_id_prefix());
        }
        c
    }

    /// Tell from what the trackers answered at the start whether the client is
    /// connected to any. Without trackers there is nothing to connect to.
    pub fn connect_to_trackers(&self, tally: &TrackerTally) -> (r: Result<(), SweetMagnetError>)
        ensures
            r is Err <==> self.trackers@.len() > 0 && tally.successful_trackers == 0,
            r matches Err(e) ==> e matches SweetMagnetError::TorrentClient(s) && s@
                == "Failed to connect to any trackers"@,
    {
        if self.trackers.len() > 0 && tally.successful_trackers == 0 {
            return Err(client_error("Failed to connect to any trackers"));
        }
        Ok(())
    }

    /// The trackers for a regular announce: they are told what was
    /// transferred so far, and that nothing is left
    pub fn announcer_trackers(&self) -> (trackers: Vec<Tracker>)
        ensures
            trackers@.len() == self.trackers@.len(),
            forall|i: int|
                0 <= i < trackers@.len() ==> {
                    let tracker = #[trigger] trackers@[i];
                    let before = self.trackers@[i];
                    &&& tracker.url@ == before.url@
                    &&& tracker.info_hash == before.info_hash
                    &&& tracker.peer_id == before.peer_id
                    &&& tracker.port == before.port
                    &&& tracker.uploaded == self.stats.uploaded
                    &&& tracker.downloaded == self.stats.downloaded
                    &&& tracker.left == 0
                },
    {
        let mut trackers: Vec<Tracker> = Vec::new();
        let mut i: usize = 0;
        while i < self.trackers.len()
            invariant
                i <= self.trackers@.len(),
                trackers@.len() == i,
                forall|j: int|
                    0 <= j < i ==> {
                        let tracker = #[trigger] trackers@[j];
                        let before = self.trackers@[j];
                        &&& tracker.url@ == before.url@
                        &&& tracker.info_hash == before.info_hash
                        &&& tracker.peer_id == before.peer_id
                        &&& tracker.port == before.port
                        &&& tracker.uploaded == self.stats.uploaded
                        &&& tracker.downloaded == self.stats.downloaded
                        &&& tracker.left == 0
                    },
            decreases self.trackers@.len() - i,
        {
            let mut tracker = self.trackers[i].clone();
            tracker.update_stats(self.stats.uploaded, self.stats.downloaded, 0);
            trackers.push(tracker);
            i += 1;
        }
        trackers
    }

    /// The name of the file that stands for a download without metadata
    pub fn placeholder_name(&self) -> (s: String)
        ensures
            s@ == underscored(self.magnet.called()) + ".torrent"@,
    {
        let name = self.magnet.name();
        let mut s = underscore(name.as_str());
        s.append(".torrent");
        s
    }

    /// What is written for a download that was saved at a given time
    pub fn download_note(&self, time: &str) -> (s: String)
        ensures
            s@ == "Mock torrent data for "@ + self.magnet.called() + "\nInfo hash: "@
                + self.magnet.info_hash@ + "\nDownloaded at: "@ + time@,
    {
        let name = self.magnet.name();
        let mut s = "Mock torrent data for ".to_string();
        s.append(name.as_str());
        s.append("\nInfo hash: ");
        s.append(self.magnet.info_hash());
        s.append("\nDownloaded at: ");
        s.append(time);
        s
    }

    /// Tells whether there is a connection to the peer
    pub fn is_connected(&self, addr: SocketAddr) -> (r: bool)
        ensures
            r == self.active_peers@.contains(addr),
    {
        self.active_peers.contains(addr)
    }

    /// Note a new connection to a peer
    pub fn add_peer(&mut self, addr: SocketAddr)
        requires
            old(self).wf(),
        ensures
            final(self).wf(),
            final(self).active_peers@ == old(self).active_peers@.insert(addr),
            final(self).stats == (ClientStats {
                num_peers: final(self).active_peers@.len() as usize,
                ..old(self).stats
            }),
            final(self).piece_manager == old(self).piece_manager,
            final(self).same_torrent(*old(self)),
    {
        self.active_peers.insert(addr);
        self.stats.num_peers = self.active_peers.len();
    }

    /// Handle a peer event
    pub fn handle_peer_event(&mut self, event: PeerEvent, active_requests: &mut ActiveRequests)
        requires
            old(self).wf(),
            old(active_requests).wf(),
            event matches PeerEvent::BlockReceived(_, _, _, data) ==> old(self).stats.downloaded
                + contents(data).len() <= u64::MAX,
        ensures
            final(self).wf(),
            final(active_requests).wf(),
            event_handled(
                *old(self),
                *final(self),
                old(active_requests)@,
                final(active_requests)@,
                event,
            ),
    {
        match event {
            PeerEvent::Choke(addr) => {
                if self.active_peers.contains(addr) {
                    active_requests.clear();
                }
            },
            PeerEvent::BlockReceived(_, piece_index, offset, data) => {
                active_requests.remove((piece_index, offset));
                let length: u64 = as_slice(&data).len() as u64;
                let completed = match &mut self.piece_manager {
                    Some(manager) => manager.received_block(piece_index, offset, data),
                    None => false,
                };
                proof {
                    if self.piece_manager is Some {
                        assert(block_received(
                            old(self).piece_manager->0,
                            self.piece_manager->0,
                            piece_index,
                            offset,
                            data,
                            completed,
                        ));
                    }
                }
                self.stats.downloaded = self.stats.downloaded + length;
            },
            PeerEvent::Disconnected(addr, _) => {
                self.active_peers.remove(addr);
                self.stats.num_peers = self.active_peers.len();
            },
            _ => {},
        }
    }

    /// Update client statistics after so many nanoseconds
    pub fn update_stats_at(&mut self, elapsed: u128)
        ensures
            final(self).stats == with_elapsed(old(self).stats, elapsed),
            final(self).piece_manager == old(self).piece_manager,
            final(self).active_peers == old(self).active_peers,
            final(self).same_torrent(*old(self)),
    {
        self.stats.elapsed_time = elapsed;
    }

    /// Update client statistics
    pub fn update_stats(&mut self)
        ensures
            exists|elapsed: u128|
                final(self).stats == #[trigger] with_elapsed(old(self).stats, elapsed),
            final(self).piece_manager == old(self).piece_manager,
            final(self).active_peers == old(self).active_peers,
            final(self).same_torrent(*old(self)),
    {
        let elapsed = self.start_time.now();
        self.update_stats_at(elapsed);
    }

    /// Forget the requests that have timed out `now`
    pub fn check_timeouts(active_requests: &mut ActiveRequests, now: u128)
        requires
            old(active_requests).wf(),
        ensures
            final(active_requests).wf(),
            final(active_requests)@ == in_time(old(active_requests)@, now, REQUEST_TIMEOUT),
    {
        active_requests.remove_timed_out(now, REQUEST_TIMEOUT);
    }
}

/// The stats after so much time.
pub open spec fn with_elapsed(stats: ClientStats, elapsed: u128) -> ClientStats {
    ClientStats { elapsed_time: elapsed, ..stats }
}

/// The byte of a hexadecimal digit in lower case.
pub open spec fn hex_byte(d: int) -> u8 {
    if d < 10 {
        (48 + d) as u8
    } else {
        (87 + d) as u8
    }
}

/// An info hash in hexadecimal.
pub open spec fn hex_form(hash: Seq<u8>) -> Seq<u8> {
    Seq::new(
        40,
        |i: int|
            if i % 2 == 0 {
                hex_byte(hash[i / 2] as int / 16)
            } else {
                hex_byte(hash[i / 2] as int % 16)
            },
    )
}

/// Whatever comes in between, one tracker that answered is enough: a tally of
/// events counts a tracker just where one of them says so, and it holds just
/// the peers that one of them named.
pub proof fn law_one_tracker_is_enough(
    tallies: Seq<TrackerTally>,
    events: Seq<TrackerOperationEvent>,
    peer: SocketAddr,
)
    requires
        tallies.len() == events.len() + 1,
        tallies[0].successful_trackers == 0,
        tallies[0].all_peers@ == Set::<SocketAddr>::empty(),
        forall|i: int|
            0 <= i < events.len() ==> tallied(tallies[i], tallies[i + 1], #[trigger] events[i]),
    ensures
        tallies.last().successful_trackers > 0 <==> exists|i: int|
            0 <= i < events.len() && #[trigger] events[i] is Connected,
        tallies.last().all_peers@.contains(peer) <==> exists|i: int|
            0 <= i < events.len() && names_peer(#[trigger] events[i], peer),
    decreases events.len(),
{
    if events.len() > 0 {
        let n = events.len() - 1;
        let front = events.drop_last();
        assert forall|i: int| 0 <= i < front.len() implies tallied(
            tallies.drop_last()[i],
            tallies.drop_last()[i + 1],
            #[trigger] front[i],
        ) by {
            assert(front[i] == events[i]);
        }
        law_one_tracker_is_enough(tallies.drop_last(), front, peer);
        assert(tallied(tallies[n], tallies[n + 1], events[n]));
        if exists|i: int| 0 <= i < front.len() && #[trigger] front[i] is Connected {
            let i = choose|i: int| 0 <= i < front.len() && #[trigger] front[i] is Connected;
            assert(events[i] is Connected);
        }
        if exists|i: int| 0 <= i < events.len() && #[trigger] events[i] is Connected {
            let i = choose|i: int| 0 <= i < events.len() && #[trigger] events[i] is Connected;
            if i < n {
                assert(front[i] is Connected);
            }
        }
        if exists|i: int| 0 <= i < front.len() && names_peer(#[trigger] front[i], peer) {
            let i = choose|i: int| 0 <= i < front.len() && names_peer(#[trigger] front[i], peer);
            assert(names_peer(events[i], peer));
        }
        if exists|i: int| 0 <= i < events.len() && names_peer(#[trigger] events[i], peer) {
            let i = choose|i: int| 0 <= i < events.len() && names_peer(#[trigger] events[i], peer);
            if i < n {
                assert(names_peer(front[i], peer));
            }
        }
    }
}

/// The event is a response that names the peer.
pub open spec fn names_peer(event: TrackerOperationEvent, peer: SocketAddr) -> bool {
    event matches TrackerOperationEvent::Response(response) && response.peers@.contains(peer)
}

/// Every info hash is read back from its hexadecimal form.
pub proof fn law_info_hash_is_read_back(hash: Seq<u8>)
    requires
        hash.len() == 20,
    ensures
        hash_bytes(hex_form(hash)) == hash,
{
    assert forall|i: int| 0 <= i < 20 implies #[trigger] hash_bytes(hex_form(hash))[i]
        == hash[i] by {
        let high = hash[i] as int / 16;
        let low = hash[i] as int % 16;
        assert(hex_form(hash)[2 * i] == hex_byte(high));
        assert(hex_form(hash)[2 * i + 1] == hex_byte(low));
        assert(hex_value(hex_byte(high) as char) == Some(high as nat));
        assert(hex_value(hex_byte(low) as char) == Some(low as nat));
    }
    assert(hash_bytes(hex_form(hash)) =~= hash);
}

/// An info hash of forty ASCII characters can be cut into its parts.
pub proof fn law_plain_hash_can_be_cut(text: Seq<char>)
    requires
        text.len() == 40,
        is_ascii_chars(text),
    ensures
        can_be_cut(text),
{
    vstd::utf8::is_ascii_chars_encode_utf8(text);
    vstd::utf8::encode_utf8_valid_utf8(text);
    let bytes = encode_utf8(text);
    assert forall|i: int| 0 <= i <= 20 implies #[trigger] is_char_boundary(bytes, 2 * i) by {
        if i == 20 {
            vstd::utf8::is_char_boundary_start_end_of_seq(bytes);
        } else {
            assert(text[2 * i] as u8 == bytes[2 * i]);
            vstd::utf8::is_char_boundary_iff_not_is_continuation_byte(bytes, 2 * i);
        }
    }
}

/// A byte of an info hash is read from two hexadecimal digits, each of either
/// case.
pub proof fn law_hash_bytes_are_read_in_either_case(byte: u8, first: u8, second: u8)
    requires
        is_digit_for(first as char, byte as int / 16),
        is_digit_for(second as char, byte as int % 16),
    ensures
        hash_byte(first, second) == byte,
{
    law_hexadecimal_digits(first as char, byte as int / 16);
    law_hexadecimal_digits(second as char, byte as int % 16);
}

/// An info hash is read two bytes at a time, in order.
pub proof fn law_info_hash_is_read_in_order(text: Seq<u8>, i: int)
    requires
        text.len() >= 40,
        0 <= i < 20,
    ensures
        hash_bytes(text).len() == 20,
        hash_bytes(text)[i] == hash_byte(text[2 * i], text[2 * i + 1]),
{
}

/// Two characters that are no number count as zero. A plus sign may stand
/// before a single digit.
pub proof fn law_what_is_no_number_counts_as_zero(first: u8, second: u8, n: int)
    ensures
        (forall|k: int| !#[trigger] is_digit_for(second as char, k)) ==> hash_byte(first, second)
            == 0,
        (forall|k: int| !#[trigger] is_digit_for(first as char, k)) && first != 43 ==> hash_byte(
            first,
            second,
        ) == 0,
        first == 43 && is_digit_for(second as char, n) ==> hash_byte(first, second) == n,
{
    law_hexadecimal_digits(first as char, 0);
    law_hexadecimal_digits(second as char, n);
}

/// The peers to try are the first fifty of each answer, or all of it where it
/// has fewer, answer by answer.
pub proof fn law_peers_to_try(responses: Seq<TrackerResponse>, response: TrackerResponse)
    ensures
        peers_to_try(Seq::empty()) == Seq::<SocketAddr>::empty(),
        response.peers@.len() <= 50 ==> peers_to_try(responses.push(response)) == peers_to_try(
            responses,
        ) + response.peers@,
        response.peers@.len() > 50 ==> peers_to_try(responses.push(response)) == peers_to_try(
            responses,
        ) + response.peers@.take(50),
{
    assert(responses.push(response).drop_last() =~= responses);
}

/// Spaces become underscores, and all other characters stay, one by one.
pub proof fn law_underscores_for_spaces(s: Seq<char>, i: int)
    requires
        0 <= i < s.len(),
    ensures
        underscored(s).len() == s.len(),
        s[i] == ' ' ==> underscored(s)[i] == '_',
        s[i] != ' ' ==> underscored(s)[i] == s[i],
{
}

/// A peer that chokes the client makes it forget what it awaits, where it is
/// connected to that peer; else nothing changes.
pub proof fn law_choke_forgets_requests(
    before: TorrentClient,
    after: TorrentClient,
    requests_before: Map<(usize, usize), u128>,
    requests_after: Map<(usize, usize), u128>,
    addr: SocketAddr,
)
    requires
        event_handled(before, after, requests_before, requests_after, PeerEvent::Choke(addr)),
    ensures
        before.active_peers@.contains(addr) ==> requests_after == Map::<
            (usize, usize),
            u128,
        >::empty(),
        !before.active_peers@.contains(addr) ==> requests_after == requests_before,
        after.active_peers@ == before.active_peers@,
        after.stats == before.stats,
        after.piece_manager == before.piece_manager,
{
}

/// A block that comes is counted and no longer awaited, whoever sent it, and it
/// goes to the pieces.
pub proof fn law_received_blocks_are_counted(
    before: TorrentClient,
    after: TorrentClient,
    requests_before: Map<(usize, usize), u128>,
    requests_after: Map<(usize, usize), u128>,
    addr: SocketAddr,
    piece_index: usize,
    offset: usize,
    data: Bytes,
)
    requires
        before.stats.downloaded + contents(data).len() <= u64::MAX,
        event_handled(
            before,
            after,
            requests_before,
            requests_after,
            PeerEvent::BlockReceived(addr, piece_index, offset, data),
        ),
    ensures
        after.stats.downloaded == before.stats.downloaded + contents(data).len(),
        after.stats.uploaded == before.stats.uploaded,
        after.stats.num_peers == before.stats.num_peers,
        !requests_after.contains_key((piece_index, offset)),
        forall|block: (usize, usize)|
            block != (piece_index, offset) ==> (#[trigger] requests_after.contains_key(block)
                <==> requests_before.contains_key(block)),
        after.active_peers@ == before.active_peers@,
        before.piece_manager is None ==> after.piece_manager is None,
        before.piece_manager is Some ==> after.piece_manager is Some && (block_received(
            before.piece_manager->0,
            after.piece_manager->0,
            piece_index,
            offset,
            data,
            true,
        ) || block_received(
            before.piece_manager->0,
            after.piece_manager->0,
            piece_index,
            offset,
            data,
            false,
        )),
{
    if before.piece_manager is Some {
        let completed = choose|completed: bool| #[trigger]
            block_received(
                before.piece_manager->0,
                after.piece_manager->0,
                piece_index,
                offset,
                data,
                completed,
            );
        assert(completed || !completed);
    }
}

/// A peer that is gone is no longer connected, and the count says so; all other
/// peers stay.
pub proof fn law_lost_peers_are_forgotten(
    before: TorrentClient,
    after: TorrentClient,
    requests_before: Map<(usize, usize), u128>,
    requests_after: Map<(usize, usize), u128>,
    addr: SocketAddr,
    reason: Option<String>,
    peer: SocketAddr,
)
    requires
        event_handled(
            before,
            after,
            requests_before,
            requests_after,
            PeerEvent::Disconnected(addr, reason),
        ),
    ensures
        after.active_peers@.contains(peer) <==> before.active_peers@.contains(peer) && peer
            != addr,
        after.stats.num_peers == after.active_peers@.len() as usize,
        after.stats.downloaded == before.stats.downloaded,
        requests_after == requests_before,
        after.piece_manager == before.piece_manager,
{
}

/// All other events change nothing, and no event changes which torrent it is.
pub proof fn law_other_events_change_nothing(
    before: TorrentClient,
    after: TorrentClient,
    requests_before: Map<(usize, usize), u128>,
    requests_after: Map<(usize, usize), u128>,
    event: PeerEvent,
)
    requires
        event_handled(before, after, requests_before, requests_after, event),
    ensures
        !(event is Choke) && !(event is BlockReceived) && !(event is Disconnected)
            ==> requests_after == requests_before && after.active_peers == before.active_peers
            && after.stats == before.stats && after.piece_manager == before.piece_manager,
        after.info_hash == before.info_hash,
        after.peer_id == before.peer_id,
        after.magnet == before.magnet,
        after.trackers == before.trackers,
        after.metadata == before.metadata,
        after.download_dir == before.download_dir,
{
}

/// A new client is for the info hash of its link, and has a tracker for each of
/// the link, in order.
pub proof fn law_new_clients(client: TorrentClient, magnet: MagnetLink, dir: Seq<char>, i: int)
    requires
        is_new_client(client, magnet, dir),
    ensures
        client.magnet == magnet,
        client.download_dir@ == dir,
        client.info_hash@ == hash_bytes(encode_utf8(magnet.info_hash@)),
        client.trackers@.len() == magnet.trackers@.len(),
        0 <= i < client.trackers@.len() ==> ({
            let tracker = client.trackers@[i];
            &&& tracker.url@ == magnet.trackers@[i]@
            &&& tracker.info_hash == client.info_hash
            &&& tracker.peer_id == client.peer_id
            &&& tracker.port == 6881
            &&& tracker.uploaded == 0
            &&& tracker.downloaded == 0
            &&& tracker.left == 0
        }),
        client.metadata is None,
        client.piece_manager is None,
        client.active_peers@ == Set::<SocketAddr>::empty(),
        client.stats.downloaded == 0,
        client.stats.uploaded == 0,
        client.stats.num_peers == 0,
        client.stats.elapsed_time == 0,
{
}

/// Peer IDs of the client start with "-SM0001-".
pub proof fn law_peer_ids_name_the_client(i: int)
    requires
        0 <= i < 8,
    ensures
        peer_id_prefix().len() == 8,
        peer_id_prefix()[i] as char == "-SM0001-"@[i],
{
    reveal_strlit("-SM0001-");
}

/// The stats take the time, and keep all else.
pub proof fn law_elapsed_time_is_noted(stats: ClientStats, elapsed: u128)
    ensures
        with_elapsed(stats, elapsed).elapsed_time == elapsed,
        with_elapsed(stats, elapsed).downloaded == stats.downloaded,
        with_elapsed(stats, elapsed).uploaded == stats.uploaded,
        with_elapsed(stats, elapsed).num_peers == stats.num_peers,
{
}

/// A text of ASCII characters can be cut into its parts just where it has at
/// least forty of them.
pub proof fn law_short_hash_cannot_be_cut(text: Seq<char>)
    requires
        is_ascii_chars(text),
        text.len() < 40,
    ensures
        !can_be_cut(text),
{
    vstd::utf8::is_ascii_chars_encode_utf8(text);
}

/// A text of at least forty ASCII characters can be cut into its parts.
pub proof fn law_long_hash_can_be_cut(text: Seq<char>)
    requires
        text.len() >= 40,
        is_ascii_chars(text),
    ensures
        can_be_cut(text),
{
    vstd::utf8::is_ascii_chars_encode_utf8(text);
    vstd::utf8::encode_utf8_valid_utf8(text);
    let bytes = encode_utf8(text);
    assert forall|i: int| 0 <= i <= 20 implies #[trigger] is_char_boundary(bytes, 2 * i) by {
        if 2 * i == bytes.len() {
            vstd::utf8::is_char_boundary_start_end_of_seq(bytes);
        } else {
            assert(text[2 * i] as u8 == bytes[2 * i]);
            vstd::utf8::is_char_boundary_iff_not_is_continuation_byte(bytes, 2 * i);
        }
    }
}

/// A client connects to fifty peers, awaits a block for half a minute, and
/// tells its trackers of itself every half an hour.
pub proof fn law_limits_of_a_client()
    ensures
        MAX_CONNECTIONS == 50,
        REQUEST_TIMEOUT == 30 * 1_000_000_000,
        CONNECTION_TIMEOUT == 30,
        TRACKER_INTERVAL == 30 * 60,
        PLACEHOLDER_PIECES == 1000,
{
}

/// Where a client is for the same torrent, only its pieces, its peers and its
/// statistics may differ.
pub proof fn law_the_torrent_stays(before: TorrentClient, after: TorrentClient)
    requires
        after.same_torrent(before),
    ensures
        after == (TorrentClient {
            piece_manager: after.piece_manager,
            active_peers: after.active_peers,
            stats: after.stats,
            ..before
        }),
{
}

} // verus!

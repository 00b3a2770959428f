//! BitTorrent tracker communication
use crate::address::{
    all_v4, compact_list, compact_peers, law_compact_peers_are_read_back, read_compact_peers,
    SocketAddr,
};
use crate::bencode::{decode, decoded, is_shallow, tree_of, Bencode, Tree};
use crate::entries::{check_repeated, check_string_keys, has_string_keys, is_repeated};
use crate::text::{
    ascii_alphanumeric, chars_of, decimal, decimal_text, hex_char, hex_digit,
    is_ascii_alphanumeric, lemma_decimal_len, starts_with, text_of,
};
use crate::web::{
    check_url_length, extend_query, is_extendable, lemma_query_length, pair_texts, query_length,
    url_length, url_with_query, MAX_QUERY_LENGTH,
};
use vstd::prelude::*;
use vstd::string::*;
use vstd::utf8::encode_utf8;

verus! {

/// The default BitTorrent port, on which the client listens.
pub const DEFAULT_PORT: u16 = 6881;

/// Tracker response for HTTP trackers
#[derive(Debug)]
pub struct HttpTrackerResponse {
    pub interval: u32,
    pub complete: u32,
    pub incomplete: u32,
    pub peers: Vec<u8>,
    pub failure_reason: Option<String>,
}

/// A tracker response, as a value.
#[verifier::ext_equal]
pub struct HttpResponse {
    pub interval: nat,
    pub complete: nat,
    pub incomplete: nat,
    pub peers: Seq<u8>,
    pub failure_reason: Option<Seq<char>>,
}

impl View for HttpTrackerResponse {
    type V = HttpResponse;

    open spec fn view(&self) -> HttpResponse {
        HttpResponse {
            interval: self.interval as nat,
            complete: self.complete as nat,
            incomplete: self.incomplete as nat,
            peers: self.peers@,
            failure_reason: text_of(self.failure_reason),
        }
    }
}

/// Tracker event type for BitTorrent tracker announces
#[derive(Debug, Clone, Copy, PartialEq, Eq, Structural)]
pub enum TrackerEvent {
    /// First announce to tracker when starting a download
    Started,
    /// Announce when stopping a download
    Stopped,
    /// Announce when download is completed
    Completed,
    /// Regular announce with no specific event (empty event string)
    Empty,
}

impl TrackerEvent {
    /// The event string for the tracker request.
    pub open spec fn text(self) -> Seq<char> {
        match self {
            TrackerEvent::Started => "started"@,
            TrackerEvent::Stopped => "stopped"@,
            TrackerEvent::Completed => "completed"@,
            TrackerEvent::Empty => ""@,
        }
    }

    /// Get the event string for the tracker request
    pub fn value(&self) -> (s: &'static str)
        ensures
            s@ == self.text(),
    {
        match self {
            TrackerEvent::Started => "started",
            TrackerEvent::Stopped => "stopped",
            TrackerEvent::Completed => "completed",
            TrackerEvent::Empty => "",
        }
    }

    /// Get the event string for the tracker request as a new string
    pub fn to_string(&self) -> (s: String)
        ensures
            s@ == self.text(),
    {
        self.value().to_string()
    }
}

/// Normalized tracker response
#[derive(Debug, Clone)]
pub struct TrackerResponse {
    pub interval: u32,
    pub complete: u32,
    pub incomplete: u32,
    pub peers: Vec<SocketAddr>,
}

/// Events from tracker operations
#[derive(Debug)]
pub enum TrackerOperationEvent {
    /// Successfully connected to tracker (tracker url, peer count)
    Connected(String, usize),
    /// Failed to connect to tracker (tracker url, error reason)
    Failed(String, String),
    /// Received tracker response
    Response(TrackerResponse),
    /// Tracker reported an error (tracker url, error message)
    Error(String, String),
    /// Announce interval has passed, time to re-announce (tracker url)
    IntervalElapsed(String),
}

/// Why an announce fails.
#[derive(Debug)]
pub enum TrackerError {
    /// The address of the tracker is none.
    InvalidUrl,
    /// The tracker is a UDP tracker.
    Udp,
    /// The tracker speaks another protocol. Holds its address.
    Unsupported(String),
    /// The response is no tracker response.
    InvalidResponse,
    /// The tracker says why it fails.
    Failure(String),
}

impl TrackerError {
    /// What the error says.
    pub open spec fn text(self) -> Seq<char> {
        match self {
            TrackerError::InvalidUrl => "Failed to parse tracker URL"@,
            TrackerError::Udp => "UDP tracker protocol not implemented"@,
            TrackerError::Unsupported(url) => "Unsupported tracker protocol: "@ + url@,
            TrackerError::InvalidResponse => "Failed to decode bencoded response"@,
            TrackerError::Failure(reason) => "Tracker error: "@ + reason@,
        }
    }

    /// What the error says
    pub fn message(&self) -> (s: String)
        ensures
            s@ == self.text(),
    {
        match self {
            TrackerError::InvalidUrl => "Failed to parse tracker URL".to_string(),
            TrackerError::Udp => "UDP tracker protocol not implemented".to_string(),
            TrackerError::Unsupported(url) => {
                let mut s = "Unsupported tracker protocol: ".to_string();
                s.append(url.as_str());
                s
            },
            TrackerError::InvalidResponse => "Failed to decode bencoded response".to_string(),
            TrackerError::Failure(reason) => {
                let mut s = "Tracker error: ".to_string();
                s.append(reason.as_str());
                s
            },
        }
    }
}

/// The number that a value is, 0 where there is none; `None` where it is
/// something else.
pub open spec fn count_of(tree: Option<Tree>) -> Option<nat> {
    match tree {
        Some(t) => t.number(u32::MAX as nat),
        None => Some(0),
    }
}

/// The tracker response that these values make. All of them may be missing.
pub open spec fn http_response_from(
    interval: Option<Tree>,
    complete: Option<Tree>,
    incomplete: Option<Tree>,
    peers: Option<Tree>,
    failure_reason: Option<Tree>,
) -> Option<HttpResponse> {
    let peers = match peers {
        Some(t) => t.byte_list(),
        None => Some(Seq::empty()),
    };
    let reason = match failure_reason {
        Some(t) => match t.text() {
            Some(s) => Some(Some(s)),
            None => None,
        },
        None => Some(None),
    };
    match (count_of(interval), count_of(complete), count_of(incomplete), peers, reason) {
        (Some(interval), Some(complete), Some(incomplete), Some(peers), Some(failure_reason)) =>
            Some(HttpResponse { interval, complete, incomplete, peers, failure_reason }),
        _ => None,
    }
}

/// The tracker response that a bencoded value is: a dictionary whose keys are
/// texts, or a list of the values in the order interval, complete, incomplete,
/// peers, failure reason. Of a list only the last may be missing, and what
/// follows it is not looked at.
pub open spec fn http_response_of(tree: Tree) -> Option<HttpResponse> {
    match tree {
        Tree::Dict(_) => if tree.has_text_keys() {
            http_response_from(
                tree.named("interval"@),
                tree.named("complete"@),
                tree.named("incomplete"@),
                tree.named("peers"@),
                tree.named("failure reason"@),
            )
        } else {
            None
        },
        Tree::List(l) => if l.len() >= 4 {
            http_response_from(
                Some(l[0]),
                Some(l[1]),
                Some(l[2]),
                Some(l[3]),
                if l.len() > 4 {
                    Some(l[4])
                } else {
                    None
                },
            )
        } else {
            None
        },
        _ => None,
    }
}

/// No key of a tracker response occurs twice.
pub open spec fn has_response_keys_once(data: Seq<u8>) -> bool {
    &&& has_string_keys(data, 1)
    &&& !is_repeated(data, 1, "interval"@)
    &&& !is_repeated(data, 1, "complete"@)
    &&& !is_repeated(data, 1, "incomplete"@)
    &&& !is_repeated(data, 1, "peers"@)
    &&& !is_repeated(data, 1, "failure reason"@)
}

/// The tracker response in the data. A dictionary is refused where one of the
/// keys that are looked at occurs twice.
pub open spec fn http_response_in(data: Seq<u8>) -> Option<HttpResponse> {
    match decoded(data) {
        Some(tree) => if tree is Dict ==> has_response_keys_once(data) {
            http_response_of(tree)
        } else {
            None
        },
        None => None,
    }
}

/// Tells whether no key of a tracker response occurs twice.
fn check_response_keys(data: &[u8]) -> (r: bool)
    requires
        data@.len() > 0,
    ensures
        r == has_response_keys_once(data@),
{
    check_string_keys(data, 1) && !check_repeated(data, 1, "interval") && !check_repeated(
        data,
        1,
        "complete",
    ) && !check_repeated(data, 1, "incomplete") && !check_repeated(data, 1, "peers")
        && !check_repeated(data, 1, "failure reason")
}

fn read_count(b: Option<&Bencode>) -> (r: Option<u32>)
    ensures
        match r {
            Some(n) => count_of(tree_of(b)) == Some(n as nat),
            None => count_of(tree_of(b)) is None,
        },
{
    match b {
        Some(t) => match t.number(u32::MAX as u64) {
            Some(n) => Some(n as u32),
            None => None,
        },
        None => Some(0),
    }
}

impl HttpTrackerResponse {
    /// Reads the values of a tracker response
    fn from_values(
        interval: Option<&Bencode>,
        complete: Option<&Bencode>,
        incomplete: Option<&Bencode>,
        peers: Option<&Bencode>,
        failure_reason: Option<&Bencode>,
    ) -> (r: Option<Self>)
        ensures
            ({
                let model = http_response_from(
                    tree_of(interval),
                    tree_of(complete),
                    tree_of(incomplete),
                    tree_of(peers),
                    tree_of(failure_reason),
                );
                match r {
                    Some(response) => model == Some(response@),
                    None => model is None,
                }
            }),
    {
        let interval = match read_count(interval) {
            Some(n) => n,
            None => return None,
        };
        let complete = match read_count(complete) {
            Some(n) => n,
            None => return None,
        };
        let incomplete = match read_count(incomplete) {
            Some(n) => n,
            None => return None,
        };
        let peers = match peers {
            Some(t) => match t.byte_list() {
                Some(peers) => peers,
                None => return None,
            },
            None => Vec::new(),
        };
        let failure_reason = match failure_reason {
            Some(t) => match t.text() {
                Some(s) => Some(s),
                None => return None,
            },
            None => None,
        };
        Some(HttpTrackerResponse { interval, complete, incomplete, peers, failure_reason })
    }

    /// Reads a tracker response
    pub fn from_bencode(b: &Bencode) -> (r: Option<Self>)
        ensures
            match r {
                Some(response) => http_response_of(b.tree()) == Some(response@),
                None => http_response_of(b.tree()) is None,
            },
    {
        if let Some(l) = b.list() {
            if l.len() < 4 {
                return None;
            }
            let reason = if l.len() > 4 {
                Some(&l[4])
            } else {
                None
            };
            return HttpTrackerResponse::from_values(
                Some(&l[0]),
                Some(&l[1]),
                Some(&l[2]),
                Some(&l[3]),
                reason,
            );
        }
        if !b.has_text_keys() {
            return None;
        }
        HttpTrackerResponse::from_values(
            b.get("interval"),
            b.get("complete"),
            b.get("incomplete"),
            b.get("peers"),
            b.get("failure reason"),
        )
    }

    /// Reads the tracker response in some data
    pub fn from_bytes(data: &[u8]) -> (r: Option<Self>)
        requires
            is_shallow(data@),
        ensures
            match r {
                Some(response) => http_response_in(data@) == Some(response@),
                None => http_response_in(data@) is None,
            },
    {
        match decode(data) {
            Some(b) => {
                if b.is_dict() && (data.len() == 0 || !check_response_keys(data)) {
                    return None;
                }
                HttpTrackerResponse::from_bencode(&b)
            },
            None => None,
        }
    }

    /// The normalized response, unless the tracker says that it failed
    pub fn normalize(self) -> (r: Result<TrackerResponse, TrackerError>)
        ensures
            normalized(self@, r),
    {
        match self.failure_reason {
            Some(error) => Err(TrackerError::Failure(error)),
            None => {
                let peers = read_compact_peers(self.peers.as_slice());
                Ok(
                    TrackerResponse {
                        interval: self.interval,
                        complete: self.complete,
                        incomplete: self.incomplete,
                        peers,
                    },
                )
            },
        }
    }
}

/// What comes of a tracker response: an error where the tracker gives a
/// reason, else the peers in the compact list.
pub open spec fn normalized(
    response: HttpResponse,
    r: Result<TrackerResponse, TrackerError>,
) -> bool {
    match (response.failure_reason, r) {
        (Some(reason), Err(TrackerError::Failure(error))) => error@ == reason,
        (None, Ok(out)) => {
            &&& out.interval == response.interval
            &&& out.complete == response.complete
            &&& out.incomplete == response.incomplete
            &&& out.peers@ == compact_peers(response.peers)
        },
        _ => false,
    }
}

/// The bytes for a query: letters and digits of ASCII as they are, other bytes
/// as `%` and two hexadecimal digits in upper case.
pub open spec fn url_encoded(bytes: Seq<u8>) -> Seq<char>
    decreases bytes.len(),
{
    if bytes.len() == 0 {
        Seq::empty()
    } else {
        url_encoded(bytes.drop_last()) + url_encoded_byte(bytes.last())
    }
}

/// A byte for a query.
pub open spec fn url_encoded_byte(byte: u8) -> Seq<char> {
    if ascii_alphanumeric(byte as char) {
        seq![byte as char]
    } else {
        seq!['%', hex_digit((byte / 16) as nat), hex_digit((byte % 16) as nat)]
    }
}

/// BitTorrent tracker handler
#[derive(Debug)]
pub struct Tracker {
    pub url: String,
    pub info_hash: [u8; 20],
    pub peer_id: [u8; 20],
    pub port: u16,
    pub uploaded: u64,
    pub downloaded: u64,
    pub left: u64,
}

impl Clone for Tracker {
    fn clone(&self) -> (t: Self)
        ensures
            t.url@ == self.url@,
            t.info_hash == self.info_hash,
            t.peer_id == self.peer_id,
            t.port == self.port,
            t.uploaded == self.uploaded,
            t.downloaded == self.downloaded,
            t.left == self.left,
    {
        Tracker {
            url: self.url.clone(),
            info_hash: self.info_hash,
            peer_id: self.peer_id,
            port: self.port,
            uploaded: self.uploaded,
            downloaded: self.downloaded,
            left: self.left,
        }
    }
}

/// The query of an announce: the event is left out where it is empty.
pub open spec fn announce_pairs(tracker: Tracker, event: TrackerEvent) -> Seq<
    (Seq<char>, Seq<char>),
> {
    let pairs = seq![
        ("info_hash"@, url_encoded(tracker.info_hash@)),
        ("peer_id"@, url_encoded(tracker.peer_id@)),
        ("port"@, decimal(tracker.port as nat)),
        ("uploaded"@, decimal(tracker.uploaded as nat)),
        ("downloaded"@, decimal(tracker.downloaded as nat)),
        ("left"@, decimal(tracker.left as nat)),
        ("compact"@, "1"@),
    ];
    if event == TrackerEvent::Empty {
        pairs
    } else {
        pairs.push(("event"@, event.text()))
    }
}

/// A byte takes at most three characters in a query.
proof fn lemma_url_encoded_len(bytes: Seq<u8>)
    ensures
        url_encoded(bytes).len() <= 3 * bytes.len(),
    decreases bytes.len(),
{
    if bytes.len() > 0 {
        lemma_url_encoded_len(bytes.drop_last());
    }
}

/// The query of an announce is short.
proof fn lemma_announce_query_length(tracker: Tracker, event: TrackerEvent)
    ensures
        query_length(announce_pairs(tracker, event)) <= MAX_QUERY_LENGTH,
{
    lemma_url_encoded_len(tracker.info_hash@);
    lemma_url_encoded_len(tracker.peer_id@);
    lemma_decimal_len(tracker.port as u64);
    lemma_decimal_len(tracker.uploaded);
    lemma_decimal_len(tracker.downloaded);
    lemma_decimal_len(tracker.left);
    reveal_strlit("info_hash");
    reveal_strlit("peer_id");
    reveal_strlit("port");
    reveal_strlit("uploaded");
    reveal_strlit("downloaded");
    reveal_strlit("left");
    reveal_strlit("compact");
    reveal_strlit("1");
    reveal_strlit("event");
    reveal_strlit("started");
    reveal_strlit("stopped");
    reveal_strlit("completed");
    reveal_strlit("");
    let pairs = announce_pairs(tracker, event);
    assert forall|i: int| 0 <= i < pairs.len() implies (#[trigger] pairs[i]).0.len()
        + pairs[i].1.len() <= 100 by {}
    lemma_query_length(pairs, 100);
    assert(pairs.len() * (100nat + 2) <= 816) by (nonlinear_arith)
        requires
            pairs.len() <= 8,
    ;
}

impl Tracker {
    /// Create a new tracker instance
    pub fn new(url: &str, info_hash: [u8; 20], peer_id: [u8; 20], left: u64) -> (t: Self)
        ensures
            t.url@ == url@,
            t.info_hash == info_hash,
            t.peer_id == peer_id,
            t.port == DEFAULT_PORT,
            t.uploaded == 0,
            t.downloaded == 0,
            t.left == left,
    {
        Tracker {
            url: url.to_string(),
            info_hash,
            peer_id,
            port: DEFAULT_PORT,
            uploaded: 0,
            downloaded: 0,
            left,
        }
    }

    /// URL encode bytes for query parameters
    pub fn url_encode_bytes(&self, bytes: &[u8]) -> (s: String)
        ensures
            s@ == url_encoded(bytes@),
    {
        let mut s = String::new();
        let mut i: usize = 0;
        proof {
            assert(bytes@.take(0) =~= Seq::empty());
        }
        while i < bytes.len()
            invariant
                i <= bytes@.len(),
                s@ == url_encoded(bytes@.take(i as int)),
            decreases bytes@.len() - i,
        {
            let byte: u8 = bytes[i];
            let ghost before = s@;
            if is_ascii_alphanumeric(byte) {
                s.push(byte as char);
            } else {
                s.push('%');
                s.push(hex_char(byte / 16));
                s.push(hex_char(byte % 16));
            }
            proof {
                assert(bytes@.take(i + 1).drop_last() =~= bytes@.take(i as int));
                assert(s@ =~= before + url_encoded_byte(byte));
            }
            i += 1;
        }
        proof {
            assert(bytes@.take(i as int) =~= bytes@);
        }
        s
    }

    /// The query of an announce
    pub fn query_pairs(&self, event: TrackerEvent) -> (pairs: Vec<(String, String)>)
        ensures
            pair_texts(pairs@) == announce_pairs(*self, event),
    {
        let mut pairs: Vec<(String, String)> = Vec::new();
        pairs.push(("info_hash".to_string(), self.url_encode_bytes(self.info_hash.as_slice())));
        pairs.push(("peer_id".to_string(), self.url_encode_bytes(self.peer_id.as_slice())));
        pairs.push(("port".to_string(), decimal_text(self.port as u64)));
        pairs.push(("uploaded".to_string(), decimal_text(self.uploaded)));
        pairs.push(("downloaded".to_string(), decimal_text(self.downloaded)));
        pairs.push(("left".to_string(), decimal_text(self.left)));
        pairs.push(("compact".to_string(), "1".to_string()));
        if event != TrackerEvent::Empty {
            pairs.push(("event".to_string(), event.to_string()));
        }
        proof {
            assert(pair_texts(pairs@) =~= announce_pairs(*self, event));
        }
        pairs
    }

    /// The address of an announce to an HTTP tracker
    pub fn http_announce(&self, event: TrackerEvent) -> (r: Result<String, TrackerError>)
        requires
            is_extendable(self.url@),
        ensures
            self.is_http_announce(event, r),
    {
        let pairs = self.query_pairs(event);
        proof {
            lemma_announce_query_length(*self, event);
        }
        match extend_query(self.url.as_str(), &pairs) {
            Some(url) => Ok(url),
            None => Err(TrackerError::InvalidUrl),
        }
    }

    /// The address of the tracker with the query of an announce, or that the
    /// tracker has no address.
    pub open spec fn is_http_announce(
        self,
        event: TrackerEvent,
        r: Result<String, TrackerError>,
    ) -> bool {
        match r {
            Ok(url) => url_length(self.url@) is Some && url_with_query(
                self.url@,
                announce_pairs(self, event),
            ) == Some(url@),
            Err(e) => url_length(self.url@) is None && e is InvalidUrl,
        }
    }

    /// What comes of an announce before anything is sent: for an HTTP tracker
    /// the address to ask, for others an error.
    pub open spec fn is_announce(
        self,
        event: TrackerEvent,
        r: Result<String, TrackerError>,
    ) -> bool {
        if "http"@.is_prefix_of(self.url@) {
            self.is_http_announce(event, r)
        } else if "udp"@.is_prefix_of(self.url@) {
            r matches Err(TrackerError::Udp)
        } else {
            r matches Err(TrackerError::Unsupported(url)) && url@ == self.url@
        }
    }

    /// The address to ask for an announce to the tracker
    pub fn announce(&self, event: TrackerEvent) -> (r: Result<String, TrackerError>)
        requires
            "http"@.is_prefix_of(self.url@) ==> is_extendable(self.url@),
        ensures
            self.is_announce(event, r),
    {
        let chars = chars_of(self.url.as_str());
        if starts_with(chars.as_slice(), "http") {
            self.http_announce(event)
        } else if starts_with(chars.as_slice(), "udp") {
            Err(TrackerError::Udp)
        } else {
            Err(TrackerError::Unsupported(self.url.clone()))
        }
    }

    /// The address to ask for an announce to the tracker. `None` where the
    /// address of an HTTP tracker is so long that a query cannot be added.
    pub fn checked_announce(&self, event: TrackerEvent) -> (r: Option<
        Result<String, TrackerError>,
    >)
        ensures
            r matches Some(outcome) ==> self.is_announce(event, outcome),
            r is None <==> "http"@.is_prefix_of(self.url@) && !is_extendable(self.url@),
    {
        let chars = chars_of(self.url.as_str());
        if starts_with(chars.as_slice(), "http") && !check_url_length(self.url.as_str()) {
            return None;
        }
        Some(self.announce(event))
    }

    /// Read what an HTTP tracker answers
    pub fn read_response(bytes: &[u8]) -> (r: Result<TrackerResponse, TrackerError>)
        requires
            is_shallow(bytes@),
        ensures
            match http_response_in(bytes@) {
                Some(response) => normalized(response, r),
                None => r matches Err(TrackerError::InvalidResponse),
            },
    {
        match HttpTrackerResponse::from_bytes(bytes) {
            Some(response) => response.normalize(),
            None => Err(TrackerError::InvalidResponse),
        }
    }

    /// The events that tell of an announce, in order
    pub fn announce_with_events(&self, result: Result<TrackerResponse, String>) -> (r: Vec<
        TrackerOperationEvent,
    >)
        ensures
            match result {
                Ok(response) => {
                    &&& r@.len() == 2
                    &&& r@[0] matches TrackerOperationEvent::Connected(url, count) && url@
                        == self.url@ && count == response.peers@.len()
                    &&& r@[1] == TrackerOperationEvent::Response(response)
                },
                Err(error) => {
                    &&& r@.len() == 1
                    &&& r@[0] matches TrackerOperationEvent::Failed(url, e) && url@ == self.url@
                        && e@ == error@
                },
            },
    {
        let mut events: Vec<TrackerOperationEvent> = Vec::new();
        match result {
            Ok(response) => {
                events.push(
                    TrackerOperationEvent::Connected(self.url.clone(), response.peers.len()),
                );
                events.push(TrackerOperationEvent::Response(response));
            },
            Err(error) => {
                events.push(TrackerOperationEvent::Failed(self.url.clone(), error));
            },
        }
        events
    }

    /// Update stats for the next announce
    pub fn update_stats(&mut self, uploaded: u64, downloaded: u64, left: u64)
        ensures
            final(self).uploaded == uploaded,
            final(self).downloaded == downloaded,
            final(self).left == left,
            final(self).url == old(self).url,
            final(self).info_hash == old(self).info_hash,
            final(self).peer_id == old(self).peer_id,
            final(self).port == old(self).port,
    {
        self.uploaded = uploaded;
        self.downloaded = downloaded;
        self.left = left;
    }
}

/// The first byte comes first in a query.
proof fn lemma_url_encoded_first(bytes: Seq<u8>)
    requires
        bytes.len() > 0,
    ensures
        url_encoded(bytes) == url_encoded_byte(bytes[0]) + url_encoded(bytes.skip(1)),
    decreases bytes.len(),
{
    let front = bytes.drop_last();
    if front.len() > 0 {
        lemma_url_encoded_first(front);
        assert(bytes.skip(1).drop_last() =~= front.skip(1));
        assert(url_encoded(bytes) =~= url_encoded_byte(bytes[0]) + url_encoded(bytes.skip(1)));
    } else {
        assert(bytes.skip(1) =~= Seq::empty());
        assert(url_encoded(front) =~= Seq::empty());
        assert(url_encoded(bytes) =~= url_encoded_byte(bytes[0]) + url_encoded(bytes.skip(1)));
    }
}

/// Two bytes whose encodings start two equal texts are the same.
proof fn lemma_url_encoded_byte_differs(a: u8, b: u8, after_a: Seq<char>, after_b: Seq<char>)
    requires
        url_encoded_byte(a) + after_a == url_encoded_byte(b) + after_b,
    ensures
        a == b,
        after_a == after_b,
{
    let x = url_encoded_byte(a) + after_a;
    let y = url_encoded_byte(b) + after_b;
    assert(x[0] == y[0]);
    assert(x[0] == url_encoded_byte(a)[0]);
    assert(y[0] == url_encoded_byte(b)[0]);
    assert(!ascii_alphanumeric('%'));
    assert(ascii_alphanumeric(a as char) == ascii_alphanumeric(b as char));
    if !ascii_alphanumeric(a as char) {
        assert(x[1] == hex_digit((a / 16) as nat) && x[1] == hex_digit((b / 16) as nat));
        assert(x[2] == hex_digit((a % 16) as nat) && x[2] == hex_digit((b % 16) as nat));
    }
    assert(a == b);
    let n = url_encoded_byte(a).len() as int;
    assert(x.skip(n) =~= after_a);
    assert(y.skip(n) =~= after_b);
}

/// Different bytes are written differently in a query.
pub proof fn law_url_encoding_is_injective(a: Seq<u8>, b: Seq<u8>)
    requires
        url_encoded(a) == url_encoded(b),
    ensures
        a == b,
    decreases a.len(),
{
    if a.len() > 0 && b.len() > 0 {
        lemma_url_encoded_first(a);
        lemma_url_encoded_first(b);
        lemma_url_encoded_byte_differs(a[0], b[0], url_encoded(a.skip(1)), url_encoded(b.skip(1)));
        law_url_encoding_is_injective(a.skip(1), b.skip(1));
        assert(a =~= seq![a[0]] + a.skip(1));
        assert(b =~= seq![b[0]] + b.skip(1));
    } else if a.len() > 0 {
        lemma_url_encoded_first(a);
        assert(url_encoded(b).len() == 0);
    } else if b.len() > 0 {
        lemma_url_encoded_first(b);
        assert(url_encoded(a).len() == 0);
    }
}

/// What is written in a query is ASCII: letters, digits and `%`.
pub proof fn law_url_encoding_is_ascii(bytes: Seq<u8>, i: int)
    requires
        0 <= i < url_encoded(bytes).len(),
    ensures
        ascii_alphanumeric(url_encoded(bytes)[i]) || url_encoded(bytes)[i] == '%',
    decreases bytes.len(),
{
    let front = url_encoded(bytes.drop_last());
    if i < front.len() {
        law_url_encoding_is_ascii(bytes.drop_last(), i);
    } else {
        assert(url_encoded(bytes)[i] == url_encoded_byte(bytes.last())[i - front.len()]);
    }
}

/// A tracker that answers with a compact list of peers is understood: just
/// those peers come out.
pub proof fn law_listed_peers_are_read(
    response: HttpResponse,
    peers: Seq<SocketAddr>,
    r: Result<TrackerResponse, TrackerError>,
)
    requires
        response.failure_reason is None,
        all_v4(peers),
        response.peers == compact_list(peers),
        normalized(response, r),
    ensures
        r matches Ok(out) && out.peers@ == peers,
{
    law_compact_peers_are_read_back(peers);
}

/// Bytes are written for a query one by one: a letter or a digit of ASCII as
/// itself, every other byte as `%` and its two hexadecimal digits in upper
/// case.
pub proof fn law_bytes_are_encoded_one_by_one(bytes: Seq<u8>, byte: u8)
    ensures
        url_encoded(Seq::empty()) == Seq::<char>::empty(),
        48 <= byte <= 57 || 65 <= byte <= 90 || 97 <= byte <= 122 ==> url_encoded(bytes.push(byte))
            == url_encoded(bytes).push(byte as char),
        !(48 <= byte <= 57 || 65 <= byte <= 90 || 97 <= byte <= 122) ==> ({
            let high = byte as int / 16;
            let low = byte as int % 16;
            let all = url_encoded(bytes.push(byte));
            let n = url_encoded(bytes).len() as int;
            &&& all.len() == n + 3
            &&& all.take(n) == url_encoded(bytes)
            &&& all[n] == '%'
            &&& all[n + 1] as u32 == if high < 10 {
                48 + high
            } else {
                55 + high
            }
            &&& all[n + 2] as u32 == if low < 10 {
                48 + low
            } else {
                55 + low
            }
        }),
{
    assert(bytes.push(byte).drop_last() =~= bytes);
    let all = url_encoded(bytes.push(byte));
    let n = url_encoded(bytes).len() as int;
    if 48 <= byte <= 57 || 65 <= byte <= 90 || 97 <= byte <= 122 {
        assert(all =~= url_encoded(bytes).push(byte as char));
    } else {
        assert(all.take(n) =~= url_encoded(bytes));
    }
}

/// An announce says of the torrent, the client and the transfer what they are,
/// under the names that trackers know, and which event it tells of, if any.
pub proof fn law_announces_say_everything(tracker: Tracker, event: TrackerEvent)
    ensures
        ({
            let pairs = announce_pairs(tracker, event);
            &&& pairs.len() == if event == TrackerEvent::Empty {
                7int
            } else {
                8int
            }
            &&& pairs[0] == ("info_hash"@, url_encoded(tracker.info_hash@))
            &&& pairs[1] == ("peer_id"@, url_encoded(tracker.peer_id@))
            &&& pairs[2] == ("port"@, decimal(tracker.port as nat))
            &&& pairs[3] == ("uploaded"@, decimal(tracker.uploaded as nat))
            &&& pairs[4] == ("downloaded"@, decimal(tracker.downloaded as nat))
            &&& pairs[5] == ("left"@, decimal(tracker.left as nat))
            &&& pairs[6] == ("compact"@, "1"@)
            &&& event == TrackerEvent::Started ==> pairs[7] == ("event"@, "started"@)
            &&& event == TrackerEvent::Stopped ==> pairs[7] == ("event"@, "stopped"@)
            &&& event == TrackerEvent::Completed ==> pairs[7] == ("event"@, "completed"@)
        }),
{
}

/// The number under a key of a response, which may be missing.
pub open spec fn is_count(tree: Option<Tree>, n: nat) -> bool {
    match tree {
        Some(t) => t == Tree::Int(n as i64) && n <= 0xffff_ffff,
        None => n == 0,
    }
}

/// A dictionary with numbers, peers or none of them, and no reason for a
/// failure, is a response with just these, whatever other entries it has.
pub proof fn law_responses_are_read(
    tree: Tree,
    interval: nat,
    complete: nat,
    incomplete: nat,
    peers: Seq<u8>,
)
    requires
        tree is Dict,
        tree.has_text_keys(),
        is_count(tree.named("interval"@), interval),
        is_count(tree.named("complete"@), complete),
        is_count(tree.named("incomplete"@), incomplete),
        tree.named("peers"@) == Some(Tree::Bytes(peers)) || (tree.named("peers"@) is None && peers
            == Seq::<u8>::empty()),
        tree.named("failure reason"@) is None,
    ensures
        http_response_of(tree) == Some(
            HttpResponse { interval, complete, incomplete, peers, failure_reason: None },
        ),
{
}

/// A dictionary with a reason for a failure is a response with that reason,
/// whatever other entries it has that can be read.
pub proof fn law_failures_are_read(
    tree: Tree,
    reason: Seq<char>,
    r: Result<TrackerResponse, TrackerError>,
)
    requires
        tree is Dict,
        tree.has_text_keys(),
        tree.named("interval"@) is None,
        tree.named("complete"@) is None,
        tree.named("incomplete"@) is None,
        tree.named("peers"@) is None,
        tree.named("failure reason"@) == Some(Tree::Bytes(encode_utf8(reason))),
        normalized(http_response_of(tree)->0, r),
    ensures
        r matches Err(TrackerError::Failure(text)) && text@ == reason,
{
    vstd::utf8::encode_utf8_valid_utf8(reason);
    vstd::utf8::encode_utf8_decode_utf8(reason);
}

/// A response has a reason for a failure just where the tracker gives one, and
/// it is then read.
pub proof fn law_reasons_are_kept(tree: Tree, reason: Seq<char>)
    requires
        tree is Dict,
        tree.named("failure reason"@) == Some(Tree::Bytes(encode_utf8(reason))),
    ensures
        http_response_of(tree) is Some ==> http_response_of(tree)->0.failure_reason == Some(reason),
        tree.has_text_keys() && tree.named("interval"@) is None && tree.named("complete"@) is None
            && tree.named("incomplete"@) is None && tree.named("peers"@) is None
            ==> http_response_of(tree) is Some,
{
    vstd::utf8::encode_utf8_valid_utf8(reason);
    vstd::utf8::encode_utf8_decode_utf8(reason);
}

/// A dictionary with a number that is none or out of range, peers that are no
/// bytes, or a reason that is no text, is no response; nor is anything but a
/// dictionary or a list.
pub proof fn law_what_is_no_response(tree: Tree)
    ensures
        tree is Dict && tree.named("interval"@) is Some && tree.named("interval"@)->0.number(
            0xffff_ffff,
        ) is None ==> http_response_of(tree) is None,
        tree is Dict && tree.named("complete"@) is Some && tree.named("complete"@)->0.number(
            0xffff_ffff,
        ) is None ==> http_response_of(tree) is None,
        tree is Dict && tree.named("incomplete"@) is Some && tree.named("incomplete"@)->0.number(
            0xffff_ffff,
        ) is None ==> http_response_of(tree) is None,
        tree is Dict && tree.named("peers"@) is Some && tree.named("peers"@)->0.byte_list() is None
            ==> http_response_of(tree) is None,
        tree is Dict && tree.named("failure reason"@) is Some && tree.named(
            "failure reason"@,
        )->0.text() is None ==> http_response_of(tree) is None,
        tree is Dict && !tree.has_text_keys() ==> http_response_of(tree) is None,
        tree is Int || tree is Bytes ==> http_response_of(tree) is None,
{
}

/// A list is read as a response by position: interval, complete, incomplete,
/// peers and the reason for a failure, of which only the last may be missing.
pub proof fn law_response_lists_are_read_by_position(
    l: Seq<Tree>,
    interval: u32,
    complete: u32,
    incomplete: u32,
    peers: Seq<u8>,
    reason: Seq<char>,
)
    requires
        l.len() >= 4 ==> l[0] == Tree::Int(interval as i64) && l[1] == Tree::Int(complete as i64)
            && l[2] == Tree::Int(incomplete as i64) && l[3] == Tree::Bytes(peers),
        l.len() > 4 ==> l[4] == Tree::Bytes(encode_utf8(reason)),
    ensures
        l.len() < 4 ==> http_response_of(Tree::List(l)) is None,
        l.len() >= 4 ==> http_response_of(Tree::List(l)) == Some(
            HttpResponse {
                interval: interval as nat,
                complete: complete as nat,
                incomplete: incomplete as nat,
                peers,
                failure_reason: if l.len() > 4 {
                    Some(reason)
                } else {
                    None
                },
            },
        ),
{
    vstd::utf8::encode_utf8_valid_utf8(reason);
    vstd::utf8::encode_utf8_decode_utf8(reason);
}

/// The numbers and the peers of a response come out as they are; a reason for a
/// failure comes out as an error.
pub proof fn law_responses_come_out(
    response: HttpResponse,
    r: Result<TrackerResponse, TrackerError>,
)
    requires
        normalized(response, r),
    ensures
        response.failure_reason is None ==> r is Ok && r->Ok_0.interval == response.interval
            && r->Ok_0.complete == response.complete && r->Ok_0.incomplete == response.incomplete
            && r->Ok_0.peers@ == compact_peers(response.peers),
        response.failure_reason is Some ==> (r matches Err(TrackerError::Failure(text)) && text@
            == response.failure_reason->0),
{
}

/// What data say is what the value in them says, unless one of the keys that
/// are looked at occurs twice; data that cannot be read say nothing.
pub proof fn law_responses_in_data(data: Seq<u8>, tree: Tree)
    ensures
        decoded(data) is None ==> http_response_in(data) is None,
        decoded(data) == Some(tree) && !(tree is Dict) ==> http_response_in(data)
            == http_response_of(tree),
        decoded(data) == Some(tree) && tree is Dict && has_string_keys(data, 1) && !is_repeated(
            data,
            1,
            "interval"@,
        ) && !is_repeated(data, 1, "complete"@) && !is_repeated(data, 1, "incomplete"@)
            && !is_repeated(data, 1, "peers"@) && !is_repeated(data, 1, "failure reason"@)
            ==> http_response_in(data) == http_response_of(tree),
        decoded(data) == Some(tree) && tree is Dict && (is_repeated(data, 1, "interval"@)
            || is_repeated(data, 1, "complete"@) || is_repeated(data, 1, "incomplete"@)
            || is_repeated(data, 1, "peers"@) || is_repeated(data, 1, "failure reason"@))
            ==> http_response_in(data) is None,
{
}

/// What a response shows is what its fields hold.
pub proof fn law_responses_show_their_fields(response: HttpTrackerResponse)
    ensures
        response@.interval == response.interval,
        response@.complete == response.complete,
        response@.incomplete == response.incomplete,
        response@.peers == response.peers@,
        response.failure_reason is Some ==> response@.failure_reason == Some(
            response.failure_reason->0@,
        ),
        response.failure_reason is None ==> response@.failure_reason is None,
{
}

/// An announce goes to HTTP trackers alone, with the query of the announce
/// added to the address; UDP trackers and others are refused.
pub proof fn law_where_announces_go(
    tracker: Tracker,
    event: TrackerEvent,
    r: Result<String, TrackerError>,
)
    requires
        tracker.is_announce(event, r),
    ensures
        "http"@.is_prefix_of(tracker.url@) && url_length(tracker.url@) is Some ==> r is Ok
            && url_with_query(tracker.url@, announce_pairs(tracker, event)) == Some(r->Ok_0@),
        "http"@.is_prefix_of(tracker.url@) && url_length(tracker.url@) is None ==> r == Err::<
            String,
            TrackerError,
        >(TrackerError::InvalidUrl),
        "udp"@.is_prefix_of(tracker.url@) ==> r == Err::<String, TrackerError>(TrackerError::Udp),
        !"http"@.is_prefix_of(tracker.url@) && !"udp"@.is_prefix_of(tracker.url@) ==> (r matches Err(
            TrackerError::Unsupported(url),
        ) && url@ == tracker.url@),
{
    reveal_strlit("http");
    reveal_strlit("udp");
    if "udp"@.is_prefix_of(tracker.url@) && "http"@.is_prefix_of(tracker.url@) {
        assert(tracker.url@.take(3)[0] == 'u');
        assert(tracker.url@.take(4)[0] == 'h');
    }
}

/// A client listens on the default port of BitTorrent.
pub proof fn law_default_port()
    ensures
        DEFAULT_PORT == 6881,
{
}

} // verus!

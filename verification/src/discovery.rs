//! Finding peers that have the metadata of a magnet link.
use crate::address::SocketAddr;
use crate::random::random_id;
use crate::text::{chars_of, starts_with, texts};
use vstd::prelude::*;
use vstd::string::*;

verus! {

/// How many peers are asked at first.
pub const MAX_PEERS: usize = 50;

/// How many peers are asked at a time.
pub const MAX_CONCURRENT_CONNECTIONS: usize = 10;

/// How long peers are looked for before the first is asked, in nanoseconds:
/// ten seconds.
pub const PEER_DISCOVERY_TIMEOUT: u128 = 10_000_000_000;

/// How long the metadata may take, in nanoseconds: a minute.
pub const METADATA_FETCH_TIMEOUT: u128 = 60_000_000_000;

/// How long the exchange with one peer may take, in nanoseconds: half a
/// minute.
pub const PEER_FETCH_TIMEOUT: u128 = 30_000_000_000;

/// How long a connection, a handshake and the start of a message may take, in
/// seconds.
pub const PEER_RESPONSE_TIMEOUT: u64 = 5;

/// Why no metadata was found.
#[derive(Debug, Clone, Copy, PartialEq, Eq, Structural)]
pub enum DiscoveryError {
    /// There is no peer to ask.
    NoPeers,
    /// No peer has the metadata.
    NotFound,
    /// Time is up.
    TimedOut,
}

impl DiscoveryError {
    /// What the error says.
    pub open spec fn text(self) -> Seq<char> {
        match self {
            DiscoveryError::NoPeers => "No peers available to fetch metadata"@,
            DiscoveryError::NotFound => "Failed to fetch metadata from any peer"@,
            DiscoveryError::TimedOut => "Metadata fetch timed out"@,
        }
    }

    /// What the error says
    pub fn message(&self) -> (s: String)
        ensures
            s@ == self.text(),
    {
        match self {
            DiscoveryError::NoPeers => "No peers available to fetch metadata".to_string(),
            DiscoveryError::NotFound => "Failed to fetch metadata from any peer".to_string(),
            DiscoveryError::TimedOut => "Metadata fetch timed out".to_string(),
        }
    }
}

/// A peer ID for asking for metadata. Nothing is known of it.
pub fn anonymous_peer_id() -> [u8; 20] {
    random_id()
}

/// Those of the texts that start with the prefix, in order.
pub open spec fn with_prefix(all: Seq<Seq<char>>, prefix: Seq<char>) -> Seq<Seq<char>>
    decreases all.len(),
{
    if all.len() == 0 {
        Seq::empty()
    } else {
        let before = with_prefix(all.drop_last(), prefix);
        if prefix.is_prefix_of(all.last()) {
            before.push(all.last())
        } else {
            before
        }
    }
}

/// The trackers whose address starts with the prefix
pub fn trackers_with_prefix(trackers: &[String], prefix: &str) -> (r: Vec<String>)
    ensures
        texts(r@) == with_prefix(texts(trackers@), prefix@),
{
    let ghost all = texts(trackers@);
    let mut r: Vec<String> = Vec::new();
    let mut i: usize = 0;
    proof {
        assert(all.take(0) =~= Seq::empty());
        assert(texts(r@) =~= Seq::empty());
    }
    while i < trackers.len()
        invariant
            i <= trackers@.len(),
            all == texts(trackers@),
            texts(r@) == with_prefix(all.take(i as int), prefix@),
        decreases trackers@.len() - i,
    {
        proof {
            assert(all.take(i + 1).drop_last() =~= all.take(i as int));
        }
        let chars = chars_of(trackers[i].as_str());
        if starts_with(chars.as_slice(), prefix) {
            let ghost before = r@;
            r.push(trackers[i].clone());
            proof {
                assert(texts(r@) =~= texts(before).push(all[i as int]));
            }
        }
        i += 1;
    }
    proof {
        assert(all.take(i as int) =~= all);
    }
    r
}

/// Tells whether the search for peers ends: there are enough, or time is up
pub fn is_search_over(count: usize, elapsed: u128) -> (r: bool)
    ensures
        r == (count >= MAX_PEERS || elapsed >= PEER_DISCOVERY_TIMEOUT),
{
    count >= MAX_PEERS || elapsed >= PEER_DISCOVERY_TIMEOUT
}

/// Tells whether the exchange with a peer ends without metadata: time is up,
/// and no message has begun
pub fn is_fetch_over(between_messages: bool, elapsed: u128) -> (r: bool)
    ensures
        r == (between_messages && elapsed >= PEER_FETCH_TIMEOUT),
{
    between_messages && elapsed >= PEER_FETCH_TIMEOUT
}

/// Which peers are asked for the metadata, and which are still to be asked
#[derive(Debug)]
pub struct FetchPlan {
    pub peers: Vec<SocketAddr>,
    pub peer_index: usize,
    pub active_tasks: usize,
}

impl FetchPlan {
    /// The peers up to the index were asked, and not too many.
    pub open spec fn wf(self) -> bool {
        &&& self.peer_index <= self.peers@.len()
        &&& self.active_tasks <= MAX_CONCURRENT_CONNECTIONS
        &&& self.active_tasks == self.peer_index
    }

    /// There is a peer to ask, and room for one more.
    pub open spec fn may_ask(self) -> bool {
        self.active_tasks < MAX_CONCURRENT_CONNECTIONS && self.peer_index < self.peers@.len()
    }

    /// Plan to ask these peers
    pub fn new(peers: Vec<SocketAddr>) -> (r: Result<Self, DiscoveryError>)
        ensures
            match r {
                Ok(plan) => peers@.len() > 0 && plan.wf() && plan.peers@ == peers@
                    && plan.peer_index == 0 && plan.active_tasks == 0,
                Err(e) => peers@.len() == 0 && e == DiscoveryError::NoPeers,
            },
    {
        if peers.len() == 0 {
            return Err(DiscoveryError::NoPeers);
        }
        Ok(FetchPlan { peers, peer_index: 0, active_tasks: 0 })
    }

    /// The next peer to ask, if another may be asked now
    pub fn next_peer(&mut self) -> (r: Option<SocketAddr>)
        requires
            old(self).wf(),
        ensures
            final(self).wf(),
            final(self).peers@ == old(self).peers@,
            if old(self).may_ask() {
                &&& r == Some(old(self).peers@[old(self).peer_index as int])
                &&& final(self).peer_index == old(self).peer_index + 1
                &&& final(self).active_tasks == old(self).active_tasks + 1
            } else {
                &&& r is None
                &&& *final(self) == *old(self)
            },
    {
        if self.active_tasks < MAX_CONCURRENT_CONNECTIONS && self.peer_index < self.peers.len() {
            let peer = self.peers[self.peer_index];
            self.peer_index += 1;
            self.active_tasks += 1;
            Some(peer)
        } else {
            None
        }
    }

    /// Tells whether all peers were asked
    pub fn wants_peer(&self) -> (r: bool)
        ensures
            r == (self.peer_index >= self.peers@.len()),
    {
        self.peer_index >= self.peers.len()
    }

    /// All peers were asked and none answered yet: take another peer if one
    /// was found. Where none was asked there is nothing to wait for.
    pub fn found_peer(&mut self, peer: Option<SocketAddr>) -> (r: Result<(), DiscoveryError>)
        requires
            old(self).wf(),
        ensures
            final(self).wf(),
            final(self).peer_index == old(self).peer_index,
            final(self).active_tasks == old(self).active_tasks,
            match peer {
                Some(p) => r is Ok && final(self).peers@ == old(self).peers@.push(p),
                None => final(self).peers@ == old(self).peers@ && r == if old(self).active_tasks
                    == 0 {
                    Err::<(), DiscoveryError>(DiscoveryError::NotFound)
                } else {
                    Ok::<(), DiscoveryError>(())
                },
            },
    {
        match peer {
            Some(p) => {
                self.peers.push(p);
                Ok(())
            },
            None => {
                if self.active_tasks == 0 {
                    Err(DiscoveryError::NotFound)
                } else {
                    Ok(())
                }
            },
        }
    }
}

/// At most so many peers are ever asked as may be asked at a time: one that
/// was asked counts from then on.
pub proof fn law_few_peers_are_asked(plan: FetchPlan)
    requires
        plan.wf(),
    ensures
        plan.peer_index <= MAX_CONCURRENT_CONNECTIONS,
        plan.may_ask() <==> plan.peer_index < MAX_CONCURRENT_CONNECTIONS && plan.peer_index
            < plan.peers@.len(),
{
}

/// The trackers with a prefix are those whose address starts with it, in
/// order.
pub proof fn law_trackers_with_a_prefix(all: Seq<Seq<char>>, one: Seq<char>, prefix: Seq<char>)
    ensures
        with_prefix(Seq::empty(), prefix) == Seq::<Seq<char>>::empty(),
        prefix.is_prefix_of(one) ==> with_prefix(all.push(one), prefix) == with_prefix(
            all,
            prefix,
        ).push(one),
        !prefix.is_prefix_of(one) ==> with_prefix(all.push(one), prefix) == with_prefix(
            all,
            prefix,
        ),
{
    assert(all.push(one).drop_last() =~= all);
}

/// A peer may be asked as long as fewer than ten were and one is left.
pub proof fn law_when_a_peer_may_be_asked(plan: FetchPlan)
    ensures
        plan.may_ask() <==> plan.active_tasks < 10 && plan.peer_index < plan.peers@.len(),
{
}

/// Fifty peers are looked for, for ten seconds; ten are asked at a time, each
/// for half a minute, and all of them for a minute.
pub proof fn law_limits_of_a_discovery()
    ensures
        MAX_PEERS == 50,
        MAX_CONCURRENT_CONNECTIONS == 10,
        PEER_DISCOVERY_TIMEOUT == 10 * 1_000_000_000,
        METADATA_FETCH_TIMEOUT == 60 * 1_000_000_000,
        PEER_FETCH_TIMEOUT == 30 * 1_000_000_000,
        PEER_RESPONSE_TIMEOUT == 5,
{
}

} // verus!

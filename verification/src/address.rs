//! The address of a peer.
use crate::wire::{
    be, be_value, lemma_be_len, lemma_be_value_2, lemma_be_value_of_be, lemma_byte_range,
};
use vstd::prelude::*;

verus! {

/// An IP address as a number, its first part in the most significant bits.
#[derive(Debug, Clone, Copy, PartialEq, Eq, Hash, Structural)]
pub enum IpAddr {
    V4(u32),
    V6(u128),
}

/// An IP address and a port
#[derive(Debug, Clone, Copy, PartialEq, Eq, Hash, Structural)]
pub struct SocketAddr {
    pub ip: IpAddr,
    pub port: u16,
}

/// The IPv4 address in six bytes: four bytes of address and two of port, most
/// significant byte first.
pub open spec fn compact_addr(bytes: Seq<u8>) -> SocketAddr {
    SocketAddr {
        ip: IpAddr::V4(be_value(bytes.subrange(0, 4)) as u32),
        port: be_value(bytes.subrange(4, 6)) as u16,
    }
}

impl SocketAddr {
    /// An IPv4 address and a port
    pub fn v4(ip: u32, port: u16) -> (addr: Self)
        ensures
            addr.ip == IpAddr::V4(ip),
            addr.port == port,
    {
        SocketAddr { ip: IpAddr::V4(ip), port }
    }

    /// Read the address in the six bytes from `at` on
    pub fn from_compact(bytes: &[u8], at: usize) -> (addr: Self)
        requires
            at + 6 <= bytes@.len(),
        ensures
            addr == compact_addr(bytes@.subrange(at as int, at + 6)),
    {
        let total: usize = bytes.len();
        assert(at + 6 <= total);
        let (a, b, c, d) = (bytes[at], bytes[at + 1], bytes[at + 2], bytes[at + 3]);
        let ip: u32 = a as u32 * 0x100_0000 + b as u32 * 0x1_0000 + c as u32 * 0x100 + d as u32;
        let port: u16 = bytes[at + 4] as u16 * 256 + bytes[at + 5] as u16;
        proof {
            let all = bytes@.subrange(at as int, at + 6);
            let head = all.subrange(0, 4);
            reveal_with_fuel(be_value, 5);
            assert(head.drop_last().drop_last().drop_last().drop_last() =~= Seq::empty());
            assert(be_value(head) == ip);
            lemma_be_value_2(all.subrange(4, 6));
        }
        SocketAddr::v4(ip, port)
    }
}

/// The addresses in a compact list of six bytes each. What is left over at
/// the end is not looked at.
pub open spec fn compact_peers(bytes: Seq<u8>) -> Seq<SocketAddr> {
    Seq::new(bytes.len() / 6, |i: int| compact_addr(bytes.subrange(6 * i, 6 * i + 6)))
}

/// Read a compact list of addresses
pub fn read_compact_peers(bytes: &[u8]) -> (peers: Vec<SocketAddr>)
    ensures
        peers@ == compact_peers(bytes@),
{
    let total: usize = bytes.len();
    let mut peers: Vec<SocketAddr> = Vec::new();
    let mut at: usize = 0;
    while total - at >= 6
        invariant
            at <= total == bytes@.len(),
            at == 6 * peers@.len(),
            forall|i: int|
                0 <= i < peers@.len() ==> #[trigger] peers@[i] == compact_addr(
                    bytes@.subrange(6 * i, 6 * i + 6),
                ),
        decreases total - at,
    {
        peers.push(SocketAddr::from_compact(bytes, at));
        at += 6;
    }
    proof {
        assert(peers@ =~= compact_peers(bytes@));
    }
    peers
}

/// The six bytes of an IPv4 address.
pub open spec fn compact_form(addr: SocketAddr) -> Seq<u8>
    recommends
        addr.ip is V4,
{
    be(addr.ip->V4_0 as nat, 4) + be(addr.port as nat, 2)
}

/// All addresses are of IPv4.
pub open spec fn all_v4(peers: Seq<SocketAddr>) -> bool {
    forall|i: int| 0 <= i < peers.len() ==> (#[trigger] peers[i]).ip is V4
}

/// Every IPv4 address is read back from its six bytes.
pub proof fn law_compact_addr_is_read_back(addr: SocketAddr)
    requires
        addr.ip is V4,
    ensures
        compact_form(addr).len() == 6,
        compact_addr(compact_form(addr)) == addr,
{
    broadcast use lemma_be_len;

    lemma_byte_range();
    lemma_be_value_of_be(addr.ip->V4_0 as nat, 4);
    lemma_be_value_of_be(addr.port as nat, 2);
    assert(compact_form(addr).subrange(0, 4) =~= be(addr.ip->V4_0 as nat, 4));
    assert(compact_form(addr).subrange(4, 6) =~= be(addr.port as nat, 2));
}

/// The compact list of some IPv4 addresses.
pub open spec fn compact_list(peers: Seq<SocketAddr>) -> Seq<u8>
    decreases peers.len(),
{
    if peers.len() == 0 {
        Seq::empty()
    } else {
        compact_list(peers.drop_last()) + compact_form(peers.last())
    }
}

/// Every list of IPv4 addresses is read back from its compact list.
pub proof fn law_compact_peers_are_read_back(peers: Seq<SocketAddr>)
    requires
        all_v4(peers),
    ensures
        compact_list(peers).len() == 6 * peers.len(),
        compact_peers(compact_list(peers)) == peers,
    decreases peers.len(),
{
    if peers.len() > 0 {
        let front = peers.drop_last();
        let all = compact_list(peers);
        let n = front.len() as int;
        assert forall|i: int| 0 <= i < front.len() implies (#[trigger] front[i]).ip is V4 by {
            assert(peers[i].ip is V4);
        }
        assert(peers[n].ip is V4);
        law_compact_peers_are_read_back(front);
        law_compact_addr_is_read_back(peers.last());
        assert(all.subrange(6 * n, 6 * n + 6) =~= compact_form(peers.last()));
        assert forall|i: int| 0 <= i < peers.len() implies #[trigger] compact_peers(all)[i]
            == peers[i] by {
            if i < n {
                assert(all.subrange(6 * i, 6 * i + 6) =~= compact_list(front).subrange(
                    6 * i,
                    6 * i + 6,
                ));
                assert(compact_peers(compact_list(front))[i] == front[i]);
            }
        }
        assert(compact_peers(all) =~= peers);
    } else {
        assert(compact_peers(compact_list(peers)) =~= peers);
    }
}

/// The peers in a list and those in a set.
pub open spec fn joined_peers(known: Set<SocketAddr>, peers: Seq<SocketAddr>) -> Set<SocketAddr> {
    known.union(peers.to_set())
}

/// One peer more in the list is one more in the set.
proof fn lemma_one_more(peers: Seq<SocketAddr>, i: int)
    requires
        0 <= i < peers.len(),
    ensures
        peers.take(i + 1).to_set() == peers.take(i).to_set().insert(peers[i]),
{
    let before = peers.take(i);
    let after = peers.take(i + 1);
    assert forall|p: SocketAddr| #[trigger] after.contains(p) <==> before.contains(p) || p
        == peers[i] by {
        if before.contains(p) {
            let j = choose|j: int| 0 <= j < before.len() && before[j] == p;
            assert(after[j] == p);
        }
        if p == peers[i] {
            assert(after[i] == p);
        }
        if after.contains(p) && p != peers[i] {
            let j = choose|j: int| 0 <= j < after.len() && after[j] == p;
            assert(before[j] == p);
        }
    }
    assert(after.to_set() =~= before.to_set().insert(peers[i]));
}

/// Peers, none of them twice
pub struct PeerSet {
    peers: Vec<SocketAddr>,
}

impl View for PeerSet {
    type V = Set<SocketAddr>;

    closed spec fn view(&self) -> Set<SocketAddr> {
        self.peers@.to_set()
    }
}

impl PeerSet {
    /// No peer occurs twice.
    pub closed spec fn wf(self) -> bool {
        self.peers@.no_duplicates()
    }

    /// Create an empty set
    pub fn new() -> (s: Self)
        ensures
            s.wf(),
            s@ == Set::<SocketAddr>::empty(),
    {
        let s = PeerSet { peers: Vec::new() };
        proof {
            assert(s@ =~= Set::<SocketAddr>::empty());
        }
        s
    }

    /// Add a peer. Says whether it was not there yet.
    pub fn insert(&mut self, peer: SocketAddr) -> (r: bool)
        requires
            old(self).wf(),
        ensures
            final(self).wf(),
            final(self)@ == old(self)@.insert(peer),
            r == !old(self)@.contains(peer),
    {
        if self.contains(peer) {
            proof {
                assert(self@ =~= old(self)@.insert(peer));
            }
            return false;
        }
        let ghost before = self.peers@;
        self.peers.push(peer);
        proof {
            assert(self.peers@.drop_last() =~= before);
            assert forall|p: SocketAddr| #[trigger] self.peers@.contains(p) <==> before.contains(p)
                || p == peer by {
                if before.contains(p) {
                    let j = choose|j: int| 0 <= j < before.len() && before[j] == p;
                    assert(self.peers@[j] == p);
                }
                if p == peer {
                    assert(self.peers@[before.len() as int] == p);
                }
            }
            assert(self@ =~= old(self)@.insert(peer));
        }
        true
    }

    /// Add all peers of a list
    pub fn insert_all(&mut self, peers: &[SocketAddr])
        requires
            old(self).wf(),
        ensures
            final(self).wf(),
            final(self)@ == joined_peers(old(self)@, peers@),
    {
        let ghost known = self@;
        let mut i: usize = 0;
        proof {
            assert(peers@.take(0).to_set() =~= Set::empty());
            assert(joined_peers(known, peers@.take(0)) =~= known);
        }
        while i < peers.len()
            invariant
                i <= peers@.len(),
                self.wf(),
                self@ == joined_peers(known, peers@.take(i as int)),
            decreases peers@.len() - i,
        {
            self.insert(peers[i]);
            proof {
                lemma_one_more(peers@, i as int);
                assert(self@ =~= joined_peers(known, peers@.take(i + 1)));
            }
            i += 1;
        }
        proof {
            assert(peers@.take(i as int) =~= peers@);
        }
    }

    /// The peers as a list, each of them once
    pub fn into_vec(self) -> (peers: Vec<SocketAddr>)
        requires
            self.wf(),
        ensures
            peers@.no_duplicates(),
            peers@.to_set() == self@,
    {
        self.peers
    }

    /// How many peers there are
    pub fn len(&self) -> (n: usize)
        requires
            self.wf(),
        ensures
            n == self@.len(),
    {
        proof {
            self.peers@.unique_seq_to_set();
        }
        self.peers.len()
    }

    /// Where a peer stands, or the number of peers
    fn position(&self, peer: SocketAddr) -> (i: usize)
        ensures
            i <= self.peers@.len(),
            i < self.peers@.len() ==> self.peers@[i as int] == peer,
            self@.contains(peer) == (i < self.peers@.len()),
    {
        let mut i: usize = 0;
        while i < self.peers.len()
            invariant
                i <= self.peers@.len(),
                forall|j: int| 0 <= j < i ==> self.peers@[j] != peer,
            decreases self.peers@.len() - i,
        {
            if self.peers[i] == peer {
                return i;
            }
            i += 1;
        }
        i
    }

    /// Tells whether a peer is there
    pub fn contains(&self, peer: SocketAddr) -> (r: bool)
        ensures
            r == self@.contains(peer),
    {
        self.position(peer) < self.peers.len()
    }

    /// Take a peer out
    pub fn remove(&mut self, peer: SocketAddr)
        requires
            old(self).wf(),
        ensures
            final(self).wf(),
            final(self)@ == old(self)@.remove(peer),
    {
        let i = self.position(peer);
        let ghost before = self.peers@;
        if i < self.peers.len() {
            self.peers.remove(i);
            proof {
                let after = self.peers@;
                assert forall|p: SocketAddr| #[trigger] after.contains(p) <==> before.contains(p)
                    && p != peer by {
                    if after.contains(p) {
                        let j = choose|j: int| 0 <= j < after.len() && after[j] == p;
                        let k = if j < i {
                            j
                        } else {
                            j + 1
                        };
                        assert(before[k] == p);
                        assert(before[i as int] == peer);
                    }
                    if before.contains(p) && p != peer {
                        let j = choose|j: int| 0 <= j < before.len() && before[j] == p;
                        let k = if j < i {
                            j
                        } else {
                            j - 1
                        };
                        assert(after[k] == p);
                    }
                }
                assert(after.to_set() =~= before.to_set().remove(peer));
                assert(after.no_duplicates()) by {
                    assert forall|j: int, k: int|
                        0 <= j < after.len() && 0 <= k < after.len() && j != k implies after[j]
                        != after[k] by {
                        let a = if j < i {
                            j
                        } else {
                            j + 1
                        };
                        let b = if k < i {
                            k
                        } else {
                            k + 1
                        };
                        assert(before[a] != before[b]);
                    }
                }
            }
        } else {
            proof {
                assert(before.to_set() =~= before.to_set().remove(peer));
            }
        }
    }
}

/// A compact address has the four parts of the IP address and then the two
/// bytes of the port, most significant byte first.
pub proof fn law_compact_address_in_bytes(a: u8, b: u8, c: u8, d: u8, e: u8, f: u8)
    ensures
        compact_addr(seq![a, b, c, d, e, f]) == (SocketAddr {
            ip: IpAddr::V4((a * 0x100_0000 + b * 0x1_0000 + c * 0x100 + d) as u32),
            port: (e * 0x100 + f) as u16,
        }),
{
    let all = seq![a, b, c, d, e, f];
    let head = all.subrange(0, 4);
    reveal_with_fuel(be_value, 5);
    assert(head.drop_last().drop_last().drop_last().drop_last() =~= Seq::empty());
    assert(be_value(head) == a * 0x100_0000 + b * 0x1_0000 + c * 0x100 + d);
    lemma_be_value_2(all.subrange(4, 6));
}

/// Of a compact list every six bytes are an address, in order, and a rest of
/// fewer bytes is left out.
pub proof fn law_compact_list_by_six_bytes(bytes: Seq<u8>, tail: Seq<u8>)
    requires
        bytes.len() % 6 == 0,
        tail.len() < 6,
    ensures
        compact_peers(bytes + tail).len() * 6 == bytes.len(),
        forall|i: int|
            0 <= 6 * i < bytes.len() ==> #[trigger] compact_peers(bytes + tail)[i] == compact_addr(
                seq![
                    bytes[6 * i],
                    bytes[6 * i + 1],
                    bytes[6 * i + 2],
                    bytes[6 * i + 3],
                    bytes[6 * i + 4],
                    bytes[6 * i + 5],
                ],
            ),
{
    let all = bytes + tail;
    assert forall|i: int| 0 <= 6 * i < bytes.len() implies #[trigger] compact_peers(all)[i]
        == compact_addr(
        seq![
            bytes[6 * i],
            bytes[6 * i + 1],
            bytes[6 * i + 2],
            bytes[6 * i + 3],
            bytes[6 * i + 4],
            bytes[6 * i + 5],
        ],
    ) by {
        assert(all.subrange(6 * i, 6 * i + 6) =~= seq![
            bytes[6 * i],
            bytes[6 * i + 1],
            bytes[6 * i + 2],
            bytes[6 * i + 3],
            bytes[6 * i + 4],
            bytes[6 * i + 5],
        ]);
    }
}

/// Joining a list to a set leaves what was in the set and adds what is in the
/// list, and nothing else.
pub proof fn law_joined_peers(known: Set<SocketAddr>, peers: Seq<SocketAddr>, peer: SocketAddr)
    ensures
        joined_peers(known, peers).contains(peer) <==> known.contains(peer) || exists|i: int|
            0 <= i < peers.len() && peers[i] == peer,
{
}

} // verus!

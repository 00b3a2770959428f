//! DHT implementation for BitTorrent
use crate::address::{
    all_v4, compact_addr, compact_form, joined_peers, law_compact_addr_is_read_back, PeerSet,
    SocketAddr,
};
use crate::bencode::{
    decode, decoded, encode, encoded, is_shallow, law_entries_are_found, lemma_insert_within,
    Bencode, Tree, MAX_DEPTH,
};
use crate::random::random_id;
use crate::text::{decimal, decimal_text, texts};
use crate::wire::{id_at, same_bytes};
use vstd::prelude::*;
use vstd::slice::slice_to_vec;
use vstd::string::*;
use vstd::utf8::encode_utf8;

verus! {

/// How many peers a search looks for.
pub const ENOUGH_PEERS: usize = 100;

/// How long a search listens, in nanoseconds: eight seconds.
pub const SEARCH_TIMEOUT: u128 = 8_000_000_000;

/// DHT node information
#[derive(Debug, Clone, Copy)]
pub struct DhtNode {
    pub id: [u8; 20],
    pub addr: SocketAddr,
}

impl View for DhtNode {
    type V = (Seq<u8>, SocketAddr);

    open spec fn view(&self) -> (Seq<u8>, SocketAddr) {
        (self.id@, self.addr)
    }
}

/// Why a search fails.
#[derive(Debug, Clone, Copy, PartialEq, Eq, Structural)]
pub enum DhtError {
    /// No node is known.
    NoNodes,
}

impl DhtError {
    /// What the error says.
    pub open spec fn text(self) -> Seq<char> {
        "No DHT nodes available"@
    }

    /// What the error says
    pub fn message(&self) -> (s: String)
        ensures
            s@ == self.text(),
    {
        "No DHT nodes available".to_string()
    }
}

/// DHT implementation for BitTorrent
#[derive(Debug)]
pub struct Dht {
    pub node_id: [u8; 20],
    pub bootstrap_nodes: Vec<SocketAddr>,
    pub known_nodes: Vec<DhtNode>,
    pub transaction_id: u32,
}

/// The transaction ID after so many more messages.
pub open spec fn id_after(transaction_id: u32, n: int) -> u32 {
    ((transaction_id + n) % 0x1_0000_0000) as u32
}

/// What a query with this transaction ID says.
pub open spec fn query_tree(transaction_id: u32, query: Seq<char>, arguments: Tree) -> Tree {
    Tree::Dict(Map::empty()).insert_named(
        "t"@,
        Tree::Bytes(encode_utf8(decimal(transaction_id as nat))),
    ).insert_named("y"@, Tree::Bytes(encode_utf8("q"@))).insert_named(
        "q"@,
        Tree::Bytes(encode_utf8(query)),
    ).insert_named("a"@, arguments)
}

/// What a ping says.
pub open spec fn ping_tree(transaction_id: u32, node_id: Seq<u8>) -> Tree {
    query_tree(
        transaction_id,
        "ping"@,
        Tree::Dict(Map::empty()).insert_named("id"@, Tree::Bytes(node_id)),
    )
}

/// What a search for nodes says.
pub open spec fn find_node_tree(transaction_id: u32, node_id: Seq<u8>, target: Seq<u8>) -> Tree {
    query_tree(
        transaction_id,
        "find_node"@,
        Tree::Dict(Map::empty()).insert_named("id"@, Tree::Bytes(node_id)).insert_named(
            "target"@,
            Tree::Bytes(target),
        ),
    )
}

/// What a search for peers says.
pub open spec fn get_peers_tree(
    transaction_id: u32,
    node_id: Seq<u8>,
    info_hash: Seq<u8>,
) -> Tree {
    query_tree(
        transaction_id,
        "get_peers"@,
        Tree::Dict(Map::empty()).insert_named("id"@, Tree::Bytes(node_id)).insert_named(
            "info_hash"@,
            Tree::Bytes(info_hash),
        ),
    )
}

/// A text as a byte string
fn text_value(text: &str) -> (b: Bencode)
    ensures
        b.tree() == Tree::Bytes(encode_utf8(text@)),
{
    Bencode::Bytes(slice_to_vec(text.as_bytes()))
}

/// Twenty bytes as a byte string
fn id_value(id: &[u8; 20]) -> (b: Bencode)
    ensures
        b.tree() == Tree::Bytes(id@),
{
    Bencode::Bytes(slice_to_vec(id.as_slice()))
}

/// A byte string under a key leaves room for a dictionary around it.
proof fn lemma_argument_within(arguments: Tree, name: Seq<char>, value: Seq<u8>)
    requires
        arguments is Dict,
        arguments.within((MAX_DEPTH - 1) as nat),
    ensures
        arguments.insert_named(name, Tree::Bytes(value)).within((MAX_DEPTH - 1) as nat),
{
    lemma_insert_within(arguments, name, Tree::Bytes(value), (MAX_DEPTH - 2) as nat);
}

/// A query is not nested too deep.
proof fn lemma_query_within(transaction_id: u32, query: Seq<char>, arguments: Tree)
    requires
        arguments.within((MAX_DEPTH - 1) as nat),
    ensures
        query_tree(transaction_id, query, arguments).within(MAX_DEPTH as nat),
{
    let depth = (MAX_DEPTH - 1) as nat;
    let id = Tree::Bytes(encode_utf8(decimal(transaction_id as nat)));
    let kind = Tree::Bytes(encode_utf8("q"@));
    let none = Tree::Dict(Map::empty());
    let t = none.insert_named("t"@, id);
    let y = t.insert_named("y"@, kind);
    let q = y.insert_named("q"@, Tree::Bytes(encode_utf8(query)));
    lemma_insert_within(none, "t"@, id, depth);
    lemma_insert_within(t, "y"@, kind, depth);
    lemma_insert_within(y, "q"@, Tree::Bytes(encode_utf8(query)), depth);
    lemma_insert_within(q, "a"@, arguments, depth);
}

/// A query
fn query_value(transaction_id: u32, query: &str, arguments: Bencode) -> (b: Bencode)
    requires
        arguments.tree().within((MAX_DEPTH - 1) as nat),
    ensures
        b.tree() == query_tree(transaction_id, query@, arguments.tree()),
        b.tree().within(MAX_DEPTH as nat),
{
    proof {
        lemma_query_within(transaction_id, query@, arguments.tree());
    }
    let id = decimal_text(transaction_id as u64);
    Bencode::dict().with("t", text_value(id.as_str())).with("y", text_value("q")).with(
        "q",
        text_value(query),
    ).with("a", arguments)
}

/// The nodes in a list of twenty bytes of ID and six bytes of address each.
/// What is left over at the end is not looked at.
pub open spec fn compact_nodes(data: Seq<u8>) -> Seq<(Seq<u8>, SocketAddr)> {
    Seq::new(
        data.len() / 26,
        |i: int|
            (
                data.subrange(26 * i, 26 * i + 20),
                compact_addr(data.subrange(26 * i + 20, 26 * i + 26)),
            ),
    )
}

/// The nodes together with more nodes, without the own one.
pub open spec fn with_nodes(
    known: Set<(Seq<u8>, SocketAddr)>,
    nodes: Seq<(Seq<u8>, SocketAddr)>,
    own_id: Seq<u8>,
) -> Set<(Seq<u8>, SocketAddr)>
    decreases nodes.len(),
{
    if nodes.len() == 0 {
        known
    } else {
        let before = with_nodes(known, nodes.drop_last(), own_id);
        if nodes.last().0 == own_id {
            before
        } else {
            before.insert(nodes.last())
        }
    }
}

/// The addresses in a list of byte strings of six bytes. Other values are not
/// looked at.
pub open spec fn value_peers(values: Seq<Tree>) -> Seq<SocketAddr>
    decreases values.len(),
{
    if values.len() == 0 {
        Seq::empty()
    } else {
        let before = value_peers(values.drop_last());
        match values.last() {
            Tree::Bytes(b) => if b.len() == 6 {
                before.push(compact_addr(b))
            } else {
                before
            },
            _ => before,
        }
    }
}

/// What a response says. Queries and errors say nothing.
pub open spec fn response_of(message: Tree) -> Option<Tree> {
    match message.named("y"@) {
        Some(Tree::Bytes(y)) => if y == encode_utf8("r"@) {
            message.named("r"@)
        } else {
            None
        },
        _ => None,
    }
}

/// The peers that a message names.
pub open spec fn message_peers(message: Tree) -> Seq<SocketAddr> {
    match response_of(message) {
        Some(r) => match r.named("values"@) {
            Some(Tree::List(values)) => value_peers(values),
            _ => Seq::empty(),
        },
        None => Seq::empty(),
    }
}

/// The nodes that a message names.
pub open spec fn message_nodes(message: Tree) -> Seq<(Seq<u8>, SocketAddr)> {
    match response_of(message) {
        Some(r) => match r.named("nodes"@) {
            Some(Tree::Bytes(nodes)) => compact_nodes(nodes),
            _ => Seq::empty(),
        },
        None => Seq::empty(),
    }
}

/// The peers that a datagram names.
pub open spec fn datagram_peers(data: Seq<u8>) -> Seq<SocketAddr> {
    match decoded(data) {
        Some(message) => message_peers(message),
        None => Seq::empty(),
    }
}

/// The nodes that a datagram names.
pub open spec fn datagram_nodes(data: Seq<u8>) -> Seq<(Seq<u8>, SocketAddr)> {
    match decoded(data) {
        Some(message) => message_nodes(message),
        None => Seq::empty(),
    }
}

/// The addresses in a list of byte strings
fn read_value_peers(values: &Vec<Bencode>) -> (peers: Vec<SocketAddr>)
    ensures
        peers@ == value_peers(values@.map_values(|b: Bencode| b.tree())),
{
    let ghost trees = values@.map_values(|b: Bencode| b.tree());
    let mut peers: Vec<SocketAddr> = Vec::new();
    let mut i: usize = 0;
    proof {
        assert(trees.take(0) =~= Seq::empty());
    }
    while i < values.len()
        invariant
            i <= values@.len(),
            trees == values@.map_values(|b: Bencode| b.tree()),
            peers@ == value_peers(trees.take(i as int)),
        decreases values@.len() - i,
    {
        proof {
            assert(trees.take(i + 1).drop_last() =~= trees.take(i as int));
            assert(trees.take(i + 1).last() == values@[i as int].tree());
        }
        if let Some(peer_bytes) = values[i].byte_string() {
            if peer_bytes.len() == 6 {
                proof {
                    assert(peer_bytes@.subrange(0, 6) =~= peer_bytes@);
                }
                peers.push(SocketAddr::from_compact(peer_bytes.as_slice(), 0));
            }
        }
        i += 1;
    }
    proof {
        assert(trees.take(i as int) =~= trees);
    }
    peers
}

/// Values and the nodes that they stand for.
pub open spec fn node_set(nodes: Seq<DhtNode>) -> Set<(Seq<u8>, SocketAddr)> {
    nodes.map_values(|n: DhtNode| n@).to_set()
}

impl Dht {
    /// The nodes that are known.
    pub open spec fn known(self) -> Set<(Seq<u8>, SocketAddr)> {
        node_set(self.known_nodes@)
    }

    /// No node is known twice, and none is the own one.
    pub open spec fn wf(self) -> bool {
        &&& forall|i: int, j: int|
            0 <= i < j < self.known_nodes@.len() ==> (#[trigger] self.known_nodes@[i])@ != (
            #[trigger] self.known_nodes@[j])@
        &&& forall|i: int|
            0 <= i < self.known_nodes@.len() ==> (#[trigger] self.known_nodes@[i]).id@
                != self.node_id@
    }

    /// Nothing but the transaction ID may differ.
    pub open spec fn same_but_transaction(self, other: Dht) -> bool {
        &&& self.node_id == other.node_id
        &&& self.bootstrap_nodes == other.bootstrap_nodes
        &&& self.known_nodes == other.known_nodes
    }

    /// Create a DHT instance with a given node ID
    pub fn with_node_id(node_id: [u8; 20], bootstrap_nodes: Vec<SocketAddr>) -> (d: Self)
        ensures
            d.node_id == node_id,
            d.bootstrap_nodes == bootstrap_nodes,
            d.known_nodes@ == Seq::<DhtNode>::empty(),
            d.transaction_id == 0,
            d.wf(),
    {
        Dht { node_id, bootstrap_nodes, known_nodes: Vec::new(), transaction_id: 0 }
    }

    /// Create a new DHT instance. The node ID is random.
    pub fn new(bootstrap_nodes: Vec<SocketAddr>) -> (d: Self)
        ensures
            d.bootstrap_nodes == bootstrap_nodes,
            d.known_nodes@ == Seq::<DhtNode>::empty(),
            d.transaction_id == 0,
            d.wf(),
    {
        Dht::with_node_id(random_id(), bootstrap_nodes)
    }

    /// Count one more message
    fn next_transaction(&mut self) -> (id: u32)
        ensures
            id == id_after(old(self).transaction_id, 1),
            final(self).transaction_id == id,
            final(self).same_but_transaction(*old(self)),
    {
        self.transaction_id = self.transaction_id.wrapping_add(1);
        self.transaction_id
    }

    /// The message that pings a node
    pub fn ping(&mut self) -> (message: Vec<u8>)
        ensures
            message@ == encoded(
                ping_tree(id_after(old(self).transaction_id, 1), old(self).node_id@),
            ),
            final(self).transaction_id == id_after(old(self).transaction_id, 1),
            final(self).same_but_transaction(*old(self)),
    {
        let transaction_id = self.next_transaction();
        let arguments = Bencode::dict().with("id", id_value(&self.node_id));
        proof {
            lemma_argument_within(Tree::Dict(Map::empty()), "id"@, self.node_id@);
        }
        encode(&query_value(transaction_id, "ping", arguments))
    }

    /// The message that asks for nodes near a target ID
    pub fn find_node(&mut self, target: &[u8; 20]) -> (message: Vec<u8>)
        ensures
            message@ == encoded(
                find_node_tree(
                    id_after(old(self).transaction_id, 1),
                    old(self).node_id@,
                    target@,
                ),
            ),
            final(self).transaction_id == id_after(old(self).transaction_id, 1),
            final(self).same_but_transaction(*old(self)),
    {
        let transaction_id = self.next_transaction();
        let arguments = Bencode::dict().with("id", id_value(&self.node_id)).with(
            "target",
            id_value(target),
        );
        proof {
            let none = Tree::Dict(Map::empty());
            lemma_argument_within(none, "id"@, self.node_id@);
            lemma_argument_within(
                none.insert_named("id"@, Tree::Bytes(self.node_id@)),
                "target"@,
                target@,
            );
        }
        encode(&query_value(transaction_id, "find_node", arguments))
    }

    /// The message that asks for peers for an info hash
    pub fn get_peers(&mut self, info_hash: &[u8; 20]) -> (message: Vec<u8>)
        ensures
            message@ == encoded(
                get_peers_tree(
                    id_after(old(self).transaction_id, 1),
                    old(self).node_id@,
                    info_hash@,
                ),
            ),
            final(self).transaction_id == id_after(old(self).transaction_id, 1),
            final(self).same_but_transaction(*old(self)),
    {
        let transaction_id = self.next_transaction();
        let arguments = Bencode::dict().with("id", id_value(&self.node_id)).with(
            "info_hash",
            id_value(info_hash),
        );
        proof {
            let none = Tree::Dict(Map::empty());
            lemma_argument_within(none, "id"@, self.node_id@);
            lemma_argument_within(
                none.insert_named("id"@, Tree::Bytes(self.node_id@)),
                "info_hash"@,
                info_hash@,
            );
        }
        encode(&query_value(transaction_id, "get_peers", arguments))
    }

    /// Nothing but the nodes that are known may differ.
    pub open spec fn same_but_nodes(self, other: Dht) -> bool {
        &&& self.node_id == other.node_id
        &&& self.bootstrap_nodes == other.bootstrap_nodes
        &&& self.transaction_id == other.transaction_id
    }

    /// Add a node that is not the own one
    fn insert_node(&mut self, node: DhtNode)
        requires
            old(self).wf(),
            node.id@ != old(self).node_id@,
        ensures
            final(self).wf(),
            final(self).known() == old(self).known().insert(node@),
            final(self).same_but_nodes(*old(self)),
    {
        let mut i: usize = 0;
        while i < self.known_nodes.len()
            invariant
                i <= self.known_nodes@.len(),
                *self == *old(self),
                self.wf(),
                forall|j: int| 0 <= j < i ==> (#[trigger] self.known_nodes@[j])@ != node@,
            decreases self.known_nodes@.len() - i,
        {
            let other = &self.known_nodes[i];
            if other.addr == node.addr && same_bytes(other.id.as_slice(), node.id.as_slice()) {
                proof {
                    let views = self.known_nodes@.map_values(|n: DhtNode| n@);
                    assert(views[i as int] == node@);
                    assert(self.known() =~= old(self).known().insert(node@));
                }
                return;
            }
            i += 1;
        }
        let ghost before = self.known_nodes@;
        self.known_nodes.push(node);
        proof {
            lemma_node_set_push(before, node);
            assert(self.known_nodes@ == before.push(node));
        }
    }

    /// Process nodes information from DHT responses
    pub fn process_nodes(&mut self, nodes_data: &[u8])
        requires
            old(self).wf(),
        ensures
            final(self).wf(),
            final(self).known() == with_nodes(
                old(self).known(),
                compact_nodes(nodes_data@),
                old(self).node_id@,
            ),
            final(self).same_but_nodes(*old(self)),
    {
        let ghost nodes = compact_nodes(nodes_data@);
        let ghost mut n: int = 0;
        let total: usize = nodes_data.len();
        let mut at: usize = 0;
        proof {
            assert(nodes.take(0) =~= Seq::empty());
        }
        while total - at >= 26
            invariant
                at <= total == nodes_data@.len(),
                at == 26 * n,
                0 <= n <= nodes.len(),
                nodes == compact_nodes(nodes_data@),
                self.wf(),
                self.same_but_nodes(*old(self)),
                self.known() == with_nodes(old(self).known(), nodes.take(n), self.node_id@),
            decreases total - at,
        {
            let id = id_at(nodes_data, at);
            let addr = SocketAddr::from_compact(nodes_data, at + 20);
            let node = DhtNode { id, addr };
            proof {
                assert(nodes.take(n + 1).drop_last() =~= nodes.take(n));
                assert(nodes.take(n + 1).last() == node@);
            }
            if !same_bytes(id.as_slice(), self.node_id.as_slice()) {
                self.insert_node(node);
            }
            at += 26;
            proof {
                n = n + 1;
            }
        }
        proof {
            assert(nodes.take(n) =~= nodes);
        }
    }

    /// Process a DHT message. Gives the peers that it names.
    pub fn process_value(&mut self, message: &Bencode) -> (peers: Vec<SocketAddr>)
        requires
            old(self).wf(),
        ensures
            final(self).wf(),
            peers@ == message_peers(message.tree()),
            final(self).known() == with_nodes(
                old(self).known(),
                message_nodes(message.tree()),
                old(self).node_id@,
            ),
            final(self).same_but_nodes(*old(self)),
    {
        let y = match message.get("y") {
            Some(value) => match value.byte_string() {
                Some(y) => y,
                None => return Vec::new(),
            },
            None => return Vec::new(),
        };
        if !same_bytes(y.as_slice(), "r".as_bytes()) {
            return Vec::new();
        }
        let r = match message.get("r") {
            Some(r) => r,
            None => return Vec::new(),
        };
        if let Some(value) = r.get("nodes") {
            if let Some(nodes) = value.byte_string() {
                self.process_nodes(nodes.as_slice());
            }
        }
        if let Some(value) = r.get("values") {
            if let Some(values) = value.list() {
                proof {
                    assert(values@.map_values(|b: Bencode| b.tree()) =~= value.tree()->List_0);
                }
                return read_value_peers(values);
            }
        }
        Vec::new()
    }

    /// Process incoming DHT messages. Gives the peers that a message names.
    pub fn process_message(&mut self, data: &[u8]) -> (peers: Vec<SocketAddr>)
        requires
            old(self).wf(),
            is_shallow(data@),
        ensures
            final(self).wf(),
            peers@ == datagram_peers(data@),
            final(self).known() == with_nodes(
                old(self).known(),
                datagram_nodes(data@),
                old(self).node_id@,
            ),
            final(self).same_but_nodes(*old(self)),
    {
        match decode(data) {
            Some(message) => self.process_value(&message),
            None => Vec::new(),
        }
    }

    /// Take a datagram that comes in during a search: process the message, and
    /// add the peers that it names to those that were found
    pub fn receive(&mut self, data: &[u8], found: &mut PeerSet)
        requires
            old(self).wf(),
            old(found).wf(),
            is_shallow(data@),
        ensures
            final(self).wf(),
            final(found).wf(),
            final(found)@ == joined_peers(old(found)@, datagram_peers(data@)),
            final(self).known() == with_nodes(
                old(self).known(),
                datagram_nodes(data@),
                old(self).node_id@,
            ),
            final(self).same_but_nodes(*old(self)),
    {
        let peers = self.process_message(data);
        found.insert_all(peers.as_slice());
    }

    /// Tells whether the bootstrap nodes are to be contacted before a search:
    /// where no other node is known
    pub fn needs_bootstrap(&self) -> (r: bool)
        ensures
            r == (self.known() == Set::<(Seq<u8>, SocketAddr)>::empty()),
    {
        proof {
            let views = self.known_nodes@.map_values(|n: DhtNode| n@);
            if views.len() > 0 {
                assert(views.contains(views[0]));
                assert(self.known().contains(views[0]));
            } else {
                assert(self.known() =~= Set::<(Seq<u8>, SocketAddr)>::empty());
            }
        }
        self.known_nodes.len() == 0
    }

    /// The messages that start the DHT by contacting bootstrap nodes
    pub fn bootstrap(&mut self) -> (messages: Vec<(SocketAddr, Vec<u8>)>)
        ensures
            messages@.len() == old(self).bootstrap_nodes@.len(),
            forall|i: int|
                0 <= i < messages@.len() ==> {
                    &&& (#[trigger] messages@[i]).0 == old(self).bootstrap_nodes@[i]
                    &&& messages@[i].1@ == encoded(
                        ping_tree(id_after(old(self).transaction_id, i + 1), old(self).node_id@),
                    )
                },
            final(self).transaction_id == id_after(
                old(self).transaction_id,
                old(self).bootstrap_nodes@.len() as int,
            ),
            final(self).same_but_transaction(*old(self)),
    {
        let mut messages: Vec<(SocketAddr, Vec<u8>)> = Vec::new();
        let mut i: usize = 0;
        while i < self.bootstrap_nodes.len()
            invariant
                i <= self.bootstrap_nodes@.len(),
                messages@.len() == i,
                self.same_but_transaction(*old(self)),
                self.transaction_id == id_after(old(self).transaction_id, i as int),
                forall|j: int|
                    0 <= j < i ==> {
                        &&& (#[trigger] messages@[j]).0 == old(self).bootstrap_nodes@[j]
                        &&& messages@[j].1@ == encoded(
                            ping_tree(
                                id_after(old(self).transaction_id, j + 1),
                                old(self).node_id@,
                            ),
                        )
                    },
            decreases self.bootstrap_nodes@.len() - i,
        {
            let addr = self.bootstrap_nodes[i];
            let message = self.ping();
            messages.push((addr, message));
            i += 1;
        }
        messages
    }

    /// The messages that start a search for peers: each of the first nodes is
    /// asked for peers and for closer nodes
    pub fn find_peers(&mut self, info_hash: &[u8; 20], max_nodes: usize) -> (r: Result<
        Vec<(SocketAddr, Vec<u8>, Vec<u8>)>,
        DhtError,
    >)
        ensures
            match r {
                Ok(messages) => {
                    let count = if old(self).known_nodes@.len() < max_nodes {
                        old(self).known_nodes@.len() as int
                    } else {
                        max_nodes as int
                    };
                    &&& old(self).known_nodes@.len() > 0
                    &&& is_search(*old(self), info_hash@, messages@, count)
                    &&& final(self).transaction_id == id_after(
                        old(self).transaction_id,
                        2 * count,
                    )
                },
                Err(e) => old(self).known_nodes@.len() == 0 && e == DhtError::NoNodes
                    && final(self).transaction_id == old(self).transaction_id,
            },
            final(self).same_but_transaction(*old(self)),
    {
        if self.known_nodes.len() == 0 {
            return Err(DhtError::NoNodes);
        }
        let mut messages: Vec<(SocketAddr, Vec<u8>, Vec<u8>)> = Vec::new();
        let mut i: usize = 0;
        while i < self.known_nodes.len() && i < max_nodes
            invariant
                i <= self.known_nodes@.len(),
                i <= max_nodes,
                self.same_but_transaction(*old(self)),
                self.transaction_id == id_after(old(self).transaction_id, 2 * i),
                is_search(*old(self), info_hash@, messages@, i as int),
            decreases self.known_nodes@.len() - i,
        {
            let addr = self.known_nodes[i].addr;
            proof {
                lemma_id_after(old(self).transaction_id, 2 * i);
                lemma_id_after(old(self).transaction_id, 2 * i + 1);
            }
            let get_peers = self.get_peers(info_hash);
            let find_node = self.find_node(info_hash);
            messages.push((addr, get_peers, find_node));
            proof {
                assert(asks_node(*old(self), info_hash@, messages@[i as int], i as int));
            }
            i += 1;
        }
        Ok(messages)
    }
}

/// The messages ask each of the first `count` nodes for peers and for nodes
/// near the info hash.
pub open spec fn is_search(
    dht: Dht,
    info_hash: Seq<u8>,
    messages: Seq<(SocketAddr, Vec<u8>, Vec<u8>)>,
    count: int,
) -> bool {
    &&& messages.len() == count
    &&& forall|i: int| 0 <= i < count ==> asks_node(dht, info_hash, #[trigger] messages[i], i)
}

/// The messages ask one node for peers and for nodes near the info hash.
pub open spec fn asks_node(
    dht: Dht,
    info_hash: Seq<u8>,
    messages: (SocketAddr, Vec<u8>, Vec<u8>),
    i: int,
) -> bool {
    &&& messages.0 == dht.known_nodes@[i].addr
    &&& messages.1@ == encoded(
        get_peers_tree(id_after(dht.transaction_id, 2 * i + 1), dht.node_id@, info_hash),
    )
    &&& messages.2@ == encoded(
        find_node_tree(id_after(dht.transaction_id, 2 * i + 2), dht.node_id@, info_hash),
    )
}

/// Messages are counted one by one.
proof fn lemma_id_after(transaction_id: u32, n: int)
    requires
        0 <= n,
    ensures
        id_after(id_after(transaction_id, n), 1) == id_after(transaction_id, n + 1),
{
    assert((((transaction_id + n) % 0x1_0000_0000) + 1) % 0x1_0000_0000 == (transaction_id + n + 1)
        % 0x1_0000_0000);
}

/// A node more is one more in the set.
proof fn lemma_node_set_push(nodes: Seq<DhtNode>, node: DhtNode)
    ensures
        node_set(nodes.push(node)) == node_set(nodes).insert(node@),
{
    let before = nodes.map_values(|n: DhtNode| n@);
    let after = nodes.push(node).map_values(|n: DhtNode| n@);
    assert(after =~= before.push(node@));
    assert forall|x: (Seq<u8>, SocketAddr)| #[trigger] after.contains(x) <==> before.contains(x)
        || x == node@ by {
        if before.contains(x) {
            let i = choose|i: int| 0 <= i < before.len() && before[i] == x;
            assert(after[i] == x);
        }
        if x == node@ {
            assert(after[before.len() as int] == x);
        }
    }
    assert(after.to_set() =~= before.to_set().insert(node@));
}

/// The well-known nodes that a DHT starts from
pub fn bootstrap_hosts() -> (hosts: Vec<String>)
    ensures
        texts(hosts@) == seq![
            "router.bittorrent.com:6881"@,
            "dht.transmissionbt.com:6881"@,
            "router.utorrent.com:6881"@,
        ],
{
    let mut hosts: Vec<String> = Vec::new();
    hosts.push("router.bittorrent.com:6881".to_string());
    hosts.push("dht.transmissionbt.com:6881".to_string());
    hosts.push("router.utorrent.com:6881".to_string());
    proof {
        assert(texts(hosts@) =~= seq![
            "router.bittorrent.com:6881"@,
            "dht.transmissionbt.com:6881"@,
            "router.utorrent.com:6881"@,
        ]);
    }
    hosts
}

/// Tells whether a search for peers is over: there are enough, or time is up
pub fn is_search_done(count: usize, elapsed: u128) -> (r: bool)
    ensures
        r == (count >= ENOUGH_PEERS || elapsed >= SEARCH_TIMEOUT),
{
    count >= ENOUGH_PEERS || elapsed >= SEARCH_TIMEOUT
}

/// A search finds just the peers that one of the datagrams names which come
/// in, whatever else comes in.
pub proof fn law_search_finds_the_named_peers(
    found: Seq<Set<SocketAddr>>,
    datagrams: Seq<Seq<u8>>,
    peer: SocketAddr,
)
    requires
        found.len() == datagrams.len() + 1,
        found[0] == Set::<SocketAddr>::empty(),
        forall|i: int|
            0 <= i < datagrams.len() ==> found[i + 1] == joined_peers(
                found[i],
                datagram_peers(#[trigger] datagrams[i]),
            ),
    ensures
        found.last().contains(peer) <==> exists|i: int|
            0 <= i < datagrams.len() && datagram_peers(#[trigger] datagrams[i]).contains(peer),
    decreases datagrams.len(),
{
    if datagrams.len() > 0 {
        let n = datagrams.len() - 1;
        let front = datagrams.drop_last();
        let before = found.drop_last();
        assert forall|i: int| 0 <= i < front.len() implies before[i + 1] == joined_peers(
            before[i],
            datagram_peers(#[trigger] front[i]),
        ) by {
            assert(front[i] == datagrams[i]);
        }
        law_search_finds_the_named_peers(before, front, peer);
        assert(found[n + 1] == joined_peers(found[n], datagram_peers(datagrams[n])));
        if exists|i: int|
            0 <= i < front.len() && datagram_peers(#[trigger] front[i]).contains(peer) {
            let i = choose|i: int|
                0 <= i < front.len() && datagram_peers(#[trigger] front[i]).contains(peer);
            assert(datagram_peers(datagrams[i]).contains(peer));
        }
        if exists|i: int|
            0 <= i < datagrams.len() && datagram_peers(#[trigger] datagrams[i]).contains(peer) {
            let i = choose|i: int|
                0 <= i < datagrams.len() && datagram_peers(#[trigger] datagrams[i]).contains(peer);
            if i < n {
                assert(datagram_peers(front[i]).contains(peer));
            }
        }
    }
}

/// Whatever nodes a message names, those that were known stay known, and the
/// own node does not become known.
pub proof fn law_known_nodes_stay(
    known: Set<(Seq<u8>, SocketAddr)>,
    nodes: Seq<(Seq<u8>, SocketAddr)>,
    own_id: Seq<u8>,
    node: (Seq<u8>, SocketAddr),
)
    ensures
        with_nodes(known, nodes, own_id).contains(node) <==> known.contains(node) || (
        nodes.contains(node) && node.0 != own_id),
    decreases nodes.len(),
{
    if nodes.len() > 0 {
        let front = nodes.drop_last();
        law_known_nodes_stay(known, front, own_id, node);
        if front.contains(node) {
            let i = choose|i: int| 0 <= i < front.len() && front[i] == node;
            assert(nodes[i] == node);
        }
        if nodes.last() == node {
            assert(nodes[nodes.len() - 1] == node);
        } else if nodes.contains(node) {
            let i = choose|i: int| 0 <= i < nodes.len() && nodes[i] == node;
            assert(front[i] == node);
        }
    }
}

/// The byte strings of some IPv4 addresses.
pub open spec fn peer_values(peers: Seq<SocketAddr>) -> Seq<Tree> {
    peers.map_values(|p: SocketAddr| Tree::Bytes(compact_form(p)))
}

/// A response that names peers is understood: just those peers come out.
pub proof fn law_named_peers_are_found(message: Tree, response: Tree, peers: Seq<SocketAddr>)
    requires
        message.named("y"@) == Some(Tree::Bytes(encode_utf8("r"@))),
        message.named("r"@) == Some(response),
        response.named("values"@) == Some(Tree::List(peer_values(peers))),
        all_v4(peers),
    ensures
        message_peers(message) == peers,
{
    lemma_value_peers(peers);
}

proof fn lemma_value_peers(peers: Seq<SocketAddr>)
    requires
        all_v4(peers),
    ensures
        value_peers(peer_values(peers)) == peers,
    decreases peers.len(),
{
    if peers.len() > 0 {
        let front = peers.drop_last();
        assert forall|i: int| 0 <= i < front.len() implies (#[trigger] front[i]).ip is V4 by {
            assert(peers[i].ip is V4);
        }
        assert(peers[peers.len() - 1].ip is V4);
        lemma_value_peers(front);
        assert(peer_values(peers).drop_last() =~= peer_values(peers.drop_last()));
        law_compact_addr_is_read_back(peers.last());
        assert(peers.drop_last().push(peers.last()) =~= peers);
    } else {
        assert(value_peers(peer_values(peers)) =~= peers);
    }
}

/// The list of some nodes.
pub open spec fn node_list(nodes: Seq<(Seq<u8>, SocketAddr)>) -> Seq<u8>
    decreases nodes.len(),
{
    if nodes.len() == 0 {
        Seq::empty()
    } else {
        node_list(nodes.drop_last()) + nodes.last().0 + compact_form(nodes.last().1)
    }
}

/// Every list of nodes with IDs of twenty bytes and IPv4 addresses is read
/// back.
pub proof fn law_nodes_are_read_back(nodes: Seq<(Seq<u8>, SocketAddr)>)
    requires
        forall|i: int|
            0 <= i < nodes.len() ==> (#[trigger] nodes[i]).0.len() == 20 && nodes[i].1.ip is V4,
    ensures
        node_list(nodes).len() == 26 * nodes.len(),
        compact_nodes(node_list(nodes)) == nodes,
    decreases nodes.len(),
{
    let all = node_list(nodes);
    if nodes.len() > 0 {
        let front = nodes.drop_last();
        let n = front.len() as int;
        assert(nodes[n].0.len() == 20);
        assert forall|i: int| 0 <= i < front.len() implies (#[trigger] front[i]).0.len() == 20
            && front[i].1.ip is V4 by {
            assert(nodes[i].0.len() == 20);
        }
        law_nodes_are_read_back(front);
        law_compact_addr_is_read_back(nodes.last().1);
        assert(all.subrange(26 * n, 26 * n + 20) =~= nodes.last().0);
        assert(all.subrange(26 * n + 20, 26 * n + 26) =~= compact_form(nodes.last().1));
        assert forall|i: int| 0 <= i < nodes.len() implies #[trigger] compact_nodes(all)[i]
            == nodes[i] by {
            if i < n {
                let list = node_list(front);
                assert(all.subrange(26 * i, 26 * i + 20) =~= list.subrange(26 * i, 26 * i + 20));
                assert(all.subrange(26 * i + 20, 26 * i + 26) =~= list.subrange(
                    26 * i + 20,
                    26 * i + 26,
                ));
                assert(compact_nodes(list)[i] == front[i]);
            }
        }
        assert(compact_nodes(all) =~= nodes);
    } else {
        assert(compact_nodes(all) =~= nodes);
    }
}

/// A query names neither peers nor nodes: what this client sends it does not
/// take for an answer.
pub proof fn law_queries_are_no_responses(transaction_id: u32, query: Seq<char>, arguments: Tree)
    ensures
        response_of(query_tree(transaction_id, query, arguments)) is None,
{
    reveal_strlit("t");
    reveal_strlit("y");
    reveal_strlit("q");
    reveal_strlit("a");
    reveal_strlit("r");
    let t = Tree::Dict(Map::empty()).insert_named(
        "t"@,
        Tree::Bytes(encode_utf8(decimal(transaction_id as nat))),
    );
    let y = t.insert_named("y"@, Tree::Bytes(encode_utf8("q"@)));
    let q = y.insert_named("q"@, Tree::Bytes(encode_utf8(query)));
    assert("y"@[0] != "q"@[0]);
    assert("y"@[0] != "a"@[0]);
    assert("q"@[0] != "r"@[0]);
    law_entries_are_found(t, "y"@, Tree::Bytes(encode_utf8("q"@)), "y"@);
    law_entries_are_found(y, "q"@, Tree::Bytes(encode_utf8(query)), "y"@);
    law_entries_are_found(q, "a"@, arguments, "y"@);
    vstd::utf8::encode_utf8_decode_utf8("q"@);
    vstd::utf8::encode_utf8_decode_utf8("r"@);
}

/// A response that names nodes is understood whatever else it has, peers or
/// not: just those nodes come out, and a rest that is no node is left out.
pub proof fn law_named_nodes_are_found(
    message: Tree,
    response: Tree,
    nodes: Seq<(Seq<u8>, SocketAddr)>,
    tail: Seq<u8>,
)
    requires
        message.named("y"@) == Some(Tree::Bytes(encode_utf8("r"@))),
        message.named("r"@) == Some(response),
        forall|i: int|
            0 <= i < nodes.len() ==> (#[trigger] nodes[i]).0.len() == 20 && nodes[i].1.ip is V4,
        response.named("nodes"@) == Some(Tree::Bytes(node_list(nodes) + tail)),
        tail.len() < 26,
    ensures
        message_nodes(message) == nodes,
{
    let all = node_list(nodes) + tail;
    law_nodes_are_read_back(nodes);
    assert forall|i: int| 0 <= i < nodes.len() implies #[trigger] compact_nodes(all)[i]
        == nodes[i] by {
        let list = node_list(nodes);
        assert(all.subrange(26 * i, 26 * i + 20) =~= list.subrange(26 * i, 26 * i + 20));
        assert(all.subrange(26 * i + 20, 26 * i + 26) =~= list.subrange(
            26 * i + 20,
            26 * i + 26,
        ));
        assert(compact_nodes(list)[i] == nodes[i]);
    }
    assert(compact_nodes(all) =~= nodes);
}

/// Once an answer that names a node has come in, the node is known, unless it
/// is the own one; what was known stays known; and no other node becomes known.
pub proof fn law_nodes_of_an_answer_are_known(
    before: Dht,
    after: Dht,
    data: Seq<u8>,
    message: Tree,
    response: Tree,
    nodes: Seq<(Seq<u8>, SocketAddr)>,
    node: (Seq<u8>, SocketAddr),
)
    requires
        after.known() == with_nodes(before.known(), datagram_nodes(data), before.node_id@),
        decoded(data) == Some(message),
        message.named("y"@) == Some(Tree::Bytes(encode_utf8("r"@))),
        message.named("r"@) == Some(response),
        forall|i: int|
            0 <= i < nodes.len() ==> (#[trigger] nodes[i]).0.len() == 20 && nodes[i].1.ip is V4,
        response.named("nodes"@) == Some(Tree::Bytes(node_list(nodes))),
    ensures
        after.known().contains(node) <==> before.known().contains(node) || (exists|i: int|
            0 <= i < nodes.len() && #[trigger] nodes[i] == node) && node.0 != before.node_id@,
{
    assert(node_list(nodes) + Seq::<u8>::empty() =~= node_list(nodes));
    law_named_nodes_are_found(message, response, nodes, Seq::empty());
    law_known_nodes_stay(before.known(), nodes, before.node_id@, node);
    if nodes.contains(node) {
        let i = choose|i: int| 0 <= i < nodes.len() && nodes[i] == node;
        assert(nodes[i] == node);
    }
}

/// The nodes that are known are those in the list.
pub proof fn law_known_nodes_are_listed(dht: Dht, node: (Seq<u8>, SocketAddr))
    ensures
        dht.known().contains(node) <==> exists|i: int|
            0 <= i < dht.known_nodes@.len() && (#[trigger] dht.known_nodes@[i]).id@ == node.0
                && dht.known_nodes@[i].addr == node.1,
{
    let views = dht.known_nodes@.map_values(|n: DhtNode| n@);
    if dht.known().contains(node) {
        let i = choose|i: int| 0 <= i < views.len() && views[i] == node;
        assert(dht.known_nodes@[i].id@ == node.0);
    }
    if exists|i: int|
        0 <= i < dht.known_nodes@.len() && (#[trigger] dht.known_nodes@[i]).id@ == node.0
            && dht.known_nodes@[i].addr == node.1 {
        let i = choose|i: int|
            0 <= i < dht.known_nodes@.len() && (#[trigger] dht.known_nodes@[i]).id@ == node.0
                && dht.known_nodes@[i].addr == node.1;
        assert(views[i] == node);
    }
}

/// The list of peers in a response is read value by value: six bytes are a
/// peer, and anything else is left out.
pub proof fn law_values_are_read_one_by_one(values: Seq<Tree>, value: Tree)
    ensures
        value_peers(Seq::empty()) == Seq::<SocketAddr>::empty(),
        value matches Tree::Bytes(b) && b.len() == 6 ==> value_peers(values.push(value))
            == value_peers(values).push(compact_addr(value->Bytes_0)),
        !(value matches Tree::Bytes(b) && b.len() == 6) ==> value_peers(values.push(value))
            == value_peers(values),
{
    assert(values.push(value).drop_last() =~= values);
}

/// The peers of an answer are those in its list of values, whatever else the
/// answer has.
pub proof fn law_peers_of_an_answer(
    data: Seq<u8>,
    message: Tree,
    response: Tree,
    values: Seq<Tree>,
)
    requires
        decoded(data) == Some(message),
        message.named("y"@) == Some(Tree::Bytes(encode_utf8("r"@))),
        message.named("r"@) == Some(response),
        response.named("values"@) == Some(Tree::List(values)),
    ensures
        datagram_peers(data) == value_peers(values),
{
}

/// What is no answer names nothing: what cannot be read, what has another kind
/// than "r", and an answer without a response.
pub proof fn law_other_messages_name_nothing(data: Seq<u8>, message: Tree)
    requires
        decoded(data) is None || decoded(data) == Some(message) && (message.named("y"@)
            != Some(Tree::Bytes(encode_utf8("r"@))) || message.named("r"@) is None),
    ensures
        datagram_peers(data) == Seq::<SocketAddr>::empty(),
        datagram_nodes(data) == Seq::<(Seq<u8>, SocketAddr)>::empty(),
{
}

/// Every query has its transaction ID, says that it is a query and which one,
/// and carries its arguments.
proof fn lemma_query_entries(transaction_id: u32, query: Seq<char>, arguments: Tree)
    ensures
        ({
            let tree = query_tree(transaction_id, query, arguments);
            &&& tree.named("t"@) == Some(Tree::Bytes(encode_utf8(decimal(transaction_id as nat))))
            &&& tree.named("y"@) == Some(Tree::Bytes(encode_utf8("q"@)))
            &&& tree.named("q"@) == Some(Tree::Bytes(encode_utf8(query)))
            &&& tree.named("a"@) == Some(arguments)
        }),
{
    reveal_strlit("t");
    reveal_strlit("y");
    reveal_strlit("q");
    reveal_strlit("a");
    let none = Tree::Dict(Map::empty());
    let id = Tree::Bytes(encode_utf8(decimal(transaction_id as nat)));
    let kind = Tree::Bytes(encode_utf8("q"@));
    let name = Tree::Bytes(encode_utf8(query));
    let t = none.insert_named("t"@, id);
    let y = t.insert_named("y"@, kind);
    let q = y.insert_named("q"@, name);
    assert("t"@[0] != "y"@[0] && "t"@[0] != "q"@[0] && "t"@[0] != "a"@[0]);
    assert("y"@[0] != "q"@[0] && "y"@[0] != "a"@[0] && "q"@[0] != "a"@[0]);
    law_entries_are_found(none, "t"@, id, "t"@);
    law_entries_are_found(t, "y"@, kind, "t"@);
    law_entries_are_found(y, "q"@, name, "t"@);
    law_entries_are_found(y, "q"@, name, "y"@);
    law_entries_are_found(q, "a"@, arguments, "t"@);
    law_entries_are_found(q, "a"@, arguments, "y"@);
    law_entries_are_found(q, "a"@, arguments, "q"@);
}

/// Every query carries the transaction ID, the own node ID, and what is asked
/// for: a ping nothing more, a search for nodes the target, a search for peers
/// the info hash.
pub proof fn law_queries_carry_what_is_asked(
    transaction_id: u32,
    node_id: Seq<u8>,
    sought: Seq<u8>,
)
    ensures
        forall|tree: Tree|
            tree == ping_tree(transaction_id, node_id) || tree == find_node_tree(
                transaction_id,
                node_id,
                sought,
            ) || tree == get_peers_tree(transaction_id, node_id, sought) ==> {
                &&& #[trigger] tree.named("t"@) == Some(
                    Tree::Bytes(encode_utf8(decimal(transaction_id as nat))),
                )
                &&& tree.named("y"@) == Some(Tree::Bytes(encode_utf8("q"@)))
                &&& tree.named("a"@) is Some
                &&& tree.named("a"@)->0.named("id"@) == Some(Tree::Bytes(node_id))
            },
        ping_tree(transaction_id, node_id).named("q"@) == Some(Tree::Bytes(encode_utf8("ping"@))),
        ({
            let tree = find_node_tree(transaction_id, node_id, sought);
            &&& tree.named("q"@) == Some(Tree::Bytes(encode_utf8("find_node"@)))
            &&& tree.named("a"@)->0.named("target"@) == Some(Tree::Bytes(sought))
        }),
        ({
            let tree = get_peers_tree(transaction_id, node_id, sought);
            &&& tree.named("q"@) == Some(Tree::Bytes(encode_utf8("get_peers"@)))
            &&& tree.named("a"@)->0.named("info_hash"@) == Some(Tree::Bytes(sought))
        }),
{
    reveal_strlit("id");
    reveal_strlit("target");
    reveal_strlit("info_hash");
    let none = Tree::Dict(Map::empty());
    let own = none.insert_named("id"@, Tree::Bytes(node_id));
    let target = own.insert_named("target"@, Tree::Bytes(sought));
    let hash = own.insert_named("info_hash"@, Tree::Bytes(sought));
    assert("id"@.len() != "target"@.len() && "id"@.len() != "info_hash"@.len());
    law_entries_are_found(none, "id"@, Tree::Bytes(node_id), "id"@);
    law_entries_are_found(own, "target"@, Tree::Bytes(sought), "id"@);
    law_entries_are_found(own, "info_hash"@, Tree::Bytes(sought), "id"@);
    lemma_query_entries(transaction_id, "ping"@, own);
    lemma_query_entries(transaction_id, "find_node"@, target);
    lemma_query_entries(transaction_id, "get_peers"@, hash);
}

/// Transaction IDs go up by one, and start over after the largest.
pub proof fn law_transaction_ids_go_up(transaction_id: u32, n: int)
    requires
        0 <= n,
    ensures
        id_after(transaction_id, 0) == transaction_id,
        id_after(transaction_id, n + 1) == if id_after(transaction_id, n) == 0xffff_ffff {
            0
        } else {
            id_after(transaction_id, n) + 1
        },
{
}

/// A search asks the first nodes that are known, as many as there are or as
/// are wanted, each for peers and for nodes near the info hash.
pub proof fn law_search_asks_the_first_nodes(
    dht: Dht,
    info_hash: Seq<u8>,
    messages: Seq<(SocketAddr, Vec<u8>, Vec<u8>)>,
    count: int,
    i: int,
)
    requires
        is_search(dht, info_hash, messages, count),
        0 <= i < count,
    ensures
        messages.len() == count,
        messages[i].0 == dht.known_nodes@[i].addr,
        messages[i].1@ == encoded(
            get_peers_tree(
                ((dht.transaction_id + 2 * i + 1) % 0x1_0000_0000) as u32,
                dht.node_id@,
                info_hash,
            ),
        ),
        messages[i].2@ == encoded(
            find_node_tree(
                ((dht.transaction_id + 2 * i + 2) % 0x1_0000_0000) as u32,
                dht.node_id@,
                info_hash,
            ),
        ),
{
    assert(asks_node(dht, info_hash, messages[i], i));
}

/// An answer whose peers are no list names no peers, and one whose nodes are no
/// byte string names no nodes.
pub proof fn law_answers_without_peers_or_nodes(message: Tree, response: Tree)
    requires
        message.named("r"@) == Some(response),
    ensures
        response.named("values"@) is None || !(response.named("values"@)->0 is List)
            ==> message_peers(message) == Seq::<SocketAddr>::empty(),
        response.named("nodes"@) is None || !(response.named("nodes"@)->0 is Bytes)
            ==> message_nodes(message) == Seq::<(Seq<u8>, SocketAddr)>::empty(),
{
}

/// A search looks for a hundred peers, and for eight seconds.
pub proof fn law_limits_of_a_search()
    ensures
        ENOUGH_PEERS == 100,
        SEARCH_TIMEOUT == 8 * 1_000_000_000,
{
}

/// Messages change the nodes that are known and nothing else, queries the
/// transaction ID and nothing else.
pub proof fn law_what_messages_and_queries_leave(before: Dht, after: Dht)
    ensures
        after.same_but_nodes(before) ==> after == (Dht { known_nodes: after.known_nodes, ..before }),
        after.same_but_transaction(before) ==> after == (Dht {
            transaction_id: after.transaction_id,
            ..before
        }),
{
}

/// A node is told by its ID and its address.
pub proof fn law_nodes_show_their_fields(node: DhtNode)
    ensures
        node@.0 == node.id@,
        node@.1 == node.addr,
{
}

} // verus!

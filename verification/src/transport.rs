//! The peer transport: every connected peer, remote or in-process, appears
//! as a `Token`-addressed channel. New connections sit in the establishment
//! state machine until their handshake completes; tokens are allocated
//! monotonically and never reused, not even after a disconnect.
//!
//! Byte-level socket I/O lives outside the engine: whatever reads the wire
//! feeds handshake bytes and decoded packets in, and writes flushed packets
//! out.
use vstd::prelude::*;
use crate::packet::{
    ClientPacket, EstablishingStatus, PacketDescriptor, PacketPriority, PlayerJoinData,
    PlayerJoinInstance, ServerPacket,
};

verus! {

/// An opaque per-peer handle, stable for the peer's lifetime and never
/// reused while the transport lives.
#[derive(Clone, Copy, Debug, PartialEq, Eq, Hash, Structural)]
pub struct Token {
    pub raw: u32,
}

/// One established peer: its token and its per-peer queues.
pub struct Peer {
    pub token: u32,
    pub join: PlayerJoinData,
    pub inbound: Vec<ClientPacket>,
    pub outbound: Vec<(ServerPacket, PacketDescriptor)>,
}

/// What feeding handshake bytes to a connection produced.
pub enum HandshakeOutcome {
    /// The handshake needs more bytes.
    Awaiting,
    /// The handshake completed: the peer is established under a fresh token.
    Established(Token, PlayerJoinData),
    /// The handshake failed: the connection is torn down, no token was ever
    /// allocated.
    Rejected,
    /// No connection with that identifier is establishing.
    UnknownConnection,
}

/// Sending to a token that is not connected.
#[derive(Clone, Copy, Debug, PartialEq, Eq, Structural)]
pub enum SendError {
    UnknownToken,
}

/// The inbound packets of every peer in peer order, each tagged with its
/// peer's token: what one non-blocking `poll` drains.
pub open spec fn spec_drain(peers: Seq<Peer>) -> Seq<(Token, ClientPacket)>
    decreases peers.len(),
{
    if peers.len() == 0 {
        Seq::empty()
    } else {
        spec_drain(peers.drop_last()) + peers.last().inbound@.map_values(
            |p: ClientPacket| (Token { raw: peers.last().token }, p),
        )
    }
}

/// What one flush delivers out of an outbound queue, front to back: every
/// reliable packet, and droppable packets while the budget lasts. The second
/// component is the budget left.
pub open spec fn spec_flush(queue: Seq<(ServerPacket, PacketDescriptor)>, budget: int) -> (
    Seq<ServerPacket>,
    int,
)
    decreases queue.len(),
{
    if queue.len() == 0 {
        (Seq::empty(), budget)
    } else {
        let prior = spec_flush(queue.drop_last(), budget);
        if queue.last().1.priority is Reliable {
            (prior.0.push(queue.last().0), prior.1)
        } else if prior.1 > 0 {
            (prior.0.push(queue.last().0), prior.1 - 1)
        } else {
            prior
        }
    }
}

/// Delivery preserves submission order: what a flush delivers is a
/// subsequence of the queued packets, so sequenced packets arrive in the
/// order they were submitted.
pub open spec fn is_subseq_of(a: Seq<ServerPacket>, q: Seq<(ServerPacket, PacketDescriptor)>) -> bool
    decreases a.len() + q.len(),
{
    if a.len() == 0 {
        true
    } else if q.len() == 0 {
        false
    } else {
        (a.last() == q.last().0 && is_subseq_of(a.drop_last(), q.drop_last())) || is_subseq_of(
            a,
            q.drop_last(),
        )
    }
}

/// A flush delivers a subsequence of the queue: relative submission order is
/// kept, so sequenced packets are delivered in order.
pub proof fn lemma_flush_preserves_order(queue: Seq<(ServerPacket, PacketDescriptor)>, budget: int)
    ensures
        is_subseq_of(spec_flush(queue, budget).0, queue),
    decreases queue.len(),
{
    if queue.len() > 0 {
        lemma_flush_preserves_order(queue.drop_last(), budget);
        let prior = spec_flush(queue.drop_last(), budget);
        let out = spec_flush(queue, budget);
        if out.0 == prior.0.push(queue.last().0) {
            assert(out.0.last() == queue.last().0);
            assert(out.0.drop_last() =~= prior.0);
            assert(is_subseq_of(out.0, queue));
        } else {
            lemma_subseq_extend(prior.0, queue.drop_last(), queue);
        }
    }
}

/// A subsequence of a queue is a subsequence of the queue grown at the back.
proof fn lemma_subseq_extend(
    a: Seq<ServerPacket>,
    q: Seq<(ServerPacket, PacketDescriptor)>,
    q2: Seq<(ServerPacket, PacketDescriptor)>,
)
    requires
        is_subseq_of(a, q),
        q2.len() == q.len() + 1,
        q2.drop_last() == q,
    ensures
        is_subseq_of(a, q2),
{
    if a.len() == 0 {
    } else {
        assert(q2.len() > 0);
        assert(is_subseq_of(a, q2.drop_last()));
    }
}

/// A flush never drops a reliable packet: a queue of only reliable packets
/// is delivered whole, whatever the budget.
pub proof fn lemma_flush_delivers_reliable(
    queue: Seq<(ServerPacket, PacketDescriptor)>,
    budget: int,
)
    requires
        forall|i: int|
            0 <= i < queue.len() ==> (#[trigger] queue[i]).1.priority == PacketPriority::Reliable,
    ensures
        spec_flush(queue, budget).0 == queue.map_values(|p: (ServerPacket, PacketDescriptor)| p.0),
    decreases queue.len(),
{
    if queue.len() == 0 {
        assert(spec_flush(queue, budget).0 =~= queue.map_values(
            |p: (ServerPacket, PacketDescriptor)| p.0,
        ));
    } else {
        assert(forall|i: int|
            0 <= i < queue.drop_last().len() ==> (#[trigger] queue.drop_last()[i]).1.priority
                == PacketPriority::Reliable);
        lemma_flush_delivers_reliable(queue.drop_last(), budget);
        assert(queue.last().1.priority == PacketPriority::Reliable);
        assert(spec_flush(queue, budget).0 =~= queue.map_values(
            |p: (ServerPacket, PacketDescriptor)| p.0,
        ));
    }
}

/// A flush never drops a reliable packet: every reliably queued packet
/// appears in what the flush delivers.
pub proof fn lemma_flush_contains_reliable(
    queue: Seq<(ServerPacket, PacketDescriptor)>,
    budget: int,
    i: int,
)
    requires
        0 <= i < queue.len(),
        queue[i].1.priority == PacketPriority::Reliable,
    ensures
        spec_flush(queue, budget).0.contains(queue[i].0),
    decreases queue.len(),
{
    let out = spec_flush(queue, budget);
    if i == queue.len() - 1 {
        assert(out.0[out.0.len() - 1] == queue[i].0);
    } else {
        lemma_flush_contains_reliable(queue.drop_last(), budget, i);
        let prior = spec_flush(queue.drop_last(), budget);
        let w = choose|w: int| 0 <= w < prior.0.len() && prior.0[w] == queue.drop_last()[i].0;
        assert(queue.drop_last()[i] == queue[i]);
        if out.0 == prior.0.push(queue.last().0) {
            assert(out.0[w] == queue[i].0);
        } else {
            assert(out.0[w] == queue[i].0);
        }
    }
}

/// Every drained packet is tagged with the token of one of the polled
/// peers.
pub proof fn lemma_drain_tokens(peers: Seq<Peer>, m: int)
    requires
        0 <= m < spec_drain(peers).len(),
    ensures
        exists|i: int|
            0 <= i < peers.len() && (#[trigger] peers[i]).token == spec_drain(peers)[m].0.raw,
    decreases peers.len(),
{
    if peers.len() > 0 {
        let prior = spec_drain(peers.drop_last());
        if m < prior.len() {
            lemma_drain_tokens(peers.drop_last(), m);
            let i = choose|i: int|
                0 <= i < peers.drop_last().len() && (#[trigger] peers.drop_last()[i]).token
                    == prior[m].0.raw;
            assert((peers[i]).token == spec_drain(peers)[m].0.raw);
        } else {
            assert((peers[peers.len() - 1]).token == spec_drain(peers)[m].0.raw);
        }
    }
}

/// Removing an entry keeps establishing identifiers distinct and bounded.
proof fn lemma_establishing_remove(s: Seq<(u64, PlayerJoinInstance)>, i: int, bound: u64)
    requires
        0 <= i < s.len(),
        forall|a: int, b: int| 0 <= a < b < s.len() ==> (#[trigger] s[a]).0 != (#[trigger] s[b]).0,
        forall|a: int| 0 <= a < s.len() ==> (#[trigger] s[a]).0 < bound,
    ensures
        forall|a: int, b: int|
            0 <= a < b < s.remove(i).len() ==> (#[trigger] s.remove(i)[a]).0 != (#[trigger] s.remove(
                i,
            )[b]).0,
        forall|a: int| 0 <= a < s.remove(i).len() ==> (#[trigger] s.remove(i)[a]).0 < bound,
{
    s.remove_ensures(i);
    assert forall|a: int, b: int|
        0 <= a < b < s.remove(i).len() implies (#[trigger] s.remove(i)[a]).0 != (#[trigger] s.remove(
        i,
    )[b]).0 by {
        let r = s.remove(i);
        if a < i {
            assert(r[a] == s[a]);
        } else {
            assert(r[a] == s[a + 1]);
        }
        if b < i {
            assert(r[b] == s[b]);
        } else {
            assert(r[b] == s[b + 1]);
        }
    }
    assert forall|a: int| 0 <= a < s.remove(i).len() implies (#[trigger] s.remove(i)[a]).0
        < bound by {
        if a < i {
            assert(s.remove(i)[a] == s[a]);
        } else {
            assert(s.remove(i)[a] == s[a + 1]);
        }
    }
}

/// Updating one peer in place (same token) keeps tokens distinct and
/// bounded.
proof fn lemma_update_keeps_tokens(pre: Seq<Peer>, post: Seq<Peer>, i: int, bound: u32)
    requires
        0 <= i < pre.len(),
        post.len() == pre.len(),
        forall|m: int| 0 <= m < pre.len() && m != i ==> #[trigger] post[m] == pre[m],
        post[i].token == pre[i].token,
        forall|a: int, b: int|
            0 <= a < b < pre.len() ==> (#[trigger] pre[a]).token != (#[trigger] pre[b]).token,
        forall|a: int| 0 <= a < pre.len() ==> (#[trigger] pre[a]).token < bound,
    ensures
        forall|a: int, b: int|
            0 <= a < b < post.len() ==> (#[trigger] post[a]).token != (#[trigger] post[b]).token,
        forall|a: int| 0 <= a < post.len() ==> (#[trigger] post[a]).token < bound,
{
    assert forall|a: int, b: int|
        0 <= a < b < post.len() implies (#[trigger] post[a]).token != (
    #[trigger] post[b]).token by {
        assert(post[a].token == pre[a].token);
        assert(post[b].token == pre[b].token);
    }
    assert forall|a: int| 0 <= a < post.len() implies (#[trigger] post[a]).token < bound by {
        assert(post[a].token == pre[a].token);
    }
}

/// Removing a peer keeps tokens distinct and bounded.
proof fn lemma_peers_remove(s: Seq<Peer>, i: int, bound: u32)
    requires
        0 <= i < s.len(),
        forall|a: int, b: int|
            0 <= a < b < s.len() ==> (#[trigger] s[a]).token != (#[trigger] s[b]).token,
        forall|a: int| 0 <= a < s.len() ==> (#[trigger] s[a]).token < bound,
    ensures
        forall|a: int, b: int|
            0 <= a < b < s.remove(i).len() ==> (#[trigger] s.remove(i)[a]).token
                != (#[trigger] s.remove(i)[b]).token,
        forall|a: int| 0 <= a < s.remove(i).len() ==> (#[trigger] s.remove(i)[a]).token < bound,
{
    s.remove_ensures(i);
    assert forall|a: int, b: int|
        0 <= a < b < s.remove(i).len() implies (#[trigger] s.remove(i)[a]).token
        != (#[trigger] s.remove(i)[b]).token by {
        let r = s.remove(i);
        if a < i {
            assert(r[a] == s[a]);
        } else {
            assert(r[a] == s[a + 1]);
        }
        if b < i {
            assert(r[b] == s[b]);
        } else {
            assert(r[b] == s[b + 1]);
        }
    }
    assert forall|a: int| 0 <= a < s.remove(i).len() implies (#[trigger] s.remove(i)[a]).token
        < bound by {
        if a < i {
            assert(s.remove(i)[a] == s[a]);
        } else {
            assert(s.remove(i)[a] == s[a + 1]);
        }
    }
}

/// The token-addressed peer multiplexer of the authoritative server.
pub struct ServerNetwork {
    peers: Vec<Peer>,
    establishing: Vec<(u64, PlayerJoinInstance)>,
    next_conn: u64,
    next_token: u32,
    retired: Ghost<Set<u32>>,
}

impl ServerNetwork {
    /// The established peers, in connection order.
    pub closed spec fn peer_list(&self) -> Seq<Peer> {
        self.peers@
    }

    /// The establishing connections' identifiers.
    pub closed spec fn establishing_list(&self) -> Seq<(u64, PlayerJoinInstance)> {
        self.establishing@
    }

    /// The next token to allocate; every token ever issued is below it.
    pub closed spec fn token_bound(&self) -> u32 {
        self.next_token
    }

    /// The next connection identifier to hand out.
    pub closed spec fn conn_bound(&self) -> u64 {
        self.next_conn
    }

    /// The tokens of peers that disconnected; never delivered to again.
    pub closed spec fn retired_set(&self) -> Set<u32> {
        self.retired@
    }

    /// Whether `t` is the token of a connected peer.
    pub open spec fn connected(&self, t: u32) -> bool {
        exists|i: int| 0 <= i < self.peer_list().len() && (#[trigger] self.peer_list()[i]).token == t
    }

    /// Peer tokens are pairwise distinct and, like every retired token,
    /// below the allocation bound; establishing connection identifiers are
    /// pairwise distinct.
    pub closed spec fn wf(&self) -> bool {
        &&& forall|i: int, j: int|
            0 <= i < j < self.peers@.len() ==> (#[trigger] self.peers@[i]).token
                != (#[trigger] self.peers@[j]).token
        &&& forall|i: int|
            0 <= i < self.peers@.len() ==> (#[trigger] self.peers@[i]).token < self.next_token
        &&& forall|t: u32| self.retired@.contains(t) ==> t < self.next_token
        &&& forall|i: int, j: int|
            0 <= i < j < self.establishing@.len() ==> (#[trigger] self.establishing@[i]).0
                != (#[trigger] self.establishing@[j]).0
        &&& forall|i: int|
            0 <= i < self.establishing@.len() ==> (#[trigger] self.establishing@[i]).0
                < self.next_conn
    }

    /// In a well-formed transport, peer tokens are pairwise distinct.
    pub proof fn lemma_distinct_tokens(&self, a: int, b: int)
        requires
            self.wf(),
            0 <= a < b < self.peer_list().len(),
        ensures
            self.peer_list()[a].token != self.peer_list()[b].token,
    {
    }

    pub fn new() -> (r: ServerNetwork)
        ensures
            r.wf(),
            r.peer_list() == Seq::<Peer>::empty(),
            r.establishing_list().len() == 0,
            r.retired_set() == Set::<u32>::empty(),
    {
        ServerNetwork {
            peers: Vec::new(),
            establishing: Vec::new(),
            next_conn: 0,
            next_token: 0,
            retired: Ghost(Set::empty()),
        }
    }

    /// A new connection enters the establishment state machine, in state
    /// awaiting-handshake, under a fresh connection identifier.
    pub fn begin_connection(&mut self) -> (r: Option<u64>)
        requires
            old(self).wf(),
        ensures
            final(self).wf(),
            final(self).peer_list() == old(self).peer_list(),
            final(self).retired_set() == old(self).retired_set(),
            r is None <==> old(self).conn_bound() == u64::MAX,
            r matches Some(conn) ==> final(self).establishing_list().len() == old(
                self,
            ).establishing_list().len() + 1 && final(self).establishing_list().last().0 == conn
                && final(self).establishing_list().last().1.taken().len() == 0,
            r is None ==> *final(self) == *old(self),
    {
        if self.next_conn == u64::MAX {
            return None;
        }
        let conn = self.next_conn;
        self.next_conn = self.next_conn + 1;
        self.establishing.push((conn, PlayerJoinInstance::new()));
        Some(conn)
    }

    /// Feeds raw bytes of an establishing connection into its handshake: the
    /// outcome is exactly what `spec_handshake` says of the connection's
    /// accumulated bytes. On `Awaiting` the entry stays with the bytes
    /// appended; a failed handshake, or one completing with the token space
    /// exhausted, tears the connection down; on completion a fresh token is
    /// allocated — never one seen before, connected or retired — and the
    /// peer is established.
    pub fn handshake(&mut self, conn: u64, data: &[u8]) -> (r: HandshakeOutcome)
        requires
            old(self).wf(),
        ensures
            final(self).wf(),
            final(self).retired_set() == old(self).retired_set(),
            (r is UnknownConnection <==> forall|i: int|
                0 <= i < old(self).establishing_list().len() ==> (#[trigger] old(
                    self,
                ).establishing_list()[i]).0 != conn),
            r is UnknownConnection ==> *final(self) == *old(self),
            !(r is UnknownConnection) ==> exists|i: int|
                {
                    &&& 0 <= i < old(self).establishing_list().len()
                    &&& (#[trigger] old(self).establishing_list()[i]).0 == conn
                    &&& (match crate::packet::spec_handshake(
                        old(self).establishing_list()[i].1.taken() + data@,
                    ) {
                        Ok(EstablishingStatus::Await) => {
                            &&& r is Awaiting
                            &&& final(self).peer_list() == old(self).peer_list()
                            &&& final(self).establishing_list().len()
                                == old(self).establishing_list().len()
                            &&& final(self).establishing_list()[i].0 == conn
                            &&& final(self).establishing_list()[i].1.taken()
                                == old(self).establishing_list()[i].1.taken() + data@
                            &&& forall|m: int|
                                0 <= m < old(self).establishing_list().len() && m != i
                                    ==> final(self).establishing_list()[m]
                                    == old(self).establishing_list()[m]
                        },
                        Ok(EstablishingStatus::Complete(j)) => {
                            &&& final(self).establishing_list()
                                == old(self).establishing_list().remove(i)
                            &&& (old(self).token_bound() < u32::MAX ==> r
                                == HandshakeOutcome::Established(
                                Token { raw: old(self).token_bound() },
                                j,
                            ))
                            &&& (old(self).token_bound() == u32::MAX ==> r is Rejected
                                && final(self).peer_list() == old(self).peer_list())
                        },
                        Err(_) => {
                            &&& r is Rejected
                            &&& final(self).peer_list() == old(self).peer_list()
                            &&& final(self).establishing_list()
                                == old(self).establishing_list().remove(i)
                        },
                    })
                },
            r matches HandshakeOutcome::Established(t, j) ==> {
                &&& !old(self).connected(t.raw)
                &&& !old(self).retired_set().contains(t.raw)
                &&& t.raw == old(self).token_bound()
                &&& final(self).peer_list().len() == old(self).peer_list().len() + 1
                &&& final(self).peer_list().last().token == t.raw
                &&& final(self).peer_list().last().join == j
                &&& final(self).peer_list().last().inbound@.len() == 0
                &&& final(self).peer_list().last().outbound@.len() == 0
                &&& forall|i: int|
                    0 <= i < old(self).peer_list().len() ==> final(self).peer_list()[i] == old(
                        self,
                    ).peer_list()[i]
            },
            !(r matches HandshakeOutcome::Established(t, j)) ==> final(self).peer_list() == old(
                self,
            ).peer_list(),
    {
        let n = self.establishing.len();
        let mut i: usize = 0;
        while i < n
            invariant
                n == self.establishing@.len(),
                0 <= i <= n,
                *self == *old(self),
                old(self).wf(),
                forall|m: int| 0 <= m < i ==> (#[trigger] self.establishing@[m]).0 != conn,
            decreases n - i,
        {
            if self.establishing[i].0 == conn {
                let (_, mut instance) = self.establishing.remove(i);
                match instance.receive(data) {
                    Ok(EstablishingStatus::Await) => {
                        self.establishing.insert(i, (conn, instance));
                        proof {
                            assert((old(self).establishing_list()[i as int]).0 == conn);
                            assert(self.establishing@ =~= old(self).establishing@.update(
                                i as int,
                                (conn, instance),
                            ));
                            assert(forall|m: int|
                                0 <= m < old(self).establishing@.len() && m != i
                                    ==> #[trigger] self.establishing@[m] == old(
                                    self,
                                ).establishing@[m]);
                            assert forall|a: int, b: int|
                                0 <= a < b < self.establishing@.len() implies (
                            #[trigger] self.establishing@[a]).0 != (
                            #[trigger] self.establishing@[b]).0 by {
                                assert(self.establishing@[a].0 == old(self).establishing@[a].0);
                                assert(self.establishing@[b].0 == old(self).establishing@[b].0);
                            }
                            assert forall|a: int|
                                0 <= a < self.establishing@.len() implies (
                            #[trigger] self.establishing@[a]).0 < self.next_conn by {
                                assert(self.establishing@[a].0 == old(self).establishing@[a].0);
                            }
                        }
                        return HandshakeOutcome::Awaiting;
                    },
                    Ok(EstablishingStatus::Complete(join)) => {
                        if self.next_token == u32::MAX {
                            proof {
                                lemma_establishing_remove(
                                    old(self).establishing@,
                                    i as int,
                                    self.next_conn,
                                );
                                assert((old(self).establishing_list()[i as int]).0 == conn);
                            }
                            return HandshakeOutcome::Rejected;
                        }
                        let raw = self.next_token;
                        self.next_token = self.next_token + 1;
                        self.peers.push(
                            Peer { token: raw, join, inbound: Vec::new(), outbound: Vec::new() },
                        );
                        proof {
                            assert((old(self).establishing_list()[i as int]).0 == conn);
                            lemma_establishing_remove(
                                old(self).establishing@,
                                i as int,
                                self.next_conn,
                            );
                            assert forall|a: int, b: int|
                                0 <= a < b < self.peers@.len() implies (
                            #[trigger] self.peers@[a]).token != (
                            #[trigger] self.peers@[b]).token by {
                                if b == self.peers@.len() - 1 {
                                    assert(self.peers@[a] == old(self).peers@[a]);
                                    assert(self.peers@[a].token < raw);
                                }
                            }
                            if old(self).connected(raw) {
                                let w = choose|w: int|
                                    0 <= w < old(self).peer_list().len() && (#[trigger] old(
                                        self,
                                    ).peer_list()[w]).token == raw;
                                assert(old(self).peers@[w].token < raw);
                            }
                        }
                        return HandshakeOutcome::Established(Token { raw }, join);
                    },
                    Err(_) => {
                        proof {
                            assert((old(self).establishing_list()[i as int]).0 == conn);
                            lemma_establishing_remove(
                                old(self).establishing@,
                                i as int,
                                self.next_conn,
                            );
                        }
                        return HandshakeOutcome::Rejected;
                    },
                }
            }
            i = i + 1;
        }
        HandshakeOutcome::UnknownConnection
    }

    /// Establishes an in-process loopback peer directly: the local peer
    /// needs no byte-level handshake but gets a token like any other.
    pub fn connect_local(&mut self, join: PlayerJoinData) -> (r: Option<Token>)
        requires
            old(self).wf(),
        ensures
            final(self).wf(),
            final(self).retired_set() == old(self).retired_set(),
            final(self).establishing_list() == old(self).establishing_list(),
            r is None <==> old(self).token_bound() == u32::MAX,
            r matches Some(t) ==> {
                &&& !old(self).connected(t.raw)
                &&& !old(self).retired_set().contains(t.raw)
                &&& t.raw == old(self).token_bound()
                &&& final(self).peer_list().len() == old(self).peer_list().len() + 1
                &&& final(self).peer_list().last().token == t.raw
                &&& final(self).peer_list().last().join == join
                &&& final(self).peer_list().last().inbound@.len() == 0
                &&& final(self).peer_list().last().outbound@.len() == 0
                &&& forall|i: int|
                    0 <= i < old(self).peer_list().len() ==> final(self).peer_list()[i] == old(
                        self,
                    ).peer_list()[i]
            },
            r is None ==> *final(self) == *old(self),
    {
        if self.next_token == u32::MAX {
            return None;
        }
        let raw = self.next_token;
        self.next_token = self.next_token + 1;
        self.peers.push(Peer { token: raw, join, inbound: Vec::new(), outbound: Vec::new() });
        proof {
            assert forall|a: int, b: int|
                0 <= a < b < self.peers@.len() implies (#[trigger] self.peers@[a]).token != (
            #[trigger] self.peers@[b]).token by {
                if b == self.peers@.len() - 1 {
                    assert(self.peers@[a] == old(self).peers@[a]);
                    assert(self.peers@[a].token < raw);
                }
            }
            if old(self).connected(raw) {
                let w = choose|w: int|
                    0 <= w < old(self).peer_list().len() && (#[trigger] old(
                        self,
                    ).peer_list()[w]).token == raw;
                assert(old(self).peers@[w].token < raw);
            }
        }
        Some(Token { raw })
    }

    /// Hands an inbound packet, already decoded, to the peer's queue in
    /// arrival order. Fails exactly when the token is not connected — a
    /// disconnected peer is never delivered to again.
    pub fn deliver(&mut self, token: Token, packet: ClientPacket) -> (r: Result<(), SendError>)
        requires
            old(self).wf(),
        ensures
            final(self).wf(),
            final(self).retired_set() == old(self).retired_set(),
            r is Ok <==> old(self).connected(token.raw),
            r is Err ==> *final(self) == *old(self),
            r is Ok ==> exists|i: int|
                {
                    &&& 0 <= i < old(self).peer_list().len()
                    &&& (#[trigger] old(self).peer_list()[i]).token == token.raw
                    &&& final(self).peer_list().len() == old(self).peer_list().len()
                    &&& final(self).peer_list()[i].inbound@
                        == old(self).peer_list()[i].inbound@.push(packet)
                    &&& final(self).peer_list()[i].token == old(self).peer_list()[i].token
                    &&& final(self).peer_list()[i].outbound == old(self).peer_list()[i].outbound
                    &&& final(self).peer_list()[i].join == old(self).peer_list()[i].join
                    &&& forall|m: int|
                        0 <= m < old(self).peer_list().len() && m != i
                            ==> final(self).peer_list()[m] == old(self).peer_list()[m]
                },
    {
        let n = self.peers.len();
        let mut i: usize = 0;
        while i < n
            invariant
                n == self.peers@.len(),
                0 <= i <= n,
                *self == *old(self),
                old(self).wf(),
                forall|m: int| 0 <= m < i ==> (#[trigger] self.peers@[m]).token != token.raw,
            decreases n - i,
        {
            if self.peers[i].token == token.raw {
                let ghost pre = self.peers@;
                proof {
                    assert((old(self).peer_list()[i as int]).token == token.raw);
                    assert(old(self).connected(token.raw));
                }
                let mut peer = self.peers.remove(i);
                peer.inbound.push(packet);
                self.peers.insert(i, peer);
                proof {
                    assert(self.peers@.len() == pre.len());
                    assert(forall|m: int|
                        0 <= m < pre.len() && m != i ==> #[trigger] self.peers@[m] == pre[m]);
                    assert(self.peers@[i as int].inbound@ == pre[i as int].inbound@.push(packet));
                    lemma_update_keeps_tokens(pre, self.peers@, i as int, self.next_token);
                }
                return Ok(());
            }
            i = i + 1;
        }
        proof {
            if old(self).connected(token.raw) {
                let w = choose|w: int|
                    0 <= w < old(self).peer_list().len() && (#[trigger] old(
                        self,
                    ).peer_list()[w]).token == token.raw;
                assert(self.peers@[w].token != token.raw);
            }
        }
        Err(SendError::UnknownToken)
    }

    /// Non-blocking drain of everything received since the last poll: the
    /// packets of each peer in arrival order, peers in connection order, no
    /// ordering promised across peers. Every inbound queue is empty after.
    pub fn poll(&mut self) -> (r: Vec<(Token, ClientPacket)>)
        requires
            old(self).wf(),
        ensures
            final(self).wf(),
            final(self).retired_set() == old(self).retired_set(),
            final(self).establishing_list() == old(self).establishing_list(),
            r@ == spec_drain(old(self).peer_list()),
            final(self).peer_list().len() == old(self).peer_list().len(),
            forall|i: int|
                0 <= i < final(self).peer_list().len() ==> {
                    let now = #[trigger] final(self).peer_list()[i];
                    let was = old(self).peer_list()[i];
                    &&& now.inbound@.len() == 0
                    &&& now.token == was.token
                    &&& now.outbound == was.outbound
                    &&& now.join == was.join
                },
    {
        let ghost pre = self.peers@;
        let mut out: Vec<(Token, ClientPacket)> = Vec::new();
        let n = self.peers.len();
        let mut i: usize = 0;
        while i < n
            invariant
                n == self.peers@.len() == pre.len(),
                0 <= i <= n,
                self.establishing@ == old(self).establishing@,
                self.next_conn == old(self).next_conn,
                self.next_token == old(self).next_token,
                self.retired == old(self).retired,
                old(self).peers@ == pre,
                old(self).wf(),
                forall|m: int|
                    i <= m < n ==> (#[trigger] self.peers@[m]) == pre[m],
                forall|m: int|
                    0 <= m < i ==> (#[trigger] self.peers@[m]).inbound@.len() == 0
                        && self.peers@[m].token == pre[m].token && self.peers@[m].outbound
                        == pre[m].outbound && self.peers@[m].join == pre[m].join,
                out@ == spec_drain(pre.subrange(0, i as int)),
            decreases n - i,
        {
            let ghost before = self.peers@;
            let mut peer = self.peers.remove(i);
            let token = peer.token;
            let mut drained: Vec<ClientPacket> = Vec::new();
            core::mem::swap(&mut drained, &mut peer.inbound);
            self.peers.insert(i, peer);
            proof {
                assert(self.peers@.len() == before.len());
                assert(forall|m: int|
                    0 <= m < before.len() && m != i ==> #[trigger] self.peers@[m] == before[m]);
                assert(self.peers@[i as int].inbound@.len() == 0);
                assert(self.peers@[i as int].token == before[i as int].token);
                assert(self.peers@[i as int].outbound == before[i as int].outbound);
                assert(self.peers@[i as int].join == before[i as int].join);
            }
            let ghost taken = drained@;
            let m = drained.len();
            let mut k: usize = 0;
            while k < m
                invariant
                    m == taken.len(),
                    0 <= k <= m,
                    drained@ == taken.subrange(k as int, m as int),
                    token == pre[i as int].token,
                    taken == pre[i as int].inbound@,
                    out@ == spec_drain(pre.subrange(0, i as int)) + taken.subrange(
                        0,
                        k as int,
                    ).map_values(|p: ClientPacket| (Token { raw: token }, p)),
                decreases m - k,
            {
                let pkt = drained.remove(0);
                proof {
                    assert(pkt == taken[k as int]);
                    assert(taken.subrange(k as int, m as int).remove(0) =~= taken.subrange(
                        k + 1 as int,
                        m as int,
                    ));
                }
                out.push((Token { raw: token }, pkt));
                proof {
                    assert(taken.subrange(0, k + 1 as int).drop_last() =~= taken.subrange(
                        0,
                        k as int,
                    ));
                    assert(taken.subrange(0, k + 1 as int).map_values(
                        |p: ClientPacket| (Token { raw: token }, p),
                    ) =~= taken.subrange(0, k as int).map_values(
                        |p: ClientPacket| (Token { raw: token }, p),
                    ).push((Token { raw: token }, taken[k as int])));
                    assert(out@ == spec_drain(pre.subrange(0, i as int)) + taken.subrange(
                        0,
                        k + 1 as int,
                    ).map_values(|p: ClientPacket| (Token { raw: token }, p)));
                }
                k = k + 1;
            }
            proof {
                assert(taken.subrange(0, m as int) =~= taken);
                let prefix2 = pre.subrange(0, i + 1 as int);
                assert(prefix2.drop_last() =~= pre.subrange(0, i as int));
                assert(prefix2.last() == pre[i as int]);
                assert(spec_drain(prefix2) == spec_drain(pre.subrange(0, i as int))
                    + pre[i as int].inbound@.map_values(
                    |p: ClientPacket| (Token { raw: pre[i as int].token }, p),
                ));
                assert(out@ == spec_drain(pre.subrange(0, i + 1 as int)));
            }
            i = i + 1;
        }
        proof {
            assert(pre.subrange(0, n as int) =~= pre);
        }
        out
    }

    /// The tokens of every connected peer, in connection order.
    pub fn tokens(&self) -> (r: Vec<Token>)
        ensures
            r@.len() == self.peer_list().len(),
            forall|i: int|
                0 <= i < r@.len() ==> (#[trigger] r@[i]).raw == self.peer_list()[i].token,
    {
        let n = self.peers.len();
        let mut out: Vec<Token> = Vec::new();
        let mut i: usize = 0;
        while i < n
            invariant
                n == self.peers@.len(),
                0 <= i <= n,
                out@.len() == i,
                forall|m: int|
                    0 <= m < i ==> (#[trigger] out@[m]).raw == self.peers@[m].token,
            decreases n - i,
        {
            out.push(Token { raw: self.peers[i].token });
            i = i + 1;
        }
        out
    }

    /// Enqueues a packet for a peer under the given reliability descriptor.
    /// Fails exactly when the token is not connected.
    pub fn send(&mut self, token: Token, packet: ServerPacket, desc: PacketDescriptor) -> (r:
        Result<(), SendError>)
        requires
            old(self).wf(),
        ensures
            final(self).wf(),
            final(self).retired_set() == old(self).retired_set(),
            final(self).establishing_list() == old(self).establishing_list(),
            r is Ok <==> old(self).connected(token.raw),
            r is Err ==> *final(self) == *old(self),
            final(self).peer_list().len() == old(self).peer_list().len(),
            forall|m: int|
                0 <= m < old(self).peer_list().len()
                    ==> (#[trigger] final(self).peer_list()[m]).inbound
                    == old(self).peer_list()[m].inbound && final(self).peer_list()[m].token
                    == old(self).peer_list()[m].token,
            r is Ok ==> exists|i: int|
                {
                    &&& 0 <= i < old(self).peer_list().len()
                    &&& (#[trigger] old(self).peer_list()[i]).token == token.raw
                    &&& final(self).peer_list().len() == old(self).peer_list().len()
                    &&& final(self).peer_list()[i].outbound@
                        == old(self).peer_list()[i].outbound@.push((packet, desc))
                    &&& final(self).peer_list()[i].token == old(self).peer_list()[i].token
                    &&& final(self).peer_list()[i].inbound == old(self).peer_list()[i].inbound
                    &&& final(self).peer_list()[i].join == old(self).peer_list()[i].join
                    &&& forall|m: int|
                        0 <= m < old(self).peer_list().len() && m != i
                            ==> final(self).peer_list()[m] == old(self).peer_list()[m]
                },
    {
        let n = self.peers.len();
        let mut i: usize = 0;
        while i < n
            invariant
                n == self.peers@.len(),
                0 <= i <= n,
                *self == *old(self),
                old(self).wf(),
                forall|m: int| 0 <= m < i ==> (#[trigger] self.peers@[m]).token != token.raw,
            decreases n - i,
        {
            if self.peers[i].token == token.raw {
                let ghost pre = self.peers@;
                proof {
                    assert((old(self).peer_list()[i as int]).token == token.raw);
                    assert(old(self).connected(token.raw));
                }
                let mut peer = self.peers.remove(i);
                peer.outbound.push((packet, desc));
                self.peers.insert(i, peer);
                proof {
                    assert(self.peers@.len() == pre.len());
                    assert(forall|m: int|
                        0 <= m < pre.len() && m != i ==> #[trigger] self.peers@[m] == pre[m]);
                    assert(self.peers@[i as int].outbound@ == pre[i as int].outbound@.push(
                        (packet, desc),
                    ));
                    lemma_update_keeps_tokens(pre, self.peers@, i as int, self.next_token);
                }
                return Ok(());
            }
            i = i + 1;
        }
        proof {
            if old(self).connected(token.raw) {
                let w = choose|w: int|
                    0 <= w < old(self).peer_list().len() && (#[trigger] old(
                        self,
                    ).peer_list()[w]).token == token.raw;
                assert(self.peers@[w].token != token.raw);
            }
        }
        Err(SendError::UnknownToken)
    }

    /// Flushes a peer's outbound queue under the given droppable-packet
    /// budget: every reliable packet is delivered, droppable packets while
    /// the budget lasts, all in submission order; the queue empties. Fails
    /// exactly when the token is not connected.
    pub fn flush(&mut self, token: Token, budget: usize) -> (r: Result<Vec<ServerPacket>, SendError>)
        requires
            old(self).wf(),
        ensures
            final(self).wf(),
            final(self).retired_set() == old(self).retired_set(),
            final(self).establishing_list() == old(self).establishing_list(),
            r is Ok <==> old(self).connected(token.raw),
            r is Err ==> *final(self) == *old(self),
            final(self).peer_list().len() == old(self).peer_list().len(),
            forall|m: int|
                0 <= m < old(self).peer_list().len()
                    ==> (#[trigger] final(self).peer_list()[m]).inbound
                    == old(self).peer_list()[m].inbound && final(self).peer_list()[m].token
                    == old(self).peer_list()[m].token && final(self).peer_list()[m].outbound@.len()
                    <= old(self).peer_list()[m].outbound@.len(),
            r matches Ok(v) ==> exists|i: int|
                {
                    &&& 0 <= i < old(self).peer_list().len()
                    &&& (#[trigger] old(self).peer_list()[i]).token == token.raw
                    &&& v@ == spec_flush(old(self).peer_list()[i].outbound@, budget as int).0
                    &&& final(self).peer_list().len() == old(self).peer_list().len()
                    &&& final(self).peer_list()[i].outbound@.len() == 0
                    &&& final(self).peer_list()[i].token == old(self).peer_list()[i].token
                    &&& final(self).peer_list()[i].inbound == old(self).peer_list()[i].inbound
                    &&& final(self).peer_list()[i].join == old(self).peer_list()[i].join
                    &&& forall|m: int|
                        0 <= m < old(self).peer_list().len() && m != i
                            ==> final(self).peer_list()[m] == old(self).peer_list()[m]
                },
    {
        let n = self.peers.len();
        let mut i: usize = 0;
        while i < n
            invariant
                n == self.peers@.len(),
                0 <= i <= n,
                *self == *old(self),
                old(self).wf(),
                forall|m: int| 0 <= m < i ==> (#[trigger] self.peers@[m]).token != token.raw,
            decreases n - i,
        {
            if self.peers[i].token == token.raw {
                let ghost pre = self.peers@;
                proof {
                    assert((old(self).peer_list()[i as int]).token == token.raw);
                    assert(old(self).connected(token.raw));
                }
                let mut peer = self.peers.remove(i);
                let mut queue: Vec<(ServerPacket, PacketDescriptor)> = Vec::new();
                core::mem::swap(&mut queue, &mut peer.outbound);
                self.peers.insert(i, peer);
                proof {
                    assert(self.peers@.len() == pre.len());
                    assert(forall|m: int|
                        0 <= m < pre.len() && m != i ==> #[trigger] self.peers@[m] == pre[m]);
                    assert(self.peers@[i as int].outbound@.len() == 0);
                    assert(self.peers@[i as int].token == pre[i as int].token);
                    assert(self.peers@[i as int].inbound == pre[i as int].inbound);
                    assert(self.peers@[i as int].join == pre[i as int].join);
                    lemma_update_keeps_tokens(pre, self.peers@, i as int, self.next_token);
                }
                let ghost qseq = queue@;
                let mut out: Vec<ServerPacket> = Vec::new();
                let mut left = budget;
                let m = queue.len();
                let mut k: usize = 0;
                while k < m
                    invariant
                        m == qseq.len(),
                        0 <= k <= m,
                        queue@ == qseq.subrange(k as int, m as int),
                        (out@, left as int) == spec_flush(qseq.subrange(0, k as int), budget as int),
                    decreases m - k,
                {
                    let (pkt, desc) = queue.remove(0);
                    proof {
                        assert((pkt, desc) == qseq[k as int]);
                        assert(qseq.subrange(k as int, m as int).remove(0) =~= qseq.subrange(
                            k + 1 as int,
                            m as int,
                        ));
                        assert(qseq.subrange(0, k + 1 as int).drop_last() =~= qseq.subrange(
                            0,
                            k as int,
                        ));
                        assert(qseq.subrange(0, k + 1 as int).last() == qseq[k as int]);
                    }
                    let keep = match desc.priority {
                        PacketPriority::Reliable => true,
                        PacketPriority::Droppable => {
                            if left > 0 {
                                left = left - 1;
                                true
                            } else {
                                false
                            }
                        },
                    };
                    if keep {
                        out.push(pkt);
                    }
                    k = k + 1;
                }
                proof {
                    assert(qseq.subrange(0, m as int) =~= qseq);
                }
                return Ok(out);
            }
            i = i + 1;
        }
        proof {
            if old(self).connected(token.raw) {
                let w = choose|w: int|
                    0 <= w < old(self).peer_list().len() && (#[trigger] old(
                        self,
                    ).peer_list()[w]).token == token.raw;
                assert(self.peers@[w].token != token.raw);
            }
        }
        Err(SendError::UnknownToken)
    }

    /// Tears a peer down. Fires once: the first call for a connected token
    /// removes the peer and retires the token forever; any later call finds
    /// nothing and changes nothing.
    pub fn disconnect(&mut self, token: Token) -> (r: bool)
        requires
            old(self).wf(),
        ensures
            final(self).wf(),
            final(self).establishing_list() == old(self).establishing_list(),
            r <==> old(self).connected(token.raw),
            !r ==> *final(self) == *old(self),
            r ==> {
                &&& !final(self).connected(token.raw)
                &&& final(self).retired_set() == old(self).retired_set().insert(token.raw)
                &&& exists|i: int|
                    {
                        &&& 0 <= i < old(self).peer_list().len()
                        &&& (#[trigger] old(self).peer_list()[i]).token == token.raw
                        &&& final(self).peer_list() == old(self).peer_list().remove(i)
                    }
            },
    {
        let n = self.peers.len();
        let mut i: usize = 0;
        while i < n
            invariant
                n == self.peers@.len(),
                0 <= i <= n,
                *self == *old(self),
                old(self).wf(),
                forall|m: int| 0 <= m < i ==> (#[trigger] self.peers@[m]).token != token.raw,
            decreases n - i,
        {
            if self.peers[i].token == token.raw {
                proof {
                    assert((old(self).peer_list()[i as int]).token == token.raw);
                    assert(old(self).connected(token.raw));
                }
                let _ = self.peers.remove(i);
                proof {
                    self.retired@ = self.retired@.insert(token.raw);
                    lemma_peers_remove(old(self).peers@, i as int, self.next_token);
                    if self.connected(token.raw) {
                        let w = choose|w: int|
                            0 <= w < self.peers@.len() && (#[trigger] self.peers@[w]).token
                                == token.raw;
                        old(self).peers@.remove_ensures(i as int);
                        if w < i {
                            assert(old(self).peers@[w].token == token.raw);
                        } else {
                            assert(old(self).peers@[w + 1].token == token.raw);
                        }
                    }
                }
                return true;
            }
            i = i + 1;
        }
        proof {
            if old(self).connected(token.raw) {
                let w = choose|w: int|
                    0 <= w < old(self).peer_list().len() && (#[trigger] old(
                        self,
                    ).peer_list()[w]).token == token.raw;
                assert(self.peers@[w].token != token.raw);
            }
        }
        false
    }
}

} // verus!

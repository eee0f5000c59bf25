//! The authoritative server: the chunk world with its generation pipeline
//! and per-position peer interest, the player roster, and the single
//! fixed-cadence tick that sequences transport drain, packet dispatch,
//! generation polling, entity integration and the outbound flush.
use vstd::prelude::*;
use std::sync::Arc;
use crate::api::Carrier;
use crate::chunk::{spec_pos_key, Chunk, ChunkPos, ChunkStorage};
use crate::entity::EntityWorld;
use crate::packet::{
    ClientChunkPacket, ClientEntityPacket, ClientPacket, ClientPlayerPacket, PacketDescriptor,
    PacketOrder, PacketPriority, ServerChunkPacket, ServerEntityPacket, ServerPacket,
    ServerPlayerPacket,
};
use crate::pos::Pos;
use crate::transport::{
    lemma_flush_contains_reliable, spec_drain, spec_flush, Peer, ServerNetwork, Token,
};
use crate::worldgen::{carrier_wf, ChunkGenerator, GenError};

verus! {

/// How many authoritative steps the server takes per second; clients may
/// rely on it for extrapolation.
pub const TICKS_PER_SECOND: u32 = 20;

/// The authoritative chunk world: resident chunks, the generation pipeline
/// feeding them, and which peers are interested in each position.
pub struct ServerWorld {
    chunks: ChunkStorage,
    generator: ChunkGenerator,
    interest: Vec<(u64, Vec<u32>)>,
}

impl ServerWorld {
    /// The resident chunks.
    pub closed spec fn resident(&self) -> Map<u64, Chunk> {
        self.chunks.resident()
    }

    /// The positions submitted for generation and not yet completed.
    pub closed spec fn pending(&self) -> Set<u64> {
        self.generator.pending_set()
    }

    /// The tokens recorded as interested in the position behind `k`.
    pub closed spec fn interested_in(&self, k: u64) -> Seq<u32> {
        if exists|i: int| 0 <= i < self.interest@.len() && (#[trigger] self.interest@[i]).0 == k {
            let i = choose|i: int|
                0 <= i < self.interest@.len() && (#[trigger] self.interest@[i]).0 == k;
            self.interest@[i].1@
        } else {
            Seq::empty()
        }
    }

    /// The positions changed since the last tick drained them.
    pub closed spec fn dirty_list(&self) -> Seq<ChunkPos> {
        self.chunks.dirty_list()
    }

    /// Pending and resident never overlap; every dirty position is resident;
    /// interest entries are keyed once.
    pub closed spec fn wf(&self) -> bool {
        &&& self.chunks.wf()
        &&& self.generator.wf()
        &&& forall|k: u64|
            self.pending().contains(k) ==> !(#[trigger] self.resident().contains_key(k))
        &&& forall|i: int|
            0 <= i < self.dirty_list().len() ==> self.resident().contains_key(
                spec_pos_key(#[trigger] self.dirty_list()[i]),
            )
        &&& forall|i: int, j: int|
            0 <= i < j < self.interest@.len() ==> (#[trigger] self.interest@[i]).0
                != (#[trigger] self.interest@[j]).0
    }

    pub fn new(carrier: Carrier, pool: Arc<rayon::ThreadPool>) -> (r: Result<
        ServerWorld,
        GenError,
    >)
        requires
            carrier_wf(carrier),
        ensures
            r matches Ok(w) && w.wf() && w.resident() == Map::<u64, Chunk>::empty() && w.pending()
                == Set::<u64>::empty() && w.dirty_list() == Seq::<ChunkPos>::empty(),
    {
        let generator = match ChunkGenerator::new(carrier, pool) {
            Ok(g) => g,
            Err(e) => {
                proof {
                    assert(false);
                }
                return Err(e);
            },
        };
        Ok(ServerWorld { chunks: ChunkStorage::new(), generator, interest: Vec::new() })
    }

    /// The authoritative chunk storage, for collision queries.
    pub fn chunk_storage(&self) -> (r: &ChunkStorage)
        requires
            self.wf(),
        ensures
            r.wf(),
            r.resident() == self.resident(),
    {
        &self.chunks
    }

    /// Records that `token` wants `key`, once.
    fn add_interest(&mut self, key: u64, token: u32)
        requires
            old(self).wf(),
        ensures
            final(self).wf(),
            final(self).resident() == old(self).resident(),
            final(self).pending() == old(self).pending(),
            final(self).interested_in(key).contains(token),
            forall|k: u64| k != key ==> final(self).interested_in(k) == old(self).interested_in(k),
            forall|t: u32|
                old(self).interested_in(key).contains(t) ==> final(self).interested_in(
                    key,
                ).contains(t),
    {
        let n = self.interest.len();
        let mut i: usize = 0;
        while i < n
            invariant
                n == self.interest@.len(),
                0 <= i <= n,
                *self == *old(self),
                old(self).wf(),
                forall|m: int| 0 <= m < i ==> (#[trigger] self.interest@[m]).0 != key,
            decreases n - i,
        {
            if self.interest[i].0 == key {
                let ghost pre = self.interest@;
                let mut entry = self.interest.remove(i);
                if !contains_u32(&entry.1, token) {
                    entry.1.push(token);
                }
                self.interest.insert(i, entry);
                proof {
                    assert(self.interest@.len() == pre.len());
                    assert(forall|m: int|
                        0 <= m < pre.len() && m != i ==> #[trigger] self.interest@[m] == pre[m]);
                    assert(self.interest@[i as int].0 == pre[i as int].0);
                    assert forall|a: int, b: int|
                        0 <= a < b < self.interest@.len() implies (
                    #[trigger] self.interest@[a]).0 != (#[trigger] self.interest@[b]).0 by {
                        assert(self.interest@[a].0 == pre[a].0);
                        assert(self.interest@[b].0 == pre[b].0);
                    }
                    assert(self.pending() == old(self).pending());
                    assert(self.resident() == old(self).resident());
                    assert(self.dirty_list() == old(self).dirty_list());
                    assert forall|k: u64|
                        self.pending().contains(k) implies !(
                    #[trigger] self.resident().contains_key(k)) by {
                        assert(old(self).pending().contains(k));
                    }
                    assert forall|m: int|
                        0 <= m < self.dirty_list().len() implies self.resident().contains_key(
                        spec_pos_key(#[trigger] self.dirty_list()[m]),
                    ) by {
                        assert(old(self).resident().contains_key(
                            spec_pos_key(old(self).dirty_list()[m]),
                        ));
                    }
                    lemma_interest_at(self, key, i as int);
                    lemma_interest_at(old(self), key, i as int);
                    assert(self.interested_in(key).contains(token)) by {
                        if pre[i as int].1@.contains(token) {
                            assert(self.interest@[i as int].1@ == pre[i as int].1@);
                        } else {
                            assert(self.interest@[i as int].1@ == pre[i as int].1@.push(token));
                            assert(self.interest@[i as int].1@[pre[i as int].1@.len() as int]
                                == token);
                        }
                    }
                    assert forall|t: u32|
                        old(self).interested_in(key).contains(t) implies self.interested_in(
                        key,
                    ).contains(t) by {
                        if self.interest@[i as int].1@ != pre[i as int].1@ {
                            let w = choose|w: int|
                                0 <= w < pre[i as int].1@.len() && pre[i as int].1@[w] == t;
                            assert(self.interest@[i as int].1@[w] == t);
                        }
                    }
                    assert forall|k2: u64| k2 != key implies self.interested_in(k2) == old(
                        self,
                    ).interested_in(k2) by {
                        if exists|m: int|
                            0 <= m < pre.len() && (#[trigger] pre[m]).0 == k2 {
                            let m = choose|m: int|
                                0 <= m < pre.len() && (#[trigger] pre[m]).0 == k2;
                            assert(m != i);
                            assert(self.interest@[m] == pre[m]);
                            lemma_interest_at(self, k2, m);
                            lemma_interest_at(old(self), k2, m);
                        } else {
                            assert(forall|m: int|
                                0 <= m < self.interest@.len() ==> (
                                #[trigger] self.interest@[m]).0 != k2);
                            lemma_interest_missing(self, k2);
                            lemma_interest_missing(old(self), k2);
                        }
                    }
                }
                return ;
            }
            i = i + 1;
        }
        let mut tokens: Vec<u32> = Vec::new();
        tokens.push(token);
        self.interest.push((key, tokens));
        proof {
            assert(self.pending() == old(self).pending());
            assert(self.resident() == old(self).resident());
            assert(self.dirty_list() == old(self).dirty_list());
            assert forall|k: u64|
                self.pending().contains(k) implies !(#[trigger] self.resident().contains_key(
                k,
            )) by {
                assert(old(self).pending().contains(k));
            }
            assert forall|m: int|
                0 <= m < self.dirty_list().len() implies self.resident().contains_key(
                spec_pos_key(#[trigger] self.dirty_list()[m]),
            ) by {
                assert(old(self).resident().contains_key(
                    spec_pos_key(old(self).dirty_list()[m]),
                ));
            }
            assert forall|a: int, b: int|
                0 <= a < b < self.interest@.len() implies (#[trigger] self.interest@[a]).0 != (
            #[trigger] self.interest@[b]).0 by {
                if b == self.interest@.len() - 1 {
                    assert(self.interest@[a] == old(self).interest@[a]);
                    assert(old(self).interest@[a].0 != key);
                }
            }
            lemma_interest_at(self, key, self.interest@.len() - 1);
            assert(self.interested_in(key).contains(token)) by {
                assert(self.interest@[self.interest@.len() - 1].1@[0] == token);
            }
            lemma_interest_missing(old(self), key);
            assert forall|k2: u64| k2 != key implies self.interested_in(k2) == old(
                self,
            ).interested_in(k2) by {
                if exists|m: int|
                    0 <= m < old(self).interest@.len() && (#[trigger] old(self).interest@[m]).0
                        == k2 {
                    let m = choose|m: int|
                        0 <= m < old(self).interest@.len() && (#[trigger] old(self).interest@[m]).0
                            == k2;
                    assert(self.interest@[m] == old(self).interest@[m]);
                    lemma_interest_at(self, k2, m);
                    lemma_interest_at(old(self), k2, m);
                } else {
                    assert forall|m: int|
                        0 <= m < self.interest@.len() implies (#[trigger] self.interest@[m]).0
                        != k2 by {
                        if m < self.interest@.len() - 1 {
                            assert(old(self).interest@[m].0 != k2);
                        }
                    }
                    lemma_interest_missing(self, k2);
                    lemma_interest_missing(old(self), k2);
                }
            }
        }
    }

    /// The tokens interested in `key`, if any.
    fn interested(&self, key: u64) -> (r: Vec<u32>)
        requires
            self.wf(),
        ensures
            r@ == self.interested_in(key),
    {
        let n = self.interest.len();
        let mut i: usize = 0;
        while i < n
            invariant
                n == self.interest@.len(),
                0 <= i <= n,
                forall|m: int| 0 <= m < i ==> (#[trigger] self.interest@[m]).0 != key,
            decreases n - i,
        {
            if self.interest[i].0 == key {
                proof {
                    assert(forall|a: int, b: int|
                        0 <= a < b < self.interest@.len() ==> (#[trigger] self.interest@[a]).0
                            != (#[trigger] self.interest@[b]).0);
                    lemma_interest_at(self, key, i as int);
                }
                return copy_tokens(&self.interest[i].1);
            }
            i = i + 1;
        }
        proof {
            if exists|m: int|
                0 <= m < self.interest@.len() && (#[trigger] self.interest@[m]).0 == key {
                let m = choose|m: int|
                    0 <= m < self.interest@.len() && (#[trigger] self.interest@[m]).0 == key;
                assert(self.interest@[m].0 != key);
            }
        }
        Vec::new()
    }

    /// Answers a viewer's chunk request: already-resident positions are
    /// returned at once (as copies of the authoritative snapshots); the rest
    /// are deduplicated into the generation pipeline. Either way the token
    /// is recorded as interested.
    pub fn handle_request(&mut self, token: Token, positions: &Vec<ChunkPos>) -> (r: Vec<
        (ChunkPos, Chunk),
    >)
        requires
            old(self).wf(),
        ensures
            final(self).wf(),
            final(self).resident() == old(self).resident(),
            forall|i: int|
                0 <= i < r@.len() ==> old(self).resident().contains_key(
                    spec_pos_key((#[trigger] r@[i]).0),
                ) && r@[i].1@ == old(self).resident()[spec_pos_key(r@[i].0)]@,
            forall|i: int|
                0 <= i < positions@.len() && old(self).resident().contains_key(
                    spec_pos_key(#[trigger] positions@[i]),
                ) ==> exists|m: int|
                    0 <= m < r@.len() && (#[trigger] r@[m]).0 == positions@[i] && r@[m].1@ == old(
                        self,
                    ).resident()[spec_pos_key(positions@[i])]@,
            forall|i: int|
                0 <= i < positions@.len() && !old(self).resident().contains_key(
                    spec_pos_key(#[trigger] positions@[i]),
                ) ==> final(self).pending().contains(spec_pos_key(positions@[i])),
            forall|k: u64| old(self).pending().contains(k) ==> final(self).pending().contains(k),
            forall|i: int|
                0 <= i < positions@.len() ==> final(self).interested_in(
                    spec_pos_key(#[trigger] positions@[i]),
                ).contains(token.raw),
            forall|k: u64, t: u32|
                old(self).interested_in(k).contains(t) ==> final(self).interested_in(k).contains(
                    t,
                ),
    {
        let n = positions.len();
        let mut out: Vec<(ChunkPos, Chunk)> = Vec::new();
        let mut i: usize = 0;
        while i < n
            invariant
                n == positions@.len(),
                0 <= i <= n,
                self.wf(),
                self.resident() == old(self).resident(),
                forall|m: int|
                    0 <= m < out@.len() ==> old(self).resident().contains_key(
                        spec_pos_key((#[trigger] out@[m]).0),
                    ) && out@[m].1@ == old(self).resident()[spec_pos_key(out@[m].0)]@,
                forall|m: int|
                    0 <= m < i && old(self).resident().contains_key(
                        spec_pos_key(#[trigger] positions@[m]),
                    ) ==> exists|w: int|
                        0 <= w < out@.len() && (#[trigger] out@[w]).0 == positions@[m] && out@[w].1@
                            == old(self).resident()[spec_pos_key(positions@[m])]@,
                forall|m: int|
                    0 <= m < i && !old(self).resident().contains_key(
                        spec_pos_key(#[trigger] positions@[m]),
                    ) ==> self.pending().contains(spec_pos_key(positions@[m])),
                forall|k: u64|
                    old(self).pending().contains(k) ==> #[trigger] self.pending().contains(k),
                forall|m: int|
                    0 <= m < i ==> self.interested_in(
                        spec_pos_key(#[trigger] positions@[m]),
                    ).contains(token.raw),
                forall|k: u64, t: u32|
                    old(self).interested_in(k).contains(t) ==> self.interested_in(k).contains(t),
            decreases n - i,
        {
            let ghost head = *self;
            let pos = positions[i];
            let ghost out0 = out@;
            match self.chunks.get_chunk(pos) {
                Some(chunk) => {
                    let copy = chunk.duplicate();
                    out.push((pos, copy));
                    proof {
                        assert((out@[out@.len() - 1]).0 == pos && (out@[out@.len() - 1]).1@ == old(
                            self,
                        ).resident()[spec_pos_key(pos)]@);
                        assert forall|m: int|
                            0 <= m < i + 1 && old(self).resident().contains_key(
                                spec_pos_key(#[trigger] positions@[m]),
                            ) implies exists|w: int|
                            0 <= w < out@.len() && (#[trigger] out@[w]).0 == positions@[m]
                                && out@[w].1@ == old(self).resident()[spec_pos_key(
                                positions@[m],
                            )]@ by {
                            if m == i {
                                assert((out@[out@.len() - 1]).0 == positions@[m]);
                            } else {
                                let w = choose|w: int|
                                    0 <= w < out0.len() && (#[trigger] out0[w]).0 == positions@[m]
                                        && out0[w].1@ == old(self).resident()[spec_pos_key(
                                        positions@[m],
                                    )]@;
                                assert(out@[w] == out0[w]);
                            }
                        }
                    }
                },
                None => {
                    let ghost pend0 = self.pending();
                    self.generator.request_chunk(pos);
                    proof {
                        assert(self.pending() == pend0.insert(spec_pos_key(pos)) || self.pending()
                            == pend0);
                        assert(self.pending().contains(spec_pos_key(pos)));
                        assert forall|k: u64|
                            self.pending().contains(k) implies !(
                        #[trigger] self.resident().contains_key(k)) by {
                            if k != spec_pos_key(pos) {
                                assert(pend0.contains(k));
                            }
                        }
                        assert(self.chunks == head.chunks);
                        assert forall|m: int|
                            0 <= m < self.dirty_list().len() implies self.resident().contains_key(
                            spec_pos_key(#[trigger] self.dirty_list()[m]),
                        ) by {
                            assert(head.resident().contains_key(
                                spec_pos_key(head.dirty_list()[m]),
                            ));
                        }
                    }
                },
            }
            let ghost pre_add = *self;
            self.add_interest(pos.key(), token.raw);
            proof {
                assert(pre_add.interest == head.interest);
                assert forall|k2: u64, t2: u32|
                    old(self).interested_in(k2).contains(t2) implies self.interested_in(
                    k2,
                ).contains(t2) by {
                    assert(head.interested_in(k2).contains(t2));
                    assert(pre_add.interested_in(k2) == head.interested_in(k2));
                    if k2 != spec_pos_key(pos) {
                        assert(self.interested_in(k2) == pre_add.interested_in(k2));
                    }
                }
                assert forall|m: int|
                    0 <= m < i + 1 implies self.interested_in(
                    spec_pos_key(#[trigger] positions@[m]),
                ).contains(token.raw) by {
                    let k2 = spec_pos_key(positions@[m]);
                    if k2 == spec_pos_key(pos) {
                        assert(self.interested_in(spec_pos_key(pos)).contains(token.raw));
                    } else {
                        assert(m < i);
                        assert(head.interested_in(k2).contains(token.raw));
                        assert(pre_add.interested_in(k2) == head.interested_in(k2));
                        assert(self.interested_in(k2) == pre_add.interested_in(k2));
                    }
                }
            }
            i = i + 1;
        }
        out
    }

    /// Advances the pipeline: applies every newly completed chunk, then
    /// drains the positions changed since the last tick — freshly generated
    /// or mutated — handing each out in marking order with a snapshot copy
    /// and the tokens interested in it. Failed generations are reported by
    /// position so the embedder can log them; those positions left the
    /// pending set and may be requested again.
    pub fn tick(&mut self) -> (r: (Vec<(ChunkPos, Chunk, Vec<u32>)>, Vec<ChunkPos>))
        requires
            old(self).wf(),
        ensures
            final(self).wf(),
            final(self).dirty_list().len() == 0,
            forall|k: u64|
                old(self).resident().contains_key(k)
                    ==> #[trigger] final(self).resident().contains_key(k),
            forall|k: u64| final(self).interested_in(k) == old(self).interested_in(k),
            r.0@.len() >= old(self).dirty_list().len(),
            forall|i: int|
                0 <= i < old(self).dirty_list().len() ==> (#[trigger] r.0@[i]).0 == old(
                    self,
                ).dirty_list()[i],
            forall|i: int|
                0 <= i < r.0@.len() ==> final(self).resident().contains_key(
                    spec_pos_key((#[trigger] r.0@[i]).0),
                ) && r.0@[i].1@ == final(self).resident()[spec_pos_key(r.0@[i].0)]@ && r.0@[i].2@
                    == final(self).interested_in(spec_pos_key(r.0@[i].0)),
            forall|k: u64|
                final(self).resident().contains_key(k) && !old(self).resident().contains_key(k)
                    ==> exists|m: int|
                    0 <= m < r.0@.len() && spec_pos_key((#[trigger] r.0@[m]).0) == k,
            forall|k: u64|
                #[trigger] final(self).pending().contains(k) ==> old(self).pending().contains(k),
            forall|k: u64|
                old(self).pending().contains(k) && !(#[trigger] final(self).pending().contains(k))
                    ==> (exists|m: int|
                    0 <= m < r.0@.len() && spec_pos_key((#[trigger] r.0@[m]).0) == k) || (exists|
                    m: int,
                |
                    0 <= m < r.1@.len() && spec_pos_key(#[trigger] r.1@[m]) == k),
    {
        let ghost dirty_orig = old(self).dirty_list();
        let done = self.generator.poll_chunks();
        let ghost drained = done@;
        let ghost gen1 = self.generator;
        let n = done.len();
        let mut done = done;
        let mut failed: Vec<ChunkPos> = Vec::new();
        let mut i: usize = 0;
        while i < n
            invariant
                n == drained.len(),
                0 <= i <= n,
                done@ == drained.subrange(i as int, n as int),
                self.chunks.wf(),
                self.generator.wf(),
                self.interest == old(self).interest,
                self.generator == gen1,
                forall|i0: int, j0: int|
                    0 <= i0 < j0 < self.interest@.len() ==> (#[trigger] self.interest@[i0]).0
                        != (#[trigger] self.interest@[j0]).0,
                forall|m: int|
                    0 <= m < drained.len() ==> !self.pending().contains(
                        spec_pos_key((#[trigger] drained[m]).0),
                    ) && ((#[trigger] drained[m]).1 matches Some(c) ==> c.wf()),
                forall|k: u64|
                    self.pending().contains(k)
                        ==> !(#[trigger] old(self).resident().contains_key(k)),
                forall|k: u64|
                    #[trigger] self.resident().contains_key(k) ==> old(
                        self,
                    ).resident().contains_key(k) || exists|m: int|
                        0 <= m < i && (#[trigger] drained[m]).1 is Some && spec_pos_key(
                            drained[m].0,
                        ) == k,
                forall|k: u64|
                    old(self).resident().contains_key(k) ==> #[trigger] self.resident()
                        .contains_key(k),
                self.dirty_list().len() >= dirty_orig.len(),
                forall|m: int|
                    0 <= m < dirty_orig.len() ==> self.dirty_list()[m] == #[trigger] dirty_orig[m],
                forall|m: int|
                    0 <= m < i && (#[trigger] drained[m]).1 is Some ==> self.dirty_list().contains(
                        drained[m].0,
                    ),
                forall|m: int|
                    0 <= m < i && (#[trigger] drained[m]).1 is None ==> failed@.contains(
                        drained[m].0,
                    ),
                forall|m: int|
                    0 <= m < self.dirty_list().len() ==> self.resident().contains_key(
                        spec_pos_key(#[trigger] self.dirty_list()[m]),
                    ),
            decreases n - i,
        {
            let (pos, maybe_chunk) = done.remove(0);
            proof {
                assert((pos, maybe_chunk) == drained[i as int]);
                assert(drained.subrange(i as int, n as int).remove(0) =~= drained.subrange(
                    i + 1 as int,
                    n as int,
                ));
            }
            match maybe_chunk {
                Some(chunk) => {
                    let ghost res0 = self.resident();
                    let ghost dirty0 = self.dirty_list();
                    self.chunks.put_chunk(pos, chunk);
                    proof {
                        assert(self.resident() == res0.insert(spec_pos_key(pos), chunk));
                        assert(self.dirty_list() == dirty0 || self.dirty_list() == dirty0.push(
                            pos,
                        ));
                        assert(self.dirty_list().contains(pos)) by {
                            if dirty0.contains(pos) {
                                let w = choose|w: int|
                                    0 <= w < dirty0.len() && dirty0[w] == pos;
                                assert(self.dirty_list()[w] == pos);
                            } else {
                                assert(self.dirty_list().last() == pos);
                            }
                        }
                        assert forall|m: int|
                            0 <= m < i + 1 && (#[trigger] drained[m]).1
                                is Some implies self.dirty_list().contains(drained[m].0) by {
                            if m < i {
                                let w = choose|w: int|
                                    0 <= w < dirty0.len() && dirty0[w] == drained[m].0;
                                assert(self.dirty_list()[w] == drained[m].0);
                            }
                        }
                        assert forall|k: u64|
                            #[trigger] self.resident().contains_key(k) implies old(
                            self,
                        ).resident().contains_key(k) || exists|m: int|
                            0 <= m < i + 1 && (#[trigger] drained[m]).1 is Some && spec_pos_key(
                                drained[m].0,
                            ) == k by {
                            if k == spec_pos_key(pos) {
                                assert(drained[i as int].1 is Some && spec_pos_key(
                                    drained[i as int].0,
                                ) == k);
                            }
                        }
                        assert forall|m: int|
                            0 <= m < self.dirty_list().len() implies self.resident().contains_key(
                            spec_pos_key(#[trigger] self.dirty_list()[m]),
                        ) by {
                            if m < dirty0.len() {
                                assert(self.dirty_list()[m] == dirty0[m]);
                                assert(res0.contains_key(spec_pos_key(dirty0[m])));
                            }
                        }
                        assert(self.dirty_list().len() >= dirty0.len());
                        assert forall|m: int|
                            0 <= m < dirty_orig.len() implies self.dirty_list()[m]
                            == #[trigger] dirty_orig[m] by {
                            assert(dirty0[m] == dirty_orig[m]);
                            assert(self.dirty_list()[m] == dirty0[m]);
                        }
                    }
                },
                None => {
                    let ghost failed0 = failed@;
                    failed.push(pos);
                    proof {
                        assert(failed@[failed@.len() - 1] == pos);
                        assert forall|m: int|
                            0 <= m < i + 1 && (#[trigger] drained[m]).1
                                is None implies failed@.contains(drained[m].0) by {
                            if m < i {
                                let w = choose|w: int|
                                    0 <= w < failed0.len() && failed0[w] == drained[m].0;
                                assert(failed@[w] == drained[m].0);
                            }
                        }
                    }
                },
            }
            i = i + 1;
        }

        let ghost mid = *self;
        let dirty = self.chunks.drain_dirty();
        proof {
            assert(self.generator == mid.generator);
            assert(self.interest == mid.interest);
            assert forall|k: u64|
                self.pending().contains(k) implies !(#[trigger] self.resident().contains_key(
                k,
            )) by {
                assert(mid.pending().contains(k));
                assert(!mid.resident().contains_key(k));
            }
            assert(self.wf());
            assert forall|k: u64|
                old(self).resident().contains_key(k) implies #[trigger] self.resident()
                .contains_key(k) by {
                assert(mid.resident().contains_key(k));
            }
        }
        let dn = dirty.len();
        let mut out: Vec<(ChunkPos, Chunk, Vec<u32>)> = Vec::new();
        let mut j: usize = 0;
        while j < dn
            invariant
                dn == dirty@.len(),
                dirty@ == mid.dirty_list(),
                0 <= j <= dn,
                self.wf(),
                self.dirty_list().len() == 0,
                self.generator == mid.generator,
                self.interest == mid.interest,
                self.resident() == mid.resident(),
                forall|k: u64|
                    old(self).resident().contains_key(k) ==> #[trigger] self.resident()
                        .contains_key(k),
                out@.len() == j,
                forall|m: int| 0 <= m < j ==> (#[trigger] out@[m]).0 == dirty@[m],
                forall|m: int|
                    0 <= m < out@.len() ==> self.resident().contains_key(
                        spec_pos_key((#[trigger] out@[m]).0),
                    ) && out@[m].1@ == self.resident()[spec_pos_key(out@[m].0)]@ && out@[m].2@
                        == self.interested_in(spec_pos_key(out@[m].0)),
            decreases dn - j,
        {
            let pos = dirty[j];
            match self.chunks.get_chunk(pos) {
                Some(chunk) => {
                    let copy = chunk.duplicate();
                    let tokens = self.interested(pos.key());
                    out.push((pos, copy, tokens));
                },
                None => {
                    proof {
                        assert(mid.resident().contains_key(spec_pos_key(mid.dirty_list()[
                        j as int])));
                        assert(false);
                    }
                },
            }
            j = j + 1;
        }
        proof {
            assert(out@.len() == mid.dirty_list().len());
            assert(dirty_orig == old(self).dirty_list());
            assert(out@.len() >= dirty_orig.len());
            assert forall|i: int|
                0 <= i < old(self).dirty_list().len() implies (#[trigger] out@[i]).0 == old(
                self,
            ).dirty_list()[i] by {
                assert(dirty_orig[i] == old(self).dirty_list()[i]);
                assert(mid.dirty_list()[i] == dirty_orig[i]);
            }
            assert forall|k: u64|
                self.resident().contains_key(k) && !old(self).resident().contains_key(
                    k,
                ) implies exists|m: int|
                0 <= m < out@.len() && spec_pos_key((#[trigger] out@[m]).0) == k by {
                assert(mid.resident().contains_key(k));
                let m = choose|m: int|
                    0 <= m < n && (#[trigger] drained[m]).1 is Some && spec_pos_key(drained[m].0)
                        == k;
                assert(mid.dirty_list().contains(drained[m].0));
                let w = choose|w: int|
                    0 <= w < mid.dirty_list().len() && mid.dirty_list()[w] == drained[m].0;
                assert((out@[w]).0 == drained[m].0);
            }
            assert forall|k: u64|
                old(self).pending().contains(k) && !(#[trigger] self.pending().contains(
                    k,
                )) implies (exists|m: int|
                0 <= m < out@.len() && spec_pos_key((#[trigger] out@[m]).0) == k) || (exists|
                m: int,
            |
                0 <= m < failed@.len() && spec_pos_key(#[trigger] failed@[m]) == k) by {
                assert(self.pending() == mid.pending());
                let m = choose|m: int|
                    0 <= m < drained.len() && spec_pos_key((#[trigger] drained[m]).0) == k;
                if drained[m].1 is Some {
                    assert(mid.dirty_list().contains(drained[m].0));
                    let w = choose|w: int|
                        0 <= w < mid.dirty_list().len() && mid.dirty_list()[w] == drained[m].0;
                    assert((out@[w]).0 == drained[m].0);
                    assert(spec_pos_key(out@[w].0) == k);
                } else {
                    let w = choose|w: int| 0 <= w < failed@.len() && failed@[w] == drained[m].0;
                    assert(spec_pos_key(failed@[w]) == k);
                }
            }
            assert forall|k: u64| #[trigger] self.interested_in(k) == old(self).interested_in(
                k,
            ) by {
                assert(self.interest == old(self).interest);
            }
        }
        let handed = (out, failed);
        proof {
            assert forall|k: u64|
                self.resident().contains_key(k) && !old(self).resident().contains_key(
                    k,
                ) implies exists|m: int|
                0 <= m < handed.0@.len() && spec_pos_key((#[trigger] handed.0@[m]).0) == k by {
                let w = choose|m: int|
                    0 <= m < handed.0@.len() && spec_pos_key((#[trigger] handed.0@[m]).0) == k;
                assert(spec_pos_key((handed.0@[w]).0) == k);
            }
            assert forall|k: u64|
                old(self).pending().contains(k) && !(#[trigger] self.pending().contains(
                    k,
                )) implies (exists|m: int|
                0 <= m < handed.0@.len() && spec_pos_key((#[trigger] handed.0@[m]).0) == k) || (
            exists|m: int|
                0 <= m < handed.1@.len() && spec_pos_key(#[trigger] handed.1@[m]) == k) by {
                if exists|m: int|
                    0 <= m < handed.0@.len() && spec_pos_key((#[trigger] handed.0@[m]).0) == k {
                } else {
                    let w = choose|m: int|
                        0 <= m < handed.1@.len() && spec_pos_key(#[trigger] handed.1@[m]) == k;
                    assert(spec_pos_key(handed.1@[w]) == k);
                }
            }
        }
        handed
    }

    /// Replaces one block of a resident chunk: the gameplay mutation that
    /// marks the chunk dirty for re-sending.
    pub fn set_block(
        &mut self,
        pos: ChunkPos,
        x: usize,
        y: usize,
        block: crate::chunk::Block,
    ) -> (r: bool)
        requires
            old(self).wf(),
            x < crate::chunk::CHUNK_SIZE,
            y < crate::chunk::CHUNK_SIZE,
        ensures
            final(self).wf(),
            r == old(self).resident().contains_key(spec_pos_key(pos)),
            final(self).pending() == old(self).pending(),
            r ==> final(self).resident()[spec_pos_key(pos)]@ == old(self).resident()[spec_pos_key(
                pos,
            )]@.update(crate::chunk::spec_cell(x as int, y as int), block),
    {
        let r = self.chunks.set_block(pos, x, y, block);
        proof {
            assert(self.pending() == old(self).pending());
            if !r {
                assert(self.resident() == old(self).resident());
                assert(self.dirty_list() == old(self).dirty_list());
                assert forall|k: u64|
                    self.pending().contains(k) implies !(#[trigger] self.resident().contains_key(
                    k,
                )) by {
                    assert(old(self).pending().contains(k));
                }
                assert forall|m: int|
                    0 <= m < self.dirty_list().len() implies self.resident().contains_key(
                    spec_pos_key(#[trigger] self.dirty_list()[m]),
                ) by {
                    assert(old(self).resident().contains_key(
                        spec_pos_key(old(self).dirty_list()[m]),
                    ));
                }
            }
            if r {
                assert forall|m: int|
                    0 <= m < self.dirty_list().len() implies self.resident().contains_key(
                    spec_pos_key(#[trigger] self.dirty_list()[m]),
                ) by {
                    if m < old(self).dirty_list().len() {
                        assert(self.dirty_list()[m] == old(self).dirty_list()[m]);
                        assert(old(self).resident().contains_key(
                            spec_pos_key(old(self).dirty_list()[m]),
                        ));
                    } else {
                        assert(self.dirty_list()[m] == pos);
                    }
                }
                assert forall|k: u64|
                    self.pending().contains(k) implies !(#[trigger] self.resident().contains_key(
                    k,
                )) by {
                    if k == spec_pos_key(pos) {
                        assert(old(self).resident().contains_key(k));
                        assert(!old(self).pending().contains(k));
                    } else {
                        assert(!old(self).resident().contains_key(k));
                    }
                }
            }
        }
        r
    }
}

/// With interest keys distinct, the entry at `i` is what `interested_in`
/// resolves its key to.
proof fn lemma_interest_at(w: &ServerWorld, k: u64, i: int)
    requires
        forall|a: int, b: int|
            0 <= a < b < w.interest@.len() ==> (#[trigger] w.interest@[a]).0
                != (#[trigger] w.interest@[b]).0,
        0 <= i < w.interest@.len(),
        w.interest@[i].0 == k,
    ensures
        w.interested_in(k) == w.interest@[i].1@,
{
    assert(exists|m: int| 0 <= m < w.interest@.len() && (#[trigger] w.interest@[m]).0 == k);
    let m = choose|m: int| 0 <= m < w.interest@.len() && (#[trigger] w.interest@[m]).0 == k;
    if m != i {
        if m < i {
            assert(w.interest@[m].0 != w.interest@[i].0);
        } else {
            assert(w.interest@[i].0 != w.interest@[m].0);
        }
    }
}

/// `interested_in` of a key with no entry is empty.
proof fn lemma_interest_missing(w: &ServerWorld, k: u64)
    requires
        forall|m: int| 0 <= m < w.interest@.len() ==> (#[trigger] w.interest@[m]).0 != k,
    ensures
        w.interested_in(k) == Seq::<u32>::empty(),
{
    if exists|m: int| 0 <= m < w.interest@.len() && (#[trigger] w.interest@[m]).0 == k {
        let m = choose|m: int| 0 <= m < w.interest@.len() && (#[trigger] w.interest@[m]).0 == k;
        assert(w.interest@[m].0 != k);
    }
}

/// Pending/resident exclusivity: in a well-formed world no position is ever
/// both awaiting generation and resident in the chunk storage.
pub proof fn lemma_pending_resident_exclusive(w: &ServerWorld, pos: ChunkPos)
    requires
        w.wf(),
    ensures
        !(w.pending().contains(spec_pos_key(pos)) && w.resident().contains_key(spec_pos_key(pos))),
{
}

/// Whether the list holds the token.
fn contains_u32(list: &Vec<u32>, x: u32) -> (r: bool)
    ensures
        r == list@.contains(x),
{
    let n = list.len();
    let mut q: usize = 0;
    while q < n
        invariant
            n == list@.len(),
            0 <= q <= n,
            forall|m: int| 0 <= m < q ==> list@[m] != x,
        decreases n - q,
    {
        if list[q] == x {
            assert(list@[q as int] == x);
            return true;
        }
        q = q + 1;
    }
    false
}

/// A copy of a token list.
fn copy_tokens(list: &Vec<u32>) -> (r: Vec<u32>)
    ensures
        r@ == list@,
{
    let n = list.len();
    let mut out: Vec<u32> = Vec::new();
    let mut q: usize = 0;
    while q < n
        invariant
            n == list@.len(),
            0 <= q <= n,
            out@ == list@.subrange(0, q as int),
        decreases n - q,
    {
        out.push(list[q]);
        proof {
            assert(out@ =~= list@.subrange(0, q + 1 as int));
        }
        q = q + 1;
    }
    proof {
        assert(list@.subrange(0, n as int) =~= list@);
    }
    out
}

/// Which avatar entity each connected player drives.
pub struct PlayerSystem {
    players: Vec<(u32, u128)>,
}

impl PlayerSystem {
    /// The token-to-avatar pairs.
    pub closed spec fn roster(&self) -> Seq<(u32, u128)> {
        self.players@
    }

    pub closed spec fn wf(&self) -> bool {
        forall|i: int, j: int|
            0 <= i < j < self.players@.len() ==> (#[trigger] self.players@[i]).0
                != (#[trigger] self.players@[j]).0
    }

    pub fn new() -> (r: PlayerSystem)
        ensures
            r.wf(),
            r.roster().len() == 0,
    {
        PlayerSystem { players: Vec::new() }
    }

    /// The avatar of `token`, if one is attached.
    pub fn entity_of(&self, token: u32) -> (r: Option<u128>)
        ensures
            r matches Some(e) ==> exists|i: int|
                0 <= i < self.roster().len() && (#[trigger] self.roster()[i]) == (token, e),
            r is None ==> forall|i: int|
                0 <= i < self.roster().len() ==> (#[trigger] self.roster()[i]).0 != token,
    {
        let n = self.players.len();
        let mut i: usize = 0;
        while i < n
            invariant
                n == self.players@.len(),
                0 <= i <= n,
                forall|m: int| 0 <= m < i ==> (#[trigger] self.players@[m]).0 != token,
            decreases n - i,
        {
            if self.players[i].0 == token {
                let e = self.players[i].1;
                proof {
                    assert(self.roster()[i as int] == (token, e));
                }
                return Some(e);
            }
            i = i + 1;
        }
        None
    }

    /// Attaches an avatar to `token`, once: a token that already drives an
    /// avatar keeps it.
    pub fn attach(&mut self, token: u32, entity: u128) -> (r: bool)
        requires
            old(self).wf(),
        ensures
            final(self).wf(),
            r <==> forall|i: int|
                0 <= i < old(self).roster().len() ==> (#[trigger] old(self).roster()[i]).0
                    != token,
            r ==> final(self).roster() == old(self).roster().push((token, entity)),
            !r ==> *final(self) == *old(self),
    {
        let n = self.players.len();
        let mut i: usize = 0;
        while i < n
            invariant
                n == self.players@.len(),
                0 <= i <= n,
                *self == *old(self),
                old(self).wf(),
                forall|m: int| 0 <= m < i ==> (#[trigger] self.players@[m]).0 != token,
            decreases n - i,
        {
            if self.players[i].0 == token {
                proof {
                    assert((old(self).roster()[i as int]).0 == token);
                }
                return false;
            }
            i = i + 1;
        }
        self.players.push((token, entity));
        proof {
            assert forall|a: int, b: int|
                0 <= a < b < self.players@.len() implies (#[trigger] self.players@[a]).0 != (
            #[trigger] self.players@[b]).0 by {
                if b == self.players@.len() - 1 {
                    assert(self.players@[a] == old(self).players@[a]);
                }
            }
        }
        true
    }
}

/// The packet is a one-chunk `Provide` of `pos` holding exactly `blocks`.
pub open spec fn is_provide(p: ServerPacket, pos: ChunkPos, blocks: Seq<crate::chunk::Block>) -> bool {
    match p {
        ServerPacket::Chunk(ServerChunkPacket::Provide(payload)) => payload@.len() == 1
            && payload@[0].0 == pos && payload@[0].1@ == blocks,
        _ => false,
    }
}

/// Some delivered packet provides `pos` with exactly `blocks`.
pub open spec fn provides(
    packets: Seq<ServerPacket>,
    pos: ChunkPos,
    blocks: Seq<crate::chunk::Block>,
) -> bool {
    exists|q: int| 0 <= q < packets.len() && is_provide(#[trigger] packets[q], pos, blocks)
}

/// A reliable one-chunk `Provide` of `pos` sits in the outbound queue, so a
/// flush cannot drop it.
pub open spec fn queued_provide(
    q: Seq<(ServerPacket, PacketDescriptor)>,
    pos: ChunkPos,
    blocks: Seq<crate::chunk::Block>,
) -> bool {
    exists|e: int|
        0 <= e < q.len() && is_provide((#[trigger] q[e]).0, pos, blocks) && q[e].1.priority
            == PacketPriority::Reliable
}

/// A drained chunk request for `pos` from token `t` is accounted for: a
/// one-chunk `Provide` already sits in the flushed output for `t`, or it
/// still sits, reliably queued, with the not-yet-flushed peer that owns `t`
/// (at index `lo` or beyond).
pub open spec fn answered(
    outgoing: Seq<(Token, Vec<ServerPacket>)>,
    peers: Seq<crate::transport::Peer>,
    lo: int,
    t: u32,
    pos: ChunkPos,
    blocks: Seq<crate::chunk::Block>,
) -> bool {
    ||| exists|w: int|
        0 <= w < outgoing.len() && (#[trigger] outgoing[w]).0.raw == t && provides(
            outgoing[w].1@,
            pos,
            blocks,
        )
    ||| exists|pi: int|
        lo <= pi < peers.len() && (#[trigger] peers[pi]).token == t && queued_provide(
            peers[pi].outbound@,
            pos,
            blocks,
        )
}

/// Growing outbound queues at the back keeps every queued answer queued.
proof fn lemma_answers_survive_growth(
    pre: Seq<Peer>,
    post: Seq<Peer>,
    outgoing: Seq<(Token, Vec<ServerPacket>)>,
    lo: int,
    t: u32,
    pos: ChunkPos,
    blocks: Seq<crate::chunk::Block>,
)
    requires
        post.len() == pre.len(),
        forall|pi: int|
            lo <= pi < pre.len() ==> (#[trigger] post[pi]).token == pre[pi].token
                && post[pi].outbound@.len() >= pre[pi].outbound@.len() && (forall|e: int|
                0 <= e < pre[pi].outbound@.len() ==> post[pi].outbound@[e]
                    == #[trigger] pre[pi].outbound@[e]),
        answered(outgoing, pre, lo, t, pos, blocks),
    ensures
        answered(outgoing, post, lo, t, pos, blocks),
{
    if exists|w: int|
        0 <= w < outgoing.len() && (#[trigger] outgoing[w]).0.raw == t && provides(
            outgoing[w].1@,
            pos,
            blocks,
        ) {
    } else {
        let pi = choose|pi: int|
            lo <= pi < pre.len() && (#[trigger] pre[pi]).token == t && queued_provide(
                pre[pi].outbound@,
                pos,
                blocks,
            );
        let e = choose|e: int|
            0 <= e < pre[pi].outbound@.len() && is_provide(
                (#[trigger] pre[pi].outbound@[e]).0,
                pos,
                blocks,
            ) && pre[pi].outbound@[e].1.priority == PacketPriority::Reliable;
        assert(post[pi].outbound@[e] == pre[pi].outbound@[e]);
        assert(queued_provide(post[pi].outbound@, pos, blocks));
    }
}

/// Flushing the peer at `fi` converts its queued answers into delivered
/// ones and leaves every other queued answer in place.
proof fn lemma_flush_step_answers(
    pre: Seq<Peer>,
    post: Seq<Peer>,
    outpre: Seq<(Token, Vec<ServerPacket>)>,
    outpost: Seq<(Token, Vec<ServerPacket>)>,
    entry: (Token, Vec<ServerPacket>),
    fi: int,
    budget: int,
    t: u32,
    pos: ChunkPos,
    blocks: Seq<crate::chunk::Block>,
)
    requires
        0 <= fi < pre.len(),
        post.len() == pre.len(),
        forall|m: int| 0 <= m < pre.len() && m != fi ==> #[trigger] post[m] == pre[m],
        outpost == outpre.push(entry),
        entry.0.raw == pre[fi].token,
        entry.1@ == spec_flush(pre[fi].outbound@, budget).0,
        forall|a: int, b: int|
            0 <= a < b < pre.len() ==> (#[trigger] pre[a]).token != (#[trigger] pre[b]).token,
        answered(outpre, pre, fi, t, pos, blocks),
    ensures
        answered(outpost, post, fi + 1, t, pos, blocks),
{
    if exists|w: int|
        0 <= w < outpre.len() && (#[trigger] outpre[w]).0.raw == t && provides(
            outpre[w].1@,
            pos,
            blocks,
        ) {
        let w = choose|w: int|
            0 <= w < outpre.len() && (#[trigger] outpre[w]).0.raw == t && provides(
                outpre[w].1@,
                pos,
                blocks,
            );
        assert(outpost[w] == outpre[w]);
    } else {
        let pi = choose|pi: int|
            fi <= pi < pre.len() && (#[trigger] pre[pi]).token == t && queued_provide(
                pre[pi].outbound@,
                pos,
                blocks,
            );
        let e = choose|e: int|
            0 <= e < pre[pi].outbound@.len() && is_provide(
                (#[trigger] pre[pi].outbound@[e]).0,
                pos,
                blocks,
            ) && pre[pi].outbound@[e].1.priority == PacketPriority::Reliable;
        if pi == fi {
            lemma_flush_contains_reliable(pre[fi].outbound@, budget, e);
            let q = choose|q: int|
                0 <= q < entry.1@.len() && entry.1@[q] == (#[trigger] pre[fi].outbound@[e]).0;
            assert(is_provide(entry.1@[q], pos, blocks));
            assert(provides(entry.1@, pos, blocks));
            assert((outpost[outpost.len() - 1]) == entry);
        } else {
            assert(post[pi] == pre[pi]);
            assert(queued_provide(post[pi].outbound@, pos, blocks));
        }
    }
}

/// What one authoritative tick hands back to the embedder: each connected
/// peer's flushed packets, and the positions whose generation failed (to be
/// logged; they may be requested again).
pub struct TickOutcome {
    pub outgoing: Vec<(Token, Vec<ServerPacket>)>,
    pub failed_generation: Vec<ChunkPos>,
}

/// What dispatching a chunk request from `token` establishes, judged
/// between the pre- and post-dispatch server states: interest is recorded
/// for every position, missing positions are pending, and every
/// already-resident position has a reliable one-chunk answer queued for the
/// requesting peer.
pub open spec fn request_dispatched(
    preworld: ServerWorld,
    prenet: ServerNetwork,
    postworld: ServerWorld,
    postnet: ServerNetwork,
    token: Token,
    ps: Seq<ChunkPos>,
) -> bool {
    forall|j: int|
        0 <= j < ps.len() ==> {
            let k = spec_pos_key(#[trigger] ps[j]);
            &&& postworld.interested_in(k).contains(token.raw)
            &&& (!preworld.resident().contains_key(k) ==> postworld.pending().contains(k))
            &&& (preworld.resident().contains_key(k) && prenet.connected(token.raw) ==> exists|
                pi: int,
            |
                {
                    &&& 0 <= pi < postnet.peer_list().len()
                    &&& (#[trigger] postnet.peer_list()[pi]).token == token.raw
                    &&& queued_provide(
                        postnet.peer_list()[pi].outbound@,
                        ps[j],
                        preworld.resident()[k]@,
                    )
                })
        }
}

/// The whole authoritative server.
pub struct Rustaria {
    network: ServerNetwork,
    world: ServerWorld,
    entities: EntityWorld,
    player: PlayerSystem,
}

impl Rustaria {
    pub closed spec fn wf(&self) -> bool {
        &&& self.network.wf()
        &&& self.world.wf()
        &&& self.entities.wf()
        &&& self.player.wf()
    }

    /// Establishes an in-process loopback peer.
    pub fn connect_local(&mut self, join: crate::packet::PlayerJoinData) -> (r: Option<Token>)
        requires
            old(self).wf(),
        ensures
            final(self).wf(),
            r matches Some(t) ==> final(self).net_view().connected(t.raw) && !old(
                self,
            ).net_view().connected(t.raw),
    {
        let r = self.network.connect_local(join);
        proof {
            match r {
                Some(t) => {
                    assert(self.network.peer_list()[self.network.peer_list().len() - 1].token
                        == t.raw);
                },
                None => {
                },
            }
        }
        r
    }

    /// Hands a decoded inbound packet to a peer's queue.
    pub fn deliver(&mut self, token: Token, packet: ClientPacket) -> (r: Result<
        (),
        crate::transport::SendError,
    >)
        requires
            old(self).wf(),
        ensures
            final(self).wf(),
            r is Ok <==> old(self).net_view().connected(token.raw),
    {
        self.network.deliver(token, packet)
    }

    /// Opens a remote connection awaiting its handshake.
    pub fn begin_connection(&mut self) -> (r: Option<u64>)
        requires
            old(self).wf(),
        ensures
            final(self).wf(),
    {
        self.network.begin_connection()
    }

    /// Feeds handshake bytes of an establishing remote connection.
    pub fn handshake(&mut self, conn: u64, data: &[u8]) -> (r: crate::transport::HandshakeOutcome)
        requires
            old(self).wf(),
        ensures
            final(self).wf(),
            r matches crate::transport::HandshakeOutcome::Established(t, j)
                ==> final(self).net_view().connected(t.raw),
    {
        let r = self.network.handshake(conn, data);
        proof {
            match r {
                crate::transport::HandshakeOutcome::Established(t, _) => {
                    assert(self.network.peer_list()[self.network.peer_list().len() - 1].token
                        == t.raw);
                },
                _ => {
                },
            }
        }
        r
    }

    /// The transport state.
    pub closed spec fn net_view(&self) -> ServerNetwork {
        self.network
    }

    /// The chunk world.
    pub closed spec fn world_view(&self) -> ServerWorld {
        self.world
    }

    /// The entity world.
    pub closed spec fn entities_view(&self) -> EntityWorld {
        self.entities
    }

    pub fn new(network: ServerNetwork, world: ServerWorld, entities: EntityWorld) -> (r: Rustaria)
        requires
            network.wf(),
            world.wf(),
            entities.wf(),
        ensures
            r.wf(),
            r.net_view() == network,
            r.world_view() == world,
            r.entities_view() == entities,
    {
        Rustaria { network, world, entities, player: PlayerSystem::new() }
    }

    /// One authoritative step: drain the transport,
    /// dispatch each inbound packet to its owning component, advance chunk
    /// generation, integrate entities, and flush every peer's outbound queue
    /// under `budget`. Afterwards every queue is empty; the outcome carries
    /// one entry per connected peer, in connection order, and the positions
    /// whose generation failed. Every drained chunk request ends the tick
    /// with interest recorded and each position resident, pending or
    /// reported failed; positions that were already resident are answered
    /// with a `Provide` in the requesting peer's flushed packets.
    pub fn tick(&mut self, budget: usize) -> (r: TickOutcome)
        requires
            old(self).wf(),
        ensures
            final(self).wf(),
            forall|i: int|
                0 <= i < final(self).net_view().peer_list().len()
                    ==> (#[trigger] final(self).net_view().peer_list()[i]).inbound@.len() == 0
                    && final(self).net_view().peer_list()[i].outbound@.len() == 0,
            r.outgoing@.len() == final(self).net_view().peer_list().len(),
            forall|i: int|
                0 <= i < r.outgoing@.len() ==> (#[trigger] r.outgoing@[i]).0.raw
                    == final(self).net_view().peer_list()[i].token,
            forall|m: int|
                0 <= m < spec_drain(old(self).net_view().peer_list()).len() ==> (match (
                #[trigger] spec_drain(old(self).net_view().peer_list())[m]).1 {
                    ClientPacket::Chunk(ClientChunkPacket::Request(ps)) => forall|j: int|
                        0 <= j < ps@.len() ==> {
                            let k = spec_pos_key(#[trigger] ps@[j]);
                            let t = spec_drain(old(self).net_view().peer_list())[m].0.raw;
                            &&& final(self).world_view().interested_in(k).contains(t)
                            &&& (final(self).world_view().resident().contains_key(k)
                                || final(self).world_view().pending().contains(k) || exists|w: int|
                                0 <= w < r.failed_generation@.len() && spec_pos_key(
                                    #[trigger] r.failed_generation@[w],
                                ) == k)
                            &&& (old(self).world_view().resident().contains_key(k)
                                ==> exists|w: int|
                                0 <= w < r.outgoing@.len() && (#[trigger] r.outgoing@[w]).0.raw
                                    == t && provides(
                                    r.outgoing@[w].1@,
                                    ps@[j],
                                    old(self).world_view().resident()[k]@,
                                ))
                        },
                    _ => true,
                }),
    {
        let ghost peers0 = self.network.peer_list();
        let ghost drained0 = spec_drain(peers0);
        let ghost world0 = self.world;
        let mut inbound = self.network.poll();
        let ghost net1 = self.network;
        let n = inbound.len();
        let mut i: usize = 0;
        while i < n
            invariant
                n == drained0.len(),
                0 <= i <= n,
                inbound@ == drained0.subrange(i as int, n as int),
                self.wf(),
                peers0 == old(self).net_view().peer_list(),
                drained0 == spec_drain(peers0),
                world0 == old(self).world,
                self.network.peer_list().len() == peers0.len(),
                forall|pi: int|
                    0 <= pi < peers0.len() ==> {
                        let now = #[trigger] self.network.peer_list()[pi];
                        &&& now.token == peers0[pi].token
                        &&& now.inbound@.len() == 0
                    },
                self.world.resident() == world0.resident(),
                forall|k: u64, t: u32|
                    world0.interested_in(k).contains(t) ==> self.world.interested_in(k).contains(
                        t,
                    ),
                forall|m: int|
                    0 <= m < i ==> (match (#[trigger] drained0[m]).1 {
                        ClientPacket::Chunk(ClientChunkPacket::Request(ps)) => forall|j: int|
                            0 <= j < ps@.len() ==> {
                                let k = spec_pos_key(#[trigger] ps@[j]);
                                let t = drained0[m].0.raw;
                                &&& self.world.interested_in(k).contains(t)
                                &&& (!world0.resident().contains_key(k)
                                    ==> self.world.pending().contains(k))
                                &&& (world0.resident().contains_key(k) ==> answered(
                                    Seq::empty(),
                                    self.network.peer_list(),
                                    0,
                                    t,
                                    ps@[j],
                                    world0.resident()[k]@,
                                ))
                            },
                        _ => true,
                    }),
            decreases n - i,
        {
            let (token, packet) = inbound.remove(0);
            let ghost snap = *self;
            proof {
                assert((token, packet) == drained0[i as int]);
                assert(drained0.subrange(i as int, n as int).remove(0) =~= drained0.subrange(
                    i + 1 as int,
                    n as int,
                ));
                crate::transport::lemma_drain_tokens(peers0, i as int);
                let w0 = choose|w0: int|
                    0 <= w0 < peers0.len() && (#[trigger] peers0[w0]).token == token.raw;
                assert((snap.net_view().peer_list()[w0]).token == token.raw);
                assert(snap.net_view().connected(token.raw));
            }
            self.dispatch(token, packet);
            proof {
                assert forall|m: int| 0 <= m < i + 1 implies (match (
                #[trigger] drained0[m]).1 {
                    ClientPacket::Chunk(ClientChunkPacket::Request(ps)) => forall|j: int|
                        0 <= j < ps@.len() ==> {
                            let k = spec_pos_key(#[trigger] ps@[j]);
                            let t = drained0[m].0.raw;
                            &&& self.world.interested_in(k).contains(t)
                            &&& (!world0.resident().contains_key(k)
                                ==> self.world.pending().contains(k))
                            &&& (world0.resident().contains_key(k) ==> answered(
                                Seq::empty(),
                                self.network.peer_list(),
                                0,
                                t,
                                ps@[j],
                                world0.resident()[k]@,
                            ))
                        },
                    _ => true,
                }) by {
                    match drained0[m].1 {
                        ClientPacket::Chunk(ClientChunkPacket::Request(ps)) => {
                            assert forall|j: int| 0 <= j < ps@.len() implies {
                                let k = spec_pos_key(#[trigger] ps@[j]);
                                let t = drained0[m].0.raw;
                                &&& self.world.interested_in(k).contains(t)
                                &&& (!world0.resident().contains_key(k)
                                    ==> self.world.pending().contains(k))
                                &&& (world0.resident().contains_key(k) ==> answered(
                                    Seq::empty(),
                                    self.network.peer_list(),
                                    0,
                                    t,
                                    ps@[j],
                                    world0.resident()[k]@,
                                ))
                            } by {
                                let k = spec_pos_key(ps@[j]);
                                let t = drained0[m].0.raw;
                                if m < i {
                                    assert(snap.world.interested_in(k).contains(t));
                                    assert(!world0.resident().contains_key(k)
                                        ==> snap.world.pending().contains(k));
                                    if world0.resident().contains_key(k) {
                                        let pi = choose|pi: int|
                                            0 <= pi < snap.net_view().peer_list().len() && (
                                            #[trigger] snap.net_view().peer_list()[pi]).token == t
                                                && queued_provide(
                                                snap.net_view().peer_list()[pi].outbound@,
                                                ps@[j],
                                                world0.resident()[k]@,
                                            );
                                        let qpre = snap.net_view().peer_list()[pi].outbound@;
                                        let e = choose|e: int|
                                            0 <= e < qpre.len() && is_provide(
                                                (#[trigger] qpre[e]).0,
                                                ps@[j],
                                                world0.resident()[k]@,
                                            ) && qpre[e].1.priority == PacketPriority::Reliable;
                                        assert(self.network.peer_list()[pi].outbound@[e]
                                            == qpre[e]);
                                        assert(queued_provide(
                                            self.network.peer_list()[pi].outbound@,
                                            ps@[j],
                                            world0.resident()[k]@,
                                        ));
                                    }
                                } else {
                                    assert(snap.world.resident() == world0.resident());
                                    if world0.resident().contains_key(k) {
                                        assert(snap.net_view().connected(token.raw));
                                        let pi = choose|pi: int|
                                            {
                                                &&& 0 <= pi < self.network.peer_list().len()
                                                &&& (
                                                #[trigger] self.network.peer_list()[pi]).token
                                                    == token.raw
                                                &&& queued_provide(
                                                    self.network.peer_list()[pi].outbound@,
                                                    ps@[j],
                                                    snap.world.resident()[k]@,
                                                )
                                            };
                                        assert(queued_provide(
                                            self.network.peer_list()[pi].outbound@,
                                            ps@[j],
                                            world0.resident()[k]@,
                                        ));
                                    }
                                }
                            }
                        },
                        _ => {
                        },
                    }
                }
            }
            i = i + 1;
        }

        let ghost mid1 = *self;
        let (finished, failed) = self.world.tick();
        let ghost finishedseq = finished@;
        let ghost failedseq = failed@;
        let ghost midw = self.world;
        let fn_ = finished.len();
        let mut finished = finished;
        let mut k: usize = 0;
        while k < fn_
            invariant
                0 <= k <= fn_,
                fn_ == finished@.len() + k,
                self.wf(),
                self.world == midw,
                self.network.peer_list().len() == peers0.len(),
                forall|pi: int|
                    0 <= pi < peers0.len() ==> {
                        let now = #[trigger] self.network.peer_list()[pi];
                        &&& now.token == peers0[pi].token
                        &&& now.inbound@.len() == 0
                    },
                forall|m: int|
                    0 <= m < n ==> (match (#[trigger] drained0[m]).1 {
                        ClientPacket::Chunk(ClientChunkPacket::Request(ps)) => forall|j: int|
                            0 <= j < ps@.len() ==> world0.resident().contains_key(
                                spec_pos_key(#[trigger] ps@[j]),
                            ) ==> answered(
                                Seq::empty(),
                                self.network.peer_list(),
                                0,
                                drained0[m].0.raw,
                                ps@[j],
                                world0.resident()[spec_pos_key(ps@[j])]@,
                            ),
                        _ => true,
                    }),
            decreases fn_ - k,
        {
            let (pos, chunk, tokens) = finished.remove(0);
            let tn = tokens.len();
            let mut chunk = chunk;
            let mut t: usize = 0;
            while t < tn
                invariant
                    0 <= t <= tn,
                    tn == tokens@.len(),
                    self.wf(),
                    self.world == midw,
                    self.network.peer_list().len() == peers0.len(),
                    forall|pi: int|
                        0 <= pi < peers0.len() ==> {
                            let now = #[trigger] self.network.peer_list()[pi];
                            &&& now.token == peers0[pi].token
                            &&& now.inbound@.len() == 0
                        },
                    forall|m: int|
                        0 <= m < n ==> (match (#[trigger] drained0[m]).1 {
                            ClientPacket::Chunk(ClientChunkPacket::Request(ps)) => forall|j: int|
                                0 <= j < ps@.len() ==> world0.resident().contains_key(
                                    spec_pos_key(#[trigger] ps@[j]),
                                ) ==> answered(
                                    Seq::empty(),
                                    self.network.peer_list(),
                                    0,
                                    drained0[m].0.raw,
                                    ps@[j],
                                    world0.resident()[spec_pos_key(ps@[j])]@,
                                ),
                            _ => true,
                        }),
                decreases tn - t,
            {
                let ghost netpre = self.network;
                let copy = chunk.duplicate();
                let mut payload: Vec<(ChunkPos, Chunk)> = Vec::new();
                payload.push((pos, copy));
                let reliable = PacketDescriptor {
                    priority: PacketPriority::Reliable,
                    order: PacketOrder::Sequenced,
                };
                let sendres = self.network.send(
                    Token { raw: tokens[t] },
                    ServerPacket::Chunk(ServerChunkPacket::Provide(payload)),
                    reliable,
                );
                proof {
                    assert(self.network.peer_list().len() == netpre.peer_list().len());
                    assert forall|pi: int| 0 <= pi < netpre.peer_list().len() implies {
                        let now = #[trigger] self.network.peer_list()[pi];
                        let was = netpre.peer_list()[pi];
                        &&& now.token == was.token
                        &&& now.inbound == was.inbound
                        &&& now.outbound@.len() >= was.outbound@.len()
                        &&& forall|e: int|
                            0 <= e < was.outbound@.len() ==> now.outbound@[e]
                                == #[trigger] was.outbound@[e]
                    } by {
                        match sendres {
                            Ok(_) => {
                                let si = choose|si: int|
                                    {
                                        &&& 0 <= si < netpre.peer_list().len()
                                        &&& (#[trigger] netpre.peer_list()[si]).token
                                            == tokens@[t as int]
                                        &&& self.network.peer_list()[si].outbound@
                                            == netpre.peer_list()[si].outbound@.push(
                                            self.network.peer_list()[si].outbound@.last(),
                                        )
                                        &&& forall|m2: int|
                                            0 <= m2 < netpre.peer_list().len() && m2 != si
                                                ==> self.network.peer_list()[m2]
                                                == netpre.peer_list()[m2]
                                    };
                                if pi != si {
                                    assert(self.network.peer_list()[pi]
                                        == netpre.peer_list()[pi]);
                                }
                            },
                            Err(_) => {
                                assert(self.network == netpre);
                            },
                        }
                    }
                    assert forall|m: int| 0 <= m < n implies (match (
                    #[trigger] drained0[m]).1 {
                        ClientPacket::Chunk(ClientChunkPacket::Request(ps)) => forall|j: int|
                            0 <= j < ps@.len() ==> world0.resident().contains_key(
                                spec_pos_key(#[trigger] ps@[j]),
                            ) ==> answered(
                                Seq::empty(),
                                self.network.peer_list(),
                                0,
                                drained0[m].0.raw,
                                ps@[j],
                                world0.resident()[spec_pos_key(ps@[j])]@,
                            ),
                        _ => true,
                    }) by {
                        match drained0[m].1 {
                            ClientPacket::Chunk(ClientChunkPacket::Request(ps)) => {
                                assert forall|j: int|
                                    0 <= j < ps@.len() && world0.resident().contains_key(
                                        spec_pos_key(#[trigger] ps@[j]),
                                    ) implies answered(
                                    Seq::empty(),
                                    self.network.peer_list(),
                                    0,
                                    drained0[m].0.raw,
                                    ps@[j],
                                    world0.resident()[spec_pos_key(ps@[j])]@,
                                ) by {
                                    lemma_answers_survive_growth(
                                        netpre.peer_list(),
                                        self.network.peer_list(),
                                        Seq::empty(),
                                        0,
                                        drained0[m].0.raw,
                                        ps@[j],
                                        world0.resident()[spec_pos_key(ps@[j])]@,
                                    );
                                }
                            },
                            _ => {
                            },
                        }
                    }
                }
                t = t + 1;
            }
            k = k + 1;
        }

        self.entities.tick(self.world.chunk_storage());

        let tokens = self.network.tokens();
        let tn = tokens.len();
        let mut out: Vec<(Token, Vec<ServerPacket>)> = Vec::new();
        let mut t: usize = 0;
        while t < tn
            invariant
                0 <= t <= tn,
                tn == tokens@.len(),
                self.wf(),
                self.world == midw,
                failed@ == failedseq,
                tn == self.network.peer_list().len(),
                tn == peers0.len(),
                out@.len() == t,
                forall|m: int|
                    0 <= m < tn ==> (#[trigger] tokens@[m]).raw
                        == self.network.peer_list()[m].token,
                forall|pi: int|
                    0 <= pi < peers0.len() ==> (#[trigger] self.network.peer_list()[pi]).token
                        == peers0[pi].token,
                forall|m: int|
                    0 <= m < self.network.peer_list().len()
                        ==> (#[trigger] self.network.peer_list()[m]).inbound@.len() == 0,
                forall|m: int|
                    0 <= m < t ==> (#[trigger] self.network.peer_list()[m]).outbound@.len() == 0,
                forall|m: int|
                    0 <= m < t ==> (#[trigger] out@[m]).0.raw == self.network.peer_list()[m].token,
                forall|m: int|
                    0 <= m < n ==> (match (#[trigger] drained0[m]).1 {
                        ClientPacket::Chunk(ClientChunkPacket::Request(ps)) => forall|j: int|
                            0 <= j < ps@.len() ==> world0.resident().contains_key(
                                spec_pos_key(#[trigger] ps@[j]),
                            ) ==> answered(
                                out@,
                                self.network.peer_list(),
                                t as int,
                                drained0[m].0.raw,
                                ps@[j],
                                world0.resident()[spec_pos_key(ps@[j])]@,
                            ),
                        _ => true,
                    }),
            decreases tn - t,
        {
            let ghost netpre = self.network;
            let ghost outpre = out@;
            match self.network.flush(tokens[t], budget) {
                Ok(packets) => {
                    proof {
                        let fi = choose|fi: int|
                            {
                                &&& 0 <= fi < netpre.peer_list().len()
                                &&& (#[trigger] netpre.peer_list()[fi]).token
                                    == tokens@[t as int].raw
                                &&& packets@ == spec_flush(
                                    netpre.peer_list()[fi].outbound@,
                                    budget as int,
                                ).0
                                &&& self.network.peer_list().len() == netpre.peer_list().len()
                                &&& self.network.peer_list()[fi].outbound@.len() == 0
                                &&& self.network.peer_list()[fi].token
                                    == netpre.peer_list()[fi].token
                                &&& self.network.peer_list()[fi].inbound
                                    == netpre.peer_list()[fi].inbound
                                &&& self.network.peer_list()[fi].join == netpre.peer_list()[fi].join
                                &&& forall|m: int|
                                    0 <= m < netpre.peer_list().len() && m != fi
                                        ==> self.network.peer_list()[m] == netpre.peer_list()[m]
                            };
                        if fi != t {
                            if fi < t {
                                netpre.lemma_distinct_tokens(fi, t as int);
                            } else {
                                netpre.lemma_distinct_tokens(t as int, fi);
                            }
                            assert(false);
                        }
                    }
                    let ghost entry = (tokens@[t as int], packets);
                    out.push((tokens[t], packets));
                    proof {
                        assert(out@ == outpre.push(entry));
                        assert forall|a: int, b: int|
                            0 <= a < b < netpre.peer_list().len() implies (#[trigger] netpre
                            .peer_list()[a]).token != (#[trigger] netpre.peer_list()[b]).token by {
                            netpre.lemma_distinct_tokens(a, b);
                        }
                        assert forall|m: int| 0 <= m < n implies (match (
                        #[trigger] drained0[m]).1 {
                            ClientPacket::Chunk(ClientChunkPacket::Request(ps)) => forall|j: int|
                                0 <= j < ps@.len() ==> world0.resident().contains_key(
                                    spec_pos_key(#[trigger] ps@[j]),
                                ) ==> answered(
                                    out@,
                                    self.network.peer_list(),
                                    t + 1 as int,
                                    drained0[m].0.raw,
                                    ps@[j],
                                    world0.resident()[spec_pos_key(ps@[j])]@,
                                ),
                            _ => true,
                        }) by {
                            match drained0[m].1 {
                                ClientPacket::Chunk(ClientChunkPacket::Request(ps)) => {
                                    assert forall|j: int|
                                        0 <= j < ps@.len() && world0.resident().contains_key(
                                            spec_pos_key(#[trigger] ps@[j]),
                                        ) implies answered(
                                        out@,
                                        self.network.peer_list(),
                                        t + 1 as int,
                                        drained0[m].0.raw,
                                        ps@[j],
                                        world0.resident()[spec_pos_key(ps@[j])]@,
                                    ) by {
                                        lemma_flush_step_answers(
                                            netpre.peer_list(),
                                            self.network.peer_list(),
                                            outpre,
                                            out@,
                                            entry,
                                            t as int,
                                            budget as int,
                                            drained0[m].0.raw,
                                            ps@[j],
                                            world0.resident()[spec_pos_key(ps@[j])]@,
                                        );
                                    }
                                },
                                _ => {
                                },
                            }
                        }
                    }
                },
                Err(_) => {
                    proof {
                        assert((netpre.peer_list()[t as int]).token == tokens@[t as int].raw);
                        assert(netpre.connected(tokens@[t as int].raw));
                        assert(false);
                    }
                },
            }
            t = t + 1;
        }
        let outcome = TickOutcome { outgoing: out, failed_generation: failed };
        proof {
            assert(outcome.outgoing@.len() == self.network.peer_list().len());
            assert forall|m: int| 0 <= m < drained0.len() implies (match (
            #[trigger] drained0[m]).1 {
                ClientPacket::Chunk(ClientChunkPacket::Request(ps)) => forall|j: int|
                    0 <= j < ps@.len() ==> {
                        let kk = spec_pos_key(#[trigger] ps@[j]);
                        let tt = drained0[m].0.raw;
                        &&& self.world.interested_in(kk).contains(tt)
                        &&& (self.world.resident().contains_key(kk)
                            || self.world.pending().contains(kk) || exists|w: int|
                            0 <= w < outcome.failed_generation@.len() && spec_pos_key(
                                #[trigger] outcome.failed_generation@[w],
                            ) == kk)
                        &&& (world0.resident().contains_key(kk) ==> exists|w: int|
                            0 <= w < outcome.outgoing@.len() && (#[trigger] outcome.outgoing@[w]).0
                                .raw == tt && provides(
                                outcome.outgoing@[w].1@,
                                ps@[j],
                                world0.resident()[kk]@,
                            ))
                    },
                _ => true,
            }) by {
                match drained0[m].1 {
                    ClientPacket::Chunk(ClientChunkPacket::Request(ps)) => {
                        assert forall|j: int| 0 <= j < ps@.len() implies {
                            let kk = spec_pos_key(#[trigger] ps@[j]);
                            let tt = drained0[m].0.raw;
                            &&& self.world.interested_in(kk).contains(tt)
                            &&& (self.world.resident().contains_key(kk)
                                || self.world.pending().contains(kk) || exists|w: int|
                                0 <= w < outcome.failed_generation@.len() && spec_pos_key(
                                    #[trigger] outcome.failed_generation@[w],
                                ) == kk)
                            &&& (world0.resident().contains_key(kk) ==> exists|w: int|
                                0 <= w < outcome.outgoing@.len() && (
                                #[trigger] outcome.outgoing@[w]).0.raw == tt && provides(
                                    outcome.outgoing@[w].1@,
                                    ps@[j],
                                    world0.resident()[kk]@,
                                ))
                        } by {
                            let kk = spec_pos_key(ps@[j]);
                            let tt = drained0[m].0.raw;
                            assert(mid1.world.interested_in(kk).contains(tt));
                            assert(midw.interested_in(kk) == mid1.world.interested_in(kk));
                            assert(self.world == midw);
                            assert(outcome.failed_generation@ == failedseq);
                            if !world0.resident().contains_key(kk) {
                                assert(mid1.world.pending().contains(kk));
                                if !midw.pending().contains(kk) && !midw.resident().contains_key(
                                    kk,
                                ) {
                                    if exists|w: int|
                                        0 <= w < finishedseq.len() && spec_pos_key(
                                            (#[trigger] finishedseq[w]).0,
                                        ) == kk {
                                        let w = choose|w: int|
                                            0 <= w < finishedseq.len() && spec_pos_key(
                                                (#[trigger] finishedseq[w]).0,
                                            ) == kk;
                                        assert(midw.resident().contains_key(
                                            spec_pos_key(finishedseq[w].0),
                                        ));
                                        assert(false);
                                    }
                                    let w = choose|w: int|
                                        0 <= w < failedseq.len() && spec_pos_key(
                                            #[trigger] failedseq[w],
                                        ) == kk;
                                    assert(spec_pos_key(outcome.failed_generation@[w]) == kk);
                                }
                            } else {
                                assert(mid1.world.resident() == world0.resident());
                                assert(midw.resident().contains_key(kk));
                            }
                            if world0.resident().contains_key(kk) {
                                assert(answered(
                                    out@,
                                    self.network.peer_list(),
                                    tn as int,
                                    tt,
                                    ps@[j],
                                    world0.resident()[kk]@,
                                ));
                                let w = choose|w: int|
                                    0 <= w < out@.len() && (#[trigger] out@[w]).0.raw == tt
                                        && provides(out@[w].1@, ps@[j], world0.resident()[kk]@);
                                assert((outcome.outgoing@[w]).0.raw == tt);
                            }
                        }
                    },
                    _ => {
                    },
                }
            }
        }
        outcome
    }

    /// Dispatches one inbound packet to its owning component. Peer queues
    /// only grow at the back (inbound, token and join are untouched); the
    /// world's resident set is untouched; interest and pending only grow.
    /// A chunk request registers interest in every position, makes the
    /// missing ones pending, and queues a reliable one-chunk answer for each
    /// already-resident one.
    #[verifier::rlimit(80)]
    fn dispatch(&mut self, token: Token, packet: ClientPacket)
        requires
            old(self).wf(),
        ensures
            final(self).wf(),
            final(self).net_view().peer_list().len() == old(self).net_view().peer_list().len(),
            forall|pi: int|
                0 <= pi < old(self).net_view().peer_list().len() ==> {
                    let now = #[trigger] final(self).net_view().peer_list()[pi];
                    let was = old(self).net_view().peer_list()[pi];
                    &&& now.token == was.token
                    &&& now.inbound == was.inbound
                    &&& now.join == was.join
                    &&& now.outbound@.len() >= was.outbound@.len()
                    &&& forall|e: int|
                        0 <= e < was.outbound@.len() ==> now.outbound@[e] == #[trigger] was.outbound@[e]
                },
            final(self).world_view().resident() == old(self).world_view().resident(),
            forall|k: u64, t: u32|
                old(self).world_view().interested_in(k).contains(t)
                    ==> final(self).world_view().interested_in(k).contains(t),
            forall|k: u64|
                old(self).world_view().pending().contains(k)
                    ==> final(self).world_view().pending().contains(k),
            packet matches ClientPacket::Chunk(ClientChunkPacket::Request(ps))
                ==> request_dispatched(
                old(self).world_view(),
                old(self).net_view(),
                final(self).world_view(),
                final(self).net_view(),
                token,
                ps@,
            ),
    {
        let reliable = PacketDescriptor {
            priority: PacketPriority::Reliable,
            order: PacketOrder::Sequenced,
        };
        let ghost packet0 = packet;
        match packet {
            ClientPacket::Chunk(ClientChunkPacket::Request(positions)) => {
                proof {
                    assert(packet0 matches ClientPacket::Chunk(ClientChunkPacket::Request(ps))
                        && ps@ == positions@);
                }
                let ghost net0 = self.network;
                let ghost world0 = self.world;
                let ready = self.world.handle_request(token, &positions);
                let ghost world1 = self.world;
                let ghost readyseq = ready@;
                let rn = ready.len();
                let mut ready = ready;
                let mut k: usize = 0;
                while k < rn
                    invariant
                        0 <= k <= rn,
                        rn == readyseq.len(),
                        ready@ == readyseq.subrange(k as int, rn as int),
                        self.wf(),
                        self.world == world1,
                        self.network.peer_list().len() == net0.peer_list().len(),
                        forall|pi: int|
                            0 <= pi < net0.peer_list().len() ==> {
                                let now = #[trigger] self.network.peer_list()[pi];
                                let was = net0.peer_list()[pi];
                                &&& now.token == was.token
                                &&& now.inbound == was.inbound
                                &&& now.join == was.join
                                &&& now.outbound@.len() >= was.outbound@.len()
                                &&& forall|e: int|
                                    0 <= e < was.outbound@.len() ==> now.outbound@[e]
                                        == #[trigger] was.outbound@[e]
                            },
                        forall|w: int|
                            0 <= w < k && net0.connected(token.raw) ==> exists|pi: int|
                                {
                                    &&& 0 <= pi < self.network.peer_list().len()
                                    &&& (#[trigger] self.network.peer_list()[pi]).token
                                        == token.raw
                                    &&& queued_provide(
                                        self.network.peer_list()[pi].outbound@,
                                        (#[trigger] readyseq[w]).0,
                                        readyseq[w].1@,
                                    )
                                },
                    decreases rn - k,
                {
                    let (pos, chunk) = ready.remove(0);
                    proof {
                        assert((pos, chunk) == readyseq[k as int]);
                        assert(readyseq.subrange(k as int, rn as int).remove(0) =~= readyseq
                            .subrange(k + 1 as int, rn as int));
                    }
                    let ghost net1 = self.network;
                    let ghost sentblocks = chunk@;
                    let mut payload: Vec<(ChunkPos, Chunk)> = Vec::new();
                    payload.push((pos, chunk));
                    let packet_out = ServerPacket::Chunk(ServerChunkPacket::Provide(payload));
                    let ghost sent = packet_out;
                    proof {
                        assert(is_provide(sent, pos, sentblocks));
                    }
                    let outcome = self.network.send(token, packet_out, reliable);
                    proof {
                        assert forall|pi: int| 0 <= pi < net1.peer_list().len() implies {
                            let now = #[trigger] self.network.peer_list()[pi];
                            let was = net1.peer_list()[pi];
                            &&& now.token == was.token
                            &&& now.inbound == was.inbound
                            &&& now.join == was.join
                            &&& now.outbound@.len() >= was.outbound@.len()
                            &&& forall|e: int|
                                0 <= e < was.outbound@.len() ==> now.outbound@[e]
                                    == #[trigger] was.outbound@[e]
                        } by {
                            if outcome is Ok {
                                let i = choose|i: int|
                                    {
                                        &&& 0 <= i < net1.peer_list().len()
                                        &&& (#[trigger] net1.peer_list()[i]).token == token.raw
                                        &&& self.network.peer_list().len()
                                            == net1.peer_list().len()
                                        &&& self.network.peer_list()[i].outbound@
                                            == net1.peer_list()[i].outbound@.push(
                                            (sent, reliable),
                                        )
                                        &&& self.network.peer_list()[i].token
                                            == net1.peer_list()[i].token
                                        &&& self.network.peer_list()[i].inbound
                                            == net1.peer_list()[i].inbound
                                        &&& self.network.peer_list()[i].join
                                            == net1.peer_list()[i].join
                                        &&& forall|m: int|
                                            0 <= m < net1.peer_list().len() && m != i
                                                ==> self.network.peer_list()[m]
                                                == net1.peer_list()[m]
                                    };
                                if pi != i {
                                    assert(self.network.peer_list()[pi] == net1.peer_list()[pi]);
                                }
                            }
                        }
                        if net0.connected(token.raw) {
                            assert(net1.connected(token.raw)) by {
                                let i0 = choose|i0: int|
                                    0 <= i0 < net0.peer_list().len() && (#[trigger] net0
                                        .peer_list()[i0]).token == token.raw;
                                assert((net1.peer_list()[i0]).token == token.raw);
                            }
                            assert(outcome is Ok);
                            let i = choose|i: int|
                                {
                                    &&& 0 <= i < net1.peer_list().len()
                                    &&& (#[trigger] net1.peer_list()[i]).token == token.raw
                                    &&& self.network.peer_list().len() == net1.peer_list().len()
                                    &&& self.network.peer_list()[i].outbound@
                                        == net1.peer_list()[i].outbound@.push((sent, reliable))
                                    &&& self.network.peer_list()[i].token
                                        == net1.peer_list()[i].token
                                    &&& self.network.peer_list()[i].inbound
                                        == net1.peer_list()[i].inbound
                                    &&& self.network.peer_list()[i].join
                                        == net1.peer_list()[i].join
                                    &&& forall|m: int|
                                        0 <= m < net1.peer_list().len() && m != i
                                            ==> self.network.peer_list()[m] == net1.peer_list()[m]
                                };
                            assert(queued_provide(
                                self.network.peer_list()[i].outbound@,
                                pos,
                                sentblocks,
                            )) by {
                                let q = self.network.peer_list()[i].outbound@;
                                assert(q[q.len() - 1] == (sent, reliable));
                                assert(is_provide((q[q.len() - 1]).0, pos, sentblocks));
                            }
                            assert forall|w: int| 0 <= w < k + 1 implies exists|pi: int|
                                {
                                    &&& 0 <= pi < self.network.peer_list().len()
                                    &&& (#[trigger] self.network.peer_list()[pi]).token
                                        == token.raw
                                    &&& queued_provide(
                                        self.network.peer_list()[pi].outbound@,
                                        (#[trigger] readyseq[w]).0,
                                        readyseq[w].1@,
                                    )
                                } by {
                                if w < k {
                                    let pi0 = choose|pi0: int|
                                        {
                                            &&& 0 <= pi0 < net1.peer_list().len()
                                            &&& (#[trigger] net1.peer_list()[pi0]).token
                                                == token.raw
                                            &&& queued_provide(
                                                net1.peer_list()[pi0].outbound@,
                                                (readyseq[w]).0,
                                                readyseq[w].1@,
                                            )
                                        };
                                    let e0 = choose|e0: int|
                                        {
                                            &&& 0 <= e0 < net1.peer_list()[pi0].outbound@.len()
                                            &&& is_provide(
                                                (#[trigger] net1.peer_list()[pi0].outbound@[e0]).0,
                                                (readyseq[w]).0,
                                                readyseq[w].1@,
                                            )
                                            &&& net1.peer_list()[pi0].outbound@[e0].1.priority
                                                == PacketPriority::Reliable
                                        };
                                    assert(self.network.peer_list()[pi0].outbound@[e0]
                                        == net1.peer_list()[pi0].outbound@[e0]);
                                    assert(self.network.peer_list()[pi0].token == token.raw);
                                } else {
                                    assert((readyseq[w]).0 == pos && readyseq[w].1@ == sentblocks);
                                }
                            }
                        }
                    }
                    k = k + 1;
                }
                proof {
                    assert(world0 == old(self).world);
                    assert(net0 == old(self).net_view());
                    assert(readyseq.subrange(rn as int, rn as int) =~= Seq::<(
                        ChunkPos,
                        Chunk,
                    )>::empty());
                    assert forall|j: int| 0 <= j < positions@.len() implies {
                        let kk = spec_pos_key(#[trigger] positions@[j]);
                        &&& self.world.interested_in(kk).contains(token.raw)
                        &&& (!world0.resident().contains_key(kk) ==> self.world.pending().contains(
                            kk,
                        ))
                        &&& (world0.resident().contains_key(kk) && net0.connected(token.raw)
                            ==> exists|pi: int|
                            {
                                &&& 0 <= pi < self.network.peer_list().len()
                                &&& (#[trigger] self.network.peer_list()[pi]).token == token.raw
                                &&& queued_provide(
                                    self.network.peer_list()[pi].outbound@,
                                    positions@[j],
                                    world0.resident()[kk]@,
                                )
                            })
                    } by {
                        if world0.resident().contains_key(spec_pos_key(positions@[j])) && net0
                            .connected(token.raw) {
                            let w = choose|w: int|
                                0 <= w < readyseq.len() && (#[trigger] readyseq[w]).0
                                    == positions@[j] && readyseq[w].1@ == world0.resident()[
                                spec_pos_key(positions@[j])]@;
                            let pi = choose|pi: int|
                                {
                                    &&& 0 <= pi < self.network.peer_list().len()
                                    &&& (#[trigger] self.network.peer_list()[pi]).token
                                        == token.raw
                                    &&& queued_provide(
                                        self.network.peer_list()[pi].outbound@,
                                        (readyseq[w]).0,
                                        readyseq[w].1@,
                                    )
                                };
                            assert(queued_provide(
                                self.network.peer_list()[pi].outbound@,
                                positions@[j],
                                world0.resident()[spec_pos_key(positions@[j])]@,
                            ));
                        }
                    }
                    assert forall|j: int| 0 <= j < positions@.len() implies {
                        let k = spec_pos_key(#[trigger] positions@[j]);
                        &&& self.world.interested_in(k).contains(token.raw)
                        &&& (!old(self).world_view().resident().contains_key(k)
                            ==> self.world.pending().contains(k))
                        &&& (old(self).world_view().resident().contains_key(k)
                            && old(self).net_view().connected(token.raw) ==> exists|pi: int|
                            {
                                &&& 0 <= pi < self.network.peer_list().len()
                                &&& (#[trigger] self.network.peer_list()[pi]).token == token.raw
                                &&& queued_provide(
                                    self.network.peer_list()[pi].outbound@,
                                    positions@[j],
                                    old(self).world_view().resident()[k]@,
                                )
                            })
                    } by {
                        assert(old(self).world_view().resident() == world0.resident());
                    }
                    assert(request_dispatched(
                        world0,
                        net0,
                        self.world,
                        self.network,
                        token,
                        positions@,
                    ));
                }
            },
            ClientPacket::Entity(ClientEntityPacket::Spawn(desc, pos)) => {
                match self.entities.spawn(desc, pos) {
                    Ok(_) => {
                        let _ = self.network.send(
                            token,
                            ServerPacket::Entity(ServerEntityPacket::New(desc, pos)),
                            reliable,
                        );
                    },
                    Err(_) => {
                    },
                }
            },
            ClientPacket::Player(ClientPlayerPacket::Join) => {
                let spawn_pos = Pos { x: 0, y: 0 };
                match self.entities.spawn(0, spawn_pos) {
                    Ok(entity) => {
                        let _ = self.player.attach(token.raw, entity);
                        let _ = self.network.send(
                            token,
                            ServerPacket::Player(
                                ServerPlayerPacket::Attach { entity, pos: spawn_pos },
                            ),
                            reliable,
                        );
                    },
                    Err(_) => {
                    },
                }
            },
            ClientPacket::Player(ClientPlayerPacket::SetPos(p)) => {
                match self.player.entity_of(token.raw) {
                    Some(entity) => {
                        let _ = self.entities.set_position(entity, p);
                    },
                    None => {
                    },
                }
            },
        }
    }
}

} // verus!

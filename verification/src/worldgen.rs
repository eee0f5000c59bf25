//! The chunk generation pipeline: demand-driven, deduplicated task
//! submission to a shared worker pool, with an asynchronous completion
//! channel drained non-blockingly by the tick loop.
//!
//! The pool is `rayon`'s and the channel is `crossbeam`'s; each is reached
//! through a trusted wrapper below. A completion's content depends on thread
//! scheduling, so the wrappers promise nothing of what arrives: `poll_chunks`
//! validates every message against the pending set instead, and that
//! validation is verified.
use vstd::prelude::*;
use std::collections::HashSet;
use std::sync::Arc;
use crate::api::Carrier;
use crate::chunk::{spec_pos_key, Chunk, ChunkPos, CHUNK_AREA};
use crate::registry::Id;

verus! {

broadcast use vstd::std_specs::hash::group_hash_axioms;

/// What a worker reports back: the position it worked on, and the chunk if
/// generation succeeded. A failed generation reports no chunk, so the
/// position merely leaves the pending set and may be requested again.
pub type Completion = (ChunkPos, Option<Chunk>);

#[verifier::external_type_specification]
#[verifier::external_body]
pub struct ExThreadPool(rayon::ThreadPool);

#[verifier::external_type_specification]
#[verifier::external_body]
#[verifier::reject_recursive_types(T)]
pub struct ExSender<T>(crossbeam::channel::Sender<T>);

#[verifier::external_type_specification]
#[verifier::external_body]
#[verifier::reject_recursive_types(T)]
pub struct ExReceiver<T>(crossbeam::channel::Receiver<T>);

/// Relies on crossbeam::channel::unbounded: a connected sender/receiver
/// pair. What later arrives depends on concurrent senders, so nothing is
/// promised here.
#[verifier::external_body]
fn completion_channel() -> (crossbeam::channel::Sender<Completion>, crossbeam::channel::Receiver<
    Completion,
>) {
    crossbeam::channel::unbounded()
}

/// Relies on crossbeam's Sender::clone: another handle to the same channel.
#[verifier::external_body]
fn clone_sender(tx: &crossbeam::channel::Sender<Completion>) -> crossbeam::channel::Sender<
    Completion,
> {
    tx.clone()
}

/// Relies on crossbeam's Sender::send, which on an unbounded channel fails
/// only when every receiver is gone; delivery is asynchronous either way, so
/// nothing is promised of it.
#[verifier::external_body]
fn send_completion(tx: &crossbeam::channel::Sender<Completion>, msg: Completion) {
    let _ = tx.send(msg);
}

/// Relies on crossbeam's Receiver::try_recv: a ready message, if any. Which
/// message is ready depends on scheduling; the caller validates it.
#[verifier::external_body]
fn try_recv_completion(rx: &crossbeam::channel::Receiver<Completion>) -> Option<Completion> {
    rx.try_recv().ok()
}

/// Relies on rayon's ThreadPool::spawn: runs the task on the shared worker
/// pool; nothing is promised of when. The closure only calls the verified
/// `generation_task`, whose precondition is this wrapper's.
#[verifier::external_body]
fn spawn_generation(
    pool: &Arc<rayon::ThreadPool>,
    tx: crossbeam::channel::Sender<Completion>,
    carrier: Carrier,
    pos: ChunkPos,
)
    requires
        carrier_wf(carrier),
{
    pool.spawn(move || generation_task(carrier, pos, tx));
}

/// Why a chunk could not be synthesized.
#[derive(Clone, Copy, Debug, PartialEq, Eq, Structural)]
pub enum GenError {
    /// The carrier holds no block content.
    NoContent,
}

/// Both registries fit the 32-bit identifier space: what `reload`
/// establishes for every carrier it builds.
pub open spec fn carrier_wf(c: Carrier) -> bool {
    &&& c.blocks@.len() <= u32::MAX
    &&& c.entities@.len() <= u32::MAX
}

/// Which block descriptor fills a chunk: ground below the world axis, the
/// last-registered block at or above it.
pub open spec fn spec_fill_index(blocks_len: int, pos: ChunkPos) -> int {
    if pos.y < 0 {
        0
    } else {
        blocks_len - 1
    }
}

/// Synthesizes the chunk at `pos` from the carrier snapshot: every cell
/// holds the fill block for that chunk position. Deterministic in its
/// arguments; fails exactly when no block content is loaded.
pub fn generate_chunk(carrier: &Carrier, pos: ChunkPos) -> (r: Result<Chunk, GenError>)
    requires
        carrier_wf(*carrier),
    ensures
        r is Ok <==> carrier.blocks@.len() > 0,
        r matches Ok(c) ==> c.wf() && forall|i: int|
            0 <= i < CHUNK_AREA as int ==> {
                let fill = spec_fill_index(carrier.blocks@.len() as int, pos);
                (#[trigger] c@[i]).id.idx() == fill && c@[i].collision
                    == carrier.blocks@[fill].collision
            },
{
    let n = carrier.blocks.len();
    if n == 0 {
        return Err(GenError::NoContent);
    }
    let fill: usize = if pos.y < 0 {
        0
    } else {
        n - 1
    };
    let id = Id::new(fill as u32);
    let desc = carrier.blocks.get(id);
    Ok(Chunk::filled(desc.create(id)))
}

/// One worker task: synthesizes the chunk against the captured carrier
/// snapshot and reports the outcome; a failure reports an empty completion
/// so the position leaves the pending set and stays re-requestable.
fn generation_task(
    carrier: Carrier,
    pos: ChunkPos,
    tx: crossbeam::channel::Sender<Completion>,
)
    requires
        carrier_wf(carrier),
{
    let msg = match generate_chunk(&carrier, pos) {
        Ok(chunk) => (pos, Some(chunk)),
        Err(_) => (pos, None),
    };
    send_completion(&tx, msg);
}

/// The abstract effect of one generation request on the pending set and the
/// count of tasks submitted to the pool.
pub open spec fn request_outcome(pending: Set<u64>, submitted: nat, pos: ChunkPos) -> (
    Set<u64>,
    nat,
) {
    if pending.contains(spec_pos_key(pos)) {
        (pending, submitted)
    } else {
        (pending.insert(spec_pos_key(pos)), submitted + 1)
    }
}

/// Generation idempotence: a second request for a position already pending
/// changes nothing, so two requests before completion submit exactly one
/// worker task.
pub proof fn lemma_request_idempotent(pending: Set<u64>, submitted: nat, pos: ChunkPos)
    ensures
        request_outcome(
            request_outcome(pending, submitted, pos).0,
            request_outcome(pending, submitted, pos).1,
            pos,
        ) == request_outcome(pending, submitted, pos),
        request_outcome(pending, submitted, pos).1 <= submitted + 1,
{
    assert(request_outcome(pending, submitted, pos).0.contains(spec_pos_key(pos)));
}

/// The demand-driven generation pipeline: a pending set deduplicates
/// requests, a worker pool runs them, and a completion channel feeds the
/// results back to the single-threaded owner.
pub struct ChunkGenerator {
    carrier: Carrier,
    pool: Arc<rayon::ThreadPool>,
    sender: crossbeam::channel::Sender<Completion>,
    receiver: crossbeam::channel::Receiver<Completion>,
    pending: HashSet<u64>,
    submitted: Ghost<nat>,
}

impl ChunkGenerator {
    /// The positions submitted to the pool and not yet completed.
    pub closed spec fn pending_set(&self) -> Set<u64> {
        self.pending@
    }

    /// How many tasks were handed to the pool in total.
    pub closed spec fn submitted(&self) -> nat {
        self.submitted@
    }

    /// The carrier snapshot that tasks capture.
    pub closed spec fn content(&self) -> Carrier {
        self.carrier
    }

    pub closed spec fn wf(&self) -> bool {
        carrier_wf(self.carrier)
    }

    pub fn new(carrier: Carrier, pool: Arc<rayon::ThreadPool>) -> (r: Result<
        ChunkGenerator,
        GenError,
    >)
        requires
            carrier_wf(carrier),
        ensures
            r matches Ok(g) && g.wf() && g.pending_set() == Set::<u64>::empty() && g.submitted()
                == 0 && g.content() == carrier,
    {
        let (sender, receiver) = completion_channel();
        Ok(
            ChunkGenerator {
                carrier,
                pool,
                sender,
                receiver,
                pending: HashSet::new(),
                submitted: Ghost(0),
            },
        )
    }

    /// Requests generation of `pos`: a no-op if `pos` is already pending,
    /// otherwise the position joins the pending set and exactly one task is
    /// submitted, capturing a snapshot of the current carrier.
    pub fn request_chunk(&mut self, pos: ChunkPos)
        requires
            old(self).wf(),
        ensures
            final(self).wf(),
            final(self).content() == old(self).content(),
            (final(self).pending_set(), final(self).submitted()) == request_outcome(
                old(self).pending_set(),
                old(self).submitted(),
                pos,
            ),
    {
        let key = pos.key();
        if !self.pending.contains(&key) {
            self.pending.insert(key);
            let tx = clone_sender(&self.sender);
            let snapshot = self.carrier.clone();
            proof {
                assert(carrier_wf(snapshot));
            }
            spawn_generation(&self.pool, tx, snapshot, pos);
            proof {
                self.submitted@ = self.submitted@ + 1;
            }
        }
    }

    /// Drains every completion received since the last poll: each drained
    /// position leaves the pending set and is handed out exactly once, with
    /// the full-grid chunk on success and nothing on a failed generation
    /// (the position is then eligible for a future re-request). Positions
    /// not handed out stay pending. Messages for positions no longer pending
    /// are dropped, so a position is never delivered twice.
    pub fn poll_chunks(&mut self) -> (r: Vec<Completion>)
        requires
            old(self).wf(),
        ensures
            final(self).wf(),
            final(self).content() == old(self).content(),
            final(self).submitted() == old(self).submitted(),
            forall|i: int|
                0 <= i < r@.len() ==> old(self).pending_set().contains(
                    spec_pos_key((#[trigger] r@[i]).0),
                ) && ((#[trigger] r@[i]).1 matches Some(c) ==> c.wf()),
            forall|i: int, j: int|
                0 <= i < j < r@.len() ==> spec_pos_key((#[trigger] r@[i]).0) != spec_pos_key(
                    (#[trigger] r@[j]).0,
                ),
            forall|k: u64|
                final(self).pending_set().contains(k) <==> old(self).pending_set().contains(k)
                    && !(exists|i: int|
                    0 <= i < r@.len() && spec_pos_key((#[trigger] r@[i]).0) == k),
    {
        let mut out: Vec<Completion> = Vec::new();
        let mut budget = self.pending.len();
        while budget > 0
            invariant
                self.carrier == old(self).carrier,
                self.pool == old(self).pool,
                self.sender == old(self).sender,
                self.receiver == old(self).receiver,
                self.submitted == old(self).submitted,
                forall|i: int|
                    0 <= i < out@.len() ==> old(self).pending@.contains(
                        spec_pos_key((#[trigger] out@[i]).0),
                    ) && ((#[trigger] out@[i]).1 matches Some(c) ==> c.wf()),
                forall|i: int, j: int|
                    0 <= i < j < out@.len() ==> spec_pos_key((#[trigger] out@[i]).0)
                        != spec_pos_key((#[trigger] out@[j]).0),
                forall|k: u64|
                    self.pending@.contains(k) <==> old(self).pending@.contains(k) && !(exists|
                        i: int,
                    |
                        0 <= i < out@.len() && spec_pos_key((#[trigger] out@[i]).0) == k),
            decreases budget,
        {
            match try_recv_completion(&self.receiver) {
                Some(msg) => {
                    let (pos, maybe_chunk) = msg;
                    let key = pos.key();
                    let ghost pre_pending = self.pending@;
                    let ghost out0 = out@;
                    let was_pending = self.pending.remove(&key);
                    if was_pending {
                        proof {
                            assert(pre_pending.contains(spec_pos_key(pos)));
                            assert(old(self).pending@.contains(spec_pos_key(pos)));
                            assert forall|i: int|
                                0 <= i < out0.len() implies spec_pos_key((#[trigger] out0[i]).0)
                                != spec_pos_key(pos) by {
                                assert(!pre_pending.contains(spec_pos_key(out0[i].0)));
                            }
                        }
                        match maybe_chunk {
                            Some(chunk) => {
                                if chunk.is_well_formed() {
                                    out.push((pos, Some(chunk)));
                                } else {
                                    out.push((pos, None));
                                }
                            },
                            None => {
                                out.push((pos, None));
                            },
                        }
                        proof {
                            assert forall|k: u64|
                                self.pending@.contains(k) <==> (old(self).pending@.contains(k) && !(
                                exists|i: int|
                                    0 <= i < out@.len() && spec_pos_key((#[trigger] out@[i]).0)
                                        == k)) by {
                                if k == spec_pos_key(pos) {
                                    assert((out@[out@.len() - 1]).0 == pos);
                                } else {
                                    if exists|i: int|
                                        0 <= i < out@.len() && spec_pos_key(
                                            (#[trigger] out@[i]).0,
                                        ) == k {
                                        let i = choose|i: int|
                                            0 <= i < out@.len() && spec_pos_key(
                                                (#[trigger] out@[i]).0,
                                            ) == k;
                                        assert(i < out0.len());
                                        assert(out0[i] == out@[i]);
                                    }
                                    if exists|i: int|
                                        0 <= i < out0.len() && spec_pos_key(
                                            (#[trigger] out0[i]).0,
                                        ) == k {
                                        let i = choose|i: int|
                                            0 <= i < out0.len() && spec_pos_key(
                                                (#[trigger] out0[i]).0,
                                            ) == k;
                                        assert(out@[i] == out0[i]);
                                    }
                                }
                            }
                        }
                    }
                },
                None => {
                    break ;
                },
            }
            budget = budget - 1;
        }
        out
    }
}

} // verus!

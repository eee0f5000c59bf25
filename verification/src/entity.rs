//! The entity world: component maps keyed by a random 128-bit entity
//! identity, with a deterministic per-tick integration pass and deferred
//! removal of entities that hit the world.
use vstd::prelude::*;
use vstd::seq_lib::*;
use std::collections::HashMap;
use crate::api::Carrier;
use crate::chunk::{Chunk, ChunkPos, ChunkStorage, CHUNK_SIZE};
use crate::chunk::{spec_cell, spec_pos_key};
use crate::pos::{sat_add, Pos};
use crate::prototype::{HitboxComp, PositionComp, VelocityComp};

verus! {

broadcast use vstd::std_specs::hash::group_hash_axioms;

/// A fresh random 128-bit identity.
///
/// Relies on uuid::Uuid::new_v4, taken as its 128-bit value: a version-4
/// (random) identifier, so the version nibble is 4 and the variant bits are
/// binary 10. The remaining 122 bits are random; nothing is promised of
/// them.
#[verifier::external_body]
pub fn uuid() -> (r: u128)
    ensures
        (r >> 76u128) & 0xf == 4,
        (r >> 62u128) & 0x3 == 2,
{
    uuid::Uuid::new_v4().as_u128()
}

/// Why an entity could not be spawned.
#[derive(Clone, Copy, Debug, PartialEq, Eq, Structural)]
pub enum EntityError {
    /// No content is loaded; the caller may defer or force a reload.
    CarrierUnavailable,
    /// The descriptor identifier is not registered in the current carrier.
    UnknownDescriptor,
    /// The proposed entity identity is already live.
    IdCollision,
    /// Repeated random draws all collided with live identities.
    IdSpaceSaturated,
}

/// Whether the block under `b` stops entities, given the resident chunks. A
/// position whose chunk is not resident (or not representable) is open.
pub open spec fn spec_solid_at(res: Map<u64, Chunk>, b: Pos) -> bool {
    let cx = b.x as int / (CHUNK_SIZE as int);
    let cy = b.y as int / (CHUNK_SIZE as int);
    if i32::MIN <= cx <= i32::MAX && i32::MIN <= cy <= i32::MAX {
        let key = spec_pos_key(ChunkPos { x: cx as i32, y: cy as i32 });
        res.contains_key(key) && res[key]@[spec_cell(
            b.x as int % (CHUNK_SIZE as int),
            b.y as int % (CHUNK_SIZE as int),
        )].collision
    } else {
        false
    }
}

/// Where a velocity takes a position in one tick (saturating at the world
/// edge).
pub open spec fn spec_target(p: Pos, v: VelocityComp) -> Pos {
    Pos { x: sat_add(p.x as int, v.dx as int) as i64, y: sat_add(p.y as int, v.dy as int) as i64 }
}

/// One swept step: the full move when the target block is open, otherwise
/// the position is kept and a hit is reported.
pub open spec fn spec_swept(res: Map<u64, Chunk>, p: Pos, v: VelocityComp) -> (Pos, bool) {
    let t = spec_target(p, v);
    if spec_solid_at(res, t) {
        (p, true)
    } else {
        (t, false)
    }
}

/// Whether the block under `b` stops entities.
pub fn solid_at(chunks: &ChunkStorage, b: Pos) -> (r: bool)
    requires
        chunks.wf(),
    ensures
        r == spec_solid_at(chunks.resident(), b),
{
    match b.chunk() {
        Some(cp) => match chunks.get_chunk(cp) {
            Some(c) => {
                proof {
                    chunks.lemma_resident_chunk_wf(spec_pos_key(cp));
                }
                let (lx, ly) = b.cell();
                c.get(lx, ly).collision
            },
            None => false,
        },
        None => false,
    }
}

/// One swept collision step against the resident chunks.
pub fn swept(chunks: &ChunkStorage, p: Pos, v: VelocityComp) -> (r: (Pos, bool))
    requires
        chunks.wf(),
    ensures
        r == spec_swept(chunks.resident(), p, v),
{
    let target = p.offset(v.dx, v.dy);
    if solid_at(chunks, target) {
        (p, true)
    } else {
        (target, false)
    }
}

/// How many random identities a spawn draws before giving up.
pub const SPAWN_ATTEMPTS: usize = 16;

/// The canonical entity set and one map per component kind. An entity id
/// present in the velocity map need not be in the hitbox map; an id removed
/// from the canonical set leaves every component map in the same tick.
pub struct EntityWorld {
    carrier: Option<Carrier>,
    entities: HashMap<u128, u32>,
    order: Vec<u128>,
    position: HashMap<u128, PositionComp>,
    velocity: HashMap<u128, VelocityComp>,
    hitbox: HashMap<u128, HitboxComp>,
}

impl EntityWorld {
    /// The canonical set: each live entity's descriptor identifier.
    pub closed spec fn live(&self) -> Map<u128, u32> {
        self.entities@
    }

    /// The live identities in spawn order: the deterministic iteration order
    /// of the tick pass.
    pub closed spec fn order_list(&self) -> Seq<u128> {
        self.order@
    }

    pub closed spec fn positions(&self) -> Map<u128, PositionComp> {
        self.position@
    }

    pub closed spec fn velocities(&self) -> Map<u128, VelocityComp> {
        self.velocity@
    }

    pub closed spec fn hitboxes(&self) -> Map<u128, HitboxComp> {
        self.hitbox@
    }

    /// The carrier this world resolves descriptors against.
    pub closed spec fn content(&self) -> Option<Carrier> {
        self.carrier
    }

    /// Content is loaded and descriptor `id` is registered.
    pub open spec fn desc_ok(&self, id: u32) -> bool {
        match self.content() {
            Some(c) => (id as int) < c.entities@.len(),
            None => false,
        }
    }

    /// The descriptor registered under `id`.
    pub open spec fn spec_desc(&self, id: u32) -> crate::prototype::EntityDesc
        recommends
            self.desc_ok(id),
    {
        match self.content() {
            Some(c) => c.entities@[id as int],
            None => vstd::pervasive::arbitrary(),
        }
    }

    /// The spawn-order roster carries exactly the canonical set, once each;
    /// every live entity has a position; every component belongs to a live
    /// entity.
    pub closed spec fn wf(&self) -> bool {
        &&& forall|i: int, j: int|
            0 <= i < j < self.order@.len() ==> self.order@[i] != self.order@[j]
        &&& forall|id: u128|
            #[trigger] self.entities@.contains_key(id) <==> self.order@.contains(id)
        &&& forall|id: u128|
            #[trigger] self.position@.contains_key(id) <==> self.entities@.contains_key(id)
        &&& forall|id: u128|
            #[trigger] self.velocity@.contains_key(id) ==> self.entities@.contains_key(id)
        &&& forall|id: u128|
            #[trigger] self.hitbox@.contains_key(id) ==> self.entities@.contains_key(id)
    }

    pub fn new() -> (r: EntityWorld)
        ensures
            r.wf(),
            r.content() is None,
            r.live() == Map::<u128, u32>::empty(),
            r.order_list() == Seq::<u128>::empty(),
            r.positions() == Map::<u128, PositionComp>::empty(),
            r.velocities() == Map::<u128, VelocityComp>::empty(),
            r.hitboxes() == Map::<u128, HitboxComp>::empty(),
    {
        EntityWorld {
            carrier: None,
            entities: HashMap::new(),
            order: Vec::new(),
            position: HashMap::new(),
            velocity: HashMap::new(),
            hitbox: HashMap::new(),
        }
    }

    /// Swaps in a freshly reloaded carrier.
    pub fn reload(&mut self, carrier: &Carrier)
        requires
            old(self).wf(),
        ensures
            final(self).wf(),
            final(self).content() matches Some(c) && c.blocks@ == carrier.blocks@ && c.entities@
                == carrier.entities@,
            final(self).live() == old(self).live(),
            final(self).order_list() == old(self).order_list(),
            final(self).positions() == old(self).positions(),
            final(self).velocities() == old(self).velocities(),
            final(self).hitboxes() == old(self).hitboxes(),
    {
        self.carrier = Some(carrier.clone());
    }

    /// Spawns an entity under the proposed identity: the deterministic core
    /// of `spawn`, verified for every proposed value.
    ///
    /// Succeeds exactly when content is loaded, the descriptor exists and
    /// the identity is not already live; position is always populated, the
    /// other component maps only as the descriptor specifies.
    pub fn spawn_with_id(&mut self, id: u32, pos: Pos, new_id: u128) -> (r: Result<
        u128,
        EntityError,
    >)
        requires
            old(self).wf(),
        ensures
            final(self).wf(),
            final(self).content() == old(self).content(),
            r matches Err(e) && e == EntityError::CarrierUnavailable <==> old(self).content()
                is None,
            r matches Err(e) && e == EntityError::UnknownDescriptor <==> !(old(self).content()
                is None) && !old(self).desc_ok(id),
            r matches Err(e) && e == EntityError::IdCollision <==> old(self).desc_ok(id) && old(
                self,
            ).live().contains_key(new_id),
            r is Ok <==> !(old(self).content() is None) && old(self).desc_ok(id) && !old(
                self,
            ).live().contains_key(new_id),
            r is Err ==> *final(self) == *old(self),
            r matches Ok(u) ==> u == new_id && !old(self).live().contains_key(new_id) && old(
                self,
            ).desc_ok(id) && {
                let desc = old(self).spec_desc(id);
                &&& final(self).live() == old(self).live().insert(new_id, id)
                &&& final(self).order_list() == old(self).order_list().push(new_id)
                &&& final(self).positions() == old(self).positions().insert(
                    new_id,
                    PositionComp { position: pos },
                )
                &&& (desc.velocity matches Some(v) ==> final(self).velocities() == old(
                    self,
                ).velocities().insert(new_id, v))
                &&& (desc.velocity is None ==> final(self).velocities() == old(self).velocities())
                &&& (desc.hitbox matches Some(h) ==> final(self).hitboxes() == old(
                    self,
                ).hitboxes().insert(new_id, h))
                &&& (desc.hitbox is None ==> final(self).hitboxes() == old(self).hitboxes())
            },
    {
        let desc = match &self.carrier {
            None => {
                return Err(EntityError::CarrierUnavailable);
            },
            Some(carrier) => {
                if !((id as usize) < carrier.entities.len()) {
                    return Err(EntityError::UnknownDescriptor);
                }
                *carrier.entities.get(crate::registry::Id::new(id))
            },
        };
        if self.entities.contains_key(&new_id) {
            return Err(EntityError::IdCollision);
        }
        self.entities.insert(new_id, id);
        self.order.push(new_id);
        self.position.insert(new_id, PositionComp { position: pos });
        if let Some(v) = desc.velocity {
            self.velocity.insert(new_id, v);
        }
        if let Some(h) = desc.hitbox {
            self.hitbox.insert(new_id, h);
        }
        proof {
            assert forall|x: u128| #[trigger] self.entities@.contains_key(x)
                <==> self.order@.contains(x) by {
                if x == new_id {
                    assert(self.order@[self.order@.len() - 1] == new_id);
                } else {
                    if self.order@.contains(x) {
                        let i = choose|i: int| 0 <= i < self.order@.len() && self.order@[i] == x;
                        if i < old(self).order@.len() {
                            assert(old(self).order@[i] == x);
                        } else {
                            assert(self.order@[i] == new_id);
                        }
                    }
                    if old(self).entities@.contains_key(x) {
                        assert(old(self).order@.contains(x));
                        let m = choose|m: int|
                            0 <= m < old(self).order@.len() && old(self).order@[m] == x;
                        assert(self.order@[m] == x);
                    }
                }
            }
            assert forall|i0: int, j0: int|
                0 <= i0 < j0 < self.order@.len() implies self.order@[i0] != self.order@[j0] by {
                if j0 == self.order@.len() - 1 {
                    assert(self.order@[i0] == old(self).order@[i0]);
                    assert(old(self).order@.contains(old(self).order@[i0]));
                    assert(old(self).entities@.contains_key(self.order@[i0]));
                }
            }
        }
        Ok(new_id)
    }

    /// Spawns an entity at `pos` from descriptor `id`, drawing a fresh
    /// random identity and re-rolling on a collision with the live set.
    /// Whatever the random draws, the state changes only as `spawn_with_id`
    /// allows; success cannot be promised because the draws are random.
    pub fn spawn(&mut self, id: u32, pos: Pos) -> (r: Result<u128, EntityError>)
        requires
            old(self).wf(),
        ensures
            final(self).wf(),
            final(self).content() == old(self).content(),
            r matches Err(e) && e == EntityError::CarrierUnavailable <==> old(self).content()
                is None,
            r matches Err(e) && e == EntityError::UnknownDescriptor <==> !(old(self).content()
                is None) && !old(self).desc_ok(id),
            r matches Err(e) ==> e != EntityError::IdCollision,
            r is Err ==> *final(self) == *old(self),
            r matches Ok(u) ==> !old(self).live().contains_key(u) && old(self).desc_ok(id) && {
                let desc = old(self).spec_desc(id);
                &&& final(self).live() == old(self).live().insert(u, id)
                &&& final(self).order_list() == old(self).order_list().push(u)
                &&& final(self).positions() == old(self).positions().insert(
                    u,
                    PositionComp { position: pos },
                )
                &&& (desc.velocity matches Some(v) ==> final(self).velocities() == old(
                    self,
                ).velocities().insert(u, v))
                &&& (desc.velocity is None ==> final(self).velocities() == old(self).velocities())
                &&& (desc.hitbox matches Some(h) ==> final(self).hitboxes() == old(
                    self,
                ).hitboxes().insert(u, h))
                &&& (desc.hitbox is None ==> final(self).hitboxes() == old(self).hitboxes())
            },
    {
        let mut attempt: usize = 0;
        while attempt < SPAWN_ATTEMPTS
            invariant
                *self == *old(self),
                old(self).wf(),
                attempt > 0 ==> old(self).desc_ok(id),
            decreases SPAWN_ATTEMPTS - attempt,
        {
            let new_id = uuid();
            match self.spawn_with_id(id, pos, new_id) {
                Ok(u) => {
                    return Ok(u);
                },
                Err(e) => {
                    if !matches!(e, EntityError::IdCollision) {
                        return Err(e);
                    }
                },
            }
            attempt = attempt + 1;
        }
        Err(EntityError::IdSpaceSaturated)
    }

    /// Removes `id` from the canonical set and from every component map,
    /// atomically within the same tick boundary: no dangling component entry
    /// is left behind.
    pub fn kill(&mut self, id: u128)
        requires
            old(self).wf(),
        ensures
            final(self).wf(),
            final(self).content() == old(self).content(),
            final(self).live() == old(self).live().remove(id),
            final(self).order_list() == old(self).order_list().remove_value(id),
            final(self).positions() == old(self).positions().remove(id),
            final(self).velocities() == old(self).velocities().remove(id),
            final(self).hitboxes() == old(self).hitboxes().remove(id),
    {
        self.entities.remove(&id);
        self.position.remove(&id);
        self.velocity.remove(&id);
        self.hitbox.remove(&id);
        let n = self.order.len();
        let mut i: usize = 0;
        while i < n
            invariant
                n == self.order@.len(),
                0 <= i <= n,
                self.order@ == old(self).order@,
                self.entities@ == old(self).entities@.remove(id),
                self.position@ == old(self).position@.remove(id),
                self.velocity@ == old(self).velocity@.remove(id),
                self.hitbox@ == old(self).hitbox@.remove(id),
                self.carrier == old(self).carrier,
                forall|m: int| 0 <= m < i ==> self.order@[m] != id,
            decreases n - i,
        {
            if self.order[i] == id {
                self.order.remove(i);
                proof {
                    assert(old(self).order@.index_of_first(id) matches Some(f) && f == i as int)
                        by {
                        old(self).order@.index_of_first_ensures(id);
                    }
                    assert(self.order@ == old(self).order@.remove_value(id));
                    assert forall|x: u128| #[trigger] self.entities@.contains_key(x)
                        <==> self.order@.contains(x) by {
                        lemma_roster_remove(old(self).order@, i as int, x);
                    }
                    assert forall|i0: int, j0: int|
                        0 <= i0 < j0 < self.order@.len() implies self.order@[i0] != self.order@[
                    j0] by {
                        let pre = old(self).order@;
                        if j0 < i {
                            assert(pre[i0] == self.order@[i0] && pre[j0] == self.order@[j0]);
                        } else if i0 < i {
                            assert(pre[i0] == self.order@[i0] && pre[j0 + 1] == self.order@[j0]);
                        } else {
                            assert(pre[i0 + 1] == self.order@[i0] && pre[j0 + 1] == self.order@[j0]);
                        }
                    }
                }
                return ;
            }
            i = i + 1;
        }
        proof {
            assert(!old(self).order@.contains(id));
            assert(old(self).order@.index_of_first(id) is None) by {
                old(self).order@.index_of_first_ensures(id);
            }
            assert(self.order@ == old(self).order@.remove_value(id));
            assert(!old(self).entities@.contains_key(id));
            assert(self.entities@ =~= old(self).entities@.remove(id));
            assert(self.position@ =~= old(self).position@.remove(id));
            assert(self.velocity@ =~= old(self).velocity@.remove(id));
            assert(self.hitbox@ =~= old(self).hitbox@.remove(id));
        }
    }

    /// Whether `id` is live.
    pub fn contains(&self, id: u128) -> (r: bool)
        ensures
            r == self.live().contains_key(id),
    {
        self.entities.contains_key(&id)
    }

    /// The descriptor identifier `id` was spawned from, if live.
    pub fn descriptor_of(&self, id: u128) -> (r: Option<u32>)
        ensures
            r matches Some(d) ==> self.live().contains_key(id) && self.live()[id] == d,
            r is None ==> !self.live().contains_key(id),
    {
        match self.entities.get(&id) {
            Some(d) => Some(*d),
            None => None,
        }
    }

    /// The position component of `id`, if present.
    pub fn position_of(&self, id: u128) -> (r: Option<PositionComp>)
        ensures
            r matches Some(p) ==> self.positions().contains_key(id) && self.positions()[id] == p,
            r is None ==> !self.positions().contains_key(id),
    {
        match self.position.get(&id) {
            Some(p) => Some(*p),
            None => None,
        }
    }

    /// The velocity component of `id`, if present.
    pub fn velocity_of(&self, id: u128) -> (r: Option<VelocityComp>)
        ensures
            r matches Some(v) ==> self.velocities().contains_key(id) && self.velocities()[id] == v,
            r is None ==> !self.velocities().contains_key(id),
    {
        match self.velocity.get(&id) {
            Some(v) => Some(*v),
            None => None,
        }
    }

    /// The hitbox component of `id`, if present.
    pub fn hitbox_of(&self, id: u128) -> (r: Option<HitboxComp>)
        ensures
            r matches Some(h) ==> self.hitboxes().contains_key(id) && self.hitboxes()[id] == h,
            r is None ==> !self.hitboxes().contains_key(id),
    {
        match self.hitbox.get(&id) {
            Some(h) => Some(*h),
            None => None,
        }
    }

    /// Moves a live entity to `pos`; a dead identity is left alone.
    pub fn set_position(&mut self, id: u128, pos: Pos) -> (r: bool)
        requires
            old(self).wf(),
        ensures
            final(self).wf(),
            r == old(self).live().contains_key(id),
            !r ==> *final(self) == *old(self),
            r ==> {
                &&& final(self).positions() == old(self).positions().insert(
                    id,
                    PositionComp { position: pos },
                )
                &&& final(self).live() == old(self).live()
                &&& final(self).order_list() == old(self).order_list()
                &&& final(self).velocities() == old(self).velocities()
                &&& final(self).hitboxes() == old(self).hitboxes()
                &&& final(self).content() == old(self).content()
            },
    {
        if self.entities.contains_key(&id) {
            self.position.insert(id, PositionComp { position: pos });
            true
        } else {
            false
        }
    }

    /// The live identities in spawn order.
    pub fn roster(&self) -> (r: &Vec<u128>)
        ensures
            r@ == self.order_list(),
    {
        &self.order
    }

    /// Whether `id` hits the world this tick: it moves, collides, and its
    /// swept step reports a hit.
    pub open spec fn spec_hit(&self, res: Map<u64, Chunk>, id: u128) -> bool {
        &&& self.velocities().contains_key(id)
        &&& self.hitboxes().contains_key(id)
        &&& spec_swept(res, self.positions()[id].position, self.velocities()[id]).1
    }

    /// Where the integration pass puts `id`, judged entirely on the pre-tick
    /// state: entities without velocity stay, entities without a hitbox move
    /// unconditionally, colliding entities take the swept result.
    pub open spec fn moved_position(&self, res: Map<u64, Chunk>, id: u128) -> PositionComp {
        if self.velocities().contains_key(id) {
            if self.hitboxes().contains_key(id) {
                PositionComp {
                    position: spec_swept(
                        res,
                        self.positions()[id].position,
                        self.velocities()[id],
                    ).0,
                }
            } else {
                PositionComp {
                    position: spec_target(self.positions()[id].position, self.velocities()[id]),
                }
            }
        } else {
            self.positions()[id]
        }
    }

    /// The entities whose integration step reports a hit this tick.
    pub open spec fn hit_set(&self, res: Map<u64, Chunk>) -> Set<u128> {
        Set::new(|id: u128| self.live().contains_key(id) && self.spec_hit(res, id))
    }

    /// One integration pass: every live entity moves according to its
    /// components, judged on the pre-tick state alone; entities whose step
    /// reports a hit stay iterable through the pass and are removed only in
    /// the deferred pass at its end.
    pub fn tick(&mut self, chunks: &ChunkStorage)
        requires
            old(self).wf(),
            chunks.wf(),
        ensures
            final(self).wf(),
            final(self).content() == old(self).content(),
            final(self).live() == old(self).live().remove_keys(
                old(self).hit_set(chunks.resident()),
            ),
            final(self).order_list() == old(self).order_list().filter(
                (|id: u128| !old(self).hit_set(chunks.resident()).contains(id)),
            ),
            forall|id: u128|
                #[trigger] final(self).live().contains_key(id) ==> final(self).positions()[id]
                    == old(self).moved_position(chunks.resident(), id),
            forall|id: u128|
                #[trigger] final(self).positions().contains_key(id) <==> final(self).live().contains_key(id),
            final(self).velocities() == old(self).velocities().remove_keys(
                old(self).hit_set(chunks.resident()),
            ),
            final(self).hitboxes() == old(self).hitboxes().remove_keys(
                old(self).hit_set(chunks.resident()),
            ),
    {
        let ghost pre = *self;
        let ghost res = chunks.resident();
        let ghost hits = pre.hit_set(res);
        let ghost hitpred = (|id: u128| pre.hit_set(res).contains(id));

        let n = self.order.len();
        let mut doomed: Vec<u128> = Vec::new();
        let mut i: usize = 0;
        while i < n
            invariant
                n == pre.order@.len(),
                0 <= i <= n,
                self.order@ == pre.order@,
                self.entities@ == pre.entities@,
                self.velocity@ == pre.velocity@,
                self.hitbox@ == pre.hitbox@,
                self.carrier == pre.carrier,
                pre.wf(),
                chunks.wf(),
                res == chunks.resident(),
                hits == pre.hit_set(res),
                hitpred == (|id: u128| pre.hit_set(res).contains(id)),
                forall|id: u128|
                    #[trigger] self.position@.contains_key(id) <==> pre.position@.contains_key(id),
                forall|id: u128|
                    pre.entities@.contains_key(id) && !pre.order@.subrange(0, i as int).contains(id)
                        ==> #[trigger] self.position@[id] == pre.position@[id],
                forall|id: u128|
                    pre.entities@.contains_key(id) && pre.order@.subrange(0, i as int).contains(id)
                        ==> #[trigger] self.position@[id] == pre.moved_position(res, id),
                doomed@ == pre.order@.subrange(0, i as int).filter(hitpred),
            decreases n - i,
        {
            let ghost prefix = pre.order@.subrange(0, i as int);
            let id = self.order[i];
            proof {
                assert(pre.order@.contains(id));
                assert(pre.entities@.contains_key(id));
                assert(!prefix.contains(id)) by {
                    if prefix.contains(id) {
                        let m = choose|m: int| 0 <= m < i && prefix[m] == id;
                        assert(pre.order@[m] == pre.order@[i as int]);
                    }
                }
                assert(self.position@[id] == pre.position@[id]);
            }
            let has_velocity = self.velocity.contains_key(&id);
            if has_velocity {
                let v = match self.velocity.get(&id) {
                    Some(v) => *v,
                    None => {
                        proof {
                            assert(false);
                        }
                        VelocityComp { dx: 0, dy: 0 }
                    },
                };
                let p = match self.position.get(&id) {
                    Some(p) => *p,
                    None => {
                        proof {
                            assert(false);
                        }
                        PositionComp { position: Pos { x: 0, y: 0 } }
                    },
                };
                if self.hitbox.contains_key(&id) {
                    let (np, hit) = swept(chunks, p.position, v);
                    self.position.insert(id, PositionComp { position: np });
                    if hit {
                        doomed.push(id);
                    }
                } else {
                    self.position.insert(
                        id,
                        PositionComp { position: p.position.offset(v.dx, v.dy) },
                    );
                }
            }
            proof {
                let next = pre.order@.subrange(0, i + 1 as int);
                assert(next.drop_last() =~= prefix);
                assert(next.last() == id);
                reveal(Seq::filter);
                assert(next.filter(hitpred) == if hitpred(id) {
                    prefix.filter(hitpred).push(id)
                } else {
                    prefix.filter(hitpred)
                });
                assert(hitpred(id) == pre.spec_hit(res, id));
                assert(doomed@ == next.filter(hitpred));
                assert forall|x: u128|
                    pre.entities@.contains_key(x) && next.contains(x) implies #[trigger] self.position@[x]
                    == pre.moved_position(res, x) by {
                    if x != id {
                        assert(prefix.contains(x)) by {
                            let m = choose|m: int| 0 <= m < next.len() && next[m] == x;
                            assert(m < i);
                            assert(prefix[m] == x);
                        }
                    }
                }
                assert forall|x: u128|
                    pre.entities@.contains_key(x) && !next.contains(x) implies #[trigger] self.position@[x]
                    == pre.position@[x] by {
                    if prefix.contains(x) {
                        let m = choose|m: int| 0 <= m < i && prefix[m] == x;
                        assert(next[m] == x);
                    }
                }
            }
            i = i + 1;
        }
        proof {
            assert(pre.order@.subrange(0, n as int) =~= pre.order@);
            assert(doomed@ == pre.order@.filter(hitpred));
            assert forall|x: u128| #[trigger] doomed@.contains(x) <==> hits.contains(x) by {
                broadcast use Seq::lemma_filter_pred, Seq::lemma_filter_contains;

                if doomed@.contains(x) {
                    let m = choose|m: int| 0 <= m < doomed@.len() && doomed@[m] == x;
                    assert(hitpred(doomed@[m]));
                }
                if hits.contains(x) {
                    assert(pre.entities@.contains_key(x));
                    assert(pre.order@.contains(x));
                    let m = choose|m: int| 0 <= m < pre.order@.len() && pre.order@[m] == x;
                    assert(hitpred(pre.order@[m]));
                    assert(pre.order@.filter(hitpred).contains(pre.order@[m]));
                }
            }
        }

        let m = doomed.len();
        let mut k: usize = 0;
        while k < m
            invariant
                m == doomed@.len(),
                0 <= k <= m,
                self.order@ == pre.order@,
                self.carrier == pre.carrier,
                self.entities@ == pre.entities@.remove_keys(doomed@.subrange(0, k as int).to_set()),
                self.velocity@ == pre.velocity@.remove_keys(doomed@.subrange(0, k as int).to_set()),
                self.hitbox@ == pre.hitbox@.remove_keys(doomed@.subrange(0, k as int).to_set()),
                forall|id: u128|
                    #[trigger] self.position@.contains_key(id) <==> pre.position@.contains_key(id)
                        && !doomed@.subrange(0, k as int).to_set().contains(id),
                forall|id: u128|
                    self.position@.contains_key(id) && pre.entities@.contains_key(id) && pre.order@.contains(id)
                        ==> #[trigger] self.position@[id] == pre.moved_position(res, id),
            decreases m - k,
        {
            let id = doomed[k];
            self.entities.remove(&id);
            self.position.remove(&id);
            self.velocity.remove(&id);
            self.hitbox.remove(&id);
            proof {
                let s0 = doomed@.subrange(0, k as int).to_set();
                let s1 = doomed@.subrange(0, k + 1 as int).to_set();
                assert(doomed@.subrange(0, k + 1 as int).drop_last() =~= doomed@.subrange(
                    0,
                    k as int,
                ));
                assert(s1 =~= s0.insert(id)) by {
                    assert forall|x: u128| s1.contains(x) <==> s0.contains(x) || x == id by {
                        let sub1 = doomed@.subrange(0, k + 1 as int);
                        if s1.contains(x) {
                            let q = choose|q: int| 0 <= q < sub1.len() && sub1[q] == x;
                            if q < k {
                                assert(doomed@.subrange(0, k as int)[q] == x);
                            }
                        }
                        if s0.contains(x) {
                            let q = choose|q: int|
                                0 <= q < k && doomed@.subrange(0, k as int)[q] == x;
                            assert(sub1[q] == x);
                        }
                        if x == id {
                            assert(sub1[k as int] == x);
                        }
                    }
                }
                assert(self.entities@ =~= pre.entities@.remove_keys(s1));
                assert(self.velocity@ =~= pre.velocity@.remove_keys(s1));
                assert(self.hitbox@ =~= pre.hitbox@.remove_keys(s1));
            }
            k = k + 1;
        }
        proof {
            assert(doomed@.subrange(0, m as int) =~= doomed@);
            assert(doomed@.to_set() =~= hits);
            assert(self.entities@ == pre.entities@.remove_keys(hits));
            assert(self.velocity@ == pre.velocity@.remove_keys(hits));
            assert(self.hitbox@ == pre.hitbox@.remove_keys(hits));
        }

        let n2 = self.order.len();
        let mut kept: Vec<u128> = Vec::new();
        let mut i: usize = 0;
        while i < n2
            invariant
                n2 == pre.order@.len(),
                0 <= i <= n2,
                self.order@ == pre.order@,
                doomed@.to_set() == hits,
                forall|x: u128| #[trigger] doomed@.contains(x) <==> hits.contains(x),
                kept@ == pre.order@.subrange(0, i as int).filter(
                    (|id: u128| !pre.hit_set(res).contains(id)),
                ),
            decreases n2 - i,
        {
            let id = self.order[i];
            let in_doomed = contains_id(&doomed, id);
            proof {
                assert(in_doomed <==> hits.contains(id));
            }
            if !in_doomed {
                kept.push(id);
            }
            proof {
                let keeppred = (|id: u128| !pre.hit_set(res).contains(id));
                let next = pre.order@.subrange(0, i + 1 as int);
                assert(next.drop_last() =~= pre.order@.subrange(0, i as int));
                assert(next.last() == id);
                reveal(Seq::filter);
                assert(kept@ == next.filter(keeppred));
            }
            i = i + 1;
        }
        self.order = kept;
        proof {
            assert(pre.order@.subrange(0, n2 as int) =~= pre.order@);
            let keeppred = (|id: u128| !pre.hit_set(res).contains(id));
            assert(self.order@ == pre.order@.filter(keeppred));
            assert forall|x: u128| #[trigger] self.entities@.contains_key(x)
                <==> self.order@.contains(x) by {
                broadcast use Seq::lemma_filter_pred, Seq::lemma_filter_contains;

                if self.entities@.contains_key(x) {
                    assert(pre.entities@.contains_key(x) && !hits.contains(x));
                    assert(pre.order@.contains(x));
                    let w = choose|w: int| 0 <= w < pre.order@.len() && pre.order@[w] == x;
                    assert(keeppred(pre.order@[w]));
                    assert(pre.order@.filter(keeppred).contains(pre.order@[w]));
                }
                if self.order@.contains(x) {
                    let w = choose|w: int| 0 <= w < self.order@.len() && self.order@[w] == x;
                    assert(keeppred(self.order@[w]));
                    assert(self.order@.to_set().contains(x)) by {
                        assert(self.order@[w] == x);
                    }
                    assert(pre.order@.filter(keeppred).contains(x));
                    lemma_filter_is_subset(pre.order@, keeppred, x);
                    assert(pre.order@.contains(x));
                    assert(pre.entities@.contains_key(x));
                    assert(!hits.contains(x));
                }
            }
            assert forall|i0: int, j0: int|
                0 <= i0 < j0 < self.order@.len() implies self.order@[i0] != self.order@[j0] by {
                lemma_filter_keeps_distinct(pre.order@, keeppred, i0, j0);
            }
        }
    }
}

/// Whether the list holds the identity.
fn contains_id(list: &Vec<u128>, x: u128) -> (r: bool)
    ensures
        r == list@.contains(x),
{
    let n = list.len();
    let mut q: usize = 0;
    while q < n
        invariant
            n == list@.len(),
            0 <= q <= n,
            forall|m: int| 0 <= m < q ==> list@[m] != x,
        decreases n - q,
    {
        if list[q] == x {
            assert(list@[q as int] == x);
            return true;
        }
        q = q + 1;
    }
    false
}

/// Entity lifecycle atomicity: once an identity is out of the canonical
/// set of a well-formed world, no component map holds an entry for it, so
/// no later tick can observe one.
pub proof fn lemma_dead_entities_have_no_components(w: &EntityWorld, id: u128)
    requires
        w.wf(),
        !w.live().contains_key(id),
    ensures
        !w.positions().contains_key(id),
        !w.velocities().contains_key(id),
        !w.hitboxes().contains_key(id),
        !w.order_list().contains(id),
{
}

/// Membership in a roster after removing the element at index `i`.
proof fn lemma_roster_remove(order: Seq<u128>, i: int, x: u128)
    requires
        0 <= i < order.len(),
        forall|a: int, b: int| 0 <= a < b < order.len() ==> order[a] != order[b],
    ensures
        order.remove(i).contains(x) <==> order.contains(x) && x != order[i],
{
    let removed = order.remove(i);
    if removed.contains(x) {
        let m = choose|m: int| 0 <= m < removed.len() && removed[m] == x;
        if m < i {
            assert(order[m] == x);
            if x == order[i] {
                assert(order[m] == order[i]);
            }
        } else {
            assert(order[m + 1] == x);
            if x == order[i] {
                assert(order[m + 1] == order[i]);
            }
        }
    }
    if order.contains(x) && x != order[i] {
        let m = choose|m: int| 0 <= m < order.len() && order[m] == x;
        if m < i {
            assert(removed[m] == x);
        } else {
            assert(m != i);
            assert(removed[m - 1] == x);
        }
    }
}

/// A filtered sequence only holds elements of the sequence it came from.
proof fn lemma_filter_is_subset(s: Seq<u128>, pred: spec_fn(u128) -> bool, x: u128)
    requires
        s.filter(pred).contains(x),
    ensures
        s.contains(x),
    decreases s.len(),
{
    reveal(Seq::filter);
    if s.len() > 0 {
        if s.drop_last().filter(pred).contains(x) {
            lemma_filter_is_subset(s.drop_last(), pred, x);
            let m = choose|m: int| 0 <= m < s.len() - 1 && s.drop_last()[m] == x;
            assert(s[m] == x);
        } else {
            assert(x == s.last());
        }
    }
}

/// Filtering a duplicate-free sequence keeps it duplicate-free.
proof fn lemma_filter_keeps_distinct(s: Seq<u128>, pred: spec_fn(u128) -> bool, i0: int, j0: int)
    requires
        forall|a: int, b: int| 0 <= a < b < s.len() ==> s[a] != s[b],
        0 <= i0 < j0 < s.filter(pred).len(),
    ensures
        s.filter(pred)[i0] != s.filter(pred)[j0],
    decreases s.len(),
{
    reveal(Seq::filter);
    if s.len() > 0 {
        let out = s.filter(pred);
        let prev = s.drop_last().filter(pred);
        if pred(s.last()) {
            if j0 < out.len() - 1 {
                lemma_filter_keeps_distinct(s.drop_last(), pred, i0, j0);
            } else {
                assert(out[j0] == s.last());
                assert(prev.contains(out[i0])) by {
                    assert(prev[i0] == out[i0]);
                }
                lemma_filter_is_subset(s.drop_last(), pred, out[i0]);
                let m = choose|m: int| 0 <= m < s.len() - 1 && s.drop_last()[m] == out[i0];
                if out[i0] == s.last() {
                    assert(s[m] == s[s.len() - 1]);
                }
            }
        } else {
            lemma_filter_keeps_distinct(s.drop_last(), pred, i0, j0);
        }
    }
}

} // verus!

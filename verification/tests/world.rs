use rustaria::api::{reload, Carrier};
use rustaria::chunk::{Block, BlockPrototype, Chunk, ChunkPos, ChunkStorage};
use rustaria::entity::{EntityError, EntityWorld};
use rustaria::pos::Pos;
use rustaria::prototype::{EntityPrototype, HitboxComp, VelocityCompPrototype};
use rustaria::registry::Id;
use rustaria::tag::Tag;

fn tag(m: &str, o: &str) -> Tag {
    Tag::new(m.to_owned(), o.to_owned())
}

/// stone (collides) at descriptor 0, air at descriptor 1; one walker entity
/// kind with velocity and hitbox, one drifter kind with velocity only, one
/// statue kind with neither.
fn content() -> Carrier {
    let mut carrier: Option<Carrier> = None;
    let blocks = vec![
        (tag("m", "stone"), BlockPrototype { collision: true }),
        (tag("m", "air"), BlockPrototype { collision: false }),
    ];
    let entities = vec![
        (
            tag("m", "walker"),
            EntityPrototype {
                velocity: Some(VelocityCompPrototype { dx: 1, dy: 0 }),
                hitbox: Some(HitboxComp {}),
            },
        ),
        (
            tag("m", "drifter"),
            EntityPrototype {
                velocity: Some(VelocityCompPrototype { dx: 2, dy: -1 }),
                hitbox: None,
            },
        ),
        (tag("m", "statue"), EntityPrototype { velocity: None, hitbox: None }),
    ];
    reload(&mut carrier, blocks, entities).unwrap();
    carrier.unwrap()
}

fn air_chunk(carrier: &Carrier) -> Chunk {
    let id: Id<rustaria::chunk::BlockDesc> = Id::new(1);
    Chunk::filled(carrier.blocks.get(id).create(id))
}

#[test]
fn pos_converts_to_chunk_and_cell() {
    let p = Pos { x: 17, y: -1 };
    let c = p.chunk().unwrap();
    assert_eq!((c.x, c.y), (1, -1));
    let (lx, ly) = p.cell();
    assert_eq!((lx, ly), (1, 15));
}

#[test]
fn chunk_storage_tracks_residency_and_dirty_once() {
    let carrier = content();
    let mut storage = ChunkStorage::new();
    let pos = ChunkPos { x: 2, y: -3 };
    assert!(!storage.contains(pos));
    storage.put_chunk(pos, air_chunk(&carrier));
    storage.mark_dirty(pos);
    storage.mark_dirty(pos);
    assert!(storage.contains(pos));
    let dirty = storage.drain_dirty();
    assert_eq!(dirty.len(), 1);
    assert_eq!(dirty[0], pos);
    assert_eq!(storage.drain_dirty().len(), 0);
}

#[test]
fn chunk_set_block_changes_one_cell() {
    let carrier = content();
    let mut storage = ChunkStorage::new();
    let pos = ChunkPos { x: 0, y: 0 };
    storage.put_chunk(pos, air_chunk(&carrier));
    storage.drain_dirty();
    let stone_id: Id<rustaria::chunk::BlockDesc> = Id::new(0);
    let stone: Block = carrier.blocks.get(stone_id).create(stone_id);
    assert!(storage.set_block(pos, 3, 4, stone));
    let chunk = storage.get_chunk(pos).unwrap();
    assert!(chunk.get(3, 4).get_collision());
    assert!(!chunk.get(3, 5).get_collision());
    assert_eq!(storage.drain_dirty(), vec![pos]);
    assert!(!storage.set_block(ChunkPos { x: 9, y: 9 }, 0, 0, stone));
}

#[test]
fn spawn_without_carrier_is_recoverable() {
    let mut world = EntityWorld::new();
    let r = world.spawn(0, Pos { x: 0, y: 0 });
    assert_eq!(r.err().unwrap(), EntityError::CarrierUnavailable);
}

#[test]
fn spawn_unknown_descriptor_is_rejected() {
    let carrier = content();
    let mut world = EntityWorld::new();
    world.reload(&carrier);
    let r = world.spawn(99, Pos { x: 0, y: 0 });
    assert_eq!(r.err().unwrap(), EntityError::UnknownDescriptor);
}

#[test]
fn spawn_populates_components_from_descriptor() {
    let carrier = content();
    let mut world = EntityWorld::new();
    world.reload(&carrier);
    let walker = world.spawn(0, Pos { x: 5, y: 5 }).unwrap();
    let statue = world.spawn(2, Pos { x: 9, y: 9 }).unwrap();
    assert_ne!(walker, statue);
    assert!(world.contains(walker));
    assert_eq!(world.descriptor_of(walker).unwrap(), 0);
    assert_eq!(world.position_of(walker).unwrap().position, Pos { x: 5, y: 5 });
    assert_eq!(world.velocity_of(walker).unwrap().dx, 1);
    assert!(world.hitbox_of(walker).is_some());
    assert!(world.velocity_of(statue).is_none());
    assert!(world.hitbox_of(statue).is_none());
    assert_eq!(world.roster().len(), 2);
}

#[test]
fn kill_removes_entity_from_every_map() {
    let carrier = content();
    let mut world = EntityWorld::new();
    world.reload(&carrier);
    let walker = world.spawn(0, Pos { x: 5, y: 5 }).unwrap();
    let other = world.spawn(1, Pos { x: 7, y: 7 }).unwrap();
    world.kill(walker);
    assert!(!world.contains(walker));
    assert!(world.descriptor_of(walker).is_none());
    assert!(world.position_of(walker).is_none());
    assert!(world.velocity_of(walker).is_none());
    assert!(world.hitbox_of(walker).is_none());
    assert!(!world.roster().contains(&walker));
    assert!(world.contains(other));
    let chunks = ChunkStorage::new();
    world.tick(&chunks);
    assert!(!world.contains(walker));
}

#[test]
fn tick_moves_drifter_without_hitbox_unconditionally() {
    let carrier = content();
    let mut world = EntityWorld::new();
    world.reload(&carrier);
    let drifter = world.spawn(1, Pos { x: 10, y: 10 }).unwrap();
    let chunks = ChunkStorage::new();
    world.tick(&chunks);
    assert_eq!(world.position_of(drifter).unwrap().position, Pos { x: 12, y: 9 });
    world.tick(&chunks);
    assert_eq!(world.position_of(drifter).unwrap().position, Pos { x: 14, y: 8 });
}

#[test]
fn tick_defers_collision_death_to_end_of_pass() {
    let carrier = content();
    let mut world = EntityWorld::new();
    world.reload(&carrier);

    // A solid chunk at (0, 0): every cell collides.
    let mut chunks = ChunkStorage::new();
    let stone_id: Id<rustaria::chunk::BlockDesc> = Id::new(0);
    let stone = carrier.blocks.get(stone_id).create(stone_id);
    chunks.put_chunk(ChunkPos { x: 0, y: 0 }, Chunk::filled(stone));

    // The walker steps from (-1, 3) into the solid chunk and dies at the end
    // of the tick; the drifter spawned after it still moves this same tick,
    // so the pass was not cut short by the removal.
    let walker = world.spawn(0, Pos { x: -1, y: 3 }).unwrap();
    let drifter = world.spawn(1, Pos { x: 20, y: 20 }).unwrap();
    world.tick(&chunks);
    assert!(!world.contains(walker));
    assert!(world.position_of(walker).is_none());
    assert!(world.velocity_of(walker).is_none());
    assert!(world.hitbox_of(walker).is_none());
    assert_eq!(world.position_of(drifter).unwrap().position, Pos { x: 22, y: 19 });
    assert_eq!(world.roster().len(), 1);
}

#[test]
fn tick_keeps_walker_moving_through_open_space() {
    let carrier = content();
    let mut world = EntityWorld::new();
    world.reload(&carrier);
    let mut chunks = ChunkStorage::new();
    chunks.put_chunk(ChunkPos { x: 0, y: 0 }, air_chunk(&carrier));
    let walker = world.spawn(0, Pos { x: 1, y: 1 }).unwrap();
    world.tick(&chunks);
    assert!(world.contains(walker));
    assert_eq!(world.position_of(walker).unwrap().position, Pos { x: 2, y: 1 });
}

#[test]
fn set_position_moves_only_live_entities() {
    let carrier = content();
    let mut world = EntityWorld::new();
    world.reload(&carrier);
    let statue = world.spawn(2, Pos { x: 0, y: 0 }).unwrap();
    assert!(world.set_position(statue, Pos { x: 4, y: 4 }));
    assert_eq!(world.position_of(statue).unwrap().position, Pos { x: 4, y: 4 });
    world.kill(statue);
    assert!(!world.set_position(statue, Pos { x: 5, y: 5 }));
}

#[test]
fn position_offset_saturates_at_the_world_edge() {
    let p = Pos { x: i64::MAX, y: i64::MIN };
    let q = p.offset(1, -1);
    assert_eq!(q, Pos { x: i64::MAX, y: i64::MIN });
    let r = p.offset(-1, 1);
    assert_eq!(r, Pos { x: i64::MAX - 1, y: i64::MIN + 1 });
}

#[test]
fn uuid_spawns_distinct_identities() {
    let a = rustaria::entity::uuid();
    let b = rustaria::entity::uuid();
    assert_ne!(a, b);
}

#[test]
fn uuid_has_the_version_four_shape() {
    for _ in 0..32 {
        let id = rustaria::entity::uuid();
        assert_eq!((id >> 76) & 0xf, 4, "version nibble");
        assert_eq!((id >> 62) & 0x3, 2, "variant bits");
    }
}

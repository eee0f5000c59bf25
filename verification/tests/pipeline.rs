use std::sync::Arc;

use rustaria::api::{reload, Carrier};
use rustaria::chunk::{BlockPrototype, ChunkPos};
use rustaria::packet::{
    ClientChunkPacket, ClientPacket, ClientPlayerPacket, PlayerJoinData, ServerChunkPacket,
    ServerPacket, ServerPlayerPacket,
};
use rustaria::server::{Rustaria, ServerWorld};
use rustaria::streaming::ChunkHandler;
use rustaria::tag::Tag;
use rustaria::transport::ServerNetwork;
use rustaria::worldgen::ChunkGenerator;
use rustaria::entity::EntityWorld;

fn tag(m: &str, o: &str) -> Tag {
    Tag::new(m.to_owned(), o.to_owned())
}

fn content() -> Carrier {
    let mut carrier: Option<Carrier> = None;
    let blocks = vec![
        (tag("m", "stone"), BlockPrototype { collision: true }),
        (tag("m", "air"), BlockPrototype { collision: false }),
    ];
    reload(&mut carrier, blocks, Vec::new()).unwrap();
    carrier.unwrap()
}

fn pool() -> Arc<rayon::ThreadPool> {
    Arc::new(rayon::ThreadPoolBuilder::new().num_threads(2).build().unwrap())
}

const PATIENCE: usize = 200_000_000;

#[test]
fn generation_request_is_idempotent_and_completes_once() {
    let mut generator = ChunkGenerator::new(content(), pool()).unwrap();
    let pos = ChunkPos { x: 3, y: -2 };
    generator.request_chunk(pos);
    generator.request_chunk(pos);

    let mut completions = 0usize;
    let mut tries = 0usize;
    while completions == 0 && tries < PATIENCE {
        for (_, chunk) in generator.poll_chunks() {
            assert!(chunk.is_some(), "generation succeeds with content loaded");
            completions += 1;
        }
        tries += 1;
    }
    assert_eq!(completions, 1, "two requests yield exactly one completion");
    // Whatever else the channel might still do, the position is no longer
    // pending, so no further completion for it can be delivered.
    for _ in 0..1000 {
        assert_eq!(generator.poll_chunks().len(), 0);
    }
}

#[test]
fn generated_chunks_are_deterministic_in_carrier_and_position() {
    let carrier = content();
    let below = rustaria::worldgen::generate_chunk(&carrier, ChunkPos { x: 0, y: -1 }).unwrap();
    let above = rustaria::worldgen::generate_chunk(&carrier, ChunkPos { x: 0, y: 1 }).unwrap();
    assert!(below.get(0, 0).get_collision(), "below the axis the world is stone");
    assert!(!above.get(0, 0).get_collision(), "above the axis the world is air");
    let again = rustaria::worldgen::generate_chunk(&carrier, ChunkPos { x: 0, y: -1 }).unwrap();
    assert_eq!(again.get(5, 9).get_id().index(), below.get(5, 9).get_id().index());
}

#[test]
fn generation_fails_recoverably_without_content() {
    let mut empty: Option<Carrier> = None;
    reload(&mut empty, Vec::new(), Vec::new()).unwrap();
    let r = rustaria::worldgen::generate_chunk(&empty.unwrap(), ChunkPos { x: 0, y: 0 });
    assert!(r.is_err());
}

#[test]
fn pending_and_resident_are_mutually_exclusive() {
    let mut world = ServerWorld::new(content(), pool()).unwrap();
    let token = rustaria::transport::Token { raw: 0 };
    let pos = ChunkPos { x: 1, y: 1 };
    let ready = world.handle_request(token, &vec![pos]);
    assert_eq!(ready.len(), 0, "nothing is resident yet");
    // The position is pending; until the tick polls the pipeline it cannot
    // be resident, and once it is resident it is no longer pending: a
    // re-request then returns the chunk instead of spawning work.
    let mut delivered = Vec::new();
    let mut tries = 0usize;
    while delivered.is_empty() && tries < PATIENCE {
        let (done, failed) = world.tick();
        assert!(failed.is_empty(), "generation succeeds with content loaded");
        delivered = done;
        tries += 1;
    }
    assert_eq!(delivered.len(), 1);
    assert_eq!(delivered[0].0, pos);
    assert_eq!(delivered[0].2, vec![0u32], "the requesting token is interested");
    let ready = world.handle_request(token, &vec![pos]);
    assert_eq!(ready.len(), 1, "a completed position is served from storage");
    assert_eq!(ready[0].0, pos);
}

#[test]
fn stationary_viewer_requests_nothing_again() {
    let mut handler = ChunkHandler::new();
    let viewer = ChunkPos { x: 0, y: 0 };
    let first = handler.tick(viewer, 16);
    assert_eq!(first.len(), 9);
    for _ in 0..5 {
        assert_eq!(handler.tick(viewer, 16).len(), 0);
    }
}

#[test]
fn viewer_window_streams_exactly_the_new_column_on_boundary_cross() {
    let mut handler = ChunkHandler::new();

    // Radius 1 at zoom 16: the 3-by-3 window around (0, 0).
    let first = handler.tick(ChunkPos { x: 0, y: 0 }, 16);
    assert_eq!(first.len(), 9);
    for x in -1..=1 {
        for y in -1..=1 {
            assert!(first.contains(&ChunkPos { x, y }));
        }
    }

    // Crossing one chunk boundary asks for exactly the new column.
    let second = handler.tick(ChunkPos { x: 1, y: 0 }, 16);
    assert_eq!(second.len(), 3);
    assert!(second.contains(&ChunkPos { x: 2, y: -1 }));
    assert!(second.contains(&ChunkPos { x: 2, y: 0 }));
    assert!(second.contains(&ChunkPos { x: 2, y: 1 }));
}

#[test]
fn zoom_widens_the_window() {
    let mut handler = ChunkHandler::new();
    let first = handler.tick(ChunkPos { x: 0, y: 0 }, 16);
    assert_eq!(first.len(), 9);
    let wider = handler.tick(ChunkPos { x: 0, y: 0 }, 32);
    assert_eq!(wider.len(), 25 - 9, "only the ring beyond the old window is new");
}

#[test]
fn provided_chunks_are_stored_and_never_rerequested() {
    let carrier = content();
    let mut handler = ChunkHandler::new();
    let pos = ChunkPos { x: 0, y: 0 };
    let chunk = rustaria::worldgen::generate_chunk(&carrier, pos).unwrap();
    handler.packet(ServerChunkPacket::Provide(vec![(pos, chunk)]));
    assert!(handler.get_chunk(pos).is_some());
    let requests = handler.tick(pos, 16);
    assert_eq!(requests.len(), 8, "the provided centre cell is already known");
    assert!(!requests.contains(&pos));
}

#[test]
fn end_to_end_viewer_window_round_trip() {
    let carrier = content();
    let mut server = Rustaria::new(
        ServerNetwork::new(),
        ServerWorld::new(carrier, pool()).unwrap(),
        EntityWorld::new(),
    );
    let token = server.connect_local(PlayerJoinData { player: 7 }).unwrap();
    let mut handler = ChunkHandler::new();

    // The viewer at (0, 0) with radius 1 requests the 9 window positions.
    let wanted = handler.tick(ChunkPos { x: 0, y: 0 }, 16);
    assert_eq!(wanted.len(), 9);
    server
        .deliver(token, ClientPacket::Chunk(ClientChunkPacket::Request(wanted)))
        .unwrap();

    // Tick until all 9 generated chunks came back to the peer.
    let mut received = 0usize;
    let mut tries = 0usize;
    while received < 9 && tries < PATIENCE {
        let outcome = server.tick(1024);
        assert!(outcome.failed_generation.is_empty());
        for (_, packets) in outcome.outgoing {
            for packet in packets {
                match packet {
                    ServerPacket::Chunk(provide) => {
                        match &provide {
                            ServerChunkPacket::Provide(pairs) => received += pairs.len(),
                        }
                        handler.packet(provide);
                    }
                    _ => {}
                }
            }
        }
        tries += 1;
    }
    assert_eq!(received, 9);
    for x in -1..=1 {
        for y in -1..=1 {
            assert!(handler.get_chunk(ChunkPos { x, y }).is_some());
        }
    }

    // Moving to (1, 0) requests exactly the three new column positions.
    let more = handler.tick(ChunkPos { x: 1, y: 0 }, 16);
    assert_eq!(more.len(), 3);
    assert!(more.contains(&ChunkPos { x: 2, y: -1 }));
    assert!(more.contains(&ChunkPos { x: 2, y: 0 }));
    assert!(more.contains(&ChunkPos { x: 2, y: 1 }));
}

#[test]
fn join_attaches_a_player_avatar() {
    let mut entity_carrier: Option<Carrier> = None;
    reload(
        &mut entity_carrier,
        vec![(tag("m", "stone"), BlockPrototype { collision: true })],
        vec![(
            tag("m", "player"),
            rustaria::prototype::EntityPrototype { velocity: None, hitbox: None },
        )],
    )
    .unwrap();
    let carrier = entity_carrier.unwrap();
    let mut entities = EntityWorld::new();
    entities.reload(&carrier);
    let mut server = Rustaria::new(
        ServerNetwork::new(),
        ServerWorld::new(carrier, pool()).unwrap(),
        entities,
    );
    let token = server.connect_local(PlayerJoinData { player: 1 }).unwrap();
    server.deliver(token, ClientPacket::Player(ClientPlayerPacket::Join)).unwrap();
    let out = server.tick(16);
    let mut attached = false;
    for (to, packets) in out.outgoing {
        for packet in &packets {
            if let ServerPacket::Player(ServerPlayerPacket::Attach { .. }) = packet {
                assert_eq!(to, token);
                attached = true;
            }
        }
    }
    assert!(attached, "a join is answered with an attach");
}

//! Server-authoritative world synchronization engine for a chunk-grid game
//! world: dense content registries, a token-addressed peer transport, a
//! demand-driven chunk generation pipeline, chunk streaming, and a
//! component-oriented entity world advanced by a fixed-cadence tick loop.
#![verifier::loop_isolation(false)]
pub mod api;
pub mod attribute;
pub mod chunk;
pub mod entity;
pub mod lookup;
pub mod packet;
pub mod pos;
pub mod prototype;
pub mod registry;
pub mod server;
pub mod streaming;
pub mod tag;
pub mod transport;
pub mod worldgen;

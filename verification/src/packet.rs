//! The wire-level packet taxonomy and the connection-establishment state
//! machine. Serialization itself lives outside the engine; these are the
//! typed envelopes the tick loop dispatches on.
use vstd::prelude::*;
use crate::chunk::{Chunk, ChunkPos};
use crate::pos::Pos;

verus! {

/// Whether a packet must arrive or may be dropped under backpressure.
#[derive(Clone, Copy, Debug, PartialEq, Eq, Structural)]
pub enum PacketPriority {
    /// Must arrive: never dropped by the outbound path.
    Reliable,
    /// May be dropped when the outbound path is saturated.
    Droppable,
}

/// Whether a packet's delivery order matters.
#[derive(Clone, Copy, Debug, PartialEq, Eq, Structural)]
pub enum PacketOrder {
    /// May arrive out of order relative to other packets.
    Unordered,
    /// Delivered in submission order relative to its channel.
    Sequenced,
}

/// The per-message reliability contract the transport honors.
#[derive(Clone, Copy, Debug, PartialEq, Eq, Structural)]
pub struct PacketDescriptor {
    pub priority: PacketPriority,
    pub order: PacketOrder,
}

/// Server-to-client chunk traffic.
pub enum ServerChunkPacket {
    /// The requested chunks, by position.
    Provide(Vec<(ChunkPos, Chunk)>),
}

/// Client-to-server chunk traffic.
pub enum ClientChunkPacket {
    /// The positions the viewer's window needs.
    Request(Vec<ChunkPos>),
}

/// Server-to-client entity traffic.
#[derive(Clone, Copy, Debug)]
pub enum ServerEntityPacket {
    /// An entity of the given descriptor appeared at the given position.
    New(u32, Pos),
}

/// Client-to-server entity traffic.
#[derive(Clone, Copy, Debug)]
pub enum ClientEntityPacket {
    /// Ask the server to spawn an entity of the given descriptor.
    Spawn(u32, Pos),
}

/// Server-to-client player traffic.
#[derive(Clone, Copy, Debug)]
pub enum ServerPlayerPacket {
    /// The player's avatar entity and where it stands.
    Attach { entity: u128, pos: Pos },
}

/// Client-to-server player traffic.
#[derive(Clone, Copy, Debug)]
pub enum ClientPlayerPacket {
    /// Create this player's avatar entity.
    Join,
    /// Move this player's avatar.
    SetPos(Pos),
}

/// Everything the server sends.
pub enum ServerPacket {
    Chunk(ServerChunkPacket),
    Entity(ServerEntityPacket),
    Player(ServerPlayerPacket),
}

/// Everything a client sends.
pub enum ClientPacket {
    Chunk(ClientChunkPacket),
    Entity(ClientEntityPacket),
    Player(ClientPlayerPacket),
}

/// What the establishment state machine reports after feeding it bytes.
pub enum EstablishingStatus<J> {
    /// More bytes are needed.
    Await,
    /// The handshake finished with this join payload.
    Complete(J),
}

/// Why a handshake was rejected; the connection is torn down and no token is
/// ever allocated.
#[derive(Clone, Copy, Debug, PartialEq, Eq, Structural)]
pub enum HandshakeError {
    /// The first byte is not the join magic.
    BadMagic,
}

/// The first byte every join handshake starts with.
pub const JOIN_MAGIC: u8 = 74;

/// How many bytes a complete join handshake has: the magic plus a 64-bit
/// player identity.
pub const JOIN_LEN: usize = 9;

/// The join payload produced by the establishment state machine before a
/// token exists.
#[derive(Clone, Copy, Debug, PartialEq, Eq, Structural)]
pub struct PlayerJoinData {
    pub player: u64,
}

/// What feeding a handshake the accumulated bytes `all` reports: a wrong
/// magic byte rejects the connection, a short buffer awaits more bytes, and
/// a full join completes with the little-endian player identity.
pub open spec fn spec_handshake(all: Seq<u8>) -> Result<
    EstablishingStatus<PlayerJoinData>,
    HandshakeError,
> {
    if all.len() > 0 && all[0] != JOIN_MAGIC {
        Err(HandshakeError::BadMagic)
    } else if all.len() < JOIN_LEN {
        Ok(EstablishingStatus::Await)
    } else {
        Ok(
            EstablishingStatus::Complete(
                PlayerJoinData { player: spec_le_u64(all.subrange(1, JOIN_LEN as int)) as u64 },
            ),
        )
    }
}

/// The little-endian 64-bit value of 8 bytes.
pub open spec fn spec_le_u64(b: Seq<u8>) -> int
    recommends
        b.len() == 8,
{
    b[0] + 256 * (b[1] + 256 * (b[2] + 256 * (b[3] + 256 * (b[4] + 256 * (b[5] + 256 * (b[6] + 256
        * b[7]))))))
}

/// The establishment state machine of one joining connection: accumulates
/// handshake bytes until the join payload is complete or the handshake is
/// rejected.
pub struct PlayerJoinInstance {
    buffer: Vec<u8>,
}

impl PlayerJoinInstance {
    /// The handshake bytes accumulated so far.
    pub closed spec fn taken(&self) -> Seq<u8> {
        self.buffer@
    }

    pub fn new() -> (r: PlayerJoinInstance)
        ensures
            r.taken() == Seq::<u8>::empty(),
    {
        PlayerJoinInstance { buffer: Vec::new() }
    }

    /// Feeds raw connection bytes into the handshake. Reports `Complete`
    /// exactly when the accumulated bytes reach the full join length under
    /// the right magic byte, with the player identity read little-endian;
    /// a wrong magic byte rejects the connection.
    pub fn receive(&mut self, data: &[u8]) -> (r: Result<
        EstablishingStatus<PlayerJoinData>,
        HandshakeError,
    >)
        ensures
            final(self).taken() == old(self).taken() + data@,
            r == spec_handshake(old(self).taken() + data@),
    {
        let n = data.len();
        let mut i: usize = 0;
        while i < n
            invariant
                n == data@.len(),
                0 <= i <= n,
                self.buffer@ == old(self).taken() + data@.subrange(0, i as int),
            decreases n - i,
        {
            let b = data[i];
            self.buffer.push(b);
            proof {
                assert(self.buffer@ =~= old(self).taken() + data@.subrange(0, i + 1 as int));
            }
            i = i + 1;
        }
        proof {
            assert(data@.subrange(0, n as int) =~= data@);
        }
        if self.buffer.len() == 0 {
            return Ok(EstablishingStatus::Await);
        }
        if self.buffer[0] != JOIN_MAGIC {
            return Err(HandshakeError::BadMagic);
        }
        if self.buffer.len() < JOIN_LEN {
            return Ok(EstablishingStatus::Await);
        }
        let b1 = self.buffer[1] as u64;
        let b2 = self.buffer[2] as u64;
        let b3 = self.buffer[3] as u64;
        let b4 = self.buffer[4] as u64;
        let b5 = self.buffer[5] as u64;
        let b6 = self.buffer[6] as u64;
        let b7 = self.buffer[7] as u64;
        let b8 = self.buffer[8] as u64;
        let ghost all = self.buffer@;
        let t7 = b8;
        let t6 = b7 + 256 * t7;
        let t5 = b6 + 256 * t6;
        let t4 = b5 + 256 * t5;
        let t3 = b4 + 256 * t4;
        let t2 = b3 + 256 * t3;
        let t1 = b2 + 256 * t2;
        let player = b1 + 256 * t1;
        proof {
            let sub = all.subrange(1, JOIN_LEN as int);
            assert(sub[0] == all[1] && sub[1] == all[2] && sub[2] == all[3] && sub[3] == all[4]
                && sub[4] == all[5] && sub[5] == all[6] && sub[6] == all[7] && sub[7] == all[8]);
            assert(player as int == spec_le_u64(sub));
        }
        Ok(EstablishingStatus::Complete(PlayerJoinData { player }))
    }
}

} // verus!

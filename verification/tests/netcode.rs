use rustaria::packet::{
    ClientPacket, ClientPlayerPacket, EstablishingStatus, HandshakeError, PacketDescriptor,
    PacketOrder, PacketPriority, PlayerJoinData, PlayerJoinInstance, ServerEntityPacket,
    ServerPacket, JOIN_MAGIC,
};
use rustaria::pos::Pos;
use rustaria::transport::{HandshakeOutcome, ServerNetwork, Token};

fn join_bytes(player: u64) -> Vec<u8> {
    let mut bytes = vec![JOIN_MAGIC];
    let mut v = player;
    for _ in 0..8 {
        bytes.push((v & 0xff) as u8);
        v >>= 8;
    }
    bytes
}

fn reliable() -> PacketDescriptor {
    PacketDescriptor { priority: PacketPriority::Reliable, order: PacketOrder::Sequenced }
}

fn droppable() -> PacketDescriptor {
    PacketDescriptor { priority: PacketPriority::Droppable, order: PacketOrder::Unordered }
}

fn entity_packet(desc: u32) -> ServerPacket {
    ServerPacket::Entity(ServerEntityPacket::New(desc, Pos { x: 0, y: 0 }))
}

fn new_of(p: &ServerPacket) -> u32 {
    match p {
        ServerPacket::Entity(ServerEntityPacket::New(d, _)) => *d,
        _ => panic!("expected an entity packet"),
    }
}

#[test]
fn handshake_completes_with_little_endian_player_id() {
    let mut instance = PlayerJoinInstance::new();
    let r = instance.receive(&join_bytes(513)).unwrap();
    match r {
        EstablishingStatus::Complete(join) => assert_eq!(join.player, 513),
        _ => panic!("handshake should be complete"),
    }
}

#[test]
fn handshake_accumulates_fragmented_bytes() {
    let mut instance = PlayerJoinInstance::new();
    let bytes = join_bytes(0xdead_beef);
    match instance.receive(&bytes[0..3]).unwrap() {
        EstablishingStatus::Await => {}
        _ => panic!("three bytes are not a full handshake"),
    }
    match instance.receive(&bytes[3..9]).unwrap() {
        EstablishingStatus::Complete(join) => assert_eq!(join.player, 0xdead_beef),
        _ => panic!("nine bytes complete the handshake"),
    }
}

#[test]
fn handshake_rejects_wrong_magic() {
    let mut instance = PlayerJoinInstance::new();
    let r = instance.receive(&[7, 0, 0]);
    assert_eq!(r.err().unwrap(), HandshakeError::BadMagic);
}

#[test]
fn remote_connection_establishes_through_byte_handshake() {
    let mut net = ServerNetwork::new();
    let conn = net.begin_connection().unwrap();
    let bytes = join_bytes(42);
    match net.handshake(conn, &bytes[0..4]) {
        HandshakeOutcome::Awaiting => {}
        _ => panic!("partial bytes must keep awaiting"),
    }
    match net.handshake(conn, &bytes[4..9]) {
        HandshakeOutcome::Established(token, join) => {
            assert_eq!(join.player, 42);
            assert!(net.deliver(token, ClientPacket::Player(ClientPlayerPacket::Join)).is_ok());
        }
        _ => panic!("full bytes must establish"),
    }
}

#[test]
fn rejected_handshake_allocates_no_token() {
    let mut net = ServerNetwork::new();
    let conn = net.begin_connection().unwrap();
    match net.handshake(conn, &[1, 2, 3]) {
        HandshakeOutcome::Rejected => {}
        _ => panic!("bad magic must reject"),
    }
    match net.handshake(conn, &[]) {
        HandshakeOutcome::UnknownConnection => {}
        _ => panic!("a rejected connection is gone"),
    }
    assert_eq!(net.tokens().len(), 0);
}

#[test]
fn poll_drains_in_arrival_order_per_peer() {
    let mut net = ServerNetwork::new();
    let a = net.connect_local(PlayerJoinData { player: 1 }).unwrap();
    let b = net.connect_local(PlayerJoinData { player: 2 }).unwrap();
    assert_ne!(a, b);
    net.deliver(a, ClientPacket::Player(ClientPlayerPacket::SetPos(Pos { x: 1, y: 0 }))).unwrap();
    net.deliver(b, ClientPacket::Player(ClientPlayerPacket::Join)).unwrap();
    net.deliver(a, ClientPacket::Player(ClientPlayerPacket::SetPos(Pos { x: 2, y: 0 }))).unwrap();
    let drained = net.poll();
    let from_a: Vec<i64> = drained
        .iter()
        .filter(|(t, _)| *t == a)
        .map(|(_, p)| match p {
            ClientPacket::Player(ClientPlayerPacket::SetPos(q)) => q.x,
            _ => panic!("unexpected packet"),
        })
        .collect();
    assert_eq!(from_a, vec![1, 2]);
    assert_eq!(drained.len(), 3);
    assert_eq!(net.poll().len(), 0);
}

#[test]
fn flush_keeps_reliable_and_drops_droppable_over_budget() {
    let mut net = ServerNetwork::new();
    let t = net.connect_local(PlayerJoinData { player: 1 }).unwrap();
    net.send(t, entity_packet(0), droppable()).unwrap();
    net.send(t, entity_packet(1), reliable()).unwrap();
    net.send(t, entity_packet(2), droppable()).unwrap();
    net.send(t, entity_packet(3), droppable()).unwrap();
    net.send(t, entity_packet(4), reliable()).unwrap();
    let delivered = net.flush(t, 2).unwrap();
    let ids: Vec<u32> = delivered.iter().map(new_of).collect();
    // Both reliable packets arrive; only two droppable ones fit the budget;
    // submission order is kept throughout.
    assert_eq!(ids, vec![0, 1, 2, 4]);
    assert_eq!(net.flush(t, 2).unwrap().len(), 0);
}

#[test]
fn flush_with_zero_budget_still_delivers_reliable() {
    let mut net = ServerNetwork::new();
    let t = net.connect_local(PlayerJoinData { player: 1 }).unwrap();
    net.send(t, entity_packet(0), droppable()).unwrap();
    net.send(t, entity_packet(1), reliable()).unwrap();
    let ids: Vec<u32> = net.flush(t, 0).unwrap().iter().map(new_of).collect();
    assert_eq!(ids, vec![1]);
}

#[test]
fn disconnect_fires_once_and_token_is_never_reused() {
    let mut net = ServerNetwork::new();
    let a = net.connect_local(PlayerJoinData { player: 1 }).unwrap();
    assert!(net.disconnect(a));
    assert!(!net.disconnect(a));
    assert!(net.deliver(a, ClientPacket::Player(ClientPlayerPacket::Join)).is_err());
    assert!(net.send(a, entity_packet(0), reliable()).is_err());
    let b = net.connect_local(PlayerJoinData { player: 2 }).unwrap();
    assert_ne!(a, b);
}

#[test]
fn tokens_lists_connected_peers_in_connection_order() {
    let mut net = ServerNetwork::new();
    let a = net.connect_local(PlayerJoinData { player: 1 }).unwrap();
    let b = net.connect_local(PlayerJoinData { player: 2 }).unwrap();
    assert_eq!(net.tokens(), vec![a, b]);
    net.disconnect(a);
    assert_eq!(net.tokens(), vec![b]);
}

#[test]
fn token_is_plain_data() {
    let t = Token { raw: 7 };
    assert_eq!(t, Token { raw: 7 });
}

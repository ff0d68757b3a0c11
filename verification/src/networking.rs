//! The network protocol: packets framed by their size, and tagged by a hash of
//! their type's name.
use vstd::prelude::*;
use fnv::FnvHasher;
use std::hash::{Hash, Hasher};

verus! {

/// The largest frame on the wire: a size of two bytes and the largest body
/// such a size can give.
pub const MAX_PACKET_SIZE: usize = 65537;

/// What one read from the network gave.
pub enum NetworkResult {
    /// A whole packet body.
    Received(Vec<u8>),
    /// Nothing to read yet.
    WouldBlock,
    /// The other side is gone.
    ConnectionLost,
}

/// The two bytes that announce a body of `n` bytes: low byte first.
pub open spec fn size_header(n: int) -> Seq<u8> {
    seq![(n % 256) as u8, (n / 256) as u8]
}

/// The body size that the header `h` announces.
pub open spec fn announced_size(h: Seq<u8>) -> int {
    h[0] + 256 * h[1]
}

/// Puts the size of `buf`, two bytes with the low one first, in front of it.
pub fn prepend_size(buf: &mut Vec<u8>)
    requires
        old(buf)@.len() + 2 <= MAX_PACKET_SIZE,
    ensures
        final(buf)@ == size_header(old(buf)@.len() as int) + old(buf)@,
{
    let size = buf.len();
    let low = (size % 256) as u8;
    let high = (size / 256) as u8;
    buf.insert(0, low);
    buf.insert(1, high);
    assert(buf@ =~= size_header(size as int) + old(buf)@);
}

/// The body size announced by a frame's two header bytes, low byte first.
pub fn frame_size(header: [u8; 2]) -> (size: usize)
    ensures
        size == announced_size(header@),
{
    header[0] as usize + 256 * header[1] as usize
}

/// A frame made by `prepend_size` announces the size of the body it carries:
/// reading the header back gives the body's length, and the body follows it
/// unchanged.
pub proof fn lemma_frame_round_trip(body: Seq<u8>)
    requires
        body.len() + 2 <= MAX_PACKET_SIZE,
    ensures
        ({
            let frame = size_header(body.len() as int) + body;
            &&& frame.len() == body.len() + 2
            &&& announced_size(frame.take(2)) == body.len()
            &&& frame.skip(2) == body
        }),
{
    let frame = size_header(body.len() as int) + body;
    assert(frame.take(2) =~= size_header(body.len() as int));
    assert(frame.skip(2) =~= body);
}

/// A direction of movement.
#[derive(Clone, Copy, Debug, PartialEq, Eq, Structural)]
pub enum Movement {
    Left,
    Right,
    Up,
    Down,
}

/// The server tells a client its id.
#[derive(Clone, Copy, Debug, PartialEq, Eq, Structural)]
pub struct ClientID {
    pub id: u64,
}

/// A player left.
#[derive(Clone, Copy, Debug, PartialEq, Eq, Structural)]
pub struct PlayerDisconnect {
    pub id: u64,
}

/// A player is on the level at path `level`.
#[derive(Clone, Debug)]
pub struct PlayerLevel {
    pub player_id: u64,
    pub level: String,
}

/// The kinds of packet, each tagged on the wire by a hash of its type's name.
#[derive(Clone, Copy, Debug, PartialEq, Eq, Structural)]
pub enum PacketKind {
    ClientID,
    PlayerAnimation,
    PlayerPosition,
    PlayerWelcome,
    PlayerDisconnect,
    PlayerLevel,
}

/// The order in which a received packet's kind is tried.
pub const DECODE_ORDER: [PacketKind; 6] = [
    PacketKind::ClientID,
    PacketKind::PlayerAnimation,
    PacketKind::PlayerPosition,
    PacketKind::PlayerWelcome,
    PacketKind::PlayerDisconnect,
    PacketKind::PlayerLevel,
];

impl PacketKind {
    /// The name of the kind's type.
    pub open spec fn name(self) -> Seq<char> {
        match self {
            PacketKind::ClientID => "sea2d::networking::packet::ClientID"@,
            PacketKind::PlayerAnimation => "sea2d::networking::player_packets::PlayerAnimation"@,
            PacketKind::PlayerPosition => "sea2d::networking::player_packets::PlayerPosition"@,
            PacketKind::PlayerWelcome => "sea2d::networking::player_packets::PlayerWelcome"@,
            PacketKind::PlayerDisconnect => "sea2d::networking::player_packets::PlayerDisconnect"@,
            PacketKind::PlayerLevel => "sea2d::networking::player_packets::PlayerLevel"@,
        }
    }

    /// The name of the kind's type.
    pub fn kind_name(&self) -> (name: &'static str)
        ensures
            name@ == self.name(),
    {
        match self {
            PacketKind::ClientID => "sea2d::networking::packet::ClientID",
            PacketKind::PlayerAnimation => "sea2d::networking::player_packets::PlayerAnimation",
            PacketKind::PlayerPosition => "sea2d::networking::player_packets::PlayerPosition",
            PacketKind::PlayerWelcome => "sea2d::networking::player_packets::PlayerWelcome",
            PacketKind::PlayerDisconnect => "sea2d::networking::player_packets::PlayerDisconnect",
            PacketKind::PlayerLevel => "sea2d::networking::player_packets::PlayerLevel",
        }
    }
}

/// The FNV-1a hash of a text, as `str`'s `Hash` feeds it to `fnv`'s hasher.
pub uninterp spec fn fnv_str_hash(text: Seq<char>) -> u64;

/// Calls `fnv::FnvHasher` (started by `Default`) through `str`'s `Hash` on
/// `text`, then `finish`: the result is named `fnv_str_hash` of the text, as
/// it depends on the text alone; what the value is is not stated.
#[verifier::external_body]
fn hash_text(text: &str) -> (hash: u64)
    ensures
        hash == fnv_str_hash(text@),
{
    let mut hasher = FnvHasher::default();
    text.hash(&mut hasher);
    hasher.finish()
}

/// The tag of packets of kind `kind`: the hash of its type's name.
pub fn get_type_id(kind: PacketKind) -> (id: u64)
    ensures
        id == fnv_str_hash(kind.name()),
{
    hash_text(kind.kind_name())
}

/// A packet on the wire: its kind's tag, and its encoded body.
#[derive(Debug)]
pub struct PacketInternal {
    pub type_id: u64,
    pub data: Vec<u8>,
}

impl PacketInternal {
    /// A packet of kind `kind` with body `data`.
    pub fn new(kind: PacketKind, data: Vec<u8>) -> (packet: PacketInternal)
        ensures
            packet.type_id == fnv_str_hash(kind.name()),
            packet.data@ == data@,
    {
        PacketInternal { type_id: get_type_id(kind), data }
    }

    /// The body, when the packet is of kind `kind`.
    pub fn try_deserialize(&self, kind: PacketKind) -> (body: Option<&Vec<u8>>)
        ensures
            body is Some <==> self.type_id == fnv_str_hash(kind.name()),
            body matches Some(b) ==> b@ == self.data@,
    {
        if self.type_id == get_type_id(kind) {
            Some(&self.data)
        } else {
            None
        }
    }
}

} // verus!

use vstd::prelude::*;

verus! {

/// Stable address-based identity of a remote peer: network id, address bytes
/// (held as one 128-bit value, wide enough for an IPv6 address), and port.
/// Keys compare by plain value.
#[derive(Clone, Copy, PartialEq, Eq, Structural, Debug)]
pub struct NeighborKey {
    pub network_id: u32,
    pub addrbytes: u128,
    pub port: u16,
}

/// Per-connection statistics read by the pruning engine: the direction of the
/// connection, the epoch second at which it was established, and a health
/// score summarizing message-exchange reliability (higher is better).
#[derive(Clone, Copy, PartialEq, Eq, Structural, Debug)]
pub struct NeighborStats {
    pub outbound: bool,
    pub first_contact_time: u64,
    pub health_score: u64,
}

/// One live connection slot: the event id that names the slot, the neighbor
/// behind it, and the statistics of its conversation.
#[derive(Clone, Copy, PartialEq, Eq, Structural, Debug)]
pub struct ConnEntry {
    pub event_id: u64,
    pub key: NeighborKey,
    pub stats: NeighborStats,
}

/// The local node's identity, passed along for diagnostics.
#[derive(Clone, Copy, PartialEq, Eq, Structural, Debug)]
pub struct LocalPeer {
    pub network_id: u32,
    pub port: u16,
}

/// Errors surfaced by the pruning engine.
#[derive(Clone, Copy, PartialEq, Eq, Structural, Debug)]
pub enum NetError {
    /// The peer database could not be read.
    DbError,
}

/// Total order on neighbor keys: by address bytes, then network id, then port.
pub open spec fn key_le(a: NeighborKey, b: NeighborKey) -> bool {
    ||| a.addrbytes < b.addrbytes
    ||| (a.addrbytes == b.addrbytes && a.network_id < b.network_id)
    ||| (a.addrbytes == b.addrbytes && a.network_id == b.network_id && a.port <= b.port)
}

/// Decides `key_le` on two keys.
pub fn key_le_exec(a: &NeighborKey, b: &NeighborKey) -> (r: bool)
    ensures
        r == key_le(*a, *b),
{
    if a.addrbytes < b.addrbytes {
        true
    } else if a.addrbytes == b.addrbytes && a.network_id < b.network_id {
        true
    } else {
        a.addrbytes == b.addrbytes && a.network_id == b.network_id && a.port <= b.port
    }
}


/// No two keys in the list are equal.
pub open spec fn distinct_keys(s: Seq<NeighborKey>) -> bool {
    forall|a: int, b: int| 0 <= a < b < s.len() ==> (#[trigger] s[a]) != (#[trigger] s[b])
}

} // verus!

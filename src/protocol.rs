//! Records exchanged between mesh nodes to carry port events.

use vstd::prelude::*;

verus! {

/// A 128-bit identifier of a node or a port, as its 16 bytes.
#[derive(Clone, Copy, Debug)]
pub struct Uuid(pub [u8; 16]);

impl Uuid {
    /// Every byte is zero.
    pub open spec fn is_zero_spec(&self) -> bool {
        forall|i: int| 0 <= i < 16 ==> self.0@[i] == 0u8
    }

    /// The all-zero identifier.
    pub fn zero() -> (r: Uuid)
        ensures
            r.is_zero_spec(),
    {
        Uuid([0u8; 16])
    }

    pub fn is_zero(&self) -> (r: bool)
        ensures
            r == self.is_zero_spec(),
    {
        let mut i: usize = 0;
        while i < 16
            invariant
                i <= 16,
                self.0@.len() == 16,
                forall|k: int| 0 <= k < i ==> self.0@[k] == 0u8,
            decreases 16 - i,
        {
            if self.0[i] != 0 {
                return false;
            }
            i = i + 1;
        }
        true
    }
}

/// The kind of an event. Any byte value may arrive; the named ones are
/// the kinds this protocol defines.
#[derive(Clone, Copy, Debug, PartialEq, Eq, Structural)]
pub struct EventType(pub u8);

/// The byte values of the defined kinds (`EventType(EventType::MESSAGE)`).
impl EventType {
    pub const MESSAGE: u8 = 1;
    pub const CLOSE_PORT: u8 = 2;
    pub const CHANGE_PEER: u8 = 3;
    pub const ACKNOWLEDGE_CHANGE_PEER: u8 = 4;
    pub const ACKNOWLEDGE_PORT: u8 = 5;
    pub const FAIL_PORT: u8 = 6;
}

/// The header of an event sent to a port.
pub struct Event {
    pub port_id: Uuid,
    pub event_type: EventType,
    pub reserved: [u8; 7],
    pub seq: u64,
    pub resource_count: u32,
    pub message_size: u32,
}

/// The payload of a change-peer event.
pub struct ChangePeerData {
    pub node: Uuid,
    pub port: Uuid,
    pub seq_delta: u64,
    pub reserved: u64,
}

/// The payload of a fail-port event.
pub struct FailPortData {
    pub node: Uuid,
}

/// A resource carried by a message.
#[derive(Clone, Copy, Debug)]
pub struct ResourceData {
    /// If zero, this is a file descriptor/handle.
    pub id: Uuid,
    pub next_local_seq: u64,
    pub reserved: u64,
    pub old_node: Uuid,
    pub old_port: Uuid,
    /// If `peer_port` is zero, this is the node that caused the port to fail.
    pub peer_node: Uuid,
    /// If zero, the port is failed.
    pub peer_port: Uuid,
}

} // verus!

//! Guest-memory mapping manager: the table of guest physical ranges and the
//! host objects that back them, a reference-counted cache of opened backing
//! objects, and per-processor translation caches that never hand out a stale
//! host address.

pub mod range;
pub mod object_cache;
pub mod mapping;
pub mod protocol;
pub mod serial;

pub use range::GuestRange;
pub use range::HostMapping;
pub use range::MappingError;
pub use object_cache::Mappable;
pub use object_cache::ObjectCache;
pub use mapping::MappingEntry;
pub use mapping::MappingManager;
pub use mapping::VaMapper;
pub use mapping::Fault;
pub use protocol::Uuid;
pub use protocol::Event;
pub use protocol::EventType;
pub use protocol::ChangePeerData;
pub use protocol::FailPortData;
pub use protocol::ResourceData;
pub use serial::VmbusSerialPort;

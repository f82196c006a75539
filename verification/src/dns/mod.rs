//! The DNS wire codec.

pub mod buffer;
pub mod header;
pub mod name;
pub mod packet;
pub mod question;
pub mod record;
pub mod round_trip;
pub mod util;
pub mod wire;

pub use self::buffer::DnsPacketBuffer;
pub use self::header::{Header, HeaderFlags};
pub use self::packet::DnsPacket;
pub use self::question::Question;
pub use self::record::{Record, RecordData};
pub use self::util::Serialize;

pub mod header;
pub mod packet;
pub mod question;
pub mod record;

pub use header::{DNSHeader, ResultCode};
pub use packet::DNSPacket;
pub use question::{DNSQuestion, QueryType};
pub use record::{DNSRecord, Ipv4Addr};

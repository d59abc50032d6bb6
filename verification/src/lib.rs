//! DNS message wire-format codec.
pub mod types;
pub mod wire;
pub mod error;
pub mod header;
pub mod text;
pub mod name;
pub mod compress;
pub mod question;
pub mod rdata_wire;
pub mod resource_record;
pub mod message;
pub mod roundtrip;
pub mod edns;
pub mod layout;

pub use error::Error;
pub use error::Result;
pub use header::Header;
pub use message::Message;
pub use name::DnsName;
pub use question::Question;
pub use resource_record::{RData, ResourceRecord};
pub use types::{Class, EdnsOption, OpCode, RecordType, ResponseCode};

//! A codec for the DNS message wire format: the fixed header, questions and
//! resource records, and domain names with their backward-pointer
//! compression.

pub mod error;
pub mod header;
pub mod message;
pub mod name;
pub mod question;
pub mod record;
pub mod wire;

pub use error::DnsError;
pub use header::DNSHeader;
pub use message::DNSMessage;
pub use name::parse_label;
pub use question::DNSQuestion;
pub use record::DNSResourceRecord;

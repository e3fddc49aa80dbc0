//! A codec for DNS messages: queries are laid out in wire format, and raw
//! responses are parsed back into structured records.

pub mod error;
pub mod header;
pub mod message;
pub mod name;
pub mod question;
pub mod record;
pub mod text;

pub use error::DnsError;
pub use header::Header;
pub use message::{Query, Response};
pub use question::{QueryClass, QueryType, Question};
pub use record::{RData, ResourceRecord};

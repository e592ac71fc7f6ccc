//! Streams that are variables of an IEC 61850 server. One domain-specific
//! variable, a domain and an item, is one Stream: reading it is an MMS read,
//! writing it an MMS write, each an octet string.
//!
//! The messages are those of MMS ([`mms`]) and GOOSE ([`goose`]) on the BER
//! they need ([`ber`]). What the two ends of an association do with them is
//! decided by [`Client`] and [`Session`], which take what was received and
//! give what is to be sent; [`exchange`] says what they come to together.
//! The MMS PDU is carried directly in the message of the carrier, without
//! ISO session, presentation and ACSE between them.
//!
//! The origin URI names the server and the variable ([`endpoint`]):
//! `iec61850://host:102/XMIP/Stream`. A target is the same, or a bare
//! `host:port` for the configured variable.

pub mod ber;
pub mod client;
pub mod endpoint;
pub mod error;
pub mod exchange;
pub mod goose;
pub mod message;
pub mod mms;
pub mod octets;
pub mod session;
pub mod text;

pub use client::Client;
pub use endpoint::Iec61850Transport;
pub use goose::Goose;
pub use mms::Pdu;
pub use session::{Event, Session};

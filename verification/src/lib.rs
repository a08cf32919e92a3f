//! Streams that arrive as mDNS service records. One service instance
//! found is one Stream: its TXT strings, one `key=value` line each, with
//! the instance, kind, port and host in the origin.
//!
//! Multicast DNS (RFC 6762) with DNS-SD (RFC 6763) is how devices on a
//! link say what they offer without a server: a printer announces
//! `Printer._ipp._tcp.local.` on port 631 with its TXT strings, and a
//! browser asks for `_ipp._tcp.local.` and takes the answers. A node
//! listens at the group and takes what is announced, or, built
//! `browsing(kind)`, asks first and takes the answers; and it announces
//! services of its own.
//!
//! The origin URI carries what the records knew:
//! `mdns://peer/Printer._ipp._tcp.local?port=631&host=printer.local.`.
//!
//! A send goes to `mdns://host:port/<instance>.<kind>.local?port=8080`,
//! the group being `mdns://224.0.0.251:5353`; the bytes are the TXT
//! strings, one per line. A bare `host:port` has no service in it and is
//! refused.
//!
//! The library decides what is bound, asked, announced and taken; sockets
//! and the wire format of DNS are the caller's. What holds of it as a whole
//! is proved where the functions are, and in [`laws`].

pub mod address;
pub mod error;
pub mod hex;
pub mod laws;
pub mod loopback;
pub mod message;
pub mod service;
pub mod text;
pub mod transport;
pub mod txt;

pub use address::{IpAddr, Ipv4Addr, Ipv6Addr};
pub use error::Error;
pub use message::{Message, Record, RecordData, MAX_MESSAGE};
pub use service::Service;
pub use transport::{multicast_group, Arrived, Binding, MdnsTransport, GROUP, TTL};

//! Decision logic of a local forward proxy: protocol front ends, upstream
//! handshake framing and destination routing, stated over plain values.

pub mod address;
pub mod color;
pub mod error;
pub mod http_helper;
pub mod ipv6;
pub mod router;
pub mod settings;
pub mod socks5_helper;
pub mod text;
pub mod transfer;
pub mod trojan_util;

//! File transfer over lossy links: the verified core.
//!
//! A file is cut into blocks, each block becomes RaptorQ packets, each packet
//! rides in one UDP datagram, sealed with an authenticated cipher. This
//! library holds the formats, the bookkeeping and the decisions of both
//! sides; sockets, clocks and floating-point rate estimates stay with the
//! program around it.

pub mod aead;
pub mod blocks;
pub mod codec;
pub mod datagram;
pub mod digest;
pub mod error;
pub mod fec;
pub mod lossless;
pub mod rate;
pub mod recv;
pub mod replay;
pub mod sealed;
pub mod send;
pub mod sender;
pub mod spray;
pub mod text;
pub mod tls;
pub mod transfer;
pub mod udp;
pub mod wire;

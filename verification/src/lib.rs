//! Transport and session core for a peer-to-peer LAN messaging tool:
//! the line-framed JSON message codec, the per-connection reader and
//! dispatch decisions, and the chunked file-transfer protocol with a
//! streaming checksum.  Socket, filesystem and discovery I/O live in
//! the surrounding binary; everything here is plain verified logic.

pub mod codec;
pub mod dispatch;
pub mod errors;
pub mod message;
pub mod transfer;

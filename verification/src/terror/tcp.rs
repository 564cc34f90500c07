//! The framed peer protocol over a byte stream.
pub mod message;
pub mod bittorrent_codec;

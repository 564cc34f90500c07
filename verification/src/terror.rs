//! The downloader: torrent metadata, the framed peer protocol, piece
//! bookkeeping, peer selection and the state machines that drive a download.
pub mod tcp;
pub mod torrent;
pub mod piece;
pub mod peer;
pub mod utils;

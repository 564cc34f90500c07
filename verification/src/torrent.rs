//! The metainfo of a single-file torrent and its info hash.
use vstd::prelude::*;
use crate::digest::{sha1_digest, sha1_hash};

verus! {

pub struct Torrent {
    /// The tracker's URL.
    pub announce: String,
    pub info: Info,
}

pub struct Info {
    /// The file's size in bytes.
    pub length: usize,
    /// The suggested file name.
    pub name: String,
    /// The number of bytes in each piece.
    pub piece_length: usize,
    /// The SHA-1 hashes of the pieces, twenty bytes each.
    pub pieces: Vec<u8>,
}

/// The info hash of a torrent: the SHA-1 digest of its bencoded info
/// dictionary `info_raw`.
pub fn calculate_info_hash(info_raw: &[u8]) -> (h: [u8; 20])
    ensures
        h@ == sha1_hash(info_raw@),
{
    sha1_digest(info_raw)
}

} // verus!

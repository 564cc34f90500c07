//! A BitTorrent client library: bencode decoding, the peer wire protocol
//! (handshake, message framing and the streaming codec), tracker helpers,
//! torrent metadata, piece bookkeeping and the downloader state machines.
use vstd::prelude::*;

pub mod text;
pub mod decoder;
pub mod encoding;
pub mod client;
pub mod buffers;
pub mod digest;
pub mod torrent;
pub mod terror;

verus! {

/// Adds two sizes; the sum must fit in a `usize`.
pub fn add(left: usize, right: usize) -> (sum: usize)
    requires
        left + right <= usize::MAX,
    ensures
        sum == left + right,
{
    left + right
}

} // verus!

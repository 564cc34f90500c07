//! The messages exchanged with a peer once the handshake is done.
use vstd::prelude::*;
use bytes::Bytes;
use crate::buffers::bytes_contents;

verus! {

#[derive(Debug)]
pub enum Message {
    Bitfield(Bytes),
    Interested,
    Unchoke,
    Request { index: usize, begin: usize, length: usize },
    Piece { index: usize, begin: usize, block: Bytes },
}

/// The mathematical model of a message.
pub enum MessageModel {
    Bitfield(Seq<u8>),
    Interested,
    Unchoke,
    Request { index: usize, begin: usize, length: usize },
    Piece { index: usize, begin: usize, block: Seq<u8> },
}

impl Message {
    pub open spec fn model(&self) -> MessageModel {
        match self {
            Message::Bitfield(b) => MessageModel::Bitfield(bytes_contents(*b)),
            Message::Interested => MessageModel::Interested,
            Message::Unchoke => MessageModel::Unchoke,
            Message::Request { index, begin, length } => MessageModel::Request {
                index: *index,
                begin: *begin,
                length: *length,
            },
            Message::Piece { index, begin, block } => MessageModel::Piece {
                index: *index,
                begin: *begin,
                block: bytes_contents(*block),
            },
        }
    }
}

} // verus!

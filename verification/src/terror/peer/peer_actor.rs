//! One peer's actor: the block requests it writes, what each frame it reads
//! means for the download, and the exchange that opens its connection.
use vstd::prelude::*;
use crate::terror::tcp::message::{Message, MessageModel};
use crate::terror::torrent::torrent_downloader::{CompletedTask, DownloadBlock};
use crate::terror::peer::peer_actor_pool::count_down;

verus! {

/// A block request for the peer to pass on.
#[derive(Debug, Clone, Copy, PartialEq, Eq, Structural)]
pub enum DataMessage {
    Piece { index: usize, begin: usize, length: usize },
}

/// What a frame read from the peer means.
pub enum ReadStep {
    /// A block arrived: report it and read on.
    Deliver(CompletedTask),
    /// Some other message: read on.
    Skip,
    /// The stream failed or closed: report the failure and stop reading.
    Fail(CompletedTask),
}

/// Where the opening exchange stands once the handshakes are swapped.
#[derive(Debug, Clone, Copy, PartialEq, Eq, Structural)]
pub enum ConnectPhase {
    /// The peer's bitfield is expected.
    AwaitBitfield,
    /// The peer's unchoke is expected.
    AwaitUnchoke,
}

/// Why a connection could not be opened.
#[derive(Debug, Clone, Copy, PartialEq, Eq, Structural)]
pub enum ConnectError {
    /// The first message was not a bitfield.
    NoBitfield,
    /// Another message came where the unchoke was expected.
    UnexpectedMessage,
    /// The stream gave an error where the unchoke was expected.
    CouldNotConnect,
    /// The stream closed where the unchoke was expected.
    ConnectionClosed,
}

/// The next move in the opening exchange.
pub enum ConnectStep {
    /// Send this message and wait for the unchoke.
    Reply(Message),
    /// The peer is ready for requests.
    Connected,
    /// Give up on the peer.
    Failed(ConnectError),
}

/// The index of the block that starts at `begin`.
pub open spec fn block_index_of(begin: usize) -> usize {
    begin / 16384
}

impl DataMessage {
    /// The request for a block task.
    pub fn from_task(t: &DownloadBlock) -> (d: DataMessage)
        ensures
            d == (DataMessage::Piece { index: t.piece_index, begin: t.begin, length: t.length }),
    {
        DataMessage::Piece { index: t.piece_index, begin: t.begin, length: t.length }
    }

    /// The wire message that asks the peer for the block.
    pub fn to_request(&self) -> (m: Message)
        ensures
            match *self {
                DataMessage::Piece { index, begin, length } => m.model() == (MessageModel::Request {
                    index,
                    begin,
                    length,
                }),
            },
    {
        match self {
            DataMessage::Piece { index, begin, length } => Message::Request {
                index: *index,
                begin: *begin,
                length: *length,
            },
        }
    }
}

/// A copy of a peer id.
fn copy_id(s: &String) -> (r: String)
    ensures
        r@ == s@,
{
    s.clone()
}

/// What a frame read from the peer means, and the number of requests in
/// flight after it: a piece is reported as the block of that piece starting
/// at its offset; any other message is skipped; an error of any kind or the
/// end of the stream is reported as a failure. A piece and a failure each
/// answer one request in flight; a skipped message answers none.
pub fn read_step<E>(peer_id: &String, frame: Option<Result<Message, E>>, in_flight: usize) -> (r: (
    ReadStep,
    usize,
))
    ensures
        match frame {
            Some(Ok(Message::Piece { index, begin, block })) => match r.0 {
                ReadStep::Deliver(
                    CompletedTask::DownloadedBlock { peer_id: p, piece_index, block_index, bytes },
                ) => p@ == peer_id@ && piece_index == index && block_index == block_index_of(begin)
                    && bytes == block,
                _ => false,
            },
            Some(Ok(_)) => r.0 is Skip,
            _ => match r.0 {
                ReadStep::Fail(CompletedTask::FailedBlock { peer_id: p, piece_index, block_index }) => p@
                    == peer_id@ && piece_index == 0 && block_index == 0,
                _ => false,
            },
        },
        r.1 == (if r.0 is Skip {
            in_flight
        } else {
            count_down(in_flight)
        }),
{
    match frame {
        Some(Ok(Message::Piece { index, begin, block })) => (
            ReadStep::Deliver(
                CompletedTask::DownloadedBlock {
                    peer_id: copy_id(peer_id),
                    piece_index: index,
                    block_index: begin / 16384,
                    bytes: block,
                },
            ),
            after_frame(in_flight),
        ),
        Some(Ok(_)) => (ReadStep::Skip, in_flight),
        _ => (
            ReadStep::Fail(
                CompletedTask::FailedBlock { peer_id: copy_id(peer_id), piece_index: 0, block_index: 0 },
            ),
            after_frame(in_flight),
        ),
    }
}

/// The number of requests in flight after one more was written (the count
/// wraps, as the atomic counter does), and whether the reader is to be
/// woken: it is when more than five are in flight.
pub fn after_request(in_flight: usize, sent: bool) -> (r: (usize, bool))
    ensures
        r.0 == (if !sent {
            in_flight
        } else if in_flight < usize::MAX {
            (in_flight + 1) as usize
        } else {
            0
        }),
        r.1 == (r.0 > 5),
{
    let count = if sent {
        in_flight.wrapping_add(1)
    } else {
        in_flight
    };
    (count, count > 5)
}

/// The number of requests in flight after one was answered (the count
/// wraps below zero, as the atomic counter does).
pub fn after_frame(in_flight: usize) -> (r: usize)
    ensures
        r == count_down(in_flight),
{
    in_flight.wrapping_sub(1)
}

/// The next move in the opening exchange: a bitfield is answered with
/// `Interested`, and then an unchoke opens the connection. Anything else
/// ends the attempt.
pub fn connect_step<E>(phase: ConnectPhase, frame: Option<Result<Message, E>>) -> (r:
    ConnectStep)
    ensures
        phase == ConnectPhase::AwaitBitfield ==> match frame {
            Some(Ok(Message::Bitfield(_))) => match r {
                ConnectStep::Reply(m) => m.model() == MessageModel::Interested,
                _ => false,
            },
            _ => r == ConnectStep::Failed(ConnectError::NoBitfield),
        },
        phase == ConnectPhase::AwaitUnchoke ==> match frame {
            Some(Ok(Message::Unchoke)) => r is Connected,
            Some(Ok(_)) => r == ConnectStep::Failed(ConnectError::UnexpectedMessage),
            Some(Err(_)) => r == ConnectStep::Failed(ConnectError::CouldNotConnect),
            None => r == ConnectStep::Failed(ConnectError::ConnectionClosed),
        },
{
    match phase {
        ConnectPhase::AwaitBitfield => match frame {
            Some(Ok(Message::Bitfield(_))) => ConnectStep::Reply(Message::Interested),
            _ => ConnectStep::Failed(ConnectError::NoBitfield),
        },
        ConnectPhase::AwaitUnchoke => match frame {
            Some(Ok(Message::Unchoke)) => ConnectStep::Connected,
            Some(Ok(_)) => ConnectStep::Failed(ConnectError::UnexpectedMessage),
            Some(Err(_)) => ConnectStep::Failed(ConnectError::CouldNotConnect),
            None => ConnectStep::Failed(ConnectError::ConnectionClosed),
        },
    }
}

/// A block requested at `begin` comes back reported under the index of the
/// block that starts there: block `j` of a piece starts at `j * 16384`.
pub proof fn lemma_block_index_roundtrip(j: usize)
    requires
        j * 16384 <= usize::MAX,
    ensures
        block_index_of((j * 16384) as usize) == j,
{
}

} // verus!

//! Peer wire messages as the client exchanges them while downloading: each
//! message travels as a four-byte big-endian length, a type byte and a
//! payload.
use vstd::prelude::*;
use crate::encoding::{be_bytes, be_value, lemma_be_roundtrip, u32_from_be, u32_to_be};

verus! {

#[derive(PartialEq, Debug)]
pub enum Message {
    Bitfield { bitfield: Vec<u8> },
    Interested,
    Unchoke,
    Request { index: u32, begin: u32, length: u32 },
    Piece { index: u32, begin: u32, block: Vec<u8> },
}

/// The mathematical model of a message.
pub enum MessageModel {
    Bitfield { bitfield: Seq<u8> },
    Interested,
    Unchoke,
    Request { index: u32, begin: u32, length: u32 },
    Piece { index: u32, begin: u32, block: Seq<u8> },
}

/// Why a received message could not be read.
#[derive(PartialEq, Eq, Structural, Debug, Clone, Copy)]
pub enum MessageError {
    UnknownType(u8),
    /// Another message came, or none, where a piece was expected.
    UnexpectedMessage,
}

impl Message {
    pub open spec fn model(&self) -> MessageModel {
        match self {
            Message::Bitfield { bitfield } => MessageModel::Bitfield { bitfield: bitfield@ },
            Message::Interested => MessageModel::Interested,
            Message::Unchoke => MessageModel::Unchoke,
            Message::Request { index, begin, length } => MessageModel::Request {
                index: *index,
                begin: *begin,
                length: *length,
            },
            Message::Piece { index, begin, block } => MessageModel::Piece {
                index: *index,
                begin: *begin,
                block: block@,
            },
        }
    }
}

impl MessageModel {
    /// The type byte of each kind of message.
    pub open spec fn type_byte(self) -> u8 {
        match self {
            MessageModel::Unchoke => 1,
            MessageModel::Interested => 2,
            MessageModel::Bitfield { .. } => 5,
            MessageModel::Request { .. } => 6,
            MessageModel::Piece { .. } => 7,
        }
    }

    /// The bytes that follow the type byte.
    pub open spec fn payload(self) -> Seq<u8> {
        match self {
            MessageModel::Request { index, begin, length } => be_bytes(index) + be_bytes(begin)
                + be_bytes(length),
            MessageModel::Piece { index, begin, block } => be_bytes(index) + be_bytes(begin) + block,
            MessageModel::Bitfield { bitfield } => bitfield,
            _ => Seq::empty(),
        }
    }

    /// The whole frame: the length of type byte and payload (kept to 32 bits),
    /// the type byte, the payload.
    pub open spec fn frame(self) -> Seq<u8> {
        be_bytes((1 + self.payload().len()) as u32) + seq![self.type_byte()] + self.payload()
    }
}

/// What a received frame with the given type byte and payload reads as.
pub open spec fn read_model(message_type: u8, payload: Seq<u8>) -> Result<MessageModel, MessageError> {
    if message_type == 5 {
        Ok(MessageModel::Bitfield { bitfield: payload })
    } else if message_type == 2 {
        Ok(MessageModel::Interested)
    } else if message_type == 1 {
        Ok(MessageModel::Unchoke)
    } else if message_type == 6 {
        Ok(
            MessageModel::Request {
                index: be_value(payload.subrange(0, 4)),
                begin: be_value(payload.subrange(4, 8)),
                length: be_value(payload.subrange(8, 12)),
            },
        )
    } else if message_type == 7 {
        Ok(
            MessageModel::Piece {
                index: be_value(payload.subrange(0, 4)),
                begin: be_value(payload.subrange(4, 8)),
                block: payload.skip(8),
            },
        )
    } else {
        Err(MessageError::UnknownType(message_type))
    }
}

/// The payload is long enough for the fields that its type reads.
pub open spec fn payload_fits(message_type: u8, payload: Seq<u8>) -> bool {
    &&& message_type == 6 ==> payload.len() >= 12
    &&& message_type == 7 ==> payload.len() >= 8
}

fn append_slice(buf: &mut Vec<u8>, data: &[u8])
    ensures
        final(buf)@ == old(buf)@ + data@,
{
    let mut i: usize = 0;
    while i < data.len()
        invariant
            i <= data@.len(),
            buf@ == old(buf)@ + data@.take(i as int),
        decreases data@.len() - i,
    {
        buf.push(data[i]);
        i = i + 1;
        assert(buf@ =~= old(buf)@ + data@.take(i as int));
    }
    assert(data@.take(data@.len() as int) =~= data@);
}

impl Message {
    pub fn type_byte(&self) -> (b: u8)
        ensures
            b == self.model().type_byte(),
    {
        match self {
            Message::Unchoke => 1,
            Message::Interested => 2,
            Message::Bitfield { .. } => 5,
            Message::Request { .. } => 6,
            Message::Piece { .. } => 7,
        }
    }

    /// The frame that carries this message.
    pub fn encode(&self) -> (buf: Vec<u8>)
        requires
            self.model().payload().len() < usize::MAX,
        ensures
            buf@ == self.model().frame(),
    {
        let mut payload: Vec<u8> = Vec::new();
        match self {
            Message::Request { index, begin, length } => {
                append_slice(&mut payload, u32_to_be(*index).as_slice());
                append_slice(&mut payload, u32_to_be(*begin).as_slice());
                append_slice(&mut payload, u32_to_be(*length).as_slice());
            },
            Message::Piece { index, begin, block } => {
                append_slice(&mut payload, u32_to_be(*index).as_slice());
                append_slice(&mut payload, u32_to_be(*begin).as_slice());
                append_slice(&mut payload, block.as_slice());
            },
            Message::Bitfield { bitfield } => {
                append_slice(&mut payload, bitfield.as_slice());
            },
            _ => {},
        }
        assert(payload@ =~= self.model().payload());
        let total = #[verifier::truncate] ((1 + payload.len()) as u32);
        let mut buf: Vec<u8> = Vec::new();
        append_slice(&mut buf, u32_to_be(total).as_slice());
        buf.push(self.type_byte());
        append_slice(&mut buf, payload.as_slice());
        assert(buf@ =~= self.model().frame());
        buf
    }

    /// Reads a received message from its type byte and payload.
    pub fn read(message_type: u8, payload: &[u8]) -> (res: Result<Message, MessageError>)
        requires
            payload_fits(message_type, payload@),
        ensures
            match res {
                Ok(m) => read_model(message_type, payload@) == Ok::<MessageModel, MessageError>(m.model()),
                Err(e) => read_model(message_type, payload@) == Err::<MessageModel, MessageError>(e),
            },
    {
        if message_type == 5 {
            let bitfield = vstd::slice::slice_to_vec(payload);
            Ok(Message::Bitfield { bitfield })
        } else if message_type == 2 {
            Ok(Message::Interested)
        } else if message_type == 1 {
            Ok(Message::Unchoke)
        } else if message_type == 6 {
            let index = u32_from_be(payload[0], payload[1], payload[2], payload[3]);
            let begin = u32_from_be(payload[4], payload[5], payload[6], payload[7]);
            let length = u32_from_be(payload[8], payload[9], payload[10], payload[11]);
            assert(seq![payload[0], payload[1], payload[2], payload[3]] =~= payload@.subrange(0, 4));
            assert(seq![payload[4], payload[5], payload[6], payload[7]] =~= payload@.subrange(4, 8));
            assert(seq![payload[8], payload[9], payload[10], payload[11]] =~= payload@.subrange(8, 12));
            Ok(Message::Request { index, begin, length })
        } else if message_type == 7 {
            let index = u32_from_be(payload[0], payload[1], payload[2], payload[3]);
            let begin = u32_from_be(payload[4], payload[5], payload[6], payload[7]);
            assert(seq![payload[0], payload[1], payload[2], payload[3]] =~= payload@.subrange(0, 4));
            assert(seq![payload[4], payload[5], payload[6], payload[7]] =~= payload@.subrange(4, 8));
            let block = vstd::slice::slice_to_vec(vstd::slice::slice_subrange(payload, 8, payload.len()));
            assert(block@ =~= payload@.skip(8));
            Ok(Message::Piece { index, begin, block })
        } else {
            Err(MessageError::UnknownType(message_type))
        }
    }

    /// The payload size announced by a non-zero length prefix: everything
    /// after the type byte.
    pub fn payload_len(length_prefix: u32) -> (n: usize)
        requires
            length_prefix > 0,
        ensures
            n == length_prefix - 1,
    {
        (length_prefix - 1) as usize
    }

    /// The reply owed to the first message a peer sends after the
    /// handshake: a bitfield is answered with interest, anything else with
    /// nothing.
    pub fn reply_to_first(&self) -> (reply: Option<Message>)
        ensures
            reply is Some <==> self.model() is Bitfield,
            reply matches Some(r) ==> r.model() is Interested,
    {
        match self {
            Message::Bitfield { .. } => Some(Message::Interested),
            _ => None,
        }
    }

    /// The block a peer's answer to a request carries: a piece message gives
    /// its block; any other message, or a failed read, is an error.
    pub fn block_of<E>(response: Result<Message, E>) -> (r: Result<Vec<u8>, MessageError>)
        ensures
            match response {
                Ok(Message::Piece { block, .. }) => r matches Ok(b) && b@ == block@,
                _ => r == Err::<Vec<u8>, MessageError>(MessageError::UnexpectedMessage),
            },
    {
        match response {
            Ok(Message::Piece { block, .. }) => Ok(block),
            _ => Err(MessageError::UnexpectedMessage),
        }
    }
}

/// Reading back the frame of a message gives the message: its length prefix
/// counts the type byte and payload, and the type byte and payload read as
/// the message again.
pub proof fn lemma_frame_roundtrip(m: MessageModel)
    requires
        m.payload().len() < u32::MAX,
    ensures
        m.frame().len() >= 5,
        be_value(m.frame().take(4)) == m.frame().len() - 4,
        payload_fits(m.frame()[4], m.frame().skip(5)),
        read_model(m.frame()[4], m.frame().skip(5)) == Ok::<MessageModel, MessageError>(m),
{
    let f = m.frame();
    let p = m.payload();
    lemma_be_roundtrip((1 + p.len()) as u32);
    assert(f.take(4) =~= be_bytes((1 + p.len()) as u32));
    assert(f.skip(5) =~= p);
    match m {
        MessageModel::Request { index, begin, length } => {
            lemma_be_roundtrip(index);
            lemma_be_roundtrip(begin);
            lemma_be_roundtrip(length);
            assert(p.subrange(0, 4) =~= be_bytes(index));
            assert(p.subrange(4, 8) =~= be_bytes(begin));
            assert(p.subrange(8, 12) =~= be_bytes(length));
        },
        MessageModel::Piece { index, begin, block } => {
            lemma_be_roundtrip(index);
            lemma_be_roundtrip(begin);
            assert(p.subrange(0, 4) =~= be_bytes(index));
            assert(p.subrange(4, 8) =~= be_bytes(begin));
            assert(p.skip(8) =~= block);
        },
        _ => {},
    }
}

/// A request's frame announces thirteen bytes (the type byte and three
/// four-byte numbers) and carries them: seventeen bytes in all, the numbers
/// big-endian after the type byte 6. No frame of this shape has fewer bytes
/// after its length prefix than the prefix announces.
pub proof fn lemma_request_frame(index: u32, begin: u32, length: u32)
    ensures
        ({
            let f = (MessageModel::Request { index, begin, length }).frame();
            &&& f.len() == 17
            &&& be_value(f.take(4)) == 13
            &&& be_value(f.take(4)) == f.len() - 4
            &&& f[4] == 6
            &&& f.subrange(5, 9) == be_bytes(index)
            &&& f.subrange(9, 13) == be_bytes(begin)
            &&& f.subrange(13, 17) == be_bytes(length)
        }),
{
    let m = MessageModel::Request { index, begin, length };
    lemma_frame_roundtrip(m);
    let f = m.frame();
    assert(f.subrange(5, 9) =~= be_bytes(index));
    assert(f.subrange(9, 13) =~= be_bytes(begin));
    assert(f.subrange(13, 17) =~= be_bytes(length));
}

/// Different messages have different frames: a frame determines its
/// message, which is read back from it.
pub proof fn lemma_frames_distinct(m1: MessageModel, m2: MessageModel)
    requires
        m1.payload().len() < u32::MAX,
        m2.payload().len() < u32::MAX,
        m1.frame() == m2.frame(),
    ensures
        m1 == m2,
{
    lemma_frame_roundtrip(m1);
    lemma_frame_roundtrip(m2);
}

/// A piece's frame is its length (nine plus the block's size), the type
/// byte 7, the piece index, then the offset, both big-endian, then the
/// block; a bitfield's frame is its length, the type byte 5, then its bytes.
/// Reading such payloads gives the fields back in that order.
pub proof fn lemma_piece_and_bitfield_frames(index: u32, begin: u32, block: Seq<u8>, bits: Seq<u8>)
    requires
        9 + block.len() < u32::MAX,
        1 + bits.len() < u32::MAX,
    ensures
        (MessageModel::Piece { index, begin, block }).frame() == be_bytes((9 + block.len()) as u32)
            + seq![7u8] + be_bytes(index) + be_bytes(begin) + block,
        read_model(7, be_bytes(index) + be_bytes(begin) + block) == Ok::<MessageModel, MessageError>(
            MessageModel::Piece { index, begin, block },
        ),
        (MessageModel::Bitfield { bitfield: bits }).frame() == be_bytes((1 + bits.len()) as u32)
            + seq![5u8] + bits,
        read_model(5, bits) == Ok::<MessageModel, MessageError>(MessageModel::Bitfield { bitfield: bits }),
{
    let p = be_bytes(index) + be_bytes(begin) + block;
    lemma_be_roundtrip(index);
    lemma_be_roundtrip(begin);
    assert(p.subrange(0, 4) =~= be_bytes(index));
    assert(p.subrange(4, 8) =~= be_bytes(begin));
    assert(p.skip(8) =~= block);
    assert((MessageModel::Piece { index, begin, block }).frame() =~= be_bytes((9 + block.len()) as u32)
        + seq![7u8] + be_bytes(index) + be_bytes(begin) + block);
    assert((MessageModel::Bitfield { bitfield: bits }).frame() =~= be_bytes((1 + bits.len()) as u32)
        + seq![5u8] + bits);
}

} // verus!

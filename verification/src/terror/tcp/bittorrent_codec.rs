//! Framing of peer messages: a four-byte big-endian length, a type byte and
//! the fields of the message.
use vstd::prelude::*;
use bytes::BytesMut;
use crate::buffers::{
    buf_advance, buf_as_slice, buf_contents, buf_extend, buf_freeze, buf_get_u32, buf_get_u8, buf_len,
    buf_put_u32, buf_put_u8, buf_split_to, bytes_as_slice, bytes_contents,
};
use crate::encoding::{be_bytes, be_value, lemma_be_roundtrip, u32_from_be};
use crate::terror::tcp::message::{Message, MessageModel};

verus! {

pub struct BitTorrentCodec;

/// Why a frame could not be decoded.
#[derive(PartialEq, Eq, Structural, Debug, Clone, Copy)]
pub enum CodecError {
    UnknownMessageType(u8),
}

/// What one decoding step finds at the front of the buffer.
pub enum DecodeOutcome {
    /// Not enough bytes yet (some may have been consumed).
    NeedMore,
    Frame(MessageModel),
    /// A frame of a type the codec does not know.
    Unknown(u8),
}

/// The frame's announced length.
pub open spec fn frame_length(c: Seq<u8>) -> int {
    be_value(c.take(4)) as int
}

/// One decoding step on the buffer contents `c`: what it finds and what the
/// buffer holds afterwards.
pub open spec fn decode_step(c: Seq<u8>) -> (DecodeOutcome, Seq<u8>) {
    if c.len() < 4 {
        (DecodeOutcome::NeedMore, c)
    } else if c.len() < frame_length(c) + 4 {
        (DecodeOutcome::NeedMore, c)
    } else {
        let length = frame_length(c);
        let c1 = c.skip(4);
        if c1.len() == 0 {
            (DecodeOutcome::NeedMore, c1)
        } else {
            let t = c1[0];
            let c2 = c1.skip(1);
            if t == 1 {
                (DecodeOutcome::Frame(MessageModel::Unchoke), c2)
            } else if t == 2 {
                (DecodeOutcome::Frame(MessageModel::Interested), c2)
            } else if t == 5 {
                (DecodeOutcome::Frame(MessageModel::Bitfield(c2.take(length - 1))), c2.skip(length - 1))
            } else if t == 6 {
                if c2.len() < 12 {
                    (DecodeOutcome::NeedMore, c2)
                } else {
                    (
                        DecodeOutcome::Frame(
                            MessageModel::Request {
                                index: be_value(c2.subrange(0, 4)) as usize,
                                begin: be_value(c2.subrange(4, 8)) as usize,
                                length: be_value(c2.subrange(8, 12)) as usize,
                            },
                        ),
                        c2.skip(12),
                    )
                }
            } else if t == 7 {
                if c2.len() < 8 {
                    (DecodeOutcome::NeedMore, c2)
                } else {
                    (
                        DecodeOutcome::Frame(
                            MessageModel::Piece {
                                index: be_value(c2.subrange(0, 4)) as usize,
                                begin: be_value(c2.subrange(4, 8)) as usize,
                                block: c2.subrange(8, 8 + length - 9),
                            },
                        ),
                        c2.skip(8 + length - 9),
                    )
                }
            } else {
                (DecodeOutcome::Unknown(t), c2)
            }
        }
    }
}

/// The step is defined: a complete bitfield frame announces at least its
/// type byte, and a piece frame whose index and offset are present announces
/// at least those nine bytes.
pub open spec fn decode_defined(c: Seq<u8>) -> bool {
    c.len() >= 4 && c.len() >= frame_length(c) + 4 && c.len() > 4 ==> {
        let t = c[4];
        &&& t == 5 ==> frame_length(c) >= 1
        &&& (t == 7 && c.len() - 5 >= 8) ==> frame_length(c) >= 9
    }
}

/// The frame that carries a message; numbers are sent as 32 bits.
pub open spec fn encode_frame(m: MessageModel) -> Seq<u8> {
    match m {
        MessageModel::Unchoke => be_bytes(1) + seq![1u8],
        MessageModel::Interested => be_bytes(1) + seq![2u8],
        MessageModel::Bitfield(b) => be_bytes((1 + b.len()) as u32) + seq![5u8] + b,
        MessageModel::Request { index, begin, length } => be_bytes(13) + seq![6u8] + be_bytes(
            index as u32,
        ) + be_bytes(begin as u32) + be_bytes(length as u32),
        MessageModel::Piece { index, begin, block } => be_bytes((9 + block.len()) as u32) + seq![7u8]
            + be_bytes(index as u32) + be_bytes(begin as u32) + block,
    }
}

/// The message's numbers fit the 32 bits they are sent in.
pub open spec fn fits_wire(m: MessageModel) -> bool {
    match m {
        MessageModel::Bitfield(b) => 1 + b.len() <= u32::MAX,
        MessageModel::Request { index, begin, length } => index <= u32::MAX && begin <= u32::MAX
            && length <= u32::MAX,
        MessageModel::Piece { index, begin, block } => index <= u32::MAX && begin <= u32::MAX && 9
            + block.len() <= u32::MAX,
        _ => true,
    }
}


impl BitTorrentCodec {
    /// Whether `decode` is defined on the buffer as it stands.
    pub fn can_decode(src: &BytesMut) -> (ok: bool)
        ensures
            ok == decode_defined(buf_contents(*src)),
    {
        let ghost c = buf_contents(*src);
        let s = buf_as_slice(src);
        if s.len() < 4 {
            return true;
        }
        let length = u32_from_be(s[0], s[1], s[2], s[3]) as usize;
        assert(seq![s[0], s[1], s[2], s[3]] =~= c.take(4));
        if s.len() - 4 < length || s.len() == 4 {
            return true;
        }
        let t = s[4];
        if t == 5 && length < 1 {
            return false;
        }
        if t == 7 && s.len() - 5 >= 8 && length < 9 {
            return false;
        }
        true
    }

    /// Takes one frame off the front of `src`. `Ok(None)` asks for more
    /// bytes; a frame of unknown type is an error.
    pub fn decode(&mut self, src: &mut BytesMut) -> (res: Result<Option<Message>, CodecError>)
        requires
            decode_defined(buf_contents(*old(src))),
        ensures
            buf_contents(*final(src)) == decode_step(buf_contents(*old(src))).1,
            match decode_step(buf_contents(*old(src))).0 {
                DecodeOutcome::NeedMore => res matches Ok(None),
                DecodeOutcome::Frame(m) => res matches Ok(Some(msg)) && msg.model() == m,
                DecodeOutcome::Unknown(t) => res matches Err(e) && e == CodecError::UnknownMessageType(t),
            },
    {
        let ghost c = buf_contents(*src);
        let len = buf_len(src);
        if len < 4 {
            return Ok(None);
        }
        let s = buf_as_slice(src);
        let length = u32_from_be(s[0], s[1], s[2], s[3]) as usize;
        assert(seq![s[0], s[1], s[2], s[3]] =~= c.take(4));
        if len - 4 < length {
            return Ok(None);
        }
        buf_advance(src, 4);
        if buf_len(src) == 0 {
            return Ok(None);
        }
        let ghost c1 = buf_contents(*src);
        let message_type = buf_get_u8(src);
        assert(c1[0] == c[4]);
        let ghost c2 = buf_contents(*src);
        if message_type == 1 {
            Ok(Some(Message::Unchoke))
        } else if message_type == 2 {
            Ok(Some(Message::Interested))
        } else if message_type == 5 {
            let bitfield = buf_split_to(src, length - 1);
            Ok(Some(Message::Bitfield(buf_freeze(bitfield))))
        } else if message_type == 6 {
            if buf_len(src) < 12 {
                return Ok(None);
            }
            let index = buf_get_u32(src);
            let begin = buf_get_u32(src);
            let length = buf_get_u32(src);
            assert(c2.take(4) =~= c2.subrange(0, 4));
            assert(c2.skip(4).take(4) =~= c2.subrange(4, 8));
            assert(c2.skip(4).skip(4).take(4) =~= c2.subrange(8, 12));
            assert(c2.skip(4).skip(4).skip(4) =~= c2.skip(12));
            Ok(Some(Message::Request { index: index as usize, begin: begin as usize, length: length as usize }))
        } else if message_type == 7 {
            if buf_len(src) < 8 {
                return Ok(None);
            }
            let index = buf_get_u32(src);
            let begin = buf_get_u32(src);
            assert(c2.take(4) =~= c2.subrange(0, 4));
            assert(c2.skip(4).take(4) =~= c2.subrange(4, 8));
            let ghost c3 = c2.skip(4).skip(4);
            assert(c3 =~= c2.skip(8));
            let block = buf_split_to(src, length - 9);
            assert(c3.take(length - 9) =~= c2.subrange(8, 8 + length - 9));
            assert(c3.skip(length - 9) =~= c2.skip(8 + length - 9));
            Ok(Some(Message::Piece { index: index as usize, begin: begin as usize, block: buf_freeze(block) }))
        } else {
            Err(CodecError::UnknownMessageType(message_type))
        }
    }

    /// Appends the frame of `item` to `dst`.
    pub fn encode(&mut self, item: Message, dst: &mut BytesMut) -> (res: Result<(), CodecError>)
        requires
            buf_contents(*old(dst)).len() + encode_frame(item.model()).len() <= isize::MAX,
        ensures
            res is Ok,
            buf_contents(*final(dst)) == buf_contents(*old(dst)) + encode_frame(item.model()),
    {
        let ghost d = buf_contents(*dst);
        match item {
            Message::Unchoke => {
                buf_put_u32(dst, 1);
                buf_put_u8(dst, 1);
            },
            Message::Interested => {
                buf_put_u32(dst, 1);
                buf_put_u8(dst, 2);
            },
            Message::Bitfield(bitfield) => {
                let data = bytes_as_slice(&bitfield);
                buf_put_u32(dst, #[verifier::truncate] ((1 + data.len()) as u32));
                buf_put_u8(dst, 5);
                buf_extend(dst, data);
            },
            Message::Request { index, begin, length } => {
                buf_put_u32(dst, 13);
                buf_put_u8(dst, 6);
                buf_put_u32(dst, #[verifier::truncate] (index as u32));
                buf_put_u32(dst, #[verifier::truncate] (begin as u32));
                buf_put_u32(dst, #[verifier::truncate] (length as u32));
            },
            Message::Piece { index, begin, block } => {
                let data = bytes_as_slice(&block);
                buf_put_u32(dst, #[verifier::truncate] ((9 + data.len()) as u32));
                buf_put_u8(dst, 7);
                buf_put_u32(dst, #[verifier::truncate] (index as u32));
                buf_put_u32(dst, #[verifier::truncate] (begin as u32));
                buf_extend(dst, data);
            },
        }
        assert(buf_contents(*dst) =~= d + encode_frame(item.model()));
        Ok(())
    }
}

proof fn lemma_frame_header(f: Seq<u8>, rest: Seq<u8>, n: u32, t: u8)
    requires
        f.len() == 4 + n,
        f.len() >= 5,
        f.take(4) == be_bytes(n),
        f[4] == t,
    ensures
        frame_length(f + rest) == n,
        (f + rest).len() >= frame_length(f + rest) + 4,
        (f + rest).skip(4).len() > 0,
        (f + rest).skip(4)[0] == t,
        (f + rest).skip(4).skip(1) =~= f.skip(5) + rest,
{
    lemma_be_roundtrip(n);
    assert((f + rest).take(4) =~= f.take(4));
}

proof fn lemma_roundtrip_bitfield(b: Seq<u8>, rest: Seq<u8>)
    requires
        1 + b.len() <= u32::MAX,
    ensures
        decode_defined(encode_frame(MessageModel::Bitfield(b)) + rest),
        decode_step(encode_frame(MessageModel::Bitfield(b)) + rest) == (DecodeOutcome::Frame(MessageModel::Bitfield(b)), rest),
{
    let f = encode_frame(MessageModel::Bitfield(b));
    assert(f.take(4) =~= be_bytes((1 + b.len()) as u32));
    lemma_frame_header(f, rest, (1 + b.len()) as u32, 5);
    let c2 = (f + rest).skip(4).skip(1);
    assert(c2 =~= b + rest);
    assert(c2.take(b.len() as int) =~= b);
    assert(c2.skip(b.len() as int) =~= rest);
}

proof fn lemma_roundtrip_request(index: usize, begin: usize, length: usize, rest: Seq<u8>)
    requires
        index <= u32::MAX,
        begin <= u32::MAX,
        length <= u32::MAX,
    ensures
        decode_defined(encode_frame(MessageModel::Request { index, begin, length }) + rest),
        decode_step(encode_frame(MessageModel::Request { index, begin, length }) + rest) == (
            DecodeOutcome::Frame(MessageModel::Request { index, begin, length }),
            rest,
        ),
{
    let f = encode_frame(MessageModel::Request { index, begin, length });
    assert(f.take(4) =~= be_bytes(13));
    lemma_frame_header(f, rest, 13, 6);
    lemma_be_roundtrip(index as u32);
    lemma_be_roundtrip(begin as u32);
    lemma_be_roundtrip(length as u32);
    let c2 = (f + rest).skip(4).skip(1);
    assert(c2.subrange(0, 4) =~= be_bytes(index as u32));
    assert(c2.subrange(4, 8) =~= be_bytes(begin as u32));
    assert(c2.subrange(8, 12) =~= be_bytes(length as u32));
    assert(c2.skip(12) =~= rest);
}

proof fn lemma_roundtrip_piece(index: usize, begin: usize, block: Seq<u8>, rest: Seq<u8>)
    requires
        index <= u32::MAX,
        begin <= u32::MAX,
        9 + block.len() <= u32::MAX,
    ensures
        decode_defined(encode_frame(MessageModel::Piece { index, begin, block }) + rest),
        decode_step(encode_frame(MessageModel::Piece { index, begin, block }) + rest) == (
            DecodeOutcome::Frame(MessageModel::Piece { index, begin, block }),
            rest,
        ),
{
    let f = encode_frame(MessageModel::Piece { index, begin, block });
    assert(f.take(4) =~= be_bytes((9 + block.len()) as u32));
    lemma_frame_header(f, rest, (9 + block.len()) as u32, 7);
    lemma_be_roundtrip(index as u32);
    lemma_be_roundtrip(begin as u32);
    let c2 = (f + rest).skip(4).skip(1);
    assert(c2.subrange(0, 4) =~= be_bytes(index as u32));
    assert(c2.subrange(4, 8) =~= be_bytes(begin as u32));
    assert(c2.subrange(8, 8 + block.len() as int) =~= block);
    assert(c2.skip(8 + block.len() as int) =~= rest);
}

/// Decoding what `encode` wrote gives back the message, and leaves exactly
/// the bytes that followed the frame, whenever the message's numbers fit the
/// 32 bits they are sent in.
pub proof fn lemma_codec_roundtrip(m: MessageModel, rest: Seq<u8>)
    requires
        fits_wire(m),
    ensures
        decode_defined(encode_frame(m) + rest),
        decode_step(encode_frame(m) + rest) == (DecodeOutcome::Frame(m), rest),
{
    match m {
        MessageModel::Unchoke => {
            let f = encode_frame(m);
            assert(f.take(4) =~= be_bytes(1));
            lemma_frame_header(f, rest, 1, 1);
            assert(f.skip(5) + rest =~= rest);
        },
        MessageModel::Interested => {
            let f = encode_frame(m);
            assert(f.take(4) =~= be_bytes(1));
            lemma_frame_header(f, rest, 1, 2);
            assert(f.skip(5) + rest =~= rest);
        },
        MessageModel::Bitfield(b) => lemma_roundtrip_bitfield(b, rest),
        MessageModel::Request { index, begin, length } => lemma_roundtrip_request(index, begin, length, rest),
        MessageModel::Piece { index, begin, block } => lemma_roundtrip_piece(index, begin, block, rest),
    }
}

/// The wire layout of a piece: the length (nine plus the block's size), the
/// type byte 7, the piece index, then the offset in the piece, both
/// big-endian, then the block. The codec writes exactly these bytes, and on
/// a buffer that starts with them it reads the piece back, index first, and
/// leaves what follows.
pub proof fn lemma_piece_wire_layout(index: u32, begin: u32, block: Seq<u8>, rest: Seq<u8>)
    requires
        9 + block.len() <= u32::MAX,
    ensures
        ({
            let wire = be_bytes((9 + block.len()) as u32) + seq![7u8] + be_bytes(index) + be_bytes(
                begin,
            ) + block;
            let m = MessageModel::Piece { index: index as usize, begin: begin as usize, block };
            &&& encode_frame(m) == wire
            &&& decode_step(wire + rest) == (DecodeOutcome::Frame(m), rest)
        }),
{
    let m = MessageModel::Piece { index: index as usize, begin: begin as usize, block };
    assert((index as usize) as u32 == index);
    assert((begin as usize) as u32 == begin);
    lemma_codec_roundtrip(m, rest);
}

/// The wire layout of a request: the length 13, the type byte 6, then the
/// piece index, the offset and the length asked for, each big-endian. The
/// codec writes exactly these bytes and reads them back in that order,
/// leaving what follows.
pub proof fn lemma_request_wire_layout(index: u32, begin: u32, length: u32, rest: Seq<u8>)
    ensures
        ({
            let wire = be_bytes(13) + seq![6u8] + be_bytes(index) + be_bytes(begin) + be_bytes(length);
            let m = MessageModel::Request {
                index: index as usize,
                begin: begin as usize,
                length: length as usize,
            };
            &&& encode_frame(m) == wire
            &&& decode_step(wire + rest) == (DecodeOutcome::Frame(m), rest)
        }),
{
    let m = MessageModel::Request { index: index as usize, begin: begin as usize, length: length as usize };
    assert((index as usize) as u32 == index);
    assert((begin as usize) as u32 == begin);
    assert((length as usize) as u32 == length);
    lemma_codec_roundtrip(m, rest);
}

/// The wire layout of a bitfield: the length (one plus the bitfield's
/// size), the type byte 5, then the bitfield's bytes. The codec writes
/// exactly these bytes and reads the bitfield back, leaving what follows.
pub proof fn lemma_bitfield_wire_layout(bits: Seq<u8>, rest: Seq<u8>)
    requires
        1 + bits.len() <= u32::MAX,
    ensures
        ({
            let wire = be_bytes((1 + bits.len()) as u32) + seq![5u8] + bits;
            &&& encode_frame(MessageModel::Bitfield(bits)) == wire
            &&& decode_step(wire + rest) == (DecodeOutcome::Frame(MessageModel::Bitfield(bits)), rest)
        }),
{
    lemma_codec_roundtrip(MessageModel::Bitfield(bits), rest);
}

} // verus!

use bytes::{Bytes, BytesMut};
use terror::terror::tcp::bittorrent_codec::{BitTorrentCodec, CodecError};
use terror::terror::tcp::message::Message;

#[test]
fn request_round_trips_through_the_codec() {
    let mut codec = BitTorrentCodec;
    let mut buf = BytesMut::new();
    codec
        .encode(Message::Request { index: 1, begin: 16384, length: 16384 }, &mut buf)
        .unwrap();
    assert_eq!(&buf[..], &[0, 0, 0, 13, 6, 0, 0, 0, 1, 0, 0, 0x40, 0, 0, 0, 0x40, 0][..]);
    assert!(BitTorrentCodec::can_decode(&buf));
    match codec.decode(&mut buf) {
        Ok(Some(Message::Request { index, begin, length })) => {
            assert_eq!((index, begin, length), (1, 16384, 16384));
        }
        _ => panic!("expected a request"),
    }
    assert!(buf.is_empty());
}

#[test]
fn piece_round_trips_and_leaves_the_next_frame() {
    let mut codec = BitTorrentCodec;
    let mut buf = BytesMut::new();
    codec
        .encode(
            Message::Piece { index: 2, begin: 0, block: Bytes::from_static(&[5, 6, 7]) },
            &mut buf,
        )
        .unwrap();
    codec.encode(Message::Unchoke, &mut buf).unwrap();
    match codec.decode(&mut buf) {
        Ok(Some(Message::Piece { index, begin, block })) => {
            assert_eq!(index, 2);
            assert_eq!(begin, 0);
            assert_eq!(&block[..], &[5, 6, 7][..]);
        }
        _ => panic!("expected a piece"),
    }
    assert!(matches!(codec.decode(&mut buf), Ok(Some(Message::Unchoke))));
    assert!(buf.is_empty());
}

#[test]
fn bitfield_and_interested_round_trip() {
    let mut codec = BitTorrentCodec;
    let mut buf = BytesMut::new();
    codec.encode(Message::Bitfield(Bytes::from_static(&[0xff, 0x80])), &mut buf).unwrap();
    codec.encode(Message::Interested, &mut buf).unwrap();
    assert_eq!(&buf[..5], &[0, 0, 0, 3, 5][..]);
    match codec.decode(&mut buf) {
        Ok(Some(Message::Bitfield(bits))) => assert_eq!(&bits[..], &[0xff, 0x80][..]),
        _ => panic!("expected a bitfield"),
    }
    assert!(matches!(codec.decode(&mut buf), Ok(Some(Message::Interested))));
}

#[test]
fn a_partial_frame_asks_for_more_and_keeps_its_bytes() {
    let mut codec = BitTorrentCodec;
    let mut buf = BytesMut::from(&[0u8, 0, 0, 13, 6, 0][..]);
    assert!(matches!(codec.decode(&mut buf), Ok(None)));
    assert_eq!(buf.len(), 6);
    let mut short = BytesMut::from(&[0u8, 0][..]);
    assert!(matches!(codec.decode(&mut short), Ok(None)));
    assert_eq!(short.len(), 2);
}

#[test]
fn an_unknown_type_is_an_error() {
    let mut codec = BitTorrentCodec;
    let mut buf = BytesMut::from(&[0u8, 0, 0, 1, 9][..]);
    match codec.decode(&mut buf) {
        Err(e) => assert_eq!(e, CodecError::UnknownMessageType(9)),
        _ => panic!("expected an error"),
    }
}

#[test]
fn an_empty_bitfield_frame_cannot_be_decoded() {
    let buf = BytesMut::from(&[0u8, 0, 0, 0, 5][..]);
    assert!(!BitTorrentCodec::can_decode(&buf));
    let short_piece = BytesMut::from(&[0u8, 0, 0, 8, 7, 0, 0, 0, 1, 0, 0, 0, 0][..]);
    assert!(!BitTorrentCodec::can_decode(&short_piece));
    let bad = BytesMut::from(&[0u8, 0, 0, 2, 7, 1][..]);
    assert!(BitTorrentCodec::can_decode(&bad));
}

use terror::client::download::{Message, MessageError};
use terror::client::{
    encode_info_hash, local_peer_id, parse_compact_peers, percent_encode_hash, tracker_url,
    Handshake, TrackerRequest, TrackerResponse,
};
use terror::encoding::{u32_from_be, u32_to_be};

#[test]
fn percent_encoding_escapes_each_pair() {
    assert_eq!(percent_encode_hash("d69f91e6"), "%d6%9f%91%e6");
    assert_eq!(percent_encode_hash(""), "");
    assert_eq!(percent_encode_hash("abc"), "%ab%c");
}

#[test]
fn info_hash_is_hex_then_escaped() {
    let mut hash = [0u8; 20];
    hash[0] = 0xd6;
    hash[19] = 0x0f;
    let encoded = encode_info_hash(&hash);
    assert_eq!(
        encoded,
        "%d6%00%00%00%00%00%00%00%00%00%00%00%00%00%00%00%00%00%00%0f"
    );
}

#[test]
fn tracker_url_joins_its_parts() {
    let hash = [0xabu8; 20];
    let url = tracker_url("http://t.example/announce", "port=6881", &hash);
    let mut expected = String::from("http://t.example/announce?port=6881&info_hash=");
    for _ in 0..20 {
        expected.push_str("%ab");
    }
    assert_eq!(url, expected);
}

#[test]
fn tracker_request_announces_this_client() {
    let r = TrackerRequest::new(92063);
    assert_eq!(r.peer_id, "codecraftersbittorre");
    assert_eq!(r.port, 6881);
    assert_eq!(r.uploaded, 0);
    assert_eq!(r.downloaded, 0);
    assert_eq!(r.left, 92063);
    assert_eq!(r.compact, 1);
}

#[test]
fn compact_peers_are_read_six_bytes_at_a_time() {
    let raw = [165u8, 232, 33, 77, 0xc8, 0xd5, 10, 0, 0, 1, 0x1a, 0xe1, 9];
    let peers = parse_compact_peers(&raw);
    assert_eq!(peers.len(), 2);
    assert_eq!(peers[0].ip, "165.232.33.77");
    assert_eq!(peers[0].port, 51413);
    assert_eq!(peers[1].ip, "10.0.0.1");
    assert_eq!(peers[1].port, 6881);
    let response = TrackerResponse { interval: 60, peers_raw: raw.to_vec() };
    let again = response.peers();
    assert_eq!(again.len(), 2);
    assert_eq!(again[1].ip, "10.0.0.1");
}

#[test]
fn handshake_bytes_round_trip() {
    let info_hash = [7u8; 20];
    let mut h = Handshake::new(info_hash, local_peer_id());
    let bytes = h.to_bytes();
    assert_eq!(bytes.len(), 68);
    assert_eq!(bytes[0], 19);
    assert_eq!(&bytes[1..20], b"BitTorrent protocol");
    assert_eq!(&bytes[20..28], &[0u8; 8]);
    assert_eq!(&bytes[28..48], &[7u8; 20]);
    assert_eq!(&bytes[48..68], b"00112233445566778899");
    let back = Handshake::from_bytes(&bytes);
    assert_eq!(back.length, 19);
    assert_eq!(back.info_hash, info_hash);
    assert_eq!(&back.peer_id, b"00112233445566778899");
    assert_eq!(&back.bittorrent, b"BitTorrent protocol");
}

#[test]
fn big_endian_helpers_agree() {
    assert_eq!(u32_to_be(0x01020304), [1, 2, 3, 4]);
    assert_eq!(u32_from_be(0, 0, 0x40, 0), 16384);
}

#[test]
fn request_frame_has_length_prefix_thirteen() {
    let message = Message::Request { index: 0, begin: 0, length: 1 };
    let encoded = message.encode();
    assert_eq!(encoded, vec![0, 0, 0, 13, 6, 0, 0, 0, 0, 0, 0, 0, 0, 0, 0, 0, 1]);
}

#[test]
fn a_twelve_byte_request_frame_would_announce_more_than_it_carries() {
    // The twelve bytes [0, 0, 0, 13, 6, 0, 0, 0, 0, 0, 0, 1] announce 13 bytes
    // after the prefix but carry 8, so no frame that announces its own length
    // can be them; the request's frame carries what it announces.
    let twelve: Vec<u8> = vec![0, 0, 0, 13, 6, 0, 0, 0, 0, 0, 0, 1];
    let announced = u32::from_be_bytes([twelve[0], twelve[1], twelve[2], twelve[3]]) as usize;
    assert_eq!(announced, 13);
    assert_eq!(twelve.len() - 4, 8);
    let encoded = Message::Request { index: 0, begin: 0, length: 1 }.encode();
    let prefix = u32::from_be_bytes([encoded[0], encoded[1], encoded[2], encoded[3]]) as usize;
    assert_eq!(prefix, 13);
    assert_eq!(encoded.len() - 4, prefix);
    assert_ne!(encoded, twelve);
}

#[test]
fn message_frames_and_type_bytes() {
    assert_eq!(Message::Unchoke.encode(), vec![0, 0, 0, 1, 1]);
    assert_eq!(Message::Interested.encode(), vec![0, 0, 0, 1, 2]);
    assert_eq!(Message::Bitfield { bitfield: vec![] }.type_byte(), 5);
    let piece = Message::Piece { index: 1, begin: 16384, block: vec![9, 8] };
    assert_eq!(piece.type_byte(), 7);
    assert_eq!(piece.encode(), vec![0, 0, 0, 11, 7, 0, 0, 0, 1, 0, 0, 0x40, 0, 9, 8]);
}

#[test]
fn read_gives_back_what_encode_wrote() {
    let sent = Message::Piece { index: 3, begin: 32768, block: vec![1, 2, 3] };
    let frame = sent.encode();
    let length = u32::from_be_bytes([frame[0], frame[1], frame[2], frame[3]]);
    assert_eq!(Message::payload_len(length), frame.len() - 5);
    let back = Message::read(frame[4], &frame[5..]).unwrap();
    assert_eq!(back, sent);
    let request = Message::Request { index: 1, begin: 2, length: 3 };
    let frame = request.encode();
    assert_eq!(Message::read(frame[4], &frame[5..]).unwrap(), request);
}

#[test]
fn unknown_message_type_is_an_error() {
    assert_eq!(Message::read(9, &[]), Err(MessageError::UnknownType(9)));
}

#[test]
fn a_bitfield_is_answered_with_interest() {
    assert_eq!(
        Message::Bitfield { bitfield: vec![0xff] }.reply_to_first(),
        Some(Message::Interested)
    );
    assert_eq!(Message::Unchoke.reply_to_first(), None);
}

#[test]
fn a_bitfield_is_framed_and_read_with_its_bytes() {
    let sent = Message::Bitfield { bitfield: vec![0xf0, 0x01] };
    let frame = sent.encode();
    assert_eq!(frame, vec![0, 0, 0, 3, 5, 0xf0, 0x01]);
    assert_eq!(Message::read(frame[4], &frame[5..]), Ok(sent));
    assert_eq!(Message::read(5, &[]), Ok(Message::Bitfield { bitfield: vec![] }));
}

#[test]
fn only_a_piece_answers_with_a_block() {
    let piece: Result<Message, MessageError> = Ok(Message::Piece { index: 0, begin: 0, block: vec![4, 5] });
    assert_eq!(Message::block_of(piece), Ok(vec![4, 5]));
    let other: Result<Message, MessageError> = Ok(Message::Unchoke);
    assert_eq!(Message::block_of(other), Err(MessageError::UnexpectedMessage));
    let failed: Result<Message, MessageError> = Err(MessageError::UnknownType(9));
    assert_eq!(Message::block_of(failed), Err(MessageError::UnexpectedMessage));
}

use bytes::Bytes;
use terror::terror::peer::peer_actor::{
    after_frame, after_request, connect_step, read_step, ConnectError, ConnectPhase, ConnectStep,
    DataMessage, ReadStep,
};
use terror::terror::peer::peer_actor_pool::PeerRoster;
use terror::terror::tcp::bittorrent_codec::CodecError;
use terror::terror::tcp::message::Message;
use terror::terror::torrent::torrent_downloader::{CompletedTask, DownloadBlock};

fn frame(m: Message) -> Option<Result<Message, CodecError>> {
    Some(Ok(m))
}

fn closed() -> Option<Result<Message, CodecError>> {
    None
}

#[test]
fn a_task_becomes_a_request() {
    let task = DownloadBlock { piece_index: 3, block_index: 2, begin: 32768, length: 16384 };
    let data = DataMessage::from_task(&task);
    assert_eq!(data, DataMessage::Piece { index: 3, begin: 32768, length: 16384 });
    match data.to_request() {
        Message::Request { index, begin, length } => assert_eq!((index, begin, length), (3, 32768, 16384)),
        _ => panic!("expected a request"),
    }
}

#[test]
fn a_piece_frame_is_reported_under_its_block_index() {
    let piece = frame(Message::Piece { index: 4, begin: 49152, block: Bytes::from_static(&[1, 2]) });
    match read_step(&"peer-x".to_string(), piece, 3) {
        (
            ReadStep::Deliver(CompletedTask::DownloadedBlock { peer_id, piece_index, block_index, bytes }),
            2,
        ) => {
            assert_eq!(peer_id, "peer-x");
            assert_eq!((piece_index, block_index), (4, 3));
            assert_eq!(&bytes[..], &[1, 2][..]);
        }
        _ => panic!("expected a delivery"),
    }
}

#[test]
fn other_frames_are_skipped_and_failures_reported() {
    assert!(matches!(read_step(&"p".to_string(), frame(Message::Unchoke), 4), (ReadStep::Skip, 4)));
    match read_step(&"p".to_string(), closed(), 0) {
        (ReadStep::Fail(CompletedTask::FailedBlock { peer_id, piece_index, block_index }), usize::MAX) => {
            assert_eq!(peer_id, "p");
            assert_eq!((piece_index, block_index), (0, 0));
        }
        _ => panic!("expected a failure"),
    }
    assert!(matches!(
        read_step(&"p".to_string(), Some(Err(CodecError::UnknownMessageType(9))), 1),
        (ReadStep::Fail(_), 0)
    ));
}

#[test]
fn the_reader_is_woken_past_five_requests() {
    assert_eq!(after_request(5, true), (6, true));
    assert_eq!(after_request(4, true), (5, false));
    assert_eq!(after_request(7, false), (7, true));
    assert_eq!(after_request(usize::MAX, true), (0, false));
    assert_eq!(after_frame(3), 2);
    assert_eq!(after_frame(0), usize::MAX);
}

#[test]
fn the_opening_exchange_needs_a_bitfield_then_an_unchoke() {
    match connect_step(ConnectPhase::AwaitBitfield, frame(Message::Bitfield(Bytes::new()))) {
        ConnectStep::Reply(Message::Interested) => {}
        _ => panic!("expected interest"),
    }
    assert!(matches!(
        connect_step(ConnectPhase::AwaitBitfield, frame(Message::Unchoke)),
        ConnectStep::Failed(ConnectError::NoBitfield)
    ));
    assert!(matches!(
        connect_step(ConnectPhase::AwaitUnchoke, frame(Message::Unchoke)),
        ConnectStep::Connected
    ));
    assert!(matches!(
        connect_step(ConnectPhase::AwaitUnchoke, frame(Message::Interested)),
        ConnectStep::Failed(ConnectError::UnexpectedMessage)
    ));
    assert!(matches!(
        connect_step(ConnectPhase::AwaitUnchoke, Some(Err(CodecError::UnknownMessageType(3)))),
        ConnectStep::Failed(ConnectError::CouldNotConnect)
    ));
    assert!(matches!(
        connect_step(ConnectPhase::AwaitUnchoke, closed()),
        ConnectStep::Failed(ConnectError::ConnectionClosed)
    ));
}

#[test]
fn work_goes_to_the_first_least_loaded_peer() {
    let mut roster = PeerRoster::new(vec!["a".to_string(), "b".to_string(), "c".to_string()]);
    assert_eq!(roster.get_best_peer(), Some(0));
    roster.task_queued(0);
    assert_eq!(roster.get_best_peer(), Some(1));
    roster.task_queued(1);
    roster.task_queued(2);
    roster.task_queued(2);
    assert_eq!(roster.get_best_peer(), Some(0));
    assert_eq!(roster.peers[2].tasks_queued, 2);
    assert_eq!(PeerRoster::new(vec![]).get_best_peer(), None);
}

#[test]
fn reports_update_the_roster() {
    let mut roster = PeerRoster::new(vec!["a".to_string(), "b".to_string(), "a".to_string()]);
    roster.task_queued(0);
    let delivered = CompletedTask::DownloadedBlock {
        peer_id: "a".to_string(),
        piece_index: 0,
        block_index: 0,
        bytes: Bytes::new(),
    };
    assert!(roster.handle_completed_task(&delivered));
    assert_eq!(roster.peers[0].tasks_queued, 0);
    assert!(roster.handle_completed_task(&delivered));
    assert_eq!(roster.peers[0].tasks_queued, usize::MAX);
    let failed = CompletedTask::FailedBlock { peer_id: "a".to_string(), piece_index: 0, block_index: 0 };
    assert!(!roster.handle_completed_task(&failed));
    assert_eq!(roster.peers.len(), 1);
    assert_eq!(roster.peers[0].peer_id, "b");
}

#[test]
fn tracker_ids_name_peers_as_utf8_text() {
    let roster = PeerRoster::from_raw_ids(&vec![b"-TR2940-abc".to_vec(), vec![0x61, 0xff]]);
    assert_eq!(roster.peers.len(), 2);
    assert_eq!(roster.peers[0].peer_id, "-TR2940-abc");
    assert_eq!(roster.peers[1].peer_id, "a\u{fffd}");
    assert_eq!(roster.peers[1].tasks_queued, 0);
}

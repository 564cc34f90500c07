use bytes::Bytes;
use sha1::{Digest, Sha1};
use terror::terror::piece::piece_pool::{
    BlockOutcome, PiecePool, PoolCommand, PoolDriver, PoolEvent, PoolStep, RunState,
};
use terror::terror::piece::{BlockState, PieceError, PieceState, Priority};
use terror::terror::torrent::torrent_downloader::{CompletedTask, DownloadBlock};
use terror::terror::torrent::{FileInfo, Info, Torrent};

fn data(len: usize, seed: u8) -> Vec<u8> {
    (0..len).map(|i| (i as u8).wrapping_mul(31).wrapping_add(seed)).collect()
}

fn hash(bytes: &[u8]) -> Vec<u8> {
    Sha1::digest(bytes).to_vec()
}

fn torrent(total: usize, piece_length: usize, hashes: Vec<u8>, files: Option<Vec<FileInfo>>) -> Torrent {
    Torrent {
        announce: "http://tracker.example/announce".to_string(),
        announce_list: None,
        comment: None,
        created_by: None,
        creation_date: None,
        info: Info {
            length: if files.is_some() { None } else { Some(total) },
            name: "sample.bin".to_string(),
            piece_length: Some(piece_length),
            pieces: hashes,
            md5hash: None,
            files,
        },
        url_list: None,
    }
}

fn two_piece_torrent() -> (Torrent, Vec<u8>, Vec<u8>) {
    let first = data(32768, 1);
    let second = data(7232, 2);
    let mut hashes = hash(&first);
    hashes.extend(hash(&second));
    (torrent(40000, 32768, hashes, None), first, second)
}

fn downloaded(piece_index: usize, block_index: usize, bytes: &[u8]) -> CompletedTask {
    CompletedTask::DownloadedBlock {
        peer_id: "peer-a".to_string(),
        piece_index,
        block_index,
        bytes: Bytes::copy_from_slice(bytes),
    }
}

#[test]
fn the_pool_lays_out_pieces_and_blocks() {
    let (t, _, _) = two_piece_torrent();
    let pool = PiecePool::new(&t);
    assert_eq!(pool.number_of_pieces, 2);
    let p0 = pool.get_piece(0).unwrap();
    assert_eq!(p0.length, 32768);
    assert_eq!(p0.number_of_blocks, 2);
    assert_eq!((p0.blocks[1].index, p0.blocks[1].begin, p0.blocks[1].block_size), (1, 16384, 16384));
    assert!(matches!(p0.piece_state, PieceState::Missing));
    assert_eq!(p0.priority, Priority::Normal);
    assert_eq!(p0.piece_hash, t.info.pieces[0..20].to_vec());
    let p1 = pool.get_piece(1).unwrap();
    assert_eq!(p1.length, 7232);
    assert_eq!(p1.blocks.len(), 1);
    assert_eq!(p1.blocks[0].block_size, 7232);
    assert_eq!(p1.files.len(), 1);
    assert_eq!(p1.files[0].path, vec!["sample.bin".to_string()]);
    assert_eq!(p1.files[0].start_piece, Some(0));
    assert_eq!(p1.files[0].end_piece, Some(1));
    assert_eq!(p1.files[0].offset, Some(0));
    assert_eq!(p1.files[0].length, 40000);
    assert!(pool.get_piece(2).is_none());
}

#[test]
fn a_size_that_is_a_multiple_of_the_piece_length_leaves_an_empty_last_piece() {
    let t = torrent(65536, 32768, vec![0u8; 40], None);
    let pool = PiecePool::new(&t);
    assert_eq!(pool.number_of_pieces, 2);
    let last = pool.get_piece(1).unwrap();
    assert_eq!(last.length, 0);
    assert_eq!(last.blocks.len(), 0);
}

#[test]
fn the_next_piece_is_the_first_missing_one_of_highest_priority() {
    let (t, _, _) = two_piece_torrent();
    let mut pool = PiecePool::new(&t);
    pool.pieces.get_mut(&1).unwrap().set_priority(Priority::High);
    assert_eq!(pool.get_next_piece_mut(), Some(1));
    assert!(matches!(pool.get_piece(1).unwrap().piece_state, PieceState::Downloading));
    assert_eq!(pool.get_next_piece_mut(), Some(0));
    assert_eq!(pool.get_next_piece_mut(), None);
    assert!(pool.get_next_piece().is_none());
}

#[test]
fn queueing_hands_out_every_block_and_runs_out() {
    let (t, _, _) = two_piece_torrent();
    let mut pool = PiecePool::new(&t);
    let (queued, tasks) = pool.queue_n_tasks(5);
    assert_eq!(queued, None);
    assert_eq!(
        tasks,
        vec![
            DownloadBlock { piece_index: 0, block_index: 0, begin: 0, length: 16384 },
            DownloadBlock { piece_index: 0, block_index: 1, begin: 16384, length: 16384 },
            DownloadBlock { piece_index: 1, block_index: 0, begin: 0, length: 7232 },
        ]
    );
    let mut fresh = PiecePool::new(&t);
    let (queued, tasks) = fresh.queue_n_tasks(1);
    assert_eq!(queued, Some(1));
    assert_eq!(tasks.len(), 2);
}

#[test]
fn a_piece_is_checked_and_saved_when_its_last_block_arrives() {
    let (t, first, second) = two_piece_torrent();
    let mut pool = PiecePool::new(&t);
    let _ = pool.queue_n_tasks(5);
    assert_eq!(pool.on_block_downloaded(0, 1, Bytes::copy_from_slice(&first[16384..])), BlockOutcome::Pending);
    assert!(matches!(pool.get_piece(0).unwrap().blocks[1].block_state, BlockState::Downloaded { .. }));
    assert_eq!(pool.handle_completed_task(downloaded(0, 0, &first[..16384])), PoolStep::SavePiece(0));
    let piece = pool.get_piece(0).unwrap();
    match &piece.piece_state {
        PieceState::Downloaded { piece_bytes } => assert_eq!(piece_bytes, &first),
        _ => panic!("expected the piece to be downloaded"),
    }
    assert_eq!(piece.verify(), Some(true));
    let writes = piece.plan_save().unwrap();
    assert_eq!(writes.len(), 1);
    assert_eq!(writes[0].path, "sample.bin");
    assert_eq!(writes[0].position, 0);
    assert_eq!(writes[0].bytes, first);
    let (tasks, finished) = pool.on_piece_saved(0);
    assert!(tasks.is_empty());
    assert!(!finished);
    assert!(matches!(pool.get_piece(0).unwrap().piece_state, PieceState::Saved));
    assert!(matches!(pool.get_piece(0).unwrap().blocks[0].block_state, BlockState::Saved));
    assert_eq!(pool.all_pieces_downloaded(), Some(false));

    assert_eq!(pool.handle_completed_task(downloaded(1, 0, &second)), PoolStep::SavePiece(1));
    let writes = pool.get_piece(1).unwrap().plan_save().unwrap();
    assert_eq!(writes[0].position, 32768);
    assert_eq!(writes[0].bytes, second);
    let (_, finished) = pool.on_piece_saved(1);
    assert!(finished);
    assert_eq!(pool.all_pieces_downloaded(), Some(true));
}

#[test]
fn wrong_bytes_are_caught_by_the_hash() {
    let (t, _, second) = two_piece_torrent();
    let mut pool = PiecePool::new(&t);
    let mut wrong = second.clone();
    wrong[0] ^= 1;
    assert_eq!(pool.on_block_downloaded(1, 0, Bytes::from(wrong)), BlockOutcome::HashMismatch);
    assert_eq!(pool.get_piece(1).unwrap().verify(), Some(false));
}

#[test]
fn a_failed_block_is_handed_out_again() {
    let (t, _, _) = two_piece_torrent();
    let mut pool = PiecePool::new(&t);
    let step = pool.handle_completed_task(CompletedTask::FailedBlock {
        peer_id: "peer-a".to_string(),
        piece_index: 0,
        block_index: 1,
    });
    assert_eq!(
        step,
        PoolStep::Requeue(DownloadBlock { piece_index: 0, block_index: 1, begin: 16384, length: 16384 })
    );
    assert_eq!(
        pool.requeue_block(1, 0),
        DownloadBlock { piece_index: 1, block_index: 0, begin: 0, length: 7232 }
    );
}

#[test]
fn a_piece_that_is_not_downloaded_cannot_be_saved() {
    let (t, _, _) = two_piece_torrent();
    let pool = PiecePool::new(&t);
    let piece = pool.get_piece(0).unwrap();
    assert_eq!(piece.verify(), None);
    assert!(matches!(piece.plan_save(), Err(PieceError::NotDownloaded)));
}

#[test]
fn peers_are_listed_once_per_piece() {
    let (t, _, _) = two_piece_torrent();
    let mut pool = PiecePool::new(&t);
    assert!(pool.get_peers_for_piece(0).is_none());
    pool.add_peer_piece("alpha", 0);
    pool.add_peer_piece("beta", 0);
    pool.add_peer_piece("alpha", 0);
    pool.add_peer_piece("alpha", 1);
    assert_eq!(pool.get_peers_for_piece(0).unwrap(), &vec!["alpha".to_string(), "beta".to_string()]);
    assert_eq!(pool.get_peers_for_piece(1).unwrap(), &vec!["alpha".to_string()]);
}

#[test]
fn the_next_block_is_the_first_missing_block_of_the_next_piece() {
    let (t, _, _) = two_piece_torrent();
    let mut pool = PiecePool::new(&t);
    let block = pool.get_next_block().unwrap();
    assert_eq!((block.index, block.begin), (0, 0));
    assert!(matches!(block.block_state, BlockState::Downloading));
    assert!(matches!(pool.get_piece(0).unwrap().piece_state, PieceState::Downloading));
}

fn file(name: &str, start: usize, end: usize, offset: usize, length: usize) -> FileInfo {
    FileInfo {
        name: Some(name.to_string()),
        length,
        path: vec![name.to_string()],
        md5sum: None,
        offset: Some(offset),
        start_piece: Some(start),
        end_piece: Some(end),
        priority: None,
    }
}

#[test]
fn a_piece_is_written_to_each_file_it_covers() {
    let first = data(32768, 3);
    let second = data(7232, 4);
    let mut hashes = hash(&first);
    hashes.extend(hash(&second));
    let files = vec![file("a", 0, 0, 0, 30000), file("b", 0, 1, 100, 10000), file("c", 1, 1, 16, 0)];
    let t = torrent(40000, 32768, hashes, Some(files));
    assert_eq!(t.info.length(), 40000);
    let mut pool = PiecePool::new(&t);
    assert_eq!(pool.get_piece(0).unwrap().files.len(), 2);
    let covering: Vec<String> = pool.get_piece(1).unwrap().files.iter().map(|f| f.path[0].clone()).collect();
    assert_eq!(covering, vec!["b".to_string(), "c".to_string()]);
    assert_eq!(pool.on_block_downloaded(1, 0, Bytes::from(second.clone())), BlockOutcome::Complete);
    let writes = pool.get_piece(1).unwrap().plan_save().unwrap();
    assert_eq!(writes.len(), 2);
    assert_eq!((writes[0].path.as_str(), writes[0].position), ("b", 32868));
    assert_eq!(writes[0].bytes, second);
    assert_eq!((writes[1].path.as_str(), writes[1].position), ("c", 16));
    assert_eq!(writes[1].bytes, second[16..].to_vec());
}

#[test]
fn queueing_twice_never_asks_for_a_block_twice() {
    let (t, _, _) = two_piece_torrent();
    let mut pool = PiecePool::new(&t);
    let (_, first) = pool.queue_n_tasks(1);
    let (_, second) = pool.queue_n_tasks(1);
    assert_eq!(first.len(), 2);
    assert_eq!(second.len(), 1);
    for a in &first {
        for b in &second {
            assert_ne!((a.piece_index, a.block_index), (b.piece_index, b.block_index));
        }
    }
    let (queued, third) = pool.queue_n_tasks(1);
    assert_eq!(queued, None);
    assert!(third.is_empty());
}

#[test]
fn the_loop_closes_the_channel_only_when_every_piece_is_saved() {
    let (t, first, second) = two_piece_torrent();
    let mut driver = PoolDriver::new(PiecePool::new(&t));
    match driver.step(PoolEvent::Start) {
        PoolCommand::Send(tasks) => assert_eq!(tasks.len(), 3),
        _ => panic!("expected requests"),
    }
    assert!(matches!(driver.step(PoolEvent::Report(downloaded(0, 0, &first[..16384]))), PoolCommand::Wait));
    assert!(matches!(driver.step(PoolEvent::Report(downloaded(0, 1, &first[16384..]))), PoolCommand::Save(0)));
    match driver.step(PoolEvent::Saved(0)) {
        PoolCommand::Send(tasks) => assert!(tasks.is_empty()),
        _ => panic!("one piece is still missing its bytes"),
    }
    assert_eq!(driver.state, RunState::Running);
    let failed = CompletedTask::FailedBlock { peer_id: "p".to_string(), piece_index: 1, block_index: 0 };
    match driver.step(PoolEvent::Report(failed)) {
        PoolCommand::Send(tasks) => {
            assert_eq!(tasks, vec![DownloadBlock { piece_index: 1, block_index: 0, begin: 0, length: 7232 }])
        }
        _ => panic!("expected the request again"),
    }
    assert!(matches!(driver.step(PoolEvent::Report(downloaded(1, 0, &second))), PoolCommand::Save(1)));
    assert!(matches!(driver.step(PoolEvent::Saved(1)), PoolCommand::Close));
    assert_eq!(driver.state, RunState::Closed);
    assert!(matches!(driver.step(PoolEvent::Start), PoolCommand::Stop));
    assert_eq!(driver.pool.all_pieces_downloaded(), Some(true));
}

#[test]
fn a_failed_save_stops_the_loop_without_closing() {
    let (t, _, _) = two_piece_torrent();
    let mut driver = PoolDriver::new(PiecePool::new(&t));
    assert!(matches!(driver.step(PoolEvent::SaveFailed), PoolCommand::Stop));
    assert_eq!(driver.state, RunState::Stopped);
    assert!(matches!(driver.step(PoolEvent::Start), PoolCommand::Stop));
}

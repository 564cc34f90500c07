use sha1::{Digest, Sha1};
use terror::terror::piece::{digest_matches, Priority};
use terror::terror::torrent::{FileInfo, Info, Torrent};
use terror::torrent::calculate_info_hash;

fn info(length: Option<usize>, piece_length: usize, files: Option<Vec<FileInfo>>) -> Info {
    Info {
        length,
        name: "name".to_string(),
        piece_length: Some(piece_length),
        pieces: vec![],
        md5hash: None,
        files,
    }
}

fn torrent(info: Info) -> Torrent {
    Torrent {
        announce: "http://tracker".to_string(),
        announce_list: None,
        comment: None,
        created_by: None,
        creation_date: None,
        info,
        url_list: None,
    }
}

fn file(length: usize) -> FileInfo {
    FileInfo {
        name: None,
        length,
        path: vec!["f".to_string()],
        md5sum: None,
        offset: None,
        start_piece: None,
        end_piece: None,
        priority: Some(Priority::default()),
    }
}

#[test]
fn the_info_hash_is_the_sha1_of_the_info_bytes() {
    let raw = b"d6:lengthi12e4:name1:xe";
    let expected: [u8; 20] = Sha1::digest(raw).into();
    let got = calculate_info_hash(raw);
    assert_eq!(got, expected);
    assert_ne!(got, [0u8; 20]);
}

#[test]
fn the_length_is_given_or_summed_over_the_files() {
    assert_eq!(info(Some(92063), 32768, None).length(), 92063);
    assert_eq!(info(None, 32768, Some(vec![file(10), file(20), file(12)])).length(), 42);
    assert_eq!(info(None, 32768, Some(vec![])).length(), 0);
}

#[test]
fn the_piece_count_rounds_up() {
    assert_eq!(torrent(info(Some(92063), 32768, None)).get_number_of_pieces(), 3);
    assert_eq!(torrent(info(Some(65536), 32768, None)).get_number_of_pieces(), 2);
    assert_eq!(torrent(info(Some(0), 32768, None)).get_number_of_pieces(), 0);
    assert_eq!(torrent(info(Some(1), 32768, None)).get_number_of_pieces(), 1);
}

#[test]
fn the_block_count_is_whole_blocks_per_piece() {
    assert_eq!(torrent(info(Some(92063), 32768, None)).get_number_of_blocks(), 2);
    assert_eq!(torrent(info(Some(92063), 40000, None)).get_number_of_blocks(), 2);
    assert_eq!(torrent(info(Some(92063), 16383, None)).get_number_of_blocks(), 0);
}

#[test]
fn limits_are_as_documented() {
    assert_eq!(Torrent::MAX_CONCURRENT, 4);
    assert_eq!(Torrent::MAX_RETRIES, 2);
}

#[test]
fn priorities_rank_in_order() {
    assert_eq!(Priority::default(), Priority::Normal);
    assert!(Priority::High.rank() < Priority::Normal.rank());
    assert!(Priority::Low.rank() < Priority::Skip.rank());
    assert!(Priority::High < Priority::Skip);
}

#[test]
fn a_file_record_copies_exactly() {
    let f = FileInfo {
        name: Some("n".to_string()),
        length: 5,
        path: vec!["a".to_string(), "b".to_string()],
        md5sum: Some("m".to_string()),
        offset: Some(3),
        start_piece: Some(1),
        end_piece: Some(2),
        priority: Some(Priority::Low),
    };
    let g = f.duplicate();
    assert_eq!(g.name, f.name);
    assert_eq!(g.path, f.path);
    assert_eq!(g.md5sum, f.md5sum);
    assert_eq!((g.length, g.offset, g.start_piece, g.end_piece), (5, Some(3), Some(1), Some(2)));
    assert_eq!(g.priority, Some(Priority::Low));
}

#[test]
fn a_digest_matches_only_its_own_bytes() {
    let d: [u8; 20] = Sha1::digest(b"abc").into();
    assert!(digest_matches(&d, &d.to_vec()));
    let mut other = d.to_vec();
    other[19] ^= 1;
    assert!(!digest_matches(&d, &other));
    assert!(!digest_matches(&d, &d[..19].to_vec()));
}

use terror::terror::torrent::torrent_downloader::{
    DownloaderAction, DownloaderState, TorrentDownloaderMessage,
};
use terror::terror::torrent::torrents_manager::{TorrentManager, TorrentState};

#[test]
fn a_new_downloader_is_paused() {
    assert_eq!(DownloaderState::initial(), DownloaderState::Paused);
}

#[test]
fn start_always_runs_the_download() {
    for s in [
        DownloaderState::Downloading,
        DownloaderState::Paused,
        DownloaderState::Completed,
        DownloaderState::Error,
    ] {
        assert_eq!(
            s.on_message(TorrentDownloaderMessage::Start),
            (DownloaderState::Downloading, DownloaderAction::Run)
        );
    }
}

#[test]
fn pause_and_resume_only_act_on_the_right_state() {
    let s = DownloaderState::Downloading;
    let (paused, action) = s.on_message(TorrentDownloaderMessage::Pause);
    assert_eq!((paused, action), (DownloaderState::Paused, DownloaderAction::PausePieces));
    assert_eq!(
        paused.on_message(TorrentDownloaderMessage::Pause),
        (DownloaderState::Paused, DownloaderAction::Nothing)
    );
    assert_eq!(
        paused.on_message(TorrentDownloaderMessage::Resume),
        (DownloaderState::Downloading, DownloaderAction::ResumePieces)
    );
    assert_eq!(
        DownloaderState::Completed.on_message(TorrentDownloaderMessage::Resume),
        (DownloaderState::Completed, DownloaderAction::Nothing)
    );
    assert_eq!(
        DownloaderState::Error.on_message(TorrentDownloaderMessage::Pause),
        (DownloaderState::Error, DownloaderAction::Nothing)
    );
}

#[test]
fn the_manager_tracks_each_torrent() {
    let mut manager = TorrentManager::new();
    let id = manager.add_torrent();
    assert_eq!(manager.get_torrent_state(id), Some(TorrentState::Paused));
    assert_eq!(manager.pause_torrent(id), None);
    assert_eq!(manager.start_torrent(id), Some(TorrentDownloaderMessage::Start));
    assert_eq!(manager.get_torrent_state(id), Some(TorrentState::Downloading));
    assert_eq!(manager.start_torrent(id), Some(TorrentDownloaderMessage::Start));
    assert_eq!(manager.get_torrent_state(id), Some(TorrentState::Downloading));
    assert_eq!(manager.pause_torrent(id), Some(TorrentDownloaderMessage::Pause));
    assert_eq!(manager.get_torrent_state(id), Some(TorrentState::Paused));
    manager.resume_torrent(id);
    assert_eq!(manager.get_torrent_state(id), Some(TorrentState::Downloading));
    assert_eq!(manager.remove_torrent(id), Some(TorrentState::Error));
    assert_eq!(manager.get_torrent_state(id), None);
    assert_eq!(manager.remove_torrent(id), None);
}

#[test]
fn unknown_torrents_are_left_alone() {
    let mut manager = TorrentManager::new();
    manager.insert_torrent(7);
    assert_eq!(manager.start_torrent(8), None);
    assert_eq!(manager.pause_torrent(8), None);
    manager.resume_torrent(8);
    assert_eq!(manager.get_torrent_state(8), None);
    assert_eq!(manager.get_torrent_state(7), Some(TorrentState::Paused));
}

#[test]
fn fresh_identifiers_differ() {
    let mut manager = TorrentManager::new();
    let a = manager.add_torrent();
    let b = manager.add_torrent();
    assert_ne!(a, b);
    assert_eq!(manager.torrents.len(), 2);
}

//! The downloader of one torrent: its state, the requests it is sent, the
//! block tasks it hands to peers and what the peers hand back.
use vstd::prelude::*;
use bytes::Bytes;

verus! {

#[derive(Debug, Clone, Copy, PartialEq, Eq, Structural)]
pub enum DownloaderState {
    Downloading,
    Paused,
    Completed,
    Error,
}

/// A request sent to a downloader.
#[derive(Debug, Clone, Copy, PartialEq, Eq, Structural)]
pub enum TorrentDownloaderMessage {
    Start,
    Pause,
    Resume,
}

/// What a downloader does after a request.
#[derive(Debug, Clone, Copy, PartialEq, Eq, Structural)]
pub enum DownloaderAction {
    /// Start the peer pool and the piece pool.
    Run,
    /// Pause the piece pool.
    PausePieces,
    /// Resume the piece pool.
    ResumePieces,
    /// Nothing to do.
    Nothing,
}

/// One block for a peer to fetch.
#[derive(Debug, Clone, Copy, PartialEq, Eq, Structural)]
pub struct DownloadBlock {
    pub piece_index: usize,
    pub block_index: usize,
    pub begin: usize,
    pub length: usize,
}

/// What a peer reports back for a block.
pub enum CompletedTask {
    DownloadedBlock { peer_id: String, piece_index: usize, block_index: usize, bytes: Bytes },
    FailedBlock { peer_id: String, piece_index: usize, block_index: usize },
}

/// The state and action that follow a request.
pub open spec fn spec_on_message(state: DownloaderState, msg: TorrentDownloaderMessage) -> (
    DownloaderState,
    DownloaderAction,
) {
    match msg {
        TorrentDownloaderMessage::Start => (DownloaderState::Downloading, DownloaderAction::Run),
        TorrentDownloaderMessage::Pause => if state == DownloaderState::Downloading {
            (DownloaderState::Paused, DownloaderAction::PausePieces)
        } else {
            (state, DownloaderAction::Nothing)
        },
        TorrentDownloaderMessage::Resume => if state == DownloaderState::Paused {
            (DownloaderState::Downloading, DownloaderAction::ResumePieces)
        } else {
            (state, DownloaderAction::Nothing)
        },
    }
}

impl DownloaderState {
    /// A new downloader waits, paused, for its first request.
    pub fn initial() -> (s: DownloaderState)
        ensures
            s == DownloaderState::Paused,
    {
        DownloaderState::Paused
    }

    /// Handles a request: `Start` always starts the download; `Pause` pauses
    /// a running download; `Resume` resumes a paused one. Other requests
    /// change nothing.
    pub fn on_message(self, msg: TorrentDownloaderMessage) -> (r: (DownloaderState, DownloaderAction))
        ensures
            r == spec_on_message(self, msg),
    {
        match msg {
            TorrentDownloaderMessage::Start => (DownloaderState::Downloading, DownloaderAction::Run),
            TorrentDownloaderMessage::Pause => {
                if self == DownloaderState::Downloading {
                    (DownloaderState::Paused, DownloaderAction::PausePieces)
                } else {
                    (self, DownloaderAction::Nothing)
                }
            },
            TorrentDownloaderMessage::Resume => {
                if self == DownloaderState::Paused {
                    (DownloaderState::Downloading, DownloaderAction::ResumePieces)
                } else {
                    (self, DownloaderAction::Nothing)
                }
            },
        }
    }
}

/// Pausing a running download and resuming it brings it back to running,
/// and a paused download is resumed and paused back alike.
pub proof fn lemma_pause_resume_roundtrip(s: DownloaderState)
    requires
        s == DownloaderState::Downloading || s == DownloaderState::Paused,
    ensures
        s == DownloaderState::Downloading ==> spec_on_message(
            spec_on_message(s, TorrentDownloaderMessage::Pause).0,
            TorrentDownloaderMessage::Resume,
        ).0 == s,
        s == DownloaderState::Paused ==> spec_on_message(
            spec_on_message(s, TorrentDownloaderMessage::Resume).0,
            TorrentDownloaderMessage::Pause,
        ).0 == s,
{
}

/// Pausing or resuming twice is the same as doing it once, and the second
/// time does nothing.
pub proof fn lemma_pause_resume_idempotent(s: DownloaderState, msg: TorrentDownloaderMessage)
    requires
        msg != TorrentDownloaderMessage::Start,
    ensures
        spec_on_message(spec_on_message(s, msg).0, msg).0 == spec_on_message(s, msg).0,
        spec_on_message(spec_on_message(s, msg).0, msg).1 == DownloaderAction::Nothing,
{
}

/// A finished or failed download is left alone by pause and resume.
pub proof fn lemma_terminal_states_stay(s: DownloaderState, msg: TorrentDownloaderMessage)
    requires
        s == DownloaderState::Completed || s == DownloaderState::Error,
        msg != TorrentDownloaderMessage::Start,
    ensures
        spec_on_message(s, msg) == (s, DownloaderAction::Nothing),
{
}

} // verus!

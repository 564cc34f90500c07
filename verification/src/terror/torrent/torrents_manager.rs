//! The registry of torrents: each has an identifier and a state, and the
//! manager decides which request goes to its downloader.
use vstd::prelude::*;
use std::collections::HashMap;
use crate::terror::torrent::torrent_downloader::TorrentDownloaderMessage;

verus! {

broadcast use vstd::std_specs::hash::group_hash_axioms;

#[derive(Debug, Clone, Copy, PartialEq, Eq, Structural)]
pub enum TorrentState {
    Downloading,
    Paused,
    Completed,
    Error,
}

/// The torrents under management, by identifier.
pub struct TorrentManager {
    pub torrents: HashMap<u128, TorrentState>,
}

/// `Uuid::new_v4`, as its 128-bit value: a fresh random identifier.
/// Nothing is claimed of the value.
#[verifier::external_body]
fn new_torrent_id() -> (id: u128) {
    uuid::Uuid::new_v4().as_u128()
}

/// Whether the registry holds `id` in state `s`.
pub open spec fn in_state(m: Map<u128, TorrentState>, id: u128, s: TorrentState) -> bool {
    m.contains_key(id) && m[id] == s
}

/// The registry after a start: a paused torrent becomes downloading.
pub open spec fn started(m: Map<u128, TorrentState>, id: u128) -> Map<u128, TorrentState> {
    if in_state(m, id, TorrentState::Paused) {
        m.insert(id, TorrentState::Downloading)
    } else {
        m
    }
}

/// The registry after a pause: a downloading torrent becomes paused.
pub open spec fn paused(m: Map<u128, TorrentState>, id: u128) -> Map<u128, TorrentState> {
    if in_state(m, id, TorrentState::Downloading) {
        m.insert(id, TorrentState::Paused)
    } else {
        m
    }
}

/// The registry after a resume: a paused torrent becomes downloading.
pub open spec fn resumed(m: Map<u128, TorrentState>, id: u128) -> Map<u128, TorrentState> {
    if in_state(m, id, TorrentState::Paused) {
        m.insert(id, TorrentState::Downloading)
    } else {
        m
    }
}

impl View for TorrentManager {
    type V = Map<u128, TorrentState>;

    open spec fn view(&self) -> Map<u128, TorrentState> {
        self.torrents@
    }
}

impl TorrentManager {
    pub fn new() -> (m: TorrentManager)
        ensures
            m@ == Map::<u128, TorrentState>::empty(),
    {
        TorrentManager { torrents: HashMap::new() }
    }

    /// Registers a torrent, paused, under a fresh random identifier, which
    /// is returned.
    pub fn add_torrent(&mut self) -> (id: u128)
        ensures
            final(self)@ == old(self)@.insert(id, TorrentState::Paused),
    {
        let id = new_torrent_id();
        self.insert_torrent(id);
        id
    }

    /// Registers a torrent, paused, under the given identifier.
    pub fn insert_torrent(&mut self, id: u128)
        ensures
            final(self)@ == old(self)@.insert(id, TorrentState::Paused),
    {
        self.torrents.insert(id, TorrentState::Paused);
    }

    /// Starts a torrent: its downloader is always sent `Start`, and a paused
    /// torrent becomes downloading. An unknown identifier changes nothing
    /// and sends nothing.
    pub fn start_torrent(&mut self, id: u128) -> (msg: Option<TorrentDownloaderMessage>)
        ensures
            final(self)@ == started(old(self)@, id),
            old(self)@.contains_key(id) ==> msg == Some(TorrentDownloaderMessage::Start),
            !old(self)@.contains_key(id) ==> msg is None,
    {
        match self.torrents.get(&id) {
            Some(state) => {
                if *state == TorrentState::Paused {
                    self.torrents.insert(id, TorrentState::Downloading);
                }
                Some(TorrentDownloaderMessage::Start)
            },
            None => None,
        }
    }

    /// Pauses a downloading torrent and sends its downloader `Pause`; any
    /// other torrent, or an unknown identifier, is left as it is and nothing
    /// is sent.
    pub fn pause_torrent(&mut self, id: u128) -> (msg: Option<TorrentDownloaderMessage>)
        ensures
            final(self)@ == paused(old(self)@, id),
            msg == (if in_state(old(self)@, id, TorrentState::Downloading) {
                Some(TorrentDownloaderMessage::Pause)
            } else {
                None
            }),
    {
        match self.torrents.get(&id) {
            Some(state) => {
                if *state == TorrentState::Downloading {
                    self.torrents.insert(id, TorrentState::Paused);
                    Some(TorrentDownloaderMessage::Pause)
                } else {
                    None
                }
            },
            None => None,
        }
    }

    /// Marks a paused torrent as downloading again; nothing is sent to its
    /// downloader. Any other torrent is left as it is.
    pub fn resume_torrent(&mut self, id: u128)
        ensures
            final(self)@ == resumed(old(self)@, id),
    {
        match self.torrents.get(&id) {
            Some(state) => {
                if *state == TorrentState::Paused {
                    self.torrents.insert(id, TorrentState::Downloading);
                }
            },
            None => {},
        }
    }

    /// Removes a torrent; its handle ends in the `Error` state, which is
    /// returned. An unknown identifier gives `None`.
    pub fn remove_torrent(&mut self, id: u128) -> (last: Option<TorrentState>)
        ensures
            final(self)@ == old(self)@.remove(id),
            old(self)@.contains_key(id) ==> last == Some(TorrentState::Error),
            !old(self)@.contains_key(id) ==> last is None,
    {
        match self.torrents.remove(&id) {
            Some(_state) => Some(TorrentState::Error),
            None => None,
        }
    }

    /// The state of a torrent, if it is registered.
    pub fn get_torrent_state(&self, id: u128) -> (s: Option<TorrentState>)
        ensures
            self@.contains_key(id) ==> s == Some(self@[id]),
            !self@.contains_key(id) ==> s is None,
    {
        match self.torrents.get(&id) {
            Some(state) => Some(*state),
            None => None,
        }
    }
}

/// Pausing a downloading torrent and then resuming it gives back the
/// registry it started from; resuming a paused one and pausing it does too.
pub proof fn lemma_pause_then_resume(m: Map<u128, TorrentState>, id: u128)
    ensures
        in_state(m, id, TorrentState::Downloading) ==> resumed(paused(m, id), id) == m,
        in_state(m, id, TorrentState::Paused) ==> paused(resumed(m, id), id) == m,
{
    if in_state(m, id, TorrentState::Downloading) {
        assert(resumed(paused(m, id), id) =~= m);
    }
    if in_state(m, id, TorrentState::Paused) {
        assert(paused(resumed(m, id), id) =~= m);
    }
}

/// Every request but removal keeps the set of registered torrents.
pub proof fn lemma_requests_keep_torrents(m: Map<u128, TorrentState>, id: u128)
    ensures
        started(m, id).dom() == m.dom(),
        paused(m, id).dom() == m.dom(),
        resumed(m, id).dom() == m.dom(),
{
    assert(started(m, id).dom() =~= m.dom());
    assert(paused(m, id).dom() =~= m.dom());
    assert(resumed(m, id).dom() =~= m.dom());
}

/// Each request acts on one torrent in one state only: start and resume
/// turn a paused torrent into a downloading one, pause turns a downloading
/// torrent into a paused one, and every other torrent, and every other
/// state of this one, is left exactly as it was.
pub proof fn lemma_requests_act_on_one_state(m: Map<u128, TorrentState>, id: u128, other: u128)
    requires
        other != id,
    ensures
        m.contains_key(id) && m[id] == TorrentState::Paused ==> {
            &&& resumed(m, id)[id] == TorrentState::Downloading
            &&& started(m, id)[id] == TorrentState::Downloading
        },
        m.contains_key(id) && m[id] == TorrentState::Downloading ==> paused(m, id)[id]
            == TorrentState::Paused,
        !(m.contains_key(id) && m[id] == TorrentState::Paused) ==> resumed(m, id) == m && started(
            m,
            id,
        ) == m,
        !(m.contains_key(id) && m[id] == TorrentState::Downloading) ==> paused(m, id) == m,
        resumed(m, id).contains_key(other) == m.contains_key(other),
        m.contains_key(other) ==> resumed(m, id)[other] == m[other] && started(m, id)[other]
            == m[other] && paused(m, id)[other] == m[other],
        resumed(m, id).dom() == m.dom(),
        started(m, id).dom() == m.dom(),
        paused(m, id).dom() == m.dom(),
{
    assert(resumed(m, id).dom() =~= m.dom());
    assert(started(m, id).dom() =~= m.dom());
    assert(paused(m, id).dom() =~= m.dom());
}

} // verus!

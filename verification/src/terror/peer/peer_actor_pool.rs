//! The pool of peer actors, as far as work is shared out: how many requests
//! each peer has queued, which peer gets the next block, and what a peer's
//! report does to the pool.
use vstd::prelude::*;
use vstd::string::StrSliceExecFns;
use crate::terror::torrent::torrent_downloader::CompletedTask;
use crate::text::{lossy_text, utf8_lossy};

verus! {

/// A peer of the pool and the number of requests queued with it.
pub struct PeerLoad {
    pub peer_id: String,
    pub tasks_queued: usize,
}

/// The peers of the pool, in the order they were added.
pub struct PeerRoster {
    pub peers: Vec<PeerLoad>,
}

/// The model of the roster: each peer's id and queued count.
pub open spec fn loads(peers: Seq<PeerLoad>) -> Seq<(Seq<char>, usize)> {
    peers.map_values(|p: PeerLoad| (p.peer_id@, p.tasks_queued))
}

impl View for PeerRoster {
    type V = Seq<(Seq<char>, usize)>;

    open spec fn view(&self) -> Seq<(Seq<char>, usize)> {
        loads(self.peers@)
    }
}

/// The roster without the peers named `id`, in order.
pub open spec fn without(s: Seq<(Seq<char>, usize)>, id: Seq<char>) -> Seq<(Seq<char>, usize)>
    decreases s.len(),
{
    if s.len() == 0 {
        Seq::empty()
    } else if s.last().0 == id {
        without(s.drop_last(), id)
    } else {
        without(s.drop_last(), id).push(s.last())
    }
}

/// `i` is the first peer named `id`.
pub open spec fn first_named(s: Seq<(Seq<char>, usize)>, id: Seq<char>, i: int) -> bool {
    &&& 0 <= i < s.len()
    &&& s[i].0 == id
    &&& forall|k: int| 0 <= k < i ==> (#[trigger] s[k]).0 != id
}

/// `i` is the first peer with the fewest queued requests.
pub open spec fn least_loaded(s: Seq<(Seq<char>, usize)>, i: int) -> bool {
    &&& 0 <= i < s.len()
    &&& forall|k: int| 0 <= k < s.len() ==> s[i].1 <= (#[trigger] s[k]).1
    &&& forall|k: int| 0 <= k < i ==> (#[trigger] s[k]).1 > s[i].1
}

/// A count after one more request: it wraps past the largest `usize`, as
/// the atomic counter does.
pub open spec fn count_up(n: usize) -> usize {
    if n < usize::MAX {
        (n + 1) as usize
    } else {
        0
    }
}

/// A count after one request fewer: it wraps below zero.
pub open spec fn count_down(n: usize) -> usize {
    if n > 0 {
        (n - 1) as usize
    } else {
        usize::MAX
    }
}

impl PeerRoster {
    /// A roster of the given peers, none with a request queued.
    pub fn new(peer_ids: Vec<String>) -> (r: PeerRoster)
        ensures
            r@.len() == peer_ids@.len(),
            forall|k: int|
                0 <= k < peer_ids@.len() ==> (#[trigger] r@[k]) == (peer_ids@[k]@, 0usize),
    {
        let mut peers: Vec<PeerLoad> = Vec::new();
        let mut i: usize = 0;
        while i < peer_ids.len()
            invariant
                i <= peer_ids@.len(),
                peers@.len() == i,
                forall|k: int|
                    0 <= k < i ==> (#[trigger] peers@[k]).peer_id@ == peer_ids@[k]@
                        && peers@[k].tasks_queued == 0,
            decreases peer_ids@.len() - i,
        {
            peers.push(PeerLoad { peer_id: peer_ids[i].clone(), tasks_queued: 0 });
            i = i + 1;
        }
        PeerRoster { peers }
    }

    /// A roster of the peers a tracker listed, each named by its raw id read
    /// as UTF-8 (invalid sequences replaced), none with a request queued.
    pub fn from_raw_ids(raw_ids: &Vec<Vec<u8>>) -> (r: PeerRoster)
        ensures
            r@.len() == raw_ids@.len(),
            forall|k: int|
                0 <= k < raw_ids@.len() ==> (#[trigger] r@[k]) == (lossy_text(raw_ids@[k]@), 0usize),
    {
        let mut peers: Vec<PeerLoad> = Vec::new();
        let mut i: usize = 0;
        while i < raw_ids.len()
            invariant
                i <= raw_ids@.len(),
                peers@.len() == i,
                forall|k: int|
                    0 <= k < i ==> (#[trigger] peers@[k]).peer_id@ == lossy_text(raw_ids@[k]@)
                        && peers@[k].tasks_queued == 0,
            decreases raw_ids@.len() - i,
        {
            peers.push(PeerLoad { peer_id: utf8_lossy(raw_ids[i].as_slice()), tasks_queued: 0 });
            i = i + 1;
        }
        PeerRoster { peers }
    }

    /// The peer to give the next block: the first with the fewest queued
    /// requests; `None` when the pool is empty.
    pub fn get_best_peer(&self) -> (r: Option<usize>)
        ensures
            match r {
                Some(i) => least_loaded(self@, i as int),
                None => self@.len() == 0,
            },
    {
        if self.peers.len() == 0 {
            return None;
        }
        let mut best: usize = 0;
        let mut i: usize = 1;
        while i < self.peers.len()
            invariant
                1 <= i <= self.peers@.len(),
                best < i,
                forall|k: int| 0 <= k < i ==> self@[best as int].1 <= (#[trigger] self@[k]).1,
                forall|k: int| 0 <= k < best ==> (#[trigger] self@[k]).1 > self@[best as int].1,
            decreases self.peers@.len() - i,
        {
            if self.peers[i].tasks_queued < self.peers[best].tasks_queued {
                best = i;
            }
            i = i + 1;
        }
        Some(best)
    }

    /// Counts one more request queued with peer `i`.
    pub fn task_queued(&mut self, i: usize)
        requires
            i < old(self)@.len(),
        ensures
            final(self)@ == old(self)@.update(
                i as int,
                (old(self)@[i as int].0, count_up(old(self)@[i as int].1)),
            ),
    {
        let id = self.peers[i].peer_id.clone();
        let count = self.peers[i].tasks_queued.wrapping_add(1);
        self.peers.set(i, PeerLoad { peer_id: id, tasks_queued: count });
        assert(self@ =~= old(self)@.update(
            i as int,
            (old(self)@[i as int].0, count_up(old(self)@[i as int].1)),
        ));
    }

    /// Takes in a peer's report. A failed block drops every peer with that
    /// id; a downloaded block counts one request fewer for the first peer
    /// with that id, which must be in the pool. Returns whether the report
    /// goes on to the piece pool: only downloaded blocks do.
    pub fn handle_completed_task(&mut self, task: &CompletedTask) -> (forward: bool)
        requires
            match task {
                CompletedTask::DownloadedBlock { peer_id, .. } => exists|i: int|
                    0 <= i < old(self)@.len() && (#[trigger] old(self)@[i]).0 == peer_id@,
                _ => true,
            },
        ensures
            match task {
                CompletedTask::FailedBlock { peer_id, .. } => !forward && final(self)@ == without(
                    old(self)@,
                    peer_id@,
                ),
                CompletedTask::DownloadedBlock { peer_id, .. } => forward && exists|i: int|
                    first_named(old(self)@, peer_id@, i) && final(self)@ == old(self)@.update(
                        i,
                        (old(self)@[i].0, count_down(old(self)@[i].1)),
                    ),
            },
    {
        match task {
            CompletedTask::FailedBlock { peer_id, .. } => {
                self.remove_peer(peer_id);
                false
            },
            CompletedTask::DownloadedBlock { peer_id, .. } => {
                let mut i: usize = 0;
                while i < self.peers.len()
                    invariant
                        i <= self.peers@.len(),
                        forall|k: int| 0 <= k < i ==> (#[trigger] self@[k]).0 != peer_id@,
                        exists|j: int| 0 <= j < self@.len() && (#[trigger] self@[j]).0 == peer_id@,
                    ensures
                        i < self@.len(),
                        self@[i as int].0 == peer_id@,
                        forall|k: int| 0 <= k < i ==> (#[trigger] self@[k]).0 != peer_id@,
                    decreases self.peers@.len() - i,
                {
                    if self.peers[i].peer_id == *peer_id {
                        break;
                    }
                    i = i + 1;
                }
                assert(first_named(self@, peer_id@, i as int));
                let id = self.peers[i].peer_id.clone();
                let count = self.peers[i].tasks_queued.wrapping_sub(1);
                self.peers.set(i, PeerLoad { peer_id: id, tasks_queued: count });
                assert(self@ =~= old(self)@.update(
                    i as int,
                    (old(self)@[i as int].0, count_down(old(self)@[i as int].1)),
                ));
                true
            },
        }
    }

    /// Drops every peer with this id, keeping the order of the others.
    fn remove_peer(&mut self, peer_id: &String)
        ensures
            final(self)@ == without(old(self)@, peer_id@),
    {
        let mut kept: Vec<PeerLoad> = Vec::new();
        let mut i: usize = 0;
        let ghost start = self@;
        while i < self.peers.len()
            invariant
                i <= self.peers@.len(),
                self@ == start,
                loads(kept@) == without(start.take(i as int), peer_id@),
            decreases self.peers@.len() - i,
        {
            proof {
                assert(start.take(i as int + 1).drop_last() =~= start.take(i as int));
            }
            if self.peers[i].peer_id != *peer_id {
                let id = self.peers[i].peer_id.clone();
                kept.push(PeerLoad { peer_id: id, tasks_queued: self.peers[i].tasks_queued });
                assert(loads(kept@) =~= loads(kept@.drop_last()).push(start[i as int]));
            }
            i = i + 1;
        }
        assert(start.take(start.len() as int) =~= start);
        self.peers = kept;
    }
}

/// Dropping a peer leaves no peer of that name, and dropping it again
/// changes nothing.
pub proof fn lemma_without_removes(s: Seq<(Seq<char>, usize)>, id: Seq<char>)
    ensures
        forall|k: int| 0 <= k < without(s, id).len() ==> (#[trigger] without(s, id)[k]).0 != id,
        without(without(s, id), id) == without(s, id),
        without(s, id).len() <= s.len(),
    decreases s.len(),
{
    if s.len() > 0 {
        lemma_without_removes(s.drop_last(), id);
        let w = without(s.drop_last(), id);
        if s.last().0 != id {
            assert(w.push(s.last()).drop_last() =~= w);
            assert(without(w.push(s.last()), id) == without(w, id).push(s.last()));
        }
    }
}

/// Dropping the peers named `id` keeps every other peer, with its queued
/// count, in its order: the roster filtered to the entries whose name is not
/// `id`. In particular an entry is kept exactly when it was there and is not
/// named `id`.
pub proof fn lemma_without_is_filter(s: Seq<(Seq<char>, usize)>, id: Seq<char>)
    ensures
        without(s, id) == s.filter(|e: (Seq<char>, usize)| e.0 != id),
        forall|e: (Seq<char>, usize)| without(s, id).contains(e) <==> (s.contains(e) && e.0 != id),
    decreases s.len(),
{
    reveal_with_fuel(Seq::<(Seq<char>, usize)>::filter, 1);
    let pred = |e: (Seq<char>, usize)| e.0 != id;
    if s.len() > 0 {
        lemma_without_is_filter(s.drop_last(), id);
    }
    assert(without(s, id) =~= s.filter(pred));
    assert forall|e: (Seq<char>, usize)| without(s, id).contains(e) <==> (s.contains(e) && e.0 != id) by {
        if s.contains(e) && e.0 != id {
            let i = choose|i: int| 0 <= i < s.len() && s[i] == e;
            s.lemma_filter_contains(pred, i);
        }
        if without(s, id).contains(e) {
            s.lemma_filter_contains_rev(pred, e);
            let i = choose|i: int| 0 <= i < s.filter(pred).len() && s.filter(pred)[i] == e;
            s.lemma_filter_pred(pred, i);
        }
    }
}

} // verus!
